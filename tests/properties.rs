use base1000::{
    build, bundled_sources, bundled_tables, chunk_positions, decode, decode_all, encode_with_rng,
    BuildError, Tables, THOUSAND_CHARACTER_CLASSIC,
};
use rand::rngs::StdRng;
use rand::SeedableRng;

fn tables() -> Tables {
    bundled_tables().expect("the bundled corpus is whole")
}

fn variant_sources() -> Vec<String> {
    let classic = THOUSAND_CHARACTER_CLASSIC.to_string();
    let variant = classic.replace('黃', "黄").replace('爲', "为").replace('號', "号");
    vec![classic, variant]
}

#[test]
fn round_trip_over_many_seeds() {
    let tables = tables();
    let inputs = ["a", "Hello, world!", "114514", "夜裳移柰梧", "\u{0}", "zzz 123 ~"];
    for seed in 0..40u64 {
        for input in inputs.iter() {
            let mut rng = StdRng::seed_from_u64(seed);
            let encoded = encode_with_rng(&tables, input.to_string(), &mut rng);
            let decoded = decode_all(&tables, encoded);
            assert!(decoded.contains(&input.to_string()), "seed {} input {:?}", seed, input);
        }
    }
}

#[test]
fn round_trip_with_variant_sources() {
    let tables = build(&variant_sources()).expect("both sources are whole");
    for seed in 0..40u64 {
        let mut rng = StdRng::seed_from_u64(seed);
        let encoded = encode_with_rng(&tables, "round trip".to_string(), &mut rng);
        assert!(decode_all(&tables, encoded).contains(&"round trip".to_string()));
    }
}

#[test]
fn leading_zero_byte_is_lost() {
    let tables = tables();
    let mut rng = StdRng::seed_from_u64(1);
    let encoded = encode_with_rng(&tables, "\u{0}a".to_string(), &mut rng);
    assert_eq!(encoded, "民");
    let decoded = decode_all(&tables, encoded);
    assert_eq!(decoded, vec!["a".to_string()]);
}

#[test]
fn empty_text_round_trip() {
    let tables = tables();
    let mut rng = StdRng::seed_from_u64(7);
    assert_eq!(encode_with_rng(&tables, String::new(), &mut rng), "");
    assert_eq!(decode_all(&tables, String::new()), vec![String::new()]);
}

#[test]
fn seeded_encoding_is_repeatable() {
    let tables = build(&variant_sources()).expect("both sources are whole");
    let text = "黃爲號 repeated".to_string();
    for seed in [0u64, 5, 42, 1000] {
        let mut rng1 = StdRng::seed_from_u64(seed);
        let mut rng2 = StdRng::seed_from_u64(seed);
        let first = encode_with_rng(&tables, text.clone(), &mut rng1);
        let second = encode_with_rng(&tables, text.clone(), &mut rng2);
        assert_eq!(first, second);
    }
}

#[test]
fn matrix_is_complete() {
    let tables = tables();
    let matrix = tables.matrix();
    assert_eq!(matrix.len(), 1000);
    assert!(matrix.iter().all(|row| !row.is_empty()));
    assert_eq!(matrix[0], vec!['天']);
    assert_eq!(matrix[999], vec!['也']);
}

#[test]
fn variant_sources_merge_per_position() {
    let tables = build(&variant_sources()).expect("both sources are whole");
    let matrix = tables.matrix();
    assert_eq!(matrix[3], vec!['黃', '黄']);
    assert_eq!(matrix[2], vec!['玄']);
    assert_eq!(tables.positions_of('黄'), vec![3]);
    assert_eq!(tables.positions_of('天'), vec![0]);
    assert_eq!(tables.positions_of('x'), Vec::<u16>::new());
}

#[test]
fn repeated_character_has_every_position() {
    let mut source: String = THOUSAND_CHARACTER_CLASSIC.to_string();
    source = source.replacen('地', "天", 1);
    let tables = build(&vec![source]).expect("the source is whole");
    assert_eq!(tables.positions_of('天'), vec![0, 1]);
    let decoded = decode_all(&tables, "天".to_string());
    // 000 reads as a zero byte, 001 as the byte one.
    assert_eq!(decoded, vec!["\u{0}".to_string(), "\u{1}".to_string()]);
}

#[test]
fn absent_characters_decode_to_nothing() {
    let tables = tables();
    assert!(decode_all(&tables, "xyz".to_string()).is_empty());
    assert!(decode_all(&tables, "夜x".to_string()).is_empty());
}

#[test]
fn aligned_numeral_is_not_padded() {
    // The bytes 1, 0 are the number 256, whose numeral has three digits.
    assert_eq!(chunk_positions(&[1, 0]), vec![256]);
    let tables = tables();
    let mut rng = StdRng::seed_from_u64(3);
    let encoded = encode_with_rng(&tables, "\u{1}\u{0}".to_string(), &mut rng);
    assert_eq!(encoded, "臨");
    assert_eq!(decode_all(&tables, encoded), vec!["\u{1}\u{0}".to_string()]);
}

#[test]
fn unaligned_numeral_is_padded() {
    assert_eq!(chunk_positions(b"114514"), vec![54, 87, 399, 59, 764]);
    assert_eq!(chunk_positions(&[0]), vec![0]);
    assert_eq!(chunk_positions(&[255]), vec![255]);
    assert_eq!(chunk_positions(&[1, 0, 0]), vec![65, 536]);
}

#[test]
fn golden_value_decodes_back() {
    let tables = tables();
    let decoded = decode_all(&tables, "夜裳移柰梧".to_string());
    assert!(decoded.contains(&"114514".to_string()));
}

#[test]
fn invalid_utf8_candidates_are_dropped() {
    let tables = tables();
    // Position 255 reads as the single byte 255, which is no UTF-8.
    assert!(decode_all(&tables, "命".to_string()).is_empty());
}

#[test]
fn decoding_is_lazy_and_ends() {
    let tables = tables();
    let mut decoding = decode(&tables, "夜裳移柰梧".to_string());
    assert_eq!(decoding.next(), Some("114514".to_string()));
    assert_eq!(decoding.next(), None);
    assert_eq!(decoding.next(), None);
}

#[test]
fn build_rejects_no_source() {
    assert_eq!(build(&Vec::new()).err(), Some(BuildError::NoSource));
}

#[test]
fn build_rejects_wrong_length() {
    let mut sources = bundled_sources();
    sources.push("天地 玄黃".to_string());
    assert_eq!(
        build(&sources).err(),
        Some(BuildError::WrongLength { source: 1, count: 4 })
    );
}

#[test]
fn build_skips_white_space() {
    let spaced: String = THOUSAND_CHARACTER_CLASSIC
        .chars()
        .flat_map(|c| vec![c, ' '])
        .collect();
    let tables = build(&vec![format!("\t{}\u{3000}\n", spaced)]).expect("white space is skipped");
    assert_eq!(tables.matrix()[4], vec!['宇']);
}
