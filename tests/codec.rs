use base1000::{bundled_tables, decode_all, encode, encode_with_rng, Tables};
use rand::rngs::StdRng;
use rand::SeedableRng;

fn tables() -> Tables {
    bundled_tables().expect("the bundled corpus is whole")
}

#[test]
fn test_invalid_character_in_decode() {
    let tables = tables();
    let invalid_text = String::from("InvalidCharacters");
    let decoded: Vec<String> = decode_all(&tables, invalid_text);
    assert!(decoded.is_empty());
}

#[test]
fn test_encode() {
    let tables = tables();
    let text = String::from("Hello, world!");
    let encoded = encode(&tables, text.clone());
    assert!(!encoded.is_empty());
    assert_ne!(encoded, text);
}

#[test]
fn test_encode_deterministic() {
    let tables = tables();
    let text = String::from("114514");
    let mut rng1 = StdRng::seed_from_u64(42);
    let mut rng2 = StdRng::seed_from_u64(42);
    let encoded1 = encode_with_rng(&tables, text.clone(), &mut rng1);
    let encoded2 = encode_with_rng(&tables, text.clone(), &mut rng2);
    assert_eq!(encoded1, encoded2);
    assert_eq!(encoded1, "夜裳移柰梧");
}

#[test]
fn test_qzw_initialization() {
    let tables = tables();
    let qzw = tables.matrix();
    assert!(!qzw.is_empty());
    assert_eq!(qzw.len(), 1000);
}

#[test]
fn test_decode() {
    let tables = tables();
    let text = String::from("Hello, world!");
    let encoded = encode(&tables, text.clone());
    let decoded: Vec<String> = decode_all(&tables, encoded);
    assert!(decoded.contains(&text));
}

#[test]
fn test_empty_input() {
    let tables = tables();
    let text = String::from("");
    let encoded = encode(&tables, text.clone());
    assert!(encoded.is_empty());
    let decoded: Vec<String> = decode_all(&tables, encoded);
    // The empty product has one empty tuple, which stands for the empty text.
    assert_eq!(decoded, vec![String::new()]);
}
