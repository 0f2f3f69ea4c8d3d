//! The bundled corpus.

use crate::table::{build, scan, strip, texts, BuildError, Tables, POSITIONS};
use vstd::prelude::*;

verus! {

/// The Thousand Character Classic: one thousand characters, one per
/// position, written in lines of eight phrases of four characters.
pub const THOUSAND_CHARACTER_CLASSIC: &'static str = "天地玄黃宇宙洪荒日月盈昃辰宿列張寒來暑往秋收冬藏閏餘成歲律呂調陽
雲騰致雨露結爲霜金生麗水玉出崑岡劍號巨闕珠稱夜光果珍李柰菜重芥薑
海鹹河淡鱗潛羽翔龍師火帝鳥官人皇始制文字乃服衣裳推位讓國有虞陶唐
弔民伐罪周發殷湯坐朝問道垂拱平章愛育黎首臣伏戎羌遐邇一體率賓歸王
鳴鳳在竹白駒食場化被草木賴及萬方蓋此身髮四大五常恭惟鞠養豈敢毀傷
女慕貞絜男效才良知過必改得能莫忘罔談彼短靡恃己長信使可覆器欲難量
墨悲絲染詩讚羔羊景行維賢克念作聖德建名立形端表正空谷傳聲虛堂習聽
禍因惡積福緣善慶尺璧非寶寸陰是競資父事君曰嚴與敬孝當竭力忠則盡命
臨深履薄夙興溫凊似蘭斯馨如松之盛川流不息淵澄取映容止若思言辭安定
篤初誠美慎終宜令榮業所基籍甚無竟學優登仕攝職從政存以甘棠去而益詠
樂殊貴賤禮別尊卑上和下睦夫唱婦隨外受傅訓入奉母儀諸姑伯叔猶子比兒
孔懷兄弟同氣連枝交友投分切磨箴規仁慈隱惻造次弗離節義廉退顛沛匪虧
性靜情逸心動神疲守真志滿逐物意移堅持雅操好爵自縻都邑華夏東西二京
背邙面洛浮渭據涇宮殿盤鬱樓觀飛驚圖寫禽獸畫彩仙靈丙舍傍啟甲帳對楹
肆筵設席鼓瑟吹笙升階納陛弁轉疑星右通廣內左達承明既集墳典亦聚群英
杜稿鍾隸漆書壁經府羅將相路俠槐卿戶封八縣家給千兵高冠陪輦驅轂振纓
世祿侈富車駕肥輕策功茂實勒碑刻銘磻溪伊尹佐時阿衡奄宅曲阜微旦孰營
桓公匡合濟弱扶傾綺迴漢惠說感武丁俊乂密勿多士寔寧晉楚更霸趙魏困橫
假途滅虢踐土會盟何遵約法韓弊煩刑起翦頗牧用軍最精宣威沙漠馳譽丹青
九州禹跡百郡秦并嶽宗泰岱禪主云亭雁門紫塞雞田赤城昆池碣石鉅野洞庭
曠遠綿邈巖岫杳冥治本於農務茲稼穡俶載南畝我藝黍稷稅熟貢新勸賞黜陟
孟軻敦素史魚秉直庶幾中庸勞謙謹敕聆音察理鑒貌辨色貽厥嘉猷勉其祗植
省躬譏誡寵增抗極殆辱近恥林皋幸即兩疏見機解組誰逼索居閒處沉默寂寥
求古尋論散慮逍遙欣奏累遣慼謝歡招渠荷的歷園莽抽條枇杷晚翠梧桐蚤凋
陳根委翳落葉飄颻遊鵾獨運凌摩絳霄耽讀翫市寓目囊箱易輶攸畏屬耳垣牆
具膳餐飯適口充腸飽飫烹宰飢厭糟糠親戚故舊老少異糧妾御績紡侍巾帷房
紈扇圓潔銀燭煒煌晝眠夕寐藍筍象床弦歌酒宴接杯舉觴矯手頓足悅豫且康
嫡後嗣續祭祀烝嘗稽顙再拜悚懼恐惶箋牒簡要顧答審詳骸垢想浴執熱願涼
驢騾犢特駭躍超驤誅斬賊盜捕獲叛亡布射遼丸嵇琴阮嘯恬筆倫紙鈞巧任釣
釋紛利俗竝皆佳妙毛施淑姿工顰妍笑年矢每催曦暉朗曜璇璣懸斡晦魄環照
指薪修祜永綏吉劭矩步引領俯仰廊廟束帶矜莊徘徊瞻眺孤陋寡聞愚蒙等誚
謂語助者焉哉乎也
";

/// The source texts of the bundled corpus.
pub fn bundled_sources() -> (r: Vec<String>)
    ensures
        r@.len() == 1,
        r@[0]@ == THOUSAND_CHARACTER_CLASSIC@,
{
    let mut r: Vec<String> = Vec::new();
    r.push(THOUSAND_CHARACTER_CLASSIC.to_owned());
    r
}

/// The tables of the bundled corpus.
pub fn bundled_tables() -> (r: Result<Tables, BuildError>)
    ensures
        match r {
            Ok(t) => {
                &&& t.wf()
                &&& t.scanned() == scan(seq![THOUSAND_CHARACTER_CLASSIC@])
                &&& strip(THOUSAND_CHARACTER_CLASSIC@).len() == POSITIONS
            },
            Err(e) => {
                &&& strip(THOUSAND_CHARACTER_CLASSIC@).len() != POSITIONS
                &&& e == BuildError::WrongLength {
                    source: 0,
                    count: strip(THOUSAND_CHARACTER_CLASSIC@).len() as usize,
                }
            },
        },
{
    let sources = bundled_sources();
    let r = build(&sources);
    proof {
        assert(texts(sources@) =~= seq![THOUSAND_CHARACTER_CLASSIC@]);
    }
    r
}

} // verus!
