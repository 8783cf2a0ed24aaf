use table_canon_core::normalize::{
    alt_anchor, first_n_chars, hanzi_count, is_hanzi, is_latin_or_digit, normalize, path_key,
    sha1_body_hex, sha1_hex, sha256_file_hex, stable_key,
};
use table_canon_core::pinyin_idx::{
    char_readings, phrase_pinyin_variants, search_pinyin_blob, sort_readings, spell_all,
};

#[test]
fn digests() {
    assert_eq!(sha1_hex("abc"), "a9993e364706816aba3e25717850c26c9cd0d89d");
    assert_eq!(sha1_body_hex("x"), sha1_hex("body:x"));
    assert_eq!(sha256_file_hex(b"abc"), sha1_hex("file:abc"));
}

#[test]
fn normal_form() {
    assert_eq!(normalize("　ＡＢＣ　１２\t\n x "), "ABC 12 x");
    assert_eq!(normalize("  "), "");
    assert_eq!(normalize("酒\u{3000}\u{3000}馆"), "酒 馆");
    for s in ["　Ａ  b", "~ \u{FF5E}", "甲\u{85}乙"] {
        assert_eq!(normalize(&normalize(s)), normalize(s));
    }
}

#[test]
fn characters() {
    assert!(is_hanzi('一') && is_hanzi('\u{3400}') && is_hanzi('\u{9FFF}'));
    assert!(!is_hanzi('a') && !is_hanzi('\u{A000}'));
    assert!(is_latin_or_digit('Z') && is_latin_or_digit('0') && !is_latin_or_digit('é'));
    assert_eq!(hanzi_count("a甲b乙"), 2);
    assert_eq!(first_n_chars("甲乙丙", 2), "甲乙");
    assert_eq!(first_n_chars("甲", 5), "甲");
}

#[test]
fn keys() {
    assert_eq!(stable_key("甲 ", "乙", -7), sha1_hex("甲|乙|-7"));
    assert_eq!(path_key("甲", "　乙"), sha1_hex("甲|乙"));
    let body = "字".repeat(100);
    assert_eq!(alt_anchor("甲", &body), sha1_hex(&format!("甲|{}", "字".repeat(80))));
    assert_eq!(alt_anchor("甲", &body), alt_anchor("甲", &format!("{body}更多")));
}

#[test]
fn readings_of_a_character() {
    assert!(char_readings('行').contains(&"hang".to_string()));
    assert!(char_readings('行').contains(&"xing".to_string()));
    assert_eq!(char_readings('格')[0], "ge");
    assert!(char_readings('a').is_empty());
    assert_eq!(
        sort_readings(&vec!["b".to_string(), "a".to_string(), "b".to_string()], None),
        vec!["a", "b"]
    );
}

#[test]
fn spellings_of_a_phrase() {
    let v = phrase_pinyin_variants("格里姆");
    assert!(v.contains(&"ge li mu".to_string()), "{v:?}");
    assert!(v.contains(&"glm".to_string()), "{v:?}");
    assert!(!v.contains(&"gelimu".to_string()), "{v:?}");
    let mut sorted = v.clone();
    sorted.sort();
    assert_eq!(v, sorted);
    assert!(phrase_pinyin_variants("abc").is_empty());
}

#[test]
fn sounds_of_an_entry() {
    let blob = search_pinyin_blob("格里姆", "", &["老格".to_string()]);
    let all: Vec<&str> = blob.lines().collect();
    for want in ["ge li mu", "gelimu", "glm", "lao ge", "laoge", "lg"] {
        assert!(all.contains(&want), "{want}: {blob}");
    }
    assert_eq!(search_pinyin_blob("", "格a", &[]), char_readings('格').join("\n"));
}

#[test]
fn every_reading_is_there() {
    let first = char_readings('银');
    let second = char_readings('行');
    assert!(first.len() * second.len() <= 16);
    let v = phrase_pinyin_variants("银行");
    for a in &first {
        for b in &second {
            assert!(v.contains(&format!("{a} {b}")), "{v:?}");
            let short: String = a.chars().take(1).chain(b.chars().take(1)).collect();
            assert!(v.contains(&short), "{v:?}");
        }
    }
    assert_eq!(v, phrase_pinyin_variants("x银-行 1"));
    assert!(v.contains(&"yin hang".to_string()) && v.contains(&"yin xing".to_string()));
}

#[test]
fn sets_of_syllables() {
    let set = |items: &[&str]| -> Vec<Vec<char>> {
        items.iter().map(|s| s.chars().collect()).collect()
    };
    let all = spell_all(&vec![set(&["ge", "he"]), set(&["li"])]);
    assert_eq!(all, vec!["ge li", "gl", "he li", "hl"]);
    let cut = spell_all(&vec![set(&["ge", "he"]), set(&[]), set(&["mu"])]);
    assert_eq!(cut, vec!["ge", "he"]);
    assert_eq!(spell_all(&vec![set(&[])]), vec![""]);
}
