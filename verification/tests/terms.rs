use table_canon_core::terms::{
    escape_fts_term, extract_terms, extract_terms_limited, extract_terms_relaxed, is_stopword,
    stopwords, unescape_fts_term,
};

fn words() -> Vec<String> {
    stopwords("# 停用词\n的\n了\n 我们 \n\n在\n那个\n")
}

#[test]
fn long_oral_extracts_bartender_4gram() {
    let terms = extract_terms("我们之前在那个独眼酒保的店里拿到了货", &words());
    let raw: Vec<String> = terms.iter().map(|t| unescape_fts_term(t)).collect();
    assert!(
        raw.iter().any(|t| t == "独眼酒保"),
        "expected 4-gram 独眼酒保, terms={raw:?}"
    );
    assert!(
        !raw.iter().any(|t| t == "独眼" || t == "酒保" || t == "店" || t == "货"),
        "1-2 char terms must not enter A-layer FTS, terms={raw:?}"
    );
}

#[test]
fn and_is_quoted() {
    let t = escape_fts_term("AND");
    assert_eq!(t, "\"AND\"");
    let terms = extract_terms("AND 格里姆", &words());
    assert!(
        terms.iter().any(|x| unescape_fts_term(x).eq_ignore_ascii_case("AND")),
        "{terms:?}"
    );
}

#[test]
fn compact_pinyin_from_spaced() {
    let terms = extract_terms("ge li mu", &words());
    let raw: Vec<String> = terms.iter().map(|t| unescape_fts_term(t)).collect();
    assert!(raw.iter().any(|t| t == "gelimu"), "{raw:?}");
}

#[test]
fn stop_words() {
    assert_eq!(words(), vec!["的", "了", "我们", "在", "那个"]);
    assert!(is_stopword(&words(), "我们"));
    assert!(!is_stopword(&words(), "我"));
    let terms = extract_terms("那个人", &stopwords("那个人"));
    assert!(!terms.contains(&"\"那个人\"".to_string()), "{terms:?}");
    assert!(extract_terms("那个人", &vec![]).contains(&"\"那个人\"".to_string()));
}

#[test]
fn escaping_comes_undone() {
    for t in ["AND", "格里姆", "a\"b"] {
        assert_eq!(unescape_fts_term(&escape_fts_term(t)), t);
    }
    assert_eq!(escape_fts_term("a\"b"), "\"a\"\"b\"");
}

#[test]
fn terms_have_three_characters() {
    let all = extract_terms_relaxed("我们之前在那个独眼酒保的店里拿到了货 ab cde", &words());
    assert!(all.iter().all(|t| unescape_fts_term(t).chars().count() >= 3), "{all:?}");
    assert!(all.contains(&escape_fts_term("cde")));
    assert!(extract_terms("", &words()).is_empty());
    assert!(extract_terms("酒保", &words()).iter().all(|t| !t.contains("酒")));
}

#[test]
fn terms_are_capped() {
    let q = "一二三四五六七八九十";
    assert!(extract_terms_limited(q, 2, 32, &vec![]).len() <= 2);
    assert!(extract_terms_limited(q, 0, 32, &vec![]).is_empty());
}
