use table_canon_core::ingest::{
    blocks_from_docx, blocks_from_html, blocks_from_markdown, blocks_from_paragraphs,
    blocks_from_plain, blocks_to_drafts, build_search_text, collect_aliases, decode_bytes,
    extract_aliases, file_kind, guess_entity_type, guess_visibility, is_secret_markup_line,
    parse_file, pick_text, FileKind, Paragraph,
};
use table_canon_core::outside::RegexMatch;
use table_canon_core::types::Block;

#[test]
fn atx_requires_space() {
    let blocks = blocks_from_markdown("#not-heading\n\n# Real Title\n\nbody");
    assert!(
        blocks.iter().any(|b| b.title == "Real Title"),
        "{:?}",
        blocks.iter().map(|b| &b.title).collect::<Vec<_>>()
    );
    assert!(
        !blocks.iter().any(|b| b.title == "not-heading"),
        "{:?}",
        blocks.iter().map(|b| &b.title).collect::<Vec<_>>()
    );
}

#[test]
fn html_headings() {
    let blocks = blocks_from_html("<h2>断桅酒馆</h2><p>地点。一楼卖劣酒。</p>");
    assert!(
        blocks.iter().any(|b| b.title.contains("断桅酒馆")),
        "{:?}",
        blocks.iter().map(|b| &b.title).collect::<Vec<_>>()
    );
}

#[test]
fn gb18030_roundtrip() {
    let (bytes, _, _) = encoding_rs::GB18030.encode("独眼酒保");
    let s = decode_bytes(&bytes).unwrap();
    assert!(s.contains("独眼酒保"), "{s}");
}

#[test]
fn utf8_and_byte_order_marks() {
    assert_eq!(decode_bytes("老格".as_bytes()).unwrap(), "老格");
    assert_eq!(decode_bytes(&[0xFF, 0xFE, 0x41, 0x00]).unwrap(), "A");
    assert_eq!(
        pick_text(None, ("坏".to_string(), true), "好".to_string()),
        "好"
    );
    assert_eq!(
        pick_text(Some("一".to_string()), ("二".to_string(), false), "三".to_string()),
        "一"
    );
}

#[test]
fn html_headings_keep_their_level() {
    let blocks = blocks_from_html("<h3 class=\"x\"> 港<b>口</b> </h3><script>var a = 1;</script><p>潮水。</p>");
    assert_eq!(blocks.len(), 1);
    assert_eq!(blocks[0].heading_level, 3);
    assert_eq!(blocks[0].title, "港 口");
    assert_eq!(blocks[0].text, "潮水。");
}

#[test]
fn markdown_headings_of_both_kinds() {
    let text = "开场\n\n大标题\n=====\n正文一\n\n小标题\n---\n正文二\n\n***\n\n### 深 ###\n正文三\n\n# #\n正文四";
    let blocks = blocks_from_markdown(text);
    let got: Vec<(u8, &str, &str)> = blocks
        .iter()
        .map(|b| (b.heading_level, b.title.as_str(), b.text.as_str()))
        .collect();
    assert_eq!(
        got,
        vec![
            (1, "文档", "开场"),
            (1, "大标题", "正文一"),
            (2, "小标题", "正文二"),
            (3, "深", "正文三"),
            (1, "未命名", "正文四"),
        ]
    );
}

#[test]
fn markdown_without_text_falls_back_to_plain() {
    let blocks = blocks_from_markdown("# 只有标题");
    assert_eq!(blocks.len(), 1);
    assert_eq!(blocks[0].title, "# 只有标题");
    assert_eq!(blocks[0].text, "# 只有标题");
    assert!(blocks_from_markdown("  \n\n").is_empty());
}

#[test]
fn plain_text_is_cut_at_blank_lines() {
    let long = "甲".repeat(81);
    let blocks = blocks_from_plain(&format!("{long}\n\n短\n\n尾"));
    assert_eq!(blocks.len(), 2);
    assert_eq!(blocks[0].text, long);
    assert_eq!(blocks[0].title, "甲".repeat(40));
    assert_eq!(blocks[1].text, "短\n\n尾");
    let big = "乙".repeat(2000);
    assert_eq!(blocks_from_plain(&format!("{big}\n丙")).len(), 2);
    assert!(blocks_from_plain("").is_empty());
}

#[test]
fn long_blocks_repeat_eighty_characters() {
    let a = "甲".repeat(1500);
    let b = "乙".repeat(1000);
    let blocks = blocks_from_markdown(&format!("# 章\n{a}\n{b}"));
    assert_eq!(blocks.len(), 2);
    assert_eq!(blocks[0].text, a);
    assert_eq!(blocks[1].text, format!("{}\n{}", "甲".repeat(79), b));
    assert_eq!(blocks[1].title, "章");
}

#[test]
fn word_documents() {
    let xml = concat_parts(&[
        "<w:p><w:r><w:t>引言 &amp; 说明</w:t></w:r></w:p>",
        "<w:p ><w:pPr><w:pStyle w:val=\"Heading2\"/></w:pPr><w:r><w:t>港口</w:t></w:r></w:p>",
        "<w:p><w:r><w:t>潮水</w:t></w:r><w:r><w:t xml:space=\"preserve\">很大。</w:t></w:r></w:p>",
        "<w:p></w:p>",
        "<w:p><w:r><w:t>&lt;完&gt;</w:t></w:r></w:p>",
    ]);
    let blocks = blocks_from_docx(&xml).unwrap();
    let got: Vec<(u8, &str, &str)> = blocks
        .iter()
        .map(|b| (b.heading_level, b.title.as_str(), b.text.as_str()))
        .collect();
    assert_eq!(
        got,
        vec![(1, "文档", "引言 & 说明"), (2, "港口", "潮水很大。\n\n<完>")]
    );
    assert_eq!(
        blocks_from_docx("<w:p></w:p>").unwrap_err().message,
        "docx 未抽出文本"
    );
}

fn concat_parts(parts: &[&str]) -> String {
    parts.iter().map(|s| s.to_string()).collect()
}

#[test]
fn word_paragraphs() {
    let ps = vec![
        Paragraph {
            runs: vec![],
            style: Some("heading9".to_string()),
        },
        Paragraph {
            runs: vec!["a".to_string(), "b&apos;".to_string()],
            style: None,
        },
    ];
    let blocks = blocks_from_paragraphs(&ps).unwrap();
    assert_eq!(blocks.len(), 1);
    assert_eq!(blocks[0].heading_level, 4);
    assert_eq!(blocks[0].title, "未命名");
    assert_eq!(blocks[0].text, "ab'");
}

#[test]
fn file_kinds() {
    assert_eq!(file_kind("MD").unwrap(), FileKind::Markdown);
    assert_eq!(file_kind("htm").unwrap(), FileKind::Html);
    assert_eq!(file_kind("rtf").unwrap(), FileKind::Plain);
    assert_eq!(file_kind("docx").unwrap(), FileKind::Docx);
    assert_eq!(
        file_kind("pdf").unwrap_err().message,
        "PDF 文本层抽取未纳入本 demo"
    );
    assert_eq!(
        file_kind("doc").unwrap_err().message,
        "不支持 .doc，请另存为 .docx"
    );
    assert_eq!(file_kind("XYZ").unwrap_err().message, "不支持的文件类型: xyz");
    assert_eq!(parse_file("txt", "甲乙").unwrap()[0].text, "甲乙");
    assert_eq!(parse_file("html", "<h1>题</h1>文").unwrap()[0].title, "题");
    assert_eq!(parse_file("exe", "").unwrap_err().message, "不支持的文件类型: exe");
}

#[test]
fn kinds_of_entries() {
    assert_eq!(guess_entity_type("老格", "NPC，独眼酒保"), "npc");
    assert_eq!(guess_entity_type("断桅酒馆", "一楼卖劣酒"), "location");
    assert_eq!(guess_entity_type("短剑", "武器"), "item");
    assert_eq!(guess_entity_type("猎人", "一个公会"), "faction");
    assert_eq!(guess_entity_type("加值", "规则说明"), "rule");
    assert_eq!(guess_entity_type("走私", "密谋"), "plot");
    assert_eq!(guess_entity_type("风", "没有什么"), "other");
    assert_eq!(guess_entity_type("风", &format!("{}人物", "啊".repeat(80))), "other");
}

#[test]
fn aliases_are_found_sorted_once() {
    assert_eq!(
        extract_aliases("格里姆（老格）", "别名：酒保、独眼, 老格 \n又名: 阿格；独眼"),
        vec!["独眼", "老格", "酒保", "阿格"]
    );
    assert!(extract_aliases("无", "没有").is_empty());
    assert!(extract_aliases(&format!("题（{}）", "长".repeat(21)), "").is_empty());
}

#[test]
fn aliases_out_of_matches() {
    let listed = vec![RegexMatch {
        start: 0,
        end: 3,
        groups: vec![None, Some("乙/甲".to_string())],
    }];
    assert_eq!(collect_aliases(&listed, &vec![]), vec!["乙", "甲"]);
}

#[test]
fn visibility_bits() {
    assert_eq!(guess_visibility("平常的一句"), 1);
    assert_eq!(guess_visibility("甲\n 【秘密】走私"), 5);
    assert_eq!(guess_visibility("Top SECRET"), 5);
    assert_eq!(guess_visibility("【DM】后门\n【密谋】夜里"), 7);
    assert_eq!(guess_visibility("此事对玩家隐藏"), 3);
}

#[test]
fn secret_lines() {
    assert!(is_secret_markup_line("  【秘密】x"));
    assert!(is_secret_markup_line("【DM】x"));
    assert!(is_secret_markup_line("【密谋】x"));
    assert!(is_secret_markup_line("这段对玩家隐藏。"));
    assert!(!is_secret_markup_line("公开【秘密】"));
}

fn block(level: u8, title: &str, text: &str) -> Block {
    Block {
        heading_level: level,
        title: title.to_string(),
        text: text.to_string(),
    }
}

#[test]
fn drafts_know_their_headings() {
    let blocks = vec![
        block(1, "港口", "潮水。"),
        block(2, "酒馆", "劣酒。"),
        block(2, "酒馆", "又一间。"),
        block(1, " ", "　无题的一段"),
    ];
    let d = blocks_to_drafts(&blocks, "模组");
    let paths: Vec<&str> = d.iter().map(|x| x.parent_path.as_str()).collect();
    assert_eq!(
        paths,
        vec!["模组 / 港口", "模组 / 港口 / 酒馆", "模组 / 港口 / 酒馆", "模组 /  "]
    );
    assert_eq!(d[3].title, "无题的一段");
    assert_eq!(d[2].ordinal, 2);
    assert_ne!(d[1].stable_key, d[2].stable_key);
    assert_eq!(d[1].entity_type, "location");
}

#[test]
fn search_text_leaves_out_what_is_blank() {
    let t = build_search_text("格里姆", "酒　保", &[], &["老格".to_string()]);
    let lines: Vec<&str> = t.lines().collect();
    assert_eq!(lines[0], "格里姆");
    assert_eq!(lines[1], "酒　保");
    assert_eq!(lines[2], "老格");
    assert!(lines.contains(&"ge li mu"));
    assert!(lines.contains(&"gelimu"));
    assert!(lines.contains(&"glm"));
    assert_eq!(lines[lines.len() - 1], "酒 保");
    assert_eq!(build_search_text("", "abc", &[], &[]), "abc\nabc");
}
