use table_canon_core::desktop::{
    backfill_status, backfill_summary, busy_hint, copy_toast, highlight, import_summary,
    is_entry_card, move_selection, on_keys, sample_status, search_status, settings_text,
    snippet_around, store_status, KeyAction, LlmSection,
};
use table_canon_core::llm::{
    answer_for, cache_key, gather_answers, make_jobs, next_attempt, progress_text, reply_text,
    resend_plain, truncate, unanswered, unreadable, Attempt, LlmConfig,
};
use table_canon_core::normalize::sha1_hex;
use table_canon_core::split::SplitError;
use table_canon_core::types::{ExtractedEntry, ImportReport};

#[test]
fn previews() {
    assert_eq!(snippet_around("短文", "文", 90), ("短文".to_string(), false));
    let body = format!("{}酒保{}", "前".repeat(100), "后".repeat(100));
    let (s, cut) = snippet_around(&body, " 酒保 ", 90);
    assert!(cut);
    assert_eq!(s, format!("…{}酒保{}…", "前".repeat(80), "后".repeat(8)));
    let (s, _) = snippet_around(&body, "", 3);
    assert_eq!(s, "前前前…");
}

#[test]
fn highlights_keep_the_text() {
    let v = highlight("酒酒保酒保，酒", "酒保");
    let got: Vec<(&str, bool)> = v.iter().map(|x| (x.0.as_str(), x.1)).collect();
    assert_eq!(got, vec![("酒", false), ("酒保", true), ("酒保", true), ("，酒", false)]);
    let whole: String = v.iter().map(|x| x.0.as_str()).collect();
    assert_eq!(whole, "酒酒保酒保，酒");
    assert_eq!(highlight("文", " "), vec![("文".to_string(), false)]);
}

#[test]
fn the_selection_moves() {
    let ids = vec![10, 20, 30];
    assert_eq!(move_selection(&ids, None, None, 1), Some(20));
    assert_eq!(move_selection(&ids, None, Some(30), 1), Some(30));
    assert_eq!(move_selection(&ids, Some(20), Some(30), -1), Some(10));
    assert_eq!(move_selection(&ids, None, Some(99), -5), Some(10));
    assert_eq!(move_selection(&vec![], None, None, 1), None);
}

#[test]
fn keys_act() {
    assert_eq!(on_keys(true, false, false, true, None, Some(1)), (None, KeyAction::Open(1)));
    assert_eq!(
        on_keys(true, false, false, true, Some(2), Some(1)),
        (Some(2), KeyAction::CopyFull(1))
    );
    assert_eq!(on_keys(true, false, true, true, None, Some(1)), (None, KeyAction::Pass));
    assert_eq!(on_keys(false, true, false, true, Some(2), Some(1)), (None, KeyAction::Pass));
    assert!(is_entry_card(true, "甲", "乙"));
    assert!(is_entry_card(false, "甲乙", " 乙 "));
    assert!(!is_entry_card(false, "甲", " "));
}

#[test]
fn messages() {
    let mut r = ImportReport::default();
    r.files_ok = 1;
    r.chunks = 12;
    assert_eq!(
        import_summary(&r),
        "导入完成：成功 1 / 跳过 0 / 失败 0 / 条目 12 / 未挂修正 0"
    );
    r.errors = vec!["甲".into(), "乙".into()];
    r.warnings = vec!["长".repeat(201)];
    assert_eq!(
        import_summary(&r),
        format!(
            "导入完成：成功 1 / 跳过 0 / 失败 0 / 条目 12 / 未挂修正 0 · 甲；乙 · {}…",
            "长".repeat(200)
        )
    );
    assert_eq!(backfill_status(0, &vec![]), "");
    assert_eq!(backfill_status(3, &vec!["注".into()]), "语义向量补算完成：3 条 · 注");
    assert_eq!(backfill_status(0, &vec!["注".into()]), "注");
    assert_eq!(backfill_summary(0, &vec![]), None);
    assert_eq!(backfill_summary(2, &vec!["注".into()]).unwrap(), "语义向量补算 2 条·注");
    assert_eq!(
        search_status(7, &vec!["\"甲\"".into(), "乙".into()], 3, true),
        "7 ms · 抽词 甲 / 乙 · 命中 3 · 仅关键词"
    );
    assert_eq!(copy_toast("player", "三个字"), "已复制公开 3 字，可粘到聊天/笔记");
    assert_eq!(copy_toast("x", ""), "已复制x 0 字，可粘到聊天/笔记");
    assert_eq!(store_status("库", -1), "「库」· -1 条 · 回车检索 · Enter 复制公开");
    assert_eq!(sample_status(9, 4, 1), "样例就绪 · 9 条 · 成功 4 / 跳过 1 · 回车可再搜");
    assert_eq!(busy_hint(true, true).unwrap(), "正在后台导入，请等拆条完成后再操作。");
    assert_eq!(busy_hint(false, true).unwrap(), "正在补算语义向量，请稍候。");
    assert_eq!(busy_hint(false, false), None);
}

#[test]
fn settings() {
    let mut s = LlmSection::fresh();
    assert!(s.is_set());
    assert!(s.config().is_none());
    s.api_key = " k\"\\ ".into();
    s.max_tokens = 100;
    let c = s.config().unwrap();
    assert_eq!(c.api_key, "k\"\\");
    assert_eq!((c.timeout_secs, c.max_tokens, c.retries), (60, 100, 0));
    assert_eq!((c.request_timeout(), c.answer_tokens()), (60, 256));
    let text = settings_text(&s, "0.1");
    assert!(text.contains("api_key = \" k\\\"\\\\ \"\n"), "{text}");
    assert!(text.ends_with("max_tokens = 100\ntemperature = 0.1\nretries = 0\njson_mode = false\n"));
}

#[test]
fn configurations() {
    let c = LlmConfig::from_parts(" http://h/v1// ", "k", "m").unwrap();
    assert_eq!(c.base_url, "http://h/v1");
    assert_eq!((c.concurrency, c.retries, c.piece_chars), (3, 1, 3200));
    assert_eq!((c.workers(0), c.workers(2), c.workers(9)), (1, 2, 3));
    assert!(LlmConfig::from_parts("/", "k", "m").is_none());
    assert!(LlmConfig::from_parts("u", " ", "m").is_none());
}

#[test]
fn attempts() {
    match next_attempt("章", "文", 1, 0, None) {
        Attempt::Ask { prompt, allow_json } => {
            assert!(allow_json);
            assert_eq!(prompt, "章节标题：章\n正文（每行开头的 [nnn] 是框架标注的段号）：\n文");
        }
        Attempt::GiveUp(_) => panic!(),
    }
    match next_attempt("章", "文", 1, 1, Some("坏".into())) {
        Attempt::Ask { prompt, allow_json } => {
            assert!(!allow_json);
            assert!(prompt.contains("你上一次的输出无法使用（坏）。"));
        }
        Attempt::GiveUp(_) => panic!(),
    }
    assert!(matches!(next_attempt("章", "文", 1, 2, Some("坏".into())), Attempt::GiveUp(m) if m == "坏"));
    assert_eq!(unreadable(0, "x"), "第1次输出解析失败：x");
    assert_eq!(unanswered(1, "x"), "第2次调用失败：x");
    assert!(resend_plain(true, Some(400)) && resend_plain(true, Some(499)));
    assert!(!resend_plain(true, Some(500)) && !resend_plain(false, Some(400)));
    assert!(!resend_plain(true, None));
    assert_eq!(reply_text(Some(" x ".into())).unwrap(), " x ");
    assert_eq!(reply_text(Some(" ".into())).unwrap_err().message, "LLM 返回空内容");
    assert!(reply_text(None).is_err());
    assert_eq!(truncate("甲乙丙", 2), "甲乙…");
    assert_eq!(
        progress_text(1, 0, "章", 125),
        "LLM 拆条 1/1 · 「章」· 已用 2 分 05 秒"
    );
}

#[test]
fn answers_are_kept_by_all_that_was_asked() {
    let k = cache_key("m", "t", "p");
    assert_eq!(k.len(), 40);
    assert_ne!(k, cache_key("m", "t", "q"));
    assert_eq!(
        k,
        sha1_hex(&format!("v3|{}|m|t|p", sha1_hex(table_canon_core::llm::SYSTEM)))
    );
}

#[test]
fn jobs_of_chapters() {
    let chapters = vec![
        ("甲".to_string(), "一\n二".to_string()),
        ("乙".to_string(), " ".to_string()),
        ("丙".to_string(), "三".to_string()),
    ];
    let jobs = make_jobs(&chapters, 3200);
    let got: Vec<(usize, &str, &str)> = jobs
        .iter()
        .map(|j| (j.chapter, j.title.as_str(), j.piece.as_str()))
        .collect();
    assert_eq!(got, vec![(0, "甲", "[000] 一\n[001] 二\n"), (2, "丙", "[000] 三\n")]);
}

fn entry(title: &str) -> ExtractedEntry {
    ExtractedEntry {
        title: title.into(),
        aliases: vec![],
        entity_type: String::new(),
        body: String::new(),
        anchor: String::new(),
        start: -1,
        end: -1,
        heading_level: 2,
    }
}

fn fault(m: &str) -> SplitError {
    SplitError { message: m.into() }
}

#[test]
fn answers_of_chapters() {
    let outcomes = vec![
        (0, Ok(vec![entry("a")])),
        (1, Err(fault("x"))),
        (0, Err(fault("y"))),
        (1, Err(fault("z"))),
        (0, Ok(vec![entry("b")])),
    ];
    let v = gather_answers(&outcomes, 3);
    assert_eq!(v.len(), 3);
    let titles: Vec<&str> = v[0].as_ref().unwrap().iter().map(|e| e.title.as_str()).collect();
    assert_eq!(titles, vec!["a", "b"]);
    assert_eq!(v[1].as_ref().unwrap_err().message, "x");
    assert_eq!(v[2].as_ref().unwrap_err().message, "LLM 未拆出任何条目");
    assert_eq!(answer_for(&outcomes, 1, false).unwrap_err().message, "z");
    let none = gather_answers(&vec![], 1);
    assert!(none[0].as_ref().unwrap().is_empty());
}
