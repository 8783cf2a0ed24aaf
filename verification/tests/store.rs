use table_canon_core::db::{
    apply_correction, backfill_entry, classify_import, copy_text, correct_drafts, default_template,
    gather_vectors, is_portable_mode, meta_action, open_action, patch_meta, public_body, read_stored_names,
    recognise, report_file, seed_templates, store_rel_path, stored_fields, CorrectionRow, Encoded,
    FileOutcome, ImportClass, MetaAction, OpenAction,
};
use table_canon_core::types::{Chunk, DraftChunk, ImportReport, MetaPatch};
use table_canon_core::{ImportOpts, APP_ID, VIS_PUBLIC, VIS_SECRET};

#[test]
fn public_body_strips_markup_without_vis_bits() {
    let body = "公开介绍\n【秘密】走私线\n【DM】后厨门\n仍公开";
    let out = table_canon_core::db::public_body(body, table_canon_core::VIS_PUBLIC);
    assert!(!out.contains("走私"), "{out}");
    assert!(!out.contains("后厨门"), "{out}");
    assert!(out.contains("公开介绍"), "{out}");
}

#[test]
fn what_players_see() {
    assert_eq!(public_body("甲\n【秘密】乙\n丙", VIS_PUBLIC), "甲\n丙");
    assert_eq!(public_body("【密谋】乙", VIS_PUBLIC), "（该条目对玩家隐藏）");
    assert_eq!(public_body("  ", VIS_SECRET), "（该条目对玩家隐藏）");
    assert_eq!(public_body("  ", VIS_PUBLIC), "  ");
    assert_eq!(public_body("甲", VIS_SECRET), "甲");
}

fn chunk() -> Chunk {
    Chunk {
        id: 1,
        source_document_id: 2,
        stable_key: "k".into(),
        ordinal: 0,
        entity_type: "npc".into(),
        title: "格里姆".into(),
        body: "酒保。\n【秘密】走私。".into(),
        parent_path: "模组 / 港口".into(),
        visibility: 5,
        aliases: vec!["老格".into()],
        source_rank: 100,
        file_name: "02-港口.md".into(),
    }
}

#[test]
fn what_is_copied() {
    assert_eq!(
        copy_text(&chunk(), None, "player"),
        "npc　格里姆\n酒保。\n—— 02-港口.md · 模组 / 港口"
    );
    assert_eq!(
        copy_text(&chunk(), None, "full"),
        "格里姆\n酒保。\n【秘密】走私。\n来源：02-港口.md · 模组 / 港口"
    );
    assert_eq!(copy_text(&chunk(), None, "source"), "02-港口.md · 模组 / 港口");
    assert_eq!(copy_text(&chunk(), Some("<{title}|{title}>".into()), "x"), "<格里姆|格里姆>");
    assert_eq!(default_template("other"), seed_templates()[0].1);
    assert_eq!(seed_templates().len(), 3);
}

#[test]
fn which_files_are_read() {
    assert!(matches!(classify_import("DOCX"), ImportClass::Doc));
    assert!(matches!(classify_import("png"), ImportClass::SilentSkip));
    assert!(matches!(classify_import("pdf"), ImportClass::Unsupported(m) if m == "PDF 文本层抽取未纳入本 demo"));
    assert!(matches!(classify_import("doc"), ImportClass::Unsupported(m) if m == "不支持 .doc，请另存为 .docx"));
    assert_eq!(store_rel_path(Some("a\\b.md"), None, "x"), "a/b.md");
    assert_eq!(store_rel_path(None, Some("b.md"), "x"), "b.md");
    assert_eq!(store_rel_path(None, None, "c\\d"), "c/d");
}

#[test]
fn files_are_recognised() {
    let r = recognise(Some((7, "h".into())), &vec![], "h", false);
    assert_eq!((r.id, r.moved, r.skip), (Some(7), false, true));
    let r = recognise(Some((7, "h".into())), &vec![], "h", true);
    assert_eq!((r.id, r.moved, r.skip), (Some(7), false, false));
    let r = recognise(Some((7, "g".into())), &vec![9], "h", false);
    assert_eq!((r.id, r.moved, r.skip), (Some(7), false, false));
    let r = recognise(None, &vec![9], "h", false);
    assert_eq!((r.id, r.moved, r.skip), (Some(9), true, true));
    let r = recognise(None, &vec![9, 10], "h", false);
    assert_eq!((r.id, r.moved, r.skip), (None, false, false));
}

fn draft(key: &str, anchor: &str) -> DraftChunk {
    DraftChunk {
        stable_key: key.into(),
        alt_anchor: anchor.into(),
        ordinal: 0,
        entity_type: "other".into(),
        title: "题".into(),
        body: "文".into(),
        parent_path: "路".into(),
        visibility: 1,
        aliases: vec!["甲".into()],
        content_hash: "h".into(),
    }
}

fn correction(key: &str, anchor: Option<&str>, names: Option<&str>) -> CorrectionRow {
    CorrectionRow {
        stable_key: key.into(),
        alt_anchor: anchor.map(|s| s.to_string()),
        entity_type: Some("npc".into()),
        visibility: Some(5),
        aliases_json: names.map(|s| s.to_string()),
    }
}

#[test]
fn a_correction_is_applied() {
    let d = apply_correction(&draft("k", "a"), &correction("k", None, Some("[\"甲\",\"乙\"]")));
    assert_eq!(d.entity_type, "npc");
    assert_eq!(d.visibility, 5);
    assert_eq!(d.aliases, vec!["甲", "乙"]);
    let d = apply_correction(&draft("k", "a"), &correction("k", None, Some("not json")));
    assert_eq!(d.aliases, vec!["甲"]);
    let none = CorrectionRow {
        stable_key: "k".into(),
        alt_anchor: None,
        entity_type: None,
        visibility: None,
        aliases_json: None,
    };
    let d = apply_correction(&draft("k", "a"), &none);
    assert_eq!((d.entity_type.as_str(), d.visibility), ("other", 1));
}

#[test]
fn corrections_find_their_entries() {
    let mut drafts = vec![draft("x", "a1"), draft("k2", "a2"), draft("y", "a1")];
    let rows = vec![
        correction("k1", Some("a1"), None),
        correction("k2", Some("zz"), None),
        correction("gone", None, None),
    ];
    let left = correct_drafts(&mut drafts, &rows);
    assert_eq!(left, 1);
    let kinds: Vec<&str> = drafts.iter().map(|d| d.entity_type.as_str()).collect();
    assert_eq!(kinds, vec!["npc", "npc", "other"]);
    assert_eq!(drafts[0].stable_key, "x");
}

#[test]
fn keys_come_before_anchors() {
    let mut drafts = vec![draft("k1", "a"), draft("k2", "b"), draft("k1", "c")];
    let mut rows = vec![
        correction("k2", Some("a"), None),
        correction("k1", Some("b"), None),
        correction("k1", Some("b"), None),
        correction("k9", Some("c"), None),
    ];
    rows[0].visibility = Some(10);
    rows[1].visibility = Some(11);
    rows[2].visibility = Some(12);
    rows[3].visibility = Some(13);
    assert_eq!(correct_drafts(&mut drafts, &rows), 1);
    let got: Vec<i64> = drafts.iter().map(|d| d.visibility).collect();
    assert_eq!(got, vec![11, 10, 12]);
}

#[test]
fn names_come_back_as_stored() {
    let names = vec!["老\"格\"".to_string(), "酒保".to_string()];
    let s = stored_fields("格里姆", "酒保。", &names);
    assert_eq!(s.aliases_json, "[\"老\\\"格\\\"\",\"酒保\"]");
    assert_eq!(read_stored_names(&s.aliases_json), names);
    assert!(s.search_text.starts_with("格里姆\n酒保。\n"));
    assert!(read_stored_names("nonsense").is_empty());
}

#[test]
fn metadata_is_patched() {
    let p = MetaPatch { visibility: Some(4), ..MetaPatch::default() };
    let r = patch_meta(&chunk(), &p);
    assert_eq!(r.visibility, 4);
    assert_eq!(r.entity_type, "npc");
    assert_eq!(r.aliases, vec!["老格"]);
    let p = MetaPatch { aliases: Some(vec![]), entity_type: Some("item".into()), visibility: None };
    let r = patch_meta(&chunk(), &p);
    assert_eq!(r.stored.aliases_json, "[]");
    assert_eq!((r.entity_type.as_str(), r.visibility), ("item", 5));
}

#[test]
fn vectors_are_gathered() {
    let good = Encoded {
        title: "甲".into(),
        texts: vec!["一".into(), "二".into()],
        vectors: vec![vec![1], vec![2]],
        failure: None,
    };
    let bad = Encoded {
        title: "乙".into(),
        texts: vec!["三".into(), "四".into()],
        vectors: vec![vec![3]],
        failure: Some("坏".into()),
    };
    let (rows, note) = gather_vectors(&vec![bad, good]);
    assert_eq!(rows.len(), 2);
    assert_eq!((rows[1].draft, rows[1].seq, rows[1].text.as_str()), (1, 1, "二"));
    assert_eq!(rows[1].vector, vec![2]);
    assert_eq!(note.unwrap(), "「乙」语义向量计算失败，该条暂无向量：坏");
}

#[test]
fn missing_vectors_are_made() {
    let good = Encoded {
        title: String::new(),
        texts: vec!["一".into(), "二".into()],
        vectors: vec![vec![1], vec![2]],
        failure: None,
    };
    let rows = backfill_entry(9, good).unwrap();
    let got: Vec<(usize, &str, u8)> =
        rows.iter().map(|r| (r.seq, r.text.as_str(), r.vector[0])).collect();
    assert_eq!(got, vec![(0, "一", 1), (1, "二", 2)]);
    let bad = Encoded {
        title: String::new(),
        texts: vec!["一".into()],
        vectors: vec![],
        failure: Some("坏".into()),
    };
    assert_eq!(backfill_entry(9, bad).unwrap_err(), "条目 9 向量计算失败，已跳过：坏");
}

#[test]
fn models_are_compared_by_content() {
    assert_eq!(meta_action(None, "m", "f"), MetaAction::Insert);
    assert_eq!(meta_action(Some(("m".into(), "f".into())), "m", "f"), MetaAction::Keep);
    assert_eq!(meta_action(Some(("m".into(), "g".into())), "m", "f"), MetaAction::Replace);
    assert_eq!(meta_action(Some(("n".into(), "f".into())), "m", "f"), MetaAction::Replace);
}

#[test]
fn how_a_store_is_opened() {
    assert!(matches!(open_action(0, 0), OpenAction::LayOut));
    assert!(matches!(open_action(APP_ID, 1), OpenAction::Upgrade));
    assert!(matches!(open_action(APP_ID, 2), OpenAction::Use));
    assert!(matches!(open_action(5, 2), OpenAction::Foreign));
    assert!(matches!(
        open_action(APP_ID, 3),
        OpenAction::TooNew(m) if m == "库版本 3 新于本程序 2，只读打开未实现，请升级软件"
    ));
    assert!(is_portable_mode("DELETE") && !is_portable_mode("wal"));
}

#[test]
fn files_are_reported() {
    let mut r = ImportReport::default();
    report_file(&mut r, "a", FileOutcome::Missing);
    report_file(&mut r, "b", FileOutcome::Passed);
    report_file(&mut r, "c", FileOutcome::Unsupported("不行".into()));
    report_file(&mut r, "d", FileOutcome::Unchanged);
    report_file(
        &mut r,
        "e",
        FileOutcome::Done { chunks: 3, unmatched: 1, notes: vec!["注".into()] },
    );
    report_file(&mut r, "f", FileOutcome::Failed("坏".into()));
    assert_eq!((r.files_ok, r.files_skip, r.files_fail), (1, 3, 2));
    assert_eq!((r.chunks, r.unmatched_corrections), (3, 1));
    assert_eq!(r.errors, vec!["不存在: a", "c: 不行", "f: 坏"]);
    assert_eq!(r.warnings, vec!["注"]);
    let opts = ImportOpts::default();
    assert!(opts.splitter.is_none() && !opts.reprocess && !opts.embed);
}
