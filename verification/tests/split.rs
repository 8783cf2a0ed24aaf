use table_canon_core::split::{
    array_slice, assemble_drafts, chapters_to_split, coalesce_same_title, finish_entries,
    local_structure_split, materialize_entries, normalize_entry, pack_pieces, parse_entries_json,
    read_index, refine_drafts, segment_text, strip_code_fence, ArraySlice, SplitError,
};
use std::sync::Mutex;
use table_canon_core::likeness::Share;
use table_canon_core::normalize::{alt_anchor, sha1_body_hex};
use table_canon_core::types::{Block, ExtractedEntry};
use table_canon_core::EntrySplitter;

fn text_of(v: &serde_json::Value, key: &str) -> String {
    v.get(key).and_then(|x| x.as_str()).unwrap_or("").to_string()
}

fn index_of(v: &serde_json::Value, key: &str) -> i64 {
    match v.get(key) {
        Some(serde_json::Value::Number(n)) => n.as_i64().unwrap_or(-1),
        Some(serde_json::Value::String(s)) => read_index(s),
        _ => -1,
    }
}

fn rows_of(v: &serde_json::Value) -> Option<Vec<ExtractedEntry>> {
    v.as_array()?
        .iter()
        .map(|x| {
            x.get("title")?.as_str()?;
            let aliases = x.get("aliases").and_then(|a| a.as_array()).map(|a| {
                a.iter().filter_map(|n| n.as_str()).map(|n| n.to_string()).collect()
            });
            Some(ExtractedEntry {
                title: text_of(x, "title"),
                aliases: aliases.unwrap_or_default(),
                entity_type: text_of(x, "entity_type"),
                body: text_of(x, "body"),
                anchor: text_of(x, "anchor"),
                start: index_of(x, "start"),
                end: index_of(x, "end"),
                heading_level: 2,
            })
        })
        .collect()
}

fn parse(raw: &str) -> Result<Vec<ExtractedEntry>, SplitError> {
    let text = strip_code_fence(raw);
    let whole: Option<serde_json::Value> = serde_json::from_str(&text).ok();
    let array = whole.as_ref().and_then(rows_of);
    let object = whole.as_ref().and_then(|v| v.get("entries")).and_then(rows_of);
    let slice = match array_slice(&text) {
        ArraySlice::Slice(s) => serde_json::from_str(&s).ok().as_ref().and_then(rows_of),
        _ => None,
    };
    parse_entries_json(raw, array, object, slice)
}

#[test]
fn parse_fenced_json() {
    let raw = r#"```json
[{"title":"猎人工会","aliases":["猎人公会"],"entity_type":"faction","anchor":"猎人工会驻扎熔炉区"}]
```"#;
    let v = parse(raw).unwrap();
    assert_eq!(v[0].title, "猎人工会");
    assert_eq!(v[0].aliases[0], "猎人公会");
    assert_eq!(v[0].entity_type, "faction");
    assert!(!v[0].body.contains("别名："));
}

#[test]
fn parse_accepts_object_wrapper_and_string_indices() {
    let raw = r#"{"entries":[{"title":"铁砧堡","entity_type":"location","start":"000","end":"1"}]}"#;
    let v = parse(raw).unwrap();
    assert_eq!(v.len(), 1);
    assert_eq!(v[0].start, 0);
    assert_eq!(v[0].end, 1);
}

#[test]
fn parse_tolerates_prose_around_array() {
    let raw = "好的，以下是拆条结果：\n[{\"title\":\"格里姆\",\"entity_type\":\"npc\",\"start\":2,\"end\":3}]\n希望有帮助。";
    let v = parse(raw).unwrap();
    assert_eq!(v[0].title, "格里姆");
    assert_eq!(v[0].start, 2);
}

#[test]
fn parse_fenced_ok() {
    let v = parse(
        r#"```json
[{"title":"格里姆","entity_type":"npc","body":"酒保。"}]
```"#,
    )
    .unwrap();
    assert_eq!(v[0].title, "格里姆");
}

#[test]
fn parse_tells_what_is_wrong() {
    assert_eq!(parse("没有").unwrap_err().message, "LLM 输出里没有 JSON 数组");
    assert_eq!(parse("看 [1, 2").unwrap_err().message, "LLM 输出里 JSON 数组未闭合");
    assert_eq!(parse("看 [1, 2]").unwrap_err().message, "无法解析拆条 JSON");
    assert_eq!(parse("][").unwrap_err().message, "无法解析拆条 JSON");
    assert_eq!(parse("[]").unwrap_err().message, "拆条结果为空");
    assert_eq!(parse(r#"[{"title":"  "}]"#).unwrap_err().message, "拆条结果为空");
}

#[test]
fn answers_are_read_in_their_order() {
    let e = entry("甲", -1);
    let f = entry("乙", -1);
    let g = entry("丙", -1);
    let r = parse_entries_json("[]", Some(vec![e]), Some(vec![f.clone()]), Some(vec![g.clone()]));
    assert_eq!(r.unwrap()[0].title, "甲");
    let r = parse_entries_json("[]", None, Some(vec![f]), Some(vec![g.clone()]));
    assert_eq!(r.unwrap()[0].title, "乙");
    let r = parse_entries_json("[]", None, None, Some(vec![g]));
    assert_eq!(r.unwrap()[0].title, "丙");
}

#[test]
fn segment_numbers_as_text() {
    assert_eq!(read_index(" 007 "), 7);
    assert_eq!(read_index("9223372036854775807"), i64::MAX);
    assert_eq!(read_index("9223372036854775808"), -1);
    assert_eq!(read_index("-3"), -1);
    assert_eq!(read_index(""), -1);
    assert_eq!(read_index("三"), -1);
}

#[test]
fn brackets_are_found() {
    assert!(matches!(array_slice("a [1] b"), ArraySlice::Slice(s) if s == "[1]"));
    assert!(matches!(array_slice("a"), ArraySlice::NoOpen));
    assert!(matches!(array_slice("a ["), ArraySlice::NoClose));
    assert!(matches!(array_slice("] x ["), ArraySlice::Inverted));
    assert!(matches!(array_slice("]["), ArraySlice::Slice(s) if s.is_empty()));
}

#[test]
fn fences_are_taken_off() {
    assert_eq!(strip_code_fence("```json\n[1]\n```"), "[1]");
    assert_eq!(strip_code_fence("  ```\n[1]\n``````"), "[1]");
    assert_eq!(strip_code_fence(" [1] "), "[1]");
}

fn entry(title: &str, start: i64) -> ExtractedEntry {
    ExtractedEntry {
        title: title.into(),
        aliases: vec![],
        entity_type: String::new(),
        body: String::new(),
        anchor: String::new(),
        start,
        end: -1,
        heading_level: 2,
    }
}

#[test]
fn entries_are_cleaned() {
    let e = ExtractedEntry {
        title: " 甲 ".into(),
        aliases: vec![" 乙 ".into(), "甲".into(), "  ".into()],
        entity_type: " npc ".into(),
        body: " 文 ".into(),
        anchor: " 锚 ".into(),
        start: 3,
        end: 4,
        heading_level: 9,
    };
    let c = normalize_entry(&e);
    assert_eq!(c.title, "甲");
    assert_eq!(c.aliases, vec!["乙"]);
    assert_eq!(c.entity_type, "npc");
    assert_eq!(c.body, "文");
    assert_eq!(c.anchor, "锚");
    assert_eq!((c.start, c.end, c.heading_level), (3, 4, 2));
    let mut other = e.clone();
    other.entity_type = "dragon".into();
    other.heading_level = 3;
    let c = normalize_entry(&other);
    assert_eq!(c.entity_type, "");
    assert_eq!(c.heading_level, 3);
    assert_eq!(finish_entries(&vec![entry(" ", 0), other]).unwrap().len(), 1);
    assert_eq!(finish_entries(&vec![]).unwrap_err().message, "拆条结果为空");
}

#[test]
fn blocks_of_one_title_come_together() {
    let blocks = vec![block("甲", "一"), block("甲", "二"), block("", "三"), block("", "四")];
    let v = coalesce_same_title(&blocks);
    let got: Vec<(&str, &str)> = v.iter().map(|b| (b.title.as_str(), b.text.as_str())).collect();
    assert_eq!(got, vec![("甲", "一\n二"), ("", "三"), ("", "四")]);
}

fn block(title: &str, text: &str) -> Block {
    Block {
        heading_level: 2,
        title: title.into(),
        text: text.into(),
    }
}

#[test]
fn only_long_chapters_go_out() {
    let mid = "啊".repeat(800);
    let long = "啊".repeat(2200);
    let blocks = vec![
        block("第一章", &mid),
        block("杂记", &mid),
        block("杂记二", &long),
        block("短", "文"),
    ];
    let out: Vec<String> = chapters_to_split(&blocks, true).into_iter().map(|c| c.0).collect();
    assert_eq!(out, vec!["第一章", "杂记二"]);
    assert!(chapters_to_split(&blocks, false).is_empty());
}

#[test]
fn failures_leave_a_note_and_the_block() {
    let blocks = vec![block("第一章", &"啊".repeat(800)), block("末", "完结的一段。")];
    let answers = vec![Err(SplitError { message: "断线".into() })];
    let (with, notes) = assemble_drafts(&blocks, "模组", true, &answers);
    let (without, none) = assemble_drafts(&blocks, "模组", false, &vec![]);
    assert_eq!(notes, vec!["「第一章」拆条失败，已用规则切开：断线"]);
    assert!(none.is_empty());
    assert_eq!(with.len(), 2);
    for (a, b) in with.iter().zip(without.iter()) {
        assert_eq!(a.stable_key, b.stable_key);
        assert_eq!(a.body, b.body);
        assert_eq!(a.ordinal, b.ordinal);
    }
    assert_eq!(with[1].ordinal, 1);
}

#[test]
fn a_lead_in_goes_into_the_next_entry() {
    let blocks = vec![block("导语", "如下："), block("甲", "一段完整的话。")];
    let (drafts, _) = refine_drafts(&blocks, "模组", None);
    assert_eq!(drafts.len(), 1);
    assert_eq!(drafts[0].title, "甲");
    assert_eq!(drafts[0].body, "如下：\n一段完整的话。");
    assert_eq!(drafts[0].aliases, vec!["导语"]);
    let blocks = vec![block("甲", "一段完整的话。"), block("导语", "如下：")];
    let (drafts, _) = refine_drafts(&blocks, "模组", None);
    assert_eq!(drafts.len(), 2);
}

#[test]
fn a_long_head_becomes_a_preface() {
    let head = "此章讲述山口的往事，".repeat(5);
    let source = format!("{head}\n铁砧堡扼守山口北麓。\n登记员每天统计伤亡。");
    let got = materialize_entries(&source, vec![entry("铁砧堡", -1), entry("登记员", -1)]);
    let titles: Vec<&str> = got.iter().map(|e| e.title.as_str()).collect();
    assert_eq!(titles, vec!["本章前言", "铁砧堡", "登记员"]);
    assert_eq!(got[0].body, head);
    assert_eq!(got[1].body, "铁砧堡扼守山口北麓。");
}

#[test]
fn cuts_leave_nothing_out() {
    let source = "铁砧堡扼守山口北麓。登记员每天统计伤亡。守卫昼夜巡逻不停。";
    let got = materialize_entries(source, vec![entry("登记员", -1), entry("铁砧堡", -1)]);
    assert_eq!(got.len(), 1);
    assert_eq!(got[0].title, "登记员");
    let got = materialize_entries(
        source,
        vec![entry("铁砧堡", -1), entry("登记员", -1), entry("守卫", -1)],
    );
    let joined: String = got.iter().map(|e| e.body.as_str()).collect();
    assert_eq!(joined, source);
    assert!(materialize_entries(source, vec![entry("无此人", 99)]).is_empty());
}

#[test]
fn segments_hold_the_text() {
    let body = "甲\n 乙 \n\n丙";
    let v = segment_text(body);
    let got: Vec<&str> = v.iter().map(|s| s.text(body)).collect();
    assert_eq!(got, vec!["甲", "乙", "丙"]);
    assert!(segment_text(" \n").is_empty());
    let pieces = pack_pieces(body, &v, 1, 0);
    assert_eq!(pieces.len(), 3);
    assert_eq!(pieces[1].text, "[001] 乙\n");
    assert_eq!((pieces[2].first_seg, pieces[2].last_seg), (2, 2));
}

#[test]
fn materialize_discards_rewritten_body() {
    let source = "猎人工会驻扎在熔炉区。登记员每天统计伤亡。工会负责悬赏。";
    let proposals = vec![
        ExtractedEntry {
            title: "猎人工会".into(),
            aliases: vec!["猎人公会".into()],
            entity_type: "faction".into(),
            body: "这是模型编的摘要，原文里没有。".into(),
            anchor: String::new(),
            start: -1,
            end: -1,
            heading_level: 2,
        },
        ExtractedEntry {
            title: "登记员".into(),
            aliases: vec![],
            entity_type: "npc".into(),
            body: "也是编的。".into(),
            anchor: String::new(),
            start: -1,
            end: -1,
            heading_level: 2,
        },
    ];
    let got = materialize_entries(source, proposals);
    assert_eq!(got.len(), 2);
    assert_eq!(got[0].title, "猎人工会");
    assert!(got[0].body.starts_with("猎人工会驻扎在熔炉区"));
    assert!(!got[0].body.contains("模型编的"));
    assert!(got[1].body.contains("登记员每天统计伤亡"));
}

#[test]
fn local_split_uses_short_headings() {
    let text = "猎人工会\n驻扎熔炉区，负责悬赏与救援。成员遍布城邦。\n登记员\n每天统计伤亡，并把名单交给会长。";
    let v = local_structure_split(text);
    assert_eq!(v.len(), 2);
    assert_eq!(v[0].title, "猎人工会");
    assert!(v[0].body.contains("驻扎熔炉区"));
}

#[test]
fn segment_text_numbers_lines_and_splits_long_lines() {
    let long = "铁砧堡扼守山口。".repeat(80); // 960 字，超过 MAX_SEG_CHARS
    let body = format!("短行一。\n\n   \n{long}");
    let segs = segment_text(&body);
    assert_eq!(segs[0].idx, 0);
    assert_eq!(segs[0].text(&body), "短行一。");
    // 空行不占段号
    assert!(segs.len() >= 3);
    // 每段都不超上限，且段区间拼回原文无缺
    assert!(segs.iter().all(|s| s.text(&body).chars().count() <= 500));
    let joined: String = segs.iter().map(|s| s.text(&body)).collect();
    assert!(joined.contains("铁砧堡扼守山口。"));
}

#[test]
fn pack_pieces_overlap_keeps_global_numbering() {
    let body = (0..40).map(|i| format!("第{i}段的内容。")).collect::<Vec<_>>().join("\n");
    let segs = segment_text(&body);
    let pieces = pack_pieces(&body, &segs, 120, 1);
    assert!(pieces.len() >= 3);
    // 相邻分片共享 1 段：下一片的 first_seg == 上一片的 last_seg
    for w in pieces.windows(2) {
        assert_eq!(w[1].first_seg, w[0].last_seg);
    }
    // 段号全局连续，每行都带 [nnn] 前缀
    let first = &pieces[0];
    assert!(first.text.starts_with("[000] "));
    let last = pieces.last().unwrap();
    assert_eq!(last.last_seg, segs.len() - 1);
}

#[test]
fn materialize_prefers_segment_indices() {
    let body = "铁砧堡扼守山口，是防御核心。\n城主荀岚兼管税收与熔炉。\n商队过山口必须缴费。\n登记员负责记录伤亡。";
    let segs = segment_text(body);
    assert_eq!(segs.len(), 4);
    let proposals = vec![
        ExtractedEntry {
            title: "铁砧堡".into(),
            aliases: vec![],
            entity_type: "location".into(),
            body: String::new(),
            anchor: String::new(),
            start: 0,
            end: 0,
            heading_level: 2,
        },
        ExtractedEntry {
            title: "荀岚".into(),
            aliases: vec![],
            entity_type: "npc".into(),
            body: String::new(),
            anchor: String::new(),
            start: 1,
            end: 3,
            heading_level: 2,
        },
    ];
    let got = materialize_entries(body, proposals);
    assert_eq!(got.len(), 2);
    assert_eq!(got[0].body, "铁砧堡扼守山口，是防御核心。");
    // 负样本：模型编造的 anchor 与 title 都贴不回，也不影响段号定位
    assert!(got[1].body.contains("城主荀岚"));
    assert!(got[1].body.ends_with("登记员负责记录伤亡。"));
}

#[test]
fn materialize_merges_cross_piece_duplicate_proposals() {
    let body = "铁砧堡扼守山口。\n城主荀岚兼管税收。\n商队过山口必须缴费。\n登记员负责记录伤亡。\n守卫昼夜巡逻。";
    // 两个分片对同一条目各提了一嘴：一个用段号从 [000] 切入，一个用 anchor 从条目中间切入，切点相距很近
    let proposals = vec![
        ExtractedEntry {
            title: "铁砧堡".into(),
            aliases: vec![],
            entity_type: "location".into(),
            body: String::new(),
            anchor: String::new(),
            start: 0,
            end: 1,
            heading_level: 2,
        },
        ExtractedEntry {
            title: "铁砧堡要塞".into(),
            aliases: vec!["山口要塞".into()],
            entity_type: "location".into(),
            body: String::new(),
            anchor: "扼守山口".into(),
            start: -1,
            end: -1,
            heading_level: 2,
        },
        ExtractedEntry {
            title: "登记员".into(),
            aliases: vec![],
            entity_type: "npc".into(),
            body: String::new(),
            anchor: "登记员负责".into(),
            start: -1,
            end: -1,
            heading_level: 2,
        },
    ];
    let got = materialize_entries(body, proposals);
    assert_eq!(got.len(), 2, "重复提议应被合并: {got:?}");
    assert_eq!(got[0].title, "铁砧堡");
    assert!(got[0].aliases.contains(&"山口要塞".to_string()));
    assert!(got[1].body.contains("登记员"));
}

#[test]
fn materialize_fuzzy_recovers_misspelled_anchor() {
    let source = "熔炉区商会每旬开一次集会，商会会长格里姆负责定价。会员缴纳会费后可在北区摆摊。";
    let proposals = vec![ExtractedEntry {
        title: "熔炉区商会".into(),
        aliases: vec![],
        entity_type: "faction".into(),
        body: String::new(),
        // 模型复写漏了两个字还改了标点
        anchor: "熔炉区商每旬一次集会，会长格里".into(),
        start: -1,
        end: -1,
        heading_level: 2,
    }];
    let got = materialize_entries(source, proposals);
    assert_eq!(got.len(), 1);
    assert!(got[0].body.starts_with("熔炉区商会每旬"));
}

#[test]
fn leadin_draft_merges_into_next_within_same_chapter() {
    // 还原真实案例：温度分层(27字导语，冒号结尾) / 霜顶区(完整解释)
    let blocks = vec![
        Block {
            heading_level: 2,
            title: "温度分层".into(),
            text: "终燃城由三层构成，温度随深度递增，生存难度随高度递增：".into(),
        },
        Block {
            heading_level: 2,
            title: "霜顶区（最上层）".into(),
            text: "• 基础温度：极寒，零下30度至零下50度\n• 环境描述：永冻荒原，狂风呼啸，暴露在外的皮肤会在几分钟内冻伤。".into(),
        },
    ];
    let (drafts, _) = refine_drafts(&blocks, "罪业之潮", None);
    assert_eq!(drafts.len(), 1, "导语条应并入下一条");
    assert_eq!(drafts[0].title, "霜顶区（最上层）");
    assert!(drafts[0].body.starts_with("终燃城由三层构成"));
    assert!(drafts[0].aliases.contains(&"温度分层".to_string()));
    // ordinal 重新连续，阅读页按 ordinal±1 才能找到上下文
    assert_eq!(drafts[0].ordinal, 0);
}

#[test]
fn complete_short_entry_and_cross_chapter_lead_are_kept() {
    // 完整短条目（句号结尾）不算导语，不能被吞
    let blocks = vec![
        Block {
            heading_level: 2,
            title: "终燃城".into(),
            text: "终燃城是一座倒置的坟墓，深入山骸与地壳，温暖既是生存必须品，更是流通的货币。".into(),
        },
        Block {
            heading_level: 2,
            title: "暖廊".into(),
            text: "连接三层的恒温通道，每半小时巡逻一次。".into(),
        },
    ];
    let (drafts, _) = refine_drafts(&blocks, "罪业之潮", None);
    assert_eq!(drafts.len(), 2);
    assert_eq!(drafts[0].title, "终燃城");
}

/// Fails on every chapter and keeps a list of what it was asked.
struct Recorder {
    asked: Mutex<Vec<Vec<(String, String)>>>,
}

impl EntrySplitter for Recorder {
    fn split_chapter(&self, _t: &str, _b: &str) -> Result<Vec<ExtractedEntry>, SplitError> {
        panic!("chapters are asked about together");
    }

    fn split_many(
        &self,
        chapters: &[(String, String)],
    ) -> Vec<Result<Vec<ExtractedEntry>, SplitError>> {
        self.asked.lock().unwrap().push(chapters.to_vec());
        chapters
            .iter()
            .map(|c| Err(SplitError { message: format!("不会拆{}", c.0) }))
            .collect()
    }
}

#[test]
fn the_splitter_is_asked_once_about_the_long_chapters() {
    let half = "啊".repeat(500);
    let long = "哦".repeat(2200);
    let blocks = vec![
        block("短", "文。"),
        block("第一章", &half),
        block("第一章", &half),
        block("杂记", &long),
    ];
    let s = Recorder { asked: Mutex::new(Vec::new()) };
    let (drafts, notes) = refine_drafts(&blocks, "模组", Some(&s));
    let asked = s.asked.lock().unwrap();
    assert_eq!(
        *asked,
        vec![vec![
            ("第一章".to_string(), format!("{half}\n{half}")),
            ("杂记".to_string(), long.clone()),
        ]]
    );
    assert_eq!(
        notes,
        vec![
            "「第一章」拆条失败，已用规则切开：不会拆第一章",
            "「杂记」拆条失败，已用规则切开：不会拆杂记",
        ]
    );
    let (without, _) = refine_drafts(&blocks, "模组", None);
    assert_eq!(drafts.len(), without.len());
}

#[test]
fn the_splitter_is_not_asked_about_short_blocks() {
    let s = Recorder { asked: Mutex::new(Vec::new()) };
    let blocks = vec![block("短", "文。")];
    let (drafts, notes) = refine_drafts(&blocks, "模组", Some(&s));
    assert!(s.asked.lock().unwrap().is_empty());
    assert!(notes.is_empty());
    assert_eq!(drafts.len(), 1);
}

#[test]
fn merged_lead_ins_keep_text_digest_and_anchor() {
    let blocks = vec![
        block("甲", "如下："),
        block("乙", "再如下："),
        block("丙", "一段完整的话。"),
        block("丁", "另一段。"),
    ];
    let (drafts, _) = refine_drafts(&blocks, "模组", None);
    let bodies: Vec<&str> = drafts.iter().map(|d| d.body.as_str()).collect();
    let texts: Vec<&str> = blocks.iter().map(|b| b.text.as_str()).collect();
    assert_eq!(bodies.len(), 2);
    assert_eq!(bodies.join("\n"), texts.join("\n"));
    assert_eq!(drafts[1].title, "丁");
    for d in &drafts {
        assert_eq!(d.content_hash, sha1_body_hex(&d.body));
        assert_eq!(d.alt_anchor, alt_anchor(&d.parent_path, &d.body));
    }
}

#[test]
fn shares_are_compared_as_fractions() {
    let big = u64::MAX as u128;
    assert!(Share { num: big, den: big }.greater(&Share { num: big - 1, den: big }));
    assert!(!Share { num: 1, den: 2 }.greater(&Share { num: 2, den: 4 }));
    assert!(Share { num: 1, den: 10 }.greater(&Share { num: 0, den: 1 }));
}
