use table_canon_core::search::{
    accept_hit, add_list, best_of, contains_boost, enough_hits, indexish, lanes, nearest_chunks,
    next_stage, order_hits, over_budget, plan_query, shown_terms, step_at, timed_out, Boost, HitKey,
    Lane, Stage, Step,
};
use table_canon_core::types::Chunk;

fn chunk(title: &str, body: &str, names: &[&str]) -> Chunk {
    Chunk {
        id: 1,
        source_document_id: 2,
        stable_key: "k".into(),
        ordinal: 0,
        entity_type: "npc".into(),
        title: title.into(),
        body: body.into(),
        parent_path: String::new(),
        visibility: 1,
        aliases: names.iter().map(|s| s.to_string()).collect(),
        source_rank: 100,
        file_name: String::new(),
    }
}

#[test]
fn a_query_is_planned() {
    let syn = vec![
        ("独眼酒保".to_string(), "别人".to_string()),
        ("独眼酒保".to_string(), "格里姆".to_string()),
    ];
    let p = plan_query("独眼酒保", &vec![], &syn);
    assert_eq!(p.hanzi_terms, vec!["\"格里姆\"", "\"独眼酒保\""]);
    assert_eq!(p.n_hanzi, 4);
    assert!(!p.long_run);
    assert!(plan_query("一二三四五六七", &vec![], &vec![]).long_run);
    assert_eq!(shown_terms(&p), p.hanzi_terms);
    let q = plan_query("gelimu", &vec![], &vec![]);
    assert!(q.hanzi_terms.is_empty());
    assert_eq!(shown_terms(&q), q.terms);
    assert_eq!(plan_query(&"a".repeat(3000), &vec![], &vec![]).text.len(), 2000);
}

#[test]
fn stages_of_a_search() {
    let p = plan_query("100%酒保", &vec![], &vec![]);
    assert!(matches!(step_at(&p, Stage::Index, 0, true, true), Step::Pass));
    assert!(matches!(
        step_at(&p, Stage::Index, 0, false, false),
        Step::Like { pattern, lane: Lane::Index } if pattern == "%100\\%酒保%"
    ));
    assert!(matches!(
        step_at(&p, Stage::Body, 9, false, false),
        Step::Like { lane: Lane::Body, .. }
    ));
    assert!(matches!(step_at(&p, Stage::Semantic, 0, false, true), Step::Semantic));
    assert!(matches!(step_at(&p, Stage::Semantic, 0, false, false), Step::Pass));
    let q = plan_query("gelimu xyz", &vec![], &vec![]);
    assert!(matches!(step_at(&q, Stage::Hanzi, 0, false, false), Step::Pass));
    assert!(matches!(
        step_at(&q, Stage::Pinyin, 2, false, false),
        Step::Fts { limit: 30, expr, terms } if expr == terms.join(" OR ")
    ));
    assert!(matches!(step_at(&q, Stage::Pinyin, 3, false, false), Step::Pass));
    let mut s = Stage::Hanzi;
    let mut n = 0;
    while s != Stage::Done {
        s = next_stage(s);
        n += 1;
    }
    assert_eq!(n, 6);
    assert!(!timed_out(4499) && timed_out(4500));
    assert!(!over_budget(800) && over_budget(801));
    assert!(enough_hits(true, 5) && !enough_hits(true, 4) && !enough_hits(false, 9));
}

#[test]
fn lists_are_gathered() {
    let mut found = Vec::new();
    add_list(&mut found, &vec![5, 7], Lane::Fts);
    add_list(&mut found, &vec![7, 9], Lane::Index);
    add_list(&mut found, &vec![7], Lane::Fts);
    let ids: Vec<i64> = found.iter().map(|f| f.id).collect();
    assert_eq!(ids, vec![5, 7, 9]);
    assert_eq!(found[1].marks, vec![(Lane::Fts, 1), (Lane::Index, 0), (Lane::Fts, 0)]);
    assert_eq!(lanes(&found[1]), vec![Lane::Fts, Lane::Index]);
    assert_eq!(Lane::Semantic.name(), "semantic");
    let weights: Vec<u32> = [Lane::Fts, Lane::Index, Lane::Body, Lane::Semantic]
        .iter()
        .map(|l| l.weight())
        .collect();
    assert_eq!(weights, vec![100, 240, 35, 100]);
}

#[test]
fn the_best_come_first() {
    assert_eq!(best_of(&vec![3, 9, 3, 7], 3), vec![1, 3, 0]);
    assert_eq!(best_of(&vec![3, 9], 9), vec![1, 0]);
    assert_eq!(nearest_chunks(&vec![(1, 5), (2, 8), (1, 9), (2, 1)]), vec![1, 2]);
    let many: Vec<(i64, u64)> = (0..60).map(|i| (i, i as u64)).collect();
    let near = nearest_chunks(&many);
    assert_eq!(near.len(), 50);
    assert_eq!(near[0], 59);
}

#[test]
fn hits_of_one_title_are_taken_once() {
    let mut seen = Vec::new();
    assert!(accept_hit(&mut seen, &chunk("酒馆", "", &[])));
    assert!(!accept_hit(&mut seen, &chunk(" 酒馆 ", "", &[])));
    let mut other = chunk("酒馆", "", &[]);
    other.source_document_id = 3;
    assert!(accept_hit(&mut seen, &other));
}

#[test]
fn how_a_query_stands_in_an_entry() {
    let c = chunk("断桅酒馆", "酒馆在港口。酒馆很小。", &["老店"]);
    assert_eq!(contains_boost(&c, "断桅酒馆"), Boost::Title);
    assert_eq!(contains_boost(&c, "酒馆"), Boost::InTitle);
    assert_eq!(contains_boost(&c, "老店"), Boost::InName);
    assert_eq!(contains_boost(&c, "港口"), Boost::InBody { times: 1, chars: 11 });
    assert_eq!(contains_boost(&c, "山"), Boost::Absent);
    assert_eq!(contains_boost(&c, ""), Boost::Absent);
    assert!(indexish(&vec![Lane::Index], &c, "山"));
    assert!(indexish(&vec![], &c, "老店"));
    assert!(!indexish(&vec![Lane::Body], &c, "港口"));
    assert!(!indexish(&vec![Lane::Index], &c, ""));
}

fn key(indexish: bool, score: u64, source_rank: i64, title: &str) -> HitKey {
    HitKey {
        indexish,
        score,
        source_rank,
        title: title.into(),
    }
}

#[test]
fn hits_are_ordered() {
    let keys = vec![
        key(false, 9, 1, "a"),
        key(true, 1, 1, "b"),
        key(true, 2, 9, "c"),
        key(true, 2, 3, "e"),
        key(true, 2, 3, "d"),
    ];
    assert_eq!(order_hits(&keys), vec![4, 3, 2, 1, 0]);
    let many: Vec<HitKey> = (0..30).map(|i| key(false, i, 0, "t")).collect();
    let top = order_hits(&many);
    assert_eq!(top.len(), 20);
    assert_eq!(top[0], 29);
}
