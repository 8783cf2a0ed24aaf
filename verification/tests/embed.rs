use std::path::PathBuf;
use table_canon_core::embed::{
    doc_input, first_found, output_shape, query_input, root_count, split_subblocks, OutputShape,
    QUERY_PREFIX, SUBBLOCK_CHARS,
};

#[test]
fn subblocks_short_body_single() {
    let v = split_subblocks("铁砧堡扼守山口。城主荀岚兼管税收。");
    assert_eq!(v.len(), 1);
    assert_eq!(v[0], "铁砧堡扼守山口。城主荀岚兼管税收。");
    assert!(split_subblocks("   ").is_empty());
}

#[test]
fn subblocks_long_body_windows_with_overlap_and_sentence_cut() {
    let para = "终燃城的温度随深度递增，生存难度随高度递增，这是全城公认的铁律。";
    let body = para.repeat(40);
    let v = split_subblocks(&body);
    assert!(v.len() >= 4, "应切成多块，实际 {} 块", v.len());
    assert!(v.iter().all(|s| s.chars().count() <= SUBBLOCK_CHARS));
    let tail: String = {
        let cs: Vec<char> = v[0].chars().collect();
        cs[cs.len().saturating_sub(8)..].iter().collect()
    };
    let tail = tail.trim();
    assert!(!tail.is_empty(), "块尾取样为空，断言无意义");
    assert!(
        v[1].contains(tail),
        "相邻块应共享重叠区：v[0] 末尾 {tail:?} 未出现在 v[1] 中"
    );
}

#[test]
fn query_prefix_is_bge_retrieval_prefix() {
    assert!(QUERY_PREFIX.starts_with("为这个句子生成表示"));
    assert!(QUERY_PREFIX.ends_with('：'));
}

fn roots(exe: &str) -> Vec<PathBuf> {
    let exe = PathBuf::from(exe);
    let above: Vec<PathBuf> = exe.ancestors().skip(1).map(|p| p.to_path_buf()).collect();
    let flags: Vec<bool> = above
        .iter()
        .map(|p| p.file_name().map_or(false, |n| n == "target"))
        .collect();
    let n = root_count(&flags);
    above.into_iter().take(n).collect()
}

#[test]
fn dev_build_roots_walk_up_from_target() {
    let found = roots("C:/work/repo/target/release/app.exe");
    assert!(
        found.iter().any(|r| r == &PathBuf::from("C:/work/repo")),
        "应上溯到仓库根，实际 {found:?}"
    );
    let found2 = roots("C:/Program Files/table-canon/app.exe");
    assert_eq!(
        found2.first(),
        Some(&PathBuf::from("C:/Program Files/table-canon"))
    );
    assert!(found2.len() <= 2, "不应上溯出无关目录: {found2:?}");
}

#[test]
fn root_count_edges() {
    assert_eq!(root_count(&vec![]), 0);
    assert_eq!(root_count(&vec![false, false, false]), 1);
    assert_eq!(root_count(&vec![true, false]), 2);
    assert_eq!(root_count(&vec![false, true, false, false, false, false]), 4);
}

#[test]
fn first_found_takes_the_first() {
    assert_eq!(first_found(&vec![false, true, true]), Some(1));
    assert_eq!(first_found(&vec![false, false]), None);
}

#[test]
fn windows_share_fifty_characters() {
    let body: String = (0..1000u32).map(|i| char::from_u32(0x4E00 + i).unwrap()).collect();
    let v = split_subblocks(&body);
    let cs: Vec<char> = body.chars().collect();
    assert_eq!(v.len(), 3);
    assert_eq!(v[0].chars().collect::<Vec<_>>(), cs[0..400].to_vec());
    assert_eq!(v[1].chars().collect::<Vec<_>>(), cs[350..750].to_vec());
    assert_eq!(v[2].chars().collect::<Vec<_>>(), cs[700..1000].to_vec());
}

#[test]
fn windows_end_after_a_sentence_in_their_second_half() {
    let body = format!("{}。{}", "甲".repeat(300), "乙".repeat(400));
    let v = split_subblocks(&body);
    assert_eq!(v[0].chars().count(), 301);
    assert!(v[0].ends_with('。'));
}

#[test]
fn encoder_inputs() {
    assert_eq!(doc_input("  正文 ").unwrap(), "正文");
    assert_eq!(doc_input(" \n").unwrap_err().message, "空文本不编码");
    assert_eq!(
        query_input(" 酒馆 ").unwrap(),
        "为这个句子生成表示以用于检索相关文章：酒馆"
    );
    assert_eq!(query_input("").unwrap_err().message, "空查询不编码");
}

#[test]
fn encoder_outputs() {
    assert_eq!(output_shape(0, 512), OutputShape::NoTokens);
    assert_eq!(output_shape(3, 1537), OutputShape::Uneven);
    assert_eq!(output_shape(2, 1536), OutputShape::WrongDim(768));
    assert_eq!(output_shape(3, 1536), OutputShape::Good);
}
