//! From the bytes of a file to its blocks, and from blocks to drafts of entries.
pub use crate::formats::{
    blocks_from_docx, blocks_from_html, blocks_from_markdown, blocks_from_paragraphs,
    blocks_from_plain, mark_headings, split_long_blocks, IngestError, Paragraph,
};

use crate::formats::{
    html_blocks, markdown_blocks, paragraphs_of, plain_blocks, shortened, word_blocks,
};
use crate::normalize::{
    alt_anchor, anchor_key, body_digest, lower_chars, lower_text, normal, normalize_chars,
    numbered_key, path_key, place_key, sha1_body_hex, stable_key,
};
use crate::order::{insert_text, sorted_texts};
use crate::outside::{
    decode_gb18030, decode_sniffed, gb18030_text, match_views, regex_captures, regex_matches,
    sniffed_text, utf8_text, MatchView, RegexMatch,
};
use crate::pinyin_idx::{search_pinyin_blob, sounds_of};
use crate::scan::{
    begins_with, contains_str, has_text, join, joined, lines, lines_of, parts_any, split_any,
    starts_with,
};
use crate::text::{
    blank, copy, extend, extend_str, is_blank, pieces, prefix, rows, same_str, take_prefix, texts,
    to_chars, to_text, to_texts, trim, trimmed,
};
use crate::types::{
    block_views, draft_views, Block, BlockView, DraftChunk, DraftView, VIS_DM_ONLY, VIS_PUBLIC,
    VIS_SECRET,
};
use vstd::prelude::*;
use vstd::utf8::{decode_utf8, valid_utf8};

verus! {

// ---------------------------------------------------------------------------------------------
// Kind of entry
// ---------------------------------------------------------------------------------------------

/// The kind of entry that the words of a text speak for.
pub open spec fn kind_of(h: Seq<char>) -> Seq<char> {
    if has_text(h, "NPC"@) || has_text(h, "人物"@) || has_text(h, "角色"@) {
        "npc"@
    } else if has_text(h, "地点"@) || has_text(h, "城镇"@) || has_text(h, "酒馆"@) || has_text(
        h,
        "港口"@,
    ) || has_text(h, "城市"@) || has_text(h, "村庄"@) {
        "location"@
    } else if has_text(h, "物品"@) || has_text(h, "魔法物品"@) || has_text(h, "道具"@) || has_text(
        h,
        "武器"@,
    ) {
        "item"@
    } else if has_text(h, "势力"@) || has_text(h, "组织"@) || has_text(h, "公会"@) || has_text(
        h,
        "教会"@,
    ) {
        "faction"@
    } else if has_text(h, "规则"@) || has_text(h, "裁定"@) {
        "rule"@
    } else if has_text(h, "密谋"@) || has_text(h, "线索"@) || has_text(h, "剧情"@) {
        "plot"@
    } else {
        "other"@
    }
}

/// What the kind of an entry is told by: its title and the first eighty characters of its body.
pub open spec fn kind_words(title: Seq<char>, body: Seq<char>) -> Seq<char> {
    title + "\n"@ + prefix(body, 80)
}

fn has_any(h: &[char], a: &str, b: &str, c: &str) -> (r: bool)
    ensures
        r == (has_text(h@, a@) || has_text(h@, b@) || has_text(h@, c@)),
{
    contains_str(h, a) || contains_str(h, b) || contains_str(h, c)
}

/// Guesses the kind of an entry from its title and the beginning of its body.
pub fn guess_entity_type(title: &str, body: &str) -> (r: String)
    ensures
        r@ == kind_of(kind_words(title@, body@)),
{
    let b = to_chars(body);
    let mut words = to_chars(title);
    extend_str(&mut words, "\n");
    extend(&mut words, take_prefix(b.as_slice(), 80));
    let h = words.as_slice();
    if has_any(h, "NPC", "人物", "角色") {
        "npc".to_string()
    } else if has_any(h, "地点", "城镇", "酒馆") || has_any(h, "港口", "城市", "村庄") {
        "location".to_string()
    } else if has_any(h, "物品", "魔法物品", "道具") || contains_str(h, "武器") {
        "item".to_string()
    } else if has_any(h, "势力", "组织", "公会") || contains_str(h, "教会") {
        "faction".to_string()
    } else if contains_str(h, "规则") || contains_str(h, "裁定") {
        "rule".to_string()
    } else if has_any(h, "密谋", "线索", "剧情") {
        "plot".to_string()
    } else {
        "other".to_string()
    }
}

// ---------------------------------------------------------------------------------------------
// Aliases
// ---------------------------------------------------------------------------------------------

/// The matches of a pattern in a text; none if the pattern is not well formed.
pub open spec fn found(pattern: Seq<char>, text: Seq<char>) -> Seq<MatchView> {
    match regex_matches(pattern, text) {
        Some(ms) => ms,
        None => Seq::empty(),
    }
}

/// The text of a group of a match; empty if the group took no part in it.
pub open spec fn group_text(m: MatchView, k: int) -> Seq<char> {
    if 0 <= k < m.groups.len() {
        match m.groups[k] {
            Some(s) => s,
            None => Seq::empty(),
        }
    } else {
        Seq::empty()
    }
}

/// Finds the matches of a pattern.
pub(crate) fn find_all(pattern: &str, text: &str) -> (r: Vec<RegexMatch>)
    ensures
        match_views(r@) == found(pattern@, text@),
        crate::outside::matches_in_order(match_views(r@), text@),
{
    match regex_captures(pattern, text) {
        Some(v) => v,
        None => {
            let none: Vec<RegexMatch> = Vec::new();
            assert(match_views(none@) =~= Seq::<MatchView>::empty());
            none
        },
    }
}

/// The characters of a group of a match.
pub(crate) fn group_chars(m: &RegexMatch, k: usize) -> (r: Vec<char>)
    ensures
        r@ == group_text(m@, k as int),
{
    if k < m.groups.len() {
        match &m.groups[k] {
            Some(s) => to_chars(s.as_str()),
            None => Vec::new(),
        }
    } else {
        Vec::new()
    }
}

/// The texts of a list that are not blank, without surrounding white space.
pub open spec fn kept_names(names: Seq<Seq<char>>) -> Seq<Seq<char>>
    decreases names.len(),
{
    if names.len() == 0 {
        Seq::empty()
    } else if is_blank(names.last()) {
        kept_names(names.drop_last())
    } else {
        kept_names(names.drop_last()).push(trimmed(names.last()))
    }
}

/// The names in the first groups of matches, separated by commas, slashes and semicolons.
pub open spec fn listed_names(ms: Seq<MatchView>) -> Seq<Seq<char>>
    decreases ms.len(),
{
    if ms.len() == 0 {
        Seq::empty()
    } else {
        listed_names(ms.drop_last()) + kept_names(
            parts_any(group_text(ms.last(), 1), "、,/，;；"@),
        )
    }
}

/// The name in brackets behind a title, if there is one of at most twenty characters.
pub open spec fn bracket_name(ms: Seq<MatchView>) -> Seq<Seq<char>> {
    if ms.len() > 0 && 0 < trimmed(group_text(ms[0], 2)).len() <= 20 {
        seq![trimmed(group_text(ms[0], 2))]
    } else {
        Seq::empty()
    }
}

/// The pattern of a line that lists other names.
pub open spec fn alias_pattern() -> Seq<char> {
    "(?:又名|别名|亦称)[:：]\\s*([^\\n]+)"@
}

/// The pattern of a title with something in brackets.
pub open spec fn bracket_pattern() -> Seq<char> {
    "(.+?)[（(]([^）)]+)[）)]"@
}

/// The other names of an entry, in ascending order, each once.
pub open spec fn aliases_of(title: Seq<char>, body: Seq<char>) -> Seq<Seq<char>> {
    sorted_texts(
        listed_names(found(alias_pattern(), title + "\n"@ + body)) + bracket_name(
            found(bracket_pattern(), title),
        ),
    )
}

fn insert_kept(out: &mut Vec<Vec<char>>, names: &Vec<Vec<char>>, Ghost(before): Ghost<Seq<Seq<char>>>)
    requires
        rows(old(out)@) == sorted_texts(before),
    ensures
        rows(final(out)@) == sorted_texts(before + kept_names(rows(names@))),
{
    let ghost all = rows(names@);
    let mut i: usize = 0;
    assert(before + kept_names(all.take(0)) =~= before);
    while i < names.len()
        invariant
            i <= names@.len(),
            all == rows(names@),
            rows(out@) == sorted_texts(before + kept_names(all.take(i as int))),
        decreases names@.len() - i,
    {
        let ghost sofar = before + kept_names(all.take(i as int));
        proof {
            assert(all.take(i + 1).drop_last() =~= all.take(i as int));
            assert(all.take(i + 1).last() == names@[i as int]@);
        }
        let t = trim(names[i].as_slice());
        if t.len() > 0 {
            insert_text(out, t);
            proof {
                assert(before + kept_names(all.take(i + 1)) =~= sofar.push(t@));
                assert(sofar.push(t@).drop_last() =~= sofar);
            }
        }
        i += 1;
    }
    assert(all.take(i as int) =~= all);
}

/// Gathers other names out of the matches of the two patterns: `listed` those of lines that list
/// other names, `bracketed` those of the title with something in brackets.
pub fn collect_aliases(listed: &Vec<RegexMatch>, bracketed: &Vec<RegexMatch>) -> (r: Vec<String>)
    ensures
        texts(r@) == sorted_texts(
            listed_names(match_views(listed@)) + bracket_name(match_views(bracketed@)),
        ),
{
    let ghost all = match_views(listed@);
    let ghost names = listed_names(all);
    let mut out: Vec<Vec<char>> = Vec::new();
    assert(rows(out@) =~= Seq::<Seq<char>>::empty());
    let mut k: usize = 0;
    while k < listed.len()
        invariant
            k <= listed@.len(),
            all == match_views(listed@),
            rows(out@) == sorted_texts(listed_names(all.take(k as int))),
        decreases listed@.len() - k,
    {
        proof {
            assert(all.take(k + 1).drop_last() =~= all.take(k as int));
            assert(all.take(k + 1).last() == listed@[k as int]@);
        }
        let g = group_chars(&listed[k], 1);
        let parts = split_any(g.as_slice(), "、,/，;；");
        insert_kept(&mut out, &parts, Ghost(listed_names(all.take(k as int))));
        k += 1;
    }
    assert(all.take(k as int) =~= all);
    assert(names + Seq::<Seq<char>>::empty() =~= names);
    if bracketed.len() > 0 {
        assert(match_views(bracketed@)[0] == bracketed@[0]@);
        let g = group_chars(&bracketed[0], 2);
        let t = trim(g.as_slice());
        if t.len() > 0 && t.len() <= 20 {
            insert_text(&mut out, t);
            proof {
                assert(names + seq![t@] =~= names.push(t@));
                assert(names.push(t@).drop_last() =~= names);
            }
        }
    }
    to_texts(&out)
}

/// Finds other names of an entry: those that a line lists after 又名, 别名 or 亦称, and one in
/// brackets in the title.
pub fn extract_aliases(title: &str, body: &str) -> (r: Vec<String>)
    ensures
        texts(r@) == aliases_of(title@, body@),
{
    let mut all = to_chars(title);
    extend_str(&mut all, "\n");
    extend_str(&mut all, body);
    let blob = to_text(all.as_slice());
    let listed = find_all("(?:又名|别名|亦称)[:：]\\s*([^\\n]+)", blob.as_str());
    let bracketed = find_all("(.+?)[（(]([^）)]+)[）)]", title);
    collect_aliases(&listed, &bracketed)
}

// ---------------------------------------------------------------------------------------------
// Visibility
// ---------------------------------------------------------------------------------------------

/// A line that marks a secret.
pub open spec fn marks_secret(t: Seq<char>) -> bool {
    starts_with(t, "【秘密】"@) || starts_with(t, "【密谋】"@) || has_text(lower_text(t), "secret"@)
}

/// A line that is for the game master.
pub open spec fn marks_dm(t: Seq<char>) -> bool {
    starts_with(t, "【DM】"@) || starts_with(t, "DM only"@) || has_text(t, "对玩家隐藏"@)
}

/// Whether some line marks a secret.
pub open spec fn has_secret_line(body: Seq<char>) -> bool {
    exists|k: int|
        0 <= k < lines_of(body).len() && marks_secret(trimmed(#[trigger] lines_of(body)[k]))
}

/// Whether some line is for the game master.
pub open spec fn has_dm_line(body: Seq<char>) -> bool {
    exists|k: int| 0 <= k < lines_of(body).len() && marks_dm(trimmed(#[trigger] lines_of(body)[k]))
}

/// The visibility bits that the lines of a body speak for.
pub open spec fn visibility_of(body: Seq<char>) -> int {
    VIS_PUBLIC + (if has_secret_line(body) {
        VIS_SECRET as int
    } else {
        0
    }) + (if has_dm_line(body) {
        VIS_DM_ONLY as int
    } else {
        0
    })
}

/// Guesses the visibility of an entry from the marks in its body.
pub fn guess_visibility(body: &str) -> (r: i64)
    ensures
        r == visibility_of(body@),
{
    let v = to_chars(body);
    let ls = lines(v.as_slice());
    let ghost all = lines_of(body@);
    let mut secret = false;
    let mut dm = false;
    let mut k: usize = 0;
    while k < ls.len()
        invariant
            k <= ls@.len(),
            all == lines_of(body@),
            pieces(ls@) == all,
            secret <==> exists|j: int| 0 <= j < k && marks_secret(trimmed(#[trigger] all[j])),
            dm <==> exists|j: int| 0 <= j < k && marks_dm(trimmed(#[trigger] all[j])),
        decreases ls@.len() - k,
    {
        assert(pieces(ls@)[k as int] == ls@[k as int]@);
        let t = trim(ls[k]);
        let low = lower_chars(t);
        let is_secret = begins_with(t, "【秘密】") || begins_with(t, "【密谋】") || contains_str(
            low.as_slice(),
            "secret",
        );
        let is_dm = begins_with(t, "【DM】") || begins_with(t, "DM only") || contains_str(
            t,
            "对玩家隐藏",
        );
        assert(is_secret == marks_secret(trimmed(all[k as int])));
        assert(is_dm == marks_dm(trimmed(all[k as int])));
        secret = secret || is_secret;
        dm = dm || is_dm;
        k += 1;
    }
    let mut r: i64 = VIS_PUBLIC;
    if secret {
        r = r + VIS_SECRET;
    }
    if dm {
        r = r + VIS_DM_ONLY;
    }
    r
}

/// A line that players must not see.
pub open spec fn secret_markup(line: Seq<char>) -> bool {
    let t = trimmed(line);
    starts_with(t, "【秘密】"@) || starts_with(t, "【DM】"@) || starts_with(t, "【密谋】"@) || has_text(
        t,
        "对玩家隐藏"@,
    )
}

/// Whether a line is marked as one that players must not see.
pub fn is_secret_markup_line(line: &str) -> (r: bool)
    ensures
        r == secret_markup(line@),
{
    let v = to_chars(line);
    is_secret_line(v.as_slice())
}

/// Whether a line is marked as one that players must not see.
pub fn is_secret_line(line: &[char]) -> (r: bool)
    ensures
        r == secret_markup(line@),
{
    let t = trim(line);
    begins_with(t, "【秘密】") || begins_with(t, "【DM】") || begins_with(t, "【密谋】") || contains_str(
        t,
        "对玩家隐藏",
    )
}

// ---------------------------------------------------------------------------------------------
// Drafts
// ---------------------------------------------------------------------------------------------

/// A position in a document as the number that an entry carries.
pub open spec fn ordinal_at(n: int) -> int {
    (n as i64) as int
}

/// Whether one of the drafts has the given key.
pub open spec fn has_key(drafts: Seq<DraftView>, key: Seq<char>) -> bool {
    exists|i: int| 0 <= i < drafts.len() && (#[trigger] drafts[i]).stable_key == key
}

/// The key of the next draft: that of its path and title, or, where a draft has it already, that
/// of its path, title and position.
pub open spec fn next_key(drafts: Seq<DraftView>, path: Seq<char>, title: Seq<char>) -> Seq<char> {
    if has_key(drafts, place_key(path, title)) {
        numbered_key(path, title, ordinal_at(drafts.len() as int))
    } else {
        place_key(path, title)
    }
}

/// The next draft, with the given path, title, body, kind and other names.
pub open spec fn next_draft(
    drafts: Seq<DraftView>,
    path: Seq<char>,
    title: Seq<char>,
    body: Seq<char>,
    kind: Seq<char>,
    aliases: Seq<Seq<char>>,
) -> DraftView {
    DraftView {
        stable_key: next_key(drafts, path, title),
        alt_anchor: anchor_key(path, body),
        ordinal: ordinal_at(drafts.len() as int),
        entity_type: kind,
        title,
        body,
        parent_path: path,
        visibility: visibility_of(body),
        aliases,
        content_hash: body_digest(body),
    }
}

/// The title of the draft of a block: its own, or the beginning of its text.
pub open spec fn block_title(b: BlockView) -> Seq<char> {
    if is_blank(b.title) {
        prefix(normal(b.text), 40)
    } else {
        b.title
    }
}

/// The next draft, made of a block under the given path.
pub open spec fn block_draft(drafts: Seq<DraftView>, path: Seq<char>, b: BlockView) -> DraftView {
    let title = block_title(b);
    next_draft(
        drafts,
        path,
        title,
        b.text,
        kind_of(kind_words(title, b.text)),
        aliases_of(title, b.text),
    )
}

/// The headings left open when one of the given level comes: those of a lower level. The name of
/// the document always stays.
pub open spec fn still_open(stack: Seq<(int, Seq<char>)>, level: int) -> Seq<(int, Seq<char>)>
    decreases stack.len(),
{
    if stack.len() > 1 && stack.last().0 >= level {
        still_open(stack.drop_last(), level)
    } else {
        stack
    }
}

/// The open headings at the last of the blocks, the name of the document first.
pub open spec fn open_headings(blocks: Seq<BlockView>, stem: Seq<char>) -> Seq<(int, Seq<char>)>
    decreases blocks.len(),
{
    if blocks.len() == 0 {
        seq![(0int, stem)]
    } else {
        let b = blocks.last();
        still_open(open_headings(blocks.drop_last(), stem), b.heading_level).push(
            (b.heading_level, b.title),
        )
    }
}

/// The names of open headings.
pub open spec fn heading_names(stack: Seq<(int, Seq<char>)>) -> Seq<Seq<char>> {
    Seq::new(stack.len(), |i: int| stack[i].1)
}

/// The path that open headings make.
pub open spec fn heading_path(stack: Seq<(int, Seq<char>)>) -> Seq<char> {
    joined(heading_names(stack), " / "@)
}

/// The drafts of the blocks of a document.
pub open spec fn drafts_of(blocks: Seq<BlockView>, stem: Seq<char>) -> Seq<DraftView>
    decreases blocks.len(),
{
    if blocks.len() == 0 {
        Seq::empty()
    } else {
        let before = drafts_of(blocks.drop_last(), stem);
        before.push(block_draft(before, heading_path(open_headings(blocks, stem)), blocks.last()))
    }
}

/// Whether the digest of a draft is that of its body, and its anchor that of its path and body.
pub open spec fn keyed(d: DraftView) -> bool {
    d.content_hash == body_digest(d.body) && d.alt_anchor == anchor_key(d.parent_path, d.body)
}

/// Whether the digests and anchors of all drafts are those of their own bodies and paths.
pub open spec fn all_keyed(drafts: Seq<DraftView>) -> bool {
    forall|k: int| 0 <= k < drafts.len() ==> keyed(#[trigger] drafts[k])
}

/// The digest of every draft is that of its own body, and its anchor that of its own path and body.
pub proof fn block_drafts_are_keyed(blocks: Seq<BlockView>, stem: Seq<char>)
    ensures
        all_keyed(drafts_of(blocks, stem)),
    decreases blocks.len(),
{
    if blocks.len() > 0 {
        block_drafts_are_keyed(blocks.drop_last(), stem);
    }
}

fn key_is_used(drafts: &Vec<DraftChunk>, key: &[char]) -> (r: bool)
    ensures
        r == has_key(draft_views(drafts@), key@),
{
    let mut i: usize = 0;
    while i < drafts.len()
        invariant
            i <= drafts@.len(),
            forall|j: int| 0 <= j < i ==> (#[trigger] draft_views(drafts@)[j]).stable_key != key@,
        decreases drafts@.len() - i,
    {
        if same_str(key, drafts[i].stable_key.as_str()) {
            assert(draft_views(drafts@)[i as int].stable_key == key@);
            return true;
        }
        i += 1;
    }
    false
}

/// Makes the next draft.
pub fn make_draft(
    drafts: &Vec<DraftChunk>,
    path: String,
    title: String,
    body: String,
    kind: String,
    aliases: Vec<String>,
) -> (r: DraftChunk)
    ensures
        r@ == next_draft(draft_views(drafts@), path@, title@, body@, kind@, texts(aliases@)),
{
    let ordinal: i64 = drafts.len() as i64;
    let plain = path_key(path.as_str(), title.as_str());
    let plain_chars = to_chars(plain.as_str());
    let key = if key_is_used(drafts, plain_chars.as_slice()) {
        stable_key(path.as_str(), title.as_str(), ordinal)
    } else {
        plain
    };
    let anchor = alt_anchor(path.as_str(), body.as_str());
    let visibility = guess_visibility(body.as_str());
    let hash = sha1_body_hex(body.as_str());
    DraftChunk {
        stable_key: key,
        alt_anchor: anchor,
        ordinal,
        entity_type: kind,
        title,
        body,
        parent_path: path,
        visibility,
        aliases,
        content_hash: hash,
    }
}

/// Makes the next draft out of a block under a path.
pub fn make_block_draft(drafts: &Vec<DraftChunk>, path: String, b: &Block) -> (r: DraftChunk)
    ensures
        r@ == block_draft(draft_views(drafts@), path@, b@),
{
    let own = to_chars(b.title.as_str());
    let title = if blank(own.as_slice()) {
        let text = to_chars(b.text.as_str());
        let n = normalize_chars(text.as_slice());
        to_text(take_prefix(n.as_slice(), 40))
    } else {
        b.title.clone()
    };
    let kind = guess_entity_type(title.as_str(), b.text.as_str());
    let aliases = extract_aliases(title.as_str(), b.text.as_str());
    make_draft(drafts, path, title, b.text.clone(), kind, aliases)
}

/// The values of a stack of headings.
pub open spec fn stack_views(v: Seq<(u8, Vec<char>)>) -> Seq<(int, Seq<char>)> {
    Seq::new(v.len(), |i: int| (v[i].0 as int, v[i].1@))
}

fn write_path(stack: &Vec<(u8, Vec<char>)>) -> (r: String)
    ensures
        r@ == heading_path(stack_views(stack@)),
{
    let mut names: Vec<Vec<char>> = Vec::new();
    let mut i: usize = 0;
    while i < stack.len()
        invariant
            i <= stack@.len(),
            names@.len() == i,
            forall|j: int| 0 <= j < i ==> (#[trigger] names@[j])@ == stack@[j].1@,
        decreases stack@.len() - i,
    {
        names.push(copy(stack[i].1.as_slice()));
        i += 1;
    }
    assert(rows(names@) =~= heading_names(stack_views(stack@)));
    let path = join(&names, " / ");
    to_text(path.as_slice())
}

fn close_headings(stack: &mut Vec<(u8, Vec<char>)>, level: u8)
    ensures
        stack_views(final(stack)@) == still_open(stack_views(old(stack)@), level as int),
{
    let ghost start = stack_views(stack@);
    while stack.len() > 1 && stack[stack.len() - 1].0 >= level
        invariant
            still_open(start, level as int) == still_open(stack_views(stack@), level as int),
        decreases stack@.len(),
    {
        let ghost before = stack@;
        stack.pop();
        assert(stack_views(stack@) =~= stack_views(before).drop_last());
    }
}

/// Makes a draft of each block of a document. The path of a draft is made of the name of the
/// document and the headings above it.
pub fn blocks_to_drafts(blocks: &[Block], file_stem: &str) -> (r: Vec<DraftChunk>)
    ensures
        draft_views(r@) == drafts_of(block_views(blocks@), file_stem@),
{
    let ghost all = block_views(blocks@);
    let mut stack: Vec<(u8, Vec<char>)> = Vec::new();
    stack.push((0, to_chars(file_stem)));
    assert(stack_views(stack@) =~= seq![(0int, file_stem@)]);
    let mut out: Vec<DraftChunk> = Vec::new();
    assert(draft_views(out@) =~= Seq::<DraftView>::empty());
    let mut i: usize = 0;
    while i < blocks.len()
        invariant
            i <= blocks@.len(),
            all == block_views(blocks@),
            stack_views(stack@) == open_headings(all.take(i as int), file_stem@),
            draft_views(out@) == drafts_of(all.take(i as int), file_stem@),
        decreases blocks@.len() - i,
    {
        proof {
            assert(all.take(i + 1).drop_last() =~= all.take(i as int));
            assert(all.take(i + 1).last() == blocks@[i as int]@);
        }
        let b = &blocks[i];
        close_headings(&mut stack, b.heading_level);
        let ghost open = stack_views(stack@);
        let name = to_chars(b.title.as_str());
        stack.push((b.heading_level, name));
        assert(stack_views(stack@) =~= open.push((b.heading_level as int, b.title@)));
        let path = write_path(&stack);
        let d = make_block_draft(&out, path, b);
        let ghost before = draft_views(out@);
        out.push(d);
        assert(draft_views(out@) =~= before.push(d@));
        i += 1;
    }
    assert(all.take(i as int) =~= all);
    out
}

// ---------------------------------------------------------------------------------------------
// Files
// ---------------------------------------------------------------------------------------------

/// The text of bytes: as UTF-8 where they are well formed, else in the encoding that a byte order
/// mark tells where that goes without errors, else as GB18030.
pub open spec fn text_of(bytes: Seq<u8>) -> Seq<char> {
    if valid_utf8(bytes) {
        decode_utf8(bytes)
    } else if !sniffed_text(bytes).1 {
        sniffed_text(bytes).0
    } else {
        gb18030_text(bytes)
    }
}

/// Picks the text of bytes out of what the decoders made of them.
pub fn pick_text(utf8: Option<String>, sniffed: (String, bool), gb18030: String) -> (r: String)
    ensures
        r@ == (match utf8 {
            Some(s) => s@,
            None => if !sniffed.1 {
                sniffed.0@
            } else {
                gb18030@
            },
        }),
{
    match utf8 {
        Some(s) => s,
        None => if !sniffed.1 {
            sniffed.0
        } else {
            gb18030
        },
    }
}

/// Decodes the bytes of a text file. There is always a text.
pub fn decode_bytes(bytes: &[u8]) -> (r: Result<String, IngestError>)
    requires
        bytes@.len() <= usize::MAX / 16,
    ensures
        r matches Ok(s) && s@ == text_of(bytes@),
{
    match utf8_text(bytes) {
        Some(s) => Ok(s),
        None => {
            let sniffed = decode_sniffed(bytes);
            let gb18030 = decode_gb18030(bytes);
            Ok(pick_text(None, sniffed, gb18030))
        },
    }
}

/// What is to be read of a file.
#[derive(Debug, Clone, Copy, PartialEq, Eq, Structural)]
pub enum FileKind {
    Markdown,
    Html,
    Plain,
    Docx,
}

/// The kind of a file by its extension in lower case, or why it cannot be read.
pub open spec fn kind_of_file(ext: Seq<char>) -> Result<FileKind, Seq<char>> {
    if ext == "md"@ || ext == "markdown"@ {
        Ok(FileKind::Markdown)
    } else if ext == "html"@ || ext == "htm"@ {
        Ok(FileKind::Html)
    } else if ext == "txt"@ || ext == "rtf"@ {
        Ok(FileKind::Plain)
    } else if ext == "docx"@ {
        Ok(FileKind::Docx)
    } else if ext == "pdf"@ {
        Err("PDF 文本层抽取未纳入本 demo"@)
    } else if ext == "doc"@ {
        Err("不支持 .doc，请另存为 .docx"@)
    } else {
        Err("不支持的文件类型: "@ + ext)
    }
}

/// Tells the kind of a file by its extension.
pub fn file_kind(extension: &str) -> (r: Result<FileKind, IngestError>)
    ensures
        match r {
            Ok(k) => kind_of_file(lower_text(extension@)) == Ok::<FileKind, Seq<char>>(k),
            Err(e) => kind_of_file(lower_text(extension@)) == Err::<FileKind, Seq<char>>(
                e.message@,
            ),
        },
{
    let v = to_chars(extension);
    let low = lower_chars(v.as_slice());
    let ext = low.as_slice();
    if same_str(ext, "md") || same_str(ext, "markdown") {
        Ok(FileKind::Markdown)
    } else if same_str(ext, "html") || same_str(ext, "htm") {
        Ok(FileKind::Html)
    } else if same_str(ext, "txt") || same_str(ext, "rtf") {
        Ok(FileKind::Plain)
    } else if same_str(ext, "docx") {
        Ok(FileKind::Docx)
    } else if same_str(ext, "pdf") {
        Err(IngestError { message: "PDF 文本层抽取未纳入本 demo".to_string() })
    } else if same_str(ext, "doc") {
        Err(IngestError { message: "不支持 .doc，请另存为 .docx".to_string() })
    } else {
        let mut m = to_chars("不支持的文件类型: ");
        extend(&mut m, ext);
        Err(IngestError { message: to_text(m.as_slice()) })
    }
}

/// The blocks of a file of a given kind, or why there are none.
pub open spec fn blocks_of_file(kind: FileKind, text: Seq<char>) -> Result<Seq<BlockView>, Seq<char>> {
    match kind {
        FileKind::Markdown => Ok(markdown_blocks(text)),
        FileKind::Html => Ok(html_blocks(text)),
        FileKind::Plain => Ok(plain_blocks(text)),
        FileKind::Docx => if word_blocks(paragraphs_of(text)).len() > 0 {
            Ok(shortened(word_blocks(paragraphs_of(text))))
        } else {
            Err("docx 未抽出文本"@)
        },
    }
}

/// Cuts a file into blocks. `text` is the text of the file, for a Word document the XML of its
/// main part.
pub fn parse_file(extension: &str, text: &str) -> (r: Result<Vec<Block>, IngestError>)
    ensures
        match kind_of_file(lower_text(extension@)) {
            Ok(kind) => match r {
                Ok(v) => blocks_of_file(kind, text@) == Ok::<Seq<BlockView>, Seq<char>>(
                    block_views(v@),
                ),
                Err(e) => blocks_of_file(kind, text@) == Err::<Seq<BlockView>, Seq<char>>(
                    e.message@,
                ),
            },
            Err(m) => r matches Err(e) && e.message@ == m,
        },
{
    match file_kind(extension) {
        Ok(FileKind::Markdown) => Ok(blocks_from_markdown(text)),
        Ok(FileKind::Html) => Ok(blocks_from_html(text)),
        Ok(FileKind::Plain) => Ok(blocks_from_plain(text)),
        Ok(FileKind::Docx) => blocks_from_docx(text),
        Err(e) => Err(e),
    }
}

// ---------------------------------------------------------------------------------------------
// The text that is searched
// ---------------------------------------------------------------------------------------------

/// The texts of a list that are not blank.
pub open spec fn not_blank(v: Seq<Seq<char>>) -> Seq<Seq<char>>
    decreases v.len(),
{
    if v.len() == 0 {
        Seq::empty()
    } else if is_blank(v.last()) {
        not_blank(v.drop_last())
    } else {
        not_blank(v.drop_last()).push(v.last())
    }
}

/// What an entry is found by: its title, body, other names, synonyms, sounds and normal form.
pub open spec fn search_text(
    title: Seq<char>,
    body: Seq<char>,
    aliases: Seq<Seq<char>>,
    synonyms: Seq<Seq<char>>,
) -> Seq<char> {
    joined(
        not_blank(
            seq![
                title,
                body,
                joined(aliases, "\n"@),
                joined(synonyms, "\n"@),
                sounds_of(title, body, aliases),
                normal(body),
            ],
        ),
        "\n"@,
    )
}

fn join_texts(v: &[String]) -> (r: Vec<char>)
    ensures
        r@ == joined(texts(v@), "\n"@),
{
    let mut all: Vec<Vec<char>> = Vec::new();
    let mut i: usize = 0;
    while i < v.len()
        invariant
            i <= v@.len(),
            all@.len() == i,
            forall|j: int| 0 <= j < i ==> (#[trigger] all@[j])@ == v@[j]@,
        decreases v@.len() - i,
    {
        all.push(to_chars(v[i].as_str()));
        i += 1;
    }
    assert(rows(all@) =~= texts(v@));
    join(&all, "\n")
}

fn keep(out: &mut Vec<Vec<char>>, part: Vec<char>, Ghost(given): Ghost<Seq<Seq<char>>>)
    requires
        rows(old(out)@) == not_blank(given),
    ensures
        rows(final(out)@) == not_blank(given.push(part@)),
{
    let ghost before = rows(out@);
    let ghost p = part@;
    assert(given.push(p).drop_last() =~= given);
    if !blank(part.as_slice()) {
        out.push(part);
        assert(rows(out@) =~= before.push(p));
    }
}

/// Builds the text by which an entry is found.
pub fn build_search_text(title: &str, body: &str, aliases: &[String], extra_synonyms: &[String]) -> (r:
    String)
    ensures
        r@ == search_text(title@, body@, texts(aliases@), texts(extra_synonyms@)),
{
    let t = to_chars(title);
    let b = to_chars(body);
    let n = normalize_chars(b.as_slice());
    let sounds = search_pinyin_blob(title, body, aliases);
    let names = join_texts(aliases);
    let syn = join_texts(extra_synonyms);
    let s = to_chars(sounds.as_str());
    let mut out: Vec<Vec<char>> = Vec::new();
    let ghost e = Seq::<Seq<char>>::empty();
    let ghost all = seq![title@, body@, names@, syn@, s@, n@];
    assert(rows(out@) =~= e);
    keep(&mut out, t, Ghost(e));
    keep(&mut out, b, Ghost(e.push(title@)));
    keep(&mut out, names, Ghost(e.push(title@).push(body@)));
    keep(&mut out, syn, Ghost(e.push(title@).push(body@).push(all[2])));
    keep(&mut out, s, Ghost(e.push(title@).push(body@).push(all[2]).push(all[3])));
    keep(&mut out, n, Ghost(e.push(title@).push(body@).push(all[2]).push(all[3]).push(all[4])));
    assert(e.push(title@).push(body@).push(all[2]).push(all[3]).push(all[4]).push(all[5]) =~= all);
    let joined_chars = join(&out, "\n");
    to_text(joined_chars.as_slice())
}

// ---------------------------------------------------------------------------------------------
// What holds of drafts, names and the text that is searched
// ---------------------------------------------------------------------------------------------

/// Every block becomes one draft, in order, with the text of the block as its body and its title
/// unless that is blank.
pub proof fn blocks_become_drafts(blocks: Seq<BlockView>, stem: Seq<char>)
    ensures
        drafts_of(blocks, stem).len() == blocks.len(),
        forall|k: int|
            #![trigger drafts_of(blocks, stem)[k]]
            0 <= k < blocks.len() ==> drafts_of(blocks, stem)[k].body == blocks[k].text && (trimmed(
                blocks[k].title,
            ).len() > 0 ==> drafts_of(blocks, stem)[k].title == blocks[k].title) && (k <= i64::MAX
                ==> drafts_of(blocks, stem)[k].ordinal == k),
    decreases blocks.len(),
{
    if blocks.len() > 0 {
        let head = blocks.drop_last();
        blocks_become_drafts(head, stem);
        let before = drafts_of(head, stem);
        let now = drafts_of(blocks, stem);
        assert forall|k: int| #![trigger now[k]] 0 <= k < blocks.len() implies now[k].body
            == blocks[k].text && (trimmed(blocks[k].title).len() > 0 ==> now[k].title
            == blocks[k].title) && (k <= i64::MAX ==> now[k].ordinal == k) by {
            if k < head.len() {
                assert(now[k] == before[k]);
                assert(head[k] == blocks[k]);
            }
        }
    }
}

proof fn lemma_still_open(stack: Seq<(int, Seq<char>)>, level: int)
    requires
        stack.len() > 0,
        forall|i: int, j: int|
            #![trigger stack[i], stack[j]]
            1 <= i < j < stack.len() ==> stack[i].0 < stack[j].0,
    ensures
        0 < still_open(stack, level).len() <= stack.len(),
        still_open(stack, level) == stack.take(still_open(stack, level).len() as int),
        forall|i: int|
            1 <= i < still_open(stack, level).len() ==> (#[trigger] still_open(stack, level)[i]).0
                < level,
        forall|i: int|
            still_open(stack, level).len() <= i < stack.len() ==> (#[trigger] stack[i]).0 >= level,
    decreases stack.len(),
{
    if stack.len() > 1 && stack.last().0 >= level {
        let head = stack.drop_last();
        assert forall|i: int, j: int|
            #![trigger head[i], head[j]]
            1 <= i < j < head.len() implies head[i].0 < head[j].0 by {
            assert(stack[i].0 < stack[j].0);
        }
        lemma_still_open(head, level);
        let r = still_open(head, level);
        assert(stack.take(r.len() as int) =~= head.take(r.len() as int));
        assert forall|i: int| r.len() <= i < stack.len() implies (#[trigger] stack[i]).0 >= level by {
            if i < head.len() {
                assert(head[i] == stack[i]);
            }
        }
    } else {
        assert(stack.take(stack.len() as int) =~= stack);
        assert forall|i: int| 1 <= i < stack.len() implies (#[trigger] stack[i]).0 < level by {
            if i < stack.len() - 1 {
                assert(stack[i].0 < stack[stack.len() - 1].0);
            }
        }
    }
}

/// The path of a block leads from the document through the headings above it to its own: the first
/// name is that of the document, the last its title, and in between stand headings of lower and
/// lower levels, all lower than its own. The heading just before a block of a higher level is the
/// last before it.
pub proof fn paths_lead_through_the_headings(blocks: Seq<BlockView>, stem: Seq<char>)
    requires
        blocks.len() > 0,
    ensures
        ({
            let open = open_headings(blocks, stem);
            let b = blocks.last();
            &&& open.len() >= 2
            &&& open[0].1 == stem
            &&& open.last() == (b.heading_level, b.title)
            &&& forall|i: int, j: int|
                #![trigger open[i], open[j]]
                1 <= i < j < open.len() ==> open[i].0 < open[j].0
            &&& blocks.len() >= 2 && blocks[blocks.len() - 2].heading_level < b.heading_level
                ==> open[open.len() - 2] == (
                blocks[blocks.len() - 2].heading_level,
                blocks[blocks.len() - 2].title,
            )
        }),
    decreases blocks.len(),
{
    let head = blocks.drop_last();
    let before = open_headings(head, stem);
    let b = blocks.last();
    let open = open_headings(blocks, stem);
    if head.len() > 0 {
        paths_lead_through_the_headings(head, stem);
    }
    lemma_still_open(before, b.heading_level);
    let kept = still_open(before, b.heading_level);
    assert(kept[0] == before[0]);
    assert forall|i: int, j: int|
        #![trigger open[i], open[j]]
        1 <= i < j < open.len() implies open[i].0 < open[j].0 by {
        assert(open[i] == kept[i]);
        assert(kept[i] == before[i]);
        if j < kept.len() {
            assert(open[j] == kept[j]);
            assert(kept[j] == before[j]);
        }
    }
    if blocks.len() >= 2 && blocks[blocks.len() - 2].heading_level < b.heading_level {
        assert(head.last() == blocks[blocks.len() - 2]);
        if kept.len() < before.len() {
            assert(before[before.len() - 1].0 >= b.heading_level);
        }
        assert(kept =~= before);
    }
}

proof fn lemma_kept_names(names: Seq<Seq<char>>, k: int)
    requires
        0 <= k < names.len(),
        trimmed(names[k]).len() > 0,
    ensures
        kept_names(names).contains(trimmed(names[k])),
    decreases names.len(),
{
    let head = names.drop_last();
    let before = kept_names(head);
    let now = kept_names(names);
    if k < head.len() {
        lemma_kept_names(head, k);
        let i = choose|i: int| 0 <= i < before.len() && before[i] == trimmed(head[k]);
        assert(now[i] == trimmed(names[k]));
    } else {
        assert(now[before.len() as int] == trimmed(names[k]));
    }
}

proof fn lemma_listed_names(ms: Seq<MatchView>, m: int, k: int)
    requires
        0 <= m < ms.len(),
        0 <= k < parts_any(group_text(ms[m], 1), "、,/，;；"@).len(),
        trimmed(parts_any(group_text(ms[m], 1), "、,/，;；"@)[k]).len() > 0,
    ensures
        listed_names(ms).contains(trimmed(parts_any(group_text(ms[m], 1), "、,/，;；"@)[k])),
    decreases ms.len(),
{
    let head = ms.drop_last();
    let before = listed_names(head);
    let more = kept_names(parts_any(group_text(ms.last(), 1), "、,/，;；"@));
    let now = listed_names(ms);
    let t = trimmed(parts_any(group_text(ms[m], 1), "、,/，;；"@)[k]);
    if m < head.len() {
        lemma_listed_names(head, m, k);
        let i = choose|i: int| 0 <= i < before.len() && before[i] == t;
        assert(now[i] == t);
    } else {
        lemma_kept_names(parts_any(group_text(ms.last(), 1), "、,/，;；"@), k);
        let i = choose|i: int| 0 <= i < more.len() && more[i] == t;
        assert(now[before.len() + i] == t);
    }
}

/// Every other name that a line lists is found, each once and in ascending order: the parts between
/// the separators that are not blank, and the name in brackets behind the title.
pub proof fn listed_names_are_found(title: Seq<char>, body: Seq<char>)
    ensures
        crate::order::ascending(aliases_of(title, body)),
        ({
            let ms = found(alias_pattern(), title + "\n"@ + body);
            forall|m: int, k: int|
                #![trigger parts_any(group_text(ms[m], 1), "、,/，;；"@)[k]]
                0 <= m < ms.len() && 0 <= k < parts_any(group_text(ms[m], 1), "、,/，;；"@).len()
                    && trimmed(parts_any(group_text(ms[m], 1), "、,/，;；"@)[k]).len() > 0
                    ==> aliases_of(title, body).contains(
                    trimmed(parts_any(group_text(ms[m], 1), "、,/，;；"@)[k]),
                )
        }),
        ({
            let ms = found(bracket_pattern(), title);
            ms.len() > 0 && 1 <= trimmed(group_text(ms[0], 2)).len() <= 20 ==> aliases_of(
                title,
                body,
            ).contains(trimmed(group_text(ms[0], 2)))
        }),
{
    let ms = found(alias_pattern(), title + "\n"@ + body);
    let bs = found(bracket_pattern(), title);
    let a = listed_names(ms);
    let b = bracket_name(bs);
    crate::order::sorted_texts_ascend(a + b);
    assert forall|m: int, k: int|
        #![trigger parts_any(group_text(ms[m], 1), "、,/，;；"@)[k]]
        0 <= m < ms.len() && 0 <= k < parts_any(group_text(ms[m], 1), "、,/，;；"@).len() && trimmed(
            parts_any(group_text(ms[m], 1), "、,/，;；"@)[k],
        ).len() > 0 implies aliases_of(title, body).contains(
        trimmed(parts_any(group_text(ms[m], 1), "、,/，;；"@)[k]),
    ) by {
        lemma_listed_names(ms, m, k);
        let t = trimmed(parts_any(group_text(ms[m], 1), "、,/，;；"@)[k]);
        let i = choose|i: int| 0 <= i < a.len() && a[i] == t;
        assert((a + b)[i] == t);
        assert((a + b).contains(t));
    }
    if bs.len() > 0 && 1 <= trimmed(group_text(bs[0], 2)).len() <= 20 {
        assert((a + b)[a.len() as int] == trimmed(group_text(bs[0], 2)));
        assert((a + b).contains(trimmed(group_text(bs[0], 2))));
    }
}

proof fn lemma_not_blank(v: Seq<Seq<char>>, k: int)
    requires
        0 <= k < v.len(),
        trimmed(v[k]).len() > 0,
    ensures
        not_blank(v).contains(v[k]),
    decreases v.len(),
{
    let head = v.drop_last();
    let before = not_blank(head);
    let now = not_blank(v);
    if k < head.len() {
        lemma_not_blank(head, k);
        let i = choose|i: int| 0 <= i < before.len() && before[i] == head[k];
        assert(now[i] == v[k]);
    } else {
        assert(now[before.len() as int] == v[k]);
    }
}

/// An entry is found by all that it says: its title, its body, the normal form of its body, each of
/// its other names, each synonym and its sounds stand in the text that is searched, unless they are
/// blank.
pub proof fn entries_are_found_by_all_they_say(
    title: Seq<char>,
    body: Seq<char>,
    aliases: Seq<Seq<char>>,
    synonyms: Seq<Seq<char>>,
    t: Seq<char>,
)
    requires
        t == title || t == body || t == normal(body) || t == sounds_of(title, body, aliases)
            || aliases.contains(t) || synonyms.contains(t),
        trimmed(t).len() > 0,
    ensures
        exists|i: int| #[trigger]
            crate::scan::occurs_at(search_text(title, body, aliases, synonyms), t, i),
{
    let all = seq![
        title,
        body,
        joined(aliases, "\n"@),
        joined(synonyms, "\n"@),
        sounds_of(title, body, aliases),
        normal(body),
    ];
    let kept = not_blank(all);
    let text = search_text(title, body, aliases, synonyms);
    assert(all[0] == title && all[1] == body && all[4] == sounds_of(title, body, aliases) && all[5]
        == normal(body));
    let n = if t == title {
        0int
    } else if t == body {
        1
    } else if t == normal(body) {
        5
    } else if t == sounds_of(title, body, aliases) {
        4
    } else if aliases.contains(t) {
        2
    } else {
        3
    };
    if n == 2 || n == 3 {
        let names = if n == 2 {
            aliases
        } else {
            synonyms
        };
        let k = choose|k: int| 0 <= k < names.len() && names[k] == t;
        crate::scan::joined_texts_stand_in_the_join(names, "\n"@, k);
        assert(all[n] == joined(names, "\n"@));
        lemma_holds_solid(all[n], t);
    } else {
        assert(all[n].subrange(0, t.len() as int) =~= t);
        assert(crate::scan::occurs_at(all[n], t, 0));
    }
    lemma_not_blank(all, n);
    let m = choose|m: int| 0 <= m < kept.len() && kept[m] == all[n];
    crate::scan::joined_texts_stand_in_the_join(kept, "\n"@, m);
    crate::scan::lemma_stands_through(text, all[n], t);
}

proof fn lemma_holds_solid(s: Seq<char>, t: Seq<char>)
    requires
        exists|i: int| #[trigger] crate::scan::occurs_at(s, t, i),
        trimmed(t).len() > 0,
    ensures
        trimmed(s).len() > 0,
{
    let i = choose|i: int| #[trigger] crate::scan::occurs_at(s, t, i);
    let (a, b) = crate::text::lemma_trimmed_shape(t);
    let (x, y) = crate::text::lemma_trimmed_shape(s);
    assert(t[a] == s.subrange(i, i + t.len())[a]);
    assert(t[a] == s[i + a]);
    if x == y {
        if i + a < x {
            assert(crate::text::is_space(s[i + a]));
        } else {
            assert(crate::text::is_space(s[i + a]));
        }
    }
}

/// The lines of a body tell who may see it: one that begins as a secret adds the bit for secrets,
/// one for the game master the bit for it, and where no line has a mark the body is public and
/// nothing else.
pub proof fn marks_tell_the_visibility(body: Seq<char>, k: int)
    requires
        0 <= k < lines_of(body).len(),
    ensures
        ({
            let t = trimmed(lines_of(body)[k]);
            let v = visibility_of(body);
            let secret = "【秘密】"@.is_prefix_of(t) || "【密谋】"@.is_prefix_of(t) || (exists|i: int|
                #[trigger]
                crate::scan::occurs_at(lower_text(t), "secret"@, i));
            let dm = "【DM】"@.is_prefix_of(t) || "DM only"@.is_prefix_of(t) || (exists|i: int|
                #[trigger]
                crate::scan::occurs_at(t, "对玩家隐藏"@, i));
            &&& v == 1 || v == 3 || v == 5 || v == 7
            &&& secret ==> v == 5 || v == 7
            &&& dm ==> v == 3 || v == 7
            &&& lines_of(body).len() == 1 && !secret ==> v == 1 || v == 3
            &&& lines_of(body).len() == 1 && !dm ==> v == 1 || v == 5
        }),
{
    let t = trimmed(lines_of(body)[k]);
    crate::scan::texts_are_found_where_they_stand(lower_text(t), "secret"@);
    crate::scan::texts_are_found_where_they_stand(t, "对玩家隐藏"@);
    lemma_prefix(t, "【秘密】"@);
    lemma_prefix(t, "【密谋】"@);
    lemma_prefix(t, "【DM】"@);
    lemma_prefix(t, "DM only"@);
    if lines_of(body).len() == 1 {
        assert(k == 0);
    }
}

proof fn lemma_prefix(s: Seq<char>, p: Seq<char>)
    ensures
        starts_with(s, p) <==> p.is_prefix_of(s),
{
    if p.len() <= s.len() {
        assert(s.subrange(0, p.len() as int) =~= s.take(p.len() as int));
    }
}

/// The key of a draft comes from its path and its title alone, unless a draft before it has that
/// key: what else a document holds, and where, does not change it.
pub proof fn keys_outlast_other_drafts(
    a: Seq<DraftView>,
    b: Seq<DraftView>,
    path: Seq<char>,
    title: Seq<char>,
)
    requires
        forall|i: int| 0 <= i < a.len() ==> (#[trigger] a[i]).stable_key != place_key(path, title),
        forall|i: int| 0 <= i < b.len() ==> (#[trigger] b[i]).stable_key != place_key(path, title),
    ensures
        next_key(a, path, title) == next_key(b, path, title),
{
}

} // verus!
