//! The rules of a campaign store: what is imported, how corrections come back, what players see.
//!
//! Reading and writing the store file is the caller's work; everything here is a function of what
//! was read.
use crate::cuts::{clone_names, join_names, joined_names};
use crate::ingest::{build_search_text, is_secret_line, search_text, secret_markup};
use crate::normalize::{alt_anchor, anchor_key, lower_chars, lower_text};
use crate::number::{signed_decimal, write_signed};
use crate::outside::{json_array, json_strings, parse_json_strings, write_json_strings};
use crate::scan::{
    has_char, join, joined, lemma_parts_nonempty, lines, lines_of, parts, replace, replaced,
    without_cr,
};
use crate::split::EntrySplitter;
use crate::text::{
    blank, copy, extend, extend_str, is_blank, pieces, rows, same, same_str, texts, to_chars, to_text,
    trimmed,
};
use crate::types::{
    draft_views, Chunk, ChunkView, DraftChunk, DraftView, ImportReport, MetaPatch, APP_ID,
    SCHEMA_VERSION, VIS_DM_ONLY, VIS_HIDDEN, VIS_SECRET,
};
use vstd::prelude::*;

verus! {

// ---------------------------------------------------------------------------------------------
// What players see
// ---------------------------------------------------------------------------------------------

/// The lines that players may see.
pub open spec fn public_lines(ls: Seq<Seq<char>>) -> Seq<Seq<char>>
    decreases ls.len(),
{
    if ls.len() == 0 {
        Seq::empty()
    } else if secret_markup(ls.last()) {
        public_lines(ls.drop_last())
    } else {
        public_lines(ls.drop_last()).push(ls.last())
    }
}

/// Whether the visibility of an entry keeps it from players.
pub open spec fn is_hidden(visibility: i64) -> bool {
    visibility & (VIS_SECRET | VIS_DM_ONLY | VIS_HIDDEN) != 0
}

/// What stands for an entry that players must not see.
pub open spec fn hidden_text() -> Seq<char> {
    "（该条目对玩家隐藏）"@
}

/// The part of a body that players may see.
pub open spec fn public_part(body: Seq<char>, visibility: i64) -> Seq<char> {
    let ls = lines_of(body);
    let kept = public_lines(ls);
    let s = joined(kept, "\n"@);
    if !is_blank(s) {
        s
    } else if is_hidden(visibility) || kept.len() < ls.len() {
        hidden_text()
    } else {
        body
    }
}

/// Takes the lines that players must not see out of a body. Where nothing is left, or the entry is
/// hidden and has no other text, a notice stands in its place.
pub fn public_body(body: &str, visibility: i64) -> (r: String)
    ensures
        r@ == public_part(body@, visibility),
{
    let v = to_chars(body);
    let ls = lines(v.as_slice());
    let ghost all = lines_of(body@);
    let mut kept: Vec<Vec<char>> = Vec::new();
    assert(rows(kept@) =~= Seq::<Seq<char>>::empty());
    let mut i: usize = 0;
    while i < ls.len()
        invariant
            i <= ls@.len(),
            all == lines_of(body@),
            pieces(ls@) == all,
            rows(kept@) == public_lines(all.take(i as int)),
            kept@.len() <= i,
        decreases ls@.len() - i,
    {
        proof {
            assert(all.take(i + 1).drop_last() =~= all.take(i as int));
            assert(all.take(i + 1).last() == pieces(ls@)[i as int]);
        }
        if !is_secret_line(ls[i]) {
            let ghost before = rows(kept@);
            kept.push(copy(ls[i]));
            assert(rows(kept@) =~= before.push(ls@[i as int]@));
        }
        i += 1;
    }
    assert(all.take(i as int) =~= all);
    assert(rows(kept@).len() == kept@.len());
    let s = join(&kept, "\n");
    let hidden = visibility & (VIS_SECRET | VIS_DM_ONLY | VIS_HIDDEN) != 0;
    if !blank(s.as_slice()) {
        to_text(s.as_slice())
    } else if hidden || kept.len() < ls.len() {
        "（该条目对玩家隐藏）".to_string()
    } else {
        to_text(v.as_slice())
    }
}

proof fn lemma_parts_extend(s: Seq<char>, t: Seq<char>, c: char)
    requires
        !has_char(t, c),
    ensures
        parts(s + t, c) == parts(s, c).drop_last().push(parts(s, c).last() + t),
    decreases t.len(),
{
    lemma_parts_nonempty(s, c);
    let p = parts(s, c);
    if t.len() == 0 {
        assert(s + t =~= s);
        assert(p.last() + t =~= p.last());
        assert(p =~= p.drop_last().push(p.last()));
    } else {
        let u = t.drop_last();
        assert(!has_char(u, c)) by {
            if has_char(u, c) {
                let i = choose|i: int| 0 <= i < u.len() && #[trigger] u[i] == c;
                assert(t[i] == c);
            }
        }
        lemma_parts_extend(s, u, c);
        assert((s + t).drop_last() =~= s + u);
        assert((s + t).last() == t.last());
        assert(t[t.len() - 1] != c);
        let q = parts(s + u, c);
        assert(q.drop_last() =~= p.drop_last());
        assert((p.last() + u).push(t.last()) =~= p.last() + t);
    }
}

proof fn lemma_parts_joined(ls: Seq<Seq<char>>)
    requires
        ls.len() > 0,
        forall|k: int| 0 <= k < ls.len() ==> !has_char(#[trigger] ls[k], '\n'),
    ensures
        parts(joined(ls, seq!['\n']), '\n') == ls,
    decreases ls.len(),
{
    let sep = seq!['\n'];
    let last = ls.last();
    assert(last == ls[ls.len() - 1]);
    if ls.len() == 1 {
        let none = Seq::<char>::empty();
        lemma_parts_extend(none, last, '\n');
        assert(none + last =~= last);
        assert(parts(none, '\n').drop_last().push(none + last) =~= ls);
    } else {
        let head = ls.drop_last();
        lemma_parts_joined(head);
        let a = joined(head, sep);
        let b = a + sep;
        assert(b.drop_last() =~= a);
        assert(b.last() == '\n');
        assert(parts(b, '\n') == head.push(Seq::<char>::empty()));
        lemma_parts_extend(b, last, '\n');
        assert(parts(b, '\n').drop_last() =~= head);
        assert(Seq::<char>::empty() + last =~= last);
        assert(ls =~= head.push(last));
    }
}

proof fn lemma_parts_clean(s: Seq<char>, c: char)
    ensures
        forall|k: int| 0 <= k < parts(s, c).len() ==> !has_char(#[trigger] parts(s, c)[k], c),
    decreases s.len(),
{
    lemma_parts_nonempty(s, c);
    if s.len() > 0 {
        lemma_parts_clean(s.drop_last(), c);
        lemma_parts_nonempty(s.drop_last(), c);
        let p = parts(s.drop_last(), c);
        let q = parts(s, c);
        assert forall|k: int| 0 <= k < q.len() implies !has_char(#[trigger] q[k], c) by {
            if k < p.len() - 1 || s.last() == c && k < p.len() {
                assert(q[k] == p[k]);
            } else if s.last() != c {
                assert(p.last() == p[p.len() - 1]);
                assert(q[k] == p.last().push(s.last()));
                if has_char(q[k], c) {
                    let i = choose|i: int| 0 <= i < q[k].len() && #[trigger] q[k][i] == c;
                    assert(p.last()[i] == c);
                }
            }
        }
    }
}

proof fn lemma_lines_clean(s: Seq<char>)
    ensures
        forall|k: int| 0 <= k < lines_of(s).len() ==> !has_char(#[trigger] lines_of(s)[k], '\n'),
{
    lemma_parts_clean(s, '\n');
    let p = parts(s, '\n');
    assert forall|k: int| 0 <= k < lines_of(s).len() implies !has_char(
        #[trigger] lines_of(s)[k],
        '\n',
    ) by {
        let l = lines_of(s)[k];
        assert(!has_char(p[k], '\n'));
        if has_char(l, '\n') {
            let i = choose|i: int| 0 <= i < l.len() && #[trigger] l[i] == '\n';
            assert(p[k][i] == '\n');
        }
    }
}

proof fn lemma_public_lines(ls: Seq<Seq<char>>)
    requires
        forall|k: int| 0 <= k < ls.len() ==> !has_char(#[trigger] ls[k], '\n'),
    ensures
        public_lines(ls).len() <= ls.len(),
        forall|k: int|
            0 <= k < public_lines(ls).len() ==> !secret_markup(#[trigger] public_lines(ls)[k])
                && !has_char(public_lines(ls)[k], '\n'),
        public_lines(ls).len() == ls.len() ==> public_lines(ls) == ls,
    decreases ls.len(),
{
    if ls.len() > 0 {
        assert(ls.last() == ls[ls.len() - 1]);
        lemma_public_lines(ls.drop_last());
        assert(ls =~= ls.drop_last().push(ls.last()));
    }
}

proof fn lemma_trim_without_cr(s: Seq<char>)
    ensures
        trimmed(without_cr(s)) == trimmed(s),
{
    if s.len() > 0 && s.last() == '\r' {
        let t = s.drop_last();
        let k = crate::text::lemma_trimmed_start_shape(s);
        if k < s.len() {
            assert(crate::text::is_space('\r'));
            assert(k < s.len() - 1);
            assert forall|i: int| 0 <= i < k implies crate::text::is_space(#[trigger] t[i]) by {
                assert(s[i] == t[i]);
            }
            assert(t[k] == s[k]);
            crate::text::lemma_trimmed_start_at(t, k);
            assert(s.skip(k).drop_last() =~= t.skip(k));
            assert(s.skip(k).last() == '\r');
        } else {
            assert forall|i: int| 0 <= i < t.len() implies crate::text::is_space(
                #[trigger] t[i],
            ) by {
                assert(s[i] == t[i]);
            }
            crate::text::lemma_trimmed_start_at(t, t.len() as int);
            assert(t.skip(t.len() as int) =~= Seq::<char>::empty());
            assert(s.skip(k) =~= Seq::<char>::empty());
        }
    }
}

/// Players never see a marked line: the public part of a body is the notice, or none of its lines
/// is marked as one that players must not see.
pub proof fn public_part_has_no_secret(body: Seq<char>, visibility: i64, k: int)
    requires
        0 <= k < lines_of(public_part(body, visibility)).len(),
    ensures
        public_part(body, visibility) == hidden_text() || !secret_markup(
            lines_of(public_part(body, visibility))[k],
        ),
{
    let ls = lines_of(body);
    let kept = public_lines(ls);
    lemma_lines_clean(body);
    lemma_public_lines(ls);
    let s = joined(kept, "\n"@);
    reveal_strlit("\n");
    assert("\n"@ =~= seq!['\n']);
    if !is_blank(s) {
        if kept.len() == 0 {
            assert(trimmed(s).len() == 0);
        } else {
            lemma_parts_joined(kept);
            let l = lines_of(s)[k];
            assert(!secret_markup(kept[k]));
            lemma_trim_without_cr(kept[k]);
        }
    } else if is_hidden(visibility) || kept.len() < ls.len() {
    } else {
        assert(kept == ls);
        assert(!secret_markup(kept[k]));
    }
}

// ---------------------------------------------------------------------------------------------
// Copying
// ---------------------------------------------------------------------------------------------

/// The template that is used where the store has none.
pub open spec fn template_of(key: Seq<char>) -> Seq<char> {
    if key == "full"@ {
        "{title}\n{body}\n来源：{source_path}"@
    } else if key == "source"@ {
        "{source_path}"@
    } else {
        "{entity_type}　{title}\n{public_body}\n—— {source_path}"@
    }
}

/// The template that is used where the store has none.
pub fn default_template(key: &str) -> (r: String)
    ensures
        r@ == template_of(key@),
{
    let k = to_chars(key);
    if same_str(k.as_slice(), "full") {
        "{title}\n{body}\n来源：{source_path}".to_string()
    } else if same_str(k.as_slice(), "source") {
        "{source_path}".to_string()
    } else {
        "{entity_type}　{title}\n{public_body}\n—— {source_path}".to_string()
    }
}

/// The keys and templates that a new store begins with.
pub fn seed_templates() -> (r: Vec<(String, String)>)
    ensures
        r@.len() == 3,
        r@[0].0@ == "player"@ && r@[1].0@ == "full"@ && r@[2].0@ == "source"@,
        r@[0].1@ == "{entity_type}　{title}\n{public_body}\n—— {source_path}"@,
        r@[1].1@ == template_of("full"@),
        r@[2].1@ == template_of("source"@),
{
    let mut v: Vec<(String, String)> = Vec::new();
    v.push(
        (
            "player".to_string(),
            "{entity_type}　{title}\n{public_body}\n—— {source_path}".to_string(),
        ),
    );
    v.push(("full".to_string(), default_template("full")));
    v.push(("source".to_string(), default_template("source")));
    v
}

/// A template with its fields filled in from an entry, one field after the other.
pub open spec fn filled(template: Seq<char>, c: ChunkView, public: Seq<char>) -> Seq<char> {
    replaced(
        replaced(
            replaced(
                replaced(
                    replaced(template, "{entity_type}"@, c.entity_type),
                    "{title}"@,
                    c.title,
                ),
                "{body}"@,
                c.body,
            ),
            "{public_body}"@,
            public,
        ),
        "{source_path}"@,
        c.file_name + " · "@ + c.parent_path,
    )
}

/// What is copied of an entry: the template of the store, or the default one, filled in.
pub fn copy_text(chunk: &Chunk, template: Option<String>, key: &str) -> (r: String)
    ensures
        r@ == filled(
            match template {
                Some(t) => t@,
                None => template_of(key@),
            },
            chunk@,
            public_part(chunk.body@, chunk.visibility),
        ),
{
    proof {
        reveal_strlit("{entity_type}");
        reveal_strlit("{title}");
        reveal_strlit("{body}");
        reveal_strlit("{public_body}");
        reveal_strlit("{source_path}");
    }
    let t = match template {
        Some(t) => t,
        None => default_template(key),
    };
    let public = public_body(chunk.body.as_str(), chunk.visibility);
    let mut path = to_chars(chunk.file_name.as_str());
    extend_str(&mut path, " · ");
    extend_str(&mut path, chunk.parent_path.as_str());
    let v = to_chars(t.as_str());
    let kind = to_chars(chunk.entity_type.as_str());
    let title = to_chars(chunk.title.as_str());
    let body = to_chars(chunk.body.as_str());
    let shown = to_chars(public.as_str());
    let a = replace(v.as_slice(), "{entity_type}", kind.as_slice());
    let b = replace(a.as_slice(), "{title}", title.as_slice());
    let c = replace(b.as_slice(), "{body}", body.as_slice());
    let d = replace(c.as_slice(), "{public_body}", shown.as_slice());
    let e = replace(d.as_slice(), "{source_path}", path.as_slice());
    to_text(e.as_slice())
}

// ---------------------------------------------------------------------------------------------
// Which files are imported
// ---------------------------------------------------------------------------------------------

/// What happens to a file that is met during an import.
#[derive(Debug)]
pub enum ImportClass {
    /// It is read.
    Doc,
    /// It is passed over.
    SilentSkip,
    /// It is passed over, and the user is told why.
    Unsupported(String),
}

/// Whether a file with this extension, in lower case, is read.
pub open spec fn is_document(ext: Seq<char>) -> bool {
    ext == "md"@ || ext == "markdown"@ || ext == "txt"@ || ext == "html"@ || ext == "htm"@ || ext
        == "rtf"@ || ext == "docx"@
}

/// Tells what happens to a file by its extension.
pub fn classify_import(extension: &str) -> (r: ImportClass)
    ensures
        ({
            let ext = lower_text(extension@);
            match r {
                ImportClass::Doc => is_document(ext),
                ImportClass::Unsupported(m) => !is_document(ext) && (ext == "pdf"@ && m@
                    == "PDF 文本层抽取未纳入本 demo"@ || ext == "doc"@ && m@
                    == "不支持 .doc，请另存为 .docx"@),
                ImportClass::SilentSkip => !is_document(ext) && ext != "pdf"@ && ext != "doc"@,
            }
        }),
{
    let v = to_chars(extension);
    let low = lower_chars(v.as_slice());
    let ext = low.as_slice();
    if same_str(ext, "md") || same_str(ext, "markdown") || same_str(ext, "txt") || same_str(
        ext,
        "html",
    ) || same_str(ext, "htm") || same_str(ext, "rtf") || same_str(ext, "docx") {
        ImportClass::Doc
    } else if same_str(ext, "pdf") {
        ImportClass::Unsupported("PDF 文本层抽取未纳入本 demo".to_string())
    } else if same_str(ext, "doc") {
        ImportClass::Unsupported("不支持 .doc，请另存为 .docx".to_string())
    } else {
        ImportClass::SilentSkip
    }
}

/// A path with slashes in place of backslashes.
pub open spec fn slashed(s: Seq<char>) -> Seq<char> {
    Seq::new(
        s.len(),
        |i: int|
            if s[i] == '\\' {
                '/'
            } else {
                s[i]
            },
    )
}

/// Writes a path with slashes.
pub fn with_slashes(path: &str) -> (r: String)
    ensures
        r@ == slashed(path@),
{
    let v = to_chars(path);
    let mut out: Vec<char> = Vec::new();
    let mut i: usize = 0;
    while i < v.len()
        invariant
            i <= v@.len(),
            v@ == path@,
            out@ == slashed(path@).take(i as int),
        decreases v@.len() - i,
    {
        let c = if v[i] == '\\' {
            '/'
        } else {
            v[i]
        };
        out.push(c);
        i += 1;
    }
    assert(slashed(path@).take(i as int) =~= slashed(path@));
    to_text(out.as_slice())
}

/// The path under which a file is known to the store: below the imported folder if it lies there,
/// else its name, else its whole path.
pub fn store_rel_path(below: Option<&str>, file_name: Option<&str>, whole: &str) -> (r: String)
    ensures
        r@ == (match below {
            Some(p) => slashed(p@),
            None => match file_name {
                Some(n) => n@,
                None => slashed(whole@),
            },
        }),
{
    match below {
        Some(p) => with_slashes(p),
        None => match file_name {
            Some(n) => {
                let v = to_chars(n);
                to_text(v.as_slice())
            },
            None => with_slashes(whole),
        },
    }
}

/// What becomes of a file that is read: whether it is a known document, and whether there is
/// anything to do.
#[derive(Debug)]
pub struct KnownDocument {
    /// The document that the file belongs to.
    pub id: Option<i64>,
    /// Whether the document has moved to a new path.
    pub moved: bool,
    /// Whether nothing has changed.
    pub skip: bool,
}

/// Recognises a file. `at_path` is the document with the same path and its digest, `same_content`
/// are the documents with the same digest. A file without a document at its path is a moved one if
/// exactly one document has its digest. A file whose digest is known is skipped unless it is to be
/// processed again.
pub fn recognise(at_path: Option<(i64, String)>, same_content: &Vec<i64>, digest: &str, reprocess: bool) -> (r:
    KnownDocument)
    ensures
        r.id == (match at_path {
            Some(d) => Some(d.0),
            None => if same_content@.len() == 1 {
                Some(same_content@[0])
            } else {
                None
            },
        }),
        r.moved == (at_path is None && same_content@.len() == 1),
        r.skip == (!reprocess && match at_path {
            Some(d) => d.1@ == digest@,
            None => same_content@.len() == 1,
        }),
{
    match at_path {
        Some(d) => {
            let v = to_chars(d.1.as_str());
            let same = same_str(v.as_slice(), digest);
            KnownDocument { id: Some(d.0), moved: false, skip: same && !reprocess }
        },
        None => {
            if same_content.len() == 1 {
                KnownDocument { id: Some(same_content[0]), moved: true, skip: !reprocess }
            } else {
                KnownDocument { id: None, moved: false, skip: false }
            }
        },
    }
}

// ---------------------------------------------------------------------------------------------
// Corrections
// ---------------------------------------------------------------------------------------------

/// A correction that the user made to an entry, found again by the key or the anchor of the entry.
#[derive(Debug)]
pub struct CorrectionRow {
    pub stable_key: String,
    pub alt_anchor: Option<String>,
    pub entity_type: Option<String>,
    pub visibility: Option<i64>,
    pub aliases_json: Option<String>,
}

/// A text that may be missing.
pub open spec fn opt_text(s: Option<String>) -> Option<Seq<char>> {
    match s {
        Some(t) => Some(t@),
        None => None,
    }
}

/// A correction as a mathematical value, with the other names already read.
#[verifier::ext_equal]
pub struct CorrectionView {
    pub stable_key: Seq<char>,
    pub alt_anchor: Option<Seq<char>>,
    pub entity_type: Option<Seq<char>>,
    pub visibility: Option<i64>,
    pub aliases: Option<Seq<Seq<char>>>,
}

/// The other names that a correction adds, if they can be read.
pub open spec fn read_names(json: Option<Seq<char>>) -> Option<Seq<Seq<char>>> {
    match json {
        Some(t) => json_strings(t),
        None => None,
    }
}

impl View for CorrectionRow {
    type V = CorrectionView;

    open spec fn view(&self) -> CorrectionView {
        CorrectionView {
            stable_key: self.stable_key@,
            alt_anchor: opt_text(self.alt_anchor),
            entity_type: opt_text(self.entity_type),
            visibility: self.visibility,
            aliases: read_names(opt_text(self.aliases_json)),
        }
    }
}

/// The values of corrections.
pub open spec fn correction_views(v: Seq<CorrectionRow>) -> Seq<CorrectionView> {
    Seq::new(v.len(), |i: int| v[i]@)
}

/// A draft with a correction applied: what the correction leaves open stays, other names are
/// added.
pub open spec fn corrected(d: DraftView, c: CorrectionView) -> DraftView {
    DraftView {
        entity_type: match c.entity_type {
            Some(t) => t,
            None => d.entity_type,
        },
        visibility: match c.visibility {
            Some(v) => v as int,
            None => d.visibility,
        },
        aliases: match c.aliases {
            Some(extra) => joined_names(d.aliases, extra),
            None => d.aliases,
        },
        ..d
    }
}

/// Applies a correction to a draft. `extra` are the other names that the correction adds.
pub fn apply_names(d: &DraftChunk, c: &CorrectionRow, extra: Option<Vec<String>>) -> (r: DraftChunk)
    ensures
        r@ == corrected(
            d@,
            (CorrectionView {
                aliases: match extra {
                    Some(v) => Some(texts(v@)),
                    None => None,
                },
                ..c@
            }),
        ),
{
    let mut out = d.clone();
    match &c.entity_type {
        Some(t) => {
            out.entity_type = t.clone();
        },
        None => {},
    }
    match c.visibility {
        Some(v) => {
            out.visibility = v;
        },
        None => {},
    }
    match extra {
        Some(v) => {
            join_names(&mut out.aliases, &v);
        },
        None => {},
    }
    out
}

/// Applies a correction to a draft.
pub fn apply_correction(d: &DraftChunk, c: &CorrectionRow) -> (r: DraftChunk)
    ensures
        r@ == corrected(d@, c@),
{
    let extra = match &c.aliases_json {
        Some(t) => parse_json_strings(t.as_str()),
        None => None,
    };
    let r = apply_names(d, c, extra);
    assert(r@ == corrected(d@, c@)) by {
        let with = CorrectionView {
            aliases: match extra {
                Some(v) => Some(texts(v@)),
                None => None,
            },
            ..c@
        };
        assert(with =~= c@);
    }
    r
}

/// Drafts, which corrections have been used, and which drafts have got one.
#[verifier::ext_equal]
pub struct Matching {
    pub drafts: Seq<DraftView>,
    pub used: Seq<bool>,
    pub hit: Seq<bool>,
}

/// Whether a correction belongs to a draft, by its anchor or by its key.
pub open spec fn belongs(c: CorrectionView, d: DraftView, by_anchor: bool) -> bool {
    if by_anchor {
        c.alt_anchor == Some(d.alt_anchor)
    } else {
        c.stable_key == d.stable_key
    }
}

/// The first correction at or after `i` that has not been used and belongs to a draft.
pub open spec fn first_fit(
    cs: Seq<CorrectionView>,
    used: Seq<bool>,
    d: DraftView,
    by_anchor: bool,
    i: int,
) -> Option<int>
    decreases cs.len() - i,
{
    if i < 0 || i >= cs.len() {
        None
    } else if !used[i] && belongs(cs[i], d, by_anchor) {
        Some(i)
    } else {
        first_fit(cs, used, d, by_anchor, i + 1)
    }
}

/// The matching after draft `n` has looked for a correction.
pub open spec fn match_one(m: Matching, cs: Seq<CorrectionView>, by_anchor: bool, n: int) -> Matching {
    if m.hit[n] {
        m
    } else {
        match first_fit(cs, m.used, m.drafts[n], by_anchor, 0) {
            Some(i) => Matching {
                drafts: m.drafts.update(n, corrected(m.drafts[n], cs[i])),
                used: m.used.update(i, true),
                hit: m.hit.update(n, true),
            },
            None => m,
        }
    }
}

/// The matching after the first `n` drafts have looked for a correction.
pub open spec fn match_upto(m: Matching, cs: Seq<CorrectionView>, by_anchor: bool, n: int) -> Matching
    decreases n,
{
    if n <= 0 {
        m
    } else {
        match_one(match_upto(m, cs, by_anchor, n - 1), cs, by_anchor, n - 1)
    }
}

/// A matching before anything has been matched.
pub open spec fn unmatched(drafts: Seq<DraftView>, cs: Seq<CorrectionView>) -> Matching {
    Matching {
        drafts,
        used: Seq::new(cs.len(), |i: int| false),
        hit: Seq::new(drafts.len(), |i: int| false),
    }
}

/// The matching of drafts and corrections: first every draft by its key, and those left over by
/// their anchor.
pub open spec fn matched(drafts: Seq<DraftView>, cs: Seq<CorrectionView>) -> Matching {
    let n = drafts.len() as int;
    match_upto(match_upto(unmatched(drafts, cs), cs, false, n), cs, true, n)
}

/// How many entries of a list are true.
pub open spec fn count_true(v: Seq<bool>) -> nat
    decreases v.len(),
{
    if v.len() == 0 {
        0
    } else {
        count_true(v.drop_last()) + (if v.last() {
            1nat
        } else {
            0nat
        })
    }
}

proof fn lemma_set_true(v: Seq<bool>, i: int)
    requires
        0 <= i < v.len(),
        !v[i],
    ensures
        count_true(v.update(i, true)) == count_true(v) + 1,
    decreases v.len(),
{
    let u = v.update(i, true);
    if i == v.len() - 1 {
        assert(u.drop_last() =~= v.drop_last());
    } else {
        lemma_set_true(v.drop_last(), i);
        assert(u.drop_last() =~= v.drop_last().update(i, true));
    }
}

proof fn lemma_none_true(v: Seq<bool>)
    requires
        forall|i: int| 0 <= i < v.len() ==> !#[trigger] v[i],
    ensures
        count_true(v) == 0,
    decreases v.len(),
{
    if v.len() > 0 {
        lemma_none_true(v.drop_last());
        assert(!v[v.len() - 1]);
    }
}

proof fn lemma_first_fit(
    cs: Seq<CorrectionView>,
    used: Seq<bool>,
    d: DraftView,
    by_anchor: bool,
    i: int,
)
    requires
        0 <= i,
    ensures
        match first_fit(cs, used, d, by_anchor, i) {
            Some(k) => i <= k < cs.len() && !used[k] && belongs(cs[k], d, by_anchor),
            None => true,
        },
    decreases cs.len() - i,
{
    if i < cs.len() && !(!used[i] && belongs(cs[i], d, by_anchor)) {
        lemma_first_fit(cs, used, d, by_anchor, i + 1);
    }
}

proof fn lemma_match_upto(m: Matching, cs: Seq<CorrectionView>, by_anchor: bool, n: int)
    requires
        m.used.len() == cs.len(),
        m.hit.len() == m.drafts.len(),
        0 <= n <= m.drafts.len(),
        count_true(m.used) == count_true(m.hit),
    ensures
        ({
            let r = match_upto(m, cs, by_anchor, n);
            &&& r.used.len() == cs.len()
            &&& r.hit.len() == r.drafts.len()
            &&& r.drafts.len() == m.drafts.len()
            &&& count_true(r.used) == count_true(r.hit)
            &&& forall|k: int|
                0 <= k < m.drafts.len() ==> (#[trigger] r.drafts[k]).stable_key
                    == m.drafts[k].stable_key && r.drafts[k].body == m.drafts[k].body
                    && r.drafts[k].title == m.drafts[k].title && r.drafts[k].alt_anchor
                    == m.drafts[k].alt_anchor && r.drafts[k].content_hash
                    == m.drafts[k].content_hash && r.drafts[k].parent_path
                    == m.drafts[k].parent_path && r.drafts[k].ordinal == m.drafts[k].ordinal
        }),
    decreases n,
{
    if n > 0 {
        lemma_match_upto(m, cs, by_anchor, n - 1);
        let p = match_upto(m, cs, by_anchor, n - 1);
        lemma_first_fit(cs, p.used, p.drafts[n - 1], by_anchor, 0);
        if !p.hit[n - 1] {
            match first_fit(cs, p.used, p.drafts[n - 1], by_anchor, 0) {
                Some(i) => {
                    lemma_set_true(p.used, i);
                    lemma_set_true(p.hit, n - 1);
                },
                None => {},
            }
        }
    }
}

/// No correction is applied twice and no draft gets two: as many corrections are used as drafts
/// have got one. Corrections never touch the key, the title, the body, the path, the position, the
/// anchor or the digest of a draft.
pub proof fn corrections_are_used_once(drafts: Seq<DraftView>, cs: Seq<CorrectionView>)
    ensures
        count_true(matched(drafts, cs).used) == count_true(matched(drafts, cs).hit),
        matched(drafts, cs).drafts.len() == drafts.len(),
        forall|k: int|
            0 <= k < drafts.len() ==> (#[trigger] matched(drafts, cs).drafts[k]).stable_key
                == drafts[k].stable_key && matched(drafts, cs).drafts[k].title == drafts[k].title
                && matched(drafts, cs).drafts[k].body == drafts[k].body && matched(
                drafts,
                cs,
            ).drafts[k].alt_anchor == drafts[k].alt_anchor && matched(
                drafts,
                cs,
            ).drafts[k].content_hash == drafts[k].content_hash && matched(
                drafts,
                cs,
            ).drafts[k].parent_path == drafts[k].parent_path && matched(drafts, cs).drafts[k].ordinal
                == drafts[k].ordinal,
{
    let m = unmatched(drafts, cs);
    let n = drafts.len() as int;
    lemma_none_true(m.used);
    lemma_none_true(m.hit);
    lemma_match_upto(m, cs, false, n);
    lemma_match_upto(match_upto(m, cs, false, n), cs, true, n);
}

proof fn lemma_only_fit(
    cs: Seq<CorrectionView>,
    used: Seq<bool>,
    d: DraftView,
    i: int,
    from: int,
)
    requires
        0 <= from <= i < cs.len(),
        !used[i],
        cs[i].stable_key == d.stable_key,
        forall|j: int| 0 <= j < cs.len() && j != i ==> (#[trigger] cs[j]).stable_key != d.stable_key,
    ensures
        first_fit(cs, used, d, false, from) == Some(i),
    decreases i - from,
{
    if from < i {
        assert(cs[from].stable_key != d.stable_key);
        lemma_only_fit(cs, used, d, i, from + 1);
    }
}

proof fn lemma_free_until(m: Matching, cs: Seq<CorrectionView>, n: int, i: int, k: int)
    requires
        m.used.len() == cs.len(),
        m.hit.len() == m.drafts.len(),
        0 <= k <= n < m.drafts.len(),
        0 <= i < cs.len(),
        !m.used[i],
        !m.hit[n],
        forall|j: int|
            0 <= j < m.drafts.len() && j != n ==> (#[trigger] m.drafts[j]).stable_key
                != cs[i].stable_key,
    ensures
        ({
            let r = match_upto(m, cs, false, k);
            &&& r.used.len() == cs.len()
            &&& r.hit.len() == m.drafts.len()
            &&& r.drafts.len() == m.drafts.len()
            &&& !r.used[i]
            &&& !r.hit[n]
            &&& forall|j: int| k <= j < m.drafts.len() ==> #[trigger] r.drafts[j] == m.drafts[j]
        }),
    decreases k,
{
    if k > 0 {
        lemma_free_until(m, cs, n, i, k - 1);
        let p = match_upto(m, cs, false, k - 1);
        assert(p.drafts[k - 1] == m.drafts[k - 1]);
        assert(m.drafts[k - 1].stable_key != cs[i].stable_key);
        lemma_first_fit(cs, p.used, p.drafts[k - 1], false, 0);
    }
}

proof fn lemma_hit_stays(
    m: Matching,
    cs: Seq<CorrectionView>,
    by_anchor: bool,
    n: int,
    a: int,
    b: int,
)
    requires
        0 <= a <= b <= m.drafts.len(),
        0 <= n < m.drafts.len(),
        match_upto(m, cs, by_anchor, a).hit[n],
        match_upto(m, cs, by_anchor, a).hit.len() == m.drafts.len(),
        match_upto(m, cs, by_anchor, a).drafts.len() == m.drafts.len(),
    ensures
        match_upto(m, cs, by_anchor, b).hit[n],
        match_upto(m, cs, by_anchor, b).hit.len() == m.drafts.len(),
        match_upto(m, cs, by_anchor, b).drafts.len() == m.drafts.len(),
        match_upto(m, cs, by_anchor, b).drafts[n] == match_upto(m, cs, by_anchor, a).drafts[n],
    decreases b,
{
    if a < b {
        lemma_hit_stays(m, cs, by_anchor, n, a, b - 1);
    }
}

/// What the user corrected survives another import: where one correction and one draft share a
/// key, the draft gets that correction.
pub proof fn corrections_come_back(drafts: Seq<DraftView>, cs: Seq<CorrectionView>, n: int, i: int)
    requires
        0 <= n < drafts.len(),
        0 <= i < cs.len(),
        cs[i].stable_key == drafts[n].stable_key,
        forall|j: int|
            0 <= j < drafts.len() && j != n ==> (#[trigger] drafts[j]).stable_key
                != cs[i].stable_key,
        forall|j: int|
            0 <= j < cs.len() && j != i ==> (#[trigger] cs[j]).stable_key != cs[i].stable_key,
    ensures
        matched(drafts, cs).drafts[n] == corrected(drafts[n], cs[i]),
{
    let m = unmatched(drafts, cs);
    let len = drafts.len() as int;
    lemma_free_until(m, cs, n, i, n);
    let p = match_upto(m, cs, false, n);
    lemma_only_fit(cs, p.used, p.drafts[n], i, 0);
    assert(match_upto(m, cs, false, n + 1) == match_one(p, cs, false, n));
    lemma_hit_stays(m, cs, false, n, n + 1, len);
    let q = match_upto(m, cs, false, len);
    assert(match_upto(q, cs, true, 0) == q);
    lemma_hit_stays(q, cs, true, n, 0, len);
}

/// A correction is wholly applied. The other names of the corrected draft are those of the draft,
/// in their order and at the same places, and those that the correction adds, no others, and none
/// of the added ones comes twice. The kind and the visibility are those of the correction where it
/// gives them. Nothing else changes.
pub proof fn corrections_are_wholly_applied(d: DraftView, c: CorrectionView)
    ensures
        c.aliases matches Some(extra) ==> forall|x: Seq<char>| #[trigger]
            corrected(d, c).aliases.contains(x) <==> d.aliases.contains(x) || extra.contains(x),
        c.aliases is None ==> corrected(d, c).aliases == d.aliases,
        corrected(d, c).aliases.len() >= d.aliases.len(),
        forall|k: int|
            0 <= k < d.aliases.len() ==> #[trigger] corrected(d, c).aliases[k] == d.aliases[k],
        forall|j: int, k: int|
            #![trigger corrected(d, c).aliases[j], corrected(d, c).aliases[k]]
            0 <= j < k < corrected(d, c).aliases.len() && d.aliases.len() <= k ==> corrected(
                d,
                c,
            ).aliases[j] != corrected(d, c).aliases[k],
        c.entity_type matches Some(t) ==> corrected(d, c).entity_type == t,
        c.entity_type is None ==> corrected(d, c).entity_type == d.entity_type,
        c.visibility matches Some(v) ==> corrected(d, c).visibility == v,
        c.visibility is None ==> corrected(d, c).visibility == d.visibility,
        corrected(d, c).stable_key == d.stable_key,
        corrected(d, c).alt_anchor == d.alt_anchor,
        corrected(d, c).ordinal == d.ordinal,
        corrected(d, c).title == d.title,
        corrected(d, c).body == d.body,
        corrected(d, c).parent_path == d.parent_path,
        corrected(d, c).content_hash == d.content_hash,
{
    match c.aliases {
        Some(extra) => {
            crate::cuts::joined_names_hold_both(d.aliases, extra);
        },
        None => {},
    }
}

/// Whether correction `i` went to one of the drafts, `got` telling which correction each draft got.
pub open spec fn taken(got: Seq<Option<int>>, i: int) -> bool {
    exists|n: int| 0 <= n < got.len() && #[trigger] got[n] == Some(i)
}

/// Whether draft `n` got a correction with its own key.
pub open spec fn got_by_key(
    drafts: Seq<DraftView>,
    cs: Seq<CorrectionView>,
    got: Seq<Option<int>>,
    n: int,
) -> bool {
    match got[n] {
        Some(i) => cs[i].stable_key == drafts[n].stable_key,
        None => false,
    }
}

/// Whether correction `i` went to a draft with its own key.
pub open spec fn taken_by_key(
    drafts: Seq<DraftView>,
    cs: Seq<CorrectionView>,
    got: Seq<Option<int>>,
    i: int,
) -> bool {
    exists|n: int|
        0 <= n < got.len() && #[trigger] got[n] == Some(i) && cs[i].stable_key
            == drafts[n].stable_key
}

/// Whether `m` is what comes of giving each draft the correction that `got` names, and each
/// correction goes to one draft at most, which has its key or its anchor.
pub open spec fn one_to_one(
    drafts: Seq<DraftView>,
    cs: Seq<CorrectionView>,
    m: Matching,
    got: Seq<Option<int>>,
) -> bool {
    &&& got.len() == drafts.len()
    &&& m.drafts.len() == drafts.len()
    &&& m.hit.len() == drafts.len()
    &&& m.used.len() == cs.len()
    &&& forall|n: int|
        0 <= n < drafts.len() ==> match #[trigger] got[n] {
            Some(i) => {
                &&& 0 <= i < cs.len()
                &&& belongs(cs[i], drafts[n], false) || belongs(cs[i], drafts[n], true)
                &&& m.drafts[n] == corrected(drafts[n], cs[i])
            },
            None => m.drafts[n] == drafts[n],
        }
    &&& forall|n: int| 0 <= n < drafts.len() ==> #[trigger] m.hit[n] == (got[n] is Some)
    &&& forall|n: int, k: int|
        #![trigger got[n], got[k]]
        0 <= n < got.len() && 0 <= k < got.len() && got[n] is Some && got[n] == got[k] ==> n == k
    &&& forall|i: int| 0 <= i < cs.len() ==> #[trigger] m.used[i] == taken(got, i)
}

/// Whether draft `n` either has a correction with its own key, or all of those went to other
/// drafts with that key.
pub open spec fn key_first(
    drafts: Seq<DraftView>,
    cs: Seq<CorrectionView>,
    got: Seq<Option<int>>,
    n: int,
) -> bool {
    got_by_key(drafts, cs, got, n) || forall|i: int|
        0 <= i < cs.len() && (#[trigger] cs[i]).stable_key == drafts[n].stable_key ==> taken_by_key(
            drafts,
            cs,
            got,
            i,
        )
}

/// Whether draft `n` either has a correction, or all with its anchor went to other drafts.
pub open spec fn anchor_next(
    drafts: Seq<DraftView>,
    cs: Seq<CorrectionView>,
    got: Seq<Option<int>>,
    n: int,
) -> bool {
    got[n] is Some || forall|i: int|
        0 <= i < cs.len() && (#[trigger] cs[i]).alt_anchor == Some(drafts[n].alt_anchor) ==> taken(
            got,
            i,
        )
}

proof fn lemma_all_tried(
    cs: Seq<CorrectionView>,
    used: Seq<bool>,
    d: DraftView,
    by_anchor: bool,
    from: int,
    i: int,
)
    requires
        0 <= from <= i < cs.len(),
        first_fit(cs, used, d, by_anchor, from) is None,
        belongs(cs[i], d, by_anchor),
    ensures
        used[i],
    decreases i - from,
{
    if from < i {
        lemma_all_tried(cs, used, d, by_anchor, from + 1, i);
    }
}

proof fn lemma_give(
    drafts: Seq<DraftView>,
    cs: Seq<CorrectionView>,
    m: Matching,
    got: Seq<Option<int>>,
    by_anchor: bool,
    n: int,
) -> (r: Seq<Option<int>>)
    requires
        one_to_one(drafts, cs, m, got),
        0 <= n < drafts.len(),
    ensures
        one_to_one(drafts, cs, match_one(m, cs, by_anchor, n), r),
        forall|k: int| 0 <= k < drafts.len() && k != n ==> #[trigger] r[k] == got[k],
        got[n] is Some ==> r[n] == got[n],
        got[n] is None && r[n] is Some ==> belongs(cs[r[n]->0], drafts[n], by_anchor),
        r[n] is None ==> forall|i: int|
            0 <= i < cs.len() && belongs(#[trigger] cs[i], drafts[n], by_anchor) ==> taken(r, i),
{
    let z = match_one(m, cs, by_anchor, n);
    assert(m.hit[n] == (got[n] is Some));
    if got[n] is Some {
        return got;
    }
    assert(m.drafts[n] == drafts[n]);
    lemma_first_fit(cs, m.used, drafts[n], by_anchor, 0);
    match first_fit(cs, m.used, drafts[n], by_anchor, 0) {
        Some(i) => {
            let r = got.update(n, Some(i));
            assert(!taken(got, i));
            assert(r[n] == Some(i));
            assert forall|j: int| 0 <= j < cs.len() implies #[trigger] z.used[j] == taken(r, j) by {
                assert(m.used[j] == taken(got, j));
                if taken(got, j) {
                    let k = choose|k: int| 0 <= k < got.len() && #[trigger] got[k] == Some(j);
                    assert(r[k] == Some(j));
                }
                if taken(r, j) && j != i {
                    let k = choose|k: int| 0 <= k < r.len() && #[trigger] r[k] == Some(j);
                    assert(got[k] == Some(j));
                }
            }
            assert forall|a: int, b: int|
                #![trigger r[a], r[b]]
                0 <= a < r.len() && 0 <= b < r.len() && r[a] is Some && r[a] == r[b] implies a
                == b by {
                if a != n {
                    assert(got[a] == r[a]);
                }
                if b != n {
                    assert(got[b] == r[b]);
                }
            }
            assert forall|k: int| 0 <= k < drafts.len() implies match #[trigger] r[k] {
                Some(j) => {
                    &&& 0 <= j < cs.len()
                    &&& belongs(cs[j], drafts[k], false) || belongs(cs[j], drafts[k], true)
                    &&& z.drafts[k] == corrected(drafts[k], cs[j])
                },
                None => z.drafts[k] == drafts[k],
            } by {
                if k != n {
                    assert(r[k] == got[k]);
                }
            }
            assert forall|k: int| 0 <= k < drafts.len() implies #[trigger] z.hit[k] == (
            r[k] is Some) by {
                if k != n {
                    assert(z.hit[k] == m.hit[k]);
                }
            }
            r
        },
        None => {
            assert forall|i: int|
                0 <= i < cs.len() && belongs(#[trigger] cs[i], drafts[n], by_anchor) implies taken(
                got,
                i,
            ) by {
                lemma_all_tried(cs, m.used, drafts[n], by_anchor, 0, i);
                assert(m.used[i] == taken(got, i));
            }
            got
        },
    }
}

proof fn lemma_still_taken(got: Seq<Option<int>>, r: Seq<Option<int>>, i: int)
    requires
        taken(got, i),
        got.len() == r.len(),
        forall|k: int| 0 <= k < got.len() && got[k] is Some ==> #[trigger] r[k] == got[k],
    ensures
        taken(r, i),
{
    let k = choose|k: int| 0 <= k < got.len() && #[trigger] got[k] == Some(i);
    assert(r[k] == Some(i));
}

proof fn lemma_give_by_key(drafts: Seq<DraftView>, cs: Seq<CorrectionView>, n: int) -> (r: Seq<
    Option<int>,
>)
    requires
        0 <= n <= drafts.len(),
    ensures
        one_to_one(drafts, cs, match_upto(unmatched(drafts, cs), cs, false, n), r),
        forall|k: int|
            0 <= k < drafts.len() && (#[trigger] r[k]) is Some ==> got_by_key(drafts, cs, r, k),
        forall|k: int|
            #![trigger r[k]]
            0 <= k < n && r[k] is None ==> forall|i: int|
                0 <= i < cs.len() && belongs(#[trigger] cs[i], drafts[k], false) ==> taken(r, i),
    decreases n,
{
    let m = unmatched(drafts, cs);
    if n == 0 {
        let r = Seq::new(drafts.len(), |k: int| None::<int>);
        assert forall|i: int| 0 <= i < cs.len() implies #[trigger] m.used[i] == taken(r, i) by {}
        r
    } else {
        let got = lemma_give_by_key(drafts, cs, n - 1);
        let r = lemma_give(drafts, cs, match_upto(m, cs, false, n - 1), got, false, n - 1);
        assert forall|k: int| 0 <= k < drafts.len() && (#[trigger] r[k]) is Some implies got_by_key(
            drafts,
            cs,
            r,
            k,
        ) by {
            if k != n - 1 || got[k] is Some {
                assert(r[k] == got[k]);
                assert(got_by_key(drafts, cs, got, k));
            }
        }
        assert forall|k: int|
            #![trigger r[k]]
            0 <= k < n && r[k] is None implies forall|i: int|
            0 <= i < cs.len() && belongs(#[trigger] cs[i], drafts[k], false) ==> taken(r, i) by {
            if k < n - 1 {
                assert(got[k] is None);
                assert forall|i: int|
                    0 <= i < cs.len() && belongs(#[trigger] cs[i], drafts[k], false) implies taken(
                    r,
                    i,
                ) by {
                    lemma_still_taken(got, r, i);
                }
            }
        }
        r
    }
}

proof fn lemma_give_by_anchor(
    drafts: Seq<DraftView>,
    cs: Seq<CorrectionView>,
    m: Matching,
    got: Seq<Option<int>>,
    n: int,
) -> (r: Seq<Option<int>>)
    requires
        one_to_one(drafts, cs, m, got),
        0 <= n <= drafts.len(),
    ensures
        one_to_one(drafts, cs, match_upto(m, cs, true, n), r),
        forall|k: int| 0 <= k < drafts.len() && got[k] is Some ==> #[trigger] r[k] == got[k],
        forall|k: int| 0 <= k < n ==> #[trigger] anchor_next(drafts, cs, r, k),
    decreases n,
{
    if n == 0 {
        got
    } else {
        let before = lemma_give_by_anchor(drafts, cs, m, got, n - 1);
        let r = lemma_give(drafts, cs, match_upto(m, cs, true, n - 1), before, true, n - 1);
        assert forall|k: int| 0 <= k < n implies #[trigger] anchor_next(drafts, cs, r, k) by {
            if k < n - 1 {
                assert(anchor_next(drafts, cs, before, k));
                assert(r[k] == before[k]);
                if r[k] is None {
                    assert forall|i: int|
                        0 <= i < cs.len() && (#[trigger] cs[i]).alt_anchor == Some(
                            drafts[k].alt_anchor,
                        ) implies taken(r, i) by {
                        lemma_still_taken(before, r, i);
                    }
                }
            } else if r[k] is None {
                assert forall|i: int|
                    0 <= i < cs.len() && (#[trigger] cs[i]).alt_anchor == Some(
                        drafts[k].alt_anchor,
                    ) implies taken(r, i) by {
                    assert(belongs(cs[i], drafts[k], true));
                }
            }
        }
        r
    }
}

/// Corrections and drafts are matched one to one: each draft gets one correction at most, with its
/// key or its anchor, and each correction goes to one draft at most. The key comes first: a draft
/// goes without a correction with its key only where other drafts with that key got them all. The
/// anchor comes next: a draft goes without any only where all with its anchor were given away too.
pub proof fn corrections_match_one_to_one(drafts: Seq<DraftView>, cs: Seq<CorrectionView>)
    ensures
        exists|got: Seq<Option<int>>|
            {
                &&& #[trigger] one_to_one(drafts, cs, matched(drafts, cs), got)
                &&& forall|n: int| 0 <= n < drafts.len() ==> #[trigger] key_first(drafts, cs, got, n)
                &&& forall|n: int|
                    0 <= n < drafts.len() ==> #[trigger] anchor_next(drafts, cs, got, n)
            },
{
    let len = drafts.len() as int;
    let first = lemma_give_by_key(drafts, cs, len);
    let m = match_upto(unmatched(drafts, cs), cs, false, len);
    let got = lemma_give_by_anchor(drafts, cs, m, first, len);
    assert forall|n: int| 0 <= n < drafts.len() implies #[trigger] key_first(drafts, cs, got, n) by {
        if first[n] is Some {
            assert(got_by_key(drafts, cs, first, n));
            assert(got[n] == first[n]);
        } else {
            assert forall|i: int|
                0 <= i < cs.len() && (#[trigger] cs[i]).stable_key
                    == drafts[n].stable_key implies taken_by_key(drafts, cs, got, i) by {
                assert(belongs(cs[i], drafts[n], false));
                assert(taken(first, i));
                let k = choose|k: int| 0 <= k < first.len() && #[trigger] first[k] == Some(i);
                assert(got_by_key(drafts, cs, first, k));
                assert(got[k] == Some(i));
            }
        }
    }
    assert(one_to_one(drafts, cs, matched(drafts, cs), got));
}

fn find_fit(cs: &Vec<CorrectionRow>, used: &Vec<bool>, d: &DraftChunk, by_anchor: bool) -> (r: Option<
    usize,
>)
    requires
        used@.len() == cs@.len(),
    ensures
        match r {
            Some(i) => first_fit(correction_views(cs@), used@, d@, by_anchor, 0) == Some(i as int)
                && i < cs@.len(),
            None => first_fit(correction_views(cs@), used@, d@, by_anchor, 0) is None,
        },
{
    let ghost all = correction_views(cs@);
    let key = to_chars(d.stable_key.as_str());
    let anchor = to_chars(d.alt_anchor.as_str());
    let mut i: usize = 0;
    while i < cs.len()
        invariant
            i <= cs@.len(),
            used@.len() == cs@.len(),
            all == correction_views(cs@),
            key@ == d.stable_key@,
            anchor@ == d.alt_anchor@,
            first_fit(all, used@, d@, by_anchor, 0) == first_fit(all, used@, d@, by_anchor, i as int),
        decreases cs@.len() - i,
    {
        assert(all[i as int] == cs@[i as int]@);
        let fits = if by_anchor {
            match &cs[i].alt_anchor {
                Some(a) => same_str(anchor.as_slice(), a.as_str()),
                None => false,
            }
        } else {
            same_str(key.as_slice(), cs[i].stable_key.as_str())
        };
        if !used[i] && fits {
            return Some(i);
        }
        i += 1;
    }
    None
}

fn match_pass(
    drafts: &mut Vec<DraftChunk>,
    used: &mut Vec<bool>,
    hit: &mut Vec<bool>,
    cs: &Vec<CorrectionRow>,
    by_anchor: bool,
)
    requires
        old(used)@.len() == cs@.len(),
        old(hit)@.len() == old(drafts)@.len(),
    ensures
        ({
            let m = Matching {
                drafts: draft_views(old(drafts)@),
                used: old(used)@,
                hit: old(hit)@,
            };
            let z = Matching {
                drafts: draft_views(final(drafts)@),
                used: final(used)@,
                hit: final(hit)@,
            };
            z == match_upto(m, correction_views(cs@), by_anchor, old(drafts)@.len() as int)
        }),
        final(used)@.len() == old(used)@.len(),
        final(hit)@.len() == old(hit)@.len(),
        final(drafts)@.len() == old(drafts)@.len(),
{
    let ghost m = Matching { drafts: draft_views(drafts@), used: used@, hit: hit@ };
    let ghost all = correction_views(cs@);
    let n = drafts.len();
    let mut i: usize = 0;
    while i < n
        invariant
            i <= n,
            n == drafts@.len(),
            used@.len() == cs@.len(),
            hit@.len() == n,
            all == correction_views(cs@),
            match_upto(m, all, by_anchor, i as int) == (Matching {
                drafts: draft_views(drafts@),
                used: used@,
                hit: hit@,
            }),
        decreases n - i,
    {
        if !hit[i] {
            match find_fit(cs, used, &drafts[i], by_anchor) {
                Some(k) => {
                    let ghost before = draft_views(drafts@);
                    assert(all[k as int] == cs@[k as int]@);
                    let d = apply_correction(&drafts[i], &cs[k]);
                    drafts.set(i, d);
                    used.set(k, true);
                    hit.set(i, true);
                    assert(draft_views(drafts@) =~= before.update(i as int, d@));
                },
                None => {},
            }
        }
        i += 1;
    }
}

fn all_false(n: usize) -> (r: Vec<bool>)
    ensures
        r@ == Seq::new(n as nat, |i: int| false),
{
    let mut v: Vec<bool> = Vec::new();
    let mut i: usize = 0;
    while i < n
        invariant
            i <= n,
            v@ == Seq::new(i as nat, |j: int| false),
        decreases n - i,
    {
        v.push(false);
        assert(v@ =~= Seq::new((i + 1) as nat, |j: int| false));
        i += 1;
    }
    v
}

/// Brings the corrections that the user made back to the drafts of a document. Returns how many
/// corrections found no draft.
pub fn correct_drafts(drafts: &mut Vec<DraftChunk>, corrections: &Vec<CorrectionRow>) -> (r: usize)
    ensures
        ({
            let m = matched(draft_views(old(drafts)@), correction_views(corrections@));
            &&& draft_views(final(drafts)@) == m.drafts
            &&& r + count_true(m.used) == corrections@.len()
        }),
{
    let mut used = all_false(corrections.len());
    let mut hit = all_false(drafts.len());
    proof {
        let m = unmatched(draft_views(drafts@), correction_views(corrections@));
        assert(m.used =~= used@);
        assert(m.hit =~= hit@);
    }
    match_pass(drafts, &mut used, &mut hit, corrections, false);
    match_pass(drafts, &mut used, &mut hit, corrections, true);
    let mut free: usize = 0;
    let mut i: usize = 0;
    while i < used.len()
        invariant
            i <= used@.len(),
            free <= i,
            free + count_true(used@.take(i as int)) == i,
        decreases used@.len() - i,
    {
        assert(used@.take(i + 1).drop_last() =~= used@.take(i as int));
        if !used[i] {
            free += 1;
        }
        i += 1;
    }
    assert(used@.take(i as int) =~= used@);
    free
}

// ---------------------------------------------------------------------------------------------
// What is stored
// ---------------------------------------------------------------------------------------------

/// What is stored of an entry besides its own fields.
#[derive(Debug)]
pub struct StoredFields {
    pub aliases_json: String,
    pub search_text: String,
}

/// Makes the fields that are stored with an entry.
pub fn stored_fields(title: &str, body: &str, aliases: &Vec<String>) -> (r: StoredFields)
    ensures
        r.aliases_json@ == json_array(texts(aliases@)),
        json_strings(r.aliases_json@) == Some(texts(aliases@)),
        r.search_text@ == search_text(title@, body@, texts(aliases@), Seq::empty()),
{
    let none: Vec<String> = Vec::new();
    assert(texts(none@) =~= Seq::<Seq<char>>::empty());
    let aliases_json = write_json_strings(aliases);
    let text = build_search_text(title, body, aliases.as_slice(), none.as_slice());
    StoredFields { aliases_json, search_text: text }
}

/// The other names that a stored entry has; none if they cannot be read.
pub open spec fn stored_names(json: Seq<char>) -> Seq<Seq<char>> {
    match json_strings(json) {
        Some(v) => v,
        None => Seq::empty(),
    }
}

/// Takes the other names that were read, or none.
pub fn names_or_none(read: Option<Vec<String>>) -> (r: Vec<String>)
    ensures
        texts(r@) == (match read {
            Some(v) => texts(v@),
            None => Seq::empty(),
        }),
{
    match read {
        Some(v) => v,
        None => {
            let none: Vec<String> = Vec::new();
            assert(texts(none@) =~= Seq::<Seq<char>>::empty());
            none
        },
    }
}

/// Reads the other names of a stored entry.
pub fn read_stored_names(json: &str) -> (r: Vec<String>)
    ensures
        texts(r@) == stored_names(json@),
{
    names_or_none(parse_json_strings(json))
}

/// The metadata of an entry after a change.
#[derive(Debug)]
pub struct PatchedMeta {
    pub entity_type: String,
    pub visibility: i64,
    pub aliases: Vec<String>,
    pub stored: StoredFields,
    pub alt_anchor: String,
}

/// The other names of an entry after a change.
pub open spec fn patched_names(chunk: ChunkView, patch: Option<Seq<Seq<char>>>) -> Seq<Seq<char>> {
    match patch {
        Some(v) => v,
        None => chunk.aliases,
    }
}

/// Other names that may be missing.
pub open spec fn opt_texts(v: Option<Vec<String>>) -> Option<Seq<Seq<char>>> {
    match v {
        Some(t) => Some(texts(t@)),
        None => None,
    }
}

/// Changes the metadata of an entry; what the change leaves open stays.
pub fn patch_meta(chunk: &Chunk, patch: &MetaPatch) -> (r: PatchedMeta)
    ensures
        r.entity_type@ == (match patch.entity_type {
            Some(t) => t@,
            None => chunk.entity_type@,
        }),
        r.visibility == (match patch.visibility {
            Some(v) => v,
            None => chunk.visibility,
        }),
        ({
            let names = patched_names(chunk@, opt_texts(patch.aliases));
            &&& texts(r.aliases@) == names
            &&& r.stored.aliases_json@ == json_array(names)
            &&& json_strings(r.stored.aliases_json@) == Some(names)
            &&& r.stored.search_text@ == search_text(
                chunk.title@,
                chunk.body@,
                names,
                Seq::empty(),
            )
        }),
        r.alt_anchor@ == anchor_key(chunk.parent_path@, chunk.body@),
{
    let entity_type = match &patch.entity_type {
        Some(t) => t.clone(),
        None => chunk.entity_type.clone(),
    };
    let visibility: i64 = match patch.visibility {
        Some(v) => v,
        None => chunk.visibility,
    };
    let aliases = match &patch.aliases {
        Some(v) => clone_names(v),
        None => clone_names(&chunk.aliases),
    };
    let stored = stored_fields(chunk.title.as_str(), chunk.body.as_str(), &aliases);
    let anchor = alt_anchor(chunk.parent_path.as_str(), chunk.body.as_str());
    PatchedMeta { entity_type, visibility, aliases, stored, alt_anchor: anchor }
}

// ---------------------------------------------------------------------------------------------
// Vectors
// ---------------------------------------------------------------------------------------------

/// A vector of a sub-block: the number of the draft, the number of the sub-block, its text, and
/// the bytes of the vector.
#[derive(Debug)]
pub struct VectorRow {
    pub draft: usize,
    pub seq: usize,
    pub text: String,
    pub vector: Vec<u8>,
}

/// What the encoder gave for the sub-blocks of a draft: the vectors, up to the first failure.
#[derive(Debug)]
pub struct Encoded {
    pub title: String,
    pub texts: Vec<String>,
    pub vectors: Vec<Vec<u8>>,
    pub failure: Option<String>,
}

/// A row as a mathematical value.
pub type RowView = (int, int, Seq<char>, Seq<u8>);

/// The values of rows.
pub open spec fn row_views(v: Seq<VectorRow>) -> Seq<RowView> {
    Seq::new(v.len(), |i: int| (v[i].draft as int, v[i].seq as int, v[i].text@, v[i].vector@))
}

/// The rows of the first `n` sub-blocks of a draft.
pub open spec fn draft_rows(e: Encoded, draft: int, n: nat) -> Seq<RowView> {
    Seq::new(n, |k: int| (draft, k, e.texts@[k]@, e.vectors@[k]@))
}

/// The rows of the first `n` drafts; a draft on which the encoder failed has none.
pub open spec fn all_rows(v: Seq<Encoded>, n: int) -> Seq<RowView>
    decreases n,
{
    if n <= 0 {
        Seq::empty()
    } else {
        let e = v[n - 1];
        let before = all_rows(v, n - 1);
        if e.failure is Some {
            before
        } else {
            before + draft_rows(e, n - 1, e.vectors@.len())
        }
    }
}

/// The note on the first draft among the first `n` on which the encoder failed.
pub open spec fn first_failure(v: Seq<Encoded>, n: int) -> Option<Seq<char>>
    decreases n,
{
    if n <= 0 {
        None
    } else {
        match first_failure(v, n - 1) {
            Some(m) => Some(m),
            None => match v[n - 1].failure {
                Some(e) => Some(
                    "「"@ + v[n - 1].title@ + "」语义向量计算失败，该条暂无向量："@ + e@,
                ),
                None => None,
            },
        }
    }
}

/// Gathers the vectors of the drafts of a document. A draft on which the encoder failed goes
/// without vectors; the first failure is noted.
pub fn gather_vectors(encoded: &Vec<Encoded>) -> (r: (Vec<VectorRow>, Option<String>))
    requires
        forall|i: int|
            0 <= i < encoded@.len() ==> (#[trigger] encoded@[i]).vectors@.len()
                <= encoded@[i].texts@.len(),
    ensures
        row_views(r.0@) == all_rows(encoded@, encoded@.len() as int),
        opt_text(r.1) == first_failure(encoded@, encoded@.len() as int),
{
    let mut out: Vec<VectorRow> = Vec::new();
    let mut note: Option<String> = None;
    assert(row_views(out@) =~= Seq::<RowView>::empty());
    let mut i: usize = 0;
    while i < encoded.len()
        invariant
            i <= encoded@.len(),
            forall|k: int|
                0 <= k < encoded@.len() ==> (#[trigger] encoded@[k]).vectors@.len()
                    <= encoded@[k].texts@.len(),
            row_views(out@) == all_rows(encoded@, i as int),
            opt_text(note) == first_failure(encoded@, i as int),
        decreases encoded@.len() - i,
    {
        let e = &encoded[i];
        match &e.failure {
            Some(err) => {
                if note.is_none() {
                    let mut m = to_chars("「");
                    extend_str(&mut m, e.title.as_str());
                    extend_str(&mut m, "」语义向量计算失败，该条暂无向量：");
                    extend_str(&mut m, err.as_str());
                    note = Some(to_text(m.as_slice()));
                }
            },
            None => {
                let ghost before = row_views(out@);
                let mut k: usize = 0;
                assert(before + draft_rows(*e, i as int, 0) =~= before);
                while k < e.vectors.len()
                    invariant
                        k <= e.vectors@.len(),
                        e.vectors@.len() <= e.texts@.len(),
                        row_views(out@) == before + draft_rows(*e, i as int, k as nat),
                    decreases e.vectors@.len() - k,
                {
                    let ghost now = row_views(out@);
                    let row = VectorRow {
                        draft: i,
                        seq: k,
                        text: e.texts[k].clone(),
                        vector: clone_bytes(&e.vectors[k]),
                    };
                    out.push(row);
                    proof {
                        let x = (i as int, k as int, e.texts@[k as int]@, e.vectors@[k as int]@);
                        assert(row_views(out@) =~= now.push(x));
                        assert(draft_rows(*e, i as int, (k + 1) as nat) =~= draft_rows(
                            *e,
                            i as int,
                            k as nat,
                        ).push(x));
                        assert(now.push(x) =~= before + draft_rows(*e, i as int, (k + 1) as nat));
                    }
                    k += 1;
                }
            },
        }
        i += 1;
    }
    (out, note)
}

/// The note on an entry of the store on which the encoder failed.
pub open spec fn skipped_note(id: int, error: Seq<char>) -> Seq<char> {
    "条目 "@ + signed_decimal(id) + " 向量计算失败，已跳过："@ + error
}

/// Gathers the vectors that an entry of the store lacked. An entry on which the encoder failed goes
/// without vectors, and the note says so.
pub fn backfill_entry(id: i64, encoded: Encoded) -> (r: Result<Vec<VectorRow>, String>)
    requires
        encoded.vectors@.len() <= encoded.texts@.len(),
    ensures
        match (r, encoded.failure) {
            (Ok(rows), None) => row_views(rows@) == draft_rows(encoded, 0, encoded.vectors@.len()),
            (Err(note), Some(e)) => note@ == skipped_note(id as int, e@),
            _ => false,
        },
{
    match &encoded.failure {
        Some(e) => {
            let mut m = to_chars("条目 ");
            let d = write_signed(id);
            extend(&mut m, d.as_slice());
            extend_str(&mut m, " 向量计算失败，已跳过：");
            extend_str(&mut m, e.as_str());
            Err(to_text(m.as_slice()))
        },
        None => {
            let mut one: Vec<Encoded> = Vec::new();
            one.push(encoded);
            let (rows, _) = gather_vectors(&one);
            proof {
                assert(all_rows(one@, 0) =~= Seq::<RowView>::empty());
                assert(all_rows(one@, 1) =~= draft_rows(encoded, 0, encoded.vectors@.len()));
            }
            Ok(rows)
        },
    }
}

fn clone_bytes(v: &Vec<u8>) -> (r: Vec<u8>)
    ensures
        r@ == v@,
{
    let mut out: Vec<u8> = Vec::new();
    let mut i: usize = 0;
    while i < v.len()
        invariant
            i <= v@.len(),
            out@ == v@.take(i as int),
        decreases v@.len() - i,
    {
        out.push(v[i]);
        assert(out@ =~= v@.take(i + 1));
        i += 1;
    }
    assert(v@.take(i as int) =~= v@);
    out
}

/// What is to be done about the record of the model that made the vectors of a store.
#[derive(Debug, Clone, Copy, PartialEq, Eq, Structural)]
pub enum MetaAction {
    /// There is none yet: write it.
    Insert,
    /// It is the model at hand.
    Keep,
    /// It is another model: the vectors are void, drop them and write the record anew.
    Replace,
}

/// Compares the name and the fingerprint of the model that made the vectors with those of the
/// model at hand. The name alone tells nothing: it stays the same when the file of the model is
/// exchanged.
pub fn meta_action(recorded: Option<(String, String)>, model: &str, fingerprint: &str) -> (r: MetaAction)
    ensures
        r == (match recorded {
            None => MetaAction::Insert,
            Some(m) => if m.0@ == model@ && m.1@ == fingerprint@ {
                MetaAction::Keep
            } else {
                MetaAction::Replace
            },
        }),
{
    match recorded {
        None => MetaAction::Insert,
        Some(m) => {
            let id = to_chars(m.0.as_str());
            let mark = to_chars(m.1.as_str());
            if same_str(id.as_slice(), model) && same_str(mark.as_slice(), fingerprint) {
                MetaAction::Keep
            } else {
                MetaAction::Replace
            }
        },
    }
}

// ---------------------------------------------------------------------------------------------
// Opening
// ---------------------------------------------------------------------------------------------

/// What is to be done to open a store file.
#[derive(Debug)]
pub enum OpenAction {
    /// It is empty: lay it out and mark it as a store.
    LayOut,
    /// It is older: lay it out again.
    Upgrade,
    /// It is up to date.
    Use,
    /// It belongs to another program.
    Foreign,
    /// It is newer than this program; the message says so.
    TooNew(String),
}

/// Decides by its application identifier and its version how a store file is opened.
pub fn open_action(app_id: i64, version: i32) -> (r: OpenAction)
    ensures
        match r {
            OpenAction::Foreign => app_id != 0 && app_id != APP_ID,
            OpenAction::LayOut => (app_id == 0 || app_id == APP_ID) && version == 0,
            OpenAction::TooNew(m) => (app_id == 0 || app_id == APP_ID) && version > SCHEMA_VERSION
                && m@ == "库版本 "@ + signed_decimal(version as int) + " 新于本程序 "@
                + signed_decimal(SCHEMA_VERSION as int) + "，只读打开未实现，请升级软件"@,
            OpenAction::Upgrade => (app_id == 0 || app_id == APP_ID) && version != 0 && version
                < SCHEMA_VERSION,
            OpenAction::Use => (app_id == 0 || app_id == APP_ID) && version == SCHEMA_VERSION,
        },
{
    if app_id != 0 && app_id != APP_ID {
        OpenAction::Foreign
    } else if version == 0 {
        OpenAction::LayOut
    } else if version > SCHEMA_VERSION {
        let mut m = to_chars("库版本 ");
        let a = write_signed(version as i64);
        extend(&mut m, a.as_slice());
        extend_str(&mut m, " 新于本程序 ");
        let b = write_signed(SCHEMA_VERSION as i64);
        extend(&mut m, b.as_slice());
        extend_str(&mut m, "，只读打开未实现，请升级软件");
        OpenAction::TooNew(to_text(m.as_slice()))
    } else if version < SCHEMA_VERSION {
        OpenAction::Upgrade
    } else {
        OpenAction::Use
    }
}

/// Whether a journal mode is the one that a portable store must have.
pub fn is_portable_mode(mode: &str) -> (r: bool)
    ensures
        r == (lower_text(mode@) == "delete"@),
{
    let v = to_chars(mode);
    let low = lower_chars(v.as_slice());
    same_str(low.as_slice(), "delete")
}

// ---------------------------------------------------------------------------------------------
// Importing
// ---------------------------------------------------------------------------------------------

/// How an import is done.
#[derive(Clone, Copy)]
pub struct ImportOpts<'a> {
    /// What long chapters are split with.
    pub splitter: Option<&'a dyn EntrySplitter>,
    /// Whether files that have not changed are processed again.
    pub reprocess: bool,
    /// Whether there is an encoder, so that vectors are made.
    pub embed: bool,
}

impl<'a> Default for ImportOpts<'a> {
    fn default() -> (r: Self)
        ensures
            r.splitter is None,
            !r.reprocess && !r.embed,
    {
        ImportOpts { splitter: None, reprocess: false, embed: false }
    }
}

/// What became of a file.
#[derive(Debug)]
pub enum FileOutcome {
    /// It does not exist.
    Missing,
    /// It is no document.
    Passed,
    /// It is a document that cannot be read, and why.
    Unsupported(String),
    /// It has not changed.
    Unchanged,
    /// It was imported.
    Done { chunks: usize, unmatched: usize, notes: Vec<String> },
    /// It could not be imported, and why.
    Failed(String),
}

/// The error line of a file.
pub open spec fn error_line(path: Seq<char>, message: Seq<char>) -> Seq<char> {
    path + ": "@ + message
}

/// A report after one more file.
#[verifier::ext_equal]
pub struct ReportView {
    pub ok: int,
    pub skip: int,
    pub fail: int,
    pub chunks: int,
    pub unmatched: int,
    pub errors: Seq<Seq<char>>,
    pub warnings: Seq<Seq<char>>,
}

impl View for ImportReport {
    type V = ReportView;

    open spec fn view(&self) -> ReportView {
        ReportView {
            ok: self.files_ok as int,
            skip: self.files_skip as int,
            fail: self.files_fail as int,
            chunks: self.chunks as int,
            unmatched: self.unmatched_corrections as int,
            errors: texts(self.errors@),
            warnings: texts(self.warnings@),
        }
    }
}

/// The report after one more file.
pub open spec fn reported(r: ReportView, path: Seq<char>, outcome: FileOutcome) -> ReportView {
    match outcome {
        FileOutcome::Missing => ReportView {
            fail: r.fail + 1,
            errors: r.errors.push("不存在: "@ + path),
            ..r
        },
        FileOutcome::Passed => ReportView { skip: r.skip + 1, ..r },
        FileOutcome::Unsupported(m) => ReportView {
            skip: r.skip + 1,
            errors: r.errors.push(error_line(path, m@)),
            ..r
        },
        FileOutcome::Unchanged => ReportView { skip: r.skip + 1, ..r },
        FileOutcome::Done { chunks, unmatched, notes } => ReportView {
            ok: r.ok + 1,
            chunks: r.chunks + chunks,
            unmatched: r.unmatched + unmatched,
            warnings: r.warnings + texts(notes@),
            ..r
        },
        FileOutcome::Failed(m) => ReportView {
            fail: r.fail + 1,
            errors: r.errors.push(error_line(path, m@)),
            ..r
        },
    }
}

/// Whether the numbers of a report fit the machine.
pub open spec fn fits_machine(r: ReportView) -> bool {
    r.ok <= usize::MAX && r.skip <= usize::MAX && r.fail <= usize::MAX && r.chunks <= usize::MAX
        && r.unmatched <= usize::MAX
}

fn push_error(errors: &mut Vec<String>, path: &str, message: &str)
    ensures
        texts(final(errors)@) == texts(old(errors)@).push(error_line(path@, message@)),
{
    let ghost before = texts(errors@);
    let mut m = to_chars(path);
    extend_str(&mut m, ": ");
    extend_str(&mut m, message);
    let t = to_text(m.as_slice());
    errors.push(t);
    assert(texts(errors@) =~= before.push(t@));
}

fn append_texts(out: &mut Vec<String>, more: &Vec<String>)
    ensures
        texts(final(out)@) == texts(old(out)@) + texts(more@),
{
    let ghost before = texts(out@);
    let ghost all = texts(more@);
    let mut i: usize = 0;
    assert(before + all.take(0) =~= before);
    while i < more.len()
        invariant
            i <= more@.len(),
            all == texts(more@),
            texts(out@) == before + all.take(i as int),
        decreases more@.len() - i,
    {
        let ghost now = texts(out@);
        out.push(more[i].clone());
        proof {
            assert(texts(out@) =~= now.push(more@[i as int]@));
            assert(now.push(all[i as int]) =~= before + all.take(i + 1));
        }
        i += 1;
    }
    assert(all.take(i as int) =~= all);
}

/// Adds what became of a file to the report of an import.
pub fn report_file(report: &mut ImportReport, path: &str, outcome: FileOutcome)
    requires
        fits_machine(reported(old(report)@, path@, outcome)),
    ensures
        final(report)@ == reported(old(report)@, path@, outcome),
{
    match outcome {
        FileOutcome::Missing => {
            let ghost before = texts(report.errors@);
            let mut m = to_chars("不存在: ");
            extend_str(&mut m, path);
            let t = to_text(m.as_slice());
            report.files_fail = report.files_fail + 1;
            report.errors.push(t);
            assert(texts(report.errors@) =~= before.push(t@));
        },
        FileOutcome::Passed => {
            report.files_skip = report.files_skip + 1;
        },
        FileOutcome::Unsupported(m) => {
            report.files_skip = report.files_skip + 1;
            push_error(&mut report.errors, path, m.as_str());
        },
        FileOutcome::Unchanged => {
            report.files_skip = report.files_skip + 1;
        },
        FileOutcome::Done { chunks, unmatched, notes } => {
            report.files_ok = report.files_ok + 1;
            report.chunks = report.chunks + chunks;
            report.unmatched_corrections = report.unmatched_corrections + unmatched;
            append_texts(&mut report.warnings, &notes);
        },
        FileOutcome::Failed(m) => {
            report.files_fail = report.files_fail + 1;
            push_error(&mut report.errors, path, m.as_str());
        },
    }
}

// ---------------------------------------------------------------------------------------------
// What holds of copies, vectors and corrections
// ---------------------------------------------------------------------------------------------

/// Players see every line that is not marked, in their order, and no other: only the marked lines
/// are taken out.
pub proof fn unmarked_lines_are_shown(body: Seq<char>, visibility: i64)
    ensures
        public_lines(lines_of(body)) == lines_of(body).filter(
            |line: Seq<char>| !secret_markup(line),
        ),
        ({
            let kept = lines_of(body).filter(|line: Seq<char>| !secret_markup(line));
            trimmed(joined(kept, "\n"@)).len() > 0 ==> public_part(body, visibility) == joined(
                kept,
                "\n"@,
            )
        }),
{
    lemma_public_filter(lines_of(body));
}

proof fn lemma_public_filter(ls: Seq<Seq<char>>)
    ensures
        public_lines(ls) == ls.filter(|line: Seq<char>| !secret_markup(line)),
    decreases ls.len(),
{
    reveal(Seq::filter);
    if ls.len() > 0 {
        lemma_public_filter(ls.drop_last());
    }
}

/// Every vector that the encoder made of a draft without failing is stored, under the number of the
/// draft and of the sub-block, with its text; no others are.
pub proof fn every_vector_is_stored(v: Seq<Encoded>, n: int)
    requires
        0 <= n <= v.len(),
    ensures
        forall|i: int, k: int|
            #![trigger v[i].vectors@[k]]
            0 <= i < n && 0 <= k < v[i].vectors@.len() && v[i].failure is None ==> all_rows(
                v,
                n,
            ).contains((i, k, v[i].texts@[k]@, v[i].vectors@[k]@)),
        forall|m: int|
            0 <= m < all_rows(v, n).len() ==> {
                let row = #[trigger] all_rows(v, n)[m];
                &&& 0 <= row.0 < n
                &&& v[row.0].failure is None
                &&& 0 <= row.1 < v[row.0].vectors@.len()
                &&& row.2 == v[row.0].texts@[row.1]@
                &&& row.3 == v[row.0].vectors@[row.1]@
            },
    decreases n,
{
    if n > 0 {
        every_vector_is_stored(v, n - 1);
        let e = v[n - 1];
        let before = all_rows(v, n - 1);
        let now = all_rows(v, n);
        assert forall|i: int, k: int|
            #![trigger v[i].vectors@[k]]
            0 <= i < n && 0 <= k < v[i].vectors@.len() && v[i].failure is None implies now.contains(
            (i, k, v[i].texts@[k]@, v[i].vectors@[k]@),
        ) by {
            let row = (i, k, v[i].texts@[k]@, v[i].vectors@[k]@);
            if i < n - 1 {
                assert(before.contains(row));
                let m = choose|m: int| 0 <= m < before.len() && before[m] == row;
                assert(now[m] == row);
            } else {
                assert(now[before.len() + k] == row);
            }
        }
        assert forall|m: int| 0 <= m < now.len() implies {
            let row = #[trigger] now[m];
            &&& 0 <= row.0 < n
            &&& v[row.0].failure is None
            &&& 0 <= row.1 < v[row.0].vectors@.len()
            &&& row.2 == v[row.0].texts@[row.1]@
            &&& row.3 == v[row.0].vectors@[row.1]@
        } by {
            if m < before.len() {
                assert(now[m] == before[m]);
            }
        }
    }
}

/// The note on an import names the first draft on which the encoder failed, if there is one.
pub proof fn the_first_failed_draft_is_noted(v: Seq<Encoded>, i: int)
    requires
        0 <= i < v.len(),
        v[i].failure is Some,
        forall|j: int| 0 <= j < i ==> (#[trigger] v[j]).failure is None,
    ensures
        first_failure(v, v.len() as int) == Some(
            "「"@ + v[i].title@ + "」语义向量计算失败，该条暂无向量："@ + v[i].failure->0@,
        ),
{
    lemma_first_failed(v, i, v.len() as int);
}

proof fn lemma_first_failed(v: Seq<Encoded>, i: int, n: int)
    requires
        0 <= i < v.len(),
        0 <= n <= v.len(),
        v[i].failure is Some,
        forall|j: int| 0 <= j < i ==> (#[trigger] v[j]).failure is None,
    ensures
        n <= i ==> first_failure(v, n) is None,
        n > i ==> first_failure(v, n) == Some(
            "「"@ + v[i].title@ + "」语义向量计算失败，该条暂无向量："@ + v[i].failure->0@,
        ),
    decreases n,
{
    if n > 0 {
        lemma_first_failed(v, i, n - 1);
    }
}

/// Whether a text has no opening brace.
pub open spec fn no_brace(s: Seq<char>) -> bool {
    forall|k: int| 0 <= k < s.len() ==> #[trigger] s[k] != '{'
}

/// Whether a text is a field of a template: an opening brace, and none behind it.
pub open spec fn is_field(n: Seq<char>) -> bool {
    n.len() > 1 && n[0] == '{' && forall|k: int| 1 <= k < n.len() ==> #[trigger] n[k] != '{'
}

proof fn lemma_skip_to_field(a: Seq<char>, rest: Seq<char>, m: Seq<char>, to: Seq<char>)
    requires
        no_brace(a),
        is_field(m),
    ensures
        replaced(a + rest, m, to) == a + replaced(rest, m, to),
    decreases a.len(),
{
    if a.len() == 0 {
        assert(a + rest =~= rest);
        assert(a + replaced(rest, m, to) =~= replaced(rest, m, to));
    } else {
        let s = a + rest;
        let b = a.skip(1);
        assert forall|k: int| 0 <= k < b.len() implies #[trigger] b[k] != '{' by {
            assert(b[k] == a[k + 1]);
        }
        lemma_skip_to_field(b, rest, m, to);
        assert(s[0] == a[0]);
        if crate::scan::occurs_at(s, m, 0) {
            assert(s.subrange(0, m.len() as int)[0] == s[0]);
        }
        assert(s.skip(1) =~= b + rest);
        assert(seq![s[0]] + (b + replaced(rest, m, to)) =~= a + replaced(rest, m, to));
    }
}

proof fn lemma_no_field(b: Seq<char>, m: Seq<char>, to: Seq<char>)
    requires
        no_brace(b),
        is_field(m),
    ensures
        replaced(b, m, to) == b,
{
    crate::scan::lemma_nothing_replaced(b, m, to);
}

proof fn lemma_field_filled(a: Seq<char>, n: Seq<char>, b: Seq<char>, to: Seq<char>)
    requires
        no_brace(a),
        no_brace(b),
        is_field(n),
    ensures
        replaced(a + n + b, n, to) == a + to + b,
{
    assert(a + n + b =~= a + (n + b));
    lemma_skip_to_field(a, n + b, n, to);
    lemma_no_field(b, n, to);
    assert((n + b).subrange(0, n.len() as int) =~= n);
    assert(crate::scan::occurs_at(n + b, n, 0));
    assert((n + b).skip(n.len() as int) =~= b);
    assert(a + (to + b) =~= a + to + b);
}

proof fn lemma_other_field(a: Seq<char>, n: Seq<char>, b: Seq<char>, m: Seq<char>, to: Seq<char>)
    requires
        no_brace(a),
        no_brace(b),
        is_field(n),
        is_field(m),
        n[1] != m[1],
    ensures
        replaced(a + n + b, m, to) == a + n + b,
{
    assert(a + n + b =~= a + (n + b));
    lemma_skip_to_field(a, n + b, m, to);
    let s = n + b;
    let tail = s.skip(1);
    assert forall|k: int| 0 <= k < tail.len() implies #[trigger] tail[k] != '{' by {
        if k + 1 < n.len() {
            assert(tail[k] == n[k + 1]);
        } else {
            assert(tail[k] == b[k + 1 - n.len()]);
        }
    }
    lemma_no_field(tail, m, to);
    if crate::scan::occurs_at(s, m, 0) {
        assert(s.subrange(0, m.len() as int)[1] == s[1]);
    }
    assert(seq![s[0]] + tail =~= s);
}

/// Each field of a template is filled with what it names, and the text around it stays: the kind,
/// the title, the body, the part of the body that players may see, and the file and path. Texts
/// with braces of their own are left out here, since what is filled in is looked through again.
pub proof fn templates_are_filled(a: Seq<char>, b: Seq<char>, c: ChunkView, public: Seq<char>)
    requires
        no_brace(a),
        no_brace(b),
        no_brace(c.entity_type),
        no_brace(c.title),
        no_brace(c.body),
        no_brace(public),
        no_brace(c.file_name),
        no_brace(c.parent_path),
    ensures
        filled(a + "{entity_type}"@ + b, c, public) == a + c.entity_type + b,
        filled(a + "{title}"@ + b, c, public) == a + c.title + b,
        filled(a + "{body}"@ + b, c, public) == a + c.body + b,
        filled(a + "{public_body}"@ + b, c, public) == a + public + b,
        filled(a + "{source_path}"@ + b, c, public) == a + (c.file_name + " · "@ + c.parent_path) + b,
        filled(a, c, public) == a,
{
    reveal_strlit("{entity_type}");
    reveal_strlit("{title}");
    reveal_strlit("{body}");
    reveal_strlit("{public_body}");
    reveal_strlit("{source_path}");
    reveal_strlit(" · ");
    let e = "{entity_type}"@;
    let t = "{title}"@;
    let y = "{body}"@;
    let p = "{public_body}"@;
    let s = "{source_path}"@;
    let path = c.file_name + " · "@ + c.parent_path;
    assert(is_field(e) && is_field(t) && is_field(y) && is_field(p) && is_field(s));
    assert(no_brace(path)) by {
        assert forall|k: int| 0 <= k < path.len() implies #[trigger] path[k] != '{' by {
            let i = c.file_name.len() as int;
            if k < i {
                assert(path[k] == c.file_name[k]);
            } else if k < i + " · "@.len() {
                assert(path[k] == " · "@[k - i]);
            } else {
                assert(path[k] == c.parent_path[k - i - " · "@.len()]);
            }
        }
    }
    lemma_plain_template(a, c, public);
    lemma_field_filled(a, e, b, c.entity_type);
    lemma_joined_plain(a, c.entity_type, b);
    lemma_plain_rest(a + c.entity_type + b, c.title, c.body, public, path);
    lemma_other_field(a, t, b, e, c.entity_type);
    lemma_field_filled(a, t, b, c.title);
    lemma_joined_plain(a, c.title, b);
    lemma_plain_rest(a + c.title + b, c.title, c.body, public, path);
    lemma_other_field(a, y, b, e, c.entity_type);
    lemma_other_field(a, y, b, t, c.title);
    lemma_field_filled(a, y, b, c.body);
    lemma_joined_plain(a, c.body, b);
    lemma_plain_rest(a + c.body + b, c.title, c.body, public, path);
    lemma_other_field(a, p, b, e, c.entity_type);
    lemma_other_field(a, p, b, t, c.title);
    lemma_other_field(a, p, b, y, c.body);
    lemma_field_filled(a, p, b, public);
    lemma_joined_plain(a, public, b);
    lemma_plain_rest(a + public + b, c.title, c.body, public, path);
    lemma_other_field(a, s, b, e, c.entity_type);
    lemma_other_field(a, s, b, t, c.title);
    lemma_other_field(a, s, b, y, c.body);
    lemma_other_field(a, s, b, p, public);
    lemma_field_filled(a, s, b, path);
}

proof fn lemma_joined_plain(a: Seq<char>, x: Seq<char>, b: Seq<char>)
    requires
        no_brace(a),
        no_brace(x),
        no_brace(b),
    ensures
        no_brace(a + x + b),
{
    let s = a + x + b;
    assert forall|k: int| 0 <= k < s.len() implies #[trigger] s[k] != '{' by {
        if k < a.len() {
            assert(s[k] == a[k]);
        } else if k < a.len() + x.len() {
            assert(s[k] == x[k - a.len()]);
        } else {
            assert(s[k] == b[k - a.len() - x.len()]);
        }
    }
}

proof fn lemma_plain_rest(
    s: Seq<char>,
    title: Seq<char>,
    body: Seq<char>,
    public: Seq<char>,
    path: Seq<char>,
)
    requires
        no_brace(s),
    ensures
        replaced(s, "{title}"@, title) == s,
        replaced(s, "{body}"@, body) == s,
        replaced(s, "{public_body}"@, public) == s,
        replaced(s, "{source_path}"@, path) == s,
{
    reveal_strlit("{title}");
    reveal_strlit("{body}");
    reveal_strlit("{public_body}");
    reveal_strlit("{source_path}");
    lemma_no_field(s, "{title}"@, title);
    lemma_no_field(s, "{body}"@, body);
    lemma_no_field(s, "{public_body}"@, public);
    lemma_no_field(s, "{source_path}"@, path);
}

proof fn lemma_plain_template(s: Seq<char>, c: ChunkView, public: Seq<char>)
    requires
        no_brace(s),
    ensures
        filled(s, c, public) == s,
{
    reveal_strlit("{entity_type}");
    lemma_no_field(s, "{entity_type}"@, c.entity_type);
    lemma_plain_rest(s, c.title, c.body, public, c.file_name + " · "@ + c.parent_path);
}

/// What a correction stored as other names comes back as such: every name that was stored, and no
/// other, is added to those of the draft.
pub proof fn stored_names_come_back(d: DraftView, c: CorrectionRow, names: Seq<Seq<char>>)
    requires
        c.aliases_json is Some,
        json_strings(c.aliases_json->0@) == Some(names),
    ensures
        forall|x: Seq<char>| #[trigger]
            corrected(d, c@).aliases.contains(x) <==> d.aliases.contains(x) || names.contains(x),
        c.entity_type is Some ==> corrected(d, c@).entity_type == c.entity_type->0@,
        c.visibility is Some ==> corrected(d, c@).visibility == c.visibility->0,
{
    corrections_are_wholly_applied(d, c@);
}

} // verus!
