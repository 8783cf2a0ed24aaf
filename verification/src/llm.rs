//! Talking to a language model that proposes entries: what it is asked, how often, and what is made
//! of its answers.
use crate::normalize::{sha1_hex, sha1_text};
use crate::number::{decimal, padded_decimal, write_decimal, write_padded};
use crate::scan::{occurs_at, strip_end, stripped_end};
use crate::segment::{
    numbered, pack_pieces, piece_ranges, pieces_hold_every_segment, possible_overlap, segment_lens,
    segment_lines, segment_spans, segment_text, segments_fit, Segment,
};
use crate::split::{answer_view, chapter_views, Answer, SplitError};
use crate::text::{extend, extend_str, prefix, take_prefix, to_chars, to_text, trim, trimmed};
use crate::types::{entry_views, EntryView, ExtractedEntry};
use vstd::prelude::*;

verus! {

/// How many segments neighbouring pieces share.
pub const PIECE_OVERLAP_SEGS: usize = 1;

/// What the model is told to do.
pub const SYSTEM: &'static str = "你是跑团资料库的切点标注员，不是作者。\n\n正文每行开头的 [nnn] 是框架标注的段号。你只负责指出每个设定条目覆盖的段号范围，禁止输出正文，禁止扩写、改写、总结。\n\n按条目在正文中的顺序输出一个 JSON 对象：\n{\"entries\":[{\"title\":\"短专名\",\"aliases\":[\"口头叫法\"],\"entity_type\":\"npc|location|item|faction|rule|plot\",\"start\":起始段号,\"end\":结束段号}]}\n\n硬性：\n1. start/end 用正文里 [nnn] 的编号（整数），end≥start。条目按顺序衔接，除前言外覆盖全部正文；不要跳段，不要重叠。\n2. 禁止输出 body，框架会按段号从原文剪切。\n3. title 2–16 字，用专名；不要用「第N章」。\n4. entity_type 只能是 npc location item faction rule plot，不确定就省略。\n5. 宁可少切，不要把两个专名糊成一条。\n6. 只输出一个 JSON 对象，不要解释。\n\n示例：\n正文：\n[000] 铁砧堡扼守山口，是防御核心。\n[001] 城主荀岚兼管税收。\n[002] 商队过山口必须缴费。\n输出：\n{\"entries\":[{\"title\":\"铁砧堡\",\"aliases\":[\"山口要塞\"],\"entity_type\":\"location\",\"start\":0,\"end\":0},{\"title\":\"荀岚\",\"aliases\":[\"城主\"],\"entity_type\":\"npc\",\"start\":1,\"end\":2}]}";

// ---------------------------------------------------------------------------------------------
// Configuration
// ---------------------------------------------------------------------------------------------

/// How the model is reached.
#[derive(Debug)]
pub struct LlmConfig {
    pub base_url: String,
    pub api_key: String,
    pub model: String,
    pub timeout_secs: u64,
    pub concurrency: u32,
    pub max_tokens: u32,
    /// How often a failed request is repeated.
    pub retries: u32,
    /// Whether the answer is asked for in JSON mode.
    pub json_mode: bool,
    /// The greatest number of characters of a piece.
    pub piece_chars: usize,
}

/// The address without surrounding white space and without slashes at its end.
pub open spec fn clean_url(s: Seq<char>) -> Seq<char> {
    stripped_end(trimmed(s), "/"@)
}

impl LlmConfig {
    /// Makes a configuration. There is none unless the address, the key and the model are given.
    pub fn from_parts(base_url: &str, api_key: &str, model: &str) -> (r: Option<Self>)
        ensures
            r is Some <==> clean_url(base_url@).len() > 0 && trimmed(api_key@).len() > 0 && trimmed(
                model@,
            ).len() > 0,
            r matches Some(c) ==> {
                &&& c.base_url@ == clean_url(base_url@)
                &&& c.api_key@ == trimmed(api_key@)
                &&& c.model@ == trimmed(model@)
                &&& c.timeout_secs == 60
                &&& c.concurrency == 3
                &&& c.max_tokens == 2048
                &&& c.retries == 1
                &&& !c.json_mode
                &&& c.piece_chars == 3200
            },
    {
        let u = to_chars(base_url);
        let url = strip_end(trim(u.as_slice()), "/");
        let k = to_chars(api_key);
        let key = trim(k.as_slice());
        let m = to_chars(model);
        let name = trim(m.as_slice());
        if url.len() == 0 || key.len() == 0 || name.len() == 0 {
            return None;
        }
        Some(
            LlmConfig {
                base_url: to_text(url),
                api_key: to_text(key),
                model: to_text(name),
                timeout_secs: 60,
                concurrency: 3,
                max_tokens: 2048,
                retries: 1,
                json_mode: false,
                piece_chars: 3200,
            },
        )
    }

    /// The time limit of a request, twenty seconds at least.
    pub fn request_timeout(&self) -> (r: u64)
        ensures
            r == (if self.timeout_secs >= 20 {
                self.timeout_secs
            } else {
                20
            }),
    {
        if self.timeout_secs >= 20 {
            self.timeout_secs
        } else {
            20
        }
    }

    /// The length limit of an answer, 256 tokens at least.
    pub fn answer_tokens(&self) -> (r: u32)
        ensures
            r == (if self.max_tokens >= 256 {
                self.max_tokens
            } else {
                256
            }),
    {
        if self.max_tokens >= 256 {
            self.max_tokens
        } else {
            256
        }
    }

    /// How many requests run side by side for so many jobs: as many as are allowed, no more than
    /// there are jobs, and one at least.
    pub fn workers(&self, jobs: usize) -> (r: usize)
        ensures
            r as int == least(at_least_one(self.concurrency as int), at_least_one(jobs as int)),
    {
        let most: u64 = if self.concurrency >= 1 {
            self.concurrency as u64
        } else {
            1
        };
        let n: u64 = if jobs >= 1 {
            jobs as u64
        } else {
            1
        };
        if most <= n {
            most as usize
        } else {
            n as usize
        }
    }
}

/// A number, or one if it is less.
pub open spec fn at_least_one(n: int) -> int {
    if n >= 1 {
        n
    } else {
        1
    }
}

/// The lesser of two numbers.
pub open spec fn least(a: int, b: int) -> int {
    if a <= b {
        a
    } else {
        b
    }
}

// ---------------------------------------------------------------------------------------------
// Requests
// ---------------------------------------------------------------------------------------------

/// A text of at most `n` characters, with a sign behind it if there was more.
pub open spec fn shortened_text(s: Seq<char>, n: int) -> Seq<char> {
    if s.len() > n {
        prefix(s, n) + "…"@
    } else {
        s
    }
}

/// Cuts a text to `n` characters.
pub fn truncate(s: &str, n: usize) -> (r: String)
    ensures
        r@ == shortened_text(s@, n as int),
{
    let v = to_chars(s);
    let mut out: Vec<char> = Vec::new();
    extend(&mut out, take_prefix(v.as_slice(), n));
    if v.len() > n {
        extend_str(&mut out, "…");
    }
    assert(out@ =~= shortened_text(s@, n as int));
    to_text(out.as_slice())
}

/// What the model is asked for a piece of a chapter.
pub open spec fn question(title: Seq<char>, piece: Seq<char>) -> Seq<char> {
    "章节标题："@ + title + "\n正文（每行开头的 [nnn] 是框架标注的段号）：\n"@ + piece
}

/// What is added when the last answer was of no use.
pub open spec fn complaint(error: Seq<char>) -> Seq<char> {
    "\n\n你上一次的输出无法使用（"@ + error
        + "）。\n请严格按系统约定重新输出：只要一个 JSON 对象，禁止解释、禁止输出正文。"@
}

/// What is done next for a piece.
#[derive(Debug)]
pub enum Attempt {
    /// Ask the model. JSON mode is only tried the first time.
    Ask { prompt: String, allow_json: bool },
    /// Give up, for this reason.
    GiveUp(String),
}

/// Decides what is done for a piece after `made` attempts, the last of which failed with
/// `last_error`. A failed attempt is repeated `retries` times, with the error fed back.
pub fn next_attempt(title: &str, piece: &str, retries: u32, made: u32, last_error: Option<String>) -> (r:
    Attempt)
    ensures
        match r {
            Attempt::Ask { prompt, allow_json } => made <= retries && allow_json == (made == 0)
                && prompt@ == (match last_error {
                Some(e) => question(title@, piece@) + complaint(e@),
                None => question(title@, piece@),
            }),
            Attempt::GiveUp(m) => made > retries && m@ == (match last_error {
                Some(e) => e@,
                None => "LLM 调用失败"@,
            }),
        },
{
    if made > retries {
        return match last_error {
            Some(e) => Attempt::GiveUp(e),
            None => Attempt::GiveUp("LLM 调用失败".to_string()),
        };
    }
    let mut p = to_chars("章节标题：");
    extend_str(&mut p, title);
    extend_str(&mut p, "\n正文（每行开头的 [nnn] 是框架标注的段号）：\n");
    extend_str(&mut p, piece);
    match last_error {
        Some(e) => {
            let ghost before = p@;
            extend_str(&mut p, "\n\n你上一次的输出无法使用（");
            extend_str(&mut p, e.as_str());
            extend_str(
                &mut p,
                "）。\n请严格按系统约定重新输出：只要一个 JSON 对象，禁止解释、禁止输出正文。",
            );
            assert(p@ =~= before + complaint(e@));
        },
        None => {},
    }
    Attempt::Ask { prompt: to_text(p.as_slice()), allow_json: made == 0 }
}

fn numbered_failure(made: u32, what: &str, error: &str) -> (r: String)
    ensures
        r@ == "第"@ + decimal((made + 1) as nat) + what@ + error@,
{
    let mut m = to_chars("第");
    let d = write_decimal(made as u64 + 1);
    extend(&mut m, d.as_slice());
    extend_str(&mut m, what);
    extend_str(&mut m, error);
    to_text(m.as_slice())
}

/// The error of an attempt whose answer could not be read. `made` attempts had been made before.
pub fn unreadable(made: u32, error: &str) -> (r: String)
    ensures
        r@ == "第"@ + decimal((made + 1) as nat) + "次输出解析失败："@ + error@,
{
    numbered_failure(made, "次输出解析失败：", error)
}

/// The error of an attempt that got no answer. `made` attempts had been made before.
pub fn unanswered(made: u32, error: &str) -> (r: String)
    ensures
        r@ == "第"@ + decimal((made + 1) as nat) + "次调用失败："@ + error@,
{
    numbered_failure(made, "次调用失败：", error)
}

/// Whether a request in JSON mode is sent again without it: the server refused it.
pub fn resend_plain(json_mode: bool, status: Option<u16>) -> (r: bool)
    ensures
        r == (json_mode && match status {
            Some(code) => 400 <= code < 500,
            None => false,
        }),
{
    match status {
        Some(code) => json_mode && 400 <= code && code < 500,
        None => false,
    }
}

/// Takes the text of an answer. A blank answer is an error.
pub fn reply_text(content: Option<String>) -> (r: Result<String, SplitError>)
    ensures
        match r {
            Ok(s) => content matches Some(t) && trimmed(t@).len() > 0 && s@ == t@,
            Err(e) => (content matches Some(t) ==> trimmed(t@).len() == 0) && e.message@
                == "LLM 返回空内容"@,
        },
{
    match content {
        Some(t) => {
            let v = to_chars(t.as_str());
            if trim(v.as_slice()).len() == 0 {
                Err(SplitError { message: "LLM 返回空内容".to_string() })
            } else {
                Ok(t)
            }
        },
        None => Err(SplitError { message: "LLM 返回空内容".to_string() }),
    }
}

/// The key under which an answer is kept: it changes with the instructions, the model, the chapter
/// and the piece.
pub fn cache_key(model: &str, title: &str, piece: &str) -> (r: String)
    ensures
        r@ == sha1_text(
            "v3|"@ + sha1_text(SYSTEM@) + "|"@ + model@ + "|"@ + title@ + "|"@ + piece@,
        ),
{
    let mut m = to_chars("v3|");
    let s = sha1_hex(SYSTEM);
    extend_str(&mut m, s.as_str());
    extend_str(&mut m, "|");
    extend_str(&mut m, model);
    extend_str(&mut m, "|");
    extend_str(&mut m, title);
    extend_str(&mut m, "|");
    extend_str(&mut m, piece);
    let all = to_text(m.as_slice());
    sha1_hex(all.as_str())
}

/// The progress that is shown after a piece.
pub fn progress_text(done: u64, total: u64, title: &str, seconds: u64) -> (r: String)
    ensures
        r@ == "LLM 拆条 "@ + decimal(done as nat) + "/"@ + decimal(
            if total >= 1 {
                total as nat
            } else {
                1
            },
        ) + " · 「"@ + shortened_text(title@, 18) + "」· 已用 "@ + decimal((seconds / 60) as nat)
            + " 分 "@ + padded_decimal((seconds % 60) as nat, 2) + " 秒"@,
{
    let mut m = to_chars("LLM 拆条 ");
    let d = write_decimal(done);
    extend(&mut m, d.as_slice());
    extend_str(&mut m, "/");
    let t = write_decimal(
        if total >= 1 {
            total
        } else {
            1
        },
    );
    extend(&mut m, t.as_slice());
    extend_str(&mut m, " · 「");
    let short = truncate(title, 18);
    extend_str(&mut m, short.as_str());
    extend_str(&mut m, "」· 已用 ");
    let min = write_decimal(seconds / 60);
    extend(&mut m, min.as_slice());
    extend_str(&mut m, " 分 ");
    let sec = write_padded(seconds % 60, 2);
    extend(&mut m, sec.as_slice());
    extend_str(&mut m, " 秒");
    to_text(m.as_slice())
}

// ---------------------------------------------------------------------------------------------
// Jobs
// ---------------------------------------------------------------------------------------------

/// A piece of a chapter to be asked about.
#[derive(Debug)]
pub struct Job {
    pub chapter: usize,
    pub title: String,
    pub piece: String,
}

/// A job as a mathematical value.
pub type JobView = (int, Seq<char>, Seq<char>);

/// The values of jobs.
pub open spec fn job_views(v: Seq<Job>) -> Seq<JobView> {
    Seq::new(v.len(), |i: int| (v[i].chapter as int, v[i].title@, v[i].piece@))
}

/// A segment of a text by its number.
pub open spec fn segment_at(body: Seq<char>, k: int) -> Segment {
    let span = segment_spans(body)[k];
    Segment {
        idx: k as usize,
        offset: crate::offsets::byte_pos(body, span.0) as usize,
        len: (crate::offsets::byte_pos(body, span.1) - crate::offsets::byte_pos(body, span.0)) as usize,
    }
}

/// The segments of a text.
pub open spec fn segments_of(body: Seq<char>) -> Seq<Segment> {
    Seq::new(segment_spans(body).len(), |k: int| segment_at(body, k))
}

/// The texts of the pieces of a chapter.
pub open spec fn piece_texts(body: Seq<char>, piece_chars: int) -> Seq<Seq<char>> {
    let segs = segments_of(body);
    let ranges = piece_ranges(
        segment_lens(segs, body),
        0,
        piece_chars,
        possible_overlap(PIECE_OVERLAP_SEGS as nat, segs.len()),
    );
    Seq::new(ranges.len(), |k: int| segment_lines(segs, body, ranges[k].0, ranges[k].1))
}

/// The jobs of one chapter.
pub open spec fn chapter_jobs(ci: int, title: Seq<char>, body: Seq<char>, piece_chars: int) -> Seq<
    JobView,
> {
    let ps = piece_texts(body, piece_chars);
    Seq::new(ps.len(), |k: int| (ci, title, ps[k]))
}

/// The jobs of several chapters, one chapter after the other.
pub open spec fn jobs_of(chapters: Seq<(Seq<char>, Seq<char>)>, piece_chars: int) -> Seq<JobView>
    decreases chapters.len(),
{
    if chapters.len() == 0 {
        Seq::empty()
    } else {
        jobs_of(chapters.drop_last(), piece_chars) + chapter_jobs(
            chapters.len() - 1,
            chapters.last().0,
            chapters.last().1,
            piece_chars,
        )
    }
}

proof fn lemma_segments(segs: Seq<Segment>, body: Seq<char>)
    requires
        numbered(segs, body, segment_spans(body)),
    ensures
        segs == segments_of(body),
{
    assert forall|k: int| 0 <= k < segs.len() implies #[trigger] segs[k] == segment_at(body, k) by {
        segments_fit(segs, body, k);
    }
    assert(segs =~= segments_of(body));
}

fn push_jobs(out: &mut Vec<Job>, ci: usize, title: &str, body: &str, piece_chars: usize)
    ensures
        job_views(final(out)@) == job_views(old(out)@) + chapter_jobs(
            ci as int,
            title@,
            body@,
            piece_chars as int,
        ),
{
    let ghost before = job_views(out@);
    let segs = segment_text(body);
    proof {
        lemma_segments(segs@, body@);
        assert forall|k: int| 0 <= k < segs@.len() implies (#[trigger] segs@[k]).fits(body@) by {
            segments_fit(segs@, body@, k);
        }
    }
    let pieces = pack_pieces(body, segs.as_slice(), piece_chars, PIECE_OVERLAP_SEGS);
    let ghost all = chapter_jobs(ci as int, title@, body@, piece_chars as int);
    let mut k: usize = 0;
    assert(before + all.take(0) =~= before);
    while k < pieces.len()
        invariant
            k <= pieces@.len(),
            pieces@.len() == all.len(),
            all == chapter_jobs(ci as int, title@, body@, piece_chars as int),
            forall|j: int|
                0 <= j < pieces@.len() ==> all[j] == (ci as int, title@, (
                #[trigger] pieces@[j]).text@),
            job_views(out@) == before + all.take(k as int),
        decreases pieces@.len() - k,
    {
        let ghost now = job_views(out@);
        let t = to_chars(title);
        let job = Job { chapter: ci, title: to_text(t.as_slice()), piece: pieces[k].text.clone() };
        out.push(job);
        proof {
            assert(job_views(out@) =~= now.push(all[k as int]));
            assert(now.push(all[k as int]) =~= before + all.take(k + 1));
        }
        k += 1;
    }
    assert(all.take(k as int) =~= all);
}

/// Lists the pieces of several chapters.
pub fn make_jobs(chapters: &[(String, String)], piece_chars: usize) -> (r: Vec<Job>)
    ensures
        job_views(r@) == jobs_of(chapter_views(chapters@), piece_chars as int),
{
    let ghost all = chapter_views(chapters@);
    let mut out: Vec<Job> = Vec::new();
    assert(job_views(out@) =~= Seq::<JobView>::empty());
    let mut i: usize = 0;
    while i < chapters.len()
        invariant
            i <= chapters@.len(),
            all == chapter_views(chapters@),
            job_views(out@) == jobs_of(all.take(i as int), piece_chars as int),
        decreases chapters@.len() - i,
    {
        proof {
            assert(all.take(i + 1).drop_last() =~= all.take(i as int));
            assert(all.take(i + 1).last() == all[i as int]);
        }
        let c = &chapters[i];
        push_jobs(&mut out, i, c.0.as_str(), c.1.as_str(), piece_chars);
        i += 1;
    }
    assert(all.take(i as int) =~= all);
    out
}

// ---------------------------------------------------------------------------------------------
// Answers
// ---------------------------------------------------------------------------------------------

/// What came of a job, with its chapter.
pub type Outcome = (usize, Result<Vec<ExtractedEntry>, SplitError>);

/// The values of outcomes.
pub open spec fn outcome_views(v: Seq<Outcome>) -> Seq<(int, Answer)> {
    Seq::new(v.len(), |i: int| (v[i].0 as int, answer_view(v[i].1)))
}

/// The entries proposed for a chapter, in the order of its pieces.
pub open spec fn proposals_for(v: Seq<(int, Answer)>, ci: int) -> Seq<EntryView>
    decreases v.len(),
{
    if v.len() == 0 {
        Seq::empty()
    } else {
        let before = proposals_for(v.drop_last(), ci);
        match v.last() {
            (k, Answer::Proposals(ps)) if k == ci => before + ps,
            _ => before,
        }
    }
}

/// The first failure on a chapter.
pub open spec fn first_failure_for(v: Seq<(int, Answer)>, ci: int) -> Option<Seq<char>>
    decreases v.len(),
{
    if v.len() == 0 {
        None
    } else {
        match first_failure_for(v.drop_last(), ci) {
            Some(m) => Some(m),
            None => match v.last() {
                (k, Answer::Failure(m)) if k == ci => Some(m),
                _ => None,
            },
        }
    }
}

/// The last failure on a chapter.
pub open spec fn last_failure_for(v: Seq<(int, Answer)>, ci: int) -> Option<Seq<char>>
    decreases v.len(),
{
    if v.len() == 0 {
        None
    } else {
        match v.last() {
            (k, Answer::Failure(m)) if k == ci => Some(m),
            _ => last_failure_for(v.drop_last(), ci),
        }
    }
}

/// The answer for a chapter: the entries proposed for it; a failure if there is none.
pub open spec fn chapter_answer(entries: Seq<EntryView>, failure: Option<Seq<char>>) -> Answer {
    if entries.len() > 0 {
        Answer::Proposals(entries)
    } else {
        match failure {
            Some(m) => Answer::Failure(m),
            None => Answer::Failure("LLM 未拆出任何条目"@),
        }
    }
}

fn append_entries(out: &mut Vec<ExtractedEntry>, more: &Vec<ExtractedEntry>)
    ensures
        entry_views(final(out)@) == entry_views(old(out)@) + entry_views(more@),
{
    let ghost before = entry_views(out@);
    let ghost all = entry_views(more@);
    let mut i: usize = 0;
    assert(before + all.take(0) =~= before);
    while i < more.len()
        invariant
            i <= more@.len(),
            all == entry_views(more@),
            entry_views(out@) == before + all.take(i as int),
        decreases more@.len() - i,
    {
        let ghost now = entry_views(out@);
        let e = more[i].clone();
        out.push(e);
        proof {
            assert(entry_views(out@) =~= now.push(e@));
            assert(now.push(all[i as int]) =~= before + all.take(i + 1));
        }
        i += 1;
    }
    assert(all.take(i as int) =~= all);
}

/// Puts together what came of the pieces of one chapter. Where nothing was proposed the failure is
/// the first one if `first`, else the last one.
pub fn answer_for(outcomes: &Vec<Outcome>, ci: usize, first: bool) -> (r: Result<
    Vec<ExtractedEntry>,
    SplitError,
>)
    ensures
        ({
            let all = outcome_views(outcomes@);
            answer_view(r) == chapter_answer(
                proposals_for(all, ci as int),
                if first {
                    first_failure_for(all, ci as int)
                } else {
                    last_failure_for(all, ci as int)
                },
            )
        }),
{
    let ghost all = outcome_views(outcomes@);
    let mut entries: Vec<ExtractedEntry> = Vec::new();
    let mut head: Option<String> = None;
    let mut last: Option<String> = None;
    assert(entry_views(entries@) =~= Seq::<EntryView>::empty());
    let mut i: usize = 0;
    while i < outcomes.len()
        invariant
            i <= outcomes@.len(),
            all == outcome_views(outcomes@),
            entry_views(entries@) == proposals_for(all.take(i as int), ci as int),
            crate::db::opt_text(head) == first_failure_for(all.take(i as int), ci as int),
            crate::db::opt_text(last) == last_failure_for(all.take(i as int), ci as int),
        decreases outcomes@.len() - i,
    {
        proof {
            assert(all.take(i + 1).drop_last() =~= all.take(i as int));
            assert(all.take(i + 1).last() == all[i as int]);
        }
        if outcomes[i].0 == ci {
            match &outcomes[i].1 {
                Ok(v) => {
                    append_entries(&mut entries, v);
                },
                Err(e) => {
                    if head.is_none() {
                        head = Some(e.message.clone());
                    }
                    last = Some(e.message.clone());
                },
            }
        }
        i += 1;
    }
    assert(all.take(i as int) =~= all);
    assert(entry_views(entries@).len() == entries@.len());
    if entries.len() > 0 {
        return Ok(entries);
    }
    let failure = if first {
        head
    } else {
        last
    };
    match failure {
        Some(m) => Err(SplitError { message: m }),
        None => Err(SplitError { message: "LLM 未拆出任何条目".to_string() }),
    }
}

/// Puts together what came of all pieces of `chapters` chapters. Where there were no pieces at all
/// nothing is proposed for any chapter.
pub fn gather_answers(outcomes: &Vec<Outcome>, chapters: usize) -> (r: Vec<
    Result<Vec<ExtractedEntry>, SplitError>,
>)
    ensures
        r@.len() == chapters,
        forall|ci: int|
            0 <= ci < chapters ==> answer_view(#[trigger] r@[ci]) == (if outcomes@.len() == 0 {
                Answer::Proposals(Seq::empty())
            } else {
                chapter_answer(
                    proposals_for(outcome_views(outcomes@), ci),
                    first_failure_for(outcome_views(outcomes@), ci),
                )
            }),
{
    let mut out: Vec<Result<Vec<ExtractedEntry>, SplitError>> = Vec::new();
    let mut i: usize = 0;
    while i < chapters
        invariant
            i <= chapters,
            out@.len() == i,
            forall|ci: int|
                0 <= ci < i ==> answer_view(#[trigger] out@[ci]) == (if outcomes@.len() == 0 {
                    Answer::Proposals(Seq::empty())
                } else {
                    chapter_answer(
                        proposals_for(outcome_views(outcomes@), ci),
                        first_failure_for(outcome_views(outcomes@), ci),
                    )
                }),
        decreases chapters - i,
    {
        if outcomes.len() == 0 {
            let none: Vec<ExtractedEntry> = Vec::new();
            assert(entry_views(none@) =~= Seq::<EntryView>::empty());
            out.push(Ok(none));
        } else {
            out.push(answer_for(outcomes, i, true));
        }
        i += 1;
    }
    out
}

// ---------------------------------------------------------------------------------------------
// Nothing that was asked or answered is lost
// ---------------------------------------------------------------------------------------------

/// The entries proposed for a chapter are those of its pieces, one piece after the other: of two
/// lists of outcomes put together, those of the first and behind them those of the second. A piece
/// of the chapter adds all it proposes; a failure, or a piece of another chapter, adds nothing.
pub proof fn proposals_of_pieces_add_up(a: Seq<(int, Answer)>, b: Seq<(int, Answer)>, ci: int)
    ensures
        proposals_for(a + b, ci) == proposals_for(a, ci) + proposals_for(b, ci),
        forall|ps: Seq<EntryView>| #[trigger]
            proposals_for(seq![(ci, Answer::Proposals(ps))], ci) == ps,
        forall|k: int, x: Answer|
            k != ci ==> #[trigger] proposals_for(seq![(k, x)], ci) == Seq::<EntryView>::empty(),
        forall|m: Seq<char>| #[trigger]
            proposals_for(seq![(ci, Answer::Failure(m))], ci) == Seq::<EntryView>::empty(),
    decreases b.len(),
{
    let none = Seq::<EntryView>::empty();
    if b.len() == 0 {
        assert(a + b =~= a);
        assert(proposals_for(a, ci) + none =~= proposals_for(a, ci));
    } else {
        proposals_of_pieces_add_up(a, b.drop_last(), ci);
        assert((a + b).drop_last() =~= a + b.drop_last());
        assert((a + b).last() == b.last());
        match b.last() {
            (k, Answer::Proposals(ps)) => {
                if k == ci {
                    assert(proposals_for(a, ci) + proposals_for(b.drop_last(), ci) + ps
                        =~= proposals_for(a, ci) + (proposals_for(b.drop_last(), ci) + ps));
                }
            },
            _ => {},
        }
    }
    assert forall|ps: Seq<EntryView>| #[trigger]
        proposals_for(seq![(ci, Answer::Proposals(ps))], ci) == ps by {
        let one = seq![(ci, Answer::Proposals(ps))];
        assert(one.drop_last() =~= Seq::<(int, Answer)>::empty());
        assert(proposals_for(one.drop_last(), ci) == none);
        assert(one.last() == (ci, Answer::Proposals(ps)));
        assert(none + ps =~= ps);
    }
    assert forall|k: int, x: Answer| k != ci implies #[trigger] proposals_for(seq![(k, x)], ci)
        == none by {
        let one = seq![(k, x)];
        assert(one.drop_last() =~= Seq::<(int, Answer)>::empty());
        assert(proposals_for(one.drop_last(), ci) == none);
        assert(one.last() == (k, x));
    }
    assert forall|m: Seq<char>| #[trigger] proposals_for(seq![(ci, Answer::Failure(m))], ci)
        == none by {
        let one = seq![(ci, Answer::Failure(m))];
        assert(one.drop_last() =~= Seq::<(int, Answer)>::empty());
        assert(proposals_for(one.drop_last(), ci) == none);
        assert(one.last() == (ci, Answer::Failure(m)));
    }
}

/// Where a piece of a chapter was answered, its entries are in the answer for the chapter, whatever
/// became of the other pieces.
pub proof fn answered_pieces_reach_the_chapter(
    v: Seq<(int, Answer)>,
    ci: int,
    i: int,
    ps: Seq<EntryView>,
    failure: Option<Seq<char>>,
)
    requires
        0 <= i < v.len(),
        v[i] == (ci, Answer::Proposals(ps)),
        ps.len() > 0,
    ensures
        chapter_answer(proposals_for(v, ci), failure) matches Answer::Proposals(all) && forall|k: int|
            0 <= k < ps.len() ==> all.contains(#[trigger] ps[k]),
{
    let a = v.take(i);
    let one = seq![v[i]];
    let b = v.skip(i + 1);
    assert(v =~= (a + one) + b);
    proposals_of_pieces_add_up(a + one, b, ci);
    proposals_of_pieces_add_up(a, one, ci);
    assert(proposals_for(one, ci) == ps);
    let all = proposals_for(v, ci);
    let n = proposals_for(a, ci).len() as int;
    assert forall|k: int| 0 <= k < ps.len() implies all.contains(#[trigger] ps[k]) by {
        assert(all[n + k] == ps[k]);
    }
    assert(all[n] == ps[0]);
}

/// Where nothing was proposed for a chapter, the reason is that of its first piece that failed.
pub proof fn the_first_failure_counts(v: Seq<(int, Answer)>, ci: int, i: int, m: Seq<char>)
    requires
        0 <= i < v.len(),
        v[i] == (ci, Answer::Failure(m)),
        forall|j: int| 0 <= j < i ==> !((#[trigger] v[j]).0 == ci && v[j].1 is Failure),
    ensures
        first_failure_for(v, ci) == Some(m),
    decreases v.len(),
{
    let head = v.drop_last();
    if i < head.len() {
        assert forall|j: int| 0 <= j < i implies !((#[trigger] head[j]).0 == ci && head[j].1
            is Failure) by {
            assert(v[j] == head[j]);
        }
        the_first_failure_counts(head, ci, i, m);
    } else {
        lemma_no_failure(head, ci);
    }
}

proof fn lemma_no_failure(v: Seq<(int, Answer)>, ci: int)
    requires
        forall|j: int| 0 <= j < v.len() ==> !((#[trigger] v[j]).0 == ci && v[j].1 is Failure),
    ensures
        first_failure_for(v, ci) is None,
    decreases v.len(),
{
    if v.len() > 0 {
        let head = v.drop_last();
        assert forall|j: int| 0 <= j < head.len() implies !((#[trigger] head[j]).0 == ci && head[j].1
            is Failure) by {
            assert(v[j] == head[j]);
        }
        lemma_no_failure(head, ci);
        assert(v[v.len() - 1] == v.last());
    }
}

proof fn lemma_jobs(chapters: Seq<(Seq<char>, Seq<char>)>, piece_chars: int, ci: int, k: int)
    requires
        0 <= ci < chapters.len(),
        0 <= k < piece_texts(chapters[ci].1, piece_chars).len(),
    ensures
        jobs_of(chapters, piece_chars).contains(
            (ci, chapters[ci].0, piece_texts(chapters[ci].1, piece_chars)[k]),
        ),
    decreases chapters.len(),
{
    let head = chapters.drop_last();
    let before = jobs_of(head, piece_chars);
    let more = chapter_jobs(
        chapters.len() - 1,
        chapters.last().0,
        chapters.last().1,
        piece_chars,
    );
    let now = jobs_of(chapters, piece_chars);
    let job = (ci, chapters[ci].0, piece_texts(chapters[ci].1, piece_chars)[k]);
    if ci < head.len() {
        lemma_jobs(head, piece_chars, ci, k);
        let i = choose|i: int| 0 <= i < before.len() && before[i] == job;
        assert(now[i] == job);
    } else {
        assert(more[k] == job);
        assert(now[before.len() + k] == job);
    }
}

/// A segment as the model sees it: its number in brackets, and its text on the same line.
pub open spec fn numbered_line(n: nat, text: Seq<char>) -> Seq<char> {
    "["@ + padded_decimal(n, 3) + "] "@ + trimmed(text) + "\n"@
}

proof fn lemma_line_in_lines(segs: Seq<Segment>, body: Seq<char>, a: int, b: int, n: int)
    requires
        a <= n < b,
    ensures
        exists|i: int| #[trigger]
            occurs_at(
                segment_lines(segs, body, a, b),
                numbered_line(segs[n].idx as nat, segs[n].text_in(body)),
                i,
            ),
    decreases b - a,
{
    let all = segment_lines(segs, body, a, b);
    let before = segment_lines(segs, body, a, b - 1);
    let t = numbered_line(segs[n].idx as nat, segs[n].text_in(body));
    if n == b - 1 {
        let at = before.len() as int;
        assert(all.subrange(at, at + t.len()) =~= t);
        assert(occurs_at(all, t, at));
    } else {
        lemma_line_in_lines(segs, body, a, b - 1, n);
        let i = choose|i: int| #[trigger] occurs_at(before, t, i);
        assert(all.subrange(i, i + t.len()) =~= before.subrange(i, i + t.len()));
        assert(occurs_at(all, t, i));
    }
}

proof fn lemma_in_some_range(
    lens: Seq<int>,
    max: int,
    overlap: nat,
    n: int,
    k: int,
) -> (r: int)
    requires
        0 <= n < lens.len(),
        0 <= k < piece_ranges(lens, 0, max, overlap).len(),
        piece_ranges(lens, 0, max, overlap)[k].0 <= n,
    ensures
        0 <= r < piece_ranges(lens, 0, max, overlap).len(),
        piece_ranges(lens, 0, max, overlap)[r].0 <= n < piece_ranges(lens, 0, max, overlap)[r].1,
    decreases piece_ranges(lens, 0, max, overlap).len() - k,
{
    let ranges = piece_ranges(lens, 0, max, overlap);
    pieces_hold_every_segment(lens, 0, max, overlap);
    if n < ranges[k].1 {
        k
    } else {
        assert(k < ranges.len() - 1);
        assert(ranges[k].0 < ranges[k + 1].0 <= ranges[k].1);
        lemma_in_some_range(lens, max, overlap, n, k + 1)
    }
}

/// The model is asked about all of every chapter: each segment of each chapter stands, with its
/// number, in a piece that is asked about under the title of its chapter.
pub proof fn every_segment_is_asked_about(
    chapters: Seq<(Seq<char>, Seq<char>)>,
    piece_chars: int,
    ci: int,
    n: int,
)
    requires
        0 <= ci < chapters.len(),
        0 <= n < segment_spans(chapters[ci].1).len(),
        n <= usize::MAX,
    ensures
        exists|piece: Seq<char>|
            {
                &&& #[trigger] jobs_of(chapters, piece_chars).contains((ci, chapters[ci].0, piece))
                &&& exists|i: int| #[trigger]
                    occurs_at(
                        piece,
                        numbered_line(
                            n as nat,
                            segments_of(chapters[ci].1)[n].text_in(chapters[ci].1),
                        ),
                        i,
                    )
            },
{
    let body = chapters[ci].1;
    let segs = segments_of(body);
    let lens = segment_lens(segs, body);
    let overlap = possible_overlap(PIECE_OVERLAP_SEGS as nat, segs.len());
    let ranges = piece_ranges(lens, 0, piece_chars, overlap);
    pieces_hold_every_segment(lens, 0, piece_chars, overlap);
    assert(ranges[0].0 == 0);
    let r = lemma_in_some_range(lens, piece_chars, overlap, n, 0);
    lemma_line_in_lines(segs, body, ranges[r].0, ranges[r].1, n);
    lemma_jobs(chapters, piece_chars, ci, r);
    let piece = piece_texts(body, piece_chars)[r];
    assert(segs[n].idx == n);
    let i = choose|i: int| #[trigger]
        occurs_at(
            segment_lines(segs, body, ranges[r].0, ranges[r].1),
            numbered_line(segs[n].idx as nat, segs[n].text_in(body)),
            i,
        );
    assert(occurs_at(piece, numbered_line(n as nat, segments_of(body)[n].text_in(body)), i));
    assert(jobs_of(chapters, piece_chars).contains((ci, chapters[ci].0, piece)));
}

} // verus!
