//! Pinyin readings of Chinese text, for searching by sound.
use crate::normalize::{hanzi, hanzi_chars, hanzi_of, is_hanzi};
use crate::offsets::{byte_len, char_width};
use crate::order::{ascending, insert_text, sorted_texts, sorted_texts_ascend, with_text};
use crate::outside::{pinyin_all, pinyin_main, table_main_reading, table_readings};
use crate::scan::{contains_char, has_char, join, joined, replace, replaced};
use crate::text::{copy, rows, texts, to_chars, to_text, to_texts};
use vstd::prelude::*;

verus! {

/// The greatest number of readings of a phrase.
pub const CARTESIAN_CAP: usize = 16;

/// The texts of rows of texts.
pub open spec fn row_texts(v: Seq<Vec<Vec<char>>>) -> Seq<Seq<Seq<char>>> {
    Seq::new(v.len(), |i: int| rows(v[i]@))
}

// ---------------------------------------------------------------------------------------------
// Readings of a character
// ---------------------------------------------------------------------------------------------

/// The readings out of a table with all readings, or else with the main reading.
pub open spec fn readings_from(all: Seq<Seq<char>>, main: Option<Seq<char>>) -> Seq<Seq<char>> {
    if all.len() == 0 {
        match main {
            Some(r) => seq![r],
            None => Seq::empty(),
        }
    } else {
        sorted_texts(all)
    }
}

/// All readings of a character without tones, in ascending order, each once.
pub open spec fn readings_of(c: char) -> Seq<Seq<char>> {
    readings_from(table_readings(c), table_main_reading(c))
}

/// Sorts the readings of a character; where there is none the main reading is taken.
pub fn sort_readings(all: &Vec<String>, main: Option<String>) -> (r: Vec<String>)
    ensures
        texts(r@) == readings_from(
            texts(all@),
            match main {
                Some(s) => Some(s@),
                None => None,
            },
        ),
{
    let ghost names = texts(all@);
    if all.len() == 0 {
        let mut out: Vec<String> = Vec::new();
        match main {
            Some(s) => {
                out.push(s);
                assert(texts(out@) =~= seq![s@]);
            },
            None => {
                assert(texts(out@) =~= Seq::<Seq<char>>::empty());
            },
        }
        return out;
    }
    let mut out: Vec<Vec<char>> = Vec::new();
    assert(rows(out@) =~= Seq::<Seq<char>>::empty());
    let mut i: usize = 0;
    while i < all.len()
        invariant
            i <= all@.len(),
            names == texts(all@),
            rows(out@) == sorted_texts(names.take(i as int)),
        decreases all@.len() - i,
    {
        proof {
            assert(names.take(i + 1).drop_last() =~= names.take(i as int));
            assert(names.take(i + 1).last() == all@[i as int]@);
        }
        let v = to_chars(all[i].as_str());
        insert_text(&mut out, v.as_slice());
        i += 1;
    }
    assert(names.take(i as int) =~= names);
    to_texts(&out)
}

/// All readings of a character without tones.
pub fn char_readings(ch: char) -> (r: Vec<String>)
    ensures
        texts(r@) == readings_of(ch),
{
    let all = pinyin_all(ch);
    let main = pinyin_main(ch);
    sort_readings(&all, main)
}

// ---------------------------------------------------------------------------------------------
// Readings of a phrase
// ---------------------------------------------------------------------------------------------

/// The syllables that a character may stand for; a question mark where no reading is known.
pub open spec fn syllables(c: char) -> Seq<Seq<char>> {
    if readings_of(c).len() == 0 {
        seq!["?"@]
    } else {
        readings_of(c)
    }
}

/// Each row of `acc` continued by each item of `set`, the first row first.
pub open spec fn products(acc: Seq<Seq<Seq<char>>>, set: Seq<Seq<char>>) -> Seq<Seq<Seq<char>>>
    decreases acc.len(),
{
    if acc.len() == 0 {
        Seq::empty()
    } else {
        products(acc.drop_last(), set) + Seq::new(set.len(), |i: int| acc.last().push(set[i]))
    }
}

/// The first sixteen of a list of rows.
pub open spec fn capped(v: Seq<Seq<Seq<char>>>) -> Seq<Seq<Seq<char>>> {
    if v.len() <= CARTESIAN_CAP {
        v
    } else {
        v.take(CARTESIAN_CAP as int)
    }
}

/// Whether one of the sets is empty.
pub open spec fn has_empty(sets: Seq<Seq<Seq<char>>>) -> bool {
    exists|i: int| 0 <= i < sets.len() && (#[trigger] sets[i]).len() == 0
}

/// The ways to choose one item of each set, sixteen at most at each step. Only the sets before the
/// first empty one count.
pub open spec fn combinations(sets: Seq<Seq<Seq<char>>>) -> Seq<Seq<Seq<char>>>
    decreases sets.len(),
{
    if sets.len() == 0 {
        seq![Seq::<Seq<char>>::empty()]
    } else if has_empty(sets) {
        combinations(sets.drop_last())
    } else {
        capped(products(combinations(sets.drop_last()), sets.last()))
    }
}

/// The first characters of syllables.
pub open spec fn initials(combo: Seq<Seq<char>>) -> Seq<char>
    decreases combo.len(),
{
    if combo.len() == 0 {
        Seq::empty()
    } else if combo.last().len() == 0 {
        initials(combo.drop_last())
    } else {
        initials(combo.drop_last()).push(combo.last()[0])
    }
}

/// The spellings of one choice of syllables: separated by blanks, and by initials alone where that
/// takes two bytes at least.
pub open spec fn spellings(combo: Seq<Seq<char>>) -> Seq<Seq<char>> {
    if byte_len(initials(combo)) >= 2 {
        seq![joined(combo, " "@), initials(combo)]
    } else {
        seq![joined(combo, " "@)]
    }
}

/// The spellings of all choices of syllables.
pub open spec fn all_spellings(combos: Seq<Seq<Seq<char>>>) -> Seq<Seq<char>>
    decreases combos.len(),
{
    if combos.len() == 0 {
        Seq::empty()
    } else {
        all_spellings(combos.drop_last()) + spellings(combos.last())
    }
}

/// The spellings that sets of syllables make, in ascending order, each once.
pub open spec fn spelled(sets: Seq<Seq<Seq<char>>>) -> Seq<Seq<char>> {
    sorted_texts(all_spellings(combinations(sets)))
}

/// The spellings of the Chinese characters of a text.
pub open spec fn variants_of(text: Seq<char>) -> Seq<Seq<char>> {
    let cs = hanzi_of(text);
    if cs.len() == 0 {
        Seq::empty()
    } else {
        spelled(Seq::new(cs.len(), |i: int| syllables(cs[i])))
    }
}

proof fn lemma_products_len(acc: Seq<Seq<Seq<char>>>, set: Seq<Seq<char>>, k: int)
    requires
        0 <= k <= acc.len(),
    ensures
        products(acc.take(k), set).len() <= products(acc, set).len(),
        products(acc.take(k), set) == products(acc, set).take(
            products(acc.take(k), set).len() as int,
        ),
    decreases acc.len() - k,
{
    if k == acc.len() {
        assert(acc.take(k) =~= acc);
        assert(products(acc, set).take(products(acc, set).len() as int) =~= products(acc, set));
    } else {
        lemma_products_len(acc, set, k + 1);
        let next = acc.take(k + 1);
        assert(next.drop_last() =~= acc.take(k));
        let p = products(acc.take(k), set);
        let q = products(next, set);
        assert(q.take(p.len() as int) =~= p);
        assert(products(acc, set).take(q.len() as int).take(p.len() as int) =~= products(
            acc,
            set,
        ).take(p.len() as int));
    }
}

proof fn lemma_up_to_empty(sets: Seq<Seq<Seq<char>>>, i: int)
    requires
        0 <= i < sets.len(),
        sets[i].len() == 0,
    ensures
        combinations(sets) == combinations(sets.take(i)),
    decreases sets.len(),
{
    assert(has_empty(sets));
    let front = sets.drop_last();
    if i < front.len() {
        assert(front[i] == sets[i]);
        lemma_up_to_empty(front, i);
        assert(front.take(i) =~= sets.take(i));
    } else {
        assert(sets.take(i) =~= front);
    }
}

fn copy_row(row: &Vec<Vec<char>>) -> (r: Vec<Vec<char>>)
    ensures
        rows(r@) == rows(row@),
{
    let mut out: Vec<Vec<char>> = Vec::new();
    let mut i: usize = 0;
    while i < row.len()
        invariant
            i <= row@.len(),
            out@.len() == i,
            forall|j: int| 0 <= j < i ==> (#[trigger] out@[j])@ == row@[j]@,
        decreases row@.len() - i,
    {
        out.push(copy(row[i].as_slice()));
        i += 1;
    }
    assert(rows(out@) =~= rows(row@));
    out
}

fn multiply(acc: &Vec<Vec<Vec<char>>>, set: &Vec<Vec<char>>) -> (r: Vec<Vec<Vec<char>>>)
    ensures
        row_texts(r@) == capped(products(row_texts(acc@), rows(set@))),
{
    let ghost left = row_texts(acc@);
    let ghost right = rows(set@);
    let ghost whole = products(left, right);
    let mut out: Vec<Vec<Vec<char>>> = Vec::new();
    let mut i: usize = 0;
    assert(row_texts(out@) =~= whole.take(0));
    assert(left.take(0) =~= Seq::<Seq<Seq<char>>>::empty());
    while i < acc.len() && out.len() < CARTESIAN_CAP
        invariant
            i <= acc@.len(),
            out@.len() <= CARTESIAN_CAP,
            left == row_texts(acc@),
            right == rows(set@),
            whole == products(left, right),
            out@.len() <= whole.len(),
            row_texts(out@) == whole.take(out@.len() as int),
            out@.len() < CARTESIAN_CAP ==> out@.len() == products(left.take(i as int), right).len(),
        decreases acc@.len() - i,
    {
        let ghost base = out@.len() as int;
        let mut j: usize = 0;
        proof {
            assert(left.take(i + 1).drop_last() =~= left.take(i as int));
            assert(left.take(i + 1).last() == rows(acc@[i as int]@));
            lemma_products_len(left, right, i + 1);
            lemma_products_len(left, right, i as int);
        }
        let ghost here = products(left.take(i + 1), right);
        while j < set.len() && out.len() < CARTESIAN_CAP
            invariant
                i < acc@.len(),
                j <= set@.len(),
                base + j == out@.len(),
                out@.len() <= CARTESIAN_CAP,
                left == row_texts(acc@),
                right == rows(set@),
                whole == products(left, right),
                here == products(left.take(i + 1), right),
                here == products(left.take(i as int), right) + Seq::new(
                    right.len(),
                    |k: int| rows(acc@[i as int]@).push(right[k]),
                ),
                base == products(left.take(i as int), right).len(),
                here.len() == base + right.len(),
                here.len() <= whole.len(),
                here == whole.take(here.len() as int),
                out@.len() <= here.len(),
                row_texts(out@) == whole.take(out@.len() as int),
            decreases set@.len() - j,
        {
            let ghost before = row_texts(out@);
            let ghost n = out@.len() as int;
            let mut row = copy_row(&acc[i]);
            let ghost was = rows(row@);
            row.push(copy(set[j].as_slice()));
            proof {
                assert(rows(row@) =~= was.push(set@[j as int]@));
                assert(right[j as int] == set@[j as int]@);
                assert(here[n] == rows(acc@[i as int]@).push(right[j as int]));
                assert(whole.take(here.len() as int)[n] == whole[n]);
            }
            out.push(row);
            proof {
                assert(row_texts(out@) =~= before.push(rows(row@)));
                assert(whole.take(n + 1) =~= whole.take(n).push(whole[n]));
            }
            j += 1;
        }
        i += 1;
    }
    proof {
        assert(left.take(acc@.len() as int) =~= left);
        if out@.len() < CARTESIAN_CAP {
            assert(out@.len() == whole.len());
            assert(whole.take(out@.len() as int) =~= whole);
        } else if whole.len() == CARTESIAN_CAP {
            assert(whole.take(out@.len() as int) =~= whole);
        }
    }
    out
}

fn write_initials(combo: &Vec<Vec<char>>) -> (r: Vec<char>)
    ensures
        r@ == initials(rows(combo@)),
{
    let ghost all = rows(combo@);
    let mut out: Vec<char> = Vec::new();
    let mut i: usize = 0;
    while i < combo.len()
        invariant
            i <= combo@.len(),
            all == rows(combo@),
            out@ == initials(all.take(i as int)),
        decreases combo@.len() - i,
    {
        proof {
            assert(all.take(i + 1).drop_last() =~= all.take(i as int));
            assert(all.take(i + 1).last() == combo@[i as int]@);
        }
        if combo[i].len() > 0 {
            out.push(combo[i][0]);
        }
        i += 1;
    }
    assert(all.take(i as int) =~= all);
    out
}

/// Whether a text takes two bytes at least in UTF-8.
fn two_bytes(v: &[char]) -> (r: bool)
    ensures
        r == (byte_len(v@) >= 2),
{
    if v.len() == 0 {
        return false;
    }
    proof {
        crate::offsets::lemma_byte_pos_end(v@);
        crate::offsets::lemma_byte_pos_step(v@, 0, v@.len() as int);
        assert(v@.drop_last().len() == 0 ==> byte_len(v@.drop_last()) == 0);
    }
    v.len() >= 2 || char_width(v[0]) >= 2
}

fn spell(combo: &Vec<Vec<char>>, out: &mut Vec<Vec<char>>, Ghost(before): Ghost<Seq<Seq<char>>>)
    requires
        rows(old(out)@) == sorted_texts(before),
    ensures
        rows(final(out)@) == sorted_texts(before + spellings(rows(combo@))),
{
    let full = join(combo, " ");
    let ghost mid = before.push(full@);
    insert_text(out, full.as_slice());
    proof {
        assert(mid.drop_last() =~= before);
        assert(mid.last() == full@);
        assert(rows(out@) == sorted_texts(mid));
    }
    let short = write_initials(combo);
    if two_bytes(short.as_slice()) {
        insert_text(out, short.as_slice());
        proof {
            let end = mid.push(short@);
            assert(end.drop_last() =~= mid);
            assert(end.last() == short@);
            assert(rows(out@) == sorted_texts(end));
            assert(end =~= before + spellings(rows(combo@)));
        }
    } else {
        assert(mid =~= before + spellings(rows(combo@)));
    }
}

/// Spells sets of syllables: every choice of one syllable of each set, sixteen at most. The sets
/// from the first empty one on are left out.
pub fn spell_all(sets: &Vec<Vec<Vec<char>>>) -> (r: Vec<String>)
    ensures
        texts(r@) == spelled(row_texts(sets@)),
{
    let ghost all = row_texts(sets@);
    let mut acc: Vec<Vec<Vec<char>>> = Vec::new();
    let empty: Vec<Vec<char>> = Vec::new();
    assert(rows(empty@) =~= Seq::<Seq<char>>::empty());
    acc.push(empty);
    assert(row_texts(acc@) =~= seq![Seq::<Seq<char>>::empty()]);
    let mut i: usize = 0;
    while i < sets.len() && sets[i].len() > 0
        invariant
            i <= sets@.len(),
            all == row_texts(sets@),
            forall|j: int| 0 <= j < i ==> (#[trigger] all[j]).len() > 0,
            row_texts(acc@) == combinations(all.take(i as int)),
        decreases sets@.len() - i,
    {
        proof {
            assert(all.take(i + 1).drop_last() =~= all.take(i as int));
            assert(all.take(i + 1).last() == rows(sets@[i as int]@));
            assert(all[i as int].len() == sets@[i as int]@.len());
            assert(!has_empty(all.take(i + 1)));
        }
        acc = multiply(&acc, &sets[i]);
        i += 1;
    }
    proof {
        if i < sets@.len() {
            assert(all[i as int].len() == sets@[i as int]@.len());
            lemma_up_to_empty(all, i as int);
        } else {
            assert(all.take(i as int) =~= all);
        }
    }
    let ghost combos = row_texts(acc@);
    let mut out: Vec<Vec<char>> = Vec::new();
    assert(rows(out@) =~= Seq::<Seq<char>>::empty());
    let mut k: usize = 0;
    while k < acc.len()
        invariant
            k <= acc@.len(),
            combos == row_texts(acc@),
            rows(out@) == sorted_texts(all_spellings(combos.take(k as int))),
        decreases acc@.len() - k,
    {
        proof {
            assert(combos.take(k + 1).drop_last() =~= combos.take(k as int));
            assert(combos.take(k + 1).last() == rows(acc@[k as int]@));
        }
        spell(&acc[k], &mut out, Ghost(all_spellings(combos.take(k as int))));
        k += 1;
    }
    assert(combos.take(k as int) =~= combos);
    to_texts(&out)
}

fn find_syllables(c: char) -> (r: Vec<Vec<char>>)
    ensures
        rows(r@) == syllables(c),
{
    let names = char_readings(c);
    assert(texts(names@).len() == names@.len());
    let mut out: Vec<Vec<char>> = Vec::new();
    if names.len() == 0 {
        out.push(to_chars("?"));
        assert(rows(out@) =~= seq!["?"@]);
        return out;
    }
    let mut i: usize = 0;
    while i < names.len()
        invariant
            i <= names@.len(),
            out@.len() == i,
            forall|j: int| 0 <= j < i ==> (#[trigger] out@[j])@ == names@[j]@,
        decreases names@.len() - i,
    {
        out.push(to_chars(names[i].as_str()));
        i += 1;
    }
    assert(rows(out@) =~= texts(names@));
    out
}

/// The spellings of the Chinese characters of a text: in full with blanks between the syllables,
/// and by initials.
pub fn phrase_pinyin_variants(text: &str) -> (r: Vec<String>)
    ensures
        texts(r@) == variants_of(text@),
{
    let v = to_chars(text);
    let cs = hanzi_chars(v.as_slice());
    if cs.len() == 0 {
        let none: Vec<String> = Vec::new();
        assert(texts(none@) =~= Seq::<Seq<char>>::empty());
        return none;
    }
    let mut sets: Vec<Vec<Vec<char>>> = Vec::new();
    let mut i: usize = 0;
    while i < cs.len()
        invariant
            i <= cs@.len(),
            sets@.len() == i,
            forall|j: int| 0 <= j < i ==> rows((#[trigger] sets@[j])@) == syllables(cs@[j]),
        decreases cs@.len() - i,
    {
        sets.push(find_syllables(cs[i]));
        i += 1;
    }
    assert(row_texts(sets@) =~= Seq::new(cs@.len(), |i: int| syllables(cs@[i])));
    spell_all(&sets)
}

// ---------------------------------------------------------------------------------------------
// Readings of an entry
// ---------------------------------------------------------------------------------------------

/// The spellings that have blanks, without them.
pub open spec fn run_together(spellings: Seq<Seq<char>>) -> Seq<Seq<char>>
    decreases spellings.len(),
{
    if spellings.len() == 0 {
        Seq::empty()
    } else if has_char(spellings.last(), ' ') {
        run_together(spellings.drop_last()).push(replaced(spellings.last(), " "@, Seq::empty()))
    } else {
        run_together(spellings.drop_last())
    }
}

/// The spellings by which a name is found: with blanks, by initials, and run together.
pub open spec fn name_sounds(name: Seq<char>) -> Seq<Seq<char>> {
    variants_of(name) + run_together(variants_of(name))
}

/// The spellings by which several names are found.
pub open spec fn names_sounds(names: Seq<Seq<char>>) -> Seq<Seq<char>>
    decreases names.len(),
{
    if names.len() == 0 {
        Seq::empty()
    } else {
        names_sounds(names.drop_last()) + name_sounds(names.last())
    }
}

/// The readings of the Chinese characters of a text, one character after the other.
pub open spec fn readings_of_all(s: Seq<char>) -> Seq<Seq<char>>
    decreases s.len(),
{
    if s.len() == 0 {
        Seq::empty()
    } else if hanzi(s.last()) {
        readings_of_all(s.drop_last()) + readings_of(s.last())
    } else {
        readings_of_all(s.drop_last())
    }
}

/// The sounds of an entry, one per line: the spellings of its title and its other names, and the
/// readings of each character of its body.
pub open spec fn sounds_of(title: Seq<char>, body: Seq<char>, aliases: Seq<Seq<char>>) -> Seq<char> {
    joined(name_sounds(title) + names_sounds(aliases) + readings_of_all(body), "\n"@)
}

fn push_texts(out: &mut Vec<Vec<char>>, more: &Vec<String>)
    ensures
        rows(final(out)@) == rows(old(out)@) + texts(more@),
{
    let ghost before = rows(out@);
    let ghost all = texts(more@);
    let mut i: usize = 0;
    assert(before + all.take(0) =~= before);
    while i < more.len()
        invariant
            i <= more@.len(),
            all == texts(more@),
            rows(out@) == before + all.take(i as int),
        decreases more@.len() - i,
    {
        let ghost now = rows(out@);
        out.push(to_chars(more[i].as_str()));
        proof {
            assert(rows(out@) =~= now.push(more@[i as int]@));
            assert(before + all.take(i + 1) =~= now.push(all[i as int]));
        }
        i += 1;
    }
    assert(all.take(i as int) =~= all);
}

fn push_name(out: &mut Vec<Vec<char>>, name: &str)
    ensures
        rows(final(out)@) == rows(old(out)@) + name_sounds(name@),
{
    let ghost start = rows(out@);
    let v = phrase_pinyin_variants(name);
    push_texts(out, &v);
    let ghost mid = rows(out@);
    let ghost all = texts(v@);
    let none: Vec<char> = Vec::new();
    assert(none@ =~= Seq::<char>::empty());
    proof {
        reveal_strlit(" ");
    }
    let mut i: usize = 0;
    assert(mid + run_together(all.take(0)) =~= mid);
    while i < v.len()
        invariant
            i <= v@.len(),
            all == texts(v@),
            none@ == Seq::<char>::empty(),
            " "@.len() > 0,
            rows(out@) == mid + run_together(all.take(i as int)),
        decreases v@.len() - i,
    {
        let ghost now = rows(out@);
        let ghost sofar = run_together(all.take(i as int));
        proof {
            assert(all.take(i + 1).drop_last() =~= all.take(i as int));
            assert(all.take(i + 1).last() == v@[i as int]@);
        }
        let s = to_chars(v[i].as_str());
        if contains_char(s.as_slice(), ' ') {
            let t = replace(s.as_slice(), " ", none.as_slice());
            out.push(t);
            assert(rows(out@) =~= now.push(t@));
            assert(now.push(t@) =~= mid + sofar.push(t@));
        }
        i += 1;
    }
    assert(all.take(i as int) =~= all);
    assert(rows(out@) =~= start + name_sounds(name@));
}

/// The sounds by which an entry is found. A name is found by its syllables with blanks between
/// them (`ge li mu`), run together (`gelimu`) and by their initials (`glm`).
pub fn search_pinyin_blob(title: &str, body: &str, aliases: &[String]) -> (r: String)
    ensures
        r@ == sounds_of(title@, body@, texts(aliases@)),
{
    let ghost names = texts(aliases@);
    let mut parts: Vec<Vec<char>> = Vec::new();
    push_name(&mut parts, title);
    let ghost head = name_sounds(title@);
    assert(rows(parts@) =~= head);
    assert(head + names_sounds(names.take(0)) =~= head);
    let mut i: usize = 0;
    while i < aliases.len()
        invariant
            i <= aliases@.len(),
            names == texts(aliases@),
            rows(parts@) == head + names_sounds(names.take(i as int)),
        decreases aliases@.len() - i,
    {
        let ghost sofar = names_sounds(names.take(i as int));
        proof {
            assert(names.take(i + 1).drop_last() =~= names.take(i as int));
            assert(names.take(i + 1).last() == aliases@[i as int]@);
        }
        push_name(&mut parts, aliases[i].as_str());
        assert(head + sofar + name_sounds(names[i as int]) =~= head + (sofar + name_sounds(
            names[i as int],
        )));
        i += 1;
    }
    assert(names.take(i as int) =~= names);
    let ghost front = rows(parts@);
    let b = to_chars(body);
    let mut k: usize = 0;
    assert(front + readings_of_all(b@.take(0)) =~= front);
    while k < b.len()
        invariant
            k <= b@.len(),
            rows(parts@) == front + readings_of_all(b@.take(k as int)),
        decreases b@.len() - k,
    {
        let ghost sofar = readings_of_all(b@.take(k as int));
        assert(b@.take(k + 1).drop_last() =~= b@.take(k as int));
        if is_hanzi(b[k]) {
            let more = char_readings(b[k]);
            push_texts(&mut parts, &more);
            assert(front + sofar + texts(more@) =~= front + (sofar + texts(more@)));
        }
        k += 1;
    }
    assert(b@.take(k as int) =~= b@);
    let blob = join(&parts, "\n");
    to_text(blob.as_slice())
}

/// A phrase has at most thirty-two spellings, in strictly ascending order.
pub proof fn spellings_are_few_and_ascend(text: Seq<char>)
    ensures
        ascending(variants_of(text)),
        variants_of(text).len() <= 32,
{
    let cs = hanzi_of(text);
    if cs.len() > 0 {
        let sets = Seq::new(cs.len(), |i: int| syllables(cs[i]));
        let all = all_spellings(combinations(sets));
        sorted_texts_ascend(all);
        lemma_sorted_len(all);
        lemma_spellings_len(combinations(sets));
        assert(combinations(sets).len() <= 16);
    }
}

proof fn lemma_sorted_len(s: Seq<Seq<char>>)
    ensures
        sorted_texts(s).len() <= s.len(),
    decreases s.len(),
{
    if s.len() > 0 {
        lemma_sorted_len(s.drop_last());
        lemma_with_len(sorted_texts(s.drop_last()), s.last());
    }
}

proof fn lemma_with_len(s: Seq<Seq<char>>, x: Seq<char>)
    ensures
        with_text(s, x).len() <= s.len() + 1,
    decreases s.len(),
{
    if s.len() > 0 && s.last() != x && !crate::order::text_less(s.last(), x) {
        lemma_with_len(s.drop_last(), x);
    }
}

proof fn lemma_spellings_len(combos: Seq<Seq<Seq<char>>>)
    ensures
        all_spellings(combos).len() <= 2 * combos.len(),
    decreases combos.len(),
{
    if combos.len() > 0 {
        lemma_spellings_len(combos.drop_last());
    }
}

/// In how many ways one item of each set can be chosen.
pub open spec fn choice_count(sets: Seq<Seq<Seq<char>>>) -> nat
    decreases sets.len(),
{
    if sets.len() == 0 {
        1
    } else {
        choice_count(sets.drop_last()) * sets.last().len()
    }
}

/// Whether `combo` has one item of each set, in their order.
pub open spec fn is_choice(combo: Seq<Seq<char>>, sets: Seq<Seq<Seq<char>>>) -> bool {
    combo.len() == sets.len() && forall|i: int|
        0 <= i < sets.len() ==> sets[i].contains(#[trigger] combo[i])
}

/// The syllables of each Chinese character of a text.
pub open spec fn text_syllables(text: Seq<char>) -> Seq<Seq<Seq<char>>> {
    Seq::new(hanzi_of(text).len(), |i: int| syllables(hanzi_of(text)[i]))
}

proof fn lemma_products(acc: Seq<Seq<Seq<char>>>, set: Seq<Seq<char>>)
    ensures
        products(acc, set).len() == acc.len() * set.len(),
        forall|r: int, j: int|
            #![trigger acc[r], set[j]]
            0 <= r < acc.len() && 0 <= j < set.len() ==> products(acc, set).contains(
                acc[r].push(set[j]),
            ),
    decreases acc.len(),
{
    if acc.len() > 0 {
        let front = acc.drop_last();
        lemma_products(front, set);
        let a = products(front, set);
        let b = Seq::new(set.len(), |i: int| acc.last().push(set[i]));
        let p = products(acc, set);
        assert(p == a + b);
        assert(acc.len() * set.len() == front.len() * set.len() + set.len()) by (nonlinear_arith)
            requires
                acc.len() == front.len() + 1,
        ;
        assert forall|r: int, j: int|
            #![trigger acc[r], set[j]]
            0 <= r < acc.len() && 0 <= j < set.len() implies p.contains(acc[r].push(set[j])) by {
            if r < front.len() {
                assert(front[r] == acc[r]);
                let k = choose|k: int| 0 <= k < a.len() && a[k] == front[r].push(set[j]);
                assert(p[k] == acc[r].push(set[j]));
            } else {
                assert(p[a.len() + j] == b[j]);
            }
        }
    }
}

proof fn lemma_product_row(acc: Seq<Seq<Seq<char>>>, set: Seq<Seq<char>>, k: int)
    requires
        0 <= k < products(acc, set).len(),
    ensures
        ({
            let row = products(acc, set)[k];
            row.len() > 0 && acc.contains(row.drop_last()) && set.contains(row.last())
        }),
    decreases acc.len(),
{
    let front = acc.drop_last();
    let a = products(front, set);
    let row = products(acc, set)[k];
    if k < a.len() {
        lemma_product_row(front, set, k);
        let r = choose|r: int| 0 <= r < front.len() && front[r] == row.drop_last();
        assert(acc[r] == row.drop_last());
    } else {
        let j = k - a.len();
        assert(row == acc.last().push(set[j]));
        assert(row.drop_last() =~= acc.last());
        assert(acc[acc.len() - 1] == row.drop_last());
        assert(set[j] == row.last());
    }
}

proof fn lemma_prefix_count(sets: Seq<Seq<Seq<char>>>)
    requires
        sets.len() > 0,
        !has_empty(sets),
    ensures
        choice_count(sets.drop_last()) <= choice_count(sets),
        !has_empty(sets.drop_last()),
        sets.last().len() > 0,
{
    let front = sets.drop_last();
    assert(sets[sets.len() - 1].len() > 0);
    assert(!has_empty(front)) by {
        assert forall|i: int| 0 <= i < front.len() implies (#[trigger] front[i]).len() > 0 by {
            assert(sets[i].len() > 0);
        }
    }
    assert(choice_count(front) <= choice_count(front) * sets.last().len()) by (nonlinear_arith)
        requires
            sets.last().len() >= 1,
    ;
}

proof fn lemma_every_choice(sets: Seq<Seq<Seq<char>>>, combo: Seq<Seq<char>>)
    requires
        !has_empty(sets),
        choice_count(sets) <= CARTESIAN_CAP,
        is_choice(combo, sets),
    ensures
        combinations(sets).contains(combo),
    decreases sets.len(),
{
    lemma_combination_count(sets);
    if sets.len() == 0 {
        assert(combo =~= Seq::empty());
        assert(combinations(sets)[0] == combo);
    } else {
        let front = sets.drop_last();
        lemma_prefix_count(sets);
        lemma_combination_count(front);
        let head = combo.drop_last();
        assert forall|i: int| 0 <= i < front.len() implies front[i].contains(#[trigger] head[i]) by {
            assert(sets[i].contains(combo[i]));
        }
        lemma_every_choice(front, head);
        let acc = combinations(front);
        lemma_products(acc, sets.last());
        let r = choose|r: int| 0 <= r < acc.len() && acc[r] == head;
        assert(sets[sets.len() - 1].contains(combo[sets.len() - 1]));
        let j = choose|j: int| 0 <= j < sets.last().len() && sets.last()[j] == combo.last();
        assert(products(acc, sets.last()).contains(acc[r].push(sets.last()[j])));
        assert(head.push(combo.last()) =~= combo);
    }
}

proof fn lemma_combination_count(sets: Seq<Seq<Seq<char>>>)
    requires
        !has_empty(sets),
        choice_count(sets) <= CARTESIAN_CAP,
    ensures
        combinations(sets).len() == choice_count(sets),
    decreases sets.len(),
{
    if sets.len() > 0 {
        lemma_prefix_count(sets);
        lemma_combination_count(sets.drop_last());
        lemma_products(combinations(sets.drop_last()), sets.last());
    }
}

proof fn lemma_some_choice(sets: Seq<Seq<Seq<char>>>)
    requires
        !has_empty(sets),
    ensures
        combinations(sets).len() > 0,
    decreases sets.len(),
{
    if sets.len() > 0 {
        let acc = combinations(sets.drop_last());
        lemma_prefix_count(sets);
        lemma_some_choice(sets.drop_last());
        lemma_products(acc, sets.last());
        assert(acc.len() * sets.last().len() > 0) by (nonlinear_arith)
            requires
                acc.len() > 0,
                sets.last().len() > 0,
        ;
    }
}

proof fn lemma_only_choices(sets: Seq<Seq<Seq<char>>>, combo: Seq<Seq<char>>)
    requires
        !has_empty(sets),
        combinations(sets).contains(combo),
    ensures
        is_choice(combo, sets),
    decreases sets.len(),
{
    let all = combinations(sets);
    let k = choose|k: int| 0 <= k < all.len() && all[k] == combo;
    if sets.len() > 0 {
        let front = sets.drop_last();
        let head = combo.drop_last();
        lemma_prefix_count(sets);
        assert(products(combinations(front), sets.last())[k] == combo);
        lemma_product_row(combinations(front), sets.last(), k);
        lemma_only_choices(front, head);
        assert forall|i: int| 0 <= i < sets.len() implies sets[i].contains(#[trigger] combo[i]) by {
            if i < front.len() {
                assert(front[i].contains(head[i]));
            }
        }
    }
}

proof fn lemma_all_spellings(combos: Seq<Seq<Seq<char>>>)
    ensures
        forall|combo: Seq<Seq<char>>, t: Seq<char>|
            combos.contains(combo) && #[trigger] spellings(combo).contains(t) ==> all_spellings(
                combos,
            ).contains(t),
        forall|t: Seq<char>| #[trigger]
            all_spellings(combos).contains(t) ==> exists|combo: Seq<Seq<char>>|
                combos.contains(combo) && #[trigger] spellings(combo).contains(t),
    decreases combos.len(),
{
    if combos.len() > 0 {
        let front = combos.drop_last();
        lemma_all_spellings(front);
        let a = all_spellings(front);
        let b = spellings(combos.last());
        let all = all_spellings(combos);
        assert(all == a + b);
        assert forall|combo: Seq<Seq<char>>, t: Seq<char>|
            combos.contains(combo) && #[trigger] spellings(combo).contains(t) implies all.contains(
            t,
        ) by {
            let k = choose|k: int| 0 <= k < combos.len() && combos[k] == combo;
            if k < front.len() {
                assert(front[k] == combo);
                assert(front.contains(combo));
                let n = choose|n: int| 0 <= n < a.len() && a[n] == t;
                assert(all[n] == t);
            } else {
                let n = choose|n: int| 0 <= n < b.len() && b[n] == t;
                assert(all[a.len() + n] == t);
            }
        }
        assert forall|t: Seq<char>| #[trigger] all.contains(t) implies exists|combo: Seq<Seq<char>>|
            combos.contains(combo) && #[trigger] spellings(combo).contains(t) by {
            let n = choose|n: int| 0 <= n < all.len() && all[n] == t;
            if n < a.len() {
                assert(a[n] == t);
                assert(a.contains(t));
                let combo = choose|combo: Seq<Seq<char>>|
                    front.contains(combo) && #[trigger] spellings(combo).contains(t);
                let k = choose|k: int| 0 <= k < front.len() && front[k] == combo;
                assert(combos[k] == combo);
            } else {
                assert(b[n - a.len()] == t);
                assert(combos[combos.len() - 1] == combos.last());
                assert(spellings(combos.last()).contains(t));
            }
        }
    }
}

proof fn lemma_initials_len(combo: Seq<Seq<char>>)
    requires
        forall|i: int| 0 <= i < combo.len() ==> (#[trigger] combo[i]).len() > 0,
    ensures
        initials(combo).len() == combo.len(),
        byte_len(initials(combo)) >= combo.len(),
    decreases combo.len(),
{
    if combo.len() > 0 {
        let front = combo.drop_last();
        assert forall|i: int| 0 <= i < front.len() implies (#[trigger] front[i]).len() > 0 by {
            assert(combo[i].len() > 0);
        }
        lemma_initials_len(front);
        assert(combo[combo.len() - 1].len() > 0);
        assert(initials(combo).drop_last() =~= initials(front));
    }
}

proof fn lemma_hanzi_again(s: Seq<char>)
    ensures
        hanzi_of(hanzi_of(s)) == hanzi_of(s),
    decreases s.len(),
{
    if s.len() > 0 {
        lemma_hanzi_again(s.drop_last());
        if hanzi(s.last()) {
            assert(hanzi_of(s).drop_last() =~= hanzi_of(s.drop_last()));
        }
    }
}

proof fn lemma_no_empty(text: Seq<char>)
    ensures
        !has_empty(text_syllables(text)),
        text_syllables(text).len() == hanzi_of(text).len(),
        hanzi_of(text).len() > 0 ==> variants_of(text) == spelled(text_syllables(text)),
{
    let cs = hanzi_of(text);
    let sets = text_syllables(text);
    assert forall|i: int| 0 <= i < sets.len() implies (#[trigger] sets[i]).len() > 0 by {
        assert(sets[i] == syllables(cs[i]));
    }
    assert(sets =~= Seq::new(cs.len(), |i: int| syllables(cs[i])));
}

/// Where a phrase can be read in sixteen ways at most, it is found by every one of them: in full,
/// with blanks between the syllables, and by the initials where it has two syllables at least.
pub proof fn every_reading_is_spelled(text: Seq<char>, combo: Seq<Seq<char>>)
    requires
        hanzi_of(text).len() > 0,
        choice_count(text_syllables(text)) <= CARTESIAN_CAP,
        is_choice(combo, text_syllables(text)),
    ensures
        variants_of(text).contains(joined(combo, " "@)),
        byte_len(initials(combo)) >= 2 ==> variants_of(text).contains(initials(combo)),
        combo.len() >= 2 && (forall|i: int| 0 <= i < combo.len() ==> (#[trigger] combo[i]).len() > 0)
            ==> variants_of(text).contains(initials(combo)),
{
    let sets = text_syllables(text);
    lemma_no_empty(text);
    lemma_every_choice(sets, combo);
    let combos = combinations(sets);
    lemma_all_spellings(combos);
    sorted_texts_ascend(all_spellings(combos));
    assert(spellings(combo)[0] == joined(combo, " "@));
    assert(spellings(combo).contains(joined(combo, " "@)));
    assert(all_spellings(combos).contains(joined(combo, " "@)));
    if byte_len(initials(combo)) >= 2 {
        assert(spellings(combo)[1] == initials(combo));
        assert(spellings(combo).contains(initials(combo)));
        assert(all_spellings(combos).contains(initials(combo)));
    }
    if forall|i: int| 0 <= i < combo.len() ==> (#[trigger] combo[i]).len() > 0 {
        lemma_initials_len(combo);
    }
}

/// A phrase has no other spellings than those of its readings. It has some if and only if it has a
/// Chinese character, and other characters make no difference.
pub proof fn spellings_come_from_readings(text: Seq<char>)
    ensures
        variants_of(text).len() == 0 <==> hanzi_of(text).len() == 0,
        variants_of(text) == variants_of(hanzi_of(text)),
        forall|t: Seq<char>| #[trigger]
            variants_of(text).contains(t) ==> exists|combo: Seq<Seq<char>>|
                is_choice(combo, text_syllables(text)) && #[trigger] spellings(combo).contains(t),
{
    lemma_hanzi_again(text);
    if hanzi_of(text).len() > 0 {
        let sets = text_syllables(text);
        lemma_no_empty(text);
        lemma_some_choice(sets);
        let combos = combinations(sets);
        lemma_all_spellings(combos);
        let all = all_spellings(combos);
        sorted_texts_ascend(all);
        assert(combos.contains(combos[0]));
        assert(spellings(combos[0])[0] == joined(combos[0], " "@));
        assert(spellings(combos[0]).contains(joined(combos[0], " "@)));
        assert(all.contains(joined(combos[0], " "@)));
        assert(variants_of(text).contains(joined(combos[0], " "@)));
        assert forall|t: Seq<char>| #[trigger] variants_of(text).contains(t) implies exists|
            combo: Seq<Seq<char>>,
        |
            is_choice(combo, sets) && #[trigger] spellings(combo).contains(t) by {
            assert(all.contains(t));
            let combo = choose|combo: Seq<Seq<char>>|
                combos.contains(combo) && #[trigger] spellings(combo).contains(t);
            lemma_only_choices(sets, combo);
        }
    }
}

// ---------------------------------------------------------------------------------------------
// What an entry is found by
// ---------------------------------------------------------------------------------------------

proof fn lemma_run_together(v: Seq<Seq<char>>, k: int)
    requires
        0 <= k < v.len(),
        has_char(v[k], ' '),
    ensures
        run_together(v).contains(replaced(v[k], " "@, Seq::empty())),
    decreases v.len(),
{
    let head = v.drop_last();
    let before = run_together(head);
    let now = run_together(v);
    let t = replaced(v[k], " "@, Seq::empty());
    if k < head.len() {
        lemma_run_together(head, k);
        let i = choose|i: int| 0 <= i < before.len() && before[i] == t;
        assert(now[i] == t);
    } else {
        assert(now[before.len() as int] == t);
    }
}

proof fn lemma_names_sounds(names: Seq<Seq<char>>, k: int, t: Seq<char>)
    requires
        0 <= k < names.len(),
        name_sounds(names[k]).contains(t),
    ensures
        names_sounds(names).contains(t),
    decreases names.len(),
{
    let head = names.drop_last();
    let before = names_sounds(head);
    let now = names_sounds(names);
    if k < head.len() {
        lemma_names_sounds(head, k, t);
        let i = choose|i: int| 0 <= i < before.len() && before[i] == t;
        assert(now[i] == t);
    } else {
        let last = name_sounds(names[k]);
        let i = choose|i: int| 0 <= i < last.len() && last[i] == t;
        assert(now[before.len() + i] == t);
    }
}

proof fn lemma_readings_of_all(s: Seq<char>, k: int, t: Seq<char>)
    requires
        0 <= k < s.len(),
        hanzi(s[k]),
        readings_of(s[k]).contains(t),
    ensures
        readings_of_all(s).contains(t),
    decreases s.len(),
{
    let head = s.drop_last();
    let before = readings_of_all(head);
    let now = readings_of_all(s);
    if k < head.len() {
        lemma_readings_of_all(head, k, t);
        let i = choose|i: int| 0 <= i < before.len() && before[i] == t;
        assert(now[i] == t);
    } else {
        let last = readings_of(s[k]);
        let i = choose|i: int| 0 <= i < last.len() && last[i] == t;
        assert(now[before.len() + i] == t);
    }
}

/// Whether `t` is a spelling of a name, as it is or with the blanks left out.
pub open spec fn spells(name: Seq<char>, t: Seq<char>) -> bool {
    variants_of(name).contains(t) || exists|v: Seq<char>| #[trigger]
        variants_of(name).contains(v) && has_char(v, ' ') && t == replaced(v, " "@, Seq::empty())
}

/// Whether `t` is a reading of a Chinese character of a text.
pub open spec fn reads(s: Seq<char>, t: Seq<char>) -> bool {
    exists|k: int|
        0 <= k < s.len() && hanzi(#[trigger] s[k]) && readings_of(s[k]).contains(t)
}

proof fn lemma_spells(name: Seq<char>, t: Seq<char>)
    requires
        spells(name, t),
    ensures
        name_sounds(name).contains(t),
{
    let a = variants_of(name);
    let b = run_together(a);
    if a.contains(t) {
        let i = choose|i: int| 0 <= i < a.len() && a[i] == t;
        assert((a + b)[i] == t);
    } else {
        let v = choose|v: Seq<char>| #[trigger]
            a.contains(v) && has_char(v, ' ') && t == replaced(v, " "@, Seq::empty());
        let k = choose|k: int| 0 <= k < a.len() && a[k] == v;
        lemma_run_together(a, k);
        let i = choose|i: int| 0 <= i < b.len() && b[i] == t;
        assert((a + b)[a.len() + i] == t);
    }
}

/// An entry is found by every spelling of its title and of each of its other names, with blanks and
/// without, and by every reading of each Chinese character of its body.
pub proof fn entries_are_found_by_their_sounds(
    title: Seq<char>,
    body: Seq<char>,
    aliases: Seq<Seq<char>>,
    t: Seq<char>,
)
    requires
        spells(title, t) || reads(body, t) || exists|k: int|
            0 <= k < aliases.len() && spells(#[trigger] aliases[k], t),
    ensures
        exists|i: int| #[trigger] crate::scan::occurs_at(sounds_of(title, body, aliases), t, i),
{
    let a = name_sounds(title);
    let b = names_sounds(aliases);
    let c = readings_of_all(body);
    let all = a + b + c;
    let at = if spells(title, t) {
        lemma_spells(title, t);
        choose|i: int| 0 <= i < a.len() && a[i] == t
    } else if reads(body, t) {
        let k = choose|k: int|
            0 <= k < body.len() && hanzi(#[trigger] body[k]) && readings_of(body[k]).contains(t);
        lemma_readings_of_all(body, k, t);
        a.len() + b.len() + choose|i: int| 0 <= i < c.len() && c[i] == t
    } else {
        let k = choose|k: int| 0 <= k < aliases.len() && spells(#[trigger] aliases[k], t);
        lemma_spells(aliases[k], t);
        lemma_names_sounds(aliases, k, t);
        a.len() + choose|i: int| 0 <= i < b.len() && b[i] == t
    };
    assert(all[at] == t);
    crate::scan::joined_texts_stand_in_the_join(all, "\n"@, at);
    let i = choose|i: int| #[trigger] crate::scan::occurs_at(joined(all, "\n"@), all[at], i);
    assert(crate::scan::occurs_at(sounds_of(title, body, aliases), t, i));
}

/// Every reading of a table is a reading of the character, each once and in ascending order; where
/// the table has none, the main reading is the only one.
pub proof fn readings_are_those_of_the_table(all: Seq<Seq<char>>, main: Option<Seq<char>>)
    ensures
        forall|x: Seq<char>|
            all.len() > 0 ==> (#[trigger] readings_from(all, main).contains(x) <==> all.contains(x)),
        ascending(readings_from(all, main)),
        all.len() == 0 && main is Some ==> readings_from(all, main) == seq![main.unwrap()],
{
    sorted_texts_ascend(all);
}

} // verus!
