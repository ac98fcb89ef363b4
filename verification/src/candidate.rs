//! Conversion candidates and the list operations on them: removing
//! duplicates, promoting a choice, and reading candidates from the text that
//! an outside engine prints.

use vstd::prelude::*;
use crate::text::{
    chars_of, is_ascii_digit, lines_of, spec_is_ascii_digit, spec_lines, spec_trim,
    string_from_chars, trim_chars, leading_count, lemma_leading_count,
};

verus! {

/// At most this many candidates are returned by a lookup.
pub const MAX_RETURNED_CANDIDATES: usize = 16;

/// A conversion candidate: the text to commit, the reading that stays
/// unconverted after it, and how many reading characters it covers.
#[derive(Clone, Debug, PartialEq)]
pub struct Candidate {
    pub text: String,
    pub subtext: String,
    pub corresponding_count: i32,
}

/// A candidate as a value: text, subtext and covered count.
pub type CandidateModel = (Seq<char>, Seq<char>, i32);

impl View for Candidate {
    type V = CandidateModel;

    open spec fn view(&self) -> CandidateModel {
        (self.text@, self.subtext@, self.corresponding_count)
    }
}

/// The models of a list of candidates.
pub open spec fn models(s: Seq<Candidate>) -> Seq<CandidateModel> {
    s.map_values(|c: Candidate| c@)
}

/// The number of characters of `s`, as the `i32` that a candidate stores.
pub open spec fn count_i32(s: Seq<char>) -> i32 {
    s.len() as i32
}

impl Candidate {
    /// A candidate from character sequences.
    pub fn from_chars(text: &[char], subtext: &[char], corresponding_count: i32) -> (r: Candidate)
        ensures
            r@ == (text@, subtext@, corresponding_count),
    {
        Candidate {
            text: string_from_chars(text),
            subtext: string_from_chars(subtext),
            corresponding_count,
        }
    }

    /// A copy of this candidate.
    pub fn duplicate(&self) -> (r: Candidate)
        ensures
            r@ == self@,
    {
        Candidate {
            text: self.text.clone(),
            subtext: self.subtext.clone(),
            corresponding_count: self.corresponding_count,
        }
    }
}

/// The candidates that first show each (text, subtext) pair, in order.
pub open spec fn first_occurrences(s: Seq<CandidateModel>) -> Seq<CandidateModel>
    decreases s.len(),
{
    if s.len() == 0 {
        s
    } else {
        let rest = first_occurrences(s.drop_last());
        if seen_before(s, s.len() - 1) {
            rest
        } else {
            rest.push(s.last())
        }
    }
}

/// Some candidate before position `i` has the same text and subtext.
pub open spec fn seen_before(s: Seq<CandidateModel>, i: int) -> bool {
    exists|j: int| 0 <= j < i && s[j].0 == s[i].0 && s[j].1 == s[i].1
}

/// The candidates without repeated (text, subtext) pairs, at most
/// `MAX_RETURNED_CANDIDATES` of them.
pub open spec fn spec_dedupe(s: Seq<CandidateModel>) -> Seq<CandidateModel> {
    let d = first_occurrences(s);
    if d.len() > MAX_RETURNED_CANDIDATES {
        d.take(MAX_RETURNED_CANDIDATES as int)
    } else {
        d
    }
}

proof fn lemma_first_occurrences_prefix(s: Seq<CandidateModel>, i: int)
    requires
        0 <= i <= s.len(),
    ensures
        first_occurrences(s.take(i)).is_prefix_of(first_occurrences(s)),
    decreases s.len() - i,
{
    if i < s.len() {
        lemma_first_occurrences_prefix(s, i + 1);
        let t = s.take(i + 1);
        assert(t.drop_last() == s.take(i));
        assert forall|j: int| 0 <= j < i + 1 implies t[j] == s[j] by {}
        assert(seen_before(t, i) == seen_before(s, i));
    } else {
        assert(s.take(i) == s);
    }
}

/// No two candidates of `s` have the same text and subtext.
pub open spec fn distinct_pairs(s: Seq<CandidateModel>) -> bool {
    forall|i: int, j: int| 0 <= i < j < s.len() ==> !(s[i].0 == s[j].0 && s[i].1 == s[j].1)
}

proof fn lemma_first_occurrences(s: Seq<CandidateModel>)
    ensures
        distinct_pairs(first_occurrences(s)),
        forall|i: int|
            0 <= i < first_occurrences(s).len() ==> exists|j: int|
                0 <= j < s.len() && s[j] == #[trigger] first_occurrences(s)[i],
        first_occurrences(s).len() <= s.len(),
    decreases s.len(),
{
    if s.len() > 0 {
        let init = s.drop_last();
        lemma_first_occurrences(init);
        let rest = first_occurrences(init);
        assert forall|i: int| 0 <= i < rest.len() implies exists|j: int|
            0 <= j < s.len() && s[j] == #[trigger] rest[i] by {
            let j = choose|j: int| 0 <= j < init.len() && init[j] == rest[i];
            assert(s[j] == init[j]);
        }
        if !seen_before(s, s.len() - 1) {
            let f = rest.push(s.last());
            assert forall|i: int, j: int| 0 <= i < j < f.len() implies !(f[i].0 == f[j].0 && f[i].1
                == f[j].1) by {
                if j == f.len() - 1 {
                    let k = choose|k: int| 0 <= k < s.len() && s[k] == rest[i];
                    if k == s.len() - 1 {
                        assert(s[k] == s.last());
                    }
                    if f[i].0 == f[j].0 && f[i].1 == f[j].1 {
                        assert(k < s.len() - 1 ==> seen_before(s, s.len() - 1));
                    }
                } else {
                    assert(f[i] == rest[i] && f[j] == rest[j]);
                }
            }
            assert forall|i: int| 0 <= i < f.len() implies exists|j: int|
                0 <= j < s.len() && s[j] == #[trigger] f[i] by {
                if i == f.len() - 1 {
                    assert(s[s.len() - 1] == f[i]);
                } else {
                    assert(f[i] == rest[i]);
                }
            }
        }
    }
}

/// Every text and subtext of `s` is among its first occurrences.
proof fn lemma_first_occurrences_cover(s: Seq<CandidateModel>)
    ensures
        forall|j: int|
            0 <= j < s.len() ==> exists|i: int|
                0 <= i < first_occurrences(s).len() && first_occurrences(s)[i].0 == (#[trigger] s[j]).0
                    && first_occurrences(s)[i].1 == s[j].1,
    decreases s.len(),
{
    if s.len() > 0 {
        let init = s.drop_last();
        lemma_first_occurrences_cover(init);
        let rest = first_occurrences(init);
        let f = first_occurrences(s);
        assert forall|j: int| 0 <= j < s.len() implies exists|i: int|
            0 <= i < f.len() && f[i].0 == (#[trigger] s[j]).0 && f[i].1 == s[j].1 by {
            if j < s.len() - 1 {
                assert(s[j] == init[j]);
                let i = choose|i: int|
                    0 <= i < rest.len() && rest[i].0 == (#[trigger] init[j]).0 && rest[i].1 == init[j].1;
                assert(f[i] == rest[i]);
            } else if seen_before(s, s.len() - 1) {
                let k = choose|k: int|
                    #![trigger s[k]]
                    0 <= k < s.len() - 1 && s[k].0 == s[s.len() - 1].0 && s[k].1 == s[s.len() - 1].1;
                assert(s[k] == init[k]);
                let i = choose|i: int|
                    0 <= i < rest.len() && rest[i].0 == (#[trigger] init[k]).0 && rest[i].1 == init[k].1;
                assert(f[i] == rest[i]);
            } else {
                assert(f[f.len() - 1] == s[j]);
            }
        }
    }
}

proof fn lemma_first_occurrences_of_distinct(s: Seq<CandidateModel>)
    requires
        distinct_pairs(s),
    ensures
        first_occurrences(s) == s,
    decreases s.len(),
{
    if s.len() > 0 {
        let init = s.drop_last();
        assert(distinct_pairs(init)) by {
            assert forall|i: int, j: int| 0 <= i < j < init.len() implies !(init[i].0 == init[j].0
                && init[i].1 == init[j].1) by {
                assert(init[i] == s[i] && init[j] == s[j]);
            }
        }
        lemma_first_occurrences_of_distinct(init);
        assert(!seen_before(s, s.len() - 1));
        assert(init.push(s.last()) =~= s);
    }
}

/// Dropping repeats leaves no two candidates with the same text and
/// subtext, at most `MAX_RETURNED_CANDIDATES` candidates, each one of the
/// input; while fewer than `MAX_RETURNED_CANDIDATES` are left, every text
/// and subtext of the input is among them; and dropping repeats again
/// changes nothing.
pub proof fn lemma_dedupe(s: Seq<CandidateModel>)
    ensures
        distinct_pairs(spec_dedupe(s)),
        spec_dedupe(s).len() <= MAX_RETURNED_CANDIDATES,
        forall|i: int|
            0 <= i < spec_dedupe(s).len() ==> #[trigger] s.contains(spec_dedupe(s)[i]),
        spec_dedupe(s).len() < MAX_RETURNED_CANDIDATES ==> forall|j: int|
            0 <= j < s.len() ==> exists|i: int|
                0 <= i < spec_dedupe(s).len() && spec_dedupe(s)[i].0 == (#[trigger] s[j]).0
                    && spec_dedupe(s)[i].1 == s[j].1,
        spec_dedupe(spec_dedupe(s)) == spec_dedupe(s),
{
    let f = first_occurrences(s);
    lemma_first_occurrences(s);
    lemma_first_occurrences_cover(s);
    let d = spec_dedupe(s);
    assert(distinct_pairs(d)) by {
        assert forall|i: int, j: int| 0 <= i < j < d.len() implies !(d[i].0 == d[j].0 && d[i].1
            == d[j].1) by {
            assert(d[i] == f[i] && d[j] == f[j]);
        }
    }
    assert forall|i: int| 0 <= i < d.len() implies #[trigger] s.contains(d[i]) by {
        assert(d[i] == f[i]);
        let j = choose|j: int| 0 <= j < s.len() && s[j] == f[i];
    }
    lemma_first_occurrences_of_distinct(d);
}

/// Promoting a candidate keeps every candidate, as often as it was there.
pub proof fn lemma_promote_keeps_candidates(candidates: Seq<Candidate>, index: int)
    requires
        0 < index < candidates.len(),
    ensures
        (seq![candidates[index]] + candidates.remove(index)).to_multiset() == candidates.to_multiset(),
{
    broadcast use vstd::seq_lib::group_to_multiset_ensures;

    let rest = candidates.remove(index);
    assert(seq![candidates[index]] + rest =~= rest.insert(0, candidates[index]));
    vstd::seq_lib::to_multiset_insert(rest, 0, candidates[index]);
    assert(rest.to_multiset() =~= candidates.to_multiset().remove(candidates[index]));
}

/// Whether some candidate before position `i` has the text and subtext of
/// the one at `i`.
fn seen_before_exec(v: &Vec<Candidate>, i: usize) -> (r: bool)
    requires
        i < v@.len(),
    ensures
        r == seen_before(models(v@), i as int),
{
    let mut j: usize = 0;
    while j < i
        invariant
            i < v@.len(),
            j <= i,
            forall|k: int|
                0 <= k < j ==> !(models(v@)[k].0 == models(v@)[i as int].0 && models(v@)[k].1
                    == models(v@)[i as int].1),
        decreases i - j,
    {
        if v[j].text == v[i].text && v[j].subtext == v[i].subtext {
            assert(models(v@)[j as int] == v@[j as int]@);
            assert(models(v@)[i as int] == v@[i as int]@);
            return true;
        }
        j += 1;
    }
    false
}

/// Drops candidates whose text and subtext already came earlier, and keeps
/// at most `MAX_RETURNED_CANDIDATES`.
pub fn dedupe_candidates(candidates: Vec<Candidate>) -> (r: Vec<Candidate>)
    ensures
        models(r@) == spec_dedupe(models(candidates@)),
{
    let ghost m = models(candidates@);
    let mut out: Vec<Candidate> = Vec::new();
    let mut i: usize = 0;
    assert(models(out@) =~= first_occurrences(m.take(0)));
    while i < candidates.len() && out.len() < MAX_RETURNED_CANDIDATES
        invariant
            m == models(candidates@),
            i <= candidates@.len(),
            out@.len() <= MAX_RETURNED_CANDIDATES,
            models(out@) == first_occurrences(m.take(i as int)),
        decreases candidates@.len() - i,
    {
        let seen = seen_before_exec(&candidates, i);
        let ghost t = m.take(i + 1);
        assert(t.drop_last() == m.take(i as int));
        assert(seen_before(t, i as int) == seen_before(m, i as int)) by {
            assert forall|j: int| 0 <= j <= i implies t[j] == m[j] by {}
        }
        if !seen {
            let ghost before = models(out@);
            out.push(candidates[i].duplicate());
            assert(models(out@) =~= before.push(m[i as int]));
        }
        i += 1;
    }
    proof {
        lemma_first_occurrences_prefix(m, i as int);
        if i == candidates@.len() {
            assert(m.take(i as int) == m);
        } else {
            assert(models(out@) =~= first_occurrences(m).take(MAX_RETURNED_CANDIDATES as int));
        }
    }
    out
}

/// Moves the candidate at `index` to the front; an index of 0 or past the
/// end leaves the list as it is.
pub fn promote_candidate(candidates: Vec<Candidate>, index: usize) -> (r: Vec<Candidate>)
    ensures
        r@ == (if index == 0 || index >= candidates@.len() {
            candidates@
        } else {
            seq![candidates@[index as int]] + candidates@.remove(index as int)
        }),
{
    if index == 0 || index >= candidates.len() {
        return candidates;
    }
    let mut candidates = candidates;
    let ghost before = candidates@;
    let selected = candidates.remove(index);
    candidates.insert(0, selected);
    assert(candidates@ =~= seq![before[index as int]] + before.remove(index as int));
    candidates
}

/// The text of each non-blank line of `output`, trimmed.
pub open spec fn trimmed_lines(output: Seq<char>) -> Seq<Seq<char>> {
    spec_lines(output).map_values(|l: Seq<char>| spec_trim(l)).filter(
        |t: Seq<char>| t.len() > 0,
    )
}

/// A candidate for a whole reading of `hiragana` with the given text.
pub open spec fn whole_reading(text: Seq<char>, hiragana: Seq<char>) -> CandidateModel {
    (text, Seq::empty(), count_i32(hiragana))
}

/// The candidates that magic conversion printed: one per non-blank line, at
/// most `MAX_RETURNED_CANDIDATES`, each covering the whole reading.
pub open spec fn spec_magic_candidates(output: Seq<char>, hiragana: Seq<char>) -> Seq<
    CandidateModel,
> {
    let lines = trimmed_lines(output);
    let kept = if lines.len() > MAX_RETURNED_CANDIDATES {
        lines.take(MAX_RETURNED_CANDIDATES as int)
    } else {
        lines
    };
    kept.map_values(|t: Seq<char>| whole_reading(t, hiragana))
}

/// `c` is a character of the numbering that an engine puts before a
/// candidate (`1.`, `2)`, `3、`).
pub open spec fn is_numbering(c: char) -> bool {
    spec_is_ascii_digit(c) || c == '.' || c == ')' || c == '、'
}

/// `s` without its leading numbering, trimmed.
pub open spec fn strip_numbering(s: Seq<char>) -> Seq<char> {
    spec_trim(s.skip(leading_count(s, |c: char| is_numbering(c)) as int))
}

/// The predictions that the language model printed: one per non-blank line
/// after its numbering is removed, at most three, each covering the whole
/// reading.
pub open spec fn spec_zenzai_candidates(output: Seq<char>, hiragana: Seq<char>) -> Seq<
    CandidateModel,
> {
    let lines = spec_lines(output).map_values(|l: Seq<char>| strip_numbering(spec_trim(l))).filter(
        |t: Seq<char>| t.len() > 0,
    );
    let kept = if lines.len() > 3 {
        lines.take(3)
    } else {
        lines
    };
    kept.map_values(|t: Seq<char>| whole_reading(t, hiragana))
}

/// `s` without its leading numbering characters.
fn strip_numbering_chars(s: &[char]) -> (r: Vec<char>)
    ensures
        r@ == strip_numbering(s@),
{
    let ghost p = |c: char| is_numbering(c);
    let mut i: usize = 0;
    proof {
        lemma_leading_count(s@, p);
    }
    assert(s@.skip(0) == s@);
    while i < s.len() && (is_ascii_digit(s[i]) || s[i] == '.' || s[i] == ')' || s[i] == '、')
        invariant
            p == (|c: char| is_numbering(c)),
            i <= s@.len(),
            leading_count(s@, p) == i + leading_count(s@.skip(i as int), p),
        decreases s@.len() - i,
    {
        assert(s@.skip(i as int).drop_first() == s@.skip(i + 1));
        assert(s@.skip(i as int)[0] == s@[i as int]);
        i += 1;
    }
    assert(s@.skip(i as int).len() == 0 || !p(s@.skip(i as int)[0]));
    let rest = crate::text::copy_range(s, i, s.len());
    trim_chars(rest.as_slice())
}

/// Reads candidates from engine output, one per non-blank line.
fn candidates_from_lines(output: &str, hiragana: &str, numbered: bool, limit: usize) -> (r: Vec<
    Candidate,
>)
    ensures
        numbered ==> limit == 3 ==> models(r@) == spec_zenzai_candidates(output@, hiragana@),
        !numbered ==> limit == MAX_RETURNED_CANDIDATES ==> models(r@) == spec_magic_candidates(
            output@,
            hiragana@,
        ),
{
    let chars = chars_of(output);
    let count = chars_of(hiragana).len() as i32;
    let lines = lines_of(chars.as_slice());
    let ghost ls = spec_lines(output@);
    let ghost f = if numbered {
        |l: Seq<char>| strip_numbering(spec_trim(l))
    } else {
        |l: Seq<char>| spec_trim(l)
    };
    let ghost nonempty = |t: Seq<char>| t.len() > 0;
    let mut out: Vec<Candidate> = Vec::new();
    let mut i: usize = 0;
    while i < lines.len() && out.len() < limit
        invariant
            ls == spec_lines(output@),
            lines@.len() == ls.len(),
            forall|k: int| 0 <= k < lines@.len() ==> #[trigger] lines@[k]@ == ls[k],
            count == count_i32(hiragana@),
            i <= lines@.len(),
            out@.len() <= limit,
            f == (if numbered {
                |l: Seq<char>| strip_numbering(spec_trim(l))
            } else {
                |l: Seq<char>| spec_trim(l)
            }),
            nonempty == (|t: Seq<char>| t.len() > 0),
            models(out@) == ls.take(i as int).map_values(f).filter(nonempty).map_values(
                |t: Seq<char>| whole_reading(t, hiragana@),
            ),
        decreases lines@.len() - i,
    {
        let trimmed = trim_chars(lines[i].as_slice());
        let text = if numbered {
            strip_numbering_chars(trimmed.as_slice())
        } else {
            trimmed
        };
        assert(text@ == f(ls[i as int]));
        let ghost before = ls.take(i as int).map_values(f);
        assert(ls.take(i + 1).map_values(f) =~= before.push(f(ls[i as int])));
        proof {
            before.lemma_filter_push(f(ls[i as int]), nonempty);
        }
        if text.len() > 0 {
            let ghost prev = models(out@);
            let empty: Vec<char> = Vec::new();
            out.push(Candidate::from_chars(text.as_slice(), empty.as_slice(), count));
            assert(models(out@) =~= prev.push(whole_reading(text@, hiragana@)));
            assert(before.push(text@).filter(nonempty) == before.filter(nonempty).push(text@));
            assert(before.filter(nonempty).push(text@).map_values(
                |t: Seq<char>| whole_reading(t, hiragana@),
            ) =~= before.filter(nonempty).map_values(
                |t: Seq<char>| whole_reading(t, hiragana@),
            ).push(whole_reading(text@, hiragana@)));
        }
        i += 1;
    }
    proof {
        let all = ls.map_values(f).filter(nonempty);
        lemma_filter_take_prefix(ls, f, nonempty, i as int);
        if i == lines@.len() {
            assert(ls.take(i as int) == ls);
        }
    }
    out
}

proof fn lemma_filter_take_prefix(
    ls: Seq<Seq<char>>,
    f: spec_fn(Seq<char>) -> Seq<char>,
    p: spec_fn(Seq<char>) -> bool,
    i: int,
)
    requires
        0 <= i <= ls.len(),
    ensures
        ls.take(i).map_values(f).filter(p).is_prefix_of(ls.map_values(f).filter(p)),
    decreases ls.len() - i,
{
    if i < ls.len() {
        lemma_filter_take_prefix(ls, f, p, i + 1);
        let a = ls.take(i).map_values(f);
        assert(ls.take(i + 1).map_values(f) =~= a.push(f(ls[i])));
        a.lemma_filter_push(f(ls[i]), p);
    } else {
        assert(ls.take(i) == ls);
    }
}

/// The candidates that magic conversion printed (see `spec_magic_candidates`).
pub fn magic_candidates_from_output(output: &str, hiragana: &str) -> (r: Vec<Candidate>)
    ensures
        models(r@) == spec_magic_candidates(output@, hiragana@),
{
    candidates_from_lines(output, hiragana, false, MAX_RETURNED_CANDIDATES)
}

/// The predictions that the language model printed (see
/// `spec_zenzai_candidates`).
pub fn zenzai_candidates_from_output(output: &str, hiragana: &str) -> (r: Vec<Candidate>)
    ensures
        models(r@) == spec_zenzai_candidates(output@, hiragana@),
{
    candidates_from_lines(output, hiragana, true, 3)
}

/// The candidate number that the language model chose: the first ASCII
/// digit of its output, counted from 1 (a `0` chooses nothing).
pub open spec fn rerank_choice(output: Seq<char>) -> Option<int> {
    let i = leading_count(output, |c: char| !spec_is_ascii_digit(c));
    if i < output.len() && output[i as int] != '0' {
        Some(((output[i as int] as u32) - ('1' as u32)) as int)
    } else {
        None
    }
}

/// The candidates after the language model's choice in `output`: the chosen
/// one moves to the front.
pub open spec fn spec_rerank(candidates: Seq<Candidate>, output: Seq<char>) -> Seq<Candidate> {
    match rerank_choice(output) {
        Some(k) => if k == 0 || k >= candidates.len() {
            candidates
        } else {
            seq![candidates[k]] + candidates.remove(k)
        },
        None => candidates,
    }
}

/// Applies the choice that the language model printed to the candidates.
pub fn rerank_from_output(candidates: Vec<Candidate>, output: &str) -> (r: Vec<Candidate>)
    ensures
        r@ == spec_rerank(candidates@, output@),
{
    let chars = chars_of(output);
    let ghost p = |c: char| !spec_is_ascii_digit(c);
    proof {
        lemma_leading_count(output@, p);
    }
    let mut i: usize = 0;
    assert(output@.skip(0) == output@);
    while i < chars.len() && !is_ascii_digit(chars[i])
        invariant
            p == (|c: char| !spec_is_ascii_digit(c)),
            chars@ == output@,
            i <= chars@.len(),
            leading_count(output@, p) == i + leading_count(output@.skip(i as int), p),
        decreases chars@.len() - i,
    {
        assert(output@.skip(i as int).drop_first() == output@.skip(i + 1));
        assert(output@.skip(i as int)[0] == output@[i as int]);
        i += 1;
    }
    assert(output@.skip(i as int).len() == 0 || !p(output@.skip(i as int)[0]));
    if i < chars.len() && chars[i] != '0' {
        let index = ((chars[i] as u32) - ('1' as u32)) as usize;
        promote_candidate(candidates, index)
    } else {
        candidates
    }
}

} // verus!
