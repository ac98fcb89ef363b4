//! What the user committed: how often each text was chosen for each reading,
//! candidates ranked by those counts, and the tab-separated text form in
//! which the counts are kept.

use vstd::prelude::*;
use crate::candidate::{count_i32, models, Candidate, CandidateModel, MAX_RETURNED_CANDIDATES};
use crate::csv::{all_digits, digits_value, lemma_split_on_concat, lemma_split_on_free, spec_parse_u32};
use crate::dynamic::{decimal, decimal_chars, digit_char};
use crate::sort::{key_lt, lemma_sort_by_rank_map, lemma_sort_by_rank_multiset, rank_of, sort_by_rank, stable_sort, RankKey, Ranked};
use crate::text::{
    chars_equal, chars_less, chars_of, chars_start_with, copy_chars, copy_range, head_before, push_all,
    index_of_char, lemma_index_of_char, lines_of, spec_is_ascii_digit, spec_lines, spec_trim, split_on,
    split_once_chars, strip_cr, tail_after, trim_chars,
};
use crate::wordmap::{at_most, extends};

verus! {

/// A learned commit: reading, text and how often it was chosen.
pub type LearnedModel = (Seq<char>, Seq<char>, u32);

/// A learned text with its count.
pub type WordCount = (Seq<char>, u32);

/// Index of the record of `(reading, text)`.
pub open spec fn find_pair(m: Seq<LearnedModel>, reading: Seq<char>, text: Seq<char>) -> Option<int>
    decreases m.len(),
{
    if m.len() == 0 {
        None
    } else {
        match find_pair(m.drop_last(), reading, text) {
            Some(i) => Some(i),
            None => if m.last().0 == reading && m.last().1 == text {
                Some(m.len() - 1)
            } else {
                None
            },
        }
    }
}

proof fn lemma_find_pair(m: Seq<LearnedModel>, reading: Seq<char>, text: Seq<char>)
    ensures
        find_pair(m, reading, text) matches Some(i) ==> 0 <= i < m.len() && m[i].0 == reading
            && m[i].1 == text && forall|j: int|
            0 <= j < i ==> !(m[j].0 == reading && m[j].1 == text),
        find_pair(m, reading, text) is None ==> forall|j: int|
            0 <= j < m.len() ==> !(m[j].0 == reading && m[j].1 == text),
    decreases m.len(),
{
    if m.len() > 0 {
        lemma_find_pair(m.drop_last(), reading, text);
        assert forall|j: int| 0 <= j < m.len() - 1 implies m[j] == m.drop_last()[j] by {}
    }
}

/// The count of `(reading, text)`, 0 when there is none.
pub open spec fn count_of(m: Seq<LearnedModel>, reading: Seq<char>, text: Seq<char>) -> u32 {
    match find_pair(m, reading, text) {
        Some(i) => m[i].2,
        None => 0,
    }
}

/// `m` with the count of `(reading, text)` set to `count`.
pub open spec fn set_count(m: Seq<LearnedModel>, reading: Seq<char>, text: Seq<char>, count: u32) -> Seq<
    LearnedModel,
> {
    match find_pair(m, reading, text) {
        Some(i) => m.update(i, (reading, text, count)),
        None => m.push((reading, text, count)),
    }
}

/// The record that a line of the learning file gives: reading, text and
/// count separated by tabs; a missing or unreadable count is 1, and a count
/// of 0 is read as 1.
pub open spec fn learned_row(line: Seq<char>) -> Option<LearnedModel> {
    let reading = head_before(line, '\t');
    match tail_after(line, '\t') {
        Some(rest) => {
            let text = head_before(rest, '\t');
            let count: u32 = match tail_after(rest, '\t') {
                Some(c) => match spec_parse_u32(c) {
                    Some(n) => n,
                    None => 1,
                },
                None => 1,
            };
            if reading.len() > 0 && text.len() > 0 {
                Some((
                    reading,
                    text,
                    if count == 0 {
                        1u32
                    } else {
                        count
                    },
                ))
            } else {
                None
            }
        },
        None => None,
    }
}

/// The records of a learning file, later lines overriding earlier ones.
pub open spec fn learning_model(lines: Seq<Seq<char>>) -> Seq<LearnedModel>
    decreases lines.len(),
{
    if lines.len() == 0 {
        Seq::empty()
    } else {
        let m = learning_model(lines.drop_last());
        match learned_row(lines.last()) {
            Some(row) => set_count(m, row.0, row.1, row.2),
            None => m,
        }
    }
}

/// The rank of a learned text: higher counts first, then by text.
pub open spec fn word_rank() -> spec_fn(WordCount) -> RankKey {
    |w: WordCount| (-(w.1 as int), w.0, Seq::<char>::empty())
}

/// The test "the record's reading is `key`".
pub open spec fn reading_is(key: Seq<char>) -> spec_fn(LearnedModel) -> bool {
    |e: LearnedModel| e.0 == key
}

/// The test "the record's reading extends `key`".
pub open spec fn reading_extends(key: Seq<char>) -> spec_fn(LearnedModel) -> bool {
    |e: LearnedModel| extends(e.0, key)
}

/// The text and count of a record.
pub open spec fn word_count() -> spec_fn(LearnedModel) -> WordCount {
    |e: LearnedModel| (e.1, e.2)
}

/// The learned texts of the records that pass `test`, most chosen first.
pub open spec fn ranked_by(m: Seq<LearnedModel>, test: spec_fn(LearnedModel) -> bool) -> Seq<
    WordCount,
> {
    sort_by_rank(m.filter(test).map_values(word_count()), word_rank())
}

/// The learned texts of the reading `reading`, most chosen first.
pub open spec fn ranked_words(m: Seq<LearnedModel>, reading: Seq<char>) -> Seq<WordCount> {
    ranked_by(m, reading_is(reading))
}

/// The candidates for the learned texts whose reading is the first `n`
/// characters of `h`.
pub open spec fn learned_hits_at(m: Seq<LearnedModel>, h: Seq<char>, n: int) -> Seq<CandidateModel> {
    ranked_words(m, h.take(n)).map_values(|w: WordCount| (w.0, h.skip(n), n as i32))
}

/// The candidates for all prefixes of `h` of length `n` down to 1.
pub open spec fn learned_prefix_hits(m: Seq<LearnedModel>, h: Seq<char>, n: int) -> Seq<
    CandidateModel,
>
    decreases n,
{
    if n <= 0 {
        Seq::empty()
    } else {
        learned_hits_at(m, h, n) + learned_prefix_hits(m, h, n - 1)
    }
}

/// The learned predictions for `h`: the texts of readings that extend `h`,
/// most chosen first, each covering all of `h`.
pub open spec fn spec_learned_predictions(m: Seq<LearnedModel>, h: Seq<char>) -> Seq<
    CandidateModel,
> {
    at_most(
        ranked_by(m, reading_extends(h)).map_values(
            |w: WordCount| (w.0, Seq::<char>::empty(), count_i32(h)),
        ),
        MAX_RETURNED_CANDIDATES as int,
    )
}

/// Records are unique per (reading, text), readings and texts are non-empty
/// and counts are at least 1.
pub open spec fn learning_wf(m: Seq<LearnedModel>) -> bool {
    &&& forall|i: int, j: int|
        0 <= i < j < m.len() ==> !(m[i].0 == m[j].0 && m[i].1 == m[j].1)
    &&& forall|i: int|
        0 <= i < m.len() ==> (#[trigger] m[i]).0.len() > 0 && m[i].1.len() > 0 && m[i].2 >= 1
}

proof fn lemma_set_count_wf(m: Seq<LearnedModel>, reading: Seq<char>, text: Seq<char>, count: u32)
    requires
        learning_wf(m),
        reading.len() > 0,
        text.len() > 0,
        count >= 1,
    ensures
        learning_wf(set_count(m, reading, text, count)),
{
    lemma_find_pair(m, reading, text);
}

/// A learned text with its count, ranked for lookups.
struct LearnedWord {
    text: Vec<char>,
    count: u32,
}

impl Ranked for LearnedWord {
    closed spec fn rank(&self) -> RankKey {
        (-(self.count as int), self.text@, Seq::<char>::empty())
    }

    fn ranks_before(&self, other: &Self) -> (r: bool) {
        if self.count != other.count {
            self.count > other.count
        } else {
            chars_less(self.text.as_slice(), other.text.as_slice())
        }
    }
}

spec fn word_of(w: LearnedWord) -> WordCount {
    (w.text@, w.count)
}

/// Counts of the texts that the user committed for each reading.
pub struct LearningStore {
    counts: Vec<(Vec<char>, Vec<char>, u32)>,
}

/// A stored record as its reading, text and count.
pub open spec fn record_model(e: (Vec<char>, Vec<char>, u32)) -> LearnedModel {
    (e.0@, e.1@, e.2)
}

impl View for LearningStore {
    type V = Seq<LearnedModel>;

    closed spec fn view(&self) -> Seq<LearnedModel> {
        self.counts@.map_values(|e: (Vec<char>, Vec<char>, u32)| record_model(e))
    }
}

impl LearningStore {
    #[verifier::type_invariant]
    closed spec fn inv(self) -> bool {
        learning_wf(self@)
    }

    /// A store with nothing learned.
    pub fn new() -> (s: LearningStore)
        ensures
            s@ == Seq::<LearnedModel>::empty(),
    {
        let s = LearningStore { counts: Vec::new() };
        assert(s@ =~= Seq::<LearnedModel>::empty());
        s
    }

    /// Index of the record of `(reading, text)`.
    fn find(&self, reading: &[char], text: &[char]) -> (r: Option<usize>)
        ensures
            r matches Some(i) ==> find_pair(self@, reading@, text@) == Some(i as int),
            r is None ==> find_pair(self@, reading@, text@) is None,
    {
        let ghost m = self@;
        proof {
            lemma_find_pair(m, reading@, text@);
        }
        let mut i: usize = 0;
        while i < self.counts.len()
            invariant
                m == self@,
                i <= self.counts@.len(),
                forall|j: int| 0 <= j < i ==> !(m[j].0 == reading@ && m[j].1 == text@),
            decreases self.counts@.len() - i,
        {
            assert(m[i as int] == record_model(self.counts@[i as int]));
            if chars_equal(self.counts[i].0.as_slice(), reading) && chars_equal(
                self.counts[i].1.as_slice(),
                text,
            ) {
                proof {
                    lemma_find_pair(m, reading@, text@);
                    if let Some(k) = find_pair(m, reading@, text@) {
                        if k > i {
                            assert(m[i as int].0 == reading@ && m[i as int].1 == text@);
                        }
                    }
                }
                return Some(i);
            }
            i += 1;
        }
        None
    }

    /// Sets the count of `(reading, text)` (see `set_count`).
    fn set(&mut self, reading: Vec<char>, text: Vec<char>, count: u32)
        requires
            reading@.len() > 0,
            text@.len() > 0,
            count >= 1,
        ensures
            final(self)@ == set_count(old(self)@, reading@, text@, count),
    {
        proof {
            use_type_invariant(&*self);
            lemma_set_count_wf(self@, reading@, text@, count);
            lemma_find_pair(self@, reading@, text@);
        }
        let ghost m = self@;
        let ghost target = set_count(m, reading@, text@, count);
        match self.find(reading.as_slice(), text.as_slice()) {
            Some(i) => {
                let mut counts: Vec<(Vec<char>, Vec<char>, u32)> = Vec::new();
                std::mem::swap(&mut counts, &mut self.counts);
                assert(counts@.map_values(|e: (Vec<char>, Vec<char>, u32)| record_model(e)) == m);
                counts[i] = (reading, text, count);
                assert(counts@.map_values(|e: (Vec<char>, Vec<char>, u32)| record_model(e))
                    =~= target);
                self.counts = counts;
            },
            None => {
                let mut counts: Vec<(Vec<char>, Vec<char>, u32)> = Vec::new();
                std::mem::swap(&mut counts, &mut self.counts);
                assert(counts@.map_values(|e: (Vec<char>, Vec<char>, u32)| record_model(e)) == m);
                counts.push((reading, text, count));
                assert(counts@.map_values(|e: (Vec<char>, Vec<char>, u32)| record_model(e))
                    =~= target);
                self.counts = counts;
            },
        }
    }

    /// The store that a learning file holds.
    pub fn parse(content: &str) -> (s: LearningStore)
        ensures
            s@ == learning_model(spec_lines(content@)),
    {
        let chars = chars_of(content);
        let lines = lines_of(chars.as_slice());
        let ghost ls = spec_lines(content@);
        let mut store = LearningStore::new();
        assert(learning_model(ls.take(0)) == Seq::<LearnedModel>::empty());
        let mut i: usize = 0;
        while i < lines.len()
            invariant
                ls == spec_lines(content@),
                lines@.len() == ls.len(),
                forall|k: int| 0 <= k < lines@.len() ==> #[trigger] lines@[k]@ == ls[k],
                i <= lines@.len(),
                store@ == learning_model(ls.take(i as int)),
            decreases lines@.len() - i,
        {
            assert(ls.take(i + 1).drop_last() == ls.take(i as int));
            assert(ls.take(i + 1).last() == ls[i as int]);
            match parse_learned_row(&lines[i]) {
                Some((reading, text, count)) => {
                    store.set(reading, text, count);
                },
                None => {},
            }
            i += 1;
        }
        assert(ls.take(lines@.len() as int) == ls);
        store
    }

    /// The count of `(reading, text)`, 0 when it was never committed.
    pub fn count(&self, reading: &str, text: &str) -> (r: u32)
        ensures
            r == count_of(self@, reading@, text@),
    {
        let r = chars_of(reading);
        let t = chars_of(text);
        match self.find(r.as_slice(), t.as_slice()) {
            Some(i) => {
                proof {
                    lemma_find_pair(self@, reading@, text@);
                }
                assert(self@[i as int] == record_model(self.counts@[i as int]));
                self.counts[i].2
            },
            None => 0,
        }
    }

    /// Counts one commit of `text` for `reading`, both trimmed; nothing is
    /// learned when either is empty or they are equal. Returns whether the
    /// store changed.
    pub fn record_commit(&mut self, reading: &str, text: &str) -> (changed: bool)
        ensures
            changed == (spec_trim(reading@).len() > 0 && spec_trim(text@).len() > 0 && spec_trim(
                reading@,
            ) != spec_trim(text@)),
            changed ==> final(self)@ == set_count(
                old(self)@,
                spec_trim(reading@),
                spec_trim(text@),
                next_count(count_of(old(self)@, spec_trim(reading@), spec_trim(text@))),
            ),
            !changed ==> final(self)@ == old(self)@,
    {
        let r_chars = chars_of(reading);
        let t_chars = chars_of(text);
        let r = trim_chars(r_chars.as_slice());
        let t = trim_chars(t_chars.as_slice());
        if r.len() == 0 || t.len() == 0 || chars_equal(r.as_slice(), t.as_slice()) {
            return false;
        }
        let old_count = match self.find(r.as_slice(), t.as_slice()) {
            Some(i) => {
                proof {
                    lemma_find_pair(self@, r@, t@);
                }
                assert(self@[i as int] == record_model(self.counts@[i as int]));
                self.counts[i].2
            },
            None => 0,
        };
        let next = if old_count == u32::MAX {
            u32::MAX
        } else {
            old_count + 1
        };
        self.set(r, t, next);
        true
    }

    /// The learned texts of the longest readings that start `hiragana`,
    /// each reading's texts most chosen first.
    pub fn lookup_best_prefixes(&self, hiragana: &str) -> (r: Vec<Candidate>)
        ensures
            models(r@) == at_most(
                learned_prefix_hits(self@, hiragana@, hiragana@.len() as int),
                MAX_RETURNED_CANDIDATES as int,
            ),
    {
        let h = chars_of(hiragana);
        let ghost m = self@;
        let ghost whole = learned_prefix_hits(m, h@, h@.len() as int);
        let mut out: Vec<Candidate> = Vec::new();
        let mut cur = h.len();
        assert(models(out@) + learned_prefix_hits(m, h@, cur as int) =~= whole);
        while cur > 0
            invariant
                m == self@,
                h@ == hiragana@,
                whole == learned_prefix_hits(m, h@, h@.len() as int),
                cur <= h@.len(),
                out@.len() < MAX_RETURNED_CANDIDATES,
                models(out@) + learned_prefix_hits(m, h@, cur as int) == whole,
            decreases cur,
        {
            let prefix = copy_range(h.as_slice(), 0, cur);
            let subtext = copy_range(h.as_slice(), cur, h.len());
            let words = self.sorted_words(&prefix, false);
            let ghost hits = learned_hits_at(m, h@, cur as int);
            assert(learned_prefix_hits(m, h@, cur as int) == hits + learned_prefix_hits(
                m,
                h@,
                cur - 1,
            ));
            assert(words@.len() == hits.len());
            let mut j: usize = 0;
            while j < words.len()
                invariant
                    m == self@,
                    h@ == hiragana@,
                    whole == learned_prefix_hits(m, h@, h@.len() as int),
                    0 < cur <= h@.len(),
                    words@.map_values(|w: LearnedWord| word_of(w)) == ranked_words(m, h@.take(cur as int)),
                    words@.len() == hits.len(),
                    subtext@ == h@.skip(cur as int),
                    hits == learned_hits_at(m, h@, cur as int),
                    j <= words@.len(),
                    out@.len() < MAX_RETURNED_CANDIDATES,
                    models(out@) + hits.skip(j as int) + learned_prefix_hits(m, h@, cur - 1) == whole,
                decreases words@.len() - j,
            {
                let ghost before = models(out@);
                let c = Candidate::from_chars(words[j].text.as_slice(), subtext.as_slice(), cur as i32);
                assert(words@.map_values(|w: LearnedWord| word_of(w))[j as int] == word_of(words@[j as int]));
                assert(hits[j as int] == c@);
                out.push(c);
                assert(models(out@) =~= before.push(c@));
                assert(hits.skip(j as int) =~= seq![c@] + hits.skip(j + 1));
                assert(models(out@) + hits.skip(j + 1) =~= before + hits.skip(j as int));
                j += 1;
                if out.len() >= MAX_RETURNED_CANDIDATES {
                    assert(whole.take(MAX_RETURNED_CANDIDATES as int) =~= models(out@));
                    assert(at_most(whole, MAX_RETURNED_CANDIDATES as int) == whole.take(
                        MAX_RETURNED_CANDIDATES as int,
                    )) by {
                        if whole.len() == MAX_RETURNED_CANDIDATES {
                            assert(whole.take(MAX_RETURNED_CANDIDATES as int) =~= whole);
                        }
                    }
                    return out;
                }
            }
            assert(hits.skip(j as int) =~= Seq::<CandidateModel>::empty());
            assert(models(out@) + learned_prefix_hits(m, h@, cur - 1) =~= whole);
            cur -= 1;
        }
        assert(models(out@) =~= whole);
        out
    }

    /// The learned texts of readings that extend `hiragana`, most chosen
    /// first.
    pub fn lookup_predictions(&self, hiragana: &str) -> (r: Vec<Candidate>)
        ensures
            models(r@) == spec_learned_predictions(self@, hiragana@),
    {
        let h = chars_of(hiragana);
        let words = self.sorted_words(&h, true);
        let count = h.len() as i32;
        let ghost all = ranked_by(self@, reading_extends(h@)).map_values(
            |w: WordCount| (w.0, Seq::<char>::empty(), count_i32(h@)),
        );
        let mut out: Vec<Candidate> = Vec::new();
        let mut j: usize = 0;
        while j < words.len() && out.len() < MAX_RETURNED_CANDIDATES
            invariant
                all.len() == words@.len(),
                forall|k: int|
                    0 <= k < words@.len() ==> #[trigger] all[k] == (
                        words@[k].text@,
                        Seq::<char>::empty(),
                        count_i32(h@),
                    ),
                count == count_i32(h@),
                j <= words@.len(),
                j <= MAX_RETURNED_CANDIDATES,
                out@.len() == j,
                models(out@) == all.take(j as int),
            decreases words@.len() - j,
        {
            let ghost before = models(out@);
            let empty: Vec<char> = Vec::new();
            let c = Candidate::from_chars(words[j].text.as_slice(), empty.as_slice(), count);
            out.push(c);
            assert(models(out@) =~= all.take(j + 1));
            j += 1;
        }
        proof {
            if j == words@.len() {
                assert(all.take(j as int) =~= all);
                if all.len() > MAX_RETURNED_CANDIDATES {
                    assert(false);
                }
            } else {
                assert(j == MAX_RETURNED_CANDIDATES);
                if all.len() == MAX_RETURNED_CANDIDATES {
                    assert(all.take(j as int) =~= all);
                }
            }
        }
        assert(models(out@) == at_most(all, MAX_RETURNED_CANDIDATES as int));
        out
    }

    /// The learned words of `key` (or, with `extending`, of every reading
    /// that extends `key`), most chosen first.
    fn sorted_words(&self, key: &Vec<char>, extending: bool) -> (r: Vec<LearnedWord>)
        ensures
            !extending ==> r@.map_values(|w: LearnedWord| word_of(w)) == ranked_words(self@, key@),
            extending ==> r@.map_values(|w: LearnedWord| word_of(w)) == ranked_by(
                self@,
                reading_extends(key@),
            ),
    {
        let ghost m = self@;
        let ghost f = if extending {
            reading_extends(key@)
        } else {
            reading_is(key@)
        };
        let ghost g = word_count();
        let mut words: Vec<LearnedWord> = Vec::new();
        let mut i: usize = 0;
        assert(m.take(0).filter(f) =~= Seq::<LearnedModel>::empty()) by {
            reveal(Seq::filter);
        }
        while i < self.counts.len()
            invariant
                m == self@,
                f == (if extending {
                    reading_extends(key@)
                } else {
                    reading_is(key@)
                }),
                g == word_count(),
                i <= self.counts@.len(),
                words@.map_values(|w: LearnedWord| word_of(w)) == m.take(i as int).filter(f).map_values(g),
            decreases self.counts@.len() - i,
        {
            let e = &self.counts[i];
            assert(m[i as int] == record_model(*e));
            let hit = if extending {
                chars_start_with(e.0.as_slice(), key.as_slice()) && !chars_equal(
                    e.0.as_slice(),
                    key.as_slice(),
                )
            } else {
                chars_equal(e.0.as_slice(), key.as_slice())
            };
            assert(hit == f(m[i as int]));
            assert(m.take(i + 1) == m.take(i as int).push(m[i as int]));
            proof {
                m.take(i as int).lemma_filter_push(m[i as int], f);
            }
            if hit {
                let ghost before = words@;
                words.push(LearnedWord { text: copy_chars(&e.1), count: e.2 });
                assert(words@.map_values(|w: LearnedWord| word_of(w)) =~= before.map_values(
                    |w: LearnedWord| word_of(w),
                ).push(g(m[i as int])));
            }
            i += 1;
        }
        assert(m.take(i as int) == m);
        let sorted = stable_sort(words);
        proof {
            lemma_sort_by_rank_map(words@, rank_of::<LearnedWord>(), |w: LearnedWord| word_of(w), word_rank());
        }
        sorted
    }
}

fn parse_learned_row(line: &Vec<char>) -> (r: Option<(Vec<char>, Vec<char>, u32)>)
    ensures
        r is Some == learned_row(line@) is Some,
        r matches Some(row) ==> learned_row(line@) == Some(record_model(row)),
        r matches Some(row) ==> row.0@.len() > 0 && row.1@.len() > 0 && row.2 >= 1,
{
    let (reading, rest) = split_once_chars(line.as_slice(), '\t');
    match rest {
        Some(rest) => {
            let (text, count_field) = split_once_chars(rest.as_slice(), '\t');
            let count: u32 = match count_field {
                Some(c) => match crate::csv::parse_u32(c.as_slice()) {
                    Some(n) => n,
                    None => 1,
                },
                None => 1,
            };
            if reading.len() > 0 && text.len() > 0 {
                Some((
                    reading,
                    text,
                    if count == 0 {
                        1
                    } else {
                        count
                    },
                ))
            } else {
                None
            }
        },
        None => None,
    }
}

/// The learned texts of a reading come most chosen first, then in text
/// order, and each record of the reading is among them as often as it is
/// stored.
pub proof fn lemma_learned_ranking(m: Seq<LearnedModel>, reading: Seq<char>)
    ensures
        crate::sort::sorted_by_key(ranked_words(m, reading), word_rank()),
        ranked_words(m, reading).to_multiset() == m.filter(reading_is(reading)).map_values(
            word_count(),
        ).to_multiset(),
{
    let ws = m.filter(reading_is(reading)).map_values(word_count());
    crate::sort::lemma_sort_by_rank_sorted(ws, word_rank());
    lemma_sort_by_rank_multiset(ws, word_rank());
}

/// A reading or text that the text form can hold: no tab, line feed or
/// carriage return.
pub open spec fn storable_text(t: Seq<char>) -> bool {
    !t.contains('\t') && !t.contains('\n') && !t.contains('\r')
}

/// Every reading and text of the store is storable.
pub open spec fn storable(m: Seq<LearnedModel>) -> bool {
    forall|i: int| 0 <= i < m.len() ==> storable_text((#[trigger] m[i]).0) && storable_text(m[i].1)
}

/// The line that stores a record: reading, text and count, separated by
/// tabs.
pub open spec fn record_line(e: LearnedModel) -> Seq<char> {
    e.0 + seq!['\t'] + e.1 + seq!['\t'] + decimal(e.2 as nat)
}

/// Lines joined with a line feed between each two.
pub open spec fn joined_lines(lines: Seq<Seq<char>>) -> Seq<char>
    decreases lines.len(),
{
    if lines.len() == 0 {
        Seq::empty()
    } else if lines.len() == 1 {
        lines[0]
    } else {
        joined_lines(lines.drop_last()) + seq!['\n'] + lines.last()
    }
}

/// The order in which records are stored: by reading, then by text.
pub open spec fn record_order() -> spec_fn(LearnedModel) -> RankKey {
    |e: LearnedModel| (0int, e.0, e.1)
}

/// The lines that store the records, sorted by reading and text.
pub open spec fn persisted_lines(m: Seq<LearnedModel>) -> Seq<Seq<char>> {
    sort_by_rank(m, record_order()).map_values(|e: LearnedModel| record_line(e))
}

/// The text that stores the learned counts: their lines joined.
pub open spec fn spec_persisted(m: Seq<LearnedModel>) -> Seq<char> {
    joined_lines(persisted_lines(m))
}

/// A record ranked by reading and text, for storing.
struct StoredRecord {
    reading: Vec<char>,
    text: Vec<char>,
    count: u32,
}

impl Ranked for StoredRecord {
    closed spec fn rank(&self) -> RankKey {
        (0int, self.reading@, self.text@)
    }

    fn ranks_before(&self, other: &Self) -> (r: bool) {
        proof {
            crate::text::lemma_chars_lt_irreflexive(self.reading@);
        }
        if chars_equal(self.reading.as_slice(), other.reading.as_slice()) {
            chars_less(self.text.as_slice(), other.text.as_slice())
        } else {
            chars_less(self.reading.as_slice(), other.reading.as_slice())
        }
    }
}

spec fn stored_model(r: StoredRecord) -> LearnedModel {
    (r.reading@, r.text@, r.count)
}

impl LearningStore {
    /// The text that stores the learned counts (see `spec_persisted`).
    pub fn persist_content(&self) -> (r: String)
        ensures
            r@ == spec_persisted(self@),
    {
        let ghost m = self@;
        let mut records: Vec<StoredRecord> = Vec::new();
        let mut i: usize = 0;
        while i < self.counts.len()
            invariant
                m == self@,
                i <= self.counts@.len(),
                records@.map_values(|x: StoredRecord| stored_model(x)) == m.take(i as int),
            decreases self.counts@.len() - i,
        {
            let e = &self.counts[i];
            let ghost before = records@;
            let rec = StoredRecord { reading: copy_chars(&e.0), text: copy_chars(&e.1), count: e.2 };
            assert(m[i as int] == record_model(self.counts@[i as int]));
            assert(stored_model(rec) == m[i as int]);
            records.push(rec);
            assert(records@.map_values(|x: StoredRecord| stored_model(x)) =~= before.map_values(
                |x: StoredRecord| stored_model(x),
            ).push(stored_model(rec)));
            assert(m.take(i + 1) =~= m.take(i as int).push(m[i as int]));
            i += 1;
        }
        assert(m.take(i as int) == m);
        let ghost unsorted = records@;
        let sorted = stable_sort(records);
        proof {
            lemma_sort_by_rank_map(
                unsorted,
                rank_of::<StoredRecord>(),
                |x: StoredRecord| stored_model(x),
                record_order(),
            );
        }
        let ghost rows = sort_by_rank(m, record_order());
        assert(sorted@.map_values(|x: StoredRecord| stored_model(x)) == rows);
        let ghost lines = rows.map_values(|e: LearnedModel| record_line(e));
        let mut out: Vec<char> = Vec::new();
        let mut j: usize = 0;
        assert(lines.take(0) =~= Seq::<Seq<char>>::empty());
        while j < sorted.len()
            invariant
                rows == sorted@.map_values(|x: StoredRecord| stored_model(x)),
                lines == rows.map_values(|e: LearnedModel| record_line(e)),
                j <= sorted@.len(),
                out@ == joined_lines(lines.take(j as int)),
            decreases sorted@.len() - j,
        {
            let ghost before = lines.take(j as int);
            if j > 0 {
                out.push('\n');
            }
            let rec = &sorted[j];
            push_all(&mut out, rec.reading.as_slice());
            out.push('\t');
            push_all(&mut out, rec.text.as_slice());
            out.push('\t');
            let digits = decimal_chars(rec.count as u64);
            push_all(&mut out, digits.as_slice());
            assert(rows[j as int] == stored_model(sorted@[j as int]));
            assert(lines.take(j + 1).drop_last() =~= before);
            assert(lines.take(j + 1).last() == record_line(rows[j as int]));
            assert(out@ =~= joined_lines(lines.take(j + 1)));
            j += 1;
        }
        assert(lines.take(sorted@.len() as int) =~= lines);
        crate::text::string_from_chars(out.as_slice())
    }
}

proof fn lemma_decimal_digits(n: nat)
    ensures
        decimal(n).len() > 0,
        all_digits(decimal(n)),
        digits_value(decimal(n)) == n,
    decreases n,
{
    if n >= 10 {
        lemma_decimal_digits(n / 10);
        let t = decimal(n / 10);
        let d = digit_char((n % 10) as int);
        assert(decimal(n) == t.push(d));
        assert(decimal(n).drop_last() == t);
        assert((d as u32) - ('0' as u32) == n % 10);
        assert(all_digits(decimal(n))) by {
            assert forall|i: int| 0 <= i < decimal(n).len() implies spec_is_ascii_digit(
                #[trigger] decimal(n)[i],
            ) by {
                if i < t.len() {
                    assert(decimal(n)[i] == t[i]);
                }
            }
        }
        assert(digits_value(decimal(n)) == digits_value(t) * 10 + n % 10);
        assert((n / 10) * 10 + n % 10 == n) by (nonlinear_arith);
    } else {
        let d = digit_char(n as int);
        assert((d as u32) - ('0' as u32) == n);
        assert(decimal(n).drop_last() =~= Seq::<char>::empty());
        assert(digits_value(Seq::<char>::empty()) == 0);
        assert(digits_value(decimal(n)) == digits_value(decimal(n).drop_last()) * 10 + n);
    }
}

proof fn lemma_digits_storable(s: Seq<char>)
    requires
        all_digits(s),
    ensures
        storable_text(s),
{
    assert forall|i: int| 0 <= i < s.len() implies s[i] != '\t' && s[i] != '\n' && s[i] != '\r' by {
        assert(spec_is_ascii_digit(s[i]));
    }
}

/// The first `c` in `x`, `c`, `y` is the one after `x` when `x` has none.
pub proof fn lemma_first_index(x: Seq<char>, y: Seq<char>, c: char)
    requires
        !x.contains(c),
    ensures
        index_of_char(x + seq![c] + y, c) == Some(x.len() as int),
{
    let s = x + seq![c] + y;
    lemma_index_of_char(s, c);
    assert(s[x.len() as int] == c);
    match index_of_char(s, c) {
        Some(i) => {
            if i < x.len() {
                assert(x[i] == c);
            }
        },
        None => {},
    }
}

proof fn lemma_record_line_row(e: LearnedModel)
    requires
        e.0.len() > 0,
        e.1.len() > 0,
        e.2 >= 1,
        storable_text(e.0),
        storable_text(e.1),
    ensures
        learned_row(record_line(e)) == Some(e),
{
    let dec = decimal(e.2 as nat);
    lemma_decimal_digits(e.2 as nat);
    let rest = e.1 + seq!['\t'] + dec;
    let line = record_line(e);
    assert(line =~= e.0 + seq!['\t'] + rest);
    lemma_first_index(e.0, rest, '\t');
    assert(head_before(line, '\t') =~= e.0);
    assert(tail_after(line, '\t') == Some(rest)) by {
        assert(line.skip(e.0.len() as int + 1) =~= rest);
    }
    lemma_first_index(e.1, dec, '\t');
    assert(head_before(rest, '\t') =~= e.1);
    assert(tail_after(rest, '\t') == Some(dec)) by {
        assert(rest.skip(e.1.len() as int + 1) =~= dec);
    }
    assert(spec_is_ascii_digit(dec[0]));
    assert(spec_parse_u32(dec) == Some(e.2));
}

proof fn lemma_split_joined(ls: Seq<Seq<char>>)
    requires
        ls.len() > 0,
        forall|i: int| 0 <= i < ls.len() ==> !(#[trigger] ls[i]).contains('\n'),
    ensures
        split_on(joined_lines(ls), '\n') == ls,
    decreases ls.len(),
{
    if ls.len() == 1 {
        lemma_split_on_free(ls[0], '\n');
        assert(seq![ls[0]] =~= ls);
    } else {
        let init = ls.drop_last();
        assert forall|i: int| 0 <= i < init.len() implies !(#[trigger] init[i]).contains('\n') by {
            assert(init[i] == ls[i]);
        }
        lemma_split_joined(init);
        lemma_split_on_concat(joined_lines(init), ls.last(), '\n');
        lemma_split_on_free(ls.last(), '\n');
        assert(init + seq![ls.last()] =~= ls);
    }
}

/// The lines of joined non-empty lines without line breaks are those lines.
pub proof fn lemma_lines_joined(ls: Seq<Seq<char>>)
    requires
        forall|i: int|
            0 <= i < ls.len() ==> (#[trigger] ls[i]).len() > 0 && !ls[i].contains('\n')
                && !ls[i].contains('\r'),
    ensures
        spec_lines(joined_lines(ls)) == ls,
{
    if ls.len() == 0 {
        assert(split_on(Seq::<char>::empty(), '\n') == seq![Seq::<char>::empty()]);
        assert(spec_lines(joined_lines(ls)) =~= ls);
    } else {
        lemma_split_joined(ls);
        let ended = ls.drop_last().map_values(|p: Seq<char>| strip_cr(p));
        assert forall|i: int| 0 <= i < ended.len() implies ended[i] == ls[i] by {
            let p = ls[i];
            if p.len() > 0 && p.last() == '\r' {
                assert(p.contains('\r'));
            }
        }
        assert(ended.push(ls.last()) =~= ls);
    }
}

proof fn lemma_model_of_lines(rows: Seq<LearnedModel>)
    requires
        learning_wf(rows),
        storable(rows),
    ensures
        learning_model(rows.map_values(|e: LearnedModel| record_line(e))) == rows,
    decreases rows.len(),
{
    let lines = rows.map_values(|e: LearnedModel| record_line(e));
    if rows.len() == 0 {
        assert(lines.len() == 0);
        assert(learning_model(lines) =~= rows);
    } else {
        let init = rows.drop_last();
        assert(storable(init)) by {
            assert forall|i: int| 0 <= i < init.len() implies storable_text((#[trigger] init[i]).0)
                && storable_text(init[i].1) by {
                assert(init[i] == rows[i]);
            }
        }
        assert(learning_wf(init)) by {
            assert forall|i: int| 0 <= i < init.len() implies (#[trigger] init[i]).0.len() > 0
                && init[i].1.len() > 0 && init[i].2 >= 1 by {
                assert(init[i] == rows[i]);
            }
        }
        lemma_model_of_lines(init);
        assert(lines.drop_last() =~= init.map_values(|e: LearnedModel| record_line(e)));
        let e = rows.last();
        assert(rows[rows.len() - 1] == e);
        lemma_record_line_row(e);
        lemma_find_pair(init, e.0, e.1);
        if let Some(k) = find_pair(init, e.0, e.1) {
            assert(rows[k] == init[k]);
        }
        assert(init.push(e) =~= rows);
    }
}

proof fn lemma_sorted_records(m: Seq<LearnedModel>)
    requires
        learning_wf(m),
    ensures
        learning_wf(sort_by_rank(m, record_order())),
        storable(m) ==> storable(sort_by_rank(m, record_order())),
        forall|r: Seq<char>, t: Seq<char>|
            count_of(sort_by_rank(m, record_order()), r, t) == #[trigger] count_of(m, r, t),
{
    broadcast use vstd::seq_lib::group_to_multiset_ensures;

    let s = sort_by_rank(m, record_order());
    lemma_sort_by_rank_multiset(m, record_order());
    assert(m.no_duplicates()) by {
        assert forall|i: int, j: int| 0 <= i < m.len() && 0 <= j < m.len() && i != j implies m[i]
            != m[j] by {
            if i < j {
                assert(!(m[i].0 == m[j].0 && m[i].1 == m[j].1));
            } else {
                assert(!(m[j].0 == m[i].0 && m[j].1 == m[i].1));
            }
        }
    }
    m.lemma_multiset_has_no_duplicates();
    s.lemma_multiset_has_no_duplicates_conv();
    assert forall|i: int| 0 <= i < s.len() implies exists|k: int| 0 <= k < m.len() && m[k] == #[trigger] s[i] by {
        assert(s.contains(s[i]));
        assert(s.to_multiset().count(s[i]) > 0);
        assert(m.to_multiset().count(s[i]) > 0);
        assert(m.contains(s[i]));
    }
    assert forall|i: int, j: int| 0 <= i < j < s.len() implies !(s[i].0 == s[j].0 && s[i].1 == s[j].1) by {
        let a = choose|k: int| 0 <= k < m.len() && m[k] == s[i];
        let b = choose|k: int| 0 <= k < m.len() && m[k] == s[j];
        if s[i].0 == s[j].0 && s[i].1 == s[j].1 {
            if a < b {
                assert(!(m[a].0 == m[b].0 && m[a].1 == m[b].1));
            } else if b < a {
                assert(!(m[b].0 == m[a].0 && m[b].1 == m[a].1));
            }
        }
    }
    assert forall|i: int| 0 <= i < s.len() implies (#[trigger] s[i]).0.len() > 0 && s[i].1.len() > 0
        && s[i].2 >= 1 by {
        let a = choose|k: int| 0 <= k < m.len() && m[k] == s[i];
    }
    if storable(m) {
        assert forall|i: int| 0 <= i < s.len() implies storable_text((#[trigger] s[i]).0)
            && storable_text(s[i].1) by {
            let a = choose|k: int| 0 <= k < m.len() && m[k] == s[i];
        }
    }
    assert forall|r: Seq<char>, t: Seq<char>|
        count_of(s, r, t) == #[trigger] count_of(m, r, t) by {
        lemma_find_pair(m, r, t);
        lemma_find_pair(s, r, t);
        match find_pair(m, r, t) {
            Some(a) => {
                assert(m.contains(m[a]));
                assert(m.to_multiset().count(m[a]) > 0);
                assert(s.to_multiset().count(m[a]) > 0);
                assert(s.contains(m[a]));
                let k = choose|k: int| 0 <= k < s.len() && s[k] == m[a];
                match find_pair(s, r, t) {
                    Some(k2) => {
                        if k2 < k {
                            assert(!(s[k2].0 == s[k].0 && s[k2].1 == s[k].1));
                        } else if k < k2 {
                            assert(!(s[k].0 == s[k2].0 && s[k].1 == s[k2].1));
                        }
                    },
                    None => {
                        assert(s[k].0 == r && s[k].1 == t);
                    },
                }
            },
            None => {
                match find_pair(s, r, t) {
                    Some(k) => {
                        let a = choose|a: int| 0 <= a < m.len() && m[a] == s[k];
                        assert(m[a].0 == r && m[a].1 == t);
                    },
                    None => {},
                }
            },
        }
    }
}

/// Storing the learned counts and reading the stored text back gives the
/// records sorted by reading and text, and so every reading and text its
/// count again, when no reading or text holds a tab, line feed or carriage
/// return.
pub proof fn lemma_persist_round_trip(m: Seq<LearnedModel>)
    requires
        learning_wf(m),
        storable(m),
    ensures
        learning_model(spec_lines(spec_persisted(m))) == sort_by_rank(m, record_order()),
        forall|r: Seq<char>, t: Seq<char>|
            #[trigger] count_of(learning_model(spec_lines(spec_persisted(m))), r, t) == count_of(
                m,
                r,
                t,
            ),
{
    let rows = sort_by_rank(m, record_order());
    lemma_sorted_records(m);
    let lines = rows.map_values(|e: LearnedModel| record_line(e));
    assert forall|i: int| 0 <= i < lines.len() implies (#[trigger] lines[i]).len() > 0
        && !lines[i].contains('\n') && !lines[i].contains('\r') by {
        let e = rows[i];
        let dec = decimal(e.2 as nat);
        lemma_decimal_digits(e.2 as nat);
        lemma_digits_storable(dec);
        assert(lines[i] == e.0 + seq!['\t'] + e.1 + seq!['\t'] + dec);
        assert(lines[i].len() > 0);
        assert forall|c: char| c == '\n' || c == '\r' implies !lines[i].contains(c) by {
            if lines[i].contains(c) {
                let j = choose|j: int| 0 <= j < lines[i].len() && lines[i][j] == c;
                let a = e.0.len() as int;
                let b = a + 1 + e.1.len();
                if j < a {
                    assert(e.0[j] == c);
                } else if j == a {
                } else if j < b {
                    assert(e.1[j - a - 1] == c);
                } else if j == b {
                } else {
                    assert(dec[j - b - 1] == c);
                }
            }
        }
    }
    lemma_lines_joined(lines);
    lemma_model_of_lines(rows);
}

/// The count after one more commit, which stays at `u32::MAX` once there.
pub open spec fn next_count(count: u32) -> u32 {
    if count == u32::MAX {
        count
    } else {
        (count + 1) as u32
    }
}

} // verus!
