//! The system dictionary: readings with scored words read from CSV files,
//! and the lookups on it: best prefixes, compounds of several words,
//! predictions and typo corrections.

use vstd::prelude::*;
use crate::candidate::{count_i32, models, Candidate, CandidateModel, MAX_RETURNED_CANDIDATES};
use crate::csv::{csv_fields, csv_fields_of};
use crate::sort::{key_lt, lemma_sort_by_rank_map, lemma_sort_by_rank_multiset, lemma_sort_by_rank_sorted, sorted_by_key, rank_of, sort_by_rank, stable_sort, RankKey, Ranked};
use crate::text::{
    chars_equal, chars_less, chars_lt, chars_of, chars_start_with, copy_chars, copy_range,
    katakana_to_hiragana_chars, push_all, spec_katakana_to_hiragana,
};
use crate::typo::{edit_distance_chars_one_or_less, within_one_edit};
use crate::wordmap::{
    at_most, best_prefixes, extends, find_entry, find_key, lemma_find_key, lemma_flat_map_contains, map_model,
    spec_best_prefixes, EntryModel, TextValue, WordEntry,
};

verus! {

/// At most this many words are kept for one reading.
pub const MAX_DICTIONARY_CANDIDATES_PER_KEY: usize = 32;

/// A word with its score; a higher score ranks first.
pub type ScoredWord = (Seq<char>, int);

/// A reading with its scored words.
pub type ScoredEntry = (Seq<char>, Seq<ScoredWord>);

/// The rank of a scored word: higher scores first, then by text.
pub open spec fn score_rank() -> spec_fn(ScoredWord) -> RankKey {
    |w: ScoredWord| (-w.1, w.0, Seq::<char>::empty())
}

/// A dictionary word: its text and score.
pub struct DictionaryEntry {
    text: Vec<char>,
    score: i64,
}

/// A dictionary word as its text and score.
pub closed spec fn scored_word(e: DictionaryEntry) -> ScoredWord {
    (e.text@, e.score as int)
}

impl TextValue for DictionaryEntry {
    closed spec fn text(&self) -> Seq<char> {
        self.text@
    }

    fn text_chars(&self) -> (r: &Vec<char>) {
        &self.text
    }
}

impl Ranked for DictionaryEntry {
    closed spec fn rank(&self) -> RankKey {
        (-(self.score as int), self.text@, Seq::<char>::empty())
    }

    fn ranks_before(&self, other: &Self) -> (r: bool) {
        if self.score != other.score {
            self.score > other.score
        } else {
            chars_less(self.text.as_slice(), other.text.as_slice())
        }
    }
}

impl DictionaryEntry {
    proof fn lemma_views(&self)
        ensures
            self.text() == self.text@,
            self.rank() == (score_rank())(scored_word(*self)),
    {
    }

    fn duplicate(&self) -> (r: DictionaryEntry)
        ensures
            scored_word(r) == scored_word(*self),
    {
        DictionaryEntry { text: copy_chars(&self.text), score: self.score }
    }
}

/// A reading with its words as texts and scores.
pub closed spec fn scored_entry(e: WordEntry<DictionaryEntry>) -> ScoredEntry {
    (e.0@, e.1@.map_values(|w: DictionaryEntry| scored_word(w)))
}

/// The largest magnitude of a score: sums of sixteen scores fit in an `i64`.
pub const SCORE_LIMIT: i64 = 288230376151711744;

/// A score cut to `[-SCORE_LIMIT, SCORE_LIMIT]`.
pub open spec fn clamped_score(score: int) -> int {
    if score < -SCORE_LIMIT {
        -SCORE_LIMIT as int
    } else if score > SCORE_LIMIT {
        SCORE_LIMIT as int
    } else {
        score
    }
}

/// The entry that a dictionary CSV line gives with the score `score`: the
/// reading (field 0) in hiragana and the text (field 1); none for a line
/// with fewer than two fields.
pub open spec fn csv_entry(line: Seq<char>, score: int) -> Option<(Seq<char>, ScoredWord)> {
    let fields = csv_fields(line);
    if fields.len() < 2 {
        None
    } else {
        Some((spec_katakana_to_hiragana(fields[0]), (fields[1], clamped_score(score))))
    }
}

/// `m` with the scored word added under `key`.
pub open spec fn scored_add(m: Seq<ScoredEntry>, key: Seq<char>, w: ScoredWord) -> Seq<ScoredEntry> {
    match scored_find(m, key) {
        Some(i) => m.update(i, (key, m[i].1.push(w))),
        None => m.push((key, seq![w])),
    }
}

/// Index of the first entry with reading `key`.
pub open spec fn scored_find(m: Seq<ScoredEntry>, key: Seq<char>) -> Option<int> {
    find_key(texts_of(m), key)
}

/// The readings and word texts of a scored map.
pub open spec fn texts_of(m: Seq<ScoredEntry>) -> Seq<EntryModel> {
    m.map_values(|e: ScoredEntry| (e.0, e.1.map_values(|w: ScoredWord| w.0)))
}

/// The words of `ws` whose text does not occur earlier in `ws`.
pub open spec fn first_texts(ws: Seq<ScoredWord>) -> Seq<ScoredWord>
    decreases ws.len(),
{
    if ws.len() == 0 {
        ws
    } else {
        let rest = first_texts(ws.drop_last());
        if ws.drop_last().map_values(|w: ScoredWord| w.0).contains(ws.last().0) {
            rest
        } else {
            rest.push(ws.last())
        }
    }
}

/// The words that a reading keeps: best score first (then by text), each
/// text once, at most `MAX_DICTIONARY_CANDIDATES_PER_KEY`.
pub open spec fn kept_words(ws: Seq<ScoredWord>) -> Seq<ScoredWord> {
    at_most(first_texts(sort_by_rank(ws, score_rank())), MAX_DICTIONARY_CANDIDATES_PER_KEY as int)
}

/// Every score lies within `SCORE_LIMIT`.
pub open spec fn scores_bounded(m: Seq<ScoredEntry>) -> bool {
    forall|i: int, j: int|
        0 <= i < m.len() && 0 <= j < m[i].1.len() ==> -SCORE_LIMIT <= #[trigger] m[i].1[j].1
            <= SCORE_LIMIT
}

/// The system dictionary.
pub struct Dictionary {
    entries: Vec<WordEntry<DictionaryEntry>>,
}

impl View for Dictionary {
    type V = Seq<ScoredEntry>;

    closed spec fn view(&self) -> Seq<ScoredEntry> {
        self.entries@.map_values(|e: WordEntry<DictionaryEntry>| scored_entry(e))
    }
}

proof fn lemma_texts_of_map(entries: Seq<WordEntry<DictionaryEntry>>)
    ensures
        texts_of(entries.map_values(|e: WordEntry<DictionaryEntry>| scored_entry(e))) =~= map_model(
            entries,
        ),
{
    let a = texts_of(entries.map_values(|e: WordEntry<DictionaryEntry>| scored_entry(e)));
    let b = map_model(entries);
    assert forall|i: int| 0 <= i < a.len() implies a[i] == b[i] by {
        let e = entries[i];
        assert(e.1@.map_values(|w: DictionaryEntry| scored_word(w)).map_values(|w: ScoredWord| w.0)
            =~= e.1@.map_values(|v: DictionaryEntry| v.text()));
    }
}

impl Dictionary {
    #[verifier::type_invariant]
    closed spec fn inv(self) -> bool {
        scores_bounded(self@)
    }

    /// An empty dictionary.
    pub fn new() -> (d: Dictionary)
        ensures
            d@ == Seq::<ScoredEntry>::empty(),
    {
        let d = Dictionary { entries: Vec::new() };
        assert(d@ =~= Seq::<ScoredEntry>::empty());
        d
    }

    /// Adds the word of one dictionary CSV line with the score `score`
    /// (see `csv_entry`); a line with fewer than two fields adds nothing.
    /// Words are ranked by score, higher first; the caller gives each line's
    /// score as an integer that orders lines as their score field does.
    pub fn add_csv_line(&mut self, line: &str, score: i64)
        ensures
            final(self)@ == match csv_entry(line@, score as int) {
                Some(e) => scored_add(old(self)@, e.0, e.1),
                None => old(self)@,
            },
    {
        proof {
            use_type_invariant(&*self);
        }
        let chars = chars_of(line);
        let fields = csv_fields_of(chars.as_slice());
        if fields.len() < 2 {
            return;
        }
        let score = if score < -SCORE_LIMIT {
            -SCORE_LIMIT
        } else if score > SCORE_LIMIT {
            SCORE_LIMIT
        } else {
            score
        };
        let key = katakana_to_hiragana_chars(fields[0].as_slice());
        let word = DictionaryEntry { text: copy_chars(&fields[1]), score };
        let ghost m = self@;
        let mut entries: Vec<WordEntry<DictionaryEntry>> = Vec::new();
        std::mem::swap(&mut entries, &mut self.entries);
        proof {
            lemma_texts_of_map(entries@);
            lemma_find_key(map_model(entries@), key@);
        }
        let ghost w = scored_word(word);
        assert(entries@.map_values(|e: WordEntry<DictionaryEntry>| scored_entry(e)) == m);
        assert(-SCORE_LIMIT <= w.1 <= SCORE_LIMIT);
        match find_entry(&entries, key.as_slice()) {
            Some(i) => {
                assert(m[i as int] == scored_entry(entries@[i as int]));
                let mut e = entries.remove(i);
                let ghost old_words = e.1@;
                e.1.push(word);
                assert(e.1@.map_values(|x: DictionaryEntry| scored_word(x)) =~= old_words.map_values(
                    |x: DictionaryEntry| scored_word(x),
                ).push(w));
                entries.insert(i, e);
                assert(entries@.map_values(|e: WordEntry<DictionaryEntry>| scored_entry(e))
                    =~= m.update(i as int, (key@, m[i as int].1.push(w))));
            },
            None => {
                let mut words: Vec<DictionaryEntry> = Vec::new();
                words.push(word);
                assert(words@.map_values(|x: DictionaryEntry| scored_word(x)) =~= seq![w]);
                entries.push((key, words));
                assert(entries@.map_values(|e: WordEntry<DictionaryEntry>| scored_entry(e))
                    =~= m.push((key@, seq![w])));
            },
        }
        self.entries = entries;
    }

    /// The words of the longest readings that start `hiragana`.
    pub fn lookup_best_prefixes(&self, hiragana: &str) -> (r: Vec<Candidate>)
        ensures
            models(r@) == spec_best_prefixes(texts_of(self@), hiragana@),
    {
        proof {
            lemma_texts_of_map(self.entries@);
        }
        let h = chars_of(hiragana);
        best_prefixes(&self.entries, &h)
    }

    /// The words of readings that extend `hiragana`, best score first.
    pub fn lookup_predictions(&self, hiragana: &str) -> (r: Vec<Candidate>)
        ensures
            models(r@) == spec_dictionary_predictions(self@, hiragana@),
    {
        let h = chars_of(hiragana);
        self.ranked_lookup(&h, false)
    }

    /// Words of readings one edit away from `hiragana` (see
    /// `spec_typo_corrections`).
    pub fn lookup_typo_corrections(&self, hiragana: &str) -> (r: Vec<Candidate>)
        ensures
            models(r@) == spec_typo_corrections(self@, hiragana@),
    {
        let h = chars_of(hiragana);
        if h.len() < 3 {
            let r: Vec<Candidate> = Vec::new();
            assert(models(r@) =~= Seq::<CandidateModel>::empty());
            return r;
        }
        self.ranked_lookup(&h, true)
    }

    fn ranked_lookup(&self, h: &Vec<char>, near: bool) -> (r: Vec<Candidate>)
        requires
            near ==> h@.len() >= 3,
        ensures
            models(r@) == ranked_candidates(
                self@,
                if near {
                    reading_near(h@)
                } else {
                    reading_extends(h@)
                },
                h@,
            ),
    {
        let ghost m = self@;
        let ghost test = if near {
            reading_near(h@)
        } else {
            reading_extends(h@)
        };
        let ghost g = entry_words();
        let mut words: Vec<DictionaryEntry> = Vec::new();
        let mut i: usize = 0;
        assert(m.take(0).filter(test) =~= Seq::<ScoredEntry>::empty()) by {
            reveal(Seq::filter);
        }
        assert(words@.map_values(|x: DictionaryEntry| scored_word(x)) =~= m.take(0).filter(
            test,
        ).flat_map(g)) by {
            reveal_with_fuel(Seq::flat_map, 1);
        }
        while i < self.entries.len()
            invariant
                m == self@,
                near ==> h@.len() >= 3,
                test == (if near {
                    reading_near(h@)
                } else {
                    reading_extends(h@)
                }),
                g == entry_words(),
                i <= self.entries@.len(),
                words@.map_values(|x: DictionaryEntry| scored_word(x)) == m.take(i as int).filter(
                    test,
                ).flat_map(g),
            decreases self.entries@.len() - i,
        {
            let e = &self.entries[i];
            let ghost em = m[i as int];
            assert(em == scored_entry(*e));
            let key = &e.0;
            let hit = if near {
                key.len() > 0 && key[0] == h[0] && edit_distance_chars_one_or_less(
                    key.as_slice(),
                    h.as_slice(),
                )
            } else {
                chars_start_with(key.as_slice(), h.as_slice()) && !chars_equal(
                    key.as_slice(),
                    h.as_slice(),
                )
            };
            assert(hit == test(em));
            assert(m.take(i + 1) == m.take(i as int).push(em));
            proof {
                m.take(i as int).lemma_filter_push(em, test);
            }
            if hit {
                let ghost base = words@.map_values(|x: DictionaryEntry| scored_word(x));
                proof {
                    m.take(i as int).filter(test).lemma_flat_map_push(g, em);
                }
                let mut j: usize = 0;
                while j < e.1.len()
                    invariant
                        em == scored_entry(*e),
                        g == entry_words(),
                        j <= e.1@.len(),
                        words@.map_values(|x: DictionaryEntry| scored_word(x)) == base + em.1.take(
                            j as int,
                        ),
                    decreases e.1@.len() - j,
                {
                    let ghost before = words@;
                    let w = e.1[j].duplicate();
                    let ghost sw = scored_word(w);
                    words.push(w);
                    assert(em.1 == e.1@.map_values(|x: DictionaryEntry| scored_word(x)));
                    assert(em.1[j as int] == scored_word(e.1@[j as int]));
                    assert(sw == em.1[j as int]);
                    assert(words@.map_values(|x: DictionaryEntry| scored_word(x)) =~= before.map_values(
                        |x: DictionaryEntry| scored_word(x),
                    ).push(sw));
                    assert(em.1.take(j + 1) =~= em.1.take(j as int).push(em.1[j as int]));
                    assert(words@.map_values(|x: DictionaryEntry| scored_word(x)) =~= base
                        + em.1.take(j + 1));
                    j += 1;
                }
                assert(em.1.take(j as int) == em.1);
            }
            i += 1;
        }
        assert(m.take(i as int) == m);
        let ghost all = words@;
        let sorted = stable_sort(words);
        proof {
            assert forall|x: DictionaryEntry| #[trigger] (score_rank())(scored_word(x)) == (rank_of::<
                DictionaryEntry,
            >())(x) by {
                x.lemma_views();
            }
            lemma_sort_by_rank_map(
                all,
                rank_of::<DictionaryEntry>(),
                |w: DictionaryEntry| scored_word(w),
                score_rank(),
            );
        }
        let ghost ranked = sorted@.map_values(|w: DictionaryEntry| scored_word(w));
        let ghost cands = ranked.map_values(whole_candidate(h@));
        let count = h.len() as i32;
        let mut out: Vec<Candidate> = Vec::new();
        let mut k: usize = 0;
        while k < sorted.len() && out.len() < MAX_RETURNED_CANDIDATES
            invariant
                ranked == sorted@.map_values(|w: DictionaryEntry| scored_word(w)),
                cands == ranked.map_values(whole_candidate(h@)),
                count == count_i32(h@),
                k <= sorted@.len(),
                k <= MAX_RETURNED_CANDIDATES,
                out@.len() == k,
                models(out@) == cands.take(k as int),
            decreases sorted@.len() - k,
        {
            let empty: Vec<char> = Vec::new();
            let c = Candidate::from_chars(sorted[k].text.as_slice(), empty.as_slice(), count);
            assert(cands[k as int] == c@);
            out.push(c);
            assert(models(out@) =~= cands.take(k + 1));
            k += 1;
        }
        proof {
            if k == sorted@.len() {
                assert(cands.take(k as int) =~= cands);
            } else if cands.len() == MAX_RETURNED_CANDIDATES {
                assert(cands.take(k as int) =~= cands);
            }
        }
        out
    }

    /// The best compounds of several readings that spell `hiragana`.
    pub fn lookup_compound_candidates(&self, hiragana: &str) -> (r: Vec<Candidate>)
        ensures
            models(r@) == spec_compound_candidates(self@, hiragana@),
    {
        proof {
            use_type_invariant(self);
        }
        let h = chars_of(hiragana);
        let length = h.len();
        if length < 2 || length > 16 {
            let r: Vec<Candidate> = Vec::new();
            assert(models(r@) =~= Seq::<CandidateModel>::empty());
            return r;
        }
        let mut memo: Vec<Option<Vec<CompoundCandidate>>> = Vec::new();
        let mut k: usize = 0;
        while k < length
            invariant
                k <= length,
                memo@.len() == k,
                forall|i: int| 0 <= i < k ==> (#[trigger] memo@[i]) is None,
            decreases length - k,
        {
            memo.push(None);
            k += 1;
        }
        let compounds_found = self.compound_from(&h, 0, &mut memo);
        let ghost all = compounds_found@;
        let sorted = stable_sort(compounds_found);
        proof {
            assert forall|x: CompoundCandidate| #[trigger] (score_rank())(compound_word(x)) == (rank_of::<
                CompoundCandidate,
            >())(x) by {
                x.lemma_views();
            }
            lemma_sort_by_rank_map(
                all,
                rank_of::<CompoundCandidate>(),
                |c: CompoundCandidate| compound_word(c),
                score_rank(),
            );
        }
        let ghost ranked = compound_models(sorted@);
        let ghost cands = ranked.map_values(whole_candidate(h@));
        let count = length as i32;
        let mut out: Vec<Candidate> = Vec::new();
        let mut j: usize = 0;
        while j < sorted.len() && out.len() < MAX_RETURNED_CANDIDATES
            invariant
                ranked == compound_models(sorted@),
                cands == ranked.map_values(whole_candidate(h@)),
                count == count_i32(h@),
                j <= sorted@.len(),
                j <= MAX_RETURNED_CANDIDATES,
                out@.len() == j,
                models(out@) == cands.take(j as int),
            decreases sorted@.len() - j,
        {
            let empty: Vec<char> = Vec::new();
            let c = Candidate::from_chars(sorted[j].text.as_slice(), empty.as_slice(), count);
            assert(cands[j as int] == c@);
            out.push(c);
            assert(models(out@) =~= cands.take(j + 1));
            j += 1;
        }
        proof {
            if j == sorted@.len() {
                assert(cands.take(j as int) =~= cands);
            } else if cands.len() == MAX_RETURNED_CANDIDATES {
                assert(cands.take(j as int) =~= cands);
            }
        }
        out
    }

    /// The best compounds of `h[start..]` (see `compounds`), remembered in
    /// `memo` per start position.
    fn compound_from(
        &self,
        h: &Vec<char>,
        start: usize,
        memo: &mut Vec<Option<Vec<CompoundCandidate>>>,
    ) -> (r: Vec<CompoundCandidate>)
        requires
            h@.len() <= 16,
            start <= h@.len(),
            old(memo)@.len() == h@.len(),
            memo_ok(old(memo)@, self@, h@),
            scores_bounded(self@),
        ensures
            final(memo)@.len() == h@.len(),
            memo_ok(final(memo)@, self@, h@),
            compound_models(r@) == compounds(self@, h@, start as int),
            compounds_bounded(compound_models(r@), (h@.len() - start) * SCORE_LIMIT),
        decreases h@.len() - start,
    {
        let ghost m = self@;
        let length = h.len();
        if start == length {
            let mut r: Vec<CompoundCandidate> = Vec::new();
            r.push(CompoundCandidate { text: Vec::new(), score: 0 });
            assert(compound_models(r@) =~= seq![(Seq::<char>::empty(), 0int)]);
            return r;
        }
        match &memo[start] {
            Some(v) => {
                assert(memo@[start as int] is Some);
                return copy_compounds(v);
            },
            None => {},
        }
        let mut parts: Vec<CompoundCandidate> = Vec::new();
        let mut end = length;
        assert(compound_models(parts@) + compound_parts(m, h@, start as int, end as int)
            =~= compound_parts(m, h@, start as int, length as int));
        while end > start
            invariant
                m == self@,
                scores_bounded(m),
                length == h@.len() <= 16,
                start < length,
                start <= end <= length,
                memo@.len() == length,
                memo_ok(memo@, m, h@),
                compound_models(parts@) + compound_parts(m, h@, start as int, end as int)
                    == compound_parts(m, h@, start as int, length as int),
                compounds_bounded(compound_models(parts@), (length - start) * SCORE_LIMIT),
            decreases end,
        {
            let key = copy_range(h.as_slice(), start, end);
            proof {
                lemma_texts_of_map(self.entries@);
                lemma_find_key(map_model(self.entries@), key@);
            }
            let ghost here = match scored_find(m, h@.subrange(start as int, end as int)) {
                Some(i) => combine(
                    at_most(m[i].1, 3),
                    at_most(compounds(m, h@, end as int), 3),
                ),
                None => Seq::<ScoredWord>::empty(),
            };
            assert(compound_parts(m, h@, start as int, end as int) == here + compound_parts(
                m,
                h@,
                start as int,
                end - 1,
            ));
            match find_entry(&self.entries, key.as_slice()) {
                Some(i) => {
                    let tails = self.compound_from(h, end, memo);
                    let words = &self.entries[i].1;
                    assert(m[i as int] == scored_entry(self.entries@[i as int]));
                    let ghost ws = at_most(m[i as int].1, 3);
                    let ghost ts = at_most(compound_models(tails@), 3);
                    let nw = if words.len() < 3 {
                        words.len()
                    } else {
                        3
                    };
                    let nt = if tails.len() < 3 {
                        tails.len()
                    } else {
                        3
                    };
                    let ghost base = compound_models(parts@);
                    let ghost f = |w: ScoredWord| ts.map_values(
                        |t: ScoredWord| (w.0 + t.0, w.1 + t.1),
                    );
                    assert(ws.take(0).flat_map(f) =~= Seq::<ScoredWord>::empty()) by {
                        reveal_with_fuel(Seq::flat_map, 1);
                    }
                    let mut a: usize = 0;
                    while a < nw
                        invariant
                            m == self@,
                            scores_bounded(m),
                            i < self.entries@.len(),
                            words@ == self.entries@[i as int].1@,
                            m[i as int] == scored_entry(self.entries@[i as int]),
                            nw as int == ws.len(),
                            nt as int == ts.len(),
                            ws == at_most(m[i as int].1, 3),
                            ts == at_most(compound_models(tails@), 3),
                            nt <= tails@.len(),
                            f == (|w: ScoredWord| ts.map_values(
                                |t: ScoredWord| (w.0 + t.0, w.1 + t.1),
                            )),
                            a <= nw,
                            length == h@.len() <= 16,
                            start < end <= length,
                            compounds_bounded(compound_models(tails@), (length - end) * SCORE_LIMIT),
                            compound_models(parts@) == base + ws.take(a as int).flat_map(f),
                            compounds_bounded(base, (length - start) * SCORE_LIMIT),
                            compounds_bounded(compound_models(parts@), (length - start) * SCORE_LIMIT),
                        decreases nw - a,
                    {
                        let w = &words[a];
                        assert(ws[a as int] == scored_word(*w));
                        assert(-SCORE_LIMIT <= m[i as int].1[a as int].1 <= SCORE_LIMIT);
                        let ghost before = compound_models(parts@);
                        let mut b: usize = 0;
                        while b < nt
                            invariant
                                nt as int == ts.len(),
                                nt <= tails@.len(),
                                ts == at_most(compound_models(tails@), 3),
                                b <= nt,
                                ws[a as int] == scored_word(*w),
                                -SCORE_LIMIT <= w.score <= SCORE_LIMIT,
                                length <= 16,
                                start < end <= length,
                                compounds_bounded(
                                    compound_models(tails@),
                                    (length - end) * SCORE_LIMIT,
                                ),
                                compound_models(parts@) == before + f(ws[a as int]).take(b as int),
                                f == (|w: ScoredWord| ts.map_values(
                                    |t: ScoredWord| (w.0 + t.0, w.1 + t.1),
                                )),
                                compounds_bounded(before, (length - start) * SCORE_LIMIT),
                                compounds_bounded(
                                    compound_models(parts@),
                                    (length - start) * SCORE_LIMIT,
                                ),
                            decreases nt - b,
                        {
                            let t = &tails[b];
                            assert(ts[b as int] == compound_word(*t));
                            assert(-((length - end) * SCORE_LIMIT) <= compound_models(tails@)[b as int].1
                                <= (length - end) * SCORE_LIMIT);
                            assert((length - end) * SCORE_LIMIT + SCORE_LIMIT <= (length - start)
                                * SCORE_LIMIT) by (nonlinear_arith)
                                requires
                                    start < end,
                            ;
                            assert((length - start) * SCORE_LIMIT <= 16 * SCORE_LIMIT) by (
                            nonlinear_arith)
                                requires
                                    length <= 16,
                                    start < length,
                            ;
                            let mut text = copy_chars(&w.text);
                            push_all(&mut text, t.text.as_slice());
                            let c = CompoundCandidate { text, score: w.score + t.score };
                            let ghost cm = compound_word(c);
                            let ghost pb = compound_models(parts@);
                            parts.push(c);
                            assert(compound_models(parts@) =~= pb.push(cm));
                            assert(f(ws[a as int]).take(b + 1) =~= f(ws[a as int]).take(
                                b as int,
                            ).push(f(ws[a as int])[b as int]));
                            assert(cm == f(ws[a as int])[b as int]);
                            assert(compound_models(parts@) =~= before + f(ws[a as int]).take(
                                b + 1,
                            ));
                            b += 1;
                        }
                        assert(f(ws[a as int]).take(b as int) =~= f(ws[a as int]));
                        proof {
                            ws.take(a as int).lemma_flat_map_push(f, ws[a as int]);
                            assert(ws.take(a + 1) == ws.take(a as int).push(ws[a as int]));
                        }
                        a += 1;
                    }
                    assert(ws.take(a as int) == ws);
                    assert(compounds(m, h@, end as int) == compound_models(tails@));
                    assert(here == ws.flat_map(f));
                },
                None => {
                    assert(here =~= Seq::<ScoredWord>::empty());
                },
            }
            assert(compound_models(parts@) + compound_parts(m, h@, start as int, end - 1)
                =~= compound_parts(m, h@, start as int, length as int));
            end -= 1;
        }
        assert(compound_parts(m, h@, start as int, start as int) == Seq::<ScoredWord>::empty());
        assert(compound_models(parts@) =~= compound_parts(m, h@, start as int, length as int));
        let ghost all = parts@;
        let sorted = stable_sort(parts);
        proof {
            assert forall|x: CompoundCandidate| #[trigger] (score_rank())(compound_word(x)) == (rank_of::<
                CompoundCandidate,
            >())(x) by {
                x.lemma_views();
            }
            lemma_sort_by_rank_map(
                all,
                rank_of::<CompoundCandidate>(),
                |c: CompoundCandidate| compound_word(c),
                score_rank(),
            );
        }
        let mut r = sorted;
        r.truncate(MAX_RETURNED_CANDIDATES);
        proof {
            let sm = compound_models(sorted@);
            assert(compound_models(r@) =~= at_most(sm, MAX_RETURNED_CANDIDATES as int));
            assert forall|k: int| 0 <= k < r@.len() implies -((length - start) * SCORE_LIMIT)
                <= #[trigger] compound_models(r@)[k].1 <= (length - start) * SCORE_LIMIT by {
                assert(r@[k] == sorted@[k]);
                assert(all.contains(sorted@[k]));
                let idx = choose|idx: int| 0 <= idx < all.len() && all[idx] == sorted@[k];
                assert(compound_models(all)[idx] == compound_word(all[idx]));
            }
        }
        let ghost final_r = compound_models(r@);
        memo.set(start, Some(copy_compounds(&r)));
        proof {
            assert forall|i: int|
                0 <= i < memo@.len() && (#[trigger] memo@[i]) is Some implies compound_models(
                memo@[i].unwrap()@,
            ) == compounds(m, h@, i) && compounds_bounded(
                compound_models(memo@[i].unwrap()@),
                (h@.len() - i) * SCORE_LIMIT,
            ) by {
                if i == start {
                } else {
                }
            }
        }
        r
    }

    /// Puts the words of every reading in final order (see `kept_words`).
    pub fn finish(&mut self)
        ensures
            final(self)@.len() == old(self)@.len(),
            forall|i: int|
                0 <= i < old(self)@.len() ==> #[trigger] final(self)@[i] == (
                    old(self)@[i].0,
                    kept_words(old(self)@[i].1),
                ),
    {
        proof {
            use_type_invariant(&*self);
        }
        let ghost m = self@;
        let mut entries: Vec<WordEntry<DictionaryEntry>> = Vec::new();
        std::mem::swap(&mut entries, &mut self.entries);
        let mut done: Vec<WordEntry<DictionaryEntry>> = Vec::new();
        assert(entries@.map_values(|e: WordEntry<DictionaryEntry>| scored_entry(e)) == m);
        while entries.len() > 0
            invariant
                m.len() == done@.len() + entries@.len(),
                scores_bounded(m),
                forall|i: int|
                    0 <= i < done@.len() ==> #[trigger] scored_entry(done@[i]) == (
                        m[i].0,
                        kept_words(m[i].1),
                    ),
                forall|i: int|
                    0 <= i < entries@.len() ==> #[trigger] scored_entry(entries@[i]) == m[done@.len()
                        + i],
                scores_bounded(done@.map_values(|e: WordEntry<DictionaryEntry>| scored_entry(e))),
            decreases entries@.len(),
        {
            let ghost k = done@.len() as int;
            let ghost before = entries@;
            let (key, words) = entries.remove(0);
            assert(scored_entry(before[0]) == m[k]);
            assert(scored_entry((key, words)) == m[k]);
            assert forall|j: int| 0 <= j < words@.len() implies -SCORE_LIMIT
                <= #[trigger] words@[j].score <= SCORE_LIMIT by {
                assert(m[k].1 == words@.map_values(|x: DictionaryEntry| scored_word(x)));
                assert(m[k].1[j] == scored_word(words@[j]));
                assert(-SCORE_LIMIT <= m[k].1[j].1 <= SCORE_LIMIT);
            }
            let kept = keep_words(words);
            let ghost done_before = done@;
            done.push((key, kept));
            assert forall|i: int| 0 <= i < entries@.len() implies #[trigger] scored_entry(
                entries@[i],
            ) == m[done@.len() + i] by {
                assert(entries@[i] == before[i + 1]);
            }
            assert forall|i: int| 0 <= i < done@.len() implies #[trigger] scored_entry(done@[i]) == (
                m[i].0,
                kept_words(m[i].1),
            ) by {
                if i < k {
                    assert(done@[i] == done_before[i]);
                }
            }
            proof {
                let dm = done@.map_values(|e: WordEntry<DictionaryEntry>| scored_entry(e));
                assert forall|i: int, j: int|
                    0 <= i < dm.len() && 0 <= j < dm[i].1.len() implies -SCORE_LIMIT
                    <= #[trigger] dm[i].1[j].1 <= SCORE_LIMIT by {
                    if i < k {
                        assert(dm[i] == done_before.map_values(
                            |e: WordEntry<DictionaryEntry>| scored_entry(e),
                        )[i]);
                    }
                }
            }
        }
        assert(done@.map_values(|e: WordEntry<DictionaryEntry>| scored_entry(e)) =~= Seq::new(
            m.len(),
            |i: int| (m[i].0, kept_words(m[i].1)),
        ));
        self.entries = done;
    }
}

/// The test "the reading extends `h`".
pub open spec fn reading_extends(h: Seq<char>) -> spec_fn(ScoredEntry) -> bool {
    |e: ScoredEntry| extends(e.0, h)
}

/// The test "the reading starts like `h` and is at most one edit from it".
pub open spec fn reading_near(h: Seq<char>) -> spec_fn(ScoredEntry) -> bool {
    |e: ScoredEntry| e.0.len() > 0 && e.0[0] == h[0] && within_one_edit(e.0, h)
}

/// The words of the readings that pass `test`, best score first, each as a
/// candidate for all of `h`, at most `MAX_RETURNED_CANDIDATES`.
pub open spec fn ranked_candidates(
    m: Seq<ScoredEntry>,
    test: spec_fn(ScoredEntry) -> bool,
    h: Seq<char>,
) -> Seq<CandidateModel> {
    at_most(
        sort_by_rank(m.filter(test).flat_map(entry_words()), score_rank()).map_values(
            whole_candidate(h),
        ),
        MAX_RETURNED_CANDIDATES as int,
    )
}

/// The words of an entry.
pub open spec fn entry_words() -> spec_fn(ScoredEntry) -> Seq<ScoredWord> {
    |e: ScoredEntry| e.1
}

/// A word as a candidate for all of `h`.
pub open spec fn whole_candidate(h: Seq<char>) -> spec_fn(ScoredWord) -> CandidateModel {
    |w: ScoredWord| (w.0, Seq::<char>::empty(), count_i32(h))
}

/// The prediction lookup: words of readings that extend `h`.
pub open spec fn spec_dictionary_predictions(m: Seq<ScoredEntry>, h: Seq<char>) -> Seq<
    CandidateModel,
> {
    ranked_candidates(m, reading_extends(h), h)
}

/// The typo correction lookup: for a reading of three or more characters,
/// the words of readings with the same first character that are one edit
/// away.
pub open spec fn spec_typo_corrections(m: Seq<ScoredEntry>, h: Seq<char>) -> Seq<CandidateModel> {
    if h.len() < 3 {
        Seq::empty()
    } else {
        ranked_candidates(m, reading_near(h), h)
    }
}

/// `c` is a word of an entry of `m` that passes `test`, as a candidate for
/// all of `h`.
pub open spec fn tested_word(
    m: Seq<ScoredEntry>,
    test: spec_fn(ScoredEntry) -> bool,
    h: Seq<char>,
    c: CandidateModel,
) -> bool {
    exists|i: int, a: int|
        0 <= i < m.len() && test(m[i]) && 0 <= a < m[i].1.len() && c == (
            #[trigger] m[i].1[a].0,
            Seq::<char>::empty(),
            count_i32(h),
        )
}

proof fn lemma_ranked_members(m: Seq<ScoredEntry>, test: spec_fn(ScoredEntry) -> bool, h: Seq<char>)
    ensures
        forall|k: int|
            0 <= k < ranked_candidates(m, test, h).len() ==> tested_word(
                m,
                test,
                h,
                #[trigger] ranked_candidates(m, test, h)[k],
            ),
        ranked_candidates(m, test, h).len() < MAX_RETURNED_CANDIDATES ==> forall|i: int, a: int|
            0 <= i < m.len() && test(m[i]) && 0 <= a < m[i].1.len() ==> ranked_candidates(
                m,
                test,
                h,
            ).contains((#[trigger] m[i].1[a].0, Seq::<char>::empty(), count_i32(h))),
{
    let fm = m.filter(test);
    let ws = fm.flat_map(entry_words());
    let s = sort_by_rank(ws, score_rank());
    let all = s.map_values(whole_candidate(h));
    let r = ranked_candidates(m, test, h);
    assert(r == at_most(all, MAX_RETURNED_CANDIDATES as int));
    lemma_sort_by_rank_multiset(ws, score_rank());
    m.filter_lemma(test);
    assert forall|k: int| 0 <= k < r.len() implies tested_word(m, test, h, #[trigger] r[k]) by {
        let x = s[k];
        assert(r[k] == whole_candidate(h)(x));
        assert(ws.contains(x)) by {
            broadcast use vstd::seq_lib::group_to_multiset_ensures;
            assert(s.to_multiset().count(x) > 0);
        }
        lemma_flat_map_contains(fm, entry_words(), x);
        let j = choose|j: int| 0 <= j < fm.len() && (entry_words())(#[trigger] fm[j]).contains(x);
        let e = fm[j];
        assert(test(e));
        m.lemma_filter_contains_rev(test, e);
        let i = choose|i: int| 0 <= i < m.len() && m[i] == e;
        let a = choose|a: int| 0 <= a < e.1.len() && e.1[a] == x;
        assert(r[k] == (m[i].1[a].0, Seq::<char>::empty(), count_i32(h)));
    }
    if r.len() < MAX_RETURNED_CANDIDATES {
        assert(r == all);
        assert forall|i: int, a: int|
            0 <= i < m.len() && test(m[i]) && 0 <= a < m[i].1.len() implies r.contains(
            (#[trigger] m[i].1[a].0, Seq::<char>::empty(), count_i32(h)),
        ) by {
            let e = m[i];
            assert(fm.contains(e));
            let j = choose|j: int| 0 <= j < fm.len() && fm[j] == e;
            let x = e.1[a];
            assert((entry_words())(fm[j]).contains(x));
            lemma_flat_map_contains(fm, entry_words(), x);
            assert(s.contains(x)) by {
                broadcast use vstd::seq_lib::group_to_multiset_ensures;
                assert(ws.to_multiset().count(x) > 0);
            }
            let p = choose|p: int| 0 <= p < s.len() && s[p] == x;
            assert(all[p] == (x.0, Seq::<char>::empty(), count_i32(h)));
        }
    }
}

/// Entry `i` of `m` has a reading that starts like `h` and is at most one
/// edit (a substitution, an insertion or a deletion) away from it.
pub open spec fn near_entry(m: Seq<ScoredEntry>, h: Seq<char>, i: int) -> bool {
    &&& 0 <= i < m.len()
    &&& m[i].0.len() > 0
    &&& m[i].0[0] == h[0]
    &&& within_one_edit(m[i].0, h)
}

/// `c` is a word of an entry near `h` (see `near_entry`), as a candidate
/// for all of `h`.
pub open spec fn near_word(m: Seq<ScoredEntry>, h: Seq<char>, c: CandidateModel) -> bool {
    exists|i: int, a: int|
        near_entry(m, h, i) && 0 <= a < m[i].1.len() && c == (
            #[trigger] m[i].1[a].0,
            Seq::<char>::empty(),
            count_i32(h),
        )
}

/// Typo correction offers, for a reading of three or more characters, only
/// words of readings that start like it and are at most one edit away, each
/// covering all of it; while fewer than `MAX_RETURNED_CANDIDATES` come back,
/// every word of every such reading is among them. A shorter reading gets
/// none.
pub proof fn lemma_typo_corrections_near(m: Seq<ScoredEntry>, h: Seq<char>)
    ensures
        h.len() < 3 ==> spec_typo_corrections(m, h).len() == 0,
        h.len() >= 3 ==> forall|k: int|
            0 <= k < spec_typo_corrections(m, h).len() ==> near_word(
                m,
                h,
                #[trigger] spec_typo_corrections(m, h)[k],
            ),
        h.len() >= 3 && spec_typo_corrections(m, h).len() < MAX_RETURNED_CANDIDATES ==> forall|
            i: int,
            a: int,
        |
            near_entry(m, h, i) && 0 <= a < m[i].1.len() ==> spec_typo_corrections(m, h).contains(
                (#[trigger] m[i].1[a].0, Seq::<char>::empty(), count_i32(h)),
            ),
{
    if h.len() >= 3 {
        let test = reading_near(h);
        let r = spec_typo_corrections(m, h);
        lemma_ranked_members(m, test, h);
        assert forall|k: int| 0 <= k < r.len() implies near_word(m, h, #[trigger] r[k]) by {
            assert(tested_word(m, test, h, r[k]));
            let (i, a) = choose|i: int, a: int|
                0 <= i < m.len() && test(m[i]) && 0 <= a < m[i].1.len() && r[k] == (
                    #[trigger] m[i].1[a].0,
                    Seq::<char>::empty(),
                    count_i32(h),
                );
            assert(near_entry(m, h, i));
        }
        if r.len() < MAX_RETURNED_CANDIDATES {
            assert forall|i: int, a: int|
                near_entry(m, h, i) && 0 <= a < m[i].1.len() implies r.contains(
                (#[trigger] m[i].1[a].0, Seq::<char>::empty(), count_i32(h)),
            ) by {
                assert(test(m[i]));
            }
        }
    }
}

/// `c` is a word of an entry of `m` whose reading starts with `h` and is
/// longer than it, as a candidate for all of `h`.
pub open spec fn longer_reading_word(m: Seq<ScoredEntry>, h: Seq<char>, c: CandidateModel) -> bool {
    exists|i: int, a: int|
        0 <= i < m.len() && h.is_prefix_of(m[i].0) && m[i].0.len() > h.len() && 0 <= a
            < m[i].1.len() && c == (#[trigger] m[i].1[a].0, Seq::<char>::empty(), count_i32(h))
}

/// The prediction lookup offers only words of readings that start with `h`
/// and are longer than it, each covering all of `h`; while fewer than
/// `MAX_RETURNED_CANDIDATES` come back, every word of every such reading is
/// among them.
pub proof fn lemma_dictionary_predictions_extend(m: Seq<ScoredEntry>, h: Seq<char>)
    ensures
        forall|k: int|
            0 <= k < spec_dictionary_predictions(m, h).len() ==> longer_reading_word(
                m,
                h,
                #[trigger] spec_dictionary_predictions(m, h)[k],
            ),
        spec_dictionary_predictions(m, h).len() < MAX_RETURNED_CANDIDATES ==> forall|i: int, a: int|
            0 <= i < m.len() && h.is_prefix_of(m[i].0) && m[i].0.len() > h.len() && 0 <= a
                < m[i].1.len() ==> spec_dictionary_predictions(m, h).contains(
                (#[trigger] m[i].1[a].0, Seq::<char>::empty(), count_i32(h)),
            ),
{
    let test = reading_extends(h);
    let r = spec_dictionary_predictions(m, h);
    lemma_ranked_members(m, test, h);
    assert forall|k: int| 0 <= k < r.len() implies longer_reading_word(m, h, #[trigger] r[k]) by {
        assert(tested_word(m, test, h, r[k]));
        let (i, a) = choose|i: int, a: int|
            0 <= i < m.len() && test(m[i]) && 0 <= a < m[i].1.len() && r[k] == (
                #[trigger] m[i].1[a].0,
                Seq::<char>::empty(),
                count_i32(h),
            );
        assert(extends(m[i].0, h));
        assert(m[i].0.len() > h.len()) by {
            if m[i].0.len() == h.len() {
                assert(m[i].0 =~= h);
            }
        }
    }
    if r.len() < MAX_RETURNED_CANDIDATES {
        assert forall|i: int, a: int|
            0 <= i < m.len() && h.is_prefix_of(m[i].0) && m[i].0.len() > h.len() && 0 <= a
                < m[i].1.len() implies r.contains(
            (#[trigger] m[i].1[a].0, Seq::<char>::empty(), count_i32(h)),
        ) by {
            assert(m[i].0 != h);
            assert(test(m[i]));
        }
    }
}

/// Every pairing of one of `words` with one of `tails`: texts joined, scores
/// added.
pub open spec fn combine(words: Seq<ScoredWord>, tails: Seq<ScoredWord>) -> Seq<ScoredWord> {
    words.flat_map(|w: ScoredWord| tails.map_values(|t: ScoredWord| (w.0 + t.0, w.1 + t.1)))
}

/// The best compounds that spell `h[start..]` as a sequence of dictionary
/// readings: best score first, at most `MAX_RETURNED_CANDIDATES`; the empty
/// rest has the one empty compound.
pub open spec fn compounds(m: Seq<ScoredEntry>, h: Seq<char>, start: int) -> Seq<ScoredWord>
    decreases h.len() - start, h.len() + 1,
{
    if start < 0 || start >= h.len() {
        seq![(Seq::<char>::empty(), 0int)]
    } else {
        at_most(
            sort_by_rank(compound_parts(m, h, start, h.len() as int), score_rank()),
            MAX_RETURNED_CANDIDATES as int,
        )
    }
}

/// The compounds of `h[start..]` whose first reading ends at `end` or
/// before, longest first reading first: the first three words of that
/// reading, each followed by the first three compounds of the rest.
pub open spec fn compound_parts(m: Seq<ScoredEntry>, h: Seq<char>, start: int, end: int) -> Seq<
    ScoredWord,
>
    decreases h.len() - start, end - start,
{
    if start < 0 || end <= start || end > h.len() {
        Seq::empty()
    } else {
        let here = match scored_find(m, h.subrange(start, end)) {
            Some(i) => combine(at_most(m[i].1, 3), at_most(compounds(m, h, end), 3)),
            None => Seq::empty(),
        };
        here + compound_parts(m, h, start, end - 1)
    }
}

/// The compound lookup: for a reading of 2 to 16 characters, its best
/// compounds, each covering all of it.
pub open spec fn spec_compound_candidates(m: Seq<ScoredEntry>, h: Seq<char>) -> Seq<CandidateModel> {
    if h.len() < 2 || h.len() > 16 {
        Seq::empty()
    } else {
        at_most(
            sort_by_rank(compounds(m, h, 0), score_rank()).map_values(whole_candidate(h)),
            MAX_RETURNED_CANDIDATES as int,
        )
    }
}

/// `c` spells `h[start..]` with dictionary words: its text is the texts of
/// words of readings of `m` that, one after another, make up `h[start..]`,
/// and its score is the sum of those words' scores; the empty rest is spelled
/// by the empty text with score 0.
pub open spec fn spells(m: Seq<ScoredEntry>, h: Seq<char>, start: int, c: ScoredWord) -> bool
    decreases h.len() - start,
{
    if start < 0 {
        false
    } else if start >= h.len() {
        c.0.len() == 0 && c.1 == 0
    } else {
        exists|end: int, i: int, a: int|
            #![trigger h.subrange(start, end), m[i].1[a]]
            start < end <= h.len() && 0 <= i < m.len() && m[i].0 == h.subrange(start, end) && 0 <= a
                < m[i].1.len() && m[i].1[a].0.is_prefix_of(c.0) && spells(
                m,
                h,
                end,
                (c.0.skip(m[i].1[a].0.len() as int), c.1 - m[i].1[a].1),
            )
    }
}

proof fn lemma_combine_member(ws: Seq<ScoredWord>, ts: Seq<ScoredWord>, x: ScoredWord)
    requires
        combine(ws, ts).contains(x),
    ensures
        exists|a: int, b: int|
            0 <= a < ws.len() && 0 <= b < ts.len() && x == (ws[a].0 + ts[b].0, ws[a].1 + ts[b].1),
{
    let f = |w: ScoredWord| ts.map_values(|t: ScoredWord| (w.0 + t.0, w.1 + t.1));
    assert(combine(ws, ts) == ws.flat_map(f));
    lemma_flat_map_contains(ws, f, x);
    let a = choose|a: int| 0 <= a < ws.len() && f(#[trigger] ws[a]).contains(x);
    let fa = f(ws[a]);
    let b = choose|b: int| 0 <= b < fa.len() && fa[b] == x;
    assert(x == (ws[a].0 + ts[b].0, ws[a].1 + ts[b].1));
}

proof fn lemma_compound_parts_member(
    m: Seq<ScoredEntry>,
    h: Seq<char>,
    start: int,
    end: int,
    x: ScoredWord,
)
    requires
        0 <= start,
        end <= h.len(),
        compound_parts(m, h, start, end).contains(x),
    ensures
        exists|e: int, i: int, a: int, b: int|
            start < e <= end && 0 <= i < m.len() && m[i].0 == h.subrange(start, e) && 0 <= a
                < m[i].1.len() && 0 <= b < compounds(m, h, e).len() && x == (m[i].1[a].0 + compounds(
                m,
                h,
                e,
            )[b].0, m[i].1[a].1 + compounds(m, h, e)[b].1),
    decreases end - start,
{
    if !(end <= start) {
        let key = h.subrange(start, end);
        let here = match scored_find(m, key) {
            Some(i) => combine(at_most(m[i].1, 3), at_most(compounds(m, h, end), 3)),
            None => Seq::empty(),
        };
        let rest = compound_parts(m, h, start, end - 1);
        assert(compound_parts(m, h, start, end) == here + rest);
        let j = choose|j: int| 0 <= j < (here + rest).len() && (here + rest)[j] == x;
        if j < here.len() {
            assert(here.contains(x));
            let i = scored_find(m, key).unwrap();
            lemma_find_key(texts_of(m), key);
            assert(texts_of(m)[i].0 == m[i].0);
            let ws = at_most(m[i].1, 3);
            let ts = at_most(compounds(m, h, end), 3);
            lemma_combine_member(ws, ts, x);
            let (a, b) = choose|a: int, b: int|
                0 <= a < ws.len() && 0 <= b < ts.len() && x == (ws[a].0 + ts[b].0, ws[a].1
                    + ts[b].1);
            assert(ws[a] == m[i].1[a]);
            assert(ts[b] == compounds(m, h, end)[b]);
        } else {
            assert(rest[j - here.len()] == x);
            lemma_compound_parts_member(m, h, start, end - 1, x);
        }
    }
}

/// Every compound of `h[start..]` spells it with dictionary words: its text
/// joins words whose readings, in order, make up `h[start..]`, and its score
/// is the sum of their scores.
pub proof fn lemma_compounds_spell(m: Seq<ScoredEntry>, h: Seq<char>, start: int)
    requires
        0 <= start <= h.len(),
    ensures
        forall|k: int| 0 <= k < compounds(m, h, start).len() ==> spells(m, h, start, #[trigger] compounds(m, h, start)[k]),
    decreases h.len() - start,
{
    let cs = compounds(m, h, start);
    if start < h.len() {
        let parts = compound_parts(m, h, start, h.len() as int);
        let sorted = sort_by_rank(parts, score_rank());
        assert forall|k: int| 0 <= k < cs.len() implies spells(m, h, start, #[trigger] cs[k]) by {
            let x = cs[k];
            assert(x == sorted[k]);
            lemma_sort_by_rank_multiset(parts, score_rank());
            assert(sorted.to_multiset().count(x) > 0) by {
                broadcast use vstd::seq_lib::group_to_multiset_ensures;
                assert(sorted.contains(x));
            }
            assert(parts.contains(x)) by {
                broadcast use vstd::seq_lib::group_to_multiset_ensures;
            }
            lemma_compound_parts_member(m, h, start, h.len() as int, x);
            let (e, i, a, b) = choose|e: int, i: int, a: int, b: int|
                start < e <= h.len() && 0 <= i < m.len() && m[i].0 == h.subrange(start, e) && 0
                    <= a < m[i].1.len() && 0 <= b < compounds(m, h, e).len() && x == (m[i].1[a].0
                    + compounds(m, h, e)[b].0, m[i].1[a].1 + compounds(m, h, e)[b].1);
            let w = m[i].1[a];
            let t = compounds(m, h, e)[b];
            lemma_compounds_spell(m, h, e);
            assert(spells(m, h, e, t));
            assert(w.0.is_prefix_of(x.0)) by {
                assert(x.0.take(w.0.len() as int) =~= w.0);
            }
            assert(x.0.skip(w.0.len() as int) =~= t.0);
            assert((x.0.skip(w.0.len() as int), x.1 - w.1) == t);
        }
    } else {
        assert(cs == seq![(Seq::<char>::empty(), 0int)]);
    }
}

proof fn lemma_compound_parts_has(
    m: Seq<ScoredEntry>,
    h: Seq<char>,
    start: int,
    e: int,
    end: int,
    i: int,
    a: int,
    b: int,
)
    requires
        0 <= start < e <= end <= h.len(),
        scored_find(m, h.subrange(start, e)) == Some(i),
        0 <= a < at_most(m[i].1, 3).len(),
        0 <= b < at_most(compounds(m, h, e), 3).len(),
    ensures
        compound_parts(m, h, start, end).contains(
            (m[i].1[a].0 + compounds(m, h, e)[b].0, m[i].1[a].1 + compounds(m, h, e)[b].1),
        ),
    decreases end - e,
{
    let x = (m[i].1[a].0 + compounds(m, h, e)[b].0, m[i].1[a].1 + compounds(m, h, e)[b].1);
    let here = match scored_find(m, h.subrange(start, end)) {
        Some(k) => combine(at_most(m[k].1, 3), at_most(compounds(m, h, end), 3)),
        None => Seq::empty(),
    };
    let rest = compound_parts(m, h, start, end - 1);
    assert(compound_parts(m, h, start, end) == here + rest);
    if end == e {
        let ws = at_most(m[i].1, 3);
        let ts = at_most(compounds(m, h, e), 3);
        let f = |w: ScoredWord| ts.map_values(|t: ScoredWord| (w.0 + t.0, w.1 + t.1));
        assert(here == ws.flat_map(f));
        assert(f(ws[a])[b] == x);
        assert(f(ws[a]).contains(x));
        lemma_flat_map_contains(ws, f, x);
        let p = choose|p: int| 0 <= p < here.len() && here[p] == x;
        assert((here + rest)[p] == x);
    } else {
        lemma_compound_parts_has(m, h, start, e, end - 1, i, a, b);
        let p = choose|p: int| 0 <= p < rest.len() && rest[p] == x;
        assert((here + rest)[here.len() + p] == x);
    }
}

/// Where a reading `h[start..e]` is in the dictionary, each of its first
/// three words followed by each of the first three compounds of the rest is
/// a compound of `h[start..]`, its text joined and its score the sum, unless
/// more than `MAX_RETURNED_CANDIDATES` compounds compete there.
pub proof fn lemma_compounds_complete(
    m: Seq<ScoredEntry>,
    h: Seq<char>,
    start: int,
    e: int,
    i: int,
    a: int,
    b: int,
)
    requires
        0 <= start < e <= h.len(),
        scored_find(m, h.subrange(start, e)) == Some(i),
        0 <= a < 3,
        0 <= a < m[i].1.len(),
        0 <= b < 3,
        0 <= b < compounds(m, h, e).len(),
        compound_parts(m, h, start, h.len() as int).len() <= MAX_RETURNED_CANDIDATES,
    ensures
        compounds(m, h, start).contains(
            (m[i].1[a].0 + compounds(m, h, e)[b].0, m[i].1[a].1 + compounds(m, h, e)[b].1),
        ),
{
    let x = (m[i].1[a].0 + compounds(m, h, e)[b].0, m[i].1[a].1 + compounds(m, h, e)[b].1);
    let parts = compound_parts(m, h, start, h.len() as int);
    lemma_compound_parts_has(m, h, start, e, h.len() as int, i, a, b);
    lemma_sort_by_rank_multiset(parts, score_rank());
    let s = sort_by_rank(parts, score_rank());
    assert(s.len() == parts.len()) by {
        broadcast use vstd::seq_lib::group_to_multiset_ensures;
        assert(s.to_multiset().len() == parts.to_multiset().len());
    }
    assert(compounds(m, h, start) == s);
    assert(s.contains(x)) by {
        broadcast use vstd::seq_lib::group_to_multiset_ensures;
        assert(parts.to_multiset().count(x) > 0);
    }
}

/// `r` is a list of candidates for all of `h` whose texts are those of `cs`,
/// each of which spells `h` with dictionary words, best total score first,
/// and among equal totals in text order.
pub open spec fn ranked_spellings(
    m: Seq<ScoredEntry>,
    h: Seq<char>,
    r: Seq<CandidateModel>,
    cs: Seq<ScoredWord>,
) -> bool {
    &&& cs.len() == r.len()
    &&& forall|k: int|
        0 <= k < cs.len() ==> r[k] == (#[trigger] cs[k].0, Seq::<char>::empty(), h.len() as i32)
            && spells(m, h, 0, cs[k])
    &&& forall|j: int, k: int|
        0 <= j < k < cs.len() ==> cs[k].1 < cs[j].1 || (cs[k].1 == cs[j].1 && !chars_lt(
            #[trigger] cs[k].0,
            #[trigger] cs[j].0,
        ))
}

/// The compound lookup gives, for a reading of 2 to 16 characters, texts
/// that each spell the whole reading with dictionary words, best total score
/// first, and among equal totals in text order.
pub proof fn lemma_compound_candidates_ranked(m: Seq<ScoredEntry>, h: Seq<char>)
    requires
        2 <= h.len() <= 16,
    ensures
        exists|cs: Seq<ScoredWord>| #[trigger] ranked_spellings(m, h, spec_compound_candidates(m, h), cs),
{
    let base = compounds(m, h, 0);
    let s = sort_by_rank(base, score_rank());
    let r = spec_compound_candidates(m, h);
    let cs = s.take(r.len() as int);
    lemma_compounds_spell(m, h, 0);
    lemma_sort_by_rank_sorted(base, score_rank());
    lemma_sort_by_rank_multiset(base, score_rank());
    assert forall|k: int| 0 <= k < cs.len() implies r[k] == (
        #[trigger] cs[k].0,
        Seq::<char>::empty(),
        h.len() as i32,
    ) && spells(m, h, 0, cs[k]) by {
        assert(cs[k] == s[k]);
        assert(base.contains(s[k])) by {
            broadcast use vstd::seq_lib::group_to_multiset_ensures;
            assert(s.to_multiset().count(s[k]) > 0);
        }
        let idx = choose|idx: int| 0 <= idx < base.len() && base[idx] == s[k];
        assert(spells(m, h, 0, base[idx]));
    }
    assert forall|j: int, k: int| 0 <= j < k < cs.len() implies cs[k].1 < cs[j].1 || (cs[k].1
        == cs[j].1 && !chars_lt(cs[k].0, cs[j].0)) by {
        assert(!key_lt((score_rank())(s[k]), (score_rank())(s[j])));
    }
    assert(ranked_spellings(m, h, r, cs));
}

/// A compound being built: its text and total score.
pub struct CompoundCandidate {
    text: Vec<char>,
    score: i64,
}

/// A compound as its text and score.
pub closed spec fn compound_word(c: CompoundCandidate) -> ScoredWord {
    (c.text@, c.score as int)
}

impl Ranked for CompoundCandidate {
    closed spec fn rank(&self) -> RankKey {
        (-(self.score as int), self.text@, Seq::<char>::empty())
    }

    fn ranks_before(&self, other: &Self) -> (r: bool) {
        if self.score != other.score {
            self.score > other.score
        } else {
            chars_less(self.text.as_slice(), other.text.as_slice())
        }
    }
}

impl CompoundCandidate {
    proof fn lemma_views(&self)
        ensures
            self.rank() == (score_rank())(compound_word(*self)),
    {
    }

    fn duplicate(&self) -> (r: CompoundCandidate)
        ensures
            compound_word(r) == compound_word(*self),
    {
        CompoundCandidate { text: copy_chars(&self.text), score: self.score }
    }
}

/// The texts and scores of a list of compounds.
pub open spec fn compound_models(v: Seq<CompoundCandidate>) -> Seq<ScoredWord> {
    v.map_values(|c: CompoundCandidate| compound_word(c))
}

/// Every compound score lies within `bound`.
pub open spec fn compounds_bounded(v: Seq<ScoredWord>, bound: int) -> bool {
    forall|k: int| 0 <= k < v.len() ==> -bound <= #[trigger] v[k].1 <= bound
}

/// The remembered compounds of each start position are right.
pub open spec fn memo_ok(
    memo: Seq<Option<Vec<CompoundCandidate>>>,
    m: Seq<ScoredEntry>,
    h: Seq<char>,
) -> bool {
    forall|i: int|
        0 <= i < memo.len() && (#[trigger] memo[i]) is Some ==> compound_models(memo[i].unwrap()@)
            == compounds(m, h, i) && compounds_bounded(
            compound_models(memo[i].unwrap()@),
            (h.len() - i) * SCORE_LIMIT,
        )
}

fn copy_compounds(v: &Vec<CompoundCandidate>) -> (r: Vec<CompoundCandidate>)
    ensures
        compound_models(r@) == compound_models(v@),
{
    let mut r: Vec<CompoundCandidate> = Vec::new();
    let mut i: usize = 0;
    while i < v.len()
        invariant
            i <= v@.len(),
            compound_models(r@) == compound_models(v@).take(i as int),
        decreases v@.len() - i,
    {
        let ghost before = compound_models(r@);
        r.push(v[i].duplicate());
        assert(compound_models(r@) =~= before.push(compound_word(v@[i as int])));
        assert(compound_models(v@).take(i + 1) =~= compound_models(v@).take(i as int).push(
            compound_word(v@[i as int]),
        ));
        assert(compound_models(r@) =~= compound_models(v@).take(i + 1));
        i += 1;
    }
    assert(compound_models(v@).take(i as int) =~= compound_models(v@));
    r
}

proof fn lemma_first_texts_prefix(ws: Seq<ScoredWord>, i: int)
    requires
        0 <= i <= ws.len(),
    ensures
        first_texts(ws.take(i)).is_prefix_of(first_texts(ws)),
    decreases ws.len() - i,
{
    if i < ws.len() {
        lemma_first_texts_prefix(ws, i + 1);
        let ghost t = ws.take(i + 1);
        assert(t.drop_last() == ws.take(i));
    } else {
        assert(ws.take(i) == ws);
    }
}

/// Whether the text of `ws[i]` occurs among `ws[..i]`.
fn text_seen_before(ws: &Vec<DictionaryEntry>, i: usize) -> (r: bool)
    requires
        i < ws@.len(),
    ensures
        r == ws@.map_values(|w: DictionaryEntry| scored_word(w)).take(i as int).map_values(
            |w: ScoredWord| w.0,
        ).contains(ws@[i as int].text@),
{
    let ghost texts = ws@.map_values(|w: DictionaryEntry| scored_word(w)).take(i as int).map_values(
        |w: ScoredWord| w.0,
    );
    let mut j: usize = 0;
    while j < i
        invariant
            i < ws@.len(),
            j <= i,
            texts == ws@.map_values(|w: DictionaryEntry| scored_word(w)).take(i as int).map_values(
                |w: ScoredWord| w.0,
            ),
            forall|k: int| 0 <= k < j ==> texts[k] != ws@[i as int].text@,
        decreases i - j,
    {
        assert(texts[j as int] == ws@[j as int].text@);
        if chars_equal(ws[j].text.as_slice(), ws[i].text.as_slice()) {
            return true;
        }
        j += 1;
    }
    false
}

/// The words that a reading keeps (see `kept_words`).
fn keep_words(words: Vec<DictionaryEntry>) -> (r: Vec<DictionaryEntry>)
    requires
        forall|j: int| 0 <= j < words@.len() ==> -SCORE_LIMIT <= #[trigger] words@[j].score
            <= SCORE_LIMIT,
    ensures
        r@.map_values(|w: DictionaryEntry| scored_word(w)) == kept_words(
            words@.map_values(|w: DictionaryEntry| scored_word(w)),
        ),
        forall|j: int| 0 <= j < r@.len() ==> -SCORE_LIMIT <= #[trigger] r@[j].score <= SCORE_LIMIT,
{
    let ghost input = words@;
    let sorted = stable_sort(words);
    proof {
        assert forall|x: DictionaryEntry| #[trigger] (score_rank())(scored_word(x)) == (rank_of::<
            DictionaryEntry,
        >())(x) by {
            x.lemma_views();
        }
        lemma_sort_by_rank_map(
            input,
            rank_of::<DictionaryEntry>(),
            |w: DictionaryEntry| scored_word(w),
            score_rank(),
        );
    }
    let ghost ws = sorted@.map_values(|w: DictionaryEntry| scored_word(w));
    assert(ws == sort_by_rank(input.map_values(|w: DictionaryEntry| scored_word(w)), score_rank()));
    let mut out: Vec<DictionaryEntry> = Vec::new();
    let mut i: usize = 0;
    assert(out@.map_values(|w: DictionaryEntry| scored_word(w)) =~= first_texts(ws.take(0)));
    while i < sorted.len() && out.len() < MAX_DICTIONARY_CANDIDATES_PER_KEY
        invariant
            ws == sorted@.map_values(|w: DictionaryEntry| scored_word(w)),
            i <= sorted@.len(),
            out@.len() <= MAX_DICTIONARY_CANDIDATES_PER_KEY,
            out@.map_values(|w: DictionaryEntry| scored_word(w)) == first_texts(ws.take(i as int)),
            forall|j: int| 0 <= j < sorted@.len() ==> input.contains(#[trigger] sorted@[j]),
            forall|j: int| 0 <= j < input.len() ==> -SCORE_LIMIT <= #[trigger] input[j].score
                <= SCORE_LIMIT,
            forall|j: int| 0 <= j < out@.len() ==> -SCORE_LIMIT <= #[trigger] out@[j].score
                <= SCORE_LIMIT,
        decreases sorted@.len() - i,
    {
        let seen = text_seen_before(&sorted, i);
        let ghost t = ws.take(i + 1);
        assert(t.drop_last() == ws.take(i as int));
        assert(t.last() == ws[i as int]);
        assert(ws[i as int].0 == sorted@[i as int].text@);
        if !seen {
            let ghost before = out@;
            out.push(sorted[i].duplicate());
            assert(out@.map_values(|w: DictionaryEntry| scored_word(w)) =~= before.map_values(
                |w: DictionaryEntry| scored_word(w),
            ).push(ws[i as int]));
            assert(input.contains(sorted@[i as int]));
        }
        i += 1;
    }
    proof {
        lemma_first_texts_prefix(ws, i as int);
        if i == sorted@.len() {
            assert(ws.take(i as int) == ws);
        } else {
            assert(out@.map_values(|w: DictionaryEntry| scored_word(w)) =~= first_texts(ws).take(
                MAX_DICTIONARY_CANDIDATES_PER_KEY as int,
            ));
        }
    }
    out
}

proof fn lemma_first_texts(ws: Seq<ScoredWord>)
    ensures
        forall|i: int, j: int|
            0 <= i < j < first_texts(ws).len() ==> (#[trigger] first_texts(ws)[i]).0
                != (#[trigger] first_texts(ws)[j]).0,
        forall|i: int|
            0 <= i < first_texts(ws).len() ==> ws.contains(#[trigger] first_texts(ws)[i]),
    decreases ws.len(),
{
    if ws.len() > 0 {
        let init = ws.drop_last();
        lemma_first_texts(init);
        let rest = first_texts(init);
        assert forall|i: int| 0 <= i < rest.len() implies ws.contains(#[trigger] rest[i]) by {
            assert(init.contains(rest[i]));
            let k = choose|k: int| 0 <= k < init.len() && init[k] == rest[i];
            assert(ws[k] == init[k]);
        }
        if !init.map_values(|w: ScoredWord| w.0).contains(ws.last().0) {
            let f = rest.push(ws.last());
            assert forall|i: int, j: int| 0 <= i < j < f.len() implies (#[trigger] f[i]).0
                != (#[trigger] f[j]).0 by {
                if j == f.len() - 1 {
                    assert(f[i] == rest[i]);
                    assert(init.contains(rest[i]));
                    let k = choose|k: int| 0 <= k < init.len() && init[k] == rest[i];
                    assert(init.map_values(|w: ScoredWord| w.0)[k] == rest[i].0);
                } else {
                    assert(f[i] == rest[i] && f[j] == rest[j]);
                }
            }
            assert forall|i: int| 0 <= i < f.len() implies ws.contains(#[trigger] f[i]) by {
                if i == f.len() - 1 {
                    assert(ws[ws.len() - 1] == f[i]);
                } else {
                    assert(f[i] == rest[i]);
                }
            }
        }
    }
}

proof fn lemma_first_texts_sorted(ws: Seq<ScoredWord>)
    requires
        sorted_by_key(ws, score_rank()),
    ensures
        sorted_by_key(first_texts(ws), score_rank()),
    decreases ws.len(),
{
    if ws.len() > 0 {
        let init = ws.drop_last();
        assert(sorted_by_key(init, score_rank())) by {
            assert forall|i: int, j: int| 0 <= i < j < init.len() implies !key_lt(
                score_rank()(init[j]),
                score_rank()(init[i]),
            ) by {
                assert(init[i] == ws[i] && init[j] == ws[j]);
            }
        }
        lemma_first_texts_sorted(init);
        lemma_first_texts(init);
        let rest = first_texts(init);
        if !init.map_values(|w: ScoredWord| w.0).contains(ws.last().0) {
            let f = rest.push(ws.last());
            assert forall|i: int, j: int| 0 <= i < j < f.len() implies !key_lt(
                score_rank()(f[j]),
                score_rank()(f[i]),
            ) by {
                if j == f.len() - 1 {
                    assert(init.contains(rest[i]));
                    let k = choose|k: int| 0 <= k < init.len() && init[k] == rest[i];
                    assert(ws[k] == rest[i] && f[i] == rest[i]);
                    assert(f[j] == ws[ws.len() - 1]);
                } else {
                    assert(f[i] == rest[i] && f[j] == rest[j]);
                }
            }
        }
    }
}

/// The words that a reading keeps are at most
/// `MAX_DICTIONARY_CANDIDATES_PER_KEY`, best score first (then by text),
/// never show a text twice, and are all words of the reading.
pub proof fn lemma_kept_words(ws: Seq<ScoredWord>)
    ensures
        kept_words(ws).len() <= MAX_DICTIONARY_CANDIDATES_PER_KEY,
        sorted_by_key(kept_words(ws), score_rank()),
        forall|i: int, j: int|
            0 <= i < j < kept_words(ws).len() ==> (#[trigger] kept_words(ws)[i]).0
                != (#[trigger] kept_words(ws)[j]).0,
        forall|i: int| 0 <= i < kept_words(ws).len() ==> ws.contains(#[trigger] kept_words(ws)[i]),
{
    broadcast use vstd::seq_lib::group_to_multiset_ensures;

    let sorted = sort_by_rank(ws, score_rank());
    crate::sort::lemma_sort_by_rank_multiset(ws, score_rank());
    crate::sort::lemma_sort_by_rank_sorted(ws, score_rank());
    lemma_first_texts(sorted);
    lemma_first_texts_sorted(sorted);
    let f = first_texts(sorted);
    let k = kept_words(ws);
    assert(sorted_by_key(k, score_rank())) by {
        assert forall|i: int, j: int| 0 <= i < j < k.len() implies !key_lt(
            score_rank()(k[j]),
            score_rank()(k[i]),
        ) by {
            assert(k[i] == f[i] && k[j] == f[j]);
        }
    }
    assert forall|i: int, j: int| 0 <= i < j < k.len() implies (#[trigger] k[i]).0 != (
    #[trigger] k[j]).0 by {
        assert(k[i] == f[i] && k[j] == f[j]);
    }
    assert forall|i: int| 0 <= i < k.len() implies ws.contains(#[trigger] k[i]) by {
        assert(k[i] == f[i]);
        assert(sorted.contains(f[i]));
        assert(sorted.to_multiset().count(f[i]) > 0);
        assert(ws.to_multiset().count(f[i]) > 0);
    }
}

} // verus!
