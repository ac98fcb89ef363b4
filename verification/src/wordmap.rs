//! Readings mapped to lists of words, in the order in which readings were
//! first added, and the two lookups that every dictionary offers: the words
//! of the longest readings that start the input, and predictions whose
//! reading extends it.

use vstd::prelude::*;
use crate::candidate::{count_i32, models, Candidate, CandidateModel, MAX_RETURNED_CANDIDATES};
use crate::text::{chars_equal, chars_start_with, copy_range};

verus! {

/// A value that carries the text of a word.
pub trait TextValue: Sized {
    spec fn text(&self) -> Seq<char>;

    fn text_chars(&self) -> (r: &Vec<char>)
        ensures
            r@ == self.text(),
    ;
}

impl TextValue for Vec<char> {
    open spec fn text(&self) -> Seq<char> {
        self@
    }

    fn text_chars(&self) -> (r: &Vec<char>) {
        self
    }
}

/// A reading with its words.
pub type WordEntry<V> = (Vec<char>, Vec<V>);

/// A reading with the texts of its words.
pub type EntryModel = (Seq<char>, Seq<Seq<char>>);

/// A stored entry as its reading and word texts.
pub open spec fn entry_model<V: TextValue>(e: WordEntry<V>) -> EntryModel {
    (e.0@, e.1@.map_values(|v: V| v.text()))
}

/// The readings and word texts of a word map.
pub open spec fn map_model<V: TextValue>(v: Seq<WordEntry<V>>) -> Seq<EntryModel> {
    v.map_values(|e: WordEntry<V>| entry_model(e))
}

/// `s` cut to its first `n` elements when it is longer.
pub open spec fn at_most<A>(s: Seq<A>, n: int) -> Seq<A> {
    if s.len() > n {
        s.take(n)
    } else {
        s
    }
}

/// Index of the first entry with the given reading.
pub open spec fn find_key(m: Seq<EntryModel>, key: Seq<char>) -> Option<int>
    decreases m.len(),
{
    if m.len() == 0 {
        None
    } else {
        match find_key(m.drop_last(), key) {
            Some(i) => Some(i),
            None => if m.last().0 == key {
                Some(m.len() - 1)
            } else {
                None
            },
        }
    }
}

/// `find_key` finds the first entry with the reading, or says there is
/// none.
pub proof fn lemma_find_key(m: Seq<EntryModel>, key: Seq<char>)
    ensures
        find_key(m, key) matches Some(i) ==> 0 <= i < m.len() && m[i].0 == key && forall|j: int|
            0 <= j < i ==> m[j].0 != key,
        find_key(m, key) is None ==> forall|j: int| 0 <= j < m.len() ==> m[j].0 != key,
    decreases m.len(),
{
    if m.len() > 0 {
        lemma_find_key(m.drop_last(), key);
        assert forall|j: int| 0 <= j < m.len() - 1 implies m[j] == m.drop_last()[j] by {}
    }
}

/// The words of `m` for the reading `key`, if `m` has that reading.
pub open spec fn words_of(m: Seq<EntryModel>, key: Seq<char>) -> Seq<Seq<char>> {
    match find_key(m, key) {
        Some(i) => m[i].1,
        None => Seq::empty(),
    }
}

/// The candidates for the words whose reading is the first `n` characters
/// of `h`; the rest of `h` is their subtext.
pub open spec fn hits_at(m: Seq<EntryModel>, h: Seq<char>, n: int) -> Seq<CandidateModel> {
    words_of(m, h.take(n)).map_values(|t: Seq<char>| (t, h.skip(n), n as i32))
}

/// The candidates for the readings that are prefixes of `h` of length `n`
/// down to 1, longest first.
pub open spec fn prefix_hits(m: Seq<EntryModel>, h: Seq<char>, n: int) -> Seq<CandidateModel>
    decreases n,
{
    if n <= 0 {
        Seq::empty()
    } else {
        hits_at(m, h, n) + prefix_hits(m, h, n - 1)
    }
}

/// The best-prefix lookup: the candidates of `prefix_hits` for all of `h`,
/// at most `MAX_RETURNED_CANDIDATES` of them.
pub open spec fn spec_best_prefixes(m: Seq<EntryModel>, h: Seq<char>) -> Seq<CandidateModel> {
    at_most(prefix_hits(m, h, h.len() as int), MAX_RETURNED_CANDIDATES as int)
}

/// The reading `r` extends `h`.
pub open spec fn extends(r: Seq<char>, h: Seq<char>) -> bool {
    h.is_prefix_of(r) && r != h
}

/// The prediction lookup: the words of every reading that extends `h`, in
/// map order, each covering all of `h`, at most `MAX_RETURNED_CANDIDATES`.
pub open spec fn spec_predictions(m: Seq<EntryModel>, h: Seq<char>) -> Seq<CandidateModel> {
    at_most(m.filter(extends_test(h)).flat_map(prediction_hits(h)), MAX_RETURNED_CANDIDATES as int)
}

/// The test "the entry's reading extends `h`".
pub open spec fn extends_test(h: Seq<char>) -> spec_fn(EntryModel) -> bool {
    |e: EntryModel| extends(e.0, h)
}

/// The candidates that an entry predicts for `h`: each of its words,
/// covering all of `h`.
pub open spec fn prediction_hits(h: Seq<char>) -> spec_fn(EntryModel) -> Seq<CandidateModel> {
    |e: EntryModel| e.1.map_values(|t: Seq<char>| (t, Seq::<char>::empty(), count_i32(h)))
}

/// Readings are not repeated.
pub open spec fn keys_unique(m: Seq<EntryModel>) -> bool {
    forall|i: int, j: int| 0 <= i < j < m.len() ==> m[i].0 != m[j].0
}

/// Index of the entry with reading `key`.
pub fn find_entry<V: TextValue>(entries: &Vec<WordEntry<V>>, key: &[char]) -> (r: Option<usize>)
    ensures
        r matches Some(i) ==> find_key(map_model(entries@), key@) == Some(i as int),
        r is None ==> find_key(map_model(entries@), key@) is None,
{
    let ghost m = map_model(entries@);
    proof {
        lemma_find_key(m, key@);
    }
    let mut i: usize = 0;
    while i < entries.len()
        invariant
            m == map_model(entries@),
            i <= entries@.len(),
            forall|j: int| 0 <= j < i ==> m[j].0 != key@,
        decreases entries@.len() - i,
    {
        assert(m[i as int].0 == entries@[i as int].0@);
        if chars_equal(entries[i].0.as_slice(), key) {
            proof {
                lemma_find_key(m, key@);
                if let Some(k) = find_key(m, key@) {
                    if k > i {
                        assert(m[i as int].0 == key@);
                    }
                }
            }
            return Some(i);
        }
        i += 1;
    }
    proof {
        lemma_find_key(m, key@);
    }
    None
}

/// Appends `value` to the words of `key`, adding the reading when it is
/// new; a word that the reading already has is not added again.
pub open spec fn spec_add_unique(m: Seq<EntryModel>, key: Seq<char>, value: Seq<char>) -> Seq<
    EntryModel,
> {
    match find_key(m, key) {
        Some(i) => if m[i].1.contains(value) {
            m
        } else {
            m.update(i, (key, m[i].1.push(value)))
        },
        None => m.push((key, seq![value])),
    }
}

/// No reading lists a word twice.
pub open spec fn words_unique(m: Seq<EntryModel>) -> bool {
    forall|i: int| 0 <= i < m.len() ==> (#[trigger] m[i]).1.no_duplicates()
}

/// Adding a word keeps readings and each reading's words free of repeats.
pub proof fn lemma_add_keeps_unique(m: Seq<EntryModel>, key: Seq<char>, value: Seq<char>)
    requires
        keys_unique(m),
        words_unique(m),
    ensures
        keys_unique(spec_add_unique(m, key, value)),
        words_unique(spec_add_unique(m, key, value)),
{
    lemma_find_key(m, key);
    let r = spec_add_unique(m, key, value);
    match find_key(m, key) {
        Some(i) => {
            if !m[i].1.contains(value) {
                let w = m[i].1.push(value);
                assert(w.no_duplicates()) by {
                    assert forall|a: int, b: int| 0 <= a < w.len() && 0 <= b < w.len() && a != b implies w[a]
                        != w[b] by {
                        if a == w.len() - 1 {
                            assert(w[b] == m[i].1[b]);
                            if m[i].1[b] == value {
                                assert(m[i].1.contains(value));
                            }
                        } else if b == w.len() - 1 {
                            assert(w[a] == m[i].1[a]);
                            if m[i].1[a] == value {
                                assert(m[i].1.contains(value));
                            }
                        }
                    }
                }
                assert forall|j: int| 0 <= j < r.len() implies (#[trigger] r[j]).1.no_duplicates() by {
                    if j != i {
                        assert(r[j] == m[j]);
                    }
                }
            }
        },
        None => {
            assert forall|j: int| 0 <= j < r.len() implies (#[trigger] r[j]).1.no_duplicates() by {
                if j < m.len() {
                    assert(r[j] == m[j]);
                } else {
                    assert(r[j].1 =~= seq![value]);
                }
            }
        },
    }
}

/// Whether `words` holds the text of `value`.
fn has_word(words: &Vec<Vec<char>>, value: &Vec<char>) -> (r: bool)
    ensures
        r == words@.map_values(|v: Vec<char>| v.text()).contains(value@),
{
    let mut i: usize = 0;
    while i < words.len()
        invariant
            i <= words@.len(),
            forall|j: int| 0 <= j < i ==> words@[j]@ != value@,
        decreases words@.len() - i,
    {
        if chars_equal(words[i].as_slice(), value.as_slice()) {
            assert(words@.map_values(|v: Vec<char>| v.text())[i as int] == value.text());
            return true;
        }
        i += 1;
    }
    let ghost texts = words@.map_values(|v: Vec<char>| v.text());
    assert forall|j: int| 0 <= j < texts.len() implies #[trigger] texts[j] != value.text() by {
        assert(words@[j]@ != value@);
    }
    false
}

/// Adds `value` under `key` unless it is there (see `spec_add_unique`).
pub fn add_unique_word(entries: &mut Vec<WordEntry<Vec<char>>>, key: &[char], value: Vec<char>)
    ensures
        map_model(final(entries)@) == spec_add_unique(map_model(old(entries)@), key@, value@),
{
    let ghost m = map_model(entries@);
    proof {
        lemma_find_key(m, key@);
    }
    match find_entry(entries, key) {
        Some(i) => {
            assert(m[i as int].1 == entries@[i as int].1@.map_values(|v: Vec<char>| v.text()));
            if has_word(&entries[i].1, &value) {
                return;
            }
            let mut e = entries.remove(i);
            let ghost old_words = e.1@;
            let ghost value_text = value@;
            e.1.push(value);
            assert(e.1@.map_values(|v: Vec<char>| v.text()) =~= old_words.map_values(
                |v: Vec<char>| v.text(),
            ).push(value_text));
            entries.insert(i, e);
            assert(map_model(entries@) =~= m.update(i as int, (key@, m[i as int].1.push(value_text))));
        },
        None => {
            let ghost value_text = value@;
            let mut words: Vec<Vec<char>> = Vec::new();
            words.push(value);
            let k = copy_range(key, 0, key.len());
            assert(k@ =~= key@);
            assert(words@.map_values(|v: Vec<char>| v.text()) =~= seq![value_text]);
            entries.push((k, words));
            assert(map_model(entries@) =~= m.push((key@, seq![value_text])));
        },
    }
}

/// The best-prefix lookup (see `spec_best_prefixes`).
pub fn best_prefixes<V: TextValue>(entries: &Vec<WordEntry<V>>, h: &Vec<char>) -> (r: Vec<
    Candidate,
>)
    ensures
        models(r@) == spec_best_prefixes(map_model(entries@), h@),
{
    let ghost m = map_model(entries@);
    let ghost whole = prefix_hits(m, h@, h@.len() as int);
    let mut out: Vec<Candidate> = Vec::new();
    let mut cur = h.len();
    assert(models(out@) + prefix_hits(m, h@, cur as int) =~= whole);
    while cur > 0
        invariant
            m == map_model(entries@),
            whole == prefix_hits(m, h@, h@.len() as int),
            cur <= h@.len(),
            out@.len() < MAX_RETURNED_CANDIDATES,
            models(out@) + prefix_hits(m, h@, cur as int) == whole,
        decreases cur,
    {
        let prefix = copy_range(h.as_slice(), 0, cur);
        let found = find_entry(entries, prefix.as_slice());
        proof {
            lemma_find_key(m, prefix@);
        }
        let ghost hits = hits_at(m, h@, cur as int);
        assert(prefix_hits(m, h@, cur as int) == hits + prefix_hits(m, h@, cur - 1));
        match found {
            Some(i) => {
                let subtext = copy_range(h.as_slice(), cur, h.len());
                let words = &entries[i].1;
                assert(m[i as int].1 == words@.map_values(|v: V| v.text()));
                let mut j: usize = 0;
                while j < words.len()
                    invariant
                        m == map_model(entries@),
                        whole == prefix_hits(m, h@, h@.len() as int),
                        0 < cur <= h@.len(),
                        words@.map_values(|v: V| v.text()) == m[i as int].1,
                        find_key(m, h@.take(cur as int)) == Some(i as int),
                        subtext@ == h@.skip(cur as int),
                        hits == hits_at(m, h@, cur as int),
                        j <= words@.len(),
                        out@.len() < MAX_RETURNED_CANDIDATES,
                        models(out@) + hits.skip(j as int) + prefix_hits(m, h@, cur - 1) == whole,
                    decreases words@.len() - j,
                {
                    let ghost before = models(out@);
                    let c = Candidate::from_chars(
                        words[j].text_chars().as_slice(),
                        subtext.as_slice(),
                        cur as i32,
                    );
                    assert(hits[j as int] == c@);
                    out.push(c);
                    assert(models(out@) =~= before.push(c@));
                    assert(hits.skip(j as int) =~= seq![c@] + hits.skip(j + 1));
                    assert(models(out@) + hits.skip(j + 1) =~= before + hits.skip(j as int));
                    j += 1;
                    if out.len() >= MAX_RETURNED_CANDIDATES {
                        assert(whole.take(MAX_RETURNED_CANDIDATES as int) =~= models(out@));
                        return out;
                    }
                }
                assert(hits.skip(j as int) =~= Seq::<CandidateModel>::empty());
            },
            None => {
                assert(hits =~= Seq::<CandidateModel>::empty());
            },
        }
        assert(models(out@) + prefix_hits(m, h@, cur - 1) =~= whole);
        cur -= 1;
    }
    assert(models(out@) =~= whole);
    out
}

/// Filtering and flattening a prefix of a sequence gives a prefix of
/// filtering and flattening the whole.
pub proof fn lemma_flat_filter_prefix<A, B>(
    m: Seq<A>,
    f: spec_fn(A) -> bool,
    g: spec_fn(A) -> Seq<B>,
    k: int,
)
    requires
        0 <= k <= m.len(),
    ensures
        m.take(k).filter(f).flat_map(g).is_prefix_of(m.filter(f).flat_map(g)),
    decreases m.len() - k,
{
    if k < m.len() {
        lemma_flat_filter_prefix(m, f, g, k + 1);
        assert(m.take(k + 1) == m.take(k).push(m[k]));
        m.take(k).lemma_filter_push(m[k], f);
        if f(m[k]) {
            m.take(k).filter(f).lemma_flat_map_push(g, m[k]);
        }
    } else {
        assert(m.take(k) == m);
    }
}

/// The prediction lookup (see `spec_predictions`).
pub fn predictions<V: TextValue>(entries: &Vec<WordEntry<V>>, h: &Vec<char>) -> (r: Vec<Candidate>)
    ensures
        models(r@) == spec_predictions(map_model(entries@), h@),
{
    let ghost m = map_model(entries@);
    let ghost f = extends_test(h@);
    let ghost g = prediction_hits(h@);
    let ghost whole = m.filter(f).flat_map(g);
    let count = h.len() as i32;
    let mut out: Vec<Candidate> = Vec::new();
    let mut i: usize = 0;
    assert(m.take(0).filter(f) =~= Seq::<EntryModel>::empty()) by {
        reveal(Seq::filter);
    }
    assert(models(out@) =~= m.take(0).filter(f).flat_map(g)) by {
        reveal_with_fuel(Seq::flat_map, 1);
    }
    while i < entries.len()
        invariant
            m == map_model(entries@),
            f == extends_test(h@),
            g == prediction_hits(h@),
            whole == m.filter(f).flat_map(g),
            count == count_i32(h@),
            i <= entries@.len(),
            out@.len() < MAX_RETURNED_CANDIDATES,
            models(out@) == m.take(i as int).filter(f).flat_map(g),
        decreases entries@.len() - i,
    {
        let ghost e = m[i as int];
        assert(e == entry_model(entries@[i as int]));
        let key = &entries[i].0;
        let matches = chars_start_with(key.as_slice(), h.as_slice()) && !chars_equal(
            key.as_slice(),
            h.as_slice(),
        );
        assert(matches == f(e));
        assert(m.take(i + 1) == m.take(i as int).push(e));
        proof {
            m.take(i as int).lemma_filter_push(e, f);
        }
        if matches {
            let ghost base = models(out@);
            let ghost hits = g(e);
            proof {
                m.take(i as int).filter(f).lemma_flat_map_push(g, e);
                lemma_flat_filter_prefix(m, f, g, i + 1);
            }
            let words = &entries[i].1;
            let mut j: usize = 0;
            while j < words.len()
                invariant
                    words@.map_values(|v: V| v.text()) == e.1,
                    hits == g(e),
                    hits.len() == words@.len(),
                    count == count_i32(h@),
                    j <= words@.len(),
                    models(out@) == base + hits.take(j as int),
                    out@.len() < MAX_RETURNED_CANDIDATES,
                    g == prediction_hits(h@),
                    f == extends_test(h@),
                    m == map_model(entries@),
                    whole == m.filter(f).flat_map(g),
                    base == m.take(i as int).filter(f).flat_map(g),
                    (base + hits).is_prefix_of(whole),
                decreases words@.len() - j,
            {
                let ghost before = models(out@);
                let empty: Vec<char> = Vec::new();
                let c = Candidate::from_chars(words[j].text_chars().as_slice(), empty.as_slice(), count);
                assert(hits[j as int] == c@);
                out.push(c);
                assert(hits.take(j + 1) =~= hits.take(j as int).push(hits[j as int]));
                assert(models(out@) =~= before.push(c@));
                assert(models(out@) =~= base + hits.take(j + 1));
                j += 1;
                if out.len() >= MAX_RETURNED_CANDIDATES {
                    assert(whole.take(MAX_RETURNED_CANDIDATES as int) =~= models(out@));
                    assert(at_most(whole, MAX_RETURNED_CANDIDATES as int) == whole.take(
                        MAX_RETURNED_CANDIDATES as int,
                    )) by {
                        if whole.len() == MAX_RETURNED_CANDIDATES {
                            assert(whole.take(MAX_RETURNED_CANDIDATES as int) =~= whole);
                        }
                    }
                    return out;
                }
            }
            assert(hits.take(j as int) == hits);
        } else {
            assert(m.take(i + 1).filter(f) == m.take(i as int).filter(f));
        }
        i += 1;
    }
    assert(m.take(i as int) == m);
    out
}

/// A value is in a flattened sequence exactly when it is in one of its
/// parts.
pub proof fn lemma_flatten_contains<A>(ss: Seq<Seq<A>>, x: A)
    ensures
        ss.flatten().contains(x) <==> exists|a: int| 0 <= a < ss.len() && (#[trigger] ss[a]).contains(x),
    decreases ss.len(),
{
    if ss.len() > 0 {
        let rest = ss.drop_first();
        lemma_flatten_contains(rest, x);
        let f = ss.first() + rest.flatten();
        assert(ss.flatten() == f);
        if f.contains(x) {
            let k = choose|k: int| 0 <= k < f.len() && f[k] == x;
            if k < ss.first().len() {
                assert(ss[0].contains(x));
            } else {
                assert(rest.flatten()[k - ss.first().len()] == x);
                let a = choose|a: int| 0 <= a < rest.len() && (#[trigger] rest[a]).contains(x);
                assert(ss[a + 1] == rest[a]);
            }
        }
        if exists|a: int| 0 <= a < ss.len() && (#[trigger] ss[a]).contains(x) {
            let a = choose|a: int| 0 <= a < ss.len() && (#[trigger] ss[a]).contains(x);
            let k = choose|k: int| 0 <= k < ss[a].len() && ss[a][k] == x;
            if a == 0 {
                assert(f[k] == x);
            } else {
                assert(rest[a - 1] == ss[a]);
                assert(rest.flatten().contains(x));
                let j = choose|j: int| 0 <= j < rest.flatten().len() && rest.flatten()[j] == x;
                assert(f[ss.first().len() + j] == x);
            }
        }
    }
}

/// A value is in `s.flat_map(g)` exactly when it is in `g` of some element
/// of `s`.
pub proof fn lemma_flat_map_contains<A, B>(s: Seq<A>, g: spec_fn(A) -> Seq<B>, x: B)
    ensures
        s.flat_map(g).contains(x) <==> exists|a: int| 0 <= a < s.len() && g(#[trigger] s[a]).contains(x),
{
    let ss = s.map_values(g);
    lemma_flatten_contains(ss, x);
    if exists|a: int| 0 <= a < ss.len() && (#[trigger] ss[a]).contains(x) {
        let a = choose|a: int| 0 <= a < ss.len() && (#[trigger] ss[a]).contains(x);
        assert(g(s[a]).contains(x));
    }
    if exists|a: int| 0 <= a < s.len() && g(#[trigger] s[a]).contains(x) {
        let a = choose|a: int| 0 <= a < s.len() && g(#[trigger] s[a]).contains(x);
        assert(ss[a].contains(x));
    }
}

} // verus!
