//! The user dictionary as the settings screen edits it: one entry per line,
//! reading, text and part of speech separated by tabs.

use vstd::prelude::*;
use crate::learning::{joined_lines, lemma_first_index, lemma_lines_joined};
use crate::text::{
    chars_of, head_before, lemma_leading_count, lemma_trailing_count, leading_count, lines_of,
    push_all, spec_is_whitespace, spec_lines, spec_trim, split_once_chars, string_from_chars,
    tail_after, trailing_count, trim_chars, whitespace_pred,
};

verus! {

/// An entry of the user dictionary.
#[derive(Clone, Debug)]
pub struct UserDictionaryEntry {
    pub reading: String,
    pub text: String,
    pub part_of_speech: String,
}

/// An entry as values: reading, text, part of speech.
pub type EntryFields = (Seq<char>, Seq<char>, Seq<char>);

/// The fields of an entry.
pub open spec fn entry_fields(e: UserDictionaryEntry) -> EntryFields {
    (e.reading@, e.text@, e.part_of_speech@)
}

/// The entry that a line gives: reading, text and the rest as part of
/// speech, split at the first two tabs and trimmed; none without a tab or
/// with an empty reading or text.
pub open spec fn entry_line(line: Seq<char>) -> Option<EntryFields> {
    let reading = spec_trim(head_before(line, '\t'));
    match tail_after(line, '\t') {
        Some(rest) => {
            let text = spec_trim(head_before(rest, '\t'));
            let part = match tail_after(rest, '\t') {
                Some(p) => spec_trim(p),
                None => Seq::empty(),
            };
            if reading.len() == 0 || text.len() == 0 {
                None
            } else {
                Some((reading, text, part))
            }
        },
        None => None,
    }
}

/// The reading of a line, as a function.
pub open spec fn line_reader() -> spec_fn(Seq<char>) -> Option<EntryFields> {
    |line: Seq<char>| entry_line(line)
}

/// The entries of a user dictionary file, in file order.
pub open spec fn spec_entries(content: Seq<char>) -> Seq<EntryFields> {
    spec_lines(content).filter_map(line_reader())
}

/// A tab, carriage return or line feed, which a field cannot hold.
pub open spec fn is_break(c: char) -> bool {
    c == '\t' || c == '\r' || c == '\n'
}

/// `s` without tabs, carriage returns and line feeds.
pub open spec fn without_breaks(s: Seq<char>) -> Seq<char>
    decreases s.len(),
{
    if s.len() == 0 {
        s
    } else {
        let r = without_breaks(s.drop_last());
        if is_break(s.last()) {
            r
        } else {
            r.push(s.last())
        }
    }
}

/// A field as it is stored: trimmed, then without breaks.
pub open spec fn cleaned(s: Seq<char>) -> Seq<char> {
    without_breaks(spec_trim(s))
}

/// The entry as it is stored, if its reading and text stay non-empty.
pub open spec fn cleaned_entry(e: EntryFields) -> Option<EntryFields> {
    let r = cleaned(e.0);
    let t = cleaned(e.1);
    if r.len() == 0 || t.len() == 0 {
        None
    } else {
        Some((r, t, cleaned(e.2)))
    }
}

/// The cleaning of an entry, as a function.
pub open spec fn entry_cleaner() -> spec_fn(EntryFields) -> Option<EntryFields> {
    |e: EntryFields| cleaned_entry(e)
}

/// The line that stores a cleaned entry.
pub open spec fn field_line(e: EntryFields) -> Seq<char> {
    e.0 + seq!['\t'] + e.1 + seq!['\t'] + e.2
}

/// The line that stores an entry, if it is kept.
pub open spec fn stored_line(e: EntryFields) -> Option<Seq<char>> {
    match cleaned_entry(e) {
        Some(c) => Some(field_line(c)),
        None => None,
    }
}

/// The storing of an entry, as a function.
pub open spec fn line_writer() -> spec_fn(EntryFields) -> Option<Seq<char>> {
    |e: EntryFields| stored_line(e)
}

/// The text of the user dictionary file for the given entries.
pub open spec fn spec_entries_content(es: Seq<EntryFields>) -> Seq<char> {
    joined_lines(es.filter_map(line_writer()))
}

fn without_breaks_chars(s: &Vec<char>) -> (r: Vec<char>)
    ensures
        r@ == without_breaks(s@),
{
    let mut out: Vec<char> = Vec::new();
    let mut i: usize = 0;
    while i < s.len()
        invariant
            i <= s@.len(),
            out@ == without_breaks(s@.take(i as int)),
        decreases s@.len() - i,
    {
        assert(s@.take(i + 1).drop_last() =~= s@.take(i as int));
        let c = s[i];
        if !(c == '\t' || c == '\r' || c == '\n') {
            out.push(c);
        }
        i += 1;
    }
    assert(s@.take(s@.len() as int) =~= s@);
    out
}

fn parse_entry_line(line: &Vec<char>) -> (r: Option<UserDictionaryEntry>)
    ensures
        r is Some == entry_line(line@) is Some,
        r matches Some(e) ==> entry_line(line@) == Some(entry_fields(e)),
{
    let (head, rest) = split_once_chars(line.as_slice(), '\t');
    let reading = trim_chars(head.as_slice());
    match rest {
        Some(rest) => {
            let (text_part, part_rest) = split_once_chars(rest.as_slice(), '\t');
            let text = trim_chars(text_part.as_slice());
            let part: Vec<char> = match part_rest {
                Some(p) => trim_chars(p.as_slice()),
                None => Vec::new(),
            };
            if reading.len() == 0 || text.len() == 0 {
                None
            } else {
                Some(
                    UserDictionaryEntry {
                        reading: string_from_chars(reading.as_slice()),
                        text: string_from_chars(text.as_slice()),
                        part_of_speech: string_from_chars(part.as_slice()),
                    },
                )
            }
        },
        None => None,
    }
}

/// The entries of a user dictionary file (see `spec_entries`).
pub fn parse_user_dictionary_entries(content: &str) -> (r: Vec<UserDictionaryEntry>)
    ensures
        r@.map_values(|e: UserDictionaryEntry| entry_fields(e)) == spec_entries(content@),
{
    let chars = chars_of(content);
    let lines = lines_of(chars.as_slice());
    let ghost ls = spec_lines(content@);
    let ghost f = line_reader();
    let mut out: Vec<UserDictionaryEntry> = Vec::new();
    let mut i: usize = 0;
    while i < lines.len()
        invariant
            ls == spec_lines(content@),
            f == line_reader(),
            lines@.len() == ls.len(),
            forall|k: int| 0 <= k < lines@.len() ==> #[trigger] lines@[k]@ == ls[k],
            i <= lines@.len(),
            out@.map_values(|e: UserDictionaryEntry| entry_fields(e)) == ls.take(i as int).filter_map(f),
        decreases lines@.len() - i,
    {
        let ghost before = out@;
        proof {
            ls.lemma_filter_map_take_succ(f, i as int);
        }
        match parse_entry_line(&lines[i]) {
            Some(e) => {
                out.push(e);
                assert(out@.map_values(|e: UserDictionaryEntry| entry_fields(e)) =~= before.map_values(
                    |e: UserDictionaryEntry| entry_fields(e),
                ) + seq![entry_fields(e)]);
            },
            None => {},
        }
        i += 1;
    }
    assert(ls.take(lines@.len() as int) =~= ls);
    out
}

fn cleaned_chars(s: &String) -> (r: Vec<char>)
    ensures
        r@ == cleaned(s@),
{
    let chars = chars_of(s.as_str());
    let trimmed = trim_chars(chars.as_slice());
    without_breaks_chars(&trimmed)
}

/// The text of the user dictionary file for `entries` (see
/// `spec_entries_content`).
pub fn user_dictionary_content(entries: &Vec<UserDictionaryEntry>) -> (r: String)
    ensures
        r@ == spec_entries_content(entries@.map_values(|e: UserDictionaryEntry| entry_fields(e))),
{
    let ghost es = entries@.map_values(|e: UserDictionaryEntry| entry_fields(e));
    let ghost g = line_writer();
    let mut out: Vec<char> = Vec::new();
    let mut any = false;
    let mut i: usize = 0;
    while i < entries.len()
        invariant
            es == entries@.map_values(|e: UserDictionaryEntry| entry_fields(e)),
            g == line_writer(),
            i <= entries@.len(),
            out@ == joined_lines(es.take(i as int).filter_map(g)),
            any == (es.take(i as int).filter_map(g).len() > 0),
        decreases entries@.len() - i,
    {
        proof {
            es.lemma_filter_map_take_succ(g, i as int);
        }
        let ghost lines = es.take(i as int).filter_map(g);
        let e = &entries[i];
        assert(es[i as int] == entry_fields(*e));
        let r = cleaned_chars(&e.reading);
        let t = cleaned_chars(&e.text);
        if r.len() > 0 && t.len() > 0 {
            let p = cleaned_chars(&e.part_of_speech);
            if any {
                out.push('\n');
            }
            push_all(&mut out, r.as_slice());
            out.push('\t');
            push_all(&mut out, t.as_slice());
            out.push('\t');
            push_all(&mut out, p.as_slice());
            let ghost line = field_line((r@, t@, p@));
            assert(lines + seq![line] =~= es.take(i + 1).filter_map(g));
            assert((lines + seq![line]).drop_last() =~= lines);
            proof {
                if lines.len() == 0 {
                    assert(out@ =~= line);
                } else {
                    assert(out@ =~= joined_lines(lines) + seq!['\n'] + line);
                }
            }
            any = true;
        } else {
            assert(lines =~= es.take(i + 1).filter_map(g));
        }
        i += 1;
    }
    assert(es.take(entries@.len() as int) =~= es);
    string_from_chars(out.as_slice())
}

proof fn lemma_without_breaks(s: Seq<char>)
    ensures
        forall|i: int| 0 <= i < without_breaks(s).len() ==> !is_break(#[trigger] without_breaks(s)[i]),
        s.len() > 0 && !is_break(s.last()) ==> without_breaks(s).len() > 0 && without_breaks(s).last()
            == s.last(),
        s.len() > 0 && !is_break(s[0]) ==> without_breaks(s).len() > 0 && without_breaks(s)[0] == s[0],
    decreases s.len(),
{
    if s.len() > 0 {
        let init = s.drop_last();
        lemma_without_breaks(init);
        let r = without_breaks(init);
        if !is_break(s.last()) {
            assert forall|i: int| 0 <= i < r.push(s.last()).len() implies !is_break(
                #[trigger] r.push(s.last())[i],
            ) by {
                if i < r.len() {
                    assert(r.push(s.last())[i] == r[i]);
                }
            }
        }
        if !is_break(s[0]) && init.len() > 0 {
            assert(init[0] == s[0]);
        }
        if init.len() == 0 {
            assert(without_breaks(init) =~= Seq::<char>::empty());
        }
    }
}

proof fn lemma_trim_ends(s: Seq<char>)
    ensures
        spec_trim(s).len() > 0 ==> !spec_is_whitespace(spec_trim(s)[0]) && !spec_is_whitespace(
            spec_trim(s).last(),
        ),
{
    let ws = whitespace_pred();
    let lc = leading_count(s, ws);
    lemma_leading_count(s, ws);
    let u = s.skip(lc as int);
    let tc = trailing_count(u, ws);
    lemma_trailing_count(u, ws);
    let t = spec_trim(s);
    if t.len() > 0 {
        assert(t == u.take(u.len() - tc));
        assert(t[0] == u[0]);
        assert(u[0] == s[lc as int]);
        assert(!ws(s[lc as int]));
        assert(t.last() == u[u.len() - tc - 1]);
        assert(!ws(u[u.len() - tc - 1]));
    }
}

proof fn lemma_trim_fixed(x: Seq<char>)
    requires
        x.len() == 0 || (!spec_is_whitespace(x[0]) && !spec_is_whitespace(x.last())),
    ensures
        spec_trim(x) == x,
{
    let ws = whitespace_pred();
    assert(leading_count(x, ws) == 0);
    assert(x.skip(0) =~= x);
    assert(trailing_count(x, ws) == 0);
    assert(x.take(x.len() as int) =~= x);
}

proof fn lemma_cleaned(s: Seq<char>)
    ensures
        forall|i: int| 0 <= i < cleaned(s).len() ==> !is_break(#[trigger] cleaned(s)[i]),
        spec_trim(cleaned(s)) == cleaned(s),
{
    let t = spec_trim(s);
    lemma_trim_ends(s);
    lemma_without_breaks(t);
    if t.len() > 0 {
        assert(!is_break(t[0]));
        assert(!is_break(t.last()));
    } else {
        assert(without_breaks(t) =~= Seq::<char>::empty());
    }
    lemma_trim_fixed(cleaned(s));
}

proof fn lemma_no_break_contains(x: Seq<char>, c: char)
    requires
        forall|i: int| 0 <= i < x.len() ==> !is_break(#[trigger] x[i]),
        is_break(c),
    ensures
        !x.contains(c),
{
    if x.contains(c) {
        let i = choose|i: int| 0 <= i < x.len() && x[i] == c;
        assert(!is_break(x[i]));
    }
}

proof fn lemma_stored_line_read(e: EntryFields)
    requires
        cleaned_entry(e) is Some,
    ensures
        entry_line(field_line(cleaned_entry(e).unwrap())) == cleaned_entry(e),
        field_line(cleaned_entry(e).unwrap()).len() > 0,
        !field_line(cleaned_entry(e).unwrap()).contains('\n'),
        !field_line(cleaned_entry(e).unwrap()).contains('\r'),
{
    let c = cleaned_entry(e).unwrap();
    lemma_cleaned(e.0);
    lemma_cleaned(e.1);
    lemma_cleaned(e.2);
    lemma_no_break_contains(c.0, '\t');
    lemma_no_break_contains(c.1, '\t');
    let rest = c.1 + seq!['\t'] + c.2;
    let line = field_line(c);
    assert(line =~= c.0 + seq!['\t'] + rest);
    lemma_first_index(c.0, rest, '\t');
    assert(head_before(line, '\t') =~= c.0);
    assert(line.skip(c.0.len() as int + 1) =~= rest);
    lemma_first_index(c.1, c.2, '\t');
    assert(head_before(rest, '\t') =~= c.1);
    assert(rest.skip(c.1.len() as int + 1) =~= c.2);
    assert forall|ch: char| ch == '\n' || ch == '\r' implies !line.contains(ch) by {
        if line.contains(ch) {
            let j = choose|j: int| 0 <= j < line.len() && line[j] == ch;
            let a = c.0.len() as int;
            let b = a + 1 + c.1.len();
            if j < a {
                assert(!is_break(c.0[j]));
            } else if j == a {
            } else if j < b {
                assert(!is_break(c.1[j - a - 1]));
            } else if j == b {
            } else {
                assert(!is_break(c.2[j - b - 1]));
            }
        }
    }
}

proof fn lemma_stored_lines(es: Seq<EntryFields>)
    ensures
        es.filter_map(line_writer()).filter_map(line_reader()) == es.filter_map(entry_cleaner()),
        forall|i: int|
            0 <= i < es.filter_map(line_writer()).len() ==> (#[trigger] es.filter_map(
                line_writer(),
            )[i]).len() > 0 && !es.filter_map(line_writer())[i].contains('\n')
                && !es.filter_map(line_writer())[i].contains('\r'),
    decreases es.len(),
{
    let w = line_writer();
    let rd = line_reader();
    let cl = entry_cleaner();
    if es.len() > 0 {
        let init = es.drop_last();
        lemma_stored_lines(init);
        let e = es.last();
        let a = init.filter_map(w);
        match cleaned_entry(e) {
            Some(c) => {
                lemma_stored_line_read(e);
                let line = field_line(c);
                assert(es.filter_map(w) == a + seq![line]);
                assert((a + seq![line]).drop_last() =~= a);
                assert((a + seq![line]).last() == line);
                assert((a + seq![line]).filter_map(rd) == a.filter_map(rd) + seq![c]);
                assert forall|i: int| 0 <= i < (a + seq![line]).len() implies (#[trigger] (a
                    + seq![line])[i]).len() > 0 && !(a + seq![line])[i].contains('\n') && !(a
                    + seq![line])[i].contains('\r') by {
                    if i < a.len() {
                        assert((a + seq![line])[i] == a[i]);
                    }
                }
            },
            None => {
                assert(es.filter_map(w) == a);
            },
        }
    }
}

/// Writing the entries to the user dictionary file and reading the file
/// back gives each entry whose reading and text stay non-empty, in order,
/// with its fields trimmed and without tabs, carriage returns and line
/// feeds.
pub proof fn lemma_entries_round_trip(es: Seq<EntryFields>)
    ensures
        spec_entries(spec_entries_content(es)) == es.filter_map(entry_cleaner()),
{
    lemma_stored_lines(es);
    lemma_lines_joined(es.filter_map(line_writer()));
}

} // verus!
