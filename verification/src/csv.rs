//! Fields of dictionary CSV lines, and whole numbers in text.

use vstd::prelude::*;
use crate::text::{
    chars_of, copy_range, head_before, spec_is_ascii_digit, split_on, split_once_chars,
    string_from_chars, tail_after,
};

verus! {

/// The fields of `line[i..]`, given the fields already closed, the field
/// being read and whether a quoted section is open: `""` inside quotes is a
/// literal quote, any other `"` opens or closes quoting, and `,` outside
/// quotes ends a field.
pub open spec fn csv_from(
    line: Seq<char>,
    i: int,
    fields: Seq<Seq<char>>,
    field: Seq<char>,
    quoted: bool,
) -> Seq<Seq<char>>
    decreases line.len() - i,
{
    if i < 0 || i >= line.len() {
        fields.push(field)
    } else {
        let ch = line[i];
        if ch == '"' && quoted && i + 1 < line.len() && line[i + 1] == '"' {
            csv_from(line, i + 2, fields, field.push('"'), quoted)
        } else if ch == '"' {
            csv_from(line, i + 1, fields, field, !quoted)
        } else if ch == ',' && !quoted {
            csv_from(line, i + 1, fields.push(field), Seq::empty(), quoted)
        } else {
            csv_from(line, i + 1, fields, field.push(ch), quoted)
        }
    }
}

/// The fields of a CSV line.
pub open spec fn csv_fields(line: Seq<char>) -> Seq<Seq<char>> {
    csv_from(line, 0, Seq::empty(), Seq::empty(), false)
}

/// The fields of a CSV line, as character vectors.
pub fn csv_fields_of(line: &[char]) -> (r: Vec<Vec<char>>)
    ensures
        r@.len() == csv_fields(line@).len(),
        forall|k: int| 0 <= k < r@.len() ==> #[trigger] r@[k]@ == csv_fields(line@)[k],
{
    let n = line.len();
    let mut fields: Vec<Vec<char>> = Vec::new();
    let mut field: Vec<char> = Vec::new();
    let mut quoted = false;
    let mut i: usize = 0;
    assert(fields@.map_values(|f: Vec<char>| f@) =~= Seq::<Seq<char>>::empty());
    while i < n
        invariant
            n == line@.len(),
            i <= n,
            csv_from(line@, i as int, fields@.map_values(|f: Vec<char>| f@), field@, quoted)
                == csv_fields(line@),
        decreases n - i,
    {
        let ch = line[i];
        if ch == '"' && quoted && i + 1 < n && line[i + 1] == '"' {
            field.push('"');
            i += 2;
        } else if ch == '"' {
            quoted = !quoted;
            i += 1;
        } else if ch == ',' && !quoted {
            let ghost before = fields@.map_values(|f: Vec<char>| f@);
            let done = field;
            fields.push(done);
            assert(fields@.map_values(|f: Vec<char>| f@) =~= before.push(done@));
            field = Vec::new();
            i += 1;
        } else {
            field.push(ch);
            i += 1;
        }
    }
    let ghost before = fields@.map_values(|f: Vec<char>| f@);
    let last = field;
    fields.push(last);
    assert(fields@.map_values(|f: Vec<char>| f@) =~= before.push(last@));
    assert forall|k: int| 0 <= k < fields@.len() implies #[trigger] fields@[k]@ == csv_fields(
        line@,
    )[k] by {
        assert(fields@.map_values(|f: Vec<char>| f@)[k] == fields@[k]@);
    }
    fields
}

/// Splits one line of a dictionary CSV file into its fields.
pub fn parse_csv_line(line: &str) -> (r: Vec<String>)
    ensures
        r@.len() == csv_fields(line@).len(),
        forall|k: int| 0 <= k < r@.len() ==> #[trigger] r@[k]@ == csv_fields(line@)[k],
{
    let chars = chars_of(line);
    let fields = csv_fields_of(chars.as_slice());
    let mut r: Vec<String> = Vec::new();
    let mut k: usize = 0;
    while k < fields.len()
        invariant
            k <= fields@.len(),
            fields@.len() == csv_fields(line@).len(),
            forall|j: int| 0 <= j < fields@.len() ==> #[trigger] fields@[j]@ == csv_fields(line@)[j],
            r@.len() == k,
            forall|j: int| 0 <= j < k ==> #[trigger] r@[j]@ == csv_fields(line@)[j],
        decreases fields@.len() - k,
    {
        r.push(string_from_chars(fields[k].as_slice()));
        k += 1;
    }
    r
}

/// Splitting a text joined at a separator splits both parts.
pub proof fn lemma_split_on_concat(x: Seq<char>, y: Seq<char>, sep: char)
    ensures
        split_on(x + seq![sep] + y, sep) == split_on(x, sep) + split_on(y, sep),
    decreases y.len(),
{
    crate::text::lemma_split_on_len(y, sep);
    if y.len() == 0 {
        assert(x + seq![sep] + y == x.push(sep));
        assert(x.push(sep).drop_last() == x);
        assert(split_on(y, sep) == seq![Seq::<char>::empty()]);
        assert(split_on(x, sep).push(Seq::<char>::empty()) =~= split_on(x, sep) + seq![
            Seq::<char>::empty(),
        ]);
    } else {
        let y1 = y.drop_last();
        let c = y.last();
        lemma_split_on_concat(x, y1, sep);
        crate::text::lemma_split_on_len(y1, sep);
        assert((x + seq![sep] + y).drop_last() == x + seq![sep] + y1);
        assert((x + seq![sep] + y).last() == c);
        let l = split_on(x, sep);
        let m = split_on(y1, sep);
        if c == sep {
            assert((l + m).push(Seq::<char>::empty()) =~= l + m.push(Seq::<char>::empty()));
        } else {
            assert((l + m).last() == m.last());
            assert((l + m).update((l + m).len() - 1, m.last().push(c)) =~= l + m.update(
                m.len() - 1,
                m.last().push(c),
            ));
        }
    }
}

/// A text without the separator is one piece.
pub proof fn lemma_split_on_free(s: Seq<char>, sep: char)
    requires
        !s.contains(sep),
    ensures
        split_on(s, sep) == seq![s],
    decreases s.len(),
{
    if s.len() > 0 {
        assert(!s.drop_last().contains(sep)) by {
            if s.drop_last().contains(sep) {
                let i = choose|i: int| 0 <= i < s.drop_last().len() && s.drop_last()[i] == sep;
                assert(s[i] == sep);
            }
        }
        lemma_split_on_free(s.drop_last(), sep);
        assert(s.last() != sep) by {
            assert(s[s.len() - 1] == s.last());
        }
        assert(s.drop_last().push(s.last()) =~= s);
        assert(seq![s.drop_last()].update(0, s.drop_last().push(s.last())) =~= seq![s]);
    } else {
        assert(s =~= Seq::<char>::empty());
    }
}

proof fn lemma_csv_without_quotes(
    line: Seq<char>,
    i: int,
    fields: Seq<Seq<char>>,
    field: Seq<char>,
)
    requires
        0 <= i <= line.len(),
        !line.contains('"'),
        !field.contains(','),
    ensures
        csv_from(line, i, fields, field, false) == fields + split_on(field + line.skip(i), ','),
    decreases line.len() - i,
{
    if i == line.len() {
        assert(field + line.skip(i) =~= field);
        lemma_split_on_free(field, ',');
        assert(fields.push(field) =~= fields + seq![field]);
    } else {
        let ch = line[i];
        assert(ch != '"') by {
            if ch == '"' {
                assert(line.contains('"'));
            }
        }
        if ch == ',' {
            lemma_csv_without_quotes(line, i + 1, fields.push(field), Seq::empty());
            assert(Seq::<char>::empty() + line.skip(i + 1) =~= line.skip(i + 1));
            assert(field + line.skip(i) =~= field + seq![','] + line.skip(i + 1));
            lemma_split_on_concat(field, line.skip(i + 1), ',');
            lemma_split_on_free(field, ',');
            assert(fields.push(field) + split_on(line.skip(i + 1), ',') =~= fields + (seq![field]
                + split_on(line.skip(i + 1), ',')));
        } else {
            assert(!field.push(ch).contains(',')) by {
                if field.push(ch).contains(',') {
                    let j = choose|j: int|
                        0 <= j < field.push(ch).len() && field.push(ch)[j] == ',';
                    if j < field.len() {
                        assert(field[j] == ',');
                    }
                }
            }
            lemma_csv_without_quotes(line, i + 1, fields, field.push(ch));
            assert(field.push(ch) + line.skip(i + 1) =~= field + line.skip(i));
        }
    }
}

/// A line without quotes splits at every comma.
pub proof fn lemma_csv_fields_without_quotes(line: Seq<char>)
    requires
        !line.contains('"'),
    ensures
        csv_fields(line) == split_on(line, ','),
{
    lemma_csv_without_quotes(line, 0, Seq::empty(), Seq::empty());
    assert(Seq::<char>::empty() + line.skip(0) =~= line);
    assert(Seq::<Seq<char>>::empty() + split_on(line, ',') =~= split_on(line, ','));
}

/// A character as it stands inside quotes: a quote is doubled.
pub open spec fn escaped_char(c: char) -> Seq<char> {
    if c == '"' {
        seq!['"', '"']
    } else {
        seq![c]
    }
}

/// A field's characters as they stand inside quotes.
pub open spec fn escaped(f: Seq<char>) -> Seq<char>
    decreases f.len(),
{
    if f.len() == 0 {
        Seq::empty()
    } else {
        escaped(f.drop_last()) + escaped_char(f.last())
    }
}

/// A field written in quotes.
pub open spec fn quoted_field(f: Seq<char>) -> Seq<char> {
    seq!['"'] + escaped(f) + seq!['"']
}

/// The fields written in quotes and joined with commas.
pub open spec fn quoted_line(fields: Seq<Seq<char>>) -> Seq<char>
    decreases fields.len(),
{
    if fields.len() == 0 {
        Seq::empty()
    } else if fields.len() == 1 {
        quoted_field(fields[0])
    } else {
        quoted_line(fields.drop_last()) + seq![','] + quoted_field(fields.last())
    }
}

proof fn lemma_escaped_prefix(f: Seq<char>, k: int)
    requires
        0 <= k <= f.len(),
    ensures
        escaped(f.take(k)).is_prefix_of(escaped(f)),
    decreases f.len() - k,
{
    if k < f.len() {
        lemma_escaped_prefix(f, k + 1);
        assert(f.take(k + 1).drop_last() =~= f.take(k));
    } else {
        assert(f.take(k) =~= f);
    }
}

proof fn lemma_csv_in_quotes(line: Seq<char>, a: int, f: Seq<char>, fields: Seq<Seq<char>>, k: int)
    requires
        0 <= a,
        a + escaped(f).len() <= line.len(),
        line.subrange(a, a + escaped(f).len()) == escaped(f),
        0 <= k <= f.len(),
    ensures
        csv_from(line, a, fields, Seq::empty(), true) == csv_from(
            line,
            a + escaped(f.take(k)).len(),
            fields,
            f.take(k),
            true,
        ),
    decreases k,
{
    if k == 0 {
        assert(f.take(0) =~= Seq::<char>::empty());
    } else {
        lemma_csv_in_quotes(line, a, f, fields, k - 1);
        lemma_escaped_prefix(f, k);
        let before = escaped(f.take(k - 1));
        assert(f.take(k).drop_last() =~= f.take(k - 1));
        assert(f.take(k).last() == f[k - 1]);
        assert(escaped(f.take(k)) == before + escaped_char(f[k - 1]));
        let p = a + before.len();
        assert(line[p] == escaped(f)[before.len() as int]);
        assert(escaped(f)[before.len() as int] == escaped(f.take(k))[before.len() as int]);
        if f[k - 1] == '"' {
            assert(line[p + 1] == escaped(f.take(k))[before.len() as int + 1]);
        }
        assert(f.take(k - 1).push(f[k - 1]) =~= f.take(k));
    }
}

proof fn lemma_csv_quoted_field(line: Seq<char>, p: int, f: Seq<char>, fields: Seq<Seq<char>>)
    requires
        0 <= p,
        p + quoted_field(f).len() <= line.len(),
        line.subrange(p, p + quoted_field(f).len()) == quoted_field(f),
        p + quoted_field(f).len() == line.len() || line[p + quoted_field(f).len()] != '"',
    ensures
        csv_from(line, p, fields, Seq::empty(), false) == csv_from(
            line,
            p + quoted_field(f).len(),
            fields,
            f,
            false,
        ),
{
    let q = quoted_field(f);
    let e = escaped(f);
    assert(line[p] == q[0]);
    assert(line.subrange(p + 1, p + 1 + e.len()) =~= e) by {
        assert forall|t: int| 0 <= t < e.len() implies line.subrange(p + 1, p + 1 + e.len())[t]
            == e[t] by {
            assert(line[p + 1 + t] == q[1 + t]);
        }
    }
    lemma_csv_in_quotes(line, p + 1, f, fields, f.len() as int);
    assert(f.take(f.len() as int) =~= f);
    let c = p + 1 + e.len();
    assert(line[c] == q[1 + e.len() as int]);
}

proof fn lemma_csv_line_progress(fields: Seq<Seq<char>>, j: int)
    requires
        1 <= j <= fields.len(),
    ensures
        csv_fields(quoted_line(fields)) == csv_from(
            quoted_line(fields),
            quoted_line(fields.take(j)).len() as int,
            fields.take(j - 1),
            fields[j - 1],
            false,
        ),
    decreases j,
{
    let line = quoted_line(fields);
    let n = fields.len() as int;
    lemma_quoted_line_prefixes(fields, n);
    if j == 1 {
        assert(fields.take(1) =~= seq![fields[0]]);
        assert(quoted_line(fields.take(1)) == quoted_field(fields[0]));
        assert(quoted_line(fields.take(1)).is_prefix_of(line));
        let q = quoted_field(fields[0]);
        assert(line.subrange(0, q.len() as int) =~= q);
        if 1 < n {
            assert(line[q.len() as int] == ',');
        } else {
            assert(fields.take(1) =~= fields);
        }
        lemma_csv_quoted_field(line, 0, fields[0], Seq::empty());
        assert(fields.take(0) =~= Seq::<Seq<char>>::empty());
    } else {
        let i = j - 1;
        lemma_csv_line_progress(fields, i);
        let pi = quoted_line(fields.take(i));
        let next = quoted_line(fields.take(i + 1));
        assert(next.is_prefix_of(line));
        assert(next == pi + seq![','] + quoted_field(fields[i]));
        assert(line[pi.len() as int] == ',');
        assert(fields.take(i - 1).push(fields[i - 1]) =~= fields.take(i));
        let p = pi.len() as int + 1;
        let q = quoted_field(fields[i]);
        assert(line.subrange(p, p + q.len() as int) =~= q) by {
            assert forall|t: int| 0 <= t < q.len() implies line.subrange(p, p + q.len() as int)[t]
                == q[t] by {
                assert(line[p + t] == next[p + t]);
            }
        }
        if j < n {
            assert(line[next.len() as int] == ',');
        } else {
            assert(fields.take(n) =~= fields);
        }
        lemma_csv_quoted_field(line, p, fields[i], fields.take(i));
    }
}

/// The fields written in quotes (quotes inside doubled) and joined with
/// commas read back as the same fields.
pub proof fn lemma_csv_quoted_round_trip(fields: Seq<Seq<char>>)
    requires
        fields.len() >= 1,
    ensures
        csv_fields(quoted_line(fields)) == fields,
{
    let n = fields.len() as int;
    lemma_csv_line_progress(fields, n);
    assert(fields.take(n) =~= fields);
    assert(fields.take(n - 1).push(fields[n - 1]) =~= fields);
}

proof fn lemma_quoted_line_prefixes(fields: Seq<Seq<char>>, n: int)
    requires
        n == fields.len(),
        n >= 1,
    ensures
        forall|i: int| 1 <= i <= n ==> #[trigger] quoted_line(fields.take(i)).is_prefix_of(
            quoted_line(fields),
        ),
        forall|i: int|
            1 <= i < n ==> quoted_line(fields)[quoted_line(#[trigger] fields.take(i)).len() as int]
                == ',',
        forall|i: int|
            1 <= i < n ==> #[trigger] quoted_line(fields.take(i + 1)) == quoted_line(fields.take(i))
                + seq![','] + quoted_field(fields[i]),
{
    assert forall|i: int| 1 <= i < n implies #[trigger] quoted_line(fields.take(i + 1))
        == quoted_line(fields.take(i)) + seq![','] + quoted_field(fields[i]) by {
        assert(fields.take(i + 1).drop_last() =~= fields.take(i));
        assert(fields.take(i + 1).last() == fields[i]);
    }
    assert forall|i: int| 1 <= i <= n implies #[trigger] quoted_line(fields.take(i)).is_prefix_of(
        quoted_line(fields),
    ) by {
        lemma_quoted_prefix_chain(fields, i);
    }
    assert forall|i: int|
        1 <= i < n implies quoted_line(fields)[quoted_line(#[trigger] fields.take(i)).len() as int]
        == ',' by {
        lemma_quoted_prefix_chain(fields, i + 1);
        assert(fields.take(i + 1).drop_last() =~= fields.take(i));
        let a = quoted_line(fields.take(i));
        let b = quoted_line(fields.take(i + 1));
        assert(b == a + seq![','] + quoted_field(fields.take(i + 1).last()));
        assert(b[a.len() as int] == ',');
    }
}

proof fn lemma_quoted_prefix_chain(fields: Seq<Seq<char>>, i: int)
    requires
        1 <= i <= fields.len(),
    ensures
        quoted_line(fields.take(i)).is_prefix_of(quoted_line(fields)),
    decreases fields.len() - i,
{
    if i < fields.len() {
        lemma_quoted_prefix_chain(fields, i + 1);
        assert(fields.take(i + 1).drop_last() =~= fields.take(i));
    } else {
        assert(fields.take(i) =~= fields);
    }
}

/// The fields joined with commas, without quotes.
pub open spec fn comma_line(fields: Seq<Seq<char>>) -> Seq<char>
    decreases fields.len(),
{
    if fields.len() == 0 {
        Seq::empty()
    } else if fields.len() == 1 {
        fields[0]
    } else {
        comma_line(fields.drop_last()) + seq![','] + fields.last()
    }
}

proof fn lemma_comma_line(fields: Seq<Seq<char>>)
    requires
        fields.len() >= 1,
        forall|i: int|
            0 <= i < fields.len() ==> !(#[trigger] fields[i]).contains(',') && !fields[i].contains('"'),
    ensures
        split_on(comma_line(fields), ',') == fields,
        !comma_line(fields).contains('"'),
    decreases fields.len(),
{
    if fields.len() == 1 {
        lemma_split_on_free(fields[0], ',');
        assert(seq![fields[0]] =~= fields);
    } else {
        let init = fields.drop_last();
        assert forall|i: int| 0 <= i < init.len() implies !(#[trigger] init[i]).contains(',')
            && !init[i].contains('"') by {
            assert(init[i] == fields[i]);
        }
        lemma_comma_line(init);
        lemma_split_on_concat(comma_line(init), fields.last(), ',');
        lemma_split_on_free(fields.last(), ',');
        assert(init + seq![fields.last()] =~= fields);
        let line = comma_line(fields);
        let a = comma_line(init);
        assert(line == a + seq![','] + fields.last());
        if line.contains('"') {
            let k = choose|k: int| 0 <= k < line.len() && line[k] == '"';
            if k < a.len() {
                assert(a[k] == '"');
            } else if k > a.len() {
                assert(fields.last()[k - a.len() - 1] == '"');
            }
        }
    }
}

/// Fields without commas or quotes, joined with commas, read back as the
/// same fields.
pub proof fn lemma_csv_plain_round_trip(fields: Seq<Seq<char>>)
    requires
        fields.len() >= 1,
        forall|i: int|
            0 <= i < fields.len() ==> !(#[trigger] fields[i]).contains(',') && !fields[i].contains('"'),
    ensures
        csv_fields(comma_line(fields)) == fields,
{
    lemma_comma_line(fields);
    lemma_csv_fields_without_quotes(comma_line(fields));
}

proof fn lemma_csv_from_len(line: Seq<char>, i: int, fields: Seq<Seq<char>>, field: Seq<char>, quoted: bool)
    ensures
        csv_from(line, i, fields, field, quoted).len() > fields.len(),
    decreases line.len() - i,
{
    if 0 <= i < line.len() {
        let ch = line[i];
        if ch == '"' && quoted && i + 1 < line.len() && line[i + 1] == '"' {
            lemma_csv_from_len(line, i + 2, fields, field.push('"'), quoted);
        } else if ch == '"' {
            lemma_csv_from_len(line, i + 1, fields, field, !quoted);
        } else if ch == ',' && !quoted {
            lemma_csv_from_len(line, i + 1, fields.push(field), Seq::empty(), quoted);
        } else {
            lemma_csv_from_len(line, i + 1, fields, field.push(ch), quoted);
        }
    }
}

/// Every line, the empty one too, has at least one field.
pub proof fn lemma_csv_fields_nonempty(line: Seq<char>)
    ensures
        csv_fields(line).len() >= 1,
{
    lemma_csv_from_len(line, 0, Seq::empty(), Seq::empty(), false);
}

/// The value of a string of ASCII digits.
pub open spec fn digits_value(s: Seq<char>) -> nat
    decreases s.len(),
{
    if s.len() == 0 {
        0
    } else {
        digits_value(s.drop_last()) * 10 + ((s.last() as u32) - ('0' as u32)) as nat
    }
}

/// Every character of `s` is an ASCII digit.
pub open spec fn all_digits(s: Seq<char>) -> bool {
    forall|i: int| 0 <= i < s.len() ==> spec_is_ascii_digit(#[trigger] s[i])
}

/// The value that `u32::from_str` gives `s`: an optional `+`, then one or
/// more ASCII digits whose value fits in a `u32`.
pub open spec fn spec_parse_u32(s: Seq<char>) -> Option<u32> {
    let digits = if s.len() > 0 && s[0] == '+' {
        s.drop_first()
    } else {
        s
    };
    if digits.len() > 0 && all_digits(digits) && digits_value(digits) <= u32::MAX {
        Some(digits_value(digits) as u32)
    } else {
        None
    }
}

proof fn lemma_digits_value_monotone(s: Seq<char>, n: int)
    requires
        0 <= n <= s.len(),
        all_digits(s),
    ensures
        digits_value(s.take(n)) <= digits_value(s),
    decreases s.len() - n,
{
    if n < s.len() {
        lemma_digits_value_monotone(s, n + 1);
        assert(s.take(n + 1).drop_last() == s.take(n));
        assert(s.take(n + 1).last() == s[n]);
        assert(spec_is_ascii_digit(s[n]));
        assert(digits_value(s.take(n + 1)) == digits_value(s.take(n)) * 10 + ((s[n] as u32) - (
        '0' as u32)) as nat);
    } else {
        assert(s.take(n) =~= s);
    }
}

/// `u32::from_str` on a character slice.
pub fn parse_u32(s: &[char]) -> (r: Option<u32>)
    ensures
        r == spec_parse_u32(s@),
{
    let mut start: usize = 0;
    if s.len() > 0 && s[0] == '+' {
        start = 1;
    }
    let ghost digits = s@.skip(start as int);
    assert(digits == (if s@.len() > 0 && s@[0] == '+' {
        s@.drop_first()
    } else {
        s@
    }));
    if start == s.len() {
        return None;
    }
    let mut value: u64 = 0;
    let mut i = start;
    while i < s.len()
        invariant
            start <= i <= s@.len(),
            start < s@.len(),
            digits == s@.skip(start as int),
            digits == (if s@.len() > 0 && s@[0] == '+' {
                s@.drop_first()
            } else {
                s@
            }),
            all_digits(s@.subrange(start as int, i as int)),
            value == digits_value(s@.subrange(start as int, i as int)),
            value <= u32::MAX,
        decreases s@.len() - i,
    {
        let c = s[i];
        if !('0' <= c && c <= '9') {
            assert(digits[i - start] == c);
            assert(!spec_is_ascii_digit(digits[i - start]));
            return None;
        }
        let d = ((c as u32) - ('0' as u32)) as u64;
        assert(s@.subrange(start as int, i + 1).drop_last() == s@.subrange(start as int, i as int));
        value = value * 10 + d;
        assert(all_digits(s@.subrange(start as int, i + 1))) by {
            assert forall|j: int| 0 <= j < i + 1 - start implies spec_is_ascii_digit(
                #[trigger] s@.subrange(start as int, i + 1)[j],
            ) by {
                if j < i - start {
                    assert(s@.subrange(start as int, i + 1)[j] == s@.subrange(
                        start as int,
                        i as int,
                    )[j]);
                }
            }
        }
        if value > 4294967295 {
            proof {
                if all_digits(digits) {
                    assert(s@.subrange(start as int, i + 1) == digits.take(i + 1 - start));
                    lemma_digits_value_monotone(digits, i + 1 - start);
                }
            }
            return None;
        }
        i += 1;
    }
    assert(s@.subrange(start as int, s@.len() as int) == digits);
    Some(value as u32)
}

} // verus!
