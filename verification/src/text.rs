//! Character-level helpers on Unicode text: conversions between `str`,
//! `String` and character vectors, ASCII classification, trimming, line
//! splitting and lexicographic order.

use vstd::prelude::*;
use vstd::string::*;

verus! {

/// The characters of `s`, in order.
pub fn chars_of(s: &str) -> (r: Vec<char>)
    ensures
        r@ == s@,
{
    let mut r: Vec<char> = Vec::new();
    for c in it: s.chars()
        invariant
            it.seq() == s@,
            r@ == it.seq().take(it.index() as int),
    {
        r.push(c);
    }
    r
}

/// `String::push`: appends one character. Claims that the string's
/// characters become its old characters followed by `ch`.
pub assume_specification[ String::push ](s: &mut String, ch: char)
    ensures
        final(s)@ == old(s)@.push(ch),
;

/// A `String` holding exactly the given characters.
pub fn string_from_chars(chars: &[char]) -> (s: String)
    ensures
        s@ == chars@,
{
    let mut s = String::new();
    let mut i: usize = 0;
    while i < chars.len()
        invariant
            i <= chars@.len(),
            s@ == chars@.take(i as int),
        decreases chars@.len() - i,
    {
        s.push(chars[i]);
        i += 1;
        assert(chars@.take(i as int) =~= chars@.take(i - 1).push(chars@[i - 1]));
    }
    assert(chars@.take(chars@.len() as int) =~= chars@);
    s
}

/// A copy of the characters of a character vector.
pub fn copy_chars(v: &Vec<char>) -> (r: Vec<char>)
    ensures
        r@ == v@,
{
    let mut r: Vec<char> = Vec::new();
    let mut i: usize = 0;
    while i < v.len()
        invariant
            i <= v.len(),
            r@ == v@.take(i as int),
        decreases v.len() - i,
    {
        r.push(v[i]);
        i += 1;
    }
    r
}

/// Appends all characters of `src` to `dst`.
pub fn push_all(dst: &mut Vec<char>, src: &[char])
    ensures
        final(dst)@ == old(dst)@ + src@,
{
    let mut i: usize = 0;
    while i < src.len()
        invariant
            i <= src@.len(),
            dst@ == old(dst)@ + src@.take(i as int),
        decreases src@.len() - i,
    {
        dst.push(src[i]);
        i += 1;
        assert(src@.take(i as int) == src@.take(i - 1) + seq![src@[i - 1]]);
    }
    assert(src@.take(src@.len() as int) == src@);
}

/// `char::from_u32`. Claims what its documentation says: the character
/// with the given scalar value when `code` is one (not a surrogate, at most
/// U+10FFFF), else `None`.
#[verifier::external_body]
pub(crate) fn char_from_u32(code: u32) -> (r: Option<char>)
    ensures
        r == (if is_scalar_value(code as int) {
            Some(code as char)
        } else {
            None
        }),
{
    char::from_u32(code)
}

/// Unicode scalar values: every code point but the surrogates.
pub open spec fn is_scalar_value(code: int) -> bool {
    (0 <= code <= 0xD7FF) || (0xE000 <= code <= 0x10FFFF)
}

/// `char::to_ascii_lowercase`.
pub open spec fn spec_lower_ascii(c: char) -> char {
    if 'A' <= c <= 'Z' {
        ((c as u32) + 32) as char
    } else {
        c
    }
}

/// Every character of `s` ASCII-lowercased.
pub open spec fn lower_ascii_seq(s: Seq<char>) -> Seq<char> {
    s.map_values(|c: char| spec_lower_ascii(c))
}

/// `char::to_ascii_lowercase`.
pub fn lower_ascii(c: char) -> (r: char)
    ensures
        r == spec_lower_ascii(c),
{
    if 'A' <= c && c <= 'Z' {
        ((c as u8) + 32) as char
    } else {
        c
    }
}

/// `char::is_ascii_alphabetic`.
pub open spec fn spec_is_ascii_alpha(c: char) -> bool {
    ('a' <= c <= 'z') || ('A' <= c <= 'Z')
}

/// `char::is_ascii_alphabetic`.
pub fn is_ascii_alpha(c: char) -> (r: bool)
    ensures
        r == spec_is_ascii_alpha(c),
{
    ('a' <= c && c <= 'z') || ('A' <= c && c <= 'Z')
}

/// `char::is_ascii_digit`.
pub open spec fn spec_is_ascii_digit(c: char) -> bool {
    '0' <= c <= '9'
}

/// `char::is_ascii_digit`.
pub fn is_ascii_digit(c: char) -> (r: bool)
    ensures
        r == spec_is_ascii_digit(c),
{
    '0' <= c && c <= '9'
}

/// The Unicode `White_Space` property, which `str::trim` strips.
pub open spec fn spec_is_whitespace(c: char) -> bool {
    ||| ('\u{9}' <= c <= '\u{d}')
    ||| c == ' '
    ||| c == '\u{85}'
    ||| c == '\u{a0}'
    ||| c == '\u{1680}'
    ||| ('\u{2000}' <= c <= '\u{200a}')
    ||| c == '\u{2028}'
    ||| c == '\u{2029}'
    ||| c == '\u{202f}'
    ||| c == '\u{205f}'
    ||| c == '\u{3000}'
}

/// `char::is_whitespace`.
pub fn is_whitespace(c: char) -> (r: bool)
    ensures
        r == spec_is_whitespace(c),
{
    ('\u{9}' <= c && c <= '\u{d}') || c == ' ' || c == '\u{85}' || c == '\u{a0}' || c
        == '\u{1680}' || ('\u{2000}' <= c && c <= '\u{200a}') || c == '\u{2028}' || c
        == '\u{2029}' || c == '\u{202f}' || c == '\u{205f}' || c == '\u{3000}'
}

/// Number of leading characters of `s` that satisfy `p`.
pub open spec fn leading_count(s: Seq<char>, p: spec_fn(char) -> bool) -> nat
    decreases s.len(),
{
    if s.len() > 0 && p(s[0]) {
        1 + leading_count(s.drop_first(), p)
    } else {
        0
    }
}

/// Number of trailing characters of `s` that satisfy `p`.
pub open spec fn trailing_count(s: Seq<char>, p: spec_fn(char) -> bool) -> nat
    decreases s.len(),
{
    if s.len() > 0 && p(s.last()) {
        1 + trailing_count(s.drop_last(), p)
    } else {
        0
    }
}

/// The leading characters that `leading_count` counts pass `p`, and the
/// one after them does not.
pub proof fn lemma_leading_count(s: Seq<char>, p: spec_fn(char) -> bool)
    ensures
        leading_count(s, p) <= s.len(),
        forall|i: int| 0 <= i < leading_count(s, p) ==> #[trigger] p(s[i]),
        leading_count(s, p) < s.len() ==> !p(s[leading_count(s, p) as int]),
    decreases s.len(),
{
    if s.len() > 0 && p(s[0]) {
        lemma_leading_count(s.drop_first(), p);
        assert forall|i: int| 0 <= i < leading_count(s, p) implies #[trigger] p(s[i]) by {
            if i > 0 {
                assert(s[i] == s.drop_first()[i - 1]);
            }
        }
    }
}

/// The trailing characters that `trailing_count` counts pass `p`, and
/// the one before them does not.
pub proof fn lemma_trailing_count(s: Seq<char>, p: spec_fn(char) -> bool)
    ensures
        trailing_count(s, p) <= s.len(),
        forall|i: int| s.len() - trailing_count(s, p) <= i < s.len() ==> #[trigger] p(s[i]),
        trailing_count(s, p) < s.len() ==> !p(s[s.len() - trailing_count(s, p) - 1]),
    decreases s.len(),
{
    if s.len() > 0 && p(s.last()) {
        lemma_trailing_count(s.drop_last(), p);
        assert forall|i: int| s.len() - trailing_count(s, p) <= i < s.len() implies #[trigger] p(
            s[i],
        ) by {
            if i < s.len() - 1 {
                assert(s[i] == s.drop_last()[i]);
            }
        }
    }
}

/// The whitespace test as a predicate value.
pub open spec fn whitespace_pred() -> spec_fn(char) -> bool {
    |c: char| spec_is_whitespace(c)
}

/// `s` without leading and trailing whitespace (`str::trim`).
pub open spec fn spec_trim(s: Seq<char>) -> Seq<char> {
    let t = s.skip(leading_count(s, whitespace_pred()) as int);
    t.take(t.len() - trailing_count(t, whitespace_pred()))
}

/// Index of the first character of `s[from..]` that is not whitespace.
fn skip_whitespace_from(s: &[char], from: usize) -> (r: usize)
    requires
        from <= s@.len(),
    ensures
        from + leading_count(s@.skip(from as int), whitespace_pred()) == r,
{
    let ghost ws = whitespace_pred();
    let mut i = from;
    proof {
        lemma_leading_count(s@.skip(from as int), ws);
    }
    while i < s.len() && is_whitespace(s[i])
        invariant
            ws == whitespace_pred(),
            from <= i <= s@.len(),
            i - from <= leading_count(s@.skip(from as int), ws),
            leading_count(s@.skip(from as int), ws) == (i - from) + leading_count(
                s@.skip(i as int),
                ws,
            ),
        decreases s@.len() - i,
    {
        assert(s@.skip(i as int).drop_first() == s@.skip(i + 1));
        assert(s@.skip(i as int)[0] == s@[i as int]);
        assert(ws(s@.skip(i as int)[0]));
        proof {
            lemma_leading_count(s@.skip(i + 1), ws);
        }
        i += 1;
    }
    i
}

/// Index just past the last character of `s[from..]` that is not whitespace.
fn trim_end_from(s: &[char], from: usize) -> (r: usize)
    requires
        from <= s@.len(),
    ensures
        from <= r <= s@.len(),
        r == s@.len() - trailing_count(s@.skip(from as int), whitespace_pred()),
{
    let ghost ws = whitespace_pred();
    let ghost t = s@.skip(from as int);
    proof {
        lemma_trailing_count(t, ws);
        assert(s@.subrange(from as int, s@.len() as int) == t);
    }
    let mut end = s.len();
    while end > from && is_whitespace(s[end - 1])
        invariant
            ws == whitespace_pred(),
            from <= end <= s@.len(),
            t == s@.skip(from as int),
            trailing_count(t, ws) == (s@.len() - end) + trailing_count(
                s@.subrange(from as int, end as int),
                ws,
            ),
        decreases end,
    {
        let ghost u = s@.subrange(from as int, end as int);
        assert(u.drop_last() == s@.subrange(from as int, end - 1));
        assert(u.last() == s@[end - 1]);
        assert(ws(u.last()));
        end -= 1;
    }
    end
}

/// The characters `s[from..to]`.
pub fn copy_range(s: &[char], from: usize, to: usize) -> (r: Vec<char>)
    requires
        from <= to <= s@.len(),
    ensures
        r@ == s@.subrange(from as int, to as int),
{
    let mut r: Vec<char> = Vec::new();
    let mut i = from;
    while i < to
        invariant
            from <= i <= to <= s@.len(),
            r@ == s@.subrange(from as int, i as int),
        decreases to - i,
    {
        r.push(s[i]);
        i += 1;
    }
    r
}

/// The first `count` characters of `s`, or all of it when it is shorter.
pub open spec fn first_chars(s: Seq<char>, count: int) -> Seq<char> {
    if count < s.len() {
        s.take(count)
    } else {
        s
    }
}

/// `s` without its first `count` characters, empty when it is shorter.
pub open spec fn after_chars(s: Seq<char>, count: int) -> Seq<char> {
    if count < s.len() {
        s.skip(count)
    } else {
        Seq::empty()
    }
}

/// The first `count` characters of `value`.
pub fn take_chars(value: &str, count: usize) -> (r: String)
    ensures
        r@ == first_chars(value@, count as int),
{
    let chars = chars_of(value);
    let end = if count < chars.len() {
        count
    } else {
        chars.len()
    };
    let part = copy_range(chars.as_slice(), 0, end);
    assert(chars@.subrange(0, chars@.len() as int) == chars@);
    string_from_chars(part.as_slice())
}

/// `value` without its first `count` characters.
pub fn skip_chars(value: &str, count: usize) -> (r: String)
    ensures
        r@ == after_chars(value@, count as int),
{
    let chars = chars_of(value);
    let start = if count < chars.len() {
        count
    } else {
        chars.len()
    };
    let part = copy_range(chars.as_slice(), start, chars.len());
    string_from_chars(part.as_slice())
}

/// The characters of `value` from `start` up to `end`, both counted in
/// characters and cut to its length.
pub fn slice_chars(value: &str, start: usize, end: usize) -> (r: String)
    requires
        start <= end,
    ensures
        r@ == first_chars(after_chars(value@, start as int), end - start),
{
    let chars = chars_of(value);
    let from = if start < chars.len() {
        start
    } else {
        chars.len()
    };
    let to = if end < chars.len() {
        end
    } else {
        chars.len()
    };
    let part = copy_range(chars.as_slice(), from, to);
    assert(part@ =~= first_chars(after_chars(value@, start as int), end - start));
    string_from_chars(part.as_slice())
}

/// Splitting a text after any number of characters and joining the parts
/// gives the text back.
pub proof fn lemma_take_skip_rejoin(s: Seq<char>, count: int)
    requires
        count >= 0,
    ensures
        first_chars(s, count) + after_chars(s, count) == s,
{
    if count < s.len() {
        assert(s.take(count) + s.skip(count) =~= s);
    } else {
        assert(s + Seq::<char>::empty() =~= s);
    }
}

/// `str::trim` on a slice of characters.
pub fn trim_chars(s: &[char]) -> (r: Vec<char>)
    ensures
        r@ == spec_trim(s@),
{
    let start = skip_whitespace_from(s, 0);
    assert(s@.skip(0) == s@);
    proof {
        lemma_leading_count(s@, whitespace_pred());
    }
    let end = trim_end_from(s, start);
    let r = copy_range(s, start, end);
    assert(r@ == s@.skip(start as int).take(end - start));
    r
}

/// The hiragana for a katakana letter (U+30A1 to U+30F6); other
/// characters stay as they are.
pub open spec fn spec_kana_fold(c: char) -> char {
    if 0x30A1 <= (c as u32) <= 0x30F6 {
        ((c as u32) - 0x60) as char
    } else {
        c
    }
}

/// Katakana letters of `s` turned into hiragana.
pub open spec fn spec_katakana_to_hiragana(s: Seq<char>) -> Seq<char> {
    s.map_values(|c: char| spec_kana_fold(c))
}

/// Katakana letters of `v` turned into hiragana.
pub fn katakana_to_hiragana_chars(v: &[char]) -> (r: Vec<char>)
    ensures
        r@ == spec_katakana_to_hiragana(v@),
{
    let mut r: Vec<char> = Vec::new();
    let mut i: usize = 0;
    while i < v.len()
        invariant
            i <= v@.len(),
            r@ == spec_katakana_to_hiragana(v@.take(i as int)),
        decreases v@.len() - i,
    {
        let ch = v[i];
        let code = ch as u32;
        let folded = if 0x30A1 <= code && code <= 0x30F6 {
            match char_from_u32(code - 0x60) {
                Some(c) => c,
                None => ch,
            }
        } else {
            ch
        };
        r.push(folded);
        i += 1;
        assert(spec_katakana_to_hiragana(v@.take(i as int)) =~= spec_katakana_to_hiragana(
            v@.take(i - 1),
        ).push(spec_kana_fold(v@[i - 1])));
    }
    assert(v@.take(v@.len() as int) == v@);
    r
}

/// Katakana letters of `value` turned into hiragana.
pub fn katakana_to_hiragana(value: &str) -> (r: String)
    ensures
        r@ == spec_katakana_to_hiragana(value@),
        r@.len() == value@.len(),
{
    let chars = chars_of(value);
    let r = katakana_to_hiragana_chars(chars.as_slice());
    string_from_chars(r.as_slice())
}

/// Lexicographic order on character sequences by scalar value, which is the
/// order of `str`'s `Ord`.
pub open spec fn chars_lt(a: Seq<char>, b: Seq<char>) -> bool
    decreases a.len(),
{
    if a.len() == 0 {
        b.len() > 0
    } else if b.len() == 0 {
        false
    } else if a[0] != b[0] {
        a[0] < b[0]
    } else {
        chars_lt(a.drop_first(), b.drop_first())
    }
}

/// No text comes before itself.
pub proof fn lemma_chars_lt_irreflexive(a: Seq<char>)
    ensures
        !chars_lt(a, a),
    decreases a.len(),
{
    if a.len() > 0 {
        lemma_chars_lt_irreflexive(a.drop_first());
    }
}

/// The text order is transitive.
pub proof fn lemma_chars_lt_transitive(a: Seq<char>, b: Seq<char>, c: Seq<char>)
    requires
        chars_lt(a, b),
        chars_lt(b, c),
    ensures
        chars_lt(a, c),
    decreases a.len(),
{
    if a.len() > 0 && b.len() > 0 && c.len() > 0 && a[0] == b[0] && b[0] == c[0] {
        lemma_chars_lt_transitive(a.drop_first(), b.drop_first(), c.drop_first());
    }
}

/// Of two different texts, one comes before the other.
pub proof fn lemma_chars_lt_total(a: Seq<char>, b: Seq<char>)
    ensures
        a == b || chars_lt(a, b) || chars_lt(b, a),
    decreases a.len(),
{
    if a.len() > 0 && b.len() > 0 && a[0] == b[0] {
        lemma_chars_lt_total(a.drop_first(), b.drop_first());
        if a.drop_first() == b.drop_first() {
            assert(a == seq![a[0]] + a.drop_first());
            assert(b == seq![b[0]] + b.drop_first());
        }
    } else if a.len() == 0 && b.len() == 0 {
        assert(a == b);
    }
}

/// Of two texts, at most one comes before the other.
pub proof fn lemma_chars_lt_asymmetric(a: Seq<char>, b: Seq<char>)
    requires
        chars_lt(a, b),
    ensures
        !chars_lt(b, a),
{
    if chars_lt(b, a) {
        lemma_chars_lt_transitive(a, b, a);
        lemma_chars_lt_irreflexive(a);
    }
}

/// Whether `a` comes strictly before `b` in lexicographic order.
pub fn chars_less(a: &[char], b: &[char]) -> (r: bool)
    ensures
        r == chars_lt(a@, b@),
{
    let mut i: usize = 0;
    assert(a@.skip(0) == a@ && b@.skip(0) == b@);
    while i < a.len() && i < b.len() && a[i] == b[i]
        invariant
            i <= a@.len(),
            i <= b@.len(),
            a@.take(i as int) == b@.take(i as int),
            chars_lt(a@, b@) == chars_lt(a@.skip(i as int), b@.skip(i as int)),
        decreases a@.len() - i,
    {
        assert(a@.skip(i as int).drop_first() == a@.skip(i + 1));
        assert(b@.skip(i as int).drop_first() == b@.skip(i + 1));
        i += 1;
    }
    if i == a.len() {
        i < b.len()
    } else if i == b.len() {
        false
    } else {
        a[i] < b[i]
    }
}

/// Whether two character slices hold the same characters.
pub fn chars_equal(a: &[char], b: &[char]) -> (r: bool)
    ensures
        r == (a@ == b@),
{
    if a.len() != b.len() {
        return false;
    }
    let mut i: usize = 0;
    while i < a.len()
        invariant
            a@.len() == b@.len(),
            i <= a@.len(),
            a@.take(i as int) == b@.take(i as int),
        decreases a@.len() - i,
    {
        if a[i] != b[i] {
            return false;
        }
        i += 1;
        assert(a@.take(i as int) == a@.take(i - 1).push(a@[i - 1]));
        assert(b@.take(i as int) == b@.take(i - 1).push(b@[i - 1]));
    }
    assert(a@ == a@.take(a@.len() as int));
    assert(b@ == b@.take(b@.len() as int));
    true
}

/// Whether `prefix` is a prefix of `s` (`str::starts_with`).
pub fn chars_start_with(s: &[char], prefix: &[char]) -> (r: bool)
    ensures
        r == prefix@.is_prefix_of(s@),
{
    if prefix.len() > s.len() {
        return false;
    }
    let mut i: usize = 0;
    while i < prefix.len()
        invariant
            prefix@.len() <= s@.len(),
            i <= prefix@.len(),
            prefix@.take(i as int) == s@.take(i as int),
        decreases prefix@.len() - i,
    {
        if prefix[i] != s[i] {
            assert(s@.subrange(0, prefix@.len() as int)[i as int] == s@[i as int]);
            return false;
        }
        i += 1;
        assert(prefix@.take(i as int) == prefix@.take(i - 1).push(prefix@[i - 1]));
        assert(s@.take(i as int) == s@.take(i - 1).push(s@[i - 1]));
    }
    assert(prefix@ == prefix@.take(prefix@.len() as int));
    true
}

/// The pieces of `s` between occurrences of `sep` (`str::split`), the last
/// piece included even when empty.
pub open spec fn split_on(s: Seq<char>, sep: char) -> Seq<Seq<char>>
    decreases s.len(),
{
    if s.len() == 0 {
        seq![Seq::<char>::empty()]
    } else {
        let rest = split_on(s.drop_last(), sep);
        if s.last() == sep {
            rest.push(Seq::<char>::empty())
        } else {
            rest.update(rest.len() - 1, rest.last().push(s.last()))
        }
    }
}

/// Splitting gives at least one piece.
pub proof fn lemma_split_on_len(s: Seq<char>, sep: char)
    ensures
        split_on(s, sep).len() >= 1,
    decreases s.len(),
{
    if s.len() > 0 {
        lemma_split_on_len(s.drop_last(), sep);
    }
}

/// `str::split` on a character slice.
pub fn split_chars(s: &[char], sep: char) -> (r: Vec<Vec<char>>)
    ensures
        r@.len() == split_on(s@, sep).len(),
        forall|i: int| 0 <= i < r@.len() ==> #[trigger] r@[i]@ == split_on(s@, sep)[i],
{
    let mut done: Vec<Vec<char>> = Vec::new();
    let mut cur: Vec<char> = Vec::new();
    let mut i: usize = 0;
    while i < s.len()
        invariant
            i <= s@.len(),
            done@.len() + 1 == split_on(s@.take(i as int), sep).len(),
            forall|k: int|
                0 <= k < done@.len() ==> #[trigger] done@[k]@ == split_on(s@.take(i as int), sep)[k],
            cur@ == split_on(s@.take(i as int), sep).last(),
        decreases s@.len() - i,
    {
        proof {
            lemma_split_on_len(s@.take(i as int), sep);
            assert(s@.take(i + 1).drop_last() == s@.take(i as int));
        }
        if s[i] == sep {
            let piece = cur;
            done.push(piece);
            cur = Vec::new();
        } else {
            cur.push(s[i]);
        }
        i += 1;
    }
    assert(s@.take(s@.len() as int) == s@);
    proof {
        lemma_split_on_len(s@, sep);
    }
    done.push(cur);
    done
}

/// `s` with one trailing `'\r'` removed, if there is one.
pub open spec fn strip_cr(s: Seq<char>) -> Seq<char> {
    if s.len() > 0 && s.last() == '\r' {
        s.drop_last()
    } else {
        s
    }
}

/// The lines of `s` as `str::lines` yields them: split at `'\n'`, a
/// `'\r'` right before a `'\n'` removed, and no final empty line.
pub open spec fn spec_lines(s: Seq<char>) -> Seq<Seq<char>> {
    let pieces = split_on(s, '\n');
    let ended = pieces.drop_last().map_values(|p: Seq<char>| strip_cr(p));
    if pieces.last().len() == 0 {
        ended
    } else {
        ended.push(pieces.last())
    }
}

/// `str::lines` on a character slice.
pub fn lines_of(s: &[char]) -> (r: Vec<Vec<char>>)
    ensures
        r@.len() == spec_lines(s@).len(),
        forall|i: int| 0 <= i < r@.len() ==> #[trigger] r@[i]@ == spec_lines(s@)[i],
{
    let pieces = split_chars(s, '\n');
    let ghost sp = split_on(s@, '\n');
    proof {
        lemma_split_on_len(s@, '\n');
    }
    let n = pieces.len();
    let mut r: Vec<Vec<char>> = Vec::new();
    let mut i: usize = 0;
    while i + 1 < n
        invariant
            n == pieces@.len() == sp.len(),
            n >= 1,
            i + 1 <= n,
            forall|k: int| 0 <= k < n ==> #[trigger] pieces@[k]@ == sp[k],
            r@.len() == i,
            forall|k: int| 0 <= k < i ==> #[trigger] r@[k]@ == strip_cr(sp[k]),
        decreases n - i,
    {
        let p = &pieces[i];
        let mut line = copy_chars(p);
        if line.len() > 0 && line[line.len() - 1] == '\r' {
            line.pop();
        }
        r.push(line);
        i += 1;
    }
    let last = &pieces[n - 1];
    if last.len() > 0 {
        r.push(copy_chars(last));
    }
    r
}

/// Index of the first occurrence of `c` in `s`.
pub open spec fn index_of_char(s: Seq<char>, c: char) -> Option<int>
    decreases s.len(),
{
    if s.len() == 0 {
        None
    } else if s[0] == c {
        Some(0)
    } else {
        match index_of_char(s.drop_first(), c) {
            Some(i) => Some(i + 1),
            None => None,
        }
    }
}

/// `index_of_char` finds the first occurrence, or says there is none.
pub proof fn lemma_index_of_char(s: Seq<char>, c: char)
    ensures
        index_of_char(s, c) matches Some(i) ==> 0 <= i < s.len() && s[i] == c && forall|j: int|
            0 <= j < i ==> s[j] != c,
        index_of_char(s, c) is None ==> forall|j: int| 0 <= j < s.len() ==> s[j] != c,
    decreases s.len(),
{
    if s.len() > 0 && s[0] != c {
        lemma_index_of_char(s.drop_first(), c);
        assert forall|j: int| 1 <= j < s.len() implies s[j] == s.drop_first()[j - 1] by {}
    }
}

/// The part of `s` before the first `c`, or all of `s` when there is none
/// (the first piece of `splitn`).
pub open spec fn head_before(s: Seq<char>, c: char) -> Seq<char> {
    match index_of_char(s, c) {
        Some(i) => s.take(i),
        None => s,
    }
}

/// The part of `s` after the first `c`, if there is a `c`
/// (the remainder that `splitn` carries on).
pub open spec fn tail_after(s: Seq<char>, c: char) -> Option<Seq<char>> {
    match index_of_char(s, c) {
        Some(i) => Some(s.skip(i + 1)),
        None => None,
    }
}

/// Index of the first occurrence of `c` in `s`.
pub fn find_char(s: &[char], c: char) -> (r: Option<usize>)
    ensures
        r matches Some(i) ==> index_of_char(s@, c) == Some(i as int),
        r is None ==> index_of_char(s@, c) is None,
{
    proof {
        lemma_index_of_char(s@, c);
    }
    let mut i: usize = 0;
    while i < s.len()
        invariant
            i <= s@.len(),
            forall|j: int| 0 <= j < i ==> s@[j] != c,
        decreases s@.len() - i,
    {
        if s[i] == c {
            proof {
                lemma_index_of_char(s@, c);
            }
            return Some(i);
        }
        i += 1;
    }
    proof {
        lemma_index_of_char(s@, c);
    }
    None
}

/// The pieces of `splitn(2, c)`: the head before the first `c` and the
/// remainder after it, if any.
pub fn split_once_chars(s: &[char], c: char) -> (r: (Vec<char>, Option<Vec<char>>))
    ensures
        r.0@ == head_before(s@, c),
        r.1 is Some == tail_after(s@, c) is Some,
        r.1 matches Some(t) ==> tail_after(s@, c) == Some(t@),
{
    proof {
        lemma_index_of_char(s@, c);
    }
    match find_char(s, c) {
        Some(i) => {
            proof {
                lemma_index_of_char(s@, c);
            }
            let n = s.len();
            assert(i < n);
            (copy_range(s, 0, i), Some(copy_range(s, i + 1, n)))
        },
        None => (copy_range(s, 0, s.len()), None),
    }
}

} // verus!
