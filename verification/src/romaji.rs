//! Composition of typed romaji into hiragana through a conversion table.

use vstd::prelude::*;
use crate::config::ConversionConfig;
use crate::text::{
    chars_of, copy_chars, head_before, is_ascii_alpha, lines_of, lower_ascii, lower_ascii_seq, push_all,
    spec_is_ascii_alpha, spec_lines, spec_lower_ascii, spec_trim, split_once_chars, string_from_chars,
    tail_after, trim_chars, chars_start_with, chars_equal,
};

verus! {

/// A table row: the romaji that is typed and the kana it stands for.
pub type TableRow = (Seq<char>, Seq<char>);

/// An AZIK base syllable: the consonant stem and its five vowel kana.
pub type AzikSyllable = (Seq<char>, Seq<char>, Seq<char>, Seq<char>, Seq<char>, Seq<char>);

/// The standard romaji table, in its listed order.
pub open spec fn standard_rows() -> Seq<TableRow> {
    Seq::empty()
        .push(("xtsu"@, "っ"@))
        .push(("ltsu"@, "っ"@))
        .push(("kya"@, "きゃ"@))
        .push(("kyu"@, "きゅ"@))
        .push(("kyo"@, "きょ"@))
        .push(("gya"@, "ぎゃ"@))
        .push(("gyu"@, "ぎゅ"@))
        .push(("gyo"@, "ぎょ"@))
        .push(("sha"@, "しゃ"@))
        .push(("shu"@, "しゅ"@))
        .push(("sho"@, "しょ"@))
        .push(("sya"@, "しゃ"@))
        .push(("syu"@, "しゅ"@))
        .push(("syo"@, "しょ"@))
        .push(("ja"@, "じゃ"@))
        .push(("ji"@, "じ"@))
        .push(("ju"@, "じゅ"@))
        .push(("jo"@, "じょ"@))
        .push(("jya"@, "じゃ"@))
        .push(("jyu"@, "じゅ"@))
        .push(("jyo"@, "じょ"@))
        .push(("cha"@, "ちゃ"@))
        .push(("chu"@, "ちゅ"@))
        .push(("cho"@, "ちょ"@))
        .push(("cya"@, "ちゃ"@))
        .push(("cyu"@, "ちゅ"@))
        .push(("cyo"@, "ちょ"@))
        .push(("nya"@, "にゃ"@))
        .push(("nyu"@, "にゅ"@))
        .push(("nyo"@, "にょ"@))
        .push(("hya"@, "ひゃ"@))
        .push(("hyu"@, "ひゅ"@))
        .push(("hyo"@, "ひょ"@))
        .push(("bya"@, "びゃ"@))
        .push(("byu"@, "びゅ"@))
        .push(("byo"@, "びょ"@))
        .push(("pya"@, "ぴゃ"@))
        .push(("pyu"@, "ぴゅ"@))
        .push(("pyo"@, "ぴょ"@))
        .push(("mya"@, "みゃ"@))
        .push(("myu"@, "みゅ"@))
        .push(("myo"@, "みょ"@))
        .push(("rya"@, "りゃ"@))
        .push(("ryu"@, "りゅ"@))
        .push(("ryo"@, "りょ"@))
        .push(("fa"@, "ふぁ"@))
        .push(("fi"@, "ふぃ"@))
        .push(("fe"@, "ふぇ"@))
        .push(("fo"@, "ふぉ"@))
        .push(("fyu"@, "ふゅ"@))
        .push(("va"@, "ゔぁ"@))
        .push(("vi"@, "ゔぃ"@))
        .push(("vu"@, "ゔ"@))
        .push(("ve"@, "ゔぇ"@))
        .push(("vo"@, "ゔぉ"@))
        .push(("tsa"@, "つぁ"@))
        .push(("tsi"@, "つぃ"@))
        .push(("tse"@, "つぇ"@))
        .push(("tso"@, "つぉ"@))
        .push(("thi"@, "てぃ"@))
        .push(("the"@, "てぇ"@))
        .push(("dhi"@, "でぃ"@))
        .push(("dhe"@, "でぇ"@))
        .push(("kwa"@, "くぁ"@))
        .push(("gwa"@, "ぐぁ"@))
        .push(("shi"@, "し"@))
        .push(("chi"@, "ち"@))
        .push(("tsu"@, "つ"@))
        .push(("xtu"@, "っ"@))
        .push(("ltu"@, "っ"@))
        .push(("xa"@, "ぁ"@))
        .push(("xi"@, "ぃ"@))
        .push(("xu"@, "ぅ"@))
        .push(("xe"@, "ぇ"@))
        .push(("xo"@, "ぉ"@))
        .push(("la"@, "ぁ"@))
        .push(("li"@, "ぃ"@))
        .push(("lu"@, "ぅ"@))
        .push(("le"@, "ぇ"@))
        .push(("lo"@, "ぉ"@))
        .push(("xya"@, "ゃ"@))
        .push(("xyu"@, "ゅ"@))
        .push(("xyo"@, "ょ"@))
        .push(("lya"@, "ゃ"@))
        .push(("lyu"@, "ゅ"@))
        .push(("lyo"@, "ょ"@))
        .push(("ka"@, "か"@))
        .push(("ki"@, "き"@))
        .push(("ku"@, "く"@))
        .push(("ke"@, "け"@))
        .push(("ko"@, "こ"@))
        .push(("ga"@, "が"@))
        .push(("gi"@, "ぎ"@))
        .push(("gu"@, "ぐ"@))
        .push(("ge"@, "げ"@))
        .push(("go"@, "ご"@))
        .push(("sa"@, "さ"@))
        .push(("si"@, "し"@))
        .push(("su"@, "す"@))
        .push(("se"@, "せ"@))
        .push(("so"@, "そ"@))
        .push(("za"@, "ざ"@))
        .push(("zi"@, "じ"@))
        .push(("zu"@, "ず"@))
        .push(("ze"@, "ぜ"@))
        .push(("zo"@, "ぞ"@))
        .push(("ta"@, "た"@))
        .push(("ti"@, "ち"@))
        .push(("tu"@, "つ"@))
        .push(("te"@, "て"@))
        .push(("to"@, "と"@))
        .push(("da"@, "だ"@))
        .push(("di"@, "ぢ"@))
        .push(("du"@, "づ"@))
        .push(("de"@, "で"@))
        .push(("do"@, "ど"@))
        .push(("na"@, "な"@))
        .push(("ni"@, "に"@))
        .push(("nu"@, "ぬ"@))
        .push(("ne"@, "ね"@))
        .push(("no"@, "の"@))
        .push(("ha"@, "は"@))
        .push(("hi"@, "ひ"@))
        .push(("fu"@, "ふ"@))
        .push(("hu"@, "ふ"@))
        .push(("he"@, "へ"@))
        .push(("ho"@, "ほ"@))
        .push(("ba"@, "ば"@))
        .push(("bi"@, "び"@))
        .push(("bu"@, "ぶ"@))
        .push(("be"@, "べ"@))
        .push(("bo"@, "ぼ"@))
        .push(("pa"@, "ぱ"@))
        .push(("pi"@, "ぴ"@))
        .push(("pu"@, "ぷ"@))
        .push(("pe"@, "ぺ"@))
        .push(("po"@, "ぽ"@))
        .push(("ma"@, "ま"@))
        .push(("mi"@, "み"@))
        .push(("mu"@, "む"@))
        .push(("me"@, "め"@))
        .push(("mo"@, "も"@))
        .push(("ya"@, "や"@))
        .push(("yu"@, "ゆ"@))
        .push(("yo"@, "よ"@))
        .push(("ra"@, "ら"@))
        .push(("ri"@, "り"@))
        .push(("ru"@, "る"@))
        .push(("re"@, "れ"@))
        .push(("ro"@, "ろ"@))
        .push(("wa"@, "わ"@))
        .push(("wo"@, "を"@))
        .push(("a"@, "あ"@))
        .push(("i"@, "い"@))
        .push(("u"@, "う"@))
        .push(("e"@, "え"@))
        .push(("o"@, "お"@))
        .push(("-"@, "ー"@))
}

/// The consonant rows of the AZIK layout.
pub open spec fn azik_syllables() -> Seq<AzikSyllable> {
    seq![
        ("k"@, "か"@, "き"@, "く"@, "け"@, "こ"@),
        ("g"@, "が"@, "ぎ"@, "ぐ"@, "げ"@, "ご"@),
        ("s"@, "さ"@, "し"@, "す"@, "せ"@, "そ"@),
        ("z"@, "ざ"@, "じ"@, "ず"@, "ぜ"@, "ぞ"@),
        ("t"@, "た"@, "ち"@, "つ"@, "て"@, "と"@),
        ("d"@, "だ"@, "ぢ"@, "づ"@, "で"@, "ど"@),
        ("n"@, "な"@, "に"@, "ぬ"@, "ね"@, "の"@),
        ("h"@, "は"@, "ひ"@, "ふ"@, "へ"@, "ほ"@),
        ("b"@, "ば"@, "び"@, "ぶ"@, "べ"@, "ぼ"@),
        ("p"@, "ぱ"@, "ぴ"@, "ぷ"@, "ぺ"@, "ぽ"@),
        ("m"@, "ま"@, "み"@, "む"@, "め"@, "も"@),
        ("r"@, "ら"@, "り"@, "る"@, "れ"@, "ろ"@)
    ]
}

/// The seven AZIK shortcuts of one consonant row.
pub open spec fn azik_rows_of(s: AzikSyllable) -> Seq<TableRow> {
    seq![
        (s.0.push('q'), s.1 + "い"@),
        (s.0.push('z'), s.1 + "ん"@),
        (s.0.push('k'), s.2 + "ん"@),
        (s.0.push('j'), s.3 + "ん"@),
        (s.0.push('d'), s.4 + "ん"@),
        (s.0.push('h'), s.5 + "ん"@),
        (s.0.push('p'), s.5 + "う"@),
    ]
}

/// The AZIK rows: three single-key shortcuts, then the shortcuts of every
/// consonant row.
pub open spec fn azik_rows() -> Seq<TableRow> {
    seq![("q"@, "ん"@), (";"@, "っ"@), (":"@, "ー"@)] + azik_syllables().flat_map(
        |s: AzikSyllable| azik_rows_of(s),
    )
}

/// Every romaji of the table is non-empty, so that each match consumes input.
pub open spec fn rows_wf(rows: Seq<TableRow>) -> bool {
    forall|i: int| 0 <= i < rows.len() ==> (#[trigger] rows[i]).0.len() > 0
}

/// Row `k` is the match that the table gives for `input`: its romaji is a
/// prefix of `input`, no matching romaji is longer, and no equally long one
/// comes earlier.
pub open spec fn is_best_match(input: Seq<char>, rows: Seq<TableRow>, k: int) -> bool {
    &&& 0 <= k < rows.len()
    &&& rows[k].0.is_prefix_of(input)
    &&& forall|j: int|
        0 <= j < rows.len() && (#[trigger] rows[j]).0.is_prefix_of(input) ==> rows[j].0.len()
            < rows[k].0.len() || (rows[j].0.len() == rows[k].0.len() && k <= j)
}

/// The row that matches `input`, if any row does.
pub open spec fn best_match(input: Seq<char>, rows: Seq<TableRow>) -> Option<int> {
    if exists|k: int| is_best_match(input, rows, k) {
        Some(choose|k: int| is_best_match(input, rows, k))
    } else {
        None
    }
}

proof fn lemma_best_match_unique(input: Seq<char>, rows: Seq<TableRow>, k1: int, k2: int)
    requires
        is_best_match(input, rows, k1),
        is_best_match(input, rows, k2),
    ensures
        k1 == k2,
{
    assert(rows[k1].0.is_prefix_of(input));
    assert(rows[k2].0.is_prefix_of(input));
}

/// Among the first `n` rows, `k` is the longest match for `input`, the
/// earliest among equally long ones.
spec fn best_among(input: Seq<char>, rows: Seq<TableRow>, n: int, k: int) -> bool {
    &&& 0 <= k < n
    &&& rows[k].0.is_prefix_of(input)
    &&& forall|j: int|
        0 <= j < n && (#[trigger] rows[j]).0.is_prefix_of(input) ==> rows[j].0.len()
            < rows[k].0.len() || (rows[j].0.len() == rows[k].0.len() && k <= j)
}

proof fn lemma_best_among(input: Seq<char>, rows: Seq<TableRow>, n: int)
    requires
        0 <= n <= rows.len(),
        exists|j: int| 0 <= j < n && (#[trigger] rows[j]).0.is_prefix_of(input),
    ensures
        exists|k: int| best_among(input, rows, n, k),
    decreases n,
{
    let last = n - 1;
    if exists|j: int| 0 <= j < last && (#[trigger] rows[j]).0.is_prefix_of(input) {
        lemma_best_among(input, rows, last);
        let k = choose|k: int| best_among(input, rows, last, k);
        if rows[last].0.is_prefix_of(input) && rows[last].0.len() > rows[k].0.len() {
            assert(best_among(input, rows, n, last));
        } else {
            assert(best_among(input, rows, n, k));
        }
    } else {
        assert(rows[last].0.is_prefix_of(input));
        assert(best_among(input, rows, n, last));
    }
}

/// Some row matches `input` exactly when the table gives a match for it;
/// the match it gives is a row whose romaji starts `input`, no matching
/// romaji is longer, and no equally long one comes earlier in the table.
pub proof fn lemma_best_match_longest(input: Seq<char>, rows: Seq<TableRow>)
    ensures
        (exists|j: int| 0 <= j < rows.len() && (#[trigger] rows[j]).0.is_prefix_of(input))
            <==> best_match(input, rows) is Some,
        best_match(input, rows) matches Some(k) ==> {
            &&& 0 <= k < rows.len()
            &&& rows[k].0.is_prefix_of(input)
            &&& forall|j: int|
                0 <= j < rows.len() && (#[trigger] rows[j]).0.is_prefix_of(input) ==> rows[j].0.len()
                    <= rows[k].0.len() && (rows[j].0.len() == rows[k].0.len() ==> k <= j)
        },
{
    if exists|j: int| 0 <= j < rows.len() && (#[trigger] rows[j]).0.is_prefix_of(input) {
        lemma_best_among(input, rows, rows.len() as int);
        let k = choose|k: int| best_among(input, rows, rows.len() as int, k);
        assert(is_best_match(input, rows, k));
    }
    if best_match(input, rows) is Some {
        let k = best_match(input, rows).unwrap();
        assert(is_best_match(input, rows, k));
    }
}

/// The number of bytes that UTF-8 uses for `c`.
pub open spec fn utf8_width(c: char) -> nat {
    if (c as u32) < 0x80 {
        1
    } else if (c as u32) < 0x800 {
        2
    } else if (c as u32) < 0x10000 {
        3
    } else {
        4
    }
}

/// The byte length of the UTF-8 encoding of `s` (`str::len`).
pub open spec fn utf8_len(s: Seq<char>) -> nat
    decreases s.len(),
{
    if s.len() == 0 {
        0
    } else {
        utf8_len(s.drop_last()) + utf8_width(s.last())
    }
}

proof fn lemma_utf8_len_bounds(s: Seq<char>)
    ensures
        s.len() <= utf8_len(s) <= 4 * s.len(),
    decreases s.len(),
{
    if s.len() > 0 {
        lemma_utf8_len_bounds(s.drop_last());
    }
}

/// `c` is an ASCII vowel letter.
pub open spec fn spec_is_vowel(c: char) -> bool {
    c == 'a' || c == 'i' || c == 'u' || c == 'e' || c == 'o'
}

/// `c` is an ASCII letter that is not a vowel.
pub open spec fn spec_is_consonant(c: char) -> bool {
    spec_is_ascii_alpha(c) && !spec_is_vowel(c)
}

/// The lookahead window at `index`: up to eight characters, ASCII-lowercased.
pub open spec fn window_at(chars: Seq<char>, index: int) -> Seq<char> {
    let end = if index + 8 < chars.len() {
        index + 8
    } else {
        chars.len() as int
    };
    lower_ascii_seq(chars.subrange(index, end))
}

/// The kana that the table composes from `chars[index..]`: the longest table
/// match wins (the table's first row among equals) and consumes as many
/// characters as its romaji has UTF-8 bytes; a doubled consonant other than
/// `n` becomes `っ`; `nn`, or `n` not followed by a vowel or `y`, becomes `ん`;
/// every other character passes through.
pub open spec fn compose_from(chars: Seq<char>, rows: Seq<TableRow>, index: int) -> Seq<char>
    decreases chars.len() - index,
{
    if index < 0 || index >= chars.len() {
        Seq::empty()
    } else {
        let ch = chars[index];
        let lower = spec_lower_ascii(ch);
        let has_next = index + 1 < chars.len();
        let next = if has_next {
            chars[index + 1]
        } else {
            ch
        };
        match best_match(window_at(chars, index), rows) {
            Some(k) => {
                let step = utf8_len(rows[k].0);
                if step > 0 && index + step < chars.len() {
                    rows[k].1 + compose_from(chars, rows, index + step)
                } else {
                    rows[k].1
                }
            },
            None => if !spec_is_ascii_alpha(ch) {
                seq![ch] + compose_from(chars, rows, index + 1)
            } else if has_next && lower == spec_lower_ascii(next) && lower != 'n'
                && spec_is_consonant(lower) && spec_is_ascii_alpha(next) {
                seq!['っ'] + compose_from(chars, rows, index + 1)
            } else if lower == 'n' {
                if has_next && spec_lower_ascii(next) == 'n' {
                    seq!['ん'] + compose_from(chars, rows, index + 2)
                } else if has_next && (spec_is_vowel(spec_lower_ascii(next)) || spec_lower_ascii(
                    next,
                ) == 'y') {
                    seq![ch] + compose_from(chars, rows, index + 1)
                } else {
                    seq!['ん'] + compose_from(chars, rows, index + 1)
                }
            } else {
                seq![ch] + compose_from(chars, rows, index + 1)
            },
        }
    }
}

proof fn lemma_compose_offset(chars: Seq<char>, rows: Seq<TableRow>, i: int, j: int)
    requires
        0 <= i <= chars.len(),
        0 <= j,
    ensures
        compose_from(chars, rows, i + j) == compose_from(chars.skip(i), rows, j),
    decreases chars.len() - (i + j),
{
    let t = chars.skip(i);
    if i + j < chars.len() {
        let x = i + j;
        assert(t[j] == chars[x]);
        if x + 1 < chars.len() {
            assert(t[j + 1] == chars[x + 1]);
        }
        let end = if x + 8 < chars.len() {
            x + 8
        } else {
            chars.len() as int
        };
        assert(t.subrange(j, end - i) =~= chars.subrange(x, end));
        assert(window_at(t, j) == window_at(chars, x));
        match best_match(window_at(chars, x), rows) {
            Some(k) => {
                let step = utf8_len(rows[k].0);
                if step > 0 && x + step < chars.len() {
                    lemma_compose_offset(chars, rows, i, j + step);
                }
            },
            None => {
                lemma_compose_offset(chars, rows, i, j + 1);
                if x + 2 <= chars.len() {
                    lemma_compose_offset(chars, rows, i, j + 2);
                }
            },
        }
    }
}

/// Composing a text gives the kana of the row that matches at its start,
/// then what composing the rest of the text after that row's romaji gives
/// (the romaji counted, as the table matches it, in UTF-8 bytes).
pub proof fn lemma_compose_first_match(chars: Seq<char>, rows: Seq<TableRow>)
    requires
        chars.len() > 0,
        rows_wf(rows),
        best_match(window_at(chars, 0), rows) is Some,
    ensures
        ({
            let k = best_match(window_at(chars, 0), rows).unwrap();
            let step = utf8_len(rows[k].0);
            compose_from(chars, rows, 0) == rows[k].1 + if step < chars.len() {
                compose_from(chars.skip(step as int), rows, 0)
            } else {
                Seq::empty()
            }
        }),
{
    let k = best_match(window_at(chars, 0), rows).unwrap();
    let step = utf8_len(rows[k].0);
    lemma_utf8_len_bounds(rows[k].0);
    if step < chars.len() {
        lemma_compose_offset(chars, rows, step as int, 0);
    } else {
        assert(rows[k].1 + Seq::<char>::empty() =~= rows[k].1);
    }
}

proof fn lemma_no_row_matches(chars: Seq<char>, rows: Seq<TableRow>)
    requires
        forall|k: int| 0 <= k < rows.len() ==> !(#[trigger] rows[k]).0.is_prefix_of(window_at(chars, 0)),
    ensures
        best_match(window_at(chars, 0), rows) is None,
{
    if exists|k: int| is_best_match(window_at(chars, 0), rows, k) {
        let k = choose|k: int| is_best_match(window_at(chars, 0), rows, k);
        assert(rows[k].0.is_prefix_of(window_at(chars, 0)));
    }
}

/// Where no row of the table matches the start of a text and the text starts
/// with a doubled consonant letter (any ASCII consonant but `n`, in either
/// case), the first letter becomes `っ` and the rest composes on its own from
/// the second letter: composing `"ss" + x` gives `っ` followed by what
/// composing `"s" + x` gives.
pub proof fn lemma_compose_doubled_consonant(chars: Seq<char>, rows: Seq<TableRow>)
    requires
        chars.len() >= 2,
        forall|k: int| 0 <= k < rows.len() ==> !(#[trigger] rows[k]).0.is_prefix_of(window_at(chars, 0)),
        'a' <= spec_lower_ascii(chars[0]) <= 'z',
        spec_lower_ascii(chars[1]) == spec_lower_ascii(chars[0]),
        spec_lower_ascii(chars[0]) != 'a',
        spec_lower_ascii(chars[0]) != 'i',
        spec_lower_ascii(chars[0]) != 'u',
        spec_lower_ascii(chars[0]) != 'e',
        spec_lower_ascii(chars[0]) != 'o',
        spec_lower_ascii(chars[0]) != 'n',
    ensures
        compose_from(chars, rows, 0) == seq!['っ'] + compose_from(chars.skip(1), rows, 0),
{
    lemma_no_row_matches(chars, rows);
    lemma_compose_offset(chars, rows, 1, 0);
}

/// Where no row of the table matches the start of a text, the first
/// character is handled alone: a character that is not an ASCII letter, or a
/// letter that neither doubles a consonant nor is `n`, passes through
/// unchanged; `nn` becomes `ん` and consumes both letters; `n` before a vowel
/// or `y` passes through; any other `n` becomes `ん`.
pub proof fn lemma_compose_unmatched_start(chars: Seq<char>, rows: Seq<TableRow>)
    requires
        chars.len() >= 1,
        forall|k: int| 0 <= k < rows.len() ==> !(#[trigger] rows[k]).0.is_prefix_of(window_at(chars, 0)),
    ensures
        !('a' <= spec_lower_ascii(chars[0]) <= 'z') ==> compose_from(chars, rows, 0)
            == seq![chars[0]] + compose_from(chars.skip(1), rows, 0),
        spec_lower_ascii(chars[0]) == 'n' && chars.len() >= 2 && spec_lower_ascii(chars[1]) == 'n'
            ==> compose_from(chars, rows, 0) == seq!['ん'] + compose_from(chars.skip(2), rows, 0),
        spec_lower_ascii(chars[0]) == 'n' && chars.len() >= 2 && (spec_lower_ascii(chars[1]) == 'a'
            || spec_lower_ascii(chars[1]) == 'i' || spec_lower_ascii(chars[1]) == 'u'
            || spec_lower_ascii(chars[1]) == 'e' || spec_lower_ascii(chars[1]) == 'o'
            || spec_lower_ascii(chars[1]) == 'y') ==> compose_from(chars, rows, 0) == seq![chars[0]]
            + compose_from(chars.skip(1), rows, 0),
        spec_lower_ascii(chars[0]) == 'n' && (chars.len() == 1 || !(spec_lower_ascii(chars[1]) == 'a'
            || spec_lower_ascii(chars[1]) == 'i' || spec_lower_ascii(chars[1]) == 'u'
            || spec_lower_ascii(chars[1]) == 'e' || spec_lower_ascii(chars[1]) == 'o'
            || spec_lower_ascii(chars[1]) == 'y' || spec_lower_ascii(chars[1]) == 'n'))
            ==> compose_from(chars, rows, 0) == seq!['ん'] + compose_from(chars.skip(1), rows, 0),
        'a' <= spec_lower_ascii(chars[0]) <= 'z' && spec_lower_ascii(chars[0]) != 'n' && (chars.len()
            == 1 || spec_lower_ascii(chars[1]) != spec_lower_ascii(chars[0]) || spec_lower_ascii(
            chars[0],
        ) == 'a' || spec_lower_ascii(chars[0]) == 'i' || spec_lower_ascii(chars[0]) == 'u'
            || spec_lower_ascii(chars[0]) == 'e' || spec_lower_ascii(chars[0]) == 'o')
            ==> compose_from(chars, rows, 0) == seq![chars[0]] + compose_from(chars.skip(1), rows, 0),
{
    lemma_no_row_matches(chars, rows);
    lemma_compose_offset(chars, rows, 1, 0);
    if chars.len() >= 2 {
        lemma_compose_offset(chars, rows, 2, 0);
    } else {
        assert(compose_from(chars, rows, 1) =~= Seq::<char>::empty());
    }
}

/// A romaji-to-kana conversion table.
pub struct InputTable {
    entries: Vec<(Vec<char>, Vec<char>)>,
}

/// A stored table row as its romaji and kana.
pub open spec fn row_view(e: (Vec<char>, Vec<char>)) -> TableRow {
    (e.0@, e.1@)
}

impl View for InputTable {
    type V = Seq<TableRow>;

    closed spec fn view(&self) -> Seq<TableRow> {
        self.entries@.map_values(|e: (Vec<char>, Vec<char>)| row_view(e))
    }
}

fn pair(romaji: &str, kana: &str) -> (r: (Vec<char>, Vec<char>))
    ensures
        r.0@ == romaji@,
        r.1@ == kana@,
{
    (chars_of(romaji), chars_of(kana))
}

fn push_row(v: &mut Vec<(Vec<char>, Vec<char>)>, romaji: &str, kana: &str)
    requires
        romaji@.len() > 0,
    ensures
        final(v)@.map_values(|e: (Vec<char>, Vec<char>)| row_view(e)) == old(v)@.map_values(
            |e: (Vec<char>, Vec<char>)| row_view(e),
        ).push((romaji@, kana@)),
        rows_wf(old(v)@.map_values(|e: (Vec<char>, Vec<char>)| row_view(e))) ==> rows_wf(
            final(v)@.map_values(|e: (Vec<char>, Vec<char>)| row_view(e)),
        ),
{
    let ghost before = v@;
    v.push(pair(romaji, kana));
    assert(v@.map_values(|e: (Vec<char>, Vec<char>)| row_view(e)) =~= before.map_values(
        |e: (Vec<char>, Vec<char>)| row_view(e),
    ).push((romaji@, kana@)));
}

fn standard_entries() -> (v: Vec<(Vec<char>, Vec<char>)>)
    ensures
        v@.map_values(|e: (Vec<char>, Vec<char>)| row_view(e)) == standard_rows(),
        rows_wf(standard_rows()),
{
    let mut v: Vec<(Vec<char>, Vec<char>)> = Vec::new();
    assert(v@.map_values(|e: (Vec<char>, Vec<char>)| row_view(e)) =~= Seq::<TableRow>::empty());
    proof {
        reveal_strlit("xtsu");
    }
    push_row(&mut v, "xtsu", "っ");
    proof {
        reveal_strlit("ltsu");
    }
    push_row(&mut v, "ltsu", "っ");
    proof {
        reveal_strlit("kya");
    }
    push_row(&mut v, "kya", "きゃ");
    proof {
        reveal_strlit("kyu");
    }
    push_row(&mut v, "kyu", "きゅ");
    proof {
        reveal_strlit("kyo");
    }
    push_row(&mut v, "kyo", "きょ");
    proof {
        reveal_strlit("gya");
    }
    push_row(&mut v, "gya", "ぎゃ");
    proof {
        reveal_strlit("gyu");
    }
    push_row(&mut v, "gyu", "ぎゅ");
    proof {
        reveal_strlit("gyo");
    }
    push_row(&mut v, "gyo", "ぎょ");
    proof {
        reveal_strlit("sha");
    }
    push_row(&mut v, "sha", "しゃ");
    proof {
        reveal_strlit("shu");
    }
    push_row(&mut v, "shu", "しゅ");
    proof {
        reveal_strlit("sho");
    }
    push_row(&mut v, "sho", "しょ");
    proof {
        reveal_strlit("sya");
    }
    push_row(&mut v, "sya", "しゃ");
    proof {
        reveal_strlit("syu");
    }
    push_row(&mut v, "syu", "しゅ");
    proof {
        reveal_strlit("syo");
    }
    push_row(&mut v, "syo", "しょ");
    proof {
        reveal_strlit("ja");
    }
    push_row(&mut v, "ja", "じゃ");
    proof {
        reveal_strlit("ji");
    }
    push_row(&mut v, "ji", "じ");
    proof {
        reveal_strlit("ju");
    }
    push_row(&mut v, "ju", "じゅ");
    proof {
        reveal_strlit("jo");
    }
    push_row(&mut v, "jo", "じょ");
    proof {
        reveal_strlit("jya");
    }
    push_row(&mut v, "jya", "じゃ");
    proof {
        reveal_strlit("jyu");
    }
    push_row(&mut v, "jyu", "じゅ");
    proof {
        reveal_strlit("jyo");
    }
    push_row(&mut v, "jyo", "じょ");
    proof {
        reveal_strlit("cha");
    }
    push_row(&mut v, "cha", "ちゃ");
    proof {
        reveal_strlit("chu");
    }
    push_row(&mut v, "chu", "ちゅ");
    proof {
        reveal_strlit("cho");
    }
    push_row(&mut v, "cho", "ちょ");
    proof {
        reveal_strlit("cya");
    }
    push_row(&mut v, "cya", "ちゃ");
    proof {
        reveal_strlit("cyu");
    }
    push_row(&mut v, "cyu", "ちゅ");
    proof {
        reveal_strlit("cyo");
    }
    push_row(&mut v, "cyo", "ちょ");
    proof {
        reveal_strlit("nya");
    }
    push_row(&mut v, "nya", "にゃ");
    proof {
        reveal_strlit("nyu");
    }
    push_row(&mut v, "nyu", "にゅ");
    proof {
        reveal_strlit("nyo");
    }
    push_row(&mut v, "nyo", "にょ");
    proof {
        reveal_strlit("hya");
    }
    push_row(&mut v, "hya", "ひゃ");
    proof {
        reveal_strlit("hyu");
    }
    push_row(&mut v, "hyu", "ひゅ");
    proof {
        reveal_strlit("hyo");
    }
    push_row(&mut v, "hyo", "ひょ");
    proof {
        reveal_strlit("bya");
    }
    push_row(&mut v, "bya", "びゃ");
    proof {
        reveal_strlit("byu");
    }
    push_row(&mut v, "byu", "びゅ");
    proof {
        reveal_strlit("byo");
    }
    push_row(&mut v, "byo", "びょ");
    proof {
        reveal_strlit("pya");
    }
    push_row(&mut v, "pya", "ぴゃ");
    proof {
        reveal_strlit("pyu");
    }
    push_row(&mut v, "pyu", "ぴゅ");
    proof {
        reveal_strlit("pyo");
    }
    push_row(&mut v, "pyo", "ぴょ");
    proof {
        reveal_strlit("mya");
    }
    push_row(&mut v, "mya", "みゃ");
    proof {
        reveal_strlit("myu");
    }
    push_row(&mut v, "myu", "みゅ");
    proof {
        reveal_strlit("myo");
    }
    push_row(&mut v, "myo", "みょ");
    proof {
        reveal_strlit("rya");
    }
    push_row(&mut v, "rya", "りゃ");
    proof {
        reveal_strlit("ryu");
    }
    push_row(&mut v, "ryu", "りゅ");
    proof {
        reveal_strlit("ryo");
    }
    push_row(&mut v, "ryo", "りょ");
    proof {
        reveal_strlit("fa");
    }
    push_row(&mut v, "fa", "ふぁ");
    proof {
        reveal_strlit("fi");
    }
    push_row(&mut v, "fi", "ふぃ");
    proof {
        reveal_strlit("fe");
    }
    push_row(&mut v, "fe", "ふぇ");
    proof {
        reveal_strlit("fo");
    }
    push_row(&mut v, "fo", "ふぉ");
    proof {
        reveal_strlit("fyu");
    }
    push_row(&mut v, "fyu", "ふゅ");
    proof {
        reveal_strlit("va");
    }
    push_row(&mut v, "va", "ゔぁ");
    proof {
        reveal_strlit("vi");
    }
    push_row(&mut v, "vi", "ゔぃ");
    proof {
        reveal_strlit("vu");
    }
    push_row(&mut v, "vu", "ゔ");
    proof {
        reveal_strlit("ve");
    }
    push_row(&mut v, "ve", "ゔぇ");
    proof {
        reveal_strlit("vo");
    }
    push_row(&mut v, "vo", "ゔぉ");
    proof {
        reveal_strlit("tsa");
    }
    push_row(&mut v, "tsa", "つぁ");
    proof {
        reveal_strlit("tsi");
    }
    push_row(&mut v, "tsi", "つぃ");
    proof {
        reveal_strlit("tse");
    }
    push_row(&mut v, "tse", "つぇ");
    proof {
        reveal_strlit("tso");
    }
    push_row(&mut v, "tso", "つぉ");
    proof {
        reveal_strlit("thi");
    }
    push_row(&mut v, "thi", "てぃ");
    proof {
        reveal_strlit("the");
    }
    push_row(&mut v, "the", "てぇ");
    proof {
        reveal_strlit("dhi");
    }
    push_row(&mut v, "dhi", "でぃ");
    proof {
        reveal_strlit("dhe");
    }
    push_row(&mut v, "dhe", "でぇ");
    proof {
        reveal_strlit("kwa");
    }
    push_row(&mut v, "kwa", "くぁ");
    proof {
        reveal_strlit("gwa");
    }
    push_row(&mut v, "gwa", "ぐぁ");
    proof {
        reveal_strlit("shi");
    }
    push_row(&mut v, "shi", "し");
    proof {
        reveal_strlit("chi");
    }
    push_row(&mut v, "chi", "ち");
    proof {
        reveal_strlit("tsu");
    }
    push_row(&mut v, "tsu", "つ");
    proof {
        reveal_strlit("xtu");
    }
    push_row(&mut v, "xtu", "っ");
    proof {
        reveal_strlit("ltu");
    }
    push_row(&mut v, "ltu", "っ");
    proof {
        reveal_strlit("xa");
    }
    push_row(&mut v, "xa", "ぁ");
    proof {
        reveal_strlit("xi");
    }
    push_row(&mut v, "xi", "ぃ");
    proof {
        reveal_strlit("xu");
    }
    push_row(&mut v, "xu", "ぅ");
    proof {
        reveal_strlit("xe");
    }
    push_row(&mut v, "xe", "ぇ");
    proof {
        reveal_strlit("xo");
    }
    push_row(&mut v, "xo", "ぉ");
    proof {
        reveal_strlit("la");
    }
    push_row(&mut v, "la", "ぁ");
    proof {
        reveal_strlit("li");
    }
    push_row(&mut v, "li", "ぃ");
    proof {
        reveal_strlit("lu");
    }
    push_row(&mut v, "lu", "ぅ");
    proof {
        reveal_strlit("le");
    }
    push_row(&mut v, "le", "ぇ");
    proof {
        reveal_strlit("lo");
    }
    push_row(&mut v, "lo", "ぉ");
    proof {
        reveal_strlit("xya");
    }
    push_row(&mut v, "xya", "ゃ");
    proof {
        reveal_strlit("xyu");
    }
    push_row(&mut v, "xyu", "ゅ");
    proof {
        reveal_strlit("xyo");
    }
    push_row(&mut v, "xyo", "ょ");
    proof {
        reveal_strlit("lya");
    }
    push_row(&mut v, "lya", "ゃ");
    proof {
        reveal_strlit("lyu");
    }
    push_row(&mut v, "lyu", "ゅ");
    proof {
        reveal_strlit("lyo");
    }
    push_row(&mut v, "lyo", "ょ");
    proof {
        reveal_strlit("ka");
    }
    push_row(&mut v, "ka", "か");
    proof {
        reveal_strlit("ki");
    }
    push_row(&mut v, "ki", "き");
    proof {
        reveal_strlit("ku");
    }
    push_row(&mut v, "ku", "く");
    proof {
        reveal_strlit("ke");
    }
    push_row(&mut v, "ke", "け");
    proof {
        reveal_strlit("ko");
    }
    push_row(&mut v, "ko", "こ");
    proof {
        reveal_strlit("ga");
    }
    push_row(&mut v, "ga", "が");
    proof {
        reveal_strlit("gi");
    }
    push_row(&mut v, "gi", "ぎ");
    proof {
        reveal_strlit("gu");
    }
    push_row(&mut v, "gu", "ぐ");
    proof {
        reveal_strlit("ge");
    }
    push_row(&mut v, "ge", "げ");
    proof {
        reveal_strlit("go");
    }
    push_row(&mut v, "go", "ご");
    proof {
        reveal_strlit("sa");
    }
    push_row(&mut v, "sa", "さ");
    proof {
        reveal_strlit("si");
    }
    push_row(&mut v, "si", "し");
    proof {
        reveal_strlit("su");
    }
    push_row(&mut v, "su", "す");
    proof {
        reveal_strlit("se");
    }
    push_row(&mut v, "se", "せ");
    proof {
        reveal_strlit("so");
    }
    push_row(&mut v, "so", "そ");
    proof {
        reveal_strlit("za");
    }
    push_row(&mut v, "za", "ざ");
    proof {
        reveal_strlit("zi");
    }
    push_row(&mut v, "zi", "じ");
    proof {
        reveal_strlit("zu");
    }
    push_row(&mut v, "zu", "ず");
    proof {
        reveal_strlit("ze");
    }
    push_row(&mut v, "ze", "ぜ");
    proof {
        reveal_strlit("zo");
    }
    push_row(&mut v, "zo", "ぞ");
    proof {
        reveal_strlit("ta");
    }
    push_row(&mut v, "ta", "た");
    proof {
        reveal_strlit("ti");
    }
    push_row(&mut v, "ti", "ち");
    proof {
        reveal_strlit("tu");
    }
    push_row(&mut v, "tu", "つ");
    proof {
        reveal_strlit("te");
    }
    push_row(&mut v, "te", "て");
    proof {
        reveal_strlit("to");
    }
    push_row(&mut v, "to", "と");
    proof {
        reveal_strlit("da");
    }
    push_row(&mut v, "da", "だ");
    proof {
        reveal_strlit("di");
    }
    push_row(&mut v, "di", "ぢ");
    proof {
        reveal_strlit("du");
    }
    push_row(&mut v, "du", "づ");
    proof {
        reveal_strlit("de");
    }
    push_row(&mut v, "de", "で");
    proof {
        reveal_strlit("do");
    }
    push_row(&mut v, "do", "ど");
    proof {
        reveal_strlit("na");
    }
    push_row(&mut v, "na", "な");
    proof {
        reveal_strlit("ni");
    }
    push_row(&mut v, "ni", "に");
    proof {
        reveal_strlit("nu");
    }
    push_row(&mut v, "nu", "ぬ");
    proof {
        reveal_strlit("ne");
    }
    push_row(&mut v, "ne", "ね");
    proof {
        reveal_strlit("no");
    }
    push_row(&mut v, "no", "の");
    proof {
        reveal_strlit("ha");
    }
    push_row(&mut v, "ha", "は");
    proof {
        reveal_strlit("hi");
    }
    push_row(&mut v, "hi", "ひ");
    proof {
        reveal_strlit("fu");
    }
    push_row(&mut v, "fu", "ふ");
    proof {
        reveal_strlit("hu");
    }
    push_row(&mut v, "hu", "ふ");
    proof {
        reveal_strlit("he");
    }
    push_row(&mut v, "he", "へ");
    proof {
        reveal_strlit("ho");
    }
    push_row(&mut v, "ho", "ほ");
    proof {
        reveal_strlit("ba");
    }
    push_row(&mut v, "ba", "ば");
    proof {
        reveal_strlit("bi");
    }
    push_row(&mut v, "bi", "び");
    proof {
        reveal_strlit("bu");
    }
    push_row(&mut v, "bu", "ぶ");
    proof {
        reveal_strlit("be");
    }
    push_row(&mut v, "be", "べ");
    proof {
        reveal_strlit("bo");
    }
    push_row(&mut v, "bo", "ぼ");
    proof {
        reveal_strlit("pa");
    }
    push_row(&mut v, "pa", "ぱ");
    proof {
        reveal_strlit("pi");
    }
    push_row(&mut v, "pi", "ぴ");
    proof {
        reveal_strlit("pu");
    }
    push_row(&mut v, "pu", "ぷ");
    proof {
        reveal_strlit("pe");
    }
    push_row(&mut v, "pe", "ぺ");
    proof {
        reveal_strlit("po");
    }
    push_row(&mut v, "po", "ぽ");
    proof {
        reveal_strlit("ma");
    }
    push_row(&mut v, "ma", "ま");
    proof {
        reveal_strlit("mi");
    }
    push_row(&mut v, "mi", "み");
    proof {
        reveal_strlit("mu");
    }
    push_row(&mut v, "mu", "む");
    proof {
        reveal_strlit("me");
    }
    push_row(&mut v, "me", "め");
    proof {
        reveal_strlit("mo");
    }
    push_row(&mut v, "mo", "も");
    proof {
        reveal_strlit("ya");
    }
    push_row(&mut v, "ya", "や");
    proof {
        reveal_strlit("yu");
    }
    push_row(&mut v, "yu", "ゆ");
    proof {
        reveal_strlit("yo");
    }
    push_row(&mut v, "yo", "よ");
    proof {
        reveal_strlit("ra");
    }
    push_row(&mut v, "ra", "ら");
    proof {
        reveal_strlit("ri");
    }
    push_row(&mut v, "ri", "り");
    proof {
        reveal_strlit("ru");
    }
    push_row(&mut v, "ru", "る");
    proof {
        reveal_strlit("re");
    }
    push_row(&mut v, "re", "れ");
    proof {
        reveal_strlit("ro");
    }
    push_row(&mut v, "ro", "ろ");
    proof {
        reveal_strlit("wa");
    }
    push_row(&mut v, "wa", "わ");
    proof {
        reveal_strlit("wo");
    }
    push_row(&mut v, "wo", "を");
    proof {
        reveal_strlit("a");
    }
    push_row(&mut v, "a", "あ");
    proof {
        reveal_strlit("i");
    }
    push_row(&mut v, "i", "い");
    proof {
        reveal_strlit("u");
    }
    push_row(&mut v, "u", "う");
    proof {
        reveal_strlit("e");
    }
    push_row(&mut v, "e", "え");
    proof {
        reveal_strlit("o");
    }
    push_row(&mut v, "o", "お");
    proof {
        reveal_strlit("-");
    }
    push_row(&mut v, "-", "ー");
    v
}

type SyllableChars = (Vec<char>, Vec<char>, Vec<char>, Vec<char>, Vec<char>, Vec<char>);

spec fn syllable_view(s: SyllableChars) -> AzikSyllable {
    (s.0@, s.1@, s.2@, s.3@, s.4@, s.5@)
}

fn syllable(stem: &str, a: &str, i: &str, u: &str, e: &str, o: &str) -> (r: SyllableChars)
    ensures
        syllable_view(r) == (stem@, a@, i@, u@, e@, o@),
{
    (chars_of(stem), chars_of(a), chars_of(i), chars_of(u), chars_of(e), chars_of(o))
}

fn azik_syllable_chars() -> (v: Vec<SyllableChars>)
    ensures
        v@.map_values(|s: SyllableChars| syllable_view(s)) == azik_syllables(),
{
    let mut v: Vec<SyllableChars> = Vec::new();
    v.push(syllable("k", "か", "き", "く", "け", "こ"));
    v.push(syllable("g", "が", "ぎ", "ぐ", "げ", "ご"));
    v.push(syllable("s", "さ", "し", "す", "せ", "そ"));
    v.push(syllable("z", "ざ", "じ", "ず", "ぜ", "ぞ"));
    v.push(syllable("t", "た", "ち", "つ", "て", "と"));
    v.push(syllable("d", "だ", "ぢ", "づ", "で", "ど"));
    v.push(syllable("n", "な", "に", "ぬ", "ね", "の"));
    v.push(syllable("h", "は", "ひ", "ふ", "へ", "ほ"));
    v.push(syllable("b", "ば", "び", "ぶ", "べ", "ぼ"));
    v.push(syllable("p", "ぱ", "ぴ", "ぷ", "ぺ", "ぽ"));
    v.push(syllable("m", "ま", "み", "む", "め", "も"));
    v.push(syllable("r", "ら", "り", "る", "れ", "ろ"));
    assert(v@.map_values(|s: SyllableChars| syllable_view(s)) =~= azik_syllables());
    v
}

fn concat_str(a: &Vec<char>, b: &str) -> (r: Vec<char>)
    ensures
        r@ == a@ + b@,
{
    let mut r = copy_chars(a);
    let tail = chars_of(b);
    push_all(&mut r, tail.as_slice());
    r
}

fn push_char(a: &Vec<char>, c: char) -> (r: Vec<char>)
    ensures
        r@ == a@.push(c),
{
    let mut r = copy_chars(a);
    r.push(c);
    r
}

/// The AZIK rows, in the order of `azik_rows`.
fn azik_entries() -> (v: Vec<(Vec<char>, Vec<char>)>)
    ensures
        v@.map_values(|e: (Vec<char>, Vec<char>)| row_view(e)) == azik_rows(),
        rows_wf(azik_rows()),
{
    let mut v: Vec<(Vec<char>, Vec<char>)> = Vec::new();
    assert(v@.map_values(|e: (Vec<char>, Vec<char>)| row_view(e)) =~= Seq::<TableRow>::empty());
    proof {
        reveal_strlit("q");
        reveal_strlit(";");
        reveal_strlit(":");
    }
    push_row(&mut v, "q", "ん");
    push_row(&mut v, ";", "っ");
    push_row(&mut v, ":", "ー");
    let ghost head = seq![("q"@, "ん"@), (";"@, "っ"@), (":"@, "ー"@)];
    assert(v@.map_values(|e: (Vec<char>, Vec<char>)| row_view(e)) =~= head);
    let syllables = azik_syllable_chars();
    let ghost f = |s: AzikSyllable| azik_rows_of(s);
    let mut i: usize = 0;
    while i < syllables.len()
        invariant
            i <= syllables@.len(),
            f == (|s: AzikSyllable| azik_rows_of(s)),
            syllables@.map_values(|s: SyllableChars| syllable_view(s)) == azik_syllables(),
            head == seq![("q"@, "ん"@), (";"@, "っ"@), (":"@, "ー"@)],
            rows_wf(head),
            v@.map_values(|e: (Vec<char>, Vec<char>)| row_view(e)) == head + azik_syllables().take(
                i as int,
            ).flat_map(f),
            rows_wf(v@.map_values(|e: (Vec<char>, Vec<char>)| row_view(e))),
        decreases syllables@.len() - i,
    {
        let s = &syllables[i];
        let ghost sv = syllable_view(*s);
        assert(azik_syllables()[i as int] == sv);
        let ghost before = v@.map_values(|e: (Vec<char>, Vec<char>)| row_view(e));
        v.push((push_char(&s.0, 'q'), concat_str(&s.1, "い")));
        v.push((push_char(&s.0, 'z'), concat_str(&s.1, "ん")));
        v.push((push_char(&s.0, 'k'), concat_str(&s.2, "ん")));
        v.push((push_char(&s.0, 'j'), concat_str(&s.3, "ん")));
        v.push((push_char(&s.0, 'd'), concat_str(&s.4, "ん")));
        v.push((push_char(&s.0, 'h'), concat_str(&s.5, "ん")));
        v.push((push_char(&s.0, 'p'), concat_str(&s.5, "う")));
        proof {
            let taken = azik_syllables().take(i as int);
            assert(azik_syllables().take(i + 1) == taken.push(sv));
            taken.lemma_flat_map_push(f, sv);
            assert(v@.map_values(|e: (Vec<char>, Vec<char>)| row_view(e)) =~= before + azik_rows_of(
                sv,
            ));
        }
        i += 1;
    }
    assert(azik_syllables().take(syllables@.len() as int) == azik_syllables());
    assert(v@.map_values(|e: (Vec<char>, Vec<char>)| row_view(e)) == azik_rows());
    v
}

/// The rows that a custom table line gives: blank lines and `#` comments give
/// none; otherwise the romaji before the first tab and the kana after it,
/// both trimmed and non-empty, the romaji ASCII-lowercased.
pub open spec fn custom_row(line: Seq<char>) -> Option<TableRow> {
    let t = spec_trim(line);
    if t.len() == 0 || t[0] == '#' {
        None
    } else {
        let romaji = spec_trim(head_before(t, '\t'));
        match tail_after(t, '\t') {
            Some(rest) => {
                let kana = spec_trim(rest);
                if romaji.len() == 0 || kana.len() == 0 {
                    None
                } else {
                    Some((lower_ascii_seq(romaji), kana))
                }
            },
            None => None,
        }
    }
}

/// The rows of a custom table file, in file order.
pub open spec fn custom_rows(content: Seq<char>) -> Seq<TableRow> {
    spec_lines(content).filter_map(|line: Seq<char>| custom_row(line))
}

fn lower_ascii_chars(s: &Vec<char>) -> (r: Vec<char>)
    ensures
        r@ == lower_ascii_seq(s@),
{
    let mut r: Vec<char> = Vec::new();
    let mut i: usize = 0;
    while i < s.len()
        invariant
            i <= s@.len(),
            r@ == lower_ascii_seq(s@.take(i as int)),
        decreases s@.len() - i,
    {
        r.push(lower_ascii(s[i]));
        i += 1;
        assert(lower_ascii_seq(s@.take(i as int)) =~= lower_ascii_seq(s@.take(i - 1)).push(
            spec_lower_ascii(s@[i - 1]),
        ));
    }
    assert(s@.take(s@.len() as int) == s@);
    r
}

fn parse_custom_row(line: &Vec<char>) -> (r: Option<(Vec<char>, Vec<char>)>)
    ensures
        r is Some == custom_row(line@) is Some,
        r matches Some(e) ==> custom_row(line@) == Some(row_view(e)),
{
    let t = trim_chars(line.as_slice());
    if t.len() == 0 || t[0] == '#' {
        return None;
    }
    let (head, rest) = split_once_chars(t.as_slice(), '\t');
    let romaji = trim_chars(head.as_slice());
    match rest {
        Some(rest) => {
            let kana = trim_chars(rest.as_slice());
            if romaji.len() == 0 || kana.len() == 0 {
                None
            } else {
                Some((lower_ascii_chars(&romaji), kana))
            }
        },
        None => None,
    }
}

/// The rows of a custom input table file.
fn parse_custom_table(content: &str) -> (r: Vec<(Vec<char>, Vec<char>)>)
    ensures
        r@.map_values(|e: (Vec<char>, Vec<char>)| row_view(e)) == custom_rows(content@),
        rows_wf(custom_rows(content@)),
{
    let chars = chars_of(content);
    let lines = lines_of(chars.as_slice());
    let ghost ls = spec_lines(content@);
    let ghost f = |line: Seq<char>| custom_row(line);
    let mut r: Vec<(Vec<char>, Vec<char>)> = Vec::new();
    let mut i: usize = 0;
    while i < lines.len()
        invariant
            i <= lines@.len() == ls.len(),
            ls == spec_lines(content@),
            f == (|line: Seq<char>| custom_row(line)),
            forall|k: int| 0 <= k < lines@.len() ==> #[trigger] lines@[k]@ == ls[k],
            r@.map_values(|e: (Vec<char>, Vec<char>)| row_view(e)) == ls.take(i as int).filter_map(
                f,
            ),
            rows_wf(r@.map_values(|e: (Vec<char>, Vec<char>)| row_view(e))),
        decreases lines@.len() - i,
    {
        let ghost before = r@.map_values(|e: (Vec<char>, Vec<char>)| row_view(e));
        let row = parse_custom_row(&lines[i]);
        proof {
            ls.lemma_filter_map_take_succ(f, i as int);
        }
        match row {
            Some(e) => {
                proof {
                    lemma_trim_nonempty_romaji(lines@[i as int]@);
                }
                r.push(e);
                assert(r@.map_values(|e: (Vec<char>, Vec<char>)| row_view(e)) =~= before.push(
                    row_view(e),
                ));
            },
            None => {},
        }
        i += 1;
    }
    assert(ls.take(lines@.len() as int) == ls);
    assert(r@.map_values(|e: (Vec<char>, Vec<char>)| row_view(e)) == custom_rows(content@));
    r
}

proof fn lemma_trim_nonempty_romaji(line: Seq<char>)
    ensures
        custom_row(line) matches Some(row) ==> row.0.len() > 0,
{
}

/// The rows of the table for an input style: AZIK for `azik`, the rows of
/// the custom table text for `custom` (none when there is no text), then in
/// both cases the standard table; the standard table for any other style.
pub open spec fn configured_rows(style: Seq<char>, custom_table: Option<Seq<char>>) -> Seq<TableRow> {
    if style == "azik"@ {
        azik_rows() + standard_rows()
    } else if style == "custom"@ {
        (match custom_table {
            Some(c) => custom_rows(c),
            None => Seq::empty(),
        }) + standard_rows()
    } else {
        standard_rows()
    }
}

/// A romaji-to-kana conversion table.
impl InputTable {
    #[verifier::type_invariant]
    closed spec fn inv(self) -> bool {
        rows_wf(self@)
    }

    /// The standard romaji table.
    pub fn standard() -> (t: InputTable)
        ensures
            t@ == standard_rows(),
    {
        InputTable { entries: standard_entries() }
    }

    /// The AZIK table: the AZIK shortcuts, then the standard table.
    pub fn azik() -> (t: InputTable)
        ensures
            t@ == azik_rows() + standard_rows(),
    {
        let mut entries = azik_entries();
        let mut standard = standard_entries();
        let ghost a = entries@;
        let ghost b = standard@;
        entries.append(&mut standard);
        assert(entries@.map_values(|e: (Vec<char>, Vec<char>)| row_view(e)) =~= a.map_values(
            |e: (Vec<char>, Vec<char>)| row_view(e),
        ) + b.map_values(|e: (Vec<char>, Vec<char>)| row_view(e)));
        InputTable { entries }
    }

    /// A table read from a custom table file (`None` when there is none to
    /// read): its rows, then the standard table.
    pub fn custom(content: Option<&str>) -> (t: InputTable)
        ensures
            t@ == (match content {
                Some(c) => custom_rows(c@),
                None => Seq::empty(),
            }) + standard_rows(),
    {
        let mut entries = match content {
            Some(c) => parse_custom_table(c),
            None => Vec::new(),
        };
        let mut standard = standard_entries();
        let ghost a = entries@;
        let ghost b = standard@;
        entries.append(&mut standard);
        assert(entries@.map_values(|e: (Vec<char>, Vec<char>)| row_view(e)) =~= a.map_values(
            |e: (Vec<char>, Vec<char>)| row_view(e),
        ) + b.map_values(|e: (Vec<char>, Vec<char>)| row_view(e)));
        InputTable { entries }
    }

    /// The table that the conversion options ask for (see `configured_rows`);
    /// `custom_table` is the text of the custom table file, if one was read.
    pub fn from_config(config: &ConversionConfig, custom_table: Option<&str>) -> (t: InputTable)
        ensures
            t@ == configured_rows(config.input_style@, match custom_table {
                Some(c) => Some(c@),
                None => None,
            }),
    {
        let style = chars_of(config.input_style.as_str());
        let azik = chars_of("azik");
        let custom = chars_of("custom");
        if chars_equal(style.as_slice(), azik.as_slice()) {
            InputTable::azik()
        } else if chars_equal(style.as_slice(), custom.as_slice()) {
            InputTable::custom(custom_table)
        } else {
            InputTable::standard()
        }
    }

    /// Composes the kana for `input`.
    pub fn convert(&self, input: &str) -> (r: String)
        ensures
            r@ == compose_from(input@, self@, 0),
    {
        proof {
            use_type_invariant(self);
        }
        let chars = chars_of(input);
        let out = compose_chars(chars.as_slice(), &self.entries);
        string_from_chars(out.as_slice())
    }
}

impl Default for InputTable {
    /// The standard romaji table.
    fn default() -> (t: InputTable)
        ensures
            t@ == standard_rows(),
    {
        InputTable::standard()
    }
}

/// Composes hiragana for `input` with the standard romaji table.
pub fn roman_to_hiragana(input: &str) -> (r: String)
    ensures
        r@ == compose_from(input@, standard_rows(), 0),
{
    InputTable::standard().convert(input)
}

/// The table row that matches the start of `input`, if any.
fn match_row(input: &[char], entries: &Vec<(Vec<char>, Vec<char>)>) -> (r: Option<usize>)
    ensures
        r matches Some(k) ==> best_match(
            input@,
            entries@.map_values(|e: (Vec<char>, Vec<char>)| row_view(e)),
        ) == Some(k as int),
        r is None ==> best_match(
            input@,
            entries@.map_values(|e: (Vec<char>, Vec<char>)| row_view(e)),
        ) is None,
{
    let ghost rows = entries@.map_values(|e: (Vec<char>, Vec<char>)| row_view(e));
    let mut best: Option<usize> = None;
    let mut best_len: usize = 0;
    let mut j: usize = 0;
    while j < entries.len()
        invariant
            j <= entries@.len() == rows.len(),
            rows == entries@.map_values(|e: (Vec<char>, Vec<char>)| row_view(e)),
            best is None ==> forall|i: int| 0 <= i < j ==> !(#[trigger] rows[i]).0.is_prefix_of(input@),
            best matches Some(k) ==> {
                &&& k < j
                &&& rows[k as int].0.is_prefix_of(input@)
                &&& best_len == rows[k as int].0.len()
                &&& forall|i: int|
                    0 <= i < j && (#[trigger] rows[i]).0.is_prefix_of(input@) ==> rows[i].0.len()
                        < rows[k as int].0.len() || (rows[i].0.len() == rows[k as int].0.len() && k
                        <= i)
            },
        decreases entries@.len() - j,
    {
        let romaji = &entries[j].0;
        assert(rows[j as int].0 == romaji@);
        if chars_start_with(input, romaji.as_slice()) {
            let better = match best {
                None => true,
                Some(_) => romaji.len() > best_len,
            };
            if better {
                best = Some(j);
                best_len = romaji.len();
            }
        }
        j += 1;
    }
    match best {
        Some(k) => {
            assert(is_best_match(input@, rows, k as int));
            proof {
                let c = choose|c: int| is_best_match(input@, rows, c);
                lemma_best_match_unique(input@, rows, c, k as int);
            }
        },
        None => {
            assert(!exists|k: int| is_best_match(input@, rows, k));
        },
    }
    best
}

/// UTF-8 byte length of a short character sequence.
fn utf8_len_of(s: &[char]) -> (r: usize)
    requires
        s@.len() <= 8,
    ensures
        r == utf8_len(s@),
{
    let mut total: usize = 0;
    let mut i: usize = 0;
    while i < s.len()
        invariant
            i <= s@.len() <= 8,
            total == utf8_len(s@.take(i as int)),
            total <= 4 * i,
        decreases s@.len() - i,
    {
        let c = s[i];
        let w: usize = if (c as u32) < 0x80 {
            1
        } else if (c as u32) < 0x800 {
            2
        } else if (c as u32) < 0x10000 {
            3
        } else {
            4
        };
        assert(s@.take(i + 1).drop_last() == s@.take(i as int));
        total = total + w;
        i += 1;
    }
    assert(s@.take(s@.len() as int) == s@);
    total
}

/// The lookahead window at `index`.
fn window(chars: &[char], index: usize) -> (r: Vec<char>)
    requires
        index < chars@.len(),
    ensures
        r@ == window_at(chars@, index as int),
        r@.len() <= 8,
{
    let end = if chars.len() - index > 8 {
        index + 8
    } else {
        chars.len()
    };
    let mut r: Vec<char> = Vec::new();
    let mut i = index;
    while i < end
        invariant
            index <= i <= end <= chars@.len(),
            end - index <= 8,
            r@ == lower_ascii_seq(chars@.subrange(index as int, i as int)),
        decreases end - i,
    {
        r.push(lower_ascii(chars[i]));
        i += 1;
        assert(lower_ascii_seq(chars@.subrange(index as int, i as int)) =~= lower_ascii_seq(
            chars@.subrange(index as int, i - 1),
        ).push(spec_lower_ascii(chars@[i - 1])));
    }
    r
}

/// Composes the kana for `chars` with the given table rows.
fn compose_chars(chars: &[char], entries: &Vec<(Vec<char>, Vec<char>)>) -> (r: Vec<char>)
    requires
        rows_wf(entries@.map_values(|e: (Vec<char>, Vec<char>)| row_view(e))),
    ensures
        r@ == compose_from(chars@, entries@.map_values(|e: (Vec<char>, Vec<char>)| row_view(e)), 0),
{
    let ghost rows = entries@.map_values(|e: (Vec<char>, Vec<char>)| row_view(e));
    let n = chars.len();
    let mut out: Vec<char> = Vec::new();
    let mut index: usize = 0;
    while index < n
        invariant
            n == chars@.len(),
            rows == entries@.map_values(|e: (Vec<char>, Vec<char>)| row_view(e)),
            rows_wf(rows),
            index <= n,
            out@ + compose_from(chars@, rows, index as int) == compose_from(chars@, rows, 0),
        decreases n - index,
    {
        let ghost before = out@;
        let ghost old_index = index;
        let ch = chars[index];
        let w = window(chars, index);
        match match_row(w.as_slice(), entries) {
            Some(k) => {
                let romaji = &entries[k].0;
                assert(rows[k as int] == row_view(entries@[k as int]));
                assert(romaji@.is_prefix_of(w@));
                let step = utf8_len_of(romaji.as_slice());
                proof {
                    lemma_utf8_len_bounds(romaji@);
                }
                push_all(&mut out, entries[k].1.as_slice());
                if step >= n - index {
                    index = n;
                } else {
                    index = index + step;
                }
            },
            None => {
                let lower = lower_ascii(ch);
                let has_next = index + 1 < n;
                let next = if has_next {
                    chars[index + 1]
                } else {
                    ch
                };
                if !is_ascii_alpha(ch) {
                    out.push(ch);
                    index += 1;
                } else if has_next && lower == lower_ascii(next) && lower != 'n' && is_ascii_alpha(
                    lower,
                ) && !is_vowel(lower) && is_ascii_alpha(next) {
                    out.push('っ');
                    index += 1;
                } else if lower == 'n' {
                    if has_next && lower_ascii(next) == 'n' {
                        out.push('ん');
                        index += 2;
                    } else if has_next && (is_vowel(lower_ascii(next)) || lower_ascii(next) == 'y') {
                        out.push(ch);
                        index += 1;
                    } else {
                        out.push('ん');
                        index += 1;
                    }
                } else {
                    out.push(ch);
                    index += 1;
                }
            },
        }
        assert(before + compose_from(chars@, rows, old_index as int) =~= out@ + compose_from(
            chars@,
            rows,
            index as int,
        ));
    }
    assert(out@ + Seq::<char>::empty() == out@);
    out
}

fn is_vowel(c: char) -> (r: bool)
    ensures
        r == spec_is_vowel(c),
{
    c == 'a' || c == 'i' || c == 'u' || c == 'e' || c == 'o'
}

} // verus!
