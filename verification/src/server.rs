//! The decisions of the conversion service: which part of the text before
//! the cursor is passed on as context, and which suggestions are shown.

use vstd::prelude::*;
use crate::candidate::{models, Candidate, CandidateModel};
use crate::text::{chars_equal, chars_of, split_chars, split_on, string_from_chars};

verus! {

/// The conversion service.
#[derive(Debug, Default)]
pub struct MyAzookeyService;

/// The last non-empty piece, or nothing when every piece is empty.
pub open spec fn last_nonempty(pieces: Seq<Seq<char>>) -> Seq<char>
    decreases pieces.len(),
{
    if pieces.len() == 0 {
        Seq::empty()
    } else if pieces.last().len() > 0 {
        pieces.last()
    } else {
        last_nonempty(pieces.drop_last())
    }
}

/// The context that is passed on: the last non-empty line of the text
/// before the cursor, lines being separated by carriage returns.
pub open spec fn spec_context_tail(context: Seq<char>) -> Seq<char> {
    last_nonempty(split_on(context, '\r'))
}

/// The context that is passed on (see `spec_context_tail`).
pub fn context_tail(context: &str) -> (r: String)
    ensures
        r@ == spec_context_tail(context@),
{
    let chars = chars_of(context);
    let pieces = split_chars(chars.as_slice(), '\r');
    let ghost sp = split_on(context@, '\r');
    let mut i = pieces.len();
    assert(sp.take(i as int) =~= sp);
    while i > 0
        invariant
            sp == split_on(context@, '\r'),
            pieces@.len() == sp.len(),
            forall|k: int| 0 <= k < pieces@.len() ==> #[trigger] pieces@[k]@ == sp[k],
            i <= pieces@.len(),
            last_nonempty(sp.take(i as int)) == last_nonempty(sp),
        decreases i,
    {
        assert(sp.take(i as int).last() == pieces@[i - 1]@);
        if pieces[i - 1].len() > 0 {
            return string_from_chars(pieces[i - 1].as_slice());
        }
        assert(sp.take(i as int).drop_last() =~= sp.take(i - 1));
        i -= 1;
    }
    assert(sp.take(0) =~= Seq::<Seq<char>>::empty());
    String::new()
}

/// A suggestion with the text `t` is among `s`.
pub open spec fn text_shown(s: Seq<CandidateModel>, t: Seq<char>) -> bool {
    exists|i: int| 0 <= i < s.len() && s[i].0 == t
}

/// The suggestions with the first of each text kept and later ones with the
/// same text dropped.
pub open spec fn unique_texts(s: Seq<CandidateModel>) -> Seq<CandidateModel>
    decreases s.len(),
{
    if s.len() == 0 {
        Seq::empty()
    } else {
        let r = unique_texts(s.drop_last());
        if text_shown(r, s.last().0) {
            r
        } else {
            r.push(s.last())
        }
    }
}

/// Whether a suggestion with this text is already kept.
fn has_text(kept: &Vec<Candidate>, text: &String) -> (r: bool)
    ensures
        r == text_shown(models(kept@), text@),
{
    let t = chars_of(text.as_str());
    let mut i: usize = 0;
    while i < kept.len()
        invariant
            t@ == text@,
            i <= kept@.len(),
            forall|j: int| 0 <= j < i ==> kept@[j].text@ != text@,
        decreases kept@.len() - i,
    {
        let k = chars_of(kept[i].text.as_str());
        if chars_equal(k.as_slice(), t.as_slice()) {
            assert(models(kept@)[i as int].0 == text@);
            return true;
        }
        i += 1;
    }
    assert forall|j: int| 0 <= j < models(kept@).len() implies models(kept@)[j].0 != text@ by {
        assert(models(kept@)[j] == kept@[j]@);
    }
    false
}

/// The suggestions with repeated texts dropped (see `unique_texts`).
pub fn unique_suggestions(suggestions: Vec<Candidate>) -> (r: Vec<Candidate>)
    ensures
        models(r@) == unique_texts(models(suggestions@)),
{
    let ghost m = models(suggestions@);
    let mut kept: Vec<Candidate> = Vec::new();
    let mut i: usize = 0;
    assert(m.take(0) =~= Seq::<CandidateModel>::empty());
    while i < suggestions.len()
        invariant
            m == models(suggestions@),
            i <= suggestions@.len(),
            models(kept@) == unique_texts(m.take(i as int)),
        decreases suggestions@.len() - i,
    {
        let c = &suggestions[i];
        assert(m.take(i + 1).drop_last() =~= m.take(i as int));
        assert(m.take(i + 1).last() == c@);
        if !has_text(&kept, &c.text) {
            let ghost before = models(kept@);
            kept.push(c.duplicate());
            assert(models(kept@) =~= before.push(c@));
        }
        i += 1;
    }
    assert(m.take(i as int) =~= m);
    kept
}

} // verus!
