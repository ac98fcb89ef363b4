//! Whether two readings are at most one edit apart, which the dictionary
//! uses to correct typing mistakes.

use vstd::prelude::*;

verus! {

/// `a` and `b` are equal, or one substitution, one deletion or one insertion
/// turns `a` into `b`.
pub open spec fn within_one_edit(a: Seq<char>, b: Seq<char>) -> bool {
    ||| a == b
    ||| (a.len() == b.len() && exists|i: int| 0 <= i < a.len() && #[trigger] a.update(i, b[i]) == b)
    ||| (exists|i: int| 0 <= i < a.len() && #[trigger] a.remove(i) == b)
    ||| (exists|i: int| 0 <= i < b.len() && #[trigger] b.remove(i) == a)
}

/// Being one edit apart is symmetric.
pub proof fn lemma_within_one_edit_symmetric(a: Seq<char>, b: Seq<char>)
    ensures
        within_one_edit(a, b) == within_one_edit(b, a),
{
    if a.len() == b.len() {
        if exists|i: int| 0 <= i < a.len() && #[trigger] a.update(i, b[i]) == b {
            let i = choose|i: int| 0 <= i < a.len() && #[trigger] a.update(i, b[i]) == b;
            assert(b.update(i, a[i]) =~= a);
        }
        if exists|i: int| 0 <= i < b.len() && #[trigger] b.update(i, a[i]) == a {
            let i = choose|i: int| 0 <= i < b.len() && #[trigger] b.update(i, a[i]) == a;
            assert(a.update(i, b[i]) =~= b);
        }
    }
}

/// A reading is within one edit of itself with any one character replaced,
/// with any one character deleted and with any one character inserted, and
/// never of a reading whose length differs by two or more.
pub proof fn lemma_within_one_edit_edits(a: Seq<char>, i: int, c: char, b: Seq<char>)
    requires
        0 <= i < a.len(),
    ensures
        within_one_edit(a, a.update(i, c)),
        within_one_edit(a, a.remove(i)),
        within_one_edit(a.remove(i), a),
        within_one_edit(a, a.insert(i, c)),
        within_one_edit(a, a.insert(a.len() as int, c)),
        b.len() >= a.len() + 2 || a.len() >= b.len() + 2 ==> !within_one_edit(a, b),
{
    let u = a.update(i, c);
    assert(a.update(i, u[i]) == u);
    let ins = a.insert(i, c);
    assert(ins.remove(i) =~= a);
    let tail = a.insert(a.len() as int, c);
    assert(tail.remove(a.len() as int) =~= a);
    if b.len() >= a.len() + 2 || a.len() >= b.len() + 2 {
        assert forall|k: int| 0 <= k < a.len() implies #[trigger] a.remove(k) != b by {
            assert(a.remove(k).len() != b.len());
        }
        assert forall|k: int| 0 <= k < b.len() implies #[trigger] b.remove(k) != a by {
            assert(b.remove(k).len() != a.len());
        }
    }
}

/// Equal lengths: at most one position differs.
fn same_length_within_one(a: &[char], b: &[char]) -> (r: bool)
    requires
        a@.len() == b@.len(),
    ensures
        r == within_one_edit(a@, b@),
{
    let n = a.len();
    let mut i: usize = 0;
    let mut edits: usize = 0;
    let ghost mut m: int = 0;
    while i < n
        invariant
            n == a@.len() == b@.len(),
            i <= n,
            edits <= 1,
            edits == 0 ==> a@.take(i as int) == b@.take(i as int),
            edits == 1 ==> 0 <= m < i && a@[m] != b@[m] && a@.take(i as int).update(m, b@[m])
                == b@.take(i as int),
        decreases n - i,
    {
        if a[i] != b[i] {
            if edits == 1 {
                proof {
                    assert(a@ != b@) by {
                        assert(a@[m] != b@[m]);
                    }
                    assert forall|k: int| 0 <= k < a@.len() implies #[trigger] a@.update(k, b@[k])
                        != b@ by {
                        if k == m {
                            assert(a@.update(k, b@[k])[i as int] == a@[i as int]);
                        } else {
                            assert(a@.update(k, b@[k])[m] == a@[m]);
                        }
                    }
                    assert forall|k: int| 0 <= k < a@.len() implies #[trigger] a@.remove(k) != b@ by {
                        assert(a@.remove(k).len() != b@.len());
                    }
                    assert forall|k: int| 0 <= k < b@.len() implies #[trigger] b@.remove(k) != a@ by {
                        assert(b@.remove(k).len() != a@.len());
                    }
                }
                return false;
            }
            proof {
                m = i as int;
                assert(a@.take(i + 1).update(m, b@[m]) =~= b@.take(i + 1));
            }
            edits = 1;
        } else {
            proof {
                if edits == 0 {
                    assert(a@.take(i + 1) =~= b@.take(i + 1));
                } else {
                    assert(a@.take(i + 1).update(m, b@[m]) =~= b@.take(i + 1));
                }
            }
        }
        i += 1;
    }
    proof {
        assert(a@.take(n as int) == a@);
        assert(b@.take(n as int) == b@);
    }
    true
}

/// `a` is one character longer than `b`: deleting one character of `a`
/// gives `b`.
fn longer_by_one_within_one(a: &[char], b: &[char]) -> (r: bool)
    requires
        a@.len() == b@.len() + 1,
    ensures
        r == within_one_edit(a@, b@),
{
    let mut li: usize = 0;
    let mut ri: usize = 0;
    let mut edits: usize = 0;
    let ghost mut m: int = 0;
    while li < a.len() && ri < b.len()
        invariant
            a@.len() == b@.len() + 1,
            li <= a@.len(),
            ri <= b@.len(),
            edits <= 1,
            li == ri + edits,
            edits == 0 ==> a@.take(li as int) == b@.take(ri as int),
            edits == 1 ==> 0 <= m < li && m < b@.len() && a@.take(m) == b@.take(m) && a@[m]
                != b@[m] && a@.subrange(m + 1, li as int) == b@.subrange(m, ri as int),
        decreases a@.len() - li,
    {
        if a[li] == b[ri] {
            proof {
                if edits == 0 {
                    assert(a@.take(li + 1) =~= b@.take(ri + 1));
                } else {
                    assert(a@.subrange(m + 1, li + 1) =~= b@.subrange(m, ri + 1));
                }
            }
            li += 1;
            ri += 1;
            continue;
        }
        if edits == 1 {
            proof {
                assert forall|k: int| 0 <= k < a@.len() implies #[trigger] a@.remove(k) != b@ by {
                    if a@.remove(k) == b@ {
                        if k > m {
                            assert(a@.remove(k)[m] == a@[m]);
                        } else {
                            assert(a@.remove(k)[ri as int] == a@[ri + 1]);
                        }
                    }
                }
                assert(a@ != b@);
                assert forall|k: int| 0 <= k < b@.len() implies #[trigger] b@.remove(k) != a@ by {
                    assert(b@.remove(k).len() != a@.len());
                }
            }
            return false;
        }
        proof {
            m = li as int;
            assert(a@.take(m) == b@.take(m));
            assert(a@.subrange(m + 1, li + 1) =~= b@.subrange(m, ri as int));
        }
        edits = 1;
        li += 1;
    }
    proof {
        if edits == 0 {
            assert(ri == b@.len());
            assert(a@.remove(b@.len() as int) =~= b@) by {
                assert(a@.take(b@.len() as int) == b@.take(b@.len() as int));
            }
        } else {
            assert(a@.remove(m) =~= b@) by {
                assert(li == a@.len() && ri == b@.len());
                assert forall|j: int| 0 <= j < b@.len() implies a@.remove(m)[j] == b@[j] by {
                    if j < m {
                        assert(a@.take(m)[j] == b@.take(m)[j]);
                    } else {
                        assert(a@.subrange(m + 1, li as int)[j - m] == b@.subrange(
                            m,
                            ri as int,
                        )[j - m]);
                    }
                }
            }
        }
    }
    true
}

/// Whether the character slices `left` and `right` are at most one edit
/// apart.
pub fn edit_distance_chars_one_or_less(left: &[char], right: &[char]) -> (r: bool)
    ensures
        r == within_one_edit(left@, right@),
{
    let left_len = left.len();
    let right_len = right.len();
    if left_len == right_len {
        same_length_within_one(left, right)
    } else if left_len > right_len && left_len - right_len == 1 {
        longer_by_one_within_one(left, right)
    } else if right_len > left_len && right_len - left_len == 1 {
        proof {
            lemma_within_one_edit_symmetric(left@, right@);
        }
        longer_by_one_within_one(right, left)
    } else {
        proof {
            assert forall|k: int| 0 <= k < left@.len() implies #[trigger] left@.remove(k) != right@ by {
                assert(left@.remove(k).len() != right@.len());
            }
            assert forall|k: int| 0 <= k < right@.len() implies #[trigger] right@.remove(k)
                != left@ by {
                assert(right@.remove(k).len() != left@.len());
            }
        }
        false
    }
}

/// Whether `left` and `right` differ by at most one substitution,
/// insertion or deletion of a character.
pub fn is_edit_distance_one_or_less(left: &str, right: &str) -> (r: bool)
    ensures
        r == within_one_edit(left@, right@),
{
    let l = crate::text::chars_of(left);
    let r = crate::text::chars_of(right);
    edit_distance_chars_one_or_less(l.as_slice(), r.as_slice())
}

} // verus!
