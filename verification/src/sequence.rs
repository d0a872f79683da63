//! Searching a sequence for a value.

use vstd::prelude::*;

verus! {

/// The index of the first `x` in `s`, or the length of `s` if it holds none.
pub open spec fn position<T>(s: Seq<T>, x: T) -> nat
    decreases s.len(),
{
    if s.len() == 0 || s.first() == x {
        0
    } else {
        1 + position(s.drop_first(), x)
    }
}

/// Where the first `x` of `s` is, given a prefix of length `i` that holds none.
pub proof fn lemma_position<T>(s: Seq<T>, x: T, i: int)
    requires
        0 <= i <= s.len(),
        forall|k: int| 0 <= k < i ==> s[k] != x,
    ensures
        i < s.len() && s[i] == x ==> position(s, x) == i,
        i == s.len() ==> position(s, x) == i,
        position(s, x) >= i,
    decreases i,
{
    if i > 0 {
        let t = s.drop_first();
        assert forall|k: int| 0 <= k < i - 1 implies t[k] != x by {
            assert(t[k] == s[k + 1]);
        }
        lemma_position(t, x, i - 1);
    }
}

/// `position(s, x)` is the least index of an `x` in `s`, and the length of
/// `s` exactly when `s` holds no `x`.
pub proof fn lemma_position_is_first<T>(s: Seq<T>, x: T)
    ensures
        position(s, x) <= s.len(),
        position(s, x) < s.len() ==> s[position(s, x) as int] == x,
        forall|k: int| 0 <= k < position(s, x) ==> s[k] != x,
        position(s, x) < s.len() <==> s.contains(x),
    decreases s.len(),
{
    if s.len() == 0 || s.first() == x {
        if s.len() > 0 {
            assert(s[0] == x);
        }
    } else {
        let t = s.drop_first();
        lemma_position_is_first(t, x);
        let p = position(t, x);
        assert forall|k: int| 0 <= k < p + 1 implies s[k] != x by {
            if k > 0 {
                assert(t[k - 1] == s[k]);
            }
        }
        if p < t.len() {
            assert(t[p as int] == s[p as int + 1]);
        }
        if s.contains(x) {
            let k = choose|k: int| 0 <= k < s.len() && s[k] == x;
            assert(t[k - 1] == x);
        }
    }
}

} // verus!
