//! Picking elements of a sequence.

use vstd::prelude::*;

verus! {

/// The first element of `s` that `fits`.
pub open spec fn first_where<T>(s: Seq<T>, fits: spec_fn(T) -> bool) -> Option<T>
    decreases s.len(),
{
    if s.len() == 0 {
        None
    } else if fits(s[0]) {
        Some(s[0])
    } else {
        first_where(s.drop_first(), fits)
    }
}

/// Elements in front that do not fit change nothing.
pub proof fn lemma_first_where_skip<T>(s: Seq<T>, n: int, fits: spec_fn(T) -> bool)
    requires
        0 <= n <= s.len(),
        forall|i: int| 0 <= i < n ==> !fits(#[trigger] s[i]),
    ensures
        first_where(s, fits) == first_where(s.skip(n), fits),
        n < s.len() && fits(s[n]) ==> first_where(s, fits) == Some(s[n]),
        n == s.len() ==> first_where(s, fits) is None,
    decreases n,
{
    if n == 0 {
        assert(s.skip(0) =~= s);
    } else {
        let rest = s.drop_first();
        assert(!fits(s[0]));
        assert forall|i: int| 0 <= i < n - 1 implies !fits(#[trigger] rest[i]) by {
            assert(rest[i] == s[i + 1]);
        }
        lemma_first_where_skip(rest, n - 1, fits);
        assert(rest.skip(n - 1) =~= s.skip(n));
    }
}

/// What is found is in the sequence and fits; nothing is found only where
/// nothing fits.
pub proof fn lemma_first_where<T>(s: Seq<T>, fits: spec_fn(T) -> bool)
    ensures
        match first_where(s, fits) {
            Some(found) => fits(found) && s.contains(found),
            None => forall|i: int| 0 <= i < s.len() ==> !fits(#[trigger] s[i]),
        },
    decreases s.len(),
{
    if s.len() > 0 && !fits(s[0]) {
        let rest = s.drop_first();
        lemma_first_where(rest, fits);
        if let Some(found) = first_where(rest, fits) {
            let i = choose|i: int| 0 <= i < rest.len() && rest[i] == found;
            assert(s[i + 1] == found);
        } else {
            assert forall|i: int| 0 <= i < s.len() implies !fits(#[trigger] s[i]) by {
                if i > 0 {
                    assert(s[i] == rest[i - 1]);
                }
            }
        }
    }
}

/// The elements of `s` that `fits`, in order.
pub open spec fn kept<T>(s: Seq<T>, fits: spec_fn(T) -> bool) -> Seq<T>
    decreases s.len(),
{
    if s.len() == 0 {
        seq![]
    } else if fits(s.last()) {
        kept(s.drop_last(), fits).push(s.last())
    } else {
        kept(s.drop_last(), fits)
    }
}

/// The last of the elements of `s` that no other exceeds by `size`.
pub open spec fn last_largest<T>(s: Seq<T>, size: spec_fn(T) -> nat) -> Option<T>
    decreases s.len(),
{
    if s.len() == 0 {
        None
    } else {
        match last_largest(s.drop_last(), size) {
            Some(best) if size(best) > size(s.last()) => Some(best),
            _ => Some(s.last()),
        }
    }
}

/// The first of the elements of `s` that exceed no other by `size`.
pub open spec fn first_smallest<T>(s: Seq<T>, size: spec_fn(T) -> nat) -> Option<T>
    decreases s.len(),
{
    if s.len() == 0 {
        None
    } else {
        match first_smallest(s.drop_last(), size) {
            Some(best) if size(best) <= size(s.last()) => Some(best),
            _ => Some(s.last()),
        }
    }
}

/// What is kept is what fits.
pub proof fn lemma_kept<T>(s: Seq<T>, fits: spec_fn(T) -> bool)
    ensures
        kept(s, fits).len() <= s.len(),
        forall|x: T| #[trigger] kept(s, fits).contains(x) <==> s.contains(x) && fits(x),
    decreases s.len(),
{
    if s.len() > 0 {
        let front = s.drop_last();
        let last = s.last();
        lemma_kept(front, fits);
        let rest = kept(front, fits);
        let all = kept(s, fits);
        assert forall|x: T| #[trigger] all.contains(x) <==> s.contains(x) && fits(x) by {
            if s.contains(x) && fits(x) {
                let i = choose|i: int| 0 <= i < s.len() && s[i] == x;
                if i < front.len() {
                    assert(front[i] == x);
                    assert(front.contains(x));
                    assert(rest.contains(x));
                    let k = choose|k: int| 0 <= k < rest.len() && rest[k] == x;
                    assert(all[k] == x);
                } else {
                    assert(all[all.len() - 1] == x);
                }
            }
            if all.contains(x) {
                let k = choose|k: int| 0 <= k < all.len() && all[k] == x;
                if k < rest.len() {
                    assert(rest[k] == x);
                    assert(rest.contains(x));
                    let i = choose|i: int| 0 <= i < front.len() && front[i] == x;
                    assert(s[i] == x);
                } else {
                    assert(s[s.len() - 1] == x);
                }
            }
        }
    }
}

/// The largest is one of them, and none exceeds it.
pub proof fn lemma_last_largest<T>(s: Seq<T>, size: spec_fn(T) -> nat)
    ensures
        match last_largest(s, size) {
            Some(best) => s.contains(best) && forall|i: int|
                0 <= i < s.len() ==> size(#[trigger] s[i]) <= size(best),
            None => s.len() == 0,
        },
    decreases s.len(),
{
    if s.len() > 0 {
        let front = s.drop_last();
        lemma_last_largest(front, size);
        let best = last_largest(s, size)->0;
        assert(s[s.len() - 1] == s.last());
        if let Some(before) = last_largest(front, size) {
            let k = choose|k: int| 0 <= k < front.len() && front[k] == before;
            assert(s[k] == before);
            assert forall|i: int| 0 <= i < s.len() implies size(#[trigger] s[i]) <= size(best) by {
                if i < front.len() {
                    assert(front[i] == s[i]);
                }
            }
        }
    }
}

/// The smallest is one of them, and it exceeds none.
pub proof fn lemma_first_smallest<T>(s: Seq<T>, size: spec_fn(T) -> nat)
    ensures
        match first_smallest(s, size) {
            Some(best) => s.contains(best) && forall|i: int|
                0 <= i < s.len() ==> size(best) <= size(#[trigger] s[i]),
            None => s.len() == 0,
        },
    decreases s.len(),
{
    if s.len() > 0 {
        let front = s.drop_last();
        lemma_first_smallest(front, size);
        let best = first_smallest(s, size)->0;
        assert(s[s.len() - 1] == s.last());
        if let Some(before) = first_smallest(front, size) {
            let k = choose|k: int| 0 <= k < front.len() && front[k] == before;
            assert(s[k] == before);
            assert forall|i: int| 0 <= i < s.len() implies size(best) <= size(#[trigger] s[i]) by {
                if i < front.len() {
                    assert(front[i] == s[i]);
                }
            }
        }
    }
}

} // verus!
