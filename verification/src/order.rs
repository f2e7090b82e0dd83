//! Lexicographic orders.

use vstd::prelude::*;

verus! {

/// `less` orders any two different values, one way only, and transitively.
pub open spec fn strict_total<T>(less: spec_fn(T, T) -> bool) -> bool {
    &&& forall|a: T| !(#[trigger] less(a, a))
    &&& forall|a: T, b: T, c: T| #[trigger] less(a, b) && #[trigger] less(b, c) ==> less(a, c)
    &&& forall|a: T, b: T| a != b ==> #[trigger] less(a, b) || less(b, a)
}

/// `a` comes before `b` where the order of single elements is `less`: at the
/// first difference, and a proper beginning before what it begins.
pub open spec fn lex_less<T>(a: Seq<T>, b: Seq<T>, less: spec_fn(T, T) -> bool) -> bool
    decreases a.len(),
{
    if b.len() == 0 {
        false
    } else if a.len() == 0 {
        true
    } else if a[0] == b[0] {
        lex_less(a.drop_first(), b.drop_first(), less)
    } else {
        less(a[0], b[0])
    }
}

/// [`lex_less`] as a function value.
pub open spec fn lex<T>(less: spec_fn(T, T) -> bool) -> spec_fn(Seq<T>, Seq<T>) -> bool {
    |a: Seq<T>, b: Seq<T>| lex_less(a, b, less)
}

proof fn lemma_lex_irreflexive<T>(a: Seq<T>, less: spec_fn(T, T) -> bool)
    ensures
        !lex_less(a, a, less),
    decreases a.len(),
{
    if a.len() != 0 {
        lemma_lex_irreflexive(a.drop_first(), less);
    }
}

proof fn lemma_lex_transitive<T>(a: Seq<T>, b: Seq<T>, c: Seq<T>, less: spec_fn(T, T) -> bool)
    requires
        strict_total(less),
        lex_less(a, b, less),
        lex_less(b, c, less),
    ensures
        lex_less(a, c, less),
    decreases a.len(),
{
    if a.len() != 0 && b.len() != 0 && c.len() != 0 {
        if a[0] == b[0] && b[0] == c[0] {
            lemma_lex_transitive(a.drop_first(), b.drop_first(), c.drop_first(), less);
        } else if a[0] != b[0] && b[0] != c[0] {
            assert(less(a[0], b[0]) && less(b[0], c[0]));
            assert(less(a[0], c[0]));
            if a[0] == c[0] {
                assert(!less(a[0], a[0]));
            }
        }
    }
}

proof fn lemma_lex_trichotomy<T>(a: Seq<T>, b: Seq<T>, less: spec_fn(T, T) -> bool)
    requires
        strict_total(less),
        a != b,
    ensures
        lex_less(a, b, less) || lex_less(b, a, less),
    decreases a.len(),
{
    if a.len() == 0 {
        if b.len() == 0 {
            assert(a =~= b);
        }
    } else if b.len() != 0 {
        if a[0] == b[0] {
            if a.drop_first() == b.drop_first() {
                assert(a =~= seq![a[0]] + a.drop_first());
                assert(b =~= seq![b[0]] + b.drop_first());
            }
            lemma_lex_trichotomy(a.drop_first(), b.drop_first(), less);
        }
    }
}

/// The lexicographic order of a strict total order is one too.
pub proof fn lemma_lex_total<T>(less: spec_fn(T, T) -> bool)
    requires
        strict_total(less),
    ensures
        strict_total(lex(less)),
{
    let f = lex(less);
    assert forall|a: Seq<T>| !(#[trigger] f(a, a)) by {
        lemma_lex_irreflexive(a, less);
    }
    assert forall|a: Seq<T>, b: Seq<T>, c: Seq<T>| #[trigger] f(a, b) && #[trigger] f(
        b,
        c,
    ) implies f(a, c) by {
        lemma_lex_transitive(a, b, c, less);
    }
    assert forall|a: Seq<T>, b: Seq<T>| a != b implies #[trigger] f(a, b) || f(b, a) by {
        lemma_lex_trichotomy(a, b, less);
    }
}

/// What stands at the front of both decides nothing.
pub proof fn lemma_lex_skip<T>(a: Seq<T>, b: Seq<T>, n: int, less: spec_fn(T, T) -> bool)
    requires
        0 <= n <= a.len(),
        n <= b.len(),
        a.take(n) == b.take(n),
    ensures
        lex_less(a, b, less) == lex_less(a.skip(n), b.skip(n), less),
    decreases n,
{
    if n == 0 {
        assert(a.skip(0) =~= a);
        assert(b.skip(0) =~= b);
    } else {
        assert(a[0] == a.take(n)[0]);
        assert(b[0] == b.take(n)[0]);
        let x = a.drop_first();
        let y = b.drop_first();
        assert forall|j: int| 0 <= j < n - 1 implies #[trigger] x[j] == y[j] by {
            assert(a.take(n)[j + 1] == a[j + 1]);
            assert(b.take(n)[j + 1] == b[j + 1]);
            assert(x[j] == a[j + 1] && y[j] == b[j + 1]);
        }
        assert(x.take(n - 1) =~= y.take(n - 1));
        lemma_lex_skip(x, y, n - 1, less);
        assert(x.skip(n - 1) =~= a.skip(n));
        assert(y.skip(n - 1) =~= b.skip(n));
    }
}

/// What begins another sequence does not come after it.
pub proof fn lemma_lex_prefix<T>(a: Seq<T>, b: Seq<T>, less: spec_fn(T, T) -> bool)
    requires
        a.len() < b.len(),
        b.take(a.len() as int) == a,
    ensures
        lex_less(a, b, less),
{
    let n = a.len() as int;
    assert(a.take(n) =~= a);
    lemma_lex_skip(a, b, n, less);
}

/// The order of bytes.
pub open spec fn byte_less() -> spec_fn(u8, u8) -> bool {
    |a: u8, b: u8| a < b
}

/// The order of byte strings.
pub open spec fn bytes_less(a: Seq<u8>, b: Seq<u8>) -> bool {
    lex_less(a, b, byte_less())
}

/// Byte strings are strictly and totally ordered.
pub proof fn lemma_bytes_total()
    ensures
        forall|a: Seq<u8>| !(#[trigger] bytes_less(a, a)),
        forall|a: Seq<u8>, b: Seq<u8>, c: Seq<u8>| #[trigger]
            bytes_less(a, b) && #[trigger] bytes_less(b, c) ==> bytes_less(a, c),
        forall|a: Seq<u8>, b: Seq<u8>| a != b ==> #[trigger] bytes_less(a, b) || bytes_less(b, a),
{
    lemma_lex_total(byte_less());
    let f = lex(byte_less());
    assert forall|a: Seq<u8>| !(#[trigger] bytes_less(a, a)) by {
        assert(!f(a, a));
    }
    assert forall|a: Seq<u8>, b: Seq<u8>, c: Seq<u8>| #[trigger]
        bytes_less(a, b) && #[trigger] bytes_less(b, c) implies bytes_less(a, c) by {
        assert(f(a, b) && f(b, c));
    }
    assert forall|a: Seq<u8>, b: Seq<u8>| a != b implies #[trigger] bytes_less(a, b)
        || bytes_less(b, a) by {
        assert(f(a, b) || f(b, a));
    }
}

/// Whether byte string `a` comes before `b`.
pub fn bytes_before(a: &[u8], b: &[u8]) -> (r: bool)
    ensures
        r == bytes_less(a@, b@),
{
    let mut i: usize = 0;
    while i < a.len() && i < b.len() && a[i] == b[i]
        invariant
            i <= a@.len(),
            i <= b@.len(),
            forall|j: int| 0 <= j < i ==> a@[j] == b@[j],
        decreases a@.len() - i,
    {
        i += 1;
    }
    proof {
        assert(a@.take(i as int) =~= b@.take(i as int));
        lemma_lex_skip(a@, b@, i as int, byte_less());
    }
    i < b.len() && (i == a.len() || a[i] < b[i])
}

} // verus!
