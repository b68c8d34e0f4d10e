//! The order of keys: byte strings compared byte by byte, a prefix before
//! its extensions.

use vstd::prelude::*;

verus! {

/// Whether `p` is a prefix of `k`, possibly all of it.
pub open spec fn is_prefix(p: Seq<u8>, k: Seq<u8>) -> bool {
    p.len() <= k.len() && k.take(p.len() as int) == p
}

/// Whether `a` comes strictly before `b`: they agree on their first `n`
/// bytes for some `n`, and there `a` ends and `b` goes on, or `a` has the
/// smaller byte.
pub open spec fn lex_lt(a: Seq<u8>, b: Seq<u8>) -> bool {
    exists|n: int| differs_at(a, b, n)
}

/// Whether `a` and `b` agree on their first `n` bytes and `a` is the
/// smaller at byte `n`, or ends there where `b` does not.
pub open spec fn differs_at(a: Seq<u8>, b: Seq<u8>, n: int) -> bool {
    &&& 0 <= n <= a.len()
    &&& n < b.len()
    &&& a.take(n) == b.take(n)
    &&& n < a.len() ==> a[n] < b[n]
}

/// Whether each key of `keys` comes strictly before the next.
pub open spec fn strictly_increasing(keys: Seq<Seq<u8>>) -> bool {
    forall|i: int, j: int| 0 <= i < j < keys.len() ==> lex_lt(keys[i], keys[j])
}

/// Two strings that agree on their first `n` bytes agree on any fewer.
pub proof fn lemma_take_take(a: Seq<u8>, b: Seq<u8>, n: int, m: int)
    requires
        0 <= m <= n <= a.len(),
        n <= b.len(),
        a.take(n) == b.take(n),
    ensures
        a.take(m) == b.take(m),
        forall|i: int| 0 <= i < n ==> a[i] == b[i],
{
    assert forall|i: int| 0 <= i < n implies a[i] == b[i] by {
        assert(a.take(n)[i] == a[i]);
        assert(b.take(n)[i] == b[i]);
    }
    assert(a.take(m) =~= b.take(m));
}

/// Nothing comes before itself.
pub proof fn lemma_lex_irreflexive(a: Seq<u8>)
    ensures
        !lex_lt(a, a),
{
}

/// The order is transitive.
pub proof fn lemma_lex_transitive(a: Seq<u8>, b: Seq<u8>, c: Seq<u8>)
    requires
        lex_lt(a, b),
        lex_lt(b, c),
    ensures
        lex_lt(a, c),
{
    let n = choose|n: int| differs_at(a, b, n);
    let m = choose|m: int| differs_at(b, c, m);
    if n <= m {
        lemma_take_take(b, c, m, n);
        assert(a.take(n) == c.take(n));
        if n < m {
            assert(b[n] == c[n]) by {
                lemma_take_take(b, c, m, n);
            }
        }
        assert(differs_at(a, c, n));
    } else {
        lemma_take_take(a, b, n, m);
        assert(a[m] == b[m]) by {
            lemma_take_take(a, b, n, m);
        }
        assert(differs_at(a, c, m));
    }
}

/// Of two different strings one comes before the other.
pub proof fn lemma_lex_total(a: Seq<u8>, b: Seq<u8>)
    ensures
        a == b || lex_lt(a, b) || lex_lt(b, a),
        !(lex_lt(a, b) && lex_lt(b, a)),
{
    if lex_lt(a, b) && lex_lt(b, a) {
        lemma_lex_transitive(a, b, a);
    }
    assert(a.take(0) =~= b.take(0));
    lemma_common(a, b, 0);
}

/// From `n` agreed bytes on, two strings are equal or ordered.
proof fn lemma_common(a: Seq<u8>, b: Seq<u8>, n: int)
    requires
        0 <= n <= a.len(),
        n <= b.len(),
        a.take(n) == b.take(n),
    ensures
        a == b || lex_lt(a, b) || lex_lt(b, a),
    decreases a.len() - n,
{
    if n == a.len() {
        if n == b.len() {
            assert(a.take(n) == a);
            assert(b.take(n) == b);
        } else {
            assert(differs_at(a, b, n));
        }
    } else if n == b.len() {
        assert(differs_at(b, a, n));
    } else if a[n] < b[n] {
        assert(differs_at(a, b, n));
    } else if b[n] < a[n] {
        assert(differs_at(b, a, n));
    } else {
        assert(a.take(n + 1) =~= a.take(n).push(a[n]));
        assert(b.take(n + 1) =~= b.take(n).push(b[n]));
        lemma_common(a, b, n + 1);
    }
}

/// Behind a first byte each, two strings are ordered by that byte, and
/// where it is the same by what follows.
pub proof fn lemma_lex_first(x: u8, s: Seq<u8>, y: u8, t: Seq<u8>)
    ensures
        lex_lt(seq![x] + s, seq![y] + t) <==> x < y || (x == y && lex_lt(s, t)),
{
    let a = seq![x] + s;
    let b = seq![y] + t;
    assert(a[0] == x && b[0] == y);
    if lex_lt(a, b) {
        let n = choose|n: int| differs_at(a, b, n);
        if n > 0 {
            lemma_take_take(a, b, n, 0);
            assert(x == y);
            assert(s.take(n - 1) =~= t.take(n - 1)) by {
                assert forall|i: int| 0 <= i < n - 1 implies s[i] == t[i] by {
                    assert(a[i + 1] == s[i]);
                    assert(b[i + 1] == t[i]);
                }
            }
            if n < a.len() {
                assert(a[n] == s[n - 1]);
                assert(b[n] == t[n - 1]);
            }
            assert(differs_at(s, t, n - 1));
        }
    }
    if x < y {
        assert(a.take(0) =~= b.take(0));
        assert(differs_at(a, b, 0));
    }
    if x == y && lex_lt(s, t) {
        let m = choose|m: int| differs_at(s, t, m);
        lemma_take_take(s, t, m, 0);
        assert(a.take(m + 1) =~= b.take(m + 1)) by {
            assert forall|i: int| 0 <= i < m + 1 implies a[i] == b[i] by {
                if i > 0 {
                    assert(a[i] == s[i - 1]);
                    assert(b[i] == t[i - 1]);
                }
            }
        }
        if m < s.len() {
            assert(a[m + 1] == s[m]);
            assert(b[m + 1] == t[m]);
        }
        assert(differs_at(a, b, m + 1));
    }
}

/// A string comes before each of its proper extensions.
pub proof fn lemma_prefix_before(p: Seq<u8>, k: Seq<u8>)
    requires
        is_prefix(p, k),
        p != k,
    ensures
        lex_lt(p, k),
{
    if p.len() == k.len() {
        assert(k.take(p.len() as int) == k);
    }
    assert(p.take(p.len() as int) == p);
    assert(differs_at(p, k, p.len() as int));
}

} // verus!
