//! Lexicographic order on byte strings, the order of every identifier and
//! name in this crate.

use vstd::prelude::*;

verus! {

/// Result of comparing two byte strings.
#[derive(Clone, Copy, Debug, PartialEq, Eq, Structural)]
pub enum Order {
    Less,
    Equal,
    Greater,
}

/// `a` and `b` agree on their first `n` bytes.
pub open spec fn common_prefix(a: Seq<u8>, b: Seq<u8>, n: int) -> bool {
    &&& 0 <= n <= a.len()
    &&& n <= b.len()
    &&& forall|i: int| 0 <= i < n ==> a[i] == b[i]
}

/// `a` comes strictly before `b`: at the first position where they differ
/// `a` has the smaller byte, or `a` is a proper prefix of `b`.
pub open spec fn lex_lt(a: Seq<u8>, b: Seq<u8>) -> bool {
    exists|n: int| #[trigger]
        common_prefix(a, b, n) && n < b.len() && (n == a.len() || a[n] < b[n])
}

/// `a` comes before `b` or equals it.
pub open spec fn lex_le(a: Seq<u8>, b: Seq<u8>) -> bool {
    lex_lt(a, b) || a == b
}

/// The three-way comparison that `lex_lt` induces.
pub open spec fn order_of(a: Seq<u8>, b: Seq<u8>) -> Order {
    if lex_lt(a, b) {
        Order::Less
    } else if a == b {
        Order::Equal
    } else {
        Order::Greater
    }
}

/// No byte string comes before itself, and no two come before each other.
pub proof fn lemma_lex_lt_asymmetric(a: Seq<u8>, b: Seq<u8>)
    requires
        lex_lt(a, b),
    ensures
        !lex_lt(b, a),
        a != b,
{
    let n = choose|n: int| #[trigger]
        common_prefix(a, b, n) && n < b.len() && (n == a.len() || a[n] < b[n]);
    if lex_lt(b, a) {
        let m = choose|m: int| #[trigger]
            common_prefix(b, a, m) && m < a.len() && (m == b.len() || b[m] < a[m]);
        if m < n {
            assert(a[m] == b[m]);
        } else if n < m {
            assert(b[n] == a[n]);
        }
    }
}

/// The order is transitive.
pub proof fn lemma_lex_lt_transitive(a: Seq<u8>, b: Seq<u8>, c: Seq<u8>)
    requires
        lex_lt(a, b),
        lex_lt(b, c),
    ensures
        lex_lt(a, c),
{
    let n = choose|n: int| #[trigger]
        common_prefix(a, b, n) && n < b.len() && (n == a.len() || a[n] < b[n]);
    let m = choose|m: int| #[trigger]
        common_prefix(b, c, m) && m < c.len() && (m == b.len() || b[m] < c[m]);
    let k = if n <= m { n } else { m };
    assert(common_prefix(a, c, k));
    if n < m {
        assert(b[n] == c[n]);
    } else if m < n {
        assert(a[m] == b[m]);
    }
}

proof fn lemma_lex_total_from(a: Seq<u8>, b: Seq<u8>, n: int)
    requires
        common_prefix(a, b, n),
    ensures
        lex_lt(a, b) || lex_lt(b, a) || a == b,
    decreases a.len() - n,
{
    if n < a.len() && n < b.len() && a[n] == b[n] {
        lemma_lex_total_from(a, b, n + 1);
    } else {
        assert(common_prefix(b, a, n));
    }
}

/// Any two byte strings are equal or ordered one way round.
pub proof fn lemma_lex_total(a: Seq<u8>, b: Seq<u8>)
    ensures
        lex_lt(a, b) || lex_lt(b, a) || a == b,
        order_of(a, b) == Order::Greater <==> lex_lt(b, a),
        order_of(a, b) == Order::Equal <==> a == b,
        order_of(a, b) == Order::Less <==> lex_lt(a, b),
{
    lemma_lex_total_from(a, b, 0);
    if lex_lt(a, b) {
        lemma_lex_lt_asymmetric(a, b);
    }
    if lex_lt(b, a) {
        lemma_lex_lt_asymmetric(b, a);
    }
}

/// Compares two byte strings lexicographically.
pub fn compare_bytes(a: &[u8], b: &[u8]) -> (r: Order)
    ensures
        r == order_of(a@, b@),
{
    let mut i: usize = 0;
    while i < a.len() && i < b.len()
        invariant
            common_prefix(a@, b@, i as int),
        decreases a.len() - i,
    {
        if a[i] < b[i] {
            return Order::Less;
        }
        if b[i] < a[i] {
            proof {
                assert(common_prefix(b@, a@, i as int));
                lemma_lex_lt_asymmetric(b@, a@);
            }
            return Order::Greater;
        }
        i += 1;
    }
    if i < b.len() {
        Order::Less
    } else if i < a.len() {
        proof {
            assert(common_prefix(b@, a@, i as int));
            lemma_lex_lt_asymmetric(b@, a@);
        }
        Order::Greater
    } else {
        proof {
            assert(a@ =~= b@);
            if lex_lt(a@, b@) {
                lemma_lex_lt_asymmetric(a@, b@);
            }
        }
        Order::Equal
    }
}

} // verus!
