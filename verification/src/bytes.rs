//! Byte-string keys: the lexicographic order that tables are sorted by, and
//! prefix matching.

use vstd::prelude::*;

verus! {

/// `a` and `b` agree on their first `i` bytes, and at index `i` either `a`
/// ends while `b` goes on, or `a` holds the smaller byte.
pub open spec fn precedes_at(a: Seq<u8>, b: Seq<u8>, i: int) -> bool {
    &&& 0 <= i <= a.len()
    &&& i <= b.len()
    &&& forall|j: int| 0 <= j < i ==> a[j] == b[j]
    &&& if i == a.len() {
        i < b.len()
    } else {
        i < b.len() && a[i] < b[i]
    }
}

/// Strict lexicographic order on byte strings.
pub open spec fn lex_lt(a: Seq<u8>, b: Seq<u8>) -> bool {
    exists|i: int| precedes_at(a, b, i)
}

/// Lexicographic order on byte strings.
pub open spec fn lex_le(a: Seq<u8>, b: Seq<u8>) -> bool {
    a == b || lex_lt(a, b)
}

/// The first `prefix.len()` bytes of `key` are `prefix`.
pub open spec fn has_prefix(key: Seq<u8>, prefix: Seq<u8>) -> bool {
    &&& prefix.len() <= key.len()
    &&& forall|j: int| 0 <= j < prefix.len() ==> key[j] == prefix[j]
}

/// Length of `p` once its trailing `0xff` bytes are cut off.
pub open spec fn stem_len(p: Seq<u8>) -> nat
    decreases p.len(),
{
    if p.len() == 0 {
        0
    } else if p.last() == 255u8 {
        stem_len(p.drop_last())
    } else {
        p.len()
    }
}

/// The least byte string above every string that starts with `p`: the stem
/// of `p` with its last byte raised by one. There is none when `p` is empty
/// or made of `0xff` bytes only.
pub open spec fn prefix_successor(p: Seq<u8>) -> Option<Seq<u8>> {
    let m = stem_len(p) as int;
    if m == 0 {
        None
    } else {
        Some(p.subrange(0, m - 1).push((p[m - 1] + 1) as u8))
    }
}

/// Outcome of comparing two keys.
#[derive(Clone, Copy, Debug, PartialEq, Eq, Structural)]
pub enum KeyOrder {
    Less,
    Equal,
    Greater,
}

/// No byte string lies below itself.
pub proof fn lemma_lex_irreflexive(a: Seq<u8>)
    ensures
        !lex_lt(a, a),
{
}

/// Of two byte strings at most one lies below the other, and then they
/// differ.
pub proof fn lemma_lex_asymmetric(a: Seq<u8>, b: Seq<u8>)
    requires
        lex_lt(a, b),
    ensures
        !lex_lt(b, a),
        a != b,
{
    let i = choose|i: int| precedes_at(a, b, i);
    if lex_lt(b, a) {
        let j = choose|j: int| precedes_at(b, a, j);
        if i < j {
            assert(b[i] == a[i]);
        } else if j < i {
            assert(a[j] == b[j]);
        }
    }
}

/// The strict order is transitive.
pub proof fn lemma_lex_transitive(a: Seq<u8>, b: Seq<u8>, c: Seq<u8>)
    requires
        lex_lt(a, b),
        lex_lt(b, c),
    ensures
        lex_lt(a, c),
{
    let i = choose|i: int| precedes_at(a, b, i);
    let j = choose|j: int| precedes_at(b, c, j);
    let m = if i <= j { i } else { j };
    assert forall|k: int| 0 <= k < m implies a[k] == c[k] by {
        assert(a[k] == b[k]);
        assert(b[k] == c[k]);
    }
    assert(precedes_at(a, c, m));
}

/// Two byte strings that agree on their first `n` bytes are equal or
/// ordered one way or the other.
proof fn lemma_lex_total_from(a: Seq<u8>, b: Seq<u8>, n: int)
    requires
        0 <= n <= a.len(),
        n <= b.len(),
        forall|j: int| 0 <= j < n ==> a[j] == b[j],
    ensures
        lex_lt(a, b) || a == b || lex_lt(b, a),
    decreases a.len() - n,
{
    if n == a.len() {
        if n == b.len() {
            assert(a =~= b);
        } else {
            assert(precedes_at(a, b, n));
        }
    } else if n == b.len() {
        assert(precedes_at(b, a, n));
    } else if a[n] < b[n] {
        assert(precedes_at(a, b, n));
    } else if b[n] < a[n] {
        assert(precedes_at(b, a, n));
    } else {
        lemma_lex_total_from(a, b, n + 1);
    }
}

/// Two byte strings are equal or ordered one way or the other.
pub proof fn lemma_lex_total(a: Seq<u8>, b: Seq<u8>)
    ensures
        lex_lt(a, b) || a == b || lex_lt(b, a),
{
    lemma_lex_total_from(a, b, 0);
}

/// `lex_le` is the complement of the reversed strict order.
pub proof fn lemma_lex_le_iff_not_gt(a: Seq<u8>, b: Seq<u8>)
    ensures
        lex_le(a, b) <==> !lex_lt(b, a),
{
    lemma_lex_total(a, b);
    lemma_lex_irreflexive(a);
    if lex_lt(a, b) {
        lemma_lex_asymmetric(a, b);
    }
}

/// At or below, then below, is below.
pub proof fn lemma_lex_le_lt_transitive(a: Seq<u8>, b: Seq<u8>, c: Seq<u8>)
    requires
        lex_le(a, b),
        lex_lt(b, c),
    ensures
        lex_lt(a, c),
{
    if a != b {
        lemma_lex_transitive(a, b, c);
    }
}

/// Below, then at or below, is below.
pub proof fn lemma_lex_lt_le_transitive(a: Seq<u8>, b: Seq<u8>, c: Seq<u8>)
    requires
        lex_lt(a, b),
        lex_le(b, c),
    ensures
        lex_lt(a, c),
{
    if b != c {
        lemma_lex_transitive(a, b, c);
    }
}

/// What the stem of `p` is: everything after it is `0xff`, and its own last
/// byte is not.
pub proof fn lemma_stem_len(p: Seq<u8>)
    ensures
        stem_len(p) <= p.len(),
        forall|j: int| stem_len(p) <= j < p.len() ==> p[j] == 255u8,
        stem_len(p) > 0 ==> p[stem_len(p) - 1] != 255u8,
    decreases p.len(),
{
    if p.len() > 0 && p.last() == 255u8 {
        let q = p.drop_last();
        lemma_stem_len(q);
        assert forall|j: int| stem_len(p) <= j < p.len() implies p[j] == 255u8 by {
            if j < q.len() {
                assert(q[j] == p[j]);
            }
        }
        if stem_len(p) > 0 {
            assert(q[stem_len(p) - 1] == p[stem_len(p) - 1]);
        }
    }
}

/// A key starts with `p` exactly when it lies in the interval from `p`
/// (included) to the successor of `p` (excluded), or from `p` upwards when
/// `p` has no successor.
pub proof fn lemma_prefix_interval(key: Seq<u8>, p: Seq<u8>)
    ensures
        has_prefix(key, p) <==> (lex_le(p, key) && match prefix_successor(p) {
            Some(q) => lex_lt(key, q),
            None => true,
        }),
{
    lemma_stem_len(p);
    let m = stem_len(p) as int;
    if has_prefix(key, p) {
        if p.len() == key.len() {
            assert(p =~= key);
        } else {
            assert(precedes_at(p, key, p.len() as int));
        }
        if m > 0 {
            let q = prefix_successor(p)->Some_0;
            assert(precedes_at(key, q, m - 1));
        }
    }
    if lex_le(p, key) && (prefix_successor(p) matches Some(q) ==> lex_lt(key, q)) {
        if p != key {
            let i = choose|i: int| precedes_at(p, key, i);
            if i < p.len() {
                // `key` holds a larger byte than `p` at `i`, so `i` lies in the stem.
                assert(i < m);
                let q = prefix_successor(p)->Some_0;
                let j = choose|j: int| precedes_at(key, q, j);
                if j < i {
                    assert(key[j] == p[j]);
                } else if j > i {
                    assert(key[i] == q[i]);
                }
                assert(false);
            }
        }
    }
}

/// Compares two keys in lexicographic order.
pub fn compare(a: &[u8], b: &[u8]) -> (r: KeyOrder)
    ensures
        match r {
            KeyOrder::Less => lex_lt(a@, b@),
            KeyOrder::Equal => a@ == b@,
            KeyOrder::Greater => lex_lt(b@, a@),
        },
{
    let mut i: usize = 0;
    while i < a.len() && i < b.len()
        invariant
            0 <= i <= a@.len(),
            i <= b@.len(),
            forall|j: int| 0 <= j < i ==> a@[j] == b@[j],
        decreases a@.len() - i,
    {
        if a[i] < b[i] {
            assert(precedes_at(a@, b@, i as int));
            return KeyOrder::Less;
        }
        if a[i] > b[i] {
            assert(precedes_at(b@, a@, i as int));
            return KeyOrder::Greater;
        }
        i += 1;
    }
    if a.len() < b.len() {
        assert(precedes_at(a@, b@, i as int));
        KeyOrder::Less
    } else if a.len() > b.len() {
        assert(precedes_at(b@, a@, i as int));
        KeyOrder::Greater
    } else {
        assert(a@ =~= b@);
        KeyOrder::Equal
    }
}

/// Tells whether `key` starts with `prefix`. A key shorter than the prefix
/// never does.
pub fn starts_with(key: &[u8], prefix: &[u8]) -> (r: bool)
    ensures
        r == has_prefix(key@, prefix@),
{
    if prefix.len() > key.len() {
        return false;
    }
    let mut i: usize = 0;
    while i < prefix.len()
        invariant
            0 <= i <= prefix@.len(),
            prefix@.len() <= key@.len(),
            forall|j: int| 0 <= j < i ==> key@[j] == prefix@[j],
        decreases prefix@.len() - i,
    {
        if key[i] != prefix[i] {
            return false;
        }
        i += 1;
    }
    true
}

/// Computes the successor of a prefix: the exclusive upper end of the keys
/// that start with it, if there is one.
pub fn successor_of(prefix: &[u8]) -> (r: Option<Vec<u8>>)
    ensures
        match r {
            Some(q) => prefix_successor(prefix@) == Some(q@),
            None => prefix_successor(prefix@) is None,
        },
{
    let mut m: usize = prefix.len();
    assert(prefix@.subrange(0, m as int) =~= prefix@);
    while m > 0 && prefix[m - 1] == 255u8
        invariant
            0 <= m <= prefix@.len(),
            stem_len(prefix@) == stem_len(prefix@.subrange(0, m as int)),
        decreases m,
    {
        proof {
            let cur = prefix@.subrange(0, m as int);
            assert(cur.drop_last() =~= prefix@.subrange(0, m - 1));
        }
        m -= 1;
    }
    proof {
        let cur = prefix@.subrange(0, m as int);
        if m > 0 {
            assert(cur.last() == prefix@[m - 1]);
        }
        assert(stem_len(cur) == m);
    }
    if m == 0 {
        return None;
    }
    let mut out: Vec<u8> = Vec::with_capacity(m);
    let mut i: usize = 0;
    while i < m - 1
        invariant
            0 < m <= prefix@.len(),
            0 <= i <= m - 1,
            out@ == prefix@.subrange(0, i as int),
        decreases m - 1 - i,
    {
        out.push(prefix[i]);
        assert(out@ =~= prefix@.subrange(0, i + 1));
        i += 1;
    }
    out.push(prefix[m - 1] + 1);
    Some(out)
}

} // verus!
