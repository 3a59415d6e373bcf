//! The order on paths. A path is held as its bytes, normalized: no empty
//! component and no trailing separator. Paths are ordered component by
//! component, which on such bytes is the lexicographic order in which the
//! separator ranks below every other byte.

use vstd::prelude::*;

verus! {

/// The byte that separates the components of a path.
pub const SEPARATOR: u8 = 47;

/// How two paths stand to each other.
#[derive(Clone, Copy, Debug, PartialEq, Eq, Structural)]
pub enum PathOrder {
    Less,
    Equal,
    Greater,
}

/// The rank of a byte inside a path: the separator first, then the bytes by value.
pub open spec fn byte_rank(b: u8) -> int {
    if b == SEPARATOR {
        0
    } else {
        b + 1
    }
}

/// `a` and `b` agree on their first `k` bytes, and at `k` either `a` ends
/// while `b` goes on, or the byte of `a` ranks below that of `b`.
pub open spec fn precedes_at(a: Seq<u8>, b: Seq<u8>, k: int) -> bool {
    &&& 0 <= k <= a.len()
    &&& k < b.len()
    &&& forall|i: int| 0 <= i < k ==> a[i] == b[i]
    &&& (k < a.len() ==> byte_rank(a[k]) < byte_rank(b[k]))
}

/// `a` comes strictly before `b` in path order.
pub open spec fn path_lt(a: Seq<u8>, b: Seq<u8>) -> bool {
    exists|k: int| precedes_at(a, b, k)
}

/// No path comes before itself.
pub proof fn lemma_path_lt_irreflexive(a: Seq<u8>)
    ensures
        !path_lt(a, a),
{
}

/// Path order is transitive.
pub proof fn lemma_path_lt_transitive(a: Seq<u8>, b: Seq<u8>, c: Seq<u8>)
    requires
        path_lt(a, b),
        path_lt(b, c),
    ensures
        path_lt(a, c),
{
    let k1 = choose|k: int| precedes_at(a, b, k);
    let k2 = choose|k: int| precedes_at(b, c, k);
    let k = if k1 <= k2 { k1 } else { k2 };
    assert(precedes_at(a, c, k));
}

/// No two paths come before each other.
pub proof fn lemma_path_lt_asymmetric(a: Seq<u8>, b: Seq<u8>)
    requires
        path_lt(a, b),
    ensures
        !path_lt(b, a),
        a != b,
{
    if path_lt(b, a) {
        lemma_path_lt_transitive(a, b, a);
    }
    lemma_path_lt_irreflexive(a);
}

/// Two paths that agree on their first `k` bytes and are not the same
/// come one before the other.
proof fn lemma_ordered_from(a: Seq<u8>, b: Seq<u8>, k: int)
    requires
        0 <= k <= a.len(),
        k <= b.len(),
        forall|i: int| 0 <= i < k ==> a[i] == b[i],
        a != b,
    ensures
        path_lt(a, b) || path_lt(b, a),
    decreases a.len() - k,
{
    if k == a.len() {
        if k == b.len() {
            assert(a =~= b);
        }
        assert(precedes_at(a, b, k));
    } else if k == b.len() {
        assert(precedes_at(b, a, k));
    } else if a[k] != b[k] {
        if byte_rank(a[k]) < byte_rank(b[k]) {
            assert(precedes_at(a, b, k));
        } else {
            assert(precedes_at(b, a, k));
        }
    } else {
        lemma_ordered_from(a, b, k + 1);
    }
}

/// Path order is total: of two different paths one comes before the other.
pub proof fn lemma_path_lt_total(a: Seq<u8>, b: Seq<u8>)
    requires
        a != b,
    ensures
        path_lt(a, b) || path_lt(b, a),
{
    lemma_ordered_from(a, b, 0);
}

/// The rank of a byte, computed.
fn rank_of(b: u8) -> (r: u16)
    ensures
        r == byte_rank(b),
{
    if b == SEPARATOR {
        0
    } else {
        let wide: u16 = b.into();
        wide + 1
    }
}

/// Compares two paths in path order.
pub fn path_order(a: &Vec<u8>, b: &Vec<u8>) -> (r: PathOrder)
    ensures
        r == PathOrder::Less <==> path_lt(a@, b@),
        r == PathOrder::Equal <==> a@ == b@,
        r == PathOrder::Greater <==> path_lt(b@, a@),
{
    let mut i: usize = 0;
    while i < a.len() && i < b.len()
        invariant
            i <= a.len(),
            i <= b.len(),
            forall|j: int| 0 <= j < i ==> a@[j] == b@[j],
        decreases a.len() - i,
    {
        if a[i] != b[i] {
            let ra = rank_of(a[i]);
            let rb = rank_of(b[i]);
            if ra < rb {
                proof {
                    assert(precedes_at(a@, b@, i as int));
                    lemma_path_lt_asymmetric(a@, b@);
                }
                return PathOrder::Less;
            } else {
                proof {
                    assert(precedes_at(b@, a@, i as int));
                    lemma_path_lt_asymmetric(b@, a@);
                }
                return PathOrder::Greater;
            }
        }
        i += 1;
    }
    if i < b.len() {
        proof {
            assert(precedes_at(a@, b@, i as int));
            lemma_path_lt_asymmetric(a@, b@);
        }
        PathOrder::Less
    } else if i < a.len() {
        proof {
            assert(precedes_at(b@, a@, i as int));
            lemma_path_lt_asymmetric(b@, a@);
        }
        PathOrder::Greater
    } else {
        proof {
            assert(a@ =~= b@);
            lemma_path_lt_irreflexive(a@);
        }
        PathOrder::Equal
    }
}

} // verus!
