//! Nibble paths: the sequence of 4-bit edge selectors that addresses a node.
use vstd::prelude::*;

verus! {

/// Number of children of a node: one per nibble value.
pub const BRANCHING: usize = 16;

/// The high four bits of a byte.
pub open spec fn high_nibble(b: u8) -> usize {
    (b / 16) as usize
}

/// The low four bits of a byte.
pub open spec fn low_nibble(b: u8) -> usize {
    (b % 16) as usize
}

/// The path of a byte sequence: two nibbles per byte, high nibble first.
pub open spec fn nibble_path(bytes: Seq<u8>) -> Seq<usize> {
    Seq::new(
        2 * bytes.len(),
        |i: int| if i % 2 == 0 { high_nibble(bytes[i / 2]) } else { low_nibble(bytes[i / 2]) },
    )
}

/// Every entry of `p` selects one of `n` children.
pub open spec fn path_in_range(p: Seq<usize>, n: usize) -> bool {
    forall|i: int| 0 <= i < p.len() ==> #[trigger] p[i] < n
}

/// Strict lexicographic order on paths: `a` is a proper prefix of `b`, or the
/// two agree up to a position where `a` holds the smaller entry.
pub open spec fn path_lt(a: Seq<usize>, b: Seq<usize>) -> bool {
    ||| (a.len() < b.len() && a == b.take(a.len() as int))
    ||| exists|k: int|
        0 <= k < a.len() && k < b.len() && a.take(k) == b.take(k) && #[trigger] a[k] < b[k]
}

/// `a` is a prefix of `b`, possibly `b` itself.
pub open spec fn is_prefix(a: Seq<usize>, b: Seq<usize>) -> bool {
    a.len() <= b.len() && b.take(a.len() as int) == a
}

/// `a` is a proper prefix of `b`.
pub open spec fn is_strict_prefix(a: Seq<usize>, b: Seq<usize>) -> bool {
    a.len() < b.len() && b.take(a.len() as int) == a
}

pub proof fn lemma_nibble_path_in_range(bytes: Seq<u8>)
    ensures
        path_in_range(nibble_path(bytes), BRANCHING),
{
}

/// Distinct byte sequences have distinct paths.
pub proof fn lemma_nibble_path_injective(a: Seq<u8>, b: Seq<u8>)
    requires
        nibble_path(a) == nibble_path(b),
    ensures
        a == b,
{
    assert(nibble_path(a).len() == 2 * a.len() && nibble_path(b).len() == 2 * b.len());
    assert(a.len() == b.len());
    assert forall|i: int| 0 <= i < a.len() implies a[i] == b[i] by {
        let (x, y) = (a[i], b[i]);
        assert(nibble_path(a)[2 * i] == high_nibble(x));
        assert(nibble_path(b)[2 * i] == high_nibble(y));
        assert(nibble_path(a)[2 * i + 1] == low_nibble(x));
        assert(nibble_path(b)[2 * i + 1] == low_nibble(y));
        assert(x / 16 == y / 16 && x % 16 == y % 16 ==> x == y) by (bit_vector);
    }
    assert(a =~= b);
}

/// Appends the nibble path of `bytes` to `path`.
pub fn push_nibbles(bytes: &[u8], path: &mut Vec<usize>)
    ensures
        final(path)@ == old(path)@ + nibble_path(bytes@),
{
    let ghost start = old(path)@;
    let mut i: usize = 0;
    while i < bytes.len()
        invariant
            0 <= i <= bytes@.len(),
            path@ == start + nibble_path(bytes@.take(i as int)),
        decreases bytes@.len() - i,
    {
        let byte = bytes[i];
        let high: usize = (byte >> 4u8) as usize;
        let low: usize = (byte & 0x0Fu8) as usize;
        assert(byte >> 4u8 == byte / 16) by (bit_vector);
        assert(byte & 0x0Fu8 == byte % 16) by (bit_vector);
        path.push(high);
        path.push(low);
        proof {
            let prev = nibble_path(bytes@.take(i as int));
            let next = nibble_path(bytes@.take(i + 1));
            assert(next =~= prev.push(high).push(low));
        }
        i = i + 1;
    }
    assert(bytes@.take(bytes@.len() as int) =~= bytes@);
}

} // verus!
