//! Identifiers and generation numbers of changesets.

use vstd::prelude::*;

verus! {

/// The number that some bytes stand for, the first byte counting most.
pub open spec fn be_value(bytes: Seq<u8>) -> nat
    decreases bytes.len(),
{
    if bytes.len() == 0 {
        0
    } else {
        be_value(bytes.drop_last()) * 256 + bytes.last() as nat
    }
}

/// 256 to the power of `n`.
pub open spec fn radix(n: nat) -> nat
    decreases n,
{
    if n == 0 {
        1
    } else {
        radix((n - 1) as nat) * 256
    }
}

/// The first of two byte strings of one length comes before the second in
/// the order of a dictionary.
pub open spec fn lexicographic(a: Seq<u8>, b: Seq<u8>) -> bool {
    exists|k: int|
        0 <= k < a.len() && #[trigger] a[k] < b[k] && forall|j: int| 0 <= j < k ==> a[j] == b[j]
}

/// The number that `n` bytes stand for is below 256 to the power of `n`.
pub proof fn lemma_be_value_bound(bytes: Seq<u8>)
    ensures
        be_value(bytes) < radix(bytes.len()),
    decreases bytes.len(),
{
    if bytes.len() > 0 {
        lemma_be_value_bound(bytes.drop_last());
        let v = be_value(bytes.drop_last());
        let r = radix((bytes.len() - 1) as nat);
        assert(v * 256 + 255 < r * 256) by (nonlinear_arith)
            requires
                v < r,
        ;
    }
}

/// 256 to the power of 16 is 2 to the power of 128.
pub proof fn lemma_radix_16()
    ensures
        radix(16) == 0x1_0000_0000_0000_0000_0000_0000_0000_0000,
        forall|n: nat| n <= 16 ==> #[trigger] radix(n) <= 0x1_0000_0000_0000_0000_0000_0000_0000_0000,
{
    reveal_with_fuel(radix, 18);
    assert(radix(4) == 0x1_0000_0000);
    assert(radix(8) == 0x1_0000_0000_0000_0000);
    assert(radix(12) == 0x1_0000_0000_0000_0000_0000_0000);
    assert(radix(16) == 0x1_0000_0000_0000_0000_0000_0000_0000_0000);
    assert forall|n: nat| n <= 16 implies #[trigger] radix(n)
        <= 0x1_0000_0000_0000_0000_0000_0000_0000_0000 by {
        assert(radix(0) == 1);
        assert(radix(1) == 256);
        assert(radix(2) == 0x1_0000);
        assert(radix(3) == 0x100_0000);
        assert(radix(5) == 0x100_0000_0000);
        assert(radix(6) == 0x1_0000_0000_0000);
        assert(radix(7) == 0x100_0000_0000_0000);
        assert(radix(9) == 0x100_0000_0000_0000_0000);
        assert(radix(10) == 0x1_0000_0000_0000_0000_0000);
        assert(radix(11) == 0x100_0000_0000_0000_0000_0000);
        assert(radix(13) == 0x100_0000_0000_0000_0000_0000_0000);
        assert(radix(14) == 0x1_0000_0000_0000_0000_0000_0000_0000);
        assert(radix(15) == 0x100_0000_0000_0000_0000_0000_0000_0000);
    }
}

/// The number that a byte and some more bytes stand for.
pub proof fn lemma_be_value_prepend(first: u8, rest: Seq<u8>)
    ensures
        be_value(seq![first] + rest) == first * radix(rest.len()) + be_value(rest),
    decreases rest.len(),
{
    let all = seq![first] + rest;
    assert(be_value(all) == be_value(all.drop_last()) * 256 + all.last());
    if rest.len() == 0 {
        assert(all.drop_last() =~= Seq::<u8>::empty());
        assert(be_value(all.drop_last()) == 0);
        assert(all.last() == first);
        assert(radix(0) == 1);
        assert(be_value(rest) == 0);
        assert(first * radix(0) == first) by (nonlinear_arith)
            requires
                radix(0) == 1,
        ;
    } else {
        assert(all.drop_last() =~= seq![first] + rest.drop_last());
        assert(all.last() == rest.last());
        lemma_be_value_prepend(first, rest.drop_last());
        let r = radix((rest.len() - 1) as nat);
        let v = be_value(rest.drop_last());
        assert(radix(rest.len()) == r * 256);
        assert(be_value(rest) == v * 256 + rest.last());
        assert(be_value(all.drop_last()) == first * r + v);
        assert((first * r + v) * 256 == first * (r * 256) + v * 256) by (nonlinear_arith);
    }
}

/// Byte strings of one length are in the order of the numbers that they
/// stand for, and are equal where the numbers are.
pub proof fn lemma_be_value_order(a: Seq<u8>, b: Seq<u8>)
    requires
        a.len() == b.len(),
    ensures
        lexicographic(a, b) <==> be_value(a) < be_value(b),
        a == b <==> be_value(a) == be_value(b),
    decreases a.len(),
{
    if a.len() == 0 {
        assert(a =~= b);
    } else {
        let front_a = a.drop_last();
        let front_b = b.drop_last();
        lemma_be_value_order(front_a, front_b);
        let n = a.len() - 1;
        if lexicographic(a, b) {
            let k = choose|k: int|
                0 <= k < a.len() && #[trigger] a[k] < b[k] && forall|j: int|
                    0 <= j < k ==> a[j] == b[j];
            if k < n {
                assert(front_a[k] < front_b[k]);
                assert forall|j: int| 0 <= j < k implies front_a[j] == front_b[j] by {
                    assert(a[j] == b[j]);
                }
                assert(lexicographic(front_a, front_b));
            } else {
                assert(front_a =~= front_b) by {
                    assert forall|j: int| 0 <= j < n implies front_a[j] == front_b[j] by {
                        assert(a[j] == b[j]);
                    }
                }
            }
        }
        if be_value(a) < be_value(b) {
            if be_value(front_a) < be_value(front_b) {
                let k = choose|k: int|
                    0 <= k < front_a.len() && #[trigger] front_a[k] < front_b[k] && forall|j: int|
                        0 <= j < k ==> front_a[j] == front_b[j];
                assert(a[k] < b[k]);
                assert forall|j: int| 0 <= j < k implies a[j] == b[j] by {
                    assert(front_a[j] == front_b[j]);
                }
            } else {
                assert(be_value(front_a) == be_value(front_b));
                assert(a[n] < b[n]);
                assert forall|j: int| 0 <= j < n implies a[j] == b[j] by {
                    assert(front_a[j] == front_b[j]);
                }
            }
        }
        if be_value(a) == be_value(b) {
            assert(be_value(front_a) == be_value(front_b) && a.last() == b.last());
            assert(a =~= b) by {
                assert forall|j: int| 0 <= j < a.len() implies a[j] == b[j] by {
                    if j < n {
                        assert(front_a[j] == front_b[j]);
                    }
                }
            }
        }
    }
}

/// Sixteen bytes as a number, the first byte counting most.
fn half_from_bytes(bytes: &[u8; 32], from: usize) -> (v: u128)
    requires
        from == 0 || from == 16,
    ensures
        v == be_value(bytes@.subrange(from as int, from + 16)),
{
    let mut v: u128 = 0;
    let mut i: usize = 0;
    proof {
        assert(bytes@.subrange(from as int, from as int) =~= Seq::<u8>::empty());
    }
    while i < 16
        invariant
            i <= 16,
            from == 0 || from == 16,
            v == be_value(bytes@.subrange(from as int, from + i)),
        decreases 16 - i,
    {
        proof {
            let seen = bytes@.subrange(from as int, from + i);
            let more = bytes@.subrange(from as int, from + i + 1);
            lemma_be_value_bound(more);
            lemma_radix_16();
            assert(more.drop_last() =~= seen);
            assert(more.last() == bytes@[from + i]);
            assert(radix((i + 1) as nat) <= 0x1_0000_0000_0000_0000_0000_0000_0000_0000);
        }
        v = v * 256 + bytes[from + i] as u128;
        i += 1;
    }
    v
}

/// A number as sixteen bytes of `bytes`, the first byte counting most.
fn half_to_bytes(bytes: &mut [u8; 32], from: usize, value: u128)
    requires
        from == 0 || from == 16,
    ensures
        be_value(final(bytes)@.subrange(from as int, from + 16)) == value,
        forall|k: int|
            0 <= k < 32 && !(from <= k < from + 16) ==> final(bytes)@[k] == old(bytes)@[k],
{
    let mut rest: u128 = value;
    let mut i: usize = 16;
    proof {
        assert(bytes@.subrange(from + 16, from + 16) =~= Seq::<u8>::empty());
        assert(be_value(bytes@.subrange(from + 16, from + 16)) == 0);
        assert(radix(0) == 1);
        assert(rest * radix(0) == rest) by (nonlinear_arith)
            requires
                radix(0) == 1,
        ;
    }
    while i > 0
        invariant
            i <= 16,
            from == 0 || from == 16,
            rest * radix((16 - i) as nat) + be_value(bytes@.subrange(from + i, from + 16)) == value,
            forall|k: int| 0 <= k < 32 && !(from <= k < from + 16) ==> bytes@[k] == old(bytes)@[k],
        decreases i,
    {
        let ghost before = bytes@;
        let ghost tail = bytes@.subrange(from + i, from + 16);
        let byte = (rest % 256) as u8;
        bytes[from + i - 1] = byte;
        proof {
            let r = radix((16 - i) as nat);
            lemma_be_value_prepend(byte, tail);
            assert(bytes@.subrange(from + i - 1, from + 16) =~= seq![byte] + tail);
            assert(radix((16 - i + 1) as nat) == r * 256);
            assert((rest / 256) * (r * 256) + byte * r == rest * r) by (nonlinear_arith)
                requires
                    byte == rest % 256,
                    rest >= 0,
            ;
        }
        rest = rest / 256;
        i -= 1;
    }
    proof {
        lemma_radix_16();
        lemma_be_value_bound(bytes@.subrange(from as int, from + 16));
        assert(rest == 0) by (nonlinear_arith)
            requires
                rest >= 0,
                rest * 0x1_0000_0000_0000_0000_0000_0000_0000_0000 <= value,
                value < 0x1_0000_0000_0000_0000_0000_0000_0000_0000,
        ;
    }
}

/// Identifier of a changeset: a 256-bit content hash, held as two halves,
/// the high half first.
///
/// Two identifiers are equal when their bits are equal. Their order is the
/// order of the 32-byte strings they stand for, written big-endian.
#[derive(Clone, Copy, PartialEq, Eq, Structural, PartialOrd, Ord, Hash, Debug)]
pub struct ChangesetId {
    pub hi: u128,
    pub lo: u128,
}

impl ChangesetId {
    /// The order of identifiers: by the high half, then by the low half.
    pub open spec fn precedes(self, other: ChangesetId) -> bool {
        self.hi < other.hi || (self.hi == other.hi && self.lo < other.lo)
    }

    /// The identifier that 32 bytes stand for.
    pub open spec fn of_bytes(bytes: Seq<u8>) -> ChangesetId {
        ChangesetId {
            hi: be_value(bytes.subrange(0, 16)) as u128,
            lo: be_value(bytes.subrange(16, 32)) as u128,
        }
    }

    /// The identifier that the bytes stand for.
    pub fn from_bytes(bytes: &[u8; 32]) -> (id: ChangesetId)
        ensures
            id == ChangesetId::of_bytes(bytes@),
    {
        ChangesetId { hi: half_from_bytes(bytes, 0), lo: half_from_bytes(bytes, 16) }
    }

    /// The bytes of the identifier.
    pub fn to_bytes(&self) -> (bytes: [u8; 32])
        ensures
            ChangesetId::of_bytes(bytes@) == *self,
    {
        let mut bytes = [0u8;32];
        half_to_bytes(&mut bytes, 0, self.hi);
        let ghost first = bytes@;
        half_to_bytes(&mut bytes, 16, self.lo);
        proof {
            assert(bytes@.subrange(0, 16) =~= first.subrange(0, 16));
        }
        bytes
    }

    /// Makes the identifier with the given halves.
    pub fn new(hi: u128, lo: u128) -> (id: ChangesetId)
        ensures
            id == (ChangesetId { hi, lo }),
    {
        ChangesetId { hi, lo }
    }

    /// Whether `self` comes strictly before `other`.
    pub fn lt(&self, other: &ChangesetId) -> (r: bool)
        ensures
            r == self.precedes(*other),
    {
        self.hi < other.hi || (self.hi == other.hi && self.lo < other.lo)
    }
}

/// A prefix of an identifier: it stands for the identifiers from `min`,
/// the prefix filled up with zero bits, to `max`, the prefix filled up with
/// one bits.
#[derive(Clone, Copy, PartialEq, Eq, Structural, Hash, Debug)]
pub struct ChangesetIdPrefix {
    pub min: ChangesetId,
    pub max: ChangesetId,
}

impl ChangesetIdPrefix {
    /// Whether `id` begins with the prefix.
    pub open spec fn covers(self, id: ChangesetId) -> bool {
        !id.precedes(self.min) && !self.max.precedes(id)
    }

    /// The prefix for the identifiers from `min` to `max`.
    pub fn new(min: ChangesetId, max: ChangesetId) -> (prefix: ChangesetIdPrefix)
        ensures
            prefix == (ChangesetIdPrefix { min, max }),
    {
        ChangesetIdPrefix { min, max }
    }

    /// Whether `id` begins with the prefix.
    pub fn matches(&self, id: &ChangesetId) -> (r: bool)
        ensures
            r == self.covers(*id),
    {
        !id.lt(&self.min) && !self.max.lt(id)
    }
}

/// The changesets whose identifiers begin with a prefix, as far as they
/// were asked for.
#[derive(Debug, PartialEq, Eq)]
pub enum ChangesetIdsResolvedFromPrefix {
    /// No changeset has the prefix.
    NoMatch,
    /// One changeset has the prefix.
    Single(ChangesetId),
    /// Several changesets have the prefix, and not more than were asked for.
    Multiple(Vec<ChangesetId>),
    /// More changesets have the prefix than were asked for; these are as
    /// many of them as were.
    TooMany(Vec<ChangesetId>),
}

/// Generation number of a changeset: 1 for a root, and one more than the
/// highest generation among the parents for any other changeset.
#[derive(Clone, Copy, PartialEq, Eq, Structural, PartialOrd, Ord, Hash, Debug)]
pub struct Generation(pub u64);

impl Generation {
    /// The generation with the given number.
    pub fn new(value: u64) -> (g: Generation)
        ensures
            g.0 == value,
    {
        Generation(value)
    }

    /// The number of the generation.
    pub fn value(&self) -> (v: u64)
        ensures
            v == self.0,
    {
        self.0
    }
}

/// A changeset together with its generation.
#[derive(Clone, Copy, PartialEq, Eq, Structural, Hash, Debug)]
pub struct ChangesetNode {
    pub cs_id: ChangesetId,
    pub generation: Generation,
}

impl ChangesetNode {
    /// The changeset with its generation.
    pub fn new(cs_id: ChangesetId, generation: Generation) -> (n: ChangesetNode)
        ensures
            n == (ChangesetNode { cs_id, generation }),
    {
        ChangesetNode { cs_id, generation }
    }

    /// The order in which a frontier keeps its nodes: by generation, then by
    /// identifier.
    pub open spec fn precedes(self, other: ChangesetNode) -> bool {
        self.generation.0 < other.generation.0 || (self.generation.0 == other.generation.0
            && self.cs_id.precedes(other.cs_id))
    }

    /// Whether `self` comes strictly before `other` in frontier order.
    pub fn lt(&self, other: &ChangesetNode) -> (r: bool)
        ensures
            r == self.precedes(*other),
    {
        self.generation.0 < other.generation.0 || (self.generation.0 == other.generation.0
            && self.cs_id.lt(&other.cs_id))
    }
}

/// The parents of a changeset, first parent first.
pub type ChangesetParents = Vec<ChangesetId>;

/// What the store keeps for one changeset.
#[derive(Debug)]
pub struct ChangesetEdges {
    /// The changeset itself.
    pub node: ChangesetNode,
    /// Its parents in order, each with its generation.
    pub parents: Vec<ChangesetNode>,
    /// A strict ancestor on the first-parent line, used as a long jump.
    pub skip_tree_skew_ancestor: Option<ChangesetNode>,
}

/// The mathematical content of a `ChangesetEdges`.
pub struct EdgesView {
    pub node: ChangesetNode,
    pub parents: Seq<ChangesetNode>,
    pub skip_tree_skew_ancestor: Option<ChangesetNode>,
}

impl View for ChangesetEdges {
    type V = EdgesView;

    open spec fn view(&self) -> EdgesView {
        EdgesView {
            node: self.node,
            parents: self.parents@,
            skip_tree_skew_ancestor: self.skip_tree_skew_ancestor,
        }
    }
}

impl Clone for ChangesetEdges {
    fn clone(&self) -> (copy: ChangesetEdges)
        ensures
            copy@ == self@,
    {
        let mut parents: Vec<ChangesetNode> = Vec::new();
        let mut i: usize = 0;
        while i < self.parents.len()
            invariant
                i <= self.parents.len(),
                parents@ == self.parents@.subrange(0, i as int),
            decreases self.parents.len() - i,
        {
            parents.push(self.parents[i]);
            i += 1;
        }
        assert(parents@ == self.parents@);
        ChangesetEdges {
            node: self.node,
            parents,
            skip_tree_skew_ancestor: self.skip_tree_skew_ancestor,
        }
    }
}

} // verus!
