//! Sets of node ids, their lists and their masks.

use std::collections::BTreeSet;
use vstd::prelude::*;

verus! {

broadcast use vstd::std_specs::btree::group_btree_axioms;

/// Highest node id plus one: a mask has one bit per node id.
pub const MAX_NODES: u16 = 64;

/// The ids of a set that are at least `from`, in ascending order.
pub open spec fn listed(set: Set<u16>, from: nat) -> Seq<u16>
    decreases MAX_NODES - from,
{
    if from >= MAX_NODES {
        Seq::empty()
    } else if set.contains(from as u16) {
        seq![from as u16] + listed(set, from + 1)
    } else {
        listed(set, from + 1)
    }
}

/// The node ids of a set in ascending order.
pub open spec fn ascending(set: Set<u16>) -> Seq<u16> {
    listed(set, 0)
}

/// Every id of the set is a node id.
pub open spec fn are_nodes(set: Set<u16>) -> bool {
    forall|n: u16| set.contains(n) ==> n < MAX_NODES
}

/// A list from `from` on holds the ids of the set, each once and in ascending order.
pub proof fn lemma_listed(set: Set<u16>, from: nat)
    ensures
        forall|n: u16| #[trigger]
            listed(set, from).contains(n) <==> set.contains(n) && from <= n < MAX_NODES,
        forall|i: int, j: int|
            0 <= i < j < listed(set, from).len() ==> listed(set, from)[i] < listed(set, from)[j],
    decreases MAX_NODES - from,
{
    if from < MAX_NODES {
        lemma_listed(set, from + 1);
        let rest = listed(set, from + 1);
        let all = listed(set, from);
        if set.contains(from as u16) {
            assert(all[0] == from as u16);
            assert forall|i: int| 0 <= i < rest.len() implies rest[i] > from by {
                assert(rest.contains(rest[i]));
            }
            assert forall|n: u16| all.contains(n) implies set.contains(n) && from <= n
                < MAX_NODES by {
                let i = choose|i: int| 0 <= i < all.len() && all[i] == n;
                if i > 0 {
                    assert(rest[i - 1] == n);
                    assert(rest.contains(n));
                }
            }
            assert forall|n: u16| set.contains(n) && from <= n < MAX_NODES implies all.contains(
                n,
            ) by {
                if n > from {
                    assert(rest.contains(n));
                    let i = choose|i: int| 0 <= i < rest.len() && rest[i] == n;
                    assert(all[i + 1] == n);
                }
            }
        }
    }
}

/// A list of a set of node ids names the ids of the set, each once and in ascending order.
pub proof fn law_ascending_lists_the_set(set: Set<u16>)
    requires
        are_nodes(set),
    ensures
        ascending(set).to_set() == set,
        forall|i: int, j: int|
            0 <= i < j < ascending(set).len() ==> ascending(set)[i] < ascending(set)[j],
{
    lemma_listed(set, 0);
    assert(ascending(set).to_set() =~= set);
}

/// The node ids of a set in ascending order.
pub fn ids_of(set: &BTreeSet<u16>) -> (ids: Vec<u16>)
    ensures
        ids@ == ascending(set@),
{
    let mut ids: Vec<u16> = Vec::new();
    let mut n: u16 = 0;
    while n < MAX_NODES
        invariant
            n <= MAX_NODES,
            ids@ + listed(set@, n as nat) == ascending(set@),
        decreases MAX_NODES - n,
    {
        if set.contains(&n) {
            assert(ids@.push(n) + listed(set@, (n + 1) as nat) =~= ids@ + listed(set@, n as nat));
            ids.push(n);
        }
        n += 1;
    }
    assert(ids@ + Seq::<u16>::empty() =~= ids@);
    ids
}

/// The set of the ids of a list.
pub fn set_of(ids: &[u16]) -> (set: BTreeSet<u16>)
    ensures
        set@ == ids@.to_set(),
{
    let mut set: BTreeSet<u16> = BTreeSet::new();
    let mut i: usize = 0;
    while i < ids.len()
        invariant
            i <= ids.len(),
            set@ == ids@.take(i as int).to_set(),
        decreases ids.len() - i,
    {
        let ghost before = ids@.take(i as int);
        assert(ids@.take(i + 1) =~= before.push(ids@[i as int]));
        assert(before.push(ids@[i as int]).to_set() =~= before.to_set().insert(ids@[i as int]))
            by {
            let pushed = before.push(ids@[i as int]);
            assert forall|n: u16| before.to_set().insert(ids@[i as int]).contains(n) implies
                pushed.contains(n) by {
                if before.contains(n) {
                    let k = choose|k: int| 0 <= k < before.len() && before[k] == n;
                    assert(pushed[k] == n);
                } else {
                    assert(pushed[before.len() as int] == n);
                }
            }
        }
        set.insert(ids[i]);
        i += 1;
    }
    assert(ids@.take(i as int) =~= ids@);
    assert(set@ =~= ids@.to_set());
    set
}

/// The mask with the bits of the ids of the set below `n`.
pub open spec fn mask_below(set: Set<u16>, n: nat) -> u64
    decreases n,
{
    if n == 0 {
        0
    } else {
        let below = mask_below(set, (n - 1) as nat);
        if set.contains((n - 1) as u16) {
            below | (1u64 << (n - 1) as u64)
        } else {
            below
        }
    }
}

/// The mask with one bit for each node id of the set.
pub open spec fn mask(set: Set<u16>) -> u64 {
    mask_below(set, MAX_NODES as nat)
}

/// Whether bit `n` of a mask is set.
pub open spec fn has_bit(mask: u64, n: u64) -> bool {
    (mask >> n) & 1 == 1
}

proof fn lemma_mask_bits(set: Set<u16>, n: nat, k: u16)
    requires
        n <= MAX_NODES,
        k < MAX_NODES,
    ensures
        has_bit(mask_below(set, n), k as u64) <==> k < n && set.contains(k),
    decreases n,
{
    let kk = k as u64;
    if n == 0 {
        assert((0u64 >> kk) & 1 != 1) by (bit_vector);
    } else {
        lemma_mask_bits(set, (n - 1) as nat, k);
        let below = mask_below(set, (n - 1) as nat);
        let at = (n - 1) as u64;
        assert(((below | (1u64 << at)) >> kk) & 1 == if kk == at {
            1
        } else {
            (below >> kk) & 1
        }) by (bit_vector)
            requires
                at < 64,
                kk < 64,
        ;
    }
}

/// A mask has exactly the bits of the node ids of its set.
pub proof fn law_mask_has_one_bit_per_node(set: Set<u16>, n: u16)
    requires
        n < MAX_NODES,
    ensures
        has_bit(mask(set), n as u64) <==> set.contains(n),
{
    lemma_mask_bits(set, MAX_NODES as nat, n);
}

/// The mask with one bit for each node of the set.
pub fn mask_of(nodes: &BTreeSet<u16>) -> (m: u64)
    requires
        are_nodes(nodes@),
    ensures
        m == mask(nodes@),
{
    let mut m: u64 = 0;
    let mut n: u16 = 0;
    while n < MAX_NODES
        invariant
            n <= MAX_NODES,
            m == mask_below(nodes@, n as nat),
        decreases MAX_NODES - n,
    {
        if nodes.contains(&n) {
            m = m | (1u64 << n as u64);
        }
        n += 1;
    }
    m
}

/// How many node ids a short mask has a bit for.
pub const SHORT_MASK_NODES: u16 = 32;

/// A mask of the ids below `n` has no bit from `n` on.
proof fn lemma_mask_below_is_small(set: Set<u16>, n: nat)
    requires
        n <= SHORT_MASK_NODES,
    ensures
        mask_below(set, n) < 1u64 << (n as u64),
    decreases n,
{
    if n == 0 {
        assert(0u64 < 1u64 << 0u64) by (bit_vector);
    } else {
        lemma_mask_below_is_small(set, (n - 1) as nat);
        let below = mask_below(set, (n - 1) as nat);
        let at = (n - 1) as u64;
        let next = n as u64;
        assert(below < 1u64 << next && (below | (1u64 << at)) < 1u64 << next) by (bit_vector)
            requires
                below < 1u64 << at,
                at < 32,
                next == at + 1,
        ;
    }
}

/// The short mask with one bit for each id of the list that it has a bit for, and whether
/// there are ids that it has none for.
pub fn short_mask_of(ids: &[u16]) -> (out: (u32, bool))
    ensures
        out.0 as u64 == mask_below(ids@.to_set(), SHORT_MASK_NODES as nat),
        out.1 == exists|i: int| 0 <= i < ids@.len() && ids@[i] >= SHORT_MASK_NODES,
{
    let set = set_of(ids);
    let mut m: u64 = 0;
    let mut n: u16 = 0;
    while n < SHORT_MASK_NODES
        invariant
            n <= SHORT_MASK_NODES,
            m == mask_below(set@, n as nat),
        decreases SHORT_MASK_NODES - n,
    {
        if set.contains(&n) {
            m = m | (1u64 << n as u64);
        }
        n += 1;
    }
    let mut high: bool = false;
    let mut i: usize = 0;
    while i < ids.len()
        invariant
            i <= ids.len(),
            high == exists|k: int| 0 <= k < i && ids@[k] >= SHORT_MASK_NODES,
        decreases ids.len() - i,
    {
        if ids[i] >= SHORT_MASK_NODES {
            high = true;
        }
        i += 1;
    }
    proof {
        lemma_short_mask_is_short(set@);
    }
    (m as u32, high)
}

/// A short mask has exactly the bits of the ids of its set that it has a bit for.
pub proof fn law_short_mask_has_one_bit_per_node(set: Set<u16>, n: u16)
    requires
        n < SHORT_MASK_NODES,
    ensures
        has_bit(mask_below(set, SHORT_MASK_NODES as nat), n as u64) <==> set.contains(n),
{
    lemma_mask_bits(set, SHORT_MASK_NODES as nat, n);
}

/// A short mask is a number of 32 bits.
pub proof fn lemma_short_mask_is_short(set: Set<u16>)
    ensures
        mask_below(set, SHORT_MASK_NODES as nat) <= u32::MAX,
{
    lemma_mask_below_is_small(set, SHORT_MASK_NODES as nat);
    assert(1u64 << 32u64 == 0x1_0000_0000u64) by (bit_vector);
}

} // verus!
