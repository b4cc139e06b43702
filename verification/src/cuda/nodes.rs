//! What the nodes of a graph are.

use vstd::prelude::*;

use crate::sort::{pairs_in_order, sort_pairs};

verus! {

/// How often a kind occurs.
pub open spec fn occurrences(kinds: Seq<u32>, kind: u32) -> nat
    decreases kinds.len(),
{
    if kinds.len() == 0 {
        0
    } else {
        occurrences(kinds.drop_last(), kind) + if kinds.last() == kind {
            1nat
        } else {
            0
        }
    }
}

/// A kind occurs at most as often as there are nodes, and not at all exactly if it is none of
/// theirs.
pub proof fn lemma_occurrences(kinds: Seq<u32>, kind: u32)
    ensures
        occurrences(kinds, kind) <= kinds.len(),
        occurrences(kinds, kind) > 0 <==> kinds.contains(kind),
    decreases kinds.len(),
{
    if kinds.len() > 0 {
        lemma_occurrences(kinds.drop_last(), kind);
        if kinds.drop_last().contains(kind) {
            let i = choose|i: int| 0 <= i < kinds.drop_last().len() && kinds.drop_last()[i] == kind;
            assert(kinds[i] == kind);
        }
        if kinds.contains(kind) && kinds.last() != kind {
            let i = choose|i: int| 0 <= i < kinds.len() && kinds[i] == kind;
            assert(kinds.drop_last()[i] == kind);
        }
    }
}

/// Whether these are the kinds that occur, each with how often, in increasing order.
pub open spec fn is_tally(tally: Seq<(u32, usize)>, kinds: Seq<u32>) -> bool {
    &&& forall|i: int, j: int|
        0 <= i < j < tally.len() ==> (#[trigger] tally[i]).0 < (#[trigger] tally[j]).0
    &&& forall|i: int|
        0 <= i < tally.len() ==> (#[trigger] tally[i]).1 > 0 && tally[i].1 == occurrences(
            kinds,
            tally[i].0,
        )
    &&& forall|kind: u32| #[trigger] kinds.contains(kind) ==> tallied(tally, kind)
}

/// Whether a kind is in a tally.
pub open spec fn tallied(tally: Seq<(u32, usize)>, kind: u32) -> bool {
    exists|i: int| 0 <= i < tally.len() && (#[trigger] tally[i]).0 == kind
}

/// The kinds of nodes that a graph has, each with how many nodes, in increasing order.
pub fn node_kinds(kinds: &Vec<u32>) -> (r: Vec<(u32, usize)>)
    ensures
        is_tally(r@, kinds@),
{
    let mut r: Vec<(u32, usize)> = Vec::new();
    let mut n: usize = 0;
    while n < kinds.len()
        invariant
            n <= kinds.len(),
            is_tally(r@, kinds@.take(n as int)),
        decreases kinds.len() - n,
    {
        let kind: u32 = kinds[n];
        let ghost before = kinds@.take(n as int);
        let ghost after = kinds@.take(n + 1);
        let ghost was = r@;
        proof {
            assert(after.drop_last() =~= before);
            assert(after.last() == kind);
            lemma_occurrences(before, kind);
            assert forall|k: u32| #[trigger] after.contains(k) implies k == kind
                || before.contains(k) by {
                let i = choose|i: int| 0 <= i < after.len() && after[i] == k;
                if i < n {
                    assert(before[i] == k);
                }
            }
        }
        let mut at: usize = 0;
        while at < r.len() && r[at].0 < kind
            invariant
                at <= r.len(),
                r@ == was,
                forall|i: int| 0 <= i < at ==> (#[trigger] r@[i]).0 < kind,
            decreases r.len() - at,
        {
            at += 1;
        }
        if at < r.len() && r[at].0 == kind {
            let count: usize = r[at].1;
            proof {
                lemma_occurrences(after, kind);
            }
            r.set(at, (kind, count + 1));
            proof {
                assert(r@[at as int].0 == was[at as int].0);
                assert forall|k: u32| #[trigger] after.contains(k) implies tallied(r@, k) by {
                    if k == kind {
                        assert(r@[at as int].0 == k);
                    } else {
                        assert(tallied(was, k));
                        let i = choose|i: int| 0 <= i < was.len() && (#[trigger] was[i]).0 == k;
                        assert(r@[i].0 == k);
                    }
                }
            }
        } else {
            r.insert(at, (kind, 1));
            proof {
                assert(forall|i: int|
                    0 <= i < was.len() ==> (#[trigger] was[i]).0 != kind) by {
                    assert forall|i: int| 0 <= i < was.len() implies (#[trigger] was[i]).0
                        != kind by {
                        if i > at {
                            assert(was[at as int].0 < was[i].0);
                        }
                    }
                }
                if before.contains(kind) {
                    assert(tallied(was, kind));
                }
                assert forall|k: u32| #[trigger] after.contains(k) implies tallied(r@, k) by {
                    if k == kind {
                        assert(r@[at as int].0 == k);
                    } else {
                        assert(tallied(was, k));
                        let i = choose|i: int| 0 <= i < was.len() && (#[trigger] was[i]).0 == k;
                        if i < at {
                            assert(r@[i].0 == k);
                        } else {
                            assert(r@[i + 1].0 == k);
                        }
                    }
                }
            }
        }
        n += 1;
    }
    assert(kinds@.take(n as int) =~= kinds@);
    r
}

/// The nodes of a kind, in order.
pub open spec fn of_kind(nodes: Seq<(u64, u32)>, kind: u32) -> Seq<u64>
    decreases nodes.len(),
{
    if nodes.len() == 0 {
        Seq::empty()
    } else if nodes.last().1 == kind {
        of_kind(nodes.drop_last(), kind).push(nodes.last().0)
    } else {
        of_kind(nodes.drop_last(), kind)
    }
}

/// The nodes of a kind, in order.
pub fn nodes_of_kind(nodes: &Vec<(u64, u32)>, kind: u32) -> (r: Vec<u64>)
    ensures
        r@ == of_kind(nodes@, kind),
{
    let mut r: Vec<u64> = Vec::new();
    let mut i: usize = 0;
    assert(nodes@.take(0) =~= Seq::<(u64, u32)>::empty());
    while i < nodes.len()
        invariant
            i <= nodes.len(),
            r@ == of_kind(nodes@.take(i as int), kind),
        decreases nodes.len() - i,
    {
        proof {
            assert(nodes@.take(i + 1).drop_last() =~= nodes@.take(i as int));
            assert(nodes@.take(i + 1).last() == nodes@[i as int]);
        }
        if nodes[i].1 == kind {
            r.push(nodes[i].0);
        }
        i += 1;
    }
    assert(nodes@.take(i as int) =~= nodes@);
    r
}

/// The regions that a graph allocates, by address and then by size.
pub fn alloc_regions(regions: Vec<(u64, u64)>) -> (r: Vec<(u64, u64)>)
    ensures
        r@.to_multiset() == regions@.to_multiset(),
        pairs_in_order(r@),
{
    let mut r: Vec<(u64, u64)> = regions;
    sort_pairs(&mut r);
    r
}

/// A copy that a graph makes, as the driver reports it. Of the two addresses of each side one
/// is zero.
#[derive(Clone, Copy, Debug, PartialEq, Eq)]
pub struct MemcpyNode {
    pub src_device: u64,
    pub src_host: u64,
    pub dst_device: u64,
    pub dst_host: u64,
    pub width: u64,
    pub height: u64,
    pub depth: u64,
    pub src_memory_type: u32,
}

/// A copy: from where, to where, how many bytes, and out of what memory.
pub type MemcpySpec = (u64, u64, u64, u32);

/// The larger of two numbers.
pub open spec fn larger(a: u64, b: u64) -> u64 {
    if a >= b {
        a
    } else {
        b
    }
}

impl MemcpyNode {
    /// How many bytes are copied. A height or depth of zero counts as one.
    pub open spec fn bytes(self) -> int {
        self.width * larger(self.height, 1) * larger(self.depth, 1)
    }

    /// What is copied.
    pub open spec fn told(self) -> MemcpySpec {
        (
            larger(self.src_device, self.src_host),
            larger(self.dst_device, self.dst_host),
            self.bytes() as u64,
            self.src_memory_type,
        )
    }
}

/// The larger of two numbers.
fn max_of(a: u64, b: u64) -> (r: u64)
    ensures
        r == larger(a, b),
{
    if a >= b {
        a
    } else {
        b
    }
}

/// Whether one copy is at most another: by where from, where to, how much, and what memory.
pub open spec fn at_most(a: MemcpySpec, b: MemcpySpec) -> bool {
    a.0 < b.0 || (a.0 == b.0 && (a.1 < b.1 || (a.1 == b.1 && (a.2 < b.2 || (a.2 == b.2 && a.3
        <= b.3)))))
}

/// Whether one copy is at most another.
fn is_at_most(a: &MemcpySpec, b: &MemcpySpec) -> (r: bool)
    ensures
        r == at_most(*a, *b),
{
    if a.0 != b.0 {
        a.0 < b.0
    } else if a.1 != b.1 {
        a.1 < b.1
    } else if a.2 != b.2 {
        a.2 < b.2
    } else {
        a.3 <= b.3
    }
}

/// Whether copies are in order.
pub open spec fn specs_in_order(specs: Seq<MemcpySpec>) -> bool {
    forall|i: int, j: int|
        0 <= i < j < specs.len() ==> at_most(#[trigger] specs[i], #[trigger] specs[j])
}

/// What these copies are.
pub open spec fn all_told(nodes: Seq<MemcpyNode>) -> Seq<MemcpySpec> {
    nodes.map_values(|node: MemcpyNode| node.told())
}

/// Puts a copy in its place.
fn insert_spec(specs: &mut Vec<MemcpySpec>, spec: MemcpySpec)
    requires
        specs_in_order(old(specs)@),
    ensures
        specs_in_order(final(specs)@),
        final(specs)@.to_multiset() == old(specs)@.to_multiset().insert(spec),
{
    let ghost was = specs@;
    let mut at: usize = 0;
    while at < specs.len() && is_at_most(&specs[at], &spec)
        invariant
            at <= specs.len(),
            specs@ == was,
            forall|i: int| 0 <= i < at ==> at_most(#[trigger] specs@[i], spec),
        decreases specs.len() - at,
    {
        at += 1;
    }
    specs.insert(at, spec);
    proof {
        broadcast use vstd::seq_lib::group_to_multiset_ensures;

        assert forall|i: int, j: int| 0 <= i < j < specs@.len() implies at_most(
            #[trigger] specs@[i],
            #[trigger] specs@[j],
        ) by {
            if i == at {
                assert(specs@[j] == was[j - 1]);
                assert(j - 1 > at ==> at_most(was[at as int], was[j - 1]));
            } else if j > at {
                let a = if i < at {
                    i
                } else {
                    i - 1
                };
                assert(specs@[i] == was[a]);
                if j > at && j != at {
                    assert(specs@[j] == was[j - 1]);
                }
            }
        }
        assert(specs@ == was.insert(at as int, spec));
    }
}

/// The copies that a graph makes, in order.
pub fn memcpy_specs(nodes: &Vec<MemcpyNode>) -> (r: Vec<MemcpySpec>)
    requires
        forall|i: int| 0 <= i < nodes@.len() ==> (#[trigger] nodes@[i]).bytes() <= u64::MAX,
    ensures
        r@.to_multiset() == all_told(nodes@).to_multiset(),
        specs_in_order(r@),
{
    let mut r: Vec<MemcpySpec> = Vec::new();
    let mut i: usize = 0;
    assert(all_told(nodes@.take(0)) =~= r@);
    while i < nodes.len()
        invariant
            i <= nodes.len(),
            forall|i: int| 0 <= i < nodes@.len() ==> (#[trigger] nodes@[i]).bytes() <= u64::MAX,
            r@.to_multiset() == all_told(nodes@.take(i as int)).to_multiset(),
            specs_in_order(r@),
        decreases nodes.len() - i,
    {
        let node: MemcpyNode = nodes[i];
        let height: u64 = max_of(node.height, 1);
        let depth: u64 = max_of(node.depth, 1);
        proof {
            assert(node == nodes@[i as int]);
            let w = node.width as int;
            let h = height as int;
            let d = depth as int;
            assert(0 <= w * h <= w * h * d) by (nonlinear_arith)
                requires
                    w >= 0,
                    h >= 1,
                    d >= 1,
            ;
        }
        let bytes: u64 = node.width * height * depth;
        insert_spec(
            &mut r,
            (
                max_of(node.src_device, node.src_host),
                max_of(node.dst_device, node.dst_host),
                bytes,
                node.src_memory_type,
            ),
        );
        proof {
            broadcast use vstd::seq_lib::group_to_multiset_ensures;

            assert(all_told(nodes@.take(i + 1)) =~= all_told(nodes@.take(i as int)).push(
                node.told(),
            ));
        }
        i += 1;
    }
    assert(nodes@.take(i as int) =~= nodes@);
    r
}

} // verus!
