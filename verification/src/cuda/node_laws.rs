//! How the nodes of a graph are counted and listed.

use vstd::prelude::*;

use crate::cuda::nodes::{
    all_told, alloc_regions, memcpy_specs, node_kinds, nodes_of_kind, occurrences, MemcpyNode,
    MemcpySpec,
};
use crate::cuda::words::{cube_count_of, dynamic_cube_count, CubeCountError};

verus! {

/// Kinds are listed once each, in increasing order. One more node counts one more for its own
/// kind, which is listed with one if it was not listed, and changes no other.
pub proof fn law_one_more_node_counts_for_its_kind(
    kinds: Vec<u32>,
    more: Vec<u32>,
    r: Vec<(u32, usize)>,
    s: Vec<(u32, usize)>,
    i: int,
    j: int,
)
    requires
        more@.len() == kinds@.len() + 1,
        more@.drop_last() == kinds@,
        call_ensures(node_kinds, (&kinds,), r),
        call_ensures(node_kinds, (&more,), s),
    ensures
        0 <= i < j < r@.len() ==> r@[i].0 < r@[j].0,
        kinds@.len() == 0 ==> r@.len() == 0,
        0 <= i < r@.len() && 0 <= j < s@.len() && r@[i].0 == s@[j].0 ==> s@[j].1 == r@[i].1 + (
        if s@[j].0 == more@.last() {
            1int
        } else {
            0
        }),
        0 <= j < s@.len() && (forall|k: int| 0 <= k < r@.len() ==> (#[trigger] r@[k]).0 != s@[j].0)
            ==> s@[j] == (more@.last(), 1usize),
        0 <= i < r@.len() ==> exists|k: int| 0 <= k < s@.len() && (#[trigger] s@[k]).0 == r@[i].0,
        exists|k: int| 0 <= k < s@.len() && (#[trigger] s@[k]).0 == more@.last(),
{
    let last = more@.last();
    assert(more@[more@.len() - 1] == last);
    assert(more@.contains(last));
    assert(crate::cuda::nodes::tallied(s@, last));
    if kinds@.len() == 0 && r@.len() > 0 {
        assert(r@[0].1 == occurrences(kinds@, r@[0].0));
    }
    if 0 <= j < s@.len() {
        let kind = s@[j].0;
        assert(s@[j].1 == occurrences(more@, kind));
        if forall|k: int| 0 <= k < r@.len() ==> (#[trigger] r@[k]).0 != kind {
            if kinds@.contains(kind) {
                assert(crate::cuda::nodes::tallied(r@, kind));
            }
            crate::cuda::nodes::lemma_occurrences(kinds@, kind);
        }
    }
    if 0 <= i < r@.len() {
        let kind = r@[i].0;
        assert(r@[i].1 == occurrences(kinds@, kind));
        crate::cuda::nodes::lemma_occurrences(kinds@, kind);
        let k = choose|k: int| 0 <= k < kinds@.len() && kinds@[k] == kind;
        assert(more@.drop_last()[k] == more@[k]);
        assert(more@.contains(kind));
        assert(crate::cuda::nodes::tallied(s@, kind));
    }
}

/// One more node is listed behind the others of its kind, and among no others.
pub proof fn law_one_more_node_is_listed_last(
    nodes: Vec<(u64, u32)>,
    more: Vec<(u64, u32)>,
    kind: u32,
    r: Vec<u64>,
    s: Vec<u64>,
)
    requires
        more@.len() == nodes@.len() + 1,
        more@.drop_last() == nodes@,
        call_ensures(nodes_of_kind, (&nodes, kind), r),
        call_ensures(nodes_of_kind, (&more, kind), s),
    ensures
        nodes@.len() == 0 ==> r@.len() == 0,
        more@.last().1 == kind ==> s@ == r@.push(more@.last().0),
        more@.last().1 != kind ==> s@ == r@,
{
}

/// The regions that a graph allocates are those that it reports, by increasing address, and by
/// increasing size where the address is the same.
pub proof fn law_regions_are_sorted(
    regions: Vec<(u64, u64)>,
    r: Vec<(u64, u64)>,
    i: int,
    j: int,
)
    requires
        call_ensures(alloc_regions, (regions,), r),
    ensures
        r@.to_multiset() == regions@.to_multiset(),
        0 <= i < j < r@.len() ==> r@[i].0 <= r@[j].0,
        0 <= i < j < r@.len() && r@[i].0 == r@[j].0 ==> r@[i].1 <= r@[j].1,
{
}

/// Whether a copy is that of a node: between the addresses that are not zero, of all bytes of
/// its rows and layers, where no rows and no layers count as one.
pub open spec fn copies(node: MemcpyNode, spec: MemcpySpec) -> bool {
    let rows: int = if node.height == 0 {
        1
    } else {
        node.height as int
    };
    let layers: int = if node.depth == 0 {
        1
    } else {
        node.depth as int
    };
    &&& node.src_device == 0 || node.src_host == 0 ==> spec.0 == node.src_device + node.src_host
    &&& node.dst_device == 0 || node.dst_host == 0 ==> spec.1 == node.dst_device + node.dst_host
    &&& spec.2 == node.width * rows * layers
    &&& spec.3 == node.src_memory_type
}

/// There is one copy for each node that makes one, between the addresses of the node and of
/// its bytes. Copies are sorted by where they come from, where they go, how much and out of
/// what memory.
pub proof fn law_copies_are_those_of_the_nodes(
    nodes: Vec<MemcpyNode>,
    r: Vec<MemcpySpec>,
    n: int,
    i: int,
    j: int,
)
    requires
        forall|i: int| 0 <= i < nodes@.len() ==> (#[trigger] nodes@[i]).bytes() <= u64::MAX,
        call_ensures(memcpy_specs, (&nodes,), r),
    ensures
        r@.len() == nodes@.len(),
        0 <= n < nodes@.len() ==> exists|k: int|
            0 <= k < r@.len() && copies(nodes@[n], #[trigger] r@[k]),
        0 <= i < r@.len() ==> exists|k: int|
            0 <= k < nodes@.len() && copies(#[trigger] nodes@[k], r@[i]),
        0 <= i < j < r@.len() ==> r@[i].0 <= r@[j].0,
        0 <= i < j < r@.len() && r@[i].0 == r@[j].0 ==> r@[i].1 <= r@[j].1,
        0 <= i < j < r@.len() && r@[i].0 == r@[j].0 && r@[i].1 == r@[j].1 ==> r@[i].2 <= r@[j].2,
        0 <= i < j < r@.len() && r@[i].0 == r@[j].0 && r@[i].1 == r@[j].1 && r@[i].2 == r@[j].2
            ==> r@[i].3 <= r@[j].3,
{
    broadcast use vstd::seq_lib::group_to_multiset_ensures;

    let told = all_told(nodes@);
    assert(told.len() == nodes@.len());
    assert(r@.to_multiset().len() == told.to_multiset().len());
    if 0 <= n < nodes@.len() {
        lemma_copies(nodes@[n]);
        assert(told[n] == nodes@[n].told());
        assert(told.contains(told[n]));
        assert(r@.to_multiset().count(told[n]) > 0);
        assert(r@.contains(told[n]));
        let k = choose|k: int| 0 <= k < r@.len() && r@[k] == told[n];
        assert(copies(nodes@[n], r@[k]));
    }
    if 0 <= i < r@.len() {
        assert(r@.contains(r@[i]));
        assert(told.to_multiset().count(r@[i]) > 0);
        assert(told.contains(r@[i]));
        let k = choose|k: int| 0 <= k < told.len() && told[k] == r@[i];
        lemma_copies(nodes@[k]);
        assert(told[k] == nodes@[k].told());
        assert(copies(nodes@[k], r@[i]));
    }
}

proof fn lemma_copies(node: MemcpyNode)
    requires
        node.bytes() <= u64::MAX,
    ensures
        copies(node, node.told()),
{
    let h = crate::cuda::nodes::larger(node.height, 1) as int;
    let d = crate::cuda::nodes::larger(node.depth, 1) as int;
    let w = node.width as int;
    assert(0 <= w * h * d) by (nonlinear_arith)
        requires
            0 <= w,
            0 <= h,
            0 <= d,
    ;
}

/// Three words are the number of cubes in x, y and z, and no other number of words is.
pub proof fn law_cubes_are_three_words(
    words: Vec<u32>,
    r: Result<(u32, u32, u32), CubeCountError>,
)
    requires
        call_ensures(cube_count_of, (&words,), r),
    ensures
        r is Ok <==> words@.len() == 3,
        r matches Ok(count) ==> count.0 == words@[0] && count.1 == words@[1] && count.2 == words@[2],
        r matches Err(error) ==> error == (CubeCountError::Length { words: words@.len() as usize }),
{
}

/// Whether four bytes are those of a word, from the lowest on or from the highest on.
pub open spec fn word_at(bytes: Seq<u8>, at: int, word: u32, lowest_first: bool) -> bool {
    if lowest_first {
        word == bytes[at] + 256 * (bytes[at + 1] + 256 * (bytes[at + 2] + 256 * bytes[at + 3]))
    } else {
        word == bytes[at + 3] + 256 * (bytes[at + 2] + 256 * (bytes[at + 1] + 256 * bytes[at]))
    }
}

/// A number of cubes that was read from a buffer is in its twelve bytes: x in the first four,
/// then y, then z, all three in the same order of bytes. Of other lengths there is none.
pub proof fn law_cubes_are_twelve_bytes(
    bytes: &[u8],
    r: Result<(u32, u32, u32), CubeCountError>,
)
    requires
        call_ensures(dynamic_cube_count, (bytes,), r),
    ensures
        bytes@.len() != 12 ==> r is Err,
        r matches Ok(count) ==> exists|lowest_first: bool|
            {
                &&& #[trigger] word_at(bytes@, 0, count.0, lowest_first)
                &&& word_at(bytes@, 4, count.1, lowest_first)
                &&& word_at(bytes@, 8, count.2, lowest_first)
            },
        r matches Err(error) ==> bytes@.len() == 12 ==> error == CubeCountError::Unaligned,
{
    if let Ok(count) = r {
        let words = seq![count.0, count.1, count.2];
        let b = bytes@;
        if forall|i: int|
            0 <= i < words.len() ==> (#[trigger] words[i]) == crate::cuda::words::word_le(b, i) {
            assert(words[0] == crate::cuda::words::word_le(b, 0));
            assert(words[1] == crate::cuda::words::word_le(b, 1));
            assert(words[2] == crate::cuda::words::word_le(b, 2));
            assert(word_at(b, 0, count.0, true));
        } else {
            assert(words[0] == crate::cuda::words::word_be(b, 0));
            assert(words[1] == crate::cuda::words::word_be(b, 1));
            assert(words[2] == crate::cuda::words::word_be(b, 2));
            assert(word_at(b, 0, count.0, false));
        }
    }
}

} // verus!
