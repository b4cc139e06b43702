//! Groups of devices, and what collectives hand to the communication library.
//!
//! A unique id names a group. One process that drives several devices mints an id and
//! remembers it by the devices, so that every participant reads the same. Across processes
//! that is unusable: each would mint its own, and the rank, a device's position in the
//! sorted list, would be the same on two hosts. There one rank mints the id and ships its
//! bytes, and an externally formed group overrides the derivation whole.

use vstd::prelude::*;

use crate::cuda::elem::{ElemType, FloatKind, IntKind, UIntKind};
use crate::first::{first_where, lemma_first_from, lemma_first_is, lemma_first_none};

verus! {

/// How many bytes a unique id has.
pub const UNIQUE_ID_BYTES: usize = 128;

/// How values are combined.
#[derive(Clone, Copy, Debug, PartialEq, Eq, Structural)]
pub enum ReduceOperation {
    Sum,
    Mean,
}

/// How the communication library is told to combine values.
#[derive(Clone, Copy, Debug, PartialEq, Eq, Structural)]
pub enum NcclOp {
    Sum,
    Avg,
}

/// What the communication library is told of the type of elements.
#[derive(Clone, Copy, Debug, PartialEq, Eq, Structural)]
pub enum NcclType {
    Int8,
    Uint8,
    Int32,
    Uint32,
    Int64,
    Uint64,
    Float16,
    Float32,
    Float64,
    Bfloat16,
    Float8e4m3,
    Float8e5m2,
}

/// How the communication library is told to combine values.
pub fn to_nccl_op(op: ReduceOperation) -> (r: NcclOp)
    ensures
        r == (match op {
            ReduceOperation::Sum => NcclOp::Sum,
            ReduceOperation::Mean => NcclOp::Avg,
        }),
{
    match op {
        ReduceOperation::Sum => NcclOp::Sum,
        ReduceOperation::Mean => NcclOp::Avg,
    }
}

/// What elements are to the communication library. Some it does not know: the smallest
/// floats, those that only live inside kernels, 16-bit integers and booleans.
pub open spec fn nccl_type(dtype: ElemType) -> Option<NcclType> {
    match dtype {
        ElemType::Float(kind) => match kind {
            FloatKind::E4M3 => Some(NcclType::Float8e4m3),
            FloatKind::E5M2 => Some(NcclType::Float8e5m2),
            FloatKind::F16 => Some(NcclType::Float16),
            FloatKind::BF16 => Some(NcclType::Bfloat16),
            FloatKind::F32 => Some(NcclType::Float32),
            FloatKind::F64 => Some(NcclType::Float64),
            _ => None,
        },
        ElemType::Int(kind) => match kind {
            IntKind::I8 => Some(NcclType::Int8),
            IntKind::I16 => None,
            IntKind::I32 => Some(NcclType::Int32),
            IntKind::I64 => Some(NcclType::Int64),
        },
        ElemType::UInt(kind) => match kind {
            UIntKind::U8 => Some(NcclType::Uint8),
            UIntKind::U16 => None,
            UIntKind::U32 => Some(NcclType::Uint32),
            UIntKind::U64 => Some(NcclType::Uint64),
        },
        ElemType::Bool => None,
    }
}

/// Whether the communication library knows elements of this type.
pub fn nccl_supports(dtype: ElemType) -> (r: bool)
    ensures
        r == (nccl_type(dtype) is Some),
{
    match dtype {
        ElemType::Float(kind) => match kind {
            FloatKind::E4M3
            | FloatKind::E5M2
            | FloatKind::F16
            | FloatKind::BF16
            | FloatKind::F32
            | FloatKind::F64 => true,
            _ => false,
        },
        ElemType::Int(kind) => match kind {
            IntKind::I16 => false,
            _ => true,
        },
        ElemType::UInt(kind) => match kind {
            UIntKind::U16 => false,
            _ => true,
        },
        ElemType::Bool => false,
    }
}

/// What a buffer of so many bytes is to the communication library: the type of its
/// elements, and how many there are. Bytes that make no whole element do not count.
pub fn get_nccl_dtype_count(dtype: ElemType, size: u64) -> (r: (NcclType, usize))
    requires
        nccl_type(dtype) is Some,
        size <= usize::MAX,
    ensures
        Some(r.0) == nccl_type(dtype),
        r.1 == (size * 8) / (dtype.bits() as int),
{
    match dtype {
        ElemType::Float(kind) => match kind {
            FloatKind::E4M3 => (NcclType::Float8e4m3, size as usize),
            FloatKind::E5M2 => (NcclType::Float8e5m2, size as usize),
            FloatKind::F16 => (NcclType::Float16, (size / 2) as usize),
            FloatKind::BF16 => (NcclType::Bfloat16, (size / 2) as usize),
            FloatKind::F32 => (NcclType::Float32, (size / 4) as usize),
            _ => (NcclType::Float64, (size / 8) as usize),
        },
        ElemType::Int(kind) => match kind {
            IntKind::I8 => (NcclType::Int8, size as usize),
            IntKind::I32 => (NcclType::Int32, (size / 4) as usize),
            _ => (NcclType::Int64, (size / 8) as usize),
        },
        ElemType::UInt(kind) => match kind {
            UIntKind::U8 => (NcclType::Uint8, size as usize),
            UIntKind::U32 => (NcclType::Uint32, (size / 4) as usize),
            _ => (NcclType::Uint64, (size / 8) as usize),
        },
        ElemType::Bool => (NcclType::Uint8, size as usize),
    }
}

/// A device.
#[derive(Clone, Copy, Debug, PartialEq, Eq, Structural)]
pub struct DeviceId {
    pub type_id: u16,
    pub index_id: u32,
}

/// Whether a device comes before another, or is it.
pub open spec fn device_le(a: DeviceId, b: DeviceId) -> bool {
    a.type_id < b.type_id || (a.type_id == b.type_id && a.index_id <= b.index_id)
}

/// Whether devices are in order.
pub open spec fn devices_sorted(devices: Seq<DeviceId>) -> bool {
    forall|i: int, j: int|
        0 <= i < j < devices.len() ==> device_le(#[trigger] devices[i], #[trigger] devices[j])
}

/// Puts devices in order: the same devices, each as often as before.
pub fn sort_devices(devices: &mut Vec<DeviceId>)
    ensures
        devices_sorted(final(devices)@),
        final(devices)@.to_multiset() == old(devices)@.to_multiset(),
{
    broadcast use vstd::seq_lib::group_to_multiset_ensures;

    let n: usize = devices.len();
    let mut i: usize = 0;
    while i < n
        invariant
            i <= n == devices.len(),
            devices@.to_multiset() == old(devices)@.to_multiset(),
            devices_sorted(devices@.take(i as int)),
        decreases n - i,
    {
        let mut j: usize = i;
        assert forall|a: int, b: int| 0 <= a < b < i implies device_le(
            #[trigger] devices@[a],
            #[trigger] devices@[b],
        ) by {
            let done = devices@.take(i as int);
            assert(device_le(done[a], done[b]));
        }
        while j > 0
            invariant
                j <= i < n == devices.len(),
                devices@.to_multiset() == old(devices)@.to_multiset(),
                forall|a: int, b: int|
                    0 <= a < b <= i && b != j ==> device_le(
                        #[trigger] devices@[a],
                        #[trigger] devices@[b],
                    ),
            decreases j,
        {
            let left: DeviceId = devices[j - 1];
            let right: DeviceId = devices[j];
            let in_order: bool = left.type_id < right.type_id || (left.type_id == right.type_id
                && left.index_id <= right.index_id);
            if in_order {
                assert forall|a: int, b: int| 0 <= a < b <= i implies device_le(
                    #[trigger] devices@[a],
                    #[trigger] devices@[b],
                ) by {
                    if b == j && a < j - 1 {
                        assert(device_le(devices@[a], devices@[j - 1]));
                    }
                }
                j = 0;
            } else {
                let ghost before = devices@;
                devices.set(j - 1, right);
                devices.set(j, left);
                proof {
                    lemma_swap(before, j - 1, j as int);
                    assert(devices@ =~= before.update(j - 1, before[j as int]).update(
                        j as int,
                        before[j - 1],
                    ));
                    assert forall|a: int, b: int| 0 <= a < b <= i && b != j - 1 implies device_le(
                        #[trigger] devices@[a],
                        #[trigger] devices@[b],
                    ) by {
                        if a == j - 1 && b > j {
                            assert(device_le(before[j as int], before[b]));
                        } else if a == j {
                            assert(device_le(before[j - 1], before[b]));
                        } else if b == j && a < j - 1 {
                            assert(device_le(before[a], before[j - 1]));
                        } else if b > j && a < j - 1 {
                            assert(device_le(before[a], before[b]));
                        }
                    }
                }
                j -= 1;
            }
        }
        assert(devices_sorted(devices@.take(i + 1)));
        i += 1;
    }
    assert(devices@.take(n as int) =~= devices@);
}

proof fn lemma_swap(s: Seq<DeviceId>, i: int, j: int)
    requires
        0 <= i < j < s.len(),
    ensures
        s.update(i, s[j]).update(j, s[i]).to_multiset() == s.to_multiset(),
{
    broadcast use vstd::seq_lib::group_to_multiset_ensures;

    let a = s.update(i, s[j]);
    vstd::seq_lib::to_multiset_update(s, i, s[j]);
    vstd::seq_lib::to_multiset_update(a, j, s[i]);
    assert(s.to_multiset().remove(s[i]).insert(s[j]).remove(s[j]).insert(s[i])
        =~= s.to_multiset()) by {
        assert(s.to_multiset().count(s[i]) > 0) by {
            assert(s.contains(s[i]));
        }
    }
}

/// What names a group: its devices, in order.
pub fn communication_id(devices: Vec<DeviceId>) -> (r: Vec<DeviceId>)
    ensures
        devices_sorted(r@),
        r@.to_multiset() == devices@.to_multiset(),
{
    let mut sorted: Vec<DeviceId> = devices;
    sort_devices(&mut sorted);
    sorted
}

/// Whatever order the devices of a group are given in, the group has one name.
pub proof fn law_groups_have_one_name(a: Seq<DeviceId>, b: Seq<DeviceId>)
    requires
        devices_sorted(a),
        devices_sorted(b),
        a.to_multiset() == b.to_multiset(),
    ensures
        a == b,
    decreases a.len(),
{
    broadcast use vstd::seq_lib::group_to_multiset_ensures;

    assert(a.to_multiset().len() == a.len());
    assert(b.to_multiset().len() == b.len());
    if a.len() > 0 {
        let n = a.len() - 1;
        assert(a.last() == b.last()) by {
            assert(b.contains(a.last())) by {
                assert(a.contains(a.last()));
                assert(b.to_multiset().count(a.last()) > 0);
            }
            assert(a.contains(b.last())) by {
                assert(b.contains(b.last()));
                assert(a.to_multiset().count(b.last()) > 0);
            }
            let i = choose|i: int| 0 <= i < b.len() && b[i] == a.last();
            let j = choose|j: int| 0 <= j < a.len() && a[j] == b.last();
            if i < n && j < n {
                assert(device_le(b[i], b[n]));
                assert(device_le(a[j], a[n]));
            }
        }
        let x = a.last();
        assert(a.drop_last().push(x) =~= a);
        assert(b.drop_last().push(x) =~= b);
        vstd::seq_lib::to_multiset_build(a.drop_last(), x);
        vstd::seq_lib::to_multiset_build(b.drop_last(), x);
        assert(a.drop_last().to_multiset() =~= a.to_multiset().remove(x));
        assert(b.drop_last().to_multiset() =~= b.to_multiset().remove(x));
        law_groups_have_one_name(a.drop_last(), b.drop_last());
    } else {
        assert(a =~= b);
    }
}

/// The bytes of a unique id, as they go over a wire.
pub struct UniqueId {
    pub bytes: [u8; UNIQUE_ID_BYTES],
}

impl Clone for UniqueId {
    fn clone(&self) -> (r: Self)
        ensures
            r == *self,
    {
        UniqueId { bytes: self.bytes }
    }
}

/// The bytes of an id whose characters are signed.
pub fn to_wire(internal: &[i8; UNIQUE_ID_BYTES]) -> (r: UniqueId)
    ensures
        forall|i: int|
            0 <= i < UNIQUE_ID_BYTES ==> (#[trigger] r.bytes@[i]) == internal@[i] as u8,
{
    let mut bytes: [u8; UNIQUE_ID_BYTES] = [0;UNIQUE_ID_BYTES];
    let mut i: usize = 0;
    while i < UNIQUE_ID_BYTES
        invariant
            i <= UNIQUE_ID_BYTES,
            forall|k: int| 0 <= k < i ==> (#[trigger] bytes@[k]) == internal@[k] as u8,
        decreases UNIQUE_ID_BYTES - i,
    {
        bytes[i] = internal[i] as u8;
        i += 1;
    }
    UniqueId { bytes }
}

/// The signed characters of an id.
pub fn from_wire(id: &UniqueId) -> (r: [i8; UNIQUE_ID_BYTES])
    ensures
        forall|i: int| 0 <= i < UNIQUE_ID_BYTES ==> (#[trigger] r@[i]) == id.bytes@[i] as i8,
{
    let mut internal: [i8; UNIQUE_ID_BYTES] = [0;UNIQUE_ID_BYTES];
    let mut i: usize = 0;
    while i < UNIQUE_ID_BYTES
        invariant
            i <= UNIQUE_ID_BYTES,
            forall|k: int| 0 <= k < i ==> (#[trigger] internal@[k]) == id.bytes@[k] as i8,
        decreases UNIQUE_ID_BYTES - i,
    {
        internal[i] = id.bytes[i] as i8;
        i += 1;
    }
    internal
}

/// An id that went over a wire and back is the id that was minted, byte by byte.
pub proof fn law_wire_is_exact(id: Seq<u8>, internal: Seq<i8>, back: Seq<u8>)
    requires
        id.len() == internal.len() == back.len(),
        forall|i: int| 0 <= i < id.len() ==> (#[trigger] internal[i]) == id[i] as i8,
        forall|i: int| 0 <= i < id.len() ==> (#[trigger] back[i]) == internal[i] as u8,
    ensures
        back == id,
{
    assert forall|i: int| 0 <= i < id.len() implies back[i] == id[i] by {
        let byte: u8 = id[i];
        assert(internal[i] == byte as i8);
        assert((byte as i8) as u8 == byte) by (bit_vector);
    }
    assert(back =~= id);
}

/// A group formed outside this process: the shared id, and who this process is inside the
/// group.
pub struct ExternalComm {
    /// The unique id one rank minted and every rank received.
    pub id: UniqueId,
    /// This process's rank, `0..world`.
    pub rank: i32,
    /// How many ranks are in the group.
    pub world: i32,
}

/// The ids of the groups this process formed, and the group it was told to be in.
pub struct Groups {
    /// The ids this process minted, by the devices of the group, in order.
    pub minted: Vec<(Vec<DeviceId>, UniqueId)>,
    /// The group formed outside, which overrides the others.
    pub external: Option<ExternalComm>,
}

/// Whether an entry is that of a group.
pub open spec fn is_group(
    minted: Seq<(Vec<DeviceId>, UniqueId)>,
    i: int,
    group: Seq<DeviceId>,
) -> bool {
    minted[i].0@ == group
}

/// Where the id of a group stands.
pub open spec fn minted_at(minted: Seq<(Vec<DeviceId>, UniqueId)>, group: Seq<DeviceId>) -> Option<
    int,
> {
    first_where(minted.len(), |i: int| is_group(minted, i, group))
}

/// Whether two lists of devices are the same.
fn same_devices(a: &Vec<DeviceId>, b: &Vec<DeviceId>) -> (r: bool)
    ensures
        r == (a@ == b@),
{
    if a.len() != b.len() {
        return false;
    }
    let mut i: usize = 0;
    while i < a.len()
        invariant
            i <= a.len() == b.len(),
            forall|k: int| 0 <= k < i ==> (#[trigger] a@[k]) == b@[k],
        decreases a.len() - i,
    {
        if a[i] != b[i] {
            return false;
        }
        i += 1;
    }
    assert(a@ =~= b@);
    true
}

impl Default for Groups {
    fn default() -> (r: Self)
        ensures
            r.minted@.len() == 0,
            r.external is None,
    {
        Groups { minted: Vec::new(), external: None }
    }
}

impl Groups {
    /// The id that was minted for a group, named by its devices in order.
    pub fn lookup(&self, group: &Vec<DeviceId>) -> (r: Option<UniqueId>)
        ensures
            match minted_at(self.minted@, group@) {
                Some(i) => r == Some(self.minted@[i].1),
                None => r is None,
            },
    {
        let ghost s = self.minted@;
        let ghost g = group@;
        let mut i: usize = 0;
        while i < self.minted.len()
            invariant
                i <= self.minted.len(),
                s == self.minted@,
                g == group@,
                forall|k: int| 0 <= k < i ==> !(#[trigger] is_group(s, k, g)),
            decreases self.minted.len() - i,
        {
            if same_devices(&self.minted[i].0, group) {
                proof {
                    lemma_first_is(s.len(), |i: int| is_group(s, i, g), i as int);
                }
                return Some(self.minted[i].1.clone());
            }
            i += 1;
        }
        proof {
            lemma_first_none(s.len(), |i: int| is_group(s, i, g));
        }
        None
    }

    /// Remembers the id that was minted for a group. The id a group already has stays.
    pub fn remember(&mut self, group: Vec<DeviceId>, id: UniqueId)
        ensures
            final(self).minted@ == old(self).minted@.push((group, id)),
            final(self).external == old(self).external,
    {
        self.minted.push((group, id));
    }

    /// Installs the group this process belongs to, overriding the derivation from its
    /// devices for every collective from here on.
    pub fn set_external_comm(&mut self, id: UniqueId, rank: i32, world: i32)
        ensures
            final(self).minted == old(self).minted,
            final(self).external == Some(ExternalComm { id, rank, world }),
    {
        self.external = Some(ExternalComm { id, rank, world });
    }
}

/// The id of a group that was remembered is found, and keeps being found whatever else is
/// remembered.
pub proof fn law_groups_keep_their_id(
    minted: Seq<(Vec<DeviceId>, UniqueId)>,
    group: Seq<DeviceId>,
    added: (Vec<DeviceId>, UniqueId),
)
    ensures
        minted_at(minted, group) is Some ==> minted_at(minted.push(added), group) == minted_at(
            minted,
            group,
        ),
        minted_at(minted, group) is None && added.0@ == group ==> minted_at(
            minted.push(added),
            group,
        ) == Some(minted.len() as int),
{
    let old_at = |i: int| is_group(minted, i, group);
    let after = minted.push(added);
    let new_at = |i: int| is_group(after, i, group);
    lemma_first_from(0, minted.len() as int, old_at);
    assert forall|i: int| 0 <= i < minted.len() implies #[trigger] new_at(i) == old_at(i) by {}
    match first_where(minted.len(), old_at) {
        Some(i) => {
            assert(old_at(i));
            lemma_first_is(after.len(), new_at, i);
        },
        None => {
            if added.0@ == group {
                assert(new_at(minted.len() as int));
                assert forall|j: int| 0 <= j < minted.len() implies !(#[trigger] new_at(j)) by {
                    assert(!old_at(j));
                }
                lemma_first_is(after.len(), new_at, minted.len() as int);
            }
        },
    }
}

/// Where a device stands in a list, by its index.
pub open spec fn rank_in(devices: Seq<DeviceId>, own: DeviceId) -> Option<int> {
    first_where(devices.len(), |i: int| devices[i].index_id == own.index_id)
}

/// Where the other device stands in a list, by its index.
pub open spec fn peer_in(devices: Seq<DeviceId>, own: DeviceId) -> Option<int> {
    first_where(devices.len(), |i: int| devices[i].index_id != own.index_id)
}

/// Who a device is in a group of its own process.
#[derive(Clone, Copy, Debug, PartialEq, Eq)]
pub struct Rank {
    /// How many ranks are in the group.
    pub world: i32,
    /// The rank of the device.
    pub rank: i32,
}

/// The rank of a device among devices in order: its position. A device that is not among
/// them has none.
pub fn derived_rank(devices: &Vec<DeviceId>, own: DeviceId) -> (r: Option<Rank>)
    requires
        devices.len() <= i32::MAX,
    ensures
        match rank_in(devices@, own) {
            Some(i) => r == Some(Rank { world: devices.len() as i32, rank: i as i32 }),
            None => r is None,
        },
{
    let ghost s = devices@;
    let mut i: usize = 0;
    while i < devices.len()
        invariant
            i <= devices.len() <= i32::MAX,
            s == devices@,
            forall|k: int| 0 <= k < i ==> (#[trigger] s[k]).index_id != own.index_id,
        decreases devices.len() - i,
    {
        if devices[i].index_id == own.index_id {
            proof {
                lemma_first_is(s.len(), |i: int| s[i].index_id == own.index_id, i as int);
            }
            return Some(Rank { world: devices.len() as i32, rank: i as i32 });
        }
        i += 1;
    }
    proof {
        lemma_first_none(s.len(), |i: int| s[i].index_id == own.index_id);
    }
    None
}

/// What a communicator is formed with.
pub enum Formation {
    /// With a group formed outside.
    External { world: i32, rank: i32, id: UniqueId },
    /// With the id that was minted for the devices.
    Minted { world: i32, rank: i32, id: UniqueId },
    /// With an id that has yet to be minted and remembered.
    Mint { world: i32, rank: i32 },
    /// Not at all: the device is not in the group.
    NotAMember,
}

/// What a communicator of a group is formed with: by the group formed outside, where there
/// is one, and else by the devices, in order.
pub fn comm_init(groups: &Groups, devices: &Vec<DeviceId>, own: DeviceId) -> (r: Formation)
    requires
        devices.len() <= i32::MAX,
    ensures
        match groups.external {
            Some(ext) => r == (Formation::External { world: ext.world, rank: ext.rank, id: ext.id }),
            None => match rank_in(devices@, own) {
                Some(i) => match minted_at(groups.minted@, devices@) {
                    Some(k) => r == (Formation::Minted {
                        world: devices.len() as i32,
                        rank: i as i32,
                        id: groups.minted@[k].1,
                    }),
                    None => r == (Formation::Mint {
                        world: devices.len() as i32,
                        rank: i as i32,
                    }),
                },
                None => r is NotAMember,
            },
        },
{
    match &groups.external {
        Some(ext) => {
            return Formation::External { world: ext.world, rank: ext.rank, id: ext.id.clone() };
        },
        None => {},
    }
    match derived_rank(devices, own) {
        Some(rank) => match groups.lookup(devices) {
            Some(id) => Formation::Minted { world: rank.world, rank: rank.rank, id },
            None => Formation::Mint { world: rank.world, rank: rank.rank },
        },
        None => Formation::NotAMember,
    }
}

/// Two devices in order, and the rank of the one that is not `own`.
pub struct Pair {
    /// The devices, in order: the name of their group.
    pub devices: Vec<DeviceId>,
    /// The rank of the other device, unless both have the same index.
    pub peer: Option<i32>,
}

/// The group that a transfer between two devices uses, and the rank of the other device.
pub fn transfer_pair(own: DeviceId, other: DeviceId) -> (r: Pair)
    ensures
        devices_sorted(r.devices@),
        r.devices@.to_multiset() == seq![other, own].to_multiset(),
        match peer_in(r.devices@, own) {
            Some(i) => r.peer == Some(i as i32),
            None => r.peer is None,
        },
{
    broadcast use vstd::seq_lib::group_to_multiset_ensures;

    let mut devices: Vec<DeviceId> = Vec::new();
    devices.push(other);
    devices.push(own);
    assert(devices@ =~= seq![other, own]);
    sort_devices(&mut devices);
    let ghost s = devices@;
    assert(s.len() == 2) by {
        assert(seq![other, own].to_multiset().len() == 2);
    }
    let ghost differs = |i: int| s[i].index_id != own.index_id;
    if devices[0].index_id != own.index_id {
        proof {
            assert(differs(0));
            lemma_first_is(s.len(), differs, 0);
        }
        return Pair { devices, peer: Some(0) };
    }
    if devices[1].index_id != own.index_id {
        proof {
            assert(differs(1));
            lemma_first_is(s.len(), differs, 1);
        }
        return Pair { devices, peer: Some(1) };
    }
    proof {
        lemma_first_none(s.len(), differs);
    }
    Pair { devices, peer: None }
}

/// Both ends of a transfer name the same group, and each names the other end's rank.
pub proof fn law_transfers_pair_up(devices: Seq<DeviceId>, a: DeviceId, b: DeviceId)
    requires
        devices == seq![a, b] || devices == seq![b, a],
        a.index_id != b.index_id,
    ensures
        peer_in(devices, a) is Some,
        peer_in(devices, a) == rank_in(devices, b),
        peer_in(devices, b) == rank_in(devices, a),
{
    lemma_first_from(0, 2, |i: int| devices[i].index_id != a.index_id);
    lemma_first_from(0, 2, |i: int| devices[i].index_id == b.index_id);
    lemma_first_from(0, 2, |i: int| devices[i].index_id != b.index_id);
    lemma_first_from(0, 2, |i: int| devices[i].index_id == a.index_id);
    let p = |i: int| devices[i].index_id != a.index_id;
    let q = |i: int| devices[i].index_id == b.index_id;
    let u = |i: int| devices[i].index_id != b.index_id;
    let v = |i: int| devices[i].index_id == a.index_id;
    assert(p(0) == q(0) && p(1) == q(1) && u(0) == v(0) && u(1) == v(1));
    assert(p(0) || p(1));
    assert(u(0) || u(1));
}

/// What a reduction hands to the communication library.
#[derive(Clone, Copy, Debug, PartialEq, Eq)]
pub struct Reduction {
    pub dtype: NcclType,
    pub count: usize,
    pub op: NcclOp,
}

/// The streams that an error is registered on because the ends of a reduction are not on
/// one stream: both of them, the source's first.
pub fn mismatched_streams(src_stream: u64, dst_stream: u64) -> (r: Vec<u64>)
    ensures
        r@ == (if src_stream == dst_stream {
            Seq::<u64>::empty()
        } else {
            seq![src_stream, dst_stream]
        }),
{
    let mut r: Vec<u64> = Vec::new();
    if src_stream != dst_stream {
        r.push(src_stream);
        r.push(dst_stream);
        assert(r@ =~= seq![src_stream, dst_stream]);
    }
    r
}

/// What a reduction of a buffer of so many bytes hands to the communication library.
pub fn all_reduce(dtype: ElemType, size: u64, op: ReduceOperation) -> (r: Reduction)
    requires
        nccl_type(dtype) is Some,
        size <= usize::MAX,
    ensures
        Some(r.dtype) == nccl_type(dtype),
        r.count == (size * 8) / (dtype.bits() as int),
        r.op == (match op {
            ReduceOperation::Sum => NcclOp::Sum,
            ReduceOperation::Mean => NcclOp::Avg,
        }),
{
    let (nccl_dtype, count): (NcclType, usize) = get_nccl_dtype_count(dtype, size);
    Reduction { dtype: nccl_dtype, count, op: to_nccl_op(op) }
}

} // verus!
