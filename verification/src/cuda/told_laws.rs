//! What the driver and the communication library are told means what was asked for.

use vstd::prelude::*;

use crate::cuda::communication::{
    all_reduce, comm_init, communication_id, derived_rank, device_le, from_wire,
    get_nccl_dtype_count, law_groups_have_one_name, mismatched_streams, nccl_supports, nccl_type,
    sort_devices, to_nccl_op, to_wire, transfer_pair, DeviceId, Formation, Groups, NcclOp, NcclType,
    Pair, Rank, ReduceOperation, Reduction, UniqueId, UNIQUE_ID_BYTES,
};
use crate::cuda::elem::{ElemType, FloatKind, IntKind, StorageType, UIntKind};
use crate::cuda::tensor_map::{
    elem_to_tensor_map_type, encode_args, interleave_to_cuda, oob_to_cuda, prefetch_to_cuda,
    swizzle_to_cuda, EncodeArgs, EncodeFormat, EncodeRefusal, OobFill, TensorMapDataType,
    TensorMapFormat, TensorMapInterleave, TensorMapMeta, TensorMapPrefetch, TensorMapSwizzle,
};
use crate::first::lemma_first_from;

verus! {

/// How a number is written in bits.
pub enum Encoding {
    /// With a sign, an exponent and a mantissa of so many bits.
    Float { sign: int, exponent: int, mantissa: int },
    /// In two's complement.
    Signed { bits: int },
    /// Without a sign.
    Unsigned { bits: int },
}

impl Encoding {
    /// How many bits there are.
    pub open spec fn width(self) -> int {
        match self {
            Encoding::Float { sign, exponent, mantissa } => sign + exponent + mantissa,
            Encoding::Signed { bits } => bits,
            Encoding::Unsigned { bits } => bits,
        }
    }
}

/// How elements are written, if one number is one element. What a flexible float is written as
/// is left to the device, and a truth value is no number.
pub open spec fn encoding(elem: ElemType) -> Option<Encoding> {
    match elem {
        ElemType::Float(kind) => match kind {
            FloatKind::E2M1 => Some(Encoding::Float { sign: 1, exponent: 2, mantissa: 1 }),
            FloatKind::E2M3 => Some(Encoding::Float { sign: 1, exponent: 2, mantissa: 3 }),
            FloatKind::E3M2 => Some(Encoding::Float { sign: 1, exponent: 3, mantissa: 2 }),
            FloatKind::E4M3 => Some(Encoding::Float { sign: 1, exponent: 4, mantissa: 3 }),
            FloatKind::E5M2 => Some(Encoding::Float { sign: 1, exponent: 5, mantissa: 2 }),
            FloatKind::UE8M0 => Some(Encoding::Float { sign: 0, exponent: 8, mantissa: 0 }),
            FloatKind::F16 => Some(Encoding::Float { sign: 1, exponent: 5, mantissa: 10 }),
            FloatKind::BF16 => Some(Encoding::Float { sign: 1, exponent: 8, mantissa: 7 }),
            FloatKind::TF32 => Some(Encoding::Float { sign: 1, exponent: 8, mantissa: 10 }),
            FloatKind::F32 => Some(Encoding::Float { sign: 1, exponent: 8, mantissa: 23 }),
            FloatKind::F64 => Some(Encoding::Float { sign: 1, exponent: 11, mantissa: 52 }),
            FloatKind::Flex32 => None,
        },
        ElemType::Int(kind) => Some(
            Encoding::Signed {
                bits: match kind {
                    IntKind::I8 => i8::BITS as int,
                    IntKind::I16 => i16::BITS as int,
                    IntKind::I32 => i32::BITS as int,
                    IntKind::I64 => i64::BITS as int,
                },
            },
        ),
        ElemType::UInt(kind) => Some(
            Encoding::Unsigned {
                bits: match kind {
                    UIntKind::U8 => u8::BITS as int,
                    UIntKind::U16 => u16::BITS as int,
                    UIntKind::U32 => u32::BITS as int,
                    UIntKind::U64 => u64::BITS as int,
                },
            },
        ),
        ElemType::Bool => None,
    }
}

/// How the communication library takes numbers of a type to be written.
pub open spec fn nccl_encoding(told: NcclType) -> Encoding {
    match told {
        NcclType::Int8 => Encoding::Signed { bits: 8 },
        NcclType::Uint8 => Encoding::Unsigned { bits: 8 },
        NcclType::Int32 => Encoding::Signed { bits: 32 },
        NcclType::Uint32 => Encoding::Unsigned { bits: 32 },
        NcclType::Int64 => Encoding::Signed { bits: 64 },
        NcclType::Uint64 => Encoding::Unsigned { bits: 64 },
        NcclType::Float16 => Encoding::Float { sign: 1, exponent: 5, mantissa: 10 },
        NcclType::Float32 => Encoding::Float { sign: 1, exponent: 8, mantissa: 23 },
        NcclType::Float64 => Encoding::Float { sign: 1, exponent: 11, mantissa: 52 },
        NcclType::Bfloat16 => Encoding::Float { sign: 1, exponent: 8, mantissa: 7 },
        NcclType::Float8e4m3 => Encoding::Float { sign: 1, exponent: 4, mantissa: 3 },
        NcclType::Float8e5m2 => Encoding::Float { sign: 1, exponent: 5, mantissa: 2 },
    }
}

/// How the driver takes the items of a tensor to be written. A pair of four bits is a byte.
pub open spec fn driver_encoding(told: TensorMapDataType) -> Encoding {
    match told {
        TensorMapDataType::Uint8 => Encoding::Unsigned { bits: 8 },
        TensorMapDataType::Uint16 => Encoding::Unsigned { bits: 16 },
        TensorMapDataType::Uint32 => Encoding::Unsigned { bits: 32 },
        TensorMapDataType::Int32 => Encoding::Signed { bits: 32 },
        TensorMapDataType::Uint64 => Encoding::Unsigned { bits: 64 },
        TensorMapDataType::Int64 => Encoding::Signed { bits: 64 },
        TensorMapDataType::Float16 => Encoding::Float { sign: 1, exponent: 5, mantissa: 10 },
        TensorMapDataType::Float32 => Encoding::Float { sign: 1, exponent: 8, mantissa: 23 },
        TensorMapDataType::Float64 => Encoding::Float { sign: 1, exponent: 11, mantissa: 52 },
        TensorMapDataType::Bfloat16 => Encoding::Float { sign: 1, exponent: 8, mantissa: 7 },
        TensorMapDataType::Tfloat32 => Encoding::Float { sign: 1, exponent: 8, mantissa: 10 },
        TensorMapDataType::U4Align8 => Encoding::Unsigned { bits: 8 },
    }
}

/// An element has as many bits as its encoding, but for a float of 19 bits, which takes up as
/// many as the float of 32 bits that it is a part of. So does a flexible float, and a truth
/// value takes up a byte.
pub proof fn law_elements_have_the_bits_of_their_encoding(elem: ElemType, r: usize)
    requires
        call_ensures(ElemType::size_bits, (&elem,), r),
    ensures
        match encoding(elem) {
            Some(encoding) => if elem == ElemType::Float(FloatKind::TF32) {
                encoding.width() < r == u32::BITS
            } else {
                r == encoding.width()
            },
            None => r == (if elem == ElemType::Bool {
                u8::BITS
            } else {
                u32::BITS
            }),
        },
        r == elem.bits(),
{
}

/// An item takes the fewest bytes that its elements fit into: one element of a scalar, and as
/// many as are packed of a packed one.
pub proof fn law_items_take_the_bytes_they_need(ty: StorageType, elem: usize, r: usize)
    requires
        call_ensures(ElemType::size_bits, (&ty.elem(),), elem),
        ty.bytes() <= usize::MAX / 8,
        call_ensures(StorageType::size, (&ty,), r),
    ensures
        ({
            let count: int = match ty {
                StorageType::Packed(_, factor) => factor as int,
                _ => 1,
            };
            &&& elem * count <= 8 * r < elem * count + 8
        }),
        r == ty.bytes(),
{
    match ty {
        StorageType::Packed(inner, factor) => {
            assert(elem * factor == inner.bits() * (factor as nat)) by (nonlinear_arith)
                requires
                    elem == inner.bits(),
            ;
        },
        _ => {},
    }
}

/// The type of the elements is the one that they were stored as, packed or not.
pub proof fn law_storage_keeps_the_element(elem: ElemType, factor: usize, r: ElemType, f: bool)
    requires
        call_ensures(StorageType::elem_type, (&StorageType::Scalar(elem),), r)
            || call_ensures(StorageType::elem_type, (&StorageType::Packed(elem, factor),), r)
            || call_ensures(StorageType::elem_type, (&StorageType::Atomic(elem),), r),
        call_ensures(StorageType::is_float, (&StorageType::Packed(elem, factor),), f),
    ensures
        r == elem,
        f <==> elem is Float,
{
}

/// The communication library is told that numbers are written as they are, and it is told of
/// as many as there are whole ones in the buffer.
pub proof fn law_library_is_told_what_the_buffer_holds(
    dtype: ElemType,
    size: u64,
    r: (NcclType, usize),
)
    requires
        nccl_type(dtype) is Some,
        size <= usize::MAX,
        call_ensures(get_nccl_dtype_count, (dtype, size), r),
    ensures
        encoding(dtype) == Some(nccl_encoding(r.0)),
        r.1 * nccl_encoding(r.0).width() <= 8 * size < (r.1 + 1) * nccl_encoding(r.0).width(),
{
    let bits = dtype.bits() as int;
    vstd::arithmetic::div_mod::lemma_fundamental_div_mod(size * 8, bits);
    vstd::arithmetic::div_mod::lemma_mod_bound(size * 8, bits);
    let n = r.1 as int;
    assert(n * bits == bits * n && (n + 1) * bits == bits * n + bits) by (nonlinear_arith);
}

/// The communication library is told of elements exactly if it has a type for numbers that are
/// written as they are.
pub proof fn law_library_is_told_of_what_it_has(dtype: ElemType, r: bool)
    requires
        call_ensures(nccl_supports, (dtype,), r),
    ensures
        r <==> exists|told: NcclType| encoding(dtype) == Some(#[trigger] nccl_encoding(told)),
        r <==> nccl_type(dtype) is Some,
{
    let witness = nccl_type(dtype);
    if r {
        assert(encoding(dtype) == Some(nccl_encoding(witness->0)));
    } else {
        assert forall|told: NcclType| encoding(dtype) != Some(#[trigger] nccl_encoding(told)) by {}
    }
}

/// No two types of elements are told as the same one.
pub proof fn law_types_are_told_apart(
    a: ElemType,
    b: ElemType,
    size: u64,
    x: (NcclType, usize),
    y: (NcclType, usize),
)
    requires
        nccl_type(a) is Some,
        nccl_type(b) is Some,
        size <= usize::MAX,
        call_ensures(get_nccl_dtype_count, (a, size), x),
        call_ensures(get_nccl_dtype_count, (b, size), y),
    ensures
        x.0 == y.0 ==> a == b,
{
}

/// What values of several ranks are combined to, as a fraction: how much, and of how many.
pub open spec fn asked_for(op: ReduceOperation, sum: int, ranks: int) -> (int, int) {
    match op {
        ReduceOperation::Sum => (sum, 1),
        ReduceOperation::Mean => (sum, ranks),
    }
}

/// What the communication library combines values to, as a fraction.
pub open spec fn combined(op: NcclOp, sum: int, ranks: int) -> (int, int) {
    match op {
        NcclOp::Sum => (sum, 1),
        NcclOp::Avg => (sum, ranks),
    }
}

/// A reduction is told as what it is: of numbers that are written as the elements are, of all
/// whole ones of the buffer, and combined as was asked for.
pub proof fn law_reduction_is_what_was_asked_for(
    dtype: ElemType,
    size: u64,
    op: ReduceOperation,
    r: Reduction,
    alone: NcclOp,
    sum: int,
    ranks: int,
)
    requires
        nccl_type(dtype) is Some,
        size <= usize::MAX,
        call_ensures(all_reduce, (dtype, size, op), r),
        call_ensures(to_nccl_op, (op,), alone),
    ensures
        encoding(dtype) == Some(nccl_encoding(r.dtype)),
        r.count * nccl_encoding(r.dtype).width() <= 8 * size < (r.count + 1) * nccl_encoding(
            r.dtype,
        ).width(),
        combined(r.op, sum, ranks) == asked_for(op, sum, ranks),
        combined(alone, sum, ranks) == asked_for(op, sum, ranks),
{
    let bits = dtype.bits() as int;
    vstd::arithmetic::div_mod::lemma_fundamental_div_mod(size * 8, bits);
    vstd::arithmetic::div_mod::lemma_mod_bound(size * 8, bits);
    let n = r.count as int;
    assert(n * bits == bits * n && (n + 1) * bits == bits * n + bits) by (nonlinear_arith);
}

/// An error is registered on every stream that takes part in a reduction over two, once, and
/// on none where there is one stream.
pub proof fn law_both_streams_hear_of_a_mismatch(src: u64, dst: u64, r: Vec<u64>)
    requires
        call_ensures(mismatched_streams, (src, dst), r),
    ensures
        src == dst <==> r@.len() == 0,
        src != dst ==> r@.len() == 2 && r@.first() == src && r@.last() == dst,
{
}

/// An id goes over a wire byte by byte: each byte is congruent to the character at its place,
/// and comes back as it.
pub proof fn law_ids_go_over_the_wire_as_they_are(
    internal: [i8; UNIQUE_ID_BYTES],
    wire: UniqueId,
    back: [i8; UNIQUE_ID_BYTES],
    i: int,
)
    requires
        call_ensures(to_wire, (&internal,), wire),
        call_ensures(from_wire, (&wire,), back),
        0 <= i < UNIQUE_ID_BYTES,
    ensures
        wire.bytes@[i] == internal@[i] || wire.bytes@[i] == internal@[i] + 256,
        back@[i] == internal@[i],
{
    let c: i8 = internal@[i];
    assert(wire.bytes@[i] == c as u8);
    assert(back@[i] == wire.bytes@[i] as i8);
    assert((c as u8) == c || (c as u8) == c + 256) by (bit_vector);
    assert((c as u8) as i8 == c) by (bit_vector);
}

/// Devices are in order by their type first, and by their index among those of one type.
pub proof fn law_devices_are_ordered_by_type_and_index(a: DeviceId, b: DeviceId)
    ensures
        a.type_id < b.type_id ==> device_le(a, b) && !device_le(b, a),
        a.type_id == b.type_id && a.index_id < b.index_id ==> device_le(a, b) && !device_le(b, a),
        device_le(a, b) && device_le(b, a) <==> a == b,
{
}

/// A group has one name, in whatever order its devices are given.
pub proof fn law_group_is_named_by_its_devices(
    a: Vec<DeviceId>,
    b: Vec<DeviceId>,
    x: Vec<DeviceId>,
    y: Vec<DeviceId>,
)
    requires
        call_ensures(communication_id, (a,), x),
        call_ensures(communication_id, (b,), y),
    ensures
        x@ == y@ <==> a@.to_multiset() == b@.to_multiset(),
        x@.to_multiset() == a@.to_multiset(),
{
    if a@.to_multiset() == b@.to_multiset() {
        law_groups_have_one_name(x@, y@);
    }
}

/// The rank of a device is the place where it stands, the first if it stands there more than
/// once; there are as many ranks as devices, and two devices never have the same.
pub proof fn law_ranks_are_places(
    devices: Vec<DeviceId>,
    own: DeviceId,
    other: DeviceId,
    r: Option<Rank>,
    s: Option<Rank>,
)
    requires
        devices.len() <= i32::MAX,
        call_ensures(derived_rank, (&devices, own), r),
        call_ensures(derived_rank, (&devices, other), s),
    ensures
        r is None <==> forall|i: int|
            0 <= i < devices@.len() ==> (#[trigger] devices@[i]).index_id != own.index_id,
        r matches Some(rank) ==> {
            &&& rank.world == devices@.len()
            &&& 0 <= rank.rank < rank.world
            &&& devices@[rank.rank as int].index_id == own.index_id
            &&& forall|i: int|
                0 <= i < rank.rank ==> (#[trigger] devices@[i]).index_id != own.index_id
        },
        r is Some && s is Some && own.index_id != other.index_id ==> r->0.rank != s->0.rank,
{
    lemma_first_from(0, devices@.len() as int, |i: int| devices@[i].index_id == own.index_id);
    lemma_first_from(0, devices@.len() as int, |i: int| devices@[i].index_id == other.index_id);
    let p = |i: int| devices@[i].index_id == own.index_id;
    assert forall|i: int| 0 <= i < devices@.len() implies p(i) == ((
    #[trigger] devices@[i]).index_id == own.index_id) by {}
    if r is None {
        assert forall|i: int| 0 <= i < devices@.len() implies (#[trigger] devices@[i]).index_id
            != own.index_id by {
            assert(!p(i));
        }
    } else {
        let rank = r->0.rank as int;
        assert(p(rank));
        assert forall|i: int| 0 <= i < rank implies (#[trigger] devices@[i]).index_id
            != own.index_id by {
            assert(!p(i));
        }
    }
}

/// A communicator is formed with the group that was formed outside, as it was given, where
/// there is one. Else every device of a group forms it with the same id, under the rank and in
/// the world that the list says, and a device that is not in the list forms none.
pub proof fn law_communicators_agree(
    groups: Groups,
    devices: Vec<DeviceId>,
    own: DeviceId,
    other: DeviceId,
    rank: Option<Rank>,
    r: Formation,
    s: Formation,
)
    requires
        devices.len() <= i32::MAX,
        call_ensures(derived_rank, (&devices, own), rank),
        call_ensures(comm_init, (&groups, &devices, own), r),
        call_ensures(comm_init, (&groups, &devices, other), s),
    ensures
        groups.external matches Some(ext) ==> r == (Formation::External {
            world: ext.world,
            rank: ext.rank,
            id: ext.id,
        }),
        groups.external is None ==> !(r is External) && (r is NotAMember <==> rank is None),
        r matches Formation::Minted { world, rank: place, id } ==> {
            &&& rank matches Some(derived) && derived.world == world && derived.rank == place
            &&& s matches Formation::Minted { id: same, .. } ==> same == id
            &&& !(s is Mint)
        },
        r matches Formation::Mint { world, rank: place } ==> {
            &&& rank matches Some(derived) && derived.world == world && derived.rank == place
            &&& !(s is Minted)
        },
{
}

/// The two ends of a transfer name the same group of two, and each names the place of the
/// other in it.
pub proof fn law_ends_of_a_transfer_meet(a: DeviceId, b: DeviceId, x: Pair, y: Pair)
    requires
        a.index_id != b.index_id,
        call_ensures(transfer_pair, (a, b), x),
        call_ensures(transfer_pair, (b, a), y),
    ensures
        x.devices@ == y.devices@,
        x.devices@.len() == 2,
        x.peer matches Some(p) && 0 <= p < 2 && x.devices@[p as int] == b,
        y.peer matches Some(p) && 0 <= p < 2 && y.devices@[p as int] == a,
{
    broadcast use vstd::seq_lib::group_to_multiset_ensures;

    assert(seq![a, b].to_multiset() =~= seq![b, a].to_multiset()) by {
        vstd::seq_lib::to_multiset_build(seq![a], b);
        vstd::seq_lib::to_multiset_build(seq![b], a);
        vstd::seq_lib::to_multiset_build(Seq::empty(), a);
        vstd::seq_lib::to_multiset_build(Seq::empty(), b);
        assert(seq![a].push(b) =~= seq![a, b]);
        assert(seq![b].push(a) =~= seq![b, a]);
        assert(Seq::empty().push(a) =~= seq![a]);
        assert(Seq::empty().push(b) =~= seq![b]);
    }
    law_groups_have_one_name(x.devices@, y.devices@);
    let s = x.devices@;
    assert(seq![b, a].to_multiset().len() == 2);
    assert(s.len() == 2);
    assert forall|i: int| 0 <= i < 2 implies s[i] == a || s[i] == b by {
        assert(s.contains(s[i]));
        assert(seq![b, a].to_multiset().count(s[i]) > 0);
        assert(seq![b, a].contains(s[i]));
    }
    assert(s.contains(a)) by {
        assert(seq![b, a][1] == a);
        assert(seq![b, a].contains(a));
        assert(s.to_multiset().count(a) > 0);
    }
    assert(s.contains(b)) by {
        assert(seq![b, a][0] == b);
        assert(seq![b, a].contains(b));
        assert(s.to_multiset().count(b) > 0);
    }
    lemma_first_from(0, 2, |i: int| s[i].index_id != a.index_id);
    lemma_first_from(0, 2, |i: int| s[i].index_id != b.index_id);
    let p = |i: int| s[i].index_id != a.index_id;
    let q = |i: int| s[i].index_id != b.index_id;
    assert(p(0) || p(1));
    assert(q(0) || q(1));
}

/// The items of a tensor are told as what they are: of as many bits, and written as the
/// elements are where the driver has such numbers. It has floats from 16 bits on and integers
/// with a sign from 32 bits on; smaller ones are bits to it.
pub proof fn law_driver_is_told_what_items_are(
    ty: StorageType,
    cuda_12080: bool,
    r: Option<TensorMapDataType>,
)
    requires
        call_ensures(elem_to_tensor_map_type, (ty, cuda_12080), r),
    ensures
        r matches Some(told) ==> {
            let has = driver_encoding(told);
            &&& has.width() == 8 * ty.bytes() || (ty == StorageType::Scalar(
                ElemType::Float(FloatKind::TF32),
            ) && ty.bytes() == 4)
            &&& match (ty, encoding(ty.elem())) {
                (StorageType::Scalar(_), Some(Encoding::Float { sign, exponent, mantissa })) => if sign
                    + exponent + mantissa >= 16 {
                    has == (Encoding::Float { sign, exponent, mantissa })
                } else {
                    has == (Encoding::Unsigned { bits: 8 })
                },
                (StorageType::Scalar(_), Some(Encoding::Signed { bits })) => if bits >= 32 {
                    has == (Encoding::Signed { bits })
                } else {
                    has == (Encoding::Unsigned { bits })
                },
                (StorageType::Scalar(_), Some(Encoding::Unsigned { bits })) => has
                    == (Encoding::Unsigned { bits }),
                (StorageType::Scalar(_), None) => has == (Encoding::Float {
                    sign: 1,
                    exponent: 8,
                    mantissa: 23,
                }),
                _ => told == TensorMapDataType::U4Align8,
            }
            &&& told == TensorMapDataType::U4Align8 <==> !(ty is Scalar)
        },
{
    match ty {
        StorageType::Packed(elem, factor) => {
            assert(elem.bits() * (factor as nat) == 8 <== elem.bits() == 4 && factor == 2)
                by (nonlinear_arith);
        },
        _ => {},
    }
}

/// The driver is told of every number that is stored one by one, and of pairs of four bits
/// where it knows them. A truth value is none, and other packed or atomic items are not told.
pub proof fn law_driver_is_told_of_every_number(
    ty: StorageType,
    cuda_12080: bool,
    r: Option<TensorMapDataType>,
)
    requires
        call_ensures(elem_to_tensor_map_type, (ty, cuda_12080), r),
    ensures
        match ty {
            StorageType::Scalar(elem) => r is Some <==> elem != ElemType::Bool,
            StorageType::Packed(elem, factor) => r is Some <==> cuda_12080 && factor == 2
                && elem == ElemType::Float(FloatKind::E2M1),
            StorageType::Atomic(_) => r is None,
        },
{
}

/// How many bytes are interleaved.
pub open spec fn interleaved_bytes(interleave: TensorMapInterleave) -> int {
    match interleave {
        TensorMapInterleave::Off => 0,
        TensorMapInterleave::B16 => 16,
        TensorMapInterleave::B32 => 32,
    }
}

/// The driver numbers what is interleaved by how many units of 16 bytes there are.
pub proof fn law_interleaves_are_numbered_by_size(interleave: TensorMapInterleave, r: u32)
    requires
        call_ensures(interleave_to_cuda, (interleave,), r),
    ensures
        16 * r == interleaved_bytes(interleave),
{
}

/// Which bytes of how many a swizzle permutes, and how: in pieces of so many bytes, with the
/// halves of those exchanged or not.
pub open spec fn swizzled(swizzle: TensorMapSwizzle) -> (int, int, bool) {
    match swizzle {
        TensorMapSwizzle::Off => (16, 16, false),
        TensorMapSwizzle::B32 => (32, 16, false),
        TensorMapSwizzle::B64 => (64, 16, false),
        TensorMapSwizzle::B128 => (128, 16, false),
        TensorMapSwizzle::B128Atom32B => (128, 32, false),
        TensorMapSwizzle::B128Atom32BFlip8B => (128, 32, true),
        TensorMapSwizzle::B128Atom64B => (128, 64, false),
    }
}

/// The driver numbers swizzles from the smallest on: by how many bytes they permute, then by
/// the size of the pieces, then by whether halves are exchanged. The numbers have no gaps, and
/// the driver has all of them from CUDA 12.8 on; before it has those in pieces of 16 bytes.
pub proof fn law_swizzles_are_numbered_by_size(
    a: TensorMapSwizzle,
    b: TensorMapSwizzle,
    cuda_12080: bool,
    x: Option<u32>,
    y: Option<u32>,
)
    requires
        call_ensures(swizzle_to_cuda, (a, cuda_12080), x),
        call_ensures(swizzle_to_cuda, (b, cuda_12080), y),
    ensures
        x is Some <==> cuda_12080 || swizzled(a).1 == 16,
        x matches Some(n) ==> n <= 6,
        x is Some && y is Some ==> (x->0 < y->0 <==> {
            let (s, t) = (swizzled(a), swizzled(b));
            s.0 < t.0 || (s.0 == t.0 && (s.1 < t.1 || (s.1 == t.1 && !s.2 && t.2)))
        }),
        x is Some && y is Some ==> (x->0 == y->0 <==> a == b),
        x is Some && swizzled(a).1 == 16 ==> (swizzled(a).0 == 16 <==> x->0 == 0),
{
}

/// How many bytes are promoted into the cache.
pub open spec fn promoted_bytes(prefetch: TensorMapPrefetch) -> int {
    match prefetch {
        TensorMapPrefetch::Off => 0,
        TensorMapPrefetch::B64 => 64,
        TensorMapPrefetch::B128 => 128,
        TensorMapPrefetch::B256 => 256,
    }
}

/// The driver numbers promotions by size: none is zero, and each further one is twice as much.
pub proof fn law_promotions_are_numbered_by_size(prefetch: TensorMapPrefetch, r: u32)
    requires
        call_ensures(prefetch_to_cuda, (prefetch,), r),
    ensures
        r == 0 <==> promoted_bytes(prefetch) == 0,
        r == 1 ==> promoted_bytes(prefetch) == 64,
        r == 2 ==> promoted_bytes(prefetch) == 2 * 64,
        r == 3 ==> promoted_bytes(prefetch) == 2 * (2 * 64),
        r <= 3,
{
}

/// Nothing out of bounds is a number exactly if that is asked for.
pub proof fn law_fills_are_told_apart(fill: OobFill, r: u32)
    requires
        call_ensures(oob_to_cuda, (fill,), r),
    ensures
        r == 0 <==> fill == OobFill::Zero,
        r == 1 <==> fill == OobFill::NaN,
{
}

/// Where an element is in memory, in bytes: its index in each dimension times the stride of
/// the dimension, over the first `n` dimensions.
pub open spec fn bytes_into(index: Seq<usize>, strides: Seq<usize>, size: int, n: nat) -> int
    decreases n,
{
    if n == 0 {
        0
    } else {
        bytes_into(index, strides, size, (n - 1) as nat) + index[n - 1] * strides[n - 1] * size
    }
}

/// Where the driver finds an element: it counts dimensions from the innermost, which has a
/// stride of one element, and takes the strides of the others as it was told, over the
/// dimensions from `d` to the innermost.
pub open spec fn driver_bytes(
    index: Seq<usize>,
    told: Seq<u64>,
    size: int,
    rank: int,
    d: int,
) -> int
    decreases rank - d,
{
    if d >= rank {
        0
    } else {
        driver_bytes(index, told, size, rank, d + 1) + index[d] * (if d == rank - 1 {
            size
        } else {
            told[rank - 2 - d] as int
        })
    }
}

/// Every list that the driver is told is as long as it takes, and lines up with the dimensions
/// of the tensor counted from the innermost: the extent of dimension `d`, its stride in bytes
/// unless it is the innermost, and its element stride. The driver takes extents in 64 bits, and
/// ranks and element strides in 32.
pub proof fn law_told_dimensions_line_up(
    map: TensorMapMeta,
    cuda_12080: bool,
    r: Result<EncodeArgs, EncodeRefusal>,
    d: int,
)
    requires
        map.fits(),
        call_ensures(encode_args, (&map, cuda_12080), r),
        r is Ok,
        0 <= d,
    ensures
        ({
            let args = r->Ok_0;
            let rank = map.shape@.len() as int;
            let strides = map.strides@;
            let steps = map.elem_stride@;
            &&& args.rank == rank % 0x1_0000_0000
            &&& args.shape@.len() == rank
            &&& d < rank ==> args.shape@[rank - 1 - d] == map.shape@[d]
            &&& strides.len() > 0 ==> args.strides@.len() == strides.len() - 1
            &&& strides.len() == 0 ==> args.strides@.len() == 0
            &&& d < strides.len() - 1 ==> args.strides@[strides.len() - 2 - d] == strides[d]
                * map.storage_ty.bytes()
            &&& args.elem_strides@.len() == steps.len()
            &&& d < steps.len() ==> args.elem_strides@[steps.len() - 1 - d] == steps[d] as int
                % 0x1_0000_0000
        }),
{
}

/// The driver finds every element where it is: told the strides as they were encoded, it comes
/// to the sum of the indices times the strides times the size of an element.
pub proof fn law_driver_finds_every_element(
    map: TensorMapMeta,
    cuda_12080: bool,
    r: Result<EncodeArgs, EncodeRefusal>,
    index: Seq<usize>,
)
    requires
        map.fits(),
        call_ensures(encode_args, (&map, cuda_12080), r),
        r is Ok,
        map.shape@.len() > 0,
        map.strides@.len() == map.shape@.len(),
        map.strides@.last() == 1,
        index.len() == map.shape@.len(),
    ensures
        driver_bytes(
            index,
            r->Ok_0.strides@,
            map.storage_ty.bytes() as int,
            map.shape@.len() as int,
            0,
        ) == bytes_into(
            index,
            map.strides@,
            map.storage_ty.bytes() as int,
            map.shape@.len(),
        ),
{
    lemma_driver_bytes(
        index,
        map.strides@,
        r->Ok_0.strides@,
        map.storage_ty.bytes() as int,
        0,
    );
}

proof fn lemma_driver_bytes(
    index: Seq<usize>,
    strides: Seq<usize>,
    told: Seq<u64>,
    size: int,
    d: int,
)
    requires
        index.len() == strides.len(),
        strides.len() > 0,
        strides.last() == 1,
        0 <= d <= strides.len(),
        forall|k: int|
            0 <= k < strides.len() - 1 ==> told[strides.len() - 2 - k] == #[trigger] strides[k]
                * size,
    ensures
        driver_bytes(index, told, size, strides.len() as int, d) == bytes_into(
            index,
            strides,
            size,
            strides.len(),
        ) - bytes_into(index, strides, size, d as nat),
    decreases strides.len() - d,
{
    let rank = strides.len() as int;
    if d < rank {
        lemma_driver_bytes(index, strides, told, size, d + 1);
        assert(bytes_into(index, strides, size, (d + 1) as nat) == bytes_into(
            index,
            strides,
            size,
            d as nat,
        ) + index[d] * strides[d] * size);
        let i = index[d] as int;
        let s = strides[d] as int;
        assert(i * s * size == i * (s * size)) by (nonlinear_arith);
        if d < rank - 1 {
            assert(told[rank - 2 - d] == strides[d] * size);
        } else {
            assert(i * (1 * size) == i * size) by (nonlinear_arith);
        }
    }
}

/// The format is told in the same dimensions as the extents: a tile has its size of dimension
/// `d` where the extent of that dimension is, and a box has its corners from the innermost of
/// its dimensions on. The other numbers are told as they are.
pub proof fn law_told_format_lines_up(
    map: TensorMapMeta,
    cuda_12080: bool,
    r: Result<EncodeArgs, EncodeRefusal>,
    d: int,
)
    requires
        map.fits(),
        call_ensures(encode_args, (&map, cuda_12080), r),
        r is Ok,
        0 <= d,
    ensures
        match map.format {
            TensorMapFormat::Tiled { tile_size } => {
                &&& r->Ok_0.format matches EncodeFormat::Tiled { tile_size: told }
                &&& told@.len() == tile_size@.len()
                &&& d < tile_size@.len() ==> told@[tile_size@.len() - 1 - d] == tile_size@[d] as int
                    % 0x1_0000_0000
            },
            TensorMapFormat::Im2col {
                pixel_box_lower_corner,
                pixel_box_upper_corner,
                channels_per_pixel,
                pixels_per_column,
            } => {
                &&& r->Ok_0.format matches EncodeFormat::Im2col {
                    lower_corner,
                    upper_corner,
                    channels_per_pixel: channels,
                    pixels_per_column: pixels,
                }
                &&& channels == channels_per_pixel && pixels == pixels_per_column
                &&& lower_corner@.len() == pixel_box_lower_corner@.len()
                &&& upper_corner@.len() == pixel_box_upper_corner@.len()
                &&& d < lower_corner@.len() ==> lower_corner@[lower_corner@.len() - 1 - d]
                    == pixel_box_lower_corner@[d]
                &&& d < upper_corner@.len() ==> upper_corner@[upper_corner@.len() - 1 - d]
                    == pixel_box_upper_corner@[d]
            },
            TensorMapFormat::Im2colWide {
                pixel_box_lower_corner_width,
                pixel_box_upper_corner_width,
                channels_per_pixel,
                pixels_per_column,
            } => r->Ok_0.format == (EncodeFormat::Im2colWide {
                lower_width: pixel_box_lower_corner_width,
                upper_width: pixel_box_upper_corner_width,
                channels_per_pixel,
                pixels_per_column,
            }),
        },
{
}

/// Whatever else the driver is told is what each setting is by itself: the type, what is
/// interleaved, swizzled, promoted and filled in.
pub proof fn law_told_settings_are_those_of_the_map(
    map: TensorMapMeta,
    cuda_12080: bool,
    r: Result<EncodeArgs, EncodeRefusal>,
    ty: Option<TensorMapDataType>,
    interleave: u32,
    swizzle: Option<u32>,
    prefetch: u32,
    fill: u32,
)
    requires
        map.fits(),
        call_ensures(encode_args, (&map, cuda_12080), r),
        call_ensures(elem_to_tensor_map_type, (map.storage_ty, cuda_12080), ty),
        call_ensures(interleave_to_cuda, (map.interleave,), interleave),
        call_ensures(swizzle_to_cuda, (map.swizzle, cuda_12080), swizzle),
        call_ensures(prefetch_to_cuda, (map.prefetch,), prefetch),
        call_ensures(oob_to_cuda, (map.oob_fill,), fill),
    ensures
        r matches Ok(args) ==> {
            &&& ty == Some(args.data_type)
            &&& args.interleave == interleave
            &&& swizzle == Some(args.swizzle)
            &&& args.prefetch == prefetch
            &&& args.oob_fill == fill
        },
        r is Ok <==> ty is Some && swizzle is Some && (map.format is Im2colWide ==> cuda_12080),
        r matches Err(EncodeRefusal::Format) ==> map.format is Im2colWide && !cuda_12080,
        r matches Err(EncodeRefusal::DataType) ==> ty is None,
        r matches Err(EncodeRefusal::Swizzle) ==> swizzle is None && ty is Some,
{
}

/// Sorting devices leaves the same ones, by increasing type, and by increasing index within a
/// type.
pub proof fn law_devices_are_sorted(devices: &mut Vec<DeviceId>, r: (), i: int, j: int)
    requires
        call_ensures(sort_devices, (devices,), r),
    ensures
        final(devices)@.to_multiset() == old(devices)@.to_multiset(),
        0 <= i < j < final(devices)@.len() ==> final(devices)@[i].type_id
            <= final(devices)@[j].type_id,
        0 <= i < j < final(devices)@.len() && final(devices)@[i].type_id
            == final(devices)@[j].type_id ==> final(devices)@[i].index_id
            <= final(devices)@[j].index_id,
{
}

/// An id that is remembered for a group is found under its name, unless the group had one
/// already, which stays. No other group gets it.
pub proof fn law_groups_remember_their_first_id(
    groups: &mut Groups,
    group: Vec<DeviceId>,
    id: UniqueId,
    other: Vec<DeviceId>,
    done: (),
    before: Option<UniqueId>,
    after: Option<UniqueId>,
)
    requires
        call_ensures(Groups::lookup, (&*old(groups), &other), before),
        call_ensures(Groups::remember, (groups, group, id), done),
        call_ensures(Groups::lookup, (&*final(groups), &other), after),
    ensures
        before is Some ==> after == before,
        before is None && other@ == group@ ==> after == Some(id),
        before is None && other@ != group@ ==> after is None,
        final(groups).external == old(groups).external,
{
    let minted = old(groups).minted@;
    let now = final(groups).minted@;
    crate::cuda::communication::law_groups_keep_their_id(minted, other@, (group, id));
    let was_at = |i: int| crate::cuda::communication::is_group(minted, i, other@);
    let now_at = |i: int| crate::cuda::communication::is_group(now, i, other@);
    lemma_first_from(0, minted.len() as int, was_at);
    lemma_first_from(0, now.len() as int, now_at);
    if before is None && other@ != group@ {
        assert forall|i: int| 0 <= i < now.len() implies !(#[trigger] now_at(i)) by {
            if i < minted.len() {
                assert(!was_at(i));
            }
        }
    }
}

/// The group that was formed outside is the one that was installed last, as it was given, and
/// the ids that were minted stay.
pub proof fn law_outside_group_is_installed(
    groups: &mut Groups,
    id: UniqueId,
    rank: i32,
    world: i32,
    devices: Vec<DeviceId>,
    own: DeviceId,
    done: (),
    r: Formation,
)
    requires
        devices.len() <= i32::MAX,
        call_ensures(Groups::set_external_comm, (groups, id, rank, world), done),
        call_ensures(comm_init, (&*final(groups), &devices, own), r),
    ensures
        r == (Formation::External { world, rank, id }),
        final(groups).minted == old(groups).minted,
{
}

/// A communicator is formed with the id that is remembered for its devices, and one is minted
/// exactly if none is.
pub proof fn law_communicators_use_what_is_remembered(
    groups: Groups,
    devices: Vec<DeviceId>,
    own: DeviceId,
    known: Option<UniqueId>,
    r: Formation,
)
    requires
        devices.len() <= i32::MAX,
        call_ensures(Groups::lookup, (&groups, &devices), known),
        call_ensures(comm_init, (&groups, &devices, own), r),
    ensures
        r matches Formation::Minted { id, .. } ==> known == Some(id),
        r is Mint ==> known is None,
{
}

/// The bits of an item can be counted exactly if eight times its bytes is a number there is.
pub proof fn law_items_can_be_counted(ty: StorageType, r: bool)
    requires
        call_ensures(StorageType::is_sized, (&ty,), r),
    ensures
        r <==> 8 * ty.bytes() <= usize::MAX,
        !(ty is Packed) ==> r,
{
}

} // verus!
