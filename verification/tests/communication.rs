use cubecl_memory::cuda::communication::{
    all_reduce, comm_init, communication_id, from_wire, get_nccl_dtype_count, mismatched_streams,
    nccl_supports, to_nccl_op, to_wire, transfer_pair, DeviceId, Formation, Groups, NcclOp,
    NcclType, ReduceOperation, Reduction, UniqueId,
};
use cubecl_memory::cuda::elem::{ElemType, FloatKind, IntKind, UIntKind};

fn device(index_id: u32) -> DeviceId {
    DeviceId { type_id: 0, index_id }
}

fn id(byte: u8) -> UniqueId {
    UniqueId { bytes: [byte; 128] }
}

#[test]
fn element_types_have_a_count() {
    let float = |kind| ElemType::Float(kind);
    assert_eq!(get_nccl_dtype_count(float(FloatKind::F32), 64), (NcclType::Float32, 16));
    assert_eq!(get_nccl_dtype_count(float(FloatKind::F16), 64), (NcclType::Float16, 32));
    assert_eq!(get_nccl_dtype_count(float(FloatKind::BF16), 64), (NcclType::Bfloat16, 32));
    assert_eq!(get_nccl_dtype_count(float(FloatKind::F64), 64), (NcclType::Float64, 8));
    assert_eq!(get_nccl_dtype_count(ElemType::Int(IntKind::I8), 7), (NcclType::Int8, 7));
    assert_eq!(get_nccl_dtype_count(ElemType::UInt(UIntKind::U64), 17), (NcclType::Uint64, 2));
    assert!(!nccl_supports(ElemType::Int(IntKind::I16)));
    assert!(nccl_supports(ElemType::Int(IntKind::I64)));
}

#[test]
fn a_mean_is_an_average() {
    assert_eq!(to_nccl_op(ReduceOperation::Sum), NcclOp::Sum);
    assert_eq!(to_nccl_op(ReduceOperation::Mean), NcclOp::Avg);
    assert_eq!(
        all_reduce(ElemType::Float(FloatKind::F32), 40, ReduceOperation::Mean),
        Reduction { dtype: NcclType::Float32, count: 10, op: NcclOp::Avg }
    );
    assert_eq!(mismatched_streams(1, 1), Vec::<u64>::new());
    assert_eq!(mismatched_streams(1, 2), vec![1, 2]);
}

/// A group has one name, however its devices are listed.
#[test]
fn groups_are_named_by_their_devices_in_order() {
    let a = communication_id(vec![device(2), device(0), device(1)]);
    let b = communication_id(vec![device(1), device(2), device(0)]);
    assert_eq!(a, b);
    assert_eq!(a, vec![device(0), device(1), device(2)]);
    let typed = communication_id(vec![
        DeviceId { type_id: 1, index_id: 0 },
        DeviceId { type_id: 0, index_id: 5 },
    ]);
    assert_eq!(typed[0], DeviceId { type_id: 0, index_id: 5 });
}

#[test]
fn an_id_survives_the_wire() {
    let mut internal = [0i8; 128];
    internal[0] = -128;
    internal[1] = -1;
    internal[2] = 127;
    let wire = to_wire(&internal);
    assert_eq!(wire.bytes[0..4], [0x80, 0xff, 0x7f, 0]);
    assert_eq!(from_wire(&wire), internal);
}

#[test]
fn a_group_is_minted_once() {
    let mut groups = Groups::default();
    let devices = vec![device(0), device(1)];
    assert!(matches!(
        comm_init(&groups, &devices, device(1)),
        Formation::Mint { world: 2, rank: 1 }
    ));
    groups.remember(devices.clone(), id(9));
    groups.remember(devices.clone(), id(10));
    match comm_init(&groups, &devices, device(0)) {
        Formation::Minted { world, rank, id } => {
            assert_eq!((world, rank, id.bytes[0]), (2, 0, 9));
        }
        _ => panic!("the group was minted"),
    }
    assert!(matches!(comm_init(&groups, &devices, device(5)), Formation::NotAMember));
    assert!(groups.lookup(&vec![device(0)]).is_none());
}

#[test]
fn a_group_formed_outside_wins() {
    let mut groups = Groups::default();
    groups.set_external_comm(id(3), 4, 8);
    match comm_init(&groups, &vec![device(0)], device(7)) {
        Formation::External { world, rank, id } => {
            assert_eq!((world, rank, id.bytes[0]), (8, 4, 3));
        }
        _ => panic!("the group was formed outside"),
    }
}

/// Both ends of a transfer name the same group, and each the other's rank.
#[test]
fn transfers_pair_up() {
    let a = transfer_pair(device(3), device(1));
    let b = transfer_pair(device(1), device(3));
    assert_eq!(a.devices, b.devices);
    assert_eq!((a.peer, b.peer), (Some(0), Some(1)));
    assert_eq!(transfer_pair(device(1), device(1)).peer, None);
}
