use cubecl_memory::cuda::elem::{ElemType, FloatKind, IntKind, StorageType, UIntKind};
use cubecl_memory::cuda::error::{LaunchError, TensorMapRule};
use cubecl_memory::cuda::tensor_map::{
    check_tma_generic, check_tma_im2col, check_tma_tiled, elem_to_tensor_map_type, encode_args,
    encode_failure, interleave_to_cuda, oob_to_cuda, prefetch_to_cuda, swizzle_to_cuda,
    EncodeFormat, EncodeRefusal, OobFill, TensorMapDataType, TensorMapFormat, TensorMapInterleave,
    TensorMapMeta, TensorMapPrefetch, TensorMapSwizzle,
};

const F32: StorageType = StorageType::Scalar(ElemType::Float(FloatKind::F32));
const FP4X2: StorageType = StorageType::Packed(ElemType::Float(FloatKind::E2M1), 2);

fn map() -> TensorMapMeta {
    TensorMapMeta {
        format: TensorMapFormat::Tiled { tile_size: vec![8, 16] },
        shape: vec![64, 32],
        strides: vec![32, 1],
        elem_stride: vec![1, 1],
        interleave: TensorMapInterleave::Off,
        swizzle: TensorMapSwizzle::Off,
        prefetch: TensorMapPrefetch::Off,
        oob_fill: OobFill::Zero,
        storage_ty: F32,
    }
}

fn broken(rule: TensorMapRule) -> Result<(), LaunchError> {
    Err(LaunchError::TensorMap(rule))
}

fn generic(map: &TensorMapMeta, ptr: u64) -> Result<(), LaunchError> {
    let args = encode_args(map, true).unwrap();
    check_tma_generic(map, ptr, &args.shape, &args.strides, &args.elem_strides, true)
}

/// The driver takes dimensions from the innermost on, and strides in bytes without the
/// innermost.
#[test]
fn the_innermost_dimension_comes_first() {
    let args = encode_args(&map(), false).unwrap();
    assert_eq!(args.data_type, TensorMapDataType::Float32);
    assert_eq!(args.rank, 2);
    assert_eq!(args.shape, vec![32, 64]);
    assert_eq!(args.strides, vec![128]);
    assert_eq!(args.elem_strides, vec![1, 1]);
    match args.format {
        EncodeFormat::Tiled { tile_size } => assert_eq!(tile_size, vec![16, 8]),
        _ => panic!("the format is tiled"),
    }
}

#[test]
fn element_types_are_loaded_as_what_the_driver_knows() {
    let of = |ty| elem_to_tensor_map_type(ty, false);
    assert_eq!(of(F32), Some(TensorMapDataType::Float32));
    let fp8 = StorageType::Scalar(ElemType::Float(FloatKind::E4M3));
    assert_eq!(of(fp8), Some(TensorMapDataType::Uint8));
    let i16 = StorageType::Scalar(ElemType::Int(IntKind::I16));
    assert_eq!(of(i16), Some(TensorMapDataType::Uint16));
    let u32 = StorageType::Scalar(ElemType::UInt(UIntKind::U32));
    assert_eq!(of(u32), Some(TensorMapDataType::Uint32));
    assert_eq!(of(FP4X2), None);
    assert_eq!(elem_to_tensor_map_type(FP4X2, true), Some(TensorMapDataType::U4Align8));
    assert_eq!(of(StorageType::Scalar(ElemType::Bool)), None);
}

#[test]
fn settings_have_numbers() {
    assert_eq!(interleave_to_cuda(TensorMapInterleave::Off), 0);
    assert_eq!(interleave_to_cuda(TensorMapInterleave::B32), 2);
    assert_eq!(prefetch_to_cuda(TensorMapPrefetch::B256), 3);
    assert_eq!(oob_to_cuda(OobFill::NaN), 1);
    assert_eq!(swizzle_to_cuda(TensorMapSwizzle::B128, false), Some(3));
    assert_eq!(swizzle_to_cuda(TensorMapSwizzle::B128Atom32B, false), None);
    assert_eq!(swizzle_to_cuda(TensorMapSwizzle::B128Atom32B, true), Some(4));
}

#[test]
fn what_the_version_lacks_is_refused() {
    let wide = TensorMapMeta {
        format: TensorMapFormat::Im2colWide {
            pixel_box_lower_corner_width: 0,
            pixel_box_upper_corner_width: 0,
            channels_per_pixel: 1,
            pixels_per_column: 1,
        },
        ..map()
    };
    assert_eq!(encode_args(&wide, false).err(), Some(EncodeRefusal::Format));
    assert!(encode_args(&wide, true).is_ok());
    let atom = TensorMapMeta { swizzle: TensorMapSwizzle::B128Atom64B, ..map() };
    assert_eq!(encode_args(&atom, false).err(), Some(EncodeRefusal::Swizzle));
    let packed = TensorMapMeta { storage_ty: FP4X2, ..map() };
    assert_eq!(encode_args(&packed, false).err(), Some(EncodeRefusal::DataType));
}

#[test]
fn each_generic_rule_is_told() {
    assert_eq!(generic(&map(), 32), Ok(()));
    assert_eq!(generic(&map(), 8), broken(TensorMapRule::PointerAlignment { bytes: 16 }));
    let interleaved = TensorMapMeta { interleave: TensorMapInterleave::B16, ..map() };
    assert_eq!(
        generic(&interleaved, 16),
        broken(TensorMapRule::PointerAlignment { bytes: 32 })
    );
    assert_eq!(generic(&interleaved, 32), broken(TensorMapRule::InterleavedRank));
    let flat = TensorMapMeta { shape: vec![], strides: vec![], ..map() };
    assert_eq!(generic(&flat, 32), broken(TensorMapRule::Rank));
    let huge = TensorMapMeta { shape: vec![64, 1 << 32], ..map() };
    assert_eq!(generic(&huge, 32), broken(TensorMapRule::Shape));
    let odd = TensorMapMeta { storage_ty: FP4X2, shape: vec![64, 33], ..map() };
    assert_eq!(generic(&odd, 32), broken(TensorMapRule::PackedShape));
    let narrow = TensorMapMeta { strides: vec![3, 1], ..map() };
    assert_eq!(generic(&narrow, 32), broken(TensorMapRule::StrideAlignment { bytes: 16 }));
    let cube = TensorMapMeta {
        shape: vec![4, 4, 4],
        strides: vec![16, 4, 1],
        elem_stride: vec![1, 1, 1],
        interleave: TensorMapInterleave::B32,
        ..map()
    };
    assert_eq!(generic(&cube, 32), broken(TensorMapRule::StrideAlignment { bytes: 32 }));
    let far = TensorMapMeta { elem_stride: vec![9, 1], ..map() };
    assert_eq!(generic(&far, 32), broken(TensorMapRule::ElementStrides));
    let inner = TensorMapMeta { elem_stride: vec![1, 2], ..map() };
    assert_eq!(generic(&inner, 32), broken(TensorMapRule::InnermostElementStride));
    let nan = TensorMapMeta {
        oob_fill: OobFill::NaN,
        storage_ty: StorageType::Scalar(ElemType::UInt(UIntKind::U32)),
        ..map()
    };
    assert_eq!(generic(&nan, 32), broken(TensorMapRule::NanFill));
}

#[test]
fn each_tile_rule_is_told() {
    assert_eq!(check_tma_tiled(&map(), &vec![16, 8]), Ok(()));
    assert_eq!(check_tma_tiled(&map(), &vec![16]), broken(TensorMapRule::TileRank));
    assert_eq!(check_tma_tiled(&map(), &vec![16, 0]), broken(TensorMapRule::TileShape));
    assert_eq!(check_tma_tiled(&map(), &vec![16, 257]), broken(TensorMapRule::TileShape));
    let swizzled = TensorMapMeta { swizzle: TensorMapSwizzle::B32, ..map() };
    assert_eq!(check_tma_tiled(&swizzled, &vec![8, 8]), Ok(()));
    assert_eq!(check_tma_tiled(&swizzled, &vec![9, 8]), broken(TensorMapRule::TileSwizzle));
    let interleaved = TensorMapMeta { interleave: TensorMapInterleave::B32, ..map() };
    assert_eq!(
        check_tma_tiled(&interleaved, &vec![8, 8]),
        broken(TensorMapRule::InterleaveSwizzle)
    );
}

#[test]
fn each_im2col_rule_is_told() {
    let cube = TensorMapMeta {
        shape: vec![4, 4, 4],
        strides: vec![16, 4, 1],
        elem_stride: vec![1, 1, 1],
        ..map()
    };
    let check = |lower: i32, upper: i32, channels: u32, pixels: u32| {
        check_tma_im2col(&cube, &vec![lower], &vec![upper], channels, pixels)
    };
    assert_eq!(check(-32768, 32767, 256, 1024), Ok(()));
    assert_eq!(
        check(-32769, 0, 1, 1),
        broken(TensorMapRule::LowerCornerRange { low: -32768, high: 32767, rank: 3 })
    );
    assert_eq!(
        check(0, 32768, 1, 1),
        broken(TensorMapRule::UpperCornerRange { low: -32768, high: 32767, rank: 3 })
    );
    assert_eq!(check(0, 0, 257, 1), broken(TensorMapRule::ChannelsPerPixel));
    assert_eq!(check(0, 0, 1, 1025), broken(TensorMapRule::PixelsPerColumn));
    assert_eq!(
        check_tma_im2col(&cube, &vec![], &vec![0], 1, 1),
        broken(TensorMapRule::LowerCornerRank)
    );
    assert_eq!(
        check_tma_im2col(&cube, &vec![0], &vec![], 1, 1),
        broken(TensorMapRule::UpperCornerRank)
    );
    assert_eq!(
        check_tma_im2col(&map(), &vec![], &vec![], 1, 1),
        broken(TensorMapRule::Im2colRank)
    );
}

/// What the driver refused is explained by the first rule that is broken, if one is.
#[test]
fn a_refusal_is_explained() {
    let args = encode_args(&map(), false).unwrap();
    assert_eq!(
        encode_failure(&map(), &args, 32, 1, false),
        LaunchError::Unknown { code: 1 }
    );
    assert_eq!(
        encode_failure(&map(), &args, 4, 1, false),
        LaunchError::TensorMap(TensorMapRule::PointerAlignment { bytes: 16 })
    );
    let swizzled = TensorMapMeta { swizzle: TensorMapSwizzle::B32, ..map() };
    let args = encode_args(&swizzled, false).unwrap();
    assert_eq!(
        encode_failure(&swizzled, &args, 32, 1, false),
        LaunchError::TensorMap(TensorMapRule::TileSwizzle)
    );
}

#[test]
fn a_tensor_larger_than_the_address_space_cannot_be_encoded() {
    assert!(map().can_encode());
    assert!(!TensorMapMeta { strides: vec![usize::MAX, 1], ..map() }.can_encode());
    assert!(TensorMapMeta { strides: vec![1, usize::MAX], ..map() }.can_encode());
    assert!(TensorMapMeta { strides: vec![], ..map() }.can_encode());
    let huge = StorageType::Packed(ElemType::Float(FloatKind::E2M1), usize::MAX);
    assert!(!huge.is_sized() && FP4X2.is_sized() && F32.is_sized());
    assert!(!TensorMapMeta { storage_ty: huge, ..map() }.can_encode());
}
