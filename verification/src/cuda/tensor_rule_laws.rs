//! The rules for tensor maps, one by one: a map is refused exactly if it breaks one, and by
//! the first that it breaks.

use vstd::prelude::*;

use crate::cuda::elem::{ElemType, FloatKind, StorageType};
use crate::cuda::error::{LaunchError, TensorMapRule};
use crate::cuda::tensor_map::{
    check_tma_generic, check_tma_im2col, check_tma_tiled, encode_failure, EncodeArgs, EncodeFormat,
    OobFill, TensorMapMeta,
};
use crate::cuda::told_laws::{interleaved_bytes, swizzled};

verus! {

/// Whether a map, with what the driver was told of it, breaks a rule for every map.
pub open spec fn breaks_generic(
    rule: TensorMapRule,
    map: TensorMapMeta,
    device_ptr: u64,
    shape: Seq<u64>,
    strides: Seq<u64>,
    elem_strides: Seq<u32>,
    cuda_12080: bool,
) -> bool {
    let rank = map.shape@.len();
    let interleaved = interleaved_bytes(map.interleave);
    match rule {
        TensorMapRule::PointerAlignment { bytes } => {
            ||| bytes == 16 && device_ptr as int % 16 != 0
            ||| bytes == 32 && interleaved > 0 && device_ptr as int % 32 != 0
        },
        TensorMapRule::Rank => rank == 0 || rank > 5,
        TensorMapRule::InterleavedRank => interleaved > 0 && rank < 3,
        TensorMapRule::Shape => exists|i: int|
            0 <= i < shape.len() && (#[trigger] shape[i]) >= 0x1_0000_0000,
        TensorMapRule::PackedShape => {
            &&& cuda_12080
            &&& map.storage_ty == StorageType::Packed(ElemType::Float(FloatKind::E2M1), 2)
            &&& shape.len() > 0
            &&& shape[0] as int % 2 != 0
        },
        TensorMapRule::StrideAlignment { bytes } => {
            ||| bytes == 16 && exists|i: int|
                0 <= i < strides.len() && (#[trigger] strides[i]) as int % 16 != 0
            ||| bytes == 32 && interleaved == 32 && exists|i: int|
                0 <= i < strides.len() && (#[trigger] strides[i]) as int % 32 != 0
        },
        TensorMapRule::ElementStrides => exists|i: int|
            0 <= i < elem_strides.len() && ((#[trigger] elem_strides[i]) == 0 || elem_strides[i]
                > 8),
        TensorMapRule::InnermostElementStride => interleaved == 0 && (elem_strides.len() == 0
            || elem_strides[0] != 1),
        TensorMapRule::NanFill => map.oob_fill == OobFill::NaN && !(map.storage_ty.elem() is Float),
        _ => false,
    }
}

/// In which order the rules for every map are looked at.
pub open spec fn generic_order(rule: TensorMapRule) -> int {
    match rule {
        TensorMapRule::PointerAlignment { bytes } => if bytes == 16 {
            0
        } else {
            1
        },
        TensorMapRule::Rank => 2,
        TensorMapRule::InterleavedRank => 3,
        TensorMapRule::Shape => 4,
        TensorMapRule::PackedShape => 5,
        TensorMapRule::StrideAlignment { bytes } => if bytes == 16 {
            6
        } else {
            7
        },
        TensorMapRule::ElementStrides => 8,
        TensorMapRule::InnermostElementStride => 9,
        _ => 10,
    }
}

proof fn lemma_packed(ty: StorageType)
    ensures
        crate::cuda::tensor_map::packed_fp4(ty) <==> ty == StorageType::Packed(
            ElemType::Float(FloatKind::E2M1),
            2,
        ),
{
}

/// A map keeps to the rules for every map exactly if it breaks none of them. Else it is refused
/// by one that it breaks, the first in order.
pub proof fn law_maps_are_refused_by_the_first_rule_they_break(
    map: TensorMapMeta,
    device_ptr: u64,
    shape: Vec<u64>,
    strides: Vec<u64>,
    elem_strides: Vec<u32>,
    cuda_12080: bool,
    r: Result<(), LaunchError>,
    rule: TensorMapRule,
)
    requires
        call_ensures(
            check_tma_generic,
            (&map, device_ptr, &shape, &strides, &elem_strides, cuda_12080),
            r,
        ),
    ensures
        r is Ok ==> !breaks_generic(
            rule,
            map,
            device_ptr,
            shape@,
            strides@,
            elem_strides@,
            cuda_12080,
        ),
        r matches Err(error) ==> {
            &&& error matches LaunchError::TensorMap(named)
            &&& breaks_generic(
                named,
                map,
                device_ptr,
                shape@,
                strides@,
                elem_strides@,
                cuda_12080,
            )
            &&& breaks_generic(
                rule,
                map,
                device_ptr,
                shape@,
                strides@,
                elem_strides@,
                cuda_12080,
            ) ==> generic_order(named) <= generic_order(rule)
        },
{
    lemma_packed(map.storage_ty);
}

/// Whether a tiled map breaks a rule for tiles.
pub open spec fn breaks_tiled(rule: TensorMapRule, map: TensorMapMeta, tile_size: Seq<u32>) -> bool {
    match rule {
        TensorMapRule::TileRank => tile_size.len() != map.shape@.len(),
        TensorMapRule::TileShape => exists|i: int|
            0 <= i < tile_size.len() && ((#[trigger] tile_size[i]) == 0 || tile_size[i] > 256),
        TensorMapRule::TileSwizzle => {
            &&& interleaved_bytes(map.interleave) == 0
            &&& tile_size.len() > 0
            &&& swizzled(map.swizzle).0 > 16
            &&& tile_size[0] * map.storage_ty.bytes() > swizzled(map.swizzle).0
        },
        TensorMapRule::InterleaveSwizzle => interleaved_bytes(map.interleave) == 32 && swizzled(
            map.swizzle,
        ).0 != 32,
        _ => false,
    }
}

/// In which order the rules for tiles are looked at.
pub open spec fn tiled_order(rule: TensorMapRule) -> int {
    match rule {
        TensorMapRule::TileRank => 0,
        TensorMapRule::TileShape => 1,
        TensorMapRule::TileSwizzle => 2,
        _ => 3,
    }
}

/// A tiled map keeps to the rules for tiles exactly if it breaks none of them. Else it is
/// refused by one that it breaks, the first in order.
pub proof fn law_tiles_are_refused_by_the_first_rule_they_break(
    map: TensorMapMeta,
    tile_size: Vec<u32>,
    r: Result<(), LaunchError>,
    rule: TensorMapRule,
)
    requires
        map.storage_ty.bytes() <= usize::MAX / 8,
        call_ensures(check_tma_tiled, (&map, &tile_size), r),
    ensures
        r is Ok ==> !breaks_tiled(rule, map, tile_size@),
        r matches Err(error) ==> {
            &&& error matches LaunchError::TensorMap(named)
            &&& breaks_tiled(named, map, tile_size@)
            &&& breaks_tiled(rule, map, tile_size@) ==> tiled_order(named) <= tiled_order(rule)
        },
{
}

/// How far from the origin a corner of a pixel box may be, in each of its dimensions. The more
/// of them there are, the fewer bits each has.
pub open spec fn corner_limit(rank: int) -> int {
    if rank == 3 {
        0x8000
    } else if rank == 4 {
        0x80
    } else {
        0x10
    }
}

/// Whether a corner of a pixel box is too far out: the bits of a number reach one further below
/// zero than above.
pub open spec fn corner_outside(corner: i32, rank: int) -> bool {
    corner >= corner_limit(rank) || corner < -corner_limit(rank)
}

/// Whether a map breaks a rule for pixel boxes.
pub open spec fn breaks_im2col(
    rule: TensorMapRule,
    map: TensorMapMeta,
    lower: Seq<i32>,
    upper: Seq<i32>,
    channels_per_pixel: u32,
    pixels_per_column: u32,
) -> bool {
    let r = map.shape@.len() as int;
    match rule {
        TensorMapRule::LowerCornerRank => lower.len() + 2 != r,
        TensorMapRule::UpperCornerRank => upper.len() + 2 != r,
        TensorMapRule::Im2colRank => r < 3 || r > 5,
        TensorMapRule::LowerCornerRange { low, high, rank } => {
            &&& rank == r && low == -corner_limit(r) && high == corner_limit(r) - 1
            &&& exists|i: int| 0 <= i < lower.len() && corner_outside(#[trigger] lower[i], r)
        },
        TensorMapRule::UpperCornerRange { low, high, rank } => {
            &&& rank == r && low == -corner_limit(r) && high == corner_limit(r) - 1
            &&& exists|i: int| 0 <= i < upper.len() && corner_outside(#[trigger] upper[i], r)
        },
        TensorMapRule::ChannelsPerPixel => channels_per_pixel > 256,
        TensorMapRule::PixelsPerColumn => pixels_per_column > 1024,
        _ => false,
    }
}

/// In which order the rules for pixel boxes are looked at.
pub open spec fn im2col_order(rule: TensorMapRule) -> int {
    match rule {
        TensorMapRule::LowerCornerRank => 0,
        TensorMapRule::UpperCornerRank => 1,
        TensorMapRule::Im2colRank => 2,
        TensorMapRule::LowerCornerRange { .. } => 3,
        TensorMapRule::UpperCornerRange { .. } => 4,
        TensorMapRule::ChannelsPerPixel => 5,
        _ => 6,
    }
}

/// A map keeps to the rules for pixel boxes exactly if it breaks none of them. Else it is
/// refused by one that it breaks, the first in order.
pub proof fn law_boxes_are_refused_by_the_first_rule_they_break(
    map: TensorMapMeta,
    lower: Vec<i32>,
    upper: Vec<i32>,
    channels_per_pixel: u32,
    pixels_per_column: u32,
    r: Result<(), LaunchError>,
    rule: TensorMapRule,
)
    requires
        call_ensures(
            check_tma_im2col,
            (&map, &lower, &upper, channels_per_pixel, pixels_per_column),
            r,
        ),
    ensures
        r is Ok ==> !breaks_im2col(
            rule,
            map,
            lower@,
            upper@,
            channels_per_pixel,
            pixels_per_column,
        ),
        r matches Err(error) ==> {
            &&& error matches LaunchError::TensorMap(named)
            &&& breaks_im2col(named, map, lower@, upper@, channels_per_pixel, pixels_per_column)
            &&& breaks_im2col(rule, map, lower@, upper@, channels_per_pixel, pixels_per_column)
                ==> im2col_order(named) <= im2col_order(rule)
        },
{
    assert(map.shape@.len() == map.shape.len());
}

/// A map that the driver refused is blamed on a rule that it breaks, for every map first and
/// then for its format, and on the driver's code exactly if it breaks none.
pub proof fn law_refusals_are_blamed_on_what_is_broken(
    map: TensorMapMeta,
    args: EncodeArgs,
    device_ptr: u64,
    code: i32,
    cuda_12080: bool,
    generic: Result<(), LaunchError>,
    r: LaunchError,
)
    requires
        map.storage_ty.bytes() <= usize::MAX / 8,
        call_ensures(
            check_tma_generic,
            (&map, device_ptr, &args.shape, &args.strides, &args.elem_strides, cuda_12080),
            generic,
        ),
        call_ensures(encode_failure, (&map, &args, device_ptr, code, cuda_12080), r),
    ensures
        generic matches Err(error) ==> r == error,
        generic is Ok ==> match args.format {
            EncodeFormat::Tiled { tile_size } => match r {
                LaunchError::TensorMap(rule) => breaks_tiled(rule, map, tile_size@),
                LaunchError::Unknown { code: told } => told == code,
                _ => false,
            },
            EncodeFormat::Im2col {
                lower_corner,
                upper_corner,
                channels_per_pixel,
                pixels_per_column,
            } => match r {
                LaunchError::TensorMap(rule) => breaks_im2col(
                    rule,
                    map,
                    lower_corner@,
                    upper_corner@,
                    channels_per_pixel,
                    pixels_per_column,
                ),
                LaunchError::Unknown { code: told } => told == code,
                _ => false,
            },
            EncodeFormat::Im2colWide { .. } => r == (LaunchError::Unknown { code }),
        },
        r is Unknown ==> {
            &&& args.format matches EncodeFormat::Tiled { tile_size } ==> tile_size@.len()
                == map.shape@.len() && forall|i: int|
                0 <= i < tile_size@.len() ==> 0 < (#[trigger] tile_size@[i]) <= 256
            &&& args.format matches EncodeFormat::Im2col {
                lower_corner,
                channels_per_pixel,
                pixels_per_column,
                ..
            } ==> lower_corner@.len() + 2 == map.shape@.len() && channels_per_pixel <= 256
                && pixels_per_column <= 1024
        },
{
    assert(map.shape@.len() == map.shape.len());
}

/// A map can be encoded exactly if the size of an item and the stride of every dimension but
/// the innermost can be computed in bytes.
pub proof fn law_maps_with_computable_strides_are_encoded(map: TensorMapMeta, r: bool)
    requires
        call_ensures(TensorMapMeta::can_encode, (&map,), r),
    ensures
        r <==> {
            &&& map.storage_ty.bytes() <= usize::MAX / 8
            &&& forall|d: int|
                0 <= d < map.strides@.len() - 1 ==> (#[trigger] map.strides@[d])
                    * map.storage_ty.bytes() <= u64::MAX
        },
{
}

} // verus!
