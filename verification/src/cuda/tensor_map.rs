//! Tensor maps: what the driver is told, and why it may refuse.

use vstd::prelude::*;

use crate::cuda::elem::{ElemType, FloatKind, IntKind, StorageType, UIntKind};
use crate::cuda::error::{LaunchError, TensorMapRule};

verus! {

/// How bytes are interleaved.
#[derive(Clone, Copy, Debug, PartialEq, Eq, Structural)]
pub enum TensorMapInterleave {
    Off,
    B16,
    B32,
}

/// How shared memory is swizzled.
#[derive(Clone, Copy, Debug, PartialEq, Eq, Structural)]
pub enum TensorMapSwizzle {
    Off,
    B32,
    B64,
    B128,
    B128Atom32B,
    B128Atom32BFlip8B,
    B128Atom64B,
}

/// How much is promoted into the cache.
#[derive(Clone, Copy, Debug, PartialEq, Eq, Structural)]
pub enum TensorMapPrefetch {
    Off,
    B64,
    B128,
    B256,
}

/// What is read out of bounds.
#[derive(Clone, Copy, Debug, PartialEq, Eq, Structural)]
pub enum OobFill {
    Zero,
    NaN,
}

/// How a tensor is read.
pub enum TensorMapFormat {
    /// In tiles.
    Tiled { tile_size: Vec<usize> },
    /// By pixel columns of a box.
    Im2col {
        pixel_box_lower_corner: Vec<i32>,
        pixel_box_upper_corner: Vec<i32>,
        channels_per_pixel: u32,
        pixels_per_column: u32,
    },
    /// By pixel columns along the width.
    Im2colWide {
        pixel_box_lower_corner_width: i32,
        pixel_box_upper_corner_width: i32,
        channels_per_pixel: u32,
        pixels_per_column: u32,
    },
}

/// A tensor map, outermost dimension first.
pub struct TensorMapMeta {
    pub format: TensorMapFormat,
    pub shape: Vec<usize>,
    pub strides: Vec<usize>,
    pub elem_stride: Vec<usize>,
    pub interleave: TensorMapInterleave,
    pub swizzle: TensorMapSwizzle,
    pub prefetch: TensorMapPrefetch,
    pub oob_fill: OobFill,
    pub storage_ty: StorageType,
}

/// The types of elements that the driver knows.
#[derive(Clone, Copy, Debug, PartialEq, Eq, Structural)]
pub enum TensorMapDataType {
    Uint8,
    Uint16,
    Uint32,
    Int32,
    Uint64,
    Int64,
    Float16,
    Float32,
    Float64,
    Bfloat16,
    Tfloat32,
    U4Align8,
}

/// Whether elements are pairs of four bits.
pub open spec fn packed_fp4(ty: StorageType) -> bool {
    ty matches StorageType::Packed(elem, factor) && factor == 2 && elem.bits() == 4
}

/// What elements are to the driver. Pairs of four bits are known from CUDA 12.8 on. Small
/// floats are read as bytes: a zero byte is zero.
pub open spec fn tensor_map_type(ty: StorageType, cuda_12080: bool) -> Option<TensorMapDataType> {
    if cuda_12080 && packed_fp4(ty) {
        Some(TensorMapDataType::U4Align8)
    } else {
        match ty {
            StorageType::Scalar(ElemType::Float(kind)) => Some(
                match kind {
                    FloatKind::F16 => TensorMapDataType::Float16,
                    FloatKind::BF16 => TensorMapDataType::Bfloat16,
                    FloatKind::Flex32 | FloatKind::F32 => TensorMapDataType::Float32,
                    FloatKind::TF32 => TensorMapDataType::Tfloat32,
                    FloatKind::F64 => TensorMapDataType::Float64,
                    _ => TensorMapDataType::Uint8,
                },
            ),
            StorageType::Scalar(ElemType::Int(kind)) => Some(
                match kind {
                    IntKind::I8 => TensorMapDataType::Uint8,
                    IntKind::I16 => TensorMapDataType::Uint16,
                    IntKind::I32 => TensorMapDataType::Int32,
                    IntKind::I64 => TensorMapDataType::Int64,
                },
            ),
            StorageType::Scalar(ElemType::UInt(kind)) => Some(
                match kind {
                    UIntKind::U8 => TensorMapDataType::Uint8,
                    UIntKind::U16 => TensorMapDataType::Uint16,
                    UIntKind::U32 => TensorMapDataType::Uint32,
                    UIntKind::U64 => TensorMapDataType::Uint64,
                },
            ),
            _ => None,
        }
    }
}

/// Whether elements are pairs of four bits.
fn is_packed_fp4(ty: StorageType) -> (r: bool)
    ensures
        r == packed_fp4(ty),
{
    match ty {
        StorageType::Packed(elem, factor) => factor == 2 && elem.size_bits() == 4,
        _ => false,
    }
}

/// What elements are to the driver, if it knows them.
pub fn elem_to_tensor_map_type(ty: StorageType, cuda_12080: bool) -> (r: Option<TensorMapDataType>)
    ensures
        r == tensor_map_type(ty, cuda_12080),
{
    if cuda_12080 && is_packed_fp4(ty) {
        return Some(TensorMapDataType::U4Align8);
    }
    match ty {
        StorageType::Scalar(ElemType::Float(kind)) => Some(
            match kind {
                FloatKind::E2M1
                | FloatKind::E4M3
                | FloatKind::E5M2
                | FloatKind::UE8M0
                | FloatKind::E2M3
                | FloatKind::E3M2 => TensorMapDataType::Uint8,
                FloatKind::F16 => TensorMapDataType::Float16,
                FloatKind::BF16 => TensorMapDataType::Bfloat16,
                FloatKind::Flex32 | FloatKind::F32 => TensorMapDataType::Float32,
                FloatKind::TF32 => TensorMapDataType::Tfloat32,
                FloatKind::F64 => TensorMapDataType::Float64,
            },
        ),
        StorageType::Scalar(ElemType::Int(kind)) => Some(
            match kind {
                // The zero bits and the size are the same for both signs.
                IntKind::I8 => TensorMapDataType::Uint8,
                IntKind::I16 => TensorMapDataType::Uint16,
                IntKind::I32 => TensorMapDataType::Int32,
                IntKind::I64 => TensorMapDataType::Int64,
            },
        ),
        StorageType::Scalar(ElemType::UInt(kind)) => Some(
            match kind {
                UIntKind::U8 => TensorMapDataType::Uint8,
                UIntKind::U16 => TensorMapDataType::Uint16,
                UIntKind::U32 => TensorMapDataType::Uint32,
                UIntKind::U64 => TensorMapDataType::Uint64,
            },
        ),
        _ => None,
    }
}

/// The driver's number for an interleave.
pub fn interleave_to_cuda(interleave: TensorMapInterleave) -> (r: u32)
    ensures
        r == (match interleave {
            TensorMapInterleave::Off => 0u32,
            TensorMapInterleave::B16 => 1,
            TensorMapInterleave::B32 => 2,
        }),
{
    match interleave {
        TensorMapInterleave::Off => 0,
        TensorMapInterleave::B16 => 1,
        TensorMapInterleave::B32 => 2,
    }
}

/// The driver's number for a swizzle, if the driver has one: those of smaller atoms are
/// there from CUDA 12.8 on.
pub fn swizzle_to_cuda(swizzle: TensorMapSwizzle, cuda_12080: bool) -> (r: Option<u32>)
    ensures
        r == swizzle_number(swizzle, cuda_12080),
{
    match swizzle {
        TensorMapSwizzle::Off => Some(0),
        TensorMapSwizzle::B32 => Some(1),
        TensorMapSwizzle::B64 => Some(2),
        TensorMapSwizzle::B128 => Some(3),
        TensorMapSwizzle::B128Atom32B => if cuda_12080 {
            Some(4)
        } else {
            None
        },
        TensorMapSwizzle::B128Atom32BFlip8B => if cuda_12080 {
            Some(5)
        } else {
            None
        },
        TensorMapSwizzle::B128Atom64B => if cuda_12080 {
            Some(6)
        } else {
            None
        },
    }
}

/// The driver's number for a swizzle, if the driver has one.
pub open spec fn swizzle_number(swizzle: TensorMapSwizzle, cuda_12080: bool) -> Option<u32> {
    match swizzle {
        TensorMapSwizzle::Off => Some(0),
        TensorMapSwizzle::B32 => Some(1),
        TensorMapSwizzle::B64 => Some(2),
        TensorMapSwizzle::B128 => Some(3),
        TensorMapSwizzle::B128Atom32B => if cuda_12080 {
            Some(4)
        } else {
            None
        },
        TensorMapSwizzle::B128Atom32BFlip8B => if cuda_12080 {
            Some(5)
        } else {
            None
        },
        TensorMapSwizzle::B128Atom64B => if cuda_12080 {
            Some(6)
        } else {
            None
        },
    }
}

/// The driver's number for a promotion.
pub fn prefetch_to_cuda(prefetch: TensorMapPrefetch) -> (r: u32)
    ensures
        r == (match prefetch {
            TensorMapPrefetch::Off => 0u32,
            TensorMapPrefetch::B64 => 1,
            TensorMapPrefetch::B128 => 2,
            TensorMapPrefetch::B256 => 3,
        }),
{
    match prefetch {
        TensorMapPrefetch::Off => 0,
        TensorMapPrefetch::B64 => 1,
        TensorMapPrefetch::B128 => 2,
        TensorMapPrefetch::B256 => 3,
    }
}

/// The driver's number for a fill.
pub fn oob_to_cuda(fill: OobFill) -> (r: u32)
    ensures
        r == (match fill {
            OobFill::Zero => 0u32,
            OobFill::NaN => 1,
        }),
{
    match fill {
        OobFill::Zero => 0,
        OobFill::NaN => 1,
    }
}

/// The extents that the driver is told: innermost first.
pub open spec fn told_shape(shape: Seq<usize>) -> Seq<u64> {
    shape.reverse().map_values(|s: usize| s as u64)
}

/// The strides that the driver is told: in bytes, innermost first, without the innermost.
pub open spec fn told_strides(strides: Seq<usize>, size: int) -> Seq<u64> {
    Seq::new(
        if strides.len() == 0 {
            0
        } else {
            (strides.len() - 1) as nat
        },
        |i: int| (strides[strides.len() - 2 - i] * size) as u64,
    )
}

/// Numbers that the driver is told in 32 bits: innermost first.
pub open spec fn told_words(values: Seq<usize>) -> Seq<u32> {
    values.reverse().map_values(|s: usize| (s as int % 0x1_0000_0000) as u32)
}

/// The extents that the driver is told.
fn tell_shape(shape: &Vec<usize>) -> (r: Vec<u64>)
    ensures
        r@ == told_shape(shape@),
{
    let mut r: Vec<u64> = Vec::new();
    let mut i: usize = shape.len();
    while i > 0
        invariant
            i <= shape.len(),
            r.len() == shape.len() - i,
            forall|k: int| 0 <= k < r.len() ==> (#[trigger] r@[k]) == shape@[shape.len() - 1 - k],
        decreases i,
    {
        i -= 1;
        r.push(shape[i] as u64);
    }
    assert(r@ =~= told_shape(shape@));
    r
}

/// The strides that the driver is told.
fn tell_strides(strides: &Vec<usize>, size: usize) -> (r: Vec<u64>)
    requires
        forall|i: int|
            0 <= i < strides.len() - 1 ==> (#[trigger] strides@[i]) * size <= u64::MAX,
    ensures
        r@ == told_strides(strides@, size as int),
{
    let mut r: Vec<u64> = Vec::new();
    if strides.len() > 0 {
        let mut i: usize = strides.len() - 1;
        while i > 0
            invariant
                i < strides.len(),
                r.len() == strides.len() - 1 - i,
                forall|k: int|
                    0 <= k < strides.len() - 1 ==> (#[trigger] strides@[k]) * size <= u64::MAX,
                forall|k: int|
                    0 <= k < r.len() ==> (#[trigger] r@[k]) == strides@[strides.len() - 2 - k]
                        * size,
            decreases i,
        {
            i -= 1;
            assert(strides@[i as int] * size <= u64::MAX);
            r.push(strides[i] as u64 * size as u64);
        }
    }
    assert(r@ =~= told_strides(strides@, size as int));
    r
}

/// Numbers that the driver is told in 32 bits.
fn tell_words(values: &Vec<usize>) -> (r: Vec<u32>)
    ensures
        r@ == told_words(values@),
{
    let mut r: Vec<u32> = Vec::new();
    let mut i: usize = values.len();
    while i > 0
        invariant
            i <= values.len(),
            r.len() == values.len() - i,
            forall|k: int|
                0 <= k < r.len() ==> (#[trigger] r@[k]) == values@[values.len() - 1 - k] as int
                    % 0x1_0000_0000,
        decreases i,
    {
        i -= 1;
        r.push(((values[i] as u64) % 0x1_0000_0000) as u32);
    }
    assert(r@ =~= told_words(values@));
    r
}

/// Corners that the driver is told: innermost first.
fn tell_corners(corners: &Vec<i32>) -> (r: Vec<i32>)
    ensures
        r@ == corners@.reverse(),
{
    let mut r: Vec<i32> = Vec::new();
    let mut i: usize = corners.len();
    while i > 0
        invariant
            i <= corners.len(),
            r.len() == corners.len() - i,
            forall|k: int|
                0 <= k < r.len() ==> (#[trigger] r@[k]) == corners@[corners.len() - 1 - k],
        decreases i,
    {
        i -= 1;
        r.push(corners[i]);
    }
    assert(r@ =~= corners@.reverse());
    r
}

/// What the driver is told of the format.
pub enum EncodeFormat {
    Tiled { tile_size: Vec<u32> },
    Im2col {
        lower_corner: Vec<i32>,
        upper_corner: Vec<i32>,
        channels_per_pixel: u32,
        pixels_per_column: u32,
    },
    Im2colWide { lower_width: i32, upper_width: i32, channels_per_pixel: u32, pixels_per_column: u32 },
}

/// What the driver is told of a tensor map.
pub struct EncodeArgs {
    pub data_type: TensorMapDataType,
    pub rank: u32,
    pub shape: Vec<u64>,
    pub strides: Vec<u64>,
    pub elem_strides: Vec<u32>,
    pub interleave: u32,
    pub swizzle: u32,
    pub prefetch: u32,
    pub oob_fill: u32,
    pub format: EncodeFormat,
}

/// Why the driver cannot be told of a tensor map.
#[derive(Clone, Copy, Debug, PartialEq, Eq)]
pub enum EncodeRefusal {
    /// It has no such format.
    Format,
    /// It does not know the elements.
    DataType,
    /// It has no such swizzle.
    Swizzle,
}

/// Why the driver cannot be told of a tensor map, if it cannot.
pub open spec fn encode_refusal(map: TensorMapMeta, cuda_12080: bool) -> Option<EncodeRefusal> {
    if map.format is Im2colWide && !cuda_12080 {
        Some(EncodeRefusal::Format)
    } else if tensor_map_type(map.storage_ty, cuda_12080) is None {
        Some(EncodeRefusal::DataType)
    } else if swizzle_number(map.swizzle, cuda_12080) is None {
        Some(EncodeRefusal::Swizzle)
    } else {
        None
    }
}

/// Whether the format is told as it is.
pub open spec fn tells_format(told: EncodeFormat, format: TensorMapFormat) -> bool {
    match (told, format) {
        (EncodeFormat::Tiled { tile_size: told_tile }, TensorMapFormat::Tiled { tile_size }) => {
            told_tile@ == told_words(tile_size@)
        },
        (
            EncodeFormat::Im2col {
                lower_corner,
                upper_corner,
                channels_per_pixel: told_channels,
                pixels_per_column: told_pixels,
            },
            TensorMapFormat::Im2col {
                pixel_box_lower_corner,
                pixel_box_upper_corner,
                channels_per_pixel,
                pixels_per_column,
            },
        ) => {
            &&& lower_corner@ == pixel_box_lower_corner@.reverse()
            &&& upper_corner@ == pixel_box_upper_corner@.reverse()
            &&& told_channels == channels_per_pixel
            &&& told_pixels == pixels_per_column
        },
        (
            EncodeFormat::Im2colWide {
                lower_width,
                upper_width,
                channels_per_pixel: told_channels,
                pixels_per_column: told_pixels,
            },
            TensorMapFormat::Im2colWide {
                pixel_box_lower_corner_width,
                pixel_box_upper_corner_width,
                channels_per_pixel,
                pixels_per_column,
            },
        ) => {
            &&& lower_width == pixel_box_lower_corner_width
            &&& upper_width == pixel_box_upper_corner_width
            &&& told_channels == channels_per_pixel
            &&& told_pixels == pixels_per_column
        },
        _ => false,
    }
}

impl TensorMapMeta {
    /// The bytes of an element, and of every stride, can be computed.
    pub open spec fn fits(self) -> bool {
        &&& self.storage_ty.bytes() <= usize::MAX / 8
        &&& forall|i: int|
            0 <= i < self.strides@.len() - 1 ==> (#[trigger] self.strides@[i])
                * self.storage_ty.bytes() <= u64::MAX
    }
}

impl TensorMapMeta {
    /// Whether the bytes of an element, and of every stride, can be computed.
    pub fn can_encode(&self) -> (r: bool)
        ensures
            r == self.fits(),
    {
        if !self.storage_ty.is_sized() {
            return false;
        }
        let size: u128 = self.storage_ty.size() as u128;
        let mut i: usize = 1;
        while i < self.strides.len()
            invariant
                1 <= i,
                size == self.storage_ty.bytes(),
                size <= usize::MAX,
                self.strides.len() == 0 || i <= self.strides.len(),
                forall|k: int|
                    0 <= k < i - 1 ==> (#[trigger] self.strides@[k]) * self.storage_ty.bytes()
                        <= u64::MAX,
            decreases self.strides.len() - i,
        {
            let stride: u128 = self.strides[i - 1] as u128;
            assert(0 <= stride * size <= 0xffff_ffff_ffff_ffff * 0xffff_ffff_ffff_ffff)
                by (nonlinear_arith)
                requires
                    0 <= stride <= 0xffff_ffff_ffff_ffff,
                    0 <= size <= 0xffff_ffff_ffff_ffff,
            ;
            assert(stride * size == self.strides@[i - 1] * self.storage_ty.bytes()) by (nonlinear_arith)
                requires
                    stride == self.strides@[i - 1],
                    size == self.storage_ty.bytes(),
            ;
            if stride * size > u64::MAX as u128 {
                return false;
            }
            i += 1;
        }
        true
    }
}

/// What the driver is told of a tensor map: everything innermost first.
pub fn encode_args(map: &TensorMapMeta, cuda_12080: bool) -> (r: Result<EncodeArgs, EncodeRefusal>)
    requires
        map.fits(),
    ensures
        match r {
            Ok(args) => {
                &&& encode_refusal(*map, cuda_12080) is None
                &&& Some(args.data_type) == tensor_map_type(map.storage_ty, cuda_12080)
                &&& args.rank == map.shape@.len() % 0x1_0000_0000
                &&& args.shape@ == told_shape(map.shape@)
                &&& args.strides@ == told_strides(map.strides@, map.storage_ty.bytes() as int)
                &&& args.elem_strides@ == told_words(map.elem_stride@)
                &&& args.interleave == (match map.interleave {
                    TensorMapInterleave::Off => 0u32,
                    TensorMapInterleave::B16 => 1,
                    TensorMapInterleave::B32 => 2,
                })
                &&& Some(args.swizzle) == swizzle_number(map.swizzle, cuda_12080)
                &&& args.prefetch == (match map.prefetch {
                    TensorMapPrefetch::Off => 0u32,
                    TensorMapPrefetch::B64 => 1,
                    TensorMapPrefetch::B128 => 2,
                    TensorMapPrefetch::B256 => 3,
                })
                &&& args.oob_fill == (match map.oob_fill {
                    OobFill::Zero => 0u32,
                    OobFill::NaN => 1,
                })
                &&& tells_format(args.format, map.format)
            },
            Err(refusal) => encode_refusal(*map, cuda_12080) == Some(refusal),
        },
{
    let wide: bool = match &map.format {
        TensorMapFormat::Im2colWide { .. } => true,
        _ => false,
    };
    if wide && !cuda_12080 {
        return Err(EncodeRefusal::Format);
    }
    let data_type: TensorMapDataType = match elem_to_tensor_map_type(map.storage_ty, cuda_12080) {
        Some(data_type) => data_type,
        None => {
            return Err(EncodeRefusal::DataType);
        },
    };
    let swizzle: u32 = match swizzle_to_cuda(map.swizzle, cuda_12080) {
        Some(swizzle) => swizzle,
        None => {
            return Err(EncodeRefusal::Swizzle);
        },
    };
    let format = match &map.format {
        TensorMapFormat::Tiled { tile_size } => EncodeFormat::Tiled {
            tile_size: tell_words(tile_size),
        },
        TensorMapFormat::Im2col {
            pixel_box_lower_corner,
            pixel_box_upper_corner,
            channels_per_pixel,
            pixels_per_column,
        } => EncodeFormat::Im2col {
            lower_corner: tell_corners(pixel_box_lower_corner),
            upper_corner: tell_corners(pixel_box_upper_corner),
            channels_per_pixel: *channels_per_pixel,
            pixels_per_column: *pixels_per_column,
        },
        TensorMapFormat::Im2colWide {
            pixel_box_lower_corner_width,
            pixel_box_upper_corner_width,
            channels_per_pixel,
            pixels_per_column,
        } => EncodeFormat::Im2colWide {
            lower_width: *pixel_box_lower_corner_width,
            upper_width: *pixel_box_upper_corner_width,
            channels_per_pixel: *channels_per_pixel,
            pixels_per_column: *pixels_per_column,
        },
    };
    let rank: u64 = map.shape.len() as u64;
    Ok(
        EncodeArgs {
            data_type,
            rank: (rank % 0x1_0000_0000) as u32,
            shape: tell_shape(&map.shape),
            strides: tell_strides(&map.strides, map.storage_ty.size()),
            elem_strides: tell_words(&map.elem_stride),
            interleave: interleave_to_cuda(map.interleave),
            swizzle,
            prefetch: prefetch_to_cuda(map.prefetch),
            oob_fill: oob_to_cuda(map.oob_fill),
            format,
        },
    )
}

/// The driver is told the innermost extent first and the outermost last.
pub proof fn law_told_innermost_first(shape: Seq<usize>, i: int)
    requires
        0 <= i < shape.len(),
    ensures
        told_shape(shape).len() == shape.len(),
        told_shape(shape)[shape.len() - 1 - i] == shape[i],
{
}

/// Whether every number is a multiple of `n`.
pub open spec fn all_multiples(values: Seq<u64>, n: int) -> bool {
    forall|i: int| 0 <= i < values.len() ==> (#[trigger] values[i]) as int % n == 0
}

/// Whether every number is above zero, and at most `high`.
pub open spec fn all_within(values: Seq<u32>, high: int) -> bool {
    forall|i: int| 0 <= i < values.len() ==> 0 < (#[trigger] values[i]) <= high
}

/// Whether every corner is in a range.
pub open spec fn corners_within(corners: Seq<i32>, low: int, high: int) -> bool {
    forall|i: int| 0 <= i < corners.len() ==> low <= (#[trigger] corners[i]) <= high
}

/// The first rule for every tensor map that a map breaks, if it breaks one.
pub open spec fn generic_breach(
    map: TensorMapMeta,
    device_ptr: u64,
    shape: Seq<u64>,
    strides: Seq<u64>,
    elem_strides: Seq<u32>,
    cuda_12080: bool,
) -> Option<TensorMapRule> {
    let rank = map.shape@.len();
    let off = map.interleave == TensorMapInterleave::Off;
    if device_ptr % 16 != 0 {
        Some(TensorMapRule::PointerAlignment { bytes: 16 })
    } else if !off && device_ptr % 32 != 0 {
        Some(TensorMapRule::PointerAlignment { bytes: 32 })
    } else if !(1 <= rank <= 5) {
        Some(TensorMapRule::Rank)
    } else if !off && rank < 3 {
        Some(TensorMapRule::InterleavedRank)
    } else if exists|i: int| 0 <= i < shape.len() && (#[trigger] shape[i]) > u32::MAX {
        Some(TensorMapRule::Shape)
    } else if cuda_12080 && packed_fp4(map.storage_ty) && shape.len() > 0 && shape[0] % 2 != 0 {
        Some(TensorMapRule::PackedShape)
    } else if !all_multiples(strides, 16) {
        Some(TensorMapRule::StrideAlignment { bytes: 16 })
    } else if map.interleave == TensorMapInterleave::B32 && !all_multiples(strides, 32) {
        Some(TensorMapRule::StrideAlignment { bytes: 32 })
    } else if !all_within(elem_strides, 8) {
        Some(TensorMapRule::ElementStrides)
    } else if off && !(elem_strides.len() > 0 && elem_strides[0] == 1) {
        Some(TensorMapRule::InnermostElementStride)
    } else if map.oob_fill == OobFill::NaN && !(map.storage_ty.elem() is Float) {
        Some(TensorMapRule::NanFill)
    } else {
        None
    }
}

/// Whether every number is a multiple of `n`.
fn are_multiples(values: &Vec<u64>, n: u64) -> (r: bool)
    requires
        0 < n,
    ensures
        r == all_multiples(values@, n as int),
{
    let mut i: usize = 0;
    while i < values.len()
        invariant
            i <= values.len(),
            0 < n,
            forall|k: int| 0 <= k < i ==> (#[trigger] values@[k]) as int % n as int == 0,
        decreases values.len() - i,
    {
        if values[i] % n != 0 {
            assert(values@[i as int] as int % n as int != 0);
            return false;
        }
        i += 1;
    }
    true
}

/// Whether every number is above zero, and at most `high`.
fn are_within(values: &Vec<u32>, high: u32) -> (r: bool)
    ensures
        r == all_within(values@, high as int),
{
    let mut i: usize = 0;
    while i < values.len()
        invariant
            i <= values.len(),
            forall|k: int| 0 <= k < i ==> 0 < (#[trigger] values@[k]) <= high,
        decreases values.len() - i,
    {
        if values[i] == 0 || values[i] > high {
            assert(!(0 < values@[i as int] <= high));
            return false;
        }
        i += 1;
    }
    true
}

/// Whether every corner is in a range.
fn are_corners_within(corners: &Vec<i32>, low: i32, high: i32) -> (r: bool)
    ensures
        r == corners_within(corners@, low as int, high as int),
{
    let mut i: usize = 0;
    while i < corners.len()
        invariant
            i <= corners.len(),
            forall|k: int| 0 <= k < i ==> low <= (#[trigger] corners@[k]) <= high,
        decreases corners.len() - i,
    {
        if corners[i] < low || corners[i] > high {
            assert(!(low <= corners@[i as int] <= high));
            return false;
        }
        i += 1;
    }
    true
}

/// Whether some extent takes more than 32 bits.
fn exceeds_words(shape: &Vec<u64>) -> (r: bool)
    ensures
        r == (exists|i: int| 0 <= i < shape@.len() && (#[trigger] shape@[i]) > u32::MAX),
{
    let mut i: usize = 0;
    while i < shape.len()
        invariant
            i <= shape.len(),
            forall|k: int| 0 <= k < i ==> (#[trigger] shape@[k]) <= u32::MAX,
        decreases shape.len() - i,
    {
        if shape[i] > u32::MAX as u64 {
            assert(shape@[i as int] > u32::MAX);
            return true;
        }
        i += 1;
    }
    false
}

/// A rule that is broken, as a launch's error.
fn broken(rule: TensorMapRule) -> (r: Result<(), LaunchError>)
    ensures
        r == Err::<(), LaunchError>(LaunchError::TensorMap(rule)),
{
    Err(LaunchError::TensorMap(rule))
}

/// What a check comes to: the first rule that is broken.
pub open spec fn verdict(breach: Option<TensorMapRule>) -> Result<(), LaunchError> {
    match breach {
        Some(rule) => Err(LaunchError::TensorMap(rule)),
        None => Ok(()),
    }
}

/// Whether a tensor map, as the driver was told of it, keeps to the rules for every map. An
/// empty list of element strides has no innermost stride.
pub fn check_tma_generic(
    map: &TensorMapMeta,
    device_ptr: u64,
    shape: &Vec<u64>,
    strides: &Vec<u64>,
    elem_strides: &Vec<u32>,
    cuda_12080: bool,
) -> (r: Result<(), LaunchError>)
    ensures
        r == verdict(
            generic_breach(*map, device_ptr, shape@, strides@, elem_strides@, cuda_12080),
        ),
{
    let rank: usize = map.shape.len();
    let off: bool = match map.interleave {
        TensorMapInterleave::Off => true,
        _ => false,
    };
    let interleave32: bool = match map.interleave {
        TensorMapInterleave::B32 => true,
        _ => false,
    };
    if device_ptr % 16 != 0 {
        return broken(TensorMapRule::PointerAlignment { bytes: 16 });
    }
    if !off && device_ptr % 32 != 0 {
        return broken(TensorMapRule::PointerAlignment { bytes: 32 });
    }
    if rank < 1 || rank > 5 {
        return broken(TensorMapRule::Rank);
    }
    if !off && rank < 3 {
        return broken(TensorMapRule::InterleavedRank);
    }
    if exceeds_words(shape) {
        return broken(TensorMapRule::Shape);
    }
    if cuda_12080 && is_packed_fp4(map.storage_ty) && shape.len() > 0 && shape[0] % 2 != 0 {
        return broken(TensorMapRule::PackedShape);
    }
    if !are_multiples(strides, 16) {
        return broken(TensorMapRule::StrideAlignment { bytes: 16 });
    }
    if interleave32 && !are_multiples(strides, 32) {
        return broken(TensorMapRule::StrideAlignment { bytes: 32 });
    }
    if !are_within(elem_strides, 8) {
        return broken(TensorMapRule::ElementStrides);
    }
    if off && !(elem_strides.len() > 0 && elem_strides[0] == 1) {
        return broken(TensorMapRule::InnermostElementStride);
    }
    let nan: bool = match map.oob_fill {
        OobFill::NaN => true,
        OobFill::Zero => false,
    };
    if nan && !map.storage_ty.is_float() {
        return broken(TensorMapRule::NanFill);
    }
    Ok(())
}

/// The most bytes that the innermost dimension of a tile may have under a swizzle.
pub open spec fn swizzle_limit(swizzle: TensorMapSwizzle) -> Option<int> {
    match swizzle {
        TensorMapSwizzle::Off => None,
        TensorMapSwizzle::B32 => Some(32),
        TensorMapSwizzle::B64 => Some(64),
        _ => Some(128),
    }
}

/// The first rule for tiles that a map breaks, if it breaks one.
pub open spec fn tiled_breach(map: TensorMapMeta, tile_size: Seq<u32>) -> Option<TensorMapRule> {
    if tile_size.len() != map.shape@.len() {
        Some(TensorMapRule::TileRank)
    } else if !all_within(tile_size, 256) {
        Some(TensorMapRule::TileShape)
    } else if map.interleave == TensorMapInterleave::Off && tile_size.len() > 0 && (swizzle_limit(
        map.swizzle,
    ) matches Some(limit) && tile_size[0] * map.storage_ty.bytes() > limit) {
        Some(TensorMapRule::TileSwizzle)
    } else if map.interleave == TensorMapInterleave::B32 && map.swizzle != TensorMapSwizzle::B32 {
        Some(TensorMapRule::InterleaveSwizzle)
    } else {
        None
    }
}

/// Whether a tiled tensor map keeps to the rules for tiles.
pub fn check_tma_tiled(map: &TensorMapMeta, tile_size: &Vec<u32>) -> (r: Result<(), LaunchError>)
    requires
        map.storage_ty.bytes() <= usize::MAX / 8,
    ensures
        r == verdict(tiled_breach(*map, tile_size@)),
{
    if tile_size.len() != map.shape.len() {
        return broken(TensorMapRule::TileRank);
    }
    if !are_within(tile_size, 256) {
        return broken(TensorMapRule::TileShape);
    }
    let off: bool = match map.interleave {
        TensorMapInterleave::Off => true,
        _ => false,
    };
    let interleave32: bool = match map.interleave {
        TensorMapInterleave::B32 => true,
        _ => false,
    };
    if off && tile_size.len() > 0 {
        let limit: Option<u128> = match map.swizzle {
            TensorMapSwizzle::Off => None,
            TensorMapSwizzle::B32 => Some(32),
            TensorMapSwizzle::B64 => Some(64),
            TensorMapSwizzle::B128
            | TensorMapSwizzle::B128Atom32B
            | TensorMapSwizzle::B128Atom32BFlip8B
            | TensorMapSwizzle::B128Atom64B => Some(128),
        };
        match limit {
            Some(limit) => {
                let width: u128 = tile_size[0] as u128;
                let size: u128 = map.storage_ty.size() as u128;
                assert(tile_size@[0] <= 256);
                assert(width * size <= u128::MAX) by (nonlinear_arith)
                    requires
                        width <= 256,
                        size <= u64::MAX,
                ;
                if width * size > limit {
                    return broken(TensorMapRule::TileSwizzle);
                }
            },
            None => {},
        }
    }
    let swizzle32: bool = match map.swizzle {
        TensorMapSwizzle::B32 => true,
        _ => false,
    };
    if interleave32 && !swizzle32 {
        return broken(TensorMapRule::InterleaveSwizzle);
    }
    Ok(())
}

/// The corners that a box may have, by the rank.
pub open spec fn corner_range(rank: int) -> (int, int) {
    if rank == 3 {
        (-32768, 32767)
    } else if rank == 4 {
        (-128, 127)
    } else {
        (-16, 15)
    }
}

/// The first rule for pixel boxes that a map breaks, if it breaks one.
pub open spec fn im2col_breach(
    map: TensorMapMeta,
    lower_corner: Seq<i32>,
    upper_corner: Seq<i32>,
    channels_per_pixel: u32,
    pixels_per_column: u32,
) -> Option<TensorMapRule> {
    let rank = map.shape@.len() as int;
    let (low, high) = corner_range(rank);
    if lower_corner.len() != rank - 2 {
        Some(TensorMapRule::LowerCornerRank)
    } else if upper_corner.len() != rank - 2 {
        Some(TensorMapRule::UpperCornerRank)
    } else if !(3 <= rank <= 5) {
        Some(TensorMapRule::Im2colRank)
    } else if !corners_within(lower_corner, low, high) {
        Some(
            TensorMapRule::LowerCornerRange {
                low: low as i32,
                high: high as i32,
                rank: rank as usize,
            },
        )
    } else if !corners_within(upper_corner, low, high) {
        Some(
            TensorMapRule::UpperCornerRange {
                low: low as i32,
                high: high as i32,
                rank: rank as usize,
            },
        )
    } else if channels_per_pixel > 256 {
        Some(TensorMapRule::ChannelsPerPixel)
    } else if pixels_per_column > 1024 {
        Some(TensorMapRule::PixelsPerColumn)
    } else {
        None
    }
}

/// Whether a tensor map keeps to the rules for pixel boxes. Below rank 2 no corner has the
/// right number of elements.
pub fn check_tma_im2col(
    map: &TensorMapMeta,
    lower_corner: &Vec<i32>,
    upper_corner: &Vec<i32>,
    channels_per_pixel: u32,
    pixels_per_column: u32,
) -> (r: Result<(), LaunchError>)
    ensures
        r == verdict(
            im2col_breach(
                *map,
                lower_corner@,
                upper_corner@,
                channels_per_pixel,
                pixels_per_column,
            ),
        ),
{
    let rank: usize = map.shape.len();
    if rank < 2 || lower_corner.len() != rank - 2 {
        return broken(TensorMapRule::LowerCornerRank);
    }
    if upper_corner.len() != rank - 2 {
        return broken(TensorMapRule::UpperCornerRank);
    }
    if rank < 3 || rank > 5 {
        return broken(TensorMapRule::Im2colRank);
    }
    let (low, high): (i32, i32) = if rank == 3 {
        (-32768, 32767)
    } else if rank == 4 {
        (-128, 127)
    } else {
        (-16, 15)
    };
    if !are_corners_within(lower_corner, low, high) {
        return broken(TensorMapRule::LowerCornerRange { low, high, rank });
    }
    if !are_corners_within(upper_corner, low, high) {
        return broken(TensorMapRule::UpperCornerRange { low, high, rank });
    }
    if channels_per_pixel > 256 {
        return broken(TensorMapRule::ChannelsPerPixel);
    }
    if pixels_per_column > 1024 {
        return broken(TensorMapRule::PixelsPerColumn);
    }
    Ok(())
}

/// The first rule for its format that a map breaks, as the driver was told of it.
pub open spec fn format_breach(map: TensorMapMeta, format: EncodeFormat) -> Option<TensorMapRule> {
    match format {
        EncodeFormat::Tiled { tile_size } => tiled_breach(map, tile_size@),
        EncodeFormat::Im2col {
            lower_corner,
            upper_corner,
            channels_per_pixel,
            pixels_per_column,
        } => im2col_breach(
            map,
            lower_corner@,
            upper_corner@,
            channels_per_pixel,
            pixels_per_column,
        ),
        EncodeFormat::Im2colWide { .. } => None,
    }
}

/// Why the driver refused a tensor map: by the first rule for every map that it breaks, or
/// the first for its format, or else by the driver's own code.
pub fn encode_failure(
    map: &TensorMapMeta,
    args: &EncodeArgs,
    device_ptr: u64,
    code: i32,
    cuda_12080: bool,
) -> (r: LaunchError)
    requires
        map.storage_ty.bytes() <= usize::MAX / 8,
    ensures
        r == (match generic_breach(
            *map,
            device_ptr,
            args.shape@,
            args.strides@,
            args.elem_strides@,
            cuda_12080,
        ) {
            Some(rule) => LaunchError::TensorMap(rule),
            None => match format_breach(*map, args.format) {
                Some(rule) => LaunchError::TensorMap(rule),
                None => LaunchError::Unknown { code },
            },
        }),
{
    match check_tma_generic(
        map,
        device_ptr,
        &args.shape,
        &args.strides,
        &args.elem_strides,
        cuda_12080,
    ) {
        Ok(_) => {},
        Err(error) => {
            return error;
        },
    }
    let checked: Result<(), LaunchError> = match &args.format {
        EncodeFormat::Tiled { tile_size } => check_tma_tiled(map, tile_size),
        EncodeFormat::Im2col {
            lower_corner,
            upper_corner,
            channels_per_pixel,
            pixels_per_column,
        } => check_tma_im2col(
            map,
            lower_corner,
            upper_corner,
            *channels_per_pixel,
            *pixels_per_column,
        ),
        EncodeFormat::Im2colWide { .. } => Ok(()),
    };
    match checked {
        Ok(_) => LaunchError::Unknown { code },
        Err(error) => error,
    }
}

} // verus!
