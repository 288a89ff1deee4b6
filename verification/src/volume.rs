//! Assembly of the dense RGBA buffer of a volume.
use vstd::prelude::*;
use vstd::arithmetic::power2::{lemma2_to64_rest, lemma_pow2_adds, lemma_pow2_pos, pow2};
use crate::ieee::{Binary64, ONE_BITS};
use crate::lut::{level, level_of_the_ends, ColorLookupTable};
use crate::rounding::{
    nearest_pattern_of_a_whole_is_positive, nearest_pattern_of_scaled_ratio, nearest_pattern_of_zero,
};

verus! {

/// Why no buffer was built.
#[derive(Clone, Copy, Debug, PartialEq, Eq, Structural)]
pub enum VolumeError {
    /// The number of scalars is not `width * height * depth`.
    DimensionMismatch,
}

/// The least value among `scalars`, NaN left aside: `None` where every entry
/// is NaN or there is none. Of several entries of the least value (`-0` and
/// `+0` are one value) it is the first.
pub open spec fn lowest(scalars: Seq<Binary64>) -> Option<Binary64>
    decreases scalars.len(),
{
    if scalars.len() == 0 {
        None
    } else {
        let last = scalars.last();
        match lowest(scalars.drop_last()) {
            None => if last.is_nan() {
                None
            } else {
                Some(last)
            },
            Some(least) => if last.precedes(least) {
                Some(last)
            } else {
                Some(least)
            },
        }
    }
}

/// The greatest value among `scalars`, NaN left aside: `None` where every
/// entry is NaN or there is none. Of several entries of the greatest value it
/// is the first.
pub open spec fn highest(scalars: Seq<Binary64>) -> Option<Binary64>
    decreases scalars.len(),
{
    if scalars.len() == 0 {
        None
    } else {
        let last = scalars.last();
        match highest(scalars.drop_last()) {
            None => if last.is_nan() {
                None
            } else {
                Some(last)
            },
            Some(greatest) => if greatest.precedes(last) {
                Some(last)
            } else {
                Some(greatest)
            },
        }
    }
}

/// That the volume has no contrast: all its values that are not NaN are
/// equal, or it has none.
pub open spec fn is_flat(scalars: Seq<Binary64>) -> bool {
    match (lowest(scalars), highest(scalars)) {
        (Some(least), Some(greatest)) => least.same_value(greatest),
        _ => true,
    }
}

/// The intensity of a scalar on the scale from `least` to `greatest`:
/// `(scalar - least) / (greatest - least)` in double precision, each of the
/// three operations rounded; and `+0` where `least` is not below `greatest`,
/// so that there is nothing to divide by.
pub open spec fn normalized(scalar: Binary64, least: Binary64, greatest: Binary64) -> Binary64 {
    if least.precedes(greatest) {
        scalar.difference(least).quotient(greatest.difference(least))
    } else {
        Binary64 { bits: 0 }
    }
}

/// The place of voxel `(x, y, z)` in a buffer with x varying fastest.
pub open spec fn voxel_index(x: int, y: int, z: int, width: int, height: int) -> int {
    x + y * width + z * width * height
}

/// Computes the intensity of a scalar on the scale from `least` to `greatest`.
pub fn normalize(scalar: Binary64, least: Binary64, greatest: Binary64) -> (unit: Binary64)
    ensures
        unit == normalized(scalar, least, greatest),
{
    if least.less_than(greatest) {
        scalar.minus(least).over(greatest.minus(least))
    } else {
        Binary64 { bits: 0 }
    }
}

/// Builder of volume texture buffers.
pub struct VolumeBufferBuilder;

impl VolumeBufferBuilder {
    /// That `buffer` is the texture of `scalars` over the range from `least`
    /// to `greatest`: one colour per scalar, in the same order, each the
    /// table's colour for the normalised scalar.
    pub open spec fn is_texture_over(
        scalars: Seq<Binary64>,
        least: Binary64,
        greatest: Binary64,
        lut: ColorLookupTable,
        buffer: Seq<[u8; 4]>,
    ) -> bool {
        &&& buffer.len() == scalars.len()
        &&& forall|i: int|
            0 <= i < scalars.len() ==> #[trigger] buffer[i] == lut.entry(
                level(normalized(scalars[i], least, greatest)),
            )
    }

    /// That `buffer` is the texture of `scalars` over the range of the
    /// values observed in them: from the least to the greatest, and in a
    /// volume without numbers from `+0` to `+0`.
    pub open spec fn is_texture(
        scalars: Seq<Binary64>,
        lut: ColorLookupTable,
        buffer: Seq<[u8; 4]>,
    ) -> bool {
        match (lowest(scalars), highest(scalars)) {
            (Some(least), Some(greatest)) => Self::is_texture_over(
                scalars,
                least,
                greatest,
                lut,
                buffer,
            ),
            _ => Self::is_texture_over(
                scalars,
                Binary64 { bits: 0 },
                Binary64 { bits: 0 },
                lut,
                buffer,
            ),
        }
    }

    /// Finds the least and the greatest value in one pass.
    pub fn range(scalars: &[Binary64]) -> (range: Option<(Binary64, Binary64)>)
        ensures
            match range {
                Some((least, greatest)) => lowest(scalars@) == Some(least) && highest(scalars@)
                    == Some(greatest),
                None => lowest(scalars@).is_none() && highest(scalars@).is_none(),
            },
    {
        let mut range: Option<(Binary64, Binary64)> = None;
        let mut i: usize = 0;
        assert(scalars@.subrange(0, 0).len() == 0);
        while i < scalars.len()
            invariant
                i <= scalars.len(),
                match range {
                    Some((least, greatest)) => lowest(scalars@.subrange(0, i as int)) == Some(least)
                        && highest(scalars@.subrange(0, i as int)) == Some(greatest),
                    None => lowest(scalars@.subrange(0, i as int)).is_none() && highest(
                        scalars@.subrange(0, i as int),
                    ).is_none(),
                },
            decreases scalars.len() - i,
        {
            let scalar = scalars[i];
            proof {
                let seen = scalars@.subrange(0, i as int + 1);
                assert(seen.drop_last() == scalars@.subrange(0, i as int));
                assert(seen.last() == scalar);
            }
            range = match range {
                None => if scalar.check_nan() {
                    None
                } else {
                    Some((scalar, scalar))
                },
                Some((least, greatest)) => {
                    let least = if scalar.less_than(least) {
                        scalar
                    } else {
                        least
                    };
                    let greatest = if greatest.less_than(scalar) {
                        scalar
                    } else {
                        greatest
                    };
                    Some((least, greatest))
                },
            };
            i = i + 1;
        }
        assert(scalars@.subrange(0, i as int) == scalars@);
        range
    }

    /// Tells whether `count` is `width * height * depth`.
    pub fn matches_dimensions(count: usize, width: usize, height: usize, depth: usize) -> (same:
        bool)
        ensures
            same == (count == width * height * depth),
    {
        if width == 0 || height == 0 || depth == 0 {
            assert(width * height * depth == 0) by (nonlinear_arith)
                requires
                    width == 0 || height == 0 || depth == 0,
            ;
            return count == 0;
        }
        match width.checked_mul(height) {
            None => {
                assert(width * height * depth >= width * height) by (nonlinear_arith)
                    requires
                        width * height >= 0,
                        depth >= 1,
                ;
                false
            },
            Some(plane) => match plane.checked_mul(depth) {
                None => false,
                Some(volume) => count == volume,
            },
        }
    }

    /// Colours scalars over a range of the caller's choosing: one colour per
    /// scalar, in the same order, each the table's colour for the scalar
    /// normalised over the range. Where `least` is not below `greatest`,
    /// every scalar has the colour of the intensity `+0`.
    pub fn colorize_over(
        scalars: &[Binary64],
        lut: &ColorLookupTable,
        least: Binary64,
        greatest: Binary64,
    ) -> (buffer: Vec<[u8; 4]>)
        ensures
            Self::is_texture_over(scalars@, least, greatest, *lut, buffer@),
    {
        let total: usize = scalars.len();
        let mut buffer: Vec<[u8; 4]> = Vec::with_capacity(total);
        if least.less_than(greatest) {
            let span: Binary64 = greatest.minus(least);
            let mut i: usize = 0;
            while i < total
                invariant
                    i <= total,
                    total == scalars.len(),
                    least.precedes(greatest),
                    span == greatest.difference(least),
                    buffer@.len() == i,
                    forall|k: int|
                        0 <= k < i ==> #[trigger] buffer@[k] == lut.entry(
                            level(normalized(scalars@[k], least, greatest)),
                        ),
                decreases total - i,
            {
                let unit = scalars[i].minus(least).over(span);
                buffer.push(lut.lookup(unit));
                i = i + 1;
            }
        } else {
            let flat: [u8; 4] = lut.lookup(Binary64 { bits: 0 });
            let mut i: usize = 0;
            while i < total
                invariant
                    i <= total,
                    total == scalars.len(),
                    !least.precedes(greatest),
                    buffer@.len() == i,
                    forall|k: int|
                        0 <= k < i ==> #[trigger] buffer@[k] == lut.entry(
                            level(normalized(scalars@[k], least, greatest)),
                        ),
                    flat == lut.entry(level(Binary64 { bits: 0 })),
                decreases total - i,
            {
                buffer.push(flat);
                i = i + 1;
            }
        }
        buffer
    }

    /// Colours scalars over the range of the values observed in them, which
    /// is found once, over all of them. Where they are all one value, or
    /// none is a number, every scalar has the colour of the intensity `+0`.
    pub fn colorize(scalars: &[Binary64], lut: &ColorLookupTable) -> (buffer: Vec<[u8; 4]>)
        ensures
            Self::is_texture(scalars@, *lut, buffer@),
    {
        let (least, greatest) = match Self::range(scalars) {
            None => (Binary64 { bits: 0 }, Binary64 { bits: 0 }),
            Some(range) => range,
        };
        Self::colorize_over(scalars, lut, least, greatest)
    }

    /// Colours a volume over a range of the caller's choosing.
    ///
    /// Fails with `DimensionMismatch` exactly when `scalars` does not hold
    /// `width * height * depth` values. Otherwise the buffer holds one colour
    /// per scalar, voxel `(x, y, z)` at [`voxel_index`], as
    /// [`VolumeBufferBuilder::colorize_over`] gives them.
    pub fn build_over(
        scalars: &[Binary64],
        width: usize,
        height: usize,
        depth: usize,
        lut: &ColorLookupTable,
        least: Binary64,
        greatest: Binary64,
    ) -> (result: Result<Vec<[u8; 4]>, VolumeError>)
        ensures
            (result matches Err(VolumeError::DimensionMismatch)) <==> scalars.len() != width
                * height * depth,
            result matches Ok(buffer) ==> buffer@.len() == width * height * depth
                && Self::is_texture_over(scalars@, least, greatest, *lut, buffer@),
    {
        if !Self::matches_dimensions(scalars.len(), width, height, depth) {
            return Err(VolumeError::DimensionMismatch);
        }
        Ok(Self::colorize_over(scalars, lut, least, greatest))
    }

    /// Colours a volume over the range of the values observed in it.
    ///
    /// Fails with `DimensionMismatch` exactly when `scalars` does not hold
    /// `width * height * depth` values. Otherwise the buffer holds one colour
    /// per scalar, voxel `(x, y, z)` at [`voxel_index`]: the table's colour
    /// for the scalar normalised between the least and the greatest value of
    /// the volume, which are found once, over the whole of it. In a flat
    /// volume every voxel has the colour of the intensity `+0`.
    pub fn build(
        scalars: &[Binary64],
        width: usize,
        height: usize,
        depth: usize,
        lut: &ColorLookupTable,
    ) -> (result: Result<Vec<[u8; 4]>, VolumeError>)
        ensures
            (result matches Err(VolumeError::DimensionMismatch)) <==> scalars.len() != width
                * height * depth,
            result matches Ok(buffer) ==> buffer@.len() == width * height * depth
                && Self::is_texture(scalars@, *lut, buffer@),
    {
        if !Self::matches_dimensions(scalars.len(), width, height, depth) {
            return Err(VolumeError::DimensionMismatch);
        }
        Ok(Self::colorize(scalars, lut))
    }

    /// The place of voxel `(x, y, z)` in the buffer of a `width` by `height`
    /// by `depth` volume, or `None` where the voxel is outside the grid or
    /// the grid has more voxels than an index can count.
    pub fn index_of(x: usize, y: usize, z: usize, width: usize, height: usize, depth: usize) -> (index:
        Option<usize>)
        ensures
            index matches Some(place) ==> place == voxel_index(
                x as int,
                y as int,
                z as int,
                width as int,
                height as int,
            ) && place < width * height * depth,
            index is Some <==> x < width && y < height && z < depth && width * height * depth
                <= usize::MAX,
    {
        if x >= width || y >= height || z >= depth {
            return None;
        }
        let plane: usize = match width.checked_mul(height) {
            None => {
                assert(width * height * depth >= width * height) by (nonlinear_arith)
                    requires
                        width * height >= 0,
                        depth >= 1,
                ;
                return None;
            },
            Some(plane) => plane,
        };
        if plane.checked_mul(depth).is_none() {
            return None;
        }
        proof {
            voxel_index_is_in_bounds(
                x as int,
                y as int,
                z as int,
                width as int,
                height as int,
                depth as int,
            );
            assert(y * width <= (height - 1) * width) by (nonlinear_arith)
                requires
                    0 <= y <= height - 1,
                    width >= 0,
            ;
            assert(z * plane <= (depth - 1) * plane) by (nonlinear_arith)
                requires
                    0 <= z <= depth - 1,
                    plane >= 0,
            ;
            assert((height - 1) * width == plane - width) by (nonlinear_arith)
                requires
                    plane == width * height,
            ;
            assert((depth - 1) * plane == plane * depth - plane) by (nonlinear_arith);
            assert(z * width * height == z * plane) by (nonlinear_arith)
                requires
                    plane == width * height,
            ;
        }
        Some(x + y * width + z * plane)
    }
}

/// Every voxel of the grid has a place in the buffer.
pub proof fn voxel_index_is_in_bounds(x: int, y: int, z: int, width: int, height: int, depth: int)
    requires
        0 <= x < width,
        0 <= y < height,
        0 <= z < depth,
    ensures
        0 <= voxel_index(x, y, z, width, height) < width * height * depth,
{
    assert(y * width <= (height - 1) * width) by (nonlinear_arith)
        requires
            0 <= y <= height - 1,
            width >= 0,
    ;
    assert(z * width * height <= (depth - 1) * (width * height) && z * width * height >= 0)
        by (nonlinear_arith)
        requires
            0 <= z <= depth - 1,
            width >= 0,
            height >= 0,
    ;
    assert((height - 1) * width + (depth - 1) * (width * height) == width * height * depth - width)
        by (nonlinear_arith);
    assert(y * width >= 0) by (nonlinear_arith)
        requires
            y >= 0,
            width >= 0,
    ;
}

/// No two voxels of the grid share a place in the buffer.
pub proof fn voxel_index_is_injective(
    x: int,
    y: int,
    z: int,
    other_x: int,
    other_y: int,
    other_z: int,
    width: int,
    height: int,
)
    requires
        0 <= x < width,
        0 <= y < height,
        0 <= other_x < width,
        0 <= other_y < height,
        0 <= z,
        0 <= other_z,
        voxel_index(x, y, z, width, height) == voxel_index(other_x, other_y, other_z, width, height),
    ensures
        x == other_x,
        y == other_y,
        z == other_z,
{
    let row = y + z * height;
    let other_row = other_y + other_z * height;
    assert(voxel_index(x, y, z, width, height) == x + row * width) by (nonlinear_arith)
        requires
            row == y + z * height,
            voxel_index(x, y, z, width, height) == x + y * width + z * width * height,
    ;
    assert(voxel_index(other_x, other_y, other_z, width, height) == other_x + other_row * width)
        by (nonlinear_arith)
        requires
            other_row == other_y + other_z * height,
            voxel_index(other_x, other_y, other_z, width, height) == other_x + other_y * width
                + other_z * width * height,
    ;
    mixed_radix_is_injective(x, row, other_x, other_row, width);
    mixed_radix_is_injective(y, z, other_y, other_z, height);
}

/// A digit below the base and the number above it are determined by their sum.
proof fn mixed_radix_is_injective(digit: int, rest: int, other_digit: int, other_rest: int, base: int)
    requires
        0 <= digit < base,
        0 <= other_digit < base,
        digit + rest * base == other_digit + other_rest * base,
    ensures
        digit == other_digit,
        rest == other_rest,
{
    assert(rest == other_rest) by (nonlinear_arith)
        requires
            0 <= digit < base,
            0 <= other_digit < base,
            digit + rest * base == other_digit + other_rest * base,
    ;
}

/// What the least value is: no NaN, an entry of the sequence, and preceded
/// by no entry. There is none exactly where every entry is NaN.
pub proof fn lowest_is_least(scalars: Seq<Binary64>)
    ensures
        match lowest(scalars) {
            Some(least) => {
                &&& !least.is_nan()
                &&& scalars.contains(least)
                &&& forall|k: int| 0 <= k < scalars.len() ==> !(#[trigger] scalars[k]).precedes(least)
            },
            None => forall|k: int| 0 <= k < scalars.len() ==> (#[trigger] scalars[k]).is_nan(),
        },
    decreases scalars.len(),
{
    if scalars.len() > 0 {
        let front = scalars.drop_last();
        lowest_is_least(front);
        assert forall|k: int| 0 <= k < front.len() implies front[k] == scalars[k] by {}
        match lowest(front) {
            Some(least) => {
                let j = choose|j: int| 0 <= j < front.len() && front[j] == least;
                assert(scalars[j] == least);
                assert(scalars[scalars.len() - 1] == scalars.last());
                assert forall|k: int| 0 <= k < scalars.len() implies !(#[trigger] scalars[k]).precedes(
                    lowest(scalars)->0,
                ) by {
                    if k < front.len() {
                        assert(!front[k].precedes(least));
                    }
                }
            },
            None => {
                assert(scalars[scalars.len() - 1] == scalars.last());
                assert forall|k: int| 0 <= k < scalars.len() && lowest(
                    scalars,
                ) is Some implies !(#[trigger] scalars[k]).precedes(lowest(scalars)->0) by {
                    if k < front.len() {
                        assert(front[k].is_nan());
                    }
                }
                assert forall|k: int| 0 <= k < scalars.len() && lowest(
                    scalars,
                ) is None implies (#[trigger] scalars[k]).is_nan() by {
                    if k < front.len() {
                        assert(front[k].is_nan());
                    }
                }
            },
        }
    }
}

/// What the greatest value is: no NaN, an entry of the sequence, and
/// preceding no entry. There is none exactly where every entry is NaN.
pub proof fn highest_is_greatest(scalars: Seq<Binary64>)
    ensures
        match highest(scalars) {
            Some(greatest) => {
                &&& !greatest.is_nan()
                &&& scalars.contains(greatest)
                &&& forall|k: int|
                    0 <= k < scalars.len() ==> !greatest.precedes(#[trigger] scalars[k])
            },
            None => forall|k: int| 0 <= k < scalars.len() ==> (#[trigger] scalars[k]).is_nan(),
        },
    decreases scalars.len(),
{
    if scalars.len() > 0 {
        let front = scalars.drop_last();
        highest_is_greatest(front);
        assert forall|k: int| 0 <= k < front.len() implies front[k] == scalars[k] by {}
        match highest(front) {
            Some(greatest) => {
                let j = choose|j: int| 0 <= j < front.len() && front[j] == greatest;
                assert(scalars[j] == greatest);
                assert(scalars[scalars.len() - 1] == scalars.last());
                assert forall|k: int| 0 <= k < scalars.len() implies !(highest(
                    scalars,
                )->0).precedes(#[trigger] scalars[k]) by {
                    if k < front.len() {
                        assert(!greatest.precedes(front[k]));
                    }
                }
            },
            None => {
                assert(scalars[scalars.len() - 1] == scalars.last());
                assert forall|k: int| 0 <= k < scalars.len() && highest(
                    scalars,
                ) is Some implies !(highest(scalars)->0).precedes(#[trigger] scalars[k]) by {
                    if k < front.len() {
                        assert(front[k].is_nan());
                    }
                }
                assert forall|k: int| 0 <= k < scalars.len() && highest(
                    scalars,
                ) is None implies (#[trigger] scalars[k]).is_nan() by {
                    if k < front.len() {
                        assert(front[k].is_nan());
                    }
                }
            },
        }
    }
}

/// A volume that is not flat has a least value strictly below its greatest.
pub proof fn contrast_is_positive(scalars: Seq<Binary64>)
    requires
        !is_flat(scalars),
    ensures
        lowest(scalars) is Some,
        highest(scalars) is Some,
        (lowest(scalars)->0).precedes(highest(scalars)->0),
{
    lowest_is_least(scalars);
    highest_is_greatest(scalars);
    let least = lowest(scalars)->0;
    let greatest = highest(scalars)->0;
    let j = choose|j: int| 0 <= j < scalars.len() && scalars[j] == greatest;
    assert(!scalars[j].precedes(least));
}

/// A flat volume is coloured uniformly: every voxel of its texture has the
/// colour that the table has for the normalised intensity `+0`.
pub proof fn flat_volume_is_uniform(
    scalars: Seq<Binary64>,
    lut: ColorLookupTable,
    buffer: Seq<[u8; 4]>,
    i: int,
)
    requires
        is_flat(scalars),
        VolumeBufferBuilder::is_texture(scalars, lut, buffer),
        0 <= i < scalars.len(),
    ensures
        buffer.len() == scalars.len(),
        buffer[i] == lut.entry(level(Binary64 { bits: 0 })),
{
}

/// A texture has one colour for each scalar.
pub proof fn texture_has_one_colour_per_scalar(
    scalars: Seq<Binary64>,
    lut: ColorLookupTable,
    buffer: Seq<[u8; 4]>,
)
    requires
        VolumeBufferBuilder::is_texture(scalars, lut, buffer),
    ensures
        buffer.len() == scalars.len(),
{
}

/// Over a range with finite ends and a finite span, the least value is
/// normalised to `+0` and the greatest to 1: the first has the table's
/// colour of level 0, the second that of level 255.
pub proof fn range_ends_are_the_ends_of_the_scale(least: Binary64, greatest: Binary64)
    requires
        least.is_finite(),
        greatest.is_finite(),
        least.precedes(greatest),
        greatest.difference(least).is_finite(),
    ensures
        normalized(least, least, greatest) == (Binary64 { bits: 0 }),
        normalized(greatest, least, greatest) == (Binary64 { bits: ONE_BITS }),
        level(normalized(least, least, greatest)) == 0,
        level(normalized(greatest, least, greatest)) == 255,
{
    let opposite = least.negated();
    assert(opposite.biased_exponent() == least.biased_exponent());
    assert(opposite.fraction() == least.fraction());
    assert(opposite.scaled() == -least.scaled());
    // the least value less itself is +0
    let nothing = least.difference(least);
    assert(nothing == Binary64 { bits: 0 });
    assert(nothing.significand() == 0);
    assert(0 * pow2(nothing.scale()) == 0);
    // the span is a positive number
    let span = greatest.difference(least);
    least.order_follows_value(greatest);
    let exact = greatest.scaled() - least.scaled();
    nearest_pattern_of_a_whole_is_positive(exact);
    assert(span.abs_bits() == crate::rounding::nearest_pattern(exact, 1));
    span.zero_has_no_magnitude();
    let magnitude = span.magnitude() as int;
    // nothing over the span is +0
    assert(0 * pow2(1074) == 0);
    nearest_pattern_of_zero(magnitude);
    // the span over itself is 1
    let one = Binary64 { bits: ONE_BITS };
    let unit = pow2(1074) as int;
    assert(one.biased_exponent() == 1023 && one.fraction() == 0);
    lemma2_to64_rest();
    lemma_pow2_adds(52, 1022);
    lemma_pow2_pos(1074);
    assert(one.magnitude() == unit);
    one.representable_rounds_to_itself();
    nearest_pattern_of_scaled_ratio(unit, 1, magnitude);
    assert(magnitude * 1 == magnitude);
    level_of_the_ends();
}

} // verus!
