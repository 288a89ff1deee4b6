//! The voxel payload behind the header.
use vstd::prelude::*;
use crate::header::Nifti1Header;
use crate::ieee::{Binary32, Binary64};
use crate::wire::{
    le_i16, le_i32, le_i64, le_u16, le_u32, le_u64, read_i16, read_i32, read_i64, read_u16,
    read_u32, read_u64, twos_complement,
};

verus! {

/// How one voxel is stored.
#[derive(Clone, Copy, Debug, PartialEq, Eq, Structural)]
pub enum Datatype {
    /// Code 2: one unsigned byte.
    Uint8,
    /// Code 4: signed 16-bit integer.
    Int16,
    /// Code 8: signed 32-bit integer.
    Int32,
    /// Code 16: binary32.
    Float32,
    /// Code 64: binary64.
    Float64,
    /// Code 256: one signed byte.
    Int8,
    /// Code 512: unsigned 16-bit integer.
    Uint16,
    /// Code 768: unsigned 32-bit integer.
    Uint32,
    /// Code 1024: signed 64-bit integer.
    Int64,
    /// Code 1280: unsigned 64-bit integer.
    Uint64,
}

impl Datatype {
    /// The storage type that a `datatype` code names, if it is a supported one.
    pub open spec fn of_code(code: int) -> Option<Datatype> {
        if code == 2 {
            Some(Datatype::Uint8)
        } else if code == 4 {
            Some(Datatype::Int16)
        } else if code == 8 {
            Some(Datatype::Int32)
        } else if code == 16 {
            Some(Datatype::Float32)
        } else if code == 64 {
            Some(Datatype::Float64)
        } else if code == 256 {
            Some(Datatype::Int8)
        } else if code == 512 {
            Some(Datatype::Uint16)
        } else if code == 768 {
            Some(Datatype::Uint32)
        } else if code == 1024 {
            Some(Datatype::Int64)
        } else if code == 1280 {
            Some(Datatype::Uint64)
        } else {
            None
        }
    }

    /// Bytes per voxel.
    pub open spec fn width(self) -> nat {
        match self {
            Datatype::Uint8 | Datatype::Int8 => 1,
            Datatype::Int16 | Datatype::Uint16 => 2,
            Datatype::Int32 | Datatype::Uint32 | Datatype::Float32 => 4,
            Datatype::Float64 | Datatype::Int64 | Datatype::Uint64 => 8,
        }
    }

    /// Whether voxels are stored as integers.
    pub open spec fn is_integral(self) -> bool {
        self != Datatype::Float32 && self != Datatype::Float64
    }

    /// The integer stored at `at`, for a type that stores integers.
    pub open spec fn integer(self, s: Seq<u8>, at: int) -> int {
        match self {
            Datatype::Uint8 => s[at] as int,
            Datatype::Int8 => twos_complement(s[at] as int, 0x100),
            Datatype::Int16 => le_i16(s, at),
            Datatype::Uint16 => le_u16(s, at),
            Datatype::Int32 => le_i32(s, at),
            Datatype::Uint32 => le_u32(s, at),
            Datatype::Int64 => le_i64(s, at),
            Datatype::Uint64 => le_u64(s, at),
            Datatype::Float32 | Datatype::Float64 => 0,
        }
    }

    /// The value of the voxel stored at `at`, in double precision: the
    /// stored binary64 as it is, the stored binary32 widened, or the value
    /// nearest to the stored integer, which for integers of up to 32 bits is
    /// the integer itself.
    pub open spec fn sample(self, s: Seq<u8>, at: int) -> Binary64 {
        match self {
            Datatype::Float32 => (Binary32 { bits: le_u32(s, at) as u32 }).widened(),
            Datatype::Float64 => Binary64 { bits: le_u64(s, at) as u64 },
            _ => Binary64::of_integer(self.integer(s, at)),
        }
    }

    /// Looks up a `datatype` code.
    pub fn from_code(code: i16) -> (datatype: Option<Datatype>)
        ensures
            datatype == Self::of_code(code as int),
    {
        if code == 2 {
            Some(Datatype::Uint8)
        } else if code == 4 {
            Some(Datatype::Int16)
        } else if code == 8 {
            Some(Datatype::Int32)
        } else if code == 16 {
            Some(Datatype::Float32)
        } else if code == 64 {
            Some(Datatype::Float64)
        } else if code == 256 {
            Some(Datatype::Int8)
        } else if code == 512 {
            Some(Datatype::Uint16)
        } else if code == 768 {
            Some(Datatype::Uint32)
        } else if code == 1024 {
            Some(Datatype::Int64)
        } else if code == 1280 {
            Some(Datatype::Uint64)
        } else {
            None
        }
    }

    /// Bytes per voxel.
    pub fn byte_width(self) -> (width: usize)
        ensures
            width == self.width(),
            1 <= width <= 8,
    {
        match self {
            Datatype::Uint8 | Datatype::Int8 => 1,
            Datatype::Int16 | Datatype::Uint16 => 2,
            Datatype::Int32 | Datatype::Uint32 | Datatype::Float32 => 4,
            Datatype::Float64 | Datatype::Int64 | Datatype::Uint64 => 8,
        }
    }

    /// Bits per voxel, the value that the header's `bitpix` is to hold.
    pub fn bits(self) -> (bits: i16)
        ensures
            bits == 8 * self.width(),
    {
        match self {
            Datatype::Uint8 | Datatype::Int8 => 8,
            Datatype::Int16 | Datatype::Uint16 => 16,
            Datatype::Int32 | Datatype::Uint32 | Datatype::Float32 => 32,
            Datatype::Float64 | Datatype::Int64 | Datatype::Uint64 => 64,
        }
    }

    /// Reads the voxel stored at `at`.
    pub fn read(self, bytes: &[u8], at: usize) -> (sample: Binary64)
        requires
            at + self.width() <= bytes.len(),
        ensures
            sample == self.sample(bytes@, at as int),
    {
        match self {
            Datatype::Uint8 => Binary64::from_u64(bytes[at] as u64),
            Datatype::Int16 => Binary64::from_i64(read_i16(bytes, at) as i64),
            Datatype::Int32 => Binary64::from_i64(read_i32(bytes, at) as i64),
            Datatype::Float32 => (Binary32 { bits: read_u32(bytes, at) }).widen(),
            Datatype::Float64 => Binary64 { bits: read_u64(bytes, at) },
            Datatype::Int8 => {
                let pattern: u8 = bytes[at];
                let value: i64 = if pattern < 0x80 {
                    pattern as i64
                } else {
                    pattern as i64 - 0x100
                };
                Binary64::from_i64(value)
            },
            Datatype::Uint16 => Binary64::from_u64(read_u16(bytes, at) as u64),
            Datatype::Uint32 => Binary64::from_u64(read_u32(bytes, at) as u64),
            Datatype::Int64 => Binary64::from_i64(read_i64(bytes, at)),
            Datatype::Uint64 => Binary64::from_u64(read_u64(bytes, at)),
        }
    }

    /// Integers of up to 32 bits are decoded exactly: the sample is the
    /// stored integer.
    pub proof fn narrow_integers_are_exact(self, s: Seq<u8>, at: int)
        requires
            self.is_integral(),
            self.width() <= 4,
        ensures
            self.sample(s, at).is_integer(self.integer(s, at)),
    {
        Binary64::of_integer_is_exact(self.integer(s, at));
    }
}

/// Why the voxel payload cannot be decoded.
#[derive(Clone, Copy, Debug, PartialEq, Eq, Structural)]
pub enum VoxelError {
    /// `vox_offset` points past the end of the buffer.
    OffsetOutOfRange,
    /// The image has a fourth or higher axis with more than one entry.
    UnsupportedDimensionality,
    /// The `datatype` code is not one of the supported scalar types.
    UnsupportedDatatype,
    /// The buffer ends before the last voxel that the header declares.
    TruncatedVoxelData,
}

/// Reader of the voxel payload.
pub struct VoxelDecoder;

impl VoxelDecoder {
    /// Where the voxel data begins: `vox_offset` as a whole number of bytes.
    pub open spec fn offset(header: Nifti1Header) -> int {
        header.vox_offset.to_usize_spec()
    }

    /// That the header asks for more than a three-dimensional grid.
    pub open spec fn has_extra_axes(header: Nifti1Header) -> bool {
        header.dim[0] > 3 && (header.dim[4] > 1 || header.dim[5] > 1 || header.dim[6] > 1
            || header.dim[7] > 1)
    }

    /// The outcome of the checks, in the order in which they are made: the
    /// storage type of the voxels where the payload can be decoded, else the
    /// first check that fails.
    pub open spec fn check(bytes: Seq<u8>, header: Nifti1Header) -> Result<Datatype, VoxelError> {
        if Self::offset(header) > bytes.len() {
            Err(VoxelError::OffsetOutOfRange)
        } else if Self::has_extra_axes(header) {
            Err(VoxelError::UnsupportedDimensionality)
        } else {
            match Datatype::of_code(header.datatype as int) {
                None => Err(VoxelError::UnsupportedDatatype),
                Some(datatype) => if Self::offset(header) + header.voxel_count() * datatype.width()
                    > bytes.len() {
                    Err(VoxelError::TruncatedVoxelData)
                } else {
                    Ok(datatype)
                },
            }
        }
    }

    /// The value stored for voxel `i`, counted in storage order: x fastest,
    /// then y, then z.
    pub open spec fn stored(bytes: Seq<u8>, header: Nifti1Header, datatype: Datatype, i: int) -> Binary64 {
        datatype.sample(bytes, Self::offset(header) + i * datatype.width())
    }

    /// The calibrated value of a stored value: `raw * scl_slope + scl_inter`
    /// in double precision, each of the two operations rounded; and the
    /// stored value unchanged where `scl_slope` is zero, which says that the
    /// file carries no calibration.
    pub open spec fn calibrated(raw: Binary64, header: Nifti1Header) -> Binary64 {
        if header.scl_slope.is_zero() {
            raw
        } else {
            raw.product(header.scl_slope.widened()).sum(header.scl_inter.widened())
        }
    }

    /// That `samples` are the stored voxels in storage order, none left out
    /// and none added.
    pub open spec fn is_payload(
        bytes: Seq<u8>,
        header: Nifti1Header,
        datatype: Datatype,
        samples: Seq<Binary64>,
    ) -> bool {
        &&& samples.len() == header.voxel_count()
        &&& forall|i: int|
            0 <= i < samples.len() ==> #[trigger] samples[i] == Self::stored(
                bytes,
                header,
                datatype,
                i,
            )
    }

    /// That `samples` are the calibrated voxels in storage order, none left
    /// out and none added.
    pub open spec fn is_decoding(
        bytes: Seq<u8>,
        header: Nifti1Header,
        datatype: Datatype,
        samples: Seq<Binary64>,
    ) -> bool {
        &&& samples.len() == header.voxel_count()
        &&& forall|i: int|
            0 <= i < samples.len() ==> #[trigger] samples[i] == Self::calibrated(
                Self::stored(bytes, header, datatype, i),
                header,
            )
    }

    /// Tells whether `bitpix` agrees with `datatype`: the code names a
    /// supported storage type and `bitpix` is the number of its bits.
    pub fn bitpix_is_consistent(header: &Nifti1Header) -> (consistent: bool)
        ensures
            consistent <==> (Datatype::of_code(header.datatype as int) matches Some(datatype)
                && header.bitpix == 8 * datatype.width()),
    {
        match Datatype::from_code(header.datatype) {
            None => false,
            Some(datatype) => header.bitpix == datatype.bits(),
        }
    }

    /// Makes the checks of [`VoxelDecoder::check`], and finds the place and
    /// the number of the voxels.
    fn locate(bytes: &[u8], header: &Nifti1Header) -> (result: Result<
        (Datatype, usize, usize),
        VoxelError,
    >)
        ensures
            match result {
                Ok((datatype, offset, count)) => {
                    &&& Self::check(bytes@, *header) == Ok::<Datatype, VoxelError>(datatype)
                    &&& offset == Self::offset(*header)
                    &&& count == header.voxel_count()
                    &&& offset + count * datatype.width() <= bytes.len()
                },
                Err(error) => Self::check(bytes@, *header) == Err::<Datatype, VoxelError>(error),
            },
    {
        let offset: usize = header.vox_offset.to_usize();
        if offset > bytes.len() {
            return Err(VoxelError::OffsetOutOfRange);
        }
        if header.dim[0] > 3 && (header.dim[4] > 1 || header.dim[5] > 1 || header.dim[6] > 1
            || header.dim[7] > 1) {
            return Err(VoxelError::UnsupportedDimensionality);
        }
        let datatype = match Datatype::from_code(header.datatype) {
            None => { return Err(VoxelError::UnsupportedDatatype); },
            Some(datatype) => datatype,
        };
        let width: usize = datatype.byte_width();
        let columns: u64 = header.width() as u64;
        let rows: u64 = header.height() as u64;
        let slices: u64 = header.depth() as u64;
        assert(columns * rows <= 0x7fff * 0x7fff) by (nonlinear_arith)
            requires
                columns <= 0x7fff,
                rows <= 0x7fff,
        ;
        let plane: u64 = columns * rows;
        assert(plane * slices <= 0x7fff * 0x7fff * 0x7fff) by (nonlinear_arith)
            requires
                plane <= 0x7fff * 0x7fff,
                slices <= 0x7fff,
        ;
        let count: u64 = plane * slices;
        assert(count * width <= 0x7fff * 0x7fff * 0x7fff * 8) by (nonlinear_arith)
            requires
                count <= 0x7fff * 0x7fff * 0x7fff,
                width <= 8,
        ;
        let needed: u64 = count * (width as u64);
        if needed > (bytes.len() - offset) as u64 {
            return Err(VoxelError::TruncatedVoxelData);
        }
        assert(count <= needed) by (nonlinear_arith)
            requires
                needed == count * width,
                width >= 1,
        ;
        Ok((datatype, offset, count as usize))
    }

    /// Reads the voxels as they are stored, without calibration.
    ///
    /// Fails exactly as [`VoxelDecoder::check`] says. On success the result
    /// holds one sample per voxel of the grid: sample `i` is the value stored
    /// at `offset + i * width`.
    pub fn decode_raw(bytes: &[u8], header: &Nifti1Header) -> (result: Result<
        Vec<Binary64>,
        VoxelError,
    >)
        ensures
            match result {
                Ok(samples) => Self::check(bytes@, *header) is Ok && Self::is_payload(
                    bytes@,
                    *header,
                    Self::check(bytes@, *header)->Ok_0,
                    samples@,
                ),
                Err(error) => Self::check(bytes@, *header) == Err::<Datatype, VoxelError>(error),
            },
    {
        let (datatype, offset, total) = match Self::locate(bytes, header) {
            Err(error) => { return Err(error); },
            Ok(found) => found,
        };
        let width: usize = datatype.byte_width();
        let mut samples: Vec<Binary64> = Vec::with_capacity(total);
        let mut i: usize = 0;
        let mut at: usize = offset;
        while i < total
            invariant
                i <= total,
                at == offset + i * width,
                offset + total * width <= bytes.len(),
                width == datatype.width(),
                offset == Self::offset(*header),
                samples@.len() == i,
                forall|k: int|
                    0 <= k < i ==> #[trigger] samples@[k] == Self::stored(
                        bytes@,
                        *header,
                        datatype,
                        k,
                    ),
            decreases total - i,
        {
            assert((i + 1) * width == i * width + width) by (nonlinear_arith);
            assert((i + 1) * width <= total * width) by (nonlinear_arith)
                requires
                    i + 1 <= total,
            ;
            samples.push(datatype.read(bytes, at));
            at = at + width;
            i = i + 1;
        }
        Ok(samples)
    }

    /// Applies the header's calibration to one stored value.
    pub fn calibrate(raw: Binary64, header: &Nifti1Header) -> (value: Binary64)
        ensures
            value == Self::calibrated(raw, *header),
    {
        if header.scl_slope.equals_zero() {
            raw
        } else {
            raw.times(header.scl_slope.widen()).plus(header.scl_inter.widen())
        }
    }

    /// Reads the voxels and calibrates them.
    ///
    /// Fails exactly as [`VoxelDecoder::check`] says: with
    /// `OffsetOutOfRange` where the data would begin past the end of the
    /// buffer, else with `UnsupportedDimensionality` where a fourth or
    /// higher axis is in use, else with `UnsupportedDatatype` where the
    /// datatype code is none of the supported ones, else with
    /// `TruncatedVoxelData` where the buffer ends before the last voxel. On
    /// success the result holds one value per voxel of the grid, in storage
    /// order: the calibrated value of what is stored at `offset + i * width`.
    pub fn decode(bytes: &[u8], header: &Nifti1Header) -> (result: Result<Vec<Binary64>, VoxelError>)
        ensures
            match result {
                Ok(samples) => Self::check(bytes@, *header) is Ok && Self::is_decoding(
                    bytes@,
                    *header,
                    Self::check(bytes@, *header)->Ok_0,
                    samples@,
                ),
                Err(error) => Self::check(bytes@, *header) == Err::<Datatype, VoxelError>(error),
            },
    {
        let (datatype, offset, total) = match Self::locate(bytes, header) {
            Err(error) => { return Err(error); },
            Ok(found) => found,
        };
        let width: usize = datatype.byte_width();
        let plain: bool = header.scl_slope.equals_zero();
        let slope: Binary64 = header.scl_slope.widen();
        let inter: Binary64 = header.scl_inter.widen();
        let mut samples: Vec<Binary64> = Vec::with_capacity(total);
        let mut i: usize = 0;
        let mut at: usize = offset;
        while i < total
            invariant
                i <= total,
                at == offset + i * width,
                offset + total * width <= bytes.len(),
                width == datatype.width(),
                offset == Self::offset(*header),
                plain == header.scl_slope.is_zero(),
                slope == header.scl_slope.widened(),
                inter == header.scl_inter.widened(),
                samples@.len() == i,
                forall|k: int|
                    0 <= k < i ==> #[trigger] samples@[k] == Self::calibrated(
                        Self::stored(bytes@, *header, datatype, k),
                        *header,
                    ),
            decreases total - i,
        {
            assert((i + 1) * width == i * width + width) by (nonlinear_arith);
            assert((i + 1) * width <= total * width) by (nonlinear_arith)
                requires
                    i + 1 <= total,
            ;
            let raw = datatype.read(bytes, at);
            let value = if plain {
                raw
            } else {
                raw.times(slope).plus(inter)
            };
            samples.push(value);
            at = at + width;
            i = i + 1;
        }
        Ok(samples)
    }

    /// Without calibration the decoded values are the stored ones: where
    /// `scl_slope` is zero, a decoding is the payload itself.
    pub proof fn zero_slope_keeps_stored_values(
        bytes: Seq<u8>,
        header: Nifti1Header,
        datatype: Datatype,
        samples: Seq<Binary64>,
    )
        requires
            header.scl_slope.is_zero(),
            Self::is_decoding(bytes, header, datatype, samples),
        ensures
            Self::is_payload(bytes, header, datatype, samples),
    {
    }

    /// With calibration every decoded value is the stored value times the
    /// slope, rounded, plus the intercept, rounded.
    pub proof fn nonzero_slope_scales_stored_values(
        bytes: Seq<u8>,
        header: Nifti1Header,
        datatype: Datatype,
        samples: Seq<Binary64>,
        i: int,
    )
        requires
            !header.scl_slope.is_zero(),
            Self::is_decoding(bytes, header, datatype, samples),
            0 <= i < samples.len(),
        ensures
            samples[i] == Self::stored(bytes, header, datatype, i).product(
                header.scl_slope.widened(),
            ).sum(header.scl_inter.widened()),
    {
    }

    /// Data that begins past the end of the buffer is refused, whatever
    /// else the header says.
    pub proof fn offset_past_the_end_is_refused(bytes: Seq<u8>, header: Nifti1Header)
        requires
            Self::offset(header) > bytes.len(),
        ensures
            Self::check(bytes, header) == Err::<Datatype, VoxelError>(VoxelError::OffsetOutOfRange),
    {
    }
}

} // verus!
