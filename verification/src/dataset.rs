//! From the bytes of a file to a header and a coloured volume.
use vstd::prelude::*;
use crate::header::{HeaderDecoder, HeaderError, Nifti1Header, HEADER_SIZE};
use crate::ieee::Binary64;
use crate::lut::ColorLookupTable;
use crate::volume::VolumeBufferBuilder;
use crate::voxel::{VoxelDecoder, VoxelError};
use crate::wire::le_i32;

verus! {

/// A decoded file: its header, the header record as it was read, and the
/// coloured voxels of its volume.
#[derive(Debug, PartialEq)]
pub struct NiftiData {
    pub header: Nifti1Header,
    /// The 348 bytes of the header record.
    pub image: Vec<u8>,
    /// One RGBA colour per voxel, x varying fastest, then y, then z.
    pub texture: Vec<[u8; 4]>,
}

/// Why a file could not be decoded.
#[derive(Clone, Copy, Debug, PartialEq, Eq, Structural)]
pub enum NiftiError {
    /// The header could not be read.
    Header(HeaderError),
    /// The header was read, but the voxel payload could not.
    Voxel(VoxelError),
}

impl NiftiData {
    /// That `self` is what `bytes` hold: the header of the record, a copy of
    /// the record, and the texture of the calibrated voxels.
    pub open spec fn is_loaded_from(self, bytes: Seq<u8>, lut: ColorLookupTable) -> bool {
        &&& bytes.len() >= HEADER_SIZE
        &&& self.header.is_parse_of(bytes)
        &&& self.header.sizeof_hdr == 348
        &&& self.image@ == bytes.subrange(0, HEADER_SIZE as int)
        &&& VoxelDecoder::check(bytes, self.header) is Ok
        &&& self.texture@.len() == self.header.voxel_count()
        &&& exists|scalars: Seq<Binary64>|
            VoxelDecoder::is_decoding(
                bytes,
                self.header,
                VoxelDecoder::check(bytes, self.header)->Ok_0,
                scalars,
            ) && #[trigger] VolumeBufferBuilder::is_texture(scalars, lut, self.texture@)
    }

    /// Decodes a single-file NIfTI-1 image held in `bytes` and colours its
    /// volume with `lut`.
    ///
    /// The header is checked first, then the payload: the result is the
    /// header's error where [`HeaderDecoder::decode`] fails, else the
    /// payload's where [`VoxelDecoder::decode`] fails. A decoded volume
    /// always has as many colours as the header declares voxels.
    pub fn load(bytes: &[u8], lut: &ColorLookupTable) -> (result: Result<NiftiData, NiftiError>)
        ensures
            (result matches Err(NiftiError::Header(HeaderError::TruncatedInput))) <==> bytes.len()
                < HEADER_SIZE,
            (result matches Err(NiftiError::Header(HeaderError::MalformedHeader))) <==> bytes.len()
                >= HEADER_SIZE && le_i32(bytes@, 0) != 348,
            result matches Err(NiftiError::Voxel(error)) ==> exists|header: Nifti1Header|
                #[trigger] header.is_parse_of(bytes@) && VoxelDecoder::check(bytes@, header) == Err::<
                    crate::voxel::Datatype,
                    VoxelError,
                >(error),
            result matches Ok(data) ==> data.is_loaded_from(bytes@, *lut),
            result is Ok <==> bytes.len() >= HEADER_SIZE && le_i32(bytes@, 0) == 348 && forall|
                header: Nifti1Header,
            |
                #[trigger] header.is_parse_of(bytes@) ==> VoxelDecoder::check(bytes@, header) is Ok,
    {
        let header = match HeaderDecoder::decode(bytes) {
            Err(error) => { return Err(NiftiError::Header(error)); },
            Ok(header) => header,
        };
        proof {
            assert forall|other: Nifti1Header| #[trigger] other.is_parse_of(bytes@) implies other
                == header by {
                other.parse_is_unique(header, bytes@);
            }
        }
        let scalars = match VoxelDecoder::decode(bytes, &header) {
            Err(error) => { return Err(NiftiError::Voxel(error)); },
            Ok(scalars) => scalars,
        };
        let texture = VolumeBufferBuilder::colorize(scalars.as_slice(), lut);
        let mut image: Vec<u8> = Vec::with_capacity(HEADER_SIZE);
        let mut i: usize = 0;
        while i < HEADER_SIZE
            invariant
                i <= HEADER_SIZE,
                HEADER_SIZE <= bytes.len(),
                image@ == bytes@.subrange(0, i as int),
            decreases HEADER_SIZE - i,
        {
            image.push(bytes[i]);
            assert(image@ == bytes@.subrange(0, i as int + 1));
            i = i + 1;
        }
        let data = NiftiData { header, image, texture };
        assert(VolumeBufferBuilder::is_texture(scalars@, *lut, data.texture@));
        Ok(data)
    }
}

} // verus!
