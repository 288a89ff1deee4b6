//! The fixed 348-byte NIfTI-1 header record.
use vstd::prelude::*;
use crate::ieee::Binary32;
use crate::wire::{
    extends_by, le_i16, le_i32, le_u16_is_injective, le_u32, le_u32_is_injective, push_i16,
    push_i32, push_u32, read_i16, read_i32, read_u32,
};

verus! {

/// Size in bytes of the header record, and the value its first field must hold.
pub const HEADER_SIZE: usize = 348;

/// What `sizeof_hdr` reads as in a record that was written most significant
/// byte first: the bytes of 348 in reverse.
pub const SWAPPED_HEADER_SIZE: i32 = 0x5c01_0000;

/// The NIfTI-1 header, field for field in the order of the record.
///
/// Real-valued fields hold the stored bit pattern. Multi-byte fields are
/// little-endian in the record.
#[derive(Clone, Copy, Debug, PartialEq)]
pub struct Nifti1Header {
    pub sizeof_hdr: i32,
    pub data_type: [u8; 10],
    pub db_name: [u8; 18],
    pub extents: i32,
    pub session_error: i16,
    pub regular: u8,
    pub dim_info: u8,
    pub dim: [i16; 8],
    pub intent_p1: Binary32,
    pub intent_p2: Binary32,
    pub intent_p3: Binary32,
    pub intent_code: i16,
    pub datatype: i16,
    pub bitpix: i16,
    pub slice_start: i16,
    pub pixdim: [Binary32; 8],
    pub vox_offset: Binary32,
    pub scl_slope: Binary32,
    pub scl_inter: Binary32,
    pub slice_end: i16,
    pub slice_code: u8,
    pub xyzt_units: u8,
    pub cal_max: Binary32,
    pub cal_min: Binary32,
    pub slice_duration: Binary32,
    pub toffset: Binary32,
    pub glmax: i32,
    pub glmin: i32,
    pub descrip: [u8; 80],
    pub aux_file: [u8; 24],
    pub qform_code: i16,
    pub sform_code: i16,
    pub quatern_b: Binary32,
    pub quatern_c: Binary32,
    pub quatern_d: Binary32,
    pub qoffset_x: Binary32,
    pub qoffset_y: Binary32,
    pub qoffset_z: Binary32,
    pub srow_x: [Binary32; 4],
    pub srow_y: [Binary32; 4],
    pub srow_z: [Binary32; 4],
    pub intent_name: [u8; 16],
    pub magic: [u8; 4],
}

/// Why a byte buffer does not hold a header.
#[derive(Clone, Copy, Debug, PartialEq, Eq, Structural)]
pub enum HeaderError {
    /// The buffer is shorter than the 348 bytes of the record.
    TruncatedInput,
    /// The record is there, but its `sizeof_hdr` field is not 348.
    MalformedHeader,
}

impl Nifti1Header {
    /// The number of voxels that a `dim` entry stands for: the entry itself,
    /// and none where it is negative.
    pub open spec fn extent(entry: i16) -> nat {
        if entry < 0 {
            0
        } else {
            entry as nat
        }
    }

    /// Voxels along x: `dim[1]`, not scaled by the grid spacing.
    pub open spec fn width_spec(self) -> nat {
        Self::extent(self.dim[1])
    }

    /// Voxels along y: `dim[2]`, not scaled by the grid spacing.
    pub open spec fn height_spec(self) -> nat {
        Self::extent(self.dim[2])
    }

    /// Voxels along z: `dim[3]`, not scaled by the grid spacing.
    pub open spec fn depth_spec(self) -> nat {
        Self::extent(self.dim[3])
    }

    /// The number of voxels of the three-dimensional grid.
    pub open spec fn voxel_count(self) -> nat {
        self.width_spec() * self.height_spec() * self.depth_spec()
    }

    fn extent_of(entry: i16) -> (count: usize)
        ensures
            count == Self::extent(entry),
            count <= 0x7fff,
    {
        if entry < 0 {
            0
        } else {
            entry as usize
        }
    }

    /// Voxels along x.
    pub fn width(&self) -> (count: usize)
        ensures
            count == self.width_spec(),
            count <= 0x7fff,
    {
        Self::extent_of(self.dim[1])
    }

    /// Voxels along y.
    pub fn height(&self) -> (count: usize)
        ensures
            count == self.height_spec(),
            count <= 0x7fff,
    {
        Self::extent_of(self.dim[2])
    }

    /// Voxels along z.
    pub fn depth(&self) -> (count: usize)
        ensures
            count == self.depth_spec(),
            count <= 0x7fff,
    {
        Self::extent_of(self.dim[3])
    }

    /// The layout of the record: `self` is what the first 348 bytes of `s`
    /// say, each field at its offset.
    pub open spec fn is_parse_of(self, s: Seq<u8>) -> bool {
        &&& self.leading_fields_match(s)
        &&& self.scaling_fields_match(s)
        &&& self.text_fields_match(s)
        &&& self.orientation_fields_match(s)
    }

    /// Offsets 0 to 76: sizes, the unused legacy fields, `dim` and the data type.
    pub open spec fn leading_fields_match(self, s: Seq<u8>) -> bool {
        &&& self.sizeof_hdr == le_i32(s, 0)
        &&& forall|k: int| 0 <= k < 10 ==> #[trigger] self.data_type[k] == s[4 + k]
        &&& forall|k: int| 0 <= k < 18 ==> #[trigger] self.db_name[k] == s[14 + k]
        &&& self.extents == le_i32(s, 32)
        &&& self.session_error == le_i16(s, 36)
        &&& self.regular == s[38]
        &&& self.dim_info == s[39]
        &&& forall|k: int| 0 <= k < 8 ==> #[trigger] self.dim[k] == le_i16(s, 40 + 2 * k)
        &&& self.intent_p1.bits == le_u32(s, 56)
        &&& self.intent_p2.bits == le_u32(s, 60)
        &&& self.intent_p3.bits == le_u32(s, 64)
        &&& self.intent_code == le_i16(s, 68)
        &&& self.datatype == le_i16(s, 70)
        &&& self.bitpix == le_i16(s, 72)
        &&& self.slice_start == le_i16(s, 74)
    }

    /// Offsets 76 to 148: grid spacing, data offset, calibration and display range.
    pub open spec fn scaling_fields_match(self, s: Seq<u8>) -> bool {
        &&& forall|k: int| 0 <= k < 8 ==> (#[trigger] self.pixdim[k]).bits == le_u32(s, 76 + 4 * k)
        &&& self.vox_offset.bits == le_u32(s, 108)
        &&& self.scl_slope.bits == le_u32(s, 112)
        &&& self.scl_inter.bits == le_u32(s, 116)
        &&& self.slice_end == le_i16(s, 120)
        &&& self.slice_code == s[122]
        &&& self.xyzt_units == s[123]
        &&& self.cal_max.bits == le_u32(s, 124)
        &&& self.cal_min.bits == le_u32(s, 128)
        &&& self.slice_duration.bits == le_u32(s, 132)
        &&& self.toffset.bits == le_u32(s, 136)
        &&& self.glmax == le_i32(s, 140)
        &&& self.glmin == le_i32(s, 144)
    }

    /// Offsets 148 to 252: the description and the auxiliary file name.
    pub open spec fn text_fields_match(self, s: Seq<u8>) -> bool {
        &&& forall|k: int| 0 <= k < 80 ==> #[trigger] self.descrip[k] == s[148 + k]
        &&& forall|k: int| 0 <= k < 24 ==> #[trigger] self.aux_file[k] == s[228 + k]
    }

    /// Offsets 252 to 348: the two orientation transforms, the intent name and the magic.
    pub open spec fn orientation_fields_match(self, s: Seq<u8>) -> bool {
        &&& self.qform_code == le_i16(s, 252)
        &&& self.sform_code == le_i16(s, 254)
        &&& self.quatern_b.bits == le_u32(s, 256)
        &&& self.quatern_c.bits == le_u32(s, 260)
        &&& self.quatern_d.bits == le_u32(s, 264)
        &&& self.qoffset_x.bits == le_u32(s, 268)
        &&& self.qoffset_y.bits == le_u32(s, 272)
        &&& self.qoffset_z.bits == le_u32(s, 276)
        &&& forall|k: int| 0 <= k < 4 ==> (#[trigger] self.srow_x[k]).bits == le_u32(s, 280 + 4 * k)
        &&& forall|k: int| 0 <= k < 4 ==> (#[trigger] self.srow_y[k]).bits == le_u32(s, 296 + 4 * k)
        &&& forall|k: int| 0 <= k < 4 ==> (#[trigger] self.srow_z[k]).bits == le_u32(s, 312 + 4 * k)
        &&& forall|k: int| 0 <= k < 16 ==> #[trigger] self.intent_name[k] == s[328 + k]
        &&& forall|k: int| 0 <= k < 4 ==> #[trigger] self.magic[k] == s[344 + k]
    }
}

/// Parser of the header record.
pub struct HeaderDecoder;

impl HeaderDecoder {
    /// Tells whether the buffer holds a record of the other byte order: one
    /// that is long enough and whose `sizeof_hdr` reads as 348 with its
    /// bytes reversed. [`HeaderDecoder::decode`] refuses such a record as
    /// malformed; this tells it from one that is no header at all.
    pub fn is_byte_swapped(bytes: &[u8]) -> (swapped: bool)
        ensures
            swapped <==> bytes.len() >= HEADER_SIZE && le_i32(bytes@, 0) == SWAPPED_HEADER_SIZE,
            swapped <==> bytes.len() >= HEADER_SIZE && bytes@[0] == 0 && bytes@[1] == 0
                && bytes@[2] == 1 && bytes@[3] == 0x5c,
    {
        bytes.len() >= HEADER_SIZE && read_i32(bytes, 0) == SWAPPED_HEADER_SIZE
    }

    /// Reads the header from the first 348 bytes of `bytes`.
    ///
    /// Fails with `TruncatedInput` exactly when fewer than 348 bytes are
    /// given, and with `MalformedHeader` exactly when the bytes are there but
    /// the little-endian `sizeof_hdr` is not 348. Otherwise every field is
    /// returned as stored. Bytes past the record are not looked at.
    pub fn decode(bytes: &[u8]) -> (result: Result<Nifti1Header, HeaderError>)
        ensures
            (result matches Err(HeaderError::TruncatedInput)) <==> bytes.len() < HEADER_SIZE,
            (result matches Err(HeaderError::MalformedHeader)) <==> bytes.len() >= HEADER_SIZE
                && le_i32(bytes@, 0) != 348,
            result is Ok <==> bytes.len() >= HEADER_SIZE && le_i32(bytes@, 0) == 348,
            result matches Ok(header) ==> header.is_parse_of(bytes@) && header.sizeof_hdr == 348,
    {
        if bytes.len() < HEADER_SIZE {
            return Err(HeaderError::TruncatedInput);
        }
        let sizeof_hdr = read_i32(bytes, 0);
        if sizeof_hdr != 348 {
            return Err(HeaderError::MalformedHeader);
        }
        let header = Nifti1Header {
            sizeof_hdr,
            data_type: read_bytes::<10>(bytes, 4),
            db_name: read_bytes::<18>(bytes, 14),
            extents: read_i32(bytes, 32),
            session_error: read_i16(bytes, 36),
            regular: bytes[38],
            dim_info: bytes[39],
            dim: read_i16s::<8>(bytes, 40),
            intent_p1: read_binary32(bytes, 56),
            intent_p2: read_binary32(bytes, 60),
            intent_p3: read_binary32(bytes, 64),
            intent_code: read_i16(bytes, 68),
            datatype: read_i16(bytes, 70),
            bitpix: read_i16(bytes, 72),
            slice_start: read_i16(bytes, 74),
            pixdim: read_binary32s::<8>(bytes, 76),
            vox_offset: read_binary32(bytes, 108),
            scl_slope: read_binary32(bytes, 112),
            scl_inter: read_binary32(bytes, 116),
            slice_end: read_i16(bytes, 120),
            slice_code: bytes[122],
            xyzt_units: bytes[123],
            cal_max: read_binary32(bytes, 124),
            cal_min: read_binary32(bytes, 128),
            slice_duration: read_binary32(bytes, 132),
            toffset: read_binary32(bytes, 136),
            glmax: read_i32(bytes, 140),
            glmin: read_i32(bytes, 144),
            descrip: read_bytes::<80>(bytes, 148),
            aux_file: read_bytes::<24>(bytes, 228),
            qform_code: read_i16(bytes, 252),
            sform_code: read_i16(bytes, 254),
            quatern_b: read_binary32(bytes, 256),
            quatern_c: read_binary32(bytes, 260),
            quatern_d: read_binary32(bytes, 264),
            qoffset_x: read_binary32(bytes, 268),
            qoffset_y: read_binary32(bytes, 272),
            qoffset_z: read_binary32(bytes, 276),
            srow_x: read_binary32s::<4>(bytes, 280),
            srow_y: read_binary32s::<4>(bytes, 296),
            srow_z: read_binary32s::<4>(bytes, 312),
            intent_name: read_bytes::<16>(bytes, 328),
            magic: read_bytes::<4>(bytes, 344),
        };
        assert(header.leading_fields_match(bytes@));
        assert(header.scaling_fields_match(bytes@));
        assert(header.text_fields_match(bytes@));
        assert(header.orientation_fields_match(bytes@));
        Ok(header)
    }
}

/// Reads `N` consecutive bytes starting at `at`.
fn read_bytes<const N: usize>(bytes: &[u8], at: usize) -> (out: [u8; N])
    requires
        at + N <= bytes.len(),
    ensures
        forall|k: int| 0 <= k < N ==> out[k] == bytes@[at + k],
{
    let mut out: [u8; N] = [0u8; N];
    let mut i: usize = 0;
    while i < N
        invariant
            i <= N,
            at + N <= bytes.len(),
            forall|k: int| 0 <= k < i ==> out[k] == bytes@[at + k],
        decreases N - i,
    {
        out[i] = bytes[at + i];
        i += 1;
    }
    out
}

/// Reads `N` consecutive signed 16-bit integers starting at `at`.
fn read_i16s<const N: usize>(bytes: &[u8], at: usize) -> (out: [i16; N])
    requires
        at + 2 * N <= bytes.len(),
    ensures
        forall|k: int| 0 <= k < N ==> out[k] == le_i16(bytes@, at + 2 * k),
{
    let mut out: [i16; N] = [0i16; N];
    let mut i: usize = 0;
    while i < N
        invariant
            i <= N,
            at + 2 * N <= bytes.len(),
            forall|k: int| 0 <= k < i ==> out[k] == le_i16(bytes@, at + 2 * k),
        decreases N - i,
    {
        out[i] = read_i16(bytes, at + 2 * i);
        i += 1;
    }
    out
}

/// Reads one binary32 pattern at `at`.
fn read_binary32(bytes: &[u8], at: usize) -> (out: Binary32)
    requires
        at + 4 <= bytes.len(),
    ensures
        out.bits == le_u32(bytes@, at as int),
{
    Binary32 { bits: read_u32(bytes, at) }
}

/// Reads `N` consecutive binary32 patterns starting at `at`.
fn read_binary32s<const N: usize>(bytes: &[u8], at: usize) -> (out: [Binary32; N])
    requires
        at + 4 * N <= bytes.len(),
    ensures
        forall|k: int| 0 <= k < N ==> out[k].bits == le_u32(bytes@, at + 4 * k),
{
    let mut out: [Binary32; N] = [Binary32 { bits: 0 }; N];
    let mut i: usize = 0;
    while i < N
        invariant
            i <= N,
            at + 4 * N <= bytes.len(),
            forall|k: int| 0 <= k < i ==> out[k].bits == le_u32(bytes@, at + 4 * k),
        decreases N - i,
    {
        out[i] = read_binary32(bytes, at + 4 * i);
        i += 1;
    }
    out
}

/// Appends the `N` bytes of `field`.
fn push_bytes<const N: usize>(out: &mut Vec<u8>, field: &[u8; N])
    ensures
        extends_by(final(out)@, old(out)@, N as int),
        forall|k: int| 0 <= k < N ==> final(out)@[old(out)@.len() + k] == field[k],
{
    let ghost before = out@;
    let mut i: usize = 0;
    while i < N
        invariant
            i <= N,
            extends_by(out@, before, i as int),
            forall|k: int| 0 <= k < i ==> out@[before.len() + k] == field[k],
        decreases N - i,
    {
        out.push(field[i]);
        i += 1;
    }
}

/// Appends the `N` signed 16-bit integers of `field`.
fn push_i16s<const N: usize>(out: &mut Vec<u8>, field: &[i16; N])
    ensures
        extends_by(final(out)@, old(out)@, 2 * N),
        forall|k: int| 0 <= k < N ==> le_i16(final(out)@, old(out)@.len() + 2 * k) == field[k],
{
    let ghost before = out@;
    let mut i: usize = 0;
    while i < N
        invariant
            i <= N,
            extends_by(out@, before, 2 * i),
            forall|k: int| 0 <= k < i ==> le_i16(out@, before.len() + 2 * k) == field[k],
        decreases N - i,
    {
        push_i16(out, field[i]);
        i += 1;
    }
}

/// Appends the `N` binary32 patterns of `field`.
fn push_binary32s<const N: usize>(out: &mut Vec<u8>, field: &[Binary32; N])
    ensures
        extends_by(final(out)@, old(out)@, 4 * N),
        forall|k: int|
            0 <= k < N ==> le_u32(final(out)@, old(out)@.len() + 4 * k) == (#[trigger] field[k]).bits,
{
    let ghost before = out@;
    let mut i: usize = 0;
    while i < N
        invariant
            i <= N,
            extends_by(out@, before, 4 * i),
            forall|k: int|
                0 <= k < i ==> le_u32(out@, before.len() + 4 * k) == (#[trigger] field[k]).bits,
        decreases N - i,
    {
        push_u32(out, field[i].bits);
        i += 1;
    }
}

impl Nifti1Header {
    fn push_leading_fields(&self, out: &mut Vec<u8>)
        requires
            old(out)@.len() == 0,
        ensures
            final(out)@.len() == 76,
            self.leading_fields_match(final(out)@),
    {
        push_i32(out, self.sizeof_hdr);
        push_bytes::<10>(out, &self.data_type);
        push_bytes::<18>(out, &self.db_name);
        push_i32(out, self.extents);
        push_i16(out, self.session_error);
        out.push(self.regular);
        out.push(self.dim_info);
        push_i16s::<8>(out, &self.dim);
        push_u32(out, self.intent_p1.bits);
        push_u32(out, self.intent_p2.bits);
        push_u32(out, self.intent_p3.bits);
        push_i16(out, self.intent_code);
        push_i16(out, self.datatype);
        push_i16(out, self.bitpix);
        push_i16(out, self.slice_start);
    }

    fn push_scaling_fields(&self, out: &mut Vec<u8>)
        requires
            old(out)@.len() == 76,
        ensures
            extends_by(final(out)@, old(out)@, 72),
            self.scaling_fields_match(final(out)@),
    {
        push_binary32s::<8>(out, &self.pixdim);
        push_u32(out, self.vox_offset.bits);
        push_u32(out, self.scl_slope.bits);
        push_u32(out, self.scl_inter.bits);
        push_i16(out, self.slice_end);
        out.push(self.slice_code);
        out.push(self.xyzt_units);
        push_u32(out, self.cal_max.bits);
        push_u32(out, self.cal_min.bits);
        push_u32(out, self.slice_duration.bits);
        push_u32(out, self.toffset.bits);
        push_i32(out, self.glmax);
        push_i32(out, self.glmin);
    }

    fn push_text_fields(&self, out: &mut Vec<u8>)
        requires
            old(out)@.len() == 148,
        ensures
            extends_by(final(out)@, old(out)@, 104),
            self.text_fields_match(final(out)@),
    {
        push_bytes::<80>(out, &self.descrip);
        push_bytes::<24>(out, &self.aux_file);
    }

    fn push_orientation_fields(&self, out: &mut Vec<u8>)
        requires
            old(out)@.len() == 252,
        ensures
            extends_by(final(out)@, old(out)@, 96),
            self.orientation_fields_match(final(out)@),
    {
        push_i16(out, self.qform_code);
        push_i16(out, self.sform_code);
        push_u32(out, self.quatern_b.bits);
        push_u32(out, self.quatern_c.bits);
        push_u32(out, self.quatern_d.bits);
        push_u32(out, self.qoffset_x.bits);
        push_u32(out, self.qoffset_y.bits);
        push_u32(out, self.qoffset_z.bits);
        push_binary32s::<4>(out, &self.srow_x);
        push_binary32s::<4>(out, &self.srow_y);
        push_binary32s::<4>(out, &self.srow_z);
        push_bytes::<16>(out, &self.intent_name);
        push_bytes::<4>(out, &self.magic);
    }

    /// Writes the header as its 348-byte record.
    ///
    /// The result is the one byte sequence of that length whose fields read
    /// back as `self` (see [`Nifti1Header::record_is_unique`]).
    pub fn encode(&self) -> (out: Vec<u8>)
        ensures
            out@.len() == HEADER_SIZE,
            self.is_parse_of(out@),
    {
        let mut out: Vec<u8> = Vec::new();
        self.push_leading_fields(&mut out);
        let ghost leading = out@;
        self.push_scaling_fields(&mut out);
        let ghost scaling = out@;
        self.push_text_fields(&mut out);
        let ghost text = out@;
        self.push_orientation_fields(&mut out);
        proof {
            assert(self.text_fields_match(out@));
            assert(self.scaling_fields_match(out@));
            assert(self.leading_fields_match(out@));
        }
        out
    }
}

impl Nifti1Header {
    /// A record determines its header: two headers read from the same bytes
    /// are equal in every field.
    pub proof fn parse_is_unique(self, other: Nifti1Header, s: Seq<u8>)
        requires
            self.is_parse_of(s),
            other.is_parse_of(s),
        ensures
            self == other,
    {
        assert(self.data_type =~= other.data_type);
        assert(self.db_name =~= other.db_name);
        assert(self.dim =~= other.dim);
        assert(self.pixdim =~= other.pixdim) by {
            assert forall|k: int| 0 <= k < 8 implies self.pixdim[k] == other.pixdim[k] by {
                assert(self.pixdim[k].bits == other.pixdim[k].bits);
            }
        }
        assert(self.descrip =~= other.descrip);
        assert(self.aux_file =~= other.aux_file);
        assert(self.srow_x =~= other.srow_x) by {
            assert forall|k: int| 0 <= k < 4 implies self.srow_x[k] == other.srow_x[k] by {
                assert(self.srow_x[k].bits == other.srow_x[k].bits);
            }
        }
        assert(self.srow_y =~= other.srow_y) by {
            assert forall|k: int| 0 <= k < 4 implies self.srow_y[k] == other.srow_y[k] by {
                assert(self.srow_y[k].bits == other.srow_y[k].bits);
            }
        }
        assert(self.srow_z =~= other.srow_z) by {
            assert forall|k: int| 0 <= k < 4 implies self.srow_z[k] == other.srow_z[k] by {
                assert(self.srow_z[k].bits == other.srow_z[k].bits);
            }
        }
        assert(self.intent_name =~= other.intent_name);
        assert(self.magic =~= other.magic);
    }

    /// Decoding inverts encoding: whatever header is read back from the
    /// record written for `self` is `self`, for every header; and the record
    /// passes the size check exactly when `self.sizeof_hdr` is 348.
    pub proof fn decode_inverts_encode(self, record: Seq<u8>, decoded: Nifti1Header)
        requires
            record.len() == HEADER_SIZE,
            self.is_parse_of(record),
            decoded.is_parse_of(record),
        ensures
            decoded == self,
            le_i32(record, 0) == 348 <==> self.sizeof_hdr == 348,
    {
        decoded.parse_is_unique(self, record);
    }

    /// A header determines its record: two 348-byte sequences that read as
    /// the same header are the same sequence.
    pub proof fn record_is_unique(self, s: Seq<u8>, t: Seq<u8>)
        requires
            s.len() == HEADER_SIZE,
            t.len() == HEADER_SIZE,
            self.is_parse_of(s),
            self.is_parse_of(t),
        ensures
            s == t,
    {
        assert forall|j: int| 0 <= j < 348 implies s[j] == t[j] by {
            if j < 76 {
                self.leading_bytes_are_unique(s, t, j);
            } else if j < 148 {
                self.scaling_bytes_are_unique(s, t, j);
            } else if j < 228 {
                assert(self.descrip[j - 148] == s[148 + (j - 148)]);
            } else if j < 252 {
                assert(self.aux_file[j - 228] == s[228 + (j - 228)]);
            } else {
                self.orientation_bytes_are_unique(s, t, j);
            }
        }
        assert(s =~= t);
    }

    proof fn leading_bytes_are_unique(self, s: Seq<u8>, t: Seq<u8>, j: int)
        requires
            self.leading_fields_match(s),
            self.leading_fields_match(t),
            0 <= j < 76,
        ensures
            s[j] == t[j],
    {
        if j < 4 {
            le_u32_is_injective(s, 0, t, 0);
        } else if j < 14 {
            assert(self.data_type[j - 4] == s[4 + (j - 4)]);
        } else if j < 32 {
            assert(self.db_name[j - 14] == s[14 + (j - 14)]);
        } else if j < 36 {
            le_u32_is_injective(s, 32, t, 32);
        } else if j < 38 {
            le_u16_is_injective(s, 36, t, 36);
        } else if j < 40 {
        } else if j < 56 {
            let k = (j - 40) / 2;
            assert(0 <= k < 8 && 40 + 2 * k <= j <= 41 + 2 * k);
            assert(self.dim[k] == le_i16(s, 40 + 2 * k));
            assert(self.dim[k] == le_i16(t, 40 + 2 * k));
            le_u16_is_injective(s, 40 + 2 * k, t, 40 + 2 * k);
        } else if j < 60 {
            le_u32_is_injective(s, 56, t, 56);
        } else if j < 64 {
            le_u32_is_injective(s, 60, t, 60);
        } else if j < 68 {
            le_u32_is_injective(s, 64, t, 64);
        } else if j < 70 {
            le_u16_is_injective(s, 68, t, 68);
        } else if j < 72 {
            le_u16_is_injective(s, 70, t, 70);
        } else if j < 74 {
            le_u16_is_injective(s, 72, t, 72);
        } else if j < 76 {
            le_u16_is_injective(s, 74, t, 74);
        }
    }

    proof fn scaling_bytes_are_unique(self, s: Seq<u8>, t: Seq<u8>, j: int)
        requires
            self.scaling_fields_match(s),
            self.scaling_fields_match(t),
            76 <= j < 148,
        ensures
            s[j] == t[j],
    {
        if j < 108 {
            let k = (j - 76) / 4;
            assert(0 <= k < 8 && 76 + 4 * k <= j <= 79 + 4 * k);
            assert(self.pixdim[k].bits == le_u32(s, 76 + 4 * k));
            assert(self.pixdim[k].bits == le_u32(t, 76 + 4 * k));
            le_u32_is_injective(s, 76 + 4 * k, t, 76 + 4 * k);
        } else if j < 112 {
            le_u32_is_injective(s, 108, t, 108);
        } else if j < 116 {
            le_u32_is_injective(s, 112, t, 112);
        } else if j < 120 {
            le_u32_is_injective(s, 116, t, 116);
        } else if j < 122 {
            le_u16_is_injective(s, 120, t, 120);
        } else if j < 124 {
        } else if j < 128 {
            le_u32_is_injective(s, 124, t, 124);
        } else if j < 132 {
            le_u32_is_injective(s, 128, t, 128);
        } else if j < 136 {
            le_u32_is_injective(s, 132, t, 132);
        } else if j < 140 {
            le_u32_is_injective(s, 136, t, 136);
        } else if j < 144 {
            le_u32_is_injective(s, 140, t, 140);
        } else if j < 148 {
            le_u32_is_injective(s, 144, t, 144);
        }
    }

    proof fn orientation_bytes_are_unique(self, s: Seq<u8>, t: Seq<u8>, j: int)
        requires
            self.orientation_fields_match(s),
            self.orientation_fields_match(t),
            252 <= j < 348,
        ensures
            s[j] == t[j],
    {
        if j < 280 {
            if j < 254 {
                le_u16_is_injective(s, 252, t, 252);
            } else if j < 256 {
                le_u16_is_injective(s, 254, t, 254);
            } else if j < 260 {
                le_u32_is_injective(s, 256, t, 256);
            } else if j < 264 {
                le_u32_is_injective(s, 260, t, 260);
            } else if j < 268 {
                le_u32_is_injective(s, 264, t, 264);
            } else if j < 272 {
                le_u32_is_injective(s, 268, t, 268);
            } else if j < 276 {
                le_u32_is_injective(s, 272, t, 272);
            } else if j < 280 {
                le_u32_is_injective(s, 276, t, 276);
            }
        } else if j < 296 {
            let k = (j - 280) / 4;
            assert(0 <= k < 4 && 280 + 4 * k <= j <= 283 + 4 * k);
            assert(self.srow_x[k].bits == le_u32(s, 280 + 4 * k));
            assert(self.srow_x[k].bits == le_u32(t, 280 + 4 * k));
            le_u32_is_injective(s, 280 + 4 * k, t, 280 + 4 * k);
        } else if j < 312 {
            let k = (j - 296) / 4;
            assert(0 <= k < 4 && 296 + 4 * k <= j <= 299 + 4 * k);
            assert(self.srow_y[k].bits == le_u32(s, 296 + 4 * k));
            assert(self.srow_y[k].bits == le_u32(t, 296 + 4 * k));
            le_u32_is_injective(s, 296 + 4 * k, t, 296 + 4 * k);
        } else if j < 328 {
            let k = (j - 312) / 4;
            assert(0 <= k < 4 && 312 + 4 * k <= j <= 315 + 4 * k);
            assert(self.srow_z[k].bits == le_u32(s, 312 + 4 * k));
            assert(self.srow_z[k].bits == le_u32(t, 312 + 4 * k));
            le_u32_is_injective(s, 312 + 4 * k, t, 312 + 4 * k);
        } else if j < 344 {
            assert(self.intent_name[j - 328] == s[328 + (j - 328)]);
        } else {
            assert(self.magic[j - 344] == s[344 + (j - 344)]);
        }
    }
}

} // verus!
