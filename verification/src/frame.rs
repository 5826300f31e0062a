//! The container of stored snapshots: a magic, a checksum, and the encoded payload.
use crate::bytes;
use vstd::prelude::*;

verus! {

/// The bytes before the payload: eight of magic, thirty-two of checksum.
pub const HEADER: u64 = 40;

/// No snapshot file is larger.
pub const MAX_FILE: u64 = 8589934592;

/// What a payload holds.
#[derive(Clone, Copy, Debug, PartialEq, Eq, Structural)]
pub enum Schema {
    V2,
    V3,
}

/// Why a file is not taken as a snapshot.
#[derive(Clone, Copy, Debug, PartialEq, Eq, Structural)]
pub enum FrameError {
    InvalidLength,
    /// The first format, which has no modification times.
    TimelessFormat,
    Unsupported,
    ChecksumMismatch,
}

impl FrameError {
    pub open spec fn words(self) -> Seq<char> {
        match self {
            FrameError::InvalidLength => "invalid snapshot length"@,
            FrameError::TimelessFormat => "snapshot v1 has no modification timestamps; run scan again to create v3"@,
            FrameError::Unsupported => "not a supported disk-cleaner snapshot"@,
            FrameError::ChecksumMismatch => "snapshot checksum mismatch"@,
        }
    }

    /// What is told of it.
    pub fn message(self) -> (r: &'static str)
        ensures
            r@ == self.words(),
    {
        match self {
            FrameError::InvalidLength => "invalid snapshot length",
            FrameError::TimelessFormat => "snapshot v1 has no modification timestamps; run scan again to create v3",
            FrameError::Unsupported => "not a supported disk-cleaner snapshot",
            FrameError::ChecksumMismatch => "snapshot checksum mismatch",
        }
    }
}

/// The eight bytes that open a file of format `n`.
pub open spec fn magic_of(n: u8) -> Seq<u8> {
    seq![0x44u8, 0x43, 0x53, 0x43, 0x41, 0x4e, 0x30, n]
}

/// The BLAKE3 digest of some bytes.
pub uninterp spec fn blake3_of(data: Seq<u8>) -> Seq<u8>;

/// `blake3::hash`: the digest is a function of the bytes and is 32 bytes long.
#[verifier::external_body]
fn digest(data: &[u8]) -> (r: Vec<u8>)
    ensures
        r@ == blake3_of(data@),
        r@.len() == 32,
{
    blake3::hash(data).as_bytes().to_vec()
}

fn magic(n: u8) -> (r: Vec<u8>)
    ensures
        r@ == magic_of(n),
{
    let r: Vec<u8> = vec![0x44u8, 0x43, 0x53, 0x43, 0x41, 0x4e, 0x30, n];
    assert(r@ =~= magic_of(n));
    r
}

/// Whether a file that begins so may be overwritten by a snapshot.
pub fn is_snapshot_magic(head: &[u8]) -> (r: bool)
    ensures
        r == (head@ == magic_of(0x31) || head@ == magic_of(0x32) || head@ == magic_of(0x33)),
{
    bytes::same_bytes(head, &magic(0x31)) || bytes::same_bytes(head, &magic(0x32)) || bytes::same_bytes(
        head,
        &magic(0x33),
    )
}

/// The file that holds a payload.
pub open spec fn framed(payload: Seq<u8>) -> Seq<u8> {
    magic_of(0x33) + blake3_of(payload) + payload
}

/// Frames a payload; what is framed is read back as it was written.
pub fn frame(payload: &[u8]) -> (r: Vec<u8>)
    ensures
        r@ == framed(payload@),
        payload_of(r@) == payload@,
        payload@.len() + HEADER <= MAX_FILE ==> file_verdict(r@) == Ok::<Schema, FrameError>(
            Schema::V3,
        ),
{
    let mut out: Vec<u8> = magic(0x33);
    let sum: Vec<u8> = digest(payload);
    out.extend_from_slice(&sum);
    out.extend_from_slice(payload);
    assert(out@ =~= framed(payload@));
    proof {
        law_framed_is_read_back(payload@);
    }
    out
}

/// The verdict on a file of `len` bytes that begins with `head` and whose payload has
/// the digest `sum`.
pub open spec fn verdict(len: int, head: Seq<u8>, sum: Seq<u8>) -> Result<Schema, FrameError> {
    let kind = head.subrange(0, 8);
    if !(HEADER <= len <= MAX_FILE) {
        Err(FrameError::InvalidLength)
    } else if kind == magic_of(0x31) {
        Err(FrameError::TimelessFormat)
    } else if kind != magic_of(0x32) && kind != magic_of(0x33) {
        Err(FrameError::Unsupported)
    } else if sum != head.subrange(8, 40) {
        Err(FrameError::ChecksumMismatch)
    } else if kind == magic_of(0x32) {
        Ok(Schema::V2)
    } else {
        Ok(Schema::V3)
    }
}

/// Judges a file by its length, its header, and the digest of its payload.
pub fn judge(len: u64, head: &[u8], sum: &[u8]) -> (r: Result<Schema, FrameError>)
    requires
        HEADER <= len ==> head@.len() == HEADER,
    ensures
        r == verdict(len as int, head@, sum@),
{
    if !(HEADER <= len && len <= MAX_FILE) {
        return Err(FrameError::InvalidLength);
    }
    let kind: &[u8] = &head[0..8];
    if bytes::same_bytes(kind, &magic(0x31)) {
        return Err(FrameError::TimelessFormat);
    }
    let second: bool = bytes::same_bytes(kind, &magic(0x32));
    if !second && !bytes::same_bytes(kind, &magic(0x33)) {
        return Err(FrameError::Unsupported);
    }
    if !bytes::same_bytes(sum, &head[8..40]) {
        return Err(FrameError::ChecksumMismatch);
    }
    if second {
        Ok(Schema::V2)
    } else {
        Ok(Schema::V3)
    }
}

/// The payload of a file.
pub open spec fn payload_of(file: Seq<u8>) -> Seq<u8> {
    file.subrange(HEADER as int, file.len() as int)
}

/// What a whole file is.
pub open spec fn file_verdict(file: Seq<u8>) -> Result<Schema, FrameError> {
    verdict(file.len() as int, file.subrange(0, 40), blake3_of(payload_of(file)))
}

/// Checks a whole file and hands out its payload.
pub fn unframe(file: &[u8]) -> (r: Result<(Schema, &[u8]), FrameError>)
    ensures
        match r {
            Ok((schema, payload)) => file_verdict(file@) == Ok::<Schema, FrameError>(schema)
                && payload@ == payload_of(file@),
            Err(e) => file_verdict(file@) == Err::<Schema, FrameError>(e),
        },
{
    if file.len() < 40 {
        return Err(FrameError::InvalidLength);
    }
    let payload: &[u8] = &file[40..file.len()];
    let sum: Vec<u8> = digest(payload);
    match judge(file.len() as u64, &file[0..40], &sum) {
        Ok(schema) => Ok((schema, payload)),
        Err(e) => Err(e),
    }
}

/// What was framed is read back: the file is accepted as the current format, and its
/// payload is the one that was framed.
pub proof fn law_framed_is_read_back(payload: Seq<u8>)
    ensures
        blake3_of(payload).len() == 32 ==> payload_of(framed(payload)) == payload && (payload.len()
            + HEADER <= MAX_FILE ==> file_verdict(framed(payload)) == Ok::<Schema, FrameError>(
            Schema::V3,
        )),
{
    if blake3_of(payload).len() == 32 {
        let file = framed(payload);
        assert(payload_of(file) =~= payload);
        assert(file.subrange(0, 40).subrange(0, 8) =~= magic_of(0x33));
        assert(file.subrange(0, 40).subrange(8, 40) =~= blake3_of(payload));
        assert(magic_of(0x33)[7] != magic_of(0x31)[7]);
        assert(magic_of(0x33)[7] != magic_of(0x32)[7]);
    }
}

/// Whatever is accepted carries the digest of its own payload: a payload with another
/// digest is refused.
pub proof fn law_altered_payload_is_refused(file: Seq<u8>, payload: Seq<u8>)
    ensures
        file_verdict(file) is Ok && blake3_of(payload) != blake3_of(payload_of(file)) ==> !(
        file_verdict(file.subrange(0, 40) + payload) is Ok),
{
    if file_verdict(file) is Ok {
        let other = file.subrange(0, 40) + payload;
        assert(payload_of(other) =~= payload);
        assert(other.subrange(0, 40) =~= file.subrange(0, 40));
    }
}

/// A file to whose end something was added is refused, unless the longer payload has the
/// digest of the shorter one.
pub proof fn law_lengthened_file_is_refused(file: Seq<u8>, more: Seq<u8>)
    ensures
        file_verdict(file) is Ok && blake3_of(payload_of(file) + more) != blake3_of(payload_of(file))
            ==> !(file_verdict(file + more) is Ok),
{
    if file_verdict(file) is Ok {
        law_altered_payload_is_refused(file, payload_of(file) + more);
        assert(file.subrange(0, 40) + (payload_of(file) + more) =~= file + more);
    }
}

/// A file is read only if it is neither too short nor too long, begins with the mark of the
/// second or third format, and the checksum that stands behind the mark is that of the rest.
pub proof fn law_files_are_read_only_with_mark_and_sum(file: Seq<u8>)
    requires
        file_verdict(file) is Ok,
    ensures
        40 <= file.len() <= 0x2_0000_0000,
        file[0] == 0x44 && file[1] == 0x43 && file[2] == 0x53 && file[3] == 0x43,
        file[4] == 0x41 && file[5] == 0x4e && file[6] == 0x30,
        file_verdict(file) == Ok::<Schema, FrameError>(Schema::V2) <==> file[7] == 0x32,
        file_verdict(file) == Ok::<Schema, FrameError>(Schema::V3) <==> file[7] == 0x33,
        blake3_of(file.subrange(40, file.len() as int)) == file.subrange(8, 40),
{
    let head = file.subrange(0, 40);
    let kind = head.subrange(0, 8);
    assert(head.subrange(8, 40) =~= file.subrange(8, 40));
    assert(kind[0] == file[0] && kind[1] == file[1] && kind[2] == file[2] && kind[3] == file[3]
        && kind[4] == file[4] && kind[5] == file[5] && kind[6] == file[6] && kind[7] == file[7]);
    let two = magic_of(0x32);
    let three = magic_of(0x33);
    assert(two[7] == 0x32 && three[7] == 0x33);
    assert(two[0] == 0x44 && two[1] == 0x43 && two[2] == 0x53 && two[3] == 0x43 && two[4] == 0x41
        && two[5] == 0x4e && two[6] == 0x30);
    assert(three[0] == 0x44 && three[1] == 0x43 && three[2] == 0x53 && three[3] == 0x43 && three[4]
        == 0x41 && three[5] == 0x4e && three[6] == 0x30);
}

} // verus!
