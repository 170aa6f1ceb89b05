use vstd::prelude::*;

verus! {

/// Files shorter than this many bytes are compared byte for byte.
pub const SMALL_FILE_LIMIT: u64 = 4096;

/// Files shorter than this many bytes (1 MiB) are compared by checksum.
pub const CHECKSUM_LIMIT: u64 = 1048576;

/// Number of leading bytes compared for files of `CHECKSUM_LIMIT` bytes or more.
pub const HEAD_BYTES: usize = 4096;

/// How two files with the same relative path are to be compared.
#[derive(Clone, Copy, Debug, PartialEq, Eq, Structural)]
pub enum EqualityStage {
    /// One of the two is a directory: never equal.
    NotFiles,
    /// The lengths differ: never equal.
    SizeMismatch,
    /// Both are empty: always equal.
    Empty,
    /// Both are small: equal when all their bytes are.
    FullContent,
    /// Both are of medium size: equal when their CRC-32 checksums are.
    Checksum,
    /// Both are large: equal when their first `HEAD_BYTES` bytes are.
    Head,
}

/// The CRC-32 (IEEE) checksum of a byte sequence.
pub uninterp spec fn crc32_of(data: Seq<u8>) -> u32;

/// The stage that decides equality for two files of the given kinds and lengths.
pub open spec fn stage_for(left_is_dir: bool, right_is_dir: bool, left_len: u64, right_len: u64) -> EqualityStage {
    if left_is_dir || right_is_dir {
        EqualityStage::NotFiles
    } else if left_len != right_len {
        EqualityStage::SizeMismatch
    } else if left_len == 0 {
        EqualityStage::Empty
    } else if left_len < SMALL_FILE_LIMIT {
        EqualityStage::FullContent
    } else if left_len < CHECKSUM_LIMIT {
        EqualityStage::Checksum
    } else {
        EqualityStage::Head
    }
}

/// The first `n` bytes of `s`, or all of them when there are fewer.
pub open spec fn head(s: Seq<u8>, n: nat) -> Seq<u8> {
    if s.len() <= n {
        s
    } else {
        s.take(n as int)
    }
}

/// Whether two files are equal under `stage`, given what was read of them:
/// their whole content, or at least their first `HEAD_BYTES` bytes for `Head`.
pub open spec fn verdict(stage: EqualityStage, left: Seq<u8>, right: Seq<u8>) -> bool {
    match stage {
        EqualityStage::NotFiles => false,
        EqualityStage::SizeMismatch => false,
        EqualityStage::Empty => true,
        EqualityStage::FullContent => left == right,
        EqualityStage::Checksum => crc32_of(left) == crc32_of(right),
        EqualityStage::Head => head(left, HEAD_BYTES as nat) == head(right, HEAD_BYTES as nat),
    }
}

/// Relies on crc32fast::hash: the CRC-32 (IEEE) checksum of the bytes.
#[verifier::external_body]
fn checksum(data: &[u8]) -> (r: u32)
    ensures
        r == crc32_of(data@),
{
    crc32fast::hash(data)
}

/// Chooses the comparison stage from live kinds and recorded lengths.
pub fn equality_stage(left_is_dir: bool, right_is_dir: bool, left_len: u64, right_len: u64) -> (r: EqualityStage)
    ensures
        r == stage_for(left_is_dir, right_is_dir, left_len, right_len),
{
    if left_is_dir || right_is_dir {
        EqualityStage::NotFiles
    } else if left_len != right_len {
        EqualityStage::SizeMismatch
    } else if left_len == 0 {
        EqualityStage::Empty
    } else if left_len < SMALL_FILE_LIMIT {
        EqualityStage::FullContent
    } else if left_len < CHECKSUM_LIMIT {
        EqualityStage::Checksum
    } else {
        EqualityStage::Head
    }
}

/// Whether two byte sequences are equal.
pub fn compare_file_contents(left: &[u8], right: &[u8]) -> (r: bool)
    ensures
        r == (left@ == right@),
{
    if left.len() != right.len() {
        return false;
    }
    let mut i: usize = 0;
    while i < left.len()
        invariant
            left@.len() == right@.len(),
            i <= left@.len(),
            left@.take(i as int) == right@.take(i as int),
        decreases left@.len() - i,
    {
        if left[i] != right[i] {
            assert(left@[i as int] != right@[i as int]);
            return false;
        }
        assert(left@.take(i + 1) == left@.take(i as int).push(left@[i as int]));
        assert(right@.take(i + 1) == right@.take(i as int).push(right@[i as int]));
        i = i + 1;
    }
    assert(left@ == left@.take(i as int));
    assert(right@ == right@.take(i as int));
    true
}

/// Whether two contents have the same CRC-32 checksum.
pub fn compare_file_crc32(left: &[u8], right: &[u8]) -> (r: bool)
    ensures
        r == (crc32_of(left@) == crc32_of(right@)),
{
    checksum(left) == checksum(right)
}

/// Whether the first `bytes_to_read` bytes of two contents are equal (all of
/// a content that is shorter).
pub fn compare_file_heads(left: &[u8], right: &[u8], bytes_to_read: usize) -> (r: bool)
    ensures
        r == (head(left@, bytes_to_read as nat) == head(right@, bytes_to_read as nat)),
{
    let left_len = if left.len() < bytes_to_read { left.len() } else { bytes_to_read };
    let right_len = if right.len() < bytes_to_read { right.len() } else { bytes_to_read };
    if left_len != right_len {
        assert(head(left@, bytes_to_read as nat).len() != head(right@, bytes_to_read as nat).len());
        return false;
    }
    let ghost hl = head(left@, bytes_to_read as nat);
    let ghost hr = head(right@, bytes_to_read as nat);
    assert(hl.len() == left_len && hr.len() == right_len);
    let mut i: usize = 0;
    while i < left_len
        invariant
            left_len <= left@.len(),
            left_len == right_len,
            right_len <= right@.len(),
            i <= left_len,
            forall|j: int| 0 <= j < i ==> left@[j] == right@[j],
            hl == head(left@, bytes_to_read as nat),
            hr == head(right@, bytes_to_read as nat),
            hl.len() == left_len,
            hr.len() == right_len,
        decreases left_len - i,
    {
        if left[i] != right[i] {
            assert(hl[i as int] == left@[i as int] && hr[i as int] == right@[i as int]);
            assert(hl[i as int] != hr[i as int]);
            return false;
        }
        i = i + 1;
    }
    assert(hl =~= hr);
    true
}

/// Decides whether two files are equal under `stage`, from their contents
/// (for `Head`, at least their first `HEAD_BYTES` bytes).
pub fn files_are_same(stage: EqualityStage, left: &[u8], right: &[u8]) -> (r: bool)
    ensures
        r == verdict(stage, left@, right@),
{
    match stage {
        EqualityStage::NotFiles => false,
        EqualityStage::SizeMismatch => false,
        EqualityStage::Empty => true,
        EqualityStage::FullContent => compare_file_contents(left, right),
        EqualityStage::Checksum => compare_file_crc32(left, right),
        EqualityStage::Head => compare_file_heads(left, right, HEAD_BYTES),
    }
}

/// Large files are told apart by their first `HEAD_BYTES` bytes alone: two
/// contents of equal length, at least `CHECKSUM_LIMIT` bytes long, that agree
/// on those bytes are judged equal whatever follows.
pub proof fn lemma_large_files_compare_heads_only(left: Seq<u8>, right: Seq<u8>)
    requires
        left.len() == right.len(),
        left.len() >= CHECKSUM_LIMIT,
        left.len() <= u64::MAX,
        left.take(HEAD_BYTES as int) == right.take(HEAD_BYTES as int),
    ensures
        stage_for(false, false, left.len() as u64, right.len() as u64) == EqualityStage::Head,
        verdict(stage_for(false, false, left.len() as u64, right.len() as u64), left, right),
{
}

/// Each length selects the stage of its size class.
pub proof fn lemma_stage_by_length(len: u64)
    ensures
        len == 0 ==> stage_for(false, false, len, len) == EqualityStage::Empty,
        0 < len < SMALL_FILE_LIMIT ==> stage_for(false, false, len, len) == EqualityStage::FullContent,
        SMALL_FILE_LIMIT <= len < CHECKSUM_LIMIT ==> stage_for(false, false, len, len) == EqualityStage::Checksum,
        CHECKSUM_LIMIT <= len ==> stage_for(false, false, len, len) == EqualityStage::Head,
{
}

} // verus!
