use tudiff::oracle::{
    compare_file_contents, compare_file_crc32, compare_file_heads, equality_stage, files_are_same,
    EqualityStage, HEAD_BYTES,
};

fn stage_of(len: u64) -> EqualityStage {
    equality_stage(false, false, len, len)
}

#[test]
fn stages_follow_length_classes() {
    assert_eq!(stage_of(0), EqualityStage::Empty);
    assert_eq!(stage_of(10), EqualityStage::FullContent);
    assert_eq!(stage_of(4095), EqualityStage::FullContent);
    assert_eq!(stage_of(4096), EqualityStage::Checksum);
    assert_eq!(stage_of(1_048_575), EqualityStage::Checksum);
    assert_eq!(stage_of(1_048_576), EqualityStage::Head);
    assert_eq!(stage_of(5_000_000), EqualityStage::Head);
}

#[test]
fn directories_and_size_mismatch_are_never_equal() {
    assert_eq!(equality_stage(true, false, 5, 5), EqualityStage::NotFiles);
    assert_eq!(equality_stage(false, true, 5, 5), EqualityStage::NotFiles);
    assert_eq!(equality_stage(false, false, 5, 6), EqualityStage::SizeMismatch);
    assert!(!files_are_same(EqualityStage::NotFiles, b"a", b"a"));
    assert!(!files_are_same(EqualityStage::SizeMismatch, b"a", b"a"));
}

#[test]
fn empty_files_are_equal() {
    assert!(files_are_same(EqualityStage::Empty, b"", b""));
}

#[test]
fn small_files_differing_in_last_byte_are_different() {
    let stage = equality_stage(false, false, 3, 3);
    assert_eq!(stage, EqualityStage::FullContent);
    assert!(!files_are_same(stage, b"AAA", b"AAB"));
    assert!(files_are_same(stage, b"AAA", b"AAA"));
    assert!(!compare_file_contents(b"AAA", b"AAB"));
}

#[test]
fn checksum_stage_tells_contents_apart() {
    let a = vec![7u8; 5000];
    let mut b = a.clone();
    b[4999] = 8;
    assert!(compare_file_crc32(&a, &a.clone()));
    assert!(!compare_file_crc32(&a, &b));
    assert!(!files_are_same(EqualityStage::Checksum, &a, &b));
    assert!(files_are_same(EqualityStage::Checksum, &a, &a.clone()));
}

#[test]
fn large_files_differing_after_head_are_same() {
    let a = vec![1u8; 5_000_000];
    let mut b = a.clone();
    b[4096] = 2;
    b[4_999_999] = 3;
    let stage = equality_stage(false, false, a.len() as u64, b.len() as u64);
    assert_eq!(stage, EqualityStage::Head);
    assert!(files_are_same(stage, &a, &b));
    let mut c = a.clone();
    c[4095] = 9;
    assert!(!files_are_same(stage, &a, &c));
}

#[test]
fn head_comparison_looks_only_at_the_head() {
    assert!(compare_file_heads(b"abcdef", b"abcxyz", 3));
    assert!(!compare_file_heads(b"abcdef", b"abcxyz", 4));
    assert!(!compare_file_heads(b"ab", b"abc", 3));
    assert!(compare_file_heads(b"ab", b"ab", HEAD_BYTES));
}

#[test]
fn line_diff_marks_each_line() {
    let out = tudiff::diff::format_line_diff("a\nb\nc\n", "a\nx\nc\n");
    assert_eq!(out, " a\n-b\n+x\n c\n");
    assert_eq!(tudiff::diff::format_line_diff("same\n", "same\n"), " same\n");
    assert_eq!(tudiff::diff::format_line_diff("", "new"), "+new\n");
}
