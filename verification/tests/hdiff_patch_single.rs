use irmin::hdiffpatch::compression_mode::CompressionMode;
use irmin::hdiffpatch::error::HDiffError;
use irmin::hdiffpatch::header::HeaderInfo;
use irmin::hdiffpatch::patch_single::PatchSingle;


#[test]
fn patch_single_new_creates_struct() {
    let header_info = HeaderInfo::default();
    let ps = PatchSingle::new(header_info);
    let input: Vec<u8> = Vec::new();
    let result = ps.patch(&input, None);
    assert!(result.is_err(), "patch should fail with missing file");
}

#[test]
fn patch_single_patch_missing_file_returns_not_found() {
    let header_info = HeaderInfo::default();
    let ps = PatchSingle::new(header_info);
    let input: Vec<u8> = Vec::new();
    let result = ps.patch(&input, None);
    assert!(result.is_err());
    assert_eq!(
        result.err().unwrap(),
        HDiffError::NotFound,
        "should return NotFound for missing patch file"
    );
}

#[test]
fn header_info_zlib_padding_is_one() {
    let padding: u64 = CompressionMode::Zlib.padding();
    assert_eq!(padding, 1);
}

#[test]
fn header_info_nocomp_padding_is_zero() {
    let padding: u64 = CompressionMode::Nocomp.padding();
    assert_eq!(padding, 0);
}
