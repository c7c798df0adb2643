use mcp::file::file_name_of;
use mcp::file::is_ascii_file;
use mcp::file::is_basic_file;
use mcp::file::is_bin_file;
use mcp::file::temporary;

#[test]
fn should_compute_temporary_file_name() {
    assert_eq!(temporary("foobar").unwrap(), "foobar.temp");
    assert_eq!(temporary("foobar.cas").unwrap(), "foobar.cas.temp");
    assert_eq!(temporary("/path/to/foobar.cas").unwrap(), "/path/to/foobar.cas.temp");
}

#[test]
fn should_compute_file_name_of() {
    let (fname, truncated) = file_name_of("foo").unwrap();
    assert!(!truncated);
    assert_eq!(&fname, b"foo   ");
    let (fname, truncated) = file_name_of("foobar").unwrap();
    assert!(!truncated);
    assert_eq!(&fname, b"foobar");
    let (fname, truncated) = file_name_of("guybrush").unwrap();
    assert!(truncated);
    assert_eq!(&fname, b"guybru");
    let (fname, truncated) = file_name_of("/path/to/foobar").unwrap();
    assert!(!truncated);
    assert_eq!(&fname, b"foobar");
}

#[test]
fn should_compute_is_bin_file() {
    assert!(is_bin_file("foobar.bin"));
    assert!(is_bin_file("foobar.BIN"));
    assert!(is_bin_file("foobar.BiN"));
    assert!(!is_bin_file("foobar"));
    assert!(!is_bin_file("foobar.bina"));
}

#[test]
fn should_compute_is_ascii_file() {
    assert!(is_ascii_file("foobar.asc"));
    assert!(is_ascii_file("foobar.ASC"));
    assert!(is_ascii_file("foobar.AsC"));
    assert!(!is_ascii_file("foobar"));
    assert!(!is_ascii_file("foobar.asci"));
}

#[test]
fn should_compute_is_basic_file() {
    assert!(is_basic_file("foobar.bas"));
    assert!(is_basic_file("foobar.BAS"));
    assert!(is_basic_file("foobar.BaS"));
    assert!(!is_basic_file("foobar"));
    assert!(!is_basic_file("foobar.basi"));
}
