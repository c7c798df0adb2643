use mcp::ascii::decimal_string;
use mcp::file::file_name;
use mcp::file::file_name_of;
use mcp::file::is_ascii_file;
use mcp::file::is_basic_file;
use mcp::file::is_bin_file;
use mcp::file::temporary;
use mcp::file::unique_filename_for_suffix;

#[test]
fn file_should_compute_temporary_file_name() {
    assert_eq!(temporary("foobar").unwrap(), "foobar.temp");
    assert_eq!(temporary("foobar.cas").unwrap(), "foobar.cas.temp");
    assert_eq!(temporary("/path/to/foobar.cas").unwrap(), "/path/to/foobar.cas.temp");
}

#[test]
fn file_should_compute_file_name_of() {
    let (fname, truncated) = file_name_of("foo").unwrap();
    assert!(!truncated);
    assert_eq!(&fname, b"foo   ");
    let (fname, truncated) = file_name_of("foobar").unwrap();
    assert!(!truncated);
    assert_eq!(&fname, b"foobar");
    let (fname, truncated) = file_name_of("guybrush").unwrap();
    assert!(truncated);
    assert_eq!(&fname, b"guybru");
    let (fname, truncated) = file_name_of("/path/to/foobar").unwrap();
    assert!(!truncated);
    assert_eq!(&fname, b"foobar");
}

#[test]
fn file_should_compute_is_bin_file() {
    assert!(is_bin_file("foobar.bin"));
    assert!(is_bin_file("foobar.BIN"));
    assert!(is_bin_file("foobar.BiN"));
    assert!(!is_bin_file("foobar"));
    assert!(!is_bin_file("foobar.bina"));
}

#[test]
fn file_should_compute_is_ascii_file() {
    assert!(is_ascii_file("foobar.asc"));
    assert!(is_ascii_file("foobar.ASC"));
    assert!(is_ascii_file("foobar.AsC"));
    assert!(!is_ascii_file("foobar"));
    assert!(!is_ascii_file("foobar.asci"));
}

#[test]
fn file_should_compute_is_basic_file() {
    assert!(is_basic_file("foobar.bas"));
    assert!(is_basic_file("foobar.BAS"));
    assert!(is_basic_file("foobar.BaS"));
    assert!(!is_basic_file("foobar"));
    assert!(!is_basic_file("foobar.basi"));
}

#[test]
fn should_extract_correct_filename() {
    assert_eq!(b"foo   ", &file_name("foo.bin").ok().unwrap());
    assert_eq!(b"foo   ", &file_name("foo.asc").ok().unwrap());
    assert_eq!(b"foo   ", &file_name("foo.bas").ok().unwrap());
    assert_eq!(b"foo   ", &file_name("../foo.bin").ok().unwrap());
    assert_eq!(b"foo   ", &file_name("../foo.asc").ok().unwrap());
    assert_eq!(b"foo   ", &file_name("../foo.bas").ok().unwrap());
}

#[test]
fn should_fail_extract_invalid_filename() {
    assert!(file_name(".").is_err());
    assert!(file_name("..").is_err());
    assert!(file_name("./").is_err());
    assert!(file_name("../").is_err());
    assert!(file_name("/.").is_err());
    assert!(file_name("/..").is_err());
}

#[test]
fn should_compute_entry_names() {
    // Shorter names gain spaces on the right, longer ones lose their tail.
    assert_eq!((*b"foo   ", false), mcp::tape::file_name("foo"));
    assert_eq!((*b"foobar", false), mcp::tape::file_name("foobar"));
    assert_eq!((*b"guybru", true), mcp::tape::file_name("guybrush"));
    assert_eq!((*b"      ", false), mcp::tape::file_name(""));
}

#[test]
fn should_compute_suffixed_filenames() {
    assert_eq!(unique_filename_for_suffix("foobar", 1).unwrap(), "foobar-1");
    assert_eq!(unique_filename_for_suffix("foobar.bin", 1).unwrap(), "foobar-1.bin");
    assert_eq!(unique_filename_for_suffix("foobar.bin", 2).unwrap(), "foobar-2.bin");
    assert_eq!(unique_filename_for_suffix("/path/to/foobar.bin", 12).unwrap(), "/path/to/foobar-12.bin");
    assert!(unique_filename_for_suffix("..", 1).is_err());
}

#[test]
fn should_fail_name_helpers_on_invalid_paths() {
    assert!(temporary("..").is_err());
    assert!(file_name_of("/..").is_err());
}

#[test]
fn should_format_decimals() {
    assert_eq!(decimal_string(0), "0");
    assert_eq!(decimal_string(7), "7");
    assert_eq!(decimal_string(42), "42");
    assert_eq!(decimal_string(1234567), "1234567");
}
