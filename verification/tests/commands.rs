use mcp::args::Args;
use mcp::args::Command;

fn args_with(version: bool, list: bool, add: bool, extract: bool, export: bool) -> Args {
    Args {
        flag_version: version,
        flag_list: list,
        flag_add: add,
        flag_extract: extract,
        flag_export: export,
        arg_cas_file: "foobar.cas".to_string(),
        arg_file: vec!["f1.bin".to_string()],
        arg_wav_file: "foobar.wav".to_string(),
    }
}

#[test]
fn should_select_version_command() {
    assert!(matches!(args_with(true, false, false, false, false).cmd(), Command::Version));
}

#[test]
fn should_select_list_command() {
    match args_with(false, true, false, false, false).cmd() {
        Command::List(path) => assert_eq!("foobar.cas", path),
        other => panic!("unexpected command {:?}", other),
    }
}

#[test]
fn should_select_add_command() {
    match args_with(false, false, true, false, false).cmd() {
        Command::Add(path, files) => {
            assert_eq!("foobar.cas", path);
            assert_eq!(vec!["f1.bin".to_string()], files);
        }
        other => panic!("unexpected command {:?}", other),
    }
}

#[test]
fn should_select_extract_command() {
    match args_with(false, false, false, true, false).cmd() {
        Command::Extract(path) => assert_eq!("foobar.cas", path),
        other => panic!("unexpected command {:?}", other),
    }
}

#[test]
fn should_select_export_command() {
    match args_with(false, false, false, false, true).cmd() {
        Command::Export(path, wav) => {
            assert_eq!("foobar.cas", path);
            assert_eq!("foobar.wav", wav);
        }
        other => panic!("unexpected command {:?}", other),
    }
}
