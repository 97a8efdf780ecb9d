use rust_grep::data_struct::DataStatus;
use rust_grep::file_read::{
    check_extension, check_metadata, check_path_type, check_path_valid, collect_directory,
    error_package, open_error, split_lines, success_package, DirEntryOutcome, FileReadError,
    IoErrorKind, PathReadError, PathType, ValidFormats, MAX_FILE_SIZE,
};

#[test]
fn test_valid_formats_parsing() {
    assert!(ValidFormats::from_str("txt").is_ok());
    assert!(ValidFormats::from_str("JSON").is_ok()); // any case
    assert!(ValidFormats::from_str("exe").is_err());
}

#[test]
fn formats_by_extension() {
    assert_eq!(ValidFormats::from_str("CsV"), Ok(ValidFormats::Csv));
    assert_eq!(ValidFormats::from_str("log"), Ok(ValidFormats::Log));
    assert_eq!(ValidFormats::from_str("DAT"), Ok(ValidFormats::Dat));
    assert_eq!(ValidFormats::from_str("json"), Ok(ValidFormats::Json));
    assert_eq!(ValidFormats::from_str("txt "), Err(()));
    assert_eq!(ValidFormats::from_str(""), Err(()));
}

#[test]
fn extension_errors() {
    assert!(matches!(check_extension(None), Err(FileReadError::NoExtension)));
    assert!(matches!(check_extension(Some("exe")), Err(FileReadError::UnsupportedFormat)));
    assert!(matches!(check_extension(Some("TXT")), Ok(ValidFormats::Txt)));
}

#[test]
fn open_errors() {
    assert!(matches!(open_error(IoErrorKind::NotFound, "gone".to_string()), FileReadError::NotFound));
    match open_error(IoErrorKind::PermissionDenied, "denied".to_string()) {
        FileReadError::IOError(t) => assert_eq!(t, "denied"),
        _ => panic!("expected IOError"),
    }
}

#[test]
fn metadata_checks() {
    assert!(matches!(check_metadata(false, 1), Err(FileReadError::NotAFile)));
    assert!(check_metadata(true, MAX_FILE_SIZE).is_ok());
    assert_eq!(MAX_FILE_SIZE, 10 * 1024 * 1024);
    assert!(matches!(check_metadata(true, MAX_FILE_SIZE + 1), Err(FileReadError::FileTooLarge)));
    assert!(check_metadata(true, 0).is_ok());
}

#[test]
fn lines_of_content() {
    let lines = split_lines(b"line1\nline2\nline3\n").unwrap();
    assert_eq!(lines, vec!["line1", "line2", "line3"]);
    let lines = split_lines(b"a\r\nb\r\n\nc\r").unwrap();
    assert_eq!(lines, vec!["a", "b", "", "c\r"]);
    assert!(split_lines(b"").unwrap().is_empty());
    assert_eq!(split_lines(b"\n").unwrap(), vec![""]);
    assert_eq!(split_lines("中文\n".as_bytes()).unwrap(), vec!["中文"]);
}

#[test]
fn invalid_utf8_is_a_read_error() {
    match split_lines(b"ok\n\xff\xfe\n") {
        Err(FileReadError::ReadError(m)) => assert_eq!(m, "stream did not contain valid UTF-8"),
        _ => panic!("expected ReadError"),
    }
}

#[test]
fn file_error_messages() {
    assert_eq!(FileReadError::NotFound.message(), "NotFound");
    assert_eq!(FileReadError::FileTooLarge.message(), "FileTooLarge");
    assert_eq!(FileReadError::UnsupportedFormat.message(), "UnsupportedFormat");
    assert_eq!(FileReadError::NoExtension.message(), "NoExtension");
    assert_eq!(FileReadError::NotAFile.message(), "NotAFile");
    assert_eq!(FileReadError::ReadError("bad".to_string()).message(), "ReadError:bad");
    assert_eq!(FileReadError::IOError("x".to_string()).message(), "IOError:x");
}

#[test]
fn path_errors() {
    assert!(matches!(PathReadError::from_io_error(IoErrorKind::NotFound, String::new()), PathReadError::NotFound));
    assert!(matches!(
        PathReadError::from_io_error(IoErrorKind::PermissionDenied, String::new()),
        PathReadError::PermissionDenied
    ));
    assert!(matches!(
        PathReadError::from_io_error(IoErrorKind::NotADirectory, String::new()),
        PathReadError::NotADirectory
    ));
    match PathReadError::from_io_error(IoErrorKind::Other, "boom".to_string()) {
        PathReadError::IOError(t) => assert_eq!(t, "boom"),
        _ => panic!("expected IOError"),
    }
    assert_eq!(PathReadError::NotFound.message(), "指定的路径未找到");
    assert_eq!(PathReadError::PermissionDenied.message(), "没有权限访问该路径");
    assert_eq!(PathReadError::NotADirectory.message(), "该路径不是一个目录");
    assert_eq!(PathReadError::IOError("e".to_string()).message(), "IO 系统错误: e");
}

#[test]
fn path_checks() {
    assert!(matches!(check_path_valid(false, false), Err(PathReadError::NotFound)));
    assert!(matches!(check_path_valid(true, false), Err(PathReadError::NotADirectory)));
    assert!(check_path_valid(true, true).is_ok());
    assert_eq!(check_path_type(true, false), PathType::Directory);
    assert_eq!(check_path_type(false, true), PathType::File);
    assert_eq!(check_path_type(false, false), PathType::Unsupported);
}

#[test]
fn packages_from_reads() {
    let p = success_package("a.txt".to_string(), vec!["x".to_string()]);
    assert!(matches!(p.data_status, DataStatus::SUCCESS));
    assert_eq!(p.data_struct.values, vec!["x"]);
    let p = error_package("b.exe".to_string(), &FileReadError::UnsupportedFormat);
    match p.data_status {
        DataStatus::ERROR(m) => assert_eq!(m, "UnsupportedFormat"),
        _ => panic!("expected ERROR"),
    }
    assert!(p.data_struct.values.is_empty());
    assert_eq!(p.data_path, "b.exe");
}

#[test]
fn directory_keeps_files_in_order() {
    let entries = vec![
        DirEntryOutcome::File("dir/valid.txt".to_string(), Ok(vec!["valid content".to_string()])),
        DirEntryOutcome::NotAFile,
        DirEntryOutcome::Unreadable,
        DirEntryOutcome::File("dir/invalid.exe".to_string(), Err(FileReadError::UnsupportedFormat)),
    ];
    let read = collect_directory("dir".to_string(), entries);
    assert_eq!(read.directory_path, "dir");
    assert_eq!(read.data_structs.len(), 2);
    assert_eq!(read.data_structs[0].data_path, "dir/valid.txt");
    assert!(matches!(read.data_structs[0].data_status, DataStatus::SUCCESS));
    assert_eq!(read.data_structs[1].data_path, "dir/invalid.exe");
    assert!(matches!(read.data_structs[1].data_status, DataStatus::ERROR(_)));
    assert_eq!(read.data_structs[0].data_struct.values, vec!["valid content".to_string()]);
    assert!(read.data_structs[1].data_struct.values.is_empty());
}

#[test]
fn empty_directory_gives_no_packages() {
    let read = collect_directory("empty".to_string(), Vec::new());
    assert_eq!(read.directory_path, "empty");
    assert!(read.data_structs.is_empty());
}
