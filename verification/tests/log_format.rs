use rust_can::log_format::LogFormat;

#[test]
fn detects_format_from_plain_and_compressed_extension() {
    assert_eq!(LogFormat::from_path("capture.asc").unwrap(), LogFormat::Asc);
    assert_eq!(LogFormat::from_path("capture.blf").unwrap(), LogFormat::Blf);
    assert_eq!(LogFormat::from_path("capture.asc.gz").unwrap(), LogFormat::Asc);
}

#[test]
fn detects_blf_from_magic() {
    assert_eq!(LogFormat::from_magic(b"LOGG\x90\0\0\0"), Some(LogFormat::Blf));
}

#[test]
fn rejects_unknown_extension() {
    let error = LogFormat::from_path("capture.unknown").unwrap_err();
    assert_eq!(error.message(), "unsupported log format for path capture.unknown");
}

#[test]
fn detects_formats_inside_directories() {
    assert_eq!(LogFormat::from_path("dir/sample.asc").unwrap(), LogFormat::Asc);
    assert_eq!(LogFormat::from_path("dir/sample.blf").unwrap(), LogFormat::Blf);
    assert_eq!(LogFormat::from_magic(b"LOGG"), Some(LogFormat::Blf));
    assert_eq!(LogFormat::from_magic(b"date"), None);
}

#[test]
fn short_or_other_magic_is_not_blf() {
    assert_eq!(LogFormat::from_magic(b"LOG"), None);
    assert_eq!(LogFormat::from_magic(b""), None);
    assert_eq!(LogFormat::from_magic(b"logg"), None);
}

#[test]
fn paths_without_a_known_extension_are_rejected() {
    assert!(LogFormat::from_path("capture").is_err());
    assert!(LogFormat::from_path("dir.asc/capture").is_err());
    assert!(LogFormat::from_path("capture.gz").is_err());
    assert_eq!(LogFormat::from_path("dir.x/capture.blf.zst").unwrap(), LogFormat::Blf);
}
