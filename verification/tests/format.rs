use wasm_rr::trace::{FormatError, TraceFormat};

#[test]
fn explicit_format_wins_over_extension() {
    assert_eq!(TraceFormat::from_path_and_option("trace.json", Some("cbor")), Ok(TraceFormat::Cbor));
    assert_eq!(TraceFormat::from_path_and_option("trace.cbor", Some("json")), Ok(TraceFormat::Json));
}

#[test]
fn format_is_inferred_from_extension() {
    assert_eq!(TraceFormat::from_path_and_option("wasm-rr-trace.json", None), Ok(TraceFormat::Json));
    assert_eq!(TraceFormat::from_path_and_option("dir.d/trace.cbor", None), Ok(TraceFormat::Cbor));
}

#[test]
fn unknown_format_is_refused() {
    assert_eq!(
        TraceFormat::from_path_and_option("trace.json", Some("yaml")),
        Err(FormatError::UnsupportedFormat { format: "yaml".to_string() })
    );
}

#[test]
fn unknown_extension_is_refused() {
    assert_eq!(
        TraceFormat::from_path_and_option("trace.txt", None),
        Err(FormatError::UnsupportedExtension { extension: "txt".to_string() })
    );
}

#[test]
fn missing_extension_is_refused() {
    assert_eq!(TraceFormat::from_path_and_option("trace", None), Err(FormatError::NoExtension));
}

#[test]
fn the_extension_decides_where_nothing_is_asked_for() {
    assert_eq!(TraceFormat::from_extension_and_option(Some("json"), None), Ok(TraceFormat::Json));
    assert_eq!(TraceFormat::from_extension_and_option(Some("cbor"), None), Ok(TraceFormat::Cbor));
    assert_eq!(TraceFormat::from_extension_and_option(Some("cbor"), Some("json")), Ok(TraceFormat::Json));
    assert_eq!(
        TraceFormat::from_extension_and_option(Some("JSON"), None),
        Err(FormatError::UnsupportedExtension { extension: "JSON".to_string() })
    );
    assert_eq!(TraceFormat::from_extension_and_option(None, None), Err(FormatError::NoExtension));
    assert_eq!(TraceFormat::from_name("json"), Some(TraceFormat::Json));
    assert_eq!(TraceFormat::from_name("cbor"), Some(TraceFormat::Cbor));
    assert_eq!(TraceFormat::from_name(""), None);
}

#[test]
fn hidden_files_and_directories_with_dots_have_no_extension() {
    assert_eq!(TraceFormat::from_path_and_option(".json", None), Err(FormatError::NoExtension));
    assert_eq!(TraceFormat::from_path_and_option("dir.json/trace", None), Err(FormatError::NoExtension));
    assert_eq!(TraceFormat::from_path_and_option("a.b.cbor", None), Ok(TraceFormat::Cbor));
}
