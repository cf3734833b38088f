use parcel_lib::convert::ConversionError;
use parcel_lib::convert::SourceKind;
use parcel_lib::convert::classify_input;
use parcel_lib::convert::has_place_extension;
use parcel_lib::convert::output_directory;

#[test]
fn place_extension_suffix_check() {
    assert!(has_place_extension(&"place.rbxl".to_string()));
    assert!(has_place_extension(&"place.rbxlx".to_string()));
    assert!(!has_place_extension(&"place.RBXL".to_string()));
    assert!(!has_place_extension(&"place.txt".to_string()));
    assert!(!has_place_extension(&"rbxl".to_string()));
}

#[test]
fn binary_extension_accepted() {
    let r = classify_input(&"place.rbxl".to_string());
    assert!(matches!(r, Ok(SourceKind::Binary)));
}

#[test]
fn xml_extension_accepted() {
    let r = classify_input(&"/home/user/place.rbxlx".to_string());
    assert!(matches!(r, Ok(SourceKind::Xml)));
}

#[test]
fn extensions_case_folded() {
    assert!(matches!(
        classify_input(&"PLACE.RBXL".to_string()),
        Ok(SourceKind::Binary)
    ));
    assert!(matches!(
        classify_input(&"Place.RbXlX".to_string()),
        Ok(SourceKind::Xml)
    ));
}

#[test]
fn other_extensions_rejected() {
    assert!(matches!(
        classify_input(&"place.txt".to_string()),
        Err(ConversionError::InvalidFileExtension)
    ));
    assert!(matches!(
        classify_input(&"place.rbx".to_string()),
        Err(ConversionError::InvalidFileExtension)
    ));
}

#[test]
fn missing_extension_rejected() {
    assert!(matches!(
        classify_input(&"noext".to_string()),
        Err(ConversionError::InvalidFileExtension)
    ));
    assert!(matches!(
        classify_input(&"dir.rbxl/file".to_string()),
        Err(ConversionError::InvalidFileExtension)
    ));
}

#[test]
fn leading_dot_is_not_an_extension() {
    assert!(matches!(
        classify_input(&".rbxl".to_string()),
        Err(ConversionError::InvalidFileExtension)
    ));
}

#[test]
fn error_messages() {
    assert_eq!(
        ConversionError::InvalidFileExtension.message(),
        "Invalid file extension. Only .rbxl and .rbxlx files are supported."
    );
    assert_eq!(
        ConversionError::FileOpenError("denied".to_string()).message(),
        "Failed to open file: denied"
    );
    assert_eq!(
        ConversionError::DecodeError("bad byte".to_string()).message(),
        "Failed to decode file: bad byte"
    );
    assert_eq!(
        ConversionError::DirectoryCreateError("denied".to_string()).message(),
        "Failed to create output directory: denied"
    );
    assert_eq!(
        ConversionError::TaskError("gone".to_string()).message(),
        "Conversion task failed: gone"
    );
}

#[test]
fn output_directory_uses_stem() {
    let r = output_directory(&"/out".to_string(), &"/in/place.rbxl".to_string());
    assert_eq!(r, "/out/place");
}

#[test]
fn output_directory_falls_back_without_name() {
    let r = output_directory(&"/out".to_string(), &"/in/".to_string());
    assert_eq!(r, "/out/project");
}

#[test]
fn output_directory_keeps_dotless_name() {
    let r = output_directory(&"/out".to_string(), &"/in/place".to_string());
    assert_eq!(r, "/out/place");
}
