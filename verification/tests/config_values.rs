//! Dotted bare keys, metadata sources, and the command-line value readers.

use cargo_generate_rpm::cli::Cli;
use cargo_generate_rpm::config::parse_dotted_bare_keys;
use cargo_generate_rpm::config::split_metadata_overwrite;
use cargo_generate_rpm::config::ExtraMetadataSource;
use cargo_generate_rpm::error::DottedBareKeyLexError;

fn keys(input: &str) -> Result<Vec<String>, DottedBareKeyLexError> {
    parse_dotted_bare_keys(input)
}

#[test]
fn test_parse_dotted_bare_keys() {
    assert_eq!(keys("name"), Ok(vec!["name".to_string()]));
    assert_eq!(
        keys("physical.color"),
        Ok(vec!["physical".to_string(), "color".to_string()])
    );
    assert_eq!(
        keys("physical.color"),
        Ok(vec!["physical".to_string(), "color".to_string()])
    );
    assert_eq!(
        keys("invalid..joined"),
        Err(DottedBareKeyLexError::InvalidDotChar)
    );
    assert_eq!(
        keys(".invalid.joined"),
        Err(DottedBareKeyLexError::InvalidDotChar)
    );
    assert_eq!(
        keys("invalid.joined."),
        Err(DottedBareKeyLexError::InvalidDotChar)
    );
    assert_eq!(
        keys("error.\"quoted key\""),
        Err(DottedBareKeyLexError::QuotedKey('\"'))
    );
    assert_eq!(
        keys("error.\'quoted key\'"),
        Err(DottedBareKeyLexError::QuotedKey('\''))
    );
    assert_eq!(
        keys("a-zA-Z0-9-_.*invalid*"),
        Err(DottedBareKeyLexError::InvalidChar('*'))
    );
    assert_eq!(
        keys("a. b .c"),
        Err(DottedBareKeyLexError::InvalidChar(' '))
    );
}

#[test]
fn metadata_test_parse_dotted_bare_keys() {
    assert_eq!(keys("name"), Ok(vec!["name".to_string()]));
    assert_eq!(
        keys("physical.color"),
        Ok(vec!["physical".to_string(), "color".to_string()])
    );
    assert_eq!(
        keys("package.metadata.generate-rpm"),
        Ok(vec![
            "package".to_string(),
            "metadata".to_string(),
            "generate-rpm".to_string(),
        ])
    );
    assert_eq!(
        keys("invalid..joined"),
        Err(DottedBareKeyLexError::InvalidDotChar)
    );
    assert_eq!(
        keys(".invalid.joined"),
        Err(DottedBareKeyLexError::InvalidDotChar)
    );
    assert_eq!(
        keys("invalid.joined."),
        Err(DottedBareKeyLexError::InvalidDotChar)
    );
    assert_eq!(
        keys("error.\"quoted key\""),
        Err(DottedBareKeyLexError::QuotedKey('\"'))
    );
    assert_eq!(
        keys("error.\'quoted key\'"),
        Err(DottedBareKeyLexError::QuotedKey('\''))
    );
    assert_eq!(
        keys("a-zA-Z0-9-_.*invalid*"),
        Err(DottedBareKeyLexError::InvalidChar('*'))
    );
    assert_eq!(keys("a. b .c"), Err(DottedBareKeyLexError::InvalidChar(' ')));
    assert_eq!(keys(""), Ok(Vec::new()));
}

#[test]
fn test_metadata_overwrite() {
    let mut args = Cli::default();
    args.metadata_overwrite =
        vec!["TOML_FILE.toml".to_string(), "TOML_FILE.toml#TOML.PATH".to_string()];
    assert_eq!(
        args.metadata_overwrite,
        vec!["TOML_FILE.toml", "TOML_FILE.toml#TOML.PATH"]
    );
    assert_eq!(
        args.extra_metadata(),
        vec![
            ExtraMetadataSource::File("TOML_FILE.toml".to_string(), None),
            ExtraMetadataSource::File(
                "TOML_FILE.toml".to_string(),
                Some("TOML.PATH".to_string())
            ),
        ]
    );
}

#[test]
fn test_set_metadata() {
    let mut args = Cli::default();
    args.set_metadata = vec!["toml \"text1\"".to_string(), "toml \"text2\"".to_string()];
    assert_eq!(args.set_metadata, vec!["toml \"text1\"", "toml \"text2\""]);
    assert_eq!(
        args.extra_metadata(),
        vec![
            ExtraMetadataSource::Text("toml \"text1\"".to_string()),
            ExtraMetadataSource::Text("toml \"text2\"".to_string()),
        ]
    );
}

#[test]
fn test_split_metadata_overwrite() {
    assert_eq!(
        split_metadata_overwrite("file.toml"),
        ("file.toml".to_string(), None)
    );
    assert_eq!(
        split_metadata_overwrite("file.toml#a.b"),
        ("file.toml".to_string(), Some("a.b".to_string()))
    );
    // Only the first `#` splits.
    assert_eq!(
        split_metadata_overwrite("f#a#b"),
        ("f".to_string(), Some("a#b".to_string()))
    );
    assert_eq!(split_metadata_overwrite("f#"), ("f".to_string(), Some(String::new())));
}

#[test]
fn test_extra_metadata_variants() {
    let mut args = Cli::default();
    args.metadata_overwrite = vec!["o.toml".to_string()];
    args.set_metadata = vec!["a = 1".to_string()];
    args.variant = vec!["VARIANT1".to_string(), "VARIANT2".to_string()];
    assert_eq!(
        args.extra_metadata(),
        vec![
            ExtraMetadataSource::File("o.toml".to_string(), None),
            ExtraMetadataSource::Text("a = 1".to_string()),
            ExtraMetadataSource::Variant("VARIANT1".to_string()),
            ExtraMetadataSource::Variant("VARIANT2".to_string()),
        ]
    );
}
