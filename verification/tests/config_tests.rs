//! Validation and document-codec behaviour of the configuration.

use dotfiles::config::AppConfig;
use dotfiles::errors::AppError;
use dotfiles::paths::NormPath;

fn path(s: &str) -> NormPath {
    NormPath::from_bytes(&s.as_bytes().to_vec())
}

#[test]
fn validate_nested_paths_detects_nested_paths() {
    let config = AppConfig {
        config_version: 1,
        mappings: vec![
            path(".config/some-other-dir"),
            path(".config/some-dir/some-file"),
            path(".config/some-dir"),
        ],
    };

    let result = config.validate_nested_mappings();

    assert!(result.is_err(), "did not detect nested paths");
    if let Err(AppError::ConfigNestedLinks(nested, parent)) = result {
        assert_eq!(nested, path(".config/some-dir/some-file"));
        assert_eq!(parent, path(".config/some-dir"));
    };
}

#[test]
fn validate_accepts_unrelated_mappings() {
    let config = AppConfig {
        config_version: 1,
        mappings: vec![path(".config/a"), path(".config/b"), path(".vimrc")],
    };
    assert!(config.validate_nested_mappings().is_ok());
    assert!(config.validate_absolute_mappings().is_ok());
}

#[test]
fn validate_detects_nesting_in_any_insertion_order() {
    let one = AppConfig {
        config_version: 1,
        mappings: vec![path(".config/dir"), path(".config/dir/file")],
    };
    let other = AppConfig {
        config_version: 1,
        mappings: vec![path(".config/dir/file"), path(".config/dir")],
    };
    assert!(one.validate_nested_mappings().is_err());
    assert!(other.validate_nested_mappings().is_err());
}

#[test]
fn validate_detects_duplicate_mappings() {
    let config = AppConfig {
        config_version: 1,
        mappings: vec![path(".vimrc"), path(".vimrc")],
    };
    assert!(config.validate_nested_mappings().is_err());
}

#[test]
fn validate_rejects_absolute_mapping() {
    let config = AppConfig {
        config_version: 1,
        mappings: vec![path(".config/a"), path("/etc/passwd")],
    };
    let result = config.validate_absolute_mappings();
    assert!(result.is_err());
    if let Err(AppError::ConfigAbsoluteLink(p)) = result {
        assert_eq!(p, path("/etc/passwd"));
    } else {
        panic!("wrong error variant");
    }
}

#[test]
fn config_document_round_trip() {
    let config = AppConfig {
        config_version: 1,
        mappings: vec![path(".config/app"), path(".vimrc")],
    };
    let bytes = config.to_toml_bytes().expect("serialization failed");
    let parsed = AppConfig::from_toml_bytes(&bytes).expect("parse failed");
    assert_eq!(parsed.config_version, 1);
    assert_eq!(parsed.mappings, vec![path(".config/app"), path(".vimrc")]);
}

#[test]
fn config_document_round_trip_empty() {
    let config = AppConfig { config_version: 3, mappings: vec![] };
    let bytes = config.to_toml_bytes().expect("serialization failed");
    let text = String::from_utf8(bytes.clone()).expect("not utf-8");
    assert_eq!(text, "config_version = 3\nmappings = [\n]\n");
    let parsed = AppConfig::from_toml_bytes(&bytes).expect("parse failed");
    assert_eq!(parsed.config_version, 3);
    assert!(parsed.mappings.is_empty());
}

#[test]
fn config_document_round_trip_negative_version() {
    let config = AppConfig { config_version: -128, mappings: vec![] };
    let bytes = config.to_toml_bytes().expect("serialization failed");
    let parsed = AppConfig::from_toml_bytes(&bytes).expect("parse failed");
    assert_eq!(parsed.config_version, -128);
}

#[test]
fn config_document_exact_form() {
    let config = AppConfig {
        config_version: 1,
        mappings: vec![path(".config/app")],
    };
    let bytes = config.to_toml_bytes().expect("serialization failed");
    let text = String::from_utf8(bytes).expect("not utf-8");
    assert_eq!(text, "config_version = 1\nmappings = [\n    \".config/app\",\n]\n");
}

#[test]
fn config_parse_normalizes_leading_current_dir() {
    let doc = "config_version = 1\nmappings = [\n    \"./.config/app\",\n]\n";
    let parsed = AppConfig::from_toml_bytes(&doc.as_bytes().to_vec()).expect("parse failed");
    assert_eq!(parsed.mappings, vec![path(".config/app")]);
}

#[test]
fn config_parse_rejects_malformed_document() {
    let cases = [
        "",
        "config_version = 1\n",
        "version = 1\nmappings = [\n]\n",
        "config_version = x\nmappings = [\n]\n",
        "config_version = 1\nmappings = [\n]",
        "config_version = 1\nmappings = [\n    \".vimrc\"\n]\n",
        "config_version = 999\nmappings = [\n]\n",
    ];
    for doc in cases.iter() {
        let result = AppConfig::from_toml_bytes(&doc.as_bytes().to_vec());
        assert!(matches!(result, Err(AppError::ConfigParse)), "accepted: {doc:?}");
    }
}

#[test]
fn config_parse_validates_mappings() {
    let nested = "config_version = 1\nmappings = [\n    \".config/a\",\n    \".config/a/b\",\n]\n";
    let result = AppConfig::from_toml_bytes(&nested.as_bytes().to_vec());
    assert!(matches!(result, Err(AppError::ConfigNestedLinks(_, _))));

    let absolute = "config_version = 1\nmappings = [\n    \"/etc/passwd\",\n]\n";
    let result = AppConfig::from_toml_bytes(&absolute.as_bytes().to_vec());
    assert!(matches!(result, Err(AppError::ConfigAbsoluteLink(_))));
}

#[test]
fn config_serialize_rejects_unprintable_mapping() {
    let config = AppConfig {
        config_version: 1,
        mappings: vec![NormPath::from_bytes(&b"we\"ird".to_vec())],
    };
    let result = config.to_toml_bytes();
    assert!(matches!(result, Err(AppError::ConfigSerialize(_))));
}

#[test]
fn add_mapping_appends() {
    let mut config = AppConfig { config_version: 1, mappings: vec![path(".vimrc")] };
    config.add_mapping(path(".config/app"));
    assert_eq!(config.mappings, vec![path(".vimrc"), path(".config/app")]);
}
