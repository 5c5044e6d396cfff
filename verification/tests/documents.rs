//! Tests of the document entry points: canonical serialization, parsing,
//! the classified errors, and the full round trip.

use oci_image_spec::env_var::EnvVar;
use oci_image_spec::errors::ParseError;
use oci_image_spec::exposed_ports::ExposedPorts;
use oci_image_spec::exposed_ports::Port;
use oci_image_spec::exposed_ports::PortProtocol;
use oci_image_spec::image_config::parse_image_config;
use oci_image_spec::image_config::serialize_image_config;
use oci_image_spec::image_config::Architecture;
use oci_image_spec::image_config::Config;
use oci_image_spec::image_config::History;
use oci_image_spec::image_config::ImageConfig;
use oci_image_spec::image_config::RootFS;
use oci_image_spec::image_config::RootFSType;
use oci_image_spec::image_config::OS;
use oci_image_spec::timestamp::Timestamp;
use oci_image_spec::volumes::Volumes;

fn required_only_config() -> ImageConfig {
    ImageConfig {
        architecture: Architecture::_386,
        os: OS::Linux,
        rootfs: RootFS {
            _type: RootFSType::Layers,
            diff_ids: vec![],
        },
        created: None,
        author: None,
        config: None,
        history: None,
    }
}

fn fixture_timestamp() -> Timestamp {
    Timestamp { year: 2023, month: 1, day: 2, hour: 3, minute: 4, second: 5, micros: 123456 }
}

fn all_optional_config() -> ImageConfig {
    let timestamp = fixture_timestamp();
    ImageConfig {
        architecture: Architecture::_386,
        os: OS::Linux,
        rootfs: RootFS {
            _type: RootFSType::Layers,
            diff_ids: vec!["sha256:some-sha".to_string()],
        },
        created: Some(timestamp),
        author: Some("Some One <someone@some.where>".to_string()),
        config: Some(Config {
            user: Some(String::from("user")),
            exposed_ports: Some(ExposedPorts {
                ports: vec![Port { number: 8080, protocol: Some(PortProtocol::TCP) }],
            }),
            env: Some(vec![EnvVar {
                var_name: "FOO".to_string(),
                var_value: "BAR".to_string(),
            }]),
            entrypoint: Some(vec!["/bin/sh".to_string()]),
            cmd: Some(vec!["-c".to_string(), "echo hello".to_string()]),
            volumes: Some(Volumes(vec!["/tmp/foobar".to_string()])),
            working_dir: Some("/home".to_string()),
            labels: Some(vec![("bar.foo".to_string(), "this is a label".to_string())]),
            stop_signal: Some("SIGTERM".to_string()),
        }),
        history: Some(vec![History {
            created: Some(timestamp),
            author: Some("Some One <someone@some.where>".to_string()),
            created_by: Some("/bin/sh".to_string()),
            comment: Some("this is a comment".to_string()),
            empty_layer: Some(false),
        }]),
    }
}

const REQUIRED_ONLY_TEXT: &str = r#"{
  "architecture": "386",
  "os": "linux",
  "rootfs": {
    "type": "layers",
    "diff_ids": []
  },
  "created": null,
  "author": null,
  "config": null,
  "history": null
}"#;

const ALL_OPTIONAL_TEXT: &str = r#"{
  "architecture": "386",
  "os": "linux",
  "rootfs": {
    "type": "layers",
    "diff_ids": [
      "sha256:some-sha"
    ]
  },
  "created": "2023-01-02T03:04:05.123456Z",
  "author": "Some One <someone@some.where>",
  "config": {
    "User": "user",
    "ExposedPorts": {
      "8080/tcp": {}
    },
    "Env": [
      "FOO=BAR"
    ],
    "Entrypoint": [
      "/bin/sh"
    ],
    "Cmd": [
      "-c",
      "echo hello"
    ],
    "Volumes": {
      "/tmp/foobar": {}
    },
    "WorkingDir": "/home",
    "Labels": {
      "bar.foo": "this is a label"
    },
    "StopSignal": "SIGTERM"
  },
  "history": [
    {
      "created": "2023-01-02T03:04:05.123456Z",
      "author": "Some One <someone@some.where>",
      "created_by": "/bin/sh",
      "comment": "this is a comment",
      "empty_layer": false
    }
  ]
}"#;

const PARSE_ONLY_REQUIRED_TEXT: &str = r#"{
  "architecture": "386",
  "os": "linux",
  "rootfs": {
    "type": "layers",
    "diff_ids": [
      "sha256:bogus-sha"
    ]
  }
}"#;

fn check_parsed_required(deserialized: &ImageConfig, expected_sha: &str) {
    match deserialized.architecture {
        Architecture::_386 => {}
        _ => panic!(
            "Received unexpected architecture: {:?}",
            deserialized.architecture
        ),
    }
    match deserialized.os {
        OS::Linux => {}
        _ => panic!("Received unexpected OS: {:?}", deserialized.os),
    }
    match deserialized.rootfs._type {
        RootFSType::Layers => {}
    }
    assert_eq!(deserialized.rootfs.diff_ids.len(), 1);
    assert_eq!(deserialized.rootfs.diff_ids[0], expected_sha);
}

#[test]
fn image_config_serializes_correctly() {
    // with only the required fields, every optional field is written as an
    // explicit null marker
    let serialized = serialize_image_config(&required_only_config());
    assert_eq!(serialized, REQUIRED_ONLY_TEXT);

    // with every optional field present
    let serialized = serialize_image_config(&all_optional_config());
    assert_eq!(serialized, ALL_OPTIONAL_TEXT);
}

#[test]
fn image_config_parses_correctly() {
    let deserialized = parse_image_config(PARSE_ONLY_REQUIRED_TEXT).unwrap();
    check_parsed_required(&deserialized, "sha256:bogus-sha");
    assert!(deserialized.created.is_none());
    assert!(deserialized.author.is_none());
    assert!(deserialized.config.is_none());
    assert!(deserialized.history.is_none());

    let deserialized = parse_image_config(ALL_OPTIONAL_TEXT).unwrap();
    check_parsed_required(&deserialized, "sha256:some-sha");
    assert_eq!(deserialized.created.unwrap(), fixture_timestamp());
    let config = deserialized.config.unwrap();
    assert_eq!(config.user.as_deref(), Some("user"));
    assert_eq!(
        config.exposed_ports.unwrap().ports,
        vec![Port { number: 8080, protocol: Some(PortProtocol::TCP) }]
    );
    let env = config.env.unwrap();
    assert_eq!(env.len(), 1);
    assert_eq!(env[0].var_name, "FOO");
    assert_eq!(env[0].var_value, "BAR");
    assert_eq!(config.entrypoint.unwrap(), vec!["/bin/sh".to_string()]);
    assert_eq!(config.cmd.unwrap(), vec!["-c".to_string(), "echo hello".to_string()]);
    assert_eq!(config.volumes.unwrap().0, vec!["/tmp/foobar".to_string()]);
    assert_eq!(config.working_dir.as_deref(), Some("/home"));
    assert_eq!(
        config.labels.unwrap(),
        vec![("bar.foo".to_string(), "this is a label".to_string())]
    );
    assert_eq!(config.stop_signal.as_deref(), Some("SIGTERM"));
    let history = deserialized.history.unwrap();
    assert_eq!(history.len(), 1);
    assert_eq!(history[0].created.unwrap(), fixture_timestamp());
    assert_eq!(history[0].author.as_deref(), Some("Some One <someone@some.where>"));
    assert_eq!(history[0].created_by.as_deref(), Some("/bin/sh"));
    assert_eq!(history[0].comment.as_deref(), Some("this is a comment"));
    assert_eq!(history[0].empty_layer, Some(false));
}

#[test]
fn image_config_allows_only_valid_platform_combinations() {
}

#[test]
fn config_serializes_correctly() {
    let serialized = serialize_image_config(&required_only_config());
    assert_eq!(serialized, REQUIRED_ONLY_TEXT);
}

#[test]
fn config_parses_correctly() {
    let deserialized = parse_image_config(PARSE_ONLY_REQUIRED_TEXT).unwrap();
    check_parsed_required(&deserialized, "sha256:bogus-sha");
}

#[test]
fn config_allows_only_valid_platform_combinations() {
}

#[test]
fn old_config_serializes_correctly() {
    let serialized = serialize_image_config(&required_only_config());
    assert_eq!(serialized, REQUIRED_ONLY_TEXT);
}

#[test]
fn old_config_parses_correctly() {
    let deserialized = parse_image_config(PARSE_ONLY_REQUIRED_TEXT).unwrap();
    check_parsed_required(&deserialized, "sha256:bogus-sha");
}

#[test]
fn old_config_allows_only_valid_platform_combinations() {
}

#[test]
fn parse_of_serialized_document_round_trips() {
    let original = all_optional_config();
    let text = serialize_image_config(&original);
    let back = parse_image_config(&text).unwrap();
    // field-wise equality, instant-level for the timestamps
    let text_again = serialize_image_config(&back);
    assert_eq!(text, text_again);
    assert_eq!(back.created.unwrap(), fixture_timestamp());
    assert_eq!(back.rootfs.diff_ids, original.rootfs.diff_ids);
    assert_eq!(
        back.config.as_ref().unwrap().exposed_ports.as_ref().unwrap().ports,
        original.config.as_ref().unwrap().exposed_ports.as_ref().unwrap().ports
    );
}

#[test]
fn rejects_unrecognized_rootfs_type() {
    let raw = r#"{
  "architecture": "386",
  "os": "linux",
  "rootfs": {
    "type": "overlay",
    "diff_ids": []
  }
}"#;
    match parse_image_config(raw).unwrap_err() {
        ParseError::SchemaError { message } => {
            assert!(message.contains("rootfs"));
        }
        other => panic!("expected a schema error, got: {}", other.message()),
    }
}

#[test]
fn rejects_unknown_enum_members() {
    let raw = r#"{"architecture": "sparc", "os": "linux", "rootfs": {"type": "layers", "diff_ids": []}}"#;
    assert!(matches!(
        parse_image_config(raw).unwrap_err(),
        ParseError::SchemaError { .. }
    ));
    let raw = r#"{"architecture": "386", "os": "templeos", "rootfs": {"type": "layers", "diff_ids": []}}"#;
    assert!(matches!(
        parse_image_config(raw).unwrap_err(),
        ParseError::SchemaError { .. }
    ));
}

#[test]
fn rejects_missing_required_fields() {
    let raw = r#"{"os": "linux", "rootfs": {"type": "layers", "diff_ids": []}}"#;
    assert!(matches!(
        parse_image_config(raw).unwrap_err(),
        ParseError::SchemaError { .. }
    ));
    let raw = r#"{"architecture": "386", "os": "linux"}"#;
    assert!(matches!(
        parse_image_config(raw).unwrap_err(),
        ParseError::SchemaError { .. }
    ));
}

#[test]
fn rejects_malformed_text_structurally() {
    for raw in ["{", "", "nullx", r#"{"a": }"#, "[1,]", r#"{"a":1,}"#] {
        assert!(matches!(
            parse_image_config(raw).unwrap_err(),
            ParseError::StructuralError { .. }
        ));
    }
}

#[test]
fn surfaces_codec_errors_from_fields() {
    // a malformed timestamp
    let raw = r#"{
  "architecture": "386",
  "os": "linux",
  "rootfs": {"type": "layers", "diff_ids": []},
  "created": "yesterday"
}"#;
    assert!(matches!(
        parse_image_config(raw).unwrap_err(),
        ParseError::CodecError { .. }
    ));

    // a malformed port key
    let raw = r#"{
  "architecture": "386",
  "os": "linux",
  "rootfs": {"type": "layers", "diff_ids": []},
  "config": {"ExposedPorts": {"web/tcp": {}}}
}"#;
    assert!(matches!(
        parse_image_config(raw).unwrap_err(),
        ParseError::CodecError { .. }
    ));

    // a malformed environment entry
    let raw = r#"{
  "architecture": "386",
  "os": "linux",
  "rootfs": {"type": "layers", "diff_ids": []},
  "config": {"Env": ["FOO=BAR=BAZ"]}
}"#;
    match parse_image_config(raw).unwrap_err() {
        ParseError::CodecError { expected, .. } => {
            assert!(expected.contains("VARNAME=VARVALUE"));
        }
        other => panic!("expected a codec error, got: {}", other.message()),
    }
}

#[test]
fn reads_escaped_strings() {
    let raw = r#"{
  "architecture": "386",
  "os": "linux",
  "rootfs": {"type": "layers", "diff_ids": []},
  "author": "tab\there \u0041 and \ud83d\ude00 and 😀"
}"#;
    let doc = parse_image_config(raw).unwrap();
    assert_eq!(
        doc.author.as_deref(),
        Some("tab\there A and \u{1F600} and \u{1F600}")
    );
}

#[test]
fn ignores_unknown_document_keys() {
    let raw = r#"{
  "architecture": "386",
  "os": "linux",
  "rootfs": {"type": "layers", "diff_ids": []},
  "moby.buildkit.something": {"nested": [1, 2.5e-3, true]}
}"#;
    let doc = parse_image_config(raw).unwrap();
    check_parsed_shape(&doc);
}

fn check_parsed_shape(doc: &ImageConfig) {
    assert!(matches!(doc.architecture, Architecture::_386));
    assert!(matches!(doc.os, OS::Linux));
}

#[test]
fn duplicate_label_keys_collapse_to_first() {
    let raw = r#"{
  "architecture": "386",
  "os": "linux",
  "rootfs": {"type": "layers", "diff_ids": []},
  "config": {"Labels": {"a": "1", "b": "2", "a": "3"}}
}"#;
    let doc = parse_image_config(raw).unwrap();
    let labels = doc.config.unwrap().labels.unwrap();
    assert_eq!(
        labels,
        vec![("a".to_string(), "1".to_string()), ("b".to_string(), "2".to_string())]
    );
}
