//! Tests of the environment entry codec, the port token grammar, and the
//! set-as-map collections.

use oci_image_spec::env_var::EnvVar;
use oci_image_spec::errors::ParseError;
use oci_image_spec::exposed_ports::ExposedPorts;
use oci_image_spec::exposed_ports::Port;
use oci_image_spec::exposed_ports::PortProtocol;
use oci_image_spec::volumes::Volumes;

fn assert_consists_of<S, T>(collection: S, expected_items: &[T])
where
    S: std::iter::IntoIterator<Item = T> + std::fmt::Debug,
    T: std::cmp::PartialEq + std::fmt::Debug,
{
    let collection_string = format!("{:?}", &collection);
    let iter = collection.into_iter();
    for item in iter {
        assert!(
            expected_items.iter().find(|&x| x == &item).is_some(),
            "expected: {:?}, missing: {:?}",
            collection_string,
            &item
        );
    }
}

#[test]
fn test_assert_consists_of() {
    assert_consists_of(vec![1, 2, 3], &vec![3, 1, 2]);
    assert_consists_of(vec!["1", "2", "3"], &vec!["3", "1", "2"]);
}

#[test]
fn serializes_correctly() {
    let env_var = EnvVar {
        var_name: "FOO".to_string(),
        var_value: "BAR".to_string(),
    };
    let serialized = env_var.to_json_string();
    assert_eq!(serialized, r#""FOO=BAR""#);
}

#[test]
fn deserializes_correctly() {
    let raw = r#""VAR=VALUE""#;
    let env_var: EnvVar = EnvVar::from_json_str(&raw).unwrap();
    assert_eq!(env_var.var_name, "VAR");
    assert_eq!(env_var.var_value, "VALUE");
}

#[test]
fn deserializes_with_meaningful_error() {
    let raw = r#""FOO=BAR=BAZ""#;
    let result: Result<EnvVar, ParseError> = EnvVar::from_json_str(&raw);
    assert!(result.is_err());
    let err_string = result.err().unwrap().message();
    assert!(err_string.contains("invalid format for `Env` entry; should be: `VARNAME=VARVALUE`"));
}

#[test]
fn env_round_trip_keeps_pair() {
    let env_var = EnvVar {
        var_name: "PATH".to_string(),
        var_value: "/usr/bin:/bin".to_string(),
    };
    let decoded = EnvVar::decode(&env_var.encode()).unwrap();
    assert_eq!(decoded.var_name, "PATH");
    assert_eq!(decoded.var_value, "/usr/bin:/bin");
}

#[test]
fn exposed_ports_serializes_correctly() {
    let exposed_ports = ExposedPorts {
        ports: vec![
            Port { number: 11111, protocol: Some(PortProtocol::TCP) },
            Port { number: 22222, protocol: Some(PortProtocol::UDP) },
            Port { number: 33333, protocol: None },
        ],
    };
    // the encoder walks the stored tokens in order, so the rendering is
    // deterministic
    let serialized = exposed_ports.to_json_string();
    assert_eq!(serialized, r#"{"11111/tcp":{},"22222/udp":{},"33333":{}}"#);
}

#[test]
fn exposed_ports_deserializes_correctly() {
    let raw = r#"{"11111/tcp":{},"22222/udp":{},"33333":{}}"#;
    let exposed_ports = ExposedPorts::from_json_str(&raw).unwrap();
    assert_eq!(exposed_ports.ports.len(), 3);
    assert!(exposed_ports.ports.contains(&Port { number: 11111, protocol: Some(PortProtocol::TCP) }));
    assert!(exposed_ports.ports.contains(&Port { number: 22222, protocol: Some(PortProtocol::UDP) }));
    assert!(exposed_ports.ports.contains(&Port { number: 33333, protocol: None }));
}

#[test]
fn port_key_round_trips() {
    let with_proto = Port { number: 8080, protocol: Some(PortProtocol::TCP) };
    assert_eq!(with_proto.encode(), "8080/tcp");
    assert_eq!(Port::decode("8080/tcp").unwrap(), with_proto);

    let without_proto = Port { number: 33333, protocol: None };
    assert_eq!(without_proto.encode(), "33333");
    assert_eq!(Port::decode("33333").unwrap(), without_proto);
}

#[test]
fn port_key_rejects_unknown_protocol() {
    let err = Port::decode("8080/http").unwrap_err();
    match err {
        ParseError::CodecError { offending, expected } => {
            assert_eq!(offending, "http");
            assert!(expected.contains("tcp"));
        }
        other => panic!("expected a codec error, got: {:?}", other.message()),
    }
}

#[test]
fn port_key_rejects_bad_number() {
    assert!(Port::decode("abc").is_err());
    assert!(Port::decode("0").is_err());
    assert!(Port::decode("").is_err());
    assert!(Port::decode("/tcp").is_err());
}

#[test]
fn port_key_duplicates_collapse() {
    // two raw keys that parse to the same token collapse to one
    let raw = r#"{"08080/tcp":{},"8080/tcp":{}}"#;
    let exposed_ports = ExposedPorts::from_json_str(&raw).unwrap();
    assert_eq!(exposed_ports.ports.len(), 1);
    assert_eq!(exposed_ports.ports[0], Port { number: 8080, protocol: Some(PortProtocol::TCP) });
}

#[test]
fn volumes_serializes_correctly() {
    let volumes = Volumes(vec![
        "/var/job-result-data".to_string(),
        "/var/log/my-app-logs".to_string(),
    ]);
    let serialized = volumes.to_json_string();
    assert_eq!(
        serialized,
        r#"{"/var/job-result-data":{},"/var/log/my-app-logs":{}}"#
    );
}

#[test]
fn volumes_deserializes_correctly() {
    let raw = r#"{"/var/job-result-data":{},"/var/log/my-app-logs":{}}"#;
    let volumes = Volumes::from_json_str(&raw).unwrap();
    assert_eq!(volumes.0.len(), 2);
    assert_consists_of(
        volumes.0,
        &vec![
            "/var/job-result-data".to_string(),
            "/var/log/my-app-logs".to_string(),
        ],
    );
}

#[test]
fn volumes_tolerates_any_member_value() {
    // the values attached to the keys are ignored, whatever they are
    let raw = r#"{"/a":null,"/b":{"x":1},"/c":[true]}"#;
    let volumes = Volumes::from_json_str(&raw).unwrap();
    assert_eq!(volumes.0, vec!["/a".to_string(), "/b".to_string(), "/c".to_string()]);
}

#[test]
fn port_number_limits() {
    // the largest representable port number round-trips
    let big = Port { number: u64::MAX, protocol: None };
    assert_eq!(Port::decode(&big.encode()).unwrap(), big);
    // one past it does not fit and is rejected
    assert!(Port::decode("18446744073709551616").is_err());
    // leading zeros are tolerated on decode
    assert_eq!(
        Port::decode("0008080/udp").unwrap(),
        Port { number: 8080, protocol: Some(PortProtocol::UDP) }
    );
}
