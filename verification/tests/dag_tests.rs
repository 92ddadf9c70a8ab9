use ipfrs::cid::Cid;
use ipfrs::dag::{parse_index, path_segments, resolve_step, IpldNode, IpldValue};
use ipfrs::error::ErrorKind;
use ipfrs::node_stats::{network_health, optional_health, storage_health, HealthStatus};

fn cid(s: &str) -> Cid {
    Cid::from_bytes(s.as_bytes().to_vec())
}

#[test]
fn path_segments_drop_empty_pieces() {
    assert_eq!(path_segments("/a/b/c"), vec!["a", "b", "c"]);
    assert_eq!(path_segments("a//b/"), vec!["a", "b"]);
    assert_eq!(path_segments("///"), Vec::<String>::new());
    assert_eq!(path_segments(""), Vec::<String>::new());
    assert_eq!(path_segments("/é/0"), vec!["é", "0"]);
}

#[test]
fn parse_index_matches_std() {
    for s in ["0", "7", "+12", "", "+", "-1", "1a", "18446744073709551615", "18446744073709551616", "007"] {
        assert_eq!(parse_index(s), s.parse::<usize>().ok(), "{s}");
    }
}

#[test]
fn resolve_step_in_map() {
    let node = IpldNode::Mapping(vec![
        ("child".to_string(), IpldValue::Link(cid("c1"))),
        ("name".to_string(), IpldValue::Other),
    ]);
    assert_eq!(resolve_step(&node, "child").unwrap(), Some(cid("c1")));
    assert_eq!(resolve_step(&node, "missing").unwrap(), None);
    let err = resolve_step(&node, "name").unwrap_err();
    assert_eq!(err.error_kind(), ErrorKind::InvalidData);
    assert_eq!(err.message(), "Path leads to non-link value at 'name'");
}

#[test]
fn resolve_step_in_list_and_other() {
    let node = IpldNode::List(vec![IpldValue::Other, IpldValue::Link(cid("c2"))]);
    assert_eq!(resolve_step(&node, "1").unwrap(), Some(cid("c2")));
    assert_eq!(resolve_step(&node, "2").unwrap(), None);
    assert_eq!(resolve_step(&node, "0").unwrap_err().message(), "Path leads to non-link value at index 0");
    assert_eq!(resolve_step(&node, "x").unwrap_err().message(), "Invalid list index: 'x'");
    let leaf = IpldNode::Other;
    assert_eq!(resolve_step(&leaf, "a").unwrap_err().message(), "Cannot navigate through non-map/non-list value at 'a'");
}

#[test]
fn subsystem_health_reports() {
    assert_eq!(storage_health(false, true), HealthStatus::Unknown);
    assert_eq!(storage_health(true, true), HealthStatus::Healthy);
    assert_eq!(storage_health(true, false), HealthStatus::Degraded);
    assert_eq!(optional_health(false, true), None);
    assert_eq!(optional_health(true, true), Some(HealthStatus::Healthy));
    assert_eq!(optional_health(true, false), Some(HealthStatus::Degraded));
    assert_eq!(network_health(0), HealthStatus::Degraded);
    assert_eq!(network_health(3), HealthStatus::Healthy);
}
