use cachesim::json_config::{metas_from_entries, read_config, CacheEntryFields, ConfigError};

#[test]
fn config_of_a_two_level_description() {
    let text = r#"{"caches": [
        {"name": "L1", "size": 1024, "line_size": 64, "kind": "2way", "replacement_policy": "lru"},
        {"name": "L2", "size": 8192, "line_size": 64, "kind": "full"}
    ]}"#;
    let metas = read_config(text).unwrap();
    assert_eq!(metas.len(), 2);
    assert_eq!(metas[0].name, "L1");
    assert_eq!((metas[0].size, metas[0].line_size, metas[0].kind, metas[0].rp), (1024, 64, 1, 1));
    assert_eq!(metas[1].name, "L2");
    assert_eq!((metas[1].size, metas[1].line_size, metas[1].kind, metas[1].rp), (8192, 64, 4, 0));
}

#[test]
fn config_null_or_unknown_policy_is_round_robin() {
    let text = r#"{"caches": [
        {"name": "A", "size": 256, "line_size": 64, "kind": "direct", "replacement_policy": null},
        {"name": "B", "size": 256, "line_size": 64, "kind": "8way", "replacement_policy": "fifo"},
        {"name": "C", "size": 256, "line_size": 64, "kind": "4way", "replacement_policy": "lfu"}
    ]}"#;
    let metas = read_config(text).unwrap();
    assert_eq!(metas.iter().map(|m| (m.kind, m.rp)).collect::<Vec<_>>(), vec![(0, 0), (3, 0), (2, 2)]);
}

#[test]
fn config_refusals() {
    assert!(matches!(read_config("not json"), Err(ConfigError::Malformed)));
    assert!(matches!(read_config(r#"{"levels": []}"#), Err(ConfigError::NoCacheList)));
    assert!(matches!(read_config(r#"{"caches": 3}"#), Err(ConfigError::NoCacheList)));
    assert!(matches!(
        read_config(r#"{"caches": [{"size": 1, "line_size": 1, "kind": "direct"}]}"#),
        Err(ConfigError::Name(0))
    ));
    assert!(matches!(
        read_config(r#"{"caches": [{"name": "A", "size": 64, "line_size": 64, "kind": "full"},
                                    {"name": "B", "size": "big", "line_size": 64, "kind": "full"}]}"#),
        Err(ConfigError::Size(1))
    ));
    assert!(matches!(
        read_config(r#"{"caches": [{"name": "A", "size": 64, "line_size": -1, "kind": "full"}]}"#),
        Err(ConfigError::LineSize(0))
    ));
    assert!(matches!(
        read_config(r#"{"caches": [{"name": "A", "size": 64, "line_size": 64, "kind": 2}]}"#),
        Err(ConfigError::Kind(0))
    ));
    assert!(matches!(
        read_config(r#"{"caches": [{"name": "A", "size": 64, "line_size": 64, "kind": "full", "replacement_policy": 5}]}"#),
        Err(ConfigError::Policy(0))
    ));
    match read_config(r#"{"caches": [{"name": "A", "size": 64, "line_size": 64, "kind": "3way"}]}"#) {
        Err(ConfigError::UnknownKind(0, kind)) => assert_eq!(kind, "3way"),
        _ => panic!("an unknown kind is refused"),
    }
}

#[test]
fn config_refuses_the_first_bad_entry() {
    let good = CacheEntryFields {
        name: Some(String::from("L1")),
        size: Some(512),
        line_size: Some(64),
        kind: Some(String::from("direct")),
        policy_is_null: true,
        policy: None,
    };
    let no_kind = CacheEntryFields { kind: None, ..good.clone() };
    let bad_kind = CacheEntryFields { kind: Some(String::from("huge")), ..good.clone() };
    let metas = metas_from_entries(&vec![good.clone(), good.clone()]).unwrap();
    assert_eq!(metas.len(), 2);
    assert_eq!((metas[1].size, metas[1].kind, metas[1].rp), (512, 0, 0));
    assert!(matches!(metas_from_entries(&vec![good.clone(), no_kind.clone(), bad_kind.clone()]), Err(ConfigError::Kind(1))));
    assert!(matches!(metas_from_entries(&vec![good, bad_kind, no_kind]), Err(ConfigError::UnknownKind(1, _))));
}
