use relay::profile::SecretUrl;
use relay::sources::{RemoteSourceRefreshInterval, SubscriptionStoreError};
use relay::store::{
    collapsed_group_ids, decode_collapsed_groups, decode_hex, decode_subscription_source,
    encode_collapsed_groups, encode_hex, encode_subscription_source, insert_loaded_subscription,
    load_subscriptions, plan_subscription_save, SubscriptionSave,
    insert_loaded_vless_node, qx_rule_source_file_name, saved_subscription_index,
    single_line_source, stored_id_for_file, stored_source_id, subscription_source_file_name,
    subscription_source_id_for_file, valid_stored_id, valid_subscription_source_id,
    valid_workspace_group_id, vless_node_from_file, StoredSubscription,
};

#[test]
fn hex_fields_round_trip_utf8() {
    assert_eq!(encode_hex("ab"), "6162");
    assert_eq!(encode_hex("é"), "c3a9");
    assert_eq!(decode_hex("6162").unwrap(), "ab");
    assert_eq!(decode_hex(&encode_hex("订阅 https://x")).unwrap(), "订阅 https://x");
    assert_eq!(
        decode_hex("616"),
        Err(SubscriptionStoreError::StoredSourceUnavailable)
    );
    assert_eq!(
        decode_hex("6G"),
        Err(SubscriptionStoreError::StoredSourceUnavailable)
    );
    assert_eq!(
        decode_hex("4A"),
        Err(SubscriptionStoreError::StoredSourceUnavailable)
    );
    assert_eq!(
        decode_hex("ff"),
        Err(SubscriptionStoreError::StoredSourceUnavailable)
    );
}

#[test]
fn stored_ids_have_a_prefix_and_a_hex_suffix() {
    assert!(valid_stored_id("source-18f2a-0", "source-"));
    assert!(valid_stored_id("source-ABC", "source-"));
    assert!(!valid_stored_id("source-", "source-"));
    assert!(!valid_stored_id("source-xyz", "source-"));
    assert!(!valid_stored_id("saved-12", "source-"));
    assert!(valid_subscription_source_id("subscription:legacy"));
    assert!(!valid_subscription_source_id("../../unsafe"));
    assert!(valid_workspace_group_id("group:a_b-1"));
    assert!(!valid_workspace_group_id("../../unsafe"));
    assert!(!valid_workspace_group_id(""));
    assert!(!valid_workspace_group_id(&"a".repeat(161)));
}

#[test]
fn generated_ids_are_hexadecimal() {
    let id = stored_source_id("source-", 0x18f2a, 10);
    assert_eq!(id, "source-18f2a-a");
    assert!(valid_stored_id(&id, "source-"));
    assert_eq!(stored_source_id("group-", 0, 0), "group-0-0");
}

#[test]
fn source_file_names_follow_their_identifiers() {
    assert_eq!(
        subscription_source_file_name("subscription:legacy").unwrap(),
        "subscription.url"
    );
    assert_eq!(
        subscription_source_file_name("source-1f").unwrap(),
        "source-1f.url"
    );
    assert_eq!(
        subscription_source_file_name("../x"),
        Err(SubscriptionStoreError::StoreUnavailable)
    );
    assert_eq!(
        qx_rule_source_file_name("qx-rule-2a").unwrap(),
        "qx-rule-2a.qxrules"
    );
    assert_eq!(
        qx_rule_source_file_name("source-2a"),
        Err(SubscriptionStoreError::StoreUnavailable)
    );
    assert_eq!(
        subscription_source_id_for_file("subscription.url").as_deref(),
        Some("subscription:legacy")
    );
    assert_eq!(
        subscription_source_id_for_file("source-feed.url").as_deref(),
        Some("source-feed")
    );
    assert_eq!(subscription_source_id_for_file("notes.txt"), None);
    assert_eq!(
        stored_id_for_file("saved-9.vless", "saved-", ".vless").as_deref(),
        Some("saved-9")
    );
    assert_eq!(stored_id_for_file("saved-z.vless", "saved-", ".vless"), None);
}

#[test]
fn subscription_record_round_trips() {
    let url = "https://subscription.example.invalid/client?token=fixture-secret";
    let text = encode_subscription_source(
        "source-1a",
        url,
        RemoteSourceRefreshInterval::SixHours,
        42,
    )
    .unwrap();
    assert!(!text.contains("fixture-secret"));
    assert_eq!(
        text.lines().next(),
        Some("relay-subscription-source-v1")
    );
    let decoded = decode_subscription_source(&text, "source-1a").unwrap();
    assert_eq!(decoded.url_input, url);
    assert_eq!(decoded.stored.id, "source-1a");
    assert_eq!(
        decoded.stored.refresh_interval,
        RemoteSourceRefreshInterval::SixHours
    );
    assert_eq!(decoded.stored.last_successful_update_unix_secs, 42);
    assert_eq!(
        decoded.stored.source,
        SecretUrl::parse_subscription(url).unwrap()
    );
    assert!(!format!("{:?}", decoded.stored).contains("fixture-secret"));
    assert_eq!(
        decode_subscription_source(&text, "source-1b").err(),
        Some(SubscriptionStoreError::StoredSourceUnavailable)
    );
}

#[test]
fn subscription_record_rejects_invalid_inputs() {
    assert_eq!(
        encode_subscription_source(
            "bad id",
            "https://a.invalid/x",
            RemoteSourceRefreshInterval::Manual,
            0
        ),
        Err(SubscriptionStoreError::InvalidSource)
    );
    assert_eq!(
        encode_subscription_source(
            "source-1",
            "ftp://a.invalid/x",
            RemoteSourceRefreshInterval::Manual,
            0
        ),
        Err(SubscriptionStoreError::InvalidSource)
    );
    let long = format!("https://a.invalid/{}", "a".repeat(16 * 1024));
    assert_eq!(
        encode_subscription_source("source-1", &long, RemoteSourceRefreshInterval::Manual, 0),
        Err(SubscriptionStoreError::InvalidSource)
    );
}

#[test]
fn legacy_subscription_files_hold_a_bare_url() {
    let decoded = decode_subscription_source(
        "https://legacy.example.invalid/client?token=fixture-legacy",
        "source-feed",
    )
    .unwrap();
    assert_eq!(decoded.stored.id, "source-feed");
    assert_eq!(
        decoded.stored.refresh_interval,
        RemoteSourceRefreshInterval::Manual
    );
    assert_eq!(decoded.stored.last_successful_update_unix_secs, 0);
    for corrupt in [
        "",
        " https://a.invalid/x",
        "https://a.invalid/x\nhttps://b.invalid/y",
        "relay-subscription-source-v1\nid\tsource-feed",
        "relay-subscription-source-v1\nid\tsource-feed\nid\tsource-feed\nurl\t61",
        "relay-subscription-source-v1\nid\tsource-feed\nurl\tzz",
        "relay-subscription-source-v1\nid\tsource-feed\nnote\tx",
    ] {
        assert_eq!(
            decode_subscription_source(corrupt, "source-feed").err(),
            Some(SubscriptionStoreError::StoredSourceUnavailable)
        );
    }
}

#[test]
fn versioned_record_without_metadata_uses_defaults() {
    let text = format!(
        "relay-subscription-source-v1\nid\tsource-2\nurl\t{}",
        encode_hex("http://plain.example.invalid/feed")
    );
    let decoded = decode_subscription_source(&text, "source-2").unwrap();
    assert_eq!(
        decoded.stored.refresh_interval,
        RemoteSourceRefreshInterval::Manual
    );
    assert_eq!(decoded.stored.last_successful_update_unix_secs, 0);
}

fn stored(id: &str, url: &str) -> StoredSubscription {
    StoredSubscription {
        id: id.to_owned(),
        source: SecretUrl::parse_subscription(url).unwrap(),
        refresh_interval: RemoteSourceRefreshInterval::Manual,
        last_successful_update_unix_secs: 0,
    }
}

#[test]
fn loaded_subscriptions_are_sorted_and_deduplicated() {
    let mut sources = Vec::new();
    insert_loaded_subscription(&mut sources, stored("source-b", "https://b.invalid/x"));
    insert_loaded_subscription(&mut sources, stored("source-a", "https://a.invalid/x"));
    insert_loaded_subscription(&mut sources, stored("source-c", "https://a.invalid/x"));
    let ids: Vec<&str> = sources.iter().map(|s| s.id.as_str()).collect();
    assert_eq!(ids, vec!["source-a", "source-b"]);
    let url = SecretUrl::parse_subscription("https://b.invalid/x").unwrap();
    assert_eq!(saved_subscription_index(&sources, &url), Some(1));
    let other = SecretUrl::parse_subscription("https://c.invalid/x").unwrap();
    assert_eq!(saved_subscription_index(&sources, &other), None);
}

#[test]
fn collapsed_groups_are_filtered_sorted_and_round_trip() {
    let ids = ["saved", "../../unsafe", "group-b", "saved", "group-a"];
    assert_eq!(collapsed_group_ids(&ids), vec!["group-a", "group-b", "saved"]);
    let text = encode_collapsed_groups(&ids);
    assert_eq!(text, "group-a\ngroup-b\nsaved");
    assert_eq!(
        decode_collapsed_groups(&text).unwrap(),
        vec!["group-a", "group-b", "saved"]
    );
    assert_eq!(decode_collapsed_groups("").unwrap(), Vec::<String>::new());
    assert_eq!(
        decode_collapsed_groups("ok\n../bad"),
        Err(SubscriptionStoreError::StoredSourceUnavailable)
    );
}

#[test]
fn single_line_sources_are_trimmed_lines() {
    assert_eq!(single_line_source("vless://x".to_owned()).unwrap(), "vless://x");
    assert_eq!(
        single_line_source("a\nb".to_owned()),
        Err(SubscriptionStoreError::StoredSourceUnavailable)
    );
    assert_eq!(
        single_line_source(String::new()),
        Err(SubscriptionStoreError::StoredSourceUnavailable)
    );
}

#[test]
fn saved_vless_nodes_load_in_identifier_order() {
    let link = "vless://00000000-0000-4000-8000-000000000000@edge.example.invalid:443?security=tls&type=ws#Tokyo%20Edge";
    let b = vless_node_from_file("saved-b".to_owned(), link.to_owned()).unwrap();
    let a = vless_node_from_file("saved-a".to_owned(), link.to_owned()).unwrap();
    assert!(!format!("{a:?}").contains("00000000"));
    let mut nodes = Vec::new();
    insert_loaded_vless_node(&mut nodes, b);
    insert_loaded_vless_node(&mut nodes, a);
    let ids: Vec<&str> = nodes.iter().map(|n| n.id.as_str()).collect();
    assert_eq!(ids, vec!["saved-a", "saved-b"]);
    assert_eq!(
        vless_node_from_file("saved-c".to_owned(), "https://x.invalid".to_owned()).err(),
        Some(SubscriptionStoreError::StoredSourceUnavailable)
    );
}

#[test]
fn saving_the_same_subscription_twice_finds_the_saved_record() {
    let url = "https://first.example.invalid/client?token=fixture-one&name=First";
    let mut sources: Vec<StoredSubscription> = Vec::new();
    let first = match plan_subscription_save(&sources, url, "source-1", 42).unwrap() {
        SubscriptionSave::New { record, contents } => {
            assert_eq!(
                decode_subscription_source(&contents, "source-1").unwrap().url_input,
                url
            );
            record
        }
        SubscriptionSave::Existing(_) => panic!("nothing was saved yet"),
    };
    assert_eq!(first.id, "source-1");
    assert_eq!(first.last_successful_update_unix_secs, 42);
    insert_loaded_subscription(&mut sources, first);
    match plan_subscription_save(&sources, url, "source-2", 43).unwrap() {
        SubscriptionSave::Existing(index) => assert_eq!(sources[index].id, "source-1"),
        SubscriptionSave::New { .. } => panic!("the URL is saved already"),
    }
    match plan_subscription_save(&sources, "https://second.example.invalid/x", "source-2", 43)
        .unwrap()
    {
        SubscriptionSave::New { record, .. } => assert_eq!(record.id, "source-2"),
        SubscriptionSave::Existing(_) => panic!("a different URL is new"),
    }
    assert_eq!(
        plan_subscription_save(&sources, "ftp://x.invalid/", "source-3", 0).err(),
        Some(SubscriptionStoreError::InvalidSource)
    );
    assert_eq!(
        plan_subscription_save(&sources, "https://third.invalid/x", "bad id", 0).err(),
        Some(SubscriptionStoreError::InvalidSource)
    );
}

#[test]
fn reloading_after_a_save_holds_the_url_once_wherever_the_file_is_read() {
    let url = "https://first.example.invalid/client?token=fixture-one&name=First";
    let contents = match plan_subscription_save(&Vec::new(), url, "source-5", 7).unwrap() {
        SubscriptionSave::New { contents, .. } => contents,
        SubscriptionSave::Existing(_) => panic!("nothing was saved yet"),
    };
    for at in 0..3 {
        let mut records = vec![
            stored("source-9", "https://b.invalid/x"),
            stored("source-1", "https://c.invalid/x"),
        ];
        records.insert(at, decode_subscription_source(&contents, "source-5").unwrap().stored);
        let sources = load_subscriptions(records);
        let ids: Vec<&str> = sources.iter().map(|s| s.id.as_str()).collect();
        assert_eq!(ids, vec!["source-1", "source-5", "source-9"]);
        match plan_subscription_save(&sources, url, "source-6", 8).unwrap() {
            SubscriptionSave::Existing(index) => assert_eq!(sources[index].id, "source-5"),
            SubscriptionSave::New { .. } => panic!("the URL is saved already"),
        }
    }
    let duplicate = load_subscriptions(vec![
        stored("source-b", "https://b.invalid/x"),
        stored("source-a", "https://b.invalid/x"),
    ]);
    assert_eq!(duplicate.len(), 1);
    assert_eq!(duplicate[0].id, "source-b");
}

#[test]
fn generated_identifiers_differ_by_clock_or_sequence() {
    let a = stored_source_id("source-", 0x1f, 2);
    let b = stored_source_id("source-", 0x1, 0xf2);
    let c = stored_source_id("source-", 0x1f, 3);
    assert_eq!(a, "source-1f-2");
    assert_eq!(b, "source-1-f2");
    assert_ne!(a, b);
    assert_ne!(a, c);
}
