use ddns_core::consensus::get_supported_public_ips;
use ddns_core::ip::{IpAddress, Ipv4Address, Ipv6Address};
use ddns_core::records::{
    apply_write_outcome, filter_records_by_name, find_zone_id, generate_dns_record, plan_write,
    populate_cache, DnsApiError, DnsRecord, RecordCache, RecordKind, WriteAction, WriteOutcome,
    ZoneEntry,
};
use ddns_core::reconcile::{
    finish_cycle, plan_cycle, sleep_seconds, ReconcilerState, SleepKind, BASE_INTERVAL_SECONDS,
    MAX_CONSECUTIVE_FAILURES, MIN_AGREEMENT, RECORD_TTL_SECONDS, RESOLVER_RETRIES,
};
use ddns_core::text::full_name;

fn v4a(o0: u8, o1: u8, o2: u8, o3: u8) -> Ipv4Address {
    Ipv4Address { o0, o1, o2, o3 }
}

fn v6a(last: u16) -> Ipv6Address {
    Ipv6Address { g0: 0x2001, g1: 0xdb8, g2: 0, g3: 0, g4: 0, g5: 0, g6: 0, g7: last }
}

fn record(id: &str, name: &str, kind: RecordKind, content: &str) -> DnsRecord {
    DnsRecord {
        id: id.to_string(),
        name: name.to_string(),
        kind,
        content: content.to_string(),
        ttl: 600,
    }
}

#[test]
fn derived_constants_match_the_design() {
    assert_eq!(RECORD_TTL_SECONDS, 600);
    assert_eq!(BASE_INTERVAL_SECONDS, 600);
    assert_eq!(RESOLVER_RETRIES, 5);
    assert_eq!(MAX_CONSECUTIVE_FAILURES, 5);
    assert_eq!(MIN_AGREEMENT, 2);
}

#[test]
fn find_zone_id_needs_exact_name() {
    let zones = vec![
        ZoneEntry { name: "other.net".to_string(), id: "z1".to_string() },
        ZoneEntry { name: "example.com".to_string(), id: "z2".to_string() },
        ZoneEntry { name: "sub.example.com".to_string(), id: "z3".to_string() },
    ];
    let found = find_zone_id(&zones, &"example.com".to_string());
    assert_eq!(found.unwrap(), "z2".to_string());
}

#[test]
fn find_zone_id_missing_domain_is_an_error() {
    let zones = vec![ZoneEntry { name: "other.net".to_string(), id: "z1".to_string() }];
    let err = find_zone_id(&zones, &"example.com".to_string()).unwrap_err();
    let DnsApiError::MissingDomain { domain } = err;
    assert_eq!(domain, "example.com".to_string());
}

#[test]
fn filter_records_keeps_only_the_exact_name() {
    let records = vec![
        record("r1", "home.example.com", RecordKind::A, "203.0.113.5"),
        record("r2", "office.example.com", RecordKind::A, "203.0.113.5"),
        record("r3", "home.example.com", RecordKind::Aaaa, "2001:db8:0:0:0:0:0:1"),
    ];
    let mine = filter_records_by_name(&records, &"home.example.com".to_string());
    assert_eq!(mine.len(), 2);
    assert_eq!(mine[0].id, "r1".to_string());
    assert_eq!(mine[1].id, "r3".to_string());
}

#[test]
fn cache_populated_with_both_kinds_for_one_name() {
    let mut cache = RecordCache::new();
    let name = "home.example.com".to_string();
    let records = vec![
        record("ra", "home.example.com", RecordKind::A, "203.0.113.5"),
        record("rq", "home.example.com", RecordKind::Aaaa, "2001:db8:0:0:0:0:0:1"),
    ];
    populate_cache(&mut cache, &name, &records);
    assert_eq!(cache.get(&name, RecordKind::A), Some(&"ra".to_string()));
    assert_eq!(cache.get(&name, RecordKind::Aaaa), Some(&"rq".to_string()));
    assert_eq!(cache.get(&"office.example.com".to_string(), RecordKind::A), None);
}

#[test]
fn cache_last_write_wins() {
    let mut cache = RecordCache::new();
    let name = "home.example.com".to_string();
    cache.insert(name.clone(), RecordKind::A, "old".to_string());
    cache.insert(name.clone(), RecordKind::A, "new".to_string());
    assert_eq!(cache.get(&name, RecordKind::A), Some(&"new".to_string()));
}

#[test]
fn update_or_create_is_idempotent() {
    // a create followed by the same (name, kind) plans an update, not
    // another create
    let mut cache = RecordCache::new();
    let name = "home.example.com".to_string();

    let first = plan_write(&cache, &name, RecordKind::A);
    assert!(matches!(first, WriteAction::CreateNew));
    let ok = apply_write_outcome(&mut cache, &name, RecordKind::A, WriteOutcome::Created(
        "id1".to_string(),
    ));
    assert!(ok);

    let second = plan_write(&cache, &name, RecordKind::A);
    match second {
        WriteAction::UpdateExisting(id) => assert_eq!(id, "id1".to_string()),
        WriteAction::CreateNew => panic!("expected an update after a successful create"),
    }
    let ok2 = apply_write_outcome(&mut cache, &name, RecordKind::A, WriteOutcome::Updated(true));
    assert!(ok2);

    let third = plan_write(&cache, &name, RecordKind::A);
    assert!(matches!(third, WriteAction::UpdateExisting(_)));
}

#[test]
fn failed_create_leaves_cache_untouched() {
    let mut cache = RecordCache::new();
    let name = "home.example.com".to_string();
    let ok = apply_write_outcome(&mut cache, &name, RecordKind::A, WriteOutcome::CreateFailed);
    assert!(!ok);
    // the next cycle will attempt the create again
    assert!(matches!(plan_write(&cache, &name, RecordKind::A), WriteAction::CreateNew));
}

#[test]
fn update_reports_the_providers_flag() {
    let mut cache = RecordCache::new();
    let name = "home.example.com".to_string();
    cache.insert(name.clone(), RecordKind::A, "id1".to_string());
    assert!(!apply_write_outcome(&mut cache, &name, RecordKind::A, WriteOutcome::Updated(false)));
    assert!(!apply_write_outcome(&mut cache, &name, RecordKind::A, WriteOutcome::UpdateFailed));
    assert!(apply_write_outcome(&mut cache, &name, RecordKind::A, WriteOutcome::Updated(true)));
    // none of those outcomes displaced the cached identifier
    assert_eq!(cache.get(&name, RecordKind::A), Some(&"id1".to_string()));
}

#[test]
fn generated_record_follows_the_family() {
    let a = generate_dns_record(
        &IpAddress::V4(v4a(203, 0, 113, 5)),
        "home.example.com".to_string(),
        600,
    );
    assert_eq!(a.kind, RecordKind::A);
    assert_eq!(a.name, "home.example.com".to_string());
    assert_eq!(a.content, "203.0.113.5".to_string());
    assert_eq!(a.ttl, 600);
    assert!(!a.proxied);

    let q = generate_dns_record(&IpAddress::V6(v6a(1)), "home.example.com".to_string(), 600);
    assert_eq!(q.kind, RecordKind::Aaaa);
    assert_eq!(q.content, "2001:db8:0:0:0:0:0:1".to_string());
    assert!(!q.proxied);
}

#[test]
fn only_the_changed_family_is_written() {
    // IPv4 unchanged, IPv6 changed: only AAAA writes are planned
    let mut state = ReconcilerState {
        last_v4: Some(v4a(203, 0, 113, 5)),
        last_v6: Some(v6a(1)),
        failures: 0,
    };
    let names = vec!["home.example.com".to_string(), "office.example.com".to_string()];
    let plan = plan_cycle(&mut state, Some(v4a(203, 0, 113, 5)), Some(v6a(2)), &names);
    assert!(!plan.no_address);
    assert_eq!(plan.writes.len(), 2);
    for w in &plan.writes {
        assert!(matches!(w.ip, IpAddress::V6(_)));
    }
    assert_eq!(plan.writes[0].name, "home.example.com".to_string());
    assert_eq!(plan.writes[1].name, "office.example.com".to_string());
    assert_eq!(state.last_v6, Some(v6a(2)));
}

#[test]
fn both_families_dirty_write_in_name_order() {
    // per managed name, the IPv4 write comes first, then the IPv6 write
    let mut state = ReconcilerState::new();
    let names = vec!["home.example.com".to_string(), "office.example.com".to_string()];
    let plan = plan_cycle(&mut state, Some(v4a(203, 0, 113, 5)), Some(v6a(1)), &names);
    assert_eq!(plan.writes.len(), 4);
    assert_eq!(plan.writes[0].name, "home.example.com".to_string());
    assert!(matches!(plan.writes[0].ip, IpAddress::V4(_)));
    assert_eq!(plan.writes[1].name, "home.example.com".to_string());
    assert!(matches!(plan.writes[1].ip, IpAddress::V6(_)));
    assert_eq!(plan.writes[2].name, "office.example.com".to_string());
    assert!(matches!(plan.writes[2].ip, IpAddress::V4(_)));
    assert_eq!(plan.writes[3].name, "office.example.com".to_string());
    assert!(matches!(plan.writes[3].ip, IpAddress::V6(_)));
}

#[test]
fn unchanged_addresses_plan_no_writes() {
    let mut state = ReconcilerState {
        last_v4: Some(v4a(203, 0, 113, 5)),
        last_v6: None,
        failures: 0,
    };
    let names = vec!["home.example.com".to_string()];
    let plan = plan_cycle(&mut state, Some(v4a(203, 0, 113, 5)), None, &names);
    assert!(!plan.no_address);
    assert_eq!(plan.writes.len(), 0);
}

#[test]
fn vanished_address_is_not_propagated() {
    // an address that disappears triggers no delete and no write
    let mut state = ReconcilerState {
        last_v4: Some(v4a(203, 0, 113, 5)),
        last_v6: Some(v6a(1)),
        failures: 0,
    };
    let names = vec!["home.example.com".to_string()];
    let plan = plan_cycle(&mut state, None, Some(v6a(1)), &names);
    assert!(!plan.no_address);
    assert_eq!(plan.writes.len(), 0);
    // but the last known value does follow the fresh (absent) one
    assert_eq!(state.last_v4, None);
}

#[test]
fn both_families_absent_fails_the_cycle() {
    let mut state = ReconcilerState { last_v4: None, last_v6: None, failures: 0 };
    let names = vec!["home.example.com".to_string()];
    let plan = plan_cycle(&mut state, None, None, &names);
    assert!(plan.no_address);
    assert_eq!(plan.writes.len(), 0);
}

#[test]
fn failure_counter_resets_after_a_clean_cycle() {
    // five consecutive failed cycles, then a clean one: the counter resets
    // to zero and the next sleep is the base interval again
    let mut state = ReconcilerState::new();
    for k in 1..=5u64 {
        let sleep = finish_cycle(&mut state, true, MAX_CONSECUTIVE_FAILURES);
        assert_eq!(state.failures, k);
        assert_eq!(sleep, SleepKind::Base);
    }
    let sixth = finish_cycle(&mut state, true, MAX_CONSECUTIVE_FAILURES);
    assert_eq!(state.failures, 6);
    assert_eq!(sixth, SleepKind::Extended);
    let clean = finish_cycle(&mut state, false, MAX_CONSECUTIVE_FAILURES);
    assert_eq!(state.failures, 0);
    assert_eq!(clean, SleepKind::Base);
}

#[test]
fn sleep_durations_follow_the_backoff() {
    assert_eq!(sleep_seconds(SleepKind::Base, BASE_INTERVAL_SECONDS), 600);
    assert_eq!(sleep_seconds(SleepKind::Extended, BASE_INTERVAL_SECONDS), 3000);
}

#[test]
fn end_to_end_first_cycle_writes_four_records() {
    // every endpoint of both families agrees; two managed names get one A
    // and one AAAA write each, TTL 600, proxying disabled
    let v4_bodies: Vec<Option<String>> =
        vec!["203.0.113.5", "203.0.113.5", "203.0.113.5"].into_iter().map(|s| Some(
            s.to_string(),
        )).collect();
    let v6_bodies: Vec<Option<String>> =
        vec!["2001:db8::1", "2001:db8::1", "2001:db8::1"].into_iter().map(|s| Some(
            s.to_string(),
        )).collect();
    let (ipv4, ipv6) = get_supported_public_ips(&vec![v4_bodies], &vec![v6_bodies], MIN_AGREEMENT);
    assert_eq!(ipv4, Some(v4a(203, 0, 113, 5)));
    assert_eq!(ipv6, Some(v6a(1)));

    let domain = "example.com";
    let names: Vec<String> =
        vec!["home", "office"].into_iter().map(|s| full_name(s, domain)).collect();
    let mut state = ReconcilerState::new();
    let plan = plan_cycle(&mut state, ipv4, ipv6, &names);
    assert!(!plan.no_address);
    assert_eq!(plan.writes.len(), 4);

    let mut cache = RecordCache::new();
    let mut a_writes = 0;
    let mut aaaa_writes = 0;
    let mut cycle_failed = plan.no_address;
    for (k, w) in plan.writes.iter().enumerate() {
        let request = generate_dns_record(&w.ip, w.name.clone(), RECORD_TTL_SECONDS);
        assert_eq!(request.ttl, 600);
        assert!(!request.proxied);
        match request.kind {
            RecordKind::A => a_writes += 1,
            RecordKind::Aaaa => aaaa_writes += 1,
        }
        let action = plan_write(&cache, &w.name, request.kind);
        assert!(matches!(action, WriteAction::CreateNew));
        let outcome = WriteOutcome::Created(format!("id{}", k));
        if !apply_write_outcome(&mut cache, &w.name, request.kind, outcome) {
            cycle_failed = true;
        }
    }
    assert_eq!(a_writes, 2);
    assert_eq!(aaaa_writes, 2);
    assert!(!cycle_failed);
    let sleep = finish_cycle(&mut state, cycle_failed, MAX_CONSECUTIVE_FAILURES);
    assert_eq!(state.failures, 0);
    assert_eq!(sleep, SleepKind::Base);
}

#[test]
fn end_to_end_disagreement_writes_nothing_and_counts_a_failure() {
    // one IPv4 endpoint answers .5, another .6: the whole discovery fails,
    // no DNS write happens, and the failure counter goes up by one
    let split_bodies: Vec<Option<String>> =
        vec![Some("203.0.113.5".to_string()), Some("203.0.113.6".to_string()), None];
    let attempts: Vec<Vec<Option<String>>> =
        (0..RESOLVER_RETRIES).map(|_| split_bodies.clone()).collect();
    let no_v6: Vec<Vec<Option<String>>> =
        (0..RESOLVER_RETRIES).map(|_| vec![None, None, None]).collect();
    let (ipv4, ipv6) = get_supported_public_ips(&attempts, &no_v6, MIN_AGREEMENT);
    assert_eq!(ipv4, None);
    assert_eq!(ipv6, None);

    let names = vec![full_name("home", "example.com")];
    let mut state = ReconcilerState::new();
    let plan = plan_cycle(&mut state, ipv4, ipv6, &names);
    assert!(plan.no_address);
    assert_eq!(plan.writes.len(), 0);
    let sleep = finish_cycle(&mut state, true, MAX_CONSECUTIVE_FAILURES);
    assert_eq!(state.failures, 1);
    assert_eq!(sleep, SleepKind::Base);
}
