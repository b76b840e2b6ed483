use dnssync::model::{Network, Record, RecordTypeFilter, Server, Zone};

fn sample_zone() -> Zone {
    Zone {
        domain: String::from("ex.com"),
        private_prefix: String::from("internal"),
        networks: vec![Network {
            name: String::from("web"),
            root: String::from("web1"),
            servers: vec![
                Server {
                    name: String::from("web1"),
                    private_ip: String::from("10.0.0.1"),
                    alias: vec![String::from("www")],
                },
                Server {
                    name: String::from("web2"),
                    private_ip: String::from("10.0.0.2"),
                    alias: vec![],
                },
            ],
        }],
    }
}

fn cname(name: &str, target: &str) -> Record {
    Record::Cname(String::from(name), String::from(target))
}

fn addr(name: &str, ip: &str) -> Record {
    Record::A(String::from(name), String::from(ip))
}

#[test]
fn scenario_public_records() {
    let zone = sample_zone();
    let recs = zone.records(RecordTypeFilter::Public);
    assert_eq!(
        recs,
        vec![
            cname("www.web.ex.com", "web1.web.ex.com"),
            cname("web2.web.ex.com", "web1.web.ex.com"),
            cname("web.ex.com", "web1.web.ex.com"),
        ]
    );
}

#[test]
fn scenario_private_records() {
    let zone = sample_zone();
    let recs = zone.records(RecordTypeFilter::Private);
    assert_eq!(
        recs,
        vec![
            addr("web1.web.internal.ex.com", "10.0.0.1"),
            cname("www.web.internal.ex.com", "web1.web.internal.ex.com"),
            addr("web2.web.internal.ex.com", "10.0.0.2"),
            cname("web.internal.ex.com", "web1.web.internal.ex.com"),
        ]
    );
}

#[test]
fn scenario_all_records() {
    let zone = sample_zone();
    let mut expected = zone.records(RecordTypeFilter::Public);
    expected.extend(zone.records(RecordTypeFilter::Private));
    assert_eq!(zone.all_records(), expected);
    assert_eq!(zone.all_records().len(), 7);
}

#[test]
fn expansion_deterministic() {
    let zone = sample_zone();
    assert_eq!(zone.all_records(), zone.all_records());
    assert_eq!(
        zone.records(RecordTypeFilter::Public),
        zone.records(RecordTypeFilter::Public)
    );
}

#[test]
fn filter_decomposition() {
    let zone = sample_zone();
    let mut halves = zone.records(RecordTypeFilter::Public);
    halves.extend(zone.records(RecordTypeFilter::Private));
    assert_eq!(zone.records(RecordTypeFilter::Both), halves);
    let public_names: Vec<String> =
        zone.records(RecordTypeFilter::Public).iter().map(|r| r.name()).collect();
    for r in zone.records(RecordTypeFilter::Private) {
        assert!(!public_names.contains(&r.name()));
    }
}

#[test]
fn empty_zone_expands_to_nothing() {
    let zone = Zone {
        domain: String::from("ex.com"),
        private_prefix: String::from("internal"),
        networks: vec![],
    };
    assert_eq!(zone.all_records(), vec![]);
}

#[test]
fn network_without_servers_still_has_alias() {
    let zone = Zone {
        domain: String::from("ex.com"),
        private_prefix: String::from("internal"),
        networks: vec![Network {
            name: String::from("db"),
            root: String::from("db1"),
            servers: vec![],
        }],
    };
    assert_eq!(
        zone.all_records(),
        vec![
            cname("db.ex.com", "db1.db.ex.com"),
            cname("db.internal.ex.com", "db1.db.internal.ex.com"),
        ]
    );
}

#[test]
fn root_server_gets_no_public_self_alias() {
    let zone = sample_zone();
    let names: Vec<String> =
        zone.records(RecordTypeFilter::Public).iter().map(|r| r.name()).collect();
    assert!(!names.contains(&String::from("web1.web.ex.com")));
}

#[test]
fn record_name_and_value() {
    let a = addr("x.ex.com", "1.2.3.4");
    assert_eq!(a.name(), String::from("x.ex.com"));
    assert_eq!(a.value(), String::from("1.2.3.4"));
    let c = cname("y.ex.com", "x.ex.com");
    assert_eq!(c.name(), String::from("y.ex.com"));
    assert_eq!(c.value(), String::from("x.ex.com"));
}

#[test]
fn filter_selects_halves() {
    assert!(RecordTypeFilter::Public.public());
    assert!(!RecordTypeFilter::Public.private());
    assert!(!RecordTypeFilter::Private.public());
    assert!(RecordTypeFilter::Private.private());
    assert!(RecordTypeFilter::Both.public());
    assert!(RecordTypeFilter::Both.private());
}
