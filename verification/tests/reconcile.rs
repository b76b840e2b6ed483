use dnssync::diff::Diff;
use dnssync::model::{Network, Record, Server, Zone};

fn cname(name: &str, target: &str) -> Record {
    Record::Cname(String::from(name), String::from(target))
}

fn addr(name: &str, ip: &str) -> Record {
    Record::A(String::from(name), String::from(ip))
}

#[test]
fn scenario_changed_and_missing() {
    let observed = vec![addr("x.ex.com", "1.1.1.1")];
    let desired = vec![addr("x.ex.com", "2.2.2.2"), cname("y.ex.com", "x.ex.com")];
    let d = Diff::new(observed, desired);
    assert_eq!(d.superflous, vec![]);
    assert_eq!(d.missing, vec![cname("y.ex.com", "x.ex.com")]);
    assert_eq!(
        d.changed,
        vec![(addr("x.ex.com", "2.2.2.2"), addr("x.ex.com", "1.1.1.1"))]
    );
}

#[test]
fn identical_sets_diff_to_nothing() {
    let x = vec![
        addr("a.ex.com", "1.1.1.1"),
        cname("b.ex.com", "a.ex.com"),
        addr("c.ex.com", "3.3.3.3"),
    ];
    let d = Diff::new(x.clone(), x);
    assert_eq!(d.superflous, vec![]);
    assert_eq!(d.missing, vec![]);
    assert_eq!(d.changed, vec![]);
}

#[test]
fn superfluous_is_reported_not_deleted() {
    let observed = vec![addr("a.ex.com", "1.1.1.1"), addr("old.ex.com", "9.9.9.9")];
    let desired = vec![addr("a.ex.com", "1.1.1.1")];
    let d = Diff::new(observed, desired);
    assert_eq!(d.superflous, vec![addr("old.ex.com", "9.9.9.9")]);
    assert_eq!(d.missing, vec![]);
    assert_eq!(d.changed, vec![]);
}

#[test]
fn missing_from_empty_observed() {
    let desired = vec![addr("a.ex.com", "1.1.1.1"), cname("b.ex.com", "a.ex.com")];
    let d = Diff::new(vec![], desired.clone());
    assert_eq!(d.superflous, vec![]);
    assert_eq!(d.missing, desired);
    assert_eq!(d.changed, vec![]);
}

#[test]
fn variant_change_counts_as_changed() {
    let observed = vec![addr("n.ex.com", "1.1.1.1")];
    let desired = vec![cname("n.ex.com", "root.ex.com")];
    let d = Diff::new(observed, desired);
    assert_eq!(d.superflous, vec![]);
    assert_eq!(d.missing, vec![]);
    assert_eq!(
        d.changed,
        vec![(cname("n.ex.com", "root.ex.com"), addr("n.ex.com", "1.1.1.1"))]
    );
}

#[test]
fn duplicate_names_last_wins() {
    let observed = vec![addr("n.ex.com", "1.1.1.1"), addr("n.ex.com", "2.2.2.2")];
    let desired = vec![addr("n.ex.com", "2.2.2.2")];
    let d = Diff::new(observed, desired);
    assert_eq!(d.superflous, vec![]);
    assert_eq!(d.missing, vec![]);
    assert_eq!(d.changed, vec![]);
}

#[test]
fn duplicate_names_in_desired_last_wins() {
    let observed = vec![addr("n.ex.com", "1.1.1.1")];
    let desired = vec![addr("n.ex.com", "1.1.1.1"), addr("n.ex.com", "2.2.2.2")];
    let d = Diff::new(observed, desired);
    assert_eq!(d.superflous, vec![]);
    assert_eq!(d.missing, vec![]);
    assert_eq!(
        d.changed,
        vec![(addr("n.ex.com", "2.2.2.2"), addr("n.ex.com", "1.1.1.1"))]
    );
}

#[test]
fn unchanged_names_appear_nowhere() {
    let observed = vec![addr("same.ex.com", "1.1.1.1"), addr("diff.ex.com", "1.1.1.1")];
    let desired = vec![addr("same.ex.com", "1.1.1.1"), addr("diff.ex.com", "2.2.2.2")];
    let d = Diff::new(observed, desired);
    assert_eq!(d.superflous, vec![]);
    assert_eq!(d.missing, vec![]);
    assert_eq!(
        d.changed,
        vec![(addr("diff.ex.com", "2.2.2.2"), addr("diff.ex.com", "1.1.1.1"))]
    );
}

#[test]
fn round_trip_converges() {
    let observed = vec![
        addr("stale.ex.com", "9.9.9.9"),
        addr("x.ex.com", "1.1.1.1"),
        cname("keep.ex.com", "x.ex.com"),
    ];
    let desired = vec![
        addr("x.ex.com", "2.2.2.2"),
        cname("keep.ex.com", "x.ex.com"),
        cname("new.ex.com", "x.ex.com"),
    ];
    let d = Diff::new(observed.clone(), desired.clone());
    // apply: updated names and created records win the indexing when appended
    let mut observed2 = observed;
    for (want, _have) in &d.changed {
        observed2.push(want.clone());
    }
    for rec in &d.missing {
        observed2.push(rec.clone());
    }
    let d2 = Diff::new(observed2, desired);
    assert_eq!(d2.missing, vec![]);
    assert_eq!(d2.changed, vec![]);
    // superfluous records remain, by design
    assert_eq!(d2.superflous, vec![addr("stale.ex.com", "9.9.9.9")]);
}

#[test]
fn expansion_reconciles_against_observed() {
    let zone = Zone {
        domain: String::from("ex.com"),
        private_prefix: String::from("internal"),
        networks: vec![Network {
            name: String::from("web"),
            root: String::from("web1"),
            servers: vec![
                Server {
                    name: String::from("web1"),
                    private_ip: String::from("10.0.0.1"),
                    alias: vec![String::from("www")],
                },
                Server {
                    name: String::from("web2"),
                    private_ip: String::from("10.0.0.2"),
                    alias: vec![],
                },
            ],
        }],
    };
    let observed = vec![
        addr("web1.web.internal.ex.com", "10.0.0.1"),
        addr("web2.web.internal.ex.com", "9.9.9.9"),
        addr("gone.ex.com", "8.8.8.8"),
    ];
    let d = Diff::new(observed, zone.all_records());
    assert_eq!(d.superflous, vec![addr("gone.ex.com", "8.8.8.8")]);
    assert_eq!(
        d.changed,
        vec![(
            addr("web2.web.internal.ex.com", "10.0.0.2"),
            addr("web2.web.internal.ex.com", "9.9.9.9"),
        )]
    );
    assert_eq!(
        d.missing,
        vec![
            cname("www.web.ex.com", "web1.web.ex.com"),
            cname("web2.web.ex.com", "web1.web.ex.com"),
            cname("web.ex.com", "web1.web.ex.com"),
            cname("www.web.internal.ex.com", "web1.web.internal.ex.com"),
            cname("web.internal.ex.com", "web1.web.internal.ex.com"),
        ]
    );
}
