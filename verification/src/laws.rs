//! The guarantees the library gives across its operations, stated over the
//! mathematical models of expansion and reconciliation and proved once and
//! for all.

use crate::diff::{
    diff_post, distinct_names, has_name, is_entry, last_with_name, lemma_distinct_entry,
    lemma_index_concat, lemma_last_with_name_props,
};
use crate::model::{
    alias_records, dotted2, dotted3, network_private_records, network_public_records,
    networks_private_records, networks_public_records, server_private_records,
    server_public_records, servers_private_records, servers_public_records, NetworkV, RecordV,
    RecordTypeFilter, ServerV, ZoneV, zone_records,
};
use vstd::prelude::*;

verus! {

/// Expansion determinism: the expansion of a zone under a filter is a
/// function of the zone and the filter alone, so any two results of
/// expanding the same zone with the same filter are identical.
pub proof fn lemma_expansion_deterministic(
    z: ZoneV,
    f: RecordTypeFilter,
    r1: Seq<RecordV>,
    r2: Seq<RecordV>,
)
    requires
        r1 == zone_records(z, f),
        r2 == zone_records(z, f),
    ensures
        r1 == r2,
{
}

/// Filter decomposition: expanding with `Both` yields exactly the public
/// expansion followed by the private expansion, so as a set the combined
/// expansion is the union of the two halves.
pub proof fn lemma_filter_decomposition(z: ZoneV)
    ensures
        zone_records(z, RecordTypeFilter::Both) == zone_records(z, RecordTypeFilter::Public)
            + zone_records(z, RecordTypeFilter::Private),
        zone_records(z, RecordTypeFilter::Both).to_set() == zone_records(
            z,
            RecordTypeFilter::Public,
        ).to_set().union(zone_records(z, RecordTypeFilter::Private).to_set()),
{
    let p = zone_records(z, RecordTypeFilter::Public);
    let q = zone_records(z, RecordTypeFilter::Private);
    let both = zone_records(z, RecordTypeFilter::Both);
    assert(p + q =~= both);
    assert(both.to_set() =~= p.to_set().union(q.to_set())) by {
        assert forall|x: RecordV| #[trigger] both.contains(x) implies p.contains(x) || q.contains(
            x,
        ) by {
            let i = choose|i: int| 0 <= i < both.len() && both[i] == x;
            if i < p.len() {
                assert(p[i] == both[i]);
            } else {
                assert(q[i - p.len()] == both[i]);
            }
        }
        assert forall|x: RecordV| p.contains(x) || q.contains(x) implies #[trigger] both.contains(
            x,
        ) by {
            if p.contains(x) {
                let i = choose|i: int| 0 <= i < p.len() && p[i] == x;
                assert(both[i] == p[i]);
            } else {
                let i = choose|i: int| 0 <= i < q.len() && q[i] == x;
                assert(both[p.len() + i] == q[i]);
            }
        }
    }
}

/// A single DNS label: nonempty and free of dots.
pub open spec fn is_label(s: Seq<char>) -> bool {
    s.len() > 0 && forall|i: int| 0 <= i < s.len() ==> s[i] != '.'
}

/// A dot right after a label determines the split: if two such
/// concatenations are equal, the labels agree and so do the remainders.
proof fn lemma_dot_split(a: Seq<char>, s: Seq<char>, b: Seq<char>, t: Seq<char>)
    requires
        is_label(a),
        is_label(b),
        a + seq!['.'] + s == b + seq!['.'] + t,
    ensures
        a == b,
        s == t,
{
    let u = a + seq!['.'] + s;
    let v = b + seq!['.'] + t;
    assert(u[a.len() as int] == '.');
    assert(v[b.len() as int] == '.');
    if a.len() < b.len() {
        assert(v[a.len() as int] == b[a.len() as int]);
        assert(false);
    }
    if b.len() < a.len() {
        assert(u[b.len() as int] == a[b.len() as int]);
        assert(false);
    }
    assert(a =~= b) by {
        assert(forall|i: int| 0 <= i < a.len() ==> u[i] == a[i] && v[i] == b[i]);
    }
    assert(s =~= t) by {
        assert(u.len() == v.len());
        assert(u.len() == a.len() + 1 + s.len());
        assert(v.len() == b.len() + 1 + t.len());
        assert(s.len() == t.len());
        assert forall|i: int| 0 <= i < s.len() implies s[i] == t[i] by {
            assert(u[a.len() + 1 + i] == s[i]);
            assert(v[b.len() + 1 + i] == t[i]);
        }
    }
}

/// Every name a public expansion produces for network `n`: the network
/// name under the domain, or a label under the network name.
pub open spec fn public_shaped_in(nm: Seq<char>, n: NetworkV, domain: Seq<char>) -> bool {
    nm == dotted2(n.name, domain) || exists|x: Seq<char>|
        is_label(x) && nm == dotted3(x, n.name, domain)
}

/// Every name a private expansion produces for network `n`: the network
/// name under the prefix, or a label under the prefixed network name.
pub open spec fn private_shaped_in(
    nm: Seq<char>,
    n: NetworkV,
    prefix: Seq<char>,
    domain: Seq<char>,
) -> bool {
    nm == dotted3(n.name, prefix, domain) || exists|x: Seq<char>|
        is_label(x) && nm == dotted3(
            x,
            dotted2(n.name, prefix),
            domain,
        )
}

/// A public-shaped name and a private-shaped name never coincide, as long
/// as network names are labels distinct from the prefix and the inner
/// labels are labels.
proof fn lemma_shapes_disjoint(
    nm1: Seq<char>,
    nm2: Seq<char>,
    n1: NetworkV,
    n2: NetworkV,
    prefix: Seq<char>,
    domain: Seq<char>,
)
    requires
        public_shaped_in(nm1, n1, domain),
        private_shaped_in(nm2, n2, prefix, domain),
        is_label(n1.name),
        is_label(n2.name),
        is_label(prefix),
        n1.name != prefix,
    ensures
        nm1 != nm2,
{
    let dot = seq!['.'];
    if nm1 == nm2 {
        let nm = nm1;
        // normalize both names to the form <label> '.' <rest>
        let rest1: Seq<char> = if nm == dotted2(n1.name, domain) {
            domain
        } else {
            n1.name + dot + domain
        };
        let head1: Seq<char> = if nm == dotted2(n1.name, domain) {
            n1.name
        } else {
            choose|x: Seq<char>|
                is_label(x) && nm == dotted3(x, n1.name, domain)
        };
        assert(nm == head1 + dot + rest1) by {
            if nm == dotted2(n1.name, domain) {
                assert(nm =~= head1 + dot + rest1);
            } else {
                assert(nm == dotted3(head1, n1.name, domain));
                assert(nm =~= head1 + dot + rest1);
            }
        }
        let rest2: Seq<char> = if nm2 == dotted3(n2.name, prefix, domain) {
            prefix + dot + domain
        } else {
            n2.name + dot + (prefix + dot + domain)
        };
        let head2: Seq<char> = if nm2 == dotted3(n2.name, prefix, domain) {
            n2.name
        } else {
            choose|x: Seq<char>|
                is_label(x) && nm2 == dotted3(
                    x,
                    dotted2(n2.name, prefix),
                    domain,
                )
        };
        assert(nm2 == head2 + dot + rest2) by {
            if nm2 == dotted3(n2.name, prefix, domain) {
                assert(nm2 =~= head2 + dot + rest2);
            } else {
                assert(nm2 == dotted3(
                    head2,
                    dotted2(n2.name, prefix),
                    domain,
                ));
                assert(nm2 =~= head2 + dot + rest2);
            }
        }
        assert(is_label(head1));
        assert(is_label(head2));
        lemma_dot_split(head1, rest1, head2, rest2);
        // the remainders agree; compare their shapes
        if nm == dotted2(n1.name, domain) {
            // rest1 is the domain itself
            if nm2 == dotted3(n2.name, prefix, domain) {
                assert(domain == prefix + dot + domain);
                assert(domain.len() == prefix.len() + 1 + domain.len());
            } else {
                assert(domain == n2.name + dot + (prefix + dot + domain));
                assert(domain.len() >= n2.name.len() + 1 + prefix.len() + 1 + domain.len());
            }
        } else {
            // rest1 = <n1.name> '.' <domain>
            if nm2 == dotted3(n2.name, prefix, domain) {
                // rest2 = <prefix> '.' <domain>
                lemma_dot_split(n1.name, domain, prefix, domain);
                assert(n1.name == prefix);
            } else {
                // rest2 = <n2.name> '.' (<prefix> '.' <domain>)
                lemma_dot_split(n1.name, domain, n2.name, prefix + dot + domain);
                assert(domain.len() == prefix.len() + 1 + domain.len());
            }
        }
    }
}

/// Every name of a server is a label, and so is each of its aliases.
pub open spec fn server_labeled(s: ServerV) -> bool {
    is_label(s.name) && forall|k: int| 0 <= k < s.alias.len() ==> is_label(#[trigger] s.alias[k])
}

/// Every label a network contributes to record names is a label.
pub open spec fn network_labeled(n: NetworkV) -> bool {
    is_label(n.name) && forall|k: int|
        0 <= k < n.servers.len() ==> server_labeled(#[trigger] n.servers[k])
}

/// Every label a zone contributes to record names is a label, and no
/// network is named like the private prefix.
pub open spec fn zone_labeled(z: ZoneV) -> bool {
    &&& is_label(z.private_prefix)
    &&& forall|k: int| 0 <= k < z.networks.len() ==> network_labeled(#[trigger] z.networks[k])
    &&& forall|k: int|
        0 <= k < z.networks.len() ==> (#[trigger] z.networks[k]).name != z.private_prefix
}

/// Every alias record is named by one of the alias labels under the
/// suffix and domain.
proof fn lemma_alias_names(
    aliases: Seq<Seq<char>>,
    suffix: Seq<char>,
    domain: Seq<char>,
    target: Seq<char>,
    k: int,
)
    requires
        0 <= k < alias_records(aliases, suffix, domain, target).len(),
    ensures
        exists|j: int|
            0 <= j < aliases.len() && alias_records(aliases, suffix, domain, target)[k].name()
                == dotted3(#[trigger] aliases[j], suffix, domain),
    decreases aliases.len(),
{
    let r = alias_records(aliases, suffix, domain, target);
    if k < r.len() - 1 {
        lemma_alias_names(aliases.drop_last(), suffix, domain, target, k);
        let j = choose|j: int|
            0 <= j < aliases.drop_last().len() && alias_records(
                aliases.drop_last(),
                suffix,
                domain,
                target,
            )[k].name() == dotted3(#[trigger] aliases.drop_last()[j], suffix, domain);
        assert(aliases.drop_last()[j] == aliases[j]);
    } else {
        assert(r[k].name() == dotted3(aliases[aliases.len() - 1], suffix, domain));
    }
}

/// Every public record of a server is named by a label under the suffix
/// and domain.
proof fn lemma_server_public_names(
    s: ServerV,
    suffix: Seq<char>,
    root: Seq<char>,
    domain: Seq<char>,
    k: int,
)
    requires
        0 <= k < server_public_records(s, suffix, root, domain).len(),
        server_labeled(s),
    ensures
        exists|x: Seq<char>|
            is_label(x) && server_public_records(s, suffix, root, domain)[k].name()
                == #[trigger] dotted3(x, suffix, domain),
{
    let r = server_public_records(s, suffix, root, domain);
    let own: Seq<RecordV> = if s.name == root {
        Seq::empty()
    } else {
        seq![
            RecordV::Cname(dotted3(s.name, suffix, domain), dotted3(root, suffix, domain)),
        ]
    };
    if k < own.len() {
        assert(r[k].name() == dotted3(s.name, suffix, domain));
    } else {
        let ar = alias_records(s.alias, suffix, domain, dotted3(root, suffix, domain));
        assert(r[k] == ar[k - own.len()]);
        lemma_alias_names(s.alias, suffix, domain, dotted3(root, suffix, domain), k - own.len());
        let j = choose|j: int|
            0 <= j < s.alias.len() && ar[k - own.len()].name() == dotted3(
                #[trigger] s.alias[j],
                suffix,
                domain,
            );
        assert(is_label(s.alias[j]));
    }
}

/// Every private record of a server is named by a label under the suffix
/// and domain.
proof fn lemma_server_private_names(s: ServerV, suffix: Seq<char>, domain: Seq<char>, k: int)
    requires
        0 <= k < server_private_records(s, suffix, domain).len(),
        server_labeled(s),
    ensures
        exists|x: Seq<char>|
            is_label(x) && server_private_records(s, suffix, domain)[k].name()
                == #[trigger] dotted3(x, suffix, domain),
{
    let r = server_private_records(s, suffix, domain);
    let own_name = dotted3(s.name, suffix, domain);
    if k == 0 {
        assert(r[k].name() == dotted3(s.name, suffix, domain));
    } else {
        let ar = alias_records(s.alias, suffix, domain, own_name);
        assert(r[k] == ar[k - 1]);
        lemma_alias_names(s.alias, suffix, domain, own_name, k - 1);
        let j = choose|j: int|
            0 <= j < s.alias.len() && ar[k - 1].name() == dotted3(
                #[trigger] s.alias[j],
                suffix,
                domain,
            );
        assert(is_label(s.alias[j]));
    }
}

/// Every public record of a server list is named by a label under the
/// suffix and domain.
proof fn lemma_servers_public_names(
    ss: Seq<ServerV>,
    suffix: Seq<char>,
    root: Seq<char>,
    domain: Seq<char>,
    k: int,
)
    requires
        0 <= k < servers_public_records(ss, suffix, root, domain).len(),
        forall|j: int| 0 <= j < ss.len() ==> server_labeled(#[trigger] ss[j]),
    ensures
        exists|x: Seq<char>|
            is_label(x) && servers_public_records(ss, suffix, root, domain)[k].name()
                == #[trigger] dotted3(x, suffix, domain),
    decreases ss.len(),
{
    let r = servers_public_records(ss, suffix, root, domain);
    let rest = servers_public_records(ss.drop_last(), suffix, root, domain);
    if k < rest.len() {
        assert(forall|j: int|
            0 <= j < ss.drop_last().len() ==> ss.drop_last()[j] == ss[j]);
        lemma_servers_public_names(ss.drop_last(), suffix, root, domain, k);
    } else {
        assert(ss[ss.len() - 1] == ss.last());
        assert(r[k] == server_public_records(ss.last(), suffix, root, domain)[k - rest.len()]);
        lemma_server_public_names(ss.last(), suffix, root, domain, k - rest.len());
    }
}

/// Every private record of a server list is named by a label under the
/// suffix and domain.
proof fn lemma_servers_private_names(
    ss: Seq<ServerV>,
    suffix: Seq<char>,
    domain: Seq<char>,
    k: int,
)
    requires
        0 <= k < servers_private_records(ss, suffix, domain).len(),
        forall|j: int| 0 <= j < ss.len() ==> server_labeled(#[trigger] ss[j]),
    ensures
        exists|x: Seq<char>|
            is_label(x) && servers_private_records(ss, suffix, domain)[k].name()
                == #[trigger] dotted3(x, suffix, domain),
    decreases ss.len(),
{
    let r = servers_private_records(ss, suffix, domain);
    let rest = servers_private_records(ss.drop_last(), suffix, domain);
    if k < rest.len() {
        assert(forall|j: int|
            0 <= j < ss.drop_last().len() ==> ss.drop_last()[j] == ss[j]);
        lemma_servers_private_names(ss.drop_last(), suffix, domain, k);
    } else {
        assert(ss[ss.len() - 1] == ss.last());
        assert(r[k] == server_private_records(ss.last(), suffix, domain)[k - rest.len()]);
        lemma_server_private_names(ss.last(), suffix, domain, k - rest.len());
    }
}

/// Every name in a zone's public expansion is public-shaped for one of
/// its networks.
proof fn lemma_networks_public_names(ns: Seq<NetworkV>, domain: Seq<char>, k: int)
    requires
        0 <= k < networks_public_records(ns, domain).len(),
        forall|j: int| 0 <= j < ns.len() ==> network_labeled(#[trigger] ns[j]),
    ensures
        exists|i: int|
            0 <= i < ns.len() && public_shaped_in(
                networks_public_records(ns, domain)[k].name(),
                #[trigger] ns[i],
                domain,
            ),
    decreases ns.len(),
{
    let r = networks_public_records(ns, domain);
    let rest = networks_public_records(ns.drop_last(), domain);
    if k < rest.len() {
        assert(forall|j: int|
            0 <= j < ns.drop_last().len() ==> ns.drop_last()[j] == ns[j]);
        lemma_networks_public_names(ns.drop_last(), domain, k);
        let i = choose|i: int|
            0 <= i < ns.drop_last().len() && public_shaped_in(
                rest[k].name(),
                #[trigger] ns.drop_last()[i],
                domain,
            );
        assert(public_shaped_in(r[k].name(), ns[i], domain));
    } else {
        let n = ns.last();
        assert(ns[ns.len() - 1] == n);
        assert(network_labeled(n));
        let nr = network_public_records(n, domain);
        assert(r[k] == nr[k - rest.len()]);
        let sr = servers_public_records(n.servers, n.name, n.root, domain);
        if k - rest.len() < sr.len() {
            assert(nr[k - rest.len()] == sr[k - rest.len()]);
            lemma_servers_public_names(n.servers, n.name, n.root, domain, k - rest.len());
            assert(public_shaped_in(r[k].name(), n, domain));
        } else {
            assert(nr[k - rest.len()].name() == dotted2(n.name, domain));
            assert(public_shaped_in(r[k].name(), n, domain));
        }
    }
}

/// Every name in a zone's private expansion is private-shaped for one of
/// its networks.
proof fn lemma_networks_private_names(
    ns: Seq<NetworkV>,
    prefix: Seq<char>,
    domain: Seq<char>,
    k: int,
)
    requires
        0 <= k < networks_private_records(ns, prefix, domain).len(),
        forall|j: int| 0 <= j < ns.len() ==> network_labeled(#[trigger] ns[j]),
    ensures
        exists|i: int|
            0 <= i < ns.len() && private_shaped_in(
                networks_private_records(ns, prefix, domain)[k].name(),
                #[trigger] ns[i],
                prefix,
                domain,
            ),
    decreases ns.len(),
{
    let r = networks_private_records(ns, prefix, domain);
    let rest = networks_private_records(ns.drop_last(), prefix, domain);
    if k < rest.len() {
        assert(forall|j: int|
            0 <= j < ns.drop_last().len() ==> ns.drop_last()[j] == ns[j]);
        lemma_networks_private_names(ns.drop_last(), prefix, domain, k);
        let i = choose|i: int|
            0 <= i < ns.drop_last().len() && private_shaped_in(
                rest[k].name(),
                #[trigger] ns.drop_last()[i],
                prefix,
                domain,
            );
        assert(private_shaped_in(r[k].name(), ns[i], prefix, domain));
    } else {
        let n = ns.last();
        assert(ns[ns.len() - 1] == n);
        assert(network_labeled(n));
        let nr = network_private_records(n, prefix, domain);
        assert(r[k] == nr[k - rest.len()]);
        let sr = servers_private_records(n.servers, dotted2(n.name, prefix), domain);
        if k - rest.len() < sr.len() {
            assert(nr[k - rest.len()] == sr[k - rest.len()]);
            lemma_servers_private_names(n.servers, dotted2(n.name, prefix), domain, k - rest.len());
            assert(private_shaped_in(r[k].name(), n, prefix, domain));
        } else {
            assert(nr[k - rest.len()].name() == dotted3(n.name, prefix, domain));
            assert(private_shaped_in(r[k].name(), n, prefix, domain));
        }
    }
}

/// Filter decomposition, second half: when every configured name is a
/// DNS label and no network is named like the private prefix, the public
/// and the private half of the expansion share no record name.
pub proof fn lemma_public_private_names_disjoint(z: ZoneV)
    requires
        zone_labeled(z),
    ensures
        forall|i: int, j: int|
            0 <= i < zone_records(z, RecordTypeFilter::Public).len() && 0 <= j < zone_records(
                z,
                RecordTypeFilter::Private,
            ).len() ==> zone_records(z, RecordTypeFilter::Public)[i].name() != zone_records(
                z,
                RecordTypeFilter::Private,
            )[j].name(),
{
    let p = zone_records(z, RecordTypeFilter::Public);
    let q = zone_records(z, RecordTypeFilter::Private);
    let np = networks_public_records(z.networks, z.domain);
    let nq = networks_private_records(z.networks, z.private_prefix, z.domain);
    assert(p =~= np);
    assert(q =~= nq);
    assert forall|i: int, j: int| 0 <= i < p.len() && 0 <= j < q.len() implies p[i].name()
        != q[j].name() by {
        lemma_networks_public_names(z.networks, z.domain, i);
        lemma_networks_private_names(z.networks, z.private_prefix, z.domain, j);
        let i1 = choose|i1: int|
            0 <= i1 < z.networks.len() && public_shaped_in(
                np[i].name(),
                #[trigger] z.networks[i1],
                z.domain,
            );
        let j1 = choose|j1: int|
            0 <= j1 < z.networks.len() && private_shaped_in(
                nq[j].name(),
                #[trigger] z.networks[j1],
                z.private_prefix,
                z.domain,
            );
        lemma_shapes_disjoint(
            np[i].name(),
            nq[j].name(),
            z.networks[i1],
            z.networks[j1],
            z.private_prefix,
            z.domain,
        );
    }
}

/// Some changed pair is for observed name `nm`.
pub open spec fn has_pair_name(s: Seq<(RecordV, RecordV)>, nm: Seq<char>) -> bool {
    exists|i: int| 0 <= i < s.len() && s[i].1.name() == nm
}

/// Both inputs index `nm` and hold the same content for it, so the name
/// belongs to the implicit "unchanged" partition.
pub open spec fn unchanged_in(a: Seq<RecordV>, b: Seq<RecordV>, nm: Seq<char>) -> bool {
    has_name(a, nm) && has_name(b, nm) && last_with_name(a, nm) == last_with_name(b, nm)
}

/// Diff partition completeness: every name indexed by either input appears
/// in exactly one of superfluous, missing, changed, or the implicit
/// unchanged partition.
pub proof fn lemma_diff_partition(
    a: Seq<RecordV>,
    b: Seq<RecordV>,
    superflous: Seq<RecordV>,
    missing: Seq<RecordV>,
    changed: Seq<(RecordV, RecordV)>,
    nm: Seq<char>,
)
    requires
        diff_post(a, b, superflous, missing, changed),
        has_name(a, nm) || has_name(b, nm),
    ensures
        has_name(superflous, nm) || has_name(missing, nm) || has_pair_name(changed, nm)
            || unchanged_in(a, b, nm),
        has_name(superflous, nm) ==> !has_name(missing, nm) && !has_pair_name(changed, nm)
            && !unchanged_in(a, b, nm),
        has_name(missing, nm) ==> !has_name(superflous, nm) && !has_pair_name(changed, nm)
            && !unchanged_in(a, b, nm),
        has_pair_name(changed, nm) ==> !has_name(superflous, nm) && !has_name(missing, nm)
            && !unchanged_in(a, b, nm),
{
    if has_name(superflous, nm) {
        let i = choose|i: int| 0 <= i < superflous.len() && superflous[i].name() == nm;
        assert(superflous.contains(superflous[i]));
        assert(is_entry(a, superflous[i]) && !has_name(b, nm));
    }
    if has_name(missing, nm) {
        let i = choose|i: int| 0 <= i < missing.len() && missing[i].name() == nm;
        assert(missing.contains(missing[i]));
        assert(is_entry(b, missing[i]) && !has_name(a, nm));
    }
    if has_pair_name(changed, nm) {
        let i = choose|i: int| 0 <= i < changed.len() && changed[i].1.name() == nm;
        assert(changed.contains(changed[i]));
        let p = changed[i];
        assert(is_entry(b, p.0) && is_entry(a, p.1) && p.0.name() == nm && p.0 != p.1);
        assert(has_name(a, nm) && has_name(b, nm));
        assert(last_with_name(a, nm) != last_with_name(b, nm));
    }
    if has_name(a, nm) && !has_name(b, nm) {
        lemma_last_with_name_props(a, nm);
        let r = last_with_name(a, nm);
        assert(is_entry(a, r));
        assert(superflous.contains(r));
        let i = choose|i: int| 0 <= i < superflous.len() && superflous[i] == r;
        assert(superflous[i].name() == nm);
    } else if has_name(b, nm) && !has_name(a, nm) {
        lemma_last_with_name_props(b, nm);
        let r = last_with_name(b, nm);
        assert(is_entry(b, r));
        assert(missing.contains(r));
        let i = choose|i: int| 0 <= i < missing.len() && missing[i] == r;
        assert(missing[i].name() == nm);
    } else if has_name(a, nm) && has_name(b, nm) && last_with_name(a, nm) != last_with_name(
        b,
        nm,
    ) {
        lemma_last_with_name_props(a, nm);
        lemma_last_with_name_props(b, nm);
        let p = (last_with_name(b, nm), last_with_name(a, nm));
        assert(is_entry(b, p.0) && is_entry(a, p.1) && p.0.name() == p.1.name() && p.0 != p.1);
        assert(changed.contains(p));
        let i = choose|i: int| 0 <= i < changed.len() && changed[i] == p;
        assert(changed[i].1.name() == nm);
    }
}

/// Diff idempotence: reconciling any record set against itself yields
/// empty superfluous, missing and changed partitions.
pub proof fn lemma_diff_idempotent(
    x: Seq<RecordV>,
    superflous: Seq<RecordV>,
    missing: Seq<RecordV>,
    changed: Seq<(RecordV, RecordV)>,
)
    requires
        diff_post(x, x, superflous, missing, changed),
    ensures
        superflous == Seq::<RecordV>::empty(),
        missing == Seq::<RecordV>::empty(),
        changed == Seq::<(RecordV, RecordV)>::empty(),
{
    if superflous.len() > 0 {
        assert(superflous.contains(superflous[0]));
        assert(is_entry(x, superflous[0]) && !has_name(x, superflous[0].name()));
    }
    if missing.len() > 0 {
        assert(missing.contains(missing[0]));
        assert(is_entry(x, missing[0]) && !has_name(x, missing[0].name()));
    }
    if changed.len() > 0 {
        assert(changed.contains(changed[0]));
        let p = changed[0];
        assert(p.0 == last_with_name(x, p.0.name()));
        assert(p.1 == last_with_name(x, p.1.name()));
        assert(p.0 == p.1);
    }
    assert(superflous =~= Seq::<RecordV>::empty());
    assert(missing =~= Seq::<RecordV>::empty());
    assert(changed =~= Seq::<(RecordV, RecordV)>::empty());
}

/// The observed set after one apply pass: the desired content of every
/// changed name, then every missing record, appended to the observed
/// records (appending suffices, since later records win the indexing).
pub open spec fn applied(
    o: Seq<RecordV>,
    changed: Seq<(RecordV, RecordV)>,
    missing: Seq<RecordV>,
) -> Seq<RecordV> {
    o + changed.map_values(|p: (RecordV, RecordV)| p.0) + missing
}

/// After an apply pass, the observed index agrees with the desired index
/// on every desired name.
proof fn lemma_applied_index(
    o: Seq<RecordV>,
    d: Seq<RecordV>,
    superflous: Seq<RecordV>,
    missing: Seq<RecordV>,
    changed: Seq<(RecordV, RecordV)>,
    nm: Seq<char>,
)
    requires
        diff_post(o, d, superflous, missing, changed),
        has_name(d, nm),
    ensures
        has_name(applied(o, changed, missing), nm),
        last_with_name(applied(o, changed, missing), nm) == last_with_name(d, nm),
{
    let cm = changed.map_values(|p: (RecordV, RecordV)| p.0);
    let o2 = applied(o, changed, missing);
    assert(o2 == (o + cm) + missing);
    lemma_last_with_name_props(d, nm);
    let rd = last_with_name(d, nm);
    assert(is_entry(d, rd));
    assert(forall|i: int| 0 <= i < changed.len() ==> #[trigger] changed.contains(changed[i]));
    assert(forall|i: int| 0 <= i < cm.len() ==> cm[i] == changed[i].0);
    if has_name(o, nm) {
        lemma_last_with_name_props(o, nm);
        let ro = last_with_name(o, nm);
        assert(is_entry(o, ro));
        assert(!has_name(missing, nm)) by {
            if has_name(missing, nm) {
                let i = choose|i: int| 0 <= i < missing.len() && missing[i].name() == nm;
                assert(missing.contains(missing[i]));
            }
        }
        if ro == rd {
            assert(!has_name(cm, nm)) by {
                if has_name(cm, nm) {
                    let i = choose|i: int| 0 <= i < cm.len() && cm[i].name() == nm;
                    let p = changed[i];
                    assert(changed.contains(p));
                    assert(p.0 == last_with_name(d, p.0.name()));
                    assert(p.0 == rd);
                    assert(p.1 == last_with_name(o, p.1.name()));
                    assert(p.1 == ro);
                }
            }
            lemma_index_concat(o, cm, nm);
            lemma_index_concat(o + cm, missing, nm);
        } else {
            let p = (rd, ro);
            assert(is_entry(d, p.0) && is_entry(o, p.1) && p.0.name() == p.1.name() && p.0
                != p.1);
            assert(changed.contains(p));
            let i = choose|i: int| 0 <= i < changed.len() && changed[i] == p;
            assert(cm[i] == rd);
            assert(cm.contains(rd));
            assert(distinct_names(cm)) by {
                assert forall|i1: int, j1: int| 0 <= i1 < j1 < cm.len() implies cm[i1].name()
                    != cm[j1].name() by {
                    assert(changed.contains(changed[i1]));
                    assert(changed.contains(changed[j1]));
                    assert(changed[i1].0.name() == changed[i1].1.name());
                    assert(changed[j1].0.name() == changed[j1].1.name());
                }
            }
            lemma_distinct_entry(cm, rd);
            lemma_index_concat(o, cm, nm);
            lemma_index_concat(o + cm, missing, nm);
        }
    } else {
        assert(missing.contains(rd));
        lemma_distinct_entry(missing, rd);
        lemma_index_concat(o + cm, missing, nm);
    }
}

/// Round-trip convergence: reconciling the applied observed set against
/// the same desired set yields no missing and no changed records
/// (superfluous ones may remain, by design).
pub proof fn lemma_round_trip(
    o: Seq<RecordV>,
    d: Seq<RecordV>,
    superflous: Seq<RecordV>,
    missing: Seq<RecordV>,
    changed: Seq<(RecordV, RecordV)>,
    superflous2: Seq<RecordV>,
    missing2: Seq<RecordV>,
    changed2: Seq<(RecordV, RecordV)>,
)
    requires
        diff_post(o, d, superflous, missing, changed),
        diff_post(applied(o, changed, missing), d, superflous2, missing2, changed2),
    ensures
        missing2 == Seq::<RecordV>::empty(),
        changed2 == Seq::<(RecordV, RecordV)>::empty(),
{
    let o2 = applied(o, changed, missing);
    if missing2.len() > 0 {
        assert(missing2.contains(missing2[0]));
        let r = missing2[0];
        assert(is_entry(d, r) && !has_name(o2, r.name()));
        lemma_applied_index(o, d, superflous, missing, changed, r.name());
    }
    if changed2.len() > 0 {
        assert(changed2.contains(changed2[0]));
        let p = changed2[0];
        assert(is_entry(d, p.0) && is_entry(o2, p.1) && p.0.name() == p.1.name() && p.0 != p.1);
        lemma_applied_index(o, d, superflous, missing, changed, p.0.name());
        assert(p.1 == last_with_name(o2, p.1.name()));
        assert(p.0 == last_with_name(d, p.0.name()));
    }
    assert(missing2 =~= Seq::<RecordV>::empty());
    assert(changed2 =~= Seq::<(RecordV, RecordV)>::empty());
}

} // verus!
