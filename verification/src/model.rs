//! The topology model: a zone made of networks made of servers, and the
//! pure expansion of that tree into a flat sequence of DNS records.
//!
//! Naming conventions, fixed by the expansion:
//! - public names live under `<network>.<domain>`,
//! - private names live under `<network>.<private_prefix>.<domain>`,
//! - public aliases of a server point at the network root's public name,
//! - private aliases of a server point at the server's own private name.

use vstd::prelude::*;
use vstd::string::StringExecFns;

verus! {

/// A desired or observed DNS entry, identified by its fully-qualified name.
///
/// `A` maps a name to an address literal; `Cname` maps a name to another
/// DNS name. Equality is structural over variant, name and value.
#[derive(Debug, PartialEq, Eq, Clone, Hash)]
pub enum Record {
    A(String, String),
    Cname(String, String),
}

/// The mathematical value of a `Record`: the same two variants over
/// character sequences.
pub enum RecordV {
    A(Seq<char>, Seq<char>),
    Cname(Seq<char>, Seq<char>),
}

impl RecordV {
    /// The fully-qualified name that identifies the record.
    pub open spec fn name(self) -> Seq<char> {
        match self {
            RecordV::A(name, _) => name,
            RecordV::Cname(name, _) => name,
        }
    }

    /// The record's content: an address literal or a target name.
    pub open spec fn value(self) -> Seq<char> {
        match self {
            RecordV::A(_, value) => value,
            RecordV::Cname(_, value) => value,
        }
    }
}

impl View for Record {
    type V = RecordV;

    open spec fn view(&self) -> RecordV {
        match self {
            Record::A(name, value) => RecordV::A(name@, value@),
            Record::Cname(name, value) => RecordV::Cname(name@, value@),
        }
    }
}

impl DeepView for Record {
    type V = RecordV;

    open spec fn deep_view(&self) -> RecordV {
        self.view()
    }
}

impl Record {
    /// The fully-qualified name that identifies the record.
    pub fn name(&self) -> (r: String)
        ensures
            r@ == self@.name(),
    {
        match self {
            Record::A(name, _) => name.clone(),
            Record::Cname(name, _) => name.clone(),
        }
    }

    /// The record's content: an address literal or a target name.
    pub fn value(&self) -> (r: String)
        ensures
            r@ == self@.value(),
    {
        match self {
            Record::A(_, value) => value.clone(),
            Record::Cname(_, value) => value.clone(),
        }
    }
}

/// A single host: its name, its private address, and the aliases that
/// should resolve to it.
pub struct Server {
    pub name: String,
    pub private_ip: String,
    pub alias: Vec<String>,
}

/// The mathematical value of a `Server`.
pub struct ServerV {
    pub name: Seq<char>,
    pub private_ip: Seq<char>,
    pub alias: Seq<Seq<char>>,
}

impl View for Server {
    type V = ServerV;

    open spec fn view(&self) -> ServerV {
        ServerV { name: self.name@, private_ip: self.private_ip@, alias: self.alias.deep_view() }
    }
}

impl DeepView for Server {
    type V = ServerV;

    open spec fn deep_view(&self) -> ServerV {
        self.view()
    }
}

/// A named grouping of servers sharing a DNS sub-namespace; `root` names
/// the canonical server the network-level alias points at.
pub struct Network {
    pub name: String,
    pub root: String,
    pub servers: Vec<Server>,
}

/// The mathematical value of a `Network`.
pub struct NetworkV {
    pub name: Seq<char>,
    pub root: Seq<char>,
    pub servers: Seq<ServerV>,
}

impl View for Network {
    type V = NetworkV;

    open spec fn view(&self) -> NetworkV {
        NetworkV { name: self.name@, root: self.root@, servers: self.servers.deep_view() }
    }
}

impl DeepView for Network {
    type V = NetworkV;

    open spec fn deep_view(&self) -> NetworkV {
        self.view()
    }
}

/// The top-level domain configuration: apex domain, the namespace token
/// for private names, and the networks under the domain.
pub struct Zone {
    pub domain: String,
    pub private_prefix: String,
    pub networks: Vec<Network>,
}

/// The mathematical value of a `Zone`.
pub struct ZoneV {
    pub domain: Seq<char>,
    pub private_prefix: Seq<char>,
    pub networks: Seq<NetworkV>,
}

impl View for Zone {
    type V = ZoneV;

    open spec fn view(&self) -> ZoneV {
        ZoneV {
            domain: self.domain@,
            private_prefix: self.private_prefix@,
            networks: self.networks.deep_view(),
        }
    }
}

impl DeepView for Zone {
    type V = ZoneV;

    open spec fn deep_view(&self) -> ZoneV {
        self.view()
    }
}

/// Which half of the expansion is requested.
#[derive(Debug, Clone, Copy, PartialEq, Eq)]
pub enum RecordTypeFilter {
    Public,
    Private,
    Both,
}

/// Whether the filter selects the public half of the expansion.
pub open spec fn filter_public(f: RecordTypeFilter) -> bool {
    match f {
        RecordTypeFilter::Public => true,
        RecordTypeFilter::Private => false,
        RecordTypeFilter::Both => true,
    }
}

/// Whether the filter selects the private half of the expansion.
pub open spec fn filter_private(f: RecordTypeFilter) -> bool {
    match f {
        RecordTypeFilter::Public => false,
        RecordTypeFilter::Private => true,
        RecordTypeFilter::Both => true,
    }
}

impl RecordTypeFilter {
    /// Whether this filter selects the public half of the expansion.
    pub fn public(&self) -> (r: bool)
        ensures
            r == filter_public(*self),
    {
        match self {
            RecordTypeFilter::Public => true,
            RecordTypeFilter::Private => false,
            RecordTypeFilter::Both => true,
        }
    }

    /// Whether this filter selects the private half of the expansion.
    pub fn private(&self) -> (r: bool)
        ensures
            r == filter_private(*self),
    {
        match self {
            RecordTypeFilter::Public => false,
            RecordTypeFilter::Private => true,
            RecordTypeFilter::Both => true,
        }
    }
}

/// `a.b`
pub open spec fn dotted2(a: Seq<char>, b: Seq<char>) -> Seq<char> {
    a + seq!['.'] + b
}

/// `a.b.c`
pub open spec fn dotted3(a: Seq<char>, b: Seq<char>, c: Seq<char>) -> Seq<char> {
    a + seq!['.'] + b + seq!['.'] + c
}

/// `a.b.c.d`
pub open spec fn dotted4(a: Seq<char>, b: Seq<char>, c: Seq<char>, d: Seq<char>) -> Seq<char> {
    a + seq!['.'] + b + seq!['.'] + c + seq!['.'] + d
}

/// One alias record per alias name, each pointing at `target`.
pub open spec fn alias_records(
    aliases: Seq<Seq<char>>,
    suffix: Seq<char>,
    domain: Seq<char>,
    target: Seq<char>,
) -> Seq<RecordV>
    decreases aliases.len(),
{
    if aliases.len() == 0 {
        Seq::empty()
    } else {
        alias_records(aliases.drop_last(), suffix, domain, target).push(
            RecordV::Cname(dotted3(aliases.last(), suffix, domain), target),
        )
    }
}

/// The public records a server contributes under `<suffix>.<domain>`:
/// a self-alias for non-root servers, then one alias per alias name, all
/// pointing at the network root's public name.
pub open spec fn server_public_records(
    s: ServerV,
    suffix: Seq<char>,
    root: Seq<char>,
    domain: Seq<char>,
) -> Seq<RecordV> {
    let root_full = dotted3(root, suffix, domain);
    let own: Seq<RecordV> = if s.name == root {
        Seq::empty()
    } else {
        seq![RecordV::Cname(dotted3(s.name, suffix, domain), root_full)]
    };
    own + alias_records(s.alias, suffix, domain, root_full)
}

/// The private records a server contributes under `<suffix>.<domain>`:
/// its address record, then one alias per alias name, all pointing at the
/// server's own private name.
pub open spec fn server_private_records(
    s: ServerV,
    suffix: Seq<char>,
    domain: Seq<char>,
) -> Seq<RecordV> {
    let own_name = dotted3(s.name, suffix, domain);
    seq![RecordV::A(own_name, s.private_ip)] + alias_records(s.alias, suffix, domain, own_name)
}

/// The public records of a prefix of a network's server list, in order.
pub open spec fn servers_public_records(
    ss: Seq<ServerV>,
    suffix: Seq<char>,
    root: Seq<char>,
    domain: Seq<char>,
) -> Seq<RecordV>
    decreases ss.len(),
{
    if ss.len() == 0 {
        Seq::empty()
    } else {
        servers_public_records(ss.drop_last(), suffix, root, domain) + server_public_records(
            ss.last(),
            suffix,
            root,
            domain,
        )
    }
}

/// The private records of a prefix of a network's server list, in order.
pub open spec fn servers_private_records(
    ss: Seq<ServerV>,
    suffix: Seq<char>,
    domain: Seq<char>,
) -> Seq<RecordV>
    decreases ss.len(),
{
    if ss.len() == 0 {
        Seq::empty()
    } else {
        servers_private_records(ss.drop_last(), suffix, domain) + server_private_records(
            ss.last(),
            suffix,
            domain,
        )
    }
}

/// A network's public records: each server's contribution, then the
/// network-level alias `<network>.<domain>` -> `<root>.<network>.<domain>`.
pub open spec fn network_public_records(n: NetworkV, domain: Seq<char>) -> Seq<RecordV> {
    servers_public_records(n.servers, n.name, n.root, domain).push(
        RecordV::Cname(dotted2(n.name, domain), dotted3(n.root, n.name, domain)),
    )
}

/// A network's private records: each server's contribution under
/// `<network>.<prefix>`, then the network-level alias
/// `<network>.<prefix>.<domain>` -> `<root>.<network>.<prefix>.<domain>`.
pub open spec fn network_private_records(
    n: NetworkV,
    prefix: Seq<char>,
    domain: Seq<char>,
) -> Seq<RecordV> {
    servers_private_records(n.servers, dotted2(n.name, prefix), domain).push(
        RecordV::Cname(dotted3(n.name, prefix, domain), dotted4(n.root, n.name, prefix, domain)),
    )
}

/// The public records of a prefix of a zone's network list, in order.
pub open spec fn networks_public_records(ns: Seq<NetworkV>, domain: Seq<char>) -> Seq<RecordV>
    decreases ns.len(),
{
    if ns.len() == 0 {
        Seq::empty()
    } else {
        networks_public_records(ns.drop_last(), domain) + network_public_records(
            ns.last(),
            domain,
        )
    }
}

/// The private records of a prefix of a zone's network list, in order.
pub open spec fn networks_private_records(
    ns: Seq<NetworkV>,
    prefix: Seq<char>,
    domain: Seq<char>,
) -> Seq<RecordV>
    decreases ns.len(),
{
    if ns.len() == 0 {
        Seq::empty()
    } else {
        networks_private_records(ns.drop_last(), prefix, domain) + network_private_records(
            ns.last(),
            prefix,
            domain,
        )
    }
}

/// Everything a zone expands to under the given filter: the public halves
/// of all networks in order, then the private halves of all networks in
/// order, each half present iff the filter selects it.
pub open spec fn zone_records(z: ZoneV, f: RecordTypeFilter) -> Seq<RecordV> {
    (if filter_public(f) {
        networks_public_records(z.networks, z.domain)
    } else {
        Seq::empty()
    }) + (if filter_private(f) {
        networks_private_records(z.networks, z.private_prefix, z.domain)
    } else {
        Seq::empty()
    })
}

/// `a.b`
fn join2(a: &str, b: &str) -> (r: String)
    ensures
        r@ == dotted2(a@, b@),
{
    let r = a.to_owned().concat(".").concat(b);
    proof {
        reveal_strlit(".");
        assert(r@ =~= dotted2(a@, b@));
    }
    r
}

/// `a.b.c`
fn join3(a: &str, b: &str, c: &str) -> (r: String)
    ensures
        r@ == dotted3(a@, b@, c@),
{
    let r = a.to_owned().concat(".").concat(b).concat(".").concat(c);
    proof {
        reveal_strlit(".");
        assert(r@ =~= dotted3(a@, b@, c@));
    }
    r
}

/// `a.b.c.d`
fn join4(a: &str, b: &str, c: &str, d: &str) -> (r: String)
    ensures
        r@ == dotted4(a@, b@, c@, d@),
{
    let r = a.to_owned().concat(".").concat(b).concat(".").concat(c).concat(".").concat(d);
    proof {
        reveal_strlit(".");
        assert(r@ =~= dotted4(a@, b@, c@, d@));
    }
    r
}

impl Server {
    /// The server's public records under `<suffix>.<domain>`, where `root`
    /// is the name of the network's root server: a self-alias unless this
    /// server is the root, then one alias record per alias name, all
    /// pointing at the root's public name.
    pub fn public_records(&self, suffix: &String, root: &String, domain: &String) -> (r: Vec<
        Record,
    >)
        ensures
            r.deep_view() == server_public_records(self@, suffix@, root@, domain@),
    {
        let mut v: Vec<Record> = Vec::new();
        let root_full = join3(root.as_str(), suffix.as_str(), domain.as_str());
        if !self.name.eq(root) {
            let nm = join3(self.name.as_str(), suffix.as_str(), domain.as_str());
            v.push(Record::Cname(nm, root_full.clone()));
        }
        proof {
            assert(v.deep_view() =~= (if self@.name == root@ {
                Seq::<RecordV>::empty()
            } else {
                seq![
                    RecordV::Cname(
                        dotted3(self@.name, suffix@, domain@),
                        dotted3(root@, suffix@, domain@),
                    ),
                ]
            }));
        }
        let mut i: usize = 0;
        while i < self.alias.len()
            invariant
                i <= self.alias@.len(),
                root_full@ == dotted3(root@, suffix@, domain@),
                v.deep_view() == (if self@.name == root@ {
                    Seq::<RecordV>::empty()
                } else {
                    seq![
                        RecordV::Cname(
                            dotted3(self@.name, suffix@, domain@),
                            dotted3(root@, suffix@, domain@),
                        ),
                    ]
                }) + alias_records(
                    self.alias.deep_view().take(i as int),
                    suffix@,
                    domain@,
                    dotted3(root@, suffix@, domain@),
                ),
            decreases self.alias@.len() - i,
        {
            let nm = join3(self.alias[i].as_str(), suffix.as_str(), domain.as_str());
            let ghost pre = v.deep_view();
            v.push(Record::Cname(nm, root_full.clone()));
            proof {
                let ali = self.alias.deep_view();
                let target = dotted3(root@, suffix@, domain@);
                assert(v.deep_view() =~= pre.push(
                    RecordV::Cname(dotted3(ali[i as int], suffix@, domain@), target),
                ));
                assert(ali.take(i + 1).drop_last() =~= ali.take(i as int));
                assert(ali.take(i + 1).last() == ali[i as int]);
                assert(v.deep_view() =~= (if self@.name == root@ {
                    Seq::<RecordV>::empty()
                } else {
                    seq![
                        RecordV::Cname(
                            dotted3(self@.name, suffix@, domain@),
                            dotted3(root@, suffix@, domain@),
                        ),
                    ]
                }) + alias_records(
                    ali.take(i + 1),
                    suffix@,
                    domain@,
                    dotted3(root@, suffix@, domain@),
                ));
            }
            i += 1;
        }
        proof {
            assert(self.alias.deep_view().take(self.alias@.len() as int) =~= self.alias.deep_view());
        }
        v
    }

    /// The server's private records under `<suffix>.<domain>`: its address
    /// record, then one alias record per alias name, all pointing at the
    /// server's own private name.
    pub fn private_records(&self, suffix: &String, domain: &String) -> (r: Vec<Record>)
        ensures
            r.deep_view() == server_private_records(self@, suffix@, domain@),
    {
        let mut v: Vec<Record> = Vec::new();
        let own_name = join3(self.name.as_str(), suffix.as_str(), domain.as_str());
        v.push(Record::A(own_name.clone(), self.private_ip.clone()));
        proof {
            assert(v.deep_view() =~= seq![
                RecordV::A(dotted3(self@.name, suffix@, domain@), self@.private_ip),
            ]);
        }
        let mut i: usize = 0;
        while i < self.alias.len()
            invariant
                i <= self.alias@.len(),
                own_name@ == dotted3(self@.name, suffix@, domain@),
                v.deep_view() == seq![
                    RecordV::A(dotted3(self@.name, suffix@, domain@), self@.private_ip),
                ] + alias_records(
                    self.alias.deep_view().take(i as int),
                    suffix@,
                    domain@,
                    dotted3(self@.name, suffix@, domain@),
                ),
            decreases self.alias@.len() - i,
        {
            let nm = join3(self.alias[i].as_str(), suffix.as_str(), domain.as_str());
            let ghost pre = v.deep_view();
            v.push(Record::Cname(nm, own_name.clone()));
            proof {
                let ali = self.alias.deep_view();
                assert(v.deep_view() =~= pre.push(
                    RecordV::Cname(
                        dotted3(ali[i as int], suffix@, domain@),
                        dotted3(self@.name, suffix@, domain@),
                    ),
                ));
                assert(ali.take(i + 1).drop_last() =~= ali.take(i as int));
                assert(ali.take(i + 1).last() == ali[i as int]);
                assert(v.deep_view() =~= seq![
                    RecordV::A(dotted3(self@.name, suffix@, domain@), self@.private_ip),
                ] + alias_records(
                    ali.take(i + 1),
                    suffix@,
                    domain@,
                    dotted3(self@.name, suffix@, domain@),
                ));
            }
            i += 1;
        }
        proof {
            assert(self.alias.deep_view().take(self.alias@.len() as int) =~= self.alias.deep_view());
        }
        v
    }
}

impl Network {
    /// The network's public records: each server's public contribution in
    /// order, then the network-level alias `<network>.<domain>` pointing at
    /// the root server's public name.
    pub fn public_records(&self, domain: &String) -> (r: Vec<Record>)
        ensures
            r.deep_view() == network_public_records(self@, domain@),
    {
        let mut v: Vec<Record> = Vec::new();
        let mut i: usize = 0;
        while i < self.servers.len()
            invariant
                i <= self.servers@.len(),
                v.deep_view() == servers_public_records(
                    self.servers.deep_view().take(i as int),
                    self.name@,
                    self.root@,
                    domain@,
                ),
            decreases self.servers@.len() - i,
        {
            let mut recs = self.servers[i].public_records(&self.name, &self.root, domain);
            v.append(&mut recs);
            proof {
                let ss = self.servers.deep_view();
                assert(ss.take(i + 1).drop_last() =~= ss.take(i as int));
                assert(ss.take(i + 1).last() == ss[i as int]);
                assert(v.deep_view() =~= servers_public_records(
                    ss.take(i + 1),
                    self.name@,
                    self.root@,
                    domain@,
                ));
            }
            i += 1;
        }
        let nm = join2(self.name.as_str(), domain.as_str());
        let target = join3(self.root.as_str(), self.name.as_str(), domain.as_str());
        v.push(Record::Cname(nm, target));
        proof {
            assert(self.servers.deep_view().take(self.servers@.len() as int)
                =~= self.servers.deep_view());
            assert(v.deep_view() =~= network_public_records(self@, domain@));
        }
        v
    }

    /// The network's private records: each server's private contribution
    /// under `<network>.<prefix>` in order, then the network-level alias
    /// `<network>.<prefix>.<domain>` pointing at the root server's private
    /// name.
    pub fn private_records(&self, private_prefix: &String, domain: &String) -> (r: Vec<Record>)
        ensures
            r.deep_view() == network_private_records(self@, private_prefix@, domain@),
    {
        let mut v: Vec<Record> = Vec::new();
        let suffix = join2(self.name.as_str(), private_prefix.as_str());
        let mut i: usize = 0;
        while i < self.servers.len()
            invariant
                i <= self.servers@.len(),
                suffix@ == dotted2(self.name@, private_prefix@),
                v.deep_view() == servers_private_records(
                    self.servers.deep_view().take(i as int),
                    dotted2(self.name@, private_prefix@),
                    domain@,
                ),
            decreases self.servers@.len() - i,
        {
            let mut recs = self.servers[i].private_records(&suffix, domain);
            v.append(&mut recs);
            proof {
                let ss = self.servers.deep_view();
                assert(ss.take(i + 1).drop_last() =~= ss.take(i as int));
                assert(ss.take(i + 1).last() == ss[i as int]);
                assert(v.deep_view() =~= servers_private_records(
                    ss.take(i + 1),
                    dotted2(self.name@, private_prefix@),
                    domain@,
                ));
            }
            i += 1;
        }
        let nm = join3(self.name.as_str(), private_prefix.as_str(), domain.as_str());
        let target = join4(
            self.root.as_str(),
            self.name.as_str(),
            private_prefix.as_str(),
            domain.as_str(),
        );
        v.push(Record::Cname(nm, target));
        proof {
            assert(self.servers.deep_view().take(self.servers@.len() as int)
                =~= self.servers.deep_view());
            assert(v.deep_view() =~= network_private_records(self@, private_prefix@, domain@));
        }
        v
    }
}

impl Zone {
    /// The full expansion of the zone: public and private halves both.
    pub fn all_records(&self) -> (r: Vec<Record>)
        ensures
            r.deep_view() == zone_records(self@, RecordTypeFilter::Both),
    {
        self.records(RecordTypeFilter::Both)
    }

    /// The expansion of the zone under the given filter: the public records
    /// of every network in list order, then the private records of every
    /// network in list order, each half present iff the filter selects it.
    pub fn records(&self, filter: RecordTypeFilter) -> (r: Vec<Record>)
        ensures
            r.deep_view() == zone_records(self@, filter),
    {
        let mut v: Vec<Record> = Vec::new();
        if filter.public() {
            let mut i: usize = 0;
            while i < self.networks.len()
                invariant
                    i <= self.networks@.len(),
                    filter_public(filter),
                    v.deep_view() == networks_public_records(
                        self.networks.deep_view().take(i as int),
                        self.domain@,
                    ),
                decreases self.networks@.len() - i,
            {
                let mut recs = self.networks[i].public_records(&self.domain);
                v.append(&mut recs);
                proof {
                    let ns = self.networks.deep_view();
                    assert(ns.take(i + 1).drop_last() =~= ns.take(i as int));
                    assert(ns.take(i + 1).last() == ns[i as int]);
                    assert(v.deep_view() =~= networks_public_records(ns.take(i + 1), self.domain@));
                }
                i += 1;
            }
            proof {
                assert(self.networks.deep_view().take(self.networks@.len() as int)
                    =~= self.networks.deep_view());
            }
        }
        proof {
            if filter_public(filter) {
                assert(v.deep_view() == networks_public_records(
                    self.networks.deep_view().take(self.networks@.len() as int),
                    self.domain@,
                ));
                assert(self.networks.deep_view().take(self.networks@.len() as int)
                    =~= self.networks.deep_view());
            } else {
                assert(v.deep_view() =~= Seq::<RecordV>::empty());
            }
            assert(v.deep_view() =~= (if filter_public(filter) {
                networks_public_records(self@.networks, self@.domain)
            } else {
                Seq::<RecordV>::empty()
            }));
        }
        if filter.private() {
            let mut i: usize = 0;
            while i < self.networks.len()
                invariant
                    i <= self.networks@.len(),
                    filter_private(filter),
                    v.deep_view() == (if filter_public(filter) {
                        networks_public_records(self@.networks, self@.domain)
                    } else {
                        Seq::<RecordV>::empty()
                    }) + networks_private_records(
                        self.networks.deep_view().take(i as int),
                        self.private_prefix@,
                        self.domain@,
                    ),
                decreases self.networks@.len() - i,
            {
                let mut recs = self.networks[i].private_records(&self.private_prefix, &self.domain);
                let ghost pre = v.deep_view();
                let ghost rv = recs.deep_view();
                v.append(&mut recs);
                proof {
                    let ns = self.networks.deep_view();
                    assert(v.deep_view() =~= pre + rv);
                    assert(ns.take(i + 1).drop_last() =~= ns.take(i as int));
                    assert(ns.take(i + 1).last() == ns[i as int]);
                    assert(v.deep_view() =~= (if filter_public(filter) {
                        networks_public_records(self@.networks, self@.domain)
                    } else {
                        Seq::<RecordV>::empty()
                    }) + networks_private_records(
                        ns.take(i + 1),
                        self.private_prefix@,
                        self.domain@,
                    ));
                }
                i += 1;
            }
            proof {
                assert(self.networks.deep_view().take(self.networks@.len() as int)
                    =~= self.networks.deep_view());
            }
        }
        proof {
            assert(v.deep_view() =~= zone_records(self@, filter));
        }
        v
    }
}

} // verus!
