//! Reconciliation of an observed record set against a desired record set.
//!
//! Both inputs are indexed by record name, later records winning over
//! earlier ones with the same name, and every name is then classified:
//! present only in the observed set (superfluous), present only in the
//! desired set (missing), present in both with different content (changed),
//! or present in both with identical content (reported nowhere).

use crate::model::{Record, RecordV};
use vstd::prelude::*;

verus! {

/// Whether some record in `s` is named `nm`.
pub open spec fn has_name(s: Seq<RecordV>, nm: Seq<char>) -> bool {
    exists|i: int| 0 <= i < s.len() && s[i].name() == nm
}

/// The record that the name-keyed index of `s` holds for `nm`: the last
/// record in `s` with that name ("last wins" on duplicate names).
/// Meaningful only when `has_name(s, nm)`.
pub open spec fn last_with_name(s: Seq<RecordV>, nm: Seq<char>) -> RecordV
    decreases s.len(),
{
    if s.len() == 0 {
        arbitrary()
    } else if s.last().name() == nm {
        s.last()
    } else {
        last_with_name(s.drop_last(), nm)
    }
}

/// `r` is an entry of the name-keyed, last-wins index of `s`.
pub open spec fn is_entry(s: Seq<RecordV>, r: RecordV) -> bool {
    has_name(s, r.name()) && r == last_with_name(s, r.name())
}

/// No two records in `s` share a name.
pub open spec fn distinct_names(s: Seq<RecordV>) -> bool {
    forall|i: int, j: int| 0 <= i < j < s.len() ==> s[i].name() != s[j].name()
}

/// No two pairs in `s` share the name of their observed component.
pub open spec fn distinct_pair_names(s: Seq<(RecordV, RecordV)>) -> bool {
    forall|i: int, j: int| 0 <= i < j < s.len() ==> s[i].1.name() != s[j].1.name()
}

/// What a reconciliation of observed `a` against desired `b` yields:
/// - `superflous` holds exactly the index entries of `a` whose name `b`
///   does not use, each name once;
/// - `missing` holds exactly the index entries of `b` whose name `a` does
///   not use, each name once;
/// - `changed` holds exactly the pairs of a desired and an observed index
///   entry that share a name but differ in content, each name once.
pub open spec fn diff_post(
    a: Seq<RecordV>,
    b: Seq<RecordV>,
    superflous: Seq<RecordV>,
    missing: Seq<RecordV>,
    changed: Seq<(RecordV, RecordV)>,
) -> bool {
    &&& (forall|r: RecordV|
        #[trigger] superflous.contains(r) <==> is_entry(a, r) && !has_name(b, r.name()))
    &&& distinct_names(superflous)
    &&& (forall|r: RecordV|
        #[trigger] missing.contains(r) <==> is_entry(b, r) && !has_name(a, r.name()))
    &&& distinct_names(missing)
    &&& (forall|p: (RecordV, RecordV)|
        #[trigger] changed.contains(p) <==> is_entry(b, p.0) && is_entry(a, p.1) && p.0.name()
            == p.1.name() && p.0 != p.1)
    &&& distinct_pair_names(changed)
}

/// No record after position `k` shares the name of `s[k]`, so `s[k]` is
/// what the last-wins index of `s` holds for its name.
pub open spec fn is_last_at(s: Seq<RecordV>, k: int) -> bool {
    forall|j: int| k < j < s.len() ==> s[j].name() != s[k].name()
}

/// The superfluous records collected from the first `n` positions of `a`:
/// every winning occurrence whose name `b` does not use, in position order.
spec fn super_prefix(a: Seq<RecordV>, b: Seq<RecordV>, n: int) -> Seq<RecordV>
    decreases n,
{
    if n <= 0 {
        Seq::empty()
    } else {
        let rest = super_prefix(a, b, n - 1);
        if is_last_at(a, n - 1) && !has_name(b, a[n - 1].name()) {
            rest.push(a[n - 1])
        } else {
            rest
        }
    }
}

/// The changed pairs collected from the first `n` positions of `a`: for
/// every winning occurrence whose name `b` also uses with different
/// content, the pair of `b`'s entry and `a`'s entry, in position order.
spec fn changed_prefix(a: Seq<RecordV>, b: Seq<RecordV>, n: int) -> Seq<(RecordV, RecordV)>
    decreases n,
{
    if n <= 0 {
        Seq::empty()
    } else {
        let rest = changed_prefix(a, b, n - 1);
        if is_last_at(a, n - 1) && has_name(b, a[n - 1].name()) && last_with_name(
            b,
            a[n - 1].name(),
        ) != a[n - 1] {
            rest.push((last_with_name(b, a[n - 1].name()), a[n - 1]))
        } else {
            rest
        }
    }
}

/// A winning occurrence is what the index holds for its name.
pub proof fn lemma_last_with_name_at(s: Seq<RecordV>, k: int)
    requires
        0 <= k < s.len(),
        is_last_at(s, k),
    ensures
        has_name(s, s[k].name()),
        last_with_name(s, s[k].name()) == s[k],
    decreases s.len(),
{
    if k == s.len() - 1 {
    } else {
        assert(s.last().name() != s[k].name());
        assert(s.drop_last()[k] == s[k]);
        assert(is_last_at(s.drop_last(), k)) by {
            assert(forall|j: int|
                k < j < s.drop_last().len() ==> s.drop_last()[j] == s[j]);
        }
        lemma_last_with_name_at(s.drop_last(), k);
    }
}

/// Every name used in `s` has a winning occurrence.
proof fn lemma_has_name_last_index(s: Seq<RecordV>, nm: Seq<char>)
    requires
        has_name(s, nm),
    ensures
        exists|k: int| 0 <= k < s.len() && s[k].name() == nm && #[trigger] is_last_at(s, k),
    decreases s.len(),
{
    if s.last().name() == nm {
        assert(is_last_at(s, s.len() - 1));
    } else {
        assert(has_name(s.drop_last(), nm)) by {
            let i = choose|i: int| 0 <= i < s.len() && s[i].name() == nm;
            assert(i < s.len() - 1);
            assert(s.drop_last()[i] == s[i]);
        }
        lemma_has_name_last_index(s.drop_last(), nm);
        let k = choose|k: int|
            0 <= k < s.drop_last().len() && s.drop_last()[k].name() == nm && #[trigger] is_last_at(
                s.drop_last(),
                k,
            );
        assert(s[k] == s.drop_last()[k]);
        assert(is_last_at(s, k)) by {
            assert(forall|j: int| k < j < s.len() - 1 ==> s[j] == s.drop_last()[j]);
        }
    }
}

/// What the index holds for a used name is a record of `s` with that name.
pub proof fn lemma_last_with_name_props(s: Seq<RecordV>, nm: Seq<char>)
    requires
        has_name(s, nm),
    ensures
        last_with_name(s, nm).name() == nm,
        s.contains(last_with_name(s, nm)),
    decreases s.len(),
{
    if s.last().name() == nm {
        assert(s[s.len() - 1] == s.last());
    } else {
        assert(has_name(s.drop_last(), nm)) by {
            let i = choose|i: int| 0 <= i < s.len() && s[i].name() == nm;
            assert(i < s.len() - 1);
            assert(s.drop_last()[i] == s[i]);
        }
        lemma_last_with_name_props(s.drop_last(), nm);
        let i = choose|i: int|
            0 <= i < s.drop_last().len() && s.drop_last()[i] == last_with_name(s.drop_last(), nm);
        assert(s[i] == s.drop_last()[i]);
    }
}

/// A record is an index entry exactly when it stands at some winning
/// position.
pub proof fn lemma_entry_iff(s: Seq<RecordV>, r: RecordV)
    ensures
        is_entry(s, r) <==> exists|k: int|
            0 <= k < s.len() && s[k] == r && #[trigger] is_last_at(s, k),
{
    if is_entry(s, r) {
        lemma_has_name_last_index(s, r.name());
        let k = choose|k: int|
            0 <= k < s.len() && s[k].name() == r.name() && #[trigger] is_last_at(s, k);
        lemma_last_with_name_at(s, k);
        assert(s[k] == r);
    }
    if exists|k: int| 0 <= k < s.len() && s[k] == r && #[trigger] is_last_at(s, k) {
        let k = choose|k: int| 0 <= k < s.len() && s[k] == r && #[trigger] is_last_at(s, k);
        lemma_last_with_name_at(s, k);
    }
}

/// A name is used in a concatenation exactly when one of the halves uses
/// it.
pub proof fn lemma_has_name_concat(s: Seq<RecordV>, t: Seq<RecordV>, nm: Seq<char>)
    ensures
        has_name(s + t, nm) <==> has_name(s, nm) || has_name(t, nm),
{
    let st = s + t;
    if has_name(st, nm) {
        let i = choose|i: int| 0 <= i < st.len() && st[i].name() == nm;
        if i < s.len() {
            assert(s[i] == st[i]);
        } else {
            assert(t[i - s.len()] == st[i]);
        }
    }
    if has_name(s, nm) {
        let i = choose|i: int| 0 <= i < s.len() && s[i].name() == nm;
        assert(st[i] == s[i]);
    }
    if has_name(t, nm) {
        let i = choose|i: int| 0 <= i < t.len() && t[i].name() == nm;
        assert(st[s.len() + i] == t[i]);
    }
}

/// Appending records re-indexes only their names: for a name the appended
/// half uses, the combined index holds its entry; for any other name the
/// original entry stands.
pub proof fn lemma_index_concat(s: Seq<RecordV>, t: Seq<RecordV>, nm: Seq<char>)
    ensures
        has_name(s + t, nm) <==> has_name(s, nm) || has_name(t, nm),
        has_name(t, nm) ==> last_with_name(s + t, nm) == last_with_name(t, nm),
        !has_name(t, nm) && has_name(s, nm) ==> last_with_name(s + t, nm) == last_with_name(
            s,
            nm,
        ),
    decreases t.len(),
{
    lemma_has_name_concat(s, t, nm);
    let st = s + t;
    if t.len() == 0 {
        assert(st =~= s);
    } else {
        assert(st.len() == s.len() + t.len());
        assert(st.last() == t.last());
        assert(st.drop_last() =~= s + t.drop_last());
        lemma_index_concat(s, t.drop_last(), nm);
        if t.last().name() == nm {
            assert(has_name(t, nm)) by {
                assert(t[t.len() - 1].name() == nm);
            }
        } else {
            assert(has_name(t, nm) <==> has_name(t.drop_last(), nm)) by {
                if has_name(t, nm) {
                    let i = choose|i: int| 0 <= i < t.len() && t[i].name() == nm;
                    assert(i < t.len() - 1);
                    assert(t.drop_last()[i] == t[i]);
                }
                if has_name(t.drop_last(), nm) {
                    let i = choose|i: int|
                        0 <= i < t.drop_last().len() && t.drop_last()[i].name() == nm;
                    assert(t[i] == t.drop_last()[i]);
                }
            }
        }
    }
}

/// In a sequence of records with pairwise distinct names, each record is
/// the index entry for its own name.
pub proof fn lemma_distinct_entry(s: Seq<RecordV>, r: RecordV)
    requires
        distinct_names(s),
        s.contains(r),
    ensures
        has_name(s, r.name()),
        last_with_name(s, r.name()) == r,
{
    let i = choose|i: int| 0 <= i < s.len() && s[i] == r;
    assert(is_last_at(s, i));
    lemma_last_with_name_at(s, i);
}

/// What `super_prefix` collects over the whole of `a`: the index entries
/// of `a` whose name `b` does not use, with no name repeated.
proof fn lemma_super_prefix_post(a: Seq<RecordV>, b: Seq<RecordV>, n: int)
    requires
        0 <= n <= a.len(),
    ensures
        forall|r: RecordV|
            #[trigger] super_prefix(a, b, n).contains(r) <==> exists|k: int|
                0 <= k < n && a[k] == r && #[trigger] is_last_at(a, k) && !has_name(b, r.name()),
        distinct_names(super_prefix(a, b, n)),
    decreases n,
{
    if n > 0 {
        lemma_super_prefix_post(a, b, n - 1);
        let rest = super_prefix(a, b, n - 1);
        let cur = super_prefix(a, b, n);
        if is_last_at(a, n - 1) && !has_name(b, a[n - 1].name()) {
            assert(cur == rest.push(a[n - 1]));
            assert forall|r: RecordV| #[trigger] cur.contains(r) implies exists|k: int|
                0 <= k < n && a[k] == r && #[trigger] is_last_at(a, k) && !has_name(
                    b,
                    r.name(),
                ) by {
                let i = choose|i: int| 0 <= i < cur.len() && cur[i] == r;
                if i < rest.len() {
                    assert(rest[i] == r);
                    assert(rest.contains(r));
                } else {
                    assert(r == a[n - 1]);
                }
            }
            assert forall|r: RecordV|
                (exists|k: int|
                    0 <= k < n && a[k] == r && #[trigger] is_last_at(a, k) && !has_name(
                        b,
                        r.name(),
                    )) implies #[trigger] cur.contains(r) by {
                let k = choose|k: int|
                    0 <= k < n && a[k] == r && #[trigger] is_last_at(a, k) && !has_name(
                        b,
                        r.name(),
                    );
                if k < n - 1 {
                    assert(rest.contains(r));
                    let i = choose|i: int| 0 <= i < rest.len() && rest[i] == r;
                    assert(cur[i] == r);
                } else {
                    assert(cur[cur.len() - 1] == r);
                }
            }
            assert(distinct_names(cur)) by {
                assert forall|i: int, j: int| 0 <= i < j < cur.len() implies cur[i].name()
                    != cur[j].name() by {
                    if j < rest.len() {
                        assert(rest[i] == cur[i] && rest[j] == cur[j]);
                    } else {
                        assert(cur[j] == a[n - 1]);
                        assert(rest[i] == cur[i]);
                        assert(rest.contains(rest[i]));
                        let k = choose|k: int|
                            0 <= k < n - 1 && a[k] == rest[i] && #[trigger] is_last_at(a, k)
                                && !has_name(b, rest[i].name());
                        assert(a[n - 1].name() != a[k].name());
                    }
                }
            }
        } else {
            assert(cur == rest);
            assert forall|r: RecordV|
                (exists|k: int|
                    0 <= k < n && a[k] == r && #[trigger] is_last_at(a, k) && !has_name(
                        b,
                        r.name(),
                    )) implies #[trigger] cur.contains(r) by {
                let k = choose|k: int|
                    0 <= k < n && a[k] == r && #[trigger] is_last_at(a, k) && !has_name(
                        b,
                        r.name(),
                    );
                assert(k < n - 1);
            }
        }
    }
}

/// What `changed_prefix` collects over the whole of `a`: the pairs of a
/// desired and an observed index entry that share a name but differ, with
/// no observed name repeated.
proof fn lemma_changed_prefix_post(a: Seq<RecordV>, b: Seq<RecordV>, n: int)
    requires
        0 <= n <= a.len(),
    ensures
        forall|p: (RecordV, RecordV)|
            #[trigger] changed_prefix(a, b, n).contains(p) <==> exists|k: int|
                0 <= k < n && a[k] == p.1 && #[trigger] is_last_at(a, k) && has_name(
                    b,
                    p.1.name(),
                ) && p.0 == last_with_name(b, p.1.name()) && p.0 != p.1,
        distinct_pair_names(changed_prefix(a, b, n)),
    decreases n,
{
    if n > 0 {
        lemma_changed_prefix_post(a, b, n - 1);
        let rest = changed_prefix(a, b, n - 1);
        let cur = changed_prefix(a, b, n);
        let nm = a[n - 1].name();
        if is_last_at(a, n - 1) && has_name(b, nm) && last_with_name(b, nm) != a[n - 1] {
            let x = (last_with_name(b, nm), a[n - 1]);
            assert(cur == rest.push(x));
            assert forall|p: (RecordV, RecordV)| #[trigger] cur.contains(p) implies exists|k: int|
                0 <= k < n && a[k] == p.1 && #[trigger] is_last_at(a, k) && has_name(
                    b,
                    p.1.name(),
                ) && p.0 == last_with_name(b, p.1.name()) && p.0 != p.1 by {
                let i = choose|i: int| 0 <= i < cur.len() && cur[i] == p;
                if i < rest.len() {
                    assert(rest[i] == p);
                    assert(rest.contains(p));
                } else {
                    assert(p == x);
                    assert(a[n - 1] == p.1);
                }
            }
            assert forall|p: (RecordV, RecordV)|
                (exists|k: int|
                    0 <= k < n && a[k] == p.1 && #[trigger] is_last_at(a, k) && has_name(
                        b,
                        p.1.name(),
                    ) && p.0 == last_with_name(b, p.1.name()) && p.0 != p.1) implies
                #[trigger] cur.contains(p) by {
                let k = choose|k: int|
                    0 <= k < n && a[k] == p.1 && #[trigger] is_last_at(a, k) && has_name(
                        b,
                        p.1.name(),
                    ) && p.0 == last_with_name(b, p.1.name()) && p.0 != p.1;
                if k < n - 1 {
                    assert(rest.contains(p));
                    let i = choose|i: int| 0 <= i < rest.len() && rest[i] == p;
                    assert(cur[i] == p);
                } else {
                    assert(p.1 == a[n - 1]);
                    assert(p == x);
                    assert(cur[cur.len() - 1] == x);
                }
            }
            assert(distinct_pair_names(cur)) by {
                assert forall|i: int, j: int| 0 <= i < j < cur.len() implies cur[i].1.name()
                    != cur[j].1.name() by {
                    if j < rest.len() {
                        assert(rest[i] == cur[i] && rest[j] == cur[j]);
                    } else {
                        assert(cur[j] == x);
                        assert(rest[i] == cur[i]);
                        assert(rest.contains(rest[i]));
                        let k = choose|k: int|
                            0 <= k < n - 1 && a[k] == rest[i].1 && #[trigger] is_last_at(a, k)
                                && has_name(b, rest[i].1.name()) && rest[i].0 == last_with_name(
                                b,
                                rest[i].1.name(),
                            ) && rest[i].0 != rest[i].1;
                        assert(a[n - 1].name() != a[k].name());
                    }
                }
            }
        } else {
            assert(cur == rest);
            assert forall|p: (RecordV, RecordV)|
                (exists|k: int|
                    0 <= k < n && a[k] == p.1 && #[trigger] is_last_at(a, k) && has_name(
                        b,
                        p.1.name(),
                    ) && p.0 == last_with_name(b, p.1.name()) && p.0 != p.1) implies
                #[trigger] cur.contains(p) by {
                let k = choose|k: int|
                    0 <= k < n && a[k] == p.1 && #[trigger] is_last_at(a, k) && has_name(
                        b,
                        p.1.name(),
                    ) && p.0 == last_with_name(b, p.1.name()) && p.0 != p.1;
                assert(k < n - 1);
            }
        }
    }
}

/// Whether a later record in `v` shares the name of `v[i]`, in which case
/// position `i` loses the last-wins indexing.
fn superseded(v: &Vec<Record>, i: usize) -> (r: bool)
    requires
        i < v@.len(),
    ensures
        r == !is_last_at(v.deep_view(), i as int),
{
    let nm = v[i].name();
    let n = v.len();
    let mut j: usize = i + 1;
    while j < n
        invariant
            n == v@.len(),
            i < j <= v@.len(),
            nm@ == v.deep_view()[i as int].name(),
            forall|k: int| i < k < j ==> v.deep_view()[k].name() != v.deep_view()[i as int].name(),
        decreases v@.len() - j,
    {
        let nj = v[j].name();
        if nj.eq(&nm) {
            proof {
                let dv = v.deep_view();
                assert(dv[j as int].name() == dv[i as int].name());
                assert(!is_last_at(dv, i as int));
            }
            return true;
        }
        j += 1;
    }
    false
}

/// The position of the last record in `v` named `nm`, if any.
fn find_last_with_name(v: &Vec<Record>, nm: &String) -> (r: Option<usize>)
    ensures
        match r {
            Some(j) => j < v@.len() && v.deep_view()[j as int].name() == nm@ && is_last_at(
                v.deep_view(),
                j as int,
            ),
            None => !has_name(v.deep_view(), nm@),
        },
{
    let mut j: usize = v.len();
    while j > 0
        invariant
            j <= v@.len(),
            forall|k: int| j <= k < v@.len() ==> v.deep_view()[k].name() != nm@,
        decreases j,
    {
        j -= 1;
        let nj = v[j].name();
        if nj.eq(nm) {
            return Some(j);
        }
    }
    None
}

/// Structural equality of two records: same variant, name and value.
fn record_eq(x: &Record, y: &Record) -> (r: bool)
    ensures
        r == (x@ == y@),
{
    match (x, y) {
        (Record::A(n1, v1), Record::A(n2, v2)) => n1.eq(n2) && v1.eq(v2),
        (Record::Cname(n1, v1), Record::Cname(n2, v2)) => n1.eq(n2) && v1.eq(v2),
        _ => false,
    }
}

/// A fresh record with the same variant, name and value.
fn dup(r: &Record) -> (d: Record)
    ensures
        d@ == r@,
{
    match r {
        Record::A(n, v) => Record::A(n.clone(), v.clone()),
        Record::Cname(n, v) => Record::Cname(n.clone(), v.clone()),
    }
}

/// The three partitions of a reconciliation: records published but not
/// desired (never deleted, only reported), records desired but not
/// published, and pairs of (desired, observed) content for names published
/// with the wrong content.
#[derive(Debug)]
pub struct Diff {
    pub superflous: Vec<Record>,
    pub missing: Vec<Record>,
    pub changed: Vec<(Record, Record)>,
}

impl Diff {
    /// Reconcile observed records `a` against desired records `b`.
    ///
    /// Both inputs are indexed by name, the last record winning when a
    /// name repeats; every indexed name is then classified as superfluous,
    /// missing, changed, or (implicitly) unchanged.
    pub fn new(a: Vec<Record>, b: Vec<Record>) -> (d: Diff)
        ensures
            diff_post(
                a.deep_view(),
                b.deep_view(),
                d.superflous.deep_view(),
                d.missing.deep_view(),
                d.changed.deep_view(),
            ),
    {
        let mut superflous: Vec<Record> = Vec::new();
        let mut missing: Vec<Record> = Vec::new();
        let mut changed: Vec<(Record, Record)> = Vec::new();

        let mut i: usize = 0;
        while i < a.len()
            invariant
                i <= a@.len(),
                superflous.deep_view() == super_prefix(a.deep_view(), b.deep_view(), i as int),
                changed.deep_view() == changed_prefix(a.deep_view(), b.deep_view(), i as int),
                missing@.len() == 0,
            decreases a@.len() - i,
        {
            let ghost av = a.deep_view();
            let ghost bv = b.deep_view();
            let ghost pre_s = superflous.deep_view();
            let ghost pre_c = changed.deep_view();
            if !superseded(&a, i) {
                let nm = a[i].name();
                match find_last_with_name(&b, &nm) {
                    None => {
                        superflous.push(dup(&a[i]));
                        proof {
                            assert(superflous.deep_view() =~= pre_s.push(av[i as int]));
                        }
                    },
                    Some(j) => {
                        proof {
                            lemma_last_with_name_at(bv, j as int);
                        }
                        if !record_eq(&a[i], &b[j]) {
                            changed.push((dup(&b[j]), dup(&a[i])));
                            proof {
                                assert(changed.deep_view() =~= pre_c.push(
                                    (bv[j as int], av[i as int]),
                                ));
                            }
                        }
                    },
                }
            }
            proof {
                assert(superflous.deep_view() == super_prefix(av, bv, i + 1));
                assert(changed.deep_view() == changed_prefix(av, bv, i + 1));
            }
            i += 1;
        }

        let mut i: usize = 0;
        while i < b.len()
            invariant
                i <= b@.len(),
                superflous.deep_view() == super_prefix(
                    a.deep_view(),
                    b.deep_view(),
                    a.deep_view().len() as int,
                ),
                changed.deep_view() == changed_prefix(
                    a.deep_view(),
                    b.deep_view(),
                    a.deep_view().len() as int,
                ),
                missing.deep_view() == super_prefix(b.deep_view(), a.deep_view(), i as int),
            decreases b@.len() - i,
        {
            let ghost av = a.deep_view();
            let ghost bv = b.deep_view();
            let ghost pre_m = missing.deep_view();
            if !superseded(&b, i) {
                let nm = b[i].name();
                match find_last_with_name(&a, &nm) {
                    None => {
                        missing.push(dup(&b[i]));
                        proof {
                            assert(missing.deep_view() =~= pre_m.push(bv[i as int]));
                        }
                    },
                    Some(_) => {},
                }
            }
            proof {
                assert(missing.deep_view() == super_prefix(bv, av, i + 1));
            }
            i += 1;
        }

        proof {
            let av = a.deep_view();
            let bv = b.deep_view();
            lemma_super_prefix_post(av, bv, av.len() as int);
            lemma_super_prefix_post(bv, av, bv.len() as int);
            lemma_changed_prefix_post(av, bv, av.len() as int);
            assert forall|r: RecordV| #[trigger]
                superflous.deep_view().contains(r) <==> is_entry(av, r) && !has_name(
                    bv,
                    r.name(),
                ) by {
                lemma_entry_iff(av, r);
            }
            assert forall|r: RecordV| #[trigger]
                missing.deep_view().contains(r) <==> is_entry(bv, r) && !has_name(
                    av,
                    r.name(),
                ) by {
                lemma_entry_iff(bv, r);
            }
            assert forall|p: (RecordV, RecordV)| #[trigger]
                changed.deep_view().contains(p) <==> is_entry(bv, p.0) && is_entry(av, p.1)
                    && p.0.name() == p.1.name() && p.0 != p.1 by {
                lemma_entry_iff(av, p.1);
                if changed.deep_view().contains(p) {
                    lemma_last_with_name_props(bv, p.1.name());
                }
                if is_entry(bv, p.0) && is_entry(av, p.1) && p.0.name() == p.1.name() && p.0
                    != p.1 {
                    lemma_last_with_name_props(bv, p.0.name());
                }
            }
        }

        Diff { superflous, missing, changed }
    }
}

} // verus!
