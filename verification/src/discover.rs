//! Service discovery: which hosts have logged, and which units on each.
use crate::error::JournalError;
use crate::journal::{
    carries, eligible, field_item, first_carrier, is_next, lemma_field_item_at,
    lemma_unique_values, occurs, satisfies, texts, unique_values, Journal, Position, RecordView,
};
use crate::query::{field_text, hostname_field, lemma_field_names, read_field, unit_field};
use crate::text::{
    lemma_lex_irreflexive, lemma_lex_total, lemma_lex_transitive, lemma_raw_item_parts, lex_lt,
    match_string, precedes, raw_item, strip_prefix,
};
use vstd::prelude::*;
use vstd::string::*;

verus! {

/// A host that has logged to the journal, with the units that logged from it.
#[derive(Debug, Clone, PartialEq)]
pub struct Host {
    /// The name of the host.
    pub hostname: String,
    /// The names of the units that have logged from this host.
    pub units: Vec<String>,
}

/// The hosts found in a journal.
#[derive(Debug, Clone, PartialEq)]
pub struct Hosts {
    /// The hosts, each with its units.
    pub hosts: Vec<Host>,
}

/// What a host is in contracts.
pub struct HostView {
    pub hostname: Seq<char>,
    pub units: Seq<Seq<char>>,
}

impl View for Host {
    type V = HostView;

    open spec fn view(&self) -> HostView {
        HostView { hostname: self.hostname@, units: texts(self.units@) }
    }
}

impl View for Hosts {
    type V = Seq<HostView>;

    open spec fn view(&self) -> Seq<HostView> {
        Seq::new(self.hosts@.len(), |i: int| self.hosts@[i]@)
    }
}

/// The names of a list of hosts, in its order.
pub open spec fn host_names(hosts: Seq<HostView>) -> Seq<Seq<char>> {
    Seq::new(hosts.len(), |i: int| hosts[i].hostname)
}

/// The units of a list of hosts: those of the first host, then those of the
/// second, and so on.
pub open spec fn unit_names(hosts: Seq<HostView>) -> Seq<Seq<char>>
    decreases hosts.len(),
{
    if hosts.len() == 0 {
        Seq::empty()
    } else {
        unit_names(hosts.drop_last()) + hosts.last().units
    }
}

/// Host `i` is the first of the list that has the given name.
pub open spec fn first_named(hosts: Seq<HostView>, name: Seq<char>, i: int) -> bool {
    &&& 0 <= i < hosts.len()
    &&& hosts[i].hostname == name
    &&& forall|j: int| 0 <= j < i ==> hosts[j].hostname != name
}

/// Each text precedes every later one: the list is in lexicographic order
/// and holds nothing twice.
pub open spec fn strictly_sorted(v: Seq<Seq<char>>) -> bool {
    forall|i: int, j: int| 0 <= i < j < v.len() ==> lex_lt(v[i], v[j])
}

/// The values of the raw items that carry a field, in the order of the
/// items. An item that does not begin with `field=` is passed over.
pub open spec fn stripped_values(raw: Seq<Seq<char>>, field: Seq<char>) -> Seq<Seq<char>>
    decreases raw.len(),
{
    if raw.len() == 0 {
        Seq::empty()
    } else {
        let front = stripped_values(raw.drop_last(), field);
        if carries(raw.last(), field) {
            front.push(raw.last().skip(field.len() as int + 1))
        } else {
            front
        }
    }
}

/// The stripped values are the values `v` for which `field=v` is among the
/// raw items.
pub proof fn lemma_stripped_values(raw: Seq<Seq<char>>, field: Seq<char>, v: Seq<char>)
    ensures
        stripped_values(raw, field).contains(v) <==> raw.contains(raw_item(field, v)),
    decreases raw.len(),
{
    if raw.len() > 0 {
        let front = raw.drop_last();
        let last = raw.last();
        let vals = stripped_values(raw, field);
        let fvals = stripped_values(front, field);
        lemma_stripped_values(front, field, v);
        let prefix = field + seq!['='];
        if vals.contains(v) {
            let i = choose|i: int| 0 <= i < vals.len() && vals[i] == v;
            if i < fvals.len() {
                assert(fvals[i] == v);
                assert(fvals.contains(v));
                let k = choose|k: int| 0 <= k < front.len() && front[k] == raw_item(field, v);
                assert(raw[k] == raw_item(field, v));
            } else {
                assert(last.take(prefix.len() as int) == prefix);
                assert(last =~= prefix + last.skip(prefix.len() as int));
                assert(raw[raw.len() - 1] == raw_item(field, v));
            }
        }
        if raw.contains(raw_item(field, v)) {
            let k = choose|k: int| 0 <= k < raw.len() && raw[k] == raw_item(field, v);
            if k < front.len() {
                assert(front[k] == raw_item(field, v));
                assert(front.contains(raw_item(field, v)));
                let i = choose|i: int| 0 <= i < fvals.len() && fvals[i] == v;
                assert(vals[i] == v);
            } else {
                assert(last == raw_item(field, v));
                assert(last.take(prefix.len() as int) =~= prefix);
                assert(last.skip(prefix.len() as int) =~= v);
                assert(vals[fvals.len() as int] == v);
            }
        }
    }
}

impl Hosts {
    /// An empty collection of hosts.
    pub fn new() -> (hosts: Hosts)
        ensures
            hosts@ == Seq::<HostView>::empty(),
    {
        let hosts = Hosts { hosts: Vec::new() };
        assert(hosts@ =~= Seq::<HostView>::empty());
        hosts
    }

    /// The number of hosts.
    pub fn len(&self) -> (n: usize)
        ensures
            n == self@.len(),
    {
        self.hosts.len()
    }

    /// Whether there is no host.
    pub fn is_empty(&self) -> (empty: bool)
        ensures
            empty == (self@.len() == 0),
    {
        self.hosts.len() == 0
    }

    /// The names of the hosts, in the order of the collection.
    pub fn hostnames(&self) -> (names: Vec<&String>)
        ensures
            names@.len() == self@.len(),
            forall|i: int| 0 <= i < names@.len() ==> (#[trigger] names@[i])@ == self@[i].hostname,
    {
        let mut names: Vec<&String> = Vec::new();
        let mut i: usize = 0;
        while i < self.hosts.len()
            invariant
                i <= self.hosts.len(),
                names@.len() == i,
                forall|k: int| 0 <= k < i ==> (#[trigger] names@[k])@ == self@[k].hostname,
            decreases self.hosts.len() - i,
        {
            names.push(&self.hosts[i].hostname);
            i += 1;
        }
        names
    }

    /// The units of all hosts: those of the first host, then those of the
    /// second, and so on. A unit that logs from two hosts comes twice.
    pub fn all_units(&self) -> (units: Vec<&String>)
        ensures
            units@.len() == unit_names(self@).len(),
            forall|i: int| 0 <= i < units@.len() ==> (#[trigger] units@[i])@ == unit_names(self@)[i],
    {
        let mut units: Vec<&String> = Vec::new();
        let mut i: usize = 0;
        assert(self@.take(0) =~= Seq::<HostView>::empty());
        while i < self.hosts.len()
            invariant
                i <= self.hosts.len(),
                units@.len() == unit_names(self@.take(i as int)).len(),
                forall|k: int|
                    0 <= k < units@.len() ==> (#[trigger] units@[k])@ == unit_names(
                        self@.take(i as int),
                    )[k],
            decreases self.hosts.len() - i,
        {
            let host = &self.hosts[i];
            let ghost base = unit_names(self@.take(i as int));
            let mut k: usize = 0;
            while k < host.units.len()
                invariant
                    k <= host.units.len(),
                    i < self.hosts.len(),
                    host == &self.hosts[i as int],
                    base == unit_names(self@.take(i as int)),
                    units@.len() == base.len() + k,
                    forall|m: int| 0 <= m < base.len() ==> (#[trigger] units@[m])@ == base[m],
                    forall|m: int|
                        0 <= m < k ==> (#[trigger] units@[base.len() + m])@ == host.units@[m]@,
                decreases host.units.len() - k,
            {
                units.push(&host.units[k]);
                k += 1;
            }
            proof {
                assert(self@.take(i + 1).drop_last() =~= self@.take(i as int));
                assert(self@.take(i + 1).last() == self@[i as int]);
                assert(self@[i as int].units == texts(host.units@));
                let whole = unit_names(self@.take(i + 1));
                assert(whole == base + texts(host.units@));
                assert forall|m: int| 0 <= m < units@.len() implies (#[trigger] units@[m])@
                    == whole[m] by {
                    if m >= base.len() {
                        assert(units@[base.len() + (m - base.len())]@ == host.units@[m
                            - base.len()]@);
                    }
                }
            }
            i += 1;
        }
        assert(self@.take(self.hosts.len() as int) =~= self@);
        units
    }

    /// The first host with the given name, if there is one.
    pub fn find_host(&self, hostname: &str) -> (found: Option<&Host>)
        ensures
            match found {
                Some(host) => exists|i: int|
                    first_named(self@, hostname@, i) && host == #[trigger] self.hosts@[i],
                None => forall|i: int| 0 <= i < self@.len() ==> self@[i].hostname != hostname@,
            },
    {
        let wanted = hostname.to_owned();
        let mut i: usize = 0;
        while i < self.hosts.len()
            invariant
                i <= self.hosts.len(),
                wanted@ == hostname@,
                forall|k: int| 0 <= k < i ==> self@[k].hostname != hostname@,
            decreases self.hosts.len() - i,
        {
            if self.hosts[i].hostname == wanted {
                assert(first_named(self@, hostname@, i as int));
                return Some(&self.hosts[i]);
            }
            i += 1;
        }
        None
    }
}

/// Some record holds the raw item `_HOSTNAME=h`.
pub open spec fn logged_host(recs: Seq<RecordView>, h: Seq<char>) -> bool {
    occurs(recs, raw_item(hostname_field(), h))
}

/// Some record holds the raw item `_SYSTEMD_UNIT=u`.
pub open spec fn logged_unit(recs: Seq<RecordView>, u: Seq<char>) -> bool {
    occurs(recs, raw_item(unit_field(), u))
}

/// Record `r` holds both `_HOSTNAME=h` and `_SYSTEMD_UNIT=u`.
pub open spec fn logs_pair(recs: Seq<RecordView>, h: Seq<char>, u: Seq<char>, r: int) -> bool {
    &&& 0 <= r < recs.len()
    &&& recs[r].items.contains(raw_item(hostname_field(), h))
    &&& recs[r].items.contains(raw_item(unit_field(), u))
}

/// Some record was logged by unit `u` on host `h`.
pub open spec fn co_occur(recs: Seq<RecordView>, h: Seq<char>, u: Seq<char>) -> bool {
    exists|r: int| logs_pair(recs, h, u, r)
}

/// Host `h` and unit `u` have both logged, and one of the two names holds a
/// NUL, so that no match can be made of it.
pub open spec fn unprobeable(recs: Seq<RecordView>, h: Seq<char>, u: Seq<char>) -> bool {
    logged_host(recs, h) && logged_unit(recs, u) && (h.contains('\0') || u.contains('\0'))
}

/// The journal names a host and a unit of which one cannot be probed.
pub open spec fn probe_fails(recs: Seq<RecordView>) -> bool {
    exists|h: Seq<char>, u: Seq<char>| unprobeable(recs, h, u)
}

/// The units of one host are in order, each once, and they are the units
/// that have logged on that host.
pub open spec fn units_of_host(host: HostView, recs: Seq<RecordView>) -> bool {
    &&& strictly_sorted(host.units)
    &&& forall|u: Seq<char>| #[trigger] host.units.contains(u) <==> co_occur(recs, host.hostname, u)
}

/// The hosts are what discovery owes for the records: every host that has
/// logged, each once and in the order of their names; with each host the
/// units that have logged on it, each once and in the order of their names.
pub open spec fn is_discovery(hosts: Seq<HostView>, recs: Seq<RecordView>) -> bool {
    &&& strictly_sorted(host_names(hosts))
    &&& forall|h: Seq<char>| #[trigger] host_names(hosts).contains(h) <==> logged_host(recs, h)
    &&& forall|i: int| 0 <= i < hosts.len() ==> units_of_host(#[trigger] hosts[i], recs)
}

/// An entry passes the two matches of a probe exactly if it holds both.
pub proof fn lemma_probe(items: Seq<Seq<char>>, h: Seq<char>, u: Seq<char>)
    ensures
        satisfies(items, seq![raw_item(hostname_field(), h), raw_item(unit_field(), u)])
            <==> items.contains(raw_item(hostname_field(), h)) && items.contains(
            raw_item(unit_field(), u),
        ),
{
    let a = raw_item(hostname_field(), h);
    let b = raw_item(unit_field(), u);
    let m = seq![a, b];
    lemma_field_names();
    lemma_raw_item_parts(hostname_field(), h);
    lemma_raw_item_parts(unit_field(), u);
    if satisfies(items, m) {
        assert(crate::journal::match_met(items, m, 0));
        let j0 = choose|j: int| crate::journal::answers(items, m, 0, j);
        assert(j0 == 0);
        assert(crate::journal::match_met(items, m, 1));
        let j1 = choose|j: int| crate::journal::answers(items, m, 1, j);
        assert(j1 == 1);
    }
    if items.contains(a) && items.contains(b) {
        assert(crate::journal::answers(items, m, 0, 0));
        assert(crate::journal::answers(items, m, 1, 1));
    }
}

/// Two lists in strict order that hold the same texts are the same list.
pub proof fn lemma_sorted_lists_equal(a: Seq<Seq<char>>, b: Seq<Seq<char>>)
    requires
        strictly_sorted(a),
        strictly_sorted(b),
        forall|x: Seq<char>| a.contains(x) <==> b.contains(x),
    ensures
        a == b,
    decreases a.len(),
{
    if a.len() == 0 {
        if b.len() > 0 {
            assert(b.contains(b[0]));
        }
        assert(a =~= b);
    } else if b.len() == 0 {
        assert(a.contains(a[0]));
    } else {
        // the least text of each list is its first
        assert(a.contains(a[0]));
        assert(b.contains(b[0]));
        let i = choose|i: int| 0 <= i < b.len() && b[i] == a[0];
        let j = choose|j: int| 0 <= j < a.len() && a[j] == b[0];
        if i > 0 {
            assert(lex_lt(b[0], b[i]));
            if j > 0 {
                assert(lex_lt(a[0], a[j]));
                lemma_lex_total(a[0], b[0]);
            }
            lemma_lex_irreflexive(a[0]);
        }
        assert(a[0] == b[0]);
        let ta = a.drop_first();
        let tb = b.drop_first();
        assert forall|x: Seq<char>| ta.contains(x) <==> tb.contains(x) by {
            if ta.contains(x) {
                let k = choose|k: int| 0 <= k < ta.len() && ta[k] == x;
                assert(a[k + 1] == x);
                assert(lex_lt(a[0], a[k + 1]));
                assert(a.contains(x));
                let m = choose|m: int| 0 <= m < b.len() && b[m] == x;
                if m == 0 {
                    lemma_lex_irreflexive(x);
                }
                assert(tb[m - 1] == x);
            }
            if tb.contains(x) {
                let k = choose|k: int| 0 <= k < tb.len() && tb[k] == x;
                assert(b[k + 1] == x);
                assert(lex_lt(b[0], b[k + 1]));
                assert(b.contains(x));
                let m = choose|m: int| 0 <= m < a.len() && a[m] == x;
                if m == 0 {
                    lemma_lex_irreflexive(x);
                }
                assert(ta[m - 1] == x);
            }
        }
        assert forall|p: int, q: int| 0 <= p < q < ta.len() implies lex_lt(ta[p], ta[q]) by {
            assert(lex_lt(a[p + 1], a[q + 1]));
        }
        assert forall|p: int, q: int| 0 <= p < q < tb.len() implies lex_lt(tb[p], tb[q]) by {
            assert(lex_lt(b[p + 1], b[q + 1]));
        }
        lemma_sorted_lists_equal(ta, tb);
        assert(a =~= seq![a[0]] + ta);
        assert(b =~= seq![b[0]] + tb);
    }
}

/// The records of a journal fix what discovery returns.
pub proof fn lemma_discovery_is_unique(a: Seq<HostView>, b: Seq<HostView>, recs: Seq<RecordView>)
    requires
        is_discovery(a, recs),
        is_discovery(b, recs),
    ensures
        a == b,
{
    let na = host_names(a);
    let nb = host_names(b);
    assert forall|x: Seq<char>| na.contains(x) <==> nb.contains(x) by {
        assert(na.contains(x) <==> logged_host(recs, x));
        assert(nb.contains(x) <==> logged_host(recs, x));
    }
    lemma_sorted_lists_equal(na, nb);
    assert(a.len() == na.len() && b.len() == nb.len());
    assert forall|i: int| 0 <= i < a.len() implies a[i] == b[i] by {
        assert(na[i] == nb[i]);
        assert(units_of_host(a[i], recs));
        assert(units_of_host(b[i], recs));
        assert forall|u: Seq<char>| a[i].units.contains(u) <==> b[i].units.contains(u) by {
            assert(a[i].units.contains(u) <==> co_occur(recs, a[i].hostname, u));
            assert(b[i].units.contains(u) <==> co_occur(recs, b[i].hostname, u));
        }
        lemma_sorted_lists_equal(a[i].units, b[i].units);
    }
    assert(a =~= b);
}

/// The values of the raw items that carry a field, in the order of the
/// items: each item `field=value` gives its value, and any other item is
/// passed over.
pub fn strip_field_values(raw_values: &Vec<String>, field: &str) -> (values: Vec<String>)
    ensures
        texts(values@) == stripped_values(texts(raw_values@), field@),
{
    let prefix = match_string(field, "");
    let ghost raw = texts(raw_values@);
    proof {
        reveal_strlit("");
        assert(prefix@ =~= field@ + seq!['=']);
        assert(raw.take(0) =~= Seq::<Seq<char>>::empty());
    }
    let mut values: Vec<String> = Vec::new();
    assert(texts(values@) =~= Seq::<Seq<char>>::empty());
    let mut i: usize = 0;
    while i < raw_values.len()
        invariant
            i <= raw_values.len(),
            raw == texts(raw_values@),
            prefix@ == field@ + seq!['='],
            texts(values@) == stripped_values(raw.take(i as int), field@),
        decreases raw_values.len() - i,
    {
        let ghost had = texts(values@);
        proof {
            assert(raw.take(i + 1).drop_last() =~= raw.take(i as int));
            assert(raw.take(i + 1).last() == raw[i as int]);
        }
        match strip_prefix(raw_values[i].as_str(), prefix.as_str()) {
            Some(value) => {
                values.push(value);
                assert(texts(values@) =~= had.push(raw[i as int].skip(field@.len() as int + 1)));
            },
            None => {},
        }
        i += 1;
    }
    assert(raw.take(raw_values.len() as int) =~= raw);
    values
}

/// Where a text belongs in a list in strict order: after the texts that
/// precede it.
fn insertion_point(list: &Vec<String>, item: &String) -> (at: usize)
    ensures
        at <= list@.len(),
        forall|k: int| 0 <= k < at ==> lex_lt(texts(list@)[k], item@),
        at < list@.len() ==> !lex_lt(texts(list@)[at as int], item@),
{
    let mut i: usize = 0;
    while i < list.len()
        invariant
            i <= list.len(),
            forall|k: int| 0 <= k < i ==> lex_lt(texts(list@)[k], item@),
        decreases list.len() - i,
    {
        if !precedes(list[i].as_str(), item.as_str()) {
            return i;
        }
        i += 1;
    }
    i
}

/// Puts a text into a list in strict order, unless the list holds it.
pub fn insert_sorted(list: &mut Vec<String>, item: String)
    requires
        strictly_sorted(texts(old(list)@)),
    ensures
        strictly_sorted(texts(final(list)@)),
        forall|x: Seq<char>|
            texts(final(list)@).contains(x) <==> texts(old(list)@).contains(x) || x == item@,
{
    let at = insertion_point(list, &item);
    let ghost before = texts(list@);
    if at < list.len() && list[at] == item {
        assert(before[at as int] == item@);
        return ;
    }
    let ghost text = item@;
    list.insert(at, item);
    proof {
        let after = texts(list@);
        assert(after =~= before.insert(at as int, text));
        if at < before.len() {
            lemma_lex_total(before[at as int], text);
        }
        assert forall|i: int, j: int| 0 <= i < j < after.len() implies lex_lt(
            after[i],
            after[j],
        ) by {
            if j < at {
            } else if j == at {
            } else if i == at {
                if j - 1 > at {
                    assert(lex_lt(before[at as int], before[j - 1]));
                    lemma_lex_transitive(text, before[at as int], before[j - 1]);
                }
            } else if i < at {
                assert(lex_lt(before[i], before[j - 1]));
            } else {
                assert(lex_lt(before[i - 1], before[j - 1]));
            }
        }
        assert forall|x: Seq<char>| after.contains(x) <==> before.contains(x) || x == text by {
            if after.contains(x) {
                let k = choose|k: int| 0 <= k < after.len() && after[k] == x;
                if k < at {
                    assert(before[k] == x);
                } else if k > at {
                    assert(before[k - 1] == x);
                }
            }
            if before.contains(x) {
                let k = choose|k: int| 0 <= k < before.len() && before[k] == x;
                if k < at {
                    assert(after[k] == x);
                } else {
                    assert(after[k + 1] == x);
                }
            }
            if x == text {
                assert(after[at as int] == x);
            }
        }
    }
}

/// The texts of a list in lexicographic order, each once.
pub fn sorted_unique(values: &Vec<String>) -> (sorted: Vec<String>)
    ensures
        strictly_sorted(texts(sorted@)),
        forall|x: Seq<char>| texts(sorted@).contains(x) <==> texts(values@).contains(x),
{
    let mut sorted: Vec<String> = Vec::new();
    let mut i: usize = 0;
    while i < values.len()
        invariant
            i <= values.len(),
            strictly_sorted(texts(sorted@)),
            forall|x: Seq<char>|
                texts(sorted@).contains(x) <==> texts(values@).take(i as int).contains(x),
        decreases values.len() - i,
    {
        let ghost had = texts(sorted@);
        let ghost seen = texts(values@).take(i as int);
        insert_sorted(&mut sorted, values[i].clone());
        proof {
            let now = texts(values@).take(i + 1);
            assert(now =~= seen.push(values@[i as int]@));
            assert forall|x: Seq<char>| texts(sorted@).contains(x) <==> now.contains(x) by {
                if now.contains(x) {
                    let k = choose|k: int| 0 <= k < now.len() && now[k] == x;
                    if k < i {
                        assert(seen[k] == x);
                    }
                }
                if seen.contains(x) {
                    let k = choose|k: int| 0 <= k < seen.len() && seen[k] == x;
                    assert(now[k] == x);
                }
                if x == values@[i as int]@ {
                    assert(now[i as int] == x);
                }
            }
        }
        i += 1;
    }
    assert(texts(values@).take(values.len() as int) =~= texts(values@));
    sorted
}

/// The values of a field that some record holds, as the journal lists them:
/// each once, in the order in which they first occur.
pub open spec fn listed_values(recs: Seq<RecordView>, field: Seq<char>) -> Seq<Seq<char>> {
    stripped_values(unique_values(recs, field), field)
}

/// The listed values of a field are the values `v` for which some record
/// holds `field=v`.
pub proof fn lemma_listed_values(recs: Seq<RecordView>, field: Seq<char>, v: Seq<char>)
    ensures
        listed_values(recs, field).contains(v) <==> occurs(recs, raw_item(field, v)),
{
    lemma_stripped_values(unique_values(recs, field), field, v);
    lemma_unique_values(recs, field);
    let raw = raw_item(field, v);
    assert(unique_values(recs, field).contains(raw) <==> carries(raw, field) && occurs(recs, raw));
    assert(raw.take((field + seq!['=']).len() as int) =~= field + seq!['=']);
}

/// The names of the hosts that have logged, each once, in the order in which
/// the journal lists them.
pub fn discover_hosts(journal: &mut Journal) -> (found: Result<Vec<String>, JournalError>)
    requires
        old(journal).wf(),
    ensures
        final(journal).wf(),
        final(journal).records() == old(journal).records(),
        final(journal).matches() == old(journal).matches(),
        final(journal).position() == old(journal).position(),
        found matches Ok(names) && texts(names@) == listed_values(
            old(journal).records(),
            hostname_field(),
        ),
{
    proof {
        lemma_field_names();
    }
    match journal.get_unique_values("_HOSTNAME") {
        Ok(raw) => Ok(strip_field_values(&raw, "_HOSTNAME")),
        Err(e) => Err(e),
    }
}

/// The names of the units that have logged, each once, in the order in which
/// the journal lists them.
pub fn discover_units(journal: &mut Journal) -> (found: Result<Vec<String>, JournalError>)
    requires
        old(journal).wf(),
    ensures
        final(journal).wf(),
        final(journal).records() == old(journal).records(),
        final(journal).matches() == old(journal).matches(),
        final(journal).position() == old(journal).position(),
        found matches Ok(names) && texts(names@) == listed_values(
            old(journal).records(),
            unit_field(),
        ),
{
    proof {
        lemma_field_names();
    }
    match journal.get_unique_values("_SYSTEMD_UNIT") {
        Ok(raw) => Ok(strip_field_values(&raw, "_SYSTEMD_UNIT")),
        Err(e) => Err(e),
    }
}

/// The hosts and the units that have logged: two lists, each as the journal
/// lists it.
pub fn discover_hosts_and_units(journal: &mut Journal) -> (found: Result<
    (Vec<String>, Vec<String>),
    JournalError,
>)
    requires
        old(journal).wf(),
    ensures
        final(journal).wf(),
        final(journal).records() == old(journal).records(),
        final(journal).matches() == old(journal).matches(),
        final(journal).position() == old(journal).position(),
        found matches Ok(lists) && texts(lists.0@) == listed_values(
            old(journal).records(),
            hostname_field(),
        ) && texts(lists.1@) == listed_values(old(journal).records(), unit_field()),
{
    let hosts = match discover_hosts(journal) {
        Ok(names) => names,
        Err(e) => {
            return Err(e);
        },
    };
    let units = match discover_units(journal) {
        Ok(names) => names,
        Err(e) => {
            return Err(e);
        },
    };
    Ok((hosts, units))
}

/// Whether some entry was logged by the unit on the host: one probe of the
/// journal, with a match on each of the two and one step from the head.
/// Fails with `InvalidArgument` where one of the names holds a NUL.
pub fn probe(journal: &mut Journal, hostname: &str, unit: &str) -> (found: Result<
    bool,
    JournalError,
>)
    requires
        old(journal).wf(),
    ensures
        final(journal).wf(),
        final(journal).records() == old(journal).records(),
        found is Ok <==> !hostname@.contains('\0') && !unit@.contains('\0'),
        found is Err ==> found == Err::<bool, JournalError>(JournalError::InvalidArgument),
        found matches Ok(seen) ==> seen == co_occur(old(journal).records(), hostname@, unit@),
{
    let ghost recs = journal.records();
    proof {
        lemma_field_names();
    }
    journal.flush_matches();
    match journal.add_match("_HOSTNAME", hostname) {
        Err(e) => {
            return Err(e);
        },
        Ok(()) => {},
    }
    match journal.add_match("_SYSTEMD_UNIT", unit) {
        Err(e) => {
            return Err(e);
        },
        Ok(()) => {},
    }
    match journal.seek_head() {
        Err(e) => {
            return Err(e);
        },
        Ok(()) => {},
    }
    let ghost matches = seq![raw_item(hostname_field(), hostname@), raw_item(unit_field(), unit@)];
    assert(journal.matches() =~= matches);
    let seen = match journal.next() {
        Ok(moved) => moved,
        Err(e) => {
            return Err(e);
        },
    };
    proof {
        if seen {
            let k = match journal.position() {
                Position::At(k) => k as int,
                _ => 0,
            };
            assert(is_next(recs, matches, Position::Head, k));
            lemma_probe(recs[k].items, hostname@, unit@);
            assert(logs_pair(recs, hostname@, unit@, k));
        } else {
            assert forall|r: int| !logs_pair(recs, hostname@, unit@, r) by {
                if 0 <= r < recs.len() {
                    lemma_probe(recs[r].items, hostname@, unit@);
                    assert(!eligible(recs, matches, Position::Head, r));
                }
            }
        }
    }
    Ok(seen)
}

/// The units of a list that have logged on a host, in the order of the list.
fn units_on_host(journal: &mut Journal, hostname: &String, units: &Vec<String>) -> (found: Result<
    Vec<String>,
    JournalError,
>)
    requires
        old(journal).wf(),
        units@.len() > 0,
        strictly_sorted(texts(units@)),
        forall|u: Seq<char>|
            texts(units@).contains(u) <==> logged_unit(old(journal).records(), u),
    ensures
        final(journal).wf(),
        final(journal).records() == old(journal).records(),
        found is Ok <==> !hostname@.contains('\0') && forall|k: int|
            0 <= k < units@.len() ==> !(#[trigger] units@[k])@.contains('\0'),
        found is Err ==> found == Err::<Vec<String>, JournalError>(JournalError::InvalidArgument),
        found matches Ok(list) ==> units_of_host(
            HostView { hostname: hostname@, units: texts(list@) },
            old(journal).records(),
        ),
{
    let ghost recs = journal.records();
    let ghost all = texts(units@);
    let mut list: Vec<String> = Vec::new();
    let mut k: usize = 0;
    while k < units.len()
        invariant
            k <= units.len(),
            journal.wf(),
            journal.records() == recs,
            recs == old(journal).records(),
            all == texts(units@),
            strictly_sorted(all),
            k > 0 ==> !hostname@.contains('\0'),
            forall|m: int| 0 <= m < k ==> !(#[trigger] units@[m])@.contains('\0'),
            strictly_sorted(texts(list@)),
            forall|x: Seq<char>| #[trigger]
                texts(list@).contains(x) <==> co_occur(recs, hostname@, x) && exists|m: int|
                    0 <= m < k && all[m] == x,
        decreases units.len() - k,
    {
        let seen = match probe(journal, hostname.as_str(), units[k].as_str()) {
            Ok(seen) => seen,
            Err(e) => {
                return Err(e);
            },
        };
        let ghost had = texts(list@);
        let ghost unit = all[k as int];
        if seen {
            list.push(units[k].clone());
            proof {
                let now = texts(list@);
                assert(now =~= had.push(unit));
                assert forall|i: int, j: int| 0 <= i < j < now.len() implies lex_lt(
                    now[i],
                    now[j],
                ) by {
                    if j == had.len() {
                        assert(had.contains(had[i]));
                        let m = choose|m: int| 0 <= m < k && all[m] == had[i];
                        assert(lex_lt(all[m], all[k as int]));
                    } else {
                        assert(lex_lt(had[i], had[j]));
                    }
                }
                assert forall|x: Seq<char>| #[trigger]
                    now.contains(x) <==> co_occur(recs, hostname@, x) && exists|m: int|
                        0 <= m < k + 1 && all[m] == x by {
                    if now.contains(x) {
                        let i = choose|i: int| 0 <= i < now.len() && now[i] == x;
                        if i < had.len() {
                            assert(had[i] == x);
                            assert(had.contains(x));
                            let m = choose|m: int| 0 <= m < k && all[m] == x;
                            assert(0 <= m < k + 1 && all[m] == x);
                        } else {
                            assert(all[k as int] == x);
                        }
                    }
                    if co_occur(recs, hostname@, x) && exists|m: int|
                        0 <= m < k + 1 && all[m] == x {
                        let m = choose|m: int| 0 <= m < k + 1 && all[m] == x;
                        if m < k {
                            assert(had.contains(x));
                            let i = choose|i: int| 0 <= i < had.len() && had[i] == x;
                            assert(now[i] == x);
                        } else {
                            assert(now[had.len() as int] == x);
                        }
                    }
                }
            }
        } else {
            proof {
                assert forall|x: Seq<char>| #[trigger]
                    had.contains(x) <==> co_occur(recs, hostname@, x) && exists|m: int|
                        0 <= m < k + 1 && all[m] == x by {
                    if had.contains(x) {
                        let m = choose|m: int| 0 <= m < k && all[m] == x;
                        assert(0 <= m < k + 1 && all[m] == x);
                    }
                    if co_occur(recs, hostname@, x) && exists|m: int|
                        0 <= m < k + 1 && all[m] == x {
                        let m = choose|m: int| 0 <= m < k + 1 && all[m] == x;
                        assert(m < k);
                    }
                }
            }
        }
        k += 1;
    }
    proof {
        assert forall|u: Seq<char>| #[trigger]
            texts(list@).contains(u) <==> co_occur(recs, hostname@, u) by {
            if co_occur(recs, hostname@, u) {
                let r = choose|r: int| logs_pair(recs, hostname@, u, r);
                assert(recs[r].items.contains(raw_item(unit_field(), u)));
                assert(logged_unit(recs, u));
                assert(all.contains(u));
                let m = choose|m: int| 0 <= m < all.len() && all[m] == u;
                assert(0 <= m < k && all[m] == u);
            }
        }
    }
    Ok(list)
}

/// The hosts that have logged to a journal, each with the units that have
/// logged on it. The journal lists a field's values whatever matches are
/// attached, so each host is probed with each unit: one seek and one step
/// for each of the hosts times units pairs, which is the cost of discovery.
/// The hosts come in the order of their names, and so do the units of each.
/// Fails with `InvalidArgument` where a probe cannot be made: a host and a
/// unit have logged, and the name of one holds a NUL.
pub fn discover_services(journal: &mut Journal) -> (found: Result<Hosts, JournalError>)
    requires
        old(journal).wf(),
    ensures
        final(journal).wf(),
        final(journal).records() == old(journal).records(),
        found is Ok <==> !probe_fails(old(journal).records()),
        found is Err ==> found == Err::<Hosts, JournalError>(JournalError::InvalidArgument),
        found matches Ok(hosts) ==> is_discovery(hosts@, old(journal).records()),
{
    let ghost recs = journal.records();
    let (listed_hosts, listed_units) = match discover_hosts_and_units(journal) {
        Ok(lists) => lists,
        Err(e) => {
            return Err(e);
        },
    };
    let names = sorted_unique(&listed_hosts);
    let units = sorted_unique(&listed_units);
    let ghost all_names = texts(names@);
    let ghost all_units = texts(units@);
    proof {
        assert forall|h: Seq<char>| all_names.contains(h) <==> logged_host(recs, h) by {
            lemma_listed_values(recs, hostname_field(), h);
        }
        assert forall|u: Seq<char>| all_units.contains(u) <==> logged_unit(recs, u) by {
            lemma_listed_values(recs, unit_field(), u);
        }
    }
    let mut hosts: Vec<Host> = Vec::new();
    let mut i: usize = 0;
    while i < names.len()
        invariant
            i <= names.len(),
            journal.wf(),
            journal.records() == recs,
            recs == old(journal).records(),
            all_names == texts(names@),
            all_units == texts(units@),
            strictly_sorted(all_names),
            strictly_sorted(all_units),
            forall|h: Seq<char>| all_names.contains(h) <==> logged_host(recs, h),
            forall|u: Seq<char>| all_units.contains(u) <==> logged_unit(recs, u),
            hosts@.len() == i,
            forall|a: int| 0 <= a < i ==> (#[trigger] hosts@[a])@.hostname == all_names[a],
            forall|a: int| 0 <= a < i ==> units_of_host((#[trigger] hosts@[a])@, recs),
            units@.len() > 0 ==> forall|a: int| 0 <= a < i ==> !(#[trigger] all_names[a]).contains('\0'),
            units@.len() > 0 && i > 0 ==> forall|k: int|
                0 <= k < units@.len() ==> !(#[trigger] all_units[k]).contains('\0'),
        decreases names.len() - i,
    {
        let list = if units.len() == 0 {
            let list: Vec<String> = Vec::new();
            proof {
                assert forall|u: Seq<char>| !co_occur(recs, all_names[i as int], u) by {
                    if co_occur(recs, all_names[i as int], u) {
                        let r = choose|r: int| logs_pair(recs, all_names[i as int], u, r);
                        assert(recs[r].items.contains(raw_item(unit_field(), u)));
                        assert(logged_unit(recs, u));
                        assert(all_units.contains(u));
                    }
                }
                assert(texts(list@) =~= Seq::<Seq<char>>::empty());
                assert(units_of_host(
                    HostView { hostname: all_names[i as int], units: texts(list@) },
                    recs,
                ));
            }
            list
        } else {
            match units_on_host(journal, &names[i], &units) {
                Ok(list) => {
                    assert(units_of_host(
                        HostView { hostname: all_names[i as int], units: texts(list@) },
                        recs,
                    ));
                    list
                },
                Err(e) => {
                    proof {
                        assert(all_names.contains(all_names[i as int]));
                        if names@[i as int]@.contains('\0') {
                            assert(all_units.contains(all_units[0]));
                            assert(unprobeable(recs, all_names[i as int], all_units[0]));
                        } else {
                            let k = choose|k: int|
                                0 <= k < units@.len() && (#[trigger] units@[k])@.contains('\0');
                            assert(all_units.contains(all_units[k]));
                            assert(unprobeable(recs, all_names[i as int], all_units[k]));
                        }
                    }
                    return Err(e);
                },
            }
        };
        let host = Host { hostname: names[i].clone(), units: list };
        assert(units_of_host(host@, recs));
        assert(units@.len() > 0 ==> forall|k: int|
            0 <= k < units@.len() ==> !(#[trigger] all_units[k]).contains('\0')) by {
            if units@.len() > 0 {
                assert forall|k: int| 0 <= k < units@.len() implies !(
                #[trigger] all_units[k]).contains('\0') by {
                    assert(!(units@[k])@.contains('\0'));
                }
            }
        }
        hosts.push(host);
        i += 1;
    }
    let found = Hosts { hosts };
    proof {
        assert(host_names(found@) =~= all_names);
        assert forall|k: int| 0 <= k < found@.len() implies units_of_host(
            #[trigger] found@[k],
            recs,
        ) by {
            assert(units_of_host(found.hosts@[k]@, recs));
        }
        assert(!probe_fails(recs)) by {
            if probe_fails(recs) {
                let (h, u) = choose|h: Seq<char>, u: Seq<char>| unprobeable(recs, h, u);
                assert(all_names.contains(h));
                assert(all_units.contains(u));
                let a = choose|a: int| 0 <= a < all_names.len() && all_names[a] == h;
                let k = choose|k: int| 0 <= k < all_units.len() && all_units[k] == u;
                assert(!all_names[a].contains('\0'));
                assert(!all_units[k].contains('\0'));
            }
        }
    }
    Ok(found)
}

/// Record `r` gives `h` as its host.
pub open spec fn names_host(recs: Seq<RecordView>, h: Seq<char>, r: int) -> bool {
    0 <= r < recs.len() && field_text(recs[r].items, hostname_field()) == Some(h)
}

/// Record `r` gives `h` as its host and `u` as its unit.
pub open spec fn names_pair(recs: Seq<RecordView>, h: Seq<char>, u: Seq<char>, r: int) -> bool {
    names_host(recs, h, r) && field_text(recs[r].items, unit_field()) == Some(u)
}

/// Some record gives `h` as its host.
pub open spec fn scanned_host(recs: Seq<RecordView>, h: Seq<char>) -> bool {
    exists|r: int| names_host(recs, h, r)
}

/// Some record gives `h` as its host and `u` as its unit.
pub open spec fn scanned_pair(recs: Seq<RecordView>, h: Seq<char>, u: Seq<char>) -> bool {
    exists|r: int| names_pair(recs, h, u, r)
}

/// The units of one host are in order, each once, and they are the units
/// that some record gives together with that host.
pub open spec fn scanned_units(host: HostView, recs: Seq<RecordView>) -> bool {
    &&& strictly_sorted(host.units)
    &&& forall|u: Seq<char>| #[trigger]
        host.units.contains(u) <==> scanned_pair(recs, host.hostname, u)
}

/// The hosts are what one pass over the records finds: every host that a
/// record gives, each once and in the order of their names; with each host
/// the units that a record gives together with it, each once and in the
/// order of their names.
pub open spec fn is_scan(hosts: Seq<HostView>, recs: Seq<RecordView>) -> bool {
    &&& strictly_sorted(host_names(hosts))
    &&& forall|h: Seq<char>| #[trigger] host_names(hosts).contains(h) <==> scanned_host(recs, h)
    &&& forall|i: int| 0 <= i < hosts.len() ==> scanned_units(#[trigger] hosts[i], recs)
}

/// The hosts of a list, as they are in contracts.
pub open spec fn host_views(hosts: Seq<Host>) -> Seq<HostView> {
    Seq::new(hosts.len(), |i: int| hosts[i]@)
}

/// The place of a host in a list in the order of names: the index of the
/// host of that name, or where a new host of that name belongs.
fn host_slot(hosts: &Vec<Host>, name: &String) -> (at: usize)
    ensures
        at <= hosts@.len(),
        forall|k: int| 0 <= k < at ==> lex_lt(host_names(host_views(hosts@))[k], name@),
        at < hosts@.len() ==> !lex_lt(host_names(host_views(hosts@))[at as int], name@),
{
    let mut i: usize = 0;
    while i < hosts.len()
        invariant
            i <= hosts.len(),
            forall|k: int| 0 <= k < i ==> lex_lt(host_names(host_views(hosts@))[k], name@),
        decreases hosts.len() - i,
    {
        if !precedes(hosts[i].hostname.as_str(), name.as_str()) {
            return i;
        }
        i += 1;
    }
    i
}

/// Makes sure that a list in the order of names holds a host of the given
/// name, and tells where. A host that is new has no unit yet.
fn upsert_host(hosts: &mut Vec<Host>, name: String) -> (at: usize)
    requires
        strictly_sorted(host_names(host_views(old(hosts)@))),
    ensures
        at <= old(hosts)@.len(),
        at < final(hosts)@.len(),
        host_views(final(hosts)@)[at as int].hostname == name@,
        strictly_sorted(host_names(host_views(final(hosts)@))),
        host_names(host_views(old(hosts)@)).contains(name@) ==> host_views(final(hosts)@)
            == host_views(old(hosts)@),
        !host_names(host_views(old(hosts)@)).contains(name@) ==> host_views(final(hosts)@)
            == host_views(old(hosts)@).insert(
            at as int,
            HostView { hostname: name@, units: Seq::empty() },
        ),
{
    let at = host_slot(hosts, &name);
    let ghost before = host_views(hosts@);
    let ghost names = host_names(before);
    let ghost text = name@;
    if at < hosts.len() && hosts[at].hostname == name {
        assert(names[at as int] == text);
        return at;
    }
    proof {
        if names.contains(text) {
            let k = choose|k: int| 0 <= k < names.len() && names[k] == text;
            if k < at {
                lemma_lex_irreflexive(text);
            } else if k > at {
                assert(lex_lt(names[at as int], names[k]));
            }
        }
        if at < names.len() {
            lemma_lex_total(names[at as int], text);
        }
    }
    hosts.insert(at, Host { hostname: name, units: Vec::new() });
    proof {
        let after = host_views(hosts@);
        let fresh = HostView { hostname: text, units: Seq::<Seq<char>>::empty() };
        assert(texts(Seq::<String>::empty()) =~= Seq::<Seq<char>>::empty());
        assert(after =~= before.insert(at as int, fresh));
        let now = host_names(after);
        assert(now =~= names.insert(at as int, text));
        assert forall|i: int, j: int| 0 <= i < j < now.len() implies lex_lt(now[i], now[j]) by {
            if j < at {
            } else if j == at {
            } else if i == at {
                if j - 1 > at {
                    assert(lex_lt(names[at as int], names[j - 1]));
                    lemma_lex_transitive(text, names[at as int], names[j - 1]);
                }
            } else if i < at {
                assert(lex_lt(names[i], names[j - 1]));
            } else {
                assert(lex_lt(names[i - 1], names[j - 1]));
            }
        }
    }
    at
}

/// Adds a unit to the host at a place of the list, unless the host has it.
fn add_unit(hosts: &mut Vec<Host>, at: usize, unit: String)
    requires
        at < old(hosts)@.len(),
        strictly_sorted(host_views(old(hosts)@)[at as int].units),
    ensures
        final(hosts)@.len() == old(hosts)@.len(),
        forall|i: int|
            0 <= i < old(hosts)@.len() && i != at ==> host_views(final(hosts)@)[i] == host_views(
                old(hosts)@,
            )[i],
        host_views(final(hosts)@)[at as int].hostname == host_views(old(hosts)@)[at as int].hostname,
        strictly_sorted(host_views(final(hosts)@)[at as int].units),
        forall|u: Seq<char>|
            host_views(final(hosts)@)[at as int].units.contains(u) <==> host_views(
                old(hosts)@,
            )[at as int].units.contains(u) || u == unit@,
{
    let ghost before = host_views(hosts@);
    let mut host = hosts.remove(at);
    assert(host@ == before[at as int]);
    insert_sorted(&mut host.units, unit);
    let ghost changed = host@;
    hosts.insert(at, host);
    proof {
        let after = host_views(hosts@);
        assert(after[at as int] == changed);
        assert forall|i: int| 0 <= i < before.len() && i != at implies after[i] == before[i] by {
            if i < at {
                assert(hosts@[i] == old(hosts)@[i]);
            } else {
                assert(hosts@[i] == old(hosts)@[i]);
            }
        }
    }
}

/// A record that gives no host leaves what a pass has found as it is.
proof fn lemma_scan_skip(b: Seq<HostView>, recs: Seq<RecordView>, rec: RecordView)
    requires
        is_scan(b, recs),
        field_text(rec.items, hostname_field()) is None,
    ensures
        is_scan(b, recs.push(rec)),
{
    let grown = recs.push(rec);
    assert forall|h: Seq<char>, r: int| names_host(grown, h, r) <==> names_host(recs, h, r) by {
        if 0 <= r < recs.len() {
            assert(grown[r] == recs[r]);
        }
    }
    assert forall|h: Seq<char>| #[trigger] host_names(b).contains(h) <==> scanned_host(grown, h) by {
        assert(host_names(b).contains(h) <==> scanned_host(recs, h));
        if scanned_host(grown, h) {
            let r = choose|r: int| names_host(grown, h, r);
            assert(names_host(recs, h, r));
        }
        if scanned_host(recs, h) {
            let r = choose|r: int| names_host(recs, h, r);
            assert(names_host(grown, h, r));
        }
    }
    assert forall|i: int| 0 <= i < b.len() implies scanned_units(#[trigger] b[i], grown) by {
        assert(scanned_units(b[i], recs));
        assert forall|u: Seq<char>| #[trigger]
            b[i].units.contains(u) <==> scanned_pair(grown, b[i].hostname, u) by {
            assert(b[i].units.contains(u) <==> scanned_pair(recs, b[i].hostname, u));
            if scanned_pair(grown, b[i].hostname, u) {
                let r = choose|r: int| names_pair(grown, b[i].hostname, u, r);
                assert(names_host(recs, b[i].hostname, r));
                assert(grown[r] == recs[r]);
                assert(names_pair(recs, b[i].hostname, u, r));
            }
            if scanned_pair(recs, b[i].hostname, u) {
                let r = choose|r: int| names_pair(recs, b[i].hostname, u, r);
                assert(grown[r] == recs[r]);
                assert(names_pair(grown, b[i].hostname, u, r));
            }
        }
    }
}

/// A record that gives a host adds that host, and its unit to that host, to
/// what a pass has found.
proof fn lemma_scan_step(
    b: Seq<HostView>,
    m: Seq<HostView>,
    a: Seq<HostView>,
    recs: Seq<RecordView>,
    rec: RecordView,
    at: int,
    h: Seq<char>,
)
    requires
        is_scan(b, recs),
        field_text(rec.items, hostname_field()) == Some(h),
        0 <= at < m.len(),
        at <= b.len(),
        m[at].hostname == h,
        strictly_sorted(host_names(m)),
        host_names(b).contains(h) ==> m == b,
        !host_names(b).contains(h) ==> m == b.insert(
            at,
            HostView { hostname: h, units: Seq::empty() },
        ),
        a.len() == m.len(),
        forall|i: int| 0 <= i < m.len() && i != at ==> a[i] == m[i],
        a[at].hostname == h,
        strictly_sorted(a[at].units),
        forall|u: Seq<char>|
            a[at].units.contains(u) <==> m[at].units.contains(u) || field_text(
                rec.items,
                unit_field(),
            ) == Some(u),
    ensures
        is_scan(a, recs.push(rec)),
{
    let grown = recs.push(rec);
    let n = recs.len() as int;
    assert(grown[n] == rec);
    assert forall|x: Seq<char>, r: int|
        names_host(grown, x, r) <==> names_host(recs, x, r) || (r == n && x == h) by {
        if 0 <= r < n {
            assert(grown[r] == recs[r]);
        }
    }
    assert forall|x: Seq<char>, u: Seq<char>, r: int|
        names_pair(grown, x, u, r) <==> names_pair(recs, x, u, r) || (r == n && x == h
            && field_text(rec.items, unit_field()) == Some(u)) by {
        if 0 <= r < n {
            assert(grown[r] == recs[r]);
        }
    }
    assert(host_names(a) =~= host_names(m));
    // the hosts
    assert forall|x: Seq<char>| #[trigger] host_names(a).contains(x) <==> scanned_host(grown, x) by {
        assert(host_names(b).contains(x) <==> scanned_host(recs, x));
        if host_names(m).contains(x) {
            let k = choose|k: int| 0 <= k < m.len() && host_names(m)[k] == x;
            if x != h {
                if host_names(b).contains(h) {
                    assert(host_names(b)[k] == x);
                } else if k < at {
                    assert(host_names(b)[k] == x);
                } else {
                    assert(host_names(b)[k - 1] == x);
                }
                let r = choose|r: int| names_host(recs, x, r);
                assert(names_host(grown, x, r));
            } else {
                assert(names_host(grown, x, n));
            }
        }
        if scanned_host(grown, x) {
            let r = choose|r: int| names_host(grown, x, r);
            if x == h {
                assert(host_names(m)[at] == x);
            } else {
                assert(names_host(recs, x, r));
                assert(host_names(b).contains(x));
                let k = choose|k: int| 0 <= k < b.len() && host_names(b)[k] == x;
                if host_names(b).contains(h) {
                    assert(host_names(m)[k] == x);
                } else if k < at {
                    assert(host_names(m)[k] == x);
                } else {
                    assert(host_names(m)[k + 1] == x);
                }
            }
        }
    }
    // the units of the host that the record gives
    assert forall|u: Seq<char>| #[trigger] m[at].units.contains(u) <==> scanned_pair(recs, h, u) by {
        if host_names(b).contains(h) {
            assert(scanned_units(b[at], recs));
        } else {
            assert(m[at].units =~= Seq::<Seq<char>>::empty());
            if scanned_pair(recs, h, u) {
                let r = choose|r: int| names_pair(recs, h, u, r);
                assert(names_host(recs, h, r));
                assert(scanned_host(recs, h));
            }
        }
    }
    assert forall|i: int| 0 <= i < a.len() implies scanned_units(#[trigger] a[i], grown) by {
        if i == at {
            assert forall|u: Seq<char>| #[trigger]
                a[at].units.contains(u) <==> scanned_pair(grown, h, u) by {
                assert(m[at].units.contains(u) <==> scanned_pair(recs, h, u));
                if scanned_pair(recs, h, u) {
                    let r = choose|r: int| names_pair(recs, h, u, r);
                    assert(names_pair(grown, h, u, r));
                }
                if field_text(rec.items, unit_field()) == Some(u) {
                    assert(names_pair(grown, h, u, n));
                }
                if scanned_pair(grown, h, u) {
                    let r = choose|r: int| names_pair(grown, h, u, r);
                    if r != n {
                        assert(names_pair(recs, h, u, r));
                    }
                }
            }
        } else {
            let k = if host_names(b).contains(h) || i < at {
                i
            } else {
                i - 1
            };
            assert(a[i] == b[k]);
            assert(scanned_units(b[k], recs));
            let name = a[i].hostname;
            assert(name != h) by {
                assert(host_names(m)[i] == name);
                assert(host_names(m)[at] == h);
                if i < at {
                    assert(lex_lt(host_names(m)[i], host_names(m)[at]));
                } else {
                    assert(lex_lt(host_names(m)[at], host_names(m)[i]));
                }
                lemma_lex_irreflexive(h);
            }
            assert forall|u: Seq<char>| #[trigger]
                a[i].units.contains(u) <==> scanned_pair(grown, name, u) by {
                assert(b[k].units.contains(u) <==> scanned_pair(recs, name, u));
                if scanned_pair(recs, name, u) {
                    let r = choose|r: int| names_pair(recs, name, u, r);
                    assert(names_pair(grown, name, u, r));
                }
                if scanned_pair(grown, name, u) {
                    let r = choose|r: int| names_pair(grown, name, u, r);
                    assert(names_pair(recs, name, u, r));
                }
            }
        }
    }
}

/// The hosts that have logged to a journal, each with the units that have
/// logged on it, found in one pass over all entries: each entry gives its
/// host and its unit, as far as it carries them. It costs one step for each
/// entry, and is the way to take where all entries are read anyhow. The
/// hosts come in the order of their names, and so do the units of each.
pub fn discover_services_by_scan(journal: &mut Journal) -> (found: Result<Hosts, JournalError>)
    requires
        old(journal).wf(),
    ensures
        final(journal).wf(),
        final(journal).records() == old(journal).records(),
        found matches Ok(hosts) && is_scan(hosts@, old(journal).records()),
{
    let ghost recs = journal.records();
    proof {
        lemma_field_names();
    }
    journal.flush_matches();
    match journal.seek_head() {
        Err(e) => {
            return Err(e);
        },
        Ok(()) => {},
    }
    let mut hosts: Vec<Host> = Vec::new();
    let ghost mut done: int = 0;
    proof {
        assert(recs.take(0) =~= Seq::<RecordView>::empty());
        assert(host_views(hosts@) =~= Seq::<HostView>::empty());
        assert(host_names(host_views(hosts@)) =~= Seq::<Seq<char>>::empty());
        assert forall|h: Seq<char>| !scanned_host(recs.take(0), h) by {
            if scanned_host(recs.take(0), h) {
                let r = choose|r: int| names_host(recs.take(0), h, r);
            }
        }
    }
    loop
        invariant
            journal.wf(),
            journal.records() == recs,
            recs == old(journal).records(),
            journal.matches() == Seq::<Seq<char>>::empty(),
            0 <= done <= recs.len(),
            match journal.position() {
                Position::Head => done == 0,
                Position::At(p) => done == p + 1,
                Position::Time(_) => false,
            },
            is_scan(host_views(hosts@), recs.take(done)),
            !hostname_field().contains('\0'),
            !unit_field().contains('\0'),
        decreases recs.len() - done,
    {
        let ghost before = journal.position();
        let moved = match journal.next() {
            Ok(moved) => moved,
            Err(e) => {
                return Err(e);
            },
        };
        proof {
            if done < recs.len() {
                assert(satisfies(recs[done].items, Seq::<Seq<char>>::empty()));
                assert(eligible(recs, Seq::<Seq<char>>::empty(), before, done));
            }
        }
        if !moved {
            let found = Hosts { hosts };
            proof {
                assert(recs.take(done) =~= recs);
                assert(found@ =~= host_views(found.hosts@));
            }
            return Ok(found);
        }
        proof {
            let k = match journal.position() {
                Position::At(k) => k as int,
                _ => 0,
            };
            assert(is_next(recs, Seq::<Seq<char>>::empty(), before, k));
            assert(k == done);
        }
        let hostname = match read_field(journal, "_HOSTNAME") {
            Ok(value) => value,
            Err(e) => {
                return Err(e);
            },
        };
        let unit = match read_field(journal, "_SYSTEMD_UNIT") {
            Ok(value) => value,
            Err(e) => {
                return Err(e);
            },
        };
        let ghost b = host_views(hosts@);
        let ghost rec = recs[done];
        proof {
            assert(recs.take(done + 1) =~= recs.take(done).push(rec));
        }
        match hostname {
            None => {
                proof {
                    lemma_scan_skip(b, recs.take(done), rec);
                }
            },
            Some(name) => {
                let ghost h = name@;
                let at = upsert_host(&mut hosts, name);
                let ghost m = host_views(hosts@);
                proof {
                    if host_names(b).contains(h) {
                        assert(scanned_units(b[at as int], recs.take(done)));
                    } else {
                        assert(m[at as int].units =~= Seq::<Seq<char>>::empty());
                    }
                    assert(strictly_sorted(m[at as int].units));
                }
                match unit {
                    Some(u) => {
                        add_unit(&mut hosts, at, u);
                    },
                    None => {},
                }
                proof {
                    lemma_scan_step(b, m, host_views(hosts@), recs.take(done), rec, at as int, h);
                }
            },
        }
        proof {
            done = done + 1;
        }
    }
}

/// No record carries the host field twice, nor the unit field.
pub open spec fn single_valued(recs: Seq<RecordView>) -> bool {
    forall|r: int, i: int, j: int|
        0 <= r < recs.len() && 0 <= i < j < recs[r].items.len() ==> !(carries(
            recs[r].items[i],
            hostname_field(),
        ) && carries(#[trigger] recs[r].items[j], hostname_field())) && !(carries(
            #[trigger] recs[r].items[i],
            unit_field(),
        ) && carries(recs[r].items[j], unit_field()))
}

/// An entry that carries a field once gives a value for it exactly if it
/// holds the raw item of the field and that value.
proof fn lemma_single_item(items: Seq<Seq<char>>, name: Seq<char>, v: Seq<char>)
    requires
        forall|i: int, j: int|
            0 <= i < j < items.len() ==> !(carries(#[trigger] items[i], name) && carries(
                #[trigger] items[j],
                name,
            )),
    ensures
        field_text(items, name) == Some(v) <==> items.contains(raw_item(name, v)),
{
    let raw = raw_item(name, v);
    let prefix = name + seq!['='];
    assert(raw.take(prefix.len() as int) =~= prefix);
    assert(raw.skip(prefix.len() as int) =~= v);
    if items.contains(raw) {
        let k = choose|k: int| 0 <= k < items.len() && items[k] == raw;
        assert(carries(items[k], name));
        assert forall|j: int| 0 <= j < k implies !carries(items[j], name) by {
            assert(!(carries(items[j], name) && carries(items[k], name)));
        }
        assert(first_carrier(items, name, k));
        lemma_field_item_at(items, name, k);
    }
    if field_text(items, name) == Some(v) {
        let k = choose|k: int| first_carrier(items, name, k);
        let item = items[k];
        assert(field_item(items, name) == Some(item));
        assert(item.take(prefix.len() as int) == prefix);
        assert(item =~= prefix + item.skip(prefix.len() as int));
        assert(item == raw);
    }
}

/// Where no record carries the host field or the unit field twice, one pass
/// over the records and the probing of every host with every unit find the
/// same: the two ways of discovery can stand for each other.
pub proof fn lemma_scan_is_discovery(hosts: Seq<HostView>, recs: Seq<RecordView>)
    requires
        single_valued(recs),
    ensures
        is_scan(hosts, recs) <==> is_discovery(hosts, recs),
{
    assert forall|h: Seq<char>, r: int| 0 <= r < recs.len() implies (field_text(
        recs[r].items,
        hostname_field(),
    ) == Some(h) <==> recs[r].items.contains(raw_item(hostname_field(), h))) by {
        lemma_single_item(recs[r].items, hostname_field(), h);
    }
    assert forall|u: Seq<char>, r: int| 0 <= r < recs.len() implies (field_text(
        recs[r].items,
        unit_field(),
    ) == Some(u) <==> recs[r].items.contains(raw_item(unit_field(), u))) by {
        lemma_single_item(recs[r].items, unit_field(), u);
    }
    assert forall|h: Seq<char>| scanned_host(recs, h) <==> logged_host(recs, h) by {
        let x = raw_item(hostname_field(), h);
        if scanned_host(recs, h) {
            let r = choose|r: int| names_host(recs, h, r);
            assert(recs[r].items.contains(x));
        }
        if logged_host(recs, h) {
            let r = choose|r: int| 0 <= r < recs.len() && #[trigger] recs[r].items.contains(x);
            assert(names_host(recs, h, r));
        }
    }
    assert forall|h: Seq<char>, u: Seq<char>| scanned_pair(recs, h, u) <==> co_occur(
        recs,
        h,
        u,
    ) by {
        if scanned_pair(recs, h, u) {
            let r = choose|r: int| names_pair(recs, h, u, r);
            assert(logs_pair(recs, h, u, r));
        }
        if co_occur(recs, h, u) {
            let r = choose|r: int| logs_pair(recs, h, u, r);
            assert(names_pair(recs, h, u, r));
        }
    }
    if is_scan(hosts, recs) {
        assert forall|i: int| 0 <= i < hosts.len() implies units_of_host(
            #[trigger] hosts[i],
            recs,
        ) by {
            assert(scanned_units(hosts[i], recs));
        }
    }
    if is_discovery(hosts, recs) {
        assert forall|i: int| 0 <= i < hosts.len() implies scanned_units(
            #[trigger] hosts[i],
            recs,
        ) by {
            assert(units_of_host(hosts[i], recs));
        }
    }
}

} // verus!
