//! Bounded queries: the entries of a time range that pass a host, a unit and
//! a message filter, in the order of the journal.
use crate::error::JournalError;
use crate::journal::{
    carries, eligible, field_item, is_next, satisfies, sorted_by_time, Journal, Position,
    RecordView,
};
use crate::text::{contains, match_string, occurs_in, raw_item, strip_prefix, IntoText};
use vstd::prelude::*;
use vstd::string::*;

verus! {

/// A filter and a time range for journal entries.
#[derive(Debug, Clone, PartialEq)]
pub struct Query {
    /// The host whose entries are wanted (`_HOSTNAME`), if any one.
    pub hostname: Option<String>,
    /// The unit whose entries are wanted (`_SYSTEMD_UNIT`), if any one.
    pub unit: Option<String>,
    /// The start of the range, inclusive, in microseconds since the Unix epoch.
    pub start_time_utc: u64,
    /// The end of the range, inclusive, in microseconds since the Unix epoch.
    pub end_time_utc: u64,
    /// The text that the message must hold (`MESSAGE`), if any.
    pub message_contains: Option<String>,
}

/// What a query is in contracts.
pub struct QueryView {
    pub hostname: Option<Seq<char>>,
    pub unit: Option<Seq<char>>,
    pub start_time_utc: u64,
    pub end_time_utc: u64,
    pub message_contains: Option<Seq<char>>,
}

/// One journal entry as a query returns it.
#[derive(Debug, Clone, PartialEq)]
pub struct Entry {
    /// The host that logged the entry, if it says so.
    pub hostname: Option<String>,
    /// The unit that logged the entry, if it says so.
    pub unit: Option<String>,
    /// The time of the entry in microseconds since the Unix epoch.
    pub timestamp_utc: u64,
    /// The log message.
    pub message: String,
}

/// What an entry is in contracts.
pub struct EntryView {
    pub hostname: Option<Seq<char>>,
    pub unit: Option<Seq<char>>,
    pub timestamp_utc: u64,
    pub message: Seq<char>,
}

/// The text of an optional string.
pub open spec fn text_of(s: Option<String>) -> Option<Seq<char>> {
    match s {
        Some(t) => Some(t@),
        None => None,
    }
}

impl View for Query {
    type V = QueryView;

    open spec fn view(&self) -> QueryView {
        QueryView {
            hostname: text_of(self.hostname),
            unit: text_of(self.unit),
            start_time_utc: self.start_time_utc,
            end_time_utc: self.end_time_utc,
            message_contains: text_of(self.message_contains),
        }
    }
}

impl View for Entry {
    type V = EntryView;

    open spec fn view(&self) -> EntryView {
        EntryView {
            hostname: text_of(self.hostname),
            unit: text_of(self.unit),
            timestamp_utc: self.timestamp_utc,
            message: self.message@,
        }
    }
}

/// The entries that a list holds, as they are in contracts.
pub open spec fn entry_views(entries: Seq<Entry>) -> Seq<EntryView> {
    Seq::new(entries.len(), |i: int| entries[i]@)
}

/// The name of the field that holds the host.
pub open spec fn hostname_field() -> Seq<char> {
    "_HOSTNAME"@
}

/// The name of the field that holds the unit.
pub open spec fn unit_field() -> Seq<char> {
    "_SYSTEMD_UNIT"@
}

/// The name of the field that holds the message.
pub open spec fn message_field() -> Seq<char> {
    "MESSAGE"@
}

/// The message of an entry that carries none.
pub open spec fn no_message() -> Seq<char> {
    "(no message)"@
}

/// The value that an entry gives for a field: its first raw item
/// `name=value` without the `name=`.
pub open spec fn field_text(items: Seq<Seq<char>>, name: Seq<char>) -> Option<Seq<char>> {
    match field_item(items, name) {
        Some(raw) => Some(raw.skip(name.len() as int + 1)),
        None => None,
    }
}

/// The entry that a query returns for a record.
pub open spec fn entry_of(rec: RecordView) -> EntryView {
    EntryView {
        hostname: field_text(rec.items, hostname_field()),
        unit: field_text(rec.items, unit_field()),
        timestamp_utc: rec.timestamp,
        message: match field_text(rec.items, message_field()) {
            Some(m) => m,
            None => no_message(),
        },
    }
}

/// The matches that a query attaches: one on the host and one on the unit,
/// as far as it names them.
pub open spec fn query_matches(q: QueryView) -> Seq<Seq<char>> {
    (match q.hostname {
        Some(h) => seq![raw_item(hostname_field(), h)],
        None => Seq::<Seq<char>>::empty(),
    }) + (match q.unit {
        Some(u) => seq![raw_item(unit_field(), u)],
        None => Seq::<Seq<char>>::empty(),
    })
}

/// A query can be run: neither its host nor its unit holds a NUL.
pub open spec fn runnable(q: QueryView) -> bool {
    &&& (q.hostname matches Some(h) ==> !h.contains('\0'))
    &&& (q.unit matches Some(u) ==> !u.contains('\0'))
}

/// A record is in the result of a query: its time is in the range, it passes
/// the matches, and its message holds the wanted text.
pub open spec fn selected(rec: RecordView, q: QueryView) -> bool {
    &&& q.start_time_utc <= rec.timestamp <= q.end_time_utc
    &&& satisfies(rec.items, query_matches(q))
    &&& (q.message_contains matches Some(pat) ==> occurs_in(entry_of(rec).message, pat))
}

/// The result of a query over the records of a journal: the entries of the
/// selected records, in the order of the journal.
pub open spec fn query_result(recs: Seq<RecordView>, q: QueryView) -> Seq<EntryView>
    decreases recs.len(),
{
    if recs.len() == 0 {
        Seq::empty()
    } else {
        let front = query_result(recs.drop_last(), q);
        if selected(recs.last(), q) {
            front.push(entry_of(recs.last()))
        } else {
            front
        }
    }
}

/// Each entry of a result comes from a selected record, and they come in the
/// order of their records.
pub proof fn lemma_result_sources(recs: Seq<RecordView>, q: QueryView)
    ensures
        exists|src: Seq<int>|
            #![trigger src.len()]
            {
                &&& src.len() == query_result(recs, q).len()
                &&& forall|k: int|
                    0 <= k < src.len() ==> 0 <= #[trigger] src[k] < recs.len() && selected(
                        recs[src[k]],
                        q,
                    ) && query_result(recs, q)[k] == entry_of(recs[src[k]])
                &&& forall|k: int, m: int| 0 <= k < m < src.len() ==> src[k] < src[m]
            },
    decreases recs.len(),
{
    if recs.len() == 0 {
        let src = Seq::<int>::empty();
        assert(src.len() == query_result(recs, q).len());
    } else {
        let front = recs.drop_last();
        lemma_result_sources(front, q);
        let src0 = choose|src: Seq<int>|
            #![trigger src.len()]
            {
                &&& src.len() == query_result(front, q).len()
                &&& forall|k: int|
                    0 <= k < src.len() ==> 0 <= #[trigger] src[k] < front.len() && selected(
                        front[src[k]],
                        q,
                    ) && query_result(front, q)[k] == entry_of(front[src[k]])
                &&& forall|k: int, m: int| 0 <= k < m < src.len() ==> src[k] < src[m]
            };
        let src = if selected(recs.last(), q) {
            src0.push(recs.len() - 1)
        } else {
            src0
        };
        assert(src.len() == query_result(recs, q).len());
        assert forall|k: int| 0 <= k < src.len() implies 0 <= #[trigger] src[k] < recs.len()
            && selected(recs[src[k]], q) && query_result(recs, q)[k] == entry_of(
            recs[src[k]],
        ) by {
            if k < src0.len() {
                assert(front[src0[k]] == recs[src0[k]]);
            }
        }
    }
}

/// Every entry of a result has its time in the range of the query.
pub proof fn lemma_result_in_range(recs: Seq<RecordView>, q: QueryView)
    ensures
        forall|k: int|
            0 <= k < query_result(recs, q).len() ==> q.start_time_utc <= (#[trigger] query_result(
                recs,
                q,
            )[k]).timestamp_utc <= q.end_time_utc,
    decreases recs.len(),
{
    if recs.len() > 0 {
        lemma_result_in_range(recs.drop_last(), q);
    }
}

/// A range that ends before it starts selects nothing.
pub proof fn lemma_inverted_range_is_empty(recs: Seq<RecordView>, q: QueryView)
    requires
        q.end_time_utc < q.start_time_utc,
    ensures
        query_result(recs, q) == Seq::<EntryView>::empty(),
    decreases recs.len(),
{
    if recs.len() > 0 {
        lemma_inverted_range_is_empty(recs.drop_last(), q);
    }
}

/// Over records in time order the times of a result never go down, and none
/// is later than the last record's.
pub proof fn lemma_result_in_time_order(recs: Seq<RecordView>, q: QueryView)
    requires
        sorted_by_time(recs),
    ensures
        forall|k: int, m: int|
            0 <= k <= m < query_result(recs, q).len() ==> query_result(recs, q)[k].timestamp_utc
                <= query_result(recs, q)[m].timestamp_utc,
        forall|k: int|
            0 <= k < query_result(recs, q).len() ==> (#[trigger] query_result(
                recs,
                q,
            )[k]).timestamp_utc <= recs.last().timestamp,
    decreases recs.len(),
{
    if recs.len() > 0 {
        let front = recs.drop_last();
        assert forall|i: int, j: int| 0 <= i <= j < front.len() implies front[i].timestamp
            <= front[j].timestamp by {
            assert(recs[i].timestamp <= recs[j].timestamp);
        }
        lemma_result_in_time_order(front, q);
        if front.len() > 0 {
            assert(recs[front.len() - 1].timestamp <= recs[recs.len() - 1].timestamp);
        }
    }
}

/// Records that are not selected add nothing to a result.
pub proof fn lemma_unselected_add_nothing(recs: Seq<RecordView>, q: QueryView, a: int, b: int)
    requires
        0 <= a <= b <= recs.len(),
        forall|k: int| a <= k < b ==> !selected(#[trigger] recs[k], q),
    ensures
        query_result(recs.take(b), q) == query_result(recs.take(a), q),
    decreases b - a,
{
    if a < b {
        lemma_unselected_add_nothing(recs, q, a, b - 1);
        assert(recs.take(b).drop_last() =~= recs.take(b - 1));
        assert(recs.take(b).last() == recs[b - 1]);
    }
}

/// The three field names hold neither a NUL nor an `=`, and differ.
pub proof fn lemma_field_names()
    ensures
        !hostname_field().contains('\0'),
        !unit_field().contains('\0'),
        !message_field().contains('\0'),
        !hostname_field().contains('='),
        !unit_field().contains('='),
        !message_field().contains('='),
        hostname_field() != unit_field(),
{
    reveal_strlit("_HOSTNAME");
    reveal_strlit("_SYSTEMD_UNIT");
    reveal_strlit("MESSAGE");
    assert(hostname_field().len() != unit_field().len());
}

impl Query {
    /// A query for every entry of a time range, both ends inclusive, in
    /// microseconds since the Unix epoch.
    pub fn new(start_time_utc: u64, end_time_utc: u64) -> (query: Query)
        ensures
            query@ == (QueryView {
                hostname: None,
                unit: None,
                start_time_utc,
                end_time_utc,
                message_contains: None,
            }),
    {
        Query { hostname: None, unit: None, start_time_utc, end_time_utc, message_contains: None }
    }

    /// The query narrowed to the entries of one host.
    pub fn hostname<S: IntoText>(self, hostname: S) -> (query: Query)
        ensures
            query@ == (QueryView { hostname: Some(hostname.text()), ..self@ }),
    {
        let mut query = self;
        query.hostname = Some(hostname.into_text());
        query
    }

    /// The query narrowed to the entries of one unit.
    pub fn unit<S: IntoText>(self, unit: S) -> (query: Query)
        ensures
            query@ == (QueryView { unit: Some(unit.text()), ..self@ }),
    {
        let mut query = self;
        query.unit = Some(unit.into_text());
        query
    }

    /// The query narrowed to the entries whose message holds a text.
    pub fn message_contains<S: IntoText>(self, message: S) -> (query: Query)
        ensures
            query@ == (QueryView { message_contains: Some(message.text()), ..self@ }),
    {
        let mut query = self;
        query.message_contains = Some(message.into_text());
        query
    }
}

/// The value that the current entry gives for a field: its raw item without
/// the `name=` that the journal puts before every value, or `None` where the
/// entry does not carry the field. Fails with `InvalidArgument` where the
/// name holds a NUL, and with `NotPositioned` where the cursor is not at an
/// entry.
pub fn read_field(journal: &Journal, name: &str) -> (got: Result<Option<String>, JournalError>)
    requires
        journal.wf(),
    ensures
        name@.contains('\0') ==> got == Err::<Option<String>, JournalError>(
            JournalError::InvalidArgument,
        ),
        !name@.contains('\0') && !(journal.position() is At) ==> got == Err::<
            Option<String>,
            JournalError,
        >(JournalError::NotPositioned),
        !name@.contains('\0') ==> (journal.position() matches Position::At(k) ==> (got matches Ok(
            value,
        ) && text_of(value) == field_text(journal.records()[k as int].items, name@))),
{
    match journal.get_field(name) {
        Err(e) => Err(e),
        Ok(None) => Ok(None),
        Ok(Some(raw)) => {
            let prefix = match_string(name, "");
            proof {
                reveal_strlit("");
                assert(prefix@ =~= name@ + seq!['=']);
                assert(carries(raw@, name@));
            }
            Ok(strip_prefix(raw.as_str(), prefix.as_str()))
        },
    }
}

/// Runs a query on a journal: detaches the matches, attaches those of the
/// query, seeks to the start of the range and walks forward to its end. The
/// result holds the selected entries in the order of the journal. A range
/// that ends before it starts gives an empty result. Fails with
/// `InvalidArgument` where the host or the unit of the query holds a NUL.
pub fn query_journal(journal: &mut Journal, query: Query) -> (found: Result<
    Vec<Entry>,
    JournalError,
>)
    requires
        old(journal).wf(),
    ensures
        final(journal).wf(),
        final(journal).records() == old(journal).records(),
        found is Ok <==> runnable(query@),
        found is Err ==> found == Err::<Vec<Entry>, JournalError>(JournalError::InvalidArgument),
        found matches Ok(entries) ==> {
            &&& entry_views(entries@) == query_result(old(journal).records(), query@)
            &&& forall|k: int|
                0 <= k < entries@.len() ==> query.start_time_utc <= (
                #[trigger] entries@[k]).timestamp_utc <= query.end_time_utc
            &&& query.end_time_utc < query.start_time_utc ==> entries@.len() == 0
            &&& forall|k: int, m: int|
                0 <= k <= m < entries@.len() ==> entries@[k].timestamp_utc
                    <= entries@[m].timestamp_utc
        },
{
    let ghost recs = journal.records();
    let ghost q = query@;
    proof {
        lemma_field_names();
    }
    journal.flush_matches();
    match &query.hostname {
        Some(h) => {
            match journal.add_match("_HOSTNAME", h.as_str()) {
                Err(e) => {
                    return Err(e);
                },
                Ok(()) => {},
            }
        },
        None => {},
    }
    match &query.unit {
        Some(u) => {
            match journal.add_match("_SYSTEMD_UNIT", u.as_str()) {
                Err(e) => {
                    return Err(e);
                },
                Ok(()) => {},
            }
        },
        None => {},
    }
    assert(journal.matches() =~= query_matches(q));
    match journal.seek_realtime_usec(query.start_time_utc) {
        Err(e) => {
            return Err(e);
        },
        Ok(()) => {},
    }
    let mut entries: Vec<Entry> = Vec::new();
    let ghost mut done: int = 0;
    proof {
        journal.lemma_wf();
        assert(recs.take(0) =~= Seq::<RecordView>::empty());
        assert(entry_views(entries@) =~= query_result(recs.take(0), q));
    }
    loop
        invariant
            journal.wf(),
            journal.records() == recs,
            recs == old(journal).records(),
            sorted_by_time(recs),
            journal.matches() == query_matches(q),
            q == query@,
            runnable(q),
            0 <= done <= recs.len(),
            match journal.position() {
                Position::Time(t) => t == q.start_time_utc && done == 0,
                Position::At(p) => done == p + 1 && recs[p as int].timestamp >= q.start_time_utc,
                Position::Head => false,
            },
            entry_views(entries@) == query_result(recs.take(done), q),
            !hostname_field().contains('\0'),
            !unit_field().contains('\0'),
            !message_field().contains('\0'),
        decreases recs.len() - done,
    {
        let ghost before = journal.position();
        let moved = match journal.next() {
            Ok(moved) => moved,
            Err(e) => {
                return Err(e);
            },
        };
        if !moved {
            proof {
                assert forall|k: int| done <= k < recs.len() implies !selected(
                    #[trigger] recs[k],
                    q,
                ) by {
                    assert(!eligible(recs, query_matches(q), before, k));
                    if let Position::At(p) = before {
                        assert(k > p);
                    }
                }
                lemma_unselected_add_nothing(recs, q, done, recs.len() as int);
                assert(recs.take(recs.len() as int) =~= recs);
                lemma_finish(recs, q, entries@);
            }
            return Ok(entries);
        }
        let ghost at: int = match journal.position() {
            Position::At(k) => k as int,
            _ => 0,
        };
        proof {
            assert(is_next(recs, query_matches(q), before, at));
            assert(done <= at);
            assert forall|k: int| done <= k < at implies !selected(#[trigger] recs[k], q) by {
                assert(!eligible(recs, query_matches(q), before, k));
                if let Position::At(p) = before {
                    assert(k > p);
                }
            }
            lemma_unselected_add_nothing(recs, q, done, at);
            if let Position::At(p) = before {
                assert(recs[p as int].timestamp <= recs[at].timestamp);
            }
        }
        let timestamp = match journal.get_realtime_usec() {
            Ok(t) => t,
            Err(e) => {
                return Err(e);
            },
        };
        if timestamp > query.end_time_utc {
            proof {
                assert forall|k: int| at <= k < recs.len() implies !selected(
                    #[trigger] recs[k],
                    q,
                ) by {
                    assert(recs[at].timestamp <= recs[k].timestamp);
                }
                lemma_unselected_add_nothing(recs, q, at, recs.len() as int);
                assert(recs.take(recs.len() as int) =~= recs);
                lemma_finish(recs, q, entries@);
            }
            return Ok(entries);
        }
        let hostname = match read_field(journal, "_HOSTNAME") {
            Ok(value) => value,
            Err(e) => {
                return Err(e);
            },
        };
        let unit = match read_field(journal, "_SYSTEMD_UNIT") {
            Ok(value) => value,
            Err(e) => {
                return Err(e);
            },
        };
        let message = match read_field(journal, "MESSAGE") {
            Ok(Some(text)) => text,
            Ok(None) => "(no message)".to_owned(),
            Err(e) => {
                return Err(e);
            },
        };
        let keep = match &query.message_contains {
            Some(pat) => contains(message.as_str(), pat.as_str()),
            None => true,
        };
        let ghost had = entry_views(entries@);
        proof {
            assert(recs.take(at + 1).drop_last() =~= recs.take(at));
            assert(recs.take(at + 1).last() == recs[at]);
            assert(message@ == entry_of(recs[at]).message);
            assert(keep == selected(recs[at], q));
        }
        if keep {
            let entry = Entry { hostname, unit, timestamp_utc: timestamp, message };
            assert(entry@ == entry_of(recs[at]));
            entries.push(entry);
            assert(entry_views(entries@) =~= had.push(entry_of(recs[at])));
        }
        proof {
            done = at + 1;
        }
    }
}

/// What the laws of results say of a list of entries that is a result.
proof fn lemma_finish(recs: Seq<RecordView>, q: QueryView, entries: Seq<Entry>)
    requires
        sorted_by_time(recs),
        entry_views(entries) == query_result(recs, q),
    ensures
        forall|k: int|
            0 <= k < entries.len() ==> q.start_time_utc <= (#[trigger] entries[k]).timestamp_utc
                <= q.end_time_utc,
        q.end_time_utc < q.start_time_utc ==> entries.len() == 0,
        forall|k: int, m: int|
            0 <= k <= m < entries.len() ==> entries[k].timestamp_utc <= entries[m].timestamp_utc,
{
    let views = entry_views(entries);
    lemma_result_in_range(recs, q);
    lemma_result_in_time_order(recs, q);
    if q.end_time_utc < q.start_time_utc {
        lemma_inverted_range_is_empty(recs, q);
    }
    assert forall|k: int| 0 <= k < entries.len() implies q.start_time_utc <= (
    #[trigger] entries[k]).timestamp_utc <= q.end_time_utc by {
        assert(views[k].timestamp_utc == entries[k].timestamp_utc);
    }
    assert forall|k: int, m: int| 0 <= k <= m < entries.len() implies entries[k].timestamp_utc
        <= entries[m].timestamp_utc by {
        assert(views[k].timestamp_utc == entries[k].timestamp_utc);
        assert(views[m].timestamp_utc == entries[m].timestamp_utc);
    }
}

} // verus!
