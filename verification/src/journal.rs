//! The journal handle: timestamped records of raw data items, equality
//! matches, a forward cursor and the enumeration of a field's distinct values.
use crate::error::JournalError;
use crate::text::{
    field_name, has_nul, has_prefix, match_string,
    name_part, raw_item, starts_with,
};
use std::marker::PhantomData;
use std::rc::Rc;
use vstd::prelude::*;
use vstd::string::*;

verus! {

/// One journal entry: its wallclock time in microseconds since the Unix
/// epoch, and its data items, each of the form `FIELD=value`.
#[derive(Debug)]
pub struct Record {
    pub timestamp: u64,
    pub data: Vec<String>,
}

/// What a record is in contracts.
pub struct RecordView {
    pub timestamp: u64,
    pub items: Seq<Seq<char>>,
}

/// The texts that a list of strings holds.
pub open spec fn texts(v: Seq<String>) -> Seq<Seq<char>> {
    Seq::new(v.len(), |i: int| v[i]@)
}

impl View for Record {
    type V = RecordView;

    open spec fn view(&self) -> RecordView {
        RecordView { timestamp: self.timestamp, items: texts(self.data@) }
    }
}

/// Where the cursor of a journal stands.
#[derive(Debug, Clone, Copy, PartialEq, Eq, Structural)]
pub enum Position {
    /// Before the first entry.
    Head,
    /// Before the first entry whose time is at or after the given one.
    Time(u64),
    /// At the entry with the given index.
    At(usize),
}

/// A running enumeration of distinct values: what it lists, and how many of
/// them it has handed out.
pub struct Enumeration {
    pub values: Seq<Seq<char>>,
    pub next: nat,
}

/// Times never go down along the records.
pub open spec fn sorted_by_time(recs: Seq<RecordView>) -> bool {
    forall|i: int, j: int| 0 <= i <= j < recs.len() ==> recs[i].timestamp <= recs[j].timestamp
}

/// Two raw items speak of the same field.
pub open spec fn same_field(a: Seq<char>, b: Seq<char>) -> bool {
    name_part(a) == name_part(b)
}

/// Match `j` is on the field of match `i`, and the entry holds it.
pub open spec fn answers(items: Seq<Seq<char>>, matches: Seq<Seq<char>>, i: int, j: int) -> bool {
    &&& 0 <= j < matches.len()
    &&& same_field(matches[i], matches[j])
    &&& items.contains(matches[j])
}

/// The entry holds one of the matches on the field of match `i`.
pub open spec fn match_met(items: Seq<Seq<char>>, matches: Seq<Seq<char>>, i: int) -> bool {
    exists|j: int| answers(items, matches, i, j)
}

/// An entry passes a set of matches: for each field that the set names, the
/// entry holds one of the set's items on that field. Matches on one field are
/// alternatives; matches on different fields must all be met.
pub open spec fn satisfies(items: Seq<Seq<char>>, matches: Seq<Seq<char>>) -> bool {
    forall|i: int| 0 <= i < matches.len() ==> match_met(items, matches, i)
}

/// Entry `i` can be reached by one step forward from `pos`.
pub open spec fn eligible(
    recs: Seq<RecordView>,
    matches: Seq<Seq<char>>,
    pos: Position,
    i: int,
) -> bool {
    &&& 0 <= i < recs.len()
    &&& satisfies(recs[i].items, matches)
    &&& match pos {
        Position::Head => true,
        Position::Time(t) => recs[i].timestamp >= t,
        Position::At(k) => i > k,
    }
}

/// Entry `i` is where one step forward from `pos` lands: the first eligible one.
pub open spec fn is_next(
    recs: Seq<RecordView>,
    matches: Seq<Seq<char>>,
    pos: Position,
    i: int,
) -> bool {
    &&& eligible(recs, matches, pos, i)
    &&& forall|j: int| 0 <= j < i ==> !eligible(recs, matches, pos, j)
}

/// The raw item carries the field `name`: it begins with `name=`.
pub open spec fn carries(item: Seq<char>, name: Seq<char>) -> bool {
    starts_with(item, name + seq!['='])
}

/// Item `i` is the first of `items` that carries the field `name`.
pub open spec fn first_carrier(items: Seq<Seq<char>>, name: Seq<char>, i: int) -> bool {
    &&& 0 <= i < items.len()
    &&& carries(items[i], name)
    &&& forall|j: int| 0 <= j < i ==> !carries(items[j], name)
}

/// The raw item that an entry gives for a field: the first that carries it.
pub open spec fn field_item(items: Seq<Seq<char>>, name: Seq<char>) -> Option<Seq<char>> {
    if exists|i: int| first_carrier(items, name, i) {
        Some(items[choose|i: int| first_carrier(items, name, i)])
    } else {
        None
    }
}

/// A known first carrier is what the entry gives for the field.
pub proof fn lemma_field_item_at(items: Seq<Seq<char>>, name: Seq<char>, i: int)
    requires
        first_carrier(items, name, i),
    ensures
        field_item(items, name) == Some(items[i]),
{
    let k = choose|k: int| first_carrier(items, name, k);
    if k < i {
        assert(!carries(items[k], name));
    } else if i < k {
        assert(!carries(items[i], name));
    }
}

/// An entry without a carrier gives nothing for the field.
pub proof fn lemma_field_item_none(items: Seq<Seq<char>>, name: Seq<char>)
    requires
        forall|i: int| 0 <= i < items.len() ==> !carries(#[trigger] items[i], name),
    ensures
        field_item(items, name) is None,
{
}

/// The data items of all records, in the order of the journal.
pub open spec fn all_items(recs: Seq<RecordView>) -> Seq<Seq<char>>
    decreases recs.len(),
{
    if recs.len() == 0 {
        Seq::empty()
    } else {
        all_items(recs.drop_last()) + recs.last().items
    }
}

/// The items that carry the field `name`, each once, in the order in which
/// they first occur.
pub open spec fn distinct_carriers(items: Seq<Seq<char>>, name: Seq<char>) -> Seq<Seq<char>>
    decreases items.len(),
{
    if items.len() == 0 {
        Seq::empty()
    } else {
        let rest = distinct_carriers(items.drop_last(), name);
        let x = items.last();
        if carries(x, name) && !rest.contains(x) {
            rest.push(x)
        } else {
            rest
        }
    }
}

/// The distinct raw items `name=value` of the whole journal, in the order in
/// which they first occur. No match has a say in it.
pub open spec fn unique_values(recs: Seq<RecordView>, name: Seq<char>) -> Seq<Seq<char>> {
    distinct_carriers(all_items(recs), name)
}

/// Some record holds the raw item `x`.
pub open spec fn occurs(recs: Seq<RecordView>, x: Seq<char>) -> bool {
    exists|r: int| 0 <= r < recs.len() && #[trigger] recs[r].items.contains(x)
}

/// What an enumeration has not handed out yet.
pub open spec fn remaining(e: Enumeration) -> Seq<Seq<char>> {
    e.values.skip(e.next as int)
}

/// The enumeration set back to its first value.
pub open spec fn restarted(e: Enumeration) -> Enumeration {
    Enumeration { values: e.values, next: 0 }
}

/// The items of all records are those that some record holds.
pub proof fn lemma_all_items_member(recs: Seq<RecordView>, x: Seq<char>)
    ensures
        all_items(recs).contains(x) <==> occurs(recs, x),
    decreases recs.len(),
{
    if recs.len() > 0 {
        let front = recs.drop_last();
        lemma_all_items_member(front, x);
        let whole = all_items(front) + recs.last().items;
        if all_items(recs).contains(x) {
            let i = choose|i: int| 0 <= i < whole.len() && whole[i] == x;
            if i < all_items(front).len() {
                assert(all_items(front)[i] == x);
                assert(all_items(front).contains(x));
                let r = choose|r: int| 0 <= r < front.len() && #[trigger] front[r].items.contains(x);
                assert(recs[r].items.contains(x));
            } else {
                assert(recs.last().items[i - all_items(front).len()] == x);
                assert(recs[recs.len() - 1].items.contains(x));
            }
        }
        if occurs(recs, x) {
            let r = choose|r: int| 0 <= r < recs.len() && #[trigger] recs[r].items.contains(x);
            if r < front.len() {
                assert(front[r].items.contains(x));
                assert(all_items(front).contains(x));
                let i = choose|i: int| 0 <= i < all_items(front).len() && all_items(front)[i] == x;
                assert(whole[i] == x);
            } else {
                let k = choose|k: int| 0 <= k < recs.last().items.len() && recs.last().items[k] == x;
                assert(whole[all_items(front).len() + k] == x);
            }
        }
    }
}

/// The distinct carriers of a field are the items that carry it, and none of
/// them comes twice.
pub proof fn lemma_distinct_carriers(items: Seq<Seq<char>>, name: Seq<char>)
    ensures
        distinct_carriers(items, name).no_duplicates(),
        forall|x: Seq<char>| #[trigger]
            distinct_carriers(items, name).contains(x) <==> carries(x, name) && items.contains(x),
    decreases items.len(),
{
    if items.len() > 0 {
        let front = items.drop_last();
        let last = items.last();
        let rest = distinct_carriers(front, name);
        let all = distinct_carriers(items, name);
        lemma_distinct_carriers(front, name);
        assert forall|x: Seq<char>| #[trigger]
            all.contains(x) <==> carries(x, name) && items.contains(x) by {
            if all.contains(x) {
                let i = choose|i: int| 0 <= i < all.len() && all[i] == x;
                if i < rest.len() {
                    assert(rest[i] == x);
                    assert(rest.contains(x));
                    let k = choose|k: int| 0 <= k < front.len() && front[k] == x;
                    assert(items[k] == x);
                } else {
                    assert(x == last);
                    assert(items[items.len() - 1] == x);
                }
            }
            if carries(x, name) && items.contains(x) {
                let k = choose|k: int| 0 <= k < items.len() && items[k] == x;
                if k < front.len() {
                    assert(front[k] == x);
                    assert(rest.contains(x));
                    let i = choose|i: int| 0 <= i < rest.len() && rest[i] == x;
                    assert(all[i] == x);
                } else if rest.contains(x) {
                    let i = choose|i: int| 0 <= i < rest.len() && rest[i] == x;
                    assert(all[i] == x);
                } else {
                    assert(all[rest.len() as int] == x);
                }
            }
        }
    }
}

/// The enumeration of a field lists each raw item `name=value` that some
/// record holds, once.
pub proof fn lemma_unique_values(recs: Seq<RecordView>, name: Seq<char>)
    ensures
        unique_values(recs, name).no_duplicates(),
        forall|x: Seq<char>| #[trigger]
            unique_values(recs, name).contains(x) <==> carries(x, name) && occurs(recs, x),
{
    lemma_distinct_carriers(all_items(recs), name);
    assert forall|x: Seq<char>| #[trigger]
        unique_values(recs, name).contains(x) <==> carries(x, name) && occurs(recs, x) by {
        lemma_all_items_member(recs, x);
    }
}

/// An enumeration that is set back hands out its whole listing again,
/// whatever it had handed out before.
pub proof fn lemma_restart_lists_all(e: Enumeration)
    ensures
        remaining(restarted(e)) == e.values,
        restarted(restarted(e)) == restarted(e),
{
    assert(e.values.skip(0) =~= e.values);
}

/// A handle on a journal held in memory. It is owned by one sequential
/// user: the marker field keeps it from being sent to or shared with another
/// thread.
#[derive(Debug)]
pub struct Journal {
    records: Vec<Record>,
    matches: Vec<String>,
    position: Position,
    listing: Option<Vec<String>>,
    listed: usize,
    not_thread_safe: PhantomData<Rc<()>>,
}

impl Journal {
    /// The records of the journal, oldest first.
    pub closed spec fn records(&self) -> Seq<RecordView> {
        Seq::new(self.records@.len(), |i: int| self.records@[i]@)
    }

    /// The matches that are attached, as raw items.
    pub closed spec fn matches(&self) -> Seq<Seq<char>> {
        texts(self.matches@)
    }

    /// Where the cursor stands.
    pub closed spec fn position(&self) -> Position {
        self.position
    }

    /// The enumeration of distinct values that is under way, if any.
    pub closed spec fn enumeration(&self) -> Option<Enumeration> {
        match self.listing {
            Some(values) => Some(Enumeration { values: texts(values@), next: self.listed as nat }),
            None => None,
        }
    }

    /// The handle's invariant: the records are in time order, a cursor at an
    /// entry names one that exists, and an enumeration has not handed out
    /// more than it lists.
    pub closed spec fn wf(&self) -> bool {
        &&& sorted_by_time(self.records())
        &&& (self.position matches Position::At(k) ==> k < self.records@.len())
        &&& (self.listing matches Some(values) ==> self.listed <= values@.len())
    }

    /// What a well-formed handle guarantees to its users.
    pub proof fn lemma_wf(&self)
        requires
            self.wf(),
        ensures
            sorted_by_time(self.records()),
            self.position() matches Position::At(k) ==> k < self.records().len(),
            self.enumeration() matches Some(e) ==> e.next <= e.values.len(),
    {
    }

    /// An empty journal, with no match, the cursor at the head and no
    /// enumeration under way.
    pub fn new() -> (journal: Journal)
        ensures
            journal.wf(),
            journal.records() == Seq::<RecordView>::empty(),
            journal.matches() == Seq::<Seq<char>>::empty(),
            journal.position() == Position::Head,
            journal.enumeration() is None,
    {
        let journal = Journal {
            records: Vec::new(),
            matches: Vec::new(),
            position: Position::Head,
            listing: None,
            listed: 0,
            not_thread_safe: PhantomData,
        };
        assert(journal.records() =~= Seq::<RecordView>::empty());
        assert(journal.matches() =~= Seq::<Seq<char>>::empty());
        journal
    }

    /// The number of records.
    pub fn len(&self) -> (n: usize)
        ensures
            n == self.records().len(),
    {
        self.records.len()
    }

    /// Appends an entry. The journal is append-only and in time order: an
    /// entry older than the last one is refused with `InvalidArgument`, and
    /// the journal is left as it was.
    pub fn append(&mut self, timestamp: u64, data: Vec<String>) -> (done: Result<(), JournalError>)
        requires
            old(self).wf(),
        ensures
            final(self).wf(),
            final(self).matches() == old(self).matches(),
            final(self).position() == old(self).position(),
            final(self).enumeration() == old(self).enumeration(),
            done is Ok <==> (old(self).records().len() == 0 || old(self).records().last().timestamp
                <= timestamp),
            done is Ok ==> final(self).records() == old(self).records().push(
                RecordView { timestamp, items: texts(data@) },
            ),
            done is Err ==> done == Err::<(), JournalError>(JournalError::InvalidArgument)
                && final(self).records() == old(self).records(),
    {
        let n = self.records.len();
        if n > 0 && self.records[n - 1].timestamp > timestamp {
            return Err(JournalError::InvalidArgument);
        }
        let ghost before = self.records();
        let ghost added = RecordView { timestamp, items: texts(data@) };
        self.records.push(Record { timestamp, data });
        assert(self.records() =~= before.push(added));
        assert forall|i: int, j: int| 0 <= i <= j < self.records().len() implies self.records()[i].timestamp
            <= self.records()[j].timestamp by {
            if j == n && i < n {
                assert(before[i].timestamp <= before[n - 1].timestamp);
            }
        }
        Ok(())
    }

    /// Attaches the match `field=value`. Fails with `InvalidArgument`, and
    /// attaches nothing, where the field or the value holds a NUL.
    pub fn add_match(&mut self, field: &str, value: &str) -> (done: Result<(), JournalError>)
        requires
            old(self).wf(),
        ensures
            final(self).wf(),
            final(self).records() == old(self).records(),
            final(self).position() == old(self).position(),
            final(self).enumeration() == old(self).enumeration(),
            done is Ok <==> !field@.contains('\0') && !value@.contains('\0'),
            done is Ok ==> final(self).matches() == old(self).matches().push(
                raw_item(field@, value@),
            ),
            done is Err ==> done == Err::<(), JournalError>(JournalError::InvalidArgument)
                && final(self).matches() == old(self).matches(),
    {
        if has_nul(field) || has_nul(value) {
            return Err(JournalError::InvalidArgument);
        }
        let raw = match_string(field, value);
        let ghost before = self.matches();
        self.matches.push(raw);
        assert(self.matches() =~= before.push(raw_item(field@, value@)));
        Ok(())
    }

    /// Detaches every match.
    pub fn flush_matches(&mut self)
        requires
            old(self).wf(),
        ensures
            final(self).wf(),
            final(self).records() == old(self).records(),
            final(self).position() == old(self).position(),
            final(self).enumeration() == old(self).enumeration(),
            final(self).matches() == Seq::<Seq<char>>::empty(),
    {
        self.matches = Vec::new();
        assert(self.matches() =~= Seq::<Seq<char>>::empty());
    }

    /// Puts the cursor before the first entry.
    pub fn seek_head(&mut self) -> (done: Result<(), JournalError>)
        requires
            old(self).wf(),
        ensures
            final(self).wf(),
            done is Ok,
            final(self).records() == old(self).records(),
            final(self).matches() == old(self).matches(),
            final(self).enumeration() == old(self).enumeration(),
            final(self).position() == Position::Head,
    {
        self.position = Position::Head;
        Ok(())
    }

    /// Puts the cursor before the first entry whose time is at or after
    /// `timestamp_usec`, in microseconds since the Unix epoch.
    pub fn seek_realtime_usec(&mut self, timestamp_usec: u64) -> (done: Result<(), JournalError>)
        requires
            old(self).wf(),
        ensures
            final(self).wf(),
            done is Ok,
            final(self).records() == old(self).records(),
            final(self).matches() == old(self).matches(),
            final(self).enumeration() == old(self).enumeration(),
            final(self).position() == Position::Time(timestamp_usec),
    {
        self.position = Position::Time(timestamp_usec);
        Ok(())
    }

    /// Whether the data of an entry holds the raw item `raw`.
    fn holds(data: &Vec<String>, raw: &String) -> (found: bool)
        ensures
            found == texts(data@).contains(raw@),
    {
        let mut k: usize = 0;
        while k < data.len()
            invariant
                k <= data.len(),
                forall|m: int| 0 <= m < k ==> texts(data@)[m] != raw@,
            decreases data.len() - k,
        {
            if data[k] == *raw {
                assert(texts(data@)[k as int] == raw@);
                return true;
            }
            k += 1;
        }
        false
    }

    /// Whether the entry with index `at` passes the attached matches.
    fn passes(&self, at: usize) -> (ok: bool)
        requires
            at < self.records().len(),
        ensures
            ok == satisfies(self.records()[at as int].items, self.matches()),
    {
        let data = &self.records[at].data;
        let ghost items = texts(data@);
        let ghost matches = texts(self.matches@);
        assert(self.records()[at as int].items == items);
        let mut i: usize = 0;
        while i < self.matches.len()
            invariant
                i <= self.matches.len(),
                at < self.records().len(),
                self.records()[at as int].items == items,
                items == texts(data@),
                matches == texts(self.matches@),
                forall|m: int| 0 <= m < i ==> match_met(items, matches, m),
            decreases self.matches.len() - i,
        {
            let name = field_name(self.matches[i].as_str());
            let mut met = false;
            let mut j: usize = 0;
            while j < self.matches.len() && !met
                invariant
                    j <= self.matches.len(),
                    i < self.matches.len(),
                    items == texts(data@),
                    matches == texts(self.matches@),
                    name@ == name_part(matches[i as int]),
                    met ==> match_met(items, matches, i as int),
                    !met ==> forall|m: int| 0 <= m < j ==> !answers(items, matches, i as int, m),
                decreases self.matches.len() - j + (if met { 0int } else { 1int }),
            {
                let other = field_name(self.matches[j].as_str());
                if other == name && Self::holds(data, &self.matches[j]) {
                    assert(answers(items, matches, i as int, j as int));
                    met = true;
                } else {
                    j += 1;
                }
            }
            if !met {
                assert(!match_met(items, matches, i as int));
                return false;
            }
            i += 1;
        }
        true
    }

    /// Moves the cursor one entry forward: to the first entry after its place
    /// that passes the matches. Returns whether there was one; where there
    /// was none the cursor stays.
    pub fn next(&mut self) -> (moved: Result<bool, JournalError>)
        requires
            old(self).wf(),
        ensures
            final(self).wf(),
            final(self).records() == old(self).records(),
            final(self).matches() == old(self).matches(),
            final(self).enumeration() == old(self).enumeration(),
            moved is Ok,
            moved == Ok::<bool, JournalError>(true) ==> (final(self).position() matches Position::At(k)
                && is_next(old(self).records(), old(self).matches(), old(self).position(), k as int)),
            moved == Ok::<bool, JournalError>(false) ==> final(self).position() == old(
                self,
            ).position() && forall|i: int|
                !eligible(old(self).records(), old(self).matches(), old(self).position(), i),
    {
        let total = self.records.len();
        let start: usize = match self.position {
            Position::At(k) => {
                assert(k < total);
                k + 1
            },
            _ => 0,
        };
        let ghost recs = self.records();
        let ghost matches = self.matches();
        let ghost pos = self.position;
        let mut i: usize = start;
        while i < self.records.len()
            invariant
                start <= i <= self.records.len(),
                *self == *old(self),
                self.wf(),
                recs == self.records(),
                matches == self.matches(),
                pos == self.position,
                pos matches Position::At(k) ==> start == k + 1,
                forall|j: int| 0 <= j < i ==> !eligible(recs, matches, pos, j),
            decreases self.records.len() - i,
        {
            let in_reach = match self.position {
                Position::Time(t) => self.records[i].timestamp >= t,
                _ => true,
            };
            if in_reach && self.passes(i) {
                self.position = Position::At(i);
                assert(is_next(recs, matches, pos, i as int));
                return Ok(true);
            }
            i += 1;
        }
        Ok(false)
    }

    /// The raw item `FIELD=value` that the current entry gives for a field,
    /// or `None` where the entry does not carry it. Fails with
    /// `InvalidArgument` where the field name holds a NUL, and with
    /// `NotPositioned` where the cursor is not at an entry.
    pub fn get_field(&self, field: &str) -> (got: Result<Option<String>, JournalError>)
        requires
            self.wf(),
        ensures
            field@.contains('\0') ==> got == Err::<Option<String>, JournalError>(
                JournalError::InvalidArgument,
            ),
            !field@.contains('\0') && !(self.position() is At) ==> got == Err::<
                Option<String>,
                JournalError,
            >(JournalError::NotPositioned),
            !field@.contains('\0') ==> (self.position() matches Position::At(k) ==> (got matches Ok(
                found,
            ) && match found {
                Some(raw) => field_item(self.records()[k as int].items, field@) == Some(raw@),
                None => field_item(self.records()[k as int].items, field@) is None,
            })),
    {
        if has_nul(field) {
            return Err(JournalError::InvalidArgument);
        }
        match self.position {
            Position::At(k) => {
                let data = &self.records[k].data;
                let prefix = match_string(field, "");
                let ghost items = texts(data@);
                proof {
                    reveal_strlit("");
                    assert(prefix@ =~= field@ + seq!['=']);
                    assert(self.records()[k as int].items == items);
                }
                let mut i: usize = 0;
                while i < data.len()
                    invariant
                        i <= data.len(),
                        !field@.contains('\0'),
                        self.position == Position::At(k),
                        k < self.records().len(),
                        self.records()[k as int].items == items,
                        items == texts(data@),
                        prefix@ == field@ + seq!['='],
                        forall|j: int| 0 <= j < i ==> !carries(items[j], field@),
                    decreases data.len() - i,
                {
                    if has_prefix(data[i].as_str(), prefix.as_str()) {
                        proof {
                            assert(first_carrier(items, field@, i as int));
                            lemma_field_item_at(items, field@, i as int);
                        }
                        return Ok(Some(data[i].clone()));
                    }
                    i += 1;
                }
                proof {
                    lemma_field_item_none(items, field@);
                }
                Ok(None)
            },
            _ => Err(JournalError::NotPositioned),
        }
    }

    /// The distinct raw items of a field over the whole journal.
    fn collect(&self, field: &str) -> (out: Vec<String>)
        ensures
            texts(out@) == unique_values(self.records(), field@),
    {
        let prefix = match_string(field, "");
        let ghost recs = self.records();
        proof {
            reveal_strlit("");
            assert(prefix@ =~= field@ + seq!['=']);
            assert(recs.take(0) =~= Seq::<RecordView>::empty());
        }
        let mut out: Vec<String> = Vec::new();
        assert(texts(out@) =~= Seq::<Seq<char>>::empty());
        let mut r: usize = 0;
        while r < self.records.len()
            invariant
                r <= self.records.len(),
                recs == self.records(),
                prefix@ == field@ + seq!['='],
                texts(out@) == distinct_carriers(all_items(recs.take(r as int)), field@),
            decreases self.records.len() - r,
        {
            let data = &self.records[r].data;
            let ghost base = all_items(recs.take(r as int));
            let ghost items = texts(data@);
            assert(recs[r as int].items == items);
            assert(base + items.take(0) =~= base);
            let mut k: usize = 0;
            while k < data.len()
                invariant
                    k <= data.len(),
                    items == texts(data@),
                    prefix@ == field@ + seq!['='],
                    texts(out@) == distinct_carriers(base + items.take(k as int), field@),
                decreases data.len() - k,
            {
                let ghost sofar = base + items.take(k as int);
                let ghost had = texts(out@);
                proof {
                    assert(base + items.take(k + 1) =~= sofar.push(items[k as int]));
                    assert(sofar.push(items[k as int]).drop_last() =~= sofar);
                }
                if has_prefix(data[k].as_str(), prefix.as_str()) && !Self::holds(&out, &data[k]) {
                    out.push(data[k].clone());
                    assert(texts(out@) =~= had.push(items[k as int]));
                }
                k += 1;
            }
            proof {
                assert(items.take(data.len() as int) =~= items);
                assert(recs.take(r + 1).drop_last() =~= recs.take(r as int));
                assert(recs.take(r + 1).last() == recs[r as int]);
            }
            r += 1;
        }
        assert(recs.take(self.records.len() as int) =~= recs);
        out
    }

    /// Starts the enumeration of the distinct values of a field over the
    /// whole journal, whatever matches are attached. Fails with
    /// `InvalidArgument`, and leaves the handle as it was, where the field
    /// name holds a NUL.
    pub fn query_unique(&mut self, field: &str) -> (done: Result<(), JournalError>)
        requires
            old(self).wf(),
        ensures
            final(self).wf(),
            final(self).records() == old(self).records(),
            final(self).matches() == old(self).matches(),
            final(self).position() == old(self).position(),
            done is Ok <==> !field@.contains('\0'),
            done is Ok ==> final(self).enumeration() == Some(
                Enumeration { values: unique_values(old(self).records(), field@), next: 0 },
            ),
            done is Err ==> done == Err::<(), JournalError>(JournalError::InvalidArgument)
                && final(self).enumeration() == old(self).enumeration(),
    {
        if has_nul(field) {
            return Err(JournalError::InvalidArgument);
        }
        let values = self.collect(field);
        self.listing = Some(values);
        self.listed = 0;
        Ok(())
    }

    /// Hands out the next distinct value of the enumeration under way, as the
    /// raw item `FIELD=value`, or `None` where all have been handed out.
    /// Fails with `InvalidArgument` where no enumeration was started.
    pub fn next_unique_value(&mut self) -> (got: Result<Option<String>, JournalError>)
        requires
            old(self).wf(),
        ensures
            final(self).wf(),
            final(self).records() == old(self).records(),
            final(self).matches() == old(self).matches(),
            final(self).position() == old(self).position(),
            match old(self).enumeration() {
                None => got == Err::<Option<String>, JournalError>(JournalError::InvalidArgument)
                    && final(self).enumeration() is None,
                Some(e) => if e.next < e.values.len() {
                    &&& got matches Ok(Some(raw))
                    &&& raw@ == e.values[e.next as int]
                    &&& final(self).enumeration() == Some(
                        Enumeration { values: e.values, next: e.next + 1 },
                    )
                } else {
                    &&& got == Ok::<Option<String>, JournalError>(None)
                    &&& final(self).enumeration() == Some(e)
                },
            },
    {
        match &self.listing {
            None => Err(JournalError::InvalidArgument),
            Some(values) => {
                if self.listed < values.len() {
                    let raw = values[self.listed].clone();
                    self.listed = self.listed + 1;
                    Ok(Some(raw))
                } else {
                    Ok(None)
                }
            },
        }
    }

    /// Sets the enumeration under way back to its first value.
    pub fn restart_unique(&mut self)
        requires
            old(self).wf(),
        ensures
            final(self).wf(),
            final(self).records() == old(self).records(),
            final(self).matches() == old(self).matches(),
            final(self).position() == old(self).position(),
            final(self).enumeration() == match old(self).enumeration() {
                Some(e) => Some(restarted(e)),
                None => None,
            },
    {
        self.listed = 0;
    }

    /// All distinct values of a field over the whole journal, as raw items
    /// `FIELD=value` in the order in which they first occur. The attached
    /// matches have no say in it. Fails with `InvalidArgument` where the
    /// field name holds a NUL.
    pub fn get_unique_values(&mut self, field: &str) -> (got: Result<Vec<String>, JournalError>)
        requires
            old(self).wf(),
        ensures
            final(self).wf(),
            final(self).records() == old(self).records(),
            final(self).matches() == old(self).matches(),
            final(self).position() == old(self).position(),
            got is Ok <==> !field@.contains('\0'),
            got matches Ok(values) ==> texts(values@) == unique_values(old(self).records(), field@)
                && final(self).enumeration() == Some(
                Enumeration { values: texts(values@), next: values@.len() },
            ),
            got is Err ==> got == Err::<Vec<String>, JournalError>(JournalError::InvalidArgument)
                && final(self).enumeration() == old(self).enumeration(),
    {
        match self.query_unique(field) {
            Err(e) => {
                return Err(e);
            },
            Ok(()) => {},
        }
        let ghost listing = unique_values(self.records(), field@);
        let mut values: Vec<String> = Vec::new();
        assert(texts(values@) =~= listing.take(0));
        loop
            invariant
                self.wf(),
                self.records() == old(self).records(),
                self.matches() == old(self).matches(),
                self.position() == old(self).position(),
                !field@.contains('\0'),
                listing == unique_values(old(self).records(), field@),
                values@.len() <= listing.len(),
                self.enumeration() == Some(Enumeration { values: listing, next: values@.len() }),
                texts(values@) == listing.take(values@.len() as int),
            decreases listing.len() - values@.len(),
        {
            let ghost had = texts(values@);
            match self.next_unique_value() {
                Ok(Some(raw)) => {
                    values.push(raw);
                    assert(texts(values@) =~= had.push(raw@));
                    assert(texts(values@) =~= listing.take(values@.len() as int));
                },
                Ok(None) => {
                    assert(listing.take(values@.len() as int) =~= listing);
                    return Ok(values);
                },
                Err(e) => {
                    return Err(e);
                },
            }
        }
    }

    /// The time of the current entry, in microseconds since the Unix epoch.
    /// Fails with `NotPositioned` where the cursor is not at an entry.
    pub fn get_realtime_usec(&self) -> (got: Result<u64, JournalError>)
        requires
            self.wf(),
        ensures
            match self.position() {
                Position::At(k) => got == Ok::<u64, JournalError>(
                    self.records()[k as int].timestamp,
                ),
                _ => got == Err::<u64, JournalError>(JournalError::NotPositioned),
            },
    {
        match self.position {
            Position::At(k) => Ok(self.records[k].timestamp),
            _ => Err(JournalError::NotPositioned),
        }
    }
}

} // verus!
