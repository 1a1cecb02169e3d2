//! Live tailing: the entries of one unit on one host, from a moment near
//! now onward, handed out one step at a time.
use crate::error::JournalError;
use crate::journal::{eligible, field_item, is_next, satisfies, Journal, Position, RecordView};
use crate::query::{
    hostname_field, lemma_field_names, message_field, text_of, unit_field, Entry, EntryView,
};
use crate::text::{field_value, raw_item, value_part, IntoText};
use std::time::Duration;
use vstd::prelude::*;
use vstd::string::*;

verus! {

/// The duration of a number of milliseconds: what `Duration::from_millis`
/// returns.
pub uninterp spec fn millis_duration(millis: u64) -> Duration;

/// The duration of a number of seconds: what `Duration::from_secs` returns.
pub uninterp spec fn secs_duration(secs: u64) -> Duration;

/// The whole microseconds of a duration: what `Duration::as_micros` returns.
pub uninterp spec fn micros_of(d: Duration) -> u128;

/// `Duration::from_millis`: the duration of that many milliseconds, which
/// holds a thousand microseconds for each.
#[verifier::external_body]
fn duration_from_millis(millis: u64) -> (d: Duration)
    ensures
        d == millis_duration(millis),
        micros_of(d) == millis * 1000,
{
    Duration::from_millis(millis)
}

/// `Duration::from_secs`: the duration of that many seconds, which holds a
/// million microseconds for each.
#[verifier::external_body]
fn duration_from_secs(secs: u64) -> (d: Duration)
    ensures
        d == secs_duration(secs),
        micros_of(d) == secs * 1_000_000,
{
    Duration::from_secs(secs)
}

/// `Duration::as_micros`: the whole microseconds that the duration holds.
#[verifier::external_body]
fn duration_as_micros(d: &Duration) -> (micros: u128)
    ensures
        micros == micros_of(*d),
{
    d.as_micros()
}

/// `Duration::clone`: a duration is a plain value, and its clone is the same
/// duration.
pub assume_specification[ <Duration as Clone>::clone ](d: &Duration) -> (copy: Duration)
    ensures
        copy == *d,
;

/// What to tail, and how.
#[derive(Debug, Clone, PartialEq)]
pub struct TailConfig {
    /// The host whose entries are wanted (`_HOSTNAME`).
    pub hostname: String,
    /// The unit whose entries are wanted (`_SYSTEMD_UNIT`).
    pub service: String,
    /// The directory of the journal.
    pub journal_path: String,
    /// How long to wait before asking again when there is no new entry.
    pub poll_interval: Duration,
    /// How far before now the tail begins.
    pub start_time_offset: Duration,
}

/// What a tail configuration is in contracts.
pub struct TailConfigView {
    pub hostname: Seq<char>,
    pub service: Seq<char>,
    pub journal_path: Seq<char>,
    pub poll_interval: Duration,
    pub start_time_offset: Duration,
}

impl View for TailConfig {
    type V = TailConfigView;

    open spec fn view(&self) -> TailConfigView {
        TailConfigView {
            hostname: self.hostname@,
            service: self.service@,
            journal_path: self.journal_path@,
            poll_interval: self.poll_interval,
            start_time_offset: self.start_time_offset,
        }
    }
}

impl TailConfig {
    /// A configuration that asks again every 100 milliseconds and begins 10
    /// seconds before now.
    pub fn new<H: IntoText, S: IntoText, P: IntoText>(
        hostname: H,
        service: S,
        journal_path: P,
    ) -> (config: TailConfig)
        ensures
            config@ == (TailConfigView {
                hostname: hostname.text(),
                service: service.text(),
                journal_path: journal_path.text(),
                poll_interval: millis_duration(100),
                start_time_offset: secs_duration(10),
            }),
            micros_of(config.poll_interval) == 100_000,
            micros_of(config.start_time_offset) == 10_000_000,
    {
        TailConfig {
            hostname: hostname.into_text(),
            service: service.into_text(),
            journal_path: journal_path.into_text(),
            poll_interval: duration_from_millis(100),
            start_time_offset: duration_from_secs(10),
        }
    }

    /// The configuration with another poll interval.
    pub fn with_poll_interval(self, interval: Duration) -> (config: TailConfig)
        ensures
            config@ == (TailConfigView { poll_interval: interval, ..self@ }),
    {
        let mut config = self;
        config.poll_interval = interval;
        config
    }

    /// The configuration with a poll interval of that many milliseconds.
    pub fn with_poll_interval_ms(self, millis: u64) -> (config: TailConfig)
        ensures
            config@ == (TailConfigView { poll_interval: millis_duration(millis), ..self@ }),
            micros_of(config.poll_interval) == millis * 1000,
    {
        let mut config = self;
        config.poll_interval = duration_from_millis(millis);
        config
    }

    /// The configuration that begins that long before now.
    pub fn with_start_time_offset(self, offset: Duration) -> (config: TailConfig)
        ensures
            config@ == (TailConfigView { start_time_offset: offset, ..self@ }),
    {
        let mut config = self;
        config.start_time_offset = offset;
        config
    }

    /// The configuration that begins that many seconds before now.
    pub fn with_start_time_offset_secs(self, seconds: u64) -> (config: TailConfig)
        ensures
            config@ == (TailConfigView { start_time_offset: secs_duration(seconds), ..self@ }),
            micros_of(config.start_time_offset) == seconds * 1_000_000,
    {
        let mut config = self;
        config.start_time_offset = duration_from_secs(seconds);
        config
    }

    /// The configuration that begins now: only entries to come are wanted.
    pub fn from_now(self) -> (config: TailConfig)
        ensures
            config@ == (TailConfigView { start_time_offset: secs_duration(0), ..self@ }),
            micros_of(config.start_time_offset) == 0,
    {
        let mut config = self;
        config.start_time_offset = duration_from_secs(0);
        config
    }
}

/// The time at which a tail begins: the offset before now, and the epoch
/// where the offset reaches further back.
pub open spec fn start_time(now_usec: u64, offset_micros: u128) -> u64 {
    if offset_micros >= now_usec {
        0
    } else {
        (now_usec - offset_micros) as u64
    }
}

/// The matches of a tail: one on the host and one on the unit.
pub open spec fn tail_matches(hostname: Seq<char>, service: Seq<char>) -> Seq<Seq<char>> {
    seq![raw_item(hostname_field(), hostname), raw_item(unit_field(), service)]
}

/// The entry at which one step forward from `pos` arrives: the first that
/// can be reached, if there is one.
pub open spec fn next_index(
    recs: Seq<RecordView>,
    matches: Seq<Seq<char>>,
    pos: Position,
) -> Option<int> {
    if exists|i: int| is_next(recs, matches, pos, i) {
        Some(choose|i: int| is_next(recs, matches, pos, i))
    } else {
        None
    }
}

/// Where one step forward from `pos` leaves the cursor: at the entry it
/// arrives at, or where it was if there is none.
pub open spec fn landing(recs: Seq<RecordView>, matches: Seq<Seq<char>>, pos: Position) -> Position {
    match next_index(recs, matches, pos) {
        Some(i) => Position::At(i as usize),
        None => pos,
    }
}

/// The value that a tail reads for a field: what follows the first `=` of
/// the entry's raw item.
pub open spec fn tail_field(items: Seq<Seq<char>>, name: Seq<char>) -> Option<Seq<char>> {
    match field_item(items, name) {
        Some(raw) => Some(value_part(raw)),
        None => None,
    }
}

/// The entry that a tail hands out for a record. Where the record carries no
/// message, the entry's message is empty.
pub open spec fn tail_entry_of(rec: RecordView) -> EntryView {
    EntryView {
        hostname: tail_field(rec.items, hostname_field()),
        unit: tail_field(rec.items, unit_field()),
        timestamp_utc: rec.timestamp,
        message: match tail_field(rec.items, message_field()) {
            Some(m) => m,
            None => Seq::<char>::empty(),
        },
    }
}

/// One step forward from a place arrives at one entry at most.
pub proof fn lemma_next_is_unique(
    recs: Seq<RecordView>,
    matches: Seq<Seq<char>>,
    pos: Position,
    i: int,
    j: int,
)
    requires
        is_next(recs, matches, pos, i),
        is_next(recs, matches, pos, j),
    ensures
        i == j,
{
    if i < j {
        assert(!eligible(recs, matches, pos, i));
    } else if j < i {
        assert(!eligible(recs, matches, pos, j));
    }
}

/// A known arrival is the arrival.
pub proof fn lemma_next_index_at(
    recs: Seq<RecordView>,
    matches: Seq<Seq<char>>,
    pos: Position,
    i: int,
)
    requires
        is_next(recs, matches, pos, i),
    ensures
        next_index(recs, matches, pos) == Some(i),
{
    lemma_next_is_unique(recs, matches, pos, i, choose|k: int| is_next(recs, matches, pos, k));
}

/// An entry that is appended when no entry is left to hand out, and that
/// passes the matches and is not older than the moment sought, is the next
/// to be handed out.
pub proof fn lemma_appended_entry_is_next(
    recs: Seq<RecordView>,
    matches: Seq<Seq<char>>,
    pos: Position,
    rec: RecordView,
)
    requires
        next_index(recs, matches, pos) is None,
        satisfies(rec.items, matches),
        pos matches Position::Time(t) ==> rec.timestamp >= t,
        pos matches Position::At(k) ==> k < recs.len(),
    ensures
        next_index(recs.push(rec), matches, pos) == Some(recs.len() as int),
{
    let grown = recs.push(rec);
    let n = recs.len() as int;
    assert(grown[n] == rec);
    assert forall|j: int| 0 <= j < n implies !eligible(grown, matches, pos, j) by {
        assert(grown[j] == recs[j]);
        if eligible(recs, matches, pos, j) {
            lemma_some_is_next(recs, matches, pos, j);
        }
    }
    assert(is_next(grown, matches, pos, n));
    lemma_next_index_at(grown, matches, pos, n);
}

/// An entry that does not pass the matches leaves a waiting tail waiting.
pub proof fn lemma_other_entry_is_passed_over(
    recs: Seq<RecordView>,
    matches: Seq<Seq<char>>,
    pos: Position,
    rec: RecordView,
)
    requires
        next_index(recs, matches, pos) is None,
        !satisfies(rec.items, matches),
    ensures
        next_index(recs.push(rec), matches, pos) is None,
{
    let grown = recs.push(rec);
    assert forall|i: int| !is_next(grown, matches, pos, i) by {
        if is_next(grown, matches, pos, i) {
            assert(i < recs.len());
            assert(grown[i] == recs[i]);
            assert(eligible(recs, matches, pos, i));
            lemma_some_is_next(recs, matches, pos, i);
        }
    }
}

/// Where some entry can be reached, a first one can.
pub proof fn lemma_some_is_next(
    recs: Seq<RecordView>,
    matches: Seq<Seq<char>>,
    pos: Position,
    i: int,
)
    requires
        eligible(recs, matches, pos, i),
    ensures
        next_index(recs, matches, pos) is Some,
    decreases i,
{
    if exists|j: int| 0 <= j < i && eligible(recs, matches, pos, j) {
        let j = choose|j: int| 0 <= j < i && eligible(recs, matches, pos, j);
        lemma_some_is_next(recs, matches, pos, j);
    } else {
        assert(is_next(recs, matches, pos, i));
    }
}

/// What one step of a tail gives.
#[derive(Debug)]
pub enum TailStep {
    /// The next entry of the unit on the host.
    Entry(Entry),
    /// There is no entry yet: wait this long, then ask again.
    Wait(Duration),
}

/// A live tail of the entries of one unit on one host. It owns its journal
/// handle; a tail that has ended is started again by making a new one.
#[derive(Debug)]
pub struct JournalTail {
    journal: Journal,
    config: TailConfig,
    buffered: bool,
}

/// One value of the current entry as a tail reads it: what follows the first
/// `=` of the raw item, or `None` where the entry does not carry the field.
fn tail_value(journal: &Journal, name: &str) -> (value: Option<String>)
    requires
        journal.wf(),
        journal.position() is At,
        !name@.contains('\0'),
    ensures
        journal.position() matches Position::At(k) && text_of(value) == tail_field(
            journal.records()[k as int].items,
            name@,
        ),
{
    match journal.get_field(name) {
        Ok(Some(raw)) => Some(field_value(raw.as_str())),
        _ => None,
    }
}

impl JournalTail {
    /// The journal of the tail.
    pub closed spec fn journal(&self) -> Journal {
        self.journal
    }

    /// The configuration of the tail.
    pub closed spec fn config(&self) -> TailConfig {
        self.config
    }

    /// Whether the cursor stands at an entry that has not been handed out.
    pub closed spec fn buffered(&self) -> bool {
        self.buffered
    }

    /// The tail's invariant: its journal is well formed, carries the two
    /// matches of the configuration and has been sought, and a buffered
    /// entry is one at which the cursor stands.
    pub closed spec fn wf(&self) -> bool {
        &&& self.journal.wf()
        &&& self.journal.matches() == tail_matches(self.config.hostname@, self.config.service@)
        &&& !(self.journal.position() is Head)
        &&& (self.buffered ==> self.journal.position() is At)
    }

    /// The entry that the next step hands out, by its index: the buffered
    /// entry, or else the next entry of the unit on the host, if the journal
    /// holds one.
    pub open spec fn due(&self) -> Option<int> {
        if self.buffered() {
            match self.journal().position() {
                Position::At(k) => Some(k as int),
                _ => None,
            }
        } else {
            next_index(self.journal().records(), self.journal().matches(), self.journal().position())
        }
    }

    /// What a well-formed tail guarantees to its users.
    pub proof fn lemma_wf(&self)
        requires
            self.wf(),
        ensures
            self.journal().wf(),
            self.journal().matches() == tail_matches(self.config()@.hostname, self.config()@.service),
            !(self.journal().position() is Head),
            self.buffered() ==> self.journal().position() is At,
            self.due() matches Some(i) ==> 0 <= i < self.journal().records().len(),
    {
        self.journal.lemma_wf();
    }

    /// Starts a tail on a journal at the time `now_usec`, in microseconds
    /// since the Unix epoch: attaches the matches on the host and the unit in
    /// place of any other, seeks to the configured offset before now, and
    /// takes one step forward. Where that step arrives at an entry, the
    /// entry is buffered and the first step of the tail hands it out; that
    /// it arrives at none is no failure. Fails with `InvalidArgument` where
    /// the host or the unit holds a NUL.
    pub fn new(config: TailConfig, journal: Journal, now_usec: u64) -> (made: Result<
        JournalTail,
        JournalError,
    >)
        requires
            journal.wf(),
        ensures
            made is Ok <==> !config@.hostname.contains('\0') && !config@.service.contains('\0'),
            made is Err ==> made matches Err(JournalError::InvalidArgument),
            made matches Ok(tail) ==> {
                &&& tail.wf()
                &&& tail.config() == config
                &&& tail.journal().records() == journal.records()
                &&& tail.journal().position() == landing(
                    journal.records(),
                    tail_matches(config@.hostname, config@.service),
                    Position::Time(start_time(now_usec, micros_of(config.start_time_offset))),
                )
                &&& tail.buffered() == (tail.journal().position() is At)
                &&& tail.due() == next_index(
                    journal.records(),
                    tail_matches(config@.hostname, config@.service),
                    Position::Time(start_time(now_usec, micros_of(config.start_time_offset))),
                )
            },
    {
        let mut journal = journal;
        let ghost recs = journal.records();
        proof {
            lemma_field_names();
        }
        journal.flush_matches();
        match journal.add_match("_HOSTNAME", config.hostname.as_str()) {
            Err(e) => {
                return Err(e);
            },
            Ok(()) => {},
        }
        match journal.add_match("_SYSTEMD_UNIT", config.service.as_str()) {
            Err(e) => {
                return Err(e);
            },
            Ok(()) => {},
        }
        let ghost matches = tail_matches(config@.hostname, config@.service);
        assert(journal.matches() =~= matches);
        let offset = duration_as_micros(&config.start_time_offset);
        let start: u64 = if offset >= now_usec as u128 {
            0
        } else {
            (now_usec as u128 - offset) as u64
        };
        match journal.seek_realtime_usec(start) {
            Err(e) => {
                return Err(e);
            },
            Ok(()) => {},
        }
        let moved = match journal.next() {
            Ok(moved) => moved,
            Err(e) => {
                return Err(e);
            },
        };
        proof {
            let pos = Position::Time(start);
            if moved {
                let k = match journal.position() {
                    Position::At(k) => k as int,
                    _ => 0,
                };
                lemma_next_index_at(recs, matches, pos, k);
            } else {
                assert forall|i: int| !is_next(recs, matches, pos, i) by {
                    assert(!eligible(recs, matches, pos, i));
                }
            }
        }
        Ok(JournalTail { journal, config, buffered: moved })
    }

    /// The configuration of the tail.
    pub fn settings(&self) -> (config: &TailConfig)
        ensures
            *config == self.config(),
    {
        &self.config
    }

    /// The journal of the tail.
    pub fn handle(&self) -> (journal: &Journal)
        ensures
            *journal == self.journal(),
    {
        &self.journal
    }

    /// Takes in an entry that the journal has received. An entry older than
    /// the last one is refused with `InvalidArgument`.
    pub fn ingest(&mut self, timestamp: u64, data: Vec<String>) -> (done: Result<(), JournalError>)
        requires
            old(self).wf(),
        ensures
            final(self).wf(),
            final(self).config() == old(self).config(),
            final(self).buffered() == old(self).buffered(),
            final(self).journal().position() == old(self).journal().position(),
            final(self).journal().matches() == old(self).journal().matches(),
            done is Ok <==> (old(self).journal().records().len() == 0 || old(
                self,
            ).journal().records().last().timestamp <= timestamp),
            done is Ok ==> final(self).journal().records() == old(self).journal().records().push(
                RecordView { timestamp, items: crate::journal::texts(data@) },
            ),
            done is Err ==> done == Err::<(), JournalError>(JournalError::InvalidArgument)
                && final(self).journal().records() == old(self).journal().records(),
    {
        self.journal.append(timestamp, data)
    }

    /// One step of the tail. Where an entry is buffered, it is handed out.
    /// Otherwise the journal is asked for the next entry of the unit on the
    /// host: where it holds one, the cursor moves to it and the entry is
    /// handed out; where it holds none, the cursor stays and the caller is
    /// told to wait for the poll interval before it asks again.
    pub fn poll(&mut self) -> (step: Result<TailStep, JournalError>)
        requires
            old(self).wf(),
        ensures
            final(self).wf(),
            final(self).config() == old(self).config(),
            final(self).journal().records() == old(self).journal().records(),
            final(self).journal().matches() == old(self).journal().matches(),
            !final(self).buffered(),
            step matches Ok(given) && match old(self).due() {
                Some(i) => given matches TailStep::Entry(entry) && entry@ == tail_entry_of(
                    old(self).journal().records()[i],
                ) && final(self).journal().position() == Position::At(i as usize),
                None => given matches TailStep::Wait(interval) && interval == old(
                    self,
                ).config().poll_interval && final(self).journal().position() == old(
                    self,
                ).journal().position(),
            },
    {
        proof {
            lemma_field_names();
            self.journal.lemma_wf();
        }
        let ghost recs = self.journal.records();
        let ghost matches = self.journal.matches();
        let ghost before = self.journal.position();
        if self.buffered {
            self.buffered = false;
        } else {
            let moved = match self.journal.next() {
                Ok(moved) => moved,
                Err(e) => {
                    return Err(e);
                },
            };
            if !moved {
                proof {
                    assert forall|i: int| !is_next(recs, matches, before, i) by {
                        assert(!eligible(recs, matches, before, i));
                    }
                }
                return Ok(TailStep::Wait(self.config.poll_interval.clone()));
            }
            proof {
                let k = match self.journal.position() {
                    Position::At(k) => k as int,
                    _ => 0,
                };
                lemma_next_index_at(recs, matches, before, k);
            }
        }
        let hostname = tail_value(&self.journal, "_HOSTNAME");
        let unit = tail_value(&self.journal, "_SYSTEMD_UNIT");
        let message = match tail_value(&self.journal, "MESSAGE") {
            Some(text) => text,
            None => String::new(),
        };
        let timestamp = match self.journal.get_realtime_usec() {
            Ok(t) => t,
            Err(e) => {
                return Err(e);
            },
        };
        Ok(TailStep::Entry(Entry { hostname, unit, timestamp_utc: timestamp, message }))
    }

    /// The sequence of the tail's entries, to be pulled step by step.
    pub fn iter(&mut self) -> (entries: JournalIterator<'_>)
        ensures
            *entries.tail == *old(self),
            *final(entries.tail) == *final(self),
    {
        JournalIterator { tail: self }
    }
}

/// The entries of a tail as a sequence without end: each step hands out the
/// next entry or tells the caller to wait.
pub struct JournalIterator<'a> {
    /// The tail that the sequence draws from.
    pub tail: &'a mut JournalTail,
}

impl<'a> JournalIterator<'a> {
    /// One step of the tail that the sequence draws from.
    pub fn poll(&mut self) -> (step: Result<TailStep, JournalError>)
        requires
            old(self).tail.wf(),
        ensures
            final(self).tail.wf(),
            *final(final(self).tail) == *final(old(self).tail),
            final(self).tail.config() == old(self).tail.config(),
            final(self).tail.journal().records() == old(self).tail.journal().records(),
            final(self).tail.journal().matches() == old(self).tail.journal().matches(),
            !final(self).tail.buffered(),
            step matches Ok(given) && match old(self).tail.due() {
                Some(i) => given matches TailStep::Entry(entry) && entry@ == tail_entry_of(
                    old(self).tail.journal().records()[i],
                ) && final(self).tail.journal().position() == Position::At(i as usize),
                None => given matches TailStep::Wait(interval) && interval == old(
                    self,
                ).tail.config().poll_interval && final(self).tail.journal().position() == old(
                    self,
                ).tail.journal().position(),
            },
    {
        self.tail.poll()
    }
}

} // verus!
