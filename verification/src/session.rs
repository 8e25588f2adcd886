//! The session of one scan: the master list, its filtered view under the
//! active query, and the step from one state to the next for every event
//! of the scan and every query that is submitted.

use vstd::prelude::*;
use crate::filter::{
    filter_records, lemma_append_is_requery, lemma_filter_none, query_of, Filter, Query,
    SizeTest,
};
use crate::record::{copy_range, lemma_records_add, records, FileInfo, FileRecord};
use crate::scanner::{ScanEvent, ScanMessage};
use crate::sort::{sort_files, stable_sort_of, SortColumn};

verus! {

/// The state of a session.
pub struct SessionState {
    /// Every file found so far, in the order of discovery.
    pub master: Seq<FileRecord>,
    /// The files of `master` that the active query accepts.
    pub filtered: Seq<FileRecord>,
    /// The active query.
    pub query: Query,
    /// A scan is under way.
    pub scanning: bool,
    /// How long the scan has run, in milliseconds.
    pub elapsed_ms: u128,
    /// The number of the scan that the session belongs to.
    pub id: u64,
}

/// The number of the scan after scan `id`.
pub open spec fn next_id(id: u64) -> u64 {
    if id == u64::MAX {
        0
    } else {
        (id + 1) as u64
    }
}

impl SessionState {
    /// The filtered view is the master list under the active query.
    pub open spec fn consistent(self) -> bool {
        self.filtered == filter_records(self.master, self.query)
    }

    /// The state when a new scan starts: both lists are empty, the clock
    /// is at zero, the scan has the next number. The query stays.
    pub open spec fn started(self) -> SessionState {
        SessionState {
            master: Seq::empty(),
            filtered: Seq::empty(),
            query: self.query,
            scanning: true,
            elapsed_ms: 0,
            id: next_id(self.id),
        }
    }

    /// The state after an event of scan `id` at `elapsed_now` milliseconds
    /// into the scan. An event of another scan than the session's own
    /// changes nothing. A batch joins the master list, and its accepted
    /// files the filtered view; the completion stops the clock at the time
    /// it carries.
    pub open spec fn after_event(self, id: u64, event: ScanEvent, elapsed_now: u128) -> SessionState {
        if id != self.id {
            self
        } else {
            match event {
                ScanEvent::Started => SessionState { scanning: true, ..self },
                ScanEvent::Batch(files) => SessionState {
                    master: self.master + files,
                    filtered: self.filtered + filter_records(files, self.query),
                    elapsed_ms: elapsed_now,
                    ..self
                },
                ScanEvent::Completed { elapsed_ms, file_count } => SessionState {
                    scanning: false,
                    elapsed_ms,
                    ..self
                },
            }
        }
    }

    /// The state after a query was submitted: the filtered view is made
    /// anew from the whole master list.
    pub open spec fn after_query(self, query: Query) -> SessionState {
        SessionState { filtered: filter_records(self.master, query), query, ..self }
    }
}

/// The texts of a list of query texts.
pub open spec fn texts(pending: Seq<String>) -> Seq<Seq<char>> {
    pending.map_values(|t: String| t@)
}

impl SessionState {
    /// The state after the last of several pending queries was
    /// submitted, the others being dropped.
    pub open spec fn after_latest(self, pending: Seq<Seq<char>>) -> SessionState {
        if pending.len() == 0 {
            self
        } else {
            self.after_query(query_of(pending.last()))
        }
    }

    /// The state after every one of several queries was submitted, in
    /// their order.
    pub open spec fn after_all(self, pending: Seq<Seq<char>>) -> SessionState
        decreases pending.len(),
    {
        if pending.len() == 0 {
            self
        } else {
            self.after_all(pending.drop_last()).after_query(query_of(pending.last()))
        }
    }
}

/// The last query wins: to submit only the last of several pending
/// queries leaves the session as if each had been submitted in turn.
pub proof fn lemma_last_query_wins(s: SessionState, pending: Seq<Seq<char>>)
    ensures
        s.after_latest(pending) == s.after_all(pending),
        s.after_all(pending).master == s.master,
    decreases pending.len(),
{
    if pending.len() > 0 {
        lemma_last_query_wins(s, pending.drop_last());
    }
}

/// The sum of the sizes of a list of files.
pub open spec fn total_size(files: Seq<FileRecord>) -> nat
    decreases files.len(),
{
    if files.len() == 0 {
        0
    } else {
        total_size(files.drop_last()) + files.last().size as nat
    }
}

/// Every step of a session keeps the filtered view consistent with the
/// master list: a new scan, an event of any scan, a new query.
pub proof fn lemma_steps_consistent(
    s: SessionState,
    id: u64,
    event: ScanEvent,
    elapsed_now: u128,
    query: Query,
)
    requires
        s.consistent(),
    ensures
        s.started().consistent(),
        s.after_event(id, event, elapsed_now).consistent(),
        s.after_query(query).consistent(),
{
    lemma_filter_none(s.query);
    if let ScanEvent::Batch(files) = event {
        lemma_append_is_requery(s.master, files, s.query);
    }
}

/// Within a session the master list only grows at its end: an event
/// leaves what was found before in place, and a query does not touch the
/// list at all.
pub proof fn lemma_master_append_only(
    s: SessionState,
    id: u64,
    event: ScanEvent,
    elapsed_now: u128,
    query: Query,
)
    ensures
        s.master.is_prefix_of(s.after_event(id, event, elapsed_now).master),
        s.after_query(query).master == s.master,
{
}

/// A query that is submitted after the batches have arrived gives the
/// view that the batches would have built under it.
pub proof fn lemma_requery_after_batch(
    s: SessionState,
    files: Seq<FileRecord>,
    elapsed_now: u128,
    query: Query,
)
    ensures
        s.after_event(s.id, ScanEvent::Batch(files), elapsed_now).after_query(query).filtered
            == s.after_query(query).after_event(
            s.id,
            ScanEvent::Batch(files),
            elapsed_now,
        ).filtered,
{
    lemma_append_is_requery(s.master, files, query);
}

/// An event of a scan that a newer scan has replaced changes nothing.
pub proof fn lemma_stale_event_ignored(s: SessionState, event: ScanEvent, elapsed_now: u128)
    ensures
        s.started().after_event(s.id, event, elapsed_now) == s.started(),
{
}

/// The coordinator of a scan: it owns the master list and the filtered
/// view, takes in the events of the scan and the queries, and hands out
/// copies of what it holds.
pub struct ScanSession {
    master: Vec<FileInfo>,
    filtered: Vec<FileInfo>,
    filter: Filter,
    scanning: bool,
    elapsed_ms: u128,
    id: u64,
}

impl View for ScanSession {
    type V = SessionState;

    closed spec fn view(&self) -> SessionState {
        SessionState {
            master: records(self.master@),
            filtered: records(self.filtered@),
            query: self.filter@,
            scanning: self.scanning,
            elapsed_ms: self.elapsed_ms,
            id: self.id,
        }
    }
}

impl ScanSession {
    /// The filtered view is the master list under the active query.
    #[verifier::type_invariant]
    closed spec fn inv(&self) -> bool {
        self@.consistent()
    }

    /// An idle session without files, whose query accepts everything.
    pub fn new() -> (s: ScanSession)
        ensures
            s@.consistent(),
            s@ == (SessionState {
                master: Seq::empty(),
                filtered: Seq::empty(),
                query: Query {
                    match_all: true,
                    needle: Seq::empty(),
                    size_test: SizeTest::Never,
                },
                scanning: false,
                elapsed_ms: 0,
                id: 0,
            }),
    {
        let master: Vec<FileInfo> = Vec::new();
        let filtered: Vec<FileInfo> = Vec::new();
        let filter = Filter::new();
        proof {
            assert(records(master@) =~= Seq::<FileRecord>::empty());
            assert(records(filtered@) =~= Seq::<FileRecord>::empty());
            lemma_filter_none(filter@);
        }
        ScanSession { master, filtered, filter, scanning: false, elapsed_ms: 0, id: 0 }
    }

    /// Takes the state out of the session and leaves an empty one behind.
    fn take(&mut self) -> (state: ScanSession)
        ensures
            state@ == old(self)@,
            state@.consistent(),
    {
        let mut state = ScanSession::new();
        core::mem::swap(self, &mut state);
        proof {
            use_type_invariant(&state);
        }
        state
    }

    /// Starts a new scan and hands out its number. Events that carry
    /// another number are ignored from now on.
    pub fn start(&mut self) -> (id: u64)
        ensures
            final(self)@.consistent(),
            final(self)@ == old(self)@.started(),
            id == final(self)@.id,
    {
        let ScanSession { master: _, filtered: _, filter, scanning: _, elapsed_ms: _, id } =
            self.take();
        let next: u64 = if id == u64::MAX {
            0
        } else {
            id + 1
        };
        let master: Vec<FileInfo> = Vec::new();
        let filtered: Vec<FileInfo> = Vec::new();
        proof {
            assert(records(master@) =~= Seq::<FileRecord>::empty());
            assert(records(filtered@) =~= Seq::<FileRecord>::empty());
            lemma_filter_none(filter@);
        }
        *self = ScanSession { master, filtered, filter, scanning: true, elapsed_ms: 0, id: next };
        next
    }

    /// Takes in an event of scan `id`, `elapsed_now` milliseconds into
    /// that scan, and says whether it was the session's own scan.
    pub fn handle(&mut self, id: u64, message: ScanMessage, elapsed_now: u128) -> (applied: bool)
        ensures
            final(self)@.consistent(),
            final(self)@ == old(self)@.after_event(id, message@, elapsed_now),
            applied == (id == old(self)@.id),
    {
        proof {
            use_type_invariant(&*self);
        }
        if id != self.id {
            return false;
        }
        match message {
            ScanMessage::Started => {
                self.scanning = true;
            },
            ScanMessage::Batch(files) => {
                let mut files = files;
                let ScanSession { mut master, mut filtered, filter, scanning, elapsed_ms: _, id } =
                    self.take();
                proof {
                    lemma_append_is_requery(records(master@), records(files@), filter@);
                    lemma_records_add(master@, files@);
                }
                filter.append_matching(&files, &mut filtered);
                master.append(&mut files);
                *self = ScanSession {
                    master,
                    filtered,
                    filter,
                    scanning,
                    elapsed_ms: elapsed_now,
                    id,
                };
            },
            ScanMessage::Completed { elapsed_ms, file_count: _ } => {
                self.scanning = false;
                self.elapsed_ms = elapsed_ms;
            },
        }
        true
    }

    /// Replaces the active query by the one that `text` means and makes
    /// the filtered view anew from the whole master list.
    pub fn submit_query(&mut self, text: &str)
        ensures
            final(self)@.consistent(),
            final(self)@ == old(self)@.after_query(query_of(text@)),
    {
        let ScanSession { master, filtered: _, mut filter, scanning, elapsed_ms, id } =
            self.take();
        filter.set_search(text);
        let filtered = filter.select(&master);
        *self = ScanSession { master, filtered, filter, scanning, elapsed_ms, id };
    }

    /// Submits the last of the pending query texts and drops the others;
    /// says whether there was one.
    pub fn submit_latest(&mut self, pending: &Vec<String>) -> (applied: bool)
        ensures
            final(self)@.consistent(),
            final(self)@ == old(self)@.after_latest(texts(pending@)),
            applied == (pending@.len() > 0),
    {
        proof {
            use_type_invariant(&*self);
        }
        let n: usize = pending.len();
        if n == 0 {
            return false;
        }
        self.submit_query(pending[n - 1].as_str());
        true
    }

    /// Number of files in the filtered view.
    pub fn filtered_len(&self) -> (n: usize)
        ensures
            n == self@.filtered.len(),
            self@.consistent(),
    {
        proof {
            use_type_invariant(self);
        }
        self.filtered.len()
    }

    /// Number of files in the master list.
    pub fn master_len(&self) -> (n: usize)
        ensures
            n == self@.master.len(),
    {
        self.master.len()
    }

    /// Whether a scan is under way.
    pub fn is_scanning(&self) -> (b: bool)
        ensures
            b == self@.scanning,
    {
        self.scanning
    }

    /// How long the scan has run, in milliseconds.
    pub fn elapsed_ms(&self) -> (ms: u128)
        ensures
            ms == self@.elapsed_ms,
    {
        self.elapsed_ms
    }

    /// The number of the session's scan.
    pub fn scan_id(&self) -> (id: u64)
        ensures
            id == self@.id,
    {
        self.id
    }

    /// The sum of the sizes of all files in the master list.
    pub fn master_size(&self) -> (sum: u128)
        ensures
            sum == total_size(self@.master),
    {
        let n: usize = self.master.len();
        let mut sum: u128 = 0;
        let mut i: usize = 0;
        assert(self.master@.take(0) =~= Seq::<FileInfo>::empty());
        assert(records(self.master@.take(0)) =~= Seq::<FileRecord>::empty());
        while i < n
            invariant
                i <= n,
                n == self.master@.len(),
                sum == total_size(records(self.master@.take(i as int))),
                sum <= i * u64::MAX,
            decreases n - i,
        {
            proof {
                let more = records(self.master@.take(i + 1));
                assert(more.drop_last() =~= records(self.master@.take(i as int)));
                assert(more.last() == self.master@[i as int]@);
                assert((i + 1) * u64::MAX == i * u64::MAX + u64::MAX) by (nonlinear_arith);
                assert(i * u64::MAX <= usize::MAX * u64::MAX) by (nonlinear_arith)
                    requires
                        i <= usize::MAX,
                ;
            }
            sum = sum + self.master[i].size as u128;
            i = i + 1;
        }
        assert(self.master@.take(n as int) =~= self.master@);
        sum
    }

    /// A copy of the file at place `index` of the filtered view, if the
    /// view is that long.
    pub fn filtered_get(&self, index: usize) -> (r: Option<FileInfo>)
        ensures
            match r {
                Some(f) => index < self@.filtered.len() && f@ == self@.filtered[index as int],
                None => index >= self@.filtered.len(),
            },
            self@.consistent(),
    {
        proof {
            use_type_invariant(self);
        }
        if index < self.filtered.len() {
            Some(self.filtered[index].clone())
        } else {
            None
        }
    }

    /// A copy of the filtered view as it is now: the files of the master
    /// list that the active query accepts, in the order of the master
    /// list.
    pub fn snapshot(&self) -> (files: Vec<FileInfo>)
        ensures
            records(files@) == self@.filtered,
            self@.consistent(),
    {
        proof {
            use_type_invariant(self);
        }
        let files = copy_range(&self.filtered, 0, self.filtered.len());
        assert(files@ =~= self.filtered@);
        files
    }

    /// A copy of the filtered view sorted by `column`. The view itself
    /// stays as it is.
    pub fn sorted_snapshot(&self, column: SortColumn, ascending: bool) -> (files: Vec<FileInfo>)
        ensures
            stable_sort_of(records(files@), self@.filtered, column, ascending),
            self@.consistent(),
    {
        proof {
            use_type_invariant(self);
        }
        sort_files(&self.filtered, column, ascending)
    }
}

} // verus!
