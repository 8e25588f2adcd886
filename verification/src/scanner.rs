//! The scan protocol: which entries of a walk are listed, how the listed
//! files are grouped into batches, and the events a scan emits.

use vstd::prelude::*;
pub use crate::record::FileInfo;
use crate::record::{copy_range, lemma_records_push, records, FileRecord, RawEntry};
use crate::text::{
    contains, eq_ignore_ascii_case, has_substring, lowercase, lowercased,
    same_ignoring_ascii_case,
};

verus! {

/// Most entries that the whole-tree scan visits.
pub const MAX_VISITED: usize = 100000;

/// Number of records in every batch but possibly the last.
pub const BATCH_SIZE: usize = 100;

/// One progress event of a scan.
#[derive(Debug)]
pub enum ScanMessage {
    Started,
    Batch(Vec<FileInfo>),
    Completed { elapsed_ms: u128, file_count: usize },
}

/// The mathematical content of a `ScanMessage`.
pub enum ScanEvent {
    Started,
    Batch(Seq<FileRecord>),
    Completed { elapsed_ms: u128, file_count: usize },
}

impl View for ScanMessage {
    type V = ScanEvent;

    open spec fn view(&self) -> ScanEvent {
        match *self {
            ScanMessage::Started => ScanEvent::Started,
            ScanMessage::Batch(files) => ScanEvent::Batch(records(files@)),
            ScanMessage::Completed { elapsed_ms, file_count } => ScanEvent::Completed {
                elapsed_ms,
                file_count,
            },
        }
    }
}

impl Clone for ScanMessage {
    fn clone(&self) -> (r: Self)
        ensures
            r@ == self@,
    {
        match self {
            ScanMessage::Started => ScanMessage::Started,
            ScanMessage::Batch(files) => {
                let copy = copy_range(files, 0, files.len());
                assert(copy@ =~= files@);
                ScanMessage::Batch(copy)
            },
            ScanMessage::Completed { elapsed_ms, file_count } => ScanMessage::Completed {
                elapsed_ms: *elapsed_ms,
                file_count: *file_count,
            },
        }
    }
}

/// The events of a list of messages, in the same order.
pub open spec fn events(messages: Seq<ScanMessage>) -> Seq<ScanEvent> {
    messages.map_values(|m: ScanMessage| m@)
}

/// An entry is listed when it is a file below the root of the walk.
pub open spec fn listed(e: RawEntry) -> bool {
    !e.is_dir && e.depth > 0
}

/// The records of the listed entries, in the order of the walk.
pub open spec fn listed_files(entries: Seq<RawEntry>) -> Seq<FileRecord> {
    entries.filter(|e: RawEntry| listed(e)).map_values(|e: RawEntry| e.record())
}

/// Number of batches that `n` files are sent in.
pub open spec fn batch_count(n: nat) -> nat {
    (n + BATCH_SIZE - 1) as nat / (BATCH_SIZE as nat)
}

/// The `k`-th batch of a list of files.
pub open spec fn batch_at(files: Seq<FileRecord>, k: int) -> Seq<FileRecord> {
    let start = k * BATCH_SIZE;
    let end = if start + BATCH_SIZE <= files.len() {
        start + BATCH_SIZE
    } else {
        files.len() as int
    };
    files.subrange(start, end)
}

/// The batches that a list of files is sent in.
pub open spec fn batches(files: Seq<FileRecord>) -> Seq<Seq<FileRecord>> {
    Seq::new(batch_count(files.len()), |k: int| batch_at(files, k))
}

/// One batch event for each batch.
pub open spec fn batch_events(bs: Seq<Seq<FileRecord>>) -> Seq<ScanEvent> {
    bs.map_values(|b: Seq<FileRecord>| ScanEvent::Batch(b))
}

/// The whole event stream of a scan that found `files` and took
/// `elapsed_ms` milliseconds.
pub open spec fn scan_events(files: Seq<FileRecord>, elapsed_ms: u128) -> Seq<ScanEvent> {
    seq![ScanEvent::Started] + batch_events(batches(files)) + seq![
        ScanEvent::Completed { elapsed_ms, file_count: files.len() as usize },
    ]
}

/// The files after one more entry of the walk: a listed entry adds its
/// record, any other entry adds nothing.
pub open spec fn accepted(files: Seq<FileRecord>, e: RawEntry) -> Seq<FileRecord> {
    if listed(e) {
        files.push(e.record())
    } else {
        files
    }
}

/// The batch that falls due once the last of `files` has been accepted:
/// the last `BATCH_SIZE` files, when their number is a multiple of it.
pub open spec fn batch_due(files: Seq<FileRecord>) -> Option<Seq<FileRecord>> {
    if files.len() > 0 && files.len() % (BATCH_SIZE as nat) == 0 {
        Some(files.subrange(files.len() - BATCH_SIZE, files.len() as int))
    } else {
        None
    }
}

/// The partial batch that is left at the end of a scan, if any.
pub open spec fn batch_left(files: Seq<FileRecord>) -> Option<Seq<FileRecord>> {
    if files.len() % (BATCH_SIZE as nat) != 0 {
        Some(files.subrange(files.len() - files.len() % (BATCH_SIZE as nat), files.len() as int))
    } else {
        None
    }
}

/// The files that have gone out in full batches.
pub open spec fn full_part(files: Seq<FileRecord>) -> Seq<FileRecord> {
    files.take(files.len() - files.len() % (BATCH_SIZE as nat))
}

/// The event of an optional message.
pub open spec fn event_of(m: Option<ScanMessage>) -> Option<ScanEvent> {
    match m {
        Some(msg) => Some(msg@),
        None => None,
    }
}

/// The batch event of an optional batch.
pub open spec fn batch_event(b: Option<Seq<FileRecord>>) -> Option<ScanEvent> {
    match b {
        Some(files) => Some(ScanEvent::Batch(files)),
        None => None,
    }
}

/// A directory that the whole-tree scan does not enter: one of a few
/// names known to hold very many files, whatever the case of their ASCII
/// letters, or a path that holds one of a few fragments once it is put in
/// lower case.
pub open spec fn skipped_directory(name: Seq<char>, path_lower: Seq<char>) -> bool {
    ||| same_ignoring_ascii_case(name, "node_modules"@)
    ||| same_ignoring_ascii_case(name, "$RECYCLE.BIN"@)
    ||| same_ignoring_ascii_case(name, "System Volume Information"@)
    ||| has_substring(path_lower, ".git\\objects"@)
    ||| has_substring(path_lower, "appdata\\local\\temp"@)
    ||| has_substring(path_lower, "appdata\\roaming\\npm-cache"@)
}

/// The whole-tree scan keeps an entry, and walks into it, unless it is a
/// skipped directory below the root.
pub open spec fn entered(is_dir: bool, depth: usize, name: Seq<char>, path_lower: Seq<char>) -> bool {
    !(is_dir && depth > 0 && skipped_directory(name, path_lower))
}

/// The entries below the root, in the order of the walk.
pub open spec fn below_root(entries: Seq<RawEntry>) -> Seq<RawEntry> {
    entries.filter(|e: RawEntry| e.depth > 0)
}

/// The entries that the whole-tree scan looks at: the first `MAX_VISITED`
/// below the root.
pub open spec fn visited(entries: Seq<RawEntry>) -> Seq<RawEntry> {
    let below = below_root(entries);
    if below.len() <= MAX_VISITED {
        below
    } else {
        below.take(MAX_VISITED as int)
    }
}

/// The streaming scan: it takes the entries of a walk one by one and says
/// when a batch is due.
pub struct Scanner {
    files: Vec<FileInfo>,
}

impl View for Scanner {
    type V = Seq<FileRecord>;

    /// The files accepted so far.
    closed spec fn view(&self) -> Seq<FileRecord> {
        records(self.files@)
    }
}

impl Scanner {
    /// A scanner that has seen no entry.
    pub fn new() -> (s: Scanner)
        ensures
            s@ == Seq::<FileRecord>::empty(),
    {
        let s = Scanner { files: Vec::new() };
        assert(s@ =~= Seq::<FileRecord>::empty());
        s
    }

    /// Takes the next entry of the walk. A listed entry is recorded; when
    /// that fills a batch, the batch is handed out.
    pub fn accept(&mut self, entry: &RawEntry) -> (m: Option<ScanMessage>)
        ensures
            final(self)@ == accepted(old(self)@, *entry),
            event_of(m) == if listed(*entry) {
                batch_event(batch_due(final(self)@))
            } else {
                None
            },
    {
        if entry.is_dir || entry.depth == 0 {
            return None;
        }
        let file = match FileInfo::from_entry(entry) {
            Some(f) => f,
            None => { return None; },
        };
        proof {
            lemma_records_push(self.files@, file);
        }
        self.files.push(file);
        let n: usize = self.files.len();
        if n % BATCH_SIZE == 0 {
            let batch = copy_range(&self.files, n - BATCH_SIZE, n);
            assert(records(batch@) =~= self@.subrange(n - BATCH_SIZE, n as int));
            Some(ScanMessage::Batch(batch))
        } else {
            None
        }
    }

    /// Ends the scan: hands out the partial batch that is left, if any,
    /// the completion event, and all files in the order they were found.
    pub fn finish(self, elapsed_ms: u128) -> (r: (Option<ScanMessage>, ScanMessage, Vec<FileInfo>))
        ensures
            event_of(r.0) == batch_event(batch_left(self@)),
            r.1@ == (ScanEvent::Completed { elapsed_ms, file_count: self@.len() as usize }),
            records(r.2@) == self@,
    {
        let n: usize = self.files.len();
        let left: usize = n % BATCH_SIZE;
        let rest = if left != 0 {
            let batch = copy_range(&self.files, n - left, n);
            assert(records(batch@) =~= self@.subrange(n - left, n as int));
            Some(ScanMessage::Batch(batch))
        } else {
            None
        };
        (rest, ScanMessage::Completed { elapsed_ms, file_count: n }, self.files)
    }

    /// The whole event stream of a scan over entries that were all read
    /// beforehand, with all files in the order they were found.
    pub fn scan_directory(entries: &Vec<RawEntry>, elapsed_ms: u128) -> (r: (
        Vec<ScanMessage>,
        Vec<FileInfo>,
    ))
        ensures
            events(r.0@) == scan_events(listed_files(entries@), elapsed_ms),
            records(r.1@) == listed_files(entries@),
    {
        let mut scanner = Scanner::new();
        let mut out: Vec<ScanMessage> = Vec::new();
        out.push(ScanMessage::Started);
        assert(events(out@) =~= seq![ScanEvent::Started]);
        assert(batches(full_part(scanner@)) =~= Seq::<Seq<FileRecord>>::empty());
        assert(entries@.take(0) =~= Seq::<RawEntry>::empty());
        assert(listed_files(entries@.take(0)) =~= Seq::<FileRecord>::empty()) by {
            reveal(Seq::filter);
        }
        let mut i: usize = 0;
        while i < entries.len()
            invariant
                i <= entries@.len(),
                scanner@ == listed_files(entries@.take(i as int)),
                events(out@) =~= seq![ScanEvent::Started] + batch_events(
                    batches(full_part(scanner@)),
                ),
            decreases entries@.len() - i,
        {
            let ghost before = scanner@;
            let ghost sent = batches(full_part(before));
            let m = scanner.accept(&entries[i]);
            proof {
                lemma_listed_push(entries@.take(i as int), entries@[i as int]);
                assert(entries@.take(i + 1) =~= entries@.take(i as int).push(entries@[i as int]));
                if listed(entries@[i as int]) {
                    lemma_batches_step(before, entries@[i as int].record());
                }
            }
            match m {
                Some(msg) => {
                    proof {
                        lemma_events_push(out@, msg);
                        assert(batch_events(sent.push(batch_due(scanner@).unwrap()))
                            =~= batch_events(sent).push(msg@));
                    }
                    out.push(msg);
                },
                None => {},
            }
            i = i + 1;
        }
        assert(entries@.take(i as int) =~= entries@);
        let ghost files = scanner@;
        let ghost sent = batches(full_part(files));
        let (rest, done, all) = scanner.finish(elapsed_ms);
        proof {
            lemma_batches_finish(files);
        }
        match rest {
            Some(msg) => {
                proof {
                    lemma_events_push(out@, msg);
                    assert(batch_events(sent.push(batch_left(files).unwrap())) =~= batch_events(
                        sent,
                    ).push(msg@));
                }
                out.push(msg);
            },
            None => {},
        }
        proof {
            lemma_events_push(out@, done);
        }
        out.push(done);
        (out, all)
    }

    /// Whether the whole-tree scan keeps an entry, given its path in lower
    /// case.
    pub fn enters_lowered(is_dir: bool, depth: usize, name: &str, path_lower: &str) -> (r: bool)
        ensures
            r == entered(is_dir, depth, name@, path_lower@),
    {
        if !is_dir || depth == 0 {
            return true;
        }
        !(eq_ignore_ascii_case(name, "node_modules") || eq_ignore_ascii_case(name, "$RECYCLE.BIN")
            || eq_ignore_ascii_case(name, "System Volume Information") || contains(
            path_lower,
            ".git\\objects",
        ) || contains(path_lower, "appdata\\local\\temp") || contains(
            path_lower,
            "appdata\\roaming\\npm-cache",
        ))
    }

    /// Whether the whole-tree scan keeps an entry and walks into it.
    pub fn enters(is_dir: bool, depth: usize, name: &str, path: &str) -> (r: bool)
        ensures
            r == entered(is_dir, depth, name@, lowercased(path@)),
    {
        if !is_dir || depth == 0 {
            return true;
        }
        let path_lower = lowercase(path);
        Scanner::enters_lowered(is_dir, depth, name, path_lower.as_str())
    }

    /// The files among the entries that the whole-tree scan looks at, in
    /// the order of the walk. No event is emitted.
    pub fn scan_directory_parallel(entries: &Vec<RawEntry>) -> (r: Vec<FileInfo>)
        ensures
            records(r@) == listed_files(visited(entries@)),
    {
        let mut out: Vec<FileInfo> = Vec::new();
        let mut seen: usize = 0;
        let mut i: usize = 0;
        proof {
            assert(entries@.take(0) =~= Seq::<RawEntry>::empty());
            reveal(Seq::filter);
            assert(records(out@) =~= listed_files(entries@.take(0)));
        }
        while i < entries.len() && seen < MAX_VISITED
            invariant
                i <= entries@.len(),
                seen <= MAX_VISITED,
                seen == below_root(entries@.take(i as int)).len(),
                records(out@) == listed_files(entries@.take(i as int)),
            decreases entries@.len() - i,
        {
            proof {
                let sofar = entries@.take(i as int);
                let e = entries@[i as int];
                assert(entries@.take(i + 1) =~= sofar.push(e));
                sofar.lemma_filter_push(e, |e: RawEntry| e.depth > 0);
                lemma_listed_push(sofar, e);
            }
            let entry = &entries[i];
            if entry.depth > 0 {
                seen = seen + 1;
                if !entry.is_dir {
                    match FileInfo::from_entry(entry) {
                        Some(f) => {
                            proof {
                                lemma_records_push(out@, f);
                            }
                            out.push(f);
                        },
                        None => {},
                    }
                }
            }
            i = i + 1;
        }
        proof {
            let sofar = entries@.take(i as int);
            let rest = entries@.skip(i as int);
            assert(sofar + rest =~= entries@);
            Seq::filter_distributes_over_add(sofar, rest, |e: RawEntry| e.depth > 0);
            if i < entries@.len() {
                assert(below_root(entries@).take(MAX_VISITED as int) =~= below_root(sofar));
            } else {
                assert(sofar =~= entries@);
            }
            assert(visited(entries@) == below_root(sofar));
            lemma_listed_below(sofar);
        }
        out
    }
}

/// Accepting one more entry extends the listed files by that entry.
pub proof fn lemma_listed_push(entries: Seq<RawEntry>, e: RawEntry)
    ensures
        listed_files(entries.push(e)) == accepted(listed_files(entries), e),
{
    let keep = |e: RawEntry| listed(e);
    entries.lemma_filter_push(e, keep);
    assert(listed_files(entries.push(e)) =~= accepted(listed_files(entries), e));
}

/// Leaving out the entries at the root does not change the listed files.
pub proof fn lemma_listed_below(entries: Seq<RawEntry>)
    ensures
        listed_files(below_root(entries)) == listed_files(entries),
    decreases entries.len(),
{
    reveal(Seq::filter);
    if entries.len() > 0 {
        let front = entries.drop_last();
        let e = entries.last();
        assert(entries =~= front.push(e));
        lemma_listed_below(front);
        front.lemma_filter_push(e, |e: RawEntry| e.depth > 0);
        lemma_listed_push(front, e);
        if e.depth > 0 {
            lemma_listed_push(below_root(front), e);
        }
    }
}

/// The last batch of a non-empty list stands behind the batches of what
/// precedes it.
pub proof fn lemma_batches_last(files: Seq<FileRecord>, p: int)
    requires
        0 <= p < files.len(),
        p % (BATCH_SIZE as int) == 0,
        files.len() - p <= BATCH_SIZE,
    ensures
        batches(files) == batches(files.take(p)).push(files.subrange(p, files.len() as int)),
{
    let whole = batches(files);
    let split = batches(files.take(p)).push(files.subrange(p, files.len() as int));
    assert(whole.len() == split.len());
    assert forall|k: int| 0 <= k < whole.len() implies whole[k] == split[k] by {
        assert(whole[k] =~= split[k]);
    }
    assert(whole =~= split);
}

/// What one more file does to the batches that are complete.
pub proof fn lemma_batches_step(files: Seq<FileRecord>, f: FileRecord)
    ensures
        batches(full_part(files.push(f))) == match batch_due(files.push(f)) {
            Some(b) => batches(full_part(files)).push(b),
            None => batches(full_part(files)),
        },
{
    let more = files.push(f);
    if more.len() % (BATCH_SIZE as nat) == 0 {
        let p = more.len() - BATCH_SIZE;
        assert(full_part(more) =~= more);
        assert(full_part(files) =~= more.take(p));
        lemma_batches_last(more, p);
    } else {
        assert(full_part(more) =~= full_part(files));
    }
}

/// The batches of a whole list are its complete batches and the partial
/// batch that is left, if any.
pub proof fn lemma_batches_finish(files: Seq<FileRecord>)
    ensures
        batches(files) == match batch_left(files) {
            Some(b) => batches(full_part(files)).push(b),
            None => batches(full_part(files)),
        },
{
    if files.len() % (BATCH_SIZE as nat) != 0 {
        lemma_batches_last(files, files.len() - files.len() % (BATCH_SIZE as nat));
    } else {
        assert(full_part(files) =~= files);
    }
}

/// The batches of a scan, laid end to end, are exactly the files found,
/// in the order they were found.
pub proof fn lemma_batches_cover(files: Seq<FileRecord>)
    ensures
        batches(files).flatten() == files,
    decreases files.len(),
{
    if files.len() == 0 {
        assert(batches(files) =~= Seq::<Seq<FileRecord>>::empty());
    } else {
        let tail = if files.len() % (BATCH_SIZE as nat) == 0 {
            BATCH_SIZE as int
        } else {
            (files.len() % (BATCH_SIZE as nat)) as int
        };
        let p = files.len() - tail;
        let last = files.subrange(p, files.len() as int);
        lemma_batches_last(files, p);
        lemma_batches_cover(files.take(p));
        batches(files.take(p)).lemma_flatten_push(last);
        assert(files.take(p) + last =~= files);
    }
}

/// Every batch but the last holds exactly `BATCH_SIZE` files; the last
/// holds at least one and at most that many.
pub proof fn lemma_batch_sizes(files: Seq<FileRecord>, k: int)
    requires
        0 <= k < batches(files).len(),
    ensures
        1 <= batches(files)[k].len() <= BATCH_SIZE,
        k < batches(files).len() - 1 ==> batches(files)[k].len() == BATCH_SIZE,
{
}

/// The completion event is the last event of a scan and counts exactly
/// the files of its batches; no listed file is a directory.
pub proof fn lemma_scan_complete(entries: Seq<RawEntry>, elapsed_ms: u128)
    ensures
        scan_events(listed_files(entries), elapsed_ms).last() == (ScanEvent::Completed {
            elapsed_ms,
            file_count: batches(listed_files(entries)).flatten().len() as usize,
        }),
        batches(listed_files(entries)).flatten() == listed_files(entries),
        forall|i: int|
            0 <= i < listed_files(entries).len() ==> !(#[trigger] listed_files(entries)[i]).is_dir,
{
    let files = listed_files(entries);
    lemma_batches_cover(files);
    let keep = |e: RawEntry| listed(e);
    assert forall|i: int| 0 <= i < files.len() implies !(#[trigger] files[i]).is_dir by {
        entries.lemma_filter_pred(keep, i);
    }
}

/// Appending a message appends its event.
pub proof fn lemma_events_push(messages: Seq<ScanMessage>, m: ScanMessage)
    ensures
        events(messages.push(m)) == events(messages).push(m@),
{
    assert(events(messages.push(m)) =~= events(messages).push(m@));
}

} // verus!
