//! The record kept for every entry a scan visits, and the plain data
//! it is built from.

use vstd::prelude::*;
use vstd::string::*;
use crate::text::{chars_of, lowercase, lowercased};

verus! {

/// A point in time, counted from the Unix epoch: whole seconds (negative
/// before the epoch) and the nanoseconds past that second.
#[derive(Clone, Copy, Debug, PartialEq, Eq, Structural)]
pub struct Timestamp {
    pub secs: i64,
    pub nanos: u32,
}

impl Timestamp {
    /// Strictly earlier in time; seconds decide, nanoseconds break a tie.
    pub open spec fn earlier(self, other: Timestamp) -> bool {
        self.secs < other.secs || (self.secs == other.secs && self.nanos < other.nanos)
    }

    /// Whether `self` is strictly earlier than `other`.
    pub fn is_before(&self, other: &Timestamp) -> (r: bool)
        ensures
            r == self.earlier(*other),
    {
        self.secs < other.secs || (self.secs == other.secs && self.nanos < other.nanos)
    }
}

/// What the file system reports about a file beyond its type.
#[derive(Clone, Copy, Debug)]
pub struct EntryMetadata {
    pub len: u64,
    pub modified: Option<Timestamp>,
}

/// One directory entry as the walk hands it over: texts and flags only.
/// `metadata` is absent when it was not read or could not be read.
/// `depth` counts the directories between the root of the walk and the
/// entry; the root itself has depth 0.
#[derive(Debug)]
pub struct RawEntry {
    /// The full path of the entry.
    pub path: String,
    /// The path of the directory that holds the entry.
    pub parent: String,
    /// The last component of the path.
    pub name: String,
    pub depth: usize,
    pub is_dir: bool,
    pub metadata: Option<EntryMetadata>,
}

/// The description of one file system entry.
#[derive(Debug)]
pub struct FileInfo {
    /// The full path of the entry.
    pub path: String,
    /// The path of the directory that holds the entry.
    pub parent: String,
    /// The last component of the path.
    pub name: String,
    pub is_dir: bool,
    /// The extension is that of a shortcut file.
    pub is_shortcut: bool,
    /// Length in bytes; 0 for a directory and for a file whose metadata
    /// could not be read.
    pub size: u64,
    /// Time of the last change, if it could be read.
    pub modified: Option<Timestamp>,
    /// The extension in lower case, without the dot.
    pub extension: Option<String>,
}

/// The mathematical content of a `FileInfo`.
pub struct FileRecord {
    pub path: Seq<char>,
    pub parent: Seq<char>,
    pub name: Seq<char>,
    pub is_dir: bool,
    pub is_shortcut: bool,
    pub size: u64,
    pub modified: Option<Timestamp>,
    pub extension: Option<Seq<char>>,
}

/// The view of an optional text.
pub open spec fn text_view(s: Option<String>) -> Option<Seq<char>> {
    match s {
        Some(t) => Some(t@),
        None => None,
    }
}

impl View for FileInfo {
    type V = FileRecord;

    open spec fn view(&self) -> FileRecord {
        FileRecord {
            path: self.path@,
            parent: self.parent@,
            name: self.name@,
            is_dir: self.is_dir,
            is_shortcut: self.is_shortcut,
            size: self.size,
            modified: self.modified,
            extension: text_view(self.extension),
        }
    }
}

impl Clone for FileInfo {
    fn clone(&self) -> (r: Self)
        ensures
            r == *self,
    {
        FileInfo {
            path: self.path.clone(),
            parent: self.parent.clone(),
            name: self.name.clone(),
            is_dir: self.is_dir,
            is_shortcut: self.is_shortcut,
            size: self.size,
            modified: self.modified,
            extension: match &self.extension {
                Some(e) => Some(e.clone()),
                None => None,
            },
        }
    }
}

/// The records of a list of files, in the same order.
pub open spec fn records(files: Seq<FileInfo>) -> Seq<FileRecord> {
    files.map_values(|f: FileInfo| f@)
}

/// Appending a file appends its record.
pub proof fn lemma_records_push(files: Seq<FileInfo>, f: FileInfo)
    ensures
        records(files.push(f)) == records(files).push(f@),
{
    assert(records(files.push(f)) =~= records(files).push(f@));
}

/// The records of a concatenation are the concatenated records.
pub proof fn lemma_records_add(a: Seq<FileInfo>, b: Seq<FileInfo>)
    ensures
        records(a + b) == records(a) + records(b),
{
    assert(records(a + b) =~= records(a) + records(b));
}

/// Copies the files at positions `from..to`.
pub(crate) fn copy_range(files: &Vec<FileInfo>, from: usize, to: usize) -> (r: Vec<FileInfo>)
    requires
        from <= to <= files@.len(),
    ensures
        r@ == files@.subrange(from as int, to as int),
{
    let mut r: Vec<FileInfo> = Vec::new();
    let mut i: usize = from;
    while i < to
        invariant
            from <= i <= to <= files@.len(),
            r@ == files@.subrange(from as int, i as int),
        decreases to - i,
    {
        r.push(files[i].clone());
        assert(r@ =~= files@.subrange(from as int, i + 1));
        i = i + 1;
    }
    r
}

/// The extension of shortcut files, in lower case.
pub open spec fn shortcut_extension() -> Seq<char> {
    seq!['l', 'n', 'k']
}

/// Position of the last occurrence of `c` in `s`, or -1 when there is none.
pub open spec fn last_index_of(s: Seq<char>, c: char) -> int
    decreases s.len(),
{
    if s.len() == 0 {
        -1
    } else if s.last() == c {
        s.len() - 1
    } else {
        last_index_of(s.drop_last(), c)
    }
}

/// The extension of a file name, without the dot: the part after the last
/// dot. A name without a dot, a name whose only dot comes first, and the
/// name `..` have none.
pub open spec fn extension_of(name: Seq<char>) -> Option<Seq<char>> {
    let dot = last_index_of(name, '.');
    if name == seq!['.', '.'] || dot <= 0 {
        None
    } else {
        Some(name.subrange(dot + 1, name.len() as int))
    }
}

/// `last_index_of` finds a position holding `c` after which `c` does not
/// occur again, and answers -1 only when `c` does not occur at all.
pub proof fn lemma_last_index_of(s: Seq<char>, c: char)
    ensures
        -1 <= last_index_of(s, c) < s.len(),
        last_index_of(s, c) >= 0 ==> s[last_index_of(s, c)] == c,
        forall|k: int| last_index_of(s, c) < k < s.len() ==> s[k] != c,
    decreases s.len(),
{
    if s.len() > 0 && s.last() != c {
        let t = s.drop_last();
        lemma_last_index_of(t, c);
        assert forall|k: int| last_index_of(s, c) < k < s.len() implies s[k] != c by {
            if k < t.len() {
                assert(t[k] == s[k]);
            }
        }
    }
}

/// A position that holds `c` and is followed by no other `c` is the one
/// `last_index_of` finds.
pub proof fn lemma_last_index_unique(s: Seq<char>, c: char, d: int)
    requires
        -1 <= d < s.len(),
        d >= 0 ==> s[d] == c,
        forall|k: int| d < k < s.len() ==> s[k] != c,
    ensures
        last_index_of(s, c) == d,
{
    lemma_last_index_of(s, c);
}

/// Splits the extension off a file name.
pub fn split_extension(name: &str) -> (r: Option<&str>)
    ensures
        match r {
            Some(e) => extension_of(name@) == Some(e@),
            None => extension_of(name@) is None,
        },
{
    let chars = chars_of(name);
    let n: usize = chars.len();
    let mut i: usize = n;
    while i > 0 && chars[i - 1] != '.'
        invariant
            i <= n,
            n == chars@.len(),
            forall|k: int| i <= k < n ==> chars@[k] != '.',
        decreases i,
    {
        i = i - 1;
    }
    proof {
        lemma_last_index_unique(chars@, '.', i as int - 1);
    }
    if i <= 1 {
        None
    } else if n == 2 && chars[0] == '.' {
        assert(chars@ =~= seq!['.', '.']);
        None
    } else {
        assert(chars@ != seq!['.', '.']) by {
            let dots = seq!['.', '.'];
            assert(dots.len() == 2 && dots[0] == '.');
        }
        Some(name.substring_char(i, n))
    }
}

impl RawEntry {
    /// The size a record of this entry reports: the length from the
    /// metadata of a file, 0 for a directory or without metadata.
    pub open spec fn size(self) -> u64 {
        match self.metadata {
            Some(m) if !self.is_dir => m.len,
            _ => 0,
        }
    }

    /// The modification time a record of this entry reports: that of the
    /// metadata of a file, none for a directory or without metadata.
    pub open spec fn modified(self) -> Option<Timestamp> {
        match self.metadata {
            Some(m) if !self.is_dir => m.modified,
            _ => None,
        }
    }

    /// The extension a record of this entry reports: the lower-cased
    /// extension of a file's name, none for a directory.
    pub open spec fn extension(self) -> Option<Seq<char>> {
        match extension_of(self.name@) {
            Some(e) if !self.is_dir => Some(lowercased(e)),
            _ => None,
        }
    }

    /// The record of this entry, given its extension.
    pub open spec fn record_with(self, extension: Option<Seq<char>>) -> FileRecord {
        FileRecord {
            path: self.path@,
            parent: self.parent@,
            name: self.name@,
            is_dir: self.is_dir,
            is_shortcut: extension == Some(shortcut_extension()),
            size: self.size(),
            modified: self.modified(),
            extension,
        }
    }

    /// The record of this entry.
    pub open spec fn record(self) -> FileRecord {
        self.record_with(self.extension())
    }
}

/// Whether a text is exactly the shortcut extension.
fn is_shortcut_extension(ext: &str) -> (r: bool)
    ensures
        r == (ext@ == shortcut_extension()),
{
    let chars = chars_of(ext);
    let r = chars.len() == 3 && chars[0] == 'l' && chars[1] == 'n' && chars[2] == 'k';
    proof {
        if r {
            assert(ext@ =~= shortcut_extension());
        }
    }
    r
}

impl FileInfo {
    /// Size and modification time are worth reading for files only: a
    /// directory's record never shows them.
    pub fn needs_metadata(is_dir: bool) -> (r: bool)
        ensures
            r == !is_dir,
    {
        !is_dir
    }

    /// Builds the record of an entry whose extension is already known.
    pub fn with_extension(entry: &RawEntry, extension: Option<String>) -> (r: FileInfo)
        ensures
            r@ == entry.record_with(text_view(extension)),
    {
        let is_shortcut = match &extension {
            Some(e) => is_shortcut_extension(e.as_str()),
            None => false,
        };
        let (size, modified) = match entry.metadata {
            Some(m) => if entry.is_dir {
                (0, None)
            } else {
                (m.len, m.modified)
            },
            None => (0, None),
        };
        FileInfo {
            path: entry.path.clone(),
            parent: entry.parent.clone(),
            name: entry.name.clone(),
            is_dir: entry.is_dir,
            is_shortcut,
            size,
            modified,
            extension,
        }
    }

    /// Builds the record of a directory entry. Every entry has one.
    pub fn from_entry(entry: &RawEntry) -> (r: Option<FileInfo>)
        ensures
            r matches Some(f) && f@ == entry.record(),
    {
        let extension = if entry.is_dir {
            None
        } else {
            match split_extension(entry.name.as_str()) {
                Some(e) => Some(lowercase(e)),
                None => None,
            }
        };
        Some(FileInfo::with_extension(entry, extension))
    }
}

} // verus!
