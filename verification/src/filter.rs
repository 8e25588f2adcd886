//! Search queries: what a query text means, which records it accepts,
//! and the filtered view of a list of files.

use vstd::prelude::*;
use vstd::string::*;
use crate::record::{lemma_records_push, records, FileInfo, FileRecord};
use crate::size::{decimal_size, parse_decimal, split_unit, unit_split};
use crate::text::{
    blank, contains, has_substring, is_blank, lowercase, lowercased, trim, trimmed,
};

verus! {

/// The size comparison of a query.
#[derive(Clone, Copy, Debug, PartialEq, Eq, Structural)]
pub enum SizeTest {
    /// No size is accepted.
    Never,
    /// Sizes strictly above the bound are accepted.
    Above(u64),
    /// Sizes strictly below the bound are accepted.
    Below(u64),
}

impl SizeTest {
    /// Whether the comparison accepts `size`.
    pub open spec fn holds(self, size: u64) -> bool {
        match self {
            SizeTest::Never => false,
            SizeTest::Above(bound) => size > bound,
            SizeTest::Below(bound) => size < bound,
        }
    }

    /// Whether the comparison accepts `size`.
    pub fn test(&self, size: u64) -> (r: bool)
        ensures
            r == self.holds(size),
    {
        match *self {
            SizeTest::Never => false,
            SizeTest::Above(bound) => size > bound,
            SizeTest::Below(bound) => size < bound,
        }
    }
}

/// The meaning of a query text.
pub struct Query {
    /// The query accepts every record.
    pub match_all: bool,
    /// The text looked for, in lower case.
    pub needle: Seq<char>,
    /// The size comparison, if the text is one.
    pub size_test: SizeTest,
}

/// The view of an optional text slice.
pub open spec fn slice_view(s: Option<&str>) -> Option<Seq<char>> {
    match s {
        Some(t) => Some(t@),
        None => None,
    }
}

/// The lower-case form of an optional text.
pub open spec fn lowercased_option(s: Option<Seq<char>>) -> Option<Seq<char>> {
    match s {
        Some(t) => Some(lowercased(t)),
        None => None,
    }
}

impl Query {
    /// Whether the query accepts a record with the given size whose name,
    /// path and extension are given in lower case: they are searched for
    /// the needle, and the size is put to the size comparison.
    pub open spec fn accepts_lowered(
        self,
        name_lower: Seq<char>,
        path_lower: Seq<char>,
        extension_lower: Option<Seq<char>>,
        size: u64,
    ) -> bool {
        ||| self.match_all
        ||| has_substring(name_lower, self.needle)
        ||| has_substring(path_lower, self.needle)
        ||| (extension_lower matches Some(e) && has_substring(e, self.needle))
        ||| self.size_test.holds(size)
    }

    /// Whether the query accepts a record.
    pub open spec fn accepts(self, r: FileRecord) -> bool {
        self.accepts_lowered(
            lowercased(r.name),
            lowercased(r.path),
            lowercased_option(r.extension),
            r.size,
        )
    }
}

/// The byte count that a size text stands for: the text is trimmed and
/// put in lower case, its unit is split off, and the number before the
/// unit, trimmed again, is scaled by it.
pub open spec fn size_of_text(s: Seq<char>) -> Result<u64, ()> {
    let t = lowercased(trimmed(s));
    if t.len() == 0 {
        Err(())
    } else {
        decimal_size(trimmed(unit_split(t).0), unit_split(t).1)
    }
}

/// The size comparison that a query text asks for: a text that starts
/// with `>` or `<` compares with the size written behind that sign, and
/// accepts nothing when no size can be read there.
pub open spec fn size_test_of(text: Seq<char>) -> SizeTest {
    if text.len() > 0 && text[0] == '>' {
        match size_of_text(trimmed(text.skip(1))) {
            Ok(bound) => SizeTest::Above(bound),
            Err(_) => SizeTest::Never,
        }
    } else if text.len() > 0 && text[0] == '<' {
        match size_of_text(trimmed(text.skip(1))) {
            Ok(bound) => SizeTest::Below(bound),
            Err(_) => SizeTest::Never,
        }
    } else {
        SizeTest::Never
    }
}

/// The meaning of a query text: a blank text accepts everything; any
/// other text is looked for without regard to case, and may also be a
/// size comparison.
pub open spec fn query_of(text: Seq<char>) -> Query {
    Query { match_all: blank(text), needle: lowercased(text), size_test: size_test_of(text) }
}

/// The records that a query accepts, in the order they stand in.
pub open spec fn filter_records(files: Seq<FileRecord>, q: Query) -> Seq<FileRecord> {
    files.filter(|r: FileRecord| q.accepts(r))
}

/// Reads a size text such as `10mb` or `1.5 k`.
pub fn parse_size(s: &str) -> (r: Result<u64, ()>)
    ensures
        r == size_of_text(s@),
{
    let t = lowercase(trim(s));
    if t.as_str().is_empty() {
        return Err(());
    }
    let (number, multiplier) = split_unit(t.as_str());
    parse_decimal(trim(number), multiplier)
}

/// Reads the size comparison of a query text.
pub fn read_size_test(text: &str) -> (r: SizeTest)
    ensures
        r == size_test_of(text@),
{
    let n: usize = text.unicode_len();
    if n == 0 {
        return SizeTest::Never;
    }
    let sign = text.get_char(0);
    if sign != '>' && sign != '<' {
        return SizeTest::Never;
    }
    let rest = text.substring_char(1, n);
    assert(rest@ =~= text@.skip(1));
    match parse_size(trim(rest)) {
        Ok(bound) => if sign == '>' {
            SizeTest::Above(bound)
        } else {
            SizeTest::Below(bound)
        },
        Err(_) => SizeTest::Never,
    }
}

/// The active query of a session.
pub struct Filter {
    search_text: String,
    search_lower: String,
    match_all: bool,
    size_test: SizeTest,
}

impl View for Filter {
    type V = Query;

    closed spec fn view(&self) -> Query {
        Query {
            match_all: self.match_all,
            needle: self.search_lower@,
            size_test: self.size_test,
        }
    }
}

impl Filter {
    /// The text the filter was last set to.
    pub closed spec fn text(&self) -> Seq<char> {
        self.search_text@
    }

    /// A filter that accepts every record.
    pub fn new() -> (r: Filter)
        ensures
            r@ == (Query {
                match_all: true,
                needle: Seq::<char>::empty(),
                size_test: SizeTest::Never,
            }),
            r.text() == Seq::<char>::empty(),
    {
        Filter {
            search_text: String::new(),
            search_lower: String::new(),
            match_all: true,
            size_test: SizeTest::Never,
        }
    }

    /// Replaces the query by the one that `text` means.
    pub fn set_search(&mut self, text: &str)
        ensures
            final(self)@ == query_of(text@),
            final(self).text() == text@,
    {
        self.search_text = String::from_str(text);
        self.search_lower = lowercase(text);
        self.match_all = is_blank(text);
        self.size_test = read_size_test(text);
    }

    /// Whether the query accepts a file whose name, path and extension
    /// are given in lower case.
    pub fn matches_lowered(
        &self,
        name_lower: &str,
        path_lower: &str,
        extension_lower: Option<&str>,
        size: u64,
    ) -> (r: bool)
        ensures
            r == self@.accepts_lowered(
                name_lower@,
                path_lower@,
                slice_view(extension_lower),
                size,
            ),
    {
        if self.match_all {
            return true;
        }
        let needle = self.search_lower.as_str();
        if contains(name_lower, needle) {
            return true;
        }
        if contains(path_lower, needle) {
            return true;
        }
        match extension_lower {
            Some(e) => {
                if contains(e, needle) {
                    return true;
                }
            },
            None => {},
        }
        self.size_test.test(size)
    }

    /// Whether the query accepts a file.
    pub fn matches(&self, file: &FileInfo) -> (r: bool)
        ensures
            r == self@.accepts(file@),
    {
        if self.match_all {
            return true;
        }
        let name_lower = lowercase(file.name.as_str());
        let path_lower = lowercase(file.path.as_str());
        match &file.extension {
            Some(e) => {
                let extension_lower = lowercase(e.as_str());
                self.matches_lowered(
                    name_lower.as_str(),
                    path_lower.as_str(),
                    Some(extension_lower.as_str()),
                    file.size,
                )
            },
            None => self.matches_lowered(
                name_lower.as_str(),
                path_lower.as_str(),
                None,
                file.size,
            ),
        }
    }

    /// Appends to `filtered` the files of `batch` that the query accepts,
    /// in the order of `batch`.
    pub fn append_matching(&self, batch: &Vec<FileInfo>, filtered: &mut Vec<FileInfo>)
        ensures
            records(final(filtered)@) == records(old(filtered)@) + filter_records(
                records(batch@),
                self@,
            ),
    {
        let ghost q = self@;
        let ghost start = records(filtered@);
        let mut i: usize = 0;
        proof {
            assert(batch@.take(0) =~= Seq::<FileInfo>::empty());
            lemma_filter_none(q);
            assert(records(batch@.take(0)) =~= Seq::<FileRecord>::empty());
            assert(start + Seq::<FileRecord>::empty() =~= start);
        }
        while i < batch.len()
            invariant
                i <= batch@.len(),
                q == self@,
                records(filtered@) == start + filter_records(records(batch@.take(i as int)), q),
            decreases batch@.len() - i,
        {
            let file = &batch[i];
            proof {
                let sofar = batch@.take(i as int);
                assert(batch@.take(i + 1) =~= sofar.push(*file));
                lemma_records_push(sofar, *file);
                lemma_filter_push(records(sofar), file@, q);
            }
            if self.matches(file) {
                let copy = file.clone();
                proof {
                    lemma_records_push(filtered@, copy);
                    let kept = filter_records(records(batch@.take(i as int)), q);
                    assert((start + kept).push(copy@) =~= start + kept.push(copy@));
                }
                filtered.push(copy);
            }
            i = i + 1;
        }
        assert(batch@.take(i as int) =~= batch@);
    }

    /// The files of `master` that the query accepts, in the order of
    /// `master`.
    pub fn select(&self, master: &Vec<FileInfo>) -> (r: Vec<FileInfo>)
        ensures
            records(r@) == filter_records(records(master@), self@),
    {
        let mut filtered: Vec<FileInfo> = Vec::new();
        assert(records(filtered@) =~= Seq::<FileRecord>::empty());
        self.append_matching(master, &mut filtered);
        assert(Seq::<FileRecord>::empty() + filter_records(records(master@), self@)
            =~= filter_records(records(master@), self@));
        filtered
    }
}

/// An empty list has an empty filtered view.
pub proof fn lemma_filter_none(q: Query)
    ensures
        filter_records(Seq::empty(), q) == Seq::<FileRecord>::empty(),
{
    reveal(Seq::filter);
}

/// One more record at the end of a list joins the filtered view exactly
/// when the query accepts it.
pub proof fn lemma_filter_push(files: Seq<FileRecord>, r: FileRecord, q: Query)
    ensures
        filter_records(files.push(r), q) == if q.accepts(r) {
            filter_records(files, q).push(r)
        } else {
            filter_records(files, q)
        },
{
    files.lemma_filter_push(r, |r: FileRecord| q.accepts(r));
}

/// Filtering batch by batch as the batches arrive gives the same view,
/// in the same order, as filtering the whole list at once.
pub proof fn lemma_append_is_requery(master: Seq<FileRecord>, batch: Seq<FileRecord>, q: Query)
    ensures
        filter_records(master + batch, q) == filter_records(master, q) + filter_records(batch, q),
{
    Seq::filter_distributes_over_add(master, batch, |r: FileRecord| q.accepts(r));
}

/// Filtering a view that the same query has filtered already changes
/// nothing.
pub proof fn lemma_filter_idempotent(files: Seq<FileRecord>, q: Query)
    ensures
        filter_records(filter_records(files, q), q) == filter_records(files, q),
    decreases files.len(),
{
    if files.len() == 0 {
        lemma_filter_none(q);
        assert(files =~= Seq::<FileRecord>::empty());
    } else {
        let front = files.drop_last();
        assert(files =~= front.push(files.last()));
        lemma_filter_idempotent(front, q);
        lemma_filter_push(front, files.last(), q);
        if q.accepts(files.last()) {
            lemma_filter_push(filter_records(front, q), files.last(), q);
        }
    }
}

/// The positions of the records that a query accepts, in rising order.
pub open spec fn kept_positions(files: Seq<FileRecord>, q: Query) -> Seq<int>
    decreases files.len(),
{
    if files.len() == 0 {
        Seq::empty()
    } else if q.accepts(files.last()) {
        kept_positions(files.drop_last(), q).push(files.len() - 1)
    } else {
        kept_positions(files.drop_last(), q)
    }
}

/// Filtering never reorders: the filtered view holds exactly the records
/// at the accepted positions, and holds them in the order of the list.
pub proof fn lemma_filter_keeps_order(files: Seq<FileRecord>, q: Query)
    ensures
        kept_positions(files, q).len() == filter_records(files, q).len(),
        forall|k: int|
            0 <= k < kept_positions(files, q).len() ==> {
                let p = #[trigger] kept_positions(files, q)[k];
                0 <= p < files.len() && q.accepts(files[p]) && filter_records(files, q)[k]
                    == files[p]
            },
        forall|k: int, l: int|
            0 <= k < l < kept_positions(files, q).len() ==> #[trigger] kept_positions(files, q)[k]
                < #[trigger] kept_positions(files, q)[l],
        forall|i: int|
            0 <= i < files.len() && q.accepts(#[trigger] files[i]) ==> kept_positions(
                files,
                q,
            ).contains(i),
    decreases files.len(),
{
    reveal(Seq::filter);
    if files.len() > 0 {
        let front = files.drop_last();
        lemma_filter_keeps_order(front, q);
        assert(files =~= front.push(files.last()));
        lemma_filter_push(front, files.last(), q);
        let old_p = kept_positions(front, q);
        let new_p = kept_positions(files, q);
        assert forall|i: int| 0 <= i < files.len() && q.accepts(#[trigger] files[i]) implies new_p.contains(
            i,
        ) by {
            if i < front.len() {
                assert(front[i] == files[i]);
                let k = choose|k: int| 0 <= k < old_p.len() && old_p[k] == i;
                assert(new_p[k] == i);
            } else {
                assert(new_p[new_p.len() - 1] == i);
            }
        }
        assert forall|k: int| 0 <= k < new_p.len() implies {
            let p = #[trigger] new_p[k];
            0 <= p < files.len() && q.accepts(files[p]) && filter_records(files, q)[k] == files[p]
        } by {
            if k < old_p.len() {
                assert(old_p[k] == new_p[k]);
                assert(front[old_p[k]] == files[old_p[k]]);
            }
        }
        assert forall|k: int, l: int| 0 <= k < l < new_p.len() implies #[trigger] new_p[k]
            < #[trigger] new_p[l] by {
            if l < old_p.len() {
                assert(old_p[k] == new_p[k] && old_p[l] == new_p[l]);
            } else {
                assert(old_p[k] == new_p[k]);
            }
        }
    }
}

} // verus!
