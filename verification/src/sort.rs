//! Sorted views of a list of files: the columns to sort by, the order
//! each column puts two records in, and the stable sort itself.

use core::cmp::Ordering;
use vstd::prelude::*;
use vstd::set_lib::{lemma_int_range, lemma_set_subset_finite, lemma_subset_equality, set_int_range};
use crate::record::{copy_range, records, FileInfo, FileRecord, Timestamp};
use crate::text::{
    lemma_lex_irreflexive, lemma_lex_total, lemma_lex_transitive, lex_less, lowercase,
    lowercased, text_less,
};

verus! {

/// The column a view is sorted by.
#[derive(Clone, Copy, Debug, PartialEq, Eq, Structural)]
pub enum SortColumn {
    Name,
    Type,
    Size,
    Modified,
    Path,
}

/// The extension as text; a record without one counts as the empty text.
pub open spec fn extension_text(r: FileRecord) -> Seq<char> {
    match r.extension {
        Some(e) => e,
        None => Seq::empty(),
    }
}

/// The text that a text column orders a record by: name, extension and
/// parent path are compared without regard to case.
pub open spec fn text_key(r: FileRecord, column: SortColumn) -> Seq<char> {
    match column {
        SortColumn::Name => lowercased(r.name),
        SortColumn::Type => lowercased(extension_text(r)),
        _ => lowercased(r.parent),
    }
}

/// `a` has the smaller key in `column`. In the modification column only
/// records that carry a time have a key.
pub open spec fn key_less(a: FileRecord, b: FileRecord, column: SortColumn) -> bool {
    match column {
        SortColumn::Size => a.size < b.size,
        SortColumn::Modified => match (a.modified, b.modified) {
            (Some(x), Some(y)) => x.earlier(y),
            _ => false,
        },
        _ => lex_less(text_key(a, column), text_key(b, column)),
    }
}

/// `a` must stand before `b` in a view sorted by `column`. Ascending
/// puts smaller keys first, descending larger ones; in the modification
/// column a record with a time stands before one without, whatever the
/// direction.
pub open spec fn precedes(a: FileRecord, b: FileRecord, column: SortColumn, ascending: bool) -> bool {
    if column == SortColumn::Modified && (a.modified is None || b.modified is None) {
        a.modified is Some && b.modified is None
    } else if ascending {
        key_less(a, b, column)
    } else {
        key_less(b, a, column)
    }
}

/// Neither record must stand before the other.
pub open spec fn tied(a: FileRecord, b: FileRecord, column: SortColumn, ascending: bool) -> bool {
    !precedes(a, b, column, ascending) && !precedes(b, a, column, ascending)
}

/// No record must stand before itself, and no two before each other.
pub proof fn lemma_precedes_asymmetric(
    a: FileRecord,
    b: FileRecord,
    column: SortColumn,
    ascending: bool,
)
    ensures
        !(precedes(a, b, column, ascending) && precedes(b, a, column, ascending)),
{
    lemma_lex_total(text_key(a, column), text_key(b, column));
}

/// If `a` stands before `b` and `b` before `c`, then `a` stands before `c`.
pub proof fn lemma_precedes_transitive(
    a: FileRecord,
    b: FileRecord,
    c: FileRecord,
    column: SortColumn,
    ascending: bool,
)
    requires
        precedes(a, b, column, ascending),
        precedes(b, c, column, ascending),
    ensures
        precedes(a, c, column, ascending),
{
    match column {
        SortColumn::Size | SortColumn::Modified => {},
        _ => {
            if ascending {
                lemma_lex_transitive(
                    text_key(a, column),
                    text_key(b, column),
                    text_key(c, column),
                );
            } else {
                lemma_lex_transitive(
                    text_key(c, column),
                    text_key(b, column),
                    text_key(a, column),
                );
            }
        },
    }
}

/// Being tied is transitive: together with the two laws above, the order
/// of a column ranks the records, so a sort by it is well defined.
pub proof fn lemma_tied_transitive(
    a: FileRecord,
    b: FileRecord,
    c: FileRecord,
    column: SortColumn,
    ascending: bool,
)
    requires
        tied(a, b, column, ascending),
        tied(b, c, column, ascending),
    ensures
        tied(a, c, column, ascending),
{
    lemma_lex_total(text_key(a, column), text_key(b, column));
    lemma_lex_total(text_key(b, column), text_key(c, column));
    lemma_lex_irreflexive(text_key(a, column));
}

/// `p` arranges `inp` into `out`: it names, for each place of `out`, a
/// place of `inp`, each once, such that `out` is sorted by `column` and
/// records that are tied keep the order they had in `inp`.
pub open spec fn stable_arrangement(
    out: Seq<FileRecord>,
    inp: Seq<FileRecord>,
    p: Seq<int>,
    column: SortColumn,
    ascending: bool,
) -> bool {
    &&& out.len() == inp.len()
    &&& p.len() == inp.len()
    &&& forall|i: int| 0 <= i < p.len() ==> 0 <= #[trigger] p[i] < inp.len()
    &&& forall|i: int, j: int| 0 <= i < j < p.len() ==> #[trigger] p[i] != #[trigger] p[j]
    &&& forall|i: int| 0 <= i < out.len() ==> #[trigger] out[i] == inp[p[i]]
    &&& forall|i: int, j: int|
        0 <= i < j < out.len() ==> !precedes(#[trigger] out[j], #[trigger] out[i], column, ascending)
    &&& forall|i: int, j: int|
        0 <= i < j < out.len() && !precedes(out[i], out[j], column, ascending) ==> #[trigger] p[i]
            < #[trigger] p[j]
}

/// `out` is `inp` sorted by `column`, tied records in their old order.
pub open spec fn stable_sort_of(
    out: Seq<FileRecord>,
    inp: Seq<FileRecord>,
    column: SortColumn,
    ascending: bool,
) -> bool {
    exists|p: Seq<int>| stable_arrangement(out, inp, p, column, ascending)
}

/// The order of two texts in a given direction.
pub fn order_texts(x: &str, y: &str, ascending: bool) -> (r: Ordering)
    ensures
        (r == Ordering::Less) == (if ascending {
            lex_less(x@, y@)
        } else {
            lex_less(y@, x@)
        }),
        (r == Ordering::Greater) == (if ascending {
            lex_less(y@, x@)
        } else {
            lex_less(x@, y@)
        }),
{
    proof {
        lemma_lex_total(x@, y@);
    }
    let below = text_less(x, y);
    let above = text_less(y, x);
    if below == above {
        Ordering::Equal
    } else if below == ascending {
        Ordering::Less
    } else {
        Ordering::Greater
    }
}

/// The order of two optional times: a time stands before no time; two
/// times are ordered in the given direction.
pub fn order_times(x: Option<Timestamp>, y: Option<Timestamp>, ascending: bool) -> (r: Ordering)
    ensures
        (r == Ordering::Less) == (match (x, y) {
            (Some(s), Some(t)) => if ascending {
                s.earlier(t)
            } else {
                t.earlier(s)
            },
            (Some(_), None) => true,
            _ => false,
        }),
        (r == Ordering::Greater) == (match (x, y) {
            (Some(s), Some(t)) => if ascending {
                t.earlier(s)
            } else {
                s.earlier(t)
            },
            (None, Some(_)) => true,
            _ => false,
        }),
{
    match (x, y) {
        (Some(s), Some(t)) => {
            let below = s.is_before(&t);
            let above = t.is_before(&s);
            if below == above {
                Ordering::Equal
            } else if below == ascending {
                Ordering::Less
            } else {
                Ordering::Greater
            }
        },
        (Some(_), None) => Ordering::Less,
        (None, Some(_)) => Ordering::Greater,
        (None, None) => Ordering::Equal,
    }
}

/// The order of two sizes in a given direction.
pub fn order_sizes(x: u64, y: u64, ascending: bool) -> (r: Ordering)
    ensures
        (r == Ordering::Less) == (if ascending {
            x < y
        } else {
            y < x
        }),
        (r == Ordering::Greater) == (if ascending {
            y < x
        } else {
            x < y
        }),
{
    if x == y {
        Ordering::Equal
    } else if (x < y) == ascending {
        Ordering::Less
    } else {
        Ordering::Greater
    }
}

/// The order of two files in a view sorted by `column`.
pub fn arrange(a: &FileInfo, b: &FileInfo, column: SortColumn, ascending: bool) -> (r: Ordering)
    ensures
        (r == Ordering::Less) == precedes(a@, b@, column, ascending),
        (r == Ordering::Greater) == precedes(b@, a@, column, ascending),
{
    match column {
        SortColumn::Name => {
            let x = lowercase(a.name.as_str());
            let y = lowercase(b.name.as_str());
            order_texts(x.as_str(), y.as_str(), ascending)
        },
        SortColumn::Type => {
            let x = lowercase(extension_str(a));
            let y = lowercase(extension_str(b));
            order_texts(x.as_str(), y.as_str(), ascending)
        },
        SortColumn::Size => order_sizes(a.size, b.size, ascending),
        SortColumn::Modified => order_times(a.modified, b.modified, ascending),
        SortColumn::Path => {
            let x = lowercase(a.parent.as_str());
            let y = lowercase(b.parent.as_str());
            order_texts(x.as_str(), y.as_str(), ascending)
        },
    }
}

/// The extension of a file as text, empty when it has none.
fn extension_str(f: &FileInfo) -> (r: &str)
    ensures
        r@ == extension_text(f@),
{
    match &f.extension {
        Some(e) => e.as_str(),
        None => {
            proof {
                reveal_strlit("");
            }
            assert(""@ =~= Seq::<char>::empty());
            ""
        },
    }
}

/// Sorts with `sort_by` of slices, handing it `arrange` as the order.
/// That sort is stable: the result holds the same files, sorted, and
/// files that the order ties stay in the order they came in. It may panic
/// on an order that does not rank its items; `lemma_precedes_asymmetric`,
/// `lemma_precedes_transitive` and `lemma_tied_transitive` show that this
/// one does, and `lemma_sort_exists` that such a result always exists.
#[verifier::external_body]
fn sort_in_place(files: &mut Vec<FileInfo>, column: SortColumn, ascending: bool)
    ensures
        stable_sort_of(records(final(files)@), records(old(files)@), column, ascending),
{
    files.sort_by(|a, b| arrange(a, b, column, ascending));
}

/// A copy of `files` sorted by `column`; files that the column ties keep
/// the order they have in `files`, which itself is left as it is.
pub fn sort_files(files: &Vec<FileInfo>, column: SortColumn, ascending: bool) -> (r: Vec<FileInfo>)
    ensures
        stable_sort_of(records(r@), records(files@), column, ascending),
{
    let mut sorted = copy_range(files, 0, files.len());
    assert(sorted@ =~= files@);
    sort_in_place(&mut sorted, column, ascending);
    sorted
}

/// In a view sorted by modification time, no record without a time
/// stands before a record with one, whatever the direction.
pub proof fn lemma_untimed_last(
    out: Seq<FileRecord>,
    inp: Seq<FileRecord>,
    ascending: bool,
    i: int,
    j: int,
)
    requires
        stable_sort_of(out, inp, SortColumn::Modified, ascending),
        0 <= i < j < out.len(),
        out[i].modified is None,
    ensures
        out[j].modified is None,
{
    let p = choose|p: Seq<int>| stable_arrangement(out, inp, p, SortColumn::Modified, ascending);
    assert(!precedes(out[j], out[i], SortColumn::Modified, ascending));
}

/// A sort keeps the order of records that it ties: of two such records
/// the one that stood first in the input stands first in the output.
pub proof fn lemma_sort_stable(
    out: Seq<FileRecord>,
    inp: Seq<FileRecord>,
    column: SortColumn,
    ascending: bool,
) -> (p: Seq<int>)
    requires
        stable_sort_of(out, inp, column, ascending),
    ensures
        stable_arrangement(out, inp, p, column, ascending),
        forall|i: int, j: int|
            0 <= i < j < out.len() && tied(out[i], out[j], column, ascending) ==> #[trigger] p[i]
                < #[trigger] p[j],
{
    choose|p: Seq<int>| stable_arrangement(out, inp, p, column, ascending)
}

/// A list of `n` different places below `n` names every place below `n`.
pub proof fn lemma_places_cover(p: Seq<int>, v: int)
    requires
        forall|i: int| 0 <= i < p.len() ==> 0 <= #[trigger] p[i] < p.len(),
        forall|i: int, j: int| 0 <= i < j < p.len() ==> #[trigger] p[i] != #[trigger] p[j],
        0 <= v < p.len(),
    ensures
        exists|c: int| 0 <= c < p.len() && p[c] == v,
{
    let all = set_int_range(0, p.len() as int);
    lemma_int_range(0, p.len() as int);
    assert(p.no_duplicates());
    p.unique_seq_to_set();
    assert(p.to_set().subset_of(all)) by {
        assert forall|x: int| p.to_set().contains(x) implies all.contains(x) by {
            let i = choose|i: int| 0 <= i < p.len() && p[i] == x;
            assert(0 <= p[i] < p.len());
        }
    }
    lemma_set_subset_finite(all, p.to_set());
    lemma_subset_equality(p.to_set(), all);
    assert(all.contains(v));
    assert(p.to_set().contains(v));
    assert(p.contains(v));
}

/// Two arrangements of the same list agree on every place.
proof fn lemma_arrangements_agree(
    a: Seq<FileRecord>,
    b: Seq<FileRecord>,
    inp: Seq<FileRecord>,
    p: Seq<int>,
    q: Seq<int>,
    column: SortColumn,
    ascending: bool,
    k: int,
)
    requires
        stable_arrangement(a, inp, p, column, ascending),
        stable_arrangement(b, inp, q, column, ascending),
        0 <= k < inp.len(),
    ensures
        forall|m: int| 0 <= m <= k ==> #[trigger] p[m] == q[m],
    decreases k,
{
    if k > 0 {
        lemma_arrangements_agree(a, b, inp, p, q, column, ascending, k - 1);
    }
    let x = p[k];
    let y = q[k];
    if x != y {
        assert(0 <= q[k] < inp.len());
        assert(0 <= p[k] < inp.len());
        lemma_places_cover(p, y);
        lemma_places_cover(q, x);
        let c = choose|c: int| 0 <= c < p.len() && p[c] == y;
        let d = choose|d: int| 0 <= d < q.len() && q[d] == x;
        if c < k {
            assert(p[c] == q[c]);
            assert(q[c] != q[k]);
        }
        if d < k {
            assert(p[d] == q[d]);
            assert(p[d] != p[k]);
        }
        assert(k < c && k < d);
        assert(a[k] == inp[x] && a[c] == inp[y]);
        assert(b[k] == inp[y] && b[d] == inp[x]);
        assert(!precedes(a[c], a[k], column, ascending));
        assert(!precedes(b[d], b[k], column, ascending));
        assert(p[k] < p[c]);
        assert(q[k] < q[d]);
    }
}

/// If `x` stands before `a`, then it stands before every `b` that does
/// not itself stand before `a`.
pub proof fn lemma_precedes_carries(
    x: FileRecord,
    a: FileRecord,
    b: FileRecord,
    column: SortColumn,
    ascending: bool,
)
    requires
        precedes(x, a, column, ascending),
        !precedes(b, a, column, ascending),
    ensures
        precedes(x, b, column, ascending),
{
    match column {
        SortColumn::Size | SortColumn::Modified => {},
        _ => {
            let kx = text_key(x, column);
            let ka = text_key(a, column);
            let kb = text_key(b, column);
            lemma_lex_total(ka, kb);
            if ka != kb {
                if ascending {
                    lemma_lex_transitive(kx, ka, kb);
                } else {
                    lemma_lex_transitive(kb, ka, kx);
                }
            }
        },
    }
}

/// First place at or after `from` whose record `x` stands before, or the
/// length of the list when there is none.
pub open spec fn place_for(
    out: Seq<FileRecord>,
    x: FileRecord,
    from: int,
    column: SortColumn,
    ascending: bool,
) -> int
    decreases out.len() - from,
{
    if 0 <= from < out.len() && !precedes(x, out[from], column, ascending) {
        place_for(out, x, from + 1, column, ascending)
    } else {
        from
    }
}

/// `place_for` stops within the list, passes only records that `x` does
/// not stand before, and stops at one that it does stand before.
proof fn lemma_place_for(
    out: Seq<FileRecord>,
    x: FileRecord,
    from: int,
    column: SortColumn,
    ascending: bool,
)
    requires
        0 <= from <= out.len(),
    ensures
        from <= place_for(out, x, from, column, ascending) <= out.len(),
        forall|i: int|
            from <= i < place_for(out, x, from, column, ascending) ==> !precedes(
                x,
                #[trigger] out[i],
                column,
                ascending,
            ),
        place_for(out, x, from, column, ascending) < out.len() ==> precedes(
            x,
            out[place_for(out, x, from, column, ascending)],
            column,
            ascending,
        ),
    decreases out.len() - from,
{
    if from < out.len() && !precedes(x, out[from], column, ascending) {
        lemma_place_for(out, x, from + 1, column, ascending);
    }
}

/// Every list has a sorted view: one more record goes behind the records
/// that it does not stand before.
pub proof fn lemma_sort_exists(inp: Seq<FileRecord>, column: SortColumn, ascending: bool) -> (r: (
    Seq<FileRecord>,
    Seq<int>,
))
    ensures
        stable_arrangement(r.0, inp, r.1, column, ascending),
        stable_sort_of(r.0, inp, column, ascending),
    decreases inp.len(),
{
    if inp.len() == 0 {
        let out = Seq::<FileRecord>::empty();
        let p = Seq::<int>::empty();
        assert(stable_arrangement(out, inp, p, column, ascending));
        (out, p)
    } else {
        let front = inp.drop_last();
        let x = inp.last();
        let last = inp.len() - 1;
        let (sorted, placed) = lemma_sort_exists(front, column, ascending);
        let t = place_for(sorted, x, 0, column, ascending);
        lemma_place_for(sorted, x, 0, column, ascending);
        let out = sorted.insert(t, x);
        let p = placed.insert(t, last);
        assert forall|i: int| t <= i < sorted.len() implies precedes(
            x,
            #[trigger] sorted[i],
            column,
            ascending,
        ) by {
            if i > t {
                assert(!precedes(sorted[i], sorted[t], column, ascending));
                lemma_precedes_carries(x, sorted[t], sorted[i], column, ascending);
            }
        }
        assert forall|i: int| 0 <= i < p.len() implies 0 <= #[trigger] p[i] < inp.len() by {
            if i < t {
                assert(p[i] == placed[i]);
            } else if i > t {
                assert(p[i] == placed[i - 1]);
            }
        }
        assert forall|i: int| 0 <= i < out.len() implies #[trigger] out[i] == inp[p[i]] by {
            if i < t {
                assert(out[i] == sorted[i] && p[i] == placed[i]);
                assert(front[placed[i]] == inp[placed[i]]);
            } else if i > t {
                assert(out[i] == sorted[i - 1] && p[i] == placed[i - 1]);
                assert(front[placed[i - 1]] == inp[placed[i - 1]]);
            }
        }
        assert forall|i: int, j: int| 0 <= i < j < p.len() implies #[trigger] p[i]
            != #[trigger] p[j] by {
            let a = if i < t {
                i
            } else {
                i - 1
            };
            let b = if j < t {
                j
            } else {
                j - 1
            };
            if i != t && j != t {
                assert(p[i] == placed[a] && p[j] == placed[b]);
            } else if i == t {
                assert(p[j] == placed[b] && 0 <= placed[b] < last);
            } else {
                assert(p[i] == placed[a] && 0 <= placed[a] < last);
            }
        }
        assert forall|i: int, j: int| 0 <= i < j < out.len() implies !precedes(
            #[trigger] out[j],
            #[trigger] out[i],
            column,
            ascending,
        ) by {
            if j == t {
                assert(out[i] == sorted[i]);
            } else if i == t {
                assert(out[j] == sorted[j - 1]);
                lemma_precedes_asymmetric(x, sorted[j - 1], column, ascending);
            } else {
                let a = if i < t {
                    i
                } else {
                    i - 1
                };
                let b = if j < t {
                    j
                } else {
                    j - 1
                };
                assert(out[i] == sorted[a] && out[j] == sorted[b]);
            }
        }
        assert forall|i: int, j: int|
            0 <= i < j < out.len() && !precedes(out[i], out[j], column, ascending) implies #[trigger] p[i]
                < #[trigger] p[j] by {
            if j == t {
                assert(p[i] == placed[i] && 0 <= placed[i] < last);
            } else if i == t {
                assert(out[j] == sorted[j - 1]);
            } else {
                let a = if i < t {
                    i
                } else {
                    i - 1
                };
                let b = if j < t {
                    j
                } else {
                    j - 1
                };
                assert(out[i] == sorted[a] && out[j] == sorted[b]);
                assert(p[i] == placed[a] && p[j] == placed[b]);
            }
        }
        assert(stable_arrangement(out, inp, p, column, ascending));
        (out, p)
    }
}

/// A list has one sorted view only: the order of a column and the rule
/// for ties leave no choice.
pub proof fn lemma_sort_unique(
    a: Seq<FileRecord>,
    b: Seq<FileRecord>,
    inp: Seq<FileRecord>,
    column: SortColumn,
    ascending: bool,
)
    requires
        stable_sort_of(a, inp, column, ascending),
        stable_sort_of(b, inp, column, ascending),
    ensures
        a == b,
{
    let p = choose|p: Seq<int>| stable_arrangement(a, inp, p, column, ascending);
    let q = choose|q: Seq<int>| stable_arrangement(b, inp, q, column, ascending);
    if inp.len() > 0 {
        lemma_arrangements_agree(a, b, inp, p, q, column, ascending, inp.len() - 1);
        assert forall|m: int| 0 <= m < a.len() implies a[m] == b[m] by {
            assert(p[m] == q[m]);
        }
    }
    assert(a =~= b);
}

} // verus!
