use core::cmp::Ordering;
use filelist::record::Timestamp;
use filelist::scanner::FileInfo;
use filelist::sort::{arrange, order_sizes, order_texts, order_times, sort_files, SortColumn};

fn file(name: &str, size: u64, modified: Option<i64>) -> FileInfo {
    FileInfo {
        path: format!("/r/{}", name),
        parent: "/r".to_string(),
        name: name.to_string(),
        is_dir: false,
        is_shortcut: false,
        size,
        modified: modified.map(|secs| Timestamp { secs, nanos: 0 }),
        extension: name.rfind('.').map(|i| name[i + 1..].to_string()),
    }
}

fn names(files: &Vec<FileInfo>) -> Vec<String> {
    files.iter().map(|f| f.name.clone()).collect()
}

#[test]
fn sorts_names_without_regard_to_case() {
    let files = vec![file("b", 1, None), file("A", 2, None), file("c", 3, None), file("B2", 4, None)];
    assert_eq!(names(&sort_files(&files, SortColumn::Name, true)), vec!["A", "b", "B2", "c"]);
    assert_eq!(names(&sort_files(&files, SortColumn::Name, false)), vec!["c", "B2", "b", "A"]);
    assert_eq!(names(&files), vec!["b", "A", "c", "B2"]);
}

#[test]
fn sorts_sizes_as_numbers() {
    let files = vec![file("a", 10, None), file("b", 9, None), file("c", 100, None)];
    assert_eq!(names(&sort_files(&files, SortColumn::Size, true)), vec!["b", "a", "c"]);
    assert_eq!(names(&sort_files(&files, SortColumn::Size, false)), vec!["c", "a", "b"]);
}

#[test]
fn sorts_extensions_with_none_as_empty() {
    let files = vec![file("a.txt", 1, None), file("b", 1, None), file("c.MD", 1, None), file("d.png", 1, None)];
    assert_eq!(
        names(&sort_files(&files, SortColumn::Type, true)),
        vec!["b", "c.MD", "d.png", "a.txt"]
    );
    assert_eq!(
        names(&sort_files(&files, SortColumn::Type, false)),
        vec!["a.txt", "d.png", "c.MD", "b"]
    );
}

#[test]
fn sorts_parent_paths_without_regard_to_case() {
    let mut a = file("a", 1, None);
    a.parent = "/r/Zeta".to_string();
    let mut b = file("b", 1, None);
    b.parent = "/r/alpha".to_string();
    let mut c = file("c", 1, None);
    c.parent = "/r/ALPHA".to_string();
    let files = vec![a, b, c];
    assert_eq!(names(&sort_files(&files, SortColumn::Path, true)), vec!["b", "c", "a"]);
    assert_eq!(names(&sort_files(&files, SortColumn::Path, false)), vec!["a", "b", "c"]);
}

#[test]
fn equal_times_keep_their_order() {
    let files = vec![
        file("late", 1, Some(30)),
        file("first", 1, Some(10)),
        file("second", 1, Some(10)),
        file("third", 1, Some(10)),
        file("early", 1, Some(5)),
    ];
    assert_eq!(
        names(&sort_files(&files, SortColumn::Modified, true)),
        vec!["early", "first", "second", "third", "late"]
    );
    assert_eq!(
        names(&sort_files(&files, SortColumn::Modified, false)),
        vec!["late", "first", "second", "third", "early"]
    );
}

#[test]
fn missing_time_sorts_last_in_both_directions() {
    let files = vec![
        file("none1", 1, None),
        file("new", 1, Some(20)),
        file("none2", 1, None),
        file("old", 1, Some(10)),
    ];
    assert_eq!(
        names(&sort_files(&files, SortColumn::Modified, true)),
        vec!["old", "new", "none1", "none2"]
    );
    assert_eq!(
        names(&sort_files(&files, SortColumn::Modified, false)),
        vec!["new", "old", "none1", "none2"]
    );
}

#[test]
fn nanoseconds_break_a_tie_of_seconds() {
    let mut a = file("a", 1, Some(10));
    a.modified = Some(Timestamp { secs: 10, nanos: 7 });
    let mut b = file("b", 1, Some(10));
    b.modified = Some(Timestamp { secs: 10, nanos: 3 });
    let c = file("c", 1, Some(-1));
    let files = vec![a, b, c];
    assert_eq!(names(&sort_files(&files, SortColumn::Modified, true)), vec!["c", "b", "a"]);
}

#[test]
fn ties_keep_their_order_in_every_column() {
    let files = vec![file("x.a", 5, None), file("X.A", 5, None), file("x.A", 5, None)];
    for column in [SortColumn::Name, SortColumn::Type, SortColumn::Size, SortColumn::Modified, SortColumn::Path] {
        for ascending in [true, false] {
            assert_eq!(names(&sort_files(&files, column, ascending)), vec!["x.a", "X.A", "x.A"]);
        }
    }
}

#[test]
fn sorting_nothing_gives_nothing() {
    assert!(sort_files(&Vec::new(), SortColumn::Name, true).is_empty());
    let one = vec![file("a", 1, None)];
    assert_eq!(names(&sort_files(&one, SortColumn::Size, false)), vec!["a"]);
}

#[test]
fn sort_agrees_with_a_reference_order() {
    let mut files = Vec::new();
    let mut seed: u64 = 12345;
    for i in 0..500 {
        seed = seed.wrapping_mul(6364136223846793005).wrapping_add(1442695040888963407);
        let size = (seed >> 33) % 50;
        let modified = if seed % 5 == 0 { None } else { Some(((seed >> 20) % 40) as i64) };
        files.push(file(&format!("N{}_{}", (seed >> 40) % 30, i), size, modified));
    }
    for ascending in [true, false] {
        let sorted = sort_files(&files, SortColumn::Size, ascending);
        let mut expected = files.clone();
        expected.sort_by(|a, b| if ascending { a.size.cmp(&b.size) } else { b.size.cmp(&a.size) });
        assert_eq!(names(&sorted), names(&expected));
        let sorted = sort_files(&files, SortColumn::Modified, ascending);
        let mut expected = files.clone();
        expected.sort_by(|a, b| match (a.modified, b.modified) {
            (Some(x), Some(y)) => if ascending { x.secs.cmp(&y.secs) } else { y.secs.cmp(&x.secs) },
            (Some(_), None) => Ordering::Less,
            (None, Some(_)) => Ordering::Greater,
            (None, None) => Ordering::Equal,
        });
        assert_eq!(names(&sorted), names(&expected));
    }
}

#[test]
fn order_of_two_files_follows_column_and_direction() {
    let a = file("Apple.txt", 10, Some(5));
    let b = file("banana.md", 20, None);
    assert_eq!(arrange(&a, &b, SortColumn::Name, true), Ordering::Less);
    assert_eq!(arrange(&a, &b, SortColumn::Name, false), Ordering::Greater);
    assert_eq!(arrange(&a, &b, SortColumn::Type, true), Ordering::Greater);
    assert_eq!(arrange(&a, &b, SortColumn::Size, true), Ordering::Less);
    assert_eq!(arrange(&a, &b, SortColumn::Size, false), Ordering::Greater);
    assert_eq!(arrange(&a, &b, SortColumn::Modified, true), Ordering::Less);
    assert_eq!(arrange(&a, &b, SortColumn::Modified, false), Ordering::Less);
    assert_eq!(arrange(&b, &a, SortColumn::Modified, false), Ordering::Greater);
    assert_eq!(arrange(&a, &b, SortColumn::Path, true), Ordering::Equal);
    assert_eq!(arrange(&a, &a, SortColumn::Name, true), Ordering::Equal);
}

#[test]
fn order_of_texts_is_by_code_point() {
    assert_eq!(order_texts("a", "b", true), Ordering::Less);
    assert_eq!(order_texts("a", "b", false), Ordering::Greater);
    assert_eq!(order_texts("b", "a", true), Ordering::Greater);
    assert_eq!(order_texts("a", "a", true), Ordering::Equal);
    assert_eq!(order_texts("a", "a", false), Ordering::Equal);
    assert_eq!(order_texts("", "a", true), Ordering::Less);
    assert_eq!(order_texts("ab", "abc", true), Ordering::Less);
    assert_eq!(order_texts("Z", "a", true), Ordering::Less);
    assert_eq!(order_texts("z", "\u{e9}", true), Ordering::Less);
    assert_eq!(order_texts("\u{ffff}", "\u{10000}", true), Ordering::Less);
}

#[test]
fn order_of_times_puts_none_last() {
    let t = |secs: i64| Some(Timestamp { secs, nanos: 0 });
    assert_eq!(order_times(t(1), t(2), true), Ordering::Less);
    assert_eq!(order_times(t(1), t(2), false), Ordering::Greater);
    assert_eq!(order_times(t(2), t(2), false), Ordering::Equal);
    assert_eq!(order_times(t(1), None, true), Ordering::Less);
    assert_eq!(order_times(t(1), None, false), Ordering::Less);
    assert_eq!(order_times(None, t(1), true), Ordering::Greater);
    assert_eq!(order_times(None, t(1), false), Ordering::Greater);
    assert_eq!(order_times(None, None, true), Ordering::Equal);
}

#[test]
fn order_of_sizes_follows_the_direction() {
    assert_eq!(order_sizes(1, 2, true), Ordering::Less);
    assert_eq!(order_sizes(1, 2, false), Ordering::Greater);
    assert_eq!(order_sizes(2, 1, true), Ordering::Greater);
    assert_eq!(order_sizes(2, 1, false), Ordering::Less);
    assert_eq!(order_sizes(2, 2, true), Ordering::Equal);
    assert_eq!(order_sizes(0, u64::MAX, true), Ordering::Less);
}
