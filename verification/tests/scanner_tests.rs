use filelist::record::{EntryMetadata, RawEntry};
use filelist::scanner::{FileInfo, ScanMessage, Scanner, BATCH_SIZE, MAX_VISITED};

fn file_entry(i: usize) -> RawEntry {
    RawEntry {
        path: format!("/root/f{}.dat", i),
        parent: "/root".to_string(),
        name: format!("f{}.dat", i),
        depth: 1,
        is_dir: false,
        metadata: Some(EntryMetadata { len: i as u64, modified: None }),
    }
}

fn dir_entry(i: usize, depth: usize) -> RawEntry {
    RawEntry {
        path: format!("/root/d{}", i),
        parent: "/root".to_string(),
        name: format!("d{}", i),
        depth,
        is_dir: true,
        metadata: None,
    }
}

fn names(files: &Vec<FileInfo>) -> Vec<String> {
    files.iter().map(|f| f.name.clone()).collect()
}

fn batch_names(m: &ScanMessage) -> Vec<String> {
    match m {
        ScanMessage::Batch(files) => names(files),
        other => panic!("no batch: {:?}", other),
    }
}

#[test]
fn scan_of_250_files_sends_batches_of_100_100_50() {
    let mut entries = vec![dir_entry(0, 0)];
    for i in 0..250 {
        entries.push(file_entry(i));
        if i % 7 == 0 {
            entries.push(dir_entry(i, 1));
        }
    }
    let (events, files) = Scanner::scan_directory(&entries, 42);
    assert_eq!(events.len(), 5);
    assert!(matches!(events[0], ScanMessage::Started));
    let sizes: Vec<usize> = events[1..4].iter().map(|m| batch_names(m).len()).collect();
    assert_eq!(sizes, vec![100, 100, 50]);
    match &events[4] {
        ScanMessage::Completed { elapsed_ms, file_count } => {
            assert_eq!(*elapsed_ms, 42);
            assert_eq!(*file_count, 250);
        },
        other => panic!("no completion: {:?}", other),
    }
    let expected: Vec<String> = (0..250).map(|i| format!("f{}.dat", i)).collect();
    let mut sent: Vec<String> = Vec::new();
    for m in &events[1..4] {
        sent.extend(batch_names(m));
    }
    assert_eq!(sent, expected);
    assert_eq!(names(&files), expected);
    assert!(files.iter().all(|f| !f.is_dir));
}

#[test]
fn scan_of_nothing_sends_start_and_completion_only() {
    let (events, files) = Scanner::scan_directory(&Vec::new(), 0);
    assert_eq!(events.len(), 2);
    assert!(matches!(events[0], ScanMessage::Started));
    assert!(matches!(events[1], ScanMessage::Completed { elapsed_ms: 0, file_count: 0 }));
    assert!(files.is_empty());
    let (events, files) = Scanner::scan_directory(&vec![dir_entry(0, 0), dir_entry(1, 1)], 7);
    assert_eq!(events.len(), 2);
    assert!(matches!(events[1], ScanMessage::Completed { elapsed_ms: 7, file_count: 0 }));
    assert!(files.is_empty());
}

#[test]
fn scan_of_a_full_batch_sends_no_empty_batch() {
    let entries: Vec<RawEntry> = (0..200).map(file_entry).collect();
    let (events, _) = Scanner::scan_directory(&entries, 1);
    assert_eq!(events.len(), 4);
    assert_eq!(batch_names(&events[1]).len(), 100);
    assert_eq!(batch_names(&events[2]).len(), 100);
    assert!(matches!(events[3], ScanMessage::Completed { elapsed_ms: 1, file_count: 200 }));
}

#[test]
fn scan_of_few_files_sends_one_partial_batch() {
    let entries: Vec<RawEntry> = (0..3).map(file_entry).collect();
    let (events, _) = Scanner::scan_directory(&entries, 1);
    assert_eq!(events.len(), 3);
    assert_eq!(batch_names(&events[1]), vec!["f0.dat", "f1.dat", "f2.dat"]);
}

#[test]
fn root_is_not_listed_even_when_it_is_a_file() {
    let mut root = file_entry(0);
    root.depth = 0;
    let (events, files) = Scanner::scan_directory(&vec![root, file_entry(1)], 1);
    assert_eq!(names(&files), vec!["f1.dat"]);
    assert_eq!(batch_names(&events[1]), vec!["f1.dat"]);
}

#[test]
fn streaming_scan_hands_out_a_batch_for_every_hundredth_file() {
    let mut scanner = Scanner::new();
    let mut batches: Vec<Vec<String>> = Vec::new();
    for i in 0..250 {
        assert!(scanner.accept(&dir_entry(i, 1)).is_none());
        let m = scanner.accept(&file_entry(i));
        if (i + 1) % BATCH_SIZE == 0 {
            batches.push(batch_names(&m.unwrap()));
        } else {
            assert!(m.is_none());
        }
    }
    assert_eq!(batches.len(), 2);
    assert_eq!(batches[0][0], "f0.dat");
    assert_eq!(batches[0][99], "f99.dat");
    assert_eq!(batches[1][0], "f100.dat");
    assert_eq!(batches[1][99], "f199.dat");
    let (rest, done, files) = scanner.finish(1234);
    let rest = batch_names(&rest.unwrap());
    assert_eq!(rest.len(), 50);
    assert_eq!(rest[0], "f200.dat");
    assert_eq!(rest[49], "f249.dat");
    assert!(matches!(done, ScanMessage::Completed { elapsed_ms: 1234, file_count: 250 }));
    assert_eq!(files.len(), 250);
}

#[test]
fn streaming_scan_without_rest_hands_out_no_last_batch() {
    let mut scanner = Scanner::new();
    for i in 0..100 {
        scanner.accept(&file_entry(i));
    }
    let (rest, done, files) = scanner.finish(5);
    assert!(rest.is_none());
    assert!(matches!(done, ScanMessage::Completed { elapsed_ms: 5, file_count: 100 }));
    assert_eq!(files.len(), 100);
    let (rest, done, files) = Scanner::new().finish(0);
    assert!(rest.is_none());
    assert!(matches!(done, ScanMessage::Completed { elapsed_ms: 0, file_count: 0 }));
    assert!(files.is_empty());
}

#[test]
fn whole_tree_scan_lists_files_below_the_root() {
    let entries = vec![dir_entry(0, 0), file_entry(1), dir_entry(2, 1), file_entry(3)];
    let files = Scanner::scan_directory_parallel(&entries);
    assert_eq!(names(&files), vec!["f1.dat", "f3.dat"]);
    assert!(Scanner::scan_directory_parallel(&Vec::new()).is_empty());
}

#[test]
fn whole_tree_scan_stops_after_the_cap() {
    assert_eq!(MAX_VISITED, 100000);
    let mut entries = vec![dir_entry(0, 0)];
    for i in 0..MAX_VISITED - 1 {
        entries.push(file_entry(i));
    }
    entries.push(dir_entry(1, 1));
    entries.push(file_entry(MAX_VISITED));
    entries.push(file_entry(MAX_VISITED + 1));
    let files = Scanner::scan_directory_parallel(&entries);
    assert_eq!(files.len(), MAX_VISITED - 1);
    assert_eq!(files[MAX_VISITED - 2].name, format!("f{}.dat", MAX_VISITED - 2));
    let mut more: Vec<RawEntry> = (0..MAX_VISITED + 5).map(file_entry).collect();
    more.insert(3, dir_entry(0, 0));
    let files = Scanner::scan_directory_parallel(&more);
    assert_eq!(files.len(), MAX_VISITED);
    assert_eq!(files[MAX_VISITED - 1].name, format!("f{}.dat", MAX_VISITED - 1));
}

#[test]
fn whole_tree_scan_skips_known_directories() {
    assert!(!Scanner::enters(true, 1, "node_modules", "/r/node_modules"));
    assert!(!Scanner::enters(true, 3, "NODE_MODULES", "/r/a/b/NODE_MODULES"));
    assert!(!Scanner::enters(true, 1, "$Recycle.Bin", "C:\\$Recycle.Bin"));
    assert!(!Scanner::enters(true, 1, "system volume information", "C:\\system volume information"));
    assert!(!Scanner::enters(true, 2, "objects", "C:\\src\\.GIT\\Objects"));
    assert!(!Scanner::enters(true, 5, "Temp", "C:\\Users\\me\\AppData\\Local\\Temp"));
    assert!(!Scanner::enters(true, 6, "x", "C:\\Users\\me\\AppData\\Local\\Temp\\x"));
    assert!(!Scanner::enters(true, 5, "npm-cache", "C:\\Users\\me\\APPDATA\\ROAMING\\NPM-CACHE"));
}

#[test]
fn whole_tree_scan_enters_everything_else() {
    assert!(Scanner::enters(true, 1, "src", "/r/src"));
    assert!(Scanner::enters(true, 0, "node_modules", "/r/node_modules"));
    assert!(Scanner::enters(false, 1, "node_modules", "/r/node_modules"));
    assert!(Scanner::enters(false, 2, "x", "C:\\src\\.git\\objects\\x"));
    assert!(Scanner::enters(true, 1, "node_modules2", "/r/node_modules2"));
    assert!(Scanner::enters(true, 2, "objects", "/r/.git/objects"));
    assert!(Scanner::enters(true, 2, "Temp", "C:\\Temp"));
    assert!(Scanner::enters_lowered(true, 2, "objects", "C:\\src\\.GIT\\Objects"));
    assert!(!Scanner::enters_lowered(true, 2, "objects", "c:\\src\\.git\\objects"));
}
