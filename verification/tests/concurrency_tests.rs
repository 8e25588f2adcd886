use std::sync::{Arc, Mutex};

use filelist::scanner::{FileInfo, ScanMessage};
use filelist::session::ScanSession;

fn batch(start: usize, len: usize) -> Vec<FileInfo> {
    (start..start + len)
        .map(|i| FileInfo {
            path: format!("/r/f{}", i),
            parent: "/r".to_string(),
            name: format!("f{}", i),
            is_dir: false,
            is_shortcut: false,
            size: i as u64,
            modified: None,
            extension: None,
        })
        .collect()
}

#[test]
fn snapshot_during_appends_is_never_partial() {
    let session = Arc::new(Mutex::new(ScanSession::new()));
    let id = session.lock().unwrap().start();
    let write = || {
        for k in 0..200 {
            session.lock().unwrap().handle(id, ScanMessage::Batch(batch(k * 50, 50)), k as u128);
        }
    };
    let read = || {
        let mut last = 0;
        let mut rounds = 0;
        while last < 200 * 50 && rounds < 1_000_000 {
            let files = session.lock().unwrap().snapshot();
            assert_eq!(files.len() % 50, 0);
            assert!(files.len() >= last);
            for (i, f) in files.iter().enumerate() {
                assert_eq!(f.size, i as u64);
            }
            last = files.len();
            rounds += 1;
        }
    };
    rayon::join(write, read);
    let files = session.lock().unwrap().snapshot();
    assert_eq!(files.len(), 10000);
    assert_eq!(session.lock().unwrap().master_len(), 10000);
}
