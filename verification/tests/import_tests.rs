use everytree::everything::{import, search_text, CHANGED_NOTE, TOO_RAPID};
use everytree::ingest::{Page, Record, Source, MOVED};
use std::sync::atomic::AtomicBool;

struct Listing {
    names: Vec<Vec<u16>>,
    path: Vec<u16>,
    offset: usize,
    fail_with: Option<String>,
}

impl Source for Listing {
    fn query(&mut self, offset: usize, _limit: usize) -> Result<Page, String> {
        if let Some(e) = &self.fail_with {
            return Err(e.clone());
        }
        self.offset = offset;
        Ok(Page {
            count: self.names.len().saturating_sub(offset),
            total: self.names.len(),
        })
    }
    fn record(&self, index: usize) -> Result<Record<'_>, String> {
        Ok(Record {
            name: &self.names[self.offset + index],
            path: &self.path,
            bytes: Some(5),
        })
    }
}

fn listing(files: usize) -> Listing {
    Listing {
        names: (0..files)
            .map(|i| format!("f{i:03}").encode_utf16().collect())
            .collect(),
        path: "D:\\Data".encode_utf16().collect(),
        offset: 0,
        fail_with: None,
    }
}

#[test]
fn search_text_groups_a_trimmed_query() {
    assert_eq!(search_text(""), "file:");
    assert_eq!(search_text("   "), "file:");
    assert_eq!(search_text("  C:\\Users\\ "), "file: <C:\\Users\\>");
}

#[test]
fn import_names_the_version_and_query() {
    let source = listing(30);
    let data = import(source, "1.4.1.1026", "  D:\\ ", &AtomicBool::new(false), |_, _, _| {}).unwrap();
    assert_eq!(data.source, "Everything 1.4.1.1026");
    assert_eq!(data.query, "D:\\");
    assert_eq!(data.file_count(0), 30);
    assert_eq!(data.node(0).bytes, 150);
    assert!(data.load_stats.queries >= 1);
    assert_eq!(data.load_stats.changes, 0);
    assert_eq!(data.capture_note, "");
    assert!(!CHANGED_NOTE.is_empty());
}

#[test]
fn import_reports_a_moving_index_after_one_restart() {
    let mut source = listing(3);
    source.fail_with = Some(MOVED.to_string());
    let e = import(source, "1", "", &AtomicBool::new(false), |_, _, _| {}).err().unwrap();
    assert_eq!(e, TOO_RAPID);
}

#[test]
fn import_passes_other_source_errors_through() {
    let mut source = listing(3);
    source.fail_with = Some("Everything is not reachable.".to_string());
    let e = import(source, "1", "", &AtomicBool::new(false), |_, _, _| {}).err().unwrap();
    assert_eq!(e, "Everything is not reachable.");
}

#[test]
fn import_stops_when_cancelled() {
    let source = listing(3);
    let e = import(source, "1", "", &AtomicBool::new(true), |_, _, _| {}).err().unwrap();
    assert_eq!(e, "Cancelled");
}
