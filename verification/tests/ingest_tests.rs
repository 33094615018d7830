use everytree::ingest::{collect, Cursor, Page, Record, Source, BAD_UTF16, MOVED};
use everytree::model::Builder;
use everytree::model::Dataset;
use std::sync::atomic::AtomicBool;

struct Fake {
    names: Vec<Vec<u16>>,
    path: Vec<u16>,
    offset: usize,
    limit: usize,
    requests: usize,
    change: u8,
}

impl Source for Fake {
    fn query(&mut self, offset: usize, limit: usize) -> Result<Page, String> {
        self.requests += 1;
        if self.requests == 3 {
            match self.change {
                1 => {
                    self.names.insert(0, "a_new".encode_utf16().collect());
                }
                2 => {
                    self.names.remove(0);
                }
                3 => {
                    self.names.remove(7);
                } // Delete the most recent anchor.
                4 => {
                    self.names.insert(10, "file_095".encode_utf16().collect());
                }
                _ => {}
            }
        }
        self.offset = offset;
        self.limit = limit;
        Ok(Page {
            count: self.names.len().saturating_sub(offset).min(limit),
            total: self.names.len(),
        })
    }
    fn record(&self, index: usize) -> Result<Record<'_>, String> {
        Ok(Record {
            name: &self.names[self.offset + index],
            path: &self.path,
            bytes: Some(10),
        })
    }
}

fn fake(change: u8) -> Fake {
    Fake {
        names: (0..24)
            .map(|i| format!("file_{i:02}").encode_utf16().collect())
            .collect(),
        path: "C:\\Test".encode_utf16().collect(),
        offset: 0,
        limit: 0,
        requests: 0,
        change,
    }
}

fn capture(change: u8) -> Dataset {
    let mut source = fake(change);
    let capture = collect(&mut source, 8, &AtomicBool::new(false), |_, _, _| {}).unwrap();
    if change != 0 {
        assert!(capture.stats.changes > 0);
    }
    capture
        .builder
        .finish(&AtomicBool::new(false), |_, _, _| {})
        .unwrap()
}

#[test]
fn unchanged_pages_include_every_file_once() {
    assert_eq!(capture(0).file_count(0), 24);
}

#[test]
fn insertion_before_cursor_does_not_duplicate_or_abort() {
    let d = capture(1);
    assert_eq!(d.file_count(0), 24);
    assert_eq!(d.node(0).bytes, 240);
}

#[test]
fn deletion_before_cursor_does_not_skip_unread_entries() {
    assert_eq!(capture(2).file_count(0), 24);
}

#[test]
fn deleted_last_anchor_resumes_from_survivor() {
    assert_eq!(capture(3).file_count(0), 24);
}

#[test]
fn insertion_ahead_of_cursor_is_included() {
    assert_eq!(capture(4).file_count(0), 25);
}

#[test]
fn unchanged_capture_keeps_names_in_one_folder() {
    let d = capture(0);
    let drive = d.child_ids(0)[0];
    assert_eq!(d.path(drive), "C:\\");
    let folder = d.child_ids(drive)[0];
    assert_eq!(d.path(folder), "C:\\Test");
    assert_eq!(d.child_ids(folder).len(), 24);
    assert_eq!(d.name(d.child_ids(folder)[0]), "file_00");
    assert_eq!(d.file_count(folder), 24);
}

#[test]
fn an_empty_index_captures_nothing() {
    let mut source = Fake {
        names: Vec::new(),
        path: Vec::new(),
        offset: 0,
        limit: 0,
        requests: 0,
        change: 0,
    };
    let capture = collect(&mut source, 8, &AtomicBool::new(false), |_, _, _| {}).unwrap();
    let d = capture.builder.finish(&AtomicBool::new(false), |_, _, _| {}).unwrap();
    assert_eq!(d.file_count(0), 0);
    assert_eq!(capture.stats.queries, 1);
}

#[test]
fn cancelled_capture_stops() {
    let mut source = fake(0);
    let r = collect(&mut source, 8, &AtomicBool::new(true), |_, _, _| {});
    assert_eq!(r.err(), Some("Cancelled".to_string()));
}

#[test]
fn unpaired_surrogates_are_refused() {
    let mut source = fake(0);
    source.names[3] = vec![0x66, 0xD800, 0x66];
    let r = collect(&mut source, 8, &AtomicBool::new(false), |_, _, _| {});
    assert_eq!(
        r.err(),
        Some("A filename contains invalid UTF-16; narrow the query to exclude it.".to_string())
    );
}

#[test]
fn surrogate_pairs_decode_to_one_character() {
    let mut source = fake(0);
    source.names[0] = "😀.png".encode_utf16().collect();
    let capture = collect(&mut source, 8, &AtomicBool::new(false), |_, _, _| {}).unwrap();
    let d = capture.builder.finish(&AtomicBool::new(false), |_, _, _| {}).unwrap();
    let folder = d.child_ids(d.child_ids(0)[0])[0];
    let names: Vec<_> = d.child_ids(folder).iter().map(|id| d.name(*id).to_string()).collect();
    assert!(names.contains(&"😀.png".to_string()));
}

#[test]
fn source_errors_pass_through() {
    struct Broken;
    impl Source for Broken {
        fn query(&mut self, _: usize, _: usize) -> Result<Page, String> {
            Err("offline".to_string())
        }
        fn record(&self, _: usize) -> Result<Record<'_>, String> {
            Err("offline".to_string())
        }
    }
    let r = collect(&mut Broken, 8, &AtomicBool::new(false), |_, _, _| {});
    assert_eq!(r.err(), Some("offline".to_string()));
    assert_ne!(MOVED, "offline");
}

#[test]
fn a_record_becomes_a_file_in_the_folder_at_its_path() {
    let mut builder = Builder::default();
    let mut cursor = Cursor::new(&builder);
    let name: Vec<u16> = "clip.mp4".encode_utf16().collect();
    let other: Vec<u16> = "notes".encode_utf16().collect();
    let path: Vec<u16> = "D:\\Media\\".encode_utf16().collect();
    let first = cursor
        .take(&mut builder, &Record { name: &name, path: &path, bytes: Some(700) })
        .unwrap();
    let second = cursor
        .take(&mut builder, &Record { name: &other, path: &path, bytes: None })
        .unwrap();
    let data = builder.finish(&AtomicBool::new(false), |_, _, _| {}).unwrap();
    assert_eq!(data.path(first), "D:\\Media\\clip.mp4");
    assert_eq!(data.path(second), "D:\\Media\\notes");
    assert_eq!(data.node(first).bytes, 700);
    assert!(data.node(second).size_unknown());
    assert_eq!(data.node(first).parent, data.node(second).parent);
    assert_eq!(data.unknown_sizes, 1);
}

#[test]
fn a_record_that_is_not_utf16_is_refused() {
    let mut builder = Builder::default();
    let mut cursor = Cursor::new(&builder);
    let bad = [0xD800u16, 0x41];
    let path: Vec<u16> = "C:\\x".encode_utf16().collect();
    let e = cursor
        .take(&mut builder, &Record { name: &bad, path: &path, bytes: Some(1) })
        .err()
        .unwrap();
    assert_eq!(e, BAD_UTF16);
    let e = cursor
        .take(&mut builder, &Record { name: &path, path: &bad, bytes: Some(1) })
        .err()
        .unwrap();
    assert_eq!(e, BAD_UTF16);
}
