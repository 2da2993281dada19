use csv_split::buffer::VectoredWrite;
use csv_split::splitter::Splitter;

fn row(fields: &[&str]) -> Vec<Vec<u8>> {
    fields.iter().map(|f| f.as_bytes().to_vec()).collect()
}

/// Plays the embedding program's part: waits for nothing (there is no
/// kernel here), but keeps the books exactly as it would — recovering
/// the outstanding set when the pool runs dry and creating a file
/// descriptor when the driver asks for one.
struct Harness {
    next_fd: i32,
    outstanding: Vec<u64>,
    all_ids: Vec<u64>,
}

impl Harness {
    fn new() -> Harness {
        Harness { next_fd: 100, outstanding: Vec::new(), all_ids: Vec::new() }
    }

    fn feed(&mut self, s: &mut Splitter, r: &Vec<Vec<u8>>) {
        if s.must_recover() {
            s.recover(&self.outstanding);
            self.outstanding.clear();
        }
        let fd = if s.needs_file(r) {
            self.next_fd += 1;
            Some(self.next_fd)
        } else {
            None
        };
        if let Some(id) = s.push_row(r, fd) {
            self.outstanding.push(id);
            self.all_ids.push(id);
        }
    }

    fn finish(&mut self, s: &mut Splitter) {
        if let Some(id) = s.finish() {
            self.outstanding.push(id);
            self.all_ids.push(id);
        }
    }
}

#[test]
fn row_count_scenario_three_files() {
    // 2500 records at 1000 rows per file: exactly 1000 / 1000 / 500.
    let mut s = Splitter::new(4, 1 << 16, 1000, None, 100);
    let mut h = Harness::new();
    for i in 0..2500u32 {
        h.feed(&mut s, &row(&[&format!("row{}", i), "value"]));
    }
    h.finish(&mut s);
    assert_eq!(s.num_files(), 3);
    assert_eq!(s.file_row_count(0), 1000);
    assert_eq!(s.file_row_count(1), 1000);
    assert_eq!(s.file_row_count(2), 500);
}

#[test]
fn grouping_scenario_keeps_runs_together() {
    // Groups of sizes 4, 997 and 3, sorted by column 0, at 1000 rows per
    // file and ample buffer capacity: the first file takes the first two
    // groups (1001 records), the second file the last 3 — no group is
    // split.
    let mut s = Splitter::new(4, 1 << 20, 1000, Some(0), 100);
    let mut h = Harness::new();
    for i in 0..4u32 {
        h.feed(&mut s, &row(&["alpha", &format!("{}", i)]));
    }
    for i in 0..997u32 {
        h.feed(&mut s, &row(&["beta", &format!("{}", i)]));
    }
    for i in 0..3u32 {
        h.feed(&mut s, &row(&["gamma", &format!("{}", i)]));
    }
    h.finish(&mut s);
    assert_eq!(s.num_files(), 2);
    assert_eq!(s.file_row_count(0), 1001);
    assert_eq!(s.file_row_count(1), 3);
}

#[test]
fn boundary_rotation_starts_the_new_file_with_the_new_group() {
    // Two groups of 3 at 2 rows per file: the second group's boundary
    // sees the threshold exceeded, so it opens the second file whole.
    let mut s = Splitter::new(4, 1 << 16, 2, Some(0), 100);
    let mut h = Harness::new();
    for i in 0..3u32 {
        h.feed(&mut s, &row(&["one", &format!("{}", i)]));
    }
    for i in 0..3u32 {
        h.feed(&mut s, &row(&["two", &format!("{}", i)]));
    }
    h.finish(&mut s);
    assert_eq!(s.num_files(), 2);
    assert_eq!(s.file_row_count(0), 3);
    assert_eq!(s.file_row_count(1), 3);
}

#[test]
fn capacity_flush_fills_one_file_from_many_buffers() {
    // Without grouping, capacity exhaustion flushes the buffer but keeps
    // the same output file: the rows land in one file across three
    // physical writes, at consecutive offsets, and concatenating the
    // submitted bytes reproduces the whole encoded stream.
    let wide = "x".repeat(518);
    let mut s = Splitter::new(4, 2060, 10, None, 100);
    let mut h = Harness::new();
    let mut expected: Vec<u8> = Vec::new();
    for _ in 0..5u32 {
        let r = row(&[&wide, "y"]);
        h.feed(&mut s, &r);
        expected.extend_from_slice(wide.as_bytes());
        expected.extend_from_slice(b",y\n");
    }
    h.finish(&mut s);
    assert_eq!(s.num_files(), 1);
    assert_eq!(s.file_row_count(0), 5);
    assert_eq!(h.all_ids.len(), 3);
    // Gather the submitted spans in offset order and compare.
    let mut spans: Vec<(usize, Vec<u8>)> = h
        .all_ids
        .iter()
        .map(|id| {
            let p = s.pending_write(*id).unwrap();
            assert_eq!(p.fd, 100);
            (p.offset, p.write.as_write().to_vec())
        })
        .collect();
    spans.sort_by_key(|(offset, _)| *offset);
    let mut actual: Vec<u8> = Vec::new();
    for (offset, bytes) in spans {
        assert_eq!(offset, actual.len());
        actual.extend_from_slice(&bytes);
    }
    assert_eq!(actual, expected);
}

#[test]
fn capacity_forced_rotation_splits_a_group() {
    // With grouping, a record that leaves no more than the safety margin
    // behind forces a flush and a rotation even inside a run: the driver
    // prefers its bounded buffers over strict atomicity.
    let wide = "x".repeat(518);
    let mut s = Splitter::new(4, 2060, 10, Some(0), 100);
    let mut h = Harness::new();
    for _ in 0..5u32 {
        h.feed(&mut s, &row(&[&wide, "k"]));
    }
    h.finish(&mut s);
    assert_eq!(s.num_files(), 3);
    assert_eq!(s.file_row_count(0), 2);
    assert_eq!(s.file_row_count(1), 2);
    assert_eq!(s.file_row_count(2), 1);
}

#[test]
fn pool_exhaustion_recovers_before_the_next_flush() {
    // With only two buffers, every second flush finds the pool empty, so
    // the harness must recover the in-flight set first — and the output
    // still comes out right.
    let mut s = Splitter::new(2, 1 << 16, 2, None, 100);
    let mut h = Harness::new();
    for i in 0..7u32 {
        h.feed(&mut s, &row(&[&format!("{}", i)]));
    }
    h.finish(&mut s);
    assert_eq!(s.num_files(), 4);
    assert_eq!(s.file_row_count(0), 2);
    assert_eq!(s.file_row_count(1), 2);
    assert_eq!(s.file_row_count(2), 2);
    assert_eq!(s.file_row_count(3), 1);
}

#[test]
fn empty_input_leaves_one_empty_file_and_no_write() {
    let mut s = Splitter::new(2, 1 << 16, 5, None, 100);
    let mut h = Harness::new();
    h.finish(&mut s);
    assert_eq!(s.num_files(), 1);
    assert_eq!(s.file_row_count(0), 0);
    assert_eq!(h.all_ids.len(), 0);
    assert_eq!(s.in_flight(), 0);
}

#[test]
fn exact_multiple_fills_the_last_file_completely() {
    let mut s = Splitter::new(4, 1 << 16, 5, None, 100);
    let mut h = Harness::new();
    for i in 0..10u32 {
        h.feed(&mut s, &row(&[&format!("{}", i)]));
    }
    h.finish(&mut s);
    assert_eq!(s.num_files(), 2);
    assert_eq!(s.file_row_count(0), 5);
    assert_eq!(s.file_row_count(1), 5);
}

#[test]
fn row_admission_checks_the_margin() {
    assert!(Splitter::row_fits_margin(&row(&["a", "b"])));
    assert!(!Splitter::row_fits_margin(&row(&[])));
    let wide = "x".repeat(2000);
    assert!(!Splitter::row_fits_margin(&row(&[&wide])));
    // Quoting counts against the margin too: 1022 bytes of quotes double
    // to 2044.
    let quotes = "\"".repeat(1022);
    assert!(!Splitter::row_fits_margin(&row(&[&quotes])));
}

#[test]
fn accounting_holds_while_splitting() {
    let mut s = Splitter::new(3, 1 << 16, 2, None, 100);
    let mut h = Harness::new();
    for i in 0..9u32 {
        h.feed(&mut s, &row(&[&format!("{}", i)]));
        // One buffer is always held by the driver itself.
        assert_eq!(s.free_buffers() + s.in_flight() as usize + 1, 3);
    }
}
