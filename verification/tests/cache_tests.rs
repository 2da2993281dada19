use csv_split::buffer::{CsvBuffer, VectoredWrite};
use csv_split::cache::BufferCache;

fn row(fields: &[&str]) -> Vec<Vec<u8>> {
    fields.iter().map(|f| f.as_bytes().to_vec()).collect()
}

fn filled(cache: &mut BufferCache, fields: &[&str]) -> CsvBuffer {
    let mut b = cache.pop();
    b.write_row(&row(fields));
    b
}

#[test]
fn submit_records_fd_offset_and_bytes() {
    let mut cache = BufferCache::new(4, 4096, 7);
    let b = filled(&mut cache, &["a", "b"]);
    let id = cache.submit(b);
    let p = cache.pending_write(id).unwrap();
    assert_eq!(p.fd, 7);
    assert_eq!(p.offset, 0);
    assert_eq!(p.write.as_write(), b"a,b\n");
}

#[test]
fn offsets_advance_by_submitted_length() {
    let mut cache = BufferCache::new(4, 4096, 3);
    let b1 = filled(&mut cache, &["aa", "bb"]);
    let id1 = cache.submit(b1);
    let b2 = filled(&mut cache, &["c"]);
    let id2 = cache.submit(b2);
    let p1 = cache.pending_write(id1).unwrap();
    let p2 = cache.pending_write(id2).unwrap();
    assert_eq!(p1.offset, 0);
    // "aa,bb\n" is six bytes, so the second write starts there.
    assert_eq!(p2.offset, 6);
}

#[test]
fn rotation_resets_the_offset_and_changes_the_descriptor() {
    let mut cache = BufferCache::new(4, 4096, 3);
    let b1 = filled(&mut cache, &["aa", "bb"]);
    cache.submit(b1);
    cache.next(8);
    assert_eq!(cache.num_files(), 2);
    let b2 = filled(&mut cache, &["c"]);
    let id2 = cache.submit(b2);
    let p2 = cache.pending_write(id2).unwrap();
    assert_eq!(p2.fd, 8);
    assert_eq!(p2.offset, 0);
}

#[test]
fn request_ids_are_unique_and_monotonic() {
    let mut cache = BufferCache::new(4, 4096, 3);
    let b1 = filled(&mut cache, &["a"]);
    let b2 = filled(&mut cache, &["b"]);
    let id1 = cache.submit(b1);
    let id2 = cache.submit(b2);
    assert_eq!(id1, csv_split::writes::FIRST_WRITE_ID);
    assert_eq!(id2, id1 + 1);
}

#[test]
fn buffer_accounting_holds_at_every_step() {
    let count = 3;
    let mut cache = BufferCache::new(count, 4096, 3);
    assert_eq!(cache.free_buffers(), count);
    let mut b = cache.pop();
    // One buffer lent out.
    assert_eq!(cache.free_buffers() + cache.in_flight() as usize + 1, count);
    b.write_row(&row(&["x"]));
    let id1 = cache.submit(b);
    assert_eq!(cache.free_buffers() + cache.in_flight() as usize, count);
    let mut b = cache.pop();
    b.write_row(&row(&["y"]));
    let id2 = cache.submit(b);
    assert_eq!(cache.in_flight(), 2);
    assert_eq!(cache.free_buffers() + cache.in_flight() as usize, count);
    // The embedding program would wait for the kernel here; the ids are
    // what its completion events carry.
    cache.recover(&vec![id1, id2]);
    assert_eq!(cache.in_flight(), 0);
    assert_eq!(cache.free_buffers(), count);
}

#[test]
fn submit_and_pop_returns_a_fresh_buffer() {
    let mut cache = BufferCache::new(2, 4096, 3);
    let mut b = cache.pop();
    b.write_row(&row(&["r", "s"]));
    let fresh = cache.submit_and_pop(b);
    assert_eq!(fresh.pos(), 0);
    assert_eq!(fresh.remaining(), 4096);
    assert_eq!(cache.free_buffers(), 0);
    assert_eq!(cache.in_flight(), 1);
}

#[test]
fn recovered_buffers_are_reusable() {
    let mut cache = BufferCache::new(2, 4096, 3);
    let b = filled(&mut cache, &["zzz"]);
    let id = cache.submit(b);
    cache.recover(&vec![id]);
    assert!(cache.pending_write(id).is_none());
    let b = cache.pop();
    assert_eq!(b.pos(), 0);
    assert_eq!(b.remaining(), 4096);
}
