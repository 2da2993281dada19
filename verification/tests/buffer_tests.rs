use csv_split::buffer::{CsvBuffer, CsvBuffers, VectoredWrite};

fn row(fields: &[&str]) -> Vec<Vec<u8>> {
    fields.iter().map(|f| f.as_bytes().to_vec()).collect()
}

#[test]
fn fresh_buffer_is_empty() {
    let b = CsvBuffer::zeroed(4096);
    assert_eq!(b.pos(), 0);
    assert_eq!(b.remaining(), 4096);
}

#[test]
fn write_row_encodes_fields_with_delimiters_and_terminator() {
    let mut b = CsvBuffer::zeroed(4096);
    let remaining = b.write_row(&row(&["a", "b", "c"]));
    assert_eq!(b.pos(), 6);
    assert_eq!(remaining, 4096 - 6);
    let w = b.into_boxed_write();
    assert_eq!(w.as_write(), b"a,b,c\n");
}

#[test]
fn write_row_quotes_special_fields() {
    let mut b = CsvBuffer::zeroed(4096);
    b.write_row(&row(&["a,b", "plain", "say \"hi\"", "x\ny"]));
    let w = b.into_boxed_write();
    assert_eq!(w.as_write(), b"\"a,b\",plain,\"say \"\"hi\"\"\",\"x\ny\"\n");
}

#[test]
fn write_row_accumulates_rows() {
    let mut b = CsvBuffer::zeroed(4096);
    b.write_row(&row(&["1", "2"]));
    b.write_row(&row(&["3", "4"]));
    let w = b.into_boxed_write();
    assert_eq!(w.as_write(), b"1,2\n3,4\n");
}

#[test]
fn single_field_row_has_no_delimiter() {
    let mut b = CsvBuffer::zeroed(128);
    b.write_row(&row(&["only"]));
    let w = b.into_boxed_write();
    assert_eq!(w.as_write(), b"only\n");
}

#[test]
fn empty_fields_encode_as_nothing() {
    let mut b = CsvBuffer::zeroed(128);
    b.write_row(&row(&["", "", ""]));
    let w = b.into_boxed_write();
    assert_eq!(w.as_write(), b",,\n");
}

#[test]
fn recovered_buffer_is_fresh_with_same_capacity() {
    let mut b = CsvBuffer::zeroed(2048);
    b.write_row(&row(&["data", "more"]));
    let w = b.into_boxed_write();
    let b2 = CsvBuffer::from_write(*w);
    assert_eq!(b2.pos(), 0);
    assert_eq!(b2.remaining(), 2048);
}

#[test]
fn encoding_matches_the_csv_crate() {
    let rows: Vec<Vec<&str>> = vec![
        vec!["plain", "with,comma", "with\"quote", "multi\nline", ""],
        vec!["a", "b", "c"],
    ];
    let mut wtr = csv::WriterBuilder::new().flexible(true).from_writer(Vec::new());
    for r in &rows {
        wtr.write_record(r).unwrap();
    }
    let expected = wtr.into_inner().unwrap();
    let mut b = CsvBuffer::zeroed(8192);
    for r in &rows {
        b.write_row(&row(r));
    }
    let w = b.into_boxed_write();
    assert_eq!(w.as_write(), expected.as_slice());
}

#[test]
fn pool_pops_and_pushes() {
    let mut pool = CsvBuffers::new(3, 512);
    assert_eq!(pool.len(), 3);
    assert!(!pool.is_empty());
    let a = pool.pop();
    let _b = pool.pop();
    assert_eq!(pool.len(), 1);
    pool.push(a);
    assert_eq!(pool.len(), 2);
    let _c = pool.pop();
    let _d = pool.pop();
    assert!(pool.is_empty());
}
