use vstd::prelude::*;

verus! {

/// The field separator: a comma.
pub const DELIMITER: u8 = 44;

/// The record terminator: a line feed.
pub const TERMINATOR: u8 = 10;

/// The quoting character: a double quote.
pub const QUOTE: u8 = 34;

/// A carriage return inside a field also forces quoting.
pub const CARRIAGE_RETURN: u8 = 13;

/// A byte that cannot appear bare inside a field: it would be read back
/// as a separator, a terminator or the start of a quoted field.
pub open spec fn is_special(b: u8) -> bool {
    b == QUOTE || b == DELIMITER || b == TERMINATOR || b == CARRIAGE_RETURN
}

/// Whether a field must be written in quotes.
pub open spec fn needs_quoting(f: Seq<u8>) -> bool {
    exists|i: int| 0 <= i < f.len() && is_special(f[i])
}

/// A field's bytes with every quote doubled, the body of its quoted form.
pub open spec fn escaped(f: Seq<u8>) -> Seq<u8>
    decreases f.len(),
{
    if f.len() == 0 {
        Seq::empty()
    } else {
        escaped(f.drop_last()) + (if f.last() == QUOTE {
            seq![QUOTE, QUOTE]
        } else {
            seq![f.last()]
        })
    }
}

/// One field as it stands in the output: bare when harmless, otherwise
/// quoted with its quotes doubled.
pub open spec fn encoded_field(f: Seq<u8>) -> Seq<u8> {
    if needs_quoting(f) {
        seq![QUOTE] + escaped(f) + seq![QUOTE]
    } else {
        f
    }
}

/// A record's fields, encoded and joined by the delimiter.
pub open spec fn joined_fields(r: Seq<Seq<u8>>) -> Seq<u8>
    decreases r.len(),
{
    if r.len() == 0 {
        Seq::empty()
    } else if r.len() == 1 {
        encoded_field(r[0])
    } else {
        joined_fields(r.drop_last()) + seq![DELIMITER] + encoded_field(r.last())
    }
}

/// One record as it stands in the output: its joined fields followed by
/// the terminator.
pub open spec fn encoded_row(r: Seq<Seq<u8>>) -> Seq<u8> {
    if r.len() == 0 {
        Seq::empty()
    } else {
        joined_fields(r) + seq![TERMINATOR]
    }
}

/// Whether two byte strings are equal.
pub fn bytes_eq(a: &[u8], b: &[u8]) -> (r: bool)
    ensures
        r == (a@ == b@),
{
    if a.len() != b.len() {
        return false;
    }
    let mut i: usize = 0;
    while i < a.len()
        invariant
            i <= a@.len(),
            a@.len() == b@.len(),
            forall|j: int| 0 <= j < i ==> a@[j] == b@[j],
        decreases a@.len() - i,
    {
        if a[i] != b[i] {
            return false;
        }
        i = i + 1;
    }
    proof {
        assert(a@ =~= b@);
    }
    true
}

/// Whether `f` must be quoted when written out.
pub fn field_needs_quoting(f: &[u8]) -> (r: bool)
    ensures
        r == needs_quoting(f@),
{
    let mut i: usize = 0;
    while i < f.len()
        invariant
            i <= f@.len(),
            forall|j: int| 0 <= j < i ==> !is_special(f@[j]),
        decreases f@.len() - i,
    {
        let b = f[i];
        if b == QUOTE || b == DELIMITER || b == TERMINATOR || b == CARRIAGE_RETURN {
            return true;
        }
        i = i + 1;
    }
    false
}

/// Appends the encoding of one field to `data`.
pub fn push_field(data: &mut Vec<u8>, f: &[u8])
    ensures
        final(data)@ == old(data)@ + encoded_field(f@),
{
    if field_needs_quoting(f) {
        data.push(QUOTE);
        let mut i: usize = 0;
        while i < f.len()
            invariant
                i <= f@.len(),
                data@ == old(data)@ + seq![QUOTE] + escaped(f@.take(i as int)),
            decreases f@.len() - i,
        {
            let b = f[i];
            if b == QUOTE {
                data.push(QUOTE);
                data.push(QUOTE);
            } else {
                data.push(b);
            }
            proof {
                assert(f@.take(i + 1).drop_last() =~= f@.take(i as int));
                assert(data@ =~= old(data)@ + seq![QUOTE] + escaped(f@.take(i + 1)));
            }
            i = i + 1;
        }
        data.push(QUOTE);
        proof {
            assert(f@.take(f@.len() as int) =~= f@);
            assert(data@ =~= old(data)@ + encoded_field(f@));
        }
    } else {
        let mut i: usize = 0;
        while i < f.len()
            invariant
                i <= f@.len(),
                data@ == old(data)@ + f@.take(i as int),
            decreases f@.len() - i,
        {
            data.push(f[i]);
            proof {
                assert(data@ =~= old(data)@ + f@.take(i + 1));
            }
            i = i + 1;
        }
        proof {
            assert(f@.take(f@.len() as int) =~= f@);
        }
    }
}

/// Appends the encoding of one record to `data`.
pub fn push_row(data: &mut Vec<u8>, row: &Vec<Vec<u8>>)
    requires
        row@.len() >= 1,
    ensures
        final(data)@ == old(data)@ + encoded_row(row.deep_view()),
{
    let ghost rv = row.deep_view();
    proof {
        assert(rv.len() == row@.len());
    }
    let mut i: usize = 0;
    while i < row.len()
        invariant
            i <= row@.len(),
            rv == row.deep_view(),
            rv.len() == row@.len(),
            data@ == old(data)@ + joined_fields(rv.take(i as int)),
        decreases row@.len() - i,
    {
        if i > 0 {
            data.push(DELIMITER);
        }
        push_field(data, row[i].as_slice());
        proof {
            assert(row@[i as int].deep_view() =~= row@[i as int]@);
            assert(rv[i as int] == row@[i as int]@);
            assert(rv.take(i + 1).drop_last() =~= rv.take(i as int));
            assert(rv.take(i + 1).last() == rv[i as int]);
            if i == 0 {
                assert(data@ =~= old(data)@ + joined_fields(rv.take(i + 1)));
            } else {
                assert(data@ =~= old(data)@ + joined_fields(rv.take(i + 1)));
            }
        }
        i = i + 1;
    }
    data.push(TERMINATOR);
    proof {
        assert(rv.take(rv.len() as int) =~= rv);
        assert(data@ =~= old(data)@ + encoded_row(rv));
    }
}

} // verus!
