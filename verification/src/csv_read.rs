use vstd::prelude::*;

use crate::csv_format::{csv_document, csv_double_quotes, csv_field, csv_join, csv_needs_quotes, csv_record, csv_special, row_fields};

verus! {

/// Reading an unquoted field: the bytes up to the next `,` or `\n`, and what
/// follows them.
pub open spec fn read_plain(b: Seq<u8>) -> (Seq<u8>, Seq<u8>)
    decreases b.len(),
{
    if b.len() == 0 || b[0] == 0x2c || b[0] == 0x0a {
        (Seq::empty(), b)
    } else {
        let (f, r) = read_plain(b.drop_first());
        (seq![b[0]] + f, r)
    }
}

/// Reading the rest of a quoted field, after its opening quote: `""` stands
/// for one quote, and a lone quote closes the field.
pub open spec fn read_quoted(b: Seq<u8>) -> (Seq<u8>, Seq<u8>)
    decreases b.len(),
{
    if b.len() == 0 {
        (Seq::empty(), b)
    } else if b[0] == 0x22 {
        if b.len() >= 2 && b[1] == 0x22 {
            let (f, r) = read_quoted(b.subrange(2, b.len() as int));
            (seq![0x22u8] + f, r)
        } else {
            (Seq::empty(), b.drop_first())
        }
    } else {
        let (f, r) = read_quoted(b.drop_first());
        (seq![b[0]] + f, r)
    }
}

/// Reading one field, quoted or not, and what follows it.
pub open spec fn read_field(b: Seq<u8>) -> (Seq<u8>, Seq<u8>) {
    if b.len() > 0 && b[0] == 0x22 {
        read_quoted(b.drop_first())
    } else {
        read_plain(b)
    }
}

pub proof fn lemma_read_plain_len(b: Seq<u8>)
    ensures
        read_plain(b).1.len() <= b.len(),
    decreases b.len(),
{
    if !(b.len() == 0 || b[0] == 0x2c || b[0] == 0x0a) {
        lemma_read_plain_len(b.drop_first());
    }
}

pub proof fn lemma_read_quoted_len(b: Seq<u8>)
    ensures
        read_quoted(b).1.len() <= b.len(),
    decreases b.len(),
{
    if b.len() > 0 {
        if b[0] == 0x22 {
            if b.len() >= 2 && b[1] == 0x22 {
                lemma_read_quoted_len(b.subrange(2, b.len() as int));
            }
        } else {
            lemma_read_quoted_len(b.drop_first());
        }
    }
}

pub proof fn lemma_read_field_len(b: Seq<u8>)
    ensures
        read_field(b).1.len() <= b.len(),
{
    if b.len() > 0 && b[0] == 0x22 {
        lemma_read_quoted_len(b.drop_first());
    } else {
        lemma_read_plain_len(b);
    }
}

/// Reading the fields of a record, separated by `,`, and what follows them.
pub open spec fn read_fields(b: Seq<u8>) -> (Seq<Seq<u8>>, Seq<u8>)
    decreases b.len(),
{
    let (f, r) = read_field(b);
    if r.len() > 0 && r[0] == 0x2c {
        proof {
            lemma_read_field_len(b);
        }
        let (fs, r2) = read_fields(r.drop_first());
        (seq![f] + fs, r2)
    } else {
        (seq![f], r)
    }
}

pub proof fn lemma_read_fields_len(b: Seq<u8>)
    ensures
        read_fields(b).1.len() <= b.len(),
    decreases b.len(),
{
    lemma_read_field_len(b);
    let (f, r) = read_field(b);
    if r.len() > 0 && r[0] == 0x2c {
        lemma_read_fields_len(r.drop_first());
    }
}

/// Reading CSV text as the `csv` crate writes it: records of fields, each
/// record ended by `\n`.
pub open spec fn read_document(b: Seq<u8>) -> Seq<Seq<Seq<u8>>>
    decreases b.len(),
{
    if b.len() == 0 {
        Seq::empty()
    } else {
        let (fs, r) = read_fields(b);
        if r.len() > 0 && r[0] == 0x0a {
            proof {
                lemma_read_fields_len(b);
            }
            seq![fs] + read_document(r.drop_first())
        } else {
            seq![fs]
        }
    }
}

/// `rest` may follow a field: it is empty or starts with `,` or `\n`.
pub open spec fn field_end(rest: Seq<u8>) -> bool {
    rest.len() == 0 || rest[0] == 0x2c || rest[0] == 0x0a
}

proof fn lemma_read_plain_back(f: Seq<u8>, rest: Seq<u8>)
    requires
        !csv_needs_quotes(f),
        field_end(rest),
    ensures
        read_plain(f + rest) == (f, rest),
    decreases f.len(),
{
    let b = f + rest;
    if f.len() == 0 {
        assert(b =~= rest);
    } else {
        assert(b[0] == f[0]);
        assert(!csv_special(f[0]));
        let g = f.drop_first();
        assert(b.drop_first() =~= g + rest);
        assert forall|i: int| 0 <= i < g.len() implies !csv_special(#[trigger] g[i]) by {
            assert(g[i] == f[i + 1]);
        }
        lemma_read_plain_back(g, rest);
        assert(seq![f[0]] + g =~= f);
    }
}

proof fn lemma_read_quoted_back(f: Seq<u8>, rest: Seq<u8>)
    requires
        field_end(rest),
    ensures
        read_quoted(csv_double_quotes(f) + seq![0x22u8] + rest) == (f, rest),
    decreases f.len(),
{
    let b = csv_double_quotes(f) + seq![0x22u8] + rest;
    if f.len() == 0 {
        assert(csv_double_quotes(f) =~= Seq::<u8>::empty());
        assert(b =~= seq![0x22u8] + rest);
        assert(b.drop_first() =~= rest);
    } else {
        let g = f.drop_first();
        lemma_read_quoted_back(g, rest);
        assert(seq![f[0]] + g =~= f);
        if f[0] == 0x22 {
            assert(b =~= seq![0x22u8, 0x22u8] + (csv_double_quotes(g) + seq![0x22u8] + rest));
            assert(b.subrange(2, b.len() as int) =~= csv_double_quotes(g) + seq![0x22u8] + rest);
        } else {
            assert(b =~= seq![f[0]] + (csv_double_quotes(g) + seq![0x22u8] + rest));
            assert(b.drop_first() =~= csv_double_quotes(g) + seq![0x22u8] + rest);
        }
    }
}

proof fn lemma_read_field_back(f: Seq<u8>, rest: Seq<u8>)
    requires
        field_end(rest),
    ensures
        read_field(csv_field(f) + rest) == (f, rest),
{
    if csv_needs_quotes(f) {
        let b = csv_field(f) + rest;
        assert(b[0] == 0x22);
        assert(b.drop_first() =~= csv_double_quotes(f) + seq![0x22u8] + rest);
        lemma_read_quoted_back(f, rest);
    } else {
        if f.len() > 0 {
            assert((f + rest)[0] == f[0]);
            assert(!csv_special(f[0]));
        } else {
            assert(f + rest =~= rest);
        }
        lemma_read_plain_back(f, rest);
    }
}

proof fn lemma_join_front(fs: Seq<Seq<u8>>)
    requires
        fs.len() >= 2,
    ensures
        csv_join(fs) == csv_field(fs[0]) + seq![0x2cu8] + csv_join(fs.drop_first()),
    decreases fs.len(),
{
    if fs.len() == 2 {
        assert(fs.drop_last().len() == 1);
        assert(fs.drop_first().len() == 1);
        assert(fs.drop_last()[0] == fs[0]);
        assert(fs.drop_first()[0] == fs[1]);
        assert(fs.last() == fs[1]);
        assert(csv_join(fs.drop_last()) == csv_field(fs[0]));
        assert(csv_join(fs.drop_first()) == csv_field(fs[1]));
        assert(csv_join(fs) =~= csv_field(fs[0]) + seq![0x2cu8] + csv_join(fs.drop_first()));
    } else {
        lemma_join_front(fs.drop_last());
        assert(fs.drop_last().drop_first() =~= fs.drop_first().drop_last());
        assert(fs.drop_first().last() == fs.last());
        assert(csv_join(fs) =~= csv_field(fs[0]) + seq![0x2cu8] + csv_join(fs.drop_first()));
    }
}

proof fn lemma_read_fields_back(fs: Seq<Seq<u8>>, rest: Seq<u8>)
    requires
        fs.len() >= 1,
        rest.len() == 0 || rest[0] == 0x0a,
    ensures
        read_fields(csv_join(fs) + rest) == (fs, rest),
    decreases fs.len(),
{
    if fs.len() == 1 {
        lemma_read_field_back(fs[0], rest);
        assert(seq![fs[0]] =~= fs);
    } else {
        lemma_join_front(fs);
        let tail = fs.drop_first();
        let after = seq![0x2cu8] + csv_join(tail) + rest;
        assert(csv_join(fs) + rest =~= csv_field(fs[0]) + after);
        lemma_read_field_back(fs[0], after);
        assert(after.drop_first() =~= csv_join(tail) + rest);
        lemma_read_fields_back(tail, rest);
        assert(seq![fs[0]] + tail =~= fs);
    }
}

proof fn lemma_read_record_back(fs: Seq<Seq<u8>>, rest: Seq<u8>)
    requires
        fs.len() >= 1,
    ensures
        read_fields(csv_record(fs) + rest) == (fs, seq![0x0au8] + rest),
{
    let body = csv_join(fs);
    let after = seq![0x0au8] + rest;
    if body.len() == 0 {
        if fs.len() >= 2 {
            assert(csv_join(fs).len() > 0);
        }
        assert(fs.len() == 1);
        if csv_needs_quotes(fs[0]) {
            assert(csv_field(fs[0]).len() > 0);
        }
        assert(fs[0] =~= Seq::<u8>::empty());
        let b = csv_record(fs) + rest;
        assert(b =~= seq![0x22u8, 0x22u8] + after);
        assert(b.drop_first() =~= seq![0x22u8] + after);
        assert((seq![0x22u8] + after).drop_first() =~= after);
        assert(seq![Seq::<u8>::empty()] =~= fs);
    } else {
        assert(csv_record(fs) + rest =~= body + after);
        lemma_read_fields_back(fs, after);
    }
}

proof fn lemma_document_front(rows: Seq<Seq<Seq<char>>>)
    requires
        rows.len() >= 1,
    ensures
        csv_document(rows) == csv_record(row_fields(rows[0])) + csv_document(rows.drop_first()),
    decreases rows.len(),
{
    if rows.len() == 1 {
        assert(rows.drop_last().len() == 0);
        assert(rows.drop_first().len() == 0);
        assert(csv_document(rows.drop_last()) == Seq::<u8>::empty());
        assert(csv_document(rows.drop_first()) == Seq::<u8>::empty());
        assert(rows.last() == rows[0]);
        assert(csv_document(rows) =~= csv_record(row_fields(rows[0])) + csv_document(
            rows.drop_first(),
        ));
    } else {
        lemma_document_front(rows.drop_last());
        assert(rows.drop_last().drop_first() =~= rows.drop_first().drop_last());
        assert(rows.drop_first().last() == rows.last());
        assert(csv_document(rows) =~= csv_record(row_fields(rows[0])) + csv_document(
            rows.drop_first(),
        ));
    }
}

/// CSV text written for a table reads back as that table: reading
/// `csv_document` of rows that each have a cell gives, record by record, the
/// UTF-8 bytes of the cells, whatever commas, quotes or line ends the cells
/// hold.
pub proof fn lemma_document_reads_back(rows: Seq<Seq<Seq<char>>>)
    requires
        forall|i: int| 0 <= i < rows.len() ==> (#[trigger] rows[i]).len() >= 1,
    ensures
        read_document(csv_document(rows)) == rows.map_values(
            |row: Seq<Seq<char>>| row_fields(row),
        ),
    decreases rows.len(),
{
    if rows.len() == 0 {
        assert(rows.map_values(|row: Seq<Seq<char>>| row_fields(row)) =~= Seq::<
            Seq<Seq<u8>>,
        >::empty());
    } else {
        let tail = rows.drop_first();
        lemma_document_front(rows);
        let fs = row_fields(rows[0]);
        assert(fs.len() == rows[0].len());
        lemma_read_record_back(fs, csv_document(tail));
        let b = csv_document(rows);
        assert(b.len() > 0);
        assert forall|i: int| 0 <= i < tail.len() implies (#[trigger] tail[i]).len() >= 1 by {
            assert(tail[i] == rows[i + 1]);
        }
        lemma_document_reads_back(tail);
        assert((seq![0x0au8] + csv_document(tail)).drop_first() =~= csv_document(tail));
        assert(rows.map_values(|row: Seq<Seq<char>>| row_fields(row)) =~= seq![fs]
            + tail.map_values(|row: Seq<Seq<char>>| row_fields(row)));
    }
}

} // verus!
