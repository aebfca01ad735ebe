use vstd::prelude::*;
use vstd::string::StrSliceExecFns;
use vstd::utf8::encode_utf8;

verus! {

/// The bytes that force a field into quotes: the delimiter `,`, the quote
/// `"`, and the line ends `\r` and `\n`.
pub open spec fn csv_special(b: u8) -> bool {
    b == 0x2c || b == 0x22 || b == 0x0d || b == 0x0a
}

pub open spec fn csv_needs_quotes(field: Seq<u8>) -> bool {
    exists|i: int| 0 <= i < field.len() && csv_special(#[trigger] field[i])
}

/// `field` with each quote doubled.
pub open spec fn csv_double_quotes(field: Seq<u8>) -> Seq<u8>
    decreases field.len(),
{
    if field.len() == 0 {
        Seq::empty()
    } else {
        (if field[0] == 0x22 {
            seq![0x22u8, 0x22u8]
        } else {
            seq![field[0]]
        }) + csv_double_quotes(field.drop_first())
    }
}

/// A field as written: in quotes, with its quotes doubled, where it holds a
/// special byte; as it is otherwise.
pub open spec fn csv_field(field: Seq<u8>) -> Seq<u8> {
    if csv_needs_quotes(field) {
        seq![0x22u8] + csv_double_quotes(field) + seq![0x22u8]
    } else {
        field
    }
}

/// The written fields, separated by commas.
pub open spec fn csv_join(fields: Seq<Seq<u8>>) -> Seq<u8>
    decreases fields.len(),
{
    if fields.len() == 0 {
        Seq::empty()
    } else if fields.len() == 1 {
        csv_field(fields[0])
    } else {
        csv_join(fields.drop_last()) + seq![0x2cu8] + csv_field(fields.last())
    }
}

/// One CSV record: the joined fields and a `\n`; a record that would be
/// empty (no fields, or one empty field) is written as `""`.
pub open spec fn csv_record(fields: Seq<Seq<u8>>) -> Seq<u8> {
    let body = csv_join(fields);
    (if body.len() == 0 {
        seq![0x22u8, 0x22u8]
    } else {
        body
    }) + seq![0x0au8]
}

/// Encodes one record with a `csv::Writer` of the default configuration
/// (`csv::Writer::from_writer` on a fresh `Vec<u8>`, then `write_record`
/// and `into_inner`). What the contract claims of the crate: the bytes are
/// those of `csv_record` (fields quoted only where they hold `,`, `"`, `\r`
/// or `\n`, quotes doubled inside quotes, `,` between fields, `\n` after the
/// record, `""` for an empty record), and the writer does not fail: its
/// errors come only from writing into the `Vec<u8>`, which appends and
/// grows as needed, and from the field-count check, which a fresh writer
/// only records on its first record.
#[verifier::external_body]
fn encode_csv_record(fields: &Vec<Vec<u8>>) -> (res: Option<Vec<u8>>)
    ensures
        res is Some,
        res matches Some(bytes) ==> bytes@ == csv_record(fields.deep_view()),
{
    let mut writer = csv::Writer::from_writer(Vec::new());
    match writer.write_record(fields) {
        Ok(()) => {},
        Err(_) => return None,
    }
    match writer.into_inner() {
        Ok(bytes) => Some(bytes),
        Err(_) => None,
    }
}

/// The fields of a row of text cells: the UTF-8 bytes of each cell.
pub open spec fn row_fields(row: Seq<Seq<char>>) -> Seq<Seq<u8>> {
    row.map_values(|cell: Seq<char>| encode_utf8(cell))
}

/// The CSV encoding of a table of text cells: each row as a record of the
/// UTF-8 bytes of its cells.
pub open spec fn csv_document(rows: Seq<Seq<Seq<char>>>) -> Seq<u8>
    decreases rows.len(),
{
    if rows.len() == 0 {
        Seq::empty()
    } else {
        csv_document(rows.drop_last()) + csv_record(row_fields(rows.last()))
    }
}

/// Encodes one row of text cells as a CSV record, with the `csv` crate.
pub fn csv_encode_row(row: &Vec<String>) -> (res: Option<Vec<u8>>)
    ensures
        res is Some,
        res matches Some(bytes) ==> bytes@ == csv_record(
            row_fields(row@.map_values(|s: String| s@)),
        ),
{
    let mut fields: Vec<Vec<u8>> = Vec::new();
    let n = row.len();
    for i in 0..n
        invariant
            n == row@.len(),
            fields.deep_view() == row@.take(i as int).map_values(|s: String| encode_utf8(s@)),
    {
        let ghost old_fields = fields.deep_view();
        let bytes = row[i].as_str().as_bytes_vec();
        assert(bytes.deep_view() =~= bytes@);
        fields.push(bytes);
        assert(fields.deep_view() =~= old_fields.push(encode_utf8(row@[i as int]@)));
        assert(row@.take(i + 1).map_values(|s: String| encode_utf8(s@)) =~= row@.take(
            i as int,
        ).map_values(|s: String| encode_utf8(s@)).push(encode_utf8(row@[i as int]@)));
    }
    assert(fields.deep_view() =~= row_fields(row@.map_values(|s: String| s@)));
    encode_csv_record(&fields)
}

} // verus!
