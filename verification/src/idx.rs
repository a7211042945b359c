//! The IDX container format: a big-endian header followed by a flat payload of
//! bytes.

use byteorder::{BigEndian, ReadBytesExt};
use vstd::arithmetic::div_mod::{
    lemma_div_pos_is_pos, lemma_fundamental_div_mod, lemma_fundamental_div_mod_converse,
    lemma_mod_pos_bound, lemma_multiply_divide_lt,
};
use vstd::prelude::*;

verus! {

/// Magic number that opens an IDX file of images.
pub const IMAGE_MAGIC: u32 = 2051;

/// Magic number that opens an IDX file of labels.
pub const LABEL_MAGIC: u32 = 2049;

/// Length in bytes of the header of an image file.
pub const IMAGE_HEADER_LEN: usize = 16;

/// Length in bytes of the header of a label file.
pub const LABEL_HEADER_LEN: usize = 8;

/// A field of an IDX header.
#[derive(Clone, Copy, Debug, PartialEq, Eq, Structural)]
pub enum HeaderField {
    MagicNumber,
    ItemCount,
    RowCount,
    ColumnCount,
}

/// Why a byte stream was rejected.
#[derive(Clone, Copy, Debug, PartialEq, Eq, Structural)]
pub enum IdxError {
    /// A header field does not hold the value the caller expects.
    Format { field: HeaderField, expected: u32, actual: u32 },
    /// The stream ends before the header or the declared payload is complete.
    Truncated,
}

/// The header of an IDX file. An image file has two dimensions after the
/// item count, the rows and the columns of an image; a label file has none.
#[derive(Clone, Debug, PartialEq, Eq)]
pub struct IdxHeader {
    pub magic_number: u32,
    pub item_count: u32,
    pub extra_dims: Vec<u32>,
}

/// A header as plain values.
pub struct IdxHeaderView {
    pub magic_number: u32,
    pub item_count: u32,
    pub extra_dims: Seq<u32>,
}

impl View for IdxHeader {
    type V = IdxHeaderView;

    open spec fn view(&self) -> IdxHeaderView {
        IdxHeaderView {
            magic_number: self.magic_number,
            item_count: self.item_count,
            extra_dims: self.extra_dims@,
        }
    }
}

/// The unsigned integer that the first four bytes of `bytes` spell, most
/// significant byte first.
pub open spec fn be_u32(bytes: Seq<u8>) -> int
    recommends
        bytes.len() >= 4,
{
    bytes[0] as int * 0x100_0000 + bytes[1] as int * 0x1_0000 + bytes[2] as int * 0x100
        + bytes[3] as int
}

/// The header field that starts at byte `offset` of `bytes`.
pub open spec fn header_word(bytes: Seq<u8>, offset: int) -> u32
    recommends
        0 <= offset,
        offset + 4 <= bytes.len(),
{
    be_u32(bytes.subrange(offset, offset + 4)) as u32
}

/// The header that the first sixteen bytes of an image file hold.
pub open spec fn image_header_of(bytes: Seq<u8>) -> IdxHeaderView
    recommends
        bytes.len() >= IMAGE_HEADER_LEN,
{
    IdxHeaderView {
        magic_number: header_word(bytes, 0),
        item_count: header_word(bytes, 4),
        extra_dims: seq![header_word(bytes, 8), header_word(bytes, 12)],
    }
}

/// The header that the first eight bytes of a label file hold.
pub open spec fn label_header_of(bytes: Seq<u8>) -> IdxHeaderView
    recommends
        bytes.len() >= LABEL_HEADER_LEN,
{
    IdxHeaderView {
        magic_number: header_word(bytes, 0),
        item_count: header_word(bytes, 4),
        extra_dims: Seq::empty(),
    }
}

/// What is wrong with one header field, if anything.
pub open spec fn field_fault(field: HeaderField, expected: u32, actual: u32) -> Option<IdxError> {
    if actual == expected {
        None
    } else {
        Some(IdxError::Format { field, expected, actual })
    }
}

/// The first thing wrong with the header of an image file, if anything: the
/// fields are compared in file order with the magic number of image files and
/// the values the caller expects.
pub open spec fn image_header_fault(
    header: IdxHeaderView,
    expected_count: u32,
    expected_rows: u32,
    expected_cols: u32,
) -> Option<IdxError>
    recommends
        header.extra_dims.len() == 2,
{
    if header.magic_number != IMAGE_MAGIC {
        field_fault(HeaderField::MagicNumber, IMAGE_MAGIC, header.magic_number)
    } else if header.item_count != expected_count {
        field_fault(HeaderField::ItemCount, expected_count, header.item_count)
    } else if header.extra_dims[0] != expected_rows {
        field_fault(HeaderField::RowCount, expected_rows, header.extra_dims[0])
    } else {
        field_fault(HeaderField::ColumnCount, expected_cols, header.extra_dims[1])
    }
}

/// The first thing wrong with the header of a label file, if anything.
pub open spec fn label_header_fault(header: IdxHeaderView, expected_count: u32) -> Option<
    IdxError,
> {
    if header.magic_number != LABEL_MAGIC {
        field_fault(HeaderField::MagicNumber, LABEL_MAGIC, header.magic_number)
    } else {
        field_fault(HeaderField::ItemCount, expected_count, header.item_count)
    }
}

/// The records that a vector of byte vectors holds.
pub open spec fn views(records: Seq<Vec<u8>>) -> Seq<Seq<u8>> {
    Seq::new(records.len(), |i: int| records[i]@)
}

/// The payload cut into `count` consecutive records of `len` bytes each.
pub open spec fn records_of(payload: Seq<u8>, count: int, len: int) -> Seq<Seq<u8>> {
    Seq::new(count as nat, |i: int| payload.subrange(i * len, (i + 1) * len))
}

/// What a label file decodes to: the first `expected_count` bytes of the
/// payload, or the reason for rejecting the stream. A stream too short for
/// the header is truncated, whatever it holds; then the header is judged;
/// then the length of the payload.
pub open spec fn parsed_labels(bytes: Seq<u8>, expected_count: u32) -> Result<Seq<u8>, IdxError> {
    if bytes.len() < LABEL_HEADER_LEN {
        Err(IdxError::Truncated)
    } else if let Some(fault) = label_header_fault(label_header_of(bytes), expected_count) {
        Err(fault)
    } else if bytes.len() - LABEL_HEADER_LEN < expected_count {
        Err(IdxError::Truncated)
    } else {
        Ok(bytes.subrange(LABEL_HEADER_LEN as int, LABEL_HEADER_LEN + expected_count))
    }
}

/// What an image file decodes to: `expected_count` records of
/// `expected_rows * expected_cols` bytes each, taken from the payload in file
/// order, or the reason for rejecting the stream. A stream too short for the
/// header is truncated, whatever it holds; then the header is judged; then
/// the length of the payload.
pub open spec fn parsed_images(
    bytes: Seq<u8>,
    expected_count: u32,
    expected_rows: u32,
    expected_cols: u32,
) -> Result<Seq<Seq<u8>>, IdxError> {
    if bytes.len() < IMAGE_HEADER_LEN {
        Err(IdxError::Truncated)
    } else if let Some(fault) = image_header_fault(
        image_header_of(bytes),
        expected_count,
        expected_rows,
        expected_cols,
    ) {
        Err(fault)
    } else if bytes.len() - IMAGE_HEADER_LEN < expected_count * (expected_rows * expected_cols) {
        Err(IdxError::Truncated)
    } else {
        Ok(
            records_of(
                bytes.skip(IMAGE_HEADER_LEN as int),
                expected_count as int,
                expected_rows * expected_cols,
            ),
        )
    }
}

/// Reads one header field with `byteorder::ReadBytesExt::read_u32::<BigEndian>`,
/// the byte slice being the reader. Trusted: with fewer than four bytes left
/// the read fails; otherwise it yields the first four bytes as a big-endian
/// integer and leaves the reader at the fifth byte.
#[verifier::external_body]
fn read_be_u32(input: &[u8]) -> (r: Option<(u32, &[u8])>)
    ensures
        match r {
            Some(read) => input@.len() >= 4 && read.0 == be_u32(input@) && read.1@
                == input@.skip(4),
            None => input@.len() < 4,
        },
{
    let mut reader = input;
    match reader.read_u32::<BigEndian>() {
        Ok(value) => Some((value, reader)),
        Err(_) => None,
    }
}

/// Reads the magic number and the item count that open every IDX file.
fn read_header_start(bytes: &[u8]) -> (r: Option<(u32, u32, &[u8])>)
    ensures
        match r {
            Some(read) => bytes@.len() >= 8 && read.0 == header_word(bytes@, 0) && read.1
                == header_word(bytes@, 4) && read.2@ == bytes@.skip(8),
            None => bytes@.len() < 8,
        },
{
    let (magic, after_magic) = match read_be_u32(bytes) {
        Some(read) => read,
        None => { return None; },
    };
    let (count, rest) = match read_be_u32(after_magic) {
        Some(read) => read,
        None => { return None; },
    };
    assert(bytes@.subrange(0, 4) =~= bytes@.take(4));
    assert(after_magic@.take(4) =~= bytes@.subrange(4, 8));
    assert(rest@ =~= bytes@.skip(8));
    Some((magic, count, rest))
}

/// Reads the header of a label file and hands it out as it stands in the
/// file, with the payload that follows it. Nothing is judged but the length.
pub fn read_label_header(bytes: &[u8]) -> (r: Result<(IdxHeader, &[u8]), IdxError>)
    ensures
        match r {
            Ok(read) => bytes@.len() >= LABEL_HEADER_LEN && read.0@ == label_header_of(bytes@)
                && read.1@ == bytes@.skip(LABEL_HEADER_LEN as int),
            Err(e) => bytes@.len() < LABEL_HEADER_LEN && e == IdxError::Truncated,
        },
{
    match read_header_start(bytes) {
        Some((magic_number, item_count, payload)) => Ok(
            (IdxHeader { magic_number, item_count, extra_dims: Vec::new() }, payload),
        ),
        None => Err(IdxError::Truncated),
    }
}

/// Reads the header of an image file and hands it out as it stands in the
/// file, with the payload that follows it. Nothing is judged but the length.
pub fn read_image_header(bytes: &[u8]) -> (r: Result<(IdxHeader, &[u8]), IdxError>)
    ensures
        match r {
            Ok(read) => bytes@.len() >= IMAGE_HEADER_LEN && read.0@ == image_header_of(bytes@)
                && read.1@ == bytes@.skip(IMAGE_HEADER_LEN as int),
            Err(e) => bytes@.len() < IMAGE_HEADER_LEN && e == IdxError::Truncated,
        },
{
    let (magic_number, item_count, after_count) = match read_header_start(bytes) {
        Some(read) => read,
        None => { return Err(IdxError::Truncated); },
    };
    let (rows, after_rows) = match read_be_u32(after_count) {
        Some(read) => read,
        None => { return Err(IdxError::Truncated); },
    };
    let (cols, payload) = match read_be_u32(after_rows) {
        Some(read) => read,
        None => { return Err(IdxError::Truncated); },
    };
    assert(after_count@.take(4) =~= bytes@.subrange(8, 12));
    assert(after_rows@.take(4) =~= bytes@.subrange(12, 16));
    assert(payload@ =~= bytes@.skip(IMAGE_HEADER_LEN as int));
    let mut extra_dims: Vec<u32> = Vec::new();
    extra_dims.push(rows);
    extra_dims.push(cols);
    assert(extra_dims@ =~= image_header_of(bytes@).extra_dims);
    Ok((IdxHeader { magic_number, item_count, extra_dims }, payload))
}

/// Compares one header field with the value the caller expects.
fn check_field(field: HeaderField, expected: u32, actual: u32) -> (r: Result<(), IdxError>)
    ensures
        match r {
            Ok(_) => field_fault(field, expected, actual) is None,
            Err(e) => field_fault(field, expected, actual) == Some(e),
        },
{
    if actual == expected {
        Ok(())
    } else {
        Err(IdxError::Format { field, expected, actual })
    }
}

/// Judges the header of a label file: the magic number, then the item count.
pub fn check_label_header(header: &IdxHeader, expected_count: u32) -> (r: Result<(), IdxError>)
    ensures
        match r {
            Ok(_) => label_header_fault(header@, expected_count) is None,
            Err(e) => label_header_fault(header@, expected_count) == Some(e),
        },
{
    check_field(HeaderField::MagicNumber, LABEL_MAGIC, header.magic_number)?;
    check_field(HeaderField::ItemCount, expected_count, header.item_count)
}

/// Judges the header of an image file: the magic number, the item count, the
/// number of rows, then the number of columns.
pub fn check_image_header(
    header: &IdxHeader,
    expected_count: u32,
    expected_rows: u32,
    expected_cols: u32,
) -> (r: Result<(), IdxError>)
    requires
        header.extra_dims@.len() == 2,
    ensures
        match r {
            Ok(_) => image_header_fault(header@, expected_count, expected_rows, expected_cols)
                is None,
            Err(e) => image_header_fault(header@, expected_count, expected_rows, expected_cols)
                == Some(e),
        },
{
    check_field(HeaderField::MagicNumber, IMAGE_MAGIC, header.magic_number)?;
    check_field(HeaderField::ItemCount, expected_count, header.item_count)?;
    check_field(HeaderField::RowCount, expected_rows, header.extra_dims[0])?;
    check_field(HeaderField::ColumnCount, expected_cols, header.extra_dims[1])
}

/// Decodes a label file: checks the magic number and the item count, then
/// hands out `expected_count` labels in file order. Bytes after the last label
/// are ignored.
pub fn parse_labels(bytes: &[u8], expected_count: u32) -> (r: Result<Vec<u8>, IdxError>)
    ensures
        match r {
            Ok(labels) => parsed_labels(bytes@, expected_count) == Ok::<Seq<u8>, IdxError>(
                labels@,
            ),
            Err(e) => parsed_labels(bytes@, expected_count) == Err::<Seq<u8>, IdxError>(e),
        },
{
    let (header, payload) = read_label_header(bytes)?;
    check_label_header(&header, expected_count)?;
    let wanted: usize = expected_count as usize;
    if payload.len() < wanted {
        return Err(IdxError::Truncated);
    }
    let labels = vstd::slice::slice_to_vec(vstd::slice::slice_subrange(payload, 0, wanted));
    assert(labels@ =~= bytes@.subrange(LABEL_HEADER_LEN as int, LABEL_HEADER_LEN + expected_count));
    Ok(labels)
}

/// Cuts the first `count` records of `len` bytes out of a payload that holds
/// them.
fn cut_records(payload: &[u8], count: usize, len: usize) -> (out: Vec<Vec<u8>>)
    requires
        count * len <= payload@.len(),
    ensures
        views(out@) == records_of(payload@, count as int, len as int),
{
    let total: usize = payload.len();
    let mut out: Vec<Vec<u8>> = Vec::new();
    let mut start: usize = 0;
    let mut i: usize = 0;
    while i < count
        invariant
            count * len <= total == payload@.len(),
            i <= count,
            start == i * len,
            out@.len() == i,
            forall|k: int|
                0 <= k < i ==> (#[trigger] out@[k])@ == payload@.subrange(k * len, (k + 1) * len),
        decreases count - i,
    {
        assert((i + 1) * len == i * len + len) by (nonlinear_arith);
        assert((i + 1) * len <= count * len) by (nonlinear_arith)
            requires
                i < count,
        ;
        let end: usize = start + len;
        let record = vstd::slice::slice_to_vec(vstd::slice::slice_subrange(payload, start, end));
        out.push(record);
        start = end;
        i += 1;
    }
    assert(views(out@) =~= records_of(payload@, count as int, len as int));
    out
}

/// Decodes an image file: checks the magic number, the item count and the
/// two dimensions, then hands out `expected_count` images of `expected_rows *
/// expected_cols` pixels each, in file order and with every pixel as it is in
/// the file. Bytes after the last image are ignored.
pub fn parse_images(
    bytes: &[u8],
    expected_count: u32,
    expected_rows: u32,
    expected_cols: u32,
) -> (r: Result<Vec<Vec<u8>>, IdxError>)
    ensures
        match r {
            Ok(images) => parsed_images(bytes@, expected_count, expected_rows, expected_cols)
                == Ok::<Seq<Seq<u8>>, IdxError>(views(images@)),
            Err(e) => parsed_images(bytes@, expected_count, expected_rows, expected_cols)
                == Err::<Seq<Seq<u8>>, IdxError>(e),
        },
{
    let (header, payload) = read_image_header(bytes)?;
    check_image_header(&header, expected_count, expected_rows, expected_cols)?;
    assert(expected_rows * expected_cols <= 0xffff_ffff * 0xffff_ffff) by (nonlinear_arith);
    let record: u64 = expected_rows as u64 * expected_cols as u64;
    assert(expected_count * record <= 0xffff_ffff * (0xffff_ffff * 0xffff_ffff))
        by (nonlinear_arith)
        requires
            record <= 0xffff_ffff * 0xffff_ffff,
    ;
    let needed: u128 = expected_count as u128 * record as u128;
    if (payload.len() as u128) < needed {
        return Err(IdxError::Truncated);
    }
    if expected_count == 0 {
        let none: Vec<Vec<u8>> = Vec::new();
        assert(views(none@) =~= records_of(payload@, 0, record as int));
        return Ok(none);
    }
    assert(record <= needed) by (nonlinear_arith)
        requires
            needed == expected_count * record,
            expected_count >= 1,
    ;
    Ok(cut_records(payload, expected_count as usize, record as usize))
}

/// The four bytes that spell `value`, most significant byte first.
pub open spec fn be_bytes(value: u32) -> Seq<u8> {
    seq![
        (value / 0x100_0000) as u8,
        (value / 0x1_0000 % 0x100) as u8,
        (value / 0x100 % 0x100) as u8,
        (value % 0x100) as u8,
    ]
}

/// Four bytes written for a value spell that value.
pub proof fn lemma_be_round_trip(value: u32)
    ensures
        be_bytes(value).len() == 4,
        be_u32(be_bytes(value)) == value,
{
}

/// An image file with the given header fields and payload.
pub open spec fn image_file(magic: u32, count: u32, rows: u32, cols: u32, payload: Seq<u8>) -> Seq<
    u8,
> {
    be_bytes(magic) + be_bytes(count) + be_bytes(rows) + be_bytes(cols) + payload
}

/// A label file with the given header fields and payload.
pub open spec fn label_file(magic: u32, count: u32, payload: Seq<u8>) -> Seq<u8> {
    be_bytes(magic) + be_bytes(count) + payload
}

/// Records of `len` bytes each, one after the other.
pub open spec fn joined(records: Seq<Seq<u8>>, len: int) -> Seq<u8> {
    Seq::new((records.len() * len) as nat, |i: int| records[i / len][i % len])
}

/// Whether every record has `len` bytes.
pub open spec fn all_of_len(records: Seq<Seq<u8>>, len: int) -> bool {
    forall|i: int| 0 <= i < records.len() ==> (#[trigger] records[i]).len() == len
}

/// The image file that holds `records` as images of `rows * cols` pixels.
pub open spec fn encoded_images(records: Seq<Seq<u8>>, rows: u32, cols: u32) -> Seq<u8> {
    image_file(IMAGE_MAGIC, records.len() as u32, rows, cols, joined(records, rows * cols))
}

/// The label file that holds `labels`.
pub open spec fn encoded_labels(labels: Seq<u8>) -> Seq<u8> {
    label_file(LABEL_MAGIC, labels.len() as u32, labels)
}

/// The header fields of an image file are the values it was written with.
pub proof fn lemma_image_file_header(
    magic: u32,
    count: u32,
    rows: u32,
    cols: u32,
    payload: Seq<u8>,
)
    ensures
        image_file(magic, count, rows, cols, payload).len() == IMAGE_HEADER_LEN + payload.len(),
        header_word(image_file(magic, count, rows, cols, payload), 0) == magic,
        header_word(image_file(magic, count, rows, cols, payload), 4) == count,
        header_word(image_file(magic, count, rows, cols, payload), 8) == rows,
        header_word(image_file(magic, count, rows, cols, payload), 12) == cols,
        image_file(magic, count, rows, cols, payload).skip(IMAGE_HEADER_LEN as int) == payload,
{
    let file = image_file(magic, count, rows, cols, payload);
    lemma_be_round_trip(magic);
    lemma_be_round_trip(count);
    lemma_be_round_trip(rows);
    lemma_be_round_trip(cols);
    assert(file.subrange(0, 4) =~= be_bytes(magic));
    assert(file.subrange(4, 8) =~= be_bytes(count));
    assert(file.subrange(8, 12) =~= be_bytes(rows));
    assert(file.subrange(12, 16) =~= be_bytes(cols));
    assert(file.skip(IMAGE_HEADER_LEN as int) =~= payload);
}

/// The header fields of a label file are the values it was written with.
pub proof fn lemma_label_file_header(magic: u32, count: u32, payload: Seq<u8>)
    ensures
        label_file(magic, count, payload).len() == LABEL_HEADER_LEN + payload.len(),
        header_word(label_file(magic, count, payload), 0) == magic,
        header_word(label_file(magic, count, payload), 4) == count,
        label_file(magic, count, payload).skip(LABEL_HEADER_LEN as int) == payload,
{
    let file = label_file(magic, count, payload);
    lemma_be_round_trip(magic);
    lemma_be_round_trip(count);
    assert(file.subrange(0, 4) =~= be_bytes(magic));
    assert(file.subrange(4, 8) =~= be_bytes(count));
    assert(file.skip(LABEL_HEADER_LEN as int) =~= payload);
}

/// A payload that holds `count` records of `len` bytes is cut into just
/// those: `count` records of `len` bytes each which, one after the other, are
/// the first `count * len` bytes of the payload.
pub proof fn lemma_records_of(payload: Seq<u8>, count: int, len: int)
    requires
        0 <= count,
        0 <= len,
        count * len <= payload.len(),
    ensures
        records_of(payload, count, len).len() == count,
        all_of_len(records_of(payload, count, len), len),
        joined(records_of(payload, count, len), len) == payload.take(count * len),
{
    let cut = records_of(payload, count, len);
    assert forall|i: int| 0 <= i < count implies (#[trigger] cut[i]).len() == len by {
        assert(0 <= i * len && (i + 1) * len <= count * len && (i + 1) * len == i * len + len)
            by (nonlinear_arith)
            requires
                0 <= i < count,
                0 <= len,
        ;
    }
    assert(count * len >= 0) by (nonlinear_arith)
        requires
            count >= 0,
            len >= 0,
    ;
    let flat = joined(cut, len);
    assert forall|p: int| 0 <= p < count * len implies flat[p] == payload[p] by {
        assert(len > 0) by (nonlinear_arith)
            requires
                0 <= p < count * len,
                0 <= len,
        ;
        let q = p / len;
        let r = p % len;
        lemma_fundamental_div_mod(p, len);
        lemma_mod_pos_bound(p, len);
        lemma_div_pos_is_pos(p, len);
        assert(len * count == count * len) by (nonlinear_arith);
        lemma_multiply_divide_lt(p, len, count);
        assert(q * len == len * q) by (nonlinear_arith);
        assert((q + 1) * len == q * len + len) by (nonlinear_arith);
        assert((q + 1) * len <= count * len) by (nonlinear_arith)
            requires
                q < count,
                0 <= len,
        ;
        assert(cut[q][r] == payload[q * len + r]);
    }
    assert(flat =~= payload.take(count * len));
}

/// What decoding makes of an image file with a complete header: the first
/// header field that differs from what is expected is reported; with all four
/// as expected, a payload too short for the declared images is reported;
/// otherwise the payload comes back cut into images, byte for byte and in
/// order, and what follows the last image is ignored.
pub proof fn lemma_image_file_outcome(
    magic: u32,
    count: u32,
    rows: u32,
    cols: u32,
    payload: Seq<u8>,
    expected_count: u32,
    expected_rows: u32,
    expected_cols: u32,
)
    ensures
        parsed_images(
            image_file(magic, count, rows, cols, payload),
            expected_count,
            expected_rows,
            expected_cols,
        ) == (if magic != IMAGE_MAGIC {
            Err::<Seq<Seq<u8>>, IdxError>(
                IdxError::Format {
                    field: HeaderField::MagicNumber,
                    expected: IMAGE_MAGIC,
                    actual: magic,
                },
            )
        } else if count != expected_count {
            Err(
                IdxError::Format {
                    field: HeaderField::ItemCount,
                    expected: expected_count,
                    actual: count,
                },
            )
        } else if rows != expected_rows {
            Err(
                IdxError::Format {
                    field: HeaderField::RowCount,
                    expected: expected_rows,
                    actual: rows,
                },
            )
        } else if cols != expected_cols {
            Err(
                IdxError::Format {
                    field: HeaderField::ColumnCount,
                    expected: expected_cols,
                    actual: cols,
                },
            )
        } else if payload.len() < count * (rows * cols) {
            Err(IdxError::Truncated)
        } else {
            Ok(records_of(payload, count as int, rows * cols))
        }),
{
    lemma_image_file_header(magic, count, rows, cols, payload);
}

/// What decoding makes of a label file with a complete header: a wrong magic
/// number is reported first, then a wrong item count, then a payload with
/// fewer labels than declared; otherwise the declared labels come back, byte
/// for byte and in order.
pub proof fn lemma_label_file_outcome(
    magic: u32,
    count: u32,
    payload: Seq<u8>,
    expected_count: u32,
)
    ensures
        parsed_labels(label_file(magic, count, payload), expected_count) == (if magic
            != LABEL_MAGIC {
            Err::<Seq<u8>, IdxError>(
                IdxError::Format {
                    field: HeaderField::MagicNumber,
                    expected: LABEL_MAGIC,
                    actual: magic,
                },
            )
        } else if count != expected_count {
            Err(
                IdxError::Format {
                    field: HeaderField::ItemCount,
                    expected: expected_count,
                    actual: count,
                },
            )
        } else if payload.len() < count {
            Err(IdxError::Truncated)
        } else {
            Ok(payload.take(count as int))
        }),
{
    lemma_label_file_header(magic, count, payload);
    let file = label_file(magic, count, payload);
    if payload.len() >= count {
        assert(file.subrange(LABEL_HEADER_LEN as int, LABEL_HEADER_LEN + count) =~= payload.take(
            count as int,
        ));
    }
}

/// An image file whose header declares `count` images of `rows * cols`
/// pixels, followed by just that many bytes, decodes to `count` records of
/// `rows * cols` bytes each which, one after the other, are the payload.
pub proof fn lemma_valid_image_file(count: u32, rows: u32, cols: u32, payload: Seq<u8>)
    requires
        payload.len() == count * (rows * cols),
    ensures
        parsed_images(image_file(IMAGE_MAGIC, count, rows, cols, payload), count, rows, cols)
            matches Ok(records) && records.len() == count && all_of_len(records, rows * cols)
            && joined(records, rows * cols) == payload,
{
    lemma_image_file_outcome(IMAGE_MAGIC, count, rows, cols, payload, count, rows, cols);
    assert(rows * cols >= 0) by (nonlinear_arith)
        requires
            rows >= 0,
            cols >= 0,
    ;
    lemma_records_of(payload, count as int, rows * cols);
    assert(payload.take(payload.len() as int) =~= payload);
}

/// A label file whose header declares `count` labels, followed by just that
/// many bytes, decodes to those bytes in their order.
pub proof fn lemma_valid_label_file(count: u32, payload: Seq<u8>)
    requires
        payload.len() == count,
    ensures
        parsed_labels(label_file(LABEL_MAGIC, count, payload), count) == Ok::<Seq<u8>, IdxError>(
            payload,
        ),
{
    lemma_label_file_outcome(LABEL_MAGIC, count, payload, count);
    assert(payload.take(count as int) =~= payload);
}

/// Records written one after the other and cut again are the same records.
pub proof fn lemma_joined_records(records: Seq<Seq<u8>>, len: int)
    requires
        0 <= len,
        all_of_len(records, len),
    ensures
        joined(records, len).len() == records.len() * len,
        records_of(joined(records, len), records.len() as int, len) == records,
{
    let count = records.len() as int;
    let flat = joined(records, len);
    assert(count * len >= 0) by (nonlinear_arith)
        requires
            count >= 0,
            len >= 0,
    ;
    let cut = records_of(flat, count, len);
    assert forall|k: int| 0 <= k < count implies #[trigger] cut[k] == records[k] by {
        assert(0 <= k * len && (k + 1) * len <= count * len && (k + 1) * len == k * len + len)
            by (nonlinear_arith)
            requires
                0 <= k < count,
                0 <= len,
        ;
        assert forall|j: int| 0 <= j < len implies cut[k][j] == records[k][j] by {
            lemma_fundamental_div_mod_converse(k * len + j, len, k, j);
        }
        assert(cut[k] =~= records[k]);
    }
    assert(cut =~= records);
}

/// Decoding the image file written for a set of images gives those images
/// back.
pub proof fn lemma_images_round_trip(records: Seq<Seq<u8>>, rows: u32, cols: u32)
    requires
        records.len() <= u32::MAX,
        all_of_len(records, rows * cols),
    ensures
        parsed_images(encoded_images(records, rows, cols), records.len() as u32, rows, cols)
            == Ok::<Seq<Seq<u8>>, IdxError>(records),
{
    let count = records.len() as u32;
    assert(rows * cols >= 0) by (nonlinear_arith)
        requires
            rows >= 0,
            cols >= 0,
    ;
    lemma_joined_records(records, rows * cols);
    lemma_image_file_outcome(
        IMAGE_MAGIC,
        count,
        rows,
        cols,
        joined(records, rows * cols),
        count,
        rows,
        cols,
    );
}

/// Decoding the label file written for a list of labels gives those labels
/// back.
pub proof fn lemma_labels_round_trip(labels: Seq<u8>)
    requires
        labels.len() <= u32::MAX,
    ensures
        parsed_labels(encoded_labels(labels), labels.len() as u32) == Ok::<Seq<u8>, IdxError>(
            labels,
        ),
{
    lemma_valid_label_file(labels.len() as u32, labels);
}

/// One more record written after the others.
proof fn lemma_joined_push(records: Seq<Seq<u8>>, record: Seq<u8>, len: int)
    requires
        0 <= len,
        all_of_len(records, len),
        record.len() == len,
    ensures
        joined(records.push(record), len) == joined(records, len) + record,
{
    let count = records.len() as int;
    let more = joined(records.push(record), len);
    let sum = joined(records, len) + record;
    assert(count * len >= 0 && (count + 1) * len == count * len + len) by (nonlinear_arith)
        requires
            count >= 0,
            len >= 0,
    ;
    assert forall|p: int| 0 <= p < more.len() implies more[p] == sum[p] by {
        if p < count * len {
            assert(len * count == count * len) by (nonlinear_arith);
            lemma_multiply_divide_lt(p, len, count);
        } else {
            lemma_fundamental_div_mod_converse(p, len, count, p - count * len);
        }
    }
    assert(more =~= sum);
}

/// Appends the four bytes that spell `value`, most significant byte first.
fn push_be_u32(out: &mut Vec<u8>, value: u32)
    ensures
        final(out)@ == old(out)@ + be_bytes(value),
{
    out.push((value / 0x100_0000) as u8);
    out.push((value / 0x1_0000 % 0x100) as u8);
    out.push((value / 0x100 % 0x100) as u8);
    out.push((value % 0x100) as u8);
    assert(out@ =~= old(out)@ + be_bytes(value));
}

/// Writes the label file that holds `labels`: the magic number, their count,
/// then the labels in order.
pub fn encode_labels(labels: &[u8]) -> (out: Vec<u8>)
    requires
        labels@.len() <= u32::MAX,
    ensures
        out@ == encoded_labels(labels@),
        parsed_labels(out@, labels@.len() as u32) == Ok::<Seq<u8>, IdxError>(labels@),
{
    let mut out: Vec<u8> = Vec::new();
    push_be_u32(&mut out, LABEL_MAGIC);
    push_be_u32(&mut out, labels.len() as u32);
    let ghost header = out@;
    let mut i: usize = 0;
    while i < labels.len()
        invariant
            i <= labels@.len(),
            out@ == header + labels@.take(i as int),
        decreases labels@.len() - i,
    {
        out.push(labels[i]);
        assert(labels@.take(i + 1) =~= labels@.take(i as int).push(labels@[i as int]));
        i += 1;
    }
    proof {
        assert(labels@.take(labels@.len() as int) =~= labels@);
        assert(out@ =~= encoded_labels(labels@));
        lemma_labels_round_trip(labels@);
    }
    out
}

/// Writes the image file that holds `images`: the magic number, their count,
/// the two dimensions, then the pixels of each image in order.
pub fn encode_images(images: &Vec<Vec<u8>>, rows: u32, cols: u32) -> (out: Vec<u8>)
    requires
        images@.len() <= u32::MAX,
        all_of_len(views(images@), rows * cols),
    ensures
        out@ == encoded_images(views(images@), rows, cols),
        parsed_images(out@, images@.len() as u32, rows, cols) == Ok::<Seq<Seq<u8>>, IdxError>(
            views(images@),
        ),
{
    let ghost records = views(images@);
    let ghost len = rows * cols;
    let mut out: Vec<u8> = Vec::new();
    push_be_u32(&mut out, IMAGE_MAGIC);
    push_be_u32(&mut out, images.len() as u32);
    push_be_u32(&mut out, rows);
    push_be_u32(&mut out, cols);
    let ghost header = out@;
    assert(len >= 0) by (nonlinear_arith)
        requires
            len == rows * cols,
    ;
    assert(joined(records.take(0), len) =~= Seq::<u8>::empty());
    let mut i: usize = 0;
    while i < images.len()
        invariant
            records == views(images@),
            all_of_len(records, len),
            0 <= len,
            i <= images@.len(),
            out@ == header + joined(records.take(i as int), len),
        decreases images@.len() - i,
    {
        let image = &images[i];
        assert(image@ == records[i as int]);
        let ghost before = out@;
        let mut j: usize = 0;
        while j < image.len()
            invariant
                j <= image@.len(),
                out@ == before + image@.take(j as int),
            decreases image@.len() - j,
        {
            out.push(image[j]);
            assert(image@.take(j + 1) =~= image@.take(j as int).push(image@[j as int]));
            j += 1;
        }
        proof {
            assert(image@.take(image@.len() as int) =~= image@);
            lemma_joined_push(records.take(i as int), image@, len);
            assert(records.take(i + 1) =~= records.take(i as int).push(image@));
        }
        i += 1;
    }
    proof {
        assert(records.take(records.len() as int) =~= records);
        assert(out@ =~= encoded_images(records, rows, cols));
        lemma_images_round_trip(records, rows, cols);
    }
    out
}

} // verus!
