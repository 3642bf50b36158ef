//! Calls into the `csv` and `encoding_rs` crates and into std text routines.
//!
//! Every function here is trusted: Verus believes its contract and does not
//! read its body. Each doc comment says what the contract claims.

use vstd::prelude::*;
use vstd::utf8::*;

verus! {

/// Declares `csv::Error` so that it can be carried through verified code.
#[verifier::external_type_specification]
#[verifier::external_body]
pub struct ExCsvError(csv::Error);

/// What a fresh `csv` reader (no header handling, flexible record lengths)
/// reports for the first record of `input`, read with the given delimiter
/// and quote byte: `None` when the reader reports an error, otherwise whether
/// a record was found, its fields, and how many input bytes were consumed.
pub uninterp spec fn csv_read_first(input: Seq<u8>, delimiter: u8, quote: u8) -> Option<(bool, Seq<Seq<u8>>, int)>;

/// What a `csv` reader that has already read (and so no longer drops a
/// byte-order mark, `csv-core`'s `strip_utf8_bom`) reports for the next
/// record of `input`; it is read as a fresh reader reads a newline followed
/// by `input`, the newline being skipped as an empty line. `None` when the
/// reader reports an error, otherwise whether a record was found, its fields,
/// and how many bytes were consumed, the newline counted.
pub uninterp spec fn csv_read_next(input: Seq<u8>, delimiter: u8, quote: u8) -> Option<(bool, Seq<Seq<u8>>, int)>;

/// Reads the first record of `input` with `csv::ReaderBuilder` (delimiter,
/// quote, `has_headers(false)`, `flexible(true)`) and
/// `csv::Reader::read_byte_record`, and reports `csv::Reader::position` after
/// the read. The contract claims that the result is a function of the
/// arguments (named `csv_read_first`), that the reader never consumes more
/// bytes than the input holds, that a record that was found consumed at
/// least one byte and has at least one field (`csv-core` ends a record only
/// in a state that also ends a field).
#[verifier::external_body]
pub fn csv_first_record(input: &[u8], delimiter: u8, quote: u8) -> (res: Result<(bool, Vec<Vec<u8>>, u64), csv::Error>)
    ensures
        res is Err <==> csv_read_first(input@, delimiter, quote) is None,
        res matches Ok(r) ==> csv_read_first(input@, delimiter, quote) == Some((r.0, r.1.deep_view(), r.2 as int)),
        res matches Ok(r) ==> r.2 <= input@.len(),
        res matches Ok(r) ==> (r.0 ==> r.2 > 0),
        res matches Ok(r) ==> (r.0 ==> r.1@.len() > 0),
{
    let mut rdr = csv::ReaderBuilder::new()
        .delimiter(delimiter)
        .has_headers(false)
        .quote(quote)
        .flexible(true)
        .from_reader(input);
    let mut rec = csv::ByteRecord::new();
    let found = rdr.read_byte_record(&mut rec)?;
    let fields: Vec<Vec<u8>> = rec.iter().map(|f| f.to_vec()).collect();
    Ok((found, fields, rdr.position().byte()))
}

/// Reads the next record of `input` as a `csv` reader that has already read
/// does: `csv::ReaderBuilder` (delimiter, quote, `has_headers(false)`,
/// `flexible(true)`) over a newline followed by `input`, then
/// `csv::Reader::read_byte_record` and `csv::Reader::position`. The contract
/// claims that the result is a function of the arguments (named
/// `csv_read_next`), that the newline is always consumed and nothing past the
/// input, and that a record that was found consumed a byte of `input` and
/// has at least one field.
#[verifier::external_body]
pub fn csv_next_record(input: &[u8], delimiter: u8, quote: u8) -> (res: Result<(bool, Vec<Vec<u8>>, u64), csv::Error>)
    ensures
        res is Err <==> csv_read_next(input@, delimiter, quote) is None,
        res matches Ok(r) ==> csv_read_next(input@, delimiter, quote) == Some((r.0, r.1.deep_view(), r.2 as int)),
        res matches Ok(r) ==> 1 <= r.2 <= input@.len() + 1,
        res matches Ok(r) ==> (r.0 ==> r.2 > 1),
        res matches Ok(r) ==> (r.0 ==> r.1@.len() > 0),
{
    let mut rdr = csv::ReaderBuilder::new()
        .delimiter(delimiter)
        .has_headers(false)
        .quote(quote)
        .flexible(true)
        .from_reader(std::io::Read::chain(&b"\n"[..], input));
    let mut rec = csv::ByteRecord::new();
    let found = rdr.read_byte_record(&mut rec)?;
    let fields: Vec<Vec<u8>> = rec.iter().map(|f| f.to_vec()).collect();
    Ok((found, fields, rdr.position().byte()))
}

/// What `encoding_rs::GBK.decode` yields as text for `bytes`.
pub uninterp spec fn gbk_decode(bytes: Seq<u8>) -> Seq<char>;

/// What `encoding_rs::GB18030.decode` yields as text for `bytes`.
pub uninterp spec fn gb18030_decode(bytes: Seq<u8>) -> Seq<char>;

/// What `encoding_rs::BIG5.decode` yields as text for `bytes`.
pub uninterp spec fn big5_decode(bytes: Seq<u8>) -> Seq<char>;

/// What `encoding_rs::SHIFT_JIS.decode` yields as text for `bytes`.
pub uninterp spec fn shift_jis_decode(bytes: Seq<u8>) -> Seq<char>;

/// What `String::from_utf8_lossy` yields for `bytes`.
pub uninterp spec fn utf8_lossy_decode(bytes: Seq<u8>) -> Seq<char>;

/// What `char::is_alphabetic` answers for `c`.
pub uninterp spec fn char_alphabetic(c: char) -> bool;

/// What `str::to_lowercase` yields for the text `s`.
pub uninterp spec fn lowercase_text(s: Seq<char>) -> Seq<char>;

/// Calls `encoding_rs::GBK.decode` and keeps the text. The contract only
/// names the result as a function of the bytes (`gbk_decode`).
#[verifier::external_body]
pub fn decode_gbk(bytes: &[u8]) -> (s: String)
    ensures
        s@ == gbk_decode(bytes@),
{
    encoding_rs::GBK.decode(bytes).0.into_owned()
}

/// Calls `encoding_rs::GB18030.decode` and keeps the text. The contract only
/// names the result as a function of the bytes (`gb18030_decode`).
#[verifier::external_body]
pub fn decode_gb18030(bytes: &[u8]) -> (s: String)
    ensures
        s@ == gb18030_decode(bytes@),
{
    encoding_rs::GB18030.decode(bytes).0.into_owned()
}

/// Calls `encoding_rs::BIG5.decode` and keeps the text. The contract only
/// names the result as a function of the bytes (`big5_decode`).
#[verifier::external_body]
pub fn decode_big5(bytes: &[u8]) -> (s: String)
    ensures
        s@ == big5_decode(bytes@),
{
    encoding_rs::BIG5.decode(bytes).0.into_owned()
}

/// Calls `encoding_rs::SHIFT_JIS.decode` and keeps the text. The contract
/// only names the result as a function of the bytes (`shift_jis_decode`).
#[verifier::external_body]
pub fn decode_shift_jis(bytes: &[u8]) -> (s: String)
    ensures
        s@ == shift_jis_decode(bytes@),
{
    encoding_rs::SHIFT_JIS.decode(bytes).0.into_owned()
}

/// Calls `encoding_rs::mem::decode_latin1`. The contract states what its
/// documentation promises: every byte becomes the character with the same
/// code point.
#[verifier::external_body]
pub fn decode_latin1(bytes: &[u8]) -> (s: String)
    ensures
        s@ == bytes@.map_values(|b: u8| b as char),
{
    encoding_rs::mem::decode_latin1(bytes).into_owned()
}

/// Calls `String::from_utf8_lossy`. The contract names the result
/// (`utf8_lossy_decode`) and states what the documentation promises for
/// valid UTF-8 input: the text is the decoding of the bytes.
#[verifier::external_body]
pub fn decode_utf8_lossy(bytes: &[u8]) -> (s: String)
    ensures
        s@ == utf8_lossy_decode(bytes@),
        valid_utf8(bytes@) ==> s@ == decode_utf8(bytes@),
{
    String::from_utf8_lossy(bytes).into_owned()
}

/// Calls `std::str::from_utf8` and reports whether it succeeded, which its
/// documentation promises exactly for valid UTF-8.
#[verifier::external_body]
pub fn is_valid_utf8(bytes: &[u8]) -> (b: bool)
    ensures
        b == valid_utf8(bytes@),
{
    std::str::from_utf8(bytes).is_ok()
}

/// Calls `char::is_alphabetic`; the contract names the answer
/// (`char_alphabetic`).
#[verifier::external_body]
pub fn is_alphabetic(c: char) -> (b: bool)
    ensures
        b == char_alphabetic(c),
{
    c.is_alphabetic()
}

/// Calls `str::to_lowercase`; the contract names the result
/// (`lowercase_text`).
#[verifier::external_body]
pub fn to_lowercase(s: &str) -> (r: String)
    ensures
        r@ == lowercase_text(s@),
{
    s.to_lowercase()
}

/// Collects characters into a `String` with `FromIterator`; the text holds
/// exactly those characters.
#[verifier::external_body]
pub fn string_from_chars(chars: &[char]) -> (s: String)
    ensures
        s@ == chars@,
{
    chars.iter().collect()
}


/// Calls `slice::sort_unstable` on row or column numbers. Its documentation
/// promises that the slice ends up in increasing order and holds the same
/// elements.
#[verifier::external_body]
pub fn sort_numbers(v: &mut Vec<usize>)
    ensures
        final(v)@.to_multiset() == old(v)@.to_multiset(),
        forall|i: int, j: int| 0 <= i <= j < final(v)@.len() ==> final(v)@[i] <= final(v)@[j],
{
    v.sort_unstable();
}

/// Calls `Vec::dedup` on numbers in increasing order. Its documentation
/// promises that consecutive repeated elements are removed, so the numbers
/// end up strictly increasing, with the same elements present.
#[verifier::external_body]
pub fn dedup_sorted(v: &mut Vec<usize>)
    requires
        forall|i: int, j: int| 0 <= i <= j < old(v)@.len() ==> old(v)@[i] <= old(v)@[j],
    ensures
        crate::rows::sorted_strict(final(v)@),
        forall|x: usize| final(v)@.contains(x) <==> old(v)@.contains(x),
{
    v.dedup();
}

/// Calls `slice::sort_by_key` with the second component (an access stamp)
/// as the key. Its documentation promises a stable sort: the same elements,
/// in order of nondecreasing key.
#[verifier::external_body]
pub fn sort_by_stamp(v: &mut Vec<(usize, u64)>)
    ensures
        final(v)@.to_multiset() == old(v)@.to_multiset(),
        forall|i: int, j: int| 0 <= i <= j < final(v)@.len() ==> final(v)@[i].1 <= final(v)@[j].1,
{
    v.sort_by_key(|e| e.1);
}


/// Calls `slice::sort_by_key` with the second component (a source row) as
/// the key. Its documentation promises a stable sort: the same elements, in
/// order of nondecreasing key.
#[verifier::external_body]
pub fn sort_by_source_row(v: &mut Vec<(usize, usize)>)
    ensures
        final(v)@.to_multiset() == old(v)@.to_multiset(),
        forall|i: int, j: int| 0 <= i <= j < final(v)@.len() ==> final(v)@[i].1 <= final(v)@[j].1,
{
    v.sort_by_key(|e| e.1);
}

/// Calls `slice::sort_by_key` with the first component (a shown position)
/// as the key. Its documentation promises a stable sort: the same elements,
/// in order of nondecreasing key.
#[verifier::external_body]
pub fn sort_by_position(v: &mut Vec<(usize, Vec<(usize, String)>)>)
    ensures
        final(v)@.to_multiset() == old(v)@.to_multiset(),
        forall|i: int, j: int| 0 <= i <= j < final(v)@.len() ==> final(v)@[i].0 <= final(v)@[j].0,
{
    v.sort_by_key(|e| e.0);
}

} // verus!
