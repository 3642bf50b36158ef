//! How a CSV file is read: separators, header handling, text encoding.

use vstd::prelude::*;
use vstd::string::StringSliceAdditionalSpecFns;

use crate::external::{
    big5_decode, decode_big5, decode_gb18030, decode_gbk, decode_latin1, decode_shift_jis,
    decode_utf8_lossy, gb18030_decode, gbk_decode, shift_jis_decode, utf8_lossy_decode,
};

verus! {

/// The text encodings that fields can be decoded from.
#[derive(Clone, Copy, Debug, PartialEq, Eq, Structural)]
pub enum CsvEncoding {
    Utf8,
    Gbk,
    Gb18030,
    Big5,
    ShiftJis,
    Iso8859_1,
}

/// Settings for reading one CSV file.
#[derive(Clone, Copy, Debug)]
pub struct CsvConfig {
    /// Byte that separates fields.
    pub delimiter: u8,
    /// The first record after the skipped ones names the columns.
    pub has_headers: bool,
    /// Byte that quotes fields.
    pub quote: u8,
    /// Records may have different numbers of fields.
    pub flexible: bool,
    /// Encoding that fields are decoded from.
    pub encoding: CsvEncoding,
    /// Number of records skipped before the header or the data.
    pub skip_lines: usize,
}

/// The text that a field's bytes decode to under `encoding`.
pub open spec fn decode_text(encoding: CsvEncoding, bytes: Seq<u8>) -> Seq<char> {
    match encoding {
        CsvEncoding::Utf8 => utf8_lossy_decode(bytes),
        CsvEncoding::Gbk => gbk_decode(bytes),
        CsvEncoding::Gb18030 => gb18030_decode(bytes),
        CsvEncoding::Big5 => big5_decode(bytes),
        CsvEncoding::ShiftJis => shift_jis_decode(bytes),
        CsvEncoding::Iso8859_1 => bytes.map_values(|b: u8| b as char),
    }
}

/// The texts of all fields of a record.
pub open spec fn decode_fields(encoding: CsvEncoding, fields: Seq<Seq<u8>>) -> Seq<Seq<char>> {
    fields.map_values(|f: Seq<u8>| decode_text(encoding, f))
}

impl Default for CsvConfig {
    fn default() -> (cfg: Self)
        ensures
            cfg.delimiter == 44u8,
            cfg.has_headers,
            cfg.quote == 34u8,
            cfg.flexible,
            cfg.encoding == CsvEncoding::Utf8,
            cfg.skip_lines == 0,
    {
        CsvConfig {
            delimiter: 44u8,
            has_headers: true,
            quote: 34u8,
            flexible: true,
            encoding: CsvEncoding::Utf8,
            skip_lines: 0,
        }
    }
}

/// Decodes `bytes` as text in `encoding`.
pub fn decode_bytes(encoding: CsvEncoding, bytes: &[u8]) -> (s: String)
    ensures
        s@ == decode_text(encoding, bytes@),
{
    match encoding {
        CsvEncoding::Utf8 => decode_utf8_lossy(bytes),
        CsvEncoding::Gbk => decode_gbk(bytes),
        CsvEncoding::Gb18030 => decode_gb18030(bytes),
        CsvEncoding::Big5 => decode_big5(bytes),
        CsvEncoding::ShiftJis => decode_shift_jis(bytes),
        CsvEncoding::Iso8859_1 => decode_latin1(bytes),
    }
}

impl CsvConfig {
    /// Decodes one field with the configured encoding.
    pub fn decode_field(&self, field: &[u8]) -> (s: String)
        ensures
            s@ == decode_text(self.encoding, field@),
    {
        decode_bytes(self.encoding, field)
    }

    /// Decodes every field of a record.
    pub fn decode_record(&self, fields: &Vec<Vec<u8>>) -> (out: Vec<String>)
        ensures
            out.deep_view() == decode_fields(self.encoding, fields.deep_view()),
    {
        let mut out: Vec<String> = Vec::new();
        let mut i: usize = 0;
        while i < fields.len()
            invariant
                0 <= i <= fields@.len(),
                out@.len() == i,
                forall|k: int| 0 <= k < i ==> #[trigger] out@[k]@ == decode_text(self.encoding, fields@[k]@),
            decreases fields@.len() - i,
        {
            out.push(self.decode_field(fields[i].as_slice()));
            i = i + 1;
        }
        assert forall|k: int| 0 <= k < out@.len() implies out.deep_view()[k] == decode_fields(
            self.encoding,
            fields.deep_view(),
        )[k] by {
            assert(fields@[k].deep_view() =~= fields@[k]@);
        }
        assert(out.deep_view() =~= decode_fields(self.encoding, fields.deep_view()));
        out
    }
}


/// The first byte of `text`, or `fallback` when it is empty.
pub open spec fn first_byte_or(text: &str, fallback: u8) -> u8 {
    if text.spec_bytes().len() > 0 {
        text.spec_bytes()[0]
    } else {
        fallback
    }
}

impl CsvConfig {
    /// The settings the viewer's inputs describe: the separator and the
    /// quote are the first bytes of their texts (`,` and `"` when empty).
    pub fn from_inputs(
        delimiter: &str,
        quote: &str,
        skip_lines: usize,
        has_headers: bool,
        flexible: bool,
        encoding: CsvEncoding,
    ) -> (cfg: CsvConfig)
        ensures
            cfg.delimiter == first_byte_or(delimiter, 44u8),
            cfg.quote == first_byte_or(quote, 34u8),
            cfg.skip_lines == skip_lines,
            cfg.has_headers == has_headers,
            cfg.flexible == flexible,
            cfg.encoding == encoding,
    {
        let d = delimiter.as_bytes();
        let q = quote.as_bytes();
        CsvConfig {
            delimiter: if d.len() > 0 { d[0] } else { 44u8 },
            has_headers,
            quote: if q.len() > 0 { q[0] } else { 34u8 },
            flexible,
            encoding,
            skip_lines,
        }
    }
}

} // verus!
