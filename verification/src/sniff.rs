//! Guessing how a CSV file is written from its first bytes: the field
//! separator, whether the first line names the columns, and the encoding.

use vstd::prelude::*;
use vstd::utf8::valid_utf8;

use crate::config::{decode_bytes, decode_text, CsvEncoding};
use crate::external::{char_alphabetic, decode_utf8_lossy, is_alphabetic, is_valid_utf8, utf8_lossy_decode};
use crate::text::chars_of;

verus! {

/// Number of leading bytes that the guess looks at.
pub const SNIFF_BYTES: usize = 65536;

/// Number of leading characters that an encoding's score counts.
pub const SCORED_CHARS: usize = 4096;

/// What the first bytes of a file suggest about how to read it.
#[derive(Clone, Debug)]
pub struct CsvSniffResult {
    pub delimiter: u8,
    pub has_headers: bool,
    pub encoding: CsvEncoding,
}

/// `l` without one trailing carriage return.
pub open spec fn strip_cr(l: Seq<char>) -> Seq<char> {
    if l.len() > 0 && l.last() == '\r' {
        l.drop_last()
    } else {
        l
    }
}

/// Splitting `t` at line feeds: the finished lines (each without its
/// line feed and a carriage return before it) and the line still open.
pub open spec fn split_state(t: Seq<char>) -> (Seq<Seq<char>>, Seq<char>)
    decreases t.len(),
{
    if t.len() == 0 {
        (Seq::empty(), Seq::empty())
    } else {
        let (done, cur) = split_state(t.drop_last());
        if t.last() == '\n' {
            (done.push(strip_cr(cur)), Seq::empty())
        } else {
            (done, cur.push(t.last()))
        }
    }
}

/// The lines of `t` as `str::lines` gives them: split at line feeds, a
/// carriage return before a line feed dropped, no empty line after a final
/// line feed.
pub open spec fn text_lines(t: Seq<char>) -> Seq<Seq<char>> {
    let (done, cur) = split_state(t);
    if cur.len() > 0 {
        done.push(cur)
    } else {
        done
    }
}

/// `c` has the Unicode `White_Space` property (what `char::is_whitespace`
/// answers).
pub open spec fn white_space(c: char) -> bool {
    let u = c as u32;
    (9 <= u <= 13) || u == 32 || u == 0x85 || u == 0xA0 || u == 0x1680 || (0x2000 <= u <= 0x200A)
        || u == 0x2028 || u == 0x2029 || u == 0x202F || u == 0x205F || u == 0x3000
}

/// The line holds only white space (it is empty once trimmed).
pub open spec fn blank(l: Seq<char>) -> bool {
    forall|i: int| 0 <= i < l.len() ==> white_space(#[trigger] l[i])
}

/// The lines after the first `skip`, without the blank ones.
pub open spec fn content_lines(t: Seq<char>, skip: nat) -> Seq<Seq<char>> {
    let ls = text_lines(t);
    let rest = if skip >= ls.len() { Seq::<Seq<char>>::empty() } else { ls.skip(skip as int) };
    rest.filter(|l: Seq<char>| !blank(l))
}

/// Line `i` of `ls`, or the empty line when there is none.
pub open spec fn line_or_empty(ls: Seq<Seq<char>>, i: int) -> Seq<char> {
    if 0 <= i < ls.len() {
        ls[i]
    } else {
        Seq::empty()
    }
}

/// Number of times `c` occurs in `l`.
pub open spec fn count_char(l: Seq<char>, c: char) -> int
    decreases l.len(),
{
    if l.len() == 0 {
        0
    } else {
        count_char(l.drop_last(), c) + if l.last() == c { 1int } else { 0int }
    }
}

/// The separator among `,`, tab, `;` and `|` that occurs most often in
/// `line`, the earliest of these on a tie (`,` when none occurs).
pub open spec fn best_delimiter(line: Seq<char>) -> u8 {
    let a = count_char(line, ',');
    let b = count_char(line, '\t');
    let c = count_char(line, ';');
    let d = count_char(line, '|');
    let (b1, s1) = if b > a { (9u8, b) } else { (44u8, a) };
    let (b2, s2) = if c > s1 { (59u8, c) } else { (b1, s1) };
    if d > s2 { 124u8 } else { b2 }
}

/// The first line looks like names and the second like data: the first
/// holds a letter outside separators and the second holds something other
/// than separators.
pub open spec fn looks_like_headers(first: Seq<char>, second: Seq<char>, delimiter: u8) -> bool {
    &&& exists|i: int| 0 <= i < first.len() && first[i] != delimiter as char && char_alphabetic(#[trigger] first[i])
    &&& exists|i: int| 0 <= i < second.len() && #[trigger] second[i] != delimiter as char
}

/// What one character adds to an encoding's score: the replacement
/// character costs 50, printable ASCII and ASCII white space earn 1, CJK
/// unified ideographs earn 3 and other control characters cost 2.
pub open spec fn char_score(c: char) -> int {
    let u = c as u32;
    if u == 0xFFFD {
        -50
    } else if (0x21 <= u <= 0x7E) || u == 0x20 || u == 0x09 || u == 0x0A || u == 0x0C || u == 0x0D {
        1
    } else if 0x4E00 <= u <= 0x9FFF {
        3
    } else if u <= 0x1F || (0x7F <= u <= 0x9F) {
        -2
    } else {
        0
    }
}

/// Sum of the scores of the characters of `t`.
pub open spec fn text_score(t: Seq<char>) -> int
    decreases t.len(),
{
    if t.len() == 0 {
        0
    } else {
        text_score(t.drop_last()) + char_score(t.last())
    }
}

/// The first `n` characters of `t` (all of them when there are fewer).
pub open spec fn leading(t: Seq<char>, n: nat) -> Seq<char> {
    if t.len() <= n {
        t
    } else {
        t.take(n as int)
    }
}

/// Score of `bytes` read as `encoding`, over the first characters.
pub open spec fn preview_score(encoding: CsvEncoding, bytes: Seq<u8>) -> int {
    text_score(leading(decode_text(encoding, bytes), SCORED_CHARS as nat))
}

/// UTF-8 when the bytes are valid UTF-8; otherwise the encoding with the
/// best score, the last of GB 18030, GBK, Big5, Shift JIS and Latin-1 on a
/// tie.
pub open spec fn detected_encoding(bytes: Seq<u8>) -> CsvEncoding {
    if valid_utf8(bytes) {
        CsvEncoding::Utf8
    } else {
        let s0 = preview_score(CsvEncoding::Gb18030, bytes);
        let s1 = preview_score(CsvEncoding::Gbk, bytes);
        let s2 = preview_score(CsvEncoding::Big5, bytes);
        let s3 = preview_score(CsvEncoding::ShiftJis, bytes);
        let s4 = preview_score(CsvEncoding::Iso8859_1, bytes);
        let (e1, m1) = if s1 >= s0 { (CsvEncoding::Gbk, s1) } else { (CsvEncoding::Gb18030, s0) };
        let (e2, m2) = if s2 >= m1 { (CsvEncoding::Big5, s2) } else { (e1, m1) };
        let (e3, m3) = if s3 >= m2 { (CsvEncoding::ShiftJis, s3) } else { (e2, m2) };
        if s4 >= m3 {
            CsvEncoding::Iso8859_1
        } else {
            e3
        }
    }
}

/// The first bytes of `data` that the guess looks at.
pub open spec fn sniff_sample(data: Seq<u8>) -> Seq<u8> {
    if data.len() <= SNIFF_BYTES {
        data
    } else {
        data.take(SNIFF_BYTES as int)
    }
}

/// The guess for `data` after skipping `skip` lines.
pub open spec fn sniffed(data: Seq<u8>, skip: nat) -> CsvSniffResult {
    let sample = sniff_sample(data);
    let lines = content_lines(utf8_lossy_decode(sample), skip);
    let first = line_or_empty(lines, 0);
    let second = line_or_empty(lines, 1);
    let delimiter = best_delimiter(first);
    CsvSniffResult {
        delimiter,
        has_headers: looks_like_headers(first, second, delimiter),
        encoding: detected_encoding(sample),
    }
}

/// The lines that the guess reads: those of the first bytes of `data`
/// (decoded, invalid UTF-8 replaced) after `skip` lines, without the blank
/// ones.
pub open spec fn sniffed_lines(data: Seq<u8>, skip: nat) -> Seq<Seq<char>> {
    content_lines(utf8_lossy_decode(sniff_sample(data)), skip)
}

/// A line of names over a line of data is taken for a header: when the
/// first line read holds a letter (at `i`) and the second line holds any
/// character other than the chosen separator (at `j`; a digit is enough),
/// the guess says the file has a header line. Without such a letter, or
/// with a second line of separators only, it says there is none.
pub proof fn lemma_names_over_data_is_header(data: Seq<u8>, skip: nat, i: int, j: int)
    requires
        sniffed_lines(data, skip).len() >= 2,
        0 <= i < sniffed_lines(data, skip)[0].len(),
        sniffed_lines(data, skip)[0][i] != sniffed(data, skip).delimiter as char,
        char_alphabetic(sniffed_lines(data, skip)[0][i]),
        0 <= j < sniffed_lines(data, skip)[1].len(),
        sniffed_lines(data, skip)[1][j] != sniffed(data, skip).delimiter as char,
    ensures
        sniffed(data, skip).has_headers,
{
    let lines = sniffed_lines(data, skip);
    let first = lines[0];
    let second = lines[1];
    assert(line_or_empty(lines, 0) == first);
    assert(line_or_empty(lines, 1) == second);
    assert(first[i] != best_delimiter(first) as char && char_alphabetic(first[i]));
    assert(second[j] != best_delimiter(first) as char);
}

/// The converse: a header line is guessed only when the first line read
/// holds a letter that is not the separator and the second line holds
/// something other than the separator.
pub proof fn lemma_header_needs_names_over_data(data: Seq<u8>, skip: nat)
    requires
        sniffed(data, skip).has_headers,
    ensures
        exists|i: int|
            0 <= i < line_or_empty(sniffed_lines(data, skip), 0).len() && line_or_empty(sniffed_lines(data, skip), 0)[i]
                != sniffed(data, skip).delimiter as char && char_alphabetic(
                #[trigger] line_or_empty(sniffed_lines(data, skip), 0)[i],
            ),
        exists|j: int|
            0 <= j < line_or_empty(sniffed_lines(data, skip), 1).len() && #[trigger] line_or_empty(
                sniffed_lines(data, skip),
                1,
            )[j] != sniffed(data, skip).delimiter as char,
{
    let lines = sniffed_lines(data, skip);
    let first = line_or_empty(lines, 0);
    let second = line_or_empty(lines, 1);
    let d = best_delimiter(first);
    assert(sniffed(data, skip).delimiter == d);
    assert(looks_like_headers(first, second, d));
    let i = choose|i: int| 0 <= i < first.len() && first[i] != d as char && char_alphabetic(#[trigger] first[i]);
    let j = choose|j: int| 0 <= j < second.len() && #[trigger] second[j] != d as char;
    assert(char_alphabetic(first[i]));
    assert(second[j] != d as char);
}

proof fn lemma_text_score_push(t: Seq<char>, c: char)
    ensures
        text_score(t.push(c)) == text_score(t) + char_score(c),
{
    assert(t.push(c).drop_last() =~= t);
}

fn score_char(c: char) -> (s: isize)
    ensures
        s == char_score(c),
{
    let u = c as u32;
    if u == 0xFFFD {
        -50
    } else if (0x21 <= u && u <= 0x7E) || u == 0x20 || u == 0x09 || u == 0x0A || u == 0x0C || u == 0x0D {
        1
    } else if 0x4E00 <= u && u <= 0x9FFF {
        3
    } else if u <= 0x1F || (0x7F <= u && u <= 0x9F) {
        -2
    } else {
        0
    }
}

/// Scores `bytes` read as `encoding` (see `char_score`).
fn decode_preview(encoding: CsvEncoding, bytes: &[u8]) -> (score: isize)
    ensures
        score == preview_score(encoding, bytes@),
{
    let text = decode_bytes(encoding, bytes);
    let chars = chars_of(text.as_str());
    let ghost t = chars@;
    let n = if chars.len() <= SCORED_CHARS { chars.len() } else { SCORED_CHARS };
    let mut score: isize = 0;
    let mut i: usize = 0;
    proof {
        assert(t.take(0) =~= Seq::<char>::empty());
    }
    while i < n
        invariant
            t == chars@,
            n <= t.len(),
            n <= SCORED_CHARS,
            0 <= i <= n,
            -50 * i <= score <= 3 * i,
            score == text_score(t.take(i as int)),
        decreases n - i,
    {
        let c = chars[i];
        proof {
            assert(t.take(i + 1) =~= t.take(i as int).push(c));
            lemma_text_score_push(t.take(i as int), c);
        }
        score = score + score_char(c);
        i = i + 1;
    }
    proof {
        if t.len() <= SCORED_CHARS {
            assert(t.take(n as int) =~= t);
        }
    }
    score
}

/// The encoding of `bytes`: UTF-8 when they are valid UTF-8, else the best
/// scoring of the others (see `detected_encoding`).
pub fn detect_encoding(bytes: &[u8]) -> (e: CsvEncoding)
    ensures
        e == detected_encoding(bytes@),
{
    if is_valid_utf8(bytes) {
        return CsvEncoding::Utf8;
    }
    let s0 = decode_preview(CsvEncoding::Gb18030, bytes);
    let s1 = decode_preview(CsvEncoding::Gbk, bytes);
    let s2 = decode_preview(CsvEncoding::Big5, bytes);
    let s3 = decode_preview(CsvEncoding::ShiftJis, bytes);
    let s4 = decode_preview(CsvEncoding::Iso8859_1, bytes);
    let (e1, m1) = if s1 >= s0 { (CsvEncoding::Gbk, s1) } else { (CsvEncoding::Gb18030, s0) };
    let (e2, m2) = if s2 >= m1 { (CsvEncoding::Big5, s2) } else { (e1, m1) };
    let (e3, m3) = if s3 >= m2 { (CsvEncoding::ShiftJis, s3) } else { (e2, m2) };
    if s4 >= m3 {
        CsvEncoding::Iso8859_1
    } else {
        e3
    }
}

/// `c` has the Unicode `White_Space` property.
fn is_white_space(c: char) -> (b: bool)
    ensures
        b == white_space(c),
{
    let u = c as u32;
    (9 <= u && u <= 13) || u == 32 || u == 0x85 || u == 0xA0 || u == 0x1680 || (0x2000 <= u && u <= 0x200A)
        || u == 0x2028 || u == 0x2029 || u == 0x202F || u == 0x205F || u == 0x3000
}

fn is_blank(l: &Vec<char>) -> (b: bool)
    ensures
        b == blank(l@),
{
    let mut i: usize = 0;
    while i < l.len()
        invariant
            0 <= i <= l@.len(),
            forall|k: int| 0 <= k < i ==> white_space(#[trigger] l@[k]),
        decreases l@.len() - i,
    {
        if !is_white_space(l[i]) {
            return false;
        }
        i = i + 1;
    }
    true
}

fn drop_trailing_cr(l: Vec<char>) -> (out: Vec<char>)
    ensures
        out@ == strip_cr(l@),
{
    let mut l = l;
    let n = l.len();
    if n > 0 && l[n - 1] == '\r' {
        l.pop();
    }
    l
}

/// The lines of `t` (see `text_lines`).
fn split_lines(t: &Vec<char>) -> (ls: Vec<Vec<char>>)
    ensures
        ls.deep_view() == text_lines(t@),
{
    let mut done: Vec<Vec<char>> = Vec::new();
    let mut cur: Vec<char> = Vec::new();
    let mut i: usize = 0;
    proof {
        assert(t@.take(0) =~= Seq::<char>::empty());
        assert(done.deep_view() =~= Seq::<Seq<char>>::empty());
    }
    while i < t.len()
        invariant
            0 <= i <= t@.len(),
            (done.deep_view(), cur@) == split_state(t@.take(i as int)),
        decreases t@.len() - i,
    {
        let c = t[i];
        proof {
            assert(t@.take(i + 1).drop_last() =~= t@.take(i as int));
        }
        if c == '\n' {
            let line = drop_trailing_cr(cur);
            let ghost before = done.deep_view();
            proof {
                assert(line.deep_view() =~= line@);
            }
            done.push(line);
            cur = Vec::new();
            proof {
                assert(done.deep_view() =~= before.push(line@));
            }
        } else {
            cur.push(c);
        }
        i = i + 1;
    }
    assert(t@.take(i as int) =~= t@);
    if cur.len() > 0 {
        let ghost before = done.deep_view();
        let last = cur;
        proof {
            assert(last.deep_view() =~= last@);
        }
        done.push(last);
        proof {
            assert(done.deep_view() =~= before.push(last@));
        }
    }
    done
}

/// The lines after the first `skip`, without blank ones.
fn content_lines_of(t: &Vec<char>, skip: usize) -> (out: Vec<Vec<char>>)
    ensures
        out.deep_view() == content_lines(t@, skip as nat),
{
    let ls = split_lines(t);
    let ghost all = ls.deep_view();
    proof {
        assert(all.len() == ls@.len());
    }
    let ghost rest = if skip as nat >= all.len() { Seq::<Seq<char>>::empty() } else { all.skip(skip as int) };
    let ghost keep = |l: Seq<char>| !blank(l);
    let mut out: Vec<Vec<char>> = Vec::new();
    let mut i: usize = skip;
    proof {
        reveal(Seq::filter);
        assert(rest.take(0) =~= Seq::<Seq<char>>::empty());
        assert(out.deep_view() =~= Seq::<Seq<char>>::empty());
    }
    while i < ls.len()
        invariant
            all == ls.deep_view(),
            all.len() == ls@.len(),
            keep == (|l: Seq<char>| !blank(l)),
            rest == (if skip as nat >= all.len() { Seq::<Seq<char>>::empty() } else { all.skip(skip as int) }),
            skip <= i,
            i <= ls@.len() || i == skip,
            skip < ls@.len() ==> out.deep_view() == rest.take(i - skip).filter(keep),
            skip >= ls@.len() ==> out.deep_view() == Seq::<Seq<char>>::empty(),
        decreases ls@.len() - i,
    {
        let ghost before = out.deep_view();
        let line = &ls[i];
        proof {
            assert(all[i as int] =~= ls@[i as int]@);
            assert(rest[i - skip] == all[i as int]);
            assert(rest.take(i - skip + 1).drop_last() =~= rest.take(i - skip));
            assert(rest.take(i - skip + 1).last() == line@);
        }
        if !is_blank(line) {
            let copy = line.clone();
            proof {
                assert(copy.deep_view() =~= line@);
            }
            out.push(copy);
            proof {
                assert(out.deep_view() =~= before.push(line@));
            }
        }
        proof {
            reveal(Seq::filter);
            let k = i - skip;
            let tk = rest.take(k + 1);
            assert(tk.filter(keep) == (if keep(tk.last()) {
                tk.drop_last().filter(keep).push(tk.last())
            } else {
                tk.drop_last().filter(keep)
            }));
            assert(keep(line@) == !blank(line@));
        }
        i = i + 1;
    }
    proof {
        if skip < ls@.len() {
            assert(rest.take(i - skip) =~= rest);
        } else {
            assert(rest =~= Seq::<Seq<char>>::empty());
            reveal(Seq::filter);
        }
    }
    out
}

fn count_in_line(l: &Vec<char>, c: char) -> (n: usize)
    ensures
        n == count_char(l@, c),
{
    let mut n: usize = 0;
    let mut i: usize = 0;
    proof {
        assert(l@.take(0) =~= Seq::<char>::empty());
    }
    while i < l.len()
        invariant
            0 <= i <= l@.len(),
            n <= i,
            n == count_char(l@.take(i as int), c),
        decreases l@.len() - i,
    {
        proof {
            assert(l@.take(i + 1).drop_last() =~= l@.take(i as int));
        }
        if l[i] == c {
            n = n + 1;
        }
        i = i + 1;
    }
    assert(l@.take(i as int) =~= l@);
    n
}

fn pick_delimiter(line: &Vec<char>) -> (d: u8)
    ensures
        d == best_delimiter(line@),
{
    let a = count_in_line(line, ',');
    let b = count_in_line(line, '\t');
    let c = count_in_line(line, ';');
    let d = count_in_line(line, '|');
    let (b1, s1) = if b > a { (9u8, b) } else { (44u8, a) };
    let (b2, s2) = if c > s1 { (59u8, c) } else { (b1, s1) };
    if d > s2 { 124u8 } else { b2 }
}

fn has_letter_outside(line: &Vec<char>, delimiter: char) -> (b: bool)
    ensures
        b == exists|i: int| 0 <= i < line@.len() && line@[i] != delimiter && char_alphabetic(#[trigger] line@[i]),
{
    let mut i: usize = 0;
    while i < line.len()
        invariant
            0 <= i <= line@.len(),
            forall|k: int| 0 <= k < i ==> !(line@[k] != delimiter && char_alphabetic(#[trigger] line@[k])),
        decreases line@.len() - i,
    {
        if line[i] != delimiter && is_alphabetic(line[i]) {
            return true;
        }
        i = i + 1;
    }
    false
}

fn has_other_than(line: &Vec<char>, delimiter: char) -> (b: bool)
    ensures
        b == exists|i: int| 0 <= i < line@.len() && #[trigger] line@[i] != delimiter,
{
    let mut i: usize = 0;
    while i < line.len()
        invariant
            0 <= i <= line@.len(),
            forall|k: int| 0 <= k < i ==> #[trigger] line@[k] == delimiter,
        decreases line@.len() - i,
    {
        if line[i] != delimiter {
            return true;
        }
        i = i + 1;
    }
    false
}

/// Guesses separator, header line and encoding from the first bytes of
/// `data` (the first 64 KiB), after skipping `skip_lines` lines.
pub fn sniff_csv_with_skip(data: &[u8], skip_lines: usize) -> (res: CsvSniffResult)
    ensures
        res == sniffed(data@, skip_lines as nat),
{
    let n = if data.len() <= SNIFF_BYTES { data.len() } else { SNIFF_BYTES };
    let sample = slice_prefix(data, n);
    proof {
        if data@.len() <= SNIFF_BYTES {
            assert(data@.take(n as int) =~= data@);
        }
    }
    let encoding = detect_encoding(sample.as_slice());
    let text = decode_utf8_lossy(sample.as_slice());
    let chars = chars_of(text.as_str());
    let lines = content_lines_of(&chars, skip_lines);
    let empty: Vec<char> = Vec::new();
    let first = if lines.len() > 0 { &lines[0] } else { &empty };
    let second = if lines.len() > 1 { &lines[1] } else { &empty };
    proof {
        assert(first@ == line_or_empty(lines.deep_view(), 0));
        assert(second@ == line_or_empty(lines.deep_view(), 1));
    }
    let delimiter = pick_delimiter(first);
    let has_headers = has_letter_outside(first, delimiter as char) && has_other_than(second, delimiter as char);
    CsvSniffResult { delimiter, has_headers, encoding }
}

/// Guesses how `data` is written (see `sniff_csv_with_skip`), skipping no line.
pub fn sniff_csv(data: &[u8]) -> (res: CsvSniffResult)
    ensures
        res == sniffed(data@, 0),
{
    sniff_csv_with_skip(data, 0)
}

/// The first `n` bytes of `data`.
fn slice_prefix(data: &[u8], n: usize) -> (out: Vec<u8>)
    requires
        n <= data@.len(),
    ensures
        out@ == data@.take(n as int),
{
    let mut out: Vec<u8> = Vec::new();
    let mut i: usize = 0;
    while i < n
        invariant
            n <= data@.len(),
            0 <= i <= n,
            out@ == data@.take(i as int),
        decreases n - i,
    {
        out.push(data[i]);
        i = i + 1;
        assert(out@ =~= data@.take(i as int));
    }
    out
}

} // verus!
