use vstd::prelude::*;
use crate::number::{decimal, format_decimal, parse_i64, parse_i64_spec};
use crate::text::{
    ascii_bytes, ascii_literal, bytes_equal, bytes_start_with, can_slice, char_boundary, find,
    find_bytes, push_range, starts_with, trim, trim_bytes,
};

verus! {

/// The mark that opens the line of a plain file in a `mega-ls -l` listing.
pub open spec fn file_mark() -> Seq<u8> {
    ascii_bytes("---- "@)
}

/// The mark that opens the line of an exported file in a `mega-ls -l` listing.
pub open spec fn exported_mark() -> Seq<u8> {
    ascii_bytes("-ep- "@)
}

/// The directory value before the first directory header has been seen.
pub open spec fn unset_dir() -> Seq<u8> {
    ascii_bytes("--"@)
}

/// The text that stands before a size field that is no non-negative number.
pub open spec fn invalid_size_lead() -> Seq<u8> {
    ascii_bytes("invalid size value: -"@)
}

/// The byte `:` that ends a directory header.
pub open spec fn colon() -> Seq<u8> {
    seq![':' as u8]
}

/// Whether `line` lists a directory (its first byte is `d`).
pub open spec fn is_directory_entry(line: Seq<u8>) -> bool {
    line.len() > 0 && line[0] == 'd' as u8
}

/// Whether `line` lists a file (it begins with `---- ` or `-ep- `).
pub open spec fn is_file_entry(line: Seq<u8>) -> bool {
    starts_with(line, file_mark()) || starts_with(line, exported_mark())
}

/// Whether the fixed columns of a file line can be cut out of it: the size at bytes 9 to
/// 20, the date at 21 to 31, the time at 32 to 40 and the name from 41 up to the last
/// byte, each range ending on character boundaries.
pub open spec fn file_columns_present(line: Seq<u8>) -> bool {
    &&& line.len() >= 42
    &&& can_slice(line, 9, 20)
    &&& can_slice(line, 21, 31)
    &&& can_slice(line, 32, 40)
    &&& can_slice(line, 41, line.len() - 1)
}

/// The size column of a record: the trimmed size field as a decimal number where it
/// reads as a non-negative `i64`, else `invalid size value: -` + the trimmed field + `-`.
pub open spec fn size_column(field: Seq<u8>) -> Seq<u8> {
    let t = trim(field);
    match parse_i64_spec(t) {
        Some(v) if v >= 0 => decimal(v as nat),
        _ => invalid_size_lead() + t + seq!['-' as u8],
    }
}

/// The record written for a file line while `dir` is the current directory:
/// `dir/name,size,date time` and a line feed, without `dir/` where `dir` is empty.
pub open spec fn file_record(dir: Seq<u8>, line: Seq<u8>) -> Seq<u8> {
    let name = line.subrange(41, line.len() - 1);
    let path = if dir.len() == 0 {
        name
    } else {
        dir + seq!['/' as u8] + name
    };
    path + seq![',' as u8] + size_column(line.subrange(9, 20)) + seq![',' as u8]
        + line.subrange(21, 31) + seq![' ' as u8] + line.subrange(32, 40) + seq!['\n' as u8]
}

/// What a line yields for the target file: a record for a file line, nothing else.
pub open spec fn record_for(dir: Seq<u8>, line: Seq<u8>) -> Option<Seq<u8>> {
    if !is_directory_entry(line) && is_file_entry(line) {
        Some(file_record(dir, line))
    } else {
        None
    }
}

/// Whether `line` is a directory header: no directory or file line, and it holds a `:`.
pub open spec fn is_header(line: Seq<u8>) -> bool {
    !is_directory_entry(line) && !is_file_entry(line) && find(line, colon()) is Some
}

/// The current directory and the top directory after `line`. The first header sets the
/// top directory to the text before its `:` and the current directory to empty; a later
/// header sets the current directory to the text between the first occurrence of the top
/// directory (and one separator byte after it) and the `:`. Other lines change nothing.
pub open spec fn next_dirs(dir: Seq<u8>, top: Seq<u8>, line: Seq<u8>) -> (Seq<u8>, Seq<u8>) {
    if is_header(line) {
        let c = find(line, colon()).unwrap();
        if dir == unset_dir() {
            (Seq::empty(), line.take(c))
        } else {
            let t = find(line, top).unwrap();
            (line.subrange(t + top.len() + 1, c), top)
        }
    } else {
        (dir, top)
    }
}

/// Whether `line` can be converted in the state (`dir`, `top`): the columns of a file
/// line are present, and a later header holds the top directory, with the part after it
/// and its separator ending no later than the `:`, on a character boundary.
pub open spec fn line_is_convertible(dir: Seq<u8>, top: Seq<u8>, line: Seq<u8>) -> bool {
    if is_directory_entry(line) {
        true
    } else if is_file_entry(line) {
        file_columns_present(line)
    } else {
        match find(line, colon()) {
            None => true,
            Some(c) => dir == unset_dir() || match find(line, top) {
                Some(t) => can_slice(line, t + top.len() + 1, c),
                None => false,
            },
        }
    }
}

/// What one line of the listing gives: the record to write, if any, and whether the
/// conversion is over (more lines have been read than the row limit).
pub struct LineOutcome {
    pub record: Option<Vec<u8>>,
    pub finished: bool,
}

/// Converts a `mega-ls -l -r` listing line by line into `path,size,date time` records.
pub struct Converter {
    row_limit: i64,
    lines_read: i64,
    dir: Vec<u8>,
    top_dir: Vec<u8>,
}

/// The size column for the size field `field`.
pub fn size_column_of(field: &[u8]) -> (r: Vec<u8>)
    ensures
        r@ == size_column(field@),
{
    let t = trim_bytes(field);
    match parse_i64(t) {
        Some(v) => {
            if v >= 0 {
                return format_decimal(v as u64);
            }
        },
        None => {},
    }
    let lead = "invalid size value: -";
    proof {
        reveal_strlit("invalid size value: -");
    }
    let mut out: Vec<u8> = Vec::new();
    let lead_bytes = ascii_literal(lead);
    push_range(&mut out, lead_bytes, 0, lead_bytes.len());
    push_range(&mut out, t, 0, t.len());
    out.push('-' as u8);
    proof {
        assert(lead_bytes@.subrange(0, lead_bytes@.len() as int) =~= lead_bytes@);
        assert(t@.subrange(0, t@.len() as int) =~= t@);
        assert(out@ =~= invalid_size_lead() + trim(field@) + seq!['-' as u8]);
    }
    out
}

/// The record for the file line `line` while `dir` is the current directory.
pub fn file_record_of(dir: &[u8], line: &[u8]) -> (r: Vec<u8>)
    requires
        file_columns_present(line@),
    ensures
        r@ == file_record(dir@, line@),
{
    let len = line.len();
    let mut out: Vec<u8> = Vec::new();
    if dir.len() > 0 {
        push_range(&mut out, dir, 0, dir.len());
        out.push('/' as u8);
    }
    push_range(&mut out, line, 41, len - 1);
    out.push(',' as u8);
    let size = size_column_of(vstd::slice::slice_subrange(line, 9, 20));
    push_range(&mut out, size.as_slice(), 0, size.len());
    out.push(',' as u8);
    push_range(&mut out, line, 21, 31);
    out.push(' ' as u8);
    push_range(&mut out, line, 32, 40);
    out.push('\n' as u8);
    proof {
        assert(dir@.subrange(0, dir@.len() as int) =~= dir@);
        assert(size@.subrange(0, size@.len() as int) =~= size@);
        assert(out@ =~= file_record(dir@, line@));
    }
    out
}

fn is_file_line(line: &[u8]) -> (r: bool)
    ensures
        r == is_file_entry(line@),
{
    proof {
        reveal_strlit("---- ");
        reveal_strlit("-ep- ");
    }
    bytes_start_with(line, ascii_literal("---- ")) || bytes_start_with(
        line,
        ascii_literal("-ep- "),
    )
}

fn is_directory_line(line: &[u8]) -> (r: bool)
    ensures
        r == is_directory_entry(line@),
{
    line.len() > 0 && line[0] == 'd' as u8
}

fn find_colon(line: &[u8]) -> (r: Option<usize>)
    ensures
        match r {
            Some(i) => find(line@, colon()) == Some(i as int) && i < line@.len() && line@[i as int]
                == ':' as u8,
            None => find(line@, colon()) is None,
        },
{
    proof {
        reveal_strlit(":");
    }
    let c = ascii_literal(":");
    assert(c@ =~= colon());
    let r = find_bytes(line, c);
    match r {
        Some(i) => {
            assert(line@.subrange(i as int, i + 1)[0] == c@[0]);
        },
        None => {},
    }
    r
}

fn file_columns_fit(line: &[u8]) -> (r: bool)
    ensures
        r == file_columns_present(line@),
{
    let len = line.len();
    len >= 42 && boundary(line, 9) && boundary(line, 20) && boundary(line, 21) && boundary(
        line,
        31,
    ) && boundary(line, 32) && boundary(line, 40) && boundary(line, 41) && boundary(
        line,
        len - 1,
    )
}

fn boundary(s: &[u8], i: usize) -> (r: bool)
    requires
        i <= s@.len(),
    ensures
        r == char_boundary(s@, i as int),
{
    i == 0 || i == s.len() || !(0x80u8 <= s[i] && s[i] < 0xC0u8)
}

impl Converter {
    /// The number of rows after which the conversion stops.
    pub closed spec fn row_limit(&self) -> int {
        self.row_limit as int
    }

    /// The number of lines read so far.
    pub closed spec fn lines_read(&self) -> int {
        self.lines_read as int
    }

    /// The current directory, relative to the top directory.
    pub closed spec fn current_dir(&self) -> Seq<u8> {
        self.dir@
    }

    /// The top directory, taken from the first directory header.
    pub closed spec fn top_dir(&self) -> Seq<u8> {
        self.top_dir@
    }

    /// A converter that has read no line, with no directory header seen yet.
    pub fn new(row_limit: i64) -> (c: Converter)
        ensures
            c.row_limit() == row_limit,
            c.lines_read() == 0,
            c.current_dir() == unset_dir(),
            c.top_dir() == Seq::<u8>::empty(),
    {
        proof {
            reveal_strlit("--");
        }
        let unset = ascii_literal("--");
        let mut dir: Vec<u8> = Vec::new();
        push_range(&mut dir, unset, 0, unset.len());
        assert(dir@ =~= unset_dir());
        Converter { row_limit, lines_read: 0, dir, top_dir: Vec::new() }
    }

    /// The number of lines read so far.
    pub fn lines_read_so_far(&self) -> (n: i64)
        ensures
            n == self.lines_read(),
    {
        self.lines_read
    }

    /// The number of rows after which the conversion stops.
    pub fn limit(&self) -> (n: i64)
        ensures
            n == self.row_limit(),
    {
        self.row_limit
    }

    /// Whether `line` can be converted in the present state.
    pub fn can_convert(&self, line: &[u8]) -> (r: bool)
        ensures
            r == line_is_convertible(self.current_dir(), self.top_dir(), line@),
    {
        if is_directory_line(line) {
            return true;
        }
        if is_file_line(line) {
            return file_columns_fit(line);
        }
        match find_colon(line) {
            None => true,
            Some(c) => {
                if self.dir_is_unset() {
                    return true;
                }
                match find_bytes(line, self.top_dir.as_slice()) {
                    Some(t) => {
                        let top_len = self.top_dir.len();
                        let len = line.len();
                        assert(t + top_len <= len);
                        if t + top_len >= c {
                            return false;
                        }
                        boundary(line, t + top_len + 1)
                    },
                    None => false,
                }
            },
        }
    }

    fn dir_is_unset(&self) -> (r: bool)
        ensures
            r == (self.current_dir() == unset_dir()),
    {
        proof {
            reveal_strlit("--");
        }
        bytes_equal(self.dir.as_slice(), ascii_literal("--"))
    }

    /// Reads one line of the listing (with its line feed, if it has one).
    pub fn convert_line(&mut self, line: &[u8]) -> (out: LineOutcome)
        requires
            line_is_convertible(old(self).current_dir(), old(self).top_dir(), line@),
            old(self).lines_read() < i64::MAX,
        ensures
            final(self).row_limit() == old(self).row_limit(),
            final(self).lines_read() == old(self).lines_read() + 1,
            (final(self).current_dir(), final(self).top_dir()) == next_dirs(
                old(self).current_dir(),
                old(self).top_dir(),
                line@,
            ),
            match out.record {
                Some(r) => record_for(old(self).current_dir(), line@) == Some(r@),
                None => record_for(old(self).current_dir(), line@) is None,
            },
            out.finished == (final(self).lines_read() > final(self).row_limit()),
    {
        self.lines_read = self.lines_read + 1;
        let mut record: Option<Vec<u8>> = None;
        if !is_directory_line(line) {
            if is_file_line(line) {
                record = Some(file_record_of(self.dir.as_slice(), line));
            } else {
                match find_colon(line) {
                    None => {},
                    Some(c) => {
                        if self.dir_is_unset() {
                            let mut top: Vec<u8> = Vec::new();
                            push_range(&mut top, line, 0, c);
                            assert(top@ =~= line@.take(c as int));
                            self.dir = Vec::new();
                            self.top_dir = top;
                        } else {
                            match find_bytes(line, self.top_dir.as_slice()) {
                                Some(t) => {
                                    let start = t + self.top_dir.len() + 1;
                                    let mut dir: Vec<u8> = Vec::new();
                                    push_range(&mut dir, line, start, c);
                                    assert(dir@ =~= line@.subrange(start as int, c as int));
                                    self.dir = dir;
                                },
                                None => {},
                            }
                        }
                    },
                }
            }
        }
        LineOutcome { record, finished: self.lines_read > self.row_limit }
    }
}


/// Lines that list a directory neither change the directories nor yield a record.
pub proof fn law_directory_entries_are_skipped(dir: Seq<u8>, top: Seq<u8>, line: Seq<u8>)
    requires
        is_directory_entry(line),
    ensures
        next_dirs(dir, top, line) == (dir, top),
        record_for(dir, line) is None,
        line_is_convertible(dir, top, line),
{
}

/// Headers change the current directory only; once a header has been seen, the top
/// directory stays as the first header set it.
pub proof fn law_top_dir_is_kept(dir: Seq<u8>, top: Seq<u8>, line: Seq<u8>)
    requires
        dir != unset_dir(),
    ensures
        next_dirs(dir, top, line).1 == top,
{
}

/// The first header makes the text before its `:` the top directory, and files listed
/// after it get records that carry their bare names.
pub proof fn law_first_header_sets_top_dir(top: Seq<u8>, header: Seq<u8>, file: Seq<u8>)
    requires
        is_header(header),
        file_columns_present(file),
        !is_directory_entry(file),
        is_file_entry(file),
    ensures
        ({
            let (d, t) = next_dirs(unset_dir(), top, header);
            &&& d == Seq::<u8>::empty()
            &&& t == header.take(find(header, colon()).unwrap())
            &&& record_for(d, file) == Some(
                file.subrange(41, file.len() - 1) + seq![',' as u8] + size_column(
                    file.subrange(9, 20),
                ) + seq![',' as u8] + file.subrange(21, 31) + seq![' ' as u8]
                    + file.subrange(32, 40) + seq!['\n' as u8],
            )
        }),
{
}

/// A later header `<top>/<sub>:` makes `<sub>` the current directory, and the file lines
/// after it get records whose paths begin with `<sub>/`. `<sub>` is taken to begin with a
/// whole character, as it does in UTF-8 text.
pub proof fn law_header_sets_current_dir(
    dir: Seq<u8>,
    top: Seq<u8>,
    sub: Seq<u8>,
    rest: Seq<u8>,
    file: Seq<u8>,
)
    requires
        dir != unset_dir(),
        !top.contains(':' as u8),
        !sub.contains(':' as u8),
        sub.len() > 0,
        !(0x80 <= sub[0] && sub[0] < 0xC0),
        !is_directory_entry(top + seq!['/' as u8] + sub + colon() + rest),
        !is_file_entry(top + seq!['/' as u8] + sub + colon() + rest),
        file_columns_present(file),
        !is_directory_entry(file),
        is_file_entry(file),
    ensures
        ({
            let header = top + seq!['/' as u8] + sub + colon() + rest;
            &&& line_is_convertible(dir, top, header)
            &&& next_dirs(dir, top, header) == (sub, top)
            &&& record_for(sub, file) matches Some(r) && r.take(sub.len() + 1int) == sub + seq![
                '/' as u8,
            ]
        }),
{
    let header = top + seq!['/' as u8] + sub + colon() + rest;
    let c: int = top.len() + 1int + sub.len();
    assert(header[c] == ':' as u8);
    assert forall|k: int| 0 <= k < c implies header[k] != ':' as u8 by {
        if k < top.len() {
            assert(header[k] == top[k]);
        } else if k > top.len() {
            assert(header[k] == sub[k - top.len() - 1]);
        }
    }
    crate::text::lemma_find_first_byte(header, ':' as u8, c);
    assert(starts_with(header, top)) by {
        assert(header.take(top.len() as int) =~= top);
    }
    crate::text::lemma_find_prefix(header, top);
    assert(header.subrange(top.len() + 1int, c) =~= sub);
    assert(header[top.len() + 1int] == sub[0]);
    assert(find(header, colon()) == Some(c));
    assert(find(header, top) == Some(0int));
    assert(is_header(header));
    assert(can_slice(header, top.len() + 1int, c));
    assert(line_is_convertible(dir, top, header));
    assert(next_dirs(dir, top, header) == (sub, top));
    let r = file_record(sub, file);
    assert(r.take(sub.len() + 1int) =~= sub + seq!['/' as u8]);
}

/// The size column of a record reads back as the size the line gave, where that size
/// is a non-negative number.
pub proof fn law_size_column_reads_back(field: Seq<u8>, size: i64)
    requires
        parse_i64_spec(trim(field)) == Some(size),
        size >= 0,
    ensures
        parse_i64_spec(size_column(field)) == Some(size),
{
    crate::number::lemma_decimal_parse_roundtrip(size);
}


/// Whether `line` opens with one of the two file marks.
pub open spec fn has_file_mark(line: Seq<u8>) -> bool {
    starts_with(line, file_mark()) || starts_with(line, exported_mark())
}

/// Whether the fixed columns of `line` can be cut out: at least 42 bytes, and bytes 9,
/// 20, 21, 31, 32, 40, 41 and the last byte's index all fall between characters.
pub open spec fn columns_cut_cleanly(line: Seq<u8>) -> bool {
    &&& line.len() >= 42
    &&& char_boundary(line, 9)
    &&& char_boundary(line, 20)
    &&& char_boundary(line, 21)
    &&& char_boundary(line, 31)
    &&& char_boundary(line, 32)
    &&& char_boundary(line, 40)
    &&& char_boundary(line, 41)
    &&& char_boundary(line, line.len() - 1)
}

proof fn lemma_mark_not_directory(line: Seq<u8>)
    requires
        has_file_mark(line),
    ensures
        !is_directory_entry(line),
        is_file_entry(line),
{
    reveal_strlit("---- ");
    reveal_strlit("-ep- ");
    if starts_with(line, file_mark()) {
        assert(line[0] == line.take(5)[0]);
    } else {
        assert(line[0] == line.take(5)[0]);
    }
}

/// File lines never change the current or the top directory: all files listed under one
/// header keep that header's directory.
pub proof fn law_file_lines_keep_directories(dir: Seq<u8>, top: Seq<u8>, line: Seq<u8>)
    requires
        has_file_mark(line),
    ensures
        next_dirs(dir, top, line) == (dir, top),
{
    lemma_mark_not_directory(line);
}

/// Lines without a `:` never change the current or the top directory.
pub proof fn law_lines_without_colon_keep_directories(
    dir: Seq<u8>,
    top: Seq<u8>,
    line: Seq<u8>,
)
    requires
        forall|k: int| 0 <= k < line.len() ==> line[k] != ':' as u8,
    ensures
        next_dirs(dir, top, line) == (dir, top),
{
    if find(line, colon()) is Some {
        crate::text::lemma_find_some(line, ':' as u8, 0);
    }
}

/// Two file lines in a row get the same directory: the record of the second does not
/// depend on the first having been read.
pub proof fn law_files_share_their_directory(
    dir: Seq<u8>,
    top: Seq<u8>,
    first: Seq<u8>,
    second: Seq<u8>,
)
    requires
        has_file_mark(first),
    ensures
        record_for(next_dirs(dir, top, first).0, second) == record_for(dir, second),
        next_dirs(next_dirs(dir, top, first).0, next_dirs(dir, top, first).1, second)
            == next_dirs(dir, top, second),
{
    law_file_lines_keep_directories(dir, top, first);
}

/// A file line can be converted exactly when its columns can be cut cleanly, whatever
/// bytes its name holds and whatever state the converter is in.
pub proof fn law_file_lines_convert_when_columns_fit(dir: Seq<u8>, top: Seq<u8>, line: Seq<u8>)
    requires
        has_file_mark(line),
    ensures
        line_is_convertible(dir, top, line) <==> columns_cut_cleanly(line),
{
    lemma_mark_not_directory(line);
}

/// The record of a file line lays out, in order: the directory and `/` (only where the
/// directory is non-empty), the whole name column from byte 41 up to the last byte, `,`,
/// the size column, `,`, the date column, a space, the time column and a line feed.
pub proof fn law_record_layout(dir: Seq<u8>, line: Seq<u8>)
    requires
        has_file_mark(line),
        line.len() >= 42,
    ensures
        record_for(dir, line) matches Some(r) && {
            let name = line.subrange(41, line.len() - 1);
            let size = size_column(line.subrange(9, 20));
            let p: int = if dir.len() == 0 {
                0
            } else {
                dir.len() + 1int
            };
            let q: int = p + name.len();
            &&& r.len() == q + 1 + size.len() + 21
            &&& dir.len() > 0 ==> r.take(dir.len() as int) == dir && r[dir.len() as int]
                == '/' as u8
            &&& r.subrange(p, q) == name
            &&& r[q] == ',' as u8
            &&& r.subrange(q + 1, q + 1 + size.len()) == size
            &&& r[q + 1 + size.len()] == ',' as u8
            &&& r.subrange(q + 2 + size.len(), q + 12 + size.len()) == line.subrange(21, 31)
            &&& r[q + 12 + size.len()] == ' ' as u8
            &&& r.subrange(q + 13 + size.len(), q + 21 + size.len()) == line.subrange(32, 40)
            &&& r[q + 21 + size.len()] == '\n' as u8
        },
{
    lemma_mark_not_directory(line);
    let name = line.subrange(41, line.len() - 1);
    let size = size_column(line.subrange(9, 20));
    let path = if dir.len() == 0 {
        name
    } else {
        dir + seq!['/' as u8] + name
    };
    let r = file_record(dir, line);
    let p: int = if dir.len() == 0 {
        0
    } else {
        dir.len() + 1int
    };
    let q: int = p + name.len();
    assert(path.len() == q);
    assert(path.subrange(p, q) =~= name);
    if dir.len() > 0 {
        assert(path.take(dir.len() as int) =~= dir);
    }
    let tail = seq![',' as u8] + size + seq![',' as u8] + line.subrange(21, 31) + seq![
        ' ' as u8,
    ] + line.subrange(32, 40) + seq!['\n' as u8];
    assert(r =~= path + tail);
    assert(r.subrange(p, q) =~= name);
    if dir.len() > 0 {
        assert(r.take(dir.len() as int) =~= dir);
    }
    assert(r.subrange(q + 1, q + 1 + size.len()) =~= size);
    assert(r.subrange(q + 2 + size.len(), q + 12 + size.len()) =~= line.subrange(21, 31));
    assert(r.subrange(q + 13 + size.len(), q + 21 + size.len()) =~= line.subrange(32, 40));
}


/// Only lines that open with a file mark yield a record, and each such line yields one.
pub proof fn law_only_file_lines_give_records(dir: Seq<u8>, line: Seq<u8>)
    ensures
        record_for(dir, line) is Some <==> has_file_mark(line),
{
    if has_file_mark(line) {
        lemma_mark_not_directory(line);
    }
}

/// A size field that does not read as a non-negative number gives the column
/// `invalid size value: -`, then the trimmed field, then `-`.
pub proof fn law_invalid_size_column(field: Seq<u8>)
    requires
        !(parse_i64_spec(trim(field)) matches Some(v) && v >= 0),
    ensures
        ({
            let c = size_column(field);
            &&& c.len() == 22 + trim(field).len()
            &&& c.take(21) == invalid_size_lead()
            &&& c.subrange(21, c.len() - 1) == trim(field)
            &&& c.last() == '-' as u8
        }),
{
    reveal_strlit("invalid size value: -");
    let c = size_column(field);
    let t = trim(field);
    assert(c =~= invalid_size_lead() + t + seq!['-' as u8]);
    assert(c.take(21) =~= invalid_size_lead());
    assert(c.subrange(21, c.len() - 1) =~= t);
}

} // verus!
