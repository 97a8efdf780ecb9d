use vstd::prelude::*;
use vstd::string::*;
use vstd::utf8::{
    decode_utf8, is_char_boundary_iff_not_is_continuation_byte, is_continuation_byte, valid_utf8,
    valid_utf8_split,
};
use crate::data_struct::{DataStatus, DataStruct, DataStructPackage, DataStructVec};
use crate::search::same_text;

verus! {

/// The largest file, in bytes, that is read.
pub const MAX_FILE_SIZE: u64 = 10 * 1024 * 1024;

/// The file formats that are read, named by extension.
#[derive(Clone, Copy, PartialEq, Eq, Debug, Structural)]
pub enum ValidFormats {
    Txt,
    Csv,
    Json,
    Log,
    Dat,
}

/// The lower-case form of a text, as `str::to_lowercase` gives it.
pub uninterp spec fn lowercase(text: Seq<char>) -> Seq<char>;

/// Calls `str::to_lowercase`.
#[verifier::external_body]
fn to_lowercase(text: &str) -> (r: String)
    ensures
        r@ == lowercase(text@),
{
    text.to_lowercase()
}

/// The format named by a lower-case extension.
pub open spec fn format_named(name: Seq<char>) -> Option<ValidFormats> {
    if name == "txt"@ {
        Some(ValidFormats::Txt)
    } else if name == "csv"@ {
        Some(ValidFormats::Csv)
    } else if name == "json"@ {
        Some(ValidFormats::Json)
    } else if name == "log"@ {
        Some(ValidFormats::Log)
    } else if name == "dat"@ {
        Some(ValidFormats::Dat)
    } else {
        None
    }
}

impl ValidFormats {
    /// The format named by `lowered`, an extension already in lower case.
    pub fn from_lowercase(lowered: &str) -> (r: Result<ValidFormats, ()>)
        ensures
            match format_named(lowered@) {
                Some(f) => r == Ok::<ValidFormats, ()>(f),
                None => r is Err,
            },
    {
        if same_text(lowered, "txt") {
            Ok(ValidFormats::Txt)
        } else if same_text(lowered, "csv") {
            Ok(ValidFormats::Csv)
        } else if same_text(lowered, "json") {
            Ok(ValidFormats::Json)
        } else if same_text(lowered, "log") {
            Ok(ValidFormats::Log)
        } else if same_text(lowered, "dat") {
            Ok(ValidFormats::Dat)
        } else {
            Err(())
        }
    }

    /// The format named by the extension `ext`, in any case.
    pub fn from_str(ext: &str) -> (r: Result<ValidFormats, ()>)
        ensures
            match format_named(lowercase(ext@)) {
                Some(f) => r == Ok::<ValidFormats, ()>(f),
                None => r is Err,
            },
    {
        let lowered = to_lowercase(ext);
        Self::from_lowercase(lowered.as_str())
    }
}

/// Exactly five lower-case extensions name a format, each its own: txt,
/// csv, json, log and dat.
pub proof fn lemma_read_formats(name: Seq<char>)
    ensures
        format_named(name) is Some <==> (name == "txt"@ || name == "csv"@ || name == "json"@ || name == "log"@
            || name == "dat"@),
        format_named("txt"@) == Some(ValidFormats::Txt),
        format_named("csv"@) == Some(ValidFormats::Csv),
        format_named("json"@) == Some(ValidFormats::Json),
        format_named("log"@) == Some(ValidFormats::Log),
        format_named("dat"@) == Some(ValidFormats::Dat),
{
    reveal_strlit("txt");
    reveal_strlit("csv");
    reveal_strlit("json");
    reveal_strlit("log");
    reveal_strlit("dat");
    assert("csv"@[0] != "txt"@[0]);
    assert("json"@.len() != "txt"@.len() && "json"@.len() != "csv"@.len());
    assert("log"@[0] != "txt"@[0] && "log"@[0] != "csv"@[0] && "log"@.len() != "json"@.len());
    assert("dat"@[0] != "txt"@[0] && "dat"@[0] != "csv"@[0] && "dat"@.len() != "json"@.len() && "dat"@[0] != "log"@[0]);
}

/// The size limit is ten mebibytes: a file of 10 * 1024 * 1024 bytes is
/// read, one of a byte more is not.
pub proof fn lemma_size_limit()
    ensures
        MAX_FILE_SIZE == 10 * 1024 * 1024,
{
}

/// Why a file could not be read.
#[derive(Debug)]
pub enum FileReadError {
    NotFound,
    FileTooLarge,
    UnsupportedFormat,
    NoExtension,
    /// Reading the content failed; the text says why.
    ReadError(String),
    NotAFile,
    /// Another failure of the system; the text says which.
    IOError(String),
}

impl FileReadError {
    /// The text that describes the error.
    pub open spec fn spec_message(&self) -> Seq<char> {
        match self {
            FileReadError::NotFound => "NotFound"@,
            FileReadError::FileTooLarge => "FileTooLarge"@,
            FileReadError::UnsupportedFormat => "UnsupportedFormat"@,
            FileReadError::NoExtension => "NoExtension"@,
            FileReadError::ReadError(msg) => "ReadError:"@ + msg@,
            FileReadError::NotAFile => "NotAFile"@,
            FileReadError::IOError(err) => "IOError:"@ + err@,
        }
    }

    /// The text that describes the error; see `spec_message`.
    pub fn message(&self) -> (r: String)
        ensures
            r@ == self.spec_message(),
    {
        match self {
            FileReadError::NotFound => String::from_str("NotFound"),
            FileReadError::FileTooLarge => String::from_str("FileTooLarge"),
            FileReadError::UnsupportedFormat => String::from_str("UnsupportedFormat"),
            FileReadError::NoExtension => String::from_str("NoExtension"),
            FileReadError::ReadError(msg) => {
                let mut r = String::from_str("ReadError:");
                r.append(msg.as_str());
                r
            },
            FileReadError::NotAFile => String::from_str("NotAFile"),
            FileReadError::IOError(err) => {
                let mut r = String::from_str("IOError:");
                r.append(err.as_str());
                r
            },
        }
    }
}

/// The kinds of system failure that the reading tells apart.
#[derive(Clone, Copy, PartialEq, Eq, Debug, Structural)]
pub enum IoErrorKind {
    NotFound,
    PermissionDenied,
    NotADirectory,
    Other,
}

/// Why a directory could not be read.
#[derive(Debug)]
pub enum PathReadError {
    NotFound,
    NotADirectory,
    PermissionDenied,
    /// Another failure of the system; the text says which.
    IOError(String),
}

impl PathReadError {
    /// The error for a failure of the system of kind `kind`, described by
    /// `text`.
    pub fn from_io_error(kind: IoErrorKind, text: String) -> (r: PathReadError)
        ensures
            match kind {
                IoErrorKind::NotFound => r is NotFound,
                IoErrorKind::PermissionDenied => r is PermissionDenied,
                IoErrorKind::NotADirectory => r is NotADirectory,
                IoErrorKind::Other => r matches PathReadError::IOError(t) && t == text,
            },
    {
        match kind {
            IoErrorKind::NotFound => PathReadError::NotFound,
            IoErrorKind::PermissionDenied => PathReadError::PermissionDenied,
            IoErrorKind::NotADirectory => PathReadError::NotADirectory,
            IoErrorKind::Other => PathReadError::IOError(text),
        }
    }

    /// The text that describes the error.
    pub open spec fn spec_message(&self) -> Seq<char> {
        match self {
            PathReadError::NotFound => "指定的路径未找到"@,
            PathReadError::PermissionDenied => "没有权限访问该路径"@,
            PathReadError::NotADirectory => "该路径不是一个目录"@,
            PathReadError::IOError(e) => "IO 系统错误: "@ + e@,
        }
    }

    /// The text that describes the error; see `spec_message`.
    pub fn message(&self) -> (r: String)
        ensures
            r@ == self.spec_message(),
    {
        match self {
            PathReadError::NotFound => String::from_str("指定的路径未找到"),
            PathReadError::PermissionDenied => String::from_str("没有权限访问该路径"),
            PathReadError::NotADirectory => String::from_str("该路径不是一个目录"),
            PathReadError::IOError(e) => {
                let mut r = String::from_str("IO 系统错误: ");
                r.append(e.as_str());
                r
            },
        }
    }
}

/// The error for a file that cannot be opened: not found, or another
/// failure of the system described by `text`.
pub fn open_error(kind: IoErrorKind, text: String) -> (r: FileReadError)
    ensures
        kind == IoErrorKind::NotFound ==> r is NotFound,
        kind != IoErrorKind::NotFound ==> (r matches FileReadError::IOError(t) && t == text),
{
    if kind == IoErrorKind::NotFound {
        FileReadError::NotFound
    } else {
        FileReadError::IOError(text)
    }
}

/// The format of a file by its extension (`None` when the file has none,
/// or none that is text).
pub fn check_extension(ext: Option<&str>) -> (r: Result<ValidFormats, FileReadError>)
    ensures
        match ext {
            None => r matches Err(FileReadError::NoExtension),
            Some(e) => match format_named(lowercase(e@)) {
                Some(f) => r matches Ok(g) && g == f,
                None => r matches Err(FileReadError::UnsupportedFormat),
            },
        },
{
    match ext {
        None => Err(FileReadError::NoExtension),
        Some(e) => match ValidFormats::from_str(e) {
            Ok(f) => Ok(f),
            Err(()) => Err(FileReadError::UnsupportedFormat),
        },
    }
}

/// Whether a file may be read, from its metadata: it must be a regular
/// file of at most `MAX_FILE_SIZE` bytes.
pub fn check_metadata(is_file: bool, len: u64) -> (r: Result<(), FileReadError>)
    ensures
        !is_file ==> r matches Err(FileReadError::NotAFile),
        is_file && len > MAX_FILE_SIZE ==> r matches Err(FileReadError::FileTooLarge),
        is_file && len <= MAX_FILE_SIZE ==> r is Ok,
{
    if !is_file {
        return Err(FileReadError::NotAFile);
    }
    if len > MAX_FILE_SIZE {
        return Err(FileReadError::FileTooLarge);
    }
    Ok(())
}

/// A line without its line end: the carriage return before a line feed
/// goes too.
pub open spec fn without_cr(line: Seq<u8>) -> Seq<u8> {
    if line.len() > 0 && line.last() == 13u8 { line.drop_last() } else { line }
}

/// The lines of `bytes` from the line that starts at `start`, scanning
/// from byte `i`: each line feed ends a line, which loses the line feed
/// and a carriage return just before it; the bytes after the last line
/// feed, if any, make a last line as they are.
pub open spec fn lines_from(bytes: Seq<u8>, start: int, i: int) -> Seq<Seq<u8>>
    decreases bytes.len() - i,
{
    if i >= bytes.len() {
        if start < bytes.len() { seq![bytes.subrange(start, bytes.len() as int)] } else { seq![] }
    } else if bytes[i] == 10u8 {
        seq![without_cr(bytes.subrange(start, i))] + lines_from(bytes, i + 1, i + 1)
    } else {
        lines_from(bytes, start, i + 1)
    }
}

/// The lines of `bytes`.
pub open spec fn byte_lines(bytes: Seq<u8>) -> Seq<Seq<u8>> {
    lines_from(bytes, 0, 0)
}

/// The text of a line that is not valid UTF-8 is refused with this message.
pub open spec fn invalid_utf8_message() -> Seq<char> {
    "stream did not contain valid UTF-8"@
}

/// Calls `String::from_utf8`: the text that `bytes` encode, or `None`
/// when they are not valid UTF-8.
#[verifier::external_body]
fn string_from_utf8(bytes: Vec<u8>) -> (r: Option<String>)
    ensures
        r is Some <==> valid_utf8(bytes@),
        r matches Some(s) ==> s@ == decode_utf8(bytes@),
{
    String::from_utf8(bytes).ok()
}

/// The bytes `bytes[start..end]`, without a final carriage return when
/// `strip_cr` holds.
fn copy_line(bytes: &[u8], start: usize, end: usize, strip_cr: bool) -> (r: Vec<u8>)
    requires
        start <= end <= bytes@.len(),
    ensures
        strip_cr ==> r@ == without_cr(bytes@.subrange(start as int, end as int)),
        !strip_cr ==> r@ == bytes@.subrange(start as int, end as int),
{
    let mut r: Vec<u8> = Vec::new();
    let mut k: usize = start;
    while k < end
        invariant
            start <= k <= end,
            end <= bytes@.len(),
            r@ == bytes@.subrange(start as int, k as int),
        decreases end - k,
    {
        r.push(bytes[k]);
        assert(r@ =~= bytes@.subrange(start as int, k + 1));
        k = k + 1;
    }
    if strip_cr && r.len() > 0 && r[r.len() - 1] == 13u8 {
        r.pop();
        assert(r@ =~= without_cr(bytes@.subrange(start as int, end as int)));
    }
    r
}

/// Dropping the first byte of valid UTF-8 that starts with an ASCII byte
/// leaves valid UTF-8.
proof fn lemma_drop_ascii_head(b: Seq<u8>)
    requires
        valid_utf8(b),
        b.len() > 0,
        b[0] < 0x80u8,
    ensures
        valid_utf8(b.subrange(1, b.len() as int)),
{
    assert(vstd::utf8::pop_first_scalar(b) =~= b.subrange(1, b.len() as int));
}

/// Cutting valid UTF-8 just before an ASCII byte at `j` keeps both parts
/// valid.
proof fn lemma_cut_before_ascii(b: Seq<u8>, j: int)
    requires
        valid_utf8(b),
        0 <= j < b.len(),
        b[j] < 0x80u8,
    ensures
        valid_utf8(b.subrange(0, j)),
        valid_utf8(b.subrange(j, b.len() as int)),
{
    is_char_boundary_iff_not_is_continuation_byte(b, j);
    assert(!is_continuation_byte(b[j]));
    valid_utf8_split(b, j);
}

proof fn lemma_lines_from_valid(bytes: Seq<u8>, start: int, i: int)
    requires
        0 <= start <= i <= bytes.len(),
        valid_utf8(bytes.subrange(start, bytes.len() as int)),
    ensures
        forall|k: int| 0 <= k < lines_from(bytes, start, i).len() ==> valid_utf8(#[trigger] lines_from(bytes, start, i)[k]),
    decreases bytes.len() - i,
{
    let tail = bytes.subrange(start, bytes.len() as int);
    if i >= bytes.len() {
        if start < bytes.len() {
            assert(lines_from(bytes, start, i) == seq![tail]);
        } else {
            assert(lines_from(bytes, start, i) =~= Seq::<Seq<u8>>::empty());
        }
    } else if bytes[i] == 10u8 {
        lemma_cut_before_ascii(tail, i - start);
        let seg = bytes.subrange(start, i);
        assert(tail.subrange(0, i - start) =~= seg);
        let rest = bytes.subrange(i, bytes.len() as int);
        assert(tail.subrange(i - start, tail.len() as int) =~= rest);
        lemma_drop_ascii_head(rest);
        assert(rest.subrange(1, rest.len() as int) =~= bytes.subrange(i + 1, bytes.len() as int));
        assert(valid_utf8(without_cr(seg))) by {
            if seg.len() > 0 && seg.last() == 13u8 {
                lemma_cut_before_ascii(seg, seg.len() - 1);
                assert(seg.subrange(0, seg.len() - 1) =~= seg.drop_last());
            }
        }
        lemma_lines_from_valid(bytes, i + 1, i + 1);
        let all = lines_from(bytes, start, i);
        let later = lines_from(bytes, i + 1, i + 1);
        assert(all == seq![without_cr(seg)] + later);
        assert forall|k: int| 0 <= k < all.len() implies valid_utf8(#[trigger] all[k]) by {
            if k > 0 {
                assert(all[k] == later[k - 1]);
            }
        }
    } else {
        lemma_lines_from_valid(bytes, start, i + 1);
        assert(lines_from(bytes, start, i) == lines_from(bytes, start, i + 1));
    }
}

/// Content that is valid UTF-8 splits into lines that are each valid
/// UTF-8, so it always reads as its lines.
pub proof fn lemma_valid_content_has_valid_lines(bytes: Seq<u8>)
    requires
        valid_utf8(bytes),
    ensures
        forall|k: int| 0 <= k < byte_lines(bytes).len() ==> valid_utf8(#[trigger] byte_lines(bytes)[k]),
{
    assert(bytes.subrange(0, bytes.len() as int) =~= bytes);
    lemma_lines_from_valid(bytes, 0, 0);
}

/// Lines joined back, each followed by a line feed.
pub open spec fn join_lines(lines: Seq<Seq<u8>>) -> Seq<u8>
    decreases lines.len(),
{
    if lines.len() == 0 {
        seq![]
    } else {
        lines[0] + seq![10u8] + join_lines(lines.drop_first())
    }
}

proof fn lemma_lines_from_rejoin(bytes: Seq<u8>, start: int, i: int)
    requires
        0 <= start <= i <= bytes.len(),
        forall|j: int| 0 <= j < bytes.len() ==> bytes[j] != 13u8,
        forall|j: int| start <= j < i ==> bytes[j] != 10u8,
        bytes.len() == 0 || bytes.last() == 10u8,
    ensures
        join_lines(lines_from(bytes, start, i)) == bytes.subrange(start, bytes.len() as int),
    decreases bytes.len() - i,
{
    if i >= bytes.len() {
        if start < bytes.len() {
            assert(bytes[bytes.len() - 1] == 10u8);
        }
        assert(lines_from(bytes, start, i) =~= Seq::<Seq<u8>>::empty());
        assert(bytes.subrange(start, bytes.len() as int) =~= Seq::<u8>::empty());
    } else if bytes[i] == 10u8 {
        lemma_lines_from_rejoin(bytes, i + 1, i + 1);
        let seg = bytes.subrange(start, i);
        assert(without_cr(seg) == seg) by {
            if seg.len() > 0 {
                assert(seg.last() == bytes[i - 1]);
            }
        }
        let all = lines_from(bytes, start, i);
        let later = lines_from(bytes, i + 1, i + 1);
        assert(all == seq![seg] + later);
        assert(all.drop_first() =~= later);
        assert(all[0] == seg);
        assert(seg + seq![10u8] + bytes.subrange(i + 1, bytes.len() as int)
            =~= bytes.subrange(start, bytes.len() as int));
    } else {
        lemma_lines_from_rejoin(bytes, start, i + 1);
    }
}

/// Content without carriage returns that ends each line with a line feed
/// is its lines joined back, each followed by a line feed.
pub proof fn lemma_lines_rejoin(bytes: Seq<u8>)
    requires
        forall|j: int| 0 <= j < bytes.len() ==> bytes[j] != 13u8,
        bytes.len() == 0 || bytes.last() == 10u8,
    ensures
        join_lines(byte_lines(bytes)) == bytes,
{
    lemma_lines_from_rejoin(bytes, 0, 0);
    assert(bytes.subrange(0, bytes.len() as int) =~= bytes);
}

/// Lines joined, each followed by a carriage return and a line feed, as a
/// Windows text file writes them.
pub open spec fn join_crlf_lines(lines: Seq<Seq<u8>>) -> Seq<u8>
    decreases lines.len(),
{
    if lines.len() == 0 {
        seq![]
    } else {
        lines[0] + seq![13u8, 10u8] + join_crlf_lines(lines.drop_first())
    }
}

/// Scanning past bytes that are not line feeds leaves the lines unchanged.
proof fn lemma_lines_from_skip(bytes: Seq<u8>, start: int, i: int, j: int)
    requires
        0 <= start <= i <= j <= bytes.len(),
        forall|k: int| i <= k < j ==> bytes[k] != 10u8,
    ensures
        lines_from(bytes, start, i) == lines_from(bytes, start, j),
    decreases j - i,
{
    if i < j {
        lemma_lines_from_skip(bytes, start, i + 1, j);
    }
}

/// The lines of bytes after a prefix, scanned from past the prefix, are
/// the lines of those bytes alone.
proof fn lemma_lines_from_after(pre: Seq<u8>, b: Seq<u8>, s: int, i: int)
    requires
        0 <= s <= i <= b.len(),
    ensures
        lines_from(pre + b, pre.len() + s, pre.len() + i) == lines_from(b, s, i),
    decreases b.len() - i,
{
    let all = pre + b;
    let o = pre.len() as int;
    if i >= b.len() {
        if s < b.len() {
            assert(all.subrange(o + s, all.len() as int) =~= b.subrange(s, b.len() as int));
        }
    } else {
        assert(all[o + i] == b[i]);
        if b[i] == 10u8 {
            lemma_lines_from_after(pre, b, i + 1, i + 1);
            assert(all.subrange(o + s, o + i) =~= b.subrange(s, i));
        } else {
            lemma_lines_from_after(pre, b, s, i + 1);
        }
    }
}

/// Lines without line feeds, written each followed by a carriage return
/// and a line feed, read back as the same lines, empty ones included: a
/// line loses exactly the carriage return and the line feed that end it.
pub proof fn lemma_crlf_lines_read_back(lines: Seq<Seq<u8>>)
    requires
        forall|k: int, j: int| 0 <= k < lines.len() && 0 <= j < lines[k].len() ==> #[trigger] lines[k][j] != 10u8,
    ensures
        byte_lines(join_crlf_lines(lines)) == lines,
    decreases lines.len(),
{
    if lines.len() > 0 {
        let rest = lines.drop_first();
        assert forall|k: int, j: int| 0 <= k < rest.len() && 0 <= j < rest[k].len() implies #[trigger] rest[k][j] != 10u8 by {
            assert(rest[k] == lines[k + 1]);
        }
        lemma_crlf_lines_read_back(rest);
        let line = lines[0];
        let head = line + seq![13u8, 10u8];
        let tail = join_crlf_lines(rest);
        let bytes = join_crlf_lines(lines);
        let p = line.len() as int;
        assert(bytes == head + tail);
        assert forall|k: int| 0 <= k < p + 1 implies bytes[k] != 10u8 by {
            if k < p {
                assert(bytes[k] == line[k]);
                assert(lines[0][k] != 10u8);
            } else {
                assert(bytes[k] == 13u8);
            }
        }
        assert(bytes[p + 1] == 10u8);
        lemma_lines_from_skip(bytes, 0, 0, p + 1);
        assert(bytes.subrange(0, p + 1) =~= line.push(13u8));
        assert(without_cr(line.push(13u8)) =~= line);
        lemma_lines_from_after(head, tail, 0, 0);
        assert(lines_from(bytes, 0, p + 1) == seq![line] + lines_from(bytes, p + 2, p + 2));
        assert(lines =~= seq![line] + rest);
    } else {
        assert(byte_lines(join_crlf_lines(lines)) =~= lines);
    }
}

/// Lines without line feeds or a final carriage return, written each
/// followed by a line feed, read back as the same lines, empty ones
/// included.
pub proof fn lemma_lf_lines_read_back(lines: Seq<Seq<u8>>)
    requires
        forall|k: int, j: int| 0 <= k < lines.len() && 0 <= j < lines[k].len() ==> #[trigger] lines[k][j] != 10u8,
        forall|k: int| 0 <= k < lines.len() && (#[trigger] lines[k]).len() > 0 ==> lines[k].last() != 13u8,
    ensures
        byte_lines(join_lines(lines)) == lines,
    decreases lines.len(),
{
    if lines.len() > 0 {
        let rest = lines.drop_first();
        assert forall|k: int, j: int| 0 <= k < rest.len() && 0 <= j < rest[k].len() implies #[trigger] rest[k][j] != 10u8 by {
            assert(rest[k] == lines[k + 1]);
        }
        assert forall|k: int| 0 <= k < rest.len() && (#[trigger] rest[k]).len() > 0 implies rest[k].last() != 13u8 by {
            assert(rest[k] == lines[k + 1]);
        }
        lemma_lf_lines_read_back(rest);
        let line = lines[0];
        let head = line + seq![10u8];
        let tail = join_lines(rest);
        let bytes = join_lines(lines);
        let p = line.len() as int;
        assert(bytes == head + tail);
        assert forall|k: int| 0 <= k < p implies bytes[k] != 10u8 by {
            assert(bytes[k] == line[k]);
            assert(lines[0][k] != 10u8);
        }
        assert(bytes[p] == 10u8);
        lemma_lines_from_skip(bytes, 0, 0, p);
        assert(bytes.subrange(0, p) =~= line);
        assert(without_cr(line) == line);
        lemma_lines_from_after(head, tail, 0, 0);
        assert(lines_from(bytes, 0, p) == seq![line] + lines_from(bytes, p + 1, p + 1));
        assert(lines =~= seq![line] + rest);
    } else {
        assert(byte_lines(join_lines(lines)) =~= lines);
    }
}

/// The lines of a file's content, as texts. Fails, with the message
/// `invalid_utf8_message`, when a line is not valid UTF-8.
pub fn split_lines(bytes: &[u8]) -> (r: Result<Vec<String>, FileReadError>)
    ensures
        (forall|k: int| 0 <= k < byte_lines(bytes@).len() ==> valid_utf8(#[trigger] byte_lines(bytes@)[k]))
            <==> r is Ok,
        r matches Ok(lines) ==> {
            &&& lines@.len() == byte_lines(bytes@).len()
            &&& forall|k: int| 0 <= k < lines@.len() ==> (#[trigger] lines@[k])@ == decode_utf8(byte_lines(bytes@)[k])
        },
        r matches Err(e) ==> (e matches FileReadError::ReadError(m) && m@ == invalid_utf8_message()),
        valid_utf8(bytes@) ==> r is Ok,
{
    proof {
        if valid_utf8(bytes@) {
            lemma_valid_content_has_valid_lines(bytes@);
        }
    }
    let n = bytes.len();
    let mut lines: Vec<String> = Vec::new();
    let ghost mut done: Seq<Seq<u8>> = seq![];
    let mut start: usize = 0;
    let mut i: usize = 0;
    while i < n
        invariant
            n == bytes@.len(),
            start <= i <= n,
            byte_lines(bytes@) == done + lines_from(bytes@, start as int, i as int),
            lines@.len() == done.len(),
            forall|k: int| 0 <= k < done.len() ==> valid_utf8(#[trigger] done[k]),
            valid_utf8(bytes@) ==> forall|k: int|
                0 <= k < byte_lines(bytes@).len() ==> valid_utf8(#[trigger] byte_lines(bytes@)[k]),
            forall|k: int| 0 <= k < lines@.len() ==> (#[trigger] lines@[k])@ == decode_utf8(done[k]),
        decreases n - i,
    {
        if bytes[i] == 10u8 {
            let raw = copy_line(bytes, start, i, true);
            let ghost seg = raw@;
            assert(lines_from(bytes@, start as int, i as int)
                == seq![seg] + lines_from(bytes@, i + 1, i + 1));
            match string_from_utf8(raw) {
                Some(text) => {
                    lines.push(text);
                    proof {
                        assert(done + (seq![seg] + lines_from(bytes@, i + 1, i + 1))
                            =~= done.push(seg) + lines_from(bytes@, i + 1, i + 1));
                        done = done.push(seg);
                    }
                },
                None => {
                    proof {
                        assert(byte_lines(bytes@)[done.len() as int] == seg);
                    }
                    return Err(FileReadError::ReadError(String::from_str("stream did not contain valid UTF-8")));
                },
            }
            start = i + 1;
        } else {
            assert(lines_from(bytes@, start as int, i as int) == lines_from(bytes@, start as int, i + 1));
        }
        i = i + 1;
    }
    if start < n {
        let raw = copy_line(bytes, start, n, false);
        let ghost seg = raw@;
        assert(lines_from(bytes@, start as int, n as int) == seq![seg]);
        match string_from_utf8(raw) {
            Some(text) => {
                lines.push(text);
                proof {
                    done = done.push(seg);
                    assert(byte_lines(bytes@) =~= done);
                }
            },
            None => {
                proof {
                    assert(byte_lines(bytes@)[done.len() as int] == seg);
                }
                return Err(FileReadError::ReadError(String::from_str("stream did not contain valid UTF-8")));
            },
        }
    } else {
        assert(lines_from(bytes@, start as int, n as int) == Seq::<Seq<u8>>::empty());
        assert(byte_lines(bytes@) =~= done);
    }
    Ok(lines)
}

/// A file that was read: its path and its lines.
pub fn success_package(path: String, values: Vec<String>) -> (p: DataStructPackage)
    ensures
        p.data_status is SUCCESS,
        p.data_path == path,
        p.data_struct.values == values,
{
    DataStructPackage { data_status: DataStatus::SUCCESS, data_path: path, data_struct: DataStruct { values } }
}

/// A file that could not be read: its path, the error's message, no lines.
pub fn error_package(path: String, error: &FileReadError) -> (p: DataStructPackage)
    ensures
        (p.data_status matches DataStatus::ERROR(m) && m@ == error.spec_message()),
        p.data_path == path,
        p.data_struct.values@.len() == 0,
{
    DataStructPackage {
        data_status: DataStatus::ERROR(error.message()),
        data_path: path,
        data_struct: DataStruct { values: Vec::new() },
    }
}

/// What came of one entry of a directory.
pub enum DirEntryOutcome {
    /// The entry itself could not be read.
    Unreadable,
    /// The entry is not a file.
    NotAFile,
    /// A file, with the path and what reading it gave.
    File(String, Result<Vec<String>, FileReadError>),
}

/// The packages for the entries of a directory, in order: one for each
/// file, read or not; entries that are not files, or could not be read,
/// give none. A file that could not be read has no lines and the error's
/// message; a file that was read has its lines and no message.
pub open spec fn packages_of(entries: Seq<DirEntryOutcome>) -> Seq<(Seq<char>, Seq<Seq<char>>, Option<Seq<char>>)>
    decreases entries.len(),
{
    if entries.len() == 0 {
        seq![]
    } else {
        let before = packages_of(entries.drop_last());
        match entries.last() {
            DirEntryOutcome::File(path, Ok(values)) =>
                before.push((path@, values@.map_values(|v: String| v@), None)),
            DirEntryOutcome::File(path, Err(e)) => before.push((path@, seq![], Some(e.spec_message()))),
            _ => before,
        }
    }
}

/// A package, as (path, lines, error message when it was not read).
pub open spec fn package_view(p: DataStructPackage) -> (Seq<char>, Seq<Seq<char>>, Option<Seq<char>>) {
    match p.data_status {
        DataStatus::SUCCESS => (p.data_path@, p.data_struct.lines(), None),
        DataStatus::ERROR(m) => (p.data_path@, p.data_struct.lines(), Some(m@)),
    }
}

/// How many of `entries` are files, read or not.
pub open spec fn files_among(entries: Seq<DirEntryOutcome>) -> int
    decreases entries.len(),
{
    if entries.len() == 0 {
        0
    } else {
        files_among(entries.drop_last()) + if entries.last() is File { 1int } else { 0int }
    }
}

proof fn lemma_packages_of_len(entries: Seq<DirEntryOutcome>)
    ensures
        packages_of(entries).len() == files_among(entries),
    decreases entries.len(),
{
    if entries.len() > 0 {
        lemma_packages_of_len(entries.drop_last());
    }
}

/// The package for entry `k`, a file, is the one after the packages of the
/// files before it: it has the file's path and, read, all its lines, or,
/// not read, no lines and the error's message.
proof fn lemma_package_of_entry(entries: Seq<DirEntryOutcome>, k: int)
    requires
        0 <= k < entries.len(),
        entries[k] is File,
    ensures
        files_among(entries.subrange(0, k)) < packages_of(entries).len(),
        entries[k] matches DirEntryOutcome::File(path, Ok(values)) ==>
            packages_of(entries)[files_among(entries.subrange(0, k))]
                == (path@, values@.map_values(|v: String| v@), None::<Seq<char>>),
        entries[k] matches DirEntryOutcome::File(path, Err(e)) ==>
            packages_of(entries)[files_among(entries.subrange(0, k))]
                == (path@, Seq::<Seq<char>>::empty(), Some(e.spec_message())),
    decreases entries.len(),
{
    let before = entries.drop_last();
    lemma_packages_of_len(before);
    let earlier = packages_of(before);
    let all = packages_of(entries);
    let idx = files_among(entries.subrange(0, k));
    lemma_packages_of_len(entries.subrange(0, k));
    assert(entries.last() == entries[entries.len() - 1]);
    if entries.last() is File {
        assert(all.len() == earlier.len() + 1);
    } else {
        assert(all == earlier);
    }
    assert(forall|j: int| 0 <= j < earlier.len() ==> all[j] == #[trigger] earlier[j]);
    if k == entries.len() - 1 {
        assert(entries.subrange(0, k) =~= before);
        assert(idx == earlier.len());
        match entries[k] {
            DirEntryOutcome::File(path, Ok(values)) => {
                assert(all == earlier.push((path@, values@.map_values(|v: String| v@), None::<Seq<char>>)));
                assert(all[idx] == (path@, values@.map_values(|v: String| v@), None::<Seq<char>>));
            },
            DirEntryOutcome::File(path, Err(e)) => {
                assert(all == earlier.push((path@, Seq::<Seq<char>>::empty(), Some(e.spec_message()))));
                assert(all[idx] == (path@, Seq::<Seq<char>>::empty(), Some(e.spec_message())));
            },
            _ => {},
        }
    } else {
        lemma_package_of_entry(before, k);
        assert(before.subrange(0, k) =~= entries.subrange(0, k));
        assert(before[k] == entries[k]);
        assert(idx < earlier.len());
        assert(all[idx] == earlier[idx]);
    }
}

/// Reading a directory loses nothing: there is one package per file
/// entry, in entry order; a file that was read keeps its path and every
/// one of its lines, and a file that could not be read keeps its path and
/// the error's message, with no lines.
pub proof fn lemma_directory_files_keep_their_lines(entries: Seq<DirEntryOutcome>, packages: Seq<DataStructPackage>)
    requires
        packages.map_values(|p: DataStructPackage| package_view(p)) == packages_of(entries),
    ensures
        packages.len() == files_among(entries),
        forall|k: int| #![trigger entries[k]] 0 <= k < entries.len() ==> (entries[k] matches DirEntryOutcome::File(path, Ok(values)) ==> {
            let p = packages[files_among(entries.subrange(0, k))];
            &&& p.data_path@ == path@
            &&& p.data_status is SUCCESS
            &&& p.data_struct.lines() == values@.map_values(|v: String| v@)
            &&& p.data_struct.values@.len() == values@.len()
        }),
        forall|k: int| #![trigger entries[k]] 0 <= k < entries.len() ==> (entries[k] matches DirEntryOutcome::File(path, Err(e)) ==> {
            let p = packages[files_among(entries.subrange(0, k))];
            &&& p.data_path@ == path@
            &&& (p.data_status matches DataStatus::ERROR(m) && m@ == e.spec_message())
            &&& p.data_struct.values@.len() == 0
        }),
{
    lemma_packages_of_len(entries);
    let views = packages.map_values(|p: DataStructPackage| package_view(p));
    assert(views.len() == packages.len());
    assert forall|k: int| #![trigger entries[k]] 0 <= k < entries.len() implies (entries[k] matches DirEntryOutcome::File(path, Ok(values)) ==> {
        let p = packages[files_among(entries.subrange(0, k))];
        &&& p.data_path@ == path@
        &&& p.data_status is SUCCESS
        &&& p.data_struct.lines() == values@.map_values(|v: String| v@)
        &&& p.data_struct.values@.len() == values@.len()
    }) by {
        if entries[k] is File {
            lemma_package_of_entry(entries, k);
            let j = files_among(entries.subrange(0, k));
            lemma_packages_of_len(entries.subrange(0, k));
            assert(views[j] == package_view(packages[j]));
            assert(packages[j].data_struct.lines().len() == packages[j].data_struct.values@.len());
        }
    }
    assert forall|k: int| #![trigger entries[k]] 0 <= k < entries.len() implies (entries[k] matches DirEntryOutcome::File(path, Err(e)) ==> {
        let p = packages[files_among(entries.subrange(0, k))];
        &&& p.data_path@ == path@
        &&& (p.data_status matches DataStatus::ERROR(m) && m@ == e.spec_message())
        &&& p.data_struct.values@.len() == 0
    }) by {
        if entries[k] is File {
            lemma_package_of_entry(entries, k);
            let j = files_among(entries.subrange(0, k));
            lemma_packages_of_len(entries.subrange(0, k));
            assert(views[j] == package_view(packages[j]));
            assert(packages[j].data_struct.lines().len() == packages[j].data_struct.values@.len());
        }
    }
}

/// The files of directory `directory_path`, from what came of each of its
/// entries; see `packages_of`.
pub fn collect_directory(directory_path: String, entries: Vec<DirEntryOutcome>) -> (r: DataStructVec)
    ensures
        r.directory_path == directory_path,
        r.data_structs@.map_values(|p: DataStructPackage| package_view(p)) == packages_of(entries@),
{
    let ghost all = entries@;
    let mut data_structs_vec: Vec<DataStructPackage> = Vec::new();
    let mut rest = entries;
    let mut remaining: Vec<DirEntryOutcome> = Vec::new();
    // Take the entries out in order, last first, to own each of them.
    while rest.len() > 0
        invariant
            rest@ == all.subrange(0, rest@.len() as int),
            remaining@.len() == all.len() - rest@.len(),
            forall|k: int| 0 <= k < remaining@.len() ==> #[trigger] remaining@[k] == all[all.len() - 1 - k],
        decreases rest@.len(),
    {
        let ghost before = rest@;
        let e = rest.pop().unwrap();
        assert(e == all[before.len() - 1]);
        remaining.push(e);
        assert(rest@ =~= all.subrange(0, rest@.len() as int));
    }
    let ghost mut seen: int = 0;
    while remaining.len() > 0
        invariant
            0 <= seen <= all.len(),
            remaining@.len() == all.len() - seen,
            forall|k: int| 0 <= k < remaining@.len() ==> #[trigger] remaining@[k] == all[all.len() - 1 - k],
            data_structs_vec@.map_values(|p: DataStructPackage| package_view(p)) == packages_of(all.subrange(0, seen)),
        decreases remaining@.len(),
    {
        let e = remaining.pop().unwrap();
        let ghost taken = all.subrange(0, seen + 1);
        proof {
            assert(e == all[seen]);
            assert(taken.drop_last() =~= all.subrange(0, seen));
            assert(taken.last() == e);
        }
        let ghost prev = data_structs_vec@;
        match e {
            DirEntryOutcome::File(path, Ok(values)) => {
                data_structs_vec.push(success_package(path, values));
                proof {
                    assert(data_structs_vec@.map_values(|p: DataStructPackage| package_view(p))
                        =~= prev.map_values(|p: DataStructPackage| package_view(p)).push(package_view(data_structs_vec@[prev.len() as int])));
                }
            },
            DirEntryOutcome::File(path, Err(err)) => {
                data_structs_vec.push(error_package(path, &err));
                proof {
                    assert(data_structs_vec@[prev.len() as int].data_struct.lines() =~= Seq::<Seq<char>>::empty());
                    assert(data_structs_vec@.map_values(|p: DataStructPackage| package_view(p))
                        =~= prev.map_values(|p: DataStructPackage| package_view(p)).push(package_view(data_structs_vec@[prev.len() as int])));
                }
            },
            _ => {},
        }
        proof {
            seen = seen + 1;
        }
    }
    proof {
        assert(all.subrange(0, seen) =~= all);
    }
    DataStructVec { directory_path, data_structs: data_structs_vec }
}

/// Whether a path names a readable directory, from whether it exists and
/// whether it is a directory.
pub fn check_path_valid(exists: bool, is_dir: bool) -> (r: Result<(), PathReadError>)
    ensures
        !exists ==> r matches Err(PathReadError::NotFound),
        exists && !is_dir ==> r matches Err(PathReadError::NotADirectory),
        exists && is_dir ==> r is Ok,
{
    if !exists {
        return Err(PathReadError::NotFound);
    }
    if !is_dir {
        return Err(PathReadError::NotADirectory);
    }
    Ok(())
}

/// What a path names.
#[derive(Clone, Copy, PartialEq, Eq, Debug, Structural)]
pub enum PathType {
    File,
    Directory,
    Unsupported,
}

/// What a path names, from whether it is a directory and whether it is a
/// file: a directory first, then a file, else something not supported.
pub fn check_path_type(is_dir: bool, is_file: bool) -> (r: PathType)
    ensures
        is_dir ==> r == PathType::Directory,
        !is_dir && is_file ==> r == PathType::File,
        !is_dir && !is_file ==> r == PathType::Unsupported,
{
    if is_dir {
        return PathType::Directory;
    } else if is_file {
        return PathType::File;
    }
    PathType::Unsupported
}

} // verus!
