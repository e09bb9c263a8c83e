//! The request language that clients speak to the proxy and the proxy
//! speaks to the file server: one line of space-separated words, the
//! first an opcode matched without regard to ASCII case.
//!
//! Both ends read it the same way but for the data of a `WRITE`; the
//! shared reading is `classify`, which says which request the words make,
//! which error they give, or that the reading stops (an argument that
//! the reader indexes is missing, or `LSEEK`'s whence is no integer).
use vstd::prelude::*;
use crate::text::{split_words, spans_match, upper, upper_equals, spec_parse_i32, spec_parse_i64, spec_parse_usize, lemma_split_words_nonempty, parse_i32, parse_i64, parse_usize};

verus! {

/// Why a line is not a request.
#[derive(Debug, Clone, Copy, PartialEq, Eq, Structural)]
pub enum RequestError {
    /// Fewer than two words: "Insufficient arguments".
    InsufficientArguments,
    /// `OPEN` flags that are no `i32`: "Invalid flag value".
    InvalidFlagValue,
    /// `CLOSE` or `READ` descriptor that is no `i32`: "invalid file descriptor".
    InvalidFileDescriptor,
    /// `WRITE`, `LSEEK` or `GETDIRENTRIES` argument that is no number of
    /// its type: "Invalid file descriptor".
    InvalidNumber,
    /// `READ` count that is no `usize`: "invalid count".
    InvalidCount,
    /// `LSEEK` with fewer than three words, `GETDIRENTRIES` with fewer
    /// than four: "Not enough arguments".
    NotEnoughArguments,
    /// `STAT` version that is no `i32`: "Version not found".
    VersionNotFound,
}

/// A request as a value: paths as chars, data as bytes.
pub enum Command {
    Open { path: Seq<char>, flags: i32 },
    Close { fd: i32 },
    Read { fd: i32, count: usize },
    Write { fd: i32, data: Seq<u8> },
    Lseek { fd: i32, offset: i64, whence: i32 },
    Stat { ver: i32, path: Seq<char> },
    Unlink { path: Seq<char> },
    GetDirentries { fd: i32, nbytes: usize, basep: i64 },
    GetDirtree { path: Seq<char> },
    Default,
    Shutdown,
}

/// Which request the words make; paths are given by the index of their word.
#[derive(Clone, Copy)]
pub enum Shape {
    Open { path: usize, flags: i32 },
    Close { fd: i32 },
    Read { fd: i32, count: usize },
    Write { fd: i32 },
    Lseek { fd: i32, offset: i64, whence: i32 },
    Stat { ver: i32, path: usize },
    Unlink { path: usize },
    GetDirentries { fd: i32, nbytes: usize, basep: i64 },
    GetDirtree { path: usize },
    Default,
}

/// The reading of a line: a request, an error, or a stop.
#[derive(Clone, Copy)]
pub enum Reading {
    Parsed(Shape),
    Failed(RequestError),
    Stops,
}

pub open spec fn kw_open() -> Seq<char> { seq!['O', 'P', 'E', 'N'] }
pub open spec fn kw_close() -> Seq<char> { seq!['C', 'L', 'O', 'S', 'E'] }
pub open spec fn kw_read() -> Seq<char> { seq!['R', 'E', 'A', 'D'] }
pub open spec fn kw_write() -> Seq<char> { seq!['W', 'R', 'I', 'T', 'E'] }
pub open spec fn kw_lseek() -> Seq<char> { seq!['L', 'S', 'E', 'E', 'K'] }
pub open spec fn kw_stat() -> Seq<char> { seq!['S', 'T', 'A', 'T'] }
pub open spec fn kw_unlink() -> Seq<char> { seq!['U', 'N', 'L', 'I', 'N', 'K'] }
pub open spec fn kw_getdirentries() -> Seq<char> {
    seq!['G', 'E', 'T', 'D', 'I', 'R', 'E', 'N', 'T', 'R', 'I', 'E', 'S']
}
pub open spec fn kw_getdirtree() -> Seq<char> {
    seq!['G', 'E', 'T', 'D', 'I', 'R', 'T', 'R', 'E', 'E']
}

/// How a line reads. `data_from_third` is the proxy's `WRITE`, which
/// indexes the third word unconditionally; the server's does not.
pub open spec fn spec_classify(s: Seq<char>, data_from_third: bool) -> Reading {
    let ws = split_words(s);
    let n = ws.len();
    let op = upper(ws[0]);
    if n <= 1 {
        Reading::Failed(RequestError::InsufficientArguments)
    } else if op == kw_open() {
        if n == 2 {
            Reading::Stops
        } else {
            match spec_parse_i32(ws[2]) {
                Some(flags) => Reading::Parsed(Shape::Open { path: 1, flags }),
                None => Reading::Failed(RequestError::InvalidFlagValue),
            }
        }
    } else if op == kw_close() {
        match spec_parse_i32(ws[1]) {
            Some(fd) => Reading::Parsed(Shape::Close { fd }),
            None => Reading::Failed(RequestError::InvalidFileDescriptor),
        }
    } else if op == kw_read() {
        match spec_parse_i32(ws[1]) {
            None => Reading::Failed(RequestError::InvalidFileDescriptor),
            Some(fd) => if n == 2 {
                Reading::Stops
            } else {
                match spec_parse_usize(ws[2]) {
                    Some(count) => Reading::Parsed(Shape::Read { fd, count }),
                    None => Reading::Failed(RequestError::InvalidCount),
                }
            },
        }
    } else if op == kw_write() {
        match spec_parse_i32(ws[1]) {
            None => Reading::Failed(RequestError::InvalidNumber),
            Some(fd) => if data_from_third && n == 2 {
                Reading::Stops
            } else {
                Reading::Parsed(Shape::Write { fd })
            },
        }
    } else if op == kw_lseek() {
        if n < 3 {
            Reading::Failed(RequestError::NotEnoughArguments)
        } else {
            match (spec_parse_i32(ws[1]), spec_parse_i64(ws[2])) {
                (None, _) => Reading::Failed(RequestError::InvalidNumber),
                (Some(_), None) => Reading::Failed(RequestError::InvalidNumber),
                (Some(fd), Some(offset)) => if n == 3 {
                    Reading::Stops
                } else {
                    match spec_parse_i32(ws[3]) {
                        Some(whence) => Reading::Parsed(Shape::Lseek { fd, offset, whence }),
                        None => Reading::Stops,
                    }
                },
            }
        }
    } else if op == kw_stat() {
        match spec_parse_i32(ws[1]) {
            None => Reading::Failed(RequestError::VersionNotFound),
            Some(ver) => if n == 2 {
                Reading::Stops
            } else {
                Reading::Parsed(Shape::Stat { ver, path: 2 })
            },
        }
    } else if op == kw_unlink() {
        Reading::Parsed(Shape::Unlink { path: 1 })
    } else if op == kw_getdirentries() {
        if n < 4 {
            Reading::Failed(RequestError::NotEnoughArguments)
        } else {
            match (spec_parse_i32(ws[1]), spec_parse_usize(ws[2]), spec_parse_i64(ws[3])) {
                (Some(fd), Some(nbytes), Some(basep)) => Reading::Parsed(
                    Shape::GetDirentries { fd, nbytes, basep },
                ),
                _ => Reading::Failed(RequestError::InvalidNumber),
            }
        }
    } else if op == kw_getdirtree() {
        Reading::Parsed(Shape::GetDirtree { path: 1 })
    } else {
        Reading::Parsed(Shape::Default)
    }
}

/// The request that the words `ws` make in `shape`, with `data` for a `WRITE`.
pub open spec fn command_of(ws: Seq<Seq<char>>, shape: Shape, data: Seq<u8>) -> Command {
    match shape {
        Shape::Open { path, flags } => Command::Open { path: ws[path as int], flags },
        Shape::Close { fd } => Command::Close { fd },
        Shape::Read { fd, count } => Command::Read { fd, count },
        Shape::Write { fd } => Command::Write { fd, data },
        Shape::Lseek { fd, offset, whence } => Command::Lseek { fd, offset, whence },
        Shape::Stat { ver, path } => Command::Stat { ver, path: ws[path as int] },
        Shape::Unlink { path } => Command::Unlink { path: ws[path as int] },
        Shape::GetDirentries { fd, nbytes, basep } => Command::GetDirentries { fd, nbytes, basep },
        Shape::GetDirtree { path } => Command::GetDirtree { path: ws[path as int] },
        Shape::Default => Command::Default,
    }
}

/// The word a path index of a parsed shape names: always one of the words.
pub open spec fn shape_paths_in(shape: Shape, n: int) -> bool {
    match shape {
        Shape::Open { path, .. } => path < n,
        Shape::Stat { path, .. } => path < n,
        Shape::Unlink { path } => path < n,
        Shape::GetDirtree { path } => path < n,
        _ => true,
    }
}

pub proof fn lemma_classify_paths(s: Seq<char>, data_from_third: bool)
    ensures
        spec_classify(s, data_from_third) matches Reading::Parsed(shape) ==> shape_paths_in(
            shape,
            split_words(s).len() as int,
        ),
        spec_classify(s, data_from_third) matches Reading::Parsed(Shape::Write { .. }) ==> split_words(s).len() >= 2,
        data_from_third ==> (spec_classify(s, data_from_third) matches Reading::Parsed(Shape::Write { .. }) ==> split_words(s).len() >= 3),
{
}

/// The two readings differ only on a `WRITE`.
pub proof fn lemma_classify_flag(s: Seq<char>)
    ensures
        spec_classify(s, false) == spec_classify(s, true) || spec_classify(s, false) matches Reading::Parsed(
            Shape::Write { .. },
        ),
{
}

/// How the line `chars`, split into `spans`, reads.
pub fn classify(chars: &Vec<char>, spans: &Vec<(usize, usize)>, data_from_third: bool) -> (r: Reading)
    requires
        spans_match(chars@, spans@),
    ensures
        r == spec_classify(chars@, data_from_third),
{
    let ghost s = chars@;
    let ghost ws = split_words(s);
    let n = spans.len();
    proof {
        lemma_split_words_nonempty(s);
    }
    if n <= 1 {
        return Reading::Failed(RequestError::InsufficientArguments);
    }
    let (a0, b0) = spans[0];
    let (a1, b1) = spans[1];
    assert(s.subrange(a1 as int, b1 as int) == ws[1]);
    assert(s.subrange(a0 as int, b0 as int) == ws[0]);
    if upper_equals(chars, a0, b0, &vec!['O', 'P', 'E', 'N']) {
        if n == 2 {
            return Reading::Stops;
        }
        let (a2, b2) = spans[2];
        assert(s.subrange(a2 as int, b2 as int) == ws[2]);
        match parse_i32(chars, a2, b2) {
            Some(flags) => Reading::Parsed(Shape::Open { path: 1, flags }),
            None => Reading::Failed(RequestError::InvalidFlagValue),
        }
    } else if upper_equals(chars, a0, b0, &vec!['C', 'L', 'O', 'S', 'E']) {
        match parse_i32(chars, a1, b1) {
            Some(fd) => Reading::Parsed(Shape::Close { fd }),
            None => Reading::Failed(RequestError::InvalidFileDescriptor),
        }
    } else if upper_equals(chars, a0, b0, &vec!['R', 'E', 'A', 'D']) {
        match parse_i32(chars, a1, b1) {
            None => Reading::Failed(RequestError::InvalidFileDescriptor),
            Some(fd) => {
                if n == 2 {
                    return Reading::Stops;
                }
                let (a2, b2) = spans[2];
                assert(s.subrange(a2 as int, b2 as int) == ws[2]);
                match parse_usize(chars, a2, b2) {
                    Some(count) => Reading::Parsed(Shape::Read { fd, count }),
                    None => Reading::Failed(RequestError::InvalidCount),
                }
            },
        }
    } else if upper_equals(chars, a0, b0, &vec!['W', 'R', 'I', 'T', 'E']) {
        match parse_i32(chars, a1, b1) {
            None => Reading::Failed(RequestError::InvalidNumber),
            Some(fd) => {
                if data_from_third && n == 2 {
                    Reading::Stops
                } else {
                    Reading::Parsed(Shape::Write { fd })
                }
            },
        }
    } else if upper_equals(chars, a0, b0, &vec!['L', 'S', 'E', 'E', 'K']) {
        if n < 3 {
            return Reading::Failed(RequestError::NotEnoughArguments);
        }
        let (a2, b2) = spans[2];
        assert(s.subrange(a2 as int, b2 as int) == ws[2]);
        let fd = match parse_i32(chars, a1, b1) {
            Some(fd) => fd,
            None => return Reading::Failed(RequestError::InvalidNumber),
        };
        let offset = match parse_i64(chars, a2, b2) {
            Some(offset) => offset,
            None => return Reading::Failed(RequestError::InvalidNumber),
        };
        if n == 3 {
            return Reading::Stops;
        }
        let (a3, b3) = spans[3];
        assert(s.subrange(a3 as int, b3 as int) == ws[3]);
        match parse_i32(chars, a3, b3) {
            Some(whence) => Reading::Parsed(Shape::Lseek { fd, offset, whence }),
            None => Reading::Stops,
        }
    } else if upper_equals(chars, a0, b0, &vec!['S', 'T', 'A', 'T']) {
        match parse_i32(chars, a1, b1) {
            None => Reading::Failed(RequestError::VersionNotFound),
            Some(ver) => {
                if n == 2 {
                    Reading::Stops
                } else {
                    Reading::Parsed(Shape::Stat { ver, path: 2 })
                }
            },
        }
    } else if upper_equals(chars, a0, b0, &vec!['U', 'N', 'L', 'I', 'N', 'K']) {
        Reading::Parsed(Shape::Unlink { path: 1 })
    } else if upper_equals(
        chars,
        a0,
        b0,
        &vec!['G', 'E', 'T', 'D', 'I', 'R', 'E', 'N', 'T', 'R', 'I', 'E', 'S'],
    ) {
        if n < 4 {
            return Reading::Failed(RequestError::NotEnoughArguments);
        }
        let (a2, b2) = spans[2];
        let (a3, b3) = spans[3];
        assert(s.subrange(a2 as int, b2 as int) == ws[2]);
        assert(s.subrange(a3 as int, b3 as int) == ws[3]);
        let fd = parse_i32(chars, a1, b1);
        let nbytes = parse_usize(chars, a2, b2);
        let basep = parse_i64(chars, a3, b3);
        match (fd, nbytes, basep) {
            (Some(fd), Some(nbytes), Some(basep)) => Reading::Parsed(
                Shape::GetDirentries { fd, nbytes, basep },
            ),
            _ => Reading::Failed(RequestError::InvalidNumber),
        }
    } else if upper_equals(chars, a0, b0, &vec!['G', 'E', 'T', 'D', 'I', 'R', 'T', 'R', 'E', 'E']) {
        Reading::Parsed(Shape::GetDirtree { path: 1 })
    } else {
        Reading::Parsed(Shape::Default)
    }
}

} // verus!
