//! Requests as the proxy reads them from a client and writes them to the
//! file server.
use vstd::prelude::*;
use vstd::utf8::*;
use vstd::string::StrSliceExecFns;
use crate::text::{
    split_words, spans_match, split_spans, chars_of, chars_to_string, utf8_to_string, push_int,
    int_text, lemma_split_words_nonempty, no_space, lemma_split_single, lemma_split_concat,
    lemma_int_text_plain, lemma_encode_concat, lemma_int_text_roundtrip, upper, spec_parse_i32,
    spec_parse_i64, spec_parse_usize,
};
use crate::command::{Command, RequestError, Reading, Shape, spec_classify, classify, command_of,
    lemma_classify_paths, kw_open, kw_close, kw_read, kw_write, kw_lseek, kw_stat, kw_unlink,
    kw_getdirentries, kw_getdirtree};

verus! {

/// A request that borrows its paths from the line it was read from.
#[derive(Debug, PartialEq, Eq)]
pub enum Request<'a> {
    Open { path: &'a str, flags: i32 },
    Close { fd: i32 },
    Read { fd: i32, count: usize },
    Write { fd: i32, data: Vec<u8> },
    Lseek { fd: i32, offset: i64, whence: i32 },
    Stat { ver: i32, path: &'a str },
    Unlink { path: &'a str },
    GetDirentries { fd: i32, nbytes: usize, basep: i64 },
    GetDirtree { path: &'a str },
    Default,
}

impl<'a> View for Request<'a> {
    type V = Command;

    open spec fn view(&self) -> Command {
        match self {
            Request::Open { path, flags } => Command::Open { path: path@, flags: *flags },
            Request::Close { fd } => Command::Close { fd: *fd },
            Request::Read { fd, count } => Command::Read { fd: *fd, count: *count },
            Request::Write { fd, data } => Command::Write { fd: *fd, data: data@ },
            Request::Lseek { fd, offset, whence } => Command::Lseek {
                fd: *fd,
                offset: *offset,
                whence: *whence,
            },
            Request::Stat { ver, path } => Command::Stat { ver: *ver, path: path@ },
            Request::Unlink { path } => Command::Unlink { path: path@ },
            Request::GetDirentries { fd, nbytes, basep } => Command::GetDirentries {
                fd: *fd,
                nbytes: *nbytes,
                basep: *basep,
            },
            Request::GetDirtree { path } => Command::GetDirtree { path: path@ },
            Request::Default => Command::Default,
        }
    }
}

/// The data of the proxy's `WRITE`: the UTF-8 bytes of the words, each
/// after the first preceded by a space.
pub open spec fn joined_bytes(ws: Seq<Seq<char>>) -> Seq<u8>
    decreases ws.len(),
{
    if ws.len() == 0 {
        Seq::<u8>::empty()
    } else if ws.len() == 1 {
        encode_utf8(ws[0])
    } else {
        joined_bytes(ws.drop_last()) + seq![32u8] + encode_utf8(ws.last())
    }
}

/// What the proxy reads from the line `s`.
pub open spec fn spec_request(s: Seq<char>) -> Result<Command, RequestError> {
    let ws = split_words(s);
    match spec_classify(s, true) {
        Reading::Parsed(shape) => Ok(command_of(ws, shape, joined_bytes(ws.subrange(2, ws.len() as int)))),
        Reading::Failed(e) => Err(e),
        Reading::Stops => Err(RequestError::InsufficientArguments),
    }
}

/// Whether reading `s` stops short (a missing word is indexed, or the
/// `LSEEK` whence is no `i32`): the reader panics on such a line.
pub open spec fn spec_request_stops(s: Seq<char>) -> bool {
    spec_classify(s, true) is Stops
}

/// The line that `Display` writes for a request, before its line ends.
pub open spec fn command_text(c: Command) -> Seq<char> {
    match c {
        Command::Open { path, flags } => seq!['O', 'P', 'E', 'N', ' '] + path + seq![' '] + int_text(
            flags as int,
        ),
        Command::Close { fd } => seq!['C', 'L', 'O', 'S', 'E', ' '] + int_text(fd as int),
        Command::Read { fd, count } => seq!['R', 'E', 'A', 'D', ' '] + int_text(fd as int) + seq![' ']
            + int_text(count as int),
        Command::Write { fd, data } => seq!['W', 'R', 'I', 'T', 'E', ' '] + int_text(fd as int)
            + seq![' '] + decode_utf8(data),
        Command::Lseek { fd, offset, whence } => seq!['L', 'S', 'E', 'E', 'K', ' '] + int_text(
            fd as int,
        ) + seq![' '] + int_text(offset as int) + seq![' '] + int_text(whence as int),
        Command::Stat { ver, path } => seq!['S', 'T', 'A', 'T', ' '] + int_text(ver as int) + seq![' ']
            + path,
        Command::Unlink { path } => seq!['U', 'N', 'L', 'I', 'N', 'K', ' '] + path,
        Command::GetDirentries { fd, nbytes, basep } => seq![
            'G',
            'E',
            'T',
            'D',
            'I',
            'R',
            'E',
            'N',
            'T',
            'R',
            'I',
            'E',
            'S',
            ' ',
        ] + int_text(fd as int) + seq![' '] + int_text(nbytes as int) + seq![' '] + int_text(
            basep as int,
        ),
        Command::GetDirtree { path } => seq!['G', 'E', 'T', 'D', 'I', 'R', 'T', 'R', 'E', 'E', ' ']
            + path,
        Command::Default => seq!['d', 'e', 'f', 'a', 'u', 'l', 't'],
        Command::Shutdown => seq!['s', 'h', 'u', 't', 'd', 'o', 'w', 'n'],
    }
}

/// The text that goes to the server: the command line, then two line ends.
pub open spec fn wire_text(c: Command) -> Seq<char> {
    command_text(c) + seq!['\n', '\n']
}

/// The requests whose command line reads back as themselves: all but
/// `Default` and `Shutdown`, with paths free of spaces and `WRITE` data
/// in UTF-8.
pub open spec fn textual(c: Command) -> bool {
    match c {
        Command::Open { path, .. } => no_space(path),
        Command::Stat { path, .. } => no_space(path),
        Command::Unlink { path } => no_space(path),
        Command::GetDirtree { path } => no_space(path),
        Command::Write { data, .. } => valid_utf8(data),
        Command::Default => false,
        Command::Shutdown => false,
        _ => true,
    }
}

/// The words of a space-joined line of space-free words are those words.
proof fn lemma_words(kw: Seq<char>, rest: Seq<Seq<char>>)
    requires
        no_space(kw),
        forall|k: int| 0 <= k < rest.len() ==> no_space(#[trigger] rest[k]),
    ensures
        split_words(spaced(kw, rest)) == seq![kw] + rest,
    decreases rest.len(),
{
    if rest.len() == 0 {
        lemma_split_single(kw);
        assert(seq![kw] + rest =~= seq![kw]);
    } else {
        let r0 = rest.drop_last();
        lemma_words(kw, r0);
        lemma_split_concat(spaced(kw, r0), rest.last());
        lemma_split_single(rest.last());
        assert(seq![kw] + rest =~= seq![kw] + r0 + seq![rest.last()]);
    }
}

/// `kw` then each word of `rest`, each preceded by a space.
pub open spec fn spaced(kw: Seq<char>, rest: Seq<Seq<char>>) -> Seq<char>
    decreases rest.len(),
{
    if rest.len() == 0 {
        kw
    } else {
        spaced(kw, rest.drop_last()) + seq![' '] + rest.last()
    }
}

/// Joining the words of a line with spaces gives back its UTF-8.
pub proof fn lemma_joined_split(t: Seq<char>)
    ensures
        joined_bytes(split_words(t)) == encode_utf8(t),
    decreases t.len(),
{
    if t.len() == 0 {
        assert(split_words(t) =~= seq![Seq::<char>::empty()]);
    } else {
        let t0 = t.drop_last();
        let c = t.last();
        lemma_joined_split(t0);
        lemma_split_words_nonempty(t0);
        assert(t =~= t0 + seq![c]);
        lemma_encode_concat(t0, seq![c]);
        let prev = split_words(t0);
        if c == ' ' {
            vstd::utf8::is_ascii_chars_encode_utf8(seq![c]);
            assert(encode_utf8(seq![c]) =~= seq![32u8]);
            let next = prev.push(Seq::<char>::empty());
            assert(next.drop_last() =~= prev);
            assert(encode_utf8(Seq::<char>::empty()) =~= Seq::<u8>::empty());
            assert(joined_bytes(next) =~= encode_utf8(t));
        } else {
            let last = prev.last();
            let next = prev.update(prev.len() - 1, last.push(c));
            assert(last.push(c) =~= last + seq![c]);
            lemma_encode_concat(last, seq![c]);
            if prev.len() == 1 {
                assert(joined_bytes(next) =~= encode_utf8(t));
            } else {
                assert(next.drop_last() =~= prev.drop_last());
                assert(joined_bytes(next) =~= encode_utf8(t));
            }
        }
    }
}

proof fn lemma_spaced_expand(kw: Seq<char>, a: Seq<char>, b: Seq<char>, c: Seq<char>)
    ensures
        spaced(kw, seq![a]) == kw + seq![' '] + a,
        spaced(kw, seq![a, b]) == kw + seq![' '] + a + seq![' '] + b,
        spaced(kw, seq![a, b, c]) == kw + seq![' '] + a + seq![' '] + b + seq![' '] + c,
{
    assert(seq![a].drop_last() =~= Seq::<Seq<char>>::empty());
    assert(seq![a, b].drop_last() =~= seq![a]);
    assert(seq![a, b, c].drop_last() =~= seq![a, b]);
    assert(spaced(kw, Seq::<Seq<char>>::empty()) == kw);
    assert(spaced(kw, seq![a]) == kw + seq![' '] + a);
    assert(spaced(kw, seq![a, b]) == spaced(kw, seq![a]) + seq![' '] + b);
    assert(spaced(kw, seq![a, b, c]) == spaced(kw, seq![a, b]) + seq![' '] + c);
}

proof fn lemma_numbers(a: i32, b: i64, c: usize)
    ensures
        spec_parse_i32(int_text(a as int)) == Some(a),
        spec_parse_i64(int_text(b as int)) == Some(b),
        spec_parse_usize(int_text(c as int)) == Some(c),
        no_space(int_text(a as int)),
        no_space(int_text(b as int)),
        no_space(int_text(c as int)),
{
    lemma_int_text_roundtrip(a as int);
    lemma_int_text_roundtrip(b as int);
    lemma_int_text_roundtrip(c as int);
    lemma_int_text_plain(a as int);
    lemma_int_text_plain(b as int);
    lemma_int_text_plain(c as int);
}

proof fn lemma_keywords()
    ensures
        upper(kw_open()) == kw_open(),
        upper(kw_close()) == kw_close(),
        upper(kw_read()) == kw_read(),
        upper(kw_write()) == kw_write(),
        upper(kw_lseek()) == kw_lseek(),
        upper(kw_stat()) == kw_stat(),
        upper(kw_unlink()) == kw_unlink(),
        upper(kw_getdirentries()) == kw_getdirentries(),
        upper(kw_getdirtree()) == kw_getdirtree(),
        kw_close() != kw_open(),
        kw_read() != kw_open(),
        kw_read() != kw_close(),
        kw_write() != kw_open(),
        kw_write() != kw_close(),
        kw_write() != kw_read(),
        kw_lseek() != kw_open(),
        kw_lseek() != kw_close(),
        kw_lseek() != kw_read(),
        kw_lseek() != kw_write(),
        kw_stat() != kw_open(),
        kw_stat() != kw_close(),
        kw_stat() != kw_read(),
        kw_stat() != kw_write(),
        kw_stat() != kw_lseek(),
        kw_unlink() != kw_open(),
        kw_unlink() != kw_close(),
        kw_unlink() != kw_read(),
        kw_unlink() != kw_write(),
        kw_unlink() != kw_lseek(),
        kw_unlink() != kw_stat(),
        kw_getdirentries() != kw_open(),
        kw_getdirentries() != kw_close(),
        kw_getdirentries() != kw_read(),
        kw_getdirentries() != kw_write(),
        kw_getdirentries() != kw_lseek(),
        kw_getdirentries() != kw_stat(),
        kw_getdirentries() != kw_unlink(),
        kw_getdirtree() != kw_open(),
        kw_getdirtree() != kw_close(),
        kw_getdirtree() != kw_read(),
        kw_getdirtree() != kw_write(),
        kw_getdirtree() != kw_lseek(),
        kw_getdirtree() != kw_stat(),
        kw_getdirtree() != kw_unlink(),
        kw_getdirtree() != kw_getdirentries(),
{
    assert(upper(kw_open()) =~= kw_open());
    assert(upper(kw_close()) =~= kw_close());
    assert(upper(kw_read()) =~= kw_read());
    assert(upper(kw_write()) =~= kw_write());
    assert(upper(kw_lseek()) =~= kw_lseek());
    assert(upper(kw_stat()) =~= kw_stat());
    assert(upper(kw_unlink()) =~= kw_unlink());
    assert(upper(kw_getdirentries()) =~= kw_getdirentries());
    assert(upper(kw_getdirtree()) =~= kw_getdirtree());
    assert(kw_read()[0] != kw_open()[0]);
    assert(kw_write()[0] != kw_close()[0]);
    assert(kw_lseek()[0] != kw_close()[0]);
    assert(kw_lseek()[0] != kw_write()[0]);
    assert(kw_stat()[0] != kw_open()[0]);
    assert(kw_stat()[0] != kw_read()[0]);
    assert(kw_getdirtree().len() != kw_getdirentries().len());
}

/// The words of a command line of up to three space-free arguments.
proof fn lemma_line_words(kw: Seq<char>, rest: Seq<Seq<char>>)
    requires
        no_space(kw),
        1 <= rest.len() <= 3,
        forall|k: int| 0 <= k < rest.len() ==> no_space(#[trigger] rest[k]),
    ensures
        split_words(spaced(kw, rest)) == seq![kw] + rest,
        rest.len() == 1 ==> spaced(kw, rest) == kw + seq![' '] + rest[0],
        rest.len() == 2 ==> spaced(kw, rest) == kw + seq![' '] + rest[0] + seq![' '] + rest[1],
        rest.len() == 3 ==> spaced(kw, rest) == kw + seq![' '] + rest[0] + seq![' '] + rest[1] + seq![' '] + rest[2],
{
    lemma_words(kw, rest);
    if rest.len() == 1 {
        assert(rest =~= seq![rest[0]]);
        lemma_spaced_expand(kw, rest[0], rest[0], rest[0]);
    } else if rest.len() == 2 {
        assert(rest =~= seq![rest[0], rest[1]]);
        lemma_spaced_expand(kw, rest[0], rest[1], rest[0]);
    } else {
        assert(rest =~= seq![rest[0], rest[1], rest[2]]);
        lemma_spaced_expand(kw, rest[0], rest[1], rest[2]);
    }
}

proof fn lemma_kw_no_space()
    ensures
        no_space(kw_open()),
        no_space(kw_close()),
        no_space(kw_read()),
        no_space(kw_write()),
        no_space(kw_lseek()),
        no_space(kw_stat()),
        no_space(kw_unlink()),
        no_space(kw_getdirentries()),
        no_space(kw_getdirtree()),
{
}

proof fn lemma_roundtrip_open(path: Seq<char>, flags: i32)
    requires
        no_space(path),
    ensures
        spec_request(command_text(Command::Open { path, flags })) == Ok::<Command, RequestError>(
            Command::Open { path, flags },
        ),
{
    lemma_keywords();
    lemma_kw_no_space();
    lemma_numbers(flags, 0, 0);
    let rest = seq![path, int_text(flags as int)];
    lemma_line_words(kw_open(), rest);
    let t = command_text(Command::Open { path, flags });
    assert(t =~= spaced(kw_open(), rest));
}

proof fn lemma_roundtrip_close(fd: i32)
    ensures
        spec_request(command_text(Command::Close { fd })) == Ok::<Command, RequestError>(Command::Close { fd }),
{
    lemma_keywords();
    lemma_kw_no_space();
    lemma_numbers(fd, 0, 0);
    let rest = seq![int_text(fd as int)];
    lemma_line_words(kw_close(), rest);
    assert(command_text(Command::Close { fd }) =~= spaced(kw_close(), rest));
}

proof fn lemma_roundtrip_read(fd: i32, count: usize)
    ensures
        spec_request(command_text(Command::Read { fd, count })) == Ok::<Command, RequestError>(
            Command::Read { fd, count },
        ),
{
    lemma_keywords();
    lemma_kw_no_space();
    lemma_numbers(fd, 0, count);
    let rest = seq![int_text(fd as int), int_text(count as int)];
    lemma_line_words(kw_read(), rest);
    assert(command_text(Command::Read { fd, count }) =~= spaced(kw_read(), rest));
}

proof fn lemma_classify_write(t: Seq<char>, fd: i32)
    requires
        split_words(t).len() >= 3,
        upper(split_words(t)[0]) == kw_write(),
        kw_write() != kw_open(),
        kw_write() != kw_close(),
        kw_write() != kw_read(),
        spec_parse_i32(split_words(t)[1]) == Some(fd),
    ensures
        spec_classify(t, true) == Reading::Parsed(Shape::Write { fd }),
{
}

proof fn lemma_roundtrip_write(fd: i32, data: Seq<u8>)
    requires
        valid_utf8(data),
    ensures
        spec_request(command_text(Command::Write { fd, data })) == Ok::<Command, RequestError>(
            Command::Write { fd, data },
        ),
{
    let t = command_text(Command::Write { fd, data });
    let text = decode_utf8(data);
    let head = kw_write() + seq![' '] + int_text(fd as int);
    let ws = split_words(t);
    assert(ws == seq![kw_write(), int_text(fd as int)] + split_words(text)) by {
        lemma_kw_no_space();
        lemma_numbers(fd, 0, 0);
        lemma_line_words(kw_write(), seq![int_text(fd as int)]);
        assert(t =~= head + seq![' '] + text);
        lemma_split_concat(head, text);
        assert(seq![kw_write()] + seq![int_text(fd as int)] =~= seq![kw_write(), int_text(fd as int)]);
    }
    lemma_split_words_nonempty(text);
    assert(ws.subrange(2, ws.len() as int) =~= split_words(text));
    assert(ws[1] == int_text(fd as int));
    assert(spec_parse_i32(ws[1]) == Some(fd)) by {
        lemma_numbers(fd, 0, 0);
    }
    lemma_keywords();
    lemma_classify_write(t, fd);
    lemma_joined_split(text);
    vstd::utf8::decode_utf8_encode_utf8(data);
}

proof fn lemma_classify_lseek(t: Seq<char>, fd: i32, offset: i64, whence: i32)
    requires
        split_words(t).len() == 4,
        upper(split_words(t)[0]) == kw_lseek(),
        kw_lseek() != kw_open(),
        kw_lseek() != kw_close(),
        kw_lseek() != kw_read(),
        kw_lseek() != kw_write(),
        spec_parse_i32(split_words(t)[1]) == Some(fd),
        spec_parse_i64(split_words(t)[2]) == Some(offset),
        spec_parse_i32(split_words(t)[3]) == Some(whence),
    ensures
        spec_classify(t, true) == Reading::Parsed(Shape::Lseek { fd, offset, whence }),
{
}

proof fn lemma_roundtrip_lseek(fd: i32, offset: i64, whence: i32)
    ensures
        spec_request(command_text(Command::Lseek { fd, offset, whence })) == Ok::<Command, RequestError>(
            Command::Lseek { fd, offset, whence },
        ),
{
    let t = command_text(Command::Lseek { fd, offset, whence });
    let rest = seq![int_text(fd as int), int_text(offset as int), int_text(whence as int)];
    let ws = split_words(t);
    assert(ws == seq![kw_lseek()] + rest) by {
        lemma_kw_no_space();
        lemma_numbers(fd, offset, 0);
        lemma_numbers(whence, 0, 0);
        lemma_line_words(kw_lseek(), rest);
        assert(t =~= spaced(kw_lseek(), rest));
    }
    assert(ws.len() == 4 && ws[1] == rest[0] && ws[2] == rest[1] && ws[3] == rest[2]);
    assert(spec_parse_i32(ws[1]) == Some(fd) && spec_parse_i64(ws[2]) == Some(offset)
        && spec_parse_i32(ws[3]) == Some(whence)) by {
        lemma_numbers(fd, offset, 0);
        lemma_numbers(whence, 0, 0);
    }
    lemma_keywords();
    lemma_classify_lseek(t, fd, offset, whence);
}

proof fn lemma_roundtrip_stat(ver: i32, path: Seq<char>)
    requires
        no_space(path),
    ensures
        spec_request(command_text(Command::Stat { ver, path })) == Ok::<Command, RequestError>(
            Command::Stat { ver, path },
        ),
{
    lemma_keywords();
    lemma_kw_no_space();
    lemma_numbers(ver, 0, 0);
    let rest = seq![int_text(ver as int), path];
    lemma_line_words(kw_stat(), rest);
    assert(command_text(Command::Stat { ver, path }) =~= spaced(kw_stat(), rest));
}

proof fn lemma_roundtrip_unlink(path: Seq<char>)
    requires
        no_space(path),
    ensures
        spec_request(command_text(Command::Unlink { path })) == Ok::<Command, RequestError>(
            Command::Unlink { path },
        ),
{
    lemma_keywords();
    lemma_kw_no_space();
    let rest = seq![path];
    lemma_line_words(kw_unlink(), rest);
    assert(command_text(Command::Unlink { path }) =~= spaced(kw_unlink(), rest));
}

proof fn lemma_classify_getdirentries(t: Seq<char>, fd: i32, nbytes: usize, basep: i64)
    requires
        split_words(t).len() == 4,
        upper(split_words(t)[0]) == kw_getdirentries(),
        kw_getdirentries() != kw_open(),
        kw_getdirentries() != kw_close(),
        kw_getdirentries() != kw_read(),
        kw_getdirentries() != kw_write(),
        kw_getdirentries() != kw_lseek(),
        kw_getdirentries() != kw_stat(),
        kw_getdirentries() != kw_unlink(),
        spec_parse_i32(split_words(t)[1]) == Some(fd),
        spec_parse_usize(split_words(t)[2]) == Some(nbytes),
        spec_parse_i64(split_words(t)[3]) == Some(basep),
    ensures
        spec_classify(t, true) == Reading::Parsed(Shape::GetDirentries { fd, nbytes, basep }),
{
}

proof fn lemma_roundtrip_getdirentries(fd: i32, nbytes: usize, basep: i64)
    ensures
        spec_request(command_text(Command::GetDirentries { fd, nbytes, basep })) == Ok::<
            Command,
            RequestError,
        >(Command::GetDirentries { fd, nbytes, basep }),
{
    let t = command_text(Command::GetDirentries { fd, nbytes, basep });
    let rest = seq![int_text(fd as int), int_text(nbytes as int), int_text(basep as int)];
    let ws = split_words(t);
    assert(ws == seq![kw_getdirentries()] + rest) by {
        lemma_kw_no_space();
        lemma_numbers(fd, basep, nbytes);
        lemma_line_words(kw_getdirentries(), rest);
        assert(t =~= spaced(kw_getdirentries(), rest));
    }
    assert(ws.len() == 4 && ws[1] == rest[0] && ws[2] == rest[1] && ws[3] == rest[2]);
    assert(spec_parse_i32(ws[1]) == Some(fd) && spec_parse_usize(ws[2]) == Some(nbytes)
        && spec_parse_i64(ws[3]) == Some(basep)) by {
        lemma_numbers(fd, basep, nbytes);
    }
    lemma_keywords();
    lemma_classify_getdirentries(t, fd, nbytes, basep);
}

proof fn lemma_roundtrip_getdirtree(path: Seq<char>)
    requires
        no_space(path),
    ensures
        spec_request(command_text(Command::GetDirtree { path })) == Ok::<Command, RequestError>(
            Command::GetDirtree { path },
        ),
{
    lemma_keywords();
    lemma_kw_no_space();
    let rest = seq![path];
    lemma_line_words(kw_getdirtree(), rest);
    assert(command_text(Command::GetDirtree { path }) =~= spaced(kw_getdirtree(), rest));
}

/// What the proxy writes for a request reads back as the same request.
pub proof fn lemma_request_text_roundtrip(c: Command)
    requires
        textual(c),
    ensures
        spec_request(command_text(c)) == Ok::<Command, RequestError>(c),
{
    match c {
        Command::Open { path, flags } => lemma_roundtrip_open(path, flags),
        Command::Close { fd } => lemma_roundtrip_close(fd),
        Command::Read { fd, count } => lemma_roundtrip_read(fd, count),
        Command::Write { fd, data } => lemma_roundtrip_write(fd, data),
        Command::Lseek { fd, offset, whence } => lemma_roundtrip_lseek(fd, offset, whence),
        Command::Stat { ver, path } => lemma_roundtrip_stat(ver, path),
        Command::Unlink { path } => lemma_roundtrip_unlink(path),
        Command::GetDirentries { fd, nbytes, basep } => lemma_roundtrip_getdirentries(fd, nbytes, basep),
        Command::GetDirtree { path } => lemma_roundtrip_getdirtree(path),
        _ => {},
    }
}

fn push_all(out: &mut Vec<char>, word: &Vec<char>)
    ensures
        final(out)@ == old(out)@ + word@,
{
    let mut i: usize = 0;
    while i < word.len()
        invariant
            i <= word@.len(),
            out@ == old(out)@ + word@.subrange(0, i as int),
        decreases word@.len() - i,
    {
        out.push(word[i]);
        i = i + 1;
        assert(out@ =~= old(out)@ + word@.subrange(0, i as int));
    }
    assert(word@.subrange(0, i as int) =~= word@);
}

impl<'a> Request<'a> {
    /// Whether reading `raw` as a request stops short; `new` is not
    /// defined on such a line.
    pub fn stops_on(raw: &str) -> (r: bool)
        ensures
            r == spec_request_stops(raw@),
    {
        let chars = chars_of(raw);
        let spans = split_spans(&chars);
        let reading = classify(&chars, &spans, true);
        match reading {
            Reading::Stops => true,
            _ => false,
        }
    }

    /// Reads one request line.
    pub fn new(raw: &'a str) -> (r: Result<Request<'a>, RequestError>)
        requires
            !spec_request_stops(raw@),
        ensures
            match r {
                Ok(req) => spec_request(raw@) == Ok::<Command, RequestError>(req@),
                Err(e) => spec_request(raw@) == Err::<Command, RequestError>(e),
            },
    {
        let chars = chars_of(raw);
        let spans = split_spans(&chars);
        let ghost ws = split_words(raw@);
        proof {
            lemma_classify_paths(raw@, true);
            lemma_split_words_nonempty(raw@);
        }
        let reading = classify(&chars, &spans, true);
        match reading {
            Reading::Failed(e) => Err(e),
            Reading::Stops => Err(RequestError::InsufficientArguments),
            Reading::Parsed(shape) => {
                let req = match shape {
                    Shape::Open { path, flags } => Request::Open {
                        path: Self::word(raw, &spans, path),
                        flags,
                    },
                    Shape::Close { fd } => Request::Close { fd },
                    Shape::Read { fd, count } => Request::Read { fd, count },
                    Shape::Write { fd } => Request::Write { fd, data: Self::write_data(raw, &spans) },
                    Shape::Lseek { fd, offset, whence } => Request::Lseek { fd, offset, whence },
                    Shape::Stat { ver, path } => Request::Stat {
                        ver,
                        path: Self::word(raw, &spans, path),
                    },
                    Shape::Unlink { path } => Request::Unlink { path: Self::word(raw, &spans, path) },
                    Shape::GetDirentries { fd, nbytes, basep } => Request::GetDirentries {
                        fd,
                        nbytes,
                        basep,
                    },
                    Shape::GetDirtree { path } => Request::GetDirtree {
                        path: Self::word(raw, &spans, path),
                    },
                    Shape::Default => Request::Default,
                };
                Ok(req)
            },
        }
    }

    fn word(raw: &'a str, spans: &Vec<(usize, usize)>, k: usize) -> (w: &'a str)
        requires
            spans_match(raw@, spans@),
            k < spans@.len(),
        ensures
            w@ == split_words(raw@)[k as int],
    {
        let (a, b) = spans[k];
        raw.substring_char(a, b)
    }

    fn write_data(raw: &'a str, spans: &Vec<(usize, usize)>) -> (data: Vec<u8>)
        requires
            spans_match(raw@, spans@),
            spans@.len() >= 3,
        ensures
            data@ == joined_bytes(split_words(raw@).subrange(2, spans@.len() as int)),
    {
        let ghost ws = split_words(raw@);
        let mut data: Vec<u8> = Vec::new();
        let mut k: usize = 2;
        proof {
            assert(ws.subrange(2, 2) =~= Seq::<Seq<char>>::empty());
        }
        while k < spans.len()
            invariant
                spans_match(raw@, spans@),
                ws == split_words(raw@),
                2 <= k <= spans@.len(),
                data@ == joined_bytes(ws.subrange(2, k as int)),
            decreases spans@.len() - k,
        {
            let piece = Self::word(raw, spans, k);
            let bytes = piece.as_bytes();
            let ghost before = data@;
            if k > 2 {
                data.push(32u8);
            }
            let mut j: usize = 0;
            let ghost mid = data@;
            while j < bytes.len()
                invariant
                    j <= bytes@.len(),
                    data@ == mid + bytes@.subrange(0, j as int),
                decreases bytes@.len() - j,
            {
                data.push(bytes[j]);
                j = j + 1;
                assert(data@ =~= mid + bytes@.subrange(0, j as int));
            }
            proof {
                assert(bytes@.subrange(0, j as int) =~= bytes@);
                let next = ws.subrange(2, k + 1);
                assert(next.drop_last() =~= ws.subrange(2, k as int));
                assert(next.last() == ws[k as int]);
                if k == 2 {
                    assert(data@ =~= encode_utf8(ws[2]));
                } else {
                    assert(data@ =~= before + seq![32u8] + encode_utf8(ws[k as int]));
                }
            }
            k = k + 1;
        }
        data
    }

    /// The text that `Display` writes for the request; the data of a
    /// `WRITE` is read as UTF-8, which it must be.
    pub fn to_wire(&self) -> (s: String)
        requires
            self matches Request::Write { data, .. } ==> valid_utf8(data@),
        ensures
            s@ == wire_text(self@),
    {
        let mut out: Vec<char> = Vec::new();
        match self {
            Request::Open { path, flags } => {
                push_all(&mut out, &vec!['O', 'P', 'E', 'N', ' ']);
                push_all(&mut out, &chars_of(path));
                out.push(' ');
                push_int(&mut out, *flags as i128);
            },
            Request::Close { fd } => {
                push_all(&mut out, &vec!['C', 'L', 'O', 'S', 'E', ' ']);
                push_int(&mut out, *fd as i128);
            },
            Request::Read { fd, count } => {
                push_all(&mut out, &vec!['R', 'E', 'A', 'D', ' ']);
                push_int(&mut out, *fd as i128);
                out.push(' ');
                push_int(&mut out, *count as i128);
            },
            Request::Write { fd, data } => {
                push_all(&mut out, &vec!['W', 'R', 'I', 'T', 'E', ' ']);
                push_int(&mut out, *fd as i128);
                out.push(' ');
                let text = utf8_to_string(data.as_slice());
                match text {
                    Some(t) => push_all(&mut out, &chars_of(t.as_str())),
                    None => {},
                }
            },
            Request::Lseek { fd, offset, whence } => {
                push_all(&mut out, &vec!['L', 'S', 'E', 'E', 'K', ' ']);
                push_int(&mut out, *fd as i128);
                out.push(' ');
                push_int(&mut out, *offset as i128);
                out.push(' ');
                push_int(&mut out, *whence as i128);
            },
            Request::Stat { ver, path } => {
                push_all(&mut out, &vec!['S', 'T', 'A', 'T', ' ']);
                push_int(&mut out, *ver as i128);
                out.push(' ');
                push_all(&mut out, &chars_of(path));
            },
            Request::Unlink { path } => {
                push_all(&mut out, &vec!['U', 'N', 'L', 'I', 'N', 'K', ' ']);
                push_all(&mut out, &chars_of(path));
            },
            Request::GetDirentries { fd, nbytes, basep } => {
                push_all(
                    &mut out,
                    &vec!['G', 'E', 'T', 'D', 'I', 'R', 'E', 'N', 'T', 'R', 'I', 'E', 'S', ' '],
                );
                push_int(&mut out, *fd as i128);
                out.push(' ');
                push_int(&mut out, *nbytes as i128);
                out.push(' ');
                push_int(&mut out, *basep as i128);
            },
            Request::GetDirtree { path } => {
                push_all(&mut out, &vec!['G', 'E', 'T', 'D', 'I', 'R', 'T', 'R', 'E', 'E', ' ']);
                push_all(&mut out, &chars_of(path));
            },
            Request::Default => {
                push_all(&mut out, &vec!['d', 'e', 'f', 'a', 'u', 'l', 't']);
            },
        }
        out.push('\n');
        out.push('\n');
        proof {
            assert(out@ =~= wire_text(self@));
        }
        chars_to_string(&out)
    }
}

} // verus!
