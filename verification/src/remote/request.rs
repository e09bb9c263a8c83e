//! Requests as the file server reads them off a connection.
use vstd::prelude::*;
use vstd::utf8::*;
use crate::text::{split_words, spans_match, split_spans, chars_of, chars_to_string, utf8_to_string,
    lemma_split_words_nonempty, lemma_encode_concat, lemma_split_concat, lemma_split_single, no_space};
use crate::command::{Command, RequestError, Reading, Shape, spec_classify, classify, command_of,
    lemma_classify_paths, lemma_classify_flag};
use crate::proxy::request::{command_text, textual, spec_request, lemma_request_text_roundtrip};

verus! {

/// A request that owns its paths; an empty read is a `Shutdown`.
#[derive(Debug, PartialEq, Eq)]
pub enum Request {
    Open { path: String, flags: i32 },
    Close { fd: i32 },
    Read { fd: i32, count: usize },
    Write { fd: i32, data: Vec<u8> },
    Lseek { fd: i32, offset: i64, whence: i32 },
    Stat { ver: i32, path: String },
    Unlink { path: String },
    GetDirentries { fd: i32, nbytes: usize, basep: i64 },
    GetDirtree { path: String },
    Default,
    Shutdown,
}

impl View for Request {
    type V = Command;

    open spec fn view(&self) -> Command {
        match self {
            Request::Open { path, flags } => Command::Open { path: path@, flags: *flags },
            Request::Close { fd } => Command::Close { fd: *fd },
            Request::Read { fd, count } => Command::Read { fd: *fd, count: *count },
            Request::Write { fd, data } => Command::Write { fd: *fd, data: data@ },
            Request::Lseek { fd, offset, whence } => Command::Lseek {
                fd: *fd,
                offset: *offset,
                whence: *whence,
            },
            Request::Stat { ver, path } => Command::Stat { ver: *ver, path: path@ },
            Request::Unlink { path } => Command::Unlink { path: path@ },
            Request::GetDirentries { fd, nbytes, basep } => Command::GetDirentries {
                fd: *fd,
                nbytes: *nbytes,
                basep: *basep,
            },
            Request::GetDirtree { path } => Command::GetDirtree { path: path@ },
            Request::Default => Command::Default,
            Request::Shutdown => Command::Shutdown,
        }
    }
}

/// The data of the server's `WRITE`: the UTF-8 bytes of each word,
/// each followed by a space.
pub open spec fn terminated_bytes(ws: Seq<Seq<char>>) -> Seq<u8>
    decreases ws.len(),
{
    if ws.len() == 0 {
        Seq::<u8>::empty()
    } else {
        terminated_bytes(ws.drop_last()) + encode_utf8(ws.last()) + seq![32u8]
    }
}

/// The words of a text, each written back followed by a space, are the
/// text's own UTF-8 and one more space: no byte of the text is lost or
/// added, runs of spaces (empty words) included.
pub proof fn lemma_terminated_words(t: Seq<char>)
    ensures
        terminated_bytes(split_words(t)) == encode_utf8(t) + seq![32u8],
    decreases t.len(),
{
    let ws = split_words(t);
    if t.len() == 0 {
        assert(ws =~= seq![Seq::<char>::empty()]);
        assert(ws.drop_last() =~= Seq::<Seq<char>>::empty());
        assert(terminated_bytes(ws.drop_last()) == Seq::<u8>::empty());
        assert(encode_utf8(Seq::<char>::empty()) =~= Seq::<u8>::empty());
        assert(t =~= Seq::<char>::empty());
        assert(terminated_bytes(ws) =~= encode_utf8(t) + seq![32u8]);
    } else {
        let p = t.drop_last();
        let c = t.last();
        lemma_terminated_words(p);
        lemma_split_words_nonempty(p);
        let pw = split_words(p);
        assert(p + seq![c] =~= t);
        lemma_encode_concat(p, seq![c]);
        if c == ' ' {
            assert(ws == pw.push(Seq::<char>::empty()));
            assert(ws.drop_last() =~= pw);
            assert(encode_utf8(Seq::<char>::empty()) =~= Seq::<u8>::empty());
            assert(encode_utf8(seq![' ']) =~= seq![32u8]) by {
                let sp = seq![' '];
                assert(is_ascii_chars(sp));
                is_ascii_chars_encode_utf8(sp);
                assert(sp[0] == ' ');
                assert(encode_utf8(sp)[0] == 32u8);
            }
            assert(terminated_bytes(ws) =~= encode_utf8(t) + seq![32u8]);
        } else {
            let lw = pw.last();
            assert(ws == pw.update(pw.len() - 1, lw.push(c)));
            assert(ws.drop_last() =~= pw.drop_last());
            assert(ws.last() == lw.push(c));
            let x = terminated_bytes(pw.drop_last());
            assert(terminated_bytes(pw) == x + encode_utf8(lw) + seq![32u8]);
            assert(x + encode_utf8(lw) =~= encode_utf8(p)) by {
                let l = x + encode_utf8(lw);
                assert(l + seq![32u8] == encode_utf8(p) + seq![32u8]);
                assert((l + seq![32u8]).drop_last() =~= l);
                assert((encode_utf8(p) + seq![32u8]).drop_last() =~= encode_utf8(p));
            }
            assert(lw + seq![c] =~= lw.push(c));
            lemma_encode_concat(lw, seq![c]);
            assert(terminated_bytes(ws) =~= encode_utf8(t) + seq![32u8]);
        }
    }
}

/// The data of a `WRITE` keeps every byte of the line after the space that
/// follows the descriptor, runs of spaces included, and adds one space:
/// for a line `w0 w1 rest` (its first two words without spaces), the words
/// from the third on write back exactly `rest` and a space.
pub proof fn lemma_write_data_keeps_text(w0: Seq<char>, w1: Seq<char>, rest: Seq<char>)
    requires
        no_space(w0),
        no_space(w1),
    ensures
        ({
            let ws = split_words(w0 + seq![' '] + w1 + seq![' '] + rest);
            terminated_bytes(ws.subrange(2, ws.len() as int)) == encode_utf8(rest) + seq![32u8]
        }),
{
    let line = w0 + seq![' '] + w1 + seq![' '] + rest;
    let tail = w1 + seq![' '] + rest;
    assert(line =~= w0 + seq![' '] + tail);
    lemma_split_concat(w0, tail);
    lemma_split_concat(w1, rest);
    lemma_split_single(w0);
    lemma_split_single(w1);
    let ws = split_words(line);
    assert(ws =~= seq![w0, w1] + split_words(rest));
    assert(ws.subrange(2, ws.len() as int) =~= split_words(rest));
    lemma_terminated_words(rest);
}

/// What the server reads from a `WRITE` line carries, as its data, the
/// line's bytes after the descriptor's space and one more space.
pub proof fn lemma_server_write_data(w0: Seq<char>, w1: Seq<char>, rest: Seq<char>)
    requires
        no_space(w0),
        no_space(w1),
    ensures
        ({
            let raw = encode_utf8(w0 + seq![' '] + w1 + seq![' '] + rest);
            spec_server_request(raw) matches Ok(Command::Write { fd, data }) ==> data == encode_utf8(rest)
                + seq![32u8]
        }),
{
    let line = w0 + seq![' '] + w1 + seq![' '] + rest;
    vstd::utf8::encode_utf8_decode_utf8(line);
    lemma_write_data_keeps_text(w0, w1, rest);
    let raw = encode_utf8(line);
    let ws = split_words(line);
    if raw.len() > 0 {
        assert(decode_utf8(raw) == line);
        match spec_classify(line, false) {
            Reading::Parsed(shape) => {
                assert(spec_server_request(raw) == Ok::<Command, RequestError>(
                    command_of(ws, shape, terminated_bytes(ws.subrange(2, ws.len() as int))),
                ));
            },
            _ => {},
        }
    }
}

/// What the server reads from the bytes of one read off the connection.
pub open spec fn spec_server_request(raw: Seq<u8>) -> Result<Command, RequestError> {
    if raw.len() == 0 {
        Ok(Command::Shutdown)
    } else {
        let s = decode_utf8(raw);
        let ws = split_words(s);
        match spec_classify(s, false) {
            Reading::Parsed(shape) => Ok(command_of(ws, shape, terminated_bytes(ws.subrange(2, ws.len() as int)))),
            Reading::Failed(e) => Err(e),
            Reading::Stops => Err(RequestError::InsufficientArguments),
        }
    }
}

/// Whether the server's reading of `raw` stops short: the bytes are not
/// UTF-8, or a missing word is indexed. The server panics on such a read.
pub open spec fn server_request_stops(raw: Seq<u8>) -> bool {
    raw.len() > 0 && (!valid_utf8(raw) || spec_classify(decode_utf8(raw), false) is Stops)
}

/// What the proxy writes for a request, other than a `WRITE`, the server
/// reads as the same request, from its UTF-8.
pub proof fn lemma_server_reads_proxy_text(c: Command)
    requires
        textual(c),
        !(c is Write),
    ensures
        spec_server_request(encode_utf8(command_text(c))) == Ok::<Command, RequestError>(c),
{
    let t = command_text(c);
    lemma_request_text_roundtrip(c);
    lemma_classify_flag(t);
    vstd::utf8::encode_utf8_decode_utf8(t);
    assert(t.len() > 0);
    assert(encode_utf8(t).len() > 0) by {
        assert(encode_utf8(t) == vstd::utf8::encode_scalar(t[0] as u32) + encode_utf8(t.drop_first()));
        vstd::utf8::char_is_scalar(t[0]);
    }
}

fn word_string(chars: &Vec<char>, a: usize, b: usize) -> (s: String)
    requires
        a <= b <= chars@.len(),
    ensures
        s@ == chars@.subrange(a as int, b as int),
{
    let mut w: Vec<char> = Vec::new();
    let mut i: usize = a;
    while i < b
        invariant
            a <= i <= b <= chars@.len(),
            w@ == chars@.subrange(a as int, i as int),
        decreases b - i,
    {
        w.push(chars[i]);
        i = i + 1;
        assert(w@ =~= chars@.subrange(a as int, i as int));
    }
    chars_to_string(&w)
}

impl Request {
    /// Whether reading `raw` stops short; `new` is not defined on it.
    pub fn stops_on(raw: &[u8]) -> (r: bool)
        ensures
            r == server_request_stops(raw@),
    {
        if raw.len() == 0 {
            return false;
        }
        match utf8_to_string(raw) {
            None => true,
            Some(text) => {
                let chars = chars_of(text.as_str());
                let spans = split_spans(&chars);
                match classify(&chars, &spans, false) {
                    Reading::Stops => true,
                    _ => false,
                }
            },
        }
    }

    /// Reads the bytes of one read off the connection.
    pub fn new(raw: &[u8]) -> (r: Result<Request, RequestError>)
        requires
            !server_request_stops(raw@),
        ensures
            match r {
                Ok(req) => spec_server_request(raw@) == Ok::<Command, RequestError>(req@),
                Err(e) => spec_server_request(raw@) == Err::<Command, RequestError>(e),
            },
    {
        if raw.len() == 0 {
            return Ok(Request::Shutdown);
        }
        let text = match utf8_to_string(raw) {
            Some(t) => t,
            None => return Ok(Request::Default),
        };
        let chars = chars_of(text.as_str());
        let spans = split_spans(&chars);
        let ghost s = chars@;
        proof {
            lemma_classify_paths(s, false);
            lemma_split_words_nonempty(s);
        }
        match classify(&chars, &spans, false) {
            Reading::Failed(e) => Err(e),
            Reading::Stops => Err(RequestError::InsufficientArguments),
            Reading::Parsed(shape) => {
                let req = match shape {
                    Shape::Open { path, flags } => Request::Open {
                        path: Self::word(&chars, &spans, path),
                        flags,
                    },
                    Shape::Close { fd } => Request::Close { fd },
                    Shape::Read { fd, count } => Request::Read { fd, count },
                    Shape::Write { fd } => Request::Write { fd, data: Self::write_data(&chars, &spans) },
                    Shape::Lseek { fd, offset, whence } => Request::Lseek { fd, offset, whence },
                    Shape::Stat { ver, path } => Request::Stat {
                        ver,
                        path: Self::word(&chars, &spans, path),
                    },
                    Shape::Unlink { path } => Request::Unlink { path: Self::word(&chars, &spans, path) },
                    Shape::GetDirentries { fd, nbytes, basep } => Request::GetDirentries {
                        fd,
                        nbytes,
                        basep,
                    },
                    Shape::GetDirtree { path } => Request::GetDirtree {
                        path: Self::word(&chars, &spans, path),
                    },
                    Shape::Default => Request::Default,
                };
                Ok(req)
            },
        }
    }

    fn word(chars: &Vec<char>, spans: &Vec<(usize, usize)>, k: usize) -> (w: String)
        requires
            spans_match(chars@, spans@),
            k < spans@.len(),
        ensures
            w@ == split_words(chars@)[k as int],
    {
        let (a, b) = spans[k];
        word_string(chars, a, b)
    }

    fn write_data(chars: &Vec<char>, spans: &Vec<(usize, usize)>) -> (data: Vec<u8>)
        requires
            spans_match(chars@, spans@),
            spans@.len() >= 2,
        ensures
            data@ == terminated_bytes(split_words(chars@).subrange(2, spans@.len() as int)),
    {
        let ghost ws = split_words(chars@);
        let mut data: Vec<u8> = Vec::new();
        let mut k: usize = 2;
        proof {
            assert(ws.subrange(2, 2) =~= Seq::<Seq<char>>::empty());
        }
        while k < spans.len()
            invariant
                spans_match(chars@, spans@),
                ws == split_words(chars@),
                2 <= k <= spans@.len(),
                data@ == terminated_bytes(ws.subrange(2, k as int)),
            decreases spans@.len() - k,
        {
            let piece = Self::word(chars, spans, k);
            let bytes = piece.as_str().as_bytes();
            let ghost before = data@;
            let mut j: usize = 0;
            while j < bytes.len()
                invariant
                    j <= bytes@.len(),
                    data@ == before + bytes@.subrange(0, j as int),
                decreases bytes@.len() - j,
            {
                data.push(bytes[j]);
                j = j + 1;
                assert(data@ =~= before + bytes@.subrange(0, j as int));
            }
            data.push(32u8);
            proof {
                assert(bytes@.subrange(0, j as int) =~= bytes@);
                let next = ws.subrange(2, k + 1);
                assert(next.drop_last() =~= ws.subrange(2, k as int));
                assert(next.last() == ws[k as int]);
                assert(data@ =~= before + encode_utf8(ws[k as int]) + seq![32u8]);
            }
            k = k + 1;
        }
        data
    }

    /// Whether the read was the end of the connection.
    pub fn is_shutdown(&self) -> (r: bool)
        ensures
            r == (self@ is Shutdown),
    {
        match self {
            Request::Shutdown => true,
            _ => false,
        }
    }
}

} // verus!
