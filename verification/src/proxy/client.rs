//! The proxy's side of a request to the file server: gathering the
//! server's reply, and reading the status number that the server answers
//! to `OPEN`, `WRITE` and `CLOSE`.
use vstd::prelude::*;
use vstd::utf8::*;
use vstd::slice::slice_subrange;
use crate::text::{spec_parse_i32, parse_i32, utf8_to_string, chars_of, int_text, ascii_bytes,
    lemma_int_text_plain, lemma_int_text_roundtrip};
use crate::remote::reply::status_text;

verus! {

/// The reply the server sends when a request failed.
pub open spec fn refusal() -> Seq<u8> {
    seq![45u8, 49u8, 10u8]
}

/// The reply to one request, as it arrives in chunks.
pub struct ReplyBuffer {
    response: Vec<u8>,
}

/// The server answered with its failure reply.
#[derive(Debug, Clone, Copy, PartialEq, Eq, Structural)]
pub struct ServerRefused;

impl View for ReplyBuffer {
    type V = Seq<u8>;

    closed spec fn view(&self) -> Seq<u8> {
        self.response@
    }
}

/// Whether a chunk ends the reply: the connection gave nothing, or the
/// chunk ends a line.
pub open spec fn ends_reply(chunk: Seq<u8>) -> bool {
    chunk.len() == 0 || chunk.last() == 10u8
}

/// A reply ends with a chunk whose last byte is a line end, whatever
/// bytes come before it in the chunk: line ends inside a chunk (a file of
/// several lines, a directory listing) do not end the reply. An empty
/// chunk (the connection gave nothing) ends it too.
pub proof fn lemma_reply_ends_at_line_end(before: Seq<u8>, last: u8)
    ensures
        ends_reply(before.push(last)) <==> last == 10u8,
        ends_reply(Seq::<u8>::empty()),
{
}

impl ReplyBuffer {
    pub fn new() -> (b: ReplyBuffer)
        ensures
            b@ == Seq::<u8>::empty(),
    {
        ReplyBuffer { response: Vec::new() }
    }

    /// Adds a chunk as read from the connection; says whether the reply
    /// is complete.
    pub fn push_chunk(&mut self, chunk: &[u8]) -> (done: bool)
        ensures
            final(self)@ == old(self)@ + chunk@,
            done == ends_reply(chunk@),
            chunk@.len() > 0 ==> (done <==> chunk@[chunk@.len() - 1] == 10u8),
    {
        let mut i: usize = 0;
        while i < chunk.len()
            invariant
                i <= chunk@.len(),
                self@ == old(self)@ + chunk@.subrange(0, i as int),
            decreases chunk@.len() - i,
        {
            self.response.push(chunk[i]);
            i = i + 1;
            assert(self@ =~= old(self)@ + chunk@.subrange(0, i as int));
        }
        assert(chunk@.subrange(0, i as int) =~= chunk@);
        chunk.len() == 0 || chunk[chunk.len() - 1] == 10u8
    }

    /// The complete reply, unless it is the server's failure reply.
    pub fn finish(self) -> (r: Result<Vec<u8>, ServerRefused>)
        ensures
            match r {
                Ok(v) => v@ == self@ && self@ != refusal(),
                Err(_) => self@ == refusal(),
            },
    {
        let response = self.response;
        if response.len() == 3 && response[0] == 45u8 && response[1] == 49u8 && response[2] == 10u8 {
            assert(response@ =~= refusal());
            Err(ServerRefused)
        } else {
            Ok(response)
        }
    }
}

/// Why a status reply gives no usable number.
#[derive(Debug, Clone, Copy, PartialEq, Eq, Structural)]
pub enum StatusError {
    /// The reply, less its last byte, is not UTF-8.
    NotUtf8,
    /// The reply, less its last byte, is no `i32`.
    NotANumber,
    /// The number is below -1.
    Refused,
}

/// The number a status reply carries: the reply less its last byte (the
/// line end), read as an `i32` that must be at least -1.
pub open spec fn spec_status_reply(reply: Seq<u8>) -> Result<i32, StatusError> {
    let body = reply.subrange(0, reply.len() - 1);
    if !valid_utf8(body) {
        Err(StatusError::NotUtf8)
    } else {
        match spec_parse_i32(decode_utf8(body)) {
            None => Err(StatusError::NotANumber),
            Some(v) => if v < -1 {
                Err(StatusError::Refused)
            } else {
                Ok(v)
            },
        }
    }
}

/// The number in a server's status reply reads back, if at least -1.
pub proof fn lemma_status_reply_roundtrip(n: i32)
    requires
        n >= -1,
    ensures
        spec_status_reply(status_text(n as int)) == Ok::<i32, StatusError>(n),
{
    let d = int_text(n as int);
    lemma_int_text_plain(n as int);
    lemma_int_text_roundtrip(n as int);
    vstd::utf8::encode_utf8_decode_utf8(d);
    vstd::utf8::encode_utf8_valid_utf8(d);
    let r = status_text(n as int);
    assert(r.subrange(0, r.len() - 1) =~= ascii_bytes(d));
}

/// Reads the status number of a non-empty reply.
pub fn parse_status_reply(reply: &[u8]) -> (r: Result<i32, StatusError>)
    requires
        reply@.len() >= 1,
    ensures
        r == spec_status_reply(reply@),
{
    let body = slice_subrange(reply, 0, reply.len() - 1);
    match utf8_to_string(body) {
        None => Err(StatusError::NotUtf8),
        Some(text) => {
            let chars = chars_of(text.as_str());
            match parse_i32(&chars, 0, chars.len()) {
                None => {
                    assert(chars@.subrange(0, chars@.len() as int) =~= chars@);
                    Err(StatusError::NotANumber)
                },
                Some(v) => {
                    assert(chars@.subrange(0, chars@.len() as int) =~= chars@);
                    if v < -1 {
                        Err(StatusError::Refused)
                    } else {
                        Ok(v)
                    }
                },
            }
        },
    }
}

} // verus!
