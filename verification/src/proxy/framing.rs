//! How a client frames its requests on the connection to the proxy:
//! the length of the request in decimal, a space, then the request.
//! A read from the connection may hold several frames back to back.
use vstd::prelude::*;
use vstd::utf8::*;
use vstd::slice::slice_subrange;
use crate::text::{spec_parse_usize, parse_usize, utf8_to_string, chars_of, int_text, is_digit,
    lemma_int_text_plain, lemma_int_text_roundtrip, ascii_bytes};

verus! {

/// Why a frame cannot be read.
#[derive(Debug, Clone, Copy, PartialEq, Eq, Structural)]
pub enum FrameError {
    /// There is no space after the length: "Invalid command format".
    NoSpace,
    /// The length or the request is not UTF-8.
    NotUtf8,
    /// The length is no `usize`.
    BadLength,
}

/// How the bytes at the start of a buffer read as a frame.
pub enum FrameReading {
    /// The request, and the position of its last byte.
    Frame(Seq<char>, usize),
    Failed(FrameError),
    /// The length runs past the end of the buffer: the reader panics.
    Stops,
}

pub open spec fn no_space_before(buf: Seq<u8>, i: int) -> bool {
    forall|j: int| 0 <= j < i ==> #[trigger] buf[j] != 32u8
}

/// The position of the first space.
pub open spec fn first_space(buf: Seq<u8>) -> Option<int> {
    if exists|i: int| 0 <= i < buf.len() && buf[i] == 32u8 && no_space_before(buf, i) {
        Some(choose|i: int| 0 <= i < buf.len() && buf[i] == 32u8 && no_space_before(buf, i))
    } else {
        None
    }
}

pub open spec fn spec_frame(buf: Seq<u8>) -> FrameReading {
    match first_space(buf) {
        None => FrameReading::Failed(FrameError::NoSpace),
        Some(i) => {
            let head = buf.subrange(0, i);
            if !valid_utf8(head) {
                FrameReading::Failed(FrameError::NotUtf8)
            } else {
                match spec_parse_usize(decode_utf8(head)) {
                    None => FrameReading::Failed(FrameError::BadLength),
                    Some(size) => if i + size + 1 > buf.len() {
                        FrameReading::Stops
                    } else {
                        let body = buf.subrange(i + 1, i + size + 1);
                        if !valid_utf8(body) {
                            FrameReading::Failed(FrameError::NotUtf8)
                        } else {
                            FrameReading::Frame(decode_utf8(body), (i + size) as usize)
                        }
                    },
                }
            }
        },
    }
}

/// How a run of frames ends.
#[derive(Debug, Clone, Copy, PartialEq, Eq, Structural)]
pub enum FramesEnd {
    /// Every byte was read.
    Done,
    /// A frame could not be read; the rest is dropped.
    Failed(FrameError),
    /// A frame's length runs past the buffer: the reader panics.
    Stops,
}

/// The requests framed in `buf` from `start` on, and how the run ends.
pub open spec fn frames_from(buf: Seq<u8>, start: int) -> (Seq<Seq<char>>, FramesEnd)
    decreases buf.len() - start,
{
    if start >= buf.len() || start < 0 {
        (Seq::<Seq<char>>::empty(), FramesEnd::Done)
    } else {
        match spec_frame(buf.subrange(start, buf.len() as int)) {
            FrameReading::Frame(v, next) => if start + next + 1 <= buf.len() {
                let rest = frames_from(buf, start + next + 1);
                (seq![v] + rest.0, rest.1)
            } else {
                (Seq::<Seq<char>>::empty(), FramesEnd::Done)
            },
            FrameReading::Failed(e) => (Seq::<Seq<char>>::empty(), FramesEnd::Failed(e)),
            FrameReading::Stops => (Seq::<Seq<char>>::empty(), FramesEnd::Stops),
        }
    }
}

/// A request framed: the UTF-8 of its length in decimal, a space, the request.
pub open spec fn framed(p: Seq<u8>) -> Seq<u8> {
    encode_utf8(int_text(p.len() as int)) + seq![32u8] + p
}

/// A framed request reads back, whatever follows it.
pub proof fn lemma_frame_roundtrip(p: Seq<u8>, rest: Seq<u8>)
    requires
        valid_utf8(p),
        p.len() <= usize::MAX,
    ensures
        spec_frame(framed(p) + rest) == FrameReading::Frame(
            decode_utf8(p),
            (int_text(p.len() as int).len() + p.len()) as usize,
        ),
        int_text(p.len() as int).len() + p.len() + 1 == framed(p).len(),
{
    let n = p.len() as int;
    let d = int_text(n);
    let h = encode_utf8(d);
    let buf = framed(p) + rest;
    lemma_int_text_plain(n);
    lemma_int_text_roundtrip(n);
    vstd::utf8::encode_utf8_decode_utf8(d);
    vstd::utf8::encode_utf8_valid_utf8(d);
    let i = h.len() as int;
    assert(h == ascii_bytes(d));
    assert(h.len() == d.len());
    assert(buf[i] == 32u8);
    assert(no_space_before(buf, i)) by {
        assert forall|j: int| 0 <= j < i implies #[trigger] buf[j] != 32u8 by {
            assert(buf[j] == h[j]);
            assert(h[j] == d[j] as u8);
            assert(is_digit(d[j]) || d[j] == '-');
        }
    }
    assert(first_space(buf) == Some(i)) by {
        let w = choose|k: int| 0 <= k < buf.len() && buf[k] == 32u8 && no_space_before(buf, k);
        if w < i {
            assert(buf[w] != 32u8);
        } else if w > i {
            assert(buf[i] != 32u8);
        }
    }
    assert(buf.subrange(0, i) =~= h);
    assert(spec_parse_usize(d) == Some(n as usize));
    assert(buf.subrange(i + 1, i + n + 1) =~= p);
}

proof fn lemma_frames_shift(a: Seq<u8>, b: Seq<u8>, start: int)
    requires
        0 <= start,
    ensures
        frames_from(a + b, a.len() + start) == frames_from(b, start),
    decreases b.len() - start,
{
    let buf = a + b;
    if start < b.len() {
        assert(buf.subrange(a.len() + start, buf.len() as int) =~= b.subrange(start, b.len() as int));
        match spec_frame(b.subrange(start, b.len() as int)) {
            FrameReading::Frame(v, next) => {
                if start + next + 1 <= b.len() {
                    lemma_frames_shift(a, b, start + next + 1);
                }
            },
            _ => {},
        }
    }
}

/// A buffer that starts with a framed request splits into that request
/// and the requests framed in the rest.
pub proof fn lemma_frames_concat(p: Seq<u8>, rest: Seq<u8>)
    requires
        valid_utf8(p),
        framed(p).len() + rest.len() <= usize::MAX,
    ensures
        frames_from(framed(p) + rest, 0) == (seq![decode_utf8(p)] + frames_from(rest, 0).0, frames_from(rest, 0).1),
{
    let buf = framed(p) + rest;
    lemma_frame_roundtrip(p, rest);
    assert(buf.subrange(0, buf.len() as int) =~= buf);
    lemma_frames_shift(framed(p), rest, 0);
    assert(frames_from(buf, 0) =~= (seq![decode_utf8(p)] + frames_from(rest, 0).0, frames_from(rest, 0).1));
}

enum Framed {
    Frame(String, usize),
    Failed(FrameError),
    Stops,
}

pub proof fn lemma_frame_fits(buf: Seq<u8>)
    ensures
        spec_frame(buf) matches FrameReading::Frame(_, next) ==> next + 1 <= buf.len(),
{
}

fn read_frame(buf: &[u8]) -> (r: Framed)
    ensures
        match (r, spec_frame(buf@)) {
            (Framed::Frame(v, n), FrameReading::Frame(w, m)) => v@ == w && n == m,
            (Framed::Failed(e), FrameReading::Failed(f)) => e == f,
            (Framed::Stops, FrameReading::Stops) => true,
            _ => false,
        },
{
    let ghost b = buf@;
    let mut i: usize = 0;
    while i < buf.len() && buf[i] != 32u8
        invariant
            i <= buf@.len(),
            no_space_before(b, i as int),
            b == buf@,
        decreases buf@.len() - i,
    {
        i = i + 1;
    }
    if i == buf.len() {
        proof {
            if exists|k: int| 0 <= k < b.len() && b[k] == 32u8 && no_space_before(b, k) {
                let k = choose|k: int| 0 <= k < b.len() && b[k] == 32u8 && no_space_before(b, k);
                assert(b[k] != 32u8);
            }
        }
        return Framed::Failed(FrameError::NoSpace);
    }
    proof {
        let w = choose|k: int| 0 <= k < b.len() && b[k] == 32u8 && no_space_before(b, k);
        assert(0 <= i < b.len() && b[i as int] == 32u8 && no_space_before(b, i as int));
        if w < i {
            assert(b[w] != 32u8);
        } else if w > i {
            assert(b[i as int] != 32u8);
        }
        assert(first_space(b) == Some(i as int));
    }
    let head = slice_subrange(buf, 0, i);
    let size = match utf8_to_string(head) {
        None => return Framed::Failed(FrameError::NotUtf8),
        Some(text) => {
            let chars = chars_of(text.as_str());
            assert(chars@.subrange(0, chars@.len() as int) =~= chars@);
            match parse_usize(&chars, 0, chars.len()) {
                None => return Framed::Failed(FrameError::BadLength),
                Some(size) => size,
            }
        },
    };
    if size > buf.len() - i - 1 {
        return Framed::Stops;
    }
    let next_command = i + size;
    let body = slice_subrange(buf, i + 1, next_command + 1);
    match utf8_to_string(body) {
        None => Framed::Failed(FrameError::NotUtf8),
        Some(value) => Framed::Frame(value, next_command),
    }
}

/// Whether reading a frame at the start of `buf` runs past its end.
pub open spec fn frame_stops(buf: Seq<u8>) -> bool {
    spec_frame(buf) is Stops
}

/// Reads the frame at the start of `buf`: the request, and the position
/// of its last byte.
pub fn request_parser(buf: &[u8]) -> (r: Result<(String, usize), FrameError>)
    requires
        !frame_stops(buf@),
    ensures
        match (r, spec_frame(buf@)) {
            (Ok((v, n)), FrameReading::Frame(w, m)) => v@ == w && n == m,
            (Err(e), FrameReading::Failed(f)) => e == f,
            _ => false,
        },
{
    match read_frame(buf) {
        Framed::Frame(v, n) => Ok((v, n)),
        Framed::Failed(e) => Err(e),
        Framed::Stops => Err(FrameError::NoSpace),
    }
}

/// The requests framed back to back in a buffer, and how the run ended.
#[derive(Debug, PartialEq, Eq)]
pub struct Frames {
    pub values: Vec<String>,
    pub end: FramesEnd,
}

/// Reads frames from the start of `buf` until it is used up or a frame
/// cannot be read.
pub fn split_frames(buf: &[u8]) -> (f: Frames)
    ensures
        f.values@.map_values(|s: String| s@) == frames_from(buf@, 0).0,
        f.end == frames_from(buf@, 0).1,
{
    let ghost b = buf@;
    let mut values: Vec<String> = Vec::new();
    let mut size_start: usize = 0;
    let n = buf.len();
    let mut end = FramesEnd::Done;
    while size_start < n
        invariant_except_break
            n == b.len(),
            b == buf@,
            size_start <= n,
            frames_from(b, 0).0 == values@.map_values(|s: String| s@) + frames_from(b, size_start as int).0,
            frames_from(b, 0).1 == frames_from(b, size_start as int).1,
            end == FramesEnd::Done,
        ensures
            frames_from(b, 0).0 == values@.map_values(|s: String| s@),
            frames_from(b, 0).1 == end,
        decreases n - size_start,
    {
        let rest = slice_subrange(buf, size_start, n);
        let ghost r = rest@;
        proof {
            lemma_frame_fits(r);
        }
        match read_frame(rest) {
            Framed::Frame(v, next) => {
                let ghost old_values = values@.map_values(|s: String| s@);
                let ghost vw = v@;
                values.push(v);
                assert(values@.map_values(|s: String| s@) =~= old_values.push(vw));
                assert(frames_from(b, size_start as int).0 =~= seq![vw] + frames_from(b, size_start + next + 1).0);
                assert(old_values + frames_from(b, size_start as int).0 =~= old_values.push(vw) + frames_from(b, size_start + next + 1).0);
                size_start = size_start + next + 1;
            },
            Framed::Failed(e) => {
                end = FramesEnd::Failed(e);
                assert(frames_from(b, size_start as int).0 =~= Seq::<Seq<char>>::empty());
                assert(values@.map_values(|s: String| s@) + Seq::<Seq<char>>::empty() =~= values@.map_values(|s: String| s@));
                break;
            },
            Framed::Stops => {
                end = FramesEnd::Stops;
                assert(frames_from(b, size_start as int).0 =~= Seq::<Seq<char>>::empty());
                assert(values@.map_values(|s: String| s@) + Seq::<Seq<char>>::empty() =~= values@.map_values(|s: String| s@));
                break;
            },
        }
    }
    proof {
        if size_start >= n {
            assert(values@.map_values(|s: String| s@) + Seq::<Seq<char>>::empty() =~= values@.map_values(|s: String| s@));
        }
    }
    Frames { values, end }
}

} // verus!
