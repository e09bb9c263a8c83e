//! What the server writes back for each request, given what the system
//! call it made returned.
use vstd::prelude::*;
use vstd::utf8::*;
use vstd::slice::{slice_subrange, slice_to_vec};
use crate::text::{ascii_bytes, int_text, int_line, push_int, chars_to_string, split_on, integer_value,
    is_digit, lemma_split_on_concat, lemma_split_on_single, lemma_int_text_roundtrip, lemma_int_text_plain};
use crate::remote::dirtree::DirTreeNodes;

verus! {

/// `format!("{}\n", n)` as bytes.
pub open spec fn status_text(n: int) -> Seq<u8> {
    ascii_bytes(int_text(n).push('\n'))
}

/// The reply to a call that answers with a number: the number and a line end.
pub fn status_reply(result: i64) -> (r: Vec<u8>)
    ensures
        r@ == status_text(result as int),
{
    int_line(result as i128)
}

/// The reply to an unknown request.
pub fn default_reply() -> (r: Vec<u8>)
    ensures
        r@ == status_text(-1),
{
    int_line(-1)
}

/// The reply to a read of `count` bytes into `buffer`: the failure line,
/// or the first `count` bytes of the buffer (however many were read).
pub fn read_reply(buffer: &[u8], result: isize, count: usize) -> (r: Vec<u8>)
    requires
        count <= buffer@.len(),
    ensures
        r@ == if result == -1 {
            status_text(-1)
        } else {
            buffer@.subrange(0, count as int)
        },
{
    if result == -1 {
        int_line(-1)
    } else {
        slice_to_vec(slice_subrange(buffer, 0, count))
    }
}

/// The fields of a file's status that the server reports.
#[derive(Debug, Clone, Copy, PartialEq, Eq)]
pub struct StatFields {
    pub dev: u64,
    pub ino: u64,
    pub mode: u32,
    pub nlink: u64,
    pub uid: u32,
    pub size: i64,
    pub mtime: i64,
}

/// The status line: the fields in order, separated by commas.
pub open spec fn stat_text(f: StatFields) -> Seq<char> {
    int_text(f.dev as int) + seq![','] + int_text(f.ino as int) + seq![','] + int_text(f.mode as int)
        + seq![','] + int_text(f.nlink as int) + seq![','] + int_text(f.uid as int) + seq![',']
        + int_text(f.size as int) + seq![','] + int_text(f.mtime as int) + seq!['\n']
}

/// The status line, read back: it ends with a line end, and split at its
/// commas it gives seven fields that parse, in order, to the device, the
/// inode, the mode, the link count, the owner, the size and the time of
/// last change.
pub proof fn lemma_stat_fields(f: StatFields)
    ensures
        stat_text(f).len() > 0,
        stat_text(f).last() == '\n',
        ({
            let fields = split_on(stat_text(f).drop_last(), ',');
            &&& fields.len() == 7
            &&& integer_value(fields[0], true) == Some(f.dev as int)
            &&& integer_value(fields[1], true) == Some(f.ino as int)
            &&& integer_value(fields[2], true) == Some(f.mode as int)
            &&& integer_value(fields[3], true) == Some(f.nlink as int)
            &&& integer_value(fields[4], true) == Some(f.uid as int)
            &&& integer_value(fields[5], true) == Some(f.size as int)
            &&& integer_value(fields[6], true) == Some(f.mtime as int)
        }),
{
    let ts = seq![
        int_text(f.dev as int),
        int_text(f.ino as int),
        int_text(f.mode as int),
        int_text(f.nlink as int),
        int_text(f.uid as int),
        int_text(f.size as int),
        int_text(f.mtime as int),
    ];
    let vs = seq![f.dev as int, f.ino as int, f.mode as int, f.nlink as int, f.uid as int, f.size as int, f.mtime as int];
    assert forall|k: int| 0 <= k < 7 implies #[trigger] ts[k] == int_text(vs[k]) && no_comma(ts[k]) && integer_value(ts[k], true) == Some(vs[k]) by {
        lemma_no_comma(vs[k]);
        lemma_int_text_roundtrip(vs[k]);
    }
    let line = comma_joined(ts);
    assert(comma_joined(ts.subrange(0, 1)) == ts[0]);
    assert forall|k: int| 1 < k <= 7 implies #[trigger] comma_joined(ts.subrange(0, k)) == comma_joined(
        ts.subrange(0, k - 1),
    ) + seq![','] + ts[k - 1] by {
        assert(ts.subrange(0, k).drop_last() =~= ts.subrange(0, k - 1));
    }
    assert(ts.subrange(0, 7) =~= ts);
    let j1 = comma_joined(ts.subrange(0, 1));
    let j2 = comma_joined(ts.subrange(0, 2));
    let j3 = comma_joined(ts.subrange(0, 3));
    let j4 = comma_joined(ts.subrange(0, 4));
    let j5 = comma_joined(ts.subrange(0, 5));
    let j6 = comma_joined(ts.subrange(0, 6));
    assert(j2 == j1 + seq![','] + ts[1]);
    assert(j3 == j2 + seq![','] + ts[2]);
    assert(j4 == j3 + seq![','] + ts[3]);
    assert(j5 == j4 + seq![','] + ts[4]);
    assert(j6 == j5 + seq![','] + ts[5]);
    assert(line == j6 + seq![','] + ts[6]);
    assert(stat_text(f) =~= line.push('\n'));
    assert(stat_text(f).drop_last() =~= line);
    lemma_split_comma_joined(ts);
}

/// Whether a run of chars holds no comma.
spec fn no_comma(t: Seq<char>) -> bool {
    forall|i: int| 0 <= i < t.len() ==> #[trigger] t[i] != ','
}

/// The pieces joined with a comma between each two.
spec fn comma_joined(ts: Seq<Seq<char>>) -> Seq<char>
    decreases ts.len(),
{
    if ts.len() <= 1 {
        if ts.len() == 0 { Seq::<char>::empty() } else { ts[0] }
    } else {
        comma_joined(ts.drop_last()) + seq![','] + ts.last()
    }
}

/// Pieces without commas, joined with commas, split back into themselves.
proof fn lemma_split_comma_joined(ts: Seq<Seq<char>>)
    requires
        ts.len() >= 1,
        forall|k: int| 0 <= k < ts.len() ==> no_comma(#[trigger] ts[k]),
    ensures
        split_on(comma_joined(ts), ',') == ts,
    decreases ts.len(),
{
    if ts.len() == 1 {
        lemma_split_on_single(ts[0], ',');
        assert(seq![ts[0]] =~= ts);
    } else {
        let p = ts.drop_last();
        assert(forall|k: int| 0 <= k < p.len() ==> #[trigger] p[k] == ts[k]);
        lemma_split_comma_joined(p);
        assert(no_comma(ts[ts.len() - 1]));
        lemma_split_on_single(ts.last(), ',');
        lemma_split_on_concat(comma_joined(p), ts.last(), ',');
        assert(ts =~= p + seq![ts.last()]);
    }
}

/// A rendered integer holds no comma.
proof fn lemma_no_comma(n: int)
    ensures
        no_comma(int_text(n)),
{
    lemma_int_text_plain(n);
    let t = int_text(n);
    assert forall|i: int| 0 <= i < t.len() implies #[trigger] t[i] != ',' by {
        assert(is_digit(t[i]) || t[i] == '-');
    }
}

/// The reply to a status request: the failure line, or the status line.
pub fn stat_reply(result: i32, fields: &StatFields) -> (r: Vec<u8>)
    ensures
        r@ == if result == -1 {
            status_text(-1)
        } else {
            ascii_bytes(stat_text(*fields))
        },
{
    if result == -1 {
        return int_line(-1);
    }
    let mut out: Vec<char> = Vec::new();
    push_int(&mut out, fields.dev as i128);
    out.push(',');
    push_int(&mut out, fields.ino as i128);
    out.push(',');
    push_int(&mut out, fields.mode as i128);
    out.push(',');
    push_int(&mut out, fields.nlink as i128);
    out.push(',');
    push_int(&mut out, fields.uid as i128);
    out.push(',');
    push_int(&mut out, fields.size as i128);
    out.push(',');
    push_int(&mut out, fields.mtime as i128);
    out.push('\n');
    assert(out@ =~= stat_text(*fields));
    let mut bytes: Vec<u8> = Vec::new();
    let mut i: usize = 0;
    while i < out.len()
        invariant
            i <= out@.len(),
            bytes@ == ascii_bytes(out@.subrange(0, i as int)),
        decreases out@.len() - i,
    {
        bytes.push(out[i] as u8);
        i = i + 1;
        assert(bytes@ =~= ascii_bytes(out@.subrange(0, i as int)));
    }
    assert(out@.subrange(0, i as int) =~= out@);
    bytes
}

/// The reply to a directory-entries request: the failure line, or the
/// whole buffer (which must be UTF-8) and a line end.
pub fn direntries_reply(buffer: &[u8], result: isize) -> (r: Vec<u8>)
    requires
        result == -1 || valid_utf8(buffer@),
    ensures
        r@ == if result == -1 {
            status_text(-1)
        } else {
            buffer@.push(10u8)
        },
{
    if result == -1 {
        return int_line(-1);
    }
    let mut r = slice_to_vec(buffer);
    r.push(10u8);
    r
}

/// The reply to a directory-tree request: the failure line, or the
/// listing and a line end, in UTF-8.
pub fn dirtree_reply(tree: Option<&DirTreeNodes>) -> (r: Vec<u8>)
    requires
        tree matches Some(t) ==> t.depth() <= usize::MAX,
    ensures
        r@ == match tree {
            None => status_text(-1),
            Some(t) => encode_utf8(t.text(0).push('\n')),
        },
{
    match tree {
        None => int_line(-1),
        Some(t) => {
            let text = t.fmt_with_indent(0);
            let mut chars = crate::text::chars_of(text.as_str());
            chars.push('\n');
            let s = chars_to_string(&chars);
            slice_to_vec(s.as_str().as_bytes())
        },
    }
}

} // verus!
