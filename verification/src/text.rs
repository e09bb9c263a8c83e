//! Character-level helpers shared by the request parsers and the reply
//! formatters: splitting on spaces, ASCII upper-casing, decimal integers
//! in the syntax that `str::parse` accepts, and their decimal rendering.
use vstd::prelude::*;
use vstd::utf8::*;
use vstd::string::StrSliceExecFns;

verus! {

// ---------------------------------------------------------------------
// Decimal digits
// ---------------------------------------------------------------------

pub open spec fn is_digit(c: char) -> bool {
    '0' <= c && c <= '9'
}

pub open spec fn digit_value(c: char) -> int {
    (c as int) - ('0' as int)
}

pub open spec fn all_digits(s: Seq<char>) -> bool {
    forall|i: int| 0 <= i < s.len() ==> is_digit(#[trigger] s[i])
}

/// The value of a run of decimal digits, most significant first.
pub open spec fn digits_value(s: Seq<char>) -> nat
    decreases s.len(),
{
    if s.len() == 0 {
        0
    } else {
        (digits_value(s.drop_last()) * 10 + digit_value(s.last())) as nat
    }
}

/// The integer that `str::parse` reads from `s` before any range check:
/// an optional `+` (or `-` where `signed`), then at least one ASCII digit
/// and nothing else.
pub open spec fn integer_value(s: Seq<char>, signed: bool) -> Option<int> {
    if s.len() == 0 {
        None
    } else if s.len() == 1 && (s[0] == '+' || s[0] == '-') {
        None
    } else if s[0] == '+' {
        if all_digits(s.drop_first()) {
            Some(digits_value(s.drop_first()) as int)
        } else {
            None
        }
    } else if s[0] == '-' && signed {
        if all_digits(s.drop_first()) {
            Some(-(digits_value(s.drop_first()) as int))
        } else {
            None
        }
    } else if all_digits(s) {
        Some(digits_value(s) as int)
    } else {
        None
    }
}

/// What `str::parse` gives for an integer type ranging over `lo..=hi`.
pub open spec fn integer_in_range(s: Seq<char>, signed: bool, lo: int, hi: int) -> Option<int> {
    match integer_value(s, signed) {
        Some(v) => if lo <= v && v <= hi {
            Some(v)
        } else {
            None
        },
        None => None,
    }
}

pub open spec fn spec_parse_i32(s: Seq<char>) -> Option<i32> {
    match integer_in_range(s, true, i32::MIN as int, i32::MAX as int) {
        Some(v) => Some(v as i32),
        None => None,
    }
}

pub open spec fn spec_parse_i64(s: Seq<char>) -> Option<i64> {
    match integer_in_range(s, true, i64::MIN as int, i64::MAX as int) {
        Some(v) => Some(v as i64),
        None => None,
    }
}

pub open spec fn spec_parse_usize(s: Seq<char>) -> Option<usize> {
    match integer_in_range(s, false, 0, usize::MAX as int) {
        Some(v) => Some(v as usize),
        None => None,
    }
}

proof fn lemma_digits_value_grows(s: Seq<char>, k: int)
    requires
        0 <= k <= s.len(),
        all_digits(s),
    ensures
        digits_value(s.subrange(0, k)) <= digits_value(s),
    decreases s.len() - k,
{
    if k < s.len() {
        lemma_digits_value_grows(s, k + 1);
        let t = s.subrange(0, k + 1);
        assert(t.drop_last() =~= s.subrange(0, k));
        assert(is_digit(s[k]));
    } else {
        assert(s.subrange(0, k) =~= s);
    }
}

/// Reads `chars[start..end]` as `str::parse` reads an integer whose type
/// ranges over `lo..=hi`; both bounds lie within `-2^63 ..= 2^64 - 1`.
fn parse_integer(chars: &Vec<char>, start: usize, end: usize, signed: bool, lo: i128, hi: i128) -> (r:
    Option<i128>)
    requires
        start <= end <= chars@.len(),
        -0x8000_0000_0000_0000 <= lo <= hi < 0x1_0000_0000_0000_0000,
    ensures
        r == (match integer_in_range(chars@.subrange(start as int, end as int), signed, lo as int, hi as int) {
            Some(v) => Some(v as i128),
            None => None::<i128>,
        }),
{
    let ghost s = chars@.subrange(start as int, end as int);
    if start == end {
        return None;
    }
    let first = chars[start];
    if end - start == 1 && (first == '+' || first == '-') {
        return None;
    }
    let negative = first == '-' && signed;
    let ds: usize = if first == '+' || negative { start + 1 } else { start };
    let ghost d = chars@.subrange(ds as int, end as int);
    proof {
        if first == '+' || negative {
            assert(d =~= s.drop_first());
        } else {
            assert(d =~= s);
        }
    }
    let mut acc: u128 = 0;
    let mut i: usize = ds;
    while i < end
        invariant
            start <= ds <= i <= end <= chars@.len(),
            start < end,
            -0x8000_0000_0000_0000 <= lo <= hi < 0x1_0000_0000_0000_0000,
            s == chars@.subrange(start as int, end as int),
            first == chars@[start as int],
            end - start == 1 ==> first != '+' && first != '-',
            negative == (first == '-' && signed),
            (first == '+' || negative) ==> d == s.drop_first(),
            !(first == '+' || negative) ==> d == s,
            d == chars@.subrange(ds as int, end as int),
            all_digits(chars@.subrange(ds as int, i as int)),
            acc as nat == digits_value(chars@.subrange(ds as int, i as int)),
            acc <= 0x1_0000_0000_0000_0000,
        decreases end - i,
    {
        let c = chars[i];
        if !('0' <= c && c <= '9') {
            proof {
                assert(d[i - ds] == c);
                assert(!is_digit(d[i - ds]));
                assert(!all_digits(d));
            }
            return None;
        }
        let dv: u128 = (c as u32 - '0' as u32) as u128;
        let ghost prev = chars@.subrange(ds as int, i as int);
        let ghost next = chars@.subrange(ds as int, i + 1);
        assert(next.drop_last() =~= prev);
        assert(next.last() == c);
        assert(all_digits(next)) by {
            assert forall|j: int| 0 <= j < next.len() implies is_digit(#[trigger] next[j]) by {
                if j < prev.len() {
                    assert(next[j] == prev[j]);
                }
            }
        }
        assert(dv == digit_value(c));
        assert(digits_value(next) == digits_value(prev) * 10 + digit_value(c));
        acc = acc * 10 + dv;
        i = i + 1;
        if acc > 0x1_0000_0000_0000_0000 {
            // Too large for every target type: the whole run, if made of
            // digits, is at least as large.
            proof {
                if all_digits(d) {
                    assert(d.subrange(0, i - ds) =~= next);
                    lemma_digits_value_grows(d, i - ds);
                    assert(digits_value(d) > 0x1_0000_0000_0000_0000);
                }
            }
            return None;
        }
    }
    assert(chars@.subrange(ds as int, i as int) =~= d);
    let mag: i128 = acc as i128;
    let v: i128 = if negative { -mag } else { mag };
    if lo <= v && v <= hi {
        Some(v)
    } else {
        None
    }
}

/// `chars[start..end].parse::<i32>()`, with the error folded into `None`.
pub fn parse_i32(chars: &Vec<char>, start: usize, end: usize) -> (r: Option<i32>)
    requires
        start <= end <= chars@.len(),
    ensures
        r == spec_parse_i32(chars@.subrange(start as int, end as int)),
{
    match parse_integer(chars, start, end, true, i32::MIN as i128, i32::MAX as i128) {
        Some(v) => Some(v as i32),
        None => None,
    }
}

/// `chars[start..end].parse::<i64>()`, with the error folded into `None`.
pub fn parse_i64(chars: &Vec<char>, start: usize, end: usize) -> (r: Option<i64>)
    requires
        start <= end <= chars@.len(),
    ensures
        r == spec_parse_i64(chars@.subrange(start as int, end as int)),
{
    match parse_integer(chars, start, end, true, i64::MIN as i128, i64::MAX as i128) {
        Some(v) => Some(v as i64),
        None => None,
    }
}

/// `chars[start..end].parse::<usize>()`, with the error folded into `None`.
pub fn parse_usize(chars: &Vec<char>, start: usize, end: usize) -> (r: Option<usize>)
    requires
        start <= end <= chars@.len(),
    ensures
        r == spec_parse_usize(chars@.subrange(start as int, end as int)),
{
    match parse_integer(chars, start, end, false, 0, usize::MAX as i128) {
        Some(v) => Some(v as usize),
        None => None,
    }
}

// ---------------------------------------------------------------------
// Decimal rendering
// ---------------------------------------------------------------------

pub open spec fn digit_char(d: nat) -> char {
    if d == 0 { '0' } else if d == 1 { '1' } else if d == 2 { '2' } else if d == 3 { '3' }
    else if d == 4 { '4' } else if d == 5 { '5' } else if d == 6 { '6' } else if d == 7 { '7' }
    else if d == 8 { '8' } else { '9' }
}

/// The decimal digits of `n`, without leading zeros.
pub open spec fn nat_text(n: nat) -> Seq<char>
    decreases n,
{
    if n < 10 {
        seq![digit_char(n)]
    } else {
        nat_text(n / 10).push(digit_char(n % 10))
    }
}

/// `n` as `format!("{}", n)` writes it.
pub open spec fn int_text(n: int) -> Seq<char> {
    if n < 0 {
        seq!['-'] + nat_text((-n) as nat)
    } else {
        nat_text(n as nat)
    }
}

fn push_digits(out: &mut Vec<char>, n: u128)
    ensures
        final(out)@ == old(out)@ + nat_text(n as nat),
    decreases n,
{
    if n >= 10 {
        push_digits(out, n / 10);
    }
    let d: u32 = (n % 10) as u32;
    let c: char = if d == 0 { '0' } else if d == 1 { '1' } else if d == 2 { '2' } else if d == 3 {
        '3'
    } else if d == 4 { '4' } else if d == 5 { '5' } else if d == 6 { '6' } else if d == 7 {
        '7'
    } else if d == 8 { '8' } else { '9' };
    assert(c == digit_char((n % 10) as nat));
    out.push(c);
}

/// Appends the decimal rendering of `n` to `out`.
pub fn push_int(out: &mut Vec<char>, n: i128)
    requires
        n > i128::MIN,
    ensures
        final(out)@ == old(out)@ + int_text(n as int),
{
    if n < 0 {
        out.push('-');
        push_digits(out, (-n) as u128);
        assert(final(out)@ =~= old(out)@ + int_text(n as int));
    } else {
        push_digits(out, n as u128);
    }
}

proof fn lemma_digit_char(k: nat)
    requires
        k < 10,
    ensures
        is_digit(digit_char(k)),
        digit_value(digit_char(k)) == k,
{
}

proof fn lemma_nat_text_digits(n: nat)
    ensures
        nat_text(n).len() > 0,
        all_digits(nat_text(n)),
        digits_value(nat_text(n)) == n,
        nat_text(n)[0] != '+' && nat_text(n)[0] != '-',
    decreases n,
{
    if n >= 10 {
        lemma_nat_text_digits(n / 10);
        lemma_digit_char(n % 10);
        let t = nat_text(n);
        assert(t.drop_last() =~= nat_text(n / 10));
        assert(t.last() == digit_char(n % 10));
        assert(digits_value(t) == digits_value(nat_text(n / 10)) * 10 + digit_value(digit_char(n % 10)));
        assert(n == (n / 10) * 10 + n % 10);
        assert(all_digits(t)) by {
            assert forall|j: int| 0 <= j < t.len() implies is_digit(#[trigger] t[j]) by {
                if j < t.len() - 1 {
                    assert(t[j] == nat_text(n / 10)[j]);
                }
            }
        }
    } else {
        lemma_digit_char(n);
        assert(nat_text(n).drop_last() =~= Seq::<char>::empty());
        assert(digits_value(Seq::<char>::empty()) == 0);
        assert(digits_value(nat_text(n)) == digits_value(nat_text(n).drop_last()) * 10 + digit_value(nat_text(n).last()));
    }
}

/// Reading back a rendered integer gives the integer.
pub proof fn lemma_int_text_roundtrip(n: int)
    ensures
        integer_value(int_text(n), true) == Some(n),
        n >= 0 ==> integer_value(int_text(n), false) == Some(n),
{
    if n < 0 {
        lemma_nat_text_digits((-n) as nat);
        assert((seq!['-'] + nat_text((-n) as nat)).drop_first() =~= nat_text((-n) as nat));
    } else {
        lemma_nat_text_digits(n as nat);
    }
}

// ---------------------------------------------------------------------
// Words and case
// ---------------------------------------------------------------------

/// `s.split(" ")`: the pieces between single spaces, empty pieces kept.
pub open spec fn split_words(s: Seq<char>) -> Seq<Seq<char>>
    decreases s.len(),
{
    if s.len() == 0 {
        seq![Seq::<char>::empty()]
    } else {
        let prev = split_words(s.drop_last());
        if s.last() == ' ' {
            prev.push(Seq::<char>::empty())
        } else {
            prev.update(prev.len() - 1, prev.last().push(s.last()))
        }
    }
}

pub proof fn lemma_split_words_nonempty(s: Seq<char>)
    ensures
        split_words(s).len() >= 1,
    decreases s.len(),
{
    if s.len() > 0 {
        lemma_split_words_nonempty(s.drop_last());
    }
}

/// The words of `s` as the spans of `s` that they occupy.
pub open spec fn spans_match(s: Seq<char>, spans: Seq<(usize, usize)>) -> bool {
    &&& spans.len() == split_words(s).len()
    &&& forall|k: int|
        0 <= k < spans.len() ==> {
            &&& (#[trigger] spans[k]).0 <= spans[k].1 <= s.len()
            &&& s.subrange(spans[k].0 as int, spans[k].1 as int) == split_words(s)[k]
        }
}

/// The spans of `chars` that `split(" ")` yields, in order.
pub fn split_spans(chars: &Vec<char>) -> (spans: Vec<(usize, usize)>)
    ensures
        spans_match(chars@, spans@),
        spans@.len() >= 1,
{
    let mut spans: Vec<(usize, usize)> = Vec::new();
    let mut cur: usize = 0;
    let mut i: usize = 0;
    proof {
        assert(chars@.subrange(0, 0) =~= Seq::<char>::empty());
    }
    while i < chars.len()
        invariant
            0 <= cur <= i <= chars@.len(),
            split_words(chars@.subrange(0, i as int)).len() == spans@.len() + 1,
            forall|k: int|
                0 <= k < spans@.len() ==> {
                    &&& (#[trigger] spans@[k]).0 <= spans@[k].1 <= i
                    &&& chars@.subrange(spans@[k].0 as int, spans@[k].1 as int) == split_words(
                        chars@.subrange(0, i as int),
                    )[k]
                },
            chars@.subrange(cur as int, i as int) == split_words(chars@.subrange(0, i as int)).last(),
        decreases chars@.len() - i,
    {
        let ghost pre = chars@.subrange(0, i as int);
        let ghost post = chars@.subrange(0, i + 1);
        assert(post.drop_last() =~= pre);
        assert(post.last() == chars@[i as int]);
        if chars[i] == ' ' {
            spans.push((cur, i));
            cur = i + 1;
            assert(chars@.subrange(cur as int, i + 1) =~= Seq::<char>::empty());
        } else {
            assert(chars@.subrange(cur as int, i + 1) =~= chars@.subrange(cur as int, i as int).push(
                chars@[i as int],
            ));
        }
        i = i + 1;
    }
    spans.push((cur, i));
    proof {
        assert(chars@.subrange(0, i as int) =~= chars@);
        lemma_split_words_nonempty(chars@);
    }
    spans
}

pub open spec fn no_space(w: Seq<char>) -> bool {
    forall|i: int| 0 <= i < w.len() ==> #[trigger] w[i] != ' '
}

/// A word without spaces splits into itself.
pub proof fn lemma_split_single(w: Seq<char>)
    requires
        no_space(w),
    ensures
        split_words(w) == seq![w],
    decreases w.len(),
{
    if w.len() > 0 {
        let p = w.drop_last();
        assert(no_space(p)) by {
            assert forall|i: int| 0 <= i < p.len() implies #[trigger] p[i] != ' ' by {
                assert(p[i] == w[i]);
            }
        }
        lemma_split_single(p);
        assert(w.last() == w[w.len() - 1]);
        assert(p.push(w.last()) =~= w);
        assert(split_words(w) =~= seq![w]);
    } else {
        assert(w =~= Seq::<char>::empty());
    }
}

/// Splitting at a space splits the two sides apart.
pub proof fn lemma_split_concat(a: Seq<char>, b: Seq<char>)
    ensures
        split_words(a + seq![' '] + b) == split_words(a) + split_words(b),
    decreases b.len(),
{
    let s = a + seq![' '] + b;
    if b.len() == 0 {
        assert(s.drop_last() =~= a);
        assert(split_words(b) =~= seq![Seq::<char>::empty()]);
        assert(split_words(s) =~= split_words(a) + split_words(b));
    } else {
        let b0 = b.drop_last();
        lemma_split_concat(a, b0);
        lemma_split_words_nonempty(a);
        lemma_split_words_nonempty(b0);
        assert(s.drop_last() =~= a + seq![' '] + b0);
        assert(s.last() == b.last());
        assert(split_words(s) =~= split_words(a) + split_words(b));
    }
}

/// `s.split(sep)`: the pieces between single `sep`s, empty pieces kept.
pub open spec fn split_on(s: Seq<char>, sep: char) -> Seq<Seq<char>>
    decreases s.len(),
{
    if s.len() == 0 {
        seq![Seq::<char>::empty()]
    } else {
        let prev = split_on(s.drop_last(), sep);
        if s.last() == sep {
            prev.push(Seq::<char>::empty())
        } else {
            prev.update(prev.len() - 1, prev.last().push(s.last()))
        }
    }
}

pub proof fn lemma_split_on_nonempty(s: Seq<char>, sep: char)
    ensures
        split_on(s, sep).len() >= 1,
    decreases s.len(),
{
    if s.len() > 0 {
        lemma_split_on_nonempty(s.drop_last(), sep);
    }
}

/// A piece without the separator splits into itself.
pub proof fn lemma_split_on_single(w: Seq<char>, sep: char)
    requires
        forall|i: int| 0 <= i < w.len() ==> #[trigger] w[i] != sep,
    ensures
        split_on(w, sep) == seq![w],
    decreases w.len(),
{
    if w.len() > 0 {
        let p = w.drop_last();
        assert forall|i: int| 0 <= i < p.len() implies #[trigger] p[i] != sep by {
            assert(p[i] == w[i]);
        }
        lemma_split_on_single(p, sep);
        assert(w.last() == w[w.len() - 1]);
        assert(p.push(w.last()) =~= w);
        assert(split_on(w, sep) =~= seq![w]);
    } else {
        assert(w =~= Seq::<char>::empty());
    }
}

/// Splitting at a separator splits the two sides apart.
pub proof fn lemma_split_on_concat(a: Seq<char>, b: Seq<char>, sep: char)
    ensures
        split_on(a + seq![sep] + b, sep) == split_on(a, sep) + split_on(b, sep),
    decreases b.len(),
{
    let s = a + seq![sep] + b;
    if b.len() == 0 {
        assert(s.drop_last() =~= a);
        assert(split_on(b, sep) =~= seq![Seq::<char>::empty()]);
        assert(split_on(s, sep) =~= split_on(a, sep) + split_on(b, sep));
    } else {
        let b0 = b.drop_last();
        lemma_split_on_concat(a, b0, sep);
        lemma_split_on_nonempty(a, sep);
        lemma_split_on_nonempty(b0, sep);
        assert(s.drop_last() =~= a + seq![sep] + b0);
        assert(s.last() == b.last());
        assert(split_on(s, sep) =~= split_on(a, sep) + split_on(b, sep));
    }
}

/// Rendered integers are ASCII, hold no space, and are their own UTF-8.
pub proof fn lemma_int_text_plain(n: int)
    ensures
        vstd::utf8::is_ascii_chars(int_text(n)),
        no_space(int_text(n)),
        encode_utf8(int_text(n)) == ascii_bytes(int_text(n)),
        int_text(n).len() >= 1,
        forall|i: int| 0 <= i < int_text(n).len() ==> is_digit(#[trigger] int_text(n)[i]) || int_text(n)[i] == '-',
{
    let t = int_text(n);
    if n < 0 {
        lemma_nat_text_digits((-n) as nat);
        assert forall|i: int| 0 <= i < t.len() implies #[trigger] is_digit(t[i]) || t[i] == '-' by {
            if i > 0 {
                assert(t[i] == nat_text((-n) as nat)[i - 1]);
            }
        }
    } else {
        lemma_nat_text_digits(n as nat);
    }
    assert(vstd::utf8::is_ascii_chars(t)) by {
        assert forall|i: int| 0 <= i < t.len() implies '\0' <= #[trigger] t[i] <= '\u{7f}' by {
            assert(is_digit(t[i]) || t[i] == '-');
        }
    }
    assert(no_space(t)) by {
        assert forall|i: int| 0 <= i < t.len() implies #[trigger] t[i] != ' ' by {
            assert(is_digit(t[i]) || t[i] == '-');
        }
    }
    vstd::utf8::is_ascii_chars_encode_utf8(t);
    assert(encode_utf8(t) =~= ascii_bytes(t));
}

/// The UTF-8 of two runs of chars is the UTF-8 of each, one after the other.
pub proof fn lemma_encode_concat(a: Seq<char>, b: Seq<char>)
    ensures
        encode_utf8(a + b) == encode_utf8(a) + encode_utf8(b),
    decreases a.len(),
{
    if a.len() > 0 {
        lemma_encode_concat(a.drop_first(), b);
        assert((a + b).drop_first() =~= a.drop_first() + b);
        assert((a + b)[0] == a[0]);
        assert(encode_utf8(a + b) =~= encode_utf8(a) + encode_utf8(b));
    } else {
        assert(a + b =~= b);
    }
}

pub open spec fn ascii_upper(c: char) -> char {
    if 'a' <= c && c <= 'z' {
        ((c as u32) - 32) as char
    } else {
        c
    }
}

/// `s.to_ascii_uppercase()`.
pub open spec fn upper(s: Seq<char>) -> Seq<char> {
    s.map_values(|c: char| ascii_upper(c))
}

/// Whether `chars[start..end]`, upper-cased, is `word`.
pub fn upper_equals(chars: &Vec<char>, start: usize, end: usize, word: &Vec<char>) -> (r: bool)
    requires
        start <= end <= chars@.len(),
    ensures
        r == (upper(chars@.subrange(start as int, end as int)) == word@),
{
    let ghost s = chars@.subrange(start as int, end as int);
    if end - start != word.len() {
        proof {
            assert(upper(s).len() != word@.len());
        }
        return false;
    }
    let mut i: usize = 0;
    while i < word.len()
        invariant
            start <= end <= chars@.len(),
            end - start == word@.len(),
            s == chars@.subrange(start as int, end as int),
            i <= word@.len(),
            forall|j: int| 0 <= j < i ==> ascii_upper(s[j]) == word@[j],
        decreases word@.len() - i,
    {
        let c = chars[start + i];
        let u: char = if 'a' <= c && c <= 'z' {
            ((c as u32 - 32) as u8) as char
        } else {
            c
        };
        assert(s[i as int] == c);
        if u != word[i] {
            proof {
                assert(upper(s)[i as int] != word@[i as int]);
            }
            return false;
        }
        i = i + 1;
    }
    proof {
        assert(upper(s) =~= word@);
    }
    true
}

// ---------------------------------------------------------------------
// UTF-8
// ---------------------------------------------------------------------

/// `String::from_utf8`, its error folded into `None`: std documents that
/// it succeeds exactly on valid UTF-8 and then holds the decoded chars.
#[verifier::external_body]
pub fn utf8_to_string(bytes: &[u8]) -> (r: Option<String>)
    ensures
        r is Some <==> valid_utf8(bytes@),
        r matches Some(s) ==> s@ == decode_utf8(bytes@),
{
    String::from_utf8(bytes.to_vec()).ok()
}

/// `String::from_iter` over chars: the string made of exactly `chars`.
#[verifier::external_body]
pub fn chars_to_string(chars: &Vec<char>) -> (s: String)
    ensures
        s@ == chars@,
{
    chars.iter().collect()
}

/// Whether two string slices hold the same chars.
pub fn str_equal(a: &str, b: &str) -> (r: bool)
    ensures
        r == (a@ == b@),
{
    let n = a.unicode_len();
    if n != b.unicode_len() {
        return false;
    }
    let mut i: usize = 0;
    while i < n
        invariant
            n == a@.len(),
            n == b@.len(),
            i <= n,
            forall|j: int| 0 <= j < i ==> #[trigger] a@[j] == b@[j],
        decreases n - i,
    {
        if a.get_char(i) != b.get_char(i) {
            return false;
        }
        i = i + 1;
    }
    assert(a@ =~= b@);
    true
}

/// The bytes of chars that are all ASCII.
pub open spec fn ascii_bytes(s: Seq<char>) -> Seq<u8> {
    s.map_values(|c: char| c as u8)
}

/// `format!("{}\n", n)` as bytes.
pub fn int_line(n: i128) -> (line: Vec<u8>)
    requires
        n > i128::MIN,
    ensures
        line@ == ascii_bytes(int_text(n as int).push('\n')),
{
    let mut chars: Vec<char> = Vec::new();
    push_int(&mut chars, n);
    chars.push('\n');
    let mut line: Vec<u8> = Vec::new();
    let mut i: usize = 0;
    while i < chars.len()
        invariant
            i <= chars@.len(),
            line@ == ascii_bytes(chars@.subrange(0, i as int)),
        decreases chars@.len() - i,
    {
        line.push(chars[i] as u8);
        i = i + 1;
        assert(line@ =~= ascii_bytes(chars@.subrange(0, i as int)));
    }
    assert(chars@.subrange(0, i as int) =~= chars@);
    line
}

/// The chars of `s`, in order.
pub fn chars_of(s: &str) -> (v: Vec<char>)
    ensures
        v@ == s@,
{
    let n = s.unicode_len();
    let mut v: Vec<char> = Vec::new();
    let mut i: usize = 0;
    while i < n
        invariant
            n == s@.len(),
            i <= n,
            v@ == s@.subrange(0, i as int),
        decreases n - i,
    {
        let c = s.get_char(i);
        v.push(c);
        i = i + 1;
        assert(v@ =~= s@.subrange(0, i as int));
    }
    assert(v@ =~= s@);
    v
}

} // verus!
