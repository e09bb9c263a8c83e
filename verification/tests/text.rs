use file_proxy::text::{chars_of, chars_to_string, int_line, parse_i32, parse_i64, parse_usize, push_int,
    split_spans, str_equal, upper_equals, utf8_to_string};

fn chars(s: &str) -> Vec<char> {
    s.chars().collect()
}

fn i32_of(s: &str) -> Option<i32> {
    let c = chars(s);
    parse_i32(&c, 0, c.len())
}

fn usize_of(s: &str) -> Option<usize> {
    let c = chars(s);
    parse_usize(&c, 0, c.len())
}

#[test]
fn parses_integers_as_str_parse_does() {
    for s in ["0", "42", "-7", "+5", "007", "-0", "2147483647", "-2147483648", "2147483648", "", "+", "-", "4a", " 1", "1\n"] {
        assert_eq!(i32_of(s), s.parse::<i32>().ok(), "input {:?}", s);
    }
    for s in ["0", "18446744073709551615", "18446744073709551616", "-0", "+3", "-1", "99999999999999999999999999"] {
        assert_eq!(usize_of(s), s.parse::<usize>().ok(), "input {:?}", s);
    }
    let c = chars("-9223372036854775808");
    assert_eq!(parse_i64(&c, 0, c.len()), Some(i64::MIN));
    let c = chars("9223372036854775808");
    assert_eq!(parse_i64(&c, 0, c.len()), None);
}

#[test]
fn parses_a_span_of_a_line() {
    let c = chars("READ 12 34");
    assert_eq!(parse_i32(&c, 5, 7), Some(12));
    assert_eq!(parse_usize(&c, 8, 10), Some(34));
}

#[test]
fn renders_integers() {
    let mut out = Vec::new();
    push_int(&mut out, -15);
    out.push(' ');
    push_int(&mut out, 0);
    out.push(' ');
    push_int(&mut out, i64::MIN as i128);
    assert_eq!(out.iter().collect::<String>(), "-15 0 -9223372036854775808");
    assert_eq!(int_line(-1), b"-1\n".to_vec());
    assert_eq!(int_line(1234), b"1234\n".to_vec());
}

#[test]
fn rendered_integers_read_back() {
    for n in [0i32, 1, -1, 99, i32::MAX, i32::MIN] {
        let mut out = Vec::new();
        push_int(&mut out, n as i128);
        assert_eq!(parse_i32(&out, 0, out.len()), Some(n));
    }
}

#[test]
fn splits_on_single_spaces() {
    let c = chars("a  bc ");
    assert_eq!(split_spans(&c), vec![(0, 1), (2, 2), (3, 5), (6, 6)]);
    let c = chars("");
    assert_eq!(split_spans(&c), vec![(0, 0)]);
    let c = chars("open");
    assert_eq!(split_spans(&c), vec![(0, 4)]);
}

#[test]
fn compares_upper_cased_words() {
    let c = chars("oPeN x");
    assert!(upper_equals(&c, 0, 4, &chars("OPEN")));
    assert!(!upper_equals(&c, 0, 4, &chars("OPENS")));
    assert!(!upper_equals(&c, 5, 6, &chars("Y")));
    let c = chars("é");
    assert!(!upper_equals(&c, 0, 1, &chars("É")));
}

#[test]
fn converts_strings() {
    assert_eq!(utf8_to_string("héllo".as_bytes()), Some("héllo".to_string()));
    assert_eq!(utf8_to_string(&[0xff, 0x41]), None);
    assert_eq!(chars_to_string(&vec!['a', 'é']), "aé");
    assert_eq!(chars_of("aé b"), vec!['a', 'é', ' ', 'b']);
    assert!(str_equal("x/y", "x/y"));
    assert!(!str_equal("x/y", "x/z"));
    assert!(!str_equal("x", "xy"));
    assert!(str_equal("", ""));
    assert!(str_equal("é/ü", "é/ü"));
    assert!(!str_equal("é", "e"));
}
