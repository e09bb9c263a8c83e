use file_proxy::proxy::client::{parse_status_reply, ReplyBuffer, ServerRefused, StatusError};
use file_proxy::proxy::framing::{request_parser, split_frames, FrameError, FramesEnd};
use file_proxy::proxy::cache::Cache;
use file_proxy::proxy::user::{open_descriptor, File, PathMapper, User, O_APPEND};

#[test]
fn a_reply_is_gathered_until_a_line_end() {
    let mut r = ReplyBuffer::new();
    assert!(!r.push_chunk(b"ab"));
    assert!(r.push_chunk(b"c\n"));
    assert_eq!(r.finish(), Ok(b"abc\n".to_vec()));
    let mut r = ReplyBuffer::new();
    assert!(r.push_chunk(b""));
    assert_eq!(r.finish(), Ok(Vec::new()));
}

#[test]
fn the_failure_reply_is_an_error() {
    let mut r = ReplyBuffer::new();
    assert!(r.push_chunk(b"-1\n"));
    assert_eq!(r.finish(), Err(ServerRefused));
    let mut r = ReplyBuffer::new();
    r.push_chunk(b"-1");
    r.push_chunk(b"\n");
    assert_eq!(r.finish(), Err(ServerRefused));
}

#[test]
fn status_replies_carry_a_number() {
    assert_eq!(parse_status_reply(b"3\n"), Ok(3));
    assert_eq!(parse_status_reply(b"-1\n"), Ok(-1));
    assert_eq!(parse_status_reply(b"-2\n"), Err(StatusError::Refused));
    assert_eq!(parse_status_reply(b"x\n"), Err(StatusError::NotANumber));
    assert_eq!(parse_status_reply(b"\n"), Err(StatusError::NotANumber));
    assert_eq!(parse_status_reply(&[0xff, b'\n']), Err(StatusError::NotUtf8));
    assert_eq!(parse_status_reply(b"42"), Ok(4));
}

#[test]
fn a_frame_is_a_length_a_space_and_a_request() {
    assert_eq!(request_parser(b"5 hello"), Ok(("hello".to_string(), 6)));
    assert_eq!(request_parser(b"0 "), Ok((String::new(), 1)));
    assert_eq!(request_parser(b"hello"), Err(FrameError::NoSpace));
    assert_eq!(request_parser(b"x hello"), Err(FrameError::BadLength));
    assert_eq!(request_parser(&[0xff, b' ', b'a']), Err(FrameError::NotUtf8));
    assert_eq!(request_parser(&[b'1', b' ', 0xff]), Err(FrameError::NotUtf8));
}

#[test]
fn frames_back_to_back_are_read_in_turn() {
    let f = split_frames(b"2 hi3 abc");
    assert_eq!(f.values, vec!["hi".to_string(), "abc".to_string()]);
    assert_eq!(f.end, FramesEnd::Done);
    let f = split_frames(b"2 hi x");
    assert_eq!(f.values, vec!["hi".to_string()]);
    assert_eq!(f.end, FramesEnd::Failed(FrameError::BadLength));
    let f = split_frames(b"9 hi");
    assert!(f.values.is_empty());
    assert_eq!(f.end, FramesEnd::Stops);
    let f = split_frames(b"");
    assert!(f.values.is_empty());
    assert_eq!(f.end, FramesEnd::Done);
    let f = split_frames(b"9 OPEN /a 02 hi");
    assert_eq!(f.values, vec!["OPEN /a 0".to_string(), "hi".to_string()]);
}

#[test]
fn a_user_tracks_its_open_files() {
    let mut u = User::new(4);
    assert_eq!(u.client_id(), 4);
    u.open_file(3, O_APPEND | 1);
    u.open_file(5, 0);
    u.open_file(3, 0);
    assert_eq!(u.files(), &vec![File { fd: 3, flags: O_APPEND | 1 }, File { fd: 5, flags: 0 }, File { fd: 3, flags: 0 }]);
    assert!(u.is_appendable(3));
    assert!(!u.is_appendable(5));
    assert!(!u.is_appendable(9));
    assert!(u.close_file(3));
    assert!(!u.is_appendable(3));
    assert!(u.close_file(3));
    assert!(!u.close_file(3));
    assert_eq!(u.files(), &vec![File { fd: 5, flags: 0 }]);
}

#[test]
fn the_path_table_grows_as_descriptors_are_given_paths() {
    let mut m = PathMapper::new();
    assert_eq!(m.find("/a"), -1);
    m.assign(2, "/a");
    assert_eq!(m.len(), 3);
    assert_eq!(m.file_name(0), "UNINIT");
    assert_eq!(m.file_name(2), "/a");
    assert_eq!(m.find("/a"), 2);
    assert_eq!(m.find("UNINIT"), 0);
    m.assign(0, "/b");
    assert_eq!(m.len(), 3);
    assert_eq!(m.find("/b"), 0);
    m.release(&vec![2, 0]);
    assert_eq!(m.file_name(2), "UNINIT");
    assert_eq!(m.file_name(0), "UNINIT");
    assert_eq!(m.find("/a"), -1);
}

#[test]
fn an_open_reuses_a_known_path_and_numbers_a_new_one() {
    let mut m = PathMapper::new();
    let mut c = Cache::new(2);
    let mut u = User::new(4);
    // A new path gets the cache's next descriptor and lands in the table.
    assert_eq!(open_descriptor(&mut m, &mut c, &mut u, "/a", 0), 1);
    assert_eq!(c.next_fd(), 2);
    assert_eq!(m.len(), 2);
    assert_eq!(m.file_name(1), "/a");
    assert_eq!(m.file_name(0), "UNINIT");
    assert_eq!(open_descriptor(&mut m, &mut c, &mut u, "/b", 1024), 2);
    // A known path gets its slot again; the counter does not move.
    assert_eq!(open_descriptor(&mut m, &mut c, &mut u, "/a", 1), 1);
    assert_eq!(c.next_fd(), 3);
    assert_eq!(
        u.files(),
        &vec![File { fd: 1, flags: 0 }, File { fd: 2, flags: 1024 }, File { fd: 1, flags: 1 }]
    );
    assert_eq!(u.client_id(), 4);
    // The "UNINIT" placeholder is a path like any other.
    assert_eq!(open_descriptor(&mut m, &mut c, &mut u, "UNINIT", 0), 0);
}
