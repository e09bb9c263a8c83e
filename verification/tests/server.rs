use file_proxy::proxy::client::parse_status_reply;
use file_proxy::remote::dirtree::DirTreeNodes;
use file_proxy::remote::reply::{default_reply, direntries_reply, dirtree_reply, read_reply, stat_reply,
    status_reply, StatFields};

#[test]
fn numbers_are_answered_on_a_line() {
    assert_eq!(status_reply(3), b"3\n".to_vec());
    assert_eq!(status_reply(-1), b"-1\n".to_vec());
    assert_eq!(status_reply(i64::MAX), format!("{}\n", i64::MAX).into_bytes());
    assert_eq!(default_reply(), b"-1\n".to_vec());
}

#[test]
fn a_read_is_answered_with_the_count_asked() {
    let mut buffer = vec![0u8; 8];
    buffer[..3].copy_from_slice(b"abc");
    assert_eq!(read_reply(&buffer, 3, 5), b"abc\0\0".to_vec());
    assert_eq!(read_reply(&buffer, -1, 5), b"-1\n".to_vec());
    assert_eq!(read_reply(&buffer, 0, 0), Vec::<u8>::new());
}

#[test]
fn a_status_is_answered_as_comma_separated_fields() {
    let f = StatFields { dev: 1, ino: 22, mode: 0o100644, nlink: 1, uid: 1000, size: -5, mtime: 1700000000 };
    assert_eq!(stat_reply(0, &f), b"1,22,33188,1,1000,-5,1700000000\n".to_vec());
    assert_eq!(stat_reply(-1, &f), b"-1\n".to_vec());
}

#[test]
fn directory_entries_are_answered_whole() {
    assert_eq!(direntries_reply(b"ab\0", 3), b"ab\0\n".to_vec());
    assert_eq!(direntries_reply(&[0xff], -1), b"-1\n".to_vec());
}

#[test]
fn a_tree_is_listed_with_one_tab_per_level() {
    let leaf = DirTreeNodes::new("/r/a/x".to_string(), Vec::new());
    let a = DirTreeNodes::new("/r/a".to_string(), vec![leaf]);
    let b = DirTreeNodes::new("/r/b".to_string(), Vec::new());
    let root = DirTreeNodes::new("/r".to_string(), vec![a, b]);
    assert_eq!(root.fmt_with_indent(0), "/r:2\n\t/r/a:1\n\t\t/r/a/x:0\n\t/r/b:0\n");
    assert_eq!(root.fmt_with_indent(1), "\t/r:2\n\t\t/r/a:1\n\t\t\t/r/a/x:0\n\t\t/r/b:0\n");
    assert_eq!(dirtree_reply(Some(&root)), b"/r:2\n\t/r/a:1\n\t\t/r/a/x:0\n\t/r/b:0\n\n".to_vec());
    assert_eq!(dirtree_reply(None), b"-1\n".to_vec());
}

#[test]
fn the_proxy_reads_back_the_servers_status_lines() {
    for n in [-1i32, 0, 7, i32::MAX] {
        assert_eq!(parse_status_reply(&status_reply(n as i64)), Ok(n));
    }
}
