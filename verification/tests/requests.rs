use file_proxy::command::RequestError;
use file_proxy::proxy::request::Request;
use file_proxy::remote::request::Request as ServerRequest;

fn read(line: &str) -> Result<Request<'_>, RequestError> {
    assert!(!Request::stops_on(line), "line {:?} stops", line);
    Request::new(line)
}

#[test]
fn reads_each_request_kind() {
    assert_eq!(read("OPEN /tmp/x 2"), Ok(Request::Open { path: "/tmp/x", flags: 2 }));
    assert_eq!(read("open /tmp/x -1"), Ok(Request::Open { path: "/tmp/x", flags: -1 }));
    assert_eq!(read("CLOSE 5"), Ok(Request::Close { fd: 5 }));
    assert_eq!(read("Read 3 10"), Ok(Request::Read { fd: 3, count: 10 }));
    assert_eq!(read("WRITE 3 hello big world"), Ok(Request::Write { fd: 3, data: b"hello big world".to_vec() }));
    assert_eq!(read("LSEEK 3 -4 1"), Ok(Request::Lseek { fd: 3, offset: -4, whence: 1 }));
    assert_eq!(read("STAT 1 /p"), Ok(Request::Stat { ver: 1, path: "/p" }));
    assert_eq!(read("UNLINK /p"), Ok(Request::Unlink { path: "/p" }));
    assert_eq!(read("GETDIRENTRIES 3 100 0"), Ok(Request::GetDirentries { fd: 3, nbytes: 100, basep: 0 }));
    assert_eq!(read("getdirtree /"), Ok(Request::GetDirtree { path: "/" }));
    assert_eq!(read("HELLO there"), Ok(Request::Default));
}

#[test]
fn reports_each_error() {
    assert_eq!(read("HELLO"), Err(RequestError::InsufficientArguments));
    assert_eq!(read(""), Err(RequestError::InsufficientArguments));
    assert_eq!(read("OPEN a x"), Err(RequestError::InvalidFlagValue));
    assert_eq!(read("CLOSE x"), Err(RequestError::InvalidFileDescriptor));
    assert_eq!(read("CLOSE 5\n"), Err(RequestError::InvalidFileDescriptor));
    assert_eq!(read("READ x"), Err(RequestError::InvalidFileDescriptor));
    assert_eq!(read("READ 3 -1"), Err(RequestError::InvalidCount));
    assert_eq!(read("WRITE x hi"), Err(RequestError::InvalidNumber));
    assert_eq!(read("LSEEK 3"), Err(RequestError::NotEnoughArguments));
    assert_eq!(read("LSEEK x 1 1"), Err(RequestError::InvalidNumber));
    assert_eq!(read("LSEEK 1 x 1"), Err(RequestError::InvalidNumber));
    assert_eq!(read("STAT x /p"), Err(RequestError::VersionNotFound));
    assert_eq!(read("GETDIRENTRIES 3 100"), Err(RequestError::NotEnoughArguments));
    assert_eq!(read("GETDIRENTRIES 3 -1 0"), Err(RequestError::InvalidNumber));
}

#[test]
fn knows_the_lines_that_stop_short() {
    assert!(Request::stops_on("OPEN a"));
    assert!(Request::stops_on("READ 3"));
    assert!(!Request::stops_on("READ x"));
    assert!(Request::stops_on("WRITE 3"));
    assert!(Request::stops_on("STAT 1"));
    assert!(Request::stops_on("LSEEK 1 2"));
    assert!(Request::stops_on("LSEEK 1 2 x"));
    assert!(!Request::stops_on("UNLINK /p"));
}

#[test]
fn writes_requests_for_the_server() {
    assert_eq!(Request::Open { path: "/tmp/x", flags: 2 }.to_wire(), "OPEN /tmp/x 2\n\n");
    assert_eq!(Request::Read { fd: 3, count: 10 }.to_wire(), "READ 3 10\n\n");
    assert_eq!(Request::Write { fd: 4, data: b"a b".to_vec() }.to_wire(), "WRITE 4 a b\n\n");
    assert_eq!(Request::Lseek { fd: 1, offset: -2, whence: 0 }.to_wire(), "LSEEK 1 -2 0\n\n");
    assert_eq!(Request::GetDirentries { fd: 1, nbytes: 2, basep: 3 }.to_wire(), "GETDIRENTRIES 1 2 3\n\n");
    assert_eq!(Request::Default.to_wire(), "default\n\n");
}

#[test]
fn written_requests_read_back() {
    let reqs = vec![
        Request::Open { path: "/a", flags: 7 },
        Request::Close { fd: -3 },
        Request::Read { fd: 1, count: 0 },
        Request::Write { fd: 2, data: b"x  y".to_vec() },
        Request::Lseek { fd: 1, offset: i64::MIN, whence: 2 },
        Request::Stat { ver: 1, path: "p" },
        Request::Unlink { path: "q" },
        Request::GetDirentries { fd: 0, nbytes: usize::MAX, basep: -1 },
        Request::GetDirtree { path: "/" },
    ];
    for r in reqs {
        let wire = r.to_wire();
        let line = wire.trim_end_matches('\n');
        assert_eq!(Request::new(line).as_ref(), Ok(&r));
    }
}

#[test]
fn the_server_reads_requests_off_the_connection() {
    assert_eq!(ServerRequest::new(b""), Ok(ServerRequest::Shutdown));
    assert!(ServerRequest::new(b"").unwrap().is_shutdown());
    assert_eq!(ServerRequest::new(b"OPEN /a 0"), Ok(ServerRequest::Open { path: "/a".to_string(), flags: 0 }));
    assert!(!ServerRequest::new(b"OPEN /a 0").unwrap().is_shutdown());
    assert_eq!(ServerRequest::new(b"WRITE 3 hi there"), Ok(ServerRequest::Write { fd: 3, data: b"hi there ".to_vec() }));
    assert_eq!(ServerRequest::new(b"WRITE 3"), Ok(ServerRequest::Write { fd: 3, data: Vec::new() }));
    assert_eq!(ServerRequest::new(b"CLOSE 4\n\n"), Err(RequestError::InvalidFileDescriptor));
    assert_eq!(ServerRequest::new(b"bogus request"), Ok(ServerRequest::Default));
    assert!(ServerRequest::stops_on(&[0xff, 0x20]));
    assert!(ServerRequest::stops_on(b"STAT 1"));
    assert!(!ServerRequest::stops_on(b""));
    assert!(!ServerRequest::stops_on(b"WRITE 3"));
}

#[test]
fn the_server_reads_the_proxys_command_lines() {
    let reqs = vec![
        (Request::Open { path: "/a", flags: 7 }, ServerRequest::Open { path: "/a".to_string(), flags: 7 }),
        (Request::Close { fd: 3 }, ServerRequest::Close { fd: 3 }),
        (Request::Stat { ver: 1, path: "/s" }, ServerRequest::Stat { ver: 1, path: "/s".to_string() }),
        (Request::GetDirtree { path: "/" }, ServerRequest::GetDirtree { path: "/".to_string() }),
    ];
    for (proxy_side, server_side) in reqs {
        let wire = proxy_side.to_wire();
        let line = wire.trim_end_matches('\n');
        assert_eq!(ServerRequest::new(line.as_bytes()), Ok(server_side));
    }
    // With its line ends, a line that ends in a number no longer reads.
    let wire = Request::Close { fd: 3 }.to_wire();
    assert_eq!(ServerRequest::new(wire.as_bytes()), Err(RequestError::InvalidFileDescriptor));
    // The server's `WRITE` keeps a space after each word.
    let wire = Request::Write { fd: 3, data: b"a b".to_vec() }.to_wire();
    let line = wire.trim_end_matches('\n');
    assert_eq!(ServerRequest::new(line.as_bytes()), Ok(ServerRequest::Write { fd: 3, data: b"a b ".to_vec() }));
}
