//! The wire codec: every message round-trips through one line.
use wclipd::clip::{ClipBody, Entry, Preview};
use wclipd::message::{Request, Response, Wipe};

fn text_entry(s: &str) -> Entry {
    Entry::text(s.to_string(), None)
}

fn reencode_request(r: &Request) -> String {
    let line = r.encode();
    assert!(!line.contains('\n'), "encoded lines stay on one line");
    let back = Request::decode(&line).expect("an encoded request parses");
    back.encode()
}

fn reencode_response(r: &Response) -> String {
    let line = r.encode();
    assert!(!line.contains('\n'), "encoded lines stay on one line");
    let back = Response::decode(&line).expect("an encoded response parses");
    back.encode()
}

#[test]
fn plain_requests_have_fixed_lines() {
    assert_eq!(Request::Ping.encode(), "ping");
    assert_eq!(Request::Stop.encode(), "stop");
    assert_eq!(Request::Clear.encode(), "clear");
    assert_eq!(Request::Groups.encode(), "groups");
    assert_eq!(
        Request::Select { index: 5, primary: true, group: None }.encode(),
        "select 5 true none"
    );
    assert_eq!(
        Request::List { length: 10, group: Some("abc".to_string()) }.encode(),
        "list 10 some 3:abc"
    );
    assert_eq!(
        Request::Wipe { wipe: Wipe::All, group: None }.encode(),
        "wipe all none"
    );
}

#[test]
fn request_round_trip_all_variants() {
    let cases = vec![
        Request::Ping,
        Request::Stop,
        Request::Clear,
        Request::Groups,
        Request::Copy {
            entry: text_entry("hello world"),
            primary: false,
            group: Some("work".to_string()),
            index: Some(7),
        },
        Request::Copy { entry: text_entry(""), primary: true, group: None, index: None },
        Request::Select { index: 3, primary: false, group: Some("a b".to_string()) },
        Request::List { length: 80, group: None },
        Request::Delete { index: 2, group: Some("g".to_string()) },
        Request::Find { index: None, group: None },
        Request::Find { index: Some(9), group: Some("default".to_string()) },
        Request::Wipe { wipe: Wipe::Single { index: 4 }, group: Some("x".to_string()) },
    ];
    for case in &cases {
        let line = case.encode();
        assert_eq!(reencode_request(case), line);
    }
}

#[test]
fn data_bodies_round_trip_through_base64() {
    let bytes: Vec<u8> = vec![0, 1, 2, 254, 255, 10, 32, 92];
    let entry = Entry { mime: vec!["application/octet-stream".to_string()], body: ClipBody::Data(bytes.clone()) };
    let req = Request::Copy { entry, primary: false, group: None, index: None };
    let line = req.encode();
    assert!(!line.contains('\n'));
    let back = Request::decode(&line).expect("parses");
    match back {
        Request::Copy { entry, .. } => match entry.body {
            ClipBody::Data(b) => assert_eq!(b, bytes),
            ClipBody::Text(_) => panic!("expected a data body"),
        },
        _ => panic!("expected a copy request"),
    }
}

#[test]
fn empty_data_body_round_trips() {
    let entry = Entry { mime: vec![], body: ClipBody::Data(vec![]) };
    let req = Request::Copy { entry, primary: true, group: None, index: None };
    let line = req.encode();
    let back = Request::decode(&line).expect("parses");
    match back {
        Request::Copy { entry, .. } => match entry.body {
            ClipBody::Data(b) => assert!(b.is_empty()),
            ClipBody::Text(_) => panic!("expected a data body"),
        },
        _ => panic!("expected a copy request"),
    }
}

#[test]
fn awkward_text_round_trips() {
    let awkward = "line one\nline two\\ spaced  out:colons 7:and digits";
    let req = Request::Copy {
        entry: text_entry(awkward),
        primary: false,
        group: Some("odd name \n here".to_string()),
        index: None,
    };
    let line = req.encode();
    assert!(!line.contains('\n'), "newlines travel escaped");
    let back = Request::decode(&line).expect("parses");
    match back {
        Request::Copy { entry, group, .. } => {
            match entry.body {
                ClipBody::Text(t) => assert_eq!(t, awkward),
                ClipBody::Data(_) => panic!("expected a text body"),
            }
            assert_eq!(group.as_deref(), Some("odd name \n here"));
        },
        _ => panic!("expected a copy request"),
    }
}

#[test]
fn response_round_trip_all_variants() {
    let cases = vec![
        Response::Okay,
        Response::error("no record under that index".to_string()),
        Response::Groups { groups: vec![] },
        Response::Groups { groups: vec!["a".to_string(), "b c".to_string()] },
        Response::Entry { entry: text_entry("payload"), index: 12 },
        Response::Previews { previews: vec![] },
        Response::Previews {
            previews: vec![
                Preview { index: 0, preview: "one".to_string(), last_used: 1000 },
                Preview { index: 3, preview: "two words".to_string(), last_used: 2000 },
            ],
        },
    ];
    for case in &cases {
        let line = case.encode();
        assert_eq!(reencode_response(case), line);
        assert_eq!(Response::Okay.encode(), "ok");
    }
}

#[test]
fn preview_fields_survive_the_wire() {
    let resp = Response::Previews {
        previews: vec![Preview { index: 9, preview: "p q".to_string(), last_used: 123456 }],
    };
    let back = Response::decode(&resp.encode()).expect("parses");
    match back {
        Response::Previews { previews } => {
            assert_eq!(previews.len(), 1);
            assert_eq!(previews[0].index, 9);
            assert_eq!(previews[0].preview, "p q");
            assert_eq!(previews[0].last_used, 123456);
        },
        _ => panic!("expected previews"),
    }
}

#[test]
fn malformed_lines_are_rejected() {
    assert!(Request::decode("").is_none());
    assert!(Request::decode("nonsense").is_none());
    assert!(Request::decode("ping extra").is_none());
    assert!(Request::decode("select notanumber true none").is_none());
    assert!(Request::decode("select 5 true").is_none());
    assert!(Request::decode("select 99999999999999999999999 true none").is_none());
    assert!(Response::decode("error 99:short").is_none());
    assert!(Response::decode("ok trailing").is_none());
}
