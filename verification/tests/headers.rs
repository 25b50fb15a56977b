use webclient::command::{cmd_to_method, follow_redirects, Commands, Method};
use webclient::headers::{
    build_headers, headermap_to_json, is_visible, make_line, read_json_to_header_map, Header,
    HeaderError, HeaderSet, JsonDoc, JsonEntry,
};

fn pairs(set: &HeaderSet) -> Vec<(Vec<u8>, Vec<u8>)> {
    set.lines.iter().map(|h| (h.name.clone(), h.value.clone())).collect()
}

fn error_of(r: Result<HeaderSet, HeaderError>) -> Option<HeaderError> {
    match r {
        Ok(_) => None,
        Err(e) => Some(e),
    }
}

#[test]
fn header_object_is_read() {
    let text = b"{\"Content-Type\": \"text/html\", \"Accept\": \"*/*\"}";
    match read_json_to_header_map(text) {
        Ok(set) => assert_eq!(
            pairs(&set),
            vec![
                (b"accept".to_vec(), b"*/*".to_vec()),
                (b"content-type".to_vec(), b"text/html".to_vec()),
            ]
        ),
        Err(e) => panic!("refused: {:?}", e),
    }
}

#[test]
fn empty_object_gives_no_lines() {
    match read_json_to_header_map(b"{}") {
        Ok(set) => assert!(set.lines.is_empty()),
        Err(e) => panic!("refused: {:?}", e),
    }
    assert!(HeaderSet::new().lines.is_empty());
}

#[test]
fn malformed_json_is_refused() {
    assert_eq!(error_of(read_json_to_header_map(b"{\"a\": ")), Some(HeaderError::InvalidJson));
    assert_eq!(error_of(read_json_to_header_map(b"")), Some(HeaderError::InvalidJson));
    assert_eq!(error_of(read_json_to_header_map(&[0xff])), Some(HeaderError::InvalidJson));
}

#[test]
fn non_object_is_refused() {
    assert_eq!(error_of(read_json_to_header_map(b"[1, 2]")), Some(HeaderError::NotAnObject));
    assert_eq!(error_of(read_json_to_header_map(b"\"x\"")), Some(HeaderError::NotAnObject));
}

#[test]
fn bad_members_are_refused() {
    assert_eq!(error_of(read_json_to_header_map(b"{\"a\": 1}")), Some(HeaderError::ValueNotText));
    assert_eq!(
        error_of(read_json_to_header_map(b"{\"bad name\": \"x\"}")),
        Some(HeaderError::InvalidName)
    );
    assert_eq!(error_of(read_json_to_header_map(b"{\"\": \"x\"}")), Some(HeaderError::InvalidName));
    assert_eq!(
        error_of(read_json_to_header_map(b"{\"a\": \"x\\u007fy\"}")),
        Some(HeaderError::InvalidValue)
    );
    assert_eq!(
        error_of(read_json_to_header_map(b"{\"a\": \"line\\nbreak\"}")),
        Some(HeaderError::InvalidValue)
    );
}

#[test]
fn first_bad_member_decides() {
    let doc = JsonDoc::Object(vec![
        JsonEntry { key: b"ok".to_vec(), text: Some(b"v".to_vec()) },
        JsonEntry { key: b"n".to_vec(), text: None },
        JsonEntry { key: b"bad name".to_vec(), text: Some(b"v".to_vec()) },
    ]);
    assert_eq!(error_of(build_headers(&doc)), Some(HeaderError::ValueNotText));
    let both = JsonDoc::Object(vec![JsonEntry { key: b"bad name".to_vec(), text: None }]);
    assert_eq!(error_of(build_headers(&both)), Some(HeaderError::InvalidName));
    assert_eq!(error_of(build_headers(&JsonDoc::Invalid)), Some(HeaderError::InvalidJson));
    assert_eq!(error_of(build_headers(&JsonDoc::NotObject)), Some(HeaderError::NotAnObject));
}

#[test]
fn a_line_needs_a_name_and_a_text_value() {
    let name = || Some(b"x-a".to_vec());
    let error = |r: Result<Header, HeaderError>| match r {
        Ok(_) => None,
        Err(e) => Some(e),
    };
    assert_eq!(error(make_line(None, &Some(b"v".to_vec()))), Some(HeaderError::InvalidName));
    assert_eq!(error(make_line(None, &None)), Some(HeaderError::InvalidName));
    assert_eq!(error(make_line(name(), &None)), Some(HeaderError::ValueNotText));
    assert_eq!(error(make_line(name(), &Some(vec![31]))), Some(HeaderError::InvalidValue));
    assert_eq!(error(make_line(name(), &Some(vec![127]))), Some(HeaderError::InvalidValue));
    match make_line(name(), &Some(vec![9, 32, 126, 128, 255])) {
        Ok(h) => {
            assert_eq!(h.name, b"x-a".to_vec());
            assert_eq!(h.value, vec![9, 32, 126, 128, 255]);
        }
        Err(e) => panic!("refused: {:?}", e),
    }
}

#[test]
fn built_lines_keep_document_order() {
    let doc = JsonDoc::Object(vec![
        JsonEntry { key: b"X-B".to_vec(), text: Some(b"1\t2".to_vec()) },
        JsonEntry { key: b"x-a".to_vec(), text: Some("\u{e9}".as_bytes().to_vec()) },
    ]);
    match build_headers(&doc) {
        Ok(set) => assert_eq!(
            pairs(&set),
            vec![
                (b"x-b".to_vec(), b"1\t2".to_vec()),
                (b"x-a".to_vec(), "\u{e9}".as_bytes().to_vec()),
            ]
        ),
        Err(e) => panic!("refused: {:?}", e),
    }
}

#[test]
fn headers_are_written_as_json() {
    let set = HeaderSet {
        lines: vec![
            Header { name: b"content-type".to_vec(), value: b"text/html".to_vec() },
            Header { name: b"accept".to_vec(), value: b"*/*".to_vec() },
        ],
    };
    let text = headermap_to_json(&set);
    assert_eq!(
        text,
        Ok(b"{\n  \"accept\": \"*/*\",\n  \"content-type\": \"text/html\"\n}".to_vec())
    );
    assert_eq!(headermap_to_json(&HeaderSet::new()), Ok(b"{}".to_vec()));
}

#[test]
fn unprintable_header_is_not_written() {
    let set = HeaderSet { lines: vec![Header { name: b"a".to_vec(), value: vec![0xe9] }] };
    assert_eq!(headermap_to_json(&set), Err(HeaderError::InvalidValue));
    assert!(is_visible(b"abc\t ~"));
    assert!(!is_visible(&[127]));
    assert!(!is_visible(&[10]));
}

#[test]
fn lookup_ignores_case_and_takes_the_first_line() {
    let set = HeaderSet {
        lines: vec![
            Header { name: b"Accept".to_vec(), value: b"a".to_vec() },
            Header { name: b"CONTENT-type".to_vec(), value: b"image/png".to_vec() },
            Header { name: b"content-type".to_vec(), value: b"text/html".to_vec() },
        ],
    };
    assert_eq!(set.get(b"accept"), Some(b"a".to_vec()));
    assert_eq!(set.get(b"Content-Type"), Some(b"image/png".to_vec()));
    assert_eq!(set.get(b"content"), None);
    assert_eq!(set.content_type(), b"image/png".to_vec());
    assert_eq!(HeaderSet::new().content_type(), Vec::<u8>::new());
    assert_eq!(HeaderSet::new().get(b""), None);
}

#[test]
fn each_command_has_its_method() {
    let u = || String::from("example.com");
    assert_eq!(cmd_to_method(&Commands::GET { url: u() }), Method::GET);
    assert_eq!(cmd_to_method(&Commands::POST { url: u() }), Method::POST);
    assert_eq!(cmd_to_method(&Commands::PUT { url: u() }), Method::PUT);
    assert_eq!(cmd_to_method(&Commands::DELETE { url: u() }), Method::DELETE);
    assert_eq!(cmd_to_method(&Commands::OPTIONS { url: u() }), Method::OPTIONS);
    assert_eq!(cmd_to_method(&Commands::HEAD { url: u() }), Method::HEAD);
    assert_eq!(cmd_to_method(&Commands::CONNECT { url: u() }), Method::CONNECT);
    assert_eq!(cmd_to_method(&Commands::PATCH { url: u() }), Method::PATCH);
    assert_eq!(cmd_to_method(&Commands::TRACE { url: u() }), Method::TRACE);
    assert_eq!(cmd_to_method(&Commands::Download { outpath: None, url: u() }), Method::GET);
    assert_eq!(
        cmd_to_method(&Commands::SiteDownload { url: u(), outputdir: None, level: 2 }),
        Method::GET
    );
}

#[test]
fn redirects_follow_unless_switched_off() {
    assert!(follow_redirects(false));
    assert!(!follow_redirects(true));
}
