use cdxj_indexer::gz::GzipMember;
use cdxj_indexer::text::{
    append_chars, chars_of, decimal_string, digit_of, find_char, join_with, parse_u32, reversed,
    sort_texts, split_on, split_whitespace, text_before, text_of, trim,
};
use cdxj_indexer::warc::{
    assemble_cdxj, build_record, canonicalize, header_fields, http_status,
    is_eligible, mime_type, path_of_lowered, query_of_lowered,
    searchable_key, Cdx11Writer, CdxData, CdxRecord, CdxRecordFormatter, CdxjWriter,
    DecodedRecord, IndexError, UrlParts, Warc,
};
use cdxj_indexer::IndexFormat;

fn key(address: &str) -> String {
    canonicalize(address).unwrap()
}

fn response(uri: &str, digest: &str, body: &[&str]) -> DecodedRecord {
    DecodedRecord {
        is_response: true,
        content_type: Some("application/http; msgtype=response".to_string()),
        timestamp: "20110225183219".to_string(),
        target_uri: Some(uri.to_string()),
        payload_digest: Some(digest.to_string()),
        body_lines: body.iter().map(|l| l.to_string()).collect(),
    }
}

fn page(uri: &str) -> DecodedRecord {
    response(
        uri,
        "sha1:ABCDEF",
        &["HTTP/1.1 200 OK", "Content-Type: text/html; charset=UTF-8", "", "<html>"],
    )
}

#[test]
fn key_reverses_host_and_drops_www() {
    assert_eq!(key("https://www.example.com/Path/"), "com,example)/path");
    assert_eq!(key("https://example.com/Path/"), "com,example)/path");
    assert_eq!(key("http://a.b.example.co.uk/x"), "uk,co,example,b,a)/x");
}

#[test]
fn key_keeps_www_that_is_not_the_first_label() {
    assert_eq!(key("http://www/"), "www)/");
    assert_eq!(key("http://example.www.com/"), "com,www,example)/");
}

#[test]
fn key_keeps_the_root_slash() {
    assert_eq!(key("https://example.com/"), "com,example)/");
    assert_eq!(key("https://example.com"), "com,example)/");
    assert_eq!(key("https://example.com/a//"), "com,example)/a/");
}

#[test]
fn key_does_not_depend_on_parameter_order() {
    let a = key("https://example.com/a?b=2&a=1");
    let b = key("https://example.com/a?a=1&b=2");
    assert_eq!(a, b);
    assert_eq!(a, "com,example)/a?a=1&b=2");
    assert_eq!(key("https://example.com/a?C=3&b=2&A=1"), "com,example)/a?a=1&b=2&c=3");
}

#[test]
fn key_lowers_a_single_parameter() {
    assert_eq!(key("https://example.com/a?Q=Rust"), "com,example)/a?q=rust");
    assert_eq!(key("https://example.com/a?"), "com,example)/a?");
}

#[test]
fn address_is_written_as_given() {
    let members = vec![GzipMember { offset: 0, length: 9 }];
    let records = vec![Some(page("HTTPS://Example.COM:443/A b"))];
    let text = Warc::index("f", IndexFormat::CDX, &members, &records).unwrap();
    assert_eq!(
        text.lines().nth(1),
        Some("com,example)/a%20b 20110225183219 HTTPS://Example.COM:443/A b text/html 200 sha1:ABCDEF - - 9 0 f")
    );
    let text = Warc::index("f", IndexFormat::CDXJ, &members, &records).unwrap();
    let json = text.trim_end().splitn(3, ' ').nth(2).unwrap();
    let v: serde_json::Value = serde_json::from_str(json).unwrap();
    assert_eq!(v["url"].as_str(), Some("HTTPS://Example.COM:443/A b"));
}

#[test]
fn unparseable_address_is_invalid() {
    assert_eq!(canonicalize("not an address"), Err(IndexError::InvalidAddress));
    assert_eq!(canonicalize(""), Err(IndexError::InvalidAddress));
}

#[test]
fn address_without_host_is_invalid() {
    assert_eq!(canonicalize("mailto:someone@example.com"), Err(IndexError::InvalidAddress));
    let parts = UrlParts {
        host: None,
        path: "/".to_string(),
        query: None,
    };
    assert_eq!(searchable_key(&parts), Err(IndexError::InvalidAddress));
}

#[test]
fn key_from_given_parts() {
    let parts = UrlParts {
        host: Some("www.example.org".to_string()),
        path: "/A/B/".to_string(),
        query: Some("y=2&x=1".to_string()),
    };
    assert_eq!(searchable_key(&parts), Ok("org,example)/a/b?x=1&y=2".to_string()));
}

#[test]
fn new_data_has_placeholders() {
    let d = CdxData::new("a.warc.gz".to_string());
    assert_eq!(d.url, "-");
    assert_eq!(d.digest, "-");
    assert_eq!(d.redirect, "-");
    assert_eq!(d.mime, "-");
    assert_eq!((d.offset, d.length, d.status), (0, 0, 0));
    assert_eq!(d.file_name, "a.warc.gz");
    let r = CdxRecord::new("a.warc.gz".to_string());
    assert_eq!(r.searchable_url, "");
    assert_eq!(r.timestamp, "");
    assert_eq!(r.data.file_name, "a.warc.gz");
    assert_eq!(r.data.url, "-");
}

#[test]
fn eleven_fields_of_unset_data() {
    let d = CdxData::new("f".to_string());
    assert_eq!(d.to_cdx11(), Some("- - 0 - - - 0 0 f".to_string()));
}

#[test]
fn json_object_of_unset_data() {
    let d = CdxData::new("f".to_string());
    assert_eq!(
        d.to_cdxj(),
        Some(
            "{\"url\":\"-\",\"digest\":\"-\",\"redirect\":\"-\",\"mime\":\"-\",\"offset\":0,\"length\":0,\"status\":0,\"file_name\":\"f\"}"
                .to_string()
        )
    );
}

#[test]
fn json_strings_are_escaped() {
    let mut d = CdxData::new("a\"b\\c.warc".to_string());
    d.redirect = "line\nbreak".to_string();
    let text = d.to_cdxj().unwrap();
    assert!(text.contains("\"file_name\":\"a\\\"b\\\\c.warc\""));
    assert!(text.contains("\"redirect\":\"line\\nbreak\""));
}

#[test]
fn json_object_reads_back() {
    let members = vec![GzipMember { offset: 0, length: 1000 }, GzipMember { offset: 1000, length: 1500 }];
    let records = vec![
        None,
        Some(response(
            "https://www.example.com/Path/?b=2&a=1",
            "sha1:3I42H3S6NNFQ2MSVX7XZKYAYSCX5QBYJ",
            &["HTTP/1.1 301 Moved", "Location: https://example.com/\"new\"", "Content-Type: text/html", ""],
        )),
    ];
    let text = Warc::index("crawl \"one\".warc.gz", IndexFormat::CDXJ, &members, &records).unwrap();
    let line = text.strip_suffix('\n').unwrap();
    let mut parts = line.splitn(3, ' ');
    assert_eq!(parts.next(), Some("com,example)/path?a=1&b=2"));
    assert_eq!(parts.next(), Some("20110225183219"));
    let v: serde_json::Value = serde_json::from_str(parts.next().unwrap()).unwrap();
    assert_eq!(v["url"].as_str(), Some("https://www.example.com/Path/?b=2&a=1"));
    assert_eq!(v["digest"].as_str(), Some("sha1:3I42H3S6NNFQ2MSVX7XZKYAYSCX5QBYJ"));
    assert_eq!(v["mime"].as_str(), Some("text/html"));
    assert_eq!(v["redirect"].as_str(), Some("https://example.com/\"new\""));
    assert_eq!(v["status"].as_u64(), Some(301));
    assert_eq!(v["offset"].as_u64(), Some(1000));
    assert_eq!(v["length"].as_u64(), Some(1500));
    assert_eq!(v["file_name"].as_str(), Some("crawl \"one\".warc.gz"));
}

#[test]
fn eleven_field_index_has_heading_and_lines() {
    let members = vec![GzipMember { offset: 0, length: 700 }];
    let records = vec![Some(page("http://www.example.com/Index.html"))];
    let text = Warc::index("a.warc.gz", IndexFormat::CDX, &members, &records).unwrap();
    assert_eq!(
        text,
        " CDX N b a m s k r M S V g\ncom,example)/index.html 20110225183219 http://www.example.com/Index.html text/html 200 sha1:ABCDEF - - 700 0 a.warc.gz\n"
    );
}

#[test]
fn json_index_line() {
    let members = vec![GzipMember { offset: 12, length: 34 }];
    let records = vec![Some(page("http://example.com/"))];
    let text = Warc::index("a.warc.gz", IndexFormat::CDXJ, &members, &records).unwrap();
    assert_eq!(
        text,
        "com,example)/ 20110225183219 {\"url\":\"http://example.com/\",\"digest\":\"sha1:ABCDEF\",\"redirect\":\"-\",\"mime\":\"text/html\",\"offset\":12,\"length\":34,\"status\":200,\"file_name\":\"a.warc.gz\"}\n"
    );
}

#[test]
fn empty_index() {
    assert_eq!(Warc::index("a", IndexFormat::CDXJ, &vec![], &vec![]), Ok(String::new()));
    assert_eq!(
        Warc::index("a", IndexFormat::CDX, &vec![], &vec![]),
        Ok(" CDX N b a m s k r M S V g\n".to_string())
    );
}

#[test]
fn more_records_than_members_is_refused() {
    let members = vec![GzipMember { offset: 0, length: 10 }];
    let records = vec![None, None];
    assert_eq!(
        Warc::index("a", IndexFormat::CDX, &members, &records),
        Err(IndexError::PairingFailure)
    );
}

#[test]
fn failed_record_keeps_its_place_in_the_pairing() {
    let members = vec![
        GzipMember { offset: 0, length: 100 },
        GzipMember { offset: 100, length: 200 },
        GzipMember { offset: 300, length: 400 },
    ];
    let records = vec![Some(page("http://a.example/")), None, Some(page("http://c.example/"))];
    let text = Warc::index("f", IndexFormat::CDX, &members, &records).unwrap();
    let lines: Vec<&str> = text.lines().collect();
    assert_eq!(lines.len(), 3);
    assert_eq!(lines[1], "example,a)/ 20110225183219 http://a.example/ text/html 200 sha1:ABCDEF - - 100 0 f");
    assert_eq!(lines[2], "example,c)/ 20110225183219 http://c.example/ text/html 200 sha1:ABCDEF - - 400 300 f");
}

#[test]
fn skipped_records_keep_their_place_too() {
    let members = vec![
        GzipMember { offset: 0, length: 1 },
        GzipMember { offset: 1, length: 2 },
        GzipMember { offset: 3, length: 4 },
        GzipMember { offset: 7, length: 8 },
        GzipMember { offset: 15, length: 16 },
    ];
    let mut request = page("http://a.example/");
    request.is_response = false;
    let mut other_type = page("http://b.example/");
    other_type.content_type = Some("text/dns".to_string());
    let bad_address = page("no address");
    let mut no_address = page("http://d.example/");
    no_address.target_uri = None;
    let records = vec![
        Some(request),
        Some(other_type),
        Some(bad_address),
        Some(no_address),
        Some(page("http://e.example/")),
    ];
    let text = Warc::index("f", IndexFormat::CDX, &members, &records).unwrap();
    let lines: Vec<&str> = text.lines().collect();
    assert_eq!(lines.len(), 2);
    assert!(lines[1].ends_with(" 16 15 f"));
}

#[test]
fn record_without_declared_type_is_indexed() {
    let mut rec = page("http://example.com/");
    rec.content_type = None;
    rec.payload_digest = None;
    let entry = build_record("f", &GzipMember { offset: 5, length: 6 }, &rec).unwrap();
    assert_eq!(entry.searchable_url, "com,example)/");
    assert_eq!(entry.timestamp, "20110225183219");
    assert_eq!(entry.data.digest, "-");
    assert_eq!(entry.data.offset, 5);
    assert_eq!(entry.data.length, 6);
    assert_eq!(entry.data.status, 200);
    assert_eq!(entry.data.mime, "text/html");
    assert_eq!(entry.data.redirect, "-");
}

#[test]
fn record_with_empty_body() {
    let rec = response("http://example.com/", "md5:xyz", &[]);
    let entry = build_record("f", &GzipMember { offset: 0, length: 1 }, &rec).unwrap();
    assert_eq!(entry.data.status, 0);
    assert_eq!(entry.data.mime, "-");
    assert_eq!(entry.data.digest, "md5:xyz");
}

#[test]
fn writers_append_one_line() {
    let mut entry = CdxRecord::new("f".to_string());
    entry.searchable_url = "com,example)/".to_string();
    entry.timestamp = "2020".to_string();
    let mut sink = "before\n".to_string();
    assert_eq!(Cdx11Writer::write(&mut sink, &entry), Ok(()));
    assert_eq!(sink, "before\ncom,example)/ 2020 - - 0 - - - 0 0 f\n");
    let mut sink = String::new();
    assert_eq!(CdxjWriter::write(&mut sink, &entry), Ok(()));
    assert_eq!(
        sink,
        "com,example)/ 2020 {\"url\":\"-\",\"digest\":\"-\",\"redirect\":\"-\",\"mime\":\"-\",\"offset\":0,\"length\":0,\"status\":0,\"file_name\":\"f\"}\n"
    );
}

#[test]
fn status_is_the_second_word() {
    assert_eq!(http_status("HTTP/1.1 200 OK"), 200);
    assert_eq!(http_status("  HTTP/1.0\t404\r\n"), 404);
    assert_eq!(http_status("HTTP/1.1"), 0);
    assert_eq!(http_status("HTTP/1.1 abc OK"), 0);
    assert_eq!(http_status("HTTP/1.1 4294967296"), 0);
    assert_eq!(http_status("HTTP/1.1 4294967295"), 4294967295);
    assert_eq!(http_status(""), 0);
}

#[test]
fn media_type_stops_at_the_semicolon() {
    assert_eq!(mime_type(" text/html; charset=utf-8"), "text/html");
    assert_eq!(mime_type(" application/json "), "application/json");
    assert_eq!(mime_type(";x"), "");
}

#[test]
fn header_block_ends_at_the_empty_line() {
    let lines: Vec<String> = [
        "HTTP/1.1 302 Found",
        "content-TYPE: image/png",
        "no colon here",
        "Location:  /next?x=1:2 ",
        "",
        "Content-Type: text/plain",
        "Location: /body",
    ]
    .iter()
    .map(|l| l.to_string())
    .collect();
    assert_eq!(header_fields(&lines), ("image/png".to_string(), "/next?x=1:2".to_string()));
}

#[test]
fn later_header_overrules_earlier() {
    let lines: Vec<String> =
        ["Content-Type: first/line", "Content-Type: a/b", "Content-Type: c/d;q=1"]
            .iter()
            .map(|l| l.to_string())
            .collect();
    assert_eq!(header_fields(&lines), ("c/d".to_string(), "-".to_string()));
}

#[test]
fn numbers_in_decimal() {
    assert_eq!(decimal_string(0), "0");
    assert_eq!(decimal_string(7), "7");
    assert_eq!(decimal_string(10), "10");
    assert_eq!(decimal_string(1234567890), "1234567890");
    assert_eq!(decimal_string(u64::MAX), "18446744073709551615");
}

#[test]
fn split_join_and_reverse() {
    let s = chars_of("a..bc.");
    let parts = split_on(&s, '.');
    let as_text: Vec<String> = parts.iter().map(|p| p.iter().collect()).collect();
    assert_eq!(as_text, vec!["a", "", "bc", ""]);
    assert_eq!(join_with(&parts, ','), chars_of("a,,bc,"));
    assert_eq!(join_with(&reversed(parts), ','), chars_of(",bc,,a"));
    assert_eq!(split_on(&chars_of(""), '.'), vec![Vec::<char>::new()]);
    assert_eq!(join_with(&vec![], ','), Vec::<char>::new());
}

#[test]
fn first_occurrence_is_found() {
    assert_eq!(find_char(&chars_of("a:b:c"), ':'), Some(1));
    assert_eq!(find_char(&chars_of("abc"), ':'), None);
    assert_eq!(chars_of("h\u{e9}llo").len(), 5);
}

#[test]
fn texts_sort_by_code_point() {
    let words = ["b=2", "a=10", "", "a=1", "B", "\u{e9}", "a=1", "~", "a"];
    let sorted = sort_texts(words.iter().map(|w| chars_of(w)).collect());
    let as_text: Vec<String> = sorted.iter().map(|p| p.iter().collect()).collect();
    assert_eq!(as_text, vec!["", "B", "a", "a=1", "a=1", "a=10", "b=2", "~", "\u{e9}"]);
    let mut expected: Vec<&str> = words.to_vec();
    expected.sort();
    assert_eq!(as_text, expected);
    assert_eq!(sort_texts(vec![]), Vec::<Vec<char>>::new());
}

#[test]
fn sorting_does_not_depend_on_the_order() {
    let a = sort_texts(vec![chars_of("x=1"), chars_of("y=2"), chars_of("a=3")]);
    let b = sort_texts(vec![chars_of("a=3"), chars_of("y=2"), chars_of("x=1")]);
    assert_eq!(a, b);
}

#[test]
fn prefix_comes_first() {
    assert!(text_before(&chars_of(""), &chars_of("")));
    assert!(text_before(&chars_of("ab"), &chars_of("ab")));
    assert!(text_before(&chars_of("ab"), &chars_of("abc")));
    assert!(!text_before(&chars_of("abc"), &chars_of("ab")));
    assert!(text_before(&chars_of("abc"), &chars_of("abd")));
    assert!(!text_before(&chars_of("b"), &chars_of("abd")));
    assert!(text_before(&chars_of("Z"), &chars_of("a")));
}

#[test]
fn pieces_of_a_text() {
    let v = chars_of("hello");
    assert_eq!(text_of(&v, 1, 3), "el");
    assert_eq!(text_of(&v, 2, 2), "");
    let mut s = "x".to_string();
    append_chars(&mut s, &v, 3, 5);
    assert_eq!(s, "xlo");
}

#[test]
fn object_needs_every_field_encoded() {
    let f = |s: &str| Some(s.to_string());
    assert_eq!(
        assemble_cdxj(f("\"u\""), f("\"d\""), f("\"r\""), f("\"m\""), 1, 2, 3, f("\"f\"")),
        Some(
            "{\"url\":\"u\",\"digest\":\"d\",\"redirect\":\"r\",\"mime\":\"m\",\"offset\":1,\"length\":2,\"status\":3,\"file_name\":\"f\"}"
                .to_string()
        )
    );
    assert_eq!(assemble_cdxj(None, f("d"), f("r"), f("m"), 1, 2, 3, f("f")), None);
    assert_eq!(assemble_cdxj(f("u"), f("d"), f("r"), None, 1, 2, 3, f("f")), None);
    assert_eq!(assemble_cdxj(f("u"), f("d"), f("r"), f("m"), 1, 2, 3, None), None);
}

#[test]
fn eligible_records() {
    let mut rec = page("http://example.com/");
    assert!(is_eligible(&rec));
    rec.content_type = None;
    assert!(is_eligible(&rec));
    rec.content_type = Some("application/http; msgtype=request".to_string());
    assert!(!is_eligible(&rec));
    rec.content_type = None;
    rec.is_response = false;
    assert!(!is_eligible(&rec));
}

#[test]
fn numbers_are_read_in_decimal() {
    let cases = [
        "0", "7", "200", "00012", "+5", "+0", "4294967295", "4294967296", "42949672950",
        "99999999999999999999999999", "", "+", "-", "-1", "+-1", "++1", " 1", "1 ", "1_000", "12a",
        "a12", "0x10", "1.5", "\u{661}\u{662}", "+4294967295", "000000000000000000000004294967295",
    ];
    for case in cases {
        assert_eq!(parse_u32(case), case.parse::<u32>().ok(), "{:?}", case);
    }
    assert_eq!(parse_u32("200"), Some(200));
    assert_eq!(parse_u32("+5"), Some(5));
    assert_eq!(parse_u32("4294967296"), None);
    assert_eq!(parse_u32(""), None);
}

#[test]
fn digits_have_values() {
    assert_eq!(digit_of('0'), Some(0));
    assert_eq!(digit_of('9'), Some(9));
    assert_eq!(digit_of('a'), None);
    assert_eq!(digit_of('/'), None);
    assert_eq!(digit_of(':'), None);
}

const SAMPLES: [&str; 16] = [
    "",
    " ",
    "a",
    "  a  ",
    "\t\r\n a b \n",
    "HTTP/1.1 200 OK\r\n",
    "a  b\t\tc",
    "\u{a0}x\u{a0}",
    "\u{3000}wide\u{3000}space\u{2003}",
    "\u{85}next\u{2028}line\u{2029}",
    "\u{200b}zero\u{200b}",
    "\u{feff}mark",
    "\u{1680}\u{202f}\u{205f}",
    "\u{b}\u{c}x\u{1c}\u{1f}",
    "tr\u{e9}s  bien ",
    " text/html ",
];

#[test]
fn trimming_agrees_with_std() {
    for sample in SAMPLES {
        assert_eq!(trim(sample), sample.trim(), "{:?}", sample);
    }
    assert_eq!(trim("  a b  "), "a b");
    assert_eq!(trim(" \t "), "");
}

#[test]
fn words_agree_with_std() {
    for sample in SAMPLES {
        let expected: Vec<&str> = sample.split_whitespace().collect();
        assert_eq!(split_whitespace(sample), expected, "{:?}", sample);
    }
    assert_eq!(split_whitespace(" a  bc \n"), vec!["a", "bc"]);
    assert_eq!(split_whitespace("   "), Vec::<String>::new());
}

#[test]
fn digest_is_written_as_given() {
    let rec = response("http://example.com/", "sha1:ABC", &["HTTP/1.1 200 OK"]);
    let entry = build_record("f", &GzipMember { offset: 0, length: 1 }, &rec).unwrap();
    assert_eq!(entry.data.digest, "sha1:ABC");
    assert_eq!(entry.data.url, "http://example.com/");
}

#[test]
fn path_of_lowered_text() {
    let text = |v: Vec<char>| v.into_iter().collect::<String>();
    assert_eq!(text(path_of_lowered("/path/")), "/path");
    assert_eq!(text(path_of_lowered("/")), "/");
    assert_eq!(text(path_of_lowered("")), "");
    assert_eq!(text(path_of_lowered("/a//")), "/a/");
    assert_eq!(text(path_of_lowered("/a")), "/a");
}

#[test]
fn query_of_lowered_text() {
    let text = |v: Vec<char>| v.into_iter().collect::<String>();
    assert_eq!(text(query_of_lowered("B=2&A=1", "b=2&a=1")), "a=1&b=2");
    assert_eq!(text(query_of_lowered("B=2", "b=2")), "b=2");
    assert_eq!(text(query_of_lowered("b&&a", "b&&a")), "&a&b");
    assert_eq!(text(query_of_lowered("", "")), "");
}
