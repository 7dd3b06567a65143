use std::io::Write;

use zenoh_hammer::page_admin::{
    decode_payload, hex_preview, sort_results, AdminPayload, AdminResult, Event, PageAdmin,
    MAX_RESULTS,
};

fn gzip(bytes: &[u8]) -> Vec<u8> {
    let mut enc = flate2::write::GzEncoder::new(Vec::new(), flate2::Compression::default());
    enc.write_all(bytes).unwrap();
    enc.finish().unwrap()
}

fn text_of(p: &AdminPayload) -> Option<&str> {
    match p {
        AdminPayload::Text(s) => Some(s.as_str()),
        _ => None,
    }
}

fn json_of(p: &AdminPayload) -> Option<&serde_json::Value> {
    match p {
        AdminPayload::Json(v) => Some(v),
        _ => None,
    }
}

#[test]
fn plain_text_is_trimmed() {
    let p = decode_payload(b"\0\0  hello world \n\0", "text/plain");
    assert_eq!(text_of(&p), Some("hello world"));
}

#[test]
fn blank_text_is_empty_text() {
    let p = decode_payload(b" \t\0\0", "");
    assert_eq!(text_of(&p), Some(""));
}

#[test]
fn json_text_is_json() {
    let p = decode_payload(b" {\"zid\": \"abc\", \"n\": [1, 2]} ", "application/json");
    let v = json_of(&p).expect("JSON");
    assert_eq!(v["zid"], serde_json::Value::String("abc".to_string()));
}

#[test]
fn unicode_white_space_is_trimmed() {
    let p = decode_payload("\u{3000}\u{A0}key\u{2003}".as_bytes(), "");
    assert_eq!(text_of(&p), Some("key"));
}

#[test]
fn gzip_magic_is_decompressed() {
    let p = decode_payload(&gzip(b"{\"a\": true}"), "");
    let v = json_of(&p).expect("JSON after gunzip");
    assert_eq!(v["a"], serde_json::Value::Bool(true));
}

#[test]
fn gzip_encoding_on_plain_bytes_keeps_them() {
    let p = decode_payload(b"plain words", "application/json;content-encoding=gzip");
    assert_eq!(text_of(&p), Some("plain words"));
}

#[test]
fn broken_gzip_falls_back_to_binary() {
    let data = [0x1f, 0x8b, 0xff, 0x00, 0xff, 0xfe];
    let p = decode_payload(&data, "zenoh/bytes");
    match p {
        AdminPayload::Binary { encoding, hex_preview, total_bytes } => {
            assert_eq!(encoding, "zenoh/bytes");
            assert_eq!(hex_preview, "1f 8b ff 00 ff fe");
            assert_eq!(total_bytes, 6);
        }
        _ => panic!("expected binary"),
    }
}

#[test]
fn broken_gzip_with_text_tail_is_cdr_text() {
    let data = [0x1f, 0x8b, 0xff, 0x00, b'o', b'k'];
    let p = decode_payload(&data, "");
    assert_eq!(text_of(&p), Some("ok"));
}

#[test]
fn cdr_string_uses_claimed_length() {
    let data = [3, 0, 0, 0, b'a', b'b', b'c', 0xff];
    let p = decode_payload(&data, "");
    assert_eq!(text_of(&p), Some("abc"));
}

#[test]
fn cdr_string_falls_back_to_rest() {
    // claimed length too long: the whole rest is read
    let data = [0xc8, 0, 0, 0, b'x', b'y', 0];
    let p = decode_payload(&data, "");
    assert_eq!(text_of(&p), Some("xy"));
}

#[test]
fn cdr_json_is_json() {
    let body = b"[1,2,3]";
    let mut data = vec![body.len() as u8, 0, 0, 0];
    data.extend_from_slice(body);
    data.push(0x80);
    let p = decode_payload(&data, "");
    assert!(json_of(&p).is_some());
}

#[test]
fn binary_is_hex_preview() {
    let data = [0xff, 0xfe, 0x00];
    let p = decode_payload(&data, "enc");
    match p {
        AdminPayload::Binary { encoding, hex_preview, total_bytes } => {
            assert_eq!(encoding, "enc");
            assert_eq!(hex_preview, "ff fe 00");
            assert_eq!(total_bytes, 3);
        }
        _ => panic!("expected binary"),
    }
}

#[test]
fn hex_preview_breaks_lines_every_16_bytes() {
    let data: Vec<u8> = (0u8..18).collect();
    assert_eq!(
        hex_preview(&data),
        "00 01 02 03 04 05 06 07 08 09 0a 0b 0c 0d 0e 0f\n10 11"
    );
}

#[test]
fn hex_preview_stops_after_128_bytes() {
    let data = vec![0xabu8; 300];
    let s = hex_preview(&data);
    assert_eq!(s.lines().count(), 8);
    assert_eq!(s.len(), 128 * 3 - 1);
    assert!(hex_preview(&[]).is_empty());
}

fn page_with_query() -> PageAdmin {
    let mut page = PageAdmin::default();
    page.start_query();
    page
}

#[test]
fn admin_defaults() {
    let page = PageAdmin::default();
    assert_eq!(page.key_expr, "@/**");
    assert_eq!(page.timeout_ms, 5000);
    assert!(!page.is_querying);
    assert!(page.events.is_empty());
}

#[test]
fn start_query_takes_next_id() {
    let mut page = PageAdmin::default();
    page.err_str = Some("old".to_string());
    page.start_query();
    page.start_query();
    assert_eq!(page.current_query_id, 2);
    assert!(page.is_querying);
    assert!(page.err_str.is_none());
    assert_eq!(page.events.len(), 2);
    match page.events.back().unwrap() {
        Event::Query(q) => {
            assert_eq!(q.id, 2);
            assert_eq!(q.key_expr, "@/**");
            assert_eq!(q.timeout_ms, 5000);
        }
    }
}

#[test]
fn stale_reply_is_ignored() {
    let mut page = page_with_query();
    page.start_query();
    page.processing_query_res(1, "k".to_string(), "".to_string(), b"v".to_vec(), true);
    assert_eq!(page.result_count, 0);
    assert!(page.results.is_empty());
}

#[test]
fn failed_reply_is_counted_not_kept() {
    let mut page = page_with_query();
    page.processing_query_res(1, "k".to_string(), "".to_string(), b"v".to_vec(), false);
    assert_eq!(page.result_count, 1);
    assert!(page.results.is_empty());
}

#[test]
fn results_are_capped() {
    let mut page = page_with_query();
    for i in 0..(MAX_RESULTS + 3) {
        page.processing_query_res(1, format!("k{}", i), "".to_string(), b"v".to_vec(), true);
    }
    assert_eq!(page.result_count, MAX_RESULTS + 3);
    assert_eq!(page.results.len(), MAX_RESULTS);
}

#[test]
fn done_sorts_results_by_key() {
    let mut page = page_with_query();
    for (k, v) in [("b", "1"), ("a", "2"), ("b", "3"), ("B", "4")] {
        page.processing_query_res(1, k.to_string(), v.to_string(), b"x".to_vec(), true);
    }
    page.processing_query_done(7);
    assert!(page.is_querying);
    page.processing_query_done(1);
    assert!(!page.is_querying);
    let order: Vec<(String, String)> =
        page.results.iter().map(|r| (r.key.clone(), r.encoding.clone())).collect();
    assert_eq!(
        order,
        vec![
            ("B".to_string(), "4".to_string()),
            ("a".to_string(), "2".to_string()),
            ("b".to_string(), "1".to_string()),
            ("b".to_string(), "3".to_string()),
        ]
    );
}

#[test]
fn sort_orders_by_bytes() {
    let mut v: Vec<AdminResult> = ["é", "z", "", "za"]
        .iter()
        .map(|k| AdminResult {
            key: k.to_string(),
            encoding: String::new(),
            payload: AdminPayload::Text(String::new()),
        })
        .collect();
    sort_results(&mut v);
    let keys: Vec<&str> = v.iter().map(|r| r.key.as_str()).collect();
    assert_eq!(keys, vec!["", "z", "za", "é"]);
}

#[test]
fn not_connected_stops_query() {
    let mut page = page_with_query();
    page.set_not_connected();
    assert!(!page.is_querying);
    assert_eq!(page.err_str.as_deref(), Some("not connected to a zenoh session"));
}

#[test]
fn cdr_string_hides_length_prefix() {
    let data = [3u8, 0, 0, 0, b'h', b'i', 0];
    let p = decode_payload(&data, "");
    assert_eq!(text_of(&p), Some("hi"));
}

#[test]
fn json_with_trailing_nuls_is_parsed_value() {
    let p = decode_payload(b"{\"a\":1}\0\0", "application/json");
    let expected: serde_json::Value = serde_json::from_str("{\"a\": 1}").unwrap();
    assert_eq!(json_of(&p), Some(&expected));
}

#[test]
fn gzip_stream_shows_as_its_contents() {
    for body in [&b"{\"k\": [1, 2, {\"x\": null}]}"[..], &b"  some text \0"[..], &b""[..]] {
        let packed = decode_payload(&gzip(body), "application/json");
        let plain = decode_payload(body, "");
        match (&packed, &plain) {
            (AdminPayload::Json(a), AdminPayload::Json(b)) => assert_eq!(a, b),
            (AdminPayload::Text(a), AdminPayload::Text(b)) => assert_eq!(a, b),
            _ => panic!("different displays"),
        }
    }
}

#[test]
fn results_never_outnumber_replies() {
    let mut page = page_with_query();
    for i in 0..20 {
        page.processing_query_res(1, format!("k{}", i), String::new(), b"v".to_vec(), i % 3 != 0);
        page.processing_query_res(5, "stale".to_string(), String::new(), b"v".to_vec(), true);
        assert!(page.results.len() <= page.result_count);
        assert!(page.results.len() <= MAX_RESULTS);
    }
    assert_eq!(page.result_count, 20);
    assert_eq!(page.results.len(), 13);
}

#[test]
fn query_waits_for_the_outstanding_one() {
    let mut page = PageAdmin::default();
    assert!(page.can_start_query());
    page.start_query();
    assert!(!page.can_start_query());
    page.processing_query_done(1);
    assert!(page.can_start_query());
}
