use xfmt::serve::{
    decimal_string, is_blank_line, parse_u64, plan_range, range_value, response_head, RangePlan,
};

#[test]
fn range_header_is_found_in_any_case() {
    assert_eq!(range_value("Range: bytes=100-200\r\n"), Some("100-200".to_string()));
    assert_eq!(range_value("RANGE: BYTES=5-\r\n"), Some("5-".to_string()));
    assert_eq!(range_value("Host: x\r\n"), None);
    assert_eq!(range_value("Range: bytes"), None);
}

#[test]
fn blank_line_ends_headers() {
    assert!(is_blank_line("\r\n"));
    assert!(is_blank_line(""));
    assert!(!is_blank_line("a\r\n"));
}

#[test]
fn parse_u64_matches_std() {
    for s in ["0", "42", "+7", "", "+", "-1", "1a", "18446744073709551615", "18446744073709551616", "007"] {
        assert_eq!(parse_u64(s), s.parse::<u64>().ok(), "{}", s);
    }
}

#[test]
fn decimal_string_matches_to_string() {
    for v in [0u64, 9, 10, 12345, u64::MAX] {
        assert_eq!(decimal_string(v), v.to_string());
    }
}

fn plan(start: u64, end: u64, partial: bool) -> Option<(u64, u64, u64, bool)> {
    Some((start, end, end - start + 1, partial))
}

fn flat(p: Option<RangePlan>) -> Option<(u64, u64, u64, bool)> {
    p.map(|p| (p.start, p.end, p.content_length, p.partial))
}

#[test]
fn ranges_are_planned_like_the_server() {
    assert_eq!(flat(plan_range(None, 100)), plan(0, 99, false));
    assert_eq!(flat(plan_range(Some("10-19"), 100)), plan(10, 19, true));
    assert_eq!(flat(plan_range(Some("10-"), 100)), plan(10, 99, true));
    assert_eq!(flat(plan_range(Some("x-5"), 100)), plan(0, 5, true));
    assert_eq!(flat(plan_range(Some("3-y"), 100)), plan(3, 99, true));
    assert_eq!(flat(plan_range(Some("3-5-9"), 100)), plan(3, 5, true));
    assert_eq!(flat(plan_range(Some("7"), 100)), plan(7, 99, true));
    assert_eq!(flat(plan_range(Some("50-10"), 100)), None);
    assert_eq!(flat(plan_range(None, 0)), None);
}

#[test]
fn range_end_past_the_source_is_cut_to_its_last_byte() {
    assert_eq!(flat(plan_range(Some("90-150"), 100)), plan(90, 99, true));
    assert_eq!(flat(plan_range(Some("0-18446744073709551615"), 100)), plan(0, 99, true));
    assert_eq!(flat(plan_range(Some("100-200"), 100)), None);
    assert_eq!(flat(plan_range(Some("150-"), 100)), None);
    let p = plan_range(Some("90-150"), 100).unwrap();
    assert_eq!(
        response_head(&p, "video/mp4", 100),
        "HTTP/1.1 206 Partial Content\r\nContent-Type: video/mp4\r\nContent-Length: 10\r\nContent-Range: bytes 90-99/100\r\nAccept-Ranges: bytes\r\nConnection: close\r\n\r\n"
    );
}

#[test]
fn stop_is_one_past_the_end() {
    assert_eq!(plan_range(Some("10-19"), 100).unwrap().stop(), 20);
}

#[test]
fn response_heads() {
    let p = plan_range(Some("10-19"), 100).unwrap();
    assert_eq!(
        response_head(&p, "video/mp4", 100),
        "HTTP/1.1 206 Partial Content\r\nContent-Type: video/mp4\r\nContent-Length: 10\r\nContent-Range: bytes 10-19/100\r\nAccept-Ranges: bytes\r\nConnection: close\r\n\r\n"
    );
    let q = plan_range(None, 100).unwrap();
    assert_eq!(
        response_head(&q, "text/plain", 100),
        "HTTP/1.1 200 OK\r\nContent-Type: text/plain\r\nContent-Length: 100\r\nAccept-Ranges: bytes\r\nConnection: close\r\n\r\n"
    );
}
