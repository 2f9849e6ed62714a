use lexiroot::http::{parse_query, parse_request_line, percent_decode, route, Route};

#[test]
fn decodes_percent_and_plus_escapes() {
    assert_eq!(percent_decode("inspect%20ion"), "inspect ion");
    assert_eq!(percent_decode("a+b"), "a b");
    assert_eq!(percent_decode("%E4%B8%AD"), "中");
    assert_eq!(percent_decode("100%"), "100%");
}

#[test]
fn parses_query_pairs() {
    let q = parse_query("word=inspection&empty=");
    assert_eq!(q.get("word").unwrap(), "inspection");
    assert_eq!(q.get("empty").unwrap(), "");
}

#[test]
fn leaves_malformed_escapes_alone() {
    assert_eq!(percent_decode("%zz"), "%zz");
    assert_eq!(percent_decode("%4"), "%4");
    assert_eq!(percent_decode("%41"), "A");
    assert_eq!(percent_decode("a%2Bb"), "a+b");
    assert_eq!(percent_decode("%ff"), "\u{FFFD}");
    assert_eq!(percent_decode("plain-text_ok"), "plain-text_ok");
    assert_eq!(percent_decode("naïve"), "naïve");
}

#[test]
fn query_keys_decode_and_later_pairs_win() {
    let q = parse_query("a=1&&b&a=2&c%20d=e+f&=x");
    assert_eq!(q.get("a").unwrap(), "2");
    assert_eq!(q.get("b").unwrap(), "");
    assert_eq!(q.get("c d").unwrap(), "e f");
    assert_eq!(q.get("").unwrap(), "x");
    assert_eq!(q.len(), 4);
    assert_eq!(parse_query("").len(), 0);
    assert_eq!(parse_query("k=v=w").get("k").unwrap(), "v=w");
}

#[test]
fn reads_the_request_line() {
    let req = parse_request_line("GET /api/analyze?word=inspection HTTP/1.1\r\n").unwrap();
    assert_eq!(req.method, "GET");
    assert_eq!(req.path, "/api/analyze");
    assert_eq!(req.param("word"), Some("inspection"));
    assert_eq!(req.param("missing"), None);

    let req = parse_request_line("  POST   /  ").unwrap();
    assert_eq!(req.method, "POST");
    assert_eq!(req.path, "/");
    assert_eq!(req.query.len(), 0);

    assert!(parse_request_line("GET").is_none());
    assert!(parse_request_line("   \r\n").is_none());
}

#[test]
fn empty_parameter_counts_as_missing() {
    let req = parse_request_line("GET /api/root?text= HTTP/1.1").unwrap();
    assert_eq!(req.param("text"), None);
    assert_eq!(route(&req), Route::MissingParam("text".to_string()));
}

#[test]
fn routes_each_endpoint() {
    let r = |line: &str| route(&parse_request_line(line).unwrap());
    assert_eq!(r("POST / HTTP/1.1"), Route::MethodNotAllowed);
    assert_eq!(r("GET / HTTP/1.1"), Route::Index);
    assert_eq!(r("GET /index.html HTTP/1.1"), Route::Index);
    assert_eq!(r("GET /api/analyze?word=un%62reakable HTTP/1.1"), Route::Analyze("unbreakable".to_string()));
    assert_eq!(r("GET /api/analyze HTTP/1.1"), Route::MissingParam("word".to_string()));
    assert_eq!(r("GET /api/root?text=spect HTTP/1.1"), Route::Root("spect".to_string()));
    assert_eq!(r("GET /api/family?text=spect HTTP/1.1"), Route::Family("spect".to_string()));
    assert_eq!(r("GET /api/family?word=spect HTTP/1.1"), Route::MissingParam("text".to_string()));
    assert_eq!(r("GET /nope HTTP/1.1"), Route::NotFound);
}
