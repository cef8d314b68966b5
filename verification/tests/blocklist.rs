use std::io::Write;

use carbonyl::adblock::{
    header_action, is_blocked, is_header_end, list_from_text, list_lines, load_list, plan_request,
    HeaderAction, ProxyPlan,
};

fn list(items: &[&str]) -> Vec<String> {
    let mut v: Vec<String> = items.iter().map(|s| s.to_string()).collect();
    v.sort();
    v
}

#[test]
fn list_lines_trims_and_skips_comments() {
    let lines = list_lines("# header\n  b.com \r\n\nA.com\n#x\n\ta.com\t\nb.com");
    assert_eq!(lines, vec!["b.com", "A.com", "a.com", "b.com"]);
    assert!(list_lines("").is_empty());
    assert!(list_lines("\n\n   \n").is_empty());
}

#[test]
fn list_is_sorted_without_duplicates() {
    let l = list_from_text("zeta.net\nb.com\n# c\nb.com\nA.com\na.com\n");
    assert_eq!(l, vec!["A.com", "a.com", "b.com", "zeta.net"]);
}

#[test]
fn load_list_reads_gzip() {
    let mut e = flate2::write::GzEncoder::new(Vec::new(), flate2::Compression::default());
    e.write_all(b"# list\nads.example\ntracker.test\nads.example\n").unwrap();
    let gz = e.finish().unwrap();
    assert_eq!(load_list(&gz), vec!["ads.example", "tracker.test"]);
    assert!(load_list(b"not gzip").is_empty());
}

#[test]
fn listed_domains_and_subdomains_are_blocked() {
    let l = list(&["example.com", "tracker.test"]);
    assert!(is_blocked("example.com", &l));
    assert!(is_blocked("ads.example.com", &l));
    assert!(is_blocked("a.b.c.Example.COM.", &l));
    assert!(is_blocked("x.tracker.test", &l));
    assert!(!is_blocked("notexample.com", &l));
    assert!(!is_blocked("example.org", &l));
    assert!(!is_blocked("com", &l));
    assert!(!is_blocked("", &l));
    assert!(!is_blocked("anything", &[]));
}

#[test]
fn connect_requests() {
    let l = list(&["ads.example"]);
    assert!(matches!(plan_request("CONNECT ads.example:443 HTTP/1.1\r\n", &l), ProxyPlan::Refuse));
    assert!(matches!(plan_request("CONNECT x.ads.example:443 HTTP/1.1\r\n", &l), ProxyPlan::Refuse));
    match plan_request("CONNECT good.org:443 HTTP/1.1\r\n", &l) {
        ProxyPlan::Tunnel { addr } => assert_eq!(addr, "good.org:443"),
        _ => panic!("expected a tunnel"),
    }
}

#[test]
fn absolute_form_requests() {
    let l = list(&["ads.example"]);
    match plan_request("GET http://good.org/path?q=1 HTTP/1.1\r\n", &l) {
        ProxyPlan::Forward { addr, request } => {
            assert_eq!(addr, "good.org:80");
            assert_eq!(request, "GET /path?q=1 HTTP/1.1\r\n");
        }
        _ => panic!("expected a forward"),
    }
    match plan_request("POST http://good.org:8080 HTTP/1.1\r\n", &l) {
        ProxyPlan::Forward { addr, request } => {
            assert_eq!(addr, "good.org:8080");
            assert_eq!(request, "POST / HTTP/1.1\r\n");
        }
        _ => panic!("expected a forward"),
    }
    assert!(matches!(plan_request("GET http://ads.example/x HTTP/1.1\r\n", &l), ProxyPlan::Refuse));
    assert!(matches!(plan_request("GET http://ADS.example:81/ HTTP/1.1\r\n", &l), ProxyPlan::Refuse));
}

#[test]
fn malformed_request_lines() {
    let l = list(&["ads.example"]);
    match plan_request("", &l) {
        ProxyPlan::Forward { addr, request } => {
            assert_eq!(addr, ":80");
            assert_eq!(request, " / HTTP/1.1\r\n");
        }
        _ => panic!("expected a forward"),
    }
    match plan_request("  GET   host/a  ", &l) {
        ProxyPlan::Forward { addr, request } => {
            assert_eq!(addr, "host:80");
            assert_eq!(request, "GET /a HTTP/1.1\r\n");
        }
        _ => panic!("expected a forward"),
    }
}

#[test]
fn connection_headers_are_dropped() {
    assert_eq!(header_action("Connection: keep-alive\r\n"), HeaderAction::Skip);
    assert_eq!(header_action("PROXY-CONNECTION: close\r\n"), HeaderAction::Skip);
    assert_eq!(header_action("Host: a.b\r\n"), HeaderAction::Forward);
    assert_eq!(header_action("\r\n"), HeaderAction::End);
    assert_eq!(header_action("\n"), HeaderAction::End);
    assert_eq!(header_action(""), HeaderAction::End);
    assert_eq!(header_action(" \r\n"), HeaderAction::Forward);
}

#[test]
fn header_end_lines() {
    assert!(is_header_end(""));
    assert!(is_header_end("\r\n"));
    assert!(is_header_end("\n"));
    assert!(!is_header_end("Host: x\r\n"));
    assert!(!is_header_end("\r\n\r\n"));
}
