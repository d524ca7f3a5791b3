//! Tests of the per-request orchestration: rendering a fetched body and
//! deciding the content type, and building the upstream URL.

use dyn_proxy::agent::AgentService;

#[test]
fn test_agent_service_receive_content() {
    let service = AgentService::new("test".into(), "http://dummy".into(), 3000, Vec::new());
    let (text, _is_html) = service.render("hello world".to_owned());
    assert_eq!(text, "hello world");
}

#[test]
fn test_agent_service_html_header() {
    let service = AgentService::new("test".into(), "http://dummy".into(), 3000, Vec::new());
    let (text, is_html) =
        service.render("<html><head></head><body>hello world</body></html>".to_owned());
    assert_eq!(text, "<html><head></head><body>hello world</body></html>");
    // The Content-Type header "text/html; charset=UTF-8" is set if and only
    // if this flag holds.
    assert!(is_html);
}

#[test]
fn test_agent_service_non_html_header() {
    let service = AgentService::new("test".into(), "http://dummy".into(), 3000, Vec::new());
    let (text, is_html) = service.render("this is a non-html source".to_owned());
    assert_eq!(text, "this is a non-html source");
    assert!(!is_html);
}

#[test]
fn test_agent_service_render_filters_body() {
    let service = AgentService::new(
        "test".into(),
        "http://dummy".into(),
        3000,
        vec![r#"class="ad""#.to_owned()],
    );
    let (text, is_html) =
        service.render(r#"<html><body><div class="ad">buy!</div>content</body></html>"#.to_owned());
    assert_eq!(text, "<html><body>content</body></html>");
    assert!(is_html);
}

#[test]
fn test_request_url_concatenation() {
    let service = AgentService::new(
        "proxy-server".into(),
        "https://www.example.test".into(),
        3000,
        Vec::new(),
    );
    assert_eq!(
        service.request_url("/dictionary/time?x=1"),
        "https://www.example.test/dictionary/time?x=1"
    );
    assert_eq!(service.port(), 3000);
}
