//! Tests of the element excision engine: the tokenizer, single excisions,
//! and the filter chain.

use dyn_proxy::agent::filter::{remove_div, ContentFilter, DivTokenizer, LocateError};

#[test]
fn test_tokenizer_next_token() {
    let src = r#"this is a test <div class="abc">something</div><div class="ee"><div id="inner1"><div id="inner2">text</div></div></div>something else"#;
    let mut token = DivTokenizer::new(src, r#"class="ee""#);
    let next = token.next_token();
    assert!(next.is_some());
    assert_eq!(next.unwrap().as_slice(), "<div".as_bytes());
    let next = token.next_token();
    assert!(next.is_some());
    assert_eq!(next.unwrap().as_slice(), "</div".as_bytes());
}

#[test]
fn test_tokenizer_locate() {
    let src = r#"this is a test <div class="abc">something</div><div class="ee"><div id="inner1"><div id="inner2">text</div></div></div>something else"#;
    let mut token = DivTokenizer::new(src, r#"class="ee""#);
    let pos = token.locate();
    if let Err(_msg) = pos {
        panic!("token.locate() shoud return Ok");
    } else {
        let pos = pos.unwrap();
        assert_eq!(pos.start, 47);
        assert_eq!(pos.end, 119);
        let mut text = String::from(src);
        text.replace_range(pos, "");
        assert_eq!(
            text,
            r#"this is a test <div class="abc">something</div>something else"#
        )
    }
}

// The deletion spans exactly the outer fingerprinted element and both of its
// nested descendants, leaving all other text byte-for-byte intact.
#[test]
fn test_remove_div_nested_elements() {
    let src = r#"this is a test <div class="abc">something</div><div class="ee"><div id="inner1"><div id="inner2">text</div></div></div>something else"#;
    let result = remove_div(
        &src.as_bytes().to_vec(),
        &r#"class="ee""#.as_bytes().to_vec(),
    );
    assert_eq!(
        result.as_slice(),
        r#"this is a test <div class="abc">something</div>something else"#.as_bytes()
    );
}

// A fingerprint absent from the document leaves it byte-identical.
#[test]
fn test_filter_absent_fingerprint_is_noop() {
    let src = r#"<html><body><div class="keep">content</div></body></html>"#;
    let filter = ContentFilter::new(vec![r#"class="gone""#.to_owned()]);
    let result = filter.filter(src.to_owned());
    assert_eq!(result, src);
}

// A document with no document-root marker passes through unchanged, even
// when a fingerprinted element is present.
#[test]
fn test_filter_without_marker_is_noop() {
    let src = r#"plain text <div class="x">would match</div> more text"#;
    let filter = ContentFilter::new(vec![r#"class="x""#.to_owned()]);
    let result = filter.filter(src.to_owned());
    assert_eq!(result, src);
}

// The filter chain removes a nested element from a marked document.
#[test]
fn test_filter_removes_nested_element() {
    let src = r#"<html><body><div class="ee"><div id="inner">text</div></div>tail</body></html>"#;
    let filter = ContentFilter::new(vec![r#"class="ee""#.to_owned()]);
    let result = filter.filter(src.to_owned());
    assert_eq!(result, r#"<html><body>tail</body></html>"#);
}

// An opening tag with no matching close leaves the document unchanged.
#[test]
fn test_filter_unbalanced_is_noop() {
    let src = r#"<html><body><div class="x">never closed</body></html>"#;
    let filter = ContentFilter::new(vec![r#"class="x""#.to_owned()]);
    let result = filter.filter(src.to_owned());
    assert_eq!(result, src);
}

// A close beyond the scan window counts as unbalanced and leaves the
// document unchanged; the scan is bounded and returns promptly.
#[test]
fn test_filter_close_beyond_window_is_noop() {
    let filler = "x".repeat(25000);
    let src = format!(r#"<html><div class="x">{}</div></html>"#, filler);
    let filter = ContentFilter::new(vec![r#"class="x""#.to_owned()]);
    let result = filter.filter(src.clone());
    assert_eq!(result, src);
}

// With a larger window the same element is found and excised.
#[test]
fn test_locate_with_larger_window() {
    let filler = "x".repeat(25000);
    let src = format!(r#"<html><div class="x">{}</div></html>"#, filler);
    let mut token = DivTokenizer::new(&src, r#"class="x""#);
    assert_eq!(token.locate(), Err(LocateError::Unbalanced));
    let mut token = DivTokenizer::new(&src, r#"class="x""#);
    token.set_scan_window(30000);
    let range = token.locate().unwrap();
    assert_eq!(range.start, 6);
    assert_eq!(&src[range.start..range.end], format!(r#"<div class="x">{}</div>"#, filler));
}

// An absent anchor pattern reports NotFound.
#[test]
fn test_locate_not_found() {
    let mut token = DivTokenizer::new("<html>nothing here</html>", r#"id="missing""#);
    assert_eq!(token.locate(), Err(LocateError::NotFound));
}

// Applying fingerprint A then fingerprint B: two independent,
// non-overlapping elements are both removed, without interference.
#[test]
fn test_filter_sequential_fingerprints() {
    let src = r#"<html>a<div one="1">first</div>b<div two="2">second</div>c</html>"#;
    let filter = ContentFilter::new(vec![r#"one="1""#.to_owned(), r#"two="2""#.to_owned()]);
    let result = filter.filter(src.to_owned());
    assert_eq!(result, "<html>abc</html>");
}

// Duplicate fingerprints are permitted: each application removes the first
// remaining match, so two equal entries remove two equal elements.
#[test]
fn test_filter_duplicate_fingerprints() {
    let src = r#"<html><div d="d">one</div>mid<div d="d">two</div>end</html>"#;
    let filter = ContentFilter::new(vec![r#"d="d""#.to_owned(), r#"d="d""#.to_owned()]);
    let result = filter.filter(src.to_owned());
    assert_eq!(result, "<html>midend</html>");
}

// Length invariant: the result length is the original length minus the
// excised range length, and all bytes outside the range keep their order.
#[test]
fn test_remove_div_length_invariant() {
    let src = r#"head<div k="v">cut me</div>tail"#;
    let mut token = DivTokenizer::new(src, r#"k="v""#);
    let range = token.locate().unwrap();
    let result = remove_div(&src.as_bytes().to_vec(), &r#"k="v""#.as_bytes().to_vec());
    assert_eq!(result.len(), src.len() - (range.end - range.start));
    assert_eq!(&result[..range.start], &src.as_bytes()[..range.start]);
    assert_eq!(&result[range.start..], &src.as_bytes()[range.end..]);
    assert_eq!(result.as_slice(), "headtail".as_bytes());
}

// Excision in a document with multi-byte characters around the element
// still cuts exactly the element and yields well-formed text.
#[test]
fn test_filter_multibyte_text() {
    let src = "<html>caf\u{e9}<div m=\"1\">\u{2603} snow</div>na\u{ef}ve</html>";
    let filter = ContentFilter::new(vec![r#"m="1""#.to_owned()]);
    let result = filter.filter(src.to_owned());
    assert_eq!(result, "<html>caf\u{e9}na\u{ef}ve</html>");
}
