//! Per-request orchestration around the element excision engine: building
//! the upstream URL, running the fetched body through the filter chain, and
//! deciding whether the filtered result is served as HTML.

pub mod filter;

use vstd::prelude::*;

use crate::agent::filter::{bytes_to_string, contains_marker, has_marker, spec_filter, ContentFilter};

verus! {

/// UTF-8 encoding distributes over concatenation of character sequences.
pub proof fn lemma_encode_utf8_concat(a: Seq<char>, b: Seq<char>)
    ensures
        vstd::utf8::encode_utf8(a + b) == vstd::utf8::encode_utf8(a) + vstd::utf8::encode_utf8(b),
    decreases a.len(),
{
    if a.len() == 0 {
        assert(a + b =~= b);
        assert(vstd::utf8::encode_utf8(a) + vstd::utf8::encode_utf8(b) =~= vstd::utf8::encode_utf8(
            b,
        ));
    } else {
        assert((a + b).len() != 0);
        assert((a + b)[0] == a[0]);
        assert((a + b).drop_first() =~= a.drop_first() + b);
        lemma_encode_utf8_concat(a.drop_first(), b);
        assert(vstd::utf8::encode_scalar(a[0] as u32) + (vstd::utf8::encode_utf8(a.drop_first())
            + vstd::utf8::encode_utf8(b)) =~= (vstd::utf8::encode_scalar(a[0] as u32)
            + vstd::utf8::encode_utf8(a.drop_first())) + vstd::utf8::encode_utf8(b));
    }
}

/// Two character sequences with the same UTF-8 encoding are the same
/// sequence.
pub proof fn lemma_encode_utf8_injective(a: Seq<char>, b: Seq<char>)
    requires
        vstd::utf8::encode_utf8(a) == vstd::utf8::encode_utf8(b),
    ensures
        a == b,
{
    vstd::utf8::encode_utf8_decode_utf8(a);
    vstd::utf8::encode_utf8_decode_utf8(b);
}

/// The per-request orchestrator of the relay. It fetches the configured
/// upstream (through an external collaborator), removes the fingerprinted
/// `<div>` elements from the body, and serves the filtered page; the parts
/// that compute — URL building, filtering, the content-type decision — live
/// here, verified, while the transport stays outside.
#[derive(Debug, Clone)]
pub struct AgentService {
    service_name: String,
    base_url: String,
    port: u16,
    filter: ContentFilter,
}

impl AgentService {
    /// The configured service name.
    pub closed spec fn service_name_view(&self) -> Seq<char> {
        self.service_name@
    }

    /// The configured upstream base URL.
    pub closed spec fn base_url_view(&self) -> Seq<char> {
        self.base_url@
    }

    /// The configured listening port.
    pub closed spec fn port_spec(&self) -> u16 {
        self.port
    }

    /// The configured fingerprint list, as bytes, in application order.
    pub closed spec fn props_bytes_view(&self) -> Seq<Seq<u8>> {
        self.filter.props_bytes_view()
    }

    /// A service for the given upstream base URL, listening port and
    /// fingerprint list, applied in the order given.
    pub fn new(service_name: String, base_url: String, port: u16, div_props: Vec<String>) -> (r:
        AgentService)
        ensures
            r.service_name_view() == service_name@,
            r.base_url_view() == base_url@,
            r.port_spec() == port,
            r.props_bytes_view() == Seq::new(
                div_props@.len(),
                |i: int| vstd::utf8::encode_utf8(div_props@[i]@),
            ),
    {
        let ghost props0 = div_props@;
        let f = ContentFilter::new(div_props);
        proof {
            assert(f.props_bytes_view() =~= Seq::new(
                props0.len(),
                |i: int| vstd::utf8::encode_utf8(props0[i]@),
            ));
        }
        AgentService { service_name, base_url, port, filter: f }
    }

    /// The configured listening port.
    pub fn port(&self) -> (r: u16)
        ensures
            r == self.port_spec(),
    {
        self.port
    }

    /// Builds the upstream URL: the configured base URL concatenated with
    /// the inbound request's path and query, verbatim.
    pub fn request_url(&self, path_and_query: &str) -> (r: String)
        ensures
            r@ == self.base_url_view() + path_and_query@,
    {
        let mut bytes = self.base_url.as_str().as_bytes_vec();
        let mut path_bytes = path_and_query.as_bytes_vec();
        bytes.append(&mut path_bytes);
        proof {
            vstd::utf8::encode_utf8_valid_utf8(self.base_url_view());
            vstd::utf8::encode_utf8_valid_utf8(path_and_query@);
            vstd::utf8::valid_utf8_concat(
                vstd::utf8::encode_utf8(self.base_url_view()),
                vstd::utf8::encode_utf8(path_and_query@),
            );
            lemma_encode_utf8_concat(self.base_url_view(), path_and_query@);
        }
        let url = bytes_to_string(bytes);
        proof {
            lemma_encode_utf8_injective(url@, self.base_url_view() + path_and_query@);
        }
        url
    }

    /// The per-request computation after the upstream fetch: runs the body
    /// through the filter chain and reports whether the rendered result is
    /// to be served as HTML, i.e. still contains the document-root marker.
    /// The rendered text is returned directly so callers and tests can
    /// assert on it.
    pub fn render(&self, body: String) -> (r: (String, bool))
        ensures
            vstd::utf8::encode_utf8(r.0@) == spec_filter(
                vstd::utf8::encode_utf8(body@),
                self.props_bytes_view(),
            ),
            !has_marker(vstd::utf8::encode_utf8(body@)) ==> r.0@ == body@,
            r.1 == has_marker(vstd::utf8::encode_utf8(r.0@)),
    {
        let text = self.filter.filter(body);
        let is_html = contains_marker(text.as_str());
        (text, is_html)
    }
}

} // verus!
