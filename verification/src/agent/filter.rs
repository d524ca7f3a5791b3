//! The element excision engine: locating one fingerprinted `<div>` element,
//! tracking nested elements of the same tag name, and computing the byte span
//! to delete.

use vstd::prelude::*;

verus! {

/// Byte value of `<`.
pub open spec fn b_lt() -> u8 {
    60
}

/// Byte value of `>`.
pub open spec fn b_gt() -> u8 {
    62
}

/// Byte value of a space.
pub open spec fn b_sp() -> u8 {
    32
}

/// The tag-opening prefix `<div ` as bytes; an attribute fingerprint is
/// matched verbatim immediately after it.
pub open spec fn div_open_prefix() -> Seq<u8> {
    seq![60u8, 100u8, 105u8, 118u8, 32u8]
}

/// True when `pat` occurs in `s` starting at byte offset `i`.
pub open spec fn matches_at(s: Seq<u8>, pat: Seq<u8>, i: int) -> bool {
    &&& 0 <= i
    &&& i + pat.len() <= s.len()
    &&& s.subrange(i, i + pat.len()) == pat
}

/// The first byte offset at or after `from` where `pat` occurs in `s`, if any.
pub open spec fn find_spec(s: Seq<u8>, pat: Seq<u8>, from: int) -> Option<int>
    recommends
        0 <= from,
    decreases s.len() - from,
{
    if from < 0 || from + pat.len() > s.len() {
        None
    } else if pat.len() == 0 || s.subrange(from, from + pat.len()) == pat {
        Some(from)
    } else {
        find_spec(s, pat, from + 1)
    }
}

/// A `find_spec` hit is a match, is at or after `from`, and is the first
/// match at or after `from`; a miss means no match at or after `from`.
pub proof fn lemma_find_spec_characterization(s: Seq<u8>, pat: Seq<u8>, from: int)
    requires
        0 <= from,
    ensures
        match find_spec(s, pat, from) {
            Some(i) => matches_at(s, pat, i) && from <= i && forall|k: int|
                from <= k < i ==> !matches_at(s, pat, k),
            None => forall|k: int| from <= k ==> !matches_at(s, pat, k),
        },
    decreases s.len() - from,
{
    if from + pat.len() > s.len() {
        assert(forall|k: int| from <= k ==> !matches_at(s, pat, k));
    } else if pat.len() == 0 || s.subrange(from, from + pat.len()) == pat {
        assert(s.subrange(from, from + pat.len()) =~= pat) by {
            assert(pat.len() != 0 ==> s.subrange(from, from + pat.len()) == pat);
        }
    } else {
        assert(!matches_at(s, pat, from));
        lemma_find_spec_characterization(s, pat, from + 1);
    }
}

/// If nothing matches in `[from, mid)`, the first match at or after `from`
/// is the first match at or after `mid`.
pub proof fn lemma_find_spec_skip(s: Seq<u8>, pat: Seq<u8>, from: int, mid: int)
    requires
        0 <= from <= mid,
        forall|k: int| from <= k < mid ==> !matches_at(s, pat, k),
    ensures
        find_spec(s, pat, from) == find_spec(s, pat, mid),
    decreases mid - from,
{
    if from < mid {
        assert(!matches_at(s, pat, from));
        if from + pat.len() <= s.len() {
            if pat.len() == 0 {
                assert(s.subrange(from, from + pat.len()) =~= pat);
                assert(false);
            } else {
                assert(s.subrange(from, from + pat.len()) != pat) by {
                    if s.subrange(from, from + pat.len()) == pat {
                        assert(matches_at(s, pat, from));
                    }
                }
            }
        }
        lemma_find_spec_skip(s, pat, from + 1, mid);
    }
}

/// Whether `pat` occurs in `s` starting exactly at `i`; executable check.
fn matches_here(s: &[u8], pat: &[u8], i: usize) -> (r: bool)
    requires
        i + pat@.len() <= s@.len(),
    ensures
        r == matches_at(s@, pat@, i as int),
{
    let n = s.len();
    let m = pat.len();
    let mut j: usize = 0;
    while j < m
        invariant
            0 <= j <= m,
            n == s@.len(),
            m == pat@.len(),
            i + m <= n,
            forall|k: int| 0 <= k < j ==> s@[i + k] == pat@[k],
        decreases m - j,
    {
        if s[i + j] != pat[j] {
            assert(s@.subrange(i as int, i + pat@.len()) != pat@) by {
                assert(s@.subrange(i as int, i + pat@.len())[j as int] != pat@[j as int]);
            }
            return false;
        }
        j += 1;
    }
    assert(s@.subrange(i as int, i + pat@.len()) =~= pat@);
    true
}

/// First occurrence of `pat` in `s`, scanning forward from the start.
pub fn find_pattern(s: &[u8], pat: &[u8]) -> (r: Option<usize>)
    ensures
        match r {
            Some(i) => find_spec(s@, pat@, 0) == Some(i as int),
            None => find_spec(s@, pat@, 0).is_none(),
        },
{
    let n = s.len();
    let m = pat.len();
    if m > n {
        proof {
            lemma_find_spec_characterization(s@, pat@, 0);
        }
        return None;
    }
    if m == 0 {
        proof {
            assert(s@.subrange(0, 0) =~= pat@);
        }
        return Some(0);
    }
    let mut i: usize = 0;
    while i <= n - m
        invariant
            1 <= m <= n,
            n == s@.len(),
            m == pat@.len(),
            i <= n - m + 1,
            forall|k: int| 0 <= k < i ==> !matches_at(s@, pat@, k),
        decreases n - m + 1 - i,
    {
        if matches_here(s, pat, i) {
            proof {
                lemma_find_spec_skip(s@, pat@, 0, i as int);
            }
            return Some(i);
        }
        i += 1;
    }
    proof {
        assert(forall|k: int| 0 <= k ==> !matches_at(s@, pat@, k)) by {
            assert(forall|k: int| k + pat@.len() > s@.len() ==> !matches_at(s@, pat@, k));
        }
        lemma_find_spec_skip(s@, pat@, 0, i as int);
        lemma_find_spec_characterization(s@, pat@, i as int);
    }
    None
}

/// The token `<div`: an opening tag of the generic container element.
pub open spec fn div_open_token() -> Seq<u8> {
    seq![60u8, 100u8, 105u8, 118u8]
}

/// The token `</div`: a closing tag of the generic container element.
pub open spec fn div_close_token() -> Seq<u8> {
    seq![60u8, 47u8, 100u8, 105u8, 118u8]
}

/// How one token changes the nesting depth: the opening token increments it,
/// the closing token decrements it, every other token is ignored.
pub open spec fn token_delta(tok: Seq<u8>) -> int {
    if tok == div_open_token() {
        1
    } else if tok == div_close_token() {
        -1
    } else {
        0
    }
}

/// The smaller of `at + window` and `len`: the exclusive end of the bounded
/// forward scan that starts at match offset `at`.
pub open spec fn spec_bound(at: int, window: int, len: int) -> int {
    if at + window <= len {
        at + window
    } else {
        len
    }
}

/// The larger of two integers.
pub open spec fn max2(a: int, b: int) -> int {
    if a >= b {
        a
    } else {
        b
    }
}

/// The next token emitted by the tokenizer scanning `s` from position `i`
/// with pending token start `last`, stopping before `bound`. A token starts
/// at a `<` byte and ends at the next `>` or space byte; the result is the
/// token's half-open byte span `(start, end)`, or `None` when the scan
/// exhausts the bound first.
pub open spec fn spec_next_token(s: Seq<u8>, i: int, last: Option<int>, bound: int) -> Option<
    (int, int),
>
    decreases bound - i,
{
    if i >= bound {
        None
    } else {
        let b = s[i];
        if (b == b_gt() || b == b_sp()) && last is Some {
            Some((last->0, i))
        } else if b == b_lt() {
            spec_next_token(s, i + 1, Some(i), bound)
        } else {
            spec_next_token(s, i + 1, last, bound)
        }
    }
}

/// The pending token start left behind when the scan from `i` exhausts
/// `bound` without emitting a token.
pub open spec fn spec_last_after(s: Seq<u8>, i: int, last: Option<int>, bound: int) -> Option<int>
    decreases bound - i,
{
    if i >= bound {
        last
    } else {
        let b = s[i];
        if (b == b_gt() || b == b_sp()) && last is Some {
            None
        } else if b == b_lt() {
            spec_last_after(s, i + 1, Some(i), bound)
        } else {
            spec_last_after(s, i + 1, last, bound)
        }
    }
}

/// The end byte (exclusive) of the closing token that brings the nesting
/// depth from `depth` to zero, scanning `s` from position `i` with pending
/// token start `last` and stopping before `bound`; `None` when the bound is
/// exhausted first.
pub open spec fn scan_close(s: Seq<u8>, i: int, last: Option<int>, depth: int, bound: int) -> Option<
    int,
>
    decreases bound - i,
{
    if i >= bound {
        None
    } else {
        let b = s[i];
        if (b == b_gt() || b == b_sp()) && last is Some {
            let d2 = depth + token_delta(s.subrange(last->0, i));
            if d2 == 0 {
                Some(i + 1)
            } else {
                scan_close(s, i + 1, None, d2, bound)
            }
        } else if b == b_lt() {
            scan_close(s, i + 1, Some(i), depth, bound)
        } else {
            scan_close(s, i + 1, last, depth, bound)
        }
    }
}

/// `scan_close` advances token by token: it is the fold of `token_delta`
/// over the tokens that `spec_next_token` yields.
pub proof fn lemma_scan_close_step(s: Seq<u8>, i: int, last: Option<int>, depth: int, bound: int)
    ensures
        scan_close(s, i, last, depth, bound) == match spec_next_token(s, i, last, bound) {
            None => None::<int>,
            Some(span) => {
                let d2 = depth + token_delta(s.subrange(span.0, span.1));
                if d2 == 0 {
                    Some(span.1 + 1)
                } else {
                    scan_close(s, span.1 + 1, None, d2, bound)
                }
            },
        },
    decreases bound - i,
{
    if i >= bound {
    } else {
        let b = s[i];
        if (b == b_gt() || b == b_sp()) && last is Some {
        } else if b == b_lt() {
            lemma_scan_close_step(s, i + 1, Some(i), depth, bound);
        } else {
            lemma_scan_close_step(s, i + 1, last, depth, bound);
        }
    }
}

/// A successful `scan_close` ends after its starting position and within the
/// scan bound.
pub proof fn lemma_scan_close_range(s: Seq<u8>, i: int, last: Option<int>, depth: int, bound: int)
    requires
        scan_close(s, i, last, depth, bound) is Some,
    ensures
        i < scan_close(s, i, last, depth, bound)->0 <= bound,
    decreases bound - i,
{
    if i >= bound {
    } else {
        let b = s[i];
        if (b == b_gt() || b == b_sp()) && last is Some {
            let d2 = depth + token_delta(s.subrange(last->0, i));
            if d2 == 0 {
            } else {
                lemma_scan_close_range(s, i + 1, None, d2, bound);
            }
        } else if b == b_lt() {
            lemma_scan_close_range(s, i + 1, Some(i), depth, bound);
        } else {
            lemma_scan_close_range(s, i + 1, last, depth, bound);
        }
    }
}

/// The full match pattern for a fingerprint: the tag-opening prefix followed
/// by the fingerprint bytes, verbatim.
pub open spec fn spec_pattern(props: Seq<u8>) -> Seq<u8> {
    div_open_prefix() + props
}

/// Why `locate` failed for one fingerprint; both outcomes are non-fatal for
/// the filter chain, which leaves the document unchanged and moves on.
#[derive(Debug, Clone, Copy, PartialEq, Eq, Structural)]
pub enum LocateError {
    /// The fingerprint's anchor pattern does not occur in the document.
    NotFound,
    /// The anchor was found, but no matching closing tag lies within the
    /// bounded scan window.
    Unbalanced,
}

/// The excision range for one fingerprint: the half-open byte interval from
/// the anchor match to the end of the closing tag that balances it, found by
/// the bounded nested-element scan; or the error saying why there is none.
pub open spec fn spec_locate(s: Seq<u8>, props: Seq<u8>, window: int) -> Result<
    (int, int),
    LocateError,
> {
    match find_spec(s, spec_pattern(props), 0) {
        None => Err(LocateError::NotFound),
        Some(at) => match scan_close(
            s,
            at + 1,
            None,
            1,
            spec_bound(at, window, s.len() as int),
        ) {
            Some(end) => Ok((at, end)),
            None => Err(LocateError::Unbalanced),
        },
    }
}

/// Default forward-scan window in bytes: a liveness guard that caps the
/// worst-case cost of one `locate` call on pathological input.
pub const DEFAULT_SCAN_WINDOW: usize = 20000;

/// Copy of the byte span `[from, to)` of `s`.
fn copy_range(s: &Vec<u8>, from: usize, to: usize) -> (r: Vec<u8>)
    requires
        from <= to <= s@.len(),
    ensures
        r@ == s@.subrange(from as int, to as int),
{
    let mut out: Vec<u8> = Vec::new();
    let mut k = from;
    while k < to
        invariant
            from <= k <= to <= s@.len(),
            out@ == s@.subrange(from as int, k as int),
        decreases to - k,
    {
        out.push(s[k]);
        proof {
            assert(s@.subrange(from as int, k as int).push(s@[k as int]) =~= s@.subrange(
                from as int,
                k + 1,
            ));
        }
        k += 1;
    }
    out
}

/// Scans the document for one fingerprinted `<div>` element and computes its
/// excision range, counting nested `<div>`/`</div>` tokens after the anchor
/// match so that the range ends at the element's true closing tag.
pub struct DivTokenizer {
    div_props: Vec<u8>,
    at: usize,
    cursor: usize,
    src: Vec<u8>,
    last_token: Option<usize>,
    scan_window: usize,
}

impl DivTokenizer {
    /// The document bytes being scanned.
    pub closed spec fn src_bytes(&self) -> Seq<u8> {
        self.src@
    }

    /// The attribute fingerprint bytes.
    pub closed spec fn props_bytes(&self) -> Seq<u8> {
        self.div_props@
    }

    /// The anchor match offset of the scan.
    pub closed spec fn at_spec(&self) -> int {
        self.at as int
    }

    /// The next byte position the tokenizer will examine.
    pub closed spec fn cursor_spec(&self) -> int {
        self.cursor as int
    }

    /// The pending token start, if a `<` has been seen and its token not yet
    /// emitted.
    pub closed spec fn last_spec(&self) -> Option<int> {
        match self.last_token {
            Some(l) => Some(l as int),
            None => None,
        }
    }

    /// The forward-scan window in bytes.
    pub closed spec fn window_spec(&self) -> int {
        self.scan_window as int
    }

    /// The exclusive end of the bounded scan for the current anchor offset.
    pub open spec fn scan_bound_spec(&self) -> int {
        spec_bound(self.at_spec(), self.window_spec(), self.src_bytes().len() as int)
    }

    /// Well-formedness: the scan positions lie within the document and a
    /// pending token start lies before the cursor.
    pub closed spec fn wf(&self) -> bool {
        &&& self.at <= self.src@.len()
        &&& self.cursor <= self.src@.len()
        &&& match self.last_token {
            Some(l) => l < self.cursor,
            None => true,
        }
    }

    /// Fresh tokenizer over a document and an attribute fingerprint, both
    /// given as text; the scan window starts at its default.
    pub fn new(src: &str, div_props: &str) -> (r: DivTokenizer)
        ensures
            r.wf(),
            r.src_bytes() == vstd::utf8::encode_utf8(src@),
            r.props_bytes() == vstd::utf8::encode_utf8(div_props@),
            r.at_spec() == 0,
            r.cursor_spec() == 0,
            r.last_spec() is None,
            r.window_spec() == DEFAULT_SCAN_WINDOW as int,
    {
        DivTokenizer::from_bytes(src.as_bytes_vec(), div_props.as_bytes_vec())
    }

    /// Fresh tokenizer over raw document and fingerprint bytes.
    pub fn from_bytes(src: Vec<u8>, div_props: Vec<u8>) -> (r: DivTokenizer)
        ensures
            r.wf(),
            r.src_bytes() == src@,
            r.props_bytes() == div_props@,
            r.at_spec() == 0,
            r.cursor_spec() == 0,
            r.last_spec() is None,
            r.window_spec() == DEFAULT_SCAN_WINDOW as int,
    {
        DivTokenizer {
            div_props,
            src,
            at: 0,
            cursor: 0,
            last_token: None,
            scan_window: DEFAULT_SCAN_WINDOW,
        }
    }

    /// Overrides the forward-scan window. A smaller window fails sooner with
    /// `Unbalanced` on pathological input; a larger one scans further.
    pub fn set_scan_window(&mut self, window: usize)
        requires
            old(self).wf(),
        ensures
            final(self).wf(),
            final(self).src_bytes() == old(self).src_bytes(),
            final(self).props_bytes() == old(self).props_bytes(),
            final(self).at_spec() == old(self).at_spec(),
            final(self).cursor_spec() == old(self).cursor_spec(),
            final(self).last_spec() == old(self).last_spec(),
            final(self).window_spec() == window as int,
    {
        self.scan_window = window;
    }

    /// The exclusive end of the bounded scan, computed without overflow.
    fn scan_bound(&self) -> (r: usize)
        requires
            self.wf(),
        ensures
            r as int == self.scan_bound_spec(),
            r <= self.src_bytes().len(),
    {
        if self.src.len() - self.at < self.scan_window {
            self.src.len()
        } else {
            self.at + self.scan_window
        }
    }

    /// The next token in the bounded scan: the bytes from a `<` up to (not
    /// including) the next `>` or space, skipping everything that is not
    /// part of a token; `None` once the scan bound is exhausted.
    pub fn next_token(&mut self) -> (r: Option<Vec<u8>>)
        requires
            old(self).wf(),
        ensures
            final(self).wf(),
            final(self).src_bytes() == old(self).src_bytes(),
            final(self).props_bytes() == old(self).props_bytes(),
            final(self).at_spec() == old(self).at_spec(),
            final(self).window_spec() == old(self).window_spec(),
            ({
                let s = old(self).src_bytes();
                let c0 = old(self).cursor_spec();
                let l0 = old(self).last_spec();
                let bound = old(self).scan_bound_spec();
                match spec_next_token(s, c0, l0, bound) {
                    Some(span) => {
                        &&& r is Some
                        &&& r->0@ == s.subrange(span.0, span.1)
                        &&& 0 <= span.0 < span.1
                        &&& c0 <= span.1 < bound
                        &&& final(self).cursor_spec() == span.1 + 1
                        &&& final(self).last_spec() is None
                    },
                    None => {
                        &&& r is None
                        &&& final(self).cursor_spec() == max2(c0, bound)
                        &&& final(self).last_spec() == spec_last_after(s, c0, l0, bound)
                    },
                }
            }),
    {
        let max_search = self.scan_bound();
        let ghost s = old(self).src_bytes();
        let ghost bound = old(self).scan_bound_spec();
        let ghost c0 = old(self).cursor_spec();
        let ghost l0 = old(self).last_spec();
        let ghost p0 = old(self).props_bytes();
        let ghost a0 = old(self).at_spec();
        let ghost w0 = old(self).window_spec();
        let mut i: usize = self.cursor;
        let mut last: Option<usize> = self.last_token;
        while i < max_search
            invariant
                self.wf(),
                max_search as int == bound,
                max_search <= self.src@.len(),
                s == self.src@,
                p0 == self.div_props@,
                a0 == self.at as int,
                w0 == self.scan_window as int,
                c0 == self.cursor as int,
                l0 == self.last_spec(),
                s == old(self).src_bytes(),
                p0 == old(self).props_bytes(),
                a0 == old(self).at_spec(),
                w0 == old(self).window_spec(),
                c0 == old(self).cursor_spec(),
                l0 == old(self).last_spec(),
                bound == old(self).scan_bound_spec(),
                c0 <= i,
                i as int <= max2(c0, bound),
                match last {
                    Some(l) => l < i,
                    None => true,
                },
                spec_next_token(s, i as int, spec_opt_int(last), bound) == spec_next_token(
                    s,
                    c0,
                    l0,
                    bound,
                ),
                spec_last_after(s, i as int, spec_opt_int(last), bound) == spec_last_after(
                    s,
                    c0,
                    l0,
                    bound,
                ),
            decreases max_search - i,
        {
            let b = self.src[i];
            if b == 62 || b == 32 {
                if let Some(l) = last {
                    let tok = copy_range(&self.src, l, i);
                    self.cursor = i + 1;
                    self.last_token = None;
                    return Some(tok);
                }
            } else if b == 60 {
                last = Some(i);
            }
            i += 1;
        }
        self.cursor = i;
        self.last_token = last;
        None
    }
}

impl DivTokenizer {
    /// The full match pattern: the tag-opening prefix followed by the
    /// fingerprint bytes.
    fn make_pattern(&self) -> (r: Vec<u8>)
        ensures
            r@ == spec_pattern(self.props_bytes()),
            r@.len() == 5 + self.props_bytes().len(),
    {
        let mut v: Vec<u8> = Vec::new();
        v.push(60);
        v.push(100);
        v.push(105);
        v.push(118);
        v.push(32);
        proof {
            assert(v@ =~= div_open_prefix());
        }
        let mut k: usize = 0;
        while k < self.div_props.len()
            invariant
                k <= self.div_props@.len(),
                v@ == div_open_prefix() + self.div_props@.subrange(0, k as int),
            decreases self.div_props@.len() - k,
        {
            v.push(self.div_props[k]);
            proof {
                assert((div_open_prefix() + self.div_props@.subrange(0, k as int)).push(
                    self.div_props@[k as int],
                ) =~= div_open_prefix() + self.div_props@.subrange(0, k + 1));
            }
            k += 1;
        }
        proof {
            assert(self.div_props@.subrange(0, self.div_props@.len() as int) =~= self.div_props@);
        }
        v
    }

    /// Locates the fingerprinted element and returns its excision range: the
    /// half-open byte interval from the anchor match through the closing tag
    /// that balances it, nested same-tag elements included. Fails with
    /// `NotFound` when the anchor pattern is absent, and with `Unbalanced`
    /// when no balancing close lies within the scan window.
    pub fn locate(&mut self) -> (r: Result<core::ops::Range<usize>, LocateError>)
        requires
            old(self).wf(),
        ensures
            final(self).wf(),
            final(self).src_bytes() == old(self).src_bytes(),
            final(self).props_bytes() == old(self).props_bytes(),
            final(self).window_spec() == old(self).window_spec(),
            ({
                let outcome = spec_locate(
                    old(self).src_bytes(),
                    old(self).props_bytes(),
                    old(self).window_spec(),
                );
                match r {
                    Ok(range) => {
                        &&& outcome == Ok::<_, LocateError>((range.start as int, range.end as int))
                        &&& range.start < range.end <= old(self).src_bytes().len()
                    },
                    Err(e) => outcome == Err::<(int, int), _>(e),
                }
            }),
    {
        let ghost s = old(self).src_bytes();
        let ghost props = old(self).props_bytes();
        let ghost w = old(self).window_spec();
        let pattern = self.make_pattern();
        let found = find_pattern(self.src.as_slice(), pattern.as_slice());
        proof {
            lemma_find_spec_characterization(s, spec_pattern(props), 0);
        }
        let pos: usize;
        match found {
            None => {
                return Err(LocateError::NotFound);
            },
            Some(p) => {
                pos = p;
            },
        }
        let n = self.src.len();
        proof {
            assert(matches_at(s, spec_pattern(props), pos as int));
            assert(pos + 5 <= n);
        }
        self.at = pos;
        self.cursor = pos + 1;
        self.last_token = None;
        let ghost at0 = self.at as int;
        let ghost bound = self.scan_bound_spec();
        let mut stack: u128 = 1;
        loop
            invariant
                self.wf(),
                self.src_bytes() == s,
                self.props_bytes() == props,
                self.window_spec() == w,
                self.at_spec() == at0,
                s == old(self).src_bytes(),
                props == old(self).props_bytes(),
                w == old(self).window_spec(),
                bound == spec_bound(at0, w, s.len() as int),
                bound == self.scan_bound_spec(),
                at0 < self.cursor_spec(),
                find_spec(s, spec_pattern(props), 0) == Some(at0),
                1 <= stack,
                stack as int <= 1 + self.cursor_spec() - (at0 + 1),
                scan_close(s, self.cursor_spec(), self.last_spec(), stack as int, bound)
                    == scan_close(s, at0 + 1, None, 1, bound),
            decreases bound - self.cursor_spec(),
        {
            let ghost c0 = self.cursor_spec();
            let ghost l0 = self.last_spec();
            let ghost d0 = stack as int;
            let tok_opt = self.next_token();
            proof {
                lemma_scan_close_step(s, c0, l0, d0, bound);
            }
            match tok_opt {
                None => {
                    return Err(LocateError::Unbalanced);
                },
                Some(tok) => {
                    if is_open_token(&tok) {
                        stack = stack + 1;
                    } else if is_close_token(&tok) {
                        stack = stack - 1;
                    }
                    if stack == 0 {
                        let st = self.at;
                        let en = self.cursor;
                        return Ok(st..en);
                    }
                },
            }
        }
    }
}

/// Whether the token is the opening tag token `<div`.
fn is_open_token(tok: &Vec<u8>) -> (r: bool)
    ensures
        r == (tok@ == div_open_token()),
{
    let r = tok.len() == 4 && tok[0] == 60 && tok[1] == 100 && tok[2] == 105 && tok[3] == 118;
    proof {
        if r {
            assert(tok@ =~= div_open_token());
        }
    }
    r
}

/// Whether the token is the closing tag token `</div`.
fn is_close_token(tok: &Vec<u8>) -> (r: bool)
    ensures
        r == (tok@ == div_close_token()),
{
    let r = tok.len() == 5 && tok[0] == 60 && tok[1] == 47 && tok[2] == 100 && tok[3] == 105
        && tok[4] == 118;
    proof {
        if r {
            assert(tok@ =~= div_close_token());
        }
    }
    r
}

/// A concrete `Option<usize>` seen as the mathematical option it stands for.
pub open spec fn spec_opt_int(o: Option<usize>) -> Option<int> {
    match o {
        Some(l) => Some(l as int),
        None => None,
    }
}

/// The result of one excision with an explicit scan window: the located
/// span deleted from the document, or the document unchanged when `locate`
/// fails for this fingerprint.
pub open spec fn spec_remove_div_windowed(s: Seq<u8>, props: Seq<u8>, window: int) -> Seq<u8> {
    match spec_locate(s, props, window) {
        Ok(span) => s.subrange(0, span.0) + s.subrange(span.1, s.len() as int),
        Err(_) => s,
    }
}

/// The result of one excision at the default scan window.
pub open spec fn spec_remove_div(s: Seq<u8>, props: Seq<u8>) -> Seq<u8> {
    spec_remove_div_windowed(s, props, DEFAULT_SCAN_WINDOW as int)
}

/// The document-root marker `<html` as bytes; a document without it is not
/// scanned at all.
pub open spec fn html_marker() -> Seq<u8> {
    seq![60u8, 104u8, 116u8, 109u8, 108u8]
}

/// Whether the document contains the document-root marker.
pub open spec fn has_marker(s: Seq<u8>) -> bool {
    find_spec(s, html_marker(), 0) is Some
}

/// The fold of the fingerprint list over the document: each fingerprint's
/// excision runs on the previous fingerprint's output.
pub open spec fn spec_apply_all(s: Seq<u8>, props: Seq<Seq<u8>>) -> Seq<u8>
    decreases props.len(),
{
    if props.len() == 0 {
        s
    } else {
        spec_apply_all(spec_remove_div(s, props[0]), props.drop_first())
    }
}

/// The filter chain: a document without the document-root marker passes
/// through unchanged; otherwise the fingerprint list is folded over it.
pub open spec fn spec_filter(s: Seq<u8>, props: Seq<Seq<u8>>) -> Seq<u8> {
    if has_marker(s) {
        spec_apply_all(s, props)
    } else {
        s
    }
}

/// In valid UTF-8, the position right after an ASCII byte is a character
/// boundary: an ASCII byte encodes a whole scalar, so a new scalar starts
/// right after it.
pub proof fn lemma_boundary_after_ascii(s: Seq<u8>, i: int)
    requires
        vstd::utf8::valid_utf8(s),
        0 <= i < s.len(),
        s[i] < 0x80,
    ensures
        vstd::utf8::is_char_boundary(s, i + 1),
{
    if i + 1 == s.len() {
        vstd::utf8::is_char_boundary_start_end_of_seq(s);
    } else {
        vstd::utf8::is_char_boundary_iff_not_is_continuation_byte(s, i);
        assert(vstd::utf8::is_char_boundary(s, i));
        vstd::utf8::valid_utf8_split(s, i);
        let t = s.subrange(i, s.len() as int);
        assert(vstd::utf8::valid_utf8(t));
        assert(t[0] == s[i]);
        assert(vstd::utf8::length_of_first_scalar(t) == 1);
        assert(vstd::utf8::is_char_boundary(t, 1)) by {
            reveal_with_fuel(vstd::utf8::is_char_boundary, 2);
            assert(vstd::utf8::pop_first_scalar(t) == t.subrange(1, t.len() as int));
        }
        vstd::utf8::is_char_boundary_iff_not_is_continuation_byte(t, 1);
        assert(!vstd::utf8::is_continuation_byte(t[1]));
        assert(t[1] == s[i + 1]);
        vstd::utf8::is_char_boundary_iff_not_is_continuation_byte(s, i + 1);
    }
}

/// A successful scan ends one byte past a `>` or space: the byte that closed
/// the final token.
pub proof fn lemma_scan_close_last_byte(s: Seq<u8>, i: int, last: Option<int>, depth: int, bound: int)
    requires
        0 <= i,
        bound <= s.len(),
        scan_close(s, i, last, depth, bound) is Some,
    ensures
        ({
            let en = scan_close(s, i, last, depth, bound)->0;
            &&& 0 < en <= s.len()
            &&& (s[en - 1] == b_gt() || s[en - 1] == b_sp())
        }),
    decreases bound - i,
{
    if i >= bound {
    } else {
        let b = s[i];
        if (b == b_gt() || b == b_sp()) && last is Some {
            let d2 = depth + token_delta(s.subrange(last->0, i));
            if d2 == 0 {
            } else {
                lemma_scan_close_last_byte(s, i + 1, None, d2, bound);
            }
        } else if b == b_lt() {
            lemma_scan_close_last_byte(s, i + 1, Some(i), depth, bound);
        } else {
            lemma_scan_close_last_byte(s, i + 1, last, depth, bound);
        }
    }
}

/// A located excision span begins at a `<` byte and ends right after a `>`
/// or space byte; both ends therefore fall on character boundaries of a
/// valid UTF-8 document.
pub proof fn lemma_locate_boundaries(s: Seq<u8>, props: Seq<u8>, window: int)
    requires
        vstd::utf8::valid_utf8(s),
        spec_locate(s, props, window) is Ok,
    ensures
        ({
            let span = spec_locate(s, props, window)->Ok_0;
            &&& 0 <= span.0 < span.1 <= s.len()
            &&& vstd::utf8::is_char_boundary(s, span.0)
            &&& vstd::utf8::is_char_boundary(s, span.1)
        }),
{
    let pat = spec_pattern(props);
    let at = find_spec(s, pat, 0)->0;
    lemma_find_spec_characterization(s, pat, 0);
    assert(matches_at(s, pat, at));
    let bound = spec_bound(at, window, s.len() as int);
    let en = scan_close(s, at + 1, None, 1, bound)->0;
    lemma_scan_close_range(s, at + 1, None, 1, bound);
    lemma_scan_close_last_byte(s, at + 1, None, 1, bound);
    assert(s[at] == pat[0]) by {
        assert(s.subrange(at, at + pat.len() as int)[0] == pat[0]);
    }
    assert(s[at] == 60);
    vstd::utf8::is_char_boundary_iff_not_is_continuation_byte(s, at);
    lemma_boundary_after_ascii(s, en - 1);
}

/// One excision of a valid UTF-8 document leaves it valid UTF-8: the span is
/// cut at character boundaries.
pub proof fn lemma_remove_div_windowed_valid(s: Seq<u8>, props: Seq<u8>, window: int)
    requires
        vstd::utf8::valid_utf8(s),
    ensures
        vstd::utf8::valid_utf8(spec_remove_div_windowed(s, props, window)),
{
    match spec_locate(s, props, window) {
        Ok(span) => {
            lemma_locate_boundaries(s, props, window);
            vstd::utf8::valid_utf8_split(s, span.0);
            vstd::utf8::valid_utf8_split(s, span.1);
            vstd::utf8::valid_utf8_concat(
                s.subrange(0, span.0),
                s.subrange(span.1, s.len() as int),
            );
        },
        Err(_) => {},
    }
}

/// Deletes the excision range of one fingerprint from the document bytes;
/// when the fingerprint cannot be located, or its element is not balanced
/// within the scan window, the document comes back unchanged.
pub fn remove_div(src: &Vec<u8>, div_props: &Vec<u8>) -> (r: Vec<u8>)
    ensures
        r@ == spec_remove_div(src@, div_props@),
{
    let src_copy = copy_range(src, 0, src.len());
    let props_copy = copy_range(div_props, 0, div_props.len());
    proof {
        assert(src@.subrange(0, src@.len() as int) =~= src@);
        assert(div_props@.subrange(0, div_props@.len() as int) =~= div_props@);
    }
    let mut t = DivTokenizer::from_bytes(src_copy, props_copy);
    match t.locate() {
        Ok(range) => {
            let mut out = copy_range(src, 0, range.start);
            let mut tail_part = copy_range(src, range.end, src.len());
            out.append(&mut tail_part);
            out
        },
        Err(_) => copy_range(src, 0, src.len()),
    }
}

/// Whether the text contains the document-root marker `<html`.
pub fn contains_marker(s: &str) -> (r: bool)
    ensures
        r == has_marker(vstd::utf8::encode_utf8(s@)),
{
    let marker = make_marker();
    let found = find_pattern(s.as_bytes(), marker.as_slice());
    found.is_some()
}

/// Relies on `String::from_utf8`: bytes that are valid UTF-8 become the
/// string whose UTF-8 encoding is exactly those bytes.
#[verifier::external_body]
pub(crate) fn bytes_to_string(v: Vec<u8>) -> (r: String)
    requires
        vstd::utf8::valid_utf8(v@),
    ensures
        vstd::utf8::encode_utf8(r@) == v@,
{
    String::from_utf8(v).unwrap()
}

/// The filter for handling the `<div>` tag; the only handling of a matched
/// `<div>` is to remove it.
#[derive(Debug, Clone)]
pub struct ContentFilter {
    div_props: Vec<String>,
}

impl ContentFilter {
    /// The fingerprint list as text: one character sequence per fingerprint,
    /// in application order.
    pub closed spec fn props_view(&self) -> Seq<Seq<char>> {
        Seq::new(self.div_props@.len(), |i: int| self.div_props@[i]@)
    }

    /// The fingerprint list as bytes, in application order.
    pub open spec fn props_bytes_view(&self) -> Seq<Seq<u8>> {
        Seq::new(self.props_view().len(), |i: int| vstd::utf8::encode_utf8(self.props_view()[i]))
    }

    /// A `ContentFilter` over the given fingerprint list. Each entry
    /// identifies one `<div>` by the text immediately following `<div `,
    /// e.g. `id="123"`; several entries remove several elements, in order.
    pub fn new(props: Vec<String>) -> (r: ContentFilter)
        ensures
            r.props_view() == Seq::new(props@.len(), |i: int| props@[i]@),
    {
        let r = ContentFilter { div_props: props };
        proof {
            assert(r.props_view() =~= Seq::new(r.div_props@.len(), |i: int| r.div_props@[i]@));
        }
        r
    }

    /// Filters the text: removes each fingerprinted `<div>` element in turn,
    /// feeding each excision's result to the next fingerprint. A document
    /// without the `<html` marker passes through untouched.
    pub fn filter(&self, src: String) -> (r: String)
        ensures
            vstd::utf8::encode_utf8(r@) == spec_filter(
                vstd::utf8::encode_utf8(src@),
                self.props_bytes_view(),
            ),
            !has_marker(vstd::utf8::encode_utf8(src@)) ==> r@ == src@,
    {
        let ghost cb = vstd::utf8::encode_utf8(src@);
        let src_bytes = src.as_str().as_bytes_vec();
        let marker = make_marker();
        if find_pattern(src_bytes.as_slice(), marker.as_slice()).is_none() {
            return src;
        }
        proof {
            vstd::utf8::encode_utf8_valid_utf8(src@);
        }
        let ghost all_props = self.props_bytes_view();
        let mut content = src_bytes;
        proof {
            assert(content@ == cb);
            assert(all_props.skip(0) =~= all_props);
        }
        let mut k: usize = 0;
        while k < self.div_props.len()
            invariant
                k <= self.div_props@.len(),
                all_props == self.props_bytes_view(),
                all_props.len() == self.div_props@.len(),
                vstd::utf8::valid_utf8(content@),
                spec_apply_all(content@, all_props.skip(k as int)) == spec_apply_all(cb, all_props),
            decreases self.div_props@.len() - k,
        {
            let prop_bytes = self.div_props[k].as_str().as_bytes_vec();
            proof {
                assert(prop_bytes@ == all_props[k as int]);
                let rest = all_props.skip(k as int);
                assert(rest[0] == all_props[k as int]);
                assert(rest.drop_first() =~= all_props.skip(k + 1));
                lemma_remove_div_windowed_valid(
                    content@,
                    prop_bytes@,
                    DEFAULT_SCAN_WINDOW as int,
                );
            }
            let next = remove_div(&content, &prop_bytes);
            content = next;
            k += 1;
        }
        proof {
            assert(all_props.skip(k as int) =~= Seq::<Seq<u8>>::empty());
            assert(spec_apply_all(content@, all_props.skip(k as int)) == content@);
        }
        bytes_to_string(content)
    }
}

/// A successful `spec_locate` yields a well-formed span: it starts at a
/// match of the anchor pattern and ends after it, within the document.
pub proof fn lemma_locate_ok_range(s: Seq<u8>, props: Seq<u8>, window: int)
    requires
        spec_locate(s, props, window) is Ok,
    ensures
        ({
            let span = spec_locate(s, props, window)->Ok_0;
            &&& 0 <= span.0 < span.1 <= s.len()
            &&& matches_at(s, spec_pattern(props), span.0)
        }),
{
    let pat = spec_pattern(props);
    lemma_find_spec_characterization(s, pat, 0);
    let at = find_spec(s, pat, 0)->0;
    lemma_scan_close_range(s, at + 1, None, 1, spec_bound(at, window, s.len() as int));
}

/// For any document and a fingerprint whose anchor pattern is absent from
/// it, the excision leaves the document byte-identical: `locate` reports
/// `NotFound` and the document is returned unchanged.
pub proof fn lemma_absent_fingerprint_noop(s: Seq<u8>, props: Seq<u8>, window: int)
    requires
        forall|i: int| !matches_at(s, spec_pattern(props), i),
    ensures
        spec_locate(s, props, window) == Err::<(int, int), LocateError>(LocateError::NotFound),
        spec_remove_div_windowed(s, props, window) == s,
{
    lemma_find_spec_characterization(s, spec_pattern(props), 0);
}

/// For any document and a fingerprint whose anchor pattern is absent from
/// it, the whole filter chain over that one fingerprint returns the document
/// byte-identical.
pub proof fn lemma_filter_absent_fingerprint(s: Seq<u8>, props: Seq<u8>)
    requires
        forall|i: int| !matches_at(s, spec_pattern(props), i),
    ensures
        spec_filter(s, seq![props]) == s,
{
    lemma_absent_fingerprint_noop(s, props, DEFAULT_SCAN_WINDOW as int);
    assert(seq![props][0] == props);
    assert(seq![props].drop_first() =~= Seq::<Seq<u8>>::empty());
    assert(spec_apply_all(s, seq![props]) == spec_apply_all(
        spec_remove_div(s, props),
        Seq::<Seq<u8>>::empty(),
    ));
    assert(spec_apply_all(spec_remove_div(s, props), Seq::<Seq<u8>>::empty())
        == spec_remove_div(s, props));
}

/// A document without the document-root marker passes through the filter
/// chain unchanged, whatever the fingerprint list.
pub proof fn lemma_no_marker_noop(s: Seq<u8>, props: Seq<Seq<u8>>)
    requires
        !has_marker(s),
    ensures
        spec_filter(s, props) == s,
{
}

/// A fingerprint for which `locate` fails — anchor absent, or no balancing
/// close within the scan window — leaves the document unchanged.
pub proof fn lemma_failed_locate_noop(s: Seq<u8>, props: Seq<u8>, window: int)
    requires
        spec_locate(s, props, window) is Err,
    ensures
        spec_remove_div_windowed(s, props, window) == s,
{
}

/// Applying fingerprint `a` then fingerprint `b` excises based on the
/// document state after `a`'s removal: the two-fingerprint chain is the
/// composition of the two single excisions.
pub proof fn lemma_sequential_application(s: Seq<u8>, a: Seq<u8>, b: Seq<u8>)
    ensures
        spec_apply_all(s, seq![a, b]) == spec_remove_div(spec_remove_div(s, a), b),
{
    let s1 = spec_remove_div(s, a);
    let s2 = spec_remove_div(s1, b);
    assert(seq![a, b][0] == a);
    assert(seq![a, b].drop_first() =~= seq![b]);
    assert(seq![b][0] == b);
    assert(seq![b].drop_first() =~= Seq::<Seq<u8>>::empty());
    assert(spec_apply_all(s, seq![a, b]) == spec_apply_all(s1, seq![b]));
    assert(spec_apply_all(s1, seq![b]) == spec_apply_all(s2, Seq::<Seq<u8>>::empty()));
    assert(spec_apply_all(s2, Seq::<Seq<u8>>::empty()) == s2);
}

/// Length invariant of a single successful excision: the result's length is
/// the original length minus the excised range's length; every byte before
/// the range keeps its position, and every byte after it shifts left by the
/// range's length — all bytes outside the range are unchanged and keep
/// their relative order.
pub proof fn lemma_excision_length(s: Seq<u8>, props: Seq<u8>, window: int)
    requires
        spec_locate(s, props, window) is Ok,
    ensures
        ({
            let span = spec_locate(s, props, window)->Ok_0;
            let r = spec_remove_div_windowed(s, props, window);
            &&& 0 <= span.0 < span.1 <= s.len()
            &&& r.len() == s.len() - (span.1 - span.0)
            &&& forall|i: int| 0 <= i < span.0 ==> r[i] == s[i]
            &&& forall|i: int|
                span.0 <= i < r.len() ==> r[i] == s[i + (span.1 - span.0)]
        }),
{
    lemma_locate_ok_range(s, props, window);
}

/// The document-root marker `<html` as a byte vector.
fn make_marker() -> (r: Vec<u8>)
    ensures
        r@ == html_marker(),
{
    let mut v: Vec<u8> = Vec::new();
    v.push(60);
    v.push(104);
    v.push(116);
    v.push(109);
    v.push(108);
    proof {
        assert(v@ =~= html_marker());
    }
    v
}

} // verus!
