//! Deciding whether a request is sliced, and reading the client's range.

use vstd::prelude::*;
use std::sync::Arc;
use crate::config::SliceConfig;
use crate::headers::{HeaderList, HttpMethod, lower, visible_text};
use crate::models::{ByteRange, range_header_value};
use crate::text::{str_chars, starts_with, ends_with, chars_start_with, chars_end_with};

verus! {

/// `p` cut at every `c`: the pieces before, between and after them.
pub open spec fn split_on(p: Seq<char>, c: char) -> Seq<Seq<char>>
    decreases p.len(),
{
    if p.len() == 0 {
        seq![Seq::<char>::empty()]
    } else {
        let r = split_on(p.drop_last(), c);
        if p.last() == c {
            r.push(Seq::<char>::empty())
        } else {
            r.update(r.len() - 1, r.last().push(p.last()))
        }
    }
}

pub proof fn lemma_split_on_len(p: Seq<char>, c: char)
    ensures
        split_on(p, c).len() >= 1,
        split_on(p, c).len() == 1 <==> !p.contains(c),
    decreases p.len(),
{
    if p.len() > 0 {
        lemma_split_on_len(p.drop_last(), c);
        if p.drop_last().contains(c) {
            let i = choose|i: int| 0 <= i < p.drop_last().len() && p.drop_last()[i] == c;
            assert(p[i] == c);
        }
        if p.contains(c) && p.last() != c {
            let i = choose|i: int| 0 <= i < p.len() && p[i] == c;
            assert(p.drop_last()[i] == c);
        }
        if p.last() == c {
            assert(p[p.len() - 1] == c);
        }
    }
}

/// A sequence without `c` is one piece.
pub proof fn lemma_split_whole(s: Seq<char>, c: char)
    requires
        !s.contains(c),
    ensures
        split_on(s, c) == seq![s],
    decreases s.len(),
{
    if s.len() > 0 {
        let d = s.drop_last();
        assert(!d.contains(c)) by {
            if d.contains(c) {
                let i = choose|i: int| 0 <= i < d.len() && d[i] == c;
                assert(s[i] == c);
            }
        }
        lemma_split_whole(d, c);
        assert(s.last() != c) by {
            assert(s[s.len() - 1] == s.last());
        }
        assert(d.push(s.last()) =~= s);
        assert(split_on(s, c) =~= seq![s]);
    } else {
        assert(s =~= Seq::<char>::empty());
    }
}

/// Two pieces without `c` joined by one `c` split back into them.
pub proof fn lemma_split_pair(a: Seq<char>, c: char, b: Seq<char>)
    requires
        !a.contains(c),
        !b.contains(c),
    ensures
        split_on(a + seq![c] + b, c) == seq![a, b],
    decreases b.len(),
{
    let s = a + seq![c] + b;
    if b.len() == 0 {
        assert(s =~= a.push(c));
        assert(s.drop_last() =~= a);
        lemma_split_whole(a, c);
        assert(b =~= Seq::<char>::empty());
        assert(s.last() == c);
        assert(split_on(s, c) == split_on(a, c).push(Seq::<char>::empty()));
        assert(split_on(s, c) =~= seq![a, b]);
    } else {
        let b2 = b.drop_last();
        assert(!b2.contains(c)) by {
            if b2.contains(c) {
                let i = choose|i: int| 0 <= i < b2.len() && b2[i] == c;
                assert(b[i] == c);
            }
        }
        lemma_split_pair(a, c, b2);
        assert(s.drop_last() =~= a + seq![c] + b2);
        assert(s.last() == b.last());
        assert(b.last() != c) by {
            assert(b[b.len() - 1] == b.last());
        }
        assert(b2.push(b.last()) =~= b);
        let r = split_on(s.drop_last(), c);
        assert(r == seq![a, b2]);
        assert(r.last() == b2);
        assert(split_on(s, c) == r.update(r.len() - 1, r.last().push(s.last())));
        assert(r.update(1, b2.push(b.last())) =~= seq![a, b]);
    }
}

/// Whether `part` occurs in `s` at position `j`.
pub open spec fn occurs_at(s: Seq<char>, part: Seq<char>, j: int) -> bool {
    0 <= j && j + part.len() <= s.len() && s.subrange(j, j + part.len()) == part
}

/// The first position at or after `j` where `part` occurs in `s`
/// (`str::find` on the rest of the string).
pub open spec fn find_from(s: Seq<char>, part: Seq<char>, j: int) -> Option<int>
    decreases s.len() + 1 - j,
{
    if j < 0 || j + part.len() > s.len() {
        None
    } else if occurs_at(s, part, j) {
        Some(j)
    } else {
        find_from(s, part, j + 1)
    }
}

/// Where the inner pieces `parts[i..len-1]` end when each is placed at its
/// first occurrence in `uri` at or after the end of the one before,
/// starting from position `pos` (empty pieces are skipped); `None` when one
/// of them does not occur.
pub open spec fn inner_parts_end(uri: Seq<char>, parts: Seq<Seq<char>>, i: int, pos: int) -> Option<int>
    decreases parts.len() - i,
{
    if i < 1 || i >= parts.len() - 1 {
        Some(pos)
    } else if parts[i].len() == 0 {
        inner_parts_end(uri, parts, i + 1, pos)
    } else {
        match find_from(uri, parts[i], pos) {
            Some(j) => inner_parts_end(uri, parts, i + 1, j + parts[i].len()),
            None => None,
        }
    }
}

/// Whether `pattern` matches `uri`. Without `*`, the URI must start with the
/// pattern. With `*`, which stands for any run of characters, the pattern
/// is cut at each `*`: the URI must start with the first piece, end with the
/// last, and hold the pieces between in order, none overlapping another or
/// the first or last piece. Placing each inner piece at its first
/// occurrence after the previous one leaves the most room for the rest, so
/// the pieces fit exactly when that placement ends before the last piece.
pub open spec fn pattern_matches_spec(pattern: Seq<char>, uri: Seq<char>) -> bool {
    if pattern.contains('*') {
        let parts = split_on(pattern, '*');
        &&& (parts[0].len() == 0 || starts_with(uri, parts[0]))
        &&& !(parts.len() > 1 && parts.last().len() > 0 && !ends_with(uri, parts.last()))
        &&& inner_parts_end(uri, parts, 1, parts[0].len() as int) matches Some(e) && e + parts.last().len() <= uri.len()
    } else {
        starts_with(uri, pattern)
    }
}

/// Analyzes incoming requests to decide whether slicing applies.
pub struct RequestAnalyzer {
    config: Arc<SliceConfig>,
}

/// Whether some pattern of `patterns` matches `uri`.
pub open spec fn any_pattern_matches(patterns: Seq<String>, uri: Seq<char>) -> bool {
    exists|i: int| 0 <= i < patterns.len() && pattern_matches_spec((#[trigger] patterns[i])@, uri)
}

/// The slicing decision: a GET request without a `Range` header whose URI
/// matches a configured pattern (any URI when no pattern is configured).
pub open spec fn should_slice_spec(
    method: HttpMethod,
    uri: Seq<char>,
    has_range: bool,
    patterns: Seq<String>,
) -> bool {
    &&& method is Get
    &&& !has_range
    &&& (patterns.len() == 0 || any_pattern_matches(patterns, uri))
}

/// The cut pieces of `p` at each `c`.
pub(crate) fn split_chars(p: &[char], c: char) -> (r: Vec<Vec<char>>)
    ensures
        r@.len() == split_on(p@, c).len(),
        forall|i: int| 0 <= i < r@.len() ==> (#[trigger] r@[i])@ == split_on(p@, c)[i],
{
    let mut r: Vec<Vec<char>> = Vec::new();
    r.push(Vec::new());
    let mut i: usize = 0;
    assert(p@.take(0) =~= Seq::<char>::empty());
    while i < p.len()
        invariant
            i <= p@.len(),
            r@.len() == split_on(p@.take(i as int), c).len(),
            r@.len() >= 1,
            forall|j: int| 0 <= j < r@.len() ==> (#[trigger] r@[j])@ == split_on(p@.take(i as int), c)[j],
        decreases p@.len() - i,
    {
        let ghost t = p@.take(i + 1);
        assert(t.drop_last() =~= p@.take(i as int));
        assert(t.last() == p@[i as int]);
        if p[i] == c {
            r.push(Vec::new());
        } else {
            let last = r.len() - 1;
            let mut piece = r.remove(last);
            piece.push(p[i]);
            r.push(piece);
        }
        i = i + 1;
    }
    assert(p@.take(p@.len() as int) =~= p@);
    r
}

proof fn lemma_find_skip(s: Seq<char>, part: Seq<char>, pos: int, j: int)
    requires
        0 <= pos <= j,
        forall|k: int| pos <= k < j ==> !occurs_at(s, part, k),
        j + part.len() <= s.len() || j > pos ==> true,
    ensures
        j + part.len() <= s.len() ==> find_from(s, part, pos) == find_from(s, part, j),
    decreases j - pos,
{
    if pos < j {
        if pos + part.len() <= s.len() {
            lemma_find_skip(s, part, pos + 1, j);
        }
    }
}

proof fn lemma_find_none(s: Seq<char>, part: Seq<char>, pos: int)
    requires
        0 <= pos,
        forall|k: int| pos <= k && k + part.len() <= s.len() ==> !occurs_at(s, part, k),
    ensures
        find_from(s, part, pos) is None,
    decreases s.len() + 1 - pos,
{
    if pos + part.len() <= s.len() {
        lemma_find_none(s, part, pos + 1);
    }
}

/// The first position at or after `pos` where `part` occurs in `s`.
fn find_chars(s: &[char], part: &[char], pos: usize) -> (r: Option<usize>)
    ensures
        r matches Some(j) ==> find_from(s@, part@, pos as int) == Some(j as int),
        r is None ==> find_from(s@, part@, pos as int) is None,
{
    if part.len() > s.len() {
        proof {
            lemma_find_none(s@, part@, pos as int);
        }
        return None;
    }
    let slen = s.len();
    let mut j: usize = pos;
    while j <= slen - part.len()
        invariant
            slen == s@.len(),
            pos <= j,
            part@.len() <= s@.len(),
            forall|k: int| pos <= k < j ==> !occurs_at(s@, part@, k),
        decreases s@.len() - j,
    {
        let mut k: usize = 0;
        let mut same = true;
        while k < part.len()
            invariant
                k <= part@.len(),
                slen == s@.len(),
                j + part@.len() <= s@.len(),
                same == (forall|m: int| 0 <= m < k ==> s@[j + m] == part@[m]),
            decreases part@.len() - k,
        {
            assert(j + k < s@.len());
            if s[j + k] != part[k] {
                same = false;
            }
            k = k + 1;
        }
        if same {
            proof {
                assert(s@.subrange(j as int, j + part@.len()) =~= part@);
                lemma_find_skip(s@, part@, pos as int, j as int);
            }
            return Some(j);
        }
        proof {
            if occurs_at(s@, part@, j as int) {
                assert forall|m: int| 0 <= m < part@.len() implies s@[j + m] == part@[m] by {
                    assert(s@.subrange(j as int, j + part@.len())[m] == part@[m]);
                }
            }
        }
        j = j + 1;
    }
    proof {
        lemma_find_none(s@, part@, pos as int);
    }
    None
}

impl RequestAnalyzer {
    /// The configuration in use.
    pub closed spec fn spec_config(&self) -> SliceConfig {
        *self.config
    }

    /// An analyzer using `config`.
    pub fn new(config: Arc<SliceConfig>) -> (a: RequestAnalyzer)
        ensures
            a.spec_config() == *config,
    {
        RequestAnalyzer { config }
    }

    /// Whether the request is sliced: a GET without a `Range` header whose
    /// URI matches one of the configured patterns (every URI when none is
    /// configured).
    pub fn should_slice(&self, method: &HttpMethod, uri: &str, headers: &HeaderList) -> (b: bool)
        requires
            headers.wf(),
        ensures
            b == should_slice_spec(
                *method,
                uri@,
                headers.fields().dom().contains(lower("range"@)),
                self.spec_config().slice_patterns@,
            ),
            (*method is Get && !headers.fields().dom().contains(lower("range"@))) ==> (b <==> (
            self.spec_config().slice_patterns@.len() == 0 || exists|i: int|
                0 <= i < self.spec_config().slice_patterns@.len() && #[trigger] pattern_matches_spec(
                    self.spec_config().slice_patterns@[i]@,
                    uri@,
                ))),
    {
        match method {
            HttpMethod::Get => {},
            _ => {
                return false;
            },
        }
        if headers.contains_key("range") {
            return false;
        }
        if self.config.slice_patterns.len() == 0 {
            return true;
        }
        let b = self.matches_pattern(uri);
        proof {
            law_should_slice_consults_every_pattern(*method, uri@, false, self.spec_config().slice_patterns@);
        }
        b
    }

    /// The client's byte range, when a `Range` header with readable text in
    /// the form `bytes=START-END` (START not after END) is present.
    pub fn extract_client_range(&self, headers: &HeaderList) -> (r: Option<ByteRange>)
        requires
            headers.wf(),
        ensures
            ({
                let name = lower("range"@);
                let present = headers.fields().dom().contains(name);
                let bytes = headers.fields()[name]@;
                let readable = forall|i: int| 0 <= i < bytes.len() ==> crate::headers::is_visible_ascii(
                    #[trigger] bytes[i],
                );
                let text = Seq::new(bytes.len(), |i: int| bytes[i] as char);
                &&& r is Some <==> present && readable && range_header_value(text) is Some
                &&& r is Some ==> r->Some_0 == range_header_value(text)->Some_0
            }),
    {
        let value = match headers.get("range") {
            Some(v) => v,
            None => {
                return None;
            },
        };
        let text = match visible_text(value.as_slice()) {
            Some(t) => t,
            None => {
                return None;
            },
        };
        match ByteRange::from_header(text.as_str()) {
            Ok(range) => Some(range),
            Err(_) => None,
        }
    }

    /// Whether some configured pattern matches `uri`.
    pub fn matches_pattern(&self, uri: &str) -> (b: bool)
        ensures
            b == any_pattern_matches(self.spec_config().slice_patterns@, uri@),
    {
        let patterns = &self.config.slice_patterns;
        let mut i: usize = 0;
        while i < patterns.len()
            invariant
                i <= patterns@.len(),
                patterns@ == self.spec_config().slice_patterns@,
                forall|j: int| 0 <= j < i ==> !pattern_matches_spec((#[trigger] patterns@[j])@, uri@),
            decreases patterns@.len() - i,
        {
            if self.pattern_matches(patterns[i].as_str(), uri) {
                return true;
            }
            i = i + 1;
        }
        false
    }

    /// Whether one pattern matches `uri`: see `pattern_matches_spec`.
    pub fn pattern_matches(&self, pattern: &str, uri: &str) -> (b: bool)
        ensures
            b == pattern_matches_spec(pattern@, uri@),
    {
        let p = str_chars(pattern);
        let u = str_chars(uri);
        let parts = split_chars(p.as_slice(), '*');
        proof {
            lemma_split_on_len(pattern@, '*');
        }
        if parts.len() == 1 {
            return chars_start_with(u.as_slice(), p.as_slice());
        }
        if parts[0].len() != 0 && !chars_start_with(u.as_slice(), parts[0].as_slice()) {
            return false;
        }
        let last = parts.len() - 1;
        if parts[last].len() != 0 && !chars_end_with(u.as_slice(), parts[last].as_slice()) {
            return false;
        }
        let ulen = u.len();
        let mut pos: usize = parts[0].len();
        let mut i: usize = 1;
        proof {
            assert(parts@[0]@.len() <= u@.len() || parts@[0]@.len() == 0);
        }
        while i < last
            invariant
                1 <= i <= last,
                ulen == u@.len(),
                pattern@.contains('*'),
                last == parts@.len() - 1,
                parts@.len() == split_on(pattern@, '*').len(),
                forall|j: int| 0 <= j < parts@.len() ==> (#[trigger] parts@[j])@ == split_on(pattern@, '*')[j],
                u@ == uri@,
                inner_parts_end(uri@, split_on(pattern@, '*'), 1, parts@[0]@.len() as int)
                    == inner_parts_end(uri@, split_on(pattern@, '*'), i as int, pos as int),
                pos <= ulen,
            decreases last - i,
        {
            let ghost ps = split_on(pattern@, '*');
            assert(parts@[i as int]@ == ps[i as int]);
            if parts[i].len() != 0 {
                match find_chars(u.as_slice(), parts[i].as_slice(), pos) {
                    Some(j) => {
                        proof {
                            lemma_find_some(u@, parts@[i as int]@, pos as int);
                            assert(occurs_at(u@, parts@[i as int]@, j as int));
                            assert(inner_parts_end(uri@, ps, i as int, pos as int) == inner_parts_end(
                                uri@,
                                ps,
                                i + 1,
                                j + ps[i as int].len(),
                            ));
                        }
                        pos = j + parts[i].len();
                    },
                    None => {
                        proof {
                            assert(ps[i as int].len() != 0);
                            assert(find_from(uri@, ps[i as int], pos as int) is None);
                            assert(inner_parts_end(uri@, ps, i as int, pos as int) is None);
                        }
                        return false;
                    },
                }
            } else {
                assert(inner_parts_end(uri@, ps, i as int, pos as int) == inner_parts_end(uri@, ps, i + 1, pos as int));
            }
            i = i + 1;
        }
        pos <= ulen - parts[last].len()
    }
}

proof fn lemma_find_some(s: Seq<char>, part: Seq<char>, pos: int)
    requires
        find_from(s, part, pos) is Some,
    ensures
        occurs_at(s, part, find_from(s, part, pos)->Some_0),
        pos <= find_from(s, part, pos)->Some_0,
    decreases s.len() + 1 - pos,
{
    if !(pos < 0 || pos + part.len() > s.len()) && !occurs_at(s, part, pos) {
        lemma_find_some(s, part, pos + 1);
    }
}

/// The slicing decision consults every configured pattern: a GET request
/// without a `Range` header is sliced exactly when no pattern is configured
/// or some pattern, at any position in the list, matches its URI; any other
/// request is not sliced.
pub proof fn law_should_slice_consults_every_pattern(
    method: HttpMethod,
    uri: Seq<char>,
    has_range: bool,
    patterns: Seq<String>,
)
    ensures
        should_slice_spec(method, uri, has_range, patterns) <==> (method is Get && !has_range && (patterns.len() == 0
            || exists|i: int| 0 <= i < patterns.len() && #[trigger] pattern_matches_spec(patterns[i]@, uri))),
        forall|i: int|
            0 <= i < patterns.len() && #[trigger] pattern_matches_spec(patterns[i]@, uri) ==> (should_slice_spec(
                HttpMethod::Get,
                uri,
                false,
                patterns,
            )),
{
    assert forall|i: int|
        0 <= i < patterns.len() && #[trigger] pattern_matches_spec(patterns[i]@, uri) implies should_slice_spec(
        HttpMethod::Get,
        uri,
        false,
        patterns,
    ) by {
        assert(pattern_matches_spec((patterns[i])@, uri));
    }
}

/// A pattern with one `*` matches exactly the URIs made of its first
/// piece, then any run of characters, then its last piece: the URI starts
/// with the one, ends with the other, and is long enough to hold both
/// without overlap. A pattern without `*` matches the URIs it begins.
pub proof fn law_one_star_pattern(a: Seq<char>, b: Seq<char>, uri: Seq<char>)
    requires
        !a.contains('*'),
        !b.contains('*'),
    ensures
        pattern_matches_spec(a + seq!['*'] + b, uri) <==> (uri.len() >= a.len() + b.len() && uri.take(a.len() as int)
            == a && uri.skip(uri.len() - b.len()) == b),
        pattern_matches_spec(a, uri) <==> (uri.len() >= a.len() && uri.take(a.len() as int) == a),
{
    let p = a + seq!['*'] + b;
    lemma_split_pair(a, '*', b);
    assert(p[a.len() as int] == '*');
    assert(p.contains('*'));
    let parts = split_on(p, '*');
    assert(parts.len() == 2);
    assert(inner_parts_end(uri, parts, 1, parts[0].len() as int) == Some(a.len() as int));
    if a.len() == 0 {
        assert(uri.take(0) =~= a);
    }
    if b.len() == 0 {
        assert(uri.skip(uri.len() as int) =~= b);
    }
}

} // verus!
