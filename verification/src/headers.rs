//! HTTP methods and header lists as plain values.

use vstd::prelude::*;
use crate::assoc::{assoc_find, assoc_insert, assoc_map, has_key, keys_unique, lemma_assoc_map_dom, lemma_assoc_map_index};
use crate::text::chars_to_string;
use vstd::string::StringSliceAdditionalSpecFns;

verus! {

/// An HTTP request method.
#[derive(Debug, Clone, PartialEq, Eq)]
pub enum HttpMethod {
    Get,
    Head,
    Post,
    Put,
    Delete,
    Options,
    Patch,
    /// Any other method, by name.
    Other(String),
}

/// A character with ASCII upper case turned to lower case.
pub open spec fn lower_char(c: char) -> char {
    if 'A' <= c && c <= 'Z' {
        ((c as u32) + 32) as char
    } else {
        c
    }
}

/// A name with ASCII upper case turned to lower case.
pub open spec fn lower(s: Seq<char>) -> Seq<char> {
    Seq::new(s.len(), |i: int| lower_char(s[i]))
}

/// `s` with ASCII upper case turned to lower case.
pub fn to_lower(s: &str) -> (r: String)
    ensures
        r@ == lower(s@),
{
    let chars = crate::text::str_chars(s);
    let mut out: Vec<char> = Vec::new();
    let mut i: usize = 0;
    while i < chars.len()
        invariant
            i <= chars@.len(),
            chars@ == s@,
            out@ == lower(s@).take(i as int),
        decreases chars@.len() - i,
    {
        let c = chars[i];
        let l = if 'A' <= c && c <= 'Z' {
            ((c as u8) + 32) as char
        } else {
            c
        };
        out.push(l);
        assert(out@ =~= lower(s@).take(i + 1));
        i = i + 1;
    }
    assert(lower(s@).take(chars@.len() as int) =~= lower(s@));
    chars_to_string(out.as_slice())
}

/// Header fields: names (case-insensitive, kept in lower case) with their
/// raw values; one value per name.
#[derive(Debug, Clone)]
pub struct HeaderList {
    entries: Vec<(String, Vec<u8>)>,
}

impl HeaderList {
    /// The fields: lower-case name to value.
    pub closed spec fn fields(&self) -> Map<Seq<char>, Vec<u8>> {
        assoc_map(self.entries@)
    }

    /// The fields with each value taken as its bytes.
    pub open spec fn byte_fields(&self) -> Map<Seq<char>, Seq<u8>> {
        Map::new(|k: Seq<char>| self.fields().dom().contains(k), |k: Seq<char>| self.fields()[k]@)
    }

    /// No name occurs twice.
    pub closed spec fn wf(&self) -> bool {
        keys_unique(self.entries@)
    }

    /// No fields.
    pub fn new() -> (h: HeaderList)
        ensures
            h.wf(),
            h.fields() == Map::<Seq<char>, Vec<u8>>::empty(),
            h.byte_fields() == Map::<Seq<char>, Seq<u8>>::empty(),
    {
        let h = HeaderList { entries: Vec::new() };
        assert(h.fields() =~= Map::<Seq<char>, Vec<u8>>::empty());
        assert(h.byte_fields() =~= Map::<Seq<char>, Seq<u8>>::empty());
        h
    }

    /// Sets the value of `name`, replacing any value it had.
    pub fn insert(&mut self, name: &str, value: &[u8])
        requires
            old(self).wf(),
        ensures
            final(self).wf(),
            final(self).fields().dom() == old(self).fields().dom().insert(lower(name@)),
            final(self).fields()[lower(name@)]@ == value@,
            forall|k: Seq<char>| k != lower(name@) && #[trigger] old(self).fields().dom().contains(k)
                ==> final(self).fields()[k] == old(self).fields()[k],
            final(self).byte_fields() == old(self).byte_fields().insert(lower(name@), value@),
    {
        let key = to_lower(name);
        let mut v: Vec<u8> = Vec::new();
        let mut i: usize = 0;
        while i < value.len()
            invariant
                i <= value@.len(),
                v@ == value@.take(i as int),
            decreases value@.len() - i,
        {
            v.push(value[i]);
            assert(v@ =~= value@.take(i + 1));
            i = i + 1;
        }
        assert(value@.take(value@.len() as int) =~= value@);
        assoc_insert(&mut self.entries, key, v);
        assert(self.byte_fields() =~= old(self).byte_fields().insert(lower(name@), value@));
    }

    /// Sets the value of `name` to the bytes of `value`.
    pub fn insert_str(&mut self, name: &str, value: &str)
        requires
            old(self).wf(),
        ensures
            final(self).wf(),
            final(self).fields().dom() == old(self).fields().dom().insert(lower(name@)),
            final(self).fields()[lower(name@)]@ == value.spec_bytes(),
            forall|k: Seq<char>| k != lower(name@) && #[trigger] old(self).fields().dom().contains(k)
                ==> final(self).fields()[k] == old(self).fields()[k],
            final(self).byte_fields() == old(self).byte_fields().insert(lower(name@), value.spec_bytes()),
    {
        self.insert(name, value.as_bytes());
    }

    /// The value of `name`, if it is set.
    pub fn get(&self, name: &str) -> (r: Option<&Vec<u8>>)
        requires
            self.wf(),
        ensures
            r is Some <==> self.fields().dom().contains(lower(name@)),
            r is Some ==> *r->Some_0 == self.fields()[lower(name@)],
    {
        let key = to_lower(name);
        proof {
            lemma_assoc_map_dom(self.entries@, key@);
        }
        match assoc_find(&self.entries, key.as_str()) {
            Some(i) => {
                proof {
                    lemma_assoc_map_index(self.entries@, i as int);
                }
                Some(&self.entries[i].1)
            },
            None => None,
        }
    }

    /// Whether `name` is set.
    pub fn contains_key(&self, name: &str) -> (b: bool)
        requires
            self.wf(),
        ensures
            b == self.fields().dom().contains(lower(name@)),
    {
        self.get(name).is_some()
    }

    /// The fields, each name once.
    pub fn entries(&self) -> (r: &[(String, Vec<u8>)])
        ensures
            assoc_map(r@) == self.fields(),
            keys_unique(r@) == self.wf(),
    {
        self.entries.as_slice()
    }
}

/// Whether a byte is visible ASCII or a tab: what `HeaderValue::to_str`
/// accepts.
pub open spec fn is_visible_ascii(b: u8) -> bool {
    (b >= 32 && b < 127) || b == 9
}

/// The text of a header value when every byte is visible ASCII or a tab
/// (as `HeaderValue::to_str` reads it); `None` otherwise.
pub fn visible_text(bytes: &[u8]) -> (r: Option<String>)
    ensures
        r is Some <==> forall|i: int| 0 <= i < bytes@.len() ==> is_visible_ascii(#[trigger] bytes@[i]),
        r is Some ==> r->Some_0@ == Seq::new(bytes@.len(), |i: int| bytes@[i] as char),
{
    let mut out: Vec<char> = Vec::new();
    let mut i: usize = 0;
    while i < bytes.len()
        invariant
            i <= bytes@.len(),
            forall|j: int| 0 <= j < i ==> is_visible_ascii(#[trigger] bytes@[j]),
            out@ == Seq::new(i as nat, |j: int| bytes@[j] as char),
        decreases bytes@.len() - i,
    {
        let b = bytes[i];
        if !((b >= 32 && b < 127) || b == 9) {
            return None;
        }
        out.push(b as char);
        assert(out@ =~= Seq::new((i + 1) as nat, |j: int| bytes@[j] as char));
        i = i + 1;
    }
    Some(chars_to_string(out.as_slice()))
}

/// Whether a character may stand in a header value (`HeaderValue::from_str`
/// accepts a byte of 32 or more other than 127, or a tab; every byte of a
/// character outside ASCII is 128 or more).
pub open spec fn header_char_ok(c: char) -> bool {
    c == '\t' || (c >= ' ' && c != '\u{7f}')
}

/// Whether every character of `s` may stand in a header value.
pub open spec fn header_text_ok(s: Seq<char>) -> bool {
    forall|i: int| 0 <= i < s.len() ==> header_char_ok(#[trigger] s[i])
}

/// Whether `s` is accepted as a header value (`http::HeaderValue::from_str`).
#[verifier::external_body]
pub(crate) fn header_value_valid(s: &str) -> (b: bool)
    ensures
        b == header_text_ok(s@),
{
    http::HeaderValue::from_str(s).is_ok()
}

} // verus!
