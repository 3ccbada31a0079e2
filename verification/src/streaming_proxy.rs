//! Per-request state of the streaming proxy, and the decisions it takes at
//! each step of a request: cache lookup, upstream request headers, response
//! headers, body chunks and errors.

use vstd::prelude::*;
use crate::headers::{HeaderList, lower, visible_text};
use crate::text::{parse_u64, parse_u64_spec, str_chars, string_push_str, chars_to_string};

verus! {

/// What a request context holds, as plain values.
pub struct ProxyContextView {
    pub url: Seq<char>,
    pub cache_enabled: bool,
    pub cache_key: Seq<char>,
    pub buffer: Seq<Seq<u8>>,
    pub bytes_received: u64,
    pub cache_hit: bool,
    pub cached_data: Option<Seq<u8>>,
    pub upstream_failed: bool,
    pub cache_error: bool,
}

/// State of one proxied request.
#[derive(Debug)]
pub struct ProxyContext {
    url: String,
    cache_enabled: bool,
    cache_key: String,
    buffer: Vec<Vec<u8>>,
    bytes_received: u64,
    cache_hit: bool,
    cached_data: Option<Vec<u8>>,
    upstream_failed: bool,
    cache_error: bool,
}

/// The chunks joined end to end.
pub open spec fn joined(chunks: Seq<Seq<u8>>) -> Seq<u8>
    decreases chunks.len(),
{
    if chunks.len() == 0 {
        Seq::empty()
    } else {
        joined(chunks.drop_last()) + chunks.last()
    }
}

/// The views of byte vectors.
pub open spec fn chunk_views(v: Seq<Vec<u8>>) -> Seq<Seq<u8>> {
    Seq::new(v.len(), |i: int| v[i]@)
}

impl View for ProxyContext {
    type V = ProxyContextView;

    closed spec fn view(&self) -> ProxyContextView {
        ProxyContextView {
            url: self.url@,
            cache_enabled: self.cache_enabled,
            cache_key: self.cache_key@,
            buffer: chunk_views(self.buffer@),
            bytes_received: self.bytes_received,
            cache_hit: self.cache_hit,
            cached_data: match self.cached_data {
                Some(d) => Some(d@),
                None => None,
            },
            upstream_failed: self.upstream_failed,
            cache_error: self.cache_error,
        }
    }
}

/// The outcome of the cache lookup made for a request.
#[derive(Debug)]
pub enum CacheLookup {
    /// The whole response was cached.
    Hit(Vec<u8>),
    /// Nothing was cached.
    Miss,
    /// The lookup failed.
    Failed,
}

/// Headers to change on a response from upstream before it goes to the
/// client.
#[derive(Debug)]
pub struct ResponseEdit {
    /// A status to set in place of upstream's.
    pub status: Option<u16>,
    /// The value of `X-Cache`.
    pub x_cache: String,
    /// A `Content-Length` to set.
    pub content_length: Option<usize>,
}

/// Largest response that is cached: 1 GiB.
pub const MAX_CACHEABLE_SIZE: u64 = 1073741824;

/// `cache:` followed by the URL.
pub open spec fn request_cache_key(url: Seq<char>) -> Seq<char> {
    seq!['c', 'a', 'c', 'h', 'e', ':'] + url
}

/// Position of the last `:` in `s`, if any.
pub open spec fn last_colon(s: Seq<char>) -> Option<int>
    decreases s.len(),
{
    if s.len() == 0 {
        None
    } else if s.last() == ':' {
        Some(s.len() - 1)
    } else {
        last_colon(s.drop_last())
    }
}

/// The host of an upstream address: what stands before its last `:`, or the
/// whole address.
pub open spec fn upstream_host_spec(a: Seq<char>) -> Seq<char> {
    match last_colon(a) {
        Some(i) => a.take(i),
        None => a,
    }
}

/// The port of an upstream address: the number after its last `:` as
/// `str::parse::<u16>` reads it, else 80.
pub open spec fn upstream_port_spec(a: Seq<char>) -> u16 {
    match last_colon(a) {
        Some(i) => match parse_u64_spec(a.skip(i + 1)) {
            Some(p) => if p <= 65535 {
                p as u16
            } else {
                80
            },
            None => 80,
        },
        None => 80,
    }
}

proof fn lemma_last_colon(s: Seq<char>, i: int)
    requires
        -1 <= i < s.len(),
        forall|j: int| i < j < s.len() ==> s[j] != ':',
        i >= 0 ==> s[i] == ':',
    ensures
        i >= 0 ==> last_colon(s) == Some(i),
        i < 0 ==> last_colon(s) is None,
    decreases s.len(),
{
    if s.len() > 0 && i < s.len() - 1 {
        lemma_last_colon(s.drop_last(), i);
    }
}

/// Where the upstream server is: host and port (80 when none is given or
/// the port does not read as a number below 65536).
pub fn upstream_host_port(upstream_address: &str) -> (r: (String, u16))
    ensures
        r.0@ == upstream_host_spec(upstream_address@),
        r.1 == upstream_port_spec(upstream_address@),
{
    let c = str_chars(upstream_address);
    let mut i: usize = c.len();
    while i > 0 && c[i - 1] != ':'
        invariant
            i <= c@.len(),
            c@ == upstream_address@,
            forall|j: int| i <= j < c@.len() ==> c@[j] != ':',
        decreases i,
    {
        i = i - 1;
    }
    proof {
        lemma_last_colon(c@, i - 1);
    }
    if i == 0 {
        let mut host = String::new();
        string_push_str(&mut host, upstream_address);
        return (host, 80);
    }
    let host_chars = vstd::slice::slice_subrange(c.as_slice(), 0, i - 1);
    let port_chars = vstd::slice::slice_subrange(c.as_slice(), i, c.len());
    assert(host_chars@ =~= c@.take(i - 1));
    assert(port_chars@ =~= c@.skip(i as int));
    let port: u16 = match parse_u64(port_chars) {
        Some(p) => if p <= 65535 {
            p as u16
        } else {
            80
        },
        None => 80,
    };
    (chars_to_string(host_chars), port)
}

impl ProxyContext {
    /// A context with no URL, no cache key, nothing buffered and every flag
    /// off.
    pub fn new() -> (c: ProxyContext)
        ensures
            c@.url == Seq::<char>::empty(),
            !c@.cache_enabled,
            c@.cache_key == Seq::<char>::empty(),
            c@.buffer == Seq::<Seq<u8>>::empty(),
            c@.bytes_received == 0,
            !c@.cache_hit,
            c@.cached_data is None,
            !c@.upstream_failed,
            !c@.cache_error,
    {
        let c = ProxyContext {
            url: String::new(),
            cache_enabled: false,
            cache_key: String::new(),
            buffer: Vec::new(),
            bytes_received: 0,
            cache_hit: false,
            cached_data: None,
            upstream_failed: false,
            cache_error: false,
        };
        assert(c@.buffer =~= Seq::<Seq<u8>>::empty());
        c
    }

    /// The request URL.
    pub fn url(&self) -> (u: &str)
        ensures
            u@ == self@.url,
    {
        self.url.as_str()
    }

    /// Sets the request URL.
    pub fn set_url(&mut self, url: String)
        ensures
            final(self)@ == (ProxyContextView { url: url@, ..old(self)@ }),
    {
        self.url = url;
    }

    /// Whether the response is to be cached.
    pub fn is_cache_enabled(&self) -> (b: bool)
        ensures
            b == self@.cache_enabled,
    {
        self.cache_enabled
    }

    /// The response is to be cached.
    pub fn enable_cache(&mut self)
        ensures
            final(self)@ == (ProxyContextView { cache_enabled: true, ..old(self)@ }),
    {
        self.cache_enabled = true;
    }

    /// The response is not to be cached.
    pub fn disable_cache(&mut self)
        ensures
            final(self)@ == (ProxyContextView { cache_enabled: false, ..old(self)@ }),
    {
        self.cache_enabled = false;
    }

    /// The cache key of the request.
    pub fn cache_key(&self) -> (k: &str)
        ensures
            k@ == self@.cache_key,
    {
        self.cache_key.as_str()
    }

    /// Sets the cache key.
    pub fn set_cache_key(&mut self, key: String)
        ensures
            final(self)@ == (ProxyContextView { cache_key: key@, ..old(self)@ }),
    {
        self.cache_key = key;
    }

    /// Bytes received from upstream so far.
    pub fn bytes_received(&self) -> (n: u64)
        ensures
            n == self@.bytes_received,
    {
        self.bytes_received
    }

    /// Counts `bytes` more bytes received.
    pub fn add_bytes_received(&mut self, bytes: u64)
        requires
            old(self)@.bytes_received + bytes <= u64::MAX,
        ensures
            final(self)@ == (ProxyContextView {
                bytes_received: (old(self)@.bytes_received + bytes) as u64,
                ..old(self)@
            }),
    {
        self.bytes_received = self.bytes_received + bytes;
    }

    /// Buffers a chunk of the response for the cache.
    pub fn add_chunk(&mut self, chunk: Vec<u8>)
        ensures
            final(self)@ == (ProxyContextView { buffer: old(self)@.buffer.push(chunk@), ..old(self)@ }),
    {
        self.buffer.push(chunk);
        assert(chunk_views(self.buffer@) =~= chunk_views(old(self).buffer@).push(chunk@));
    }

    /// The buffered chunks.
    pub fn buffer(&self) -> (b: &[Vec<u8>])
        ensures
            chunk_views(b@) == self@.buffer,
    {
        self.buffer.as_slice()
    }

    /// Drops the buffered chunks.
    pub fn clear_buffer(&mut self)
        ensures
            final(self)@ == (ProxyContextView { buffer: Seq::empty(), ..old(self)@ }),
    {
        self.buffer = Vec::new();
        assert(chunk_views(self.buffer@) =~= Seq::<Seq<u8>>::empty());
    }

    /// Total bytes buffered.
    pub fn buffer_size(&self) -> (n: usize)
        requires
            joined(self@.buffer).len() <= usize::MAX,
        ensures
            n == joined(self@.buffer).len(),
    {
        let mut total: usize = 0;
        let mut i: usize = 0;
        proof {
            lemma_joined_prefix_len(chunk_views(self.buffer@), 0);
        }
        while i < self.buffer.len()
            invariant
                i <= self.buffer@.len(),
                joined(chunk_views(self.buffer@)).len() <= usize::MAX,
                total == joined(chunk_views(self.buffer@).take(i as int)).len(),
            decreases self.buffer@.len() - i,
        {
            proof {
                lemma_joined_prefix_len(chunk_views(self.buffer@), i as int + 1);
                assert(chunk_views(self.buffer@).take(i + 1).drop_last() =~= chunk_views(self.buffer@).take(
                    i as int,
                ));
            }
            total = total + self.buffer[i].len();
            i = i + 1;
        }
        assert(chunk_views(self.buffer@).take(i as int) =~= chunk_views(self.buffer@));
        total
    }

    /// Whether the response comes from the cache.
    pub fn is_cache_hit(&self) -> (b: bool)
        ensures
            b == self@.cache_hit,
    {
        self.cache_hit
    }

    /// Sets whether the response comes from the cache.
    pub fn set_cache_hit(&mut self, hit: bool)
        ensures
            final(self)@ == (ProxyContextView { cache_hit: hit, ..old(self)@ }),
    {
        self.cache_hit = hit;
    }

    /// The cached response, if one was found.
    pub fn cached_data(&self) -> (d: Option<&Vec<u8>>)
        ensures
            match d {
                Some(v) => self@.cached_data == Some(v@),
                None => self@.cached_data is None,
            },
    {
        match &self.cached_data {
            Some(v) => Some(v),
            None => None,
        }
    }

    /// Sets the cached response.
    pub fn set_cached_data(&mut self, data: Option<Vec<u8>>)
        ensures
            final(self)@ == (ProxyContextView {
                cached_data: match data {
                    Some(d) => Some(d@),
                    None => None,
                },
                ..old(self)@
            }),
    {
        self.cached_data = data;
    }

    /// Whether upstream failed.
    pub fn is_upstream_failed(&self) -> (b: bool)
        ensures
            b == self@.upstream_failed,
    {
        self.upstream_failed
    }

    /// Sets whether upstream failed.
    pub fn set_upstream_failed(&mut self, failed: bool)
        ensures
            final(self)@ == (ProxyContextView { upstream_failed: failed, ..old(self)@ }),
    {
        self.upstream_failed = failed;
    }

    /// Whether a cache operation failed.
    pub fn has_cache_error(&self) -> (b: bool)
        ensures
            b == self@.cache_error,
    {
        self.cache_error
    }

    /// Sets whether a cache operation failed.
    pub fn set_cache_error(&mut self, error: bool)
        ensures
            final(self)@ == (ProxyContextView { cache_error: error, ..old(self)@ }),
    {
        self.cache_error = error;
    }

    /// Starts a request for `url`: records it and its cache key,
    /// `cache:URL`.
    pub fn begin_request(&mut self, url: &str)
        ensures
            final(self)@ == (ProxyContextView { url: url@, cache_key: request_cache_key(url@), ..old(self)@ }),
    {
        let mut u = String::new();
        string_push_str(&mut u, url);
        let mut k = String::new();
        string_push_str(&mut k, "cache:");
        string_push_str(&mut k, url);
        proof {
            reveal_strlit("cache:");
        }
        assert(k@ =~= request_cache_key(url@));
        self.url = u;
        self.cache_key = k;
    }

    /// Takes the outcome of the cache lookup (`None` when caching is off): a
    /// hit keeps the data to serve; a miss or a failed lookup turns caching
    /// on for the response, and a failure is noted.
    pub fn apply_cache_lookup(&mut self, lookup: Option<CacheLookup>)
        ensures
            match lookup {
                None => final(self)@ == (ProxyContextView { cache_hit: false, ..old(self)@ }),
                Some(CacheLookup::Hit(d)) => final(self)@ == (ProxyContextView {
                    cache_hit: true,
                    cached_data: Some(d@),
                    ..old(self)@
                }),
                Some(CacheLookup::Miss) => final(self)@ == (ProxyContextView {
                    cache_hit: false,
                    cache_enabled: true,
                    ..old(self)@
                }),
                Some(CacheLookup::Failed) => final(self)@ == (ProxyContextView {
                    cache_hit: false,
                    cache_error: true,
                    cache_enabled: true,
                    ..old(self)@
                }),
            },
    {
        match lookup {
            None => {
                self.cache_hit = false;
            },
            Some(CacheLookup::Hit(d)) => {
                self.cache_hit = true;
                self.cached_data = Some(d);
            },
            Some(CacheLookup::Miss) => {
                self.cache_hit = false;
                self.cache_enabled = true;
            },
            Some(CacheLookup::Failed) => {
                self.cache_hit = false;
                self.cache_error = true;
                self.cache_enabled = true;
            },
        }
    }

    /// The headers added to the request sent upstream: `Host` (the host of
    /// the upstream address), `User-Agent`, and the client's `Range` when it
    /// is visible ASCII and the response does not come from the cache.
    pub fn upstream_request_headers(&self, upstream_address: &str, client_range: Option<&Vec<u8>>) -> (h: Vec<
        (String, String),
    >)
        ensures
            h@.len() == if client_range matches Some(r) && !self@.cache_hit && (forall|i: int|
                0 <= i < r@.len() ==> crate::headers::is_visible_ascii(#[trigger] r@[i])) {
                3int
            } else {
                2int
            },
            h@[0].0@ == "Host"@ && h@[0].1@ == upstream_host_spec(upstream_address@),
            h@[1].0@ == "User-Agent"@ && h@[1].1@ == "Pingora-Slice/1.0"@,
            h@.len() == 3 ==> h@[2].0@ == "Range"@ && h@[2].1@ == Seq::new(
                client_range->Some_0@.len(),
                |i: int| client_range->Some_0@[i] as char,
            ),
    {
        let mut h: Vec<(String, String)> = Vec::new();
        let (host, _) = upstream_host_port(upstream_address);
        let mut name = String::new();
        string_push_str(&mut name, "Host");
        h.push((name, host));
        let mut name = String::new();
        string_push_str(&mut name, "User-Agent");
        let mut agent = String::new();
        string_push_str(&mut agent, "Pingora-Slice/1.0");
        h.push((name, agent));
        if let Some(r) = client_range {
            if let Some(text) = visible_text(r.as_slice()) {
                if !self.cache_hit {
                    let mut name = String::new();
                    string_push_str(&mut name, "Range");
                    h.push((name, text));
                }
            }
        }
        h
    }

    /// Decides on the response headers from upstream. A response served from
    /// the cache gets status 200, `X-Cache: HIT` and the length of the cached
    /// data. Otherwise caching is turned off for a status outside 200..=299
    /// (`SKIP`) and for a `Content-Length` above 1 GiB (`SKIP-TOO-LARGE`);
    /// else it follows the configuration (`MISS` when on, `DISABLED` when
    /// off).
    pub fn on_upstream_response(&mut self, enable_cache: bool, status: u16, headers: &HeaderList) -> (e:
        ResponseEdit)
        requires
            headers.wf(),
        ensures
            old(self)@.cache_hit ==> {
                &&& final(self)@ == old(self)@
                &&& e.status == Some(200u16)
                &&& e.x_cache@ == "HIT"@
                &&& match old(self)@.cached_data {
                    Some(d) => e.content_length == Some(d.len() as usize),
                    None => e.content_length is None,
                }
            },
            !old(self)@.cache_hit ==> e.status is None && e.content_length is None,
            !old(self)@.cache_hit && !(200 <= status <= 299) ==> final(self)@ == (ProxyContextView {
                cache_enabled: false,
                ..old(self)@
            }) && e.x_cache@ == "SKIP"@,
            !old(self)@.cache_hit && 200 <= status <= 299 && too_large(headers.byte_fields()) ==> final(self)@ == (ProxyContextView { cache_enabled: false, ..old(self)@ })
                && e.x_cache@ == "SKIP-TOO-LARGE"@,
            !old(self)@.cache_hit && 200 <= status <= 299 && !too_large(headers.byte_fields()) ==> final(self)@ == (ProxyContextView {
                cache_enabled: enable_cache,
                ..old(self)@
            }) && e.x_cache@ == (if enable_cache {
                "MISS"@
            } else {
                "DISABLED"@
            }),
    {
        let mut x = String::new();
        if self.cache_hit {
            string_push_str(&mut x, "HIT");
            let len = match &self.cached_data {
                Some(d) => Some(d.len()),
                None => None,
            };
            return ResponseEdit { status: Some(200), x_cache: x, content_length: len };
        }
        if !(200 <= status && status <= 299) {
            self.cache_enabled = false;
            string_push_str(&mut x, "SKIP");
            return ResponseEdit { status: None, x_cache: x, content_length: None };
        }
        let length = content_length_of(headers);
        if let Some(n) = length {
            if n > MAX_CACHEABLE_SIZE {
                self.cache_enabled = false;
                string_push_str(&mut x, "SKIP-TOO-LARGE");
                return ResponseEdit { status: None, x_cache: x, content_length: None };
            }
        }
        if enable_cache {
            self.cache_enabled = true;
            string_push_str(&mut x, "MISS");
        } else {
            self.cache_enabled = false;
            string_push_str(&mut x, "DISABLED");
        }
        ResponseEdit { status: None, x_cache: x, content_length: None }
    }

    /// Handles a chunk of the response body. A response served from the
    /// cache has its body replaced by the cached data. Otherwise the chunk is
    /// counted, and buffered when caching is on; at the end of the stream the
    /// buffer is emptied and its joined content given back for the cache,
    /// when there is any.
    pub fn on_response_body(&mut self, body: &mut Option<Vec<u8>>, end_of_stream: bool) -> (store: Option<
        Vec<u8>,
    >)
        requires
            *old(body) matches Some(d) ==> old(self)@.bytes_received + d@.len() <= u64::MAX,
            joined(old(self)@.buffer).len() + (match *old(body) {
                Some(d) => d@.len(),
                None => 0,
            }) <= usize::MAX,
        ensures
            old(self)@.cache_hit && old(self)@.cached_data is Some ==> {
                &&& final(self)@ == old(self)@
                &&& *final(body) matches Some(b) && Some(b@) == old(self)@.cached_data
                &&& store is None
            },
            !(old(self)@.cache_hit && old(self)@.cached_data is Some) ==> {
                let received = match *old(body) {
                    Some(d) => (old(self)@.bytes_received + d@.len()) as u64,
                    None => old(self)@.bytes_received,
                };
                let buffered = match *old(body) {
                    Some(d) => if old(self)@.cache_enabled {
                        old(self)@.buffer.push(d@)
                    } else {
                        old(self)@.buffer
                    },
                    None => old(self)@.buffer,
                };
                let flush = end_of_stream && old(self)@.cache_enabled && buffered.len() > 0;
                &&& *final(body) == *old(body)
                &&& final(self)@ == (ProxyContextView {
                    bytes_received: received,
                    buffer: if flush {
                        Seq::empty()
                    } else {
                        buffered
                    },
                    ..old(self)@
                })
                &&& match store {
                    Some(s) => flush && s@ == joined(buffered) && s@.len() > 0,
                    None => !flush || joined(buffered).len() == 0,
                }
            },
    {
        if self.cache_hit {
            if let Some(cached) = &self.cached_data {
                let copy = cached.clone();
                assert(copy@ =~= cached@);
                *body = Some(copy);
                return None;
            }
        }
        if let Some(data) = body {
            self.bytes_received = self.bytes_received + data.len() as u64;
            if self.cache_enabled {
                let copy = data.clone();
                assert(copy@ =~= data@);
                self.add_chunk(copy);
                assert(old(self)@.buffer.push(data@).drop_last() =~= old(self)@.buffer);
            }
        }
        if end_of_stream && self.cache_enabled && self.buffer.len() > 0 {
            let merged = join_chunks(&self.buffer);
            self.clear_buffer();
            if merged.len() > 0 {
                return Some(merged);
            }
        }
        None
    }

    /// Handles an error while proxying: upstream is marked failed, and a
    /// partly buffered response is dropped and not cached.
    pub fn on_proxy_error(&mut self)
        ensures
            old(self)@.cache_enabled && old(self)@.buffer.len() > 0 ==> final(self)@ == (ProxyContextView {
                upstream_failed: true,
                buffer: Seq::empty(),
                cache_enabled: false,
                ..old(self)@
            }),
            !(old(self)@.cache_enabled && old(self)@.buffer.len() > 0) ==> final(self)@ == (ProxyContextView {
                upstream_failed: true,
                ..old(self)@
            }),
    {
        self.upstream_failed = true;
        if self.cache_enabled && self.buffer.len() > 0 {
            self.clear_buffer();
            self.cache_enabled = false;
        }
    }
}

/// The `Content-Length` of a response when it is visible ASCII and reads as
/// a number.
pub open spec fn declared_length(fields: Map<Seq<char>, Seq<u8>>) -> Option<u64> {
    if fields.dom().contains("content-length"@) {
        let v = fields["content-length"@];
        if forall|i: int| 0 <= i < v.len() ==> crate::headers::is_visible_ascii(#[trigger] v[i]) {
            parse_u64_spec(Seq::new(v.len(), |i: int| v[i] as char))
        } else {
            None
        }
    } else {
        None
    }
}

/// Whether a response declares a length above 1 GiB.
pub open spec fn too_large(fields: Map<Seq<char>, Seq<u8>>) -> bool {
    match declared_length(fields) {
        Some(n) => n > MAX_CACHEABLE_SIZE,
        None => false,
    }
}

fn content_length_of(headers: &HeaderList) -> (r: Option<u64>)
    requires
        headers.wf(),
    ensures
        r == declared_length(headers.byte_fields()),
{
    proof {
        reveal_strlit("content-length");
        assert(lower("content-length"@) =~= "content-length"@);
    }
    match headers.get("content-length") {
        None => None,
        Some(v) => match visible_text(v.as_slice()) {
            None => None,
            Some(text) => {
                let c = str_chars(text.as_str());
                parse_u64(c.as_slice())
            },
        },
    }
}

proof fn lemma_joined_prefix_len(s: Seq<Seq<u8>>, k: int)
    requires
        0 <= k <= s.len(),
    ensures
        joined(s.take(k)).len() <= joined(s).len(),
    decreases s.len(),
{
    if k < s.len() {
        assert(s.drop_last().take(k) =~= s.take(k));
        lemma_joined_prefix_len(s.drop_last(), k);
    } else {
        assert(s.take(k) =~= s);
    }
}

fn join_chunks(chunks: &Vec<Vec<u8>>) -> (r: Vec<u8>)
    requires
        joined(chunk_views(chunks@)).len() <= usize::MAX,
    ensures
        r@ == joined(chunk_views(chunks@)),
{
    let mut out: Vec<u8> = Vec::new();
    let mut i: usize = 0;
    while i < chunks.len()
        invariant
            i <= chunks@.len(),
            joined(chunk_views(chunks@)).len() <= usize::MAX,
            out@ == joined(chunk_views(chunks@).take(i as int)),
        decreases chunks@.len() - i,
    {
        proof {
            lemma_joined_prefix_len(chunk_views(chunks@), i as int + 1);
            assert(chunk_views(chunks@).take(i + 1).drop_last() =~= chunk_views(chunks@).take(i as int));
        }
        let chunk = &chunks[i];
        let ghost start = out@;
        let mut j: usize = 0;
        while j < chunk.len()
            invariant
                j <= chunk@.len(),
                out@ == start + chunk@.take(j as int),
                start.len() + chunk@.len() <= usize::MAX,
            decreases chunk@.len() - j,
        {
            out.push(chunk[j]);
            assert(chunk@.take(j as int).push(chunk@[j as int]) =~= chunk@.take(j + 1));
            j = j + 1;
        }
        assert(chunk@.take(chunk@.len() as int) =~= chunk@);
        i = i + 1;
    }
    assert(chunk_views(chunks@).take(chunks@.len() as int) =~= chunk_views(chunks@));
    out
}

} // verus!
