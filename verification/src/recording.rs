//! An object store in memory that counts its calls.
//!
//! [`RecordingBackend::handle`] answers one request of the object store's
//! HTTP interface: `PUT`, `GET`, `HEAD` and `DELETE` of `/bucket/key`, and a
//! listing for `GET` of a bucket. A server around it is the caller's.

use crate::table::{lemma_listing, listing, pair_views, Row, Table};
use crate::text::{
    copy_bytes, decimal, decimal_text, join2, join3, lower_text, text_pairs, to_lower,
};
use vstd::prelude::*;
use vstd::string::*;
use vstd::utf8::*;

verus! {

/// Call counters. They wrap at the largest number.
#[derive(Debug, Clone, Copy, PartialEq, Eq, Structural)]
pub struct RecordingCounters {
    pub put_object_calls: u64,
    pub get_object_calls: u64,
    pub delete_object_calls: u64,
    pub head_object_calls: u64,
}

impl Default for RecordingCounters {
    fn default() -> (r: Self)
        ensures
            r == (RecordingCounters {
                put_object_calls: 0,
                get_object_calls: 0,
                delete_object_calls: 0,
                head_object_calls: 0,
            }),
    {
        RecordingCounters {
            put_object_calls: 0,
            get_object_calls: 0,
            delete_object_calls: 0,
            head_object_calls: 0,
        }
    }
}

impl RecordingCounters {
    /// Number of `PUT` calls.
    pub fn put_object_calls(&self) -> (r: u64)
        ensures
            r == self.put_object_calls,
    {
        self.put_object_calls
    }

    /// Number of `GET` calls.
    pub fn get_object_calls(&self) -> (r: u64)
        ensures
            r == self.get_object_calls,
    {
        self.get_object_calls
    }

    /// Number of `DELETE` calls.
    pub fn delete_object_calls(&self) -> (r: u64)
        ensures
            r == self.delete_object_calls,
    {
        self.delete_object_calls
    }

    /// Number of `HEAD` calls.
    pub fn head_object_calls(&self) -> (r: u64)
        ensures
            r == self.head_object_calls,
    {
        self.head_object_calls
    }
}

/// Errors of serving a recording backend.
#[derive(Debug, Clone, PartialEq, Eq)]
pub enum RecordingError {
    Bind(String),
    BuildBackend(String),
}

impl RecordingError {
    /// Text of the error.
    pub open spec fn text(&self) -> Seq<char> {
        match self {
            RecordingError::Bind(m) => "bind/addr: "@ + m@,
            RecordingError::BuildBackend(m) => "build backend: "@ + m@,
        }
    }

    /// Text of the error.
    pub fn message(&self) -> (r: String)
        ensures
            r@ == self.text(),
    {
        match self {
            RecordingError::Bind(m) => join2("bind/addr: ", m.as_str()),
            RecordingError::BuildBackend(m) => join2("build backend: ", m.as_str()),
        }
    }
}

/// Method of a request.
#[derive(Debug, Clone, Copy, PartialEq, Eq, Structural)]
pub enum RequestMethod {
    Put,
    Get,
    Head,
    Delete,
    Other,
}

/// A stored object with its metadata, by header name.
pub struct MockObject {
    pub bytes: Vec<u8>,
    pub meta: Table<String, String>,
}

/// Mathematical view of a [`MockObject`].
pub ghost struct MockObjectView {
    pub bytes: Seq<u8>,
    pub meta: Map<Seq<char>, Seq<char>>,
}

impl View for MockObject {
    type V = MockObjectView;

    open spec fn view(&self) -> MockObjectView {
        MockObjectView { bytes: self.bytes@, meta: self.meta@ }
    }
}

impl Row for MockObject {
    fn copy_row(&self) -> (r: Self) {
        MockObject { bytes: copy_bytes(self.bytes.as_slice()), meta: self.meta.copy_table() }
    }
}

/// Answer to a request.
#[derive(Debug)]
pub struct MockResponse {
    pub status: u16,
    pub headers: Vec<(String, String)>,
    pub body: Vec<u8>,
}

/// Mathematical view of a [`MockResponse`].
pub ghost struct MockResponseView {
    pub status: u16,
    pub headers: Seq<(Seq<char>, Seq<char>)>,
    pub body: Seq<u8>,
}

impl View for MockResponse {
    type V = MockResponseView;

    open spec fn view(&self) -> MockResponseView {
        MockResponseView {
            status: self.status,
            headers: text_pairs(self.headers@),
            body: self.body@,
        }
    }
}

/// An object store in memory, with call counters.
pub struct RecordingBackend {
    pub objects: Table<String, MockObject>,
    pub counters: RecordingCounters,
}

/// Mathematical view of a [`RecordingBackend`].
pub ghost struct RecordingView {
    pub objects: Map<Seq<char>, MockObjectView>,
    pub counters: RecordingCounters,
}

impl View for RecordingBackend {
    type V = RecordingView;

    open spec fn view(&self) -> RecordingView {
        RecordingView { objects: self.objects@, counters: self.counters }
    }
}

/// Number of slashes at the start.
pub open spec fn leading_slashes(path: Seq<char>, i: int) -> int
    decreases path.len() - i,
{
    if 0 <= i < path.len() && path[i] == '/' {
        leading_slashes(path, i + 1)
    } else {
        i
    }
}

/// Object key of a request path: what follows the bucket, empty for the bucket
/// itself.
pub open spec fn object_of(path: Seq<char>) -> Seq<char> {
    match crate::record_key::slash_from(path, leading_slashes(path, 0)) {
        Some(i) => path.skip(i + 1),
        None => Seq::empty(),
    }
}

/// Prefix of metadata headers.
pub const META_PREFIX: &'static str = "x-amz-meta-";

/// The header carries metadata.
pub open spec fn is_meta(name: Seq<char>) -> bool {
    name.len() >= META_PREFIX@.len() && name.take(META_PREFIX@.len() as int) == META_PREFIX@
}

/// Metadata among the first `n` headers, by their names in lower case. Of two
/// headers with the same name the later one counts.
pub open spec fn meta_of(headers: Seq<(Seq<char>, Seq<char>)>, n: nat) -> Map<
    Seq<char>,
    Seq<char>,
>
    decreases n,
{
    if n == 0 {
        Map::empty()
    } else {
        let done = meta_of(headers, (n - 1) as nat);
        let name = lower_text(headers[n - 1].0);
        if is_meta(name) {
            done.insert(name, headers[n - 1].1)
        } else {
            done
        }
    }
}

/// Listing elements of the first `n` objects.
pub open spec fn list_items(rows: Seq<(Seq<char>, MockObjectView)>, n: nat) -> Seq<char>
    decreases n,
{
    if n == 0 {
        Seq::empty()
    } else {
        list_items(rows, (n - 1) as nat) + ("<Contents><Key>"@ + rows[n - 1].0 + "</Key><Size>"@
            + decimal(rows[n - 1].1.bytes.len()) + "</Size><ETag>\"e\"</ETag></Contents>"@)
    }
}

/// Listing of all objects in key order.
pub open spec fn list_xml(objects: Map<Seq<char>, MockObjectView>) -> Seq<char> {
    let rows = listing::<String, MockObjectView>(objects);
    "<?xml version=\"1.0\" encoding=\"UTF-8\"?><ListBucketResult><IsTruncated>false</IsTruncated>"@
        + list_items(rows, rows.len()) + "</ListBucketResult>"@
}

/// An answer of a status and a text.
pub open spec fn plain(status: u16, text: Seq<char>) -> MockResponseView {
    MockResponseView { status, headers: Seq::empty(), body: encode_utf8(text) }
}

impl RecordingView {
    /// State after a request, and the answer to it.
    pub open spec fn handled(
        self,
        method: RequestMethod,
        path: Seq<char>,
        headers: Seq<(Seq<char>, Seq<char>)>,
        body: Seq<u8>,
    ) -> (RecordingView, MockResponseView) {
        let key = object_of(path);
        let c = self.counters;
        match method {
            RequestMethod::Put => (
                RecordingView {
                    objects: self.objects.insert(
                        key,
                        MockObjectView { bytes: body, meta: meta_of(headers, headers.len()) },
                    ),
                    counters: if key.len() > 0 {
                        RecordingCounters {
                            put_object_calls: c.put_object_calls.wrapping_add(1),
                            ..c
                        }
                    } else {
                        c
                    },
                },
                MockResponseView {
                    status: 200,
                    headers: seq![("ETag"@, "\"recording-etag-"@ + key + "\""@)],
                    body: Seq::empty(),
                },
            ),
            RequestMethod::Get => (
                RecordingView {
                    counters: RecordingCounters {
                        get_object_calls: c.get_object_calls.wrapping_add(1),
                        ..c
                    },
                    ..self
                },
                if key.len() == 0 {
                    MockResponseView {
                        status: 200,
                        headers: seq![("content-type"@, "application/xml"@)],
                        body: encode_utf8(list_xml(self.objects)),
                    }
                } else if self.objects.contains_key(key) {
                    MockResponseView {
                        status: 200,
                        headers: Seq::empty(),
                        body: self.objects[key].bytes,
                    }
                } else {
                    plain(404, "not found"@)
                },
            ),
            RequestMethod::Head => (
                RecordingView {
                    counters: RecordingCounters {
                        head_object_calls: c.head_object_calls.wrapping_add(1),
                        ..c
                    },
                    ..self
                },
                if self.objects.contains_key(key) {
                    plain(200, Seq::empty())
                } else {
                    plain(404, "not found"@)
                },
            ),
            RequestMethod::Delete => (
                RecordingView {
                    objects: self.objects.remove(key),
                    counters: if key.len() > 0 {
                        RecordingCounters {
                            delete_object_calls: c.delete_object_calls.wrapping_add(1),
                            ..c
                        }
                    } else {
                        c
                    },
                },
                plain(204, Seq::empty()),
            ),
            RequestMethod::Other => (self, plain(404, "unmatched"@)),
        }
    }
}

/// Object key of a request path.
pub fn object_key(path: &str) -> (r: String)
    ensures
        r@ == object_of(path@),
{
    let n = path.unicode_len();
    let mut i: usize = 0;
    while i < n && path.get_char(i) == '/'
        invariant
            i <= n,
            n == path@.len(),
            leading_slashes(path@, 0) == leading_slashes(path@, i as int),
        decreases n - i,
    {
        i += 1;
    }
    match crate::record_key::find_slash(path, n, i) {
        Some(j) => {
            let rest = path.substring_char(j + 1, n);
            assert(rest@ =~= path@.skip(j + 1));
            rest.to_owned()
        },
        None => {
            let r = String::new();
            assert(r@ =~= Seq::<char>::empty());
            r
        },
    }
}

/// Metadata among the headers.
fn metadata(headers: &Vec<(String, String)>) -> (r: Table<String, String>)
    ensures
        r@ == meta_of(text_pairs(headers@), headers@.len()),
{
    let ghost hv = text_pairs(headers@);
    let mut out: Table<String, String> = Table::new();
    let mut i: usize = 0;
    while i < headers.len()
        invariant
            i <= headers.len(),
            hv == text_pairs(headers@),
            out@ == meta_of(hv, i as nat),
        decreases headers.len() - i,
    {
        assert(hv[i as int] == (headers@[i as int].0@, headers@[i as int].1@));
        let name = to_lower(headers[i].0.as_str());
        let n = name.as_str().unicode_len();
        let m = META_PREFIX.unicode_len();
        let mut hit: bool = false;
        if n >= m {
            let head = name.as_str().substring_char(0, m);
            assert(head@ =~= name@.take(m as int));
            hit = crate::order::same_text(head, META_PREFIX);
        }
        if hit {
            out.insert(name, headers[i].1.clone());
        }
        i += 1;
    }
    out
}

/// An answer of a status and a text.
fn plain_response(status: u16, text: &str) -> (r: MockResponse)
    ensures
        r@ == plain(status, text@),
{
    let r = MockResponse { status, headers: Vec::new(), body: copy_bytes(text.as_bytes()) };
    assert(r@.headers =~= Seq::empty());
    r
}

/// An answer with one header.
fn one_header(status: u16, name: &str, value: String, body: Vec<u8>) -> (r: MockResponse)
    ensures
        r@ == (MockResponseView { status, headers: seq![(name@, value@)], body: body@ }),
{
    let mut headers: Vec<(String, String)> = Vec::new();
    let ghost v = value@;
    headers.push((name.to_owned(), value));
    assert(text_pairs(headers@) =~= seq![(name@, v)]);
    MockResponse { status, headers, body }
}

impl RecordingBackend {
    /// An empty store with counters at zero.
    pub fn new() -> (r: Self)
        ensures
            r@.objects == Map::<Seq<char>, MockObjectView>::empty(),
            r@.counters == (RecordingCounters {
                put_object_calls: 0,
                get_object_calls: 0,
                delete_object_calls: 0,
                head_object_calls: 0,
            }),
    {
        RecordingBackend { objects: Table::new(), counters: RecordingCounters::default() }
    }

    /// Listing of all objects in key order.
    fn listing_xml(&self) -> (r: String)
        ensures
            r@ == list_xml(self@.objects),
    {
        let rows = self.objects.list();
        let ghost views = pair_views(rows@);
        proof {
            lemma_listing::<String, MockObjectView>(views, self@.objects);
        }
        let mut items = String::new();
        let mut i: usize = 0;
        assert(items@ =~= Seq::<char>::empty());
        while i < rows.len()
            invariant
                i <= rows.len(),
                views == pair_views(rows@),
                items@ == list_items(views, i as nat),
            decreases rows.len() - i,
        {
            assert(views[i as int] == (rows@[i as int].0@, rows@[i as int].1@));
            let size = decimal_text(rows[i].1.bytes.len() as u64);
            let a = join3("<Contents><Key>", rows[i].0.as_str(), "</Key><Size>");
            let b = join3(a.as_str(), size.as_str(), "</Size><ETag>\"e\"</ETag></Contents>");
            items = join2(items.as_str(), b.as_str());
            i += 1;
        }
        join3(
            "<?xml version=\"1.0\" encoding=\"UTF-8\"?><ListBucketResult><IsTruncated>false</IsTruncated>",
            items.as_str(),
            "</ListBucketResult>",
        )
    }

    /// Answers one request.
    pub fn handle(
        &mut self,
        method: RequestMethod,
        path: &str,
        headers: &Vec<(String, String)>,
        body: Vec<u8>,
    ) -> (r: MockResponse)
        ensures
            (final(self)@, r@) == old(self)@.handled(
                method,
                path@,
                text_pairs(headers@),
                body@,
            ),
    {
        let key = object_key(path);
        let empty = key.as_str().unicode_len() == 0;
        match method {
            RequestMethod::Put => {
                if !empty {
                    self.counters.put_object_calls = self.counters.put_object_calls.wrapping_add(1);
                }
                let meta = metadata(headers);
                assert(text_pairs(headers@).len() == headers@.len());
                let etag = join3("\"recording-etag-", key.as_str(), "\"");
                self.objects.insert(key, MockObject { bytes: body, meta });
                let r = one_header(200, "ETag", etag, Vec::new());
                assert(r@.body =~= Seq::empty());
                r
            },
            RequestMethod::Get => {
                self.counters.get_object_calls = self.counters.get_object_calls.wrapping_add(1);
                if empty {
                    let xml = self.listing_xml();
                    one_header(
                        200,
                        "content-type",
                        "application/xml".to_owned(),
                        copy_bytes(xml.as_str().as_bytes()),
                    )
                } else {
                    match self.objects.fetch(&key) {
                        Some(o) => {
                            let r = MockResponse { status: 200, headers: Vec::new(), body: o.bytes };
                            assert(r@.headers =~= Seq::empty());
                            r
                        },
                        None => plain_response(404, "not found"),
                    }
                }
            },
            RequestMethod::Head => {
                self.counters.head_object_calls = self.counters.head_object_calls.wrapping_add(1);
                if self.objects.fetch(&key).is_some() {
                    proof {
                        reveal_strlit("");
                        assert(""@ =~= Seq::<char>::empty());
                    }
                    plain_response(200, "")
                } else {
                    plain_response(404, "not found")
                }
            },
            RequestMethod::Delete => {
                if !empty {
                    self.counters.delete_object_calls =
                    self.counters.delete_object_calls.wrapping_add(1);
                }
                self.objects.remove(&key);
                proof {
                    reveal_strlit("");
                    assert(""@ =~= Seq::<char>::empty());
                }
                plain_response(204, "")
            },
            RequestMethod::Other => plain_response(404, "unmatched"),
        }
    }
}

/// An object that was put is what the next `GET` of the same path gives back,
/// and a deleted one is gone.
pub proof fn law_put_get_delete(
    s: RecordingView,
    path: Seq<char>,
    headers: Seq<(Seq<char>, Seq<char>)>,
    body: Seq<u8>,
)
    requires
        object_of(path).len() > 0,
    ensures
        ({
            let put = s.handled(RequestMethod::Put, path, headers, body).0;
            let gone = put.handled(RequestMethod::Delete, path, Seq::empty(), Seq::empty()).0;
            &&& put.handled(RequestMethod::Get, path, Seq::empty(), Seq::empty()).1
                == (MockResponseView { status: 200, headers: Seq::empty(), body })
            &&& gone.handled(RequestMethod::Get, path, Seq::empty(), Seq::empty()).1.status == 404
        }),
{
}

} // verus!
