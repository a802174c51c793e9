//! Laws of the recording backend, said of requests and objects.

use crate::recording::{leading_slashes, meta_of, object_of, RecordingView, RequestMethod};
use crate::record_key::slash_from;
use crate::text::lower_text;
use vstd::prelude::*;

verus! {

/// A request changes the object of its path at most. A put stores the body and
/// answers 200; a delete takes the object away and answers 204; other requests
/// change nothing. A head answers 200 exactly if the object is there.
pub proof fn law_request_changes_its_object_only(
    s: RecordingView,
    method: RequestMethod,
    path: Seq<char>,
    headers: Seq<(Seq<char>, Seq<char>)>,
    body: Seq<u8>,
    key: Seq<char>,
)
    ensures
        ({
            let (n, r) = s.handled(method, path, headers, body);
            let own = object_of(path);
            &&& key != own || !(method == RequestMethod::Put || method == RequestMethod::Delete)
                ==> (n.objects.contains_key(key) <==> s.objects.contains_key(key)) && (
            s.objects.contains_key(key) ==> n.objects[key] == s.objects[key])
            &&& method == RequestMethod::Put ==> n.objects.contains_key(own)
                && n.objects[own].bytes == body && r.status == 200
            &&& method == RequestMethod::Delete ==> !n.objects.contains_key(own) && r.status == 204
            &&& method == RequestMethod::Head ==> r.status == if s.objects.contains_key(own) {
                200u16
            } else {
                404u16
            }
            &&& method == RequestMethod::Get && own.len() > 0 && s.objects.contains_key(own)
                ==> r.status == 200 && r.body == s.objects[own].bytes
            &&& method == RequestMethod::Get && own.len() > 0 && !s.objects.contains_key(own)
                ==> r.status == 404
            &&& method == RequestMethod::Get && own.len() == 0 ==> r.status == 200
            &&& method == RequestMethod::Other ==> r.status == 404 && n == s
        }),
{
}

/// Each request counts once, under its method; puts and deletes only where they
/// name an object.
pub proof fn law_request_counts_once(
    s: RecordingView,
    method: RequestMethod,
    path: Seq<char>,
    headers: Seq<(Seq<char>, Seq<char>)>,
    body: Seq<u8>,
)
    requires
        s.counters.put_object_calls < u64::MAX,
        s.counters.get_object_calls < u64::MAX,
        s.counters.head_object_calls < u64::MAX,
        s.counters.delete_object_calls < u64::MAX,
    ensures
        ({
            let a = s.counters;
            let b = s.handled(method, path, headers, body).0.counters;
            let named = object_of(path).len() > 0;
            &&& b.put_object_calls == a.put_object_calls + if method == RequestMethod::Put
                && named {
                1int
            } else {
                0
            }
            &&& b.get_object_calls == a.get_object_calls + if method == RequestMethod::Get {
                1int
            } else {
                0
            }
            &&& b.head_object_calls == a.head_object_calls + if method == RequestMethod::Head {
                1int
            } else {
                0
            }
            &&& b.delete_object_calls == a.delete_object_calls + if method
                == RequestMethod::Delete && named {
                1int
            } else {
                0
            }
        }),
{
}

/// The object of a path is all behind the bucket: behind any slashes at the
/// front, a name without a slash, and one slash.
pub proof fn law_object_stands_behind_the_bucket(
    slashes: nat,
    bucket: Seq<char>,
    key: Seq<char>,
)
    requires
        !bucket.contains('/'),
        bucket.len() > 0,
    ensures
        object_of(Seq::new(slashes, |i: int| '/') + bucket + seq!['/'] + key) == key,
        object_of(Seq::new(slashes, |i: int| '/') + bucket).len() == 0,
{
    let front = Seq::new(slashes, |i: int| '/');
    let path = front + bucket + seq!['/'] + key;
    let bare = front + bucket;
    assert(bucket.contains(bucket[0]));
    assert(path[slashes as int] == bucket[0]);
    assert(bare[slashes as int] == bucket[0]);
    lemma_leading(path, slashes as int, 0);
    lemma_leading(bare, slashes as int, 0);
    let at = (slashes + bucket.len()) as int;
    assert forall|i: int| slashes <= i < at implies #[trigger] path[i] != '/' by {
        assert(path[i] == bucket[i - slashes]);
        assert(bucket.contains(bucket[i - slashes]));
    }
    assert forall|i: int| slashes <= i < bare.len() implies #[trigger] bare[i] != '/' by {
        assert(bare[i] == bucket[i - slashes]);
        assert(bucket.contains(bucket[i - slashes]));
    }
    assert(path[at] == '/');
    lemma_slash_at(path, slashes as int, at);
    lemma_no_slash(bare, slashes as int);
    assert(path.skip(at + 1) =~= key);
}

proof fn lemma_leading(path: Seq<char>, n: int, i: int)
    requires
        0 <= i <= n < path.len(),
        forall|j: int| i <= j < n ==> #[trigger] path[j] == '/',
        path[n] != '/',
    ensures
        leading_slashes(path, i) == n,
    decreases n - i,
{
    if i < n {
        lemma_leading(path, n, i + 1);
    }
}

proof fn lemma_slash_at(s: Seq<char>, from: int, at: int)
    requires
        0 <= from <= at < s.len(),
        s[at] == '/',
        forall|i: int| from <= i < at ==> #[trigger] s[i] != '/',
    ensures
        slash_from(s, from) == Some(at),
    decreases at - from,
{
    if from < at {
        lemma_slash_at(s, from + 1, at);
    }
}

proof fn lemma_no_slash(s: Seq<char>, from: int)
    requires
        0 <= from <= s.len(),
        forall|i: int| from <= i < s.len() ==> #[trigger] s[i] != '/',
    ensures
        slash_from(s, from) is None,
    decreases s.len() - from,
{
    if from < s.len() {
        lemma_no_slash(s, from + 1);
    }
}

/// A put keeps the headers whose name begins with `x-amz-meta-`, in whatever
/// case, under the name in lower case; of equal names the last. It keeps no
/// other header.
pub proof fn law_put_keeps_metadata_headers(
    headers: Seq<(Seq<char>, Seq<char>)>,
    n: nat,
    name: Seq<char>,
)
    requires
        n <= headers.len(),
    ensures
        ({
            let m = meta_of(headers, n);
            let p = "x-amz-meta-"@;
            &&& m.contains_key(name) <==> name.len() >= p.len() && name.take(p.len() as int) == p
                && exists|i: int| 0 <= i < n && lower_text((#[trigger] headers[i]).0) == name
            &&& m.contains_key(name) ==> exists|i: int|
                0 <= i < n && lower_text((#[trigger] headers[i]).0) == name && m[name]
                    == headers[i].1 && forall|j: int|
                    i < j < n ==> lower_text((#[trigger] headers[j]).0) != name
        }),
    decreases n,
{
    if n > 0 {
        law_put_keeps_metadata_headers(headers, (n - 1) as nat, name);
        let before = meta_of(headers, (n - 1) as nat);
        let m = meta_of(headers, n);
        let last = lower_text(headers[n - 1].0);
        if exists|i: int| 0 <= i < n - 1 && lower_text((#[trigger] headers[i]).0) == name {
            let i = choose|i: int|
                0 <= i < n - 1 && lower_text((#[trigger] headers[i]).0) == name;
            assert(lower_text(headers[i].0) == name);
        }
        if last == name {
            assert(lower_text(headers[n - 1].0) == name);
        } else if before.contains_key(name) {
            let i = choose|i: int|
                0 <= i < n - 1 && lower_text((#[trigger] headers[i]).0) == name && before[name]
                    == headers[i].1 && forall|j: int|
                    i < j < n - 1 ==> lower_text((#[trigger] headers[j]).0) != name;
            assert(lower_text(headers[i].0) == name && m[name] == headers[i].1);
        }
    }
}

} // verus!
