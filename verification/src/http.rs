//! Requests, responses, the route handlers, the cross-origin policy,
//! and the router that ties them together.

use vstd::prelude::*;
use crate::headers::{HeaderMap, lookup, set_entry};
use crate::headers::{
    lemma_lookup_set_same, lemma_lookup_set_other, lemma_set_entry_absorb, lemma_set_entry_push,
};
use crate::text::lower_seq;
use crate::time::{MILLIS_LIMIT, iso_of};
use crate::json::json_object;

verus! {

/// An HTTP method, from the small set the service distinguishes.
#[derive(PartialEq, Eq, Structural, Clone, Copy, Debug)]
pub enum Method {
    Get,
    Post,
    Put,
    Delete,
    Options,
    Other,
}

/// An inbound request, reduced to what the handlers read.
pub struct Request {
    pub method: Method,
    pub path: String,
    pub headers: HeaderMap,
}

/// An outbound response.
pub struct Response {
    pub status: u16,
    pub body: String,
    pub headers: HeaderMap,
}

impl Response {
    /// A successful response carrying `body` and no headers yet.
    pub fn ok(body: String) -> (r: Response)
        ensures
            r.status == 200,
            r.body == body,
            r.headers@ == Seq::<(Seq<char>, Seq<char>)>::empty(),
            r.headers.wf(),
    {
        Response { status: 200, body, headers: HeaderMap::new() }
    }

    /// A successful response with an empty body.
    pub fn empty() -> (r: Response)
        ensures
            r.status == 200,
            r.body@ == Seq::<char>::empty(),
            r.headers@ == Seq::<(Seq<char>, Seq<char>)>::empty(),
            r.headers.wf(),
    {
        let r = Response { status: 200, body: String::new(), headers: HeaderMap::new() };
        r
    }

    /// The response for a request that matched no route.
    pub fn not_found() -> (r: Response)
        ensures
            r.status == 404,
            r.body@ == "Not Found"@,
            r.headers@ == Seq::<(Seq<char>, Seq<char>)>::empty(),
            r.headers.wf(),
    {
        Response { status: 404, body: "Not Found".to_owned(), headers: HeaderMap::new() }
    }
}

/// The name of the trusted client-IP header the edge proxy sets.
pub open spec fn trusted_ip_key() -> Seq<char> {
    "cf-connecting-ip"@
}

/// The value a header extraction yields: the header's value, or the
/// literal `unknown` when the header is absent.
pub open spec fn extract_spec(entries: Seq<(Seq<char>, Seq<char>)>, key: Seq<char>) -> Seq<char> {
    match lookup(entries, key) {
        Some(v) => v,
        None => "unknown"@,
    }
}

/// A request without the trusted client-IP header is reported as
/// coming from `unknown`.
pub proof fn lemma_extract_absent(entries: Seq<(Seq<char>, Seq<char>)>, key: Seq<char>)
    requires
        lookup(entries, key) is None,
    ensures
        extract_spec(entries, key) == "unknown"@,
{
}

/// A request carrying the trusted client-IP header is reported with
/// that header's value, unaltered.
pub proof fn lemma_extract_present(entries: Seq<(Seq<char>, Seq<char>)>, key: Seq<char>, v: Seq<char>)
    requires
        lookup(entries, key) == Some(v),
    ensures
        extract_spec(entries, key) == v,
{
}

/// Read header `name` (case-insensitively) from `h`, collapsing
/// absence into the literal `unknown`.
pub fn header_or_unknown(h: &HeaderMap, name: &str) -> (r: String)
    ensures
        r@ == extract_spec(h@, lower_seq(name@)),
{
    match h.get(name) {
        Some(v) => v.clone(),
        None => "unknown".to_owned(),
    }
}

/// The four cross-origin headers stamped onto every response, applied
/// to a header set.
pub open spec fn with_cors(entries: Seq<(Seq<char>, Seq<char>)>) -> Seq<(Seq<char>, Seq<char>)> {
    set_entry(
        set_entry(
            set_entry(
                set_entry(entries, "access-control-allow-origin"@, "*"@),
                "access-control-allow-methods"@,
                "GET, POST, PUT, DELETE, OPTIONS"@,
            ),
            "access-control-allow-headers"@,
            "*"@,
        ),
        "access-control-max-age"@,
        "86400"@,
    )
}

/// The four cross-origin header names are lower case and pairwise
/// distinct.
proof fn lemma_cors_keys()
    ensures
        lower_seq("access-control-allow-origin"@) == "access-control-allow-origin"@,
        lower_seq("access-control-allow-methods"@) == "access-control-allow-methods"@,
        lower_seq("access-control-allow-headers"@) == "access-control-allow-headers"@,
        lower_seq("access-control-max-age"@) == "access-control-max-age"@,
        "access-control-allow-origin"@ != "access-control-allow-methods"@,
        "access-control-allow-origin"@ != "access-control-allow-headers"@,
        "access-control-allow-origin"@ != "access-control-max-age"@,
        "access-control-allow-methods"@ != "access-control-allow-headers"@,
        "access-control-allow-methods"@ != "access-control-max-age"@,
        "access-control-allow-headers"@ != "access-control-max-age"@,
{
    reveal_strlit("access-control-allow-origin");
    reveal_strlit("access-control-allow-methods");
    reveal_strlit("access-control-allow-headers");
    reveal_strlit("access-control-max-age");
    assert(lower_seq("access-control-allow-origin"@) =~= "access-control-allow-origin"@);
    assert(lower_seq("access-control-allow-methods"@) =~= "access-control-allow-methods"@);
    assert(lower_seq("access-control-allow-headers"@) =~= "access-control-allow-headers"@);
    assert(lower_seq("access-control-max-age"@) =~= "access-control-max-age"@);
    assert("access-control-allow-methods"@[21] == 'm');
    assert("access-control-allow-headers"@[21] == 'h');
}

/// After the cross-origin step, a response carries exactly the four
/// specified cross-origin header values, whatever headers the handler
/// had already set.
pub proof fn lemma_cors_values(entries: Seq<(Seq<char>, Seq<char>)>)
    ensures
        lookup(with_cors(entries), "access-control-allow-origin"@) == Some("*"@),
        lookup(with_cors(entries), "access-control-allow-methods"@) == Some(
            "GET, POST, PUT, DELETE, OPTIONS"@,
        ),
        lookup(with_cors(entries), "access-control-allow-headers"@) == Some("*"@),
        lookup(with_cors(entries), "access-control-max-age"@) == Some("86400"@),
{
    lemma_cors_keys();
    let e1 = set_entry(entries, "access-control-allow-origin"@, "*"@);
    let e2 = set_entry(e1, "access-control-allow-methods"@, "GET, POST, PUT, DELETE, OPTIONS"@);
    let e3 = set_entry(e2, "access-control-allow-headers"@, "*"@);
    lemma_lookup_set_same(entries, "access-control-allow-origin"@, "*"@);
    lemma_lookup_set_same(e1, "access-control-allow-methods"@, "GET, POST, PUT, DELETE, OPTIONS"@);
    lemma_lookup_set_same(e2, "access-control-allow-headers"@, "*"@);
    lemma_lookup_set_same(e3, "access-control-max-age"@, "86400"@);
    lemma_lookup_set_other(
        e1,
        "access-control-allow-methods"@,
        "GET, POST, PUT, DELETE, OPTIONS"@,
        "access-control-allow-origin"@,
    );
    lemma_lookup_set_other(e2, "access-control-allow-headers"@, "*"@, "access-control-allow-origin"@);
    lemma_lookup_set_other(
        e2,
        "access-control-allow-headers"@,
        "*"@,
        "access-control-allow-methods"@,
    );
    lemma_lookup_set_other(e3, "access-control-max-age"@, "86400"@, "access-control-allow-origin"@);
    lemma_lookup_set_other(e3, "access-control-max-age"@, "86400"@, "access-control-allow-methods"@);
    lemma_lookup_set_other(e3, "access-control-max-age"@, "86400"@, "access-control-allow-headers"@);
}

/// The cross-origin step changes no header other than the four it
/// stamps.
pub proof fn lemma_cors_other(entries: Seq<(Seq<char>, Seq<char>)>, name: Seq<char>)
    requires
        name != "access-control-allow-origin"@,
        name != "access-control-allow-methods"@,
        name != "access-control-allow-headers"@,
        name != "access-control-max-age"@,
    ensures
        lookup(with_cors(entries), name) == lookup(entries, name),
{
    let e1 = set_entry(entries, "access-control-allow-origin"@, "*"@);
    let e2 = set_entry(e1, "access-control-allow-methods"@, "GET, POST, PUT, DELETE, OPTIONS"@);
    let e3 = set_entry(e2, "access-control-allow-headers"@, "*"@);
    lemma_lookup_set_other(entries, "access-control-allow-origin"@, "*"@, name);
    lemma_lookup_set_other(e1, "access-control-allow-methods"@, "GET, POST, PUT, DELETE, OPTIONS"@, name);
    lemma_lookup_set_other(e2, "access-control-allow-headers"@, "*"@, name);
    lemma_lookup_set_other(e3, "access-control-max-age"@, "86400"@, name);
}

/// A response that had no headers carries, after the cross-origin
/// step, exactly the four cross-origin headers and nothing else.
pub proof fn lemma_cors_of_empty()
    ensures
        with_cors(Seq::<(Seq<char>, Seq<char>)>::empty()) == seq![
            ("access-control-allow-origin"@, "*"@),
            ("access-control-allow-methods"@, "GET, POST, PUT, DELETE, OPTIONS"@),
            ("access-control-allow-headers"@, "*"@),
            ("access-control-max-age"@, "86400"@),
        ],
{
    lemma_cors_keys();
    let e0 = Seq::<(Seq<char>, Seq<char>)>::empty();
    let e1 = set_entry(e0, "access-control-allow-origin"@, "*"@);
    let e2 = set_entry(e1, "access-control-allow-methods"@, "GET, POST, PUT, DELETE, OPTIONS"@);
    let e3 = set_entry(e2, "access-control-allow-headers"@, "*"@);
    let e4 = set_entry(e3, "access-control-max-age"@, "86400"@);
    lemma_set_entry_push(e0, "access-control-allow-origin"@, "*"@);
    assert(e1 =~= seq![("access-control-allow-origin"@, "*"@)]);
    lemma_set_entry_push(e1, "access-control-allow-methods"@, "GET, POST, PUT, DELETE, OPTIONS"@);
    lemma_set_entry_push(e2, "access-control-allow-headers"@, "*"@);
    lemma_set_entry_push(e3, "access-control-max-age"@, "86400"@);
    assert(e4 =~= seq![
        ("access-control-allow-origin"@, "*"@),
        ("access-control-allow-methods"@, "GET, POST, PUT, DELETE, OPTIONS"@),
        ("access-control-allow-headers"@, "*"@),
        ("access-control-max-age"@, "86400"@),
    ]);
}

/// Applying the cross-origin step twice yields the same header set as
/// applying it once.
pub proof fn lemma_cors_idempotent(entries: Seq<(Seq<char>, Seq<char>)>)
    ensures
        with_cors(with_cors(entries)) == with_cors(entries),
{
    lemma_cors_keys();
    lemma_cors_values(entries);
    let w = with_cors(entries);
    lemma_set_entry_absorb(w, "access-control-allow-origin"@, "*"@);
    lemma_set_entry_absorb(w, "access-control-allow-methods"@, "GET, POST, PUT, DELETE, OPTIONS"@);
    lemma_set_entry_absorb(w, "access-control-allow-headers"@, "*"@);
    lemma_set_entry_absorb(w, "access-control-max-age"@, "86400"@);
}

/// Stamp the four cross-origin headers onto `response`, leaving its
/// status, body and other headers as they were.
pub fn add_cors_headers(response: Response) -> (r: Response)
    requires
        response.headers.wf(),
    ensures
        r.status == response.status,
        r.body == response.body,
        r.headers@ == with_cors(response.headers@),
        r.headers.wf(),
{
    let mut r = response;
    proof {
        lemma_cors_keys();
    }
    r.headers.set("access-control-allow-origin", "*");
    r.headers.set("access-control-allow-methods", "GET, POST, PUT, DELETE, OPTIONS");
    r.headers.set("access-control-allow-headers", "*");
    r.headers.set("access-control-max-age", "86400");
    r
}

/// Serve `/` and `/ip`: the caller's IP, read from the trusted
/// client-IP header, or `unknown` when the proxy set none.
pub fn handle_get(req: &Request) -> (r: Response)
    ensures
        r.status == 200,
        r.body@ == extract_spec(req.headers@, trusted_ip_key()),
        r.headers@ == with_cors(Seq::<(Seq<char>, Seq<char>)>::empty()),
        r.headers.wf(),
{
    proof {
        reveal_strlit("cf-connecting-ip");
        assert(lower_seq("cf-connecting-ip"@) =~= "cf-connecting-ip"@);
    }
    let message = header_or_unknown(&req.headers, "cf-connecting-ip");
    let response = Response::ok(message);
    add_cors_headers(response)
}

/// Serve `/debug`: every request header, as a JSON object.
pub fn handle_debug(req: &Request) -> (r: Response)
    ensures
        r.status == 200,
        r.body@ == json_object(req.headers@),
        r.headers@ == with_cors(Seq::<(Seq<char>, Seq<char>)>::empty()),
        r.headers.wf(),
{
    let body = crate::json::json_of_headers(&req.headers);
    let response = Response::ok(body);
    add_cors_headers(response)
}

/// What the `/time` body reads for a clock standing at `ms`: the
/// ISO-8601 rendering, or a fixed error literal for an instant the
/// format cannot carry.
pub open spec fn time_body(ms: int) -> Seq<char> {
    if 0 <= ms < MILLIS_LIMIT {
        iso_of(ms)
    } else {
        "Error getting time"@
    }
}

/// Serve `/time`: the current UTC instant, handed in as milliseconds
/// since the epoch, rendered as an ISO-8601 timestamp.
pub fn handle_time(now_millis: u64) -> (r: Response)
    ensures
        r.status == 200,
        r.body@ == time_body(now_millis as int),
        r.headers@ == with_cors(Seq::<(Seq<char>, Seq<char>)>::empty()),
        r.headers.wf(),
{
    let body = if now_millis < MILLIS_LIMIT {
        crate::time::format_iso(now_millis)
    } else {
        "Error getting time".to_owned()
    };
    let response = Response::ok(body);
    add_cors_headers(response)
}

/// Serve a preflight `OPTIONS` request, whatever its path: an empty
/// body under the cross-origin headers.
pub fn handle_options() -> (r: Response)
    ensures
        r.status == 200,
        r.body@ == Seq::<char>::empty(),
        r.headers@ == with_cors(Seq::<(Seq<char>, Seq<char>)>::empty()),
        r.headers.wf(),
{
    add_cors_headers(Response::empty())
}

/// Whether a GET for `path` has a registered route.
pub open spec fn get_route_known(path: Seq<char>) -> bool {
    path == "/"@ || path == "/ip"@ || path == "/debug"@ || path == "/time"@
}

/// Dispatch one request: `OPTIONS` answers the preflight for any
/// path, a GET for a registered path runs its handler, and anything
/// else is not found. Every response leaves through the cross-origin
/// step.
pub fn route(req: &Request, now_millis: u64) -> (r: Response)
    ensures
        req.method is Options ==> r.status == 200 && r.body@ == Seq::<char>::empty(),
        req.method is Get && (req.path@ == "/"@ || req.path@ == "/ip"@) ==> r.status == 200
            && r.body@ == extract_spec(req.headers@, trusted_ip_key()),
        req.method is Get && req.path@ == "/debug"@ ==> r.status == 200 && r.body@ == json_object(
            req.headers@,
        ),
        req.method is Get && req.path@ == "/time"@ ==> r.status == 200 && r.body@ == time_body(
            now_millis as int,
        ),
        !(req.method is Options) && !(req.method is Get && get_route_known(req.path@)) ==> r.status
            == 404 && r.body@ == "Not Found"@,
        r.headers@ == with_cors(Seq::<(Seq<char>, Seq<char>)>::empty()),
        r.headers.wf(),
{
    proof {
        broadcast use vstd::string::group_string_axioms;

        reveal_strlit("/");
        reveal_strlit("/ip");
        reveal_strlit("/debug");
        reveal_strlit("/time");
        assert("/"@.len() == 1);
        assert("/ip"@.len() == 3);
        assert("/debug"@.len() == 6);
        assert("/time"@.len() == 5);
    }
    match req.method {
        Method::Options => handle_options(),
        Method::Get => {
            if str_eq(req.path.as_str(), "/") || str_eq(req.path.as_str(), "/ip") {
                handle_get(req)
            } else if str_eq(req.path.as_str(), "/debug") {
                handle_debug(req)
            } else if str_eq(req.path.as_str(), "/time") {
                handle_time(now_millis)
            } else {
                add_cors_headers(Response::not_found())
            }
        },
        _ => add_cors_headers(Response::not_found()),
    }
}

/// Whether two string slices hold the same characters.
fn str_eq(a: &str, b: &str) -> (r: bool)
    ensures
        r == (a@ == b@),
{
    let sa = a.to_owned();
    let sb = b.to_owned();
    sa == sb
}

} // verus!
