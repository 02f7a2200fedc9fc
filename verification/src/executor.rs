//! What sending a request decides before and after the network: the
//! request with its variables resolved, the redirect policy, the multipart
//! boundary, and the limit on the size of a response body.
use vstd::prelude::*;
use crate::codegen::{content_type, header_entries, push_header_entries, push_str};
use crate::parser::{pairs_view, ParsedRequest, RequestModel};
use crate::text::{
    append_vec, chars_of, contains, contains_chars, decimal, decimal_chars, find, find_chars,
    lemma_find, slice_chars, string_of, trim, trim_chars,
};
use crate::variables::{
    header_ci_exec, is_resolution, no_cycle_from, refs_cycle_free, resolve, VariableContext,
};

verus! {

/// A response as received.
pub struct Response {
    pub status: u16,
    pub status_text: String,
    pub headers: Vec<(String, String)>,
    pub body: String,
    pub elapsed_ms: u128,
}

/// A response as shown to the user: the status line, a `name: value` line
/// per header, a blank line, the time taken as `# <ms>ms`, a blank line,
/// and the body.
pub open spec fn formatted_response(
    status: u16,
    status_text: Seq<char>,
    headers: Seq<(Seq<char>, Seq<char>)>,
    elapsed_ms: u128,
    body: Seq<char>,
) -> Seq<char> {
    "HTTP/1.1 "@ + decimal(status as nat) + " "@ + status_text + "\n"@ + header_entries(
        headers,
        seq![],
        ": "@,
        "\n"@,
    ) + "\n# "@ + decimal(elapsed_ms as nat) + "ms\n\n"@ + body
}

/// The response as shown to the user.
pub fn format_response(response: &Response) -> (r: String)
    ensures
        r@ == formatted_response(
            response.status,
            response.status_text@,
            pairs_view(response.headers@),
            response.elapsed_ms,
            response.body@,
        ),
{
    let mut out = chars_of("HTTP/1.1 ");
    let st = decimal_chars(response.status as u128);
    append_vec(&mut out, &st);
    push_str(&mut out, " ");
    push_str(&mut out, response.status_text.as_str());
    push_str(&mut out, "\n");
    push_header_entries(&mut out, &response.headers, "", ": ", "\n");
    push_str(&mut out, "\n# ");
    let ms = decimal_chars(response.elapsed_ms);
    append_vec(&mut out, &ms);
    push_str(&mut out, "ms\n\n");
    push_str(&mut out, response.body.as_str());
    proof {
        reveal_strlit("");
        assert(""@ =~= Seq::<char>::empty());
    }
    assert(out@ =~= formatted_response(
        response.status,
        response.status_text@,
        pairs_view(response.headers@),
        response.elapsed_ms,
        response.body@,
    ));
    string_of(&out)
}

/// The largest response body accepted, in bytes.
pub const MAX_BODY_SIZE: usize = 10 * 1024 * 1024;

/// A request with every `{{...}}` in its URL, header values and body
/// resolved.
pub struct ResolvedRequest {
    pub method: String,
    pub url: String,
    pub headers: Vec<(String, String)>,
    pub body: Option<String>,
    /// The `Content-Type` header's value as written (empty if none).
    pub content_type: String,
    /// How many redirects are followed; none for `@no-redirect`.
    pub max_redirects: Option<usize>,
}

/// How many redirects are followed: none with `@no-redirect`, else ten.
pub fn redirect_limit(request: &ParsedRequest) -> (r: Option<usize>)
    ensures
        request.no_redirect ==> r is None,
        !request.no_redirect ==> r == Some(10usize),
{
    if request.no_redirect {
        None
    } else {
        Some(10)
    }
}

/// No cycle of variables is reachable from the request's URL, header
/// values or body: resolving them ends.
pub open spec fn request_no_cycle(r: RequestModel, vars: Map<Seq<char>, Seq<char>>) -> bool {
    &&& no_cycle_from(r.url, vars)
    &&& forall|i: int| 0 <= i < r.headers.len() ==> no_cycle_from(#[trigger] r.headers[i].1, vars)
    &&& r.body matches Some(b) ==> no_cycle_from(b, vars)
}

/// Whether resolving the request's variables ends: no cycle of variables
/// is reachable from its URL, header values or body.
pub fn request_cycle_free(request: &ParsedRequest, ctx: &VariableContext) -> (b: bool)
    ensures
        b <==> request_no_cycle(request@, ctx@.variables),
{
    if !refs_cycle_free(&chars_of(request.url.as_str()), &ctx.variables) {
        return false;
    }
    let ghost hs = request@.headers;
    let mut i: usize = 0;
    while i < request.headers.len()
        invariant
            hs == request@.headers,
            hs.len() == request.headers@.len(),
            i <= request.headers@.len(),
            forall|j: int| 0 <= j < i ==> no_cycle_from(#[trigger] hs[j].1, ctx@.variables),
        decreases request.headers.len() - i,
    {
        assert(hs[i as int].1 == request.headers@[i as int].1@);
        if !refs_cycle_free(&chars_of(request.headers[i].1.as_str()), &ctx.variables) {
            return false;
        }
        i += 1;
    }
    match &request.body {
        Some(b) => refs_cycle_free(&chars_of(b.as_str()), &ctx.variables),
        None => true,
    }
}

/// Resolves the variables of a request against `ctx`.
pub fn resolve_request(request: &ParsedRequest, ctx: &VariableContext) -> (r: ResolvedRequest)
    requires
        request_no_cycle(request@, ctx@.variables),
    ensures
        r.method@ == request.method@,
        is_resolution(request.url@, ctx@, r.url@),
        r.headers@.len() == request.headers@.len(),
        forall|i: int|
            0 <= i < r.headers@.len() ==> #[trigger] r.headers@[i].0@ == request.headers@[i].0@
                && is_resolution(request.headers@[i].1@, ctx@, r.headers@[i].1@),
        match request.body {
            Some(b) => r.body matches Some(rb) && is_resolution(b@, ctx@, rb@),
            None => r.body is None,
        },
        r.content_type@ == content_type(request@),
        r.max_redirects == (if request.no_redirect {
            None
        } else {
            Some(10usize)
        }),
{
    let url = resolve(request.url.as_str(), ctx);
    let mut headers: Vec<(String, String)> = Vec::new();
    let mut i: usize = 0;
    while i < request.headers.len()
        invariant
            request_no_cycle(request@, ctx@.variables),
            i <= request.headers@.len(),
            headers@.len() == i,
            forall|j: int|
                0 <= j < i ==> #[trigger] headers@[j].0@ == request.headers@[j].0@ && is_resolution(
                    request.headers@[j].1@,
                    ctx@,
                    headers@[j].1@,
                ),
        decreases request.headers.len() - i,
    {
        assert(request@.headers[i as int].1 == request.headers@[i as int].1@);
        let v = resolve(request.headers[i].1.as_str(), ctx);
        headers.push((request.headers[i].0.clone(), v));
        i += 1;
    }
    let body = match &request.body {
        Some(b) => Some(resolve(b.as_str(), ctx)),
        None => None,
    };
    proof {
        reveal_strlit("content-type");
    }
    let ct = match header_ci_exec(&request.headers, &chars_of("content-type")) {
        Some(v) => string_of(&v),
        None => string_of(&Vec::new()),
    };
    ResolvedRequest {
        method: request.method.clone(),
        url,
        headers,
        body,
        content_type: ct,
        max_redirects: redirect_limit(request),
    }
}

/// Whether the body goes as a multipart form.
pub fn is_multipart(content_type: &str) -> (b: bool)
    ensures
        b == contains(content_type@, "multipart/form-data"@),
{
    contains_chars(&chars_of(content_type), &chars_of("multipart/form-data"))
}

/// The multipart boundary named in a content type: the text after
/// `boundary=` (up to a further `boundary=`), trimmed; `boundary` if none
/// is named.
pub open spec fn spec_multipart_boundary(ct: Seq<char>) -> Seq<char> {
    match find(ct, "boundary="@) {
        Some(i) => {
            let rest = ct.skip(i + 9);
            trim(
                match find(rest, "boundary="@) {
                    Some(j) => rest.take(j),
                    None => rest,
                },
            )
        },
        None => "boundary"@,
    }
}

/// The multipart boundary named in a content type.
pub fn multipart_boundary(content_type: &str) -> (r: String)
    ensures
        r@ == spec_multipart_boundary(content_type@),
{
    proof {
        reveal_strlit("boundary=");
    }
    let ct = chars_of(content_type);
    let key = chars_of("boundary=");
    proof {
        lemma_find(ct@, key@);
    }
    match find_chars(&ct, &key) {
        Some(i) => {
            assert(key@.len() == 9);
            assert(i + 9 <= ct.len());
            let rest = slice_chars(&ct, i + 9, ct.len());
            assert(rest@ =~= ct@.skip(i + 9));
            proof {
                lemma_find(rest@, key@);
            }
            let piece = match find_chars(&rest, &key) {
                Some(j) => {
                    let p = slice_chars(&rest, 0, j);
                    assert(p@ =~= rest@.take(j as int));
                    p
                },
                None => rest,
            };
            string_of(&trim_chars(&piece))
        },
        None => string_of(&chars_of("boundary")),
    }
}

/// The last `/`-separated piece of a path: the name a file is sent under.
pub open spec fn spec_file_name(path: Seq<char>) -> Seq<char>
    decreases path.len(),
{
    if path.len() == 0 {
        seq![]
    } else if path.last() == '/' {
        seq![]
    } else {
        spec_file_name(path.drop_last()).push(path.last())
    }
}

/// The name a file is sent under: the text after the last `/`.
pub fn file_name_of(path: &str) -> (r: String)
    ensures
        r@ == spec_file_name(path@),
{
    let p = chars_of(path);
    let mut k: usize = p.len();
    assert(p@.take(p.len() as int) =~= p@);
    assert(p@ + p@.skip(p.len() as int) =~= p@);
    while k > 0 && p[k - 1] != '/'
        invariant
            k <= p.len(),
            spec_file_name(p@) == spec_file_name(p@.take(k as int)) + p@.skip(k as int),
        decreases k,
    {
        assert(p@.take(k as int).drop_last() =~= p@.take(k - 1));
        assert(p@.skip(k - 1) =~= seq![p@[k - 1]] + p@.skip(k as int));
        assert(spec_file_name(p@.take(k as int)) + p@.skip(k as int) =~= spec_file_name(p@.take(k - 1)) + p@.skip(k - 1));
        k -= 1;
    }
    assert(spec_file_name(p@.take(k as int)) =~= Seq::<char>::empty());
    let r = slice_chars(&p, k, p.len());
    assert(r@ =~= Seq::<char>::empty() + p@.skip(k as int));
    string_of(&r)
}

/// The message for a body over the limit.
pub open spec fn body_too_large_message(n: nat) -> Seq<char> {
    "response body too large ("@ + decimal(n) + " bytes, max "@ + decimal(MAX_BODY_SIZE as nat) + ")"@
}

/// The body when it is at most `MAX_BODY_SIZE` bytes (UTF-8), else an
/// error giving its size.
pub fn check_body_size(body: String) -> (r: Result<String, String>)
    requires
        vstd::utf8::encode_utf8(body@).len() <= usize::MAX,
    ensures
        vstd::utf8::encode_utf8(body@).len() <= MAX_BODY_SIZE ==> r == Ok::<String, String>(body),
        vstd::utf8::encode_utf8(body@).len() > MAX_BODY_SIZE ==> (r matches Err(e) && e@
            == body_too_large_message(vstd::utf8::encode_utf8(body@).len())),
{
    let n = body.as_str().len();
    assert(n == vstd::utf8::encode_utf8(body@).len());
    if n > MAX_BODY_SIZE {
        let mut v = chars_of("response body too large (");
        let d = decimal_chars(n as u128);
        append_vec(&mut v, &d);
        let mid = chars_of(" bytes, max ");
        append_vec(&mut v, &mid);
        let m = decimal_chars(MAX_BODY_SIZE as u128);
        append_vec(&mut v, &m);
        let end = chars_of(")");
        append_vec(&mut v, &end);
        assert(v@ =~= body_too_large_message(n as nat));
        Err(string_of(&v))
    } else {
        Ok(body)
    }
}

} // verus!
