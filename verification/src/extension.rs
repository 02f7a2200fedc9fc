//! The editor extension's own decisions: the slash commands (`/http-send`,
//! `/http-to-curl`) and which release of the language server to fetch.
use vstd::prelude::*;
use crate::json::{json_pretty, json_pretty_text};
use crate::curl::escape_single_quotes;
use crate::text::{
    append_vec, chars_eq, chars_of, find, find_char, join, join_from, lemma_find, lines, lines_of,
    slice_chars, splitn, splitn_chars, starts_with, starts_with_chars, string_of, to_uppercase_chars,
    trim, trim_chars, trim_end, trim_end_chars, unicode_uppercase,
};

verus! {

// ---------------------------------------------------------------------------
// Slash commands
// ---------------------------------------------------------------------------
/// A request written as slash-command arguments.
pub struct SlashRequest {
    pub method: String,
    pub url: String,
    pub headers: Vec<(String, String)>,
    pub body: Option<String>,
}

pub ghost struct SlashModel {
    pub method: Seq<char>,
    pub url: Seq<char>,
    pub headers: Seq<(Seq<char>, Seq<char>)>,
    pub body: Option<Seq<char>>,
}

impl View for SlashRequest {
    type V = SlashModel;

    open spec fn view(&self) -> SlashModel {
        SlashModel {
            method: self.method@,
            url: self.url@,
            headers: crate::parser::pairs_view(self.headers@),
            body: crate::parser::opt_view(self.body),
        }
    }
}

/// A line that holds the request line: not blank, not a `#` or `//`
/// comment.
pub open spec fn is_request_line(l: Seq<char>) -> bool {
    let t = trim(l);
    t.len() > 0 && !starts_with(t, "#"@) && !starts_with(t, "//"@)
}

/// The first request line at or after `i`.
pub open spec fn first_request_line(ls: Seq<Seq<char>>, i: int) -> Option<int>
    decreases ls.len() - i,
{
    if i < 0 || i >= ls.len() {
        None
    } else if is_request_line(ls[i]) {
        Some(i)
    } else {
        first_request_line(ls, i + 1)
    }
}

/// A header line `name: value`, both trimmed; `None` without a `:`.
pub open spec fn slash_header(l: Seq<char>) -> Option<(Seq<char>, Seq<char>)> {
    match find(l, seq![':']) {
        Some(p) => Some((trim(l.take(p)), trim(l.skip(p + 1)))),
        None => None,
    }
}

/// The headers from line `i` up to the first blank line, and where the
/// body starts (after that blank line).
pub open spec fn slash_headers(ls: Seq<Seq<char>>, i: int) -> (Seq<(Seq<char>, Seq<char>)>, int)
    decreases ls.len() - i,
{
    if i < 0 || i >= ls.len() {
        (seq![], i)
    } else if trim(ls[i]).len() == 0 {
        (seq![], i + 1)
    } else {
        let (hs, b) = slash_headers(ls, i + 1);
        match slash_header(trim(ls[i])) {
            Some(h) => (seq![h] + hs, b),
            None => (hs, b),
        }
    }
}

/// The body: the lines from `b` on, joined, without trailing whitespace;
/// `None` if that leaves nothing.
pub open spec fn slash_body(ls: Seq<Seq<char>>, b: int) -> Option<Seq<char>> {
    if 0 <= b < ls.len() {
        let t = trim_end(join(ls.skip(b), "\n"@));
        if t.len() == 0 {
            None
        } else {
            Some(t)
        }
    } else {
        None
    }
}

/// What the arguments of a slash command say of a request, or why they
/// say none.
pub open spec fn spec_parse_request(input: Seq<char>) -> Result<SlashModel, Seq<char>> {
    let ls = lines(input);
    if ls.len() == 0 {
        Err("empty request"@)
    } else {
        match first_request_line(ls, 0) {
            None => Err("no request line found"@),
            Some(i) => {
                let parts = splitn(trim(ls[i]), 3, ' ');
                if parts.len() < 2 {
                    Err("invalid request line, expected: METHOD URL"@)
                } else {
                    let (hs, b) = slash_headers(ls, i + 1);
                    Ok(SlashModel { method: parts[0], url: parts[1], headers: hs, body: slash_body(ls, b) })
                }
            },
        }
    }
}

fn parse_header_line(l: &Vec<char>) -> (r: Option<(String, String)>)
    ensures
        match r {
            Some(h) => slash_header(l@) == Some((h.0@, h.1@)),
            None => slash_header(l@) is None,
        },
{
    proof {
        lemma_find(l@, seq![':']);
    }
    match find_char(l, ':') {
        Some(p) => {
            let name = trim_chars(&slice_chars(l, 0, p));
            let value = trim_chars(&slice_chars(l, p + 1, l.len()));
            assert(l@.subrange(0, p as int) =~= l@.take(p as int));
            assert(l@.subrange(p + 1, l.len() as int) =~= l@.skip(p + 1));
            Some((string_of(&name), string_of(&value)))
        },
        None => None,
    }
}

fn is_request_line_exec(l: &Vec<char>) -> (b: bool)
    ensures
        b == is_request_line(l@),
{
    let t = trim_chars(l);
    t.len() > 0 && !starts_with_chars(&t, &chars_of("#")) && !starts_with_chars(&t, &chars_of("//"))
}

fn find_request_line(ls: &Vec<Vec<char>>) -> (r: Option<usize>)
    ensures
        match r {
            Some(i) => first_request_line(ls.deep_view(), 0) == Some(i as int) && i < ls.len(),
            None => first_request_line(ls.deep_view(), 0) is None,
        },
{
    let ghost lv = ls.deep_view();
    let mut i: usize = 0;
    loop
        invariant
            lv == ls.deep_view(),
            i <= ls.len(),
            first_request_line(lv, 0) == first_request_line(lv, i as int),
        decreases ls.len() - i,
    {
        if i >= ls.len() {
            return None;
        }
        assert(lv[i as int] =~= ls@[i as int]@);
        if is_request_line_exec(&ls[i]) {
            return Some(i);
        }
        i += 1;
    }
}

fn read_slash_headers(ls: &Vec<Vec<char>>, start: usize) -> (r: (Vec<(String, String)>, usize))
    requires
        start <= ls.len(),
    ensures
        (crate::parser::pairs_view(r.0@), r.1 as int) == slash_headers(ls.deep_view(), start as int),
{
    let ghost lv = ls.deep_view();
    let mut headers: Vec<(String, String)> = Vec::new();
    let mut i = start;
    assert(crate::parser::pairs_view(headers@) + slash_headers(lv, start as int).0 =~= slash_headers(lv, start as int).0);
    loop
        invariant
            lv == ls.deep_view(),
            start <= i <= ls.len(),
            slash_headers(lv, i as int).1 == slash_headers(lv, start as int).1,
            crate::parser::pairs_view(headers@) + slash_headers(lv, i as int).0 == slash_headers(lv, start as int).0,
        decreases ls.len() - i,
    {
        if i >= ls.len() {
            assert(crate::parser::pairs_view(headers@) + Seq::<(Seq<char>, Seq<char>)>::empty() =~= crate::parser::pairs_view(headers@));
            return (headers, i);
        }
        assert(lv[i as int] =~= ls@[i as int]@);
        let line = trim_chars(&ls[i]);
        if line.len() == 0 {
            assert(crate::parser::pairs_view(headers@) + Seq::<(Seq<char>, Seq<char>)>::empty() =~= crate::parser::pairs_view(headers@));
            return (headers, i + 1);
        }
        let ghost before = crate::parser::pairs_view(headers@);
        match parse_header_line(&line) {
            Some(h) => {
                headers.push(h);
                assert(crate::parser::pairs_view(headers@) =~= before.push((h.0@, h.1@)));
                assert(before + slash_headers(lv, i as int).0 =~= crate::parser::pairs_view(headers@) + slash_headers(lv, i + 1).0);
            },
            None => {},
        }
        i += 1;
    }
}

/// Reads a request from slash-command arguments: skipping blank and
/// comment lines, a `METHOD URL` line, `name: value` headers up to a blank
/// line, and the rest as the body.
pub fn parse_request(input: &str) -> (r: Result<SlashRequest, String>)
    ensures
        match r {
            Ok(req) => spec_parse_request(input@) == Ok::<SlashModel, Seq<char>>(req@),
            Err(e) => spec_parse_request(input@) == Err::<SlashModel, Seq<char>>(e@),
        },
{
    let ls = lines_of(&chars_of(input));
    let ghost lv = ls.deep_view();
    if ls.len() == 0 {
        return Err(string_of(&chars_of("empty request")));
    }
    let i = match find_request_line(&ls) {
        Some(i) => i,
        None => {
            return Err(string_of(&chars_of("no request line found")));
        },
    };
    assert(lv[i as int] =~= ls@[i as int]@);
    let parts = splitn_chars(&trim_chars(&ls[i]), 3, ' ');
    if parts.len() < 2 {
        return Err(string_of(&chars_of("invalid request line, expected: METHOD URL")));
    }
    assert(parts.deep_view()[0] =~= parts@[0]@);
    assert(parts.deep_view()[1] =~= parts@[1]@);
    let method = string_of(&parts[0]);
    let url = string_of(&parts[1]);
    let (headers, b) = read_slash_headers(&ls, i + 1);
    let body = if b < ls.len() {
        let joined = join_from(&ls, b, &chars_of("\n"));
        assert(lv.subrange(b as int, ls.len() as int) =~= lv.skip(b as int));
        let t = trim_end_chars(&joined);
        if t.len() == 0 {
            None
        } else {
            Some(string_of(&t))
        }
    } else {
        None
    };
    Ok(SlashRequest { method, url, headers, body })
}

/// The slash commands.
pub enum SlashCommandKind {
    HttpSend,
    HttpToCurl,
}

/// The slash command of a name; an error for any other name.
pub fn slash_command_kind(name: &str) -> (r: Result<SlashCommandKind, String>)
    ensures
        name@ == "http-send"@ ==> r matches Ok(SlashCommandKind::HttpSend),
        name@ == "http-to-curl"@ ==> r matches Ok(SlashCommandKind::HttpToCurl),
        !(name@ == "http-send"@ || name@ == "http-to-curl"@) ==> (r matches Err(e) && e@
            == "unknown command: "@ + name@),
{
    proof {
        reveal_strlit("http-send");
        reveal_strlit("http-to-curl");
        assert("http-send"@.len() == 9 && "http-to-curl"@.len() == 12);
    }
    let n = chars_of(name);
    if chars_eq(&n, &chars_of("http-send")) {
        Ok(SlashCommandKind::HttpSend)
    } else if chars_eq(&n, &chars_of("http-to-curl")) {
        Ok(SlashCommandKind::HttpToCurl)
    } else {
        let mut m = chars_of("unknown command: ");
        append_vec(&mut m, &n);
        Err(string_of(&m))
    }
}

/// The methods `/http-send` can send.
pub enum HttpMethodKind {
    Get,
    Post,
    Put,
    Delete,
    Patch,
    Head,
    Options,
}

pub open spec fn spec_http_method(upper: Seq<char>) -> Option<HttpMethodKind> {
    if upper == "GET"@ {
        Some(HttpMethodKind::Get)
    } else if upper == "POST"@ {
        Some(HttpMethodKind::Post)
    } else if upper == "PUT"@ {
        Some(HttpMethodKind::Put)
    } else if upper == "DELETE"@ {
        Some(HttpMethodKind::Delete)
    } else if upper == "PATCH"@ {
        Some(HttpMethodKind::Patch)
    } else if upper == "HEAD"@ {
        Some(HttpMethodKind::Head)
    } else if upper == "OPTIONS"@ {
        Some(HttpMethodKind::Options)
    } else {
        None
    }
}

/// The method to send, by the upper-cased name; an error naming the method
/// as written for any other.
pub fn http_method(method: &str) -> (r: Result<HttpMethodKind, String>)
    ensures
        match spec_http_method(unicode_uppercase(method@)) {
            Some(k) => r == Ok::<HttpMethodKind, String>(k),
            None => r matches Err(e) && e@ == "unsupported method: "@ + method@,
        },
{
    let m = chars_of(method);
    let u = to_uppercase_chars(&m);
    if chars_eq(&u, &chars_of("GET")) {
        Ok(HttpMethodKind::Get)
    } else if chars_eq(&u, &chars_of("POST")) {
        Ok(HttpMethodKind::Post)
    } else if chars_eq(&u, &chars_of("PUT")) {
        Ok(HttpMethodKind::Put)
    } else if chars_eq(&u, &chars_of("DELETE")) {
        Ok(HttpMethodKind::Delete)
    } else if chars_eq(&u, &chars_of("PATCH")) {
        Ok(HttpMethodKind::Patch)
    } else if chars_eq(&u, &chars_of("HEAD")) {
        Ok(HttpMethodKind::Head)
    } else if chars_eq(&u, &chars_of("OPTIONS")) {
        Ok(HttpMethodKind::Options)
    } else {
        let mut e = chars_of("unsupported method: ");
        append_vec(&mut e, &m);
        Err(string_of(&e))
    }
}

/// The headers as ` \` line breaks with `-H 'name: value'`.
pub open spec fn curl_header_lines(hs: Seq<(Seq<char>, Seq<char>)>) -> Seq<char>
    decreases hs.len(),
{
    if hs.len() == 0 {
        seq![]
    } else {
        curl_header_lines(hs.drop_last()) + " \\\n  -H '"@ + hs.last().0 + ": "@ + hs.last().1 + "'"@
    }
}

/// `/http-to-curl`: the request as a cURL command line.
pub open spec fn spec_slash_curl(r: SlashModel) -> Seq<char> {
    "curl -X "@ + r.method + " '"@ + r.url + "'"@ + curl_header_lines(r.headers) + match r.body {
        Some(b) => " \\\n  -d '"@ + escape_single_quotes(b) + "'"@,
        None => seq![],
    }
}

fn push_str(out: &mut Vec<char>, s: &str)
    ensures
        final(out)@ == old(out)@ + s@,
{
    let v = chars_of(s);
    append_vec(out, &v);
}

/// The request as a cURL command line.
pub fn slash_curl_text(req: &SlashRequest) -> (r: String)
    ensures
        r@ == spec_slash_curl(req@),
{
    let ghost m = req@;
    let mut out = chars_of("curl -X ");
    push_str(&mut out, req.method.as_str());
    push_str(&mut out, " '");
    push_str(&mut out, req.url.as_str());
    push_str(&mut out, "'");
    let ghost head = out@;
    let mut k: usize = 0;
    assert(m.headers.take(0) =~= Seq::<(Seq<char>, Seq<char>)>::empty());
    assert(head + curl_header_lines(m.headers.take(0)) =~= head);
    while k < req.headers.len()
        invariant
            m == req@,
            k <= req.headers.len(),
            out@ == head + curl_header_lines(m.headers.take(k as int)),
        decreases req.headers.len() - k,
    {
        assert(m.headers.take(k + 1).drop_last() =~= m.headers.take(k as int));
        assert(m.headers[k as int] == (req.headers@[k as int].0@, req.headers@[k as int].1@));
        push_str(&mut out, " \\\n  -H '");
        push_str(&mut out, req.headers[k].0.as_str());
        push_str(&mut out, ": ");
        push_str(&mut out, req.headers[k].1.as_str());
        push_str(&mut out, "'");
        k += 1;
    }
    assert(m.headers.take(req.headers.len() as int) =~= m.headers);
    let ghost with_headers = out@;
    match &req.body {
        Some(b) => {
            push_str(&mut out, " \\\n  -d '");
            let esc = crate::curl::escape_single_quotes_chars(&chars_of(b.as_str()));
            append_vec(&mut out, &esc);
            push_str(&mut out, "'");
        },
        None => {
            assert(out@ =~= with_headers + Seq::<char>::empty());
        },
    }
    string_of(&out)
}

/// `/http-send`'s output for a response: its headers as `name: value`
/// lines, a blank line, and the body (`body_text` in place of it, where
/// given).
pub open spec fn spec_send_output(hs: Seq<(Seq<char>, Seq<char>)>, body_text: Seq<char>) -> Seq<char> {
    "Response Headers:\n"@ + crate::codegen::header_entries(hs, seq![], ": "@, "\n"@) + "\n"@ + body_text
}

/// The body as shown: its pretty-printed JSON where it is JSON, else as
/// received.
pub open spec fn shown_body(body: Seq<char>) -> Seq<char> {
    match json_pretty_text(body) {
        Some(p) => p,
        None => body,
    }
}

/// The output of `/http-send` for a response with these headers and body;
/// a JSON body is pretty-printed.
pub fn send_output(headers: &Vec<(String, String)>, body: &str) -> (r: String)
    ensures
        r@ == spec_send_output(crate::parser::pairs_view(headers@), shown_body(body@)),
{
    let ghost hs = crate::parser::pairs_view(headers@);
    let mut out = chars_of("Response Headers:\n");
    let mut k: usize = 0;
    let ghost head = out@;
    assert(hs.take(0) =~= Seq::<(Seq<char>, Seq<char>)>::empty());
    assert(head + crate::codegen::header_entries(hs.take(0), seq![], ": "@, "\n"@) =~= head);
    while k < headers.len()
        invariant
            hs == crate::parser::pairs_view(headers@),
            k <= headers.len(),
            out@ == head + crate::codegen::header_entries(hs.take(k as int), seq![], ": "@, "\n"@),
        decreases headers.len() - k,
    {
        assert(hs.take(k + 1).drop_last() =~= hs.take(k as int));
        assert(hs[k as int] == (headers@[k as int].0@, headers@[k as int].1@));
        let ghost before = out@;
        push_str(&mut out, headers[k].0.as_str());
        push_str(&mut out, ": ");
        push_str(&mut out, headers[k].1.as_str());
        push_str(&mut out, "\n");
        assert(out@ =~= before + (seq![] + headers@[k as int].0@ + ": "@ + headers@[k as int].1@ + "\n"@));
        k += 1;
    }
    assert(hs.take(headers.len() as int) =~= hs);
    push_str(&mut out, "\n");
    let ghost prefix = out@;
    let formatted = json_pretty(body);
    match formatted {
        Some(p) => {
            push_str(&mut out, p.as_str());
            assert(out@ =~= spec_send_output(hs, p@));
        },
        None => {
            push_str(&mut out, body);
            assert(out@ =~= spec_send_output(hs, body@));
        },
    }
    string_of(&out)
}

// ---------------------------------------------------------------------------
// Fetching the language server
// ---------------------------------------------------------------------------
/// Operating systems the editor runs on.
pub enum OsKind {
    Mac,
    Linux,
    Windows,
}

/// Processor architectures.
pub enum ArchKind {
    Aarch64,
    X86,
    X8664,
}

/// The release target of a platform; `None` for one without a build.
pub open spec fn spec_release_target(os: OsKind, arch: ArchKind) -> Option<Seq<char>> {
    match (os, arch) {
        (OsKind::Mac, ArchKind::Aarch64) => Some("aarch64-apple-darwin"@),
        (OsKind::Mac, ArchKind::X8664) => Some("x86_64-apple-darwin"@),
        (OsKind::Linux, ArchKind::X8664) => Some("x86_64-unknown-linux-gnu"@),
        (OsKind::Windows, ArchKind::X8664) => Some("x86_64-pc-windows-msvc"@),
        _ => None,
    }
}

/// Where a release of the language server goes and how it is unpacked.
pub struct ReleasePlan {
    /// The name of the release asset to download.
    pub asset_name: String,
    /// The directory the release is unpacked into.
    pub version_dir: String,
    /// The path of the binary inside it.
    pub binary_path: String,
    /// A zip archive (Windows) rather than a gzipped tarball.
    pub zip: bool,
}

pub open spec fn is_windows(os: OsKind) -> bool {
    os is Windows
}

/// The version without a leading `lsp-`.
pub open spec fn release_version(tag: Seq<char>) -> Seq<char> {
    if starts_with(tag, "lsp-"@) {
        tag.skip(4)
    } else {
        tag
    }
}

/// The plan for fetching release `tag` on a platform; an error for a
/// platform without a build.
pub fn release_plan(os: OsKind, arch: ArchKind, tag: &str) -> (r: Result<ReleasePlan, String>)
    ensures
        spec_release_target(os, arch) is None ==> (r matches Err(e) && e@ == "unsupported platform"@),
        spec_release_target(os, arch) matches Some(target) ==> (r matches Ok(p) && {
            let ext = if is_windows(os) { "zip"@ } else { "tar.gz"@ };
            let dir = "rest-client-lsp-"@ + release_version(tag@);
            let bin = if is_windows(os) { "rest-client-lsp.exe"@ } else { "rest-client-lsp"@ };
            &&& p.asset_name@ == "rest-client-lsp-"@ + target + "."@ + ext
            &&& p.version_dir@ == dir
            &&& p.binary_path@ == dir + "/"@ + bin
            &&& p.zip == is_windows(os)
        }),
{
    let windows = match os {
        OsKind::Windows => true,
        _ => false,
    };
    let target = match (os, arch) {
        (OsKind::Mac, ArchKind::Aarch64) => "aarch64-apple-darwin",
        (OsKind::Mac, ArchKind::X8664) => "x86_64-apple-darwin",
        (OsKind::Linux, ArchKind::X8664) => "x86_64-unknown-linux-gnu",
        (OsKind::Windows, ArchKind::X8664) => "x86_64-pc-windows-msvc",
        _ => {
            return Err(string_of(&chars_of("unsupported platform")));
        },
    };
    let ext = if windows {
        "zip"
    } else {
        "tar.gz"
    };
    let mut asset = chars_of("rest-client-lsp-");
    push_str(&mut asset, target);
    push_str(&mut asset, ".");
    push_str(&mut asset, ext);
    proof {
        reveal_strlit("lsp-");
    }
    let t = chars_of(tag);
    let version = if starts_with_chars(&t, &chars_of("lsp-")) {
        slice_chars(&t, 4, t.len())
    } else {
        slice_chars(&t, 0, t.len())
    };
    assert(version@ =~= release_version(tag@));
    let mut dir = chars_of("rest-client-lsp-");
    append_vec(&mut dir, &version);
    let mut bin = dir.clone();
    push_str(&mut bin, "/");
    if windows {
        push_str(&mut bin, "rest-client-lsp.exe");
    } else {
        push_str(&mut bin, "rest-client-lsp");
    }
    Ok(ReleasePlan {
        asset_name: string_of(&asset),
        version_dir: string_of(&dir),
        binary_path: string_of(&bin),
        zip: windows,
    })
}

/// The position of the asset with the given name.
pub fn find_asset(names: &Vec<String>, asset_name: &str) -> (r: Result<usize, String>)
    ensures
        r matches Ok(i) ==> i < names@.len() && names@[i as int]@ == asset_name@ && forall|j: int|
            0 <= j < i ==> #[trigger] names@[j]@ != asset_name@,
        r is Err ==> forall|j: int| 0 <= j < names@.len() ==> #[trigger] names@[j]@ != asset_name@,
        r matches Err(e) ==> e@ == "no asset found: "@ + asset_name@,
{
    let a = chars_of(asset_name);
    let mut i: usize = 0;
    while i < names.len()
        invariant
            i <= names@.len(),
            a@ == asset_name@,
            forall|j: int| 0 <= j < i ==> #[trigger] names@[j]@ != asset_name@,
        decreases names.len() - i,
    {
        if chars_eq(&chars_of(names[i].as_str()), &a) {
            return Ok(i);
        }
        i += 1;
    }
    let mut e = chars_of("no asset found: ");
    append_vec(&mut e, &a);
    Err(string_of(&e))
}

} // verus!
