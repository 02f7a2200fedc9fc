//! Code snippets that send a request: cURL, Python `requests`, JavaScript
//! `fetch` and Go `net/http`.
use vstd::prelude::*;
use crate::curl::{spec_to_curl, to_curl};
use crate::json::{json_pretty, json_pretty_text, serde_json_accepts};
use crate::parser::{opt_view, pairs_view, ParsedRequest, RequestModel};
use crate::text::{
    append_vec, chars_eq, chars_of, contains, contains_chars, string_of, string_of_str,
    to_lowercase_chars, unicode_lowercase,
};
use crate::variables::{header_ci, header_ci_exec};

verus! {

// ---------------------------------------------------------------------------
// Model
// ---------------------------------------------------------------------------
/// Each `"` written as `\"`.
pub open spec fn escape_quotes(s: Seq<char>) -> Seq<char>
    decreases s.len(),
{
    if s.len() == 0 {
        seq![]
    } else {
        escape_quotes(s.drop_last()) + if s.last() == '"' {
            seq!['\\', '"']
        } else {
            seq![s.last()]
        }
    }
}

/// Each `\` written as `\\` and each `"` as `\"`.
pub open spec fn escape_backslashes_quotes(s: Seq<char>) -> Seq<char>
    decreases s.len(),
{
    if s.len() == 0 {
        seq![]
    } else {
        escape_backslashes_quotes(s.drop_last()) + if s.last() == '\\' {
            seq!['\\', '\\']
        } else if s.last() == '"' {
            seq!['\\', '"']
        } else {
            seq![s.last()]
        }
    }
}

/// One line per header: `pre`, the name, `mid`, the value, `post`.
pub open spec fn header_entries(
    hs: Seq<(Seq<char>, Seq<char>)>,
    pre: Seq<char>,
    mid: Seq<char>,
    post: Seq<char>,
) -> Seq<char>
    decreases hs.len(),
{
    if hs.len() == 0 {
        seq![]
    } else {
        header_entries(hs.drop_last(), pre, mid, post) + pre + hs.last().0 + mid + hs.last().1 + post
    }
}

/// The value of the first `Content-Type` header (any case), empty if none.
pub open spec fn content_type(r: RequestModel) -> Seq<char> {
    match header_ci(r.headers, "content-type"@) {
        Some(v) => v,
        None => seq![],
    }
}

/// Whether the body is sent as JSON.
pub open spec fn is_json_content(r: RequestModel) -> bool {
    contains(content_type(r), "json"@)
}

pub open spec fn opt_text(c: bool, t: Seq<char>) -> Seq<char> {
    if c {
        t
    } else {
        seq![]
    }
}

/// Python with `requests`. `json_text` is how a JSON body is written
/// (`None`: the body is not JSON and goes as a quoted string).
pub open spec fn python_code(r: RequestModel, json_text: Option<Seq<char>>) -> Seq<char> {
    "import requests\n\n"@ + "url = \""@ + r.url + "\"\n"@ + opt_text(
        r.headers.len() > 0,
        "headers = {\n"@ + header_entries(r.headers, "    \""@, "\": \""@, "\",\n"@) + "}\n"@,
    ) + match r.body {
        Some(b) => match json_text {
            Some(t) => "payload = "@ + t + "\n"@,
            None => "payload = \""@ + escape_quotes(b) + "\"\n"@,
        },
        None => seq![],
    } + "\nresponse = requests."@ + unicode_lowercase(r.method) + "(\n    url,\n"@ + opt_text(
        r.headers.len() > 0,
        "    headers=headers,\n"@,
    ) + opt_text(
        r.body is Some,
        if is_json_content(r) {
            "    json=payload,\n"@
        } else {
            "    data=payload,\n"@
        },
    ) + ")\n\nprint(response.status_code)\nprint(response.text)\n"@
}

/// JavaScript with `fetch`. `json_text` is how a JSON body with a JSON
/// content type is written (`None`: as an escaped string).
pub open spec fn javascript_code(r: RequestModel, json_text: Option<Seq<char>>) -> Seq<char> {
    opt_text(
        r.headers.len() > 0,
        "const headers = {\n"@ + header_entries(r.headers, "  \""@, "\": \""@, "\",\n"@) + "};\n\n"@,
    ) + "const response = await fetch(\""@ + r.url + "\", {\n"@ + "  method: \""@ + r.method
        + "\",\n"@ + opt_text(r.headers.len() > 0, "  headers,\n"@) + match r.body {
        Some(b) => if is_json_content(r) && json_text is Some {
            "  body: JSON.stringify("@ + json_text->0 + "),\n"@
        } else {
            "  body: \""@ + escape_backslashes_quotes(b) + "\",\n"@
        },
        None => seq![],
    } + "});\n\n"@ + "console.log(response.status);\n"@ + "console.log(await response.text());\n"@
}

/// A JavaScript snippet for a request with headers sends them: in the
/// options of the `fetch` call, right after the method, stands `headers,`.
pub proof fn lemma_javascript_sends_headers(r: RequestModel, json_text: Option<Seq<char>>)
    requires
        r.headers.len() > 0,
    ensures
        contains(javascript_code(r, json_text), "  method: \""@ + r.method + "\",\n  headers,\n"@),
{
    reveal_strlit("\",\n  headers,\n");
    reveal_strlit("\",\n");
    reveal_strlit("  headers,\n");
    let pat = "  method: \""@ + r.method + "\",\n  headers,\n"@;
    let pre = opt_text(
        r.headers.len() > 0,
        "const headers = {\n"@ + header_entries(r.headers, "  \""@, "\": \""@, "\",\n"@) + "};\n\n"@,
    ) + "const response = await fetch(\""@ + r.url + "\", {\n"@;
    let post = match r.body {
        Some(b) => if is_json_content(r) && json_text is Some {
            "  body: JSON.stringify("@ + json_text->0 + "),\n"@
        } else {
            "  body: \""@ + escape_backslashes_quotes(b) + "\",\n"@
        },
        None => seq![],
    } + "});\n\n"@ + "console.log(response.status);\n"@ + "console.log(await response.text());\n"@;
    assert("\",\n"@ + "  headers,\n"@ =~= "\",\n  headers,\n"@);
    assert(javascript_code(r, json_text) =~= pre + pat + post);
    crate::text::lemma_contains_middle(pre, pat, post);
}

/// Go with `net/http`.
pub open spec fn go_code(r: RequestModel) -> Seq<char> {
    "package main\n\nimport (\n\t\"fmt\"\n\t\"io\"\n\t\"net/http\"\n"@ + opt_text(
        r.body is Some,
        "\t\"strings\"\n"@,
    ) + ")\n\nfunc main() {\n"@ + match r.body {
        Some(b) => "\tbody := strings.NewReader(\""@ + escape_backslashes_quotes(b) + "\")\n"@
            + "\treq, err := http.NewRequest(\""@ + r.method + "\", \""@ + r.url + "\", body)\n"@,
        None => "\treq, err := http.NewRequest(\""@ + r.method + "\", \""@ + r.url + "\", nil)\n"@,
    } + "\tif err != nil {\n\t\tpanic(err)\n\t}\n\n"@ + header_entries(
        r.headers,
        "\treq.Header.Set(\""@,
        "\", \""@,
        "\")\n"@,
    )
        + "\n\tresp, err := http.DefaultClient.Do(req)\n\tif err != nil {\n\t\tpanic(err)\n\t}\n\tdefer resp.Body.Close()\n\n\tfmt.Println(resp.StatusCode)\n\tdata, _ := io.ReadAll(resp.Body)\n\tfmt.Println(string(data))\n}\n"@
}

/// The pretty-printed JSON of the body, where the body is JSON.
pub open spec fn body_json(r: RequestModel) -> Option<Seq<char>> {
    match r.body {
        Some(b) => json_pretty_text(b),
        None => None,
    }
}

/// The pretty-printed JSON of the body, where the body is JSON sent as
/// JSON.
pub open spec fn javascript_body_json(r: RequestModel) -> Option<Seq<char>> {
    if is_json_content(r) {
        body_json(r)
    } else {
        None
    }
}

// ---------------------------------------------------------------------------
// Building the text
// ---------------------------------------------------------------------------
pub(crate) fn push_str(out: &mut Vec<char>, s: &str)
    ensures
        final(out)@ == old(out)@ + s@,
{
    let v = chars_of(s);
    append_vec(out, &v);
}

fn push_escaped_quotes(out: &mut Vec<char>, s: &String)
    ensures
        final(out)@ == old(out)@ + escape_quotes(s@),
{
    let v = chars_of(s.as_str());
    let ghost start = out@;
    let mut i: usize = 0;
    assert(v@.take(0) =~= Seq::<char>::empty());
    assert(start + escape_quotes(Seq::<char>::empty()) =~= start);
    while i < v.len()
        invariant
            i <= v.len(),
            out@ == start + escape_quotes(v@.take(i as int)),
        decreases v.len() - i,
    {
        assert(v@.take(i + 1).drop_last() =~= v@.take(i as int));
        if v[i] == '"' {
            out.push('\\');
            out.push('"');
        } else {
            out.push(v[i]);
        }
        i += 1;
    }
    assert(v@.take(v.len() as int) =~= v@);
}

fn push_escaped_backslashes_quotes(out: &mut Vec<char>, s: &String)
    ensures
        final(out)@ == old(out)@ + escape_backslashes_quotes(s@),
{
    let v = chars_of(s.as_str());
    let ghost start = out@;
    let mut i: usize = 0;
    assert(v@.take(0) =~= Seq::<char>::empty());
    assert(start + escape_backslashes_quotes(Seq::<char>::empty()) =~= start);
    while i < v.len()
        invariant
            i <= v.len(),
            out@ == start + escape_backslashes_quotes(v@.take(i as int)),
        decreases v.len() - i,
    {
        assert(v@.take(i + 1).drop_last() =~= v@.take(i as int));
        if v[i] == '\\' {
            out.push('\\');
            out.push('\\');
        } else if v[i] == '"' {
            out.push('\\');
            out.push('"');
        } else {
            out.push(v[i]);
        }
        i += 1;
    }
    assert(v@.take(v.len() as int) =~= v@);
}

pub(crate) fn push_header_entries(out: &mut Vec<char>, hs: &Vec<(String, String)>, pre: &str, mid: &str, post: &str)
    ensures
        final(out)@ == old(out)@ + header_entries(pairs_view(hs@), pre@, mid@, post@),
{
    let ghost pv = pairs_view(hs@);
    let ghost start = out@;
    let mut k: usize = 0;
    assert(pv.take(0) =~= Seq::<(Seq<char>, Seq<char>)>::empty());
    assert(start + header_entries(pv.take(0), pre@, mid@, post@) =~= start);
    while k < hs.len()
        invariant
            k <= hs.len(),
            pv == pairs_view(hs@),
            out@ == start + header_entries(pv.take(k as int), pre@, mid@, post@),
        decreases hs.len() - k,
    {
        assert(pv.take(k + 1).drop_last() =~= pv.take(k as int));
        assert(pv[k as int] == (hs@[k as int].0@, hs@[k as int].1@));
        push_str(out, pre);
        push_str(out, hs[k].0.as_str());
        push_str(out, mid);
        push_str(out, hs[k].1.as_str());
        push_str(out, post);
        k += 1;
    }
    assert(pv.take(hs.len() as int) =~= pv);
}

fn is_json_content_exec(req: &ParsedRequest) -> (b: bool)
    ensures
        b == is_json_content(req@),
{
    proof {
        reveal_strlit("json");
    }
    let json = chars_of("json");
    match header_ci_exec(&req.headers, &chars_of("content-type")) {
        Some(v) => contains_chars(&v, &json),
        None => {
            assert(contains(Seq::<char>::empty(), "json"@) == false);
            false
        },
    }
}

/// The Python snippet, with a JSON body written as `json_text`.
pub fn render_python(req: &ParsedRequest, json_text: Option<String>) -> (r: String)
    ensures
        r@ == python_code(req@, opt_view(json_text)),
{
    let ghost m = req@;
    let ghost jt = opt_view(json_text);
    let mut out: Vec<char> = Vec::new();
    push_str(&mut out, "import requests\n\n");
    assert(out@ =~= "import requests\n\n"@);
    push_str(&mut out, "url = \"");
    push_str(&mut out, req.url.as_str());
    push_str(&mut out, "\"\n");
    let ghost p1 = out@;
    let has_headers = req.headers.len() > 0;
    if has_headers {
        push_str(&mut out, "headers = {\n");
        push_header_entries(&mut out, &req.headers, "    \"", "\": \"", "\",\n");
        push_str(&mut out, "}\n");
    }
    assert(out@ =~= p1 + opt_text(
        m.headers.len() > 0,
        "headers = {\n"@ + header_entries(m.headers, "    \""@, "\": \""@, "\",\n"@) + "}\n"@,
    ));
    let ghost p2 = out@;
    match &req.body {
        Some(b) => match &json_text {
            Some(t) => {
                push_str(&mut out, "payload = ");
                push_str(&mut out, t.as_str());
                push_str(&mut out, "\n");
            },
            None => {
                push_str(&mut out, "payload = \"");
                push_escaped_quotes(&mut out, b);
                push_str(&mut out, "\"\n");
            },
        },
        None => {},
    }
    assert(out@ =~= p2 + match m.body {
        Some(b) => match jt {
            Some(t) => "payload = "@ + t + "\n"@,
            None => "payload = \""@ + escape_quotes(b) + "\"\n"@,
        },
        None => seq![],
    });
    push_str(&mut out, "\nresponse = requests.");
    let method = to_lowercase_chars(&chars_of(req.method.as_str()));
    append_vec(&mut out, &method);
    push_str(&mut out, "(\n    url,\n");
    if has_headers {
        push_str(&mut out, "    headers=headers,\n");
    }
    let ghost p3 = out@;
    if req.body.is_some() {
        if is_json_content_exec(req) {
            push_str(&mut out, "    json=payload,\n");
        } else {
            push_str(&mut out, "    data=payload,\n");
        }
    }
    assert(out@ =~= p3 + opt_text(
        m.body is Some,
        if is_json_content(m) {
            "    json=payload,\n"@
        } else {
            "    data=payload,\n"@
        },
    ));
    push_str(&mut out, ")\n\nprint(response.status_code)\nprint(response.text)\n");
    assert(out@ =~= python_code(m, jt));
    string_of(&out)
}

/// The JavaScript snippet, with a JSON body written as `json_text`.
pub fn render_javascript(req: &ParsedRequest, json_text: Option<String>) -> (r: String)
    ensures
        r@ == javascript_code(req@, opt_view(json_text)),
{
    let ghost m = req@;
    let ghost jt = opt_view(json_text);
    let mut out: Vec<char> = Vec::new();
    let has_headers = req.headers.len() > 0;
    if has_headers {
        push_str(&mut out, "const headers = {\n");
        push_header_entries(&mut out, &req.headers, "  \"", "\": \"", "\",\n");
        push_str(&mut out, "};\n\n");
    }
    assert(out@ =~= opt_text(
        m.headers.len() > 0,
        "const headers = {\n"@ + header_entries(m.headers, "  \""@, "\": \""@, "\",\n"@) + "};\n\n"@,
    ));
    push_str(&mut out, "const response = await fetch(\"");
    push_str(&mut out, req.url.as_str());
    push_str(&mut out, "\", {\n");
    push_str(&mut out, "  method: \"");
    push_str(&mut out, req.method.as_str());
    push_str(&mut out, "\",\n");
    if has_headers {
        push_str(&mut out, "  headers,\n");
    }
    let ghost p2 = out@;
    match &req.body {
        Some(b) => {
            let json = is_json_content_exec(req);
            match &json_text {
                Some(t) => {
                    if json {
                        push_str(&mut out, "  body: JSON.stringify(");
                        push_str(&mut out, t.as_str());
                        push_str(&mut out, "),\n");
                    } else {
                        push_str(&mut out, "  body: \"");
                        push_escaped_backslashes_quotes(&mut out, b);
                        push_str(&mut out, "\",\n");
                    }
                },
                None => {
                    push_str(&mut out, "  body: \"");
                    push_escaped_backslashes_quotes(&mut out, b);
                    push_str(&mut out, "\",\n");
                },
            }
        },
        None => {},
    }
    assert(out@ =~= p2 + match m.body {
        Some(b) => if is_json_content(m) && jt is Some {
            "  body: JSON.stringify("@ + jt->0 + "),\n"@
        } else {
            "  body: \""@ + escape_backslashes_quotes(b) + "\",\n"@
        },
        None => seq![],
    });
    push_str(&mut out, "});\n\n");
    push_str(&mut out, "console.log(response.status);\n");
    push_str(&mut out, "console.log(await response.text());\n");
    assert(out@ =~= javascript_code(m, jt));
    string_of(&out)
}

/// The Go snippet.
pub fn generate_go(req: &ParsedRequest) -> (r: String)
    ensures
        r@ == go_code(req@),
{
    let ghost m = req@;
    let mut out: Vec<char> = Vec::new();
    push_str(&mut out, "package main\n\nimport (\n\t\"fmt\"\n\t\"io\"\n\t\"net/http\"\n");
    assert(out@ =~= "package main\n\nimport (\n\t\"fmt\"\n\t\"io\"\n\t\"net/http\"\n"@);
    let ghost p1 = out@;
    if req.body.is_some() {
        push_str(&mut out, "\t\"strings\"\n");
    }
    assert(out@ =~= p1 + opt_text(m.body is Some, "\t\"strings\"\n"@));
    push_str(&mut out, ")\n\nfunc main() {\n");
    let ghost p2 = out@;
    match &req.body {
        Some(b) => {
            push_str(&mut out, "\tbody := strings.NewReader(\"");
            push_escaped_backslashes_quotes(&mut out, b);
            push_str(&mut out, "\")\n");
            push_str(&mut out, "\treq, err := http.NewRequest(\"");
            push_str(&mut out, req.method.as_str());
            push_str(&mut out, "\", \"");
            push_str(&mut out, req.url.as_str());
            push_str(&mut out, "\", body)\n");
        },
        None => {
            push_str(&mut out, "\treq, err := http.NewRequest(\"");
            push_str(&mut out, req.method.as_str());
            push_str(&mut out, "\", \"");
            push_str(&mut out, req.url.as_str());
            push_str(&mut out, "\", nil)\n");
        },
    }
    assert(out@ =~= p2 + match m.body {
        Some(b) => "\tbody := strings.NewReader(\""@ + escape_backslashes_quotes(b) + "\")\n"@
            + "\treq, err := http.NewRequest(\""@ + m.method + "\", \""@ + m.url + "\", body)\n"@,
        None => "\treq, err := http.NewRequest(\""@ + m.method + "\", \""@ + m.url + "\", nil)\n"@,
    });
    push_str(&mut out, "\tif err != nil {\n\t\tpanic(err)\n\t}\n\n");
    push_header_entries(&mut out, &req.headers, "\treq.Header.Set(\"", "\", \"", "\")\n");
    push_str(
        &mut out,
        "\n\tresp, err := http.DefaultClient.Do(req)\n\tif err != nil {\n\t\tpanic(err)\n\t}\n\tdefer resp.Body.Close()\n\n\tfmt.Println(resp.StatusCode)\n\tdata, _ := io.ReadAll(resp.Body)\n\tfmt.Println(string(data))\n}\n",
    );
    assert(out@ =~= go_code(m));
    string_of(&out)
}

/// The body as formatted JSON, where it is JSON.
fn formatted_json(body: &String) -> (r: Option<String>)
    ensures
        opt_view(r) == json_pretty_text(body@),
        r is Some <==> serde_json_accepts(body@),
{
    json_pretty(body.as_str())
}

/// The Python snippet; a JSON body is written as pretty-printed JSON.
pub fn generate_python(req: &ParsedRequest) -> (r: String)
    ensures
        r@ == python_code(req@, body_json(req@)),
{
    let json_text = match &req.body {
        Some(b) => formatted_json(b),
        None => None,
    };
    render_python(req, json_text)
}

/// The JavaScript snippet; a JSON body sent as JSON is written as
/// pretty-printed JSON.
pub fn generate_javascript(req: &ParsedRequest) -> (r: String)
    ensures
        r@ == javascript_code(req@, javascript_body_json(req@)),
{
    let json_text = match &req.body {
        Some(b) => if is_json_content_exec(req) {
            formatted_json(b)
        } else {
            None
        },
        None => None,
    };
    render_javascript(req, json_text)
}

/// The message for a language with no generator.
pub open spec fn unsupported_message(language: Seq<char>) -> Seq<char> {
    "unsupported language: "@ + language + ". Options: curl, python, javascript, go"@
}

/// A snippet in the given language (`curl`, `python`, `javascript` or `js`,
/// `go`); an error naming the options for any other.
pub fn generate(request: &ParsedRequest, language: &str) -> (r: Result<String, String>)
    ensures
        language@ == "curl"@ ==> (r matches Ok(s) && s@ == spec_to_curl(request@)),
        language@ == "python"@ ==> (r matches Ok(s) && s@ == python_code(
            request@,
            body_json(request@),
        )),
        (language@ == "javascript"@ || language@ == "js"@) ==> (r matches Ok(s) && s@
            == javascript_code(request@, javascript_body_json(request@))),
        language@ == "go"@ ==> (r matches Ok(s) && s@ == go_code(request@)),
        !(language@ == "curl"@ || language@ == "python"@ || language@ == "javascript"@
            || language@ == "js"@ || language@ == "go"@) ==> (r matches Err(e) && e@
            == unsupported_message(language@)),
{
    proof {
        reveal_strlit("curl");
        reveal_strlit("python");
        reveal_strlit("javascript");
        reveal_strlit("js");
        reveal_strlit("go");
        assert("curl"@.len() == 4 && "python"@.len() == 6 && "javascript"@.len() == 10);
        assert("js"@[0] == 'j' && "go"@[0] == 'g');
    }
    let l = chars_of(language);
    if chars_eq(&l, &chars_of("curl")) {
        Ok(to_curl(request))
    } else if chars_eq(&l, &chars_of("python")) {
        Ok(generate_python(request))
    } else if chars_eq(&l, &chars_of("javascript")) || chars_eq(&l, &chars_of("js")) {
        Ok(generate_javascript(request))
    } else if chars_eq(&l, &chars_of("go")) {
        Ok(generate_go(request))
    } else {
        let mut out = chars_of("unsupported language: ");
        append_vec(&mut out, &l);
        push_str(&mut out, ". Options: curl, python, javascript, go");
        Err(string_of(&out))
    }
}

/// The languages `generate` accepts, in order.
pub fn supported_languages() -> (r: &'static [&'static str])
    ensures
        r@.len() == 4,
        r@[0]@ == "curl"@,
        r@[1]@ == "python"@,
        r@[2]@ == "javascript"@,
        r@[3]@ == "go"@,
{
    let r: &'static [&'static str] = &["curl", "python", "javascript", "go"];
    r
}

} // verus!
