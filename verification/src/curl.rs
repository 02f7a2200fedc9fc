//! Conversion between requests and cURL command lines.
use vstd::prelude::*;
use vstd::utf8::encode_utf8;
use crate::auth::{base64, base64_encode};
use crate::json::{json_pretty, json_pretty_text, serde_json_accepts};
use crate::parser::{opt_view, ParsedRequest, RequestModel};
use crate::text::{
    append_vec, chars_eq, chars_of, find, find_chars, is_whitespace, is_ws, join, join_from,
    lemma_find, lemma_trim_start_shape, slice_chars, starts_with, starts_with_chars, string_of,
    string_of_str, to_lowercase_chars, to_uppercase_chars, trim_start, trim_start_chars,
    unicode_lowercase, unicode_uppercase,
};

verus! {

// ---------------------------------------------------------------------------
// Request to cURL
// ---------------------------------------------------------------------------
/// Each `'` written as `'\''`, so the text can stand between single quotes
/// in a shell.
pub open spec fn escape_single_quotes(s: Seq<char>) -> Seq<char>
    decreases s.len(),
{
    if s.len() == 0 {
        seq![]
    } else {
        escape_single_quotes(s.drop_last()) + if s.last() == '\'' {
            "'\\''"@
        } else {
            seq![s.last()]
        }
    }
}

pub open spec fn curl_header_part(h: (Seq<char>, Seq<char>)) -> Seq<char> {
    "  -H '"@ + h.0 + ": "@ + h.1 + "'"@
}

/// The pieces of the command: `curl -X METHOD`, one `-H` per header, `-d`
/// with the body if there is one, and the URL.
pub open spec fn curl_parts(r: RequestModel) -> Seq<Seq<char>> {
    seq!["curl -X "@ + r.method] + r.headers.map_values(|h: (Seq<char>, Seq<char>)| curl_header_part(h))
        + match r.body {
        Some(b) => seq!["  -d '"@ + escape_single_quotes(b) + "'"@],
        None => seq![],
    } + seq!["  '"@ + r.url + "'"@]
}

/// The pieces joined by a backslash and a line break.
pub open spec fn spec_to_curl(r: RequestModel) -> Seq<char> {
    join(curl_parts(r), " \\\n"@)
}

fn concat3(a: &str, b: &Vec<char>, c: &str) -> (r: Vec<char>)
    ensures
        r@ == a@ + b@ + c@,
{
    let mut r = chars_of(a);
    append_vec(&mut r, b);
    let cv = chars_of(c);
    append_vec(&mut r, &cv);
    r
}

pub fn escape_single_quotes_chars(s: &Vec<char>) -> (r: Vec<char>)
    ensures
        r@ == escape_single_quotes(s@),
{
    proof {
        reveal_strlit("'\\''");
    }
    let esc = chars_of("'\\''");
    let mut r: Vec<char> = Vec::new();
    let mut i: usize = 0;
    assert(s@.take(0) =~= Seq::<char>::empty());
    while i < s.len()
        invariant
            i <= s.len(),
            esc@ == "'\\''"@,
            r@ == escape_single_quotes(s@.take(i as int)),
        decreases s.len() - i,
    {
        assert(s@.take(i + 1).drop_last() =~= s@.take(i as int));
        if s[i] == '\'' {
            append_vec(&mut r, &esc);
        } else {
            r.push(s[i]);
        }
        i += 1;
    }
    assert(s@.take(s.len() as int) =~= s@);
    r
}

fn push_piece(parts: &mut Vec<Vec<char>>, piece: Vec<char>)
    ensures
        final(parts).deep_view() == old(parts).deep_view().push(piece@),
{
    assert(piece.deep_view() =~= piece@);
    parts.push(piece);
    assert(parts.deep_view() =~= old(parts).deep_view().push(piece@));
}

/// The request as a cURL command line.
pub fn to_curl(request: &ParsedRequest) -> (r: String)
    ensures
        r@ == spec_to_curl(request@),
{
    let ghost model = request@;
    let mut parts: Vec<Vec<char>> = Vec::new();
    let method = chars_of(request.method.as_str());
    proof {
        reveal_strlit("");
    }
    push_piece(&mut parts, concat3("curl -X ", &method, ""));
    assert(parts.deep_view() =~= seq!["curl -X "@ + model.method]);
    let mut i: usize = 0;
    while i < request.headers.len()
        invariant
            model == request@,
            i <= request.headers.len(),
            parts.deep_view() == seq!["curl -X "@ + model.method] + model.headers.take(
                i as int,
            ).map_values(|h: (Seq<char>, Seq<char>)| curl_header_part(h)),
        decreases request.headers.len() - i,
    {
        let name = chars_of(request.headers[i].0.as_str());
        let value = chars_of(request.headers[i].1.as_str());
        let mut piece = concat3("  -H '", &name, ": ");
        let tail = concat3("", &value, "'");
        append_vec(&mut piece, &tail);
        let ghost pv = piece@;
        proof {
            reveal_strlit("");
        }
        let ghost before = parts.deep_view();
        push_piece(&mut parts, piece);
        proof {
            assert(model.headers[i as int] == (name@, value@));
            assert(model.headers.take(i + 1) =~= model.headers.take(i as int).push(
                model.headers[i as int],
            ));
            assert(pv =~= curl_header_part(model.headers[i as int]));
        }
        i += 1;
    }
    assert(model.headers.take(request.headers.len() as int) =~= model.headers);
    let ghost with_headers = parts.deep_view();
    match &request.body {
        Some(b) => {
            let bc = chars_of(b.as_str());
            let esc = escape_single_quotes_chars(&bc);
            push_piece(&mut parts, concat3("  -d '", &esc, "'"));
            assert(parts.deep_view() =~= with_headers + seq!["  -d '"@ + escape_single_quotes(b@) + "'"@]);
        },
        None => {
            assert(parts.deep_view() =~= with_headers + Seq::<Seq<char>>::empty());
        },
    }
    let ghost with_body = parts.deep_view();
    let url = chars_of(request.url.as_str());
    push_piece(&mut parts, concat3("  '", &url, "'"));
    assert(parts.deep_view() =~= with_body + seq!["  '"@ + model.url + "'"@]);
    assert(parts.deep_view() =~= curl_parts(model));
    let sep = chars_of(" \\\n");
    let joined = join_from(&parts, 0, &sep);
    assert(parts.deep_view().subrange(0, parts.len() as int) =~= parts.deep_view());
    string_of(&joined)
}

// ---------------------------------------------------------------------------
// Tokenizing a cURL command line
// ---------------------------------------------------------------------------
/// `str::replace`: every non-overlapping occurrence of `pat`, from the left,
/// replaced by `with`.
pub open spec fn replace_all(s: Seq<char>, pat: Seq<char>, with: Seq<char>) -> Seq<char>
    decreases s.len(),
{
    if pat.len() == 0 {
        s
    } else {
        match find(s, pat) {
            Some(k) => if 0 <= k && k + pat.len() <= s.len() {
                s.take(k) + with + replace_all(s.skip(k + pat.len()), pat, with)
            } else {
                s
            },
            None => s,
        }
    }
}

fn replace_all_chars(s: &Vec<char>, pat: &Vec<char>, with: &Vec<char>) -> (r: Vec<char>)
    requires
        pat.len() > 0,
    ensures
        r@ == replace_all(s@, pat@, with@),
{
    let mut out: Vec<char> = Vec::new();
    let mut rest = slice_chars(s, 0, s.len());
    assert(rest@ =~= s@);
    assert(Seq::<char>::empty() + replace_all(s@, pat@, with@) =~= replace_all(
        s@,
        pat@,
        with@,
    ));
    loop
        invariant
            pat.len() > 0,
            out@ + replace_all(rest@, pat@, with@) == replace_all(s@, pat@, with@),
        decreases rest.len(),
    {
        proof {
            lemma_find(rest@, pat@);
        }
        match find_chars(&rest, pat) {
            Some(k) => {
                let ghost before = out@;
                let head = slice_chars(&rest, 0, k);
                append_vec(&mut out, &head);
                append_vec(&mut out, with);
                let next = slice_chars(&rest, k + pat.len(), rest.len());
                assert(head@ =~= rest@.take(k as int));
                assert(next@ =~= rest@.skip(k + pat.len()));
                assert(out@ + replace_all(next@, pat@, with@) =~= before + replace_all(
                    rest@,
                    pat@,
                    with@,
                ));
                rest = next;
            },
            None => {
                append_vec(&mut out, &rest);
                return out;
            },
        }
    }
}

/// A single-quoted token (the text after the opening quote): everything up
/// to the closing quote, and what follows it.
pub open spec fn single_quoted(s: Seq<char>) -> (Seq<char>, Seq<char>)
    decreases s.len(),
{
    if s.len() == 0 {
        (seq![], seq![])
    } else if s[0] == '\'' {
        (seq![], s.drop_first())
    } else {
        let (t, r) = single_quoted(s.drop_first());
        (seq![s[0]] + t, r)
    }
}

/// A double-quoted token (the text after the opening quote): up to the
/// closing quote, a backslash taking the next character literally.
pub open spec fn double_quoted(s: Seq<char>) -> (Seq<char>, Seq<char>)
    decreases s.len(),
{
    if s.len() == 0 {
        (seq![], seq![])
    } else if s[0] == '"' {
        (seq![], s.drop_first())
    } else if s[0] == '\\' && s.len() > 1 {
        let (t, r) = double_quoted(s.skip(2));
        (seq![s[1]] + t, r)
    } else {
        let (t, r) = double_quoted(s.drop_first());
        (seq![s[0]] + t, r)
    }
}

/// An unquoted token: up to the next whitespace.
pub open spec fn unquoted(s: Seq<char>) -> (Seq<char>, Seq<char>)
    decreases s.len(),
{
    if s.len() > 0 && !is_ws(s[0]) {
        let (t, r) = unquoted(s.drop_first());
        (seq![s[0]] + t, r)
    } else {
        (seq![], s)
    }
}

pub proof fn lemma_single_quoted_rest(s: Seq<char>)
    ensures
        single_quoted(s).1.len() <= s.len(),
    decreases s.len(),
{
    if s.len() > 0 && s[0] != '\'' {
        lemma_single_quoted_rest(s.drop_first());
    }
}

pub proof fn lemma_double_quoted_rest(s: Seq<char>)
    ensures
        double_quoted(s).1.len() <= s.len(),
    decreases s.len(),
{
    if s.len() > 0 && s[0] != '"' {
        if s[0] == '\\' && s.len() > 1 {
            lemma_double_quoted_rest(s.skip(2));
        } else {
            lemma_double_quoted_rest(s.drop_first());
        }
    }
}

pub proof fn lemma_unquoted_rest(s: Seq<char>)
    ensures
        unquoted(s).1.len() <= s.len(),
        s.len() > 0 && !is_ws(s[0]) ==> unquoted(s).1.len() < s.len(),
    decreases s.len(),
{
    if s.len() > 0 && !is_ws(s[0]) {
        lemma_unquoted_rest(s.drop_first());
    }
}

/// The next token of a command line and what follows it, for a text that
/// starts with a non-whitespace character.
pub open spec fn next_token(s: Seq<char>) -> (Seq<char>, Seq<char>) {
    if s.len() > 0 && s[0] == '\'' {
        single_quoted(s.drop_first())
    } else if s.len() > 0 && s[0] == '"' {
        double_quoted(s.drop_first())
    } else {
        unquoted(s)
    }
}

pub proof fn lemma_next_token_rest(s: Seq<char>)
    requires
        s.len() > 0,
        !is_ws(s[0]),
    ensures
        next_token(s).1.len() < s.len(),
{
    lemma_single_quoted_rest(s.drop_first());
    lemma_double_quoted_rest(s.drop_first());
    lemma_unquoted_rest(s);
}

/// The tokens of a command line: whitespace-separated words, single- or
/// double-quoted text counting as one word; empty tokens are dropped.
pub open spec fn curl_tokens(s: Seq<char>) -> Seq<Seq<char>>
    decreases s.len(),
{
    let s1 = trim_start(s);
    if s1.len() == 0 {
        seq![]
    } else {
        let (t, r) = next_token(s1);
        proof {
            lemma_trim_start_shape(s);
            lemma_trim_start_first(s);
            lemma_next_token_rest(s1);
        }
        if t.len() > 0 {
            seq![t] + curl_tokens(r)
        } else {
            curl_tokens(r)
        }
    }
}

pub proof fn lemma_trim_start_first(s: Seq<char>)
    ensures
        trim_start(s).len() > 0 ==> !is_ws(trim_start(s)[0]),
    decreases s.len(),
{
    if s.len() > 0 && is_ws(s[0]) {
        lemma_trim_start_first(s.drop_first());
    }
}

/// Line continuations (a backslash before `\n` or `\r\n`) become spaces.
pub open spec fn normalize_continuations(s: Seq<char>) -> Seq<char> {
    replace_all(replace_all(s, "\\\n"@, " "@), "\\\r\n"@, " "@)
}

fn read_single_quoted(cs: &Vec<char>, i: usize) -> (r: (Vec<char>, usize))
    requires
        i <= cs.len(),
    ensures
        r.1 <= cs.len(),
        (r.0@, cs@.skip(r.1 as int)) == single_quoted(cs@.skip(i as int)),
{
    let mut tok: Vec<char> = Vec::new();
    let mut j = i;
    assert(seq![] + single_quoted(cs@.skip(i as int)).0 =~= single_quoted(cs@.skip(i as int)).0);
    loop
        invariant
            i <= j <= cs.len(),
            tok@ + single_quoted(cs@.skip(j as int)).0 == single_quoted(cs@.skip(i as int)).0,
            single_quoted(cs@.skip(j as int)).1 == single_quoted(cs@.skip(i as int)).1,
        decreases cs.len() - j,
    {
        if j == cs.len() {
            assert(cs@.skip(j as int) =~= Seq::<char>::empty());
            assert(tok@ + Seq::<char>::empty() =~= tok@);
            return (tok, j);
        }
        assert(cs@.skip(j as int)[0] == cs@[j as int]);
        assert(cs@.skip(j as int).drop_first() =~= cs@.skip(j + 1));
        if cs[j] == '\'' {
            assert(tok@ + Seq::<char>::empty() =~= tok@);
            return (tok, j + 1);
        }
        let ghost before = tok@;
        tok.push(cs[j]);
        assert(before + single_quoted(cs@.skip(j as int)).0 =~= tok@ + single_quoted(
            cs@.skip(j + 1),
        ).0);
        j += 1;
    }
}

fn read_double_quoted(cs: &Vec<char>, i: usize) -> (r: (Vec<char>, usize))
    requires
        i <= cs.len(),
    ensures
        r.1 <= cs.len(),
        (r.0@, cs@.skip(r.1 as int)) == double_quoted(cs@.skip(i as int)),
{
    let mut tok: Vec<char> = Vec::new();
    let mut j = i;
    assert(seq![] + double_quoted(cs@.skip(i as int)).0 =~= double_quoted(cs@.skip(i as int)).0);
    loop
        invariant
            i <= j <= cs.len(),
            tok@ + double_quoted(cs@.skip(j as int)).0 == double_quoted(cs@.skip(i as int)).0,
            double_quoted(cs@.skip(j as int)).1 == double_quoted(cs@.skip(i as int)).1,
        decreases cs.len() - j,
    {
        if j == cs.len() {
            assert(cs@.skip(j as int) =~= Seq::<char>::empty());
            assert(tok@ + Seq::<char>::empty() =~= tok@);
            return (tok, j);
        }
        assert(cs@.skip(j as int)[0] == cs@[j as int]);
        assert(cs@.skip(j as int).drop_first() =~= cs@.skip(j + 1));
        if cs[j] == '"' {
            assert(tok@ + Seq::<char>::empty() =~= tok@);
            return (tok, j + 1);
        }
        let ghost before = tok@;
        if cs[j] == '\\' && j + 1 < cs.len() {
            assert(cs@.skip(j as int).skip(2) =~= cs@.skip(j + 2));
            assert(cs@.skip(j as int)[1] == cs@[j + 1]);
            tok.push(cs[j + 1]);
            assert(before + double_quoted(cs@.skip(j as int)).0 =~= tok@ + double_quoted(
                cs@.skip(j + 2),
            ).0);
            j += 2;
        } else {
            tok.push(cs[j]);
            assert(before + double_quoted(cs@.skip(j as int)).0 =~= tok@ + double_quoted(
                cs@.skip(j + 1),
            ).0);
            j += 1;
        }
    }
}

fn read_unquoted(cs: &Vec<char>, i: usize) -> (r: (Vec<char>, usize))
    requires
        i <= cs.len(),
    ensures
        r.1 <= cs.len(),
        (r.0@, cs@.skip(r.1 as int)) == unquoted(cs@.skip(i as int)),
{
    let mut tok: Vec<char> = Vec::new();
    let mut j = i;
    assert(seq![] + unquoted(cs@.skip(i as int)).0 =~= unquoted(cs@.skip(i as int)).0);
    loop
        invariant
            i <= j <= cs.len(),
            tok@ + unquoted(cs@.skip(j as int)).0 == unquoted(cs@.skip(i as int)).0,
            unquoted(cs@.skip(j as int)).1 == unquoted(cs@.skip(i as int)).1,
        decreases cs.len() - j,
    {
        if j == cs.len() || is_whitespace(cs[j]) {
            if j < cs.len() {
                assert(cs@.skip(j as int)[0] == cs@[j as int]);
            }
            assert(tok@ + Seq::<char>::empty() =~= tok@);
            return (tok, j);
        }
        assert(cs@.skip(j as int)[0] == cs@[j as int]);
        assert(cs@.skip(j as int).drop_first() =~= cs@.skip(j + 1));
        let ghost before = tok@;
        tok.push(cs[j]);
        assert(before + unquoted(cs@.skip(j as int)).0 =~= tok@ + unquoted(cs@.skip(j + 1)).0);
        j += 1;
    }
}

/// Splits a cURL command line into its tokens, after joining continued
/// lines.
pub fn tokenize_curl(input: &str) -> (r: Result<Vec<String>, String>)
    ensures
        r matches Ok(ts) && ts@.map_values(|t: String| t@) == curl_tokens(
            normalize_continuations(input@),
        ),
{
    proof {
        reveal_strlit("\\\n");
        reveal_strlit("\\\r\n");
        reveal_strlit(" ");
    }
    let raw = chars_of(input);
    let space = chars_of(" ");
    let once = replace_all_chars(&raw, &chars_of("\\\n"), &space);
    let cs = replace_all_chars(&once, &chars_of("\\\r\n"), &space);
    let ghost all = cs@;
    let mut tokens: Vec<String> = Vec::new();
    let mut i: usize = 0;
    assert(cs@.skip(0) =~= cs@);
    assert(Seq::<Seq<char>>::empty() + curl_tokens(all) =~= curl_tokens(all));
    while i < cs.len()
        invariant
            all == cs@,
            i <= cs.len(),
            tokens@.map_values(|t: String| t@) + curl_tokens(cs@.skip(i as int)) == curl_tokens(all),
        decreases cs.len() - i,
    {
        let ghost s = cs@.skip(i as int);
        let rest = slice_chars(&cs, i, cs.len());
        assert(rest@ =~= s);
        let trimmed = trim_start_chars(&rest);
        proof {
            lemma_trim_start_shape(s);
            lemma_trim_start_first(s);
        }
        let start = i + (rest.len() - trimmed.len());
        assert(cs@.skip(start as int) =~= trim_start(s));
        if start == cs.len() {
            assert(curl_tokens(s) =~= Seq::<Seq<char>>::empty());
            i = start;
            assert(cs@.skip(i as int) =~= Seq::<char>::empty());
            assert(curl_tokens(cs@.skip(i as int)) =~= Seq::<Seq<char>>::empty());
            assert(tokens@.map_values(|t: String| t@) + Seq::<Seq<char>>::empty() =~= tokens@.map_values(|t: String| t@));
        } else {
        let ghost s1 = trim_start(s);
        assert(s1[0] == cs@[start as int]);
        let (tok, next) = if cs[start] == '\'' {
            assert(s1.drop_first() =~= cs@.skip(start + 1));
            read_single_quoted(&cs, start + 1)
        } else if cs[start] == '"' {
            assert(s1.drop_first() =~= cs@.skip(start + 1));
            read_double_quoted(&cs, start + 1)
        } else {
            read_unquoted(&cs, start)
        };
        assert((tok@, cs@.skip(next as int)) == next_token(s1));
        proof {
            lemma_next_token_rest(s1);
        }
        let ghost before = tokens@.map_values(|t: String| t@);
        if tok.len() > 0 {
            tokens.push(string_of(&tok));
            assert(tokens@.map_values(|t: String| t@) =~= before.push(tok@));
            assert(before.push(tok@) + curl_tokens(cs@.skip(next as int)) =~= before + curl_tokens(s));
        } else {
            assert(tokens@.map_values(|t: String| t@) =~= before);
        }
        i = next;
        }
    }
    Ok(tokens)
}


// ---------------------------------------------------------------------------
// cURL to request
// ---------------------------------------------------------------------------
/// What a cURL command line says of a request.
pub struct CurlCommand {
    pub method: Option<String>,
    pub url: Option<String>,
    pub headers: Vec<String>,
    pub body: Option<String>,
}

pub ghost struct CurlModel {
    pub method: Option<Seq<char>>,
    pub url: Option<Seq<char>>,
    pub headers: Seq<Seq<char>>,
    pub body: Option<Seq<char>>,
}

impl View for CurlCommand {
    type V = CurlModel;

    open spec fn view(&self) -> CurlModel {
        CurlModel {
            method: opt_view(self.method),
            url: opt_view(self.url),
            headers: self.headers@.map_values(|h: String| h@),
            body: opt_view(self.body),
        }
    }
}

/// Whether a header line already sets the content type (any case).
pub open spec fn has_content_type(hs: Seq<Seq<char>>) -> bool {
    exists|k: int| 0 <= k < hs.len() && starts_with(#[trigger] unicode_lowercase(hs[k]), "content-type:"@)
}

/// The effect of the token at `i`, and the position of the last token it
/// used (an option and its value use two).
pub open spec fn curl_step(ts: Seq<Seq<char>>, i: int, m: CurlModel) -> (CurlModel, int) {
    let t = ts[i];
    let has_arg = i + 1 < ts.len();
    let arg = ts[i + 1];
    if t == "curl"@ {
        (m, i)
    } else if t == "-X"@ || t == "--request"@ {
        (if has_arg { CurlModel { method: Some(unicode_uppercase(arg)), ..m } } else { m }, i + 1)
    } else if t == "-H"@ || t == "--header"@ {
        (if has_arg { CurlModel { headers: m.headers.push(arg), ..m } } else { m }, i + 1)
    } else if t == "-d"@ || t == "--data"@ || t == "--data-raw"@ || t == "--data-binary"@ {
        (if has_arg { CurlModel { body: Some(arg), ..m } } else { m }, i + 1)
    } else if t == "--data-urlencode"@ {
        (
            if has_arg {
                CurlModel {
                    body: Some(arg),
                    headers: if has_content_type(m.headers) {
                        m.headers
                    } else {
                        m.headers.push("Content-Type: application/x-www-form-urlencoded"@)
                    },
                    ..m
                }
            } else {
                m
            },
            i + 1,
        )
    } else if t == "-u"@ || t == "--user"@ {
        (
            if has_arg {
                CurlModel {
                    headers: m.headers.push("Authorization: Basic "@ + base64(encode_utf8(arg))),
                    ..m
                }
            } else {
                m
            },
            i + 1,
        )
    } else if t == "-A"@ || t == "--user-agent"@ {
        (if has_arg { CurlModel { headers: m.headers.push("User-Agent: "@ + arg), ..m } } else { m }, i + 1)
    } else if t == "-o"@ || t == "--output"@ || t == "-w"@ || t == "--write-out"@ || t
        == "--connect-timeout"@ || t == "-m"@ || t == "--max-time"@ {
        (m, i + 1)
    } else if !(t.len() > 0 && t[0] == '-') && m.url is None {
        (CurlModel { url: Some(t), ..m }, i)
    } else {
        (m, i)
    }
}

/// The tokens from position `i` on, applied to `m` in order.
pub open spec fn interpret_from(ts: Seq<Seq<char>>, i: int, m: CurlModel) -> CurlModel
    decreases ts.len() - i,
{
    if i < 0 || i >= ts.len() {
        m
    } else {
        let (m2, j) = curl_step(ts, i, m);
        if i <= j && j + 1 < ts.len() {
            interpret_from(ts, j + 1, m2)
        } else {
            m2
        }
    }
}

pub open spec fn empty_curl_model() -> CurlModel {
    CurlModel { method: None, url: None, headers: seq![], body: None }
}

/// What a cURL command line says of a request.
pub open spec fn spec_curl_command(cmd: Seq<char>) -> CurlModel {
    interpret_from(curl_tokens(normalize_continuations(cmd)), 0, empty_curl_model())
}

/// The method: the one given, else `POST` with a body and `GET` without.
pub open spec fn curl_method(m: CurlModel) -> Seq<char> {
    match m.method {
        Some(x) => x,
        None => if m.body is Some {
            "POST"@
        } else {
            "GET"@
        },
    }
}

pub open spec fn header_block(hs: Seq<Seq<char>>) -> Seq<char>
    decreases hs.len(),
{
    if hs.len() == 0 {
        seq![]
    } else {
        header_block(hs.drop_last()) + hs.last() + "\n"@
    }
}

/// The request in `.http` form: request line with `HTTP/1.1`, one line
/// per header, and the body text after a blank line.
pub open spec fn http_text(m: CurlModel, url: Seq<char>, body_text: Option<Seq<char>>) -> Seq<char> {
    curl_method(m) + " "@ + url + " HTTP/1.1\n"@ + header_block(m.headers) + match body_text {
        Some(b) => "\n"@ + b + "\n"@,
        None => seq![],
    }
}

/// The text the body is written as: the formatted text where there is one.
pub open spec fn body_text(m: CurlModel, formatted: Option<Seq<char>>) -> Option<Seq<char>> {
    match m.body {
        Some(b) => match formatted {
            Some(p) => Some(p),
            None => Some(b),
        },
        None => None,
    }
}

/// The pretty-printed text of the body, where the body is JSON.
pub open spec fn json_formatted_body(m: CurlModel) -> Option<Seq<char>> {
    match m.body {
        Some(b) => json_pretty_text(b),
        None => None,
    }
}

fn is_token(t: &Vec<char>, lit: &str) -> (b: bool)
    ensures
        b == (t@ == lit@),
{
    chars_eq(t, &chars_of(lit))
}

fn has_content_type_exec(hs: &Vec<String>) -> (b: bool)
    ensures
        b == has_content_type(hs@.map_values(|h: String| h@)),
{
    let ghost v = hs@.map_values(|h: String| h@);
    proof {
        reveal_strlit("content-type:");
    }
    let prefix = chars_of("content-type:");
    let mut k: usize = 0;
    while k < hs.len()
        invariant
            k <= hs.len(),
            v == hs@.map_values(|h: String| h@),
            prefix@ == "content-type:"@,
            forall|j: int| 0 <= j < k ==> !starts_with(#[trigger] unicode_lowercase(v[j]), "content-type:"@),
        decreases hs.len() - k,
    {
        let lower = to_lowercase_chars(&chars_of(hs[k].as_str()));
        if starts_with_chars(&lower, &prefix) {
            assert(v[k as int] == hs@[k as int]@);
            return true;
        }
        assert(v[k as int] == hs@[k as int]@);
        k += 1;
    }
    false
}

fn push_header(m: &mut CurlCommand, h: Vec<char>)
    ensures
        final(m)@ == (CurlModel { headers: old(m)@.headers.push(h@), ..old(m)@ }),
{
    let s = string_of(&h);
    m.headers.push(s);
    assert(m.headers@.map_values(|x: String| x@) =~= old(m)@.headers.push(h@));
}

fn with_prefix(prefix: &str, v: &Vec<char>) -> (r: Vec<char>)
    ensures
        r@ == prefix@ + v@,
{
    let mut r = chars_of(prefix);
    append_vec(&mut r, v);
    r
}

/// Applies the tokens of a command line in order.
pub fn interpret_tokens(ts: &Vec<String>) -> (m: CurlCommand)
    ensures
        m@ == interpret_from(ts@.map_values(|t: String| t@), 0, empty_curl_model()),
{
    let ghost tv = ts@.map_values(|t: String| t@);
    let mut m = CurlCommand { method: None, url: None, headers: Vec::new(), body: None };
    assert(m@.headers =~= Seq::<Seq<char>>::empty());
    assert(m@ == empty_curl_model());
    let mut i: usize = 0;
    while i < ts.len()
        invariant
            tv == ts@.map_values(|t: String| t@),
            i <= ts.len(),
            interpret_from(tv, i as int, m@) == interpret_from(tv, 0, empty_curl_model()),
        decreases ts.len() - i,
    {
        proof {
            reveal_strlit("curl");
            reveal_strlit("-X");
            reveal_strlit("--request");
            reveal_strlit("-H");
            reveal_strlit("--header");
            reveal_strlit("-d");
            reveal_strlit("--data");
            reveal_strlit("--data-raw");
            reveal_strlit("--data-binary");
            reveal_strlit("--data-urlencode");
            reveal_strlit("-u");
            reveal_strlit("--user");
            reveal_strlit("-A");
            reveal_strlit("--user-agent");
            reveal_strlit("-o");
            reveal_strlit("--output");
            reveal_strlit("-w");
            reveal_strlit("--write-out");
            reveal_strlit("--connect-timeout");
            reveal_strlit("-m");
            reveal_strlit("--max-time");
        }
        let ghost before = m@;
        let ghost step = curl_step(tv, i as int, before);
        let t = chars_of(ts[i].as_str());
        assert(t@ == tv[i as int]);
        let has_arg = i + 1 < ts.len();
        let mut j = i;
        if is_token(&t, "curl") {
        } else if is_token(&t, "-X") || is_token(&t, "--request") {
            if has_arg {
                let a = to_uppercase_chars(&chars_of(ts[i + 1].as_str()));
                m.method = Some(string_of(&a));
            }
            j = i + 1;
        } else if is_token(&t, "-H") || is_token(&t, "--header") {
            if has_arg {
                push_header(&mut m, chars_of(ts[i + 1].as_str()));
            }
            j = i + 1;
        } else if is_token(&t, "-d") || is_token(&t, "--data") || is_token(&t, "--data-raw")
            || is_token(&t, "--data-binary") {
            if has_arg {
                m.body = Some(ts[i + 1].clone());
            }
            j = i + 1;
        } else if is_token(&t, "--data-urlencode") {
            if has_arg {
                m.body = Some(ts[i + 1].clone());
                if !has_content_type_exec(&m.headers) {
                    push_header(&mut m, chars_of("Content-Type: application/x-www-form-urlencoded"));
                }
            }
            j = i + 1;
        } else if is_token(&t, "-u") || is_token(&t, "--user") {
            if has_arg {
                let encoded = base64_encode(ts[i + 1].as_str().as_bytes());
                push_header(&mut m, with_prefix("Authorization: Basic ", &chars_of(encoded.as_str())));
            }
            j = i + 1;
        } else if is_token(&t, "-A") || is_token(&t, "--user-agent") {
            if has_arg {
                push_header(&mut m, with_prefix("User-Agent: ", &chars_of(ts[i + 1].as_str())));
            }
            j = i + 1;
        } else if is_token(&t, "-o") || is_token(&t, "--output") || is_token(&t, "-w") || is_token(
            &t,
            "--write-out",
        ) || is_token(&t, "--connect-timeout") || is_token(&t, "-m") || is_token(
            &t,
            "--max-time",
        ) {
            j = i + 1;
        } else if !(t.len() > 0 && t[0] == '-') && m.url.is_none() {
            m.url = Some(ts[i].clone());
        }
        assert(m@ == step.0 && j == step.1);
        i = if j < ts.len() {
            j + 1
        } else {
            ts.len()
        };
    }
    m
}

fn append_str_chars(r: &mut Vec<char>, s: &str)
    ensures
        final(r)@ == old(r)@ + s@,
{
    let v = chars_of(s);
    append_vec(r, &v);
}

/// The `.http` text of a command, with `formatted_body` in place of the
/// body where it is given; an error where the command names no URL.
pub fn curl_to_http(cmd: &CurlCommand, formatted_body: Option<String>) -> (r: Result<String, String>)
    ensures
        r is Err <==> cmd@.url is None,
        r matches Err(e) ==> e@ == "no URL found in cURL command"@,
        r matches Ok(s) ==> cmd@.url matches Some(url) && s@ == http_text(
            cmd@,
            url,
            body_text(cmd@, opt_view(formatted_body)),
        ),
{
    let url = match &cmd.url {
        Some(u) => u,
        None => {
            return Err(string_of_str("no URL found in cURL command"));
        },
    };
    proof {
        reveal_strlit("POST");
        reveal_strlit("GET");
    }
    let mut out: Vec<char> = match &cmd.method {
        Some(x) => chars_of(x.as_str()),
        None => if cmd.body.is_some() {
            chars_of("POST")
        } else {
            chars_of("GET")
        },
    };
    assert(out@ == curl_method(cmd@));
    append_str_chars(&mut out, " ");
    append_str_chars(&mut out, url.as_str());
    append_str_chars(&mut out, " HTTP/1.1\n");
    let ghost head = out@;
    let ghost hv = cmd@.headers;
    let mut k: usize = 0;
    assert(hv.take(0) =~= Seq::<Seq<char>>::empty());
    assert(head + header_block(Seq::<Seq<char>>::empty()) =~= head);
    while k < cmd.headers.len()
        invariant
            k <= cmd.headers.len(),
            hv == cmd@.headers,
            out@ == head + header_block(hv.take(k as int)),
        decreases cmd.headers.len() - k,
    {
        append_str_chars(&mut out, cmd.headers[k].as_str());
        append_str_chars(&mut out, "\n");
        assert(hv.take(k + 1).drop_last() =~= hv.take(k as int));
        assert(hv[k as int] == cmd.headers@[k as int]@);
        k += 1;
    }
    assert(hv.take(cmd.headers.len() as int) =~= hv);
    let ghost with_headers = out@;
    match &cmd.body {
        Some(b) => {
            append_str_chars(&mut out, "\n");
            match &formatted_body {
                Some(p) => append_str_chars(&mut out, p.as_str()),
                None => append_str_chars(&mut out, b.as_str()),
            }
            append_str_chars(&mut out, "\n");
        },
        None => {
            assert(out@ =~= with_headers + Seq::<char>::empty());
        },
    }
    Ok(string_of(&out))
}

/// Formatted text of a body that is JSON; `None` for one that is not.
fn format_json_body(body: &String) -> (r: Option<String>)
    ensures
        opt_view(r) == json_pretty_text(body@),
        r is Some <==> serde_json_accepts(body@),
{
    json_pretty(body.as_str())
}

/// A cURL command line as a request in `.http` form; an error where the
/// command names no URL.
pub fn from_curl(curl_cmd: &str) -> (r: Result<String, String>)
    ensures
        r is Err <==> spec_curl_command(curl_cmd@).url is None,
        r matches Err(e) ==> e@ == "no URL found in cURL command"@,
        r matches Ok(s) ==> {
            let m = spec_curl_command(curl_cmd@);
            m.url matches Some(url) && s@ == http_text(m, url, body_text(m, json_formatted_body(m)))
        },
{
    let tokens = match tokenize_curl(curl_cmd) {
        Ok(ts) => ts,
        Err(e) => {
            return Err(e);
        },
    };
    let cmd = interpret_tokens(&tokens);
    let formatted = match &cmd.body {
        Some(b) => format_json_body(b),
        None => None,
    };
    curl_to_http(&cmd, formatted)
}

} // verus!
