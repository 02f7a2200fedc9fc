//! The `.http` file parser: file variables, `###`-separated requests with
//! their annotations, request line, headers and body.
use vstd::prelude::*;
use crate::strmap::StrMap;
use crate::text::{
    append_vec, is_whitespace, is_ws, total_len, lemma_total_len_append, lemma_total_len_lines, join_from, lemma_lines_len, chars_eq, chars_of, find, find_char, join, lemma_find_char_bound, lines, lines_of,
    slice_chars, splitn, splitn_chars, starts_with, starts_with_chars, string_of,
    to_uppercase_chars, trim, trim_chars, trim_end, trim_end_chars, trim_start,
    trim_start_chars, unicode_uppercase,
};

verus! {

/// One request of an `.http` file.
pub struct ParsedRequest {
    pub name: Option<String>,
    pub note: Option<String>,
    pub method: String,
    pub url: String,
    pub headers: Vec<(String, String)>,
    pub body: Option<String>,
    /// Zero-based line of the request line in the file.
    pub line: usize,
    pub no_redirect: bool,
    pub no_cookie_jar: bool,
}

/// The mathematical value of a request.
pub ghost struct RequestModel {
    pub name: Option<Seq<char>>,
    pub note: Option<Seq<char>>,
    pub method: Seq<char>,
    pub url: Seq<char>,
    pub headers: Seq<(Seq<char>, Seq<char>)>,
    pub body: Option<Seq<char>>,
    pub line: nat,
    pub no_redirect: bool,
    pub no_cookie_jar: bool,
}

pub open spec fn opt_view(o: Option<String>) -> Option<Seq<char>> {
    match o {
        Some(s) => Some(s@),
        None => None,
    }
}

pub open spec fn pairs_view(v: Seq<(String, String)>) -> Seq<(Seq<char>, Seq<char>)> {
    v.map_values(|p: (String, String)| (p.0@, p.1@))
}

impl View for ParsedRequest {
    type V = RequestModel;

    open spec fn view(&self) -> RequestModel {
        RequestModel {
            name: opt_view(self.name),
            note: opt_view(self.note),
            method: self.method@,
            url: self.url@,
            headers: pairs_view(self.headers@),
            body: opt_view(self.body),
            line: self.line as nat,
            no_redirect: self.no_redirect,
            no_cookie_jar: self.no_cookie_jar,
        }
    }
}

/// A parsed `.http` file: its file variables and its requests in order.
pub struct HttpFile {
    pub variables: StrMap<String>,
    pub requests: Vec<ParsedRequest>,
}

pub open spec fn requests_view(v: Seq<ParsedRequest>) -> Seq<RequestModel> {
    v.map_values(|r: ParsedRequest| r@)
}

// ---------------------------------------------------------------------------
// Model
// ---------------------------------------------------------------------------
/// The methods a request line may name.
pub open spec fn is_valid_method(m: Seq<char>) -> bool {
    ||| m == "GET"@
    ||| m == "POST"@
    ||| m == "PUT"@
    ||| m == "DELETE"@
    ||| m == "PATCH"@
    ||| m == "HEAD"@
    ||| m == "OPTIONS"@
    ||| m == "CONNECT"@
    ||| m == "TRACE"@
}

/// A request line `METHOD URL [VERSION]`: the first two space-separated
/// fields, the method case-folded to upper case.
pub open spec fn spec_request_line(line: Seq<char>) -> Option<(Seq<char>, Seq<char>)> {
    let parts = splitn(line, 3, ' ');
    if parts.len() < 2 {
        None
    } else if !is_valid_method(unicode_uppercase(parts[0])) {
        None
    } else {
        Some((unicode_uppercase(parts[0]), parts[1]))
    }
}

/// `@name = value`: a file variable with a nonempty name.
pub open spec fn spec_file_variable(line: Seq<char>) -> Option<(Seq<char>, Seq<char>)> {
    let t = trim(line);
    if !starts_with(t, "@"@) {
        None
    } else {
        let rest = t.drop_first();
        match find(rest, "="@) {
            None => None,
            Some(eq) => {
                let name = trim(rest.subrange(0, eq));
                let value = trim(rest.subrange(eq + 1, rest.len() as int));
                if name.len() == 0 {
                    None
                } else {
                    Some((name, value))
                }
            },
        }
    }
}

/// The annotations that `# @...` or `// @...` lines may carry.
#[derive(PartialEq, Eq, Structural, Clone, Copy)]
pub enum AnnotationKind {
    Name,
    Prompt,
    Note,
    NoRedirect,
    NoCookieJar,
}

pub open spec fn annotation_word(k: AnnotationKind) -> Seq<char> {
    match k {
        AnnotationKind::Name => "name"@,
        AnnotationKind::Prompt => "prompt"@,
        AnnotationKind::Note => "note"@,
        AnnotationKind::NoRedirect => "no-redirect"@,
        AnnotationKind::NoCookieJar => "no-cookie-jar"@,
    }
}

/// The kinds in the order in which they are tried.
pub open spec fn annotation_order() -> Seq<AnnotationKind> {
    seq![
        AnnotationKind::Name,
        AnnotationKind::Prompt,
        AnnotationKind::Note,
        AnnotationKind::NoRedirect,
        AnnotationKind::NoCookieJar,
    ]
}

/// Whether `r` (the text after `@`) names annotation `k`: the word, then
/// nothing or a space or tab.
pub open spec fn annotation_matches(r: Seq<char>, k: AnnotationKind) -> bool {
    let w = annotation_word(k);
    starts_with(r, w) && {
        let after = r.subrange(w.len() as int, r.len() as int);
        after.len() == 0 || after[0] == ' ' || after[0] == '\t'
    }
}

pub open spec fn annotation_value(r: Seq<char>, k: AnnotationKind) -> Option<Seq<char>> {
    let w = annotation_word(k);
    let v = trim(r.subrange(w.len() as int, r.len() as int));
    if v.len() == 0 {
        None
    } else {
        Some(v)
    }
}

pub open spec fn first_annotation(r: Seq<char>, i: int) -> Option<(AnnotationKind, Option<Seq<char>>)>
    decreases 5 - i,
{
    if i < 0 || i >= 5 {
        None
    } else if annotation_matches(r, annotation_order()[i]) {
        Some((annotation_order()[i], annotation_value(r, annotation_order()[i])))
    } else {
        first_annotation(r, i + 1)
    }
}

/// An annotation line: `#` or `//`, optional whitespace, `@`, a known
/// annotation word and an optional value.
pub open spec fn spec_annotation(line: Seq<char>) -> Option<(AnnotationKind, Option<Seq<char>>)> {
    let rest = if starts_with(line, "#"@) {
        Some(trim(line.drop_first()))
    } else if starts_with(line, "//"@) {
        Some(trim(line.subrange(2, line.len() as int)))
    } else {
        None
    };
    match rest {
        None => None,
        Some(r) => if starts_with(r, "@"@) {
            first_annotation(r.drop_first(), 0)
        } else {
            None
        },
    }
}

pub open spec fn is_comment(t: Seq<char>) -> bool {
    starts_with(t, "#"@) || starts_with(t, "//"@)
}

/// The lines before a request: blank lines, comments and file variables.
/// Gives the index where they stop and the variables they defined.
pub open spec fn spec_prelude(
    ls: Seq<Seq<char>>,
    i: int,
    vars: Map<Seq<char>, Seq<char>>,
) -> (int, Map<Seq<char>, Seq<char>>)
    decreases ls.len() - i,
{
    if i < 0 || i >= ls.len() {
        (i, vars)
    } else {
        let t = trim(ls[i]);
        if t.len() == 0 {
            spec_prelude(ls, i + 1, vars)
        } else if is_comment(t) {
            if spec_annotation(t) is Some {
                (i, vars)
            } else {
                spec_prelude(ls, i + 1, vars)
            }
        } else if starts_with(t, "@"@) && spec_file_variable(t) is Some {
            let (n, v) = spec_file_variable(t)->0;
            spec_prelude(ls, i + 1, vars.insert(n, v))
        } else {
            (i, vars)
        }
    }
}

/// What the annotation lines before a request set.
pub ghost struct Annotations {
    pub name: Option<Seq<char>>,
    pub note: Option<Seq<char>>,
    pub no_redirect: bool,
    pub no_cookie_jar: bool,
}

pub open spec fn apply_annotation(
    a: Annotations,
    k: AnnotationKind,
    v: Option<Seq<char>>,
) -> Annotations {
    match k {
        AnnotationKind::Name => Annotations { name: v, ..a },
        AnnotationKind::Note => Annotations { note: v, ..a },
        AnnotationKind::NoRedirect => Annotations { no_redirect: true, ..a },
        AnnotationKind::NoCookieJar => Annotations { no_cookie_jar: true, ..a },
        AnnotationKind::Prompt => a,
    }
}

pub open spec fn spec_annotations(ls: Seq<Seq<char>>, i: int, a: Annotations) -> (int, Annotations)
    decreases ls.len() - i,
{
    if 0 <= i < ls.len() && spec_annotation(trim(ls[i])) is Some {
        let (k, v) = spec_annotation(trim(ls[i]))->0;
        spec_annotations(ls, i + 1, apply_annotation(a, k, v))
    } else {
        (i, a)
    }
}

/// A header line: `name: value`, both trimmed.
pub open spec fn spec_header(t: Seq<char>) -> Option<(Seq<char>, Seq<char>)> {
    match find(t, ":"@) {
        Some(p) => Some((trim(t.subrange(0, p)), trim(t.subrange(p + 1, t.len() as int)))),
        None => None,
    }
}

/// A line that continues the URL of the request line above it: indented
/// and not blank.
pub open spec fn is_url_continuation(l: Seq<char>) -> bool {
    trim(l).len() > 0 && is_ws(l[0])
}

/// The URL continuation lines from line `i` on: where they end, and their
/// trimmed text joined together.
pub open spec fn spec_url_continuation(ls: Seq<Seq<char>>, i: int) -> (int, Seq<char>)
    decreases ls.len() - i,
{
    if i < 0 || i >= ls.len() || !is_url_continuation(ls[i]) {
        (i, seq![])
    } else {
        let (e, more) = spec_url_continuation(ls, i + 1);
        (e, trim(ls[i]) + more)
    }
}

/// The text holds no `:`.
pub open spec fn colon_free(s: Seq<char>) -> bool {
    forall|i: int| 0 <= i < s.len() ==> s[i] != ':'
}

proof fn lemma_trim_colon_free(s: Seq<char>)
    requires
        colon_free(s),
    ensures
        colon_free(trim(s)),
{
    crate::text::lemma_trim_start_shape(s);
    let a = trim_start(s);
    crate::text::lemma_trim_end_shape(a);
    let b = trim_end(a);
    assert forall|i: int| 0 <= i < b.len() implies b[i] != ':' by {
        assert(b[i] == a[i]);
        assert(a[i] == s[s.len() - a.len() + i]);
    }
}

/// A header's name is the text before the first `:` of its line, so it
/// never holds a `:`.
pub proof fn lemma_header_name_colon_free(t: Seq<char>)
    ensures
        spec_header(t) matches Some((n, _)) ==> colon_free(n),
{
    reveal_strlit(":");
    crate::text::lemma_find(t, ":"@);
    if let Some(p) = find(t, ":"@) {
        let head = t.subrange(0, p);
        assert forall|i: int| 0 <= i < head.len() implies head[i] != ':' by {
            if head[i] == ':' {
                assert(t.subrange(i, i + 1) =~= ":"@);
                assert(crate::text::matches_at(t, ":"@, i));
            }
        }
        lemma_trim_colon_free(head);
    }
}

/// A header line `name: value` whose name holds no `:` splits at that
/// first `:`: the header is the trimmed name and the trimmed value,
/// whatever colons the value holds.
pub proof fn lemma_header_split(name: Seq<char>, value: Seq<char>)
    requires
        colon_free(name),
    ensures
        spec_header(name + ":"@ + value) == Some((trim(name), trim(value))),
{
    reveal_strlit(":");
    let t = name + ":"@ + value;
    let n = name.len() as int;
    crate::text::lemma_find(t, ":"@);
    assert(t.subrange(n, n + 1) =~= ":"@);
    assert(crate::text::matches_at(t, ":"@, n));
    match find(t, ":"@) {
        Some(p) => {
            if p < n {
                assert(t.subrange(p, p + 1)[0] == t[p]);
                assert(t[p] == name[p]);
            }
        },
        None => {},
    }
    assert(find(t, ":"@) == Some(n));
    assert(t.subrange(0, n) =~= name);
    assert(t.subrange(n + 1, t.len() as int) =~= value);
}

pub open spec fn header_names_colon_free(hs: Seq<(Seq<char>, Seq<char>)>) -> bool {
    forall|k: int| 0 <= k < hs.len() ==> colon_free(#[trigger] hs[k].0)
}

proof fn lemma_headers_colon_free(ls: Seq<Seq<char>>, i: int)
    ensures
        header_names_colon_free(spec_headers(ls, i).1),
    decreases ls.len() - i,
{
    if !(i < 0 || i >= ls.len() || trim(ls[i]).len() == 0) {
        lemma_headers_colon_free(ls, i + 1);
        let hs = spec_headers(ls, i + 1).1;
        lemma_header_name_colon_free(trim(ls[i]));
        if let Some(h) = spec_header(trim(ls[i])) {
            assert forall|k: int| 0 <= k < (seq![h] + hs).len() implies colon_free(
                #[trigger] (seq![h] + hs)[k].0,
            ) by {
                if k > 0 {
                    assert((seq![h] + hs)[k] == hs[k - 1]);
                }
            }
        }
    }
}

/// The header block from line `i` up to the first blank line: where it ends
/// and the headers of its lines that hold a `:`.
pub open spec fn spec_headers(ls: Seq<Seq<char>>, i: int) -> (int, Seq<(Seq<char>, Seq<char>)>)
    decreases ls.len() - i,
{
    if i < 0 || i >= ls.len() || trim(ls[i]).len() == 0 {
        (i, seq![])
    } else {
        let (e, hs) = spec_headers(ls, i + 1);
        match spec_header(trim(ls[i])) {
            Some(h) => (e, seq![h] + hs),
            None => (e, hs),
        }
    }
}

/// The body: the lines from `j` on joined with `\n`, trailing whitespace
/// removed; absent when that is empty.
pub open spec fn spec_body(ls: Seq<Seq<char>>, j: int) -> Option<Seq<char>> {
    if 0 <= j < ls.len() {
        let b = trim_end(join(ls.subrange(j, ls.len() as int), "\n"@));
        if b.len() == 0 {
            None
        } else {
            Some(b)
        }
    } else {
        None
    }
}

pub open spec fn no_annotations() -> Annotations {
    Annotations { name: None, note: None, no_redirect: false, no_cookie_jar: false }
}

/// One section (the text between `###` separators) starting at line
/// `start`: the file variables it adds, and its request if it has one.
pub open spec fn spec_section(
    text: Seq<char>,
    start: nat,
    vars: Map<Seq<char>, Seq<char>>,
) -> (Map<Seq<char>, Seq<char>>, Option<RequestModel>) {
    let ls = lines(text);
    let (i, vars2) = spec_prelude(ls, 0, vars);
    if i >= ls.len() {
        (vars2, None)
    } else {
        let (i2, a) = spec_annotations(ls, i, no_annotations());
        if i2 >= ls.len() {
            (vars2, None)
        } else {
            match spec_request_line(trim(ls[i2])) {
                None => (vars2, None),
                Some((method, url)) => {
                    let (c, more) = spec_url_continuation(ls, i2 + 1);
                    let (e, hs) = spec_headers(ls, c);
                    let j = if e < ls.len() && trim(ls[e]).len() == 0 {
                        e + 1
                    } else {
                        e
                    };
                    (
                        vars2,
                        Some(
                            RequestModel {
                                name: a.name,
                                note: a.note,
                                method,
                                url: url + more,
                                headers: hs,
                                body: spec_body(ls, j),
                                line: (start + i2) as nat,
                                no_redirect: a.no_redirect,
                                no_cookie_jar: a.no_cookie_jar,
                            },
                        ),
                    )
                },
            }
        }
    }
}

pub open spec fn is_separator(l: Seq<char>) -> bool {
    starts_with(trim_start(l), "###"@)
}

/// The sections of a file given as lines: the maximal runs of lines that
/// are not `###` separators, each as its lines with `\n` after every line,
/// paired with the index of its first line.
pub open spec fn spec_sections_from(
    ls: Seq<Seq<char>>,
    i: int,
    cur: Seq<char>,
    start: nat,
    acc: Seq<(Seq<char>, nat)>,
) -> Seq<(Seq<char>, nat)>
    decreases ls.len() - i,
{
    if i < 0 || i >= ls.len() {
        if cur.len() > 0 {
            acc.push((cur, start))
        } else {
            acc
        }
    } else if is_separator(ls[i]) {
        let acc2 = if cur.len() > 0 {
            acc.push((cur, start))
        } else {
            acc
        };
        spec_sections_from(ls, i + 1, seq![], (i + 1) as nat, acc2)
    } else {
        let start2 = if cur.len() == 0 {
            i as nat
        } else {
            start
        };
        spec_sections_from(ls, i + 1, cur + ls[i] + "\n"@, start2, acc)
    }
}

pub open spec fn spec_sections(text: Seq<char>) -> Seq<(Seq<char>, nat)> {
    spec_sections_from(lines(text), 0, seq![], 0, seq![])
}

/// Parsing the sections in order, threading the file variables through.
pub open spec fn spec_parse_sections(
    secs: Seq<(Seq<char>, nat)>,
    vars: Map<Seq<char>, Seq<char>>,
    reqs: Seq<RequestModel>,
) -> (Map<Seq<char>, Seq<char>>, Seq<RequestModel>)
    decreases secs.len(),
{
    if secs.len() == 0 {
        (vars, reqs)
    } else {
        let (vars1, reqs1) = spec_parse_sections(secs.drop_last(), vars, reqs);
        let (vars2, r) = spec_section(secs.last().0, secs.last().1, vars1);
        match r {
            Some(req) => (vars2, reqs1.push(req)),
            None => (vars2, reqs1),
        }
    }
}

/// The file variables and requests of an `.http` file.
pub open spec fn spec_parse(text: Seq<char>) -> (Map<Seq<char>, Seq<char>>, Seq<RequestModel>) {
    spec_parse_sections(spec_sections(text), Map::empty(), seq![])
}

proof fn lemma_parse_sections_header_names(
    secs: Seq<(Seq<char>, nat)>,
    vars: Map<Seq<char>, Seq<char>>,
    reqs: Seq<RequestModel>,
)
    requires
        forall|k: int| 0 <= k < reqs.len() ==> header_names_colon_free(#[trigger] reqs[k].headers),
    ensures
        forall|k: int|
            0 <= k < spec_parse_sections(secs, vars, reqs).1.len() ==> header_names_colon_free(
                #[trigger] spec_parse_sections(secs, vars, reqs).1[k].headers,
            ),
    decreases secs.len(),
{
    if secs.len() > 0 {
        lemma_parse_sections_header_names(secs.drop_last(), vars, reqs);
        let (vars1, reqs1) = spec_parse_sections(secs.drop_last(), vars, reqs);
        let text = secs.last().0;
        let ls = lines(text);
        let (i, _) = spec_prelude(ls, 0, vars1);
        let (i2, _) = spec_annotations(ls, i, no_annotations());
        let (c, _) = spec_url_continuation(ls, i2 + 1);
        lemma_headers_colon_free(ls, c);
        let r = spec_section(text, secs.last().1, vars1).1;
        if let Some(req) = r {
            let out = reqs1.push(req);
            assert forall|k: int| 0 <= k < out.len() implies header_names_colon_free(
                #[trigger] out[k].headers,
            ) by {
                if k < reqs1.len() {
                    assert(out[k] == reqs1[k]);
                }
            }
        }
    }
}

/// No header name of a parsed request holds a `:`: each header line is
/// split at its first `:`.
pub proof fn lemma_parsed_header_names(text: Seq<char>)
    ensures
        forall|k: int, j: int|
            0 <= k < spec_parse(text).1.len() && 0 <= j < spec_parse(text).1[k].headers.len()
                ==> colon_free(#[trigger] spec_parse(text).1[k].headers[j].0),
{
    lemma_parse_sections_header_names(spec_sections(text), Map::empty(), seq![]);
    assert forall|k: int, j: int|
        0 <= k < spec_parse(text).1.len() && 0 <= j < spec_parse(text).1[k].headers.len()
            implies colon_free(#[trigger] spec_parse(text).1[k].headers[j].0) by {
        assert(header_names_colon_free(spec_parse(text).1[k].headers));
    }
}

proof fn lemma_parse_sections_methods(
    secs: Seq<(Seq<char>, nat)>,
    vars: Map<Seq<char>, Seq<char>>,
    reqs: Seq<RequestModel>,
)
    requires
        forall|i: int| 0 <= i < reqs.len() ==> is_valid_method(#[trigger] reqs[i].method),
    ensures
        forall|i: int|
            0 <= i < spec_parse_sections(secs, vars, reqs).1.len() ==> is_valid_method(
                #[trigger] spec_parse_sections(secs, vars, reqs).1[i].method,
            ),
    decreases secs.len(),
{
    if secs.len() > 0 {
        lemma_parse_sections_methods(secs.drop_last(), vars, reqs);
    }
}

/// Every request of a parsed file names one of the known methods, in upper
/// case.
pub proof fn lemma_parsed_methods_valid(text: Seq<char>)
    ensures
        forall|i: int|
            0 <= i < spec_parse(text).1.len() ==> is_valid_method(#[trigger] spec_parse(text).1[i].method),
{
    lemma_parse_sections_methods(spec_sections(text), Map::empty(), seq![]);
}

/// The line after the last line of a section.
pub open spec fn section_end(sec: (Seq<char>, nat)) -> int {
    (sec.1 + lines(sec.0).len()) as int
}

/// Sections in order without overlap, all within the first `n` lines.
pub open spec fn sections_ordered(secs: Seq<(Seq<char>, nat)>, n: int) -> bool {
    &&& forall|a: int, b: int| 0 <= a < b < secs.len() ==> section_end(#[trigger] secs[a]) <= (#[trigger] secs[b]).1
    &&& forall|a: int| 0 <= a < secs.len() ==> section_end(#[trigger] secs[a]) <= n
}

proof fn lemma_sections_from_ordered(
    ls: Seq<Seq<char>>,
    i: int,
    cur: Seq<char>,
    start: nat,
    acc: Seq<(Seq<char>, nat)>,
)
    requires
        0 <= i <= ls.len(),
        forall|k: int, j: int| 0 <= k < ls.len() && 0 <= j < ls[k].len() ==> #[trigger] ls[k][j] != '\n',
        sections_ordered(acc, ls.len() as int),
        cur.len() > 0 ==> start < i && lines(cur).len() == i - start && cur.last() == '\n',
        forall|a: int| 0 <= a < acc.len() ==> section_end(#[trigger] acc[a]) <= if cur.len() > 0 {
            start as int
        } else {
            i
        },
    ensures
        sections_ordered(spec_sections_from(ls, i, cur, start, acc), ls.len() as int),
    decreases ls.len() - i,
{
    if i >= ls.len() {
        if cur.len() > 0 {
            let acc2 = acc.push((cur, start));
            assert forall|a: int, b: int| 0 <= a < b < acc2.len() implies section_end(#[trigger] acc2[a]) <= (#[trigger] acc2[b]).1 by {
                assert(acc2[a] == acc[a]);
            }
        }
    } else if is_separator(ls[i]) {
        let acc2 = if cur.len() > 0 {
            acc.push((cur, start))
        } else {
            acc
        };
        assert forall|a: int, b: int| 0 <= a < b < acc2.len() implies section_end(#[trigger] acc2[a]) <= (#[trigger] acc2[b]).1 by {
            assert(acc2[a] == acc[a]);
        }
        lemma_sections_from_ordered(ls, i + 1, seq![], (i + 1) as nat, acc2);
    } else {
        let start2: nat = if cur.len() == 0 {
            i as nat
        } else {
            start
        };
        let cur2 = cur + ls[i] + "\n"@;
        reveal_strlit("\n");
        assert("\n"@ =~= seq!['\n']);
        assert forall|j: int| 0 <= j < ls[i].len() implies ls[i][j] != '\n' by {
            assert(ls[i][j] != '\n');
        }
        crate::text::lemma_lines_append_line(cur, ls[i]);
        if cur.len() == 0 {
            assert(lines(cur) =~= Seq::<Seq<char>>::empty()) by {
                crate::text::lemma_find(cur, seq!['\n']);
            }
        }
        lemma_sections_from_ordered(ls, i + 1, cur2, start2, acc);
    }
}

/// A section's request line is one of the section's lines.
proof fn lemma_section_line(text: Seq<char>, start: nat, vars: Map<Seq<char>, Seq<char>>)
    ensures
        spec_section(text, start, vars).1 matches Some(r) ==> start <= r.line < start + lines(text).len(),
{
    let ls = lines(text);
    lemma_prelude_index(ls, 0, vars);
    let (i, vars2) = spec_prelude(ls, 0, vars);
    if 0 <= i < ls.len() {
        lemma_annotations_index(ls, i, no_annotations());
    }
}

proof fn lemma_prelude_index(ls: Seq<Seq<char>>, i: int, vars: Map<Seq<char>, Seq<char>>)
    requires
        0 <= i,
    ensures
        spec_prelude(ls, i, vars).0 >= i,
    decreases ls.len() - i,
{
    if 0 <= i < ls.len() {
        let t = trim(ls[i]);
        if t.len() == 0 {
            lemma_prelude_index(ls, i + 1, vars);
        } else if is_comment(t) {
            if spec_annotation(t) is None {
                lemma_prelude_index(ls, i + 1, vars);
            }
        } else if starts_with(t, "@"@) && spec_file_variable(t) is Some {
            let (n, v) = spec_file_variable(t)->0;
            lemma_prelude_index(ls, i + 1, vars.insert(n, v));
        }
    }
}

proof fn lemma_annotations_index(ls: Seq<Seq<char>>, i: int, a: Annotations)
    requires
        0 <= i,
    ensures
        spec_annotations(ls, i, a).0 >= i,
    decreases ls.len() - i,
{
    if 0 <= i < ls.len() && spec_annotation(trim(ls[i])) is Some {
        let (k, v) = spec_annotation(trim(ls[i]))->0;
        lemma_annotations_index(ls, i + 1, apply_annotation(a, k, v));
    }
}

proof fn lemma_parse_sections_lines(
    secs: Seq<(Seq<char>, nat)>,
    vars: Map<Seq<char>, Seq<char>>,
    n: int,
)
    requires
        sections_ordered(secs, n),
    ensures
        ({
            let reqs = spec_parse_sections(secs, vars, seq![]).1;
            &&& forall|a: int, b: int| 0 <= a < b < reqs.len() ==> (#[trigger] reqs[a]).line < (#[trigger] reqs[b]).line
            &&& forall|a: int| 0 <= a < reqs.len() ==> (#[trigger] reqs[a]).line < n
            &&& secs.len() > 0 ==> forall|a: int| 0 <= a < reqs.len() ==> (#[trigger] reqs[a]).line < section_end(secs.last())
        }),
    decreases secs.len(),
{
    if secs.len() > 0 {
        let init = secs.drop_last();
        assert(sections_ordered(init, n)) by {
            assert forall|a: int, b: int| 0 <= a < b < init.len() implies section_end(#[trigger] init[a]) <= (#[trigger] init[b]).1 by {
                assert(init[a] == secs[a] && init[b] == secs[b]);
            }
            assert forall|a: int| 0 <= a < init.len() implies section_end(#[trigger] init[a]) <= n by {
                assert(init[a] == secs[a]);
            }
        }
        lemma_parse_sections_lines(init, vars, n);
        let (vars1, reqs1) = spec_parse_sections(init, vars, seq![]);
        let last = secs.last();
        lemma_section_line(last.0, last.1, vars1);
        assert(section_end(secs[secs.len() - 1]) <= n);
        if init.len() > 0 {
            assert(section_end(secs[init.len() - 1]) <= secs[secs.len() - 1].1);
            assert(init.last() == secs[init.len() - 1]);
        }
    }
}

/// The requests of a file come in the order of their request lines, each
/// on a line of the file.
pub proof fn lemma_request_lines_ordered(text: Seq<char>)
    ensures
        forall|a: int, b: int|
            0 <= a < b < spec_parse(text).1.len() ==> (#[trigger] spec_parse(text).1[a]).line
                < (#[trigger] spec_parse(text).1[b]).line,
        forall|a: int| 0 <= a < spec_parse(text).1.len() ==> (#[trigger] spec_parse(text).1[a]).line < lines(text).len(),
{
    let ls = lines(text);
    crate::text::lemma_lines_no_newline(text);
    lemma_sections_from_ordered(ls, 0, seq![], 0, seq![]);
    lemma_parse_sections_lines(spec_sections(text), Map::empty(), ls.len() as int);
}

// ---------------------------------------------------------------------------
// Parsing single lines
// ---------------------------------------------------------------------------
pub open spec fn opt_chars(o: Option<Vec<char>>) -> Option<Seq<char>> {
    match o {
        Some(v) => Some(v@),
        None => None,
    }
}

fn annotation_word_exec(k: AnnotationKind) -> (w: Vec<char>)
    ensures
        w@ == annotation_word(k),
{
    match k {
        AnnotationKind::Name => chars_of("name"),
        AnnotationKind::Prompt => chars_of("prompt"),
        AnnotationKind::Note => chars_of("note"),
        AnnotationKind::NoRedirect => chars_of("no-redirect"),
        AnnotationKind::NoCookieJar => chars_of("no-cookie-jar"),
    }
}

fn annotation_kind_at(i: usize) -> (k: AnnotationKind)
    requires
        i < 5,
    ensures
        k == annotation_order()[i as int],
{
    if i == 0 {
        AnnotationKind::Name
    } else if i == 1 {
        AnnotationKind::Prompt
    } else if i == 2 {
        AnnotationKind::Note
    } else if i == 3 {
        AnnotationKind::NoRedirect
    } else {
        AnnotationKind::NoCookieJar
    }
}

fn match_annotation(r: &Vec<char>, k: AnnotationKind) -> (res: Option<Option<Vec<char>>>)
    ensures
        res is None <==> !annotation_matches(r@, k),
        res matches Some(v) ==> opt_chars(v) == annotation_value(r@, k),
{
    let w = annotation_word_exec(k);
    if !starts_with_chars(r, &w) {
        return None;
    }
    let after = slice_chars(r, w.len(), r.len());
    if !(after.len() == 0 || after[0] == ' ' || after[0] == '\t') {
        return None;
    }
    let v = trim_chars(&after);
    if v.len() == 0 {
        Some(None)
    } else {
        Some(Some(v))
    }
}

/// Recognises an annotation line (`# @name login`, `// @no-redirect`, ...).
pub fn try_parse_annotation(line: &Vec<char>) -> (r: Option<(AnnotationKind, Option<Vec<char>>)>)
    ensures
        r is None ==> spec_annotation(line@) is None,
        r matches Some((k, v)) ==> spec_annotation(line@) == Some((k, opt_chars(v))),
{
    proof {
        reveal_strlit("#");
        reveal_strlit("//");
        reveal_strlit("@");
    }
    let hash = chars_of("#");
    let slashes = chars_of("//");
    let at = chars_of("@");
    let rest = if starts_with_chars(line, &hash) {
        assert(line@.drop_first() =~= line@.subrange(1, line@.len() as int));
        let t = slice_chars(line, 1, line.len());
        trim_chars(&t)
    } else if starts_with_chars(line, &slashes) {
        let t = slice_chars(line, 2, line.len());
        trim_chars(&t)
    } else {
        return None;
    };
    if !starts_with_chars(&rest, &at) {
        return None;
    }
    let r = slice_chars(&rest, 1, rest.len());
    assert(r@ =~= rest@.drop_first());
    assert(spec_annotation(line@) == first_annotation(r@, 0));
    let mut i: usize = 0;
    while i < 5
        invariant
            i <= 5,
            spec_annotation(line@) == first_annotation(r@, 0),
            first_annotation(r@, 0) == first_annotation(r@, i as int),
        decreases 5 - i,
    {
        let k = annotation_kind_at(i);
        match match_annotation(&r, k) {
            Some(v) => {
                return Some((k, v));
            },
            None => {},
        }
        i += 1;
    }
    None
}

/// Recognises a file variable line `@name = value`.
pub fn try_parse_file_variable(line: &Vec<char>) -> (r: Option<(Vec<char>, Vec<char>)>)
    ensures
        r is None ==> spec_file_variable(line@) is None,
        r matches Some((n, v)) ==> spec_file_variable(line@) == Some((n@, v@)),
{
    proof {
        reveal_strlit("@");
        reveal_strlit("=");
    }
    let t = trim_chars(line);
    let at = chars_of("@");
    if !starts_with_chars(&t, &at) {
        return None;
    }
    let rest = slice_chars(&t, 1, t.len());
    assert(rest@ =~= t@.drop_first());
    let eq = match find_char(&rest, '=') {
        Some(e) => e,
        None => {
            assert(seq!['='] =~= "="@);
            return None;
        },
    };
    assert(seq!['='] =~= "="@);
    proof {
        lemma_find_char_bound(rest@, '=');
    }
    let name = trim_chars(&slice_chars(&rest, 0, eq));
    let value = trim_chars(&slice_chars(&rest, eq + 1, rest.len()));
    if name.len() == 0 {
        return None;
    }
    Some((name, value))
}

fn is_valid_method_exec(m: &Vec<char>) -> (b: bool)
    ensures
        b == is_valid_method(m@),
{
    chars_eq(m, &chars_of("GET")) || chars_eq(m, &chars_of("POST")) || chars_eq(m, &chars_of("PUT"))
        || chars_eq(m, &chars_of("DELETE")) || chars_eq(m, &chars_of("PATCH")) || chars_eq(
        m,
        &chars_of("HEAD"),
    ) || chars_eq(m, &chars_of("OPTIONS")) || chars_eq(m, &chars_of("CONNECT")) || chars_eq(
        m,
        &chars_of("TRACE"),
    )
}

/// Recognises a request line and gives its method (upper case) and URL.
pub fn parse_request_line(line: &Vec<char>) -> (r: Option<(Vec<char>, Vec<char>)>)
    ensures
        r is None ==> spec_request_line(line@) is None,
        r matches Some((m, u)) ==> spec_request_line(line@) == Some((m@, u@)),
{
    let parts = splitn_chars(line, 3, ' ');
    if parts.len() < 2 {
        return None;
    }
    assert(parts[0]@ == parts.deep_view()[0]);
    assert(parts[1]@ == parts.deep_view()[1]);
    let method = to_uppercase_chars(&parts[0]);
    if !is_valid_method_exec(&method) {
        return None;
    }
    let url = slice_chars(&parts[1], 0, parts[1].len());
    assert(url@ =~= parts[1]@);
    Some((method, url))
}

// ---------------------------------------------------------------------------
// Parsing a section
// ---------------------------------------------------------------------------
proof fn lemma_line_view(ls: &Vec<Vec<char>>, i: int)
    requires
        0 <= i < ls.len(),
    ensures
        ls.deep_view()[i] == ls@[i]@,
{
    assert(ls@[i].deep_view() =~= ls@[i]@);
}

fn opt_string(o: Option<Vec<char>>) -> (r: Option<String>)
    ensures
        opt_view(r) == opt_chars(o),
{
    match o {
        Some(v) => Some(string_of(&v)),
        None => None,
    }
}

/// Skips blank lines and comments and records file variables, up to the
/// first line that is none of these (or an annotation).
fn scan_prelude(ls: &Vec<Vec<char>>, variables: &mut StrMap<String>) -> (i: usize)
    ensures
        i <= ls.len(),
        (i as int, final(variables)@) == spec_prelude(ls.deep_view(), 0, old(variables)@),
{
    proof {
        reveal_strlit("#");
        reveal_strlit("//");
        reveal_strlit("@");
    }
    let ghost l = ls.deep_view();
    let hash = chars_of("#");
    let slashes = chars_of("//");
    let at = chars_of("@");
    let mut i: usize = 0;
    while i < ls.len()
        invariant
            i <= ls.len(),
            l == ls.deep_view(),
            hash@ == "#"@,
            slashes@ == "//"@,
            at@ == "@"@,
            spec_prelude(l, 0, old(variables)@) == spec_prelude(l, i as int, variables@),
        decreases ls.len() - i,
    {
        proof {
            lemma_line_view(ls, i as int);
        }
        let t = trim_chars(&ls[i]);
        if t.len() == 0 {
            i += 1;
        } else if starts_with_chars(&t, &hash) || starts_with_chars(&t, &slashes) {
            if try_parse_annotation(&t).is_some() {
                return i;
            }
            i += 1;
        } else if starts_with_chars(&t, &at) {
            match try_parse_file_variable(&t) {
                Some((n, v)) => {
                    variables.insert(string_of(&n), string_of(&v));
                    i += 1;
                },
                None => {
                    return i;
                },
            }
        } else {
            return i;
        }
    }
    i
}

/// Reads the annotation lines starting at `i0`.
fn scan_annotations(ls: &Vec<Vec<char>>, i0: usize) -> (r: (
    usize,
    Option<Vec<char>>,
    Option<Vec<char>>,
    bool,
    bool,
))
    requires
        i0 <= ls.len(),
    ensures
        r.0 <= ls.len(),
        spec_annotations(ls.deep_view(), i0 as int, no_annotations()) == (
            r.0 as int,
            Annotations {
                name: opt_chars(r.1),
                note: opt_chars(r.2),
                no_redirect: r.3,
                no_cookie_jar: r.4,
            },
        ),
{
    let ghost l = ls.deep_view();
    let mut i = i0;
    let mut name: Option<Vec<char>> = None;
    let mut note: Option<Vec<char>> = None;
    let mut no_redirect = false;
    let mut no_cookie_jar = false;
    loop
        invariant
            i0 <= i <= ls.len(),
            l == ls.deep_view(),
            spec_annotations(l, i0 as int, no_annotations()) == spec_annotations(
                l,
                i as int,
                Annotations {
                    name: opt_chars(name),
                    note: opt_chars(note),
                    no_redirect,
                    no_cookie_jar,
                },
            ),
        decreases ls.len() - i,
    {
        if i >= ls.len() {
            return (i, name, note, no_redirect, no_cookie_jar);
        }
        proof {
            lemma_line_view(ls, i as int);
        }
        let t = trim_chars(&ls[i]);
        match try_parse_annotation(&t) {
            Some((k, v)) => {
                match k {
                    AnnotationKind::Name => {
                        name = v;
                    },
                    AnnotationKind::Note => {
                        note = v;
                    },
                    AnnotationKind::NoRedirect => {
                        no_redirect = true;
                    },
                    AnnotationKind::NoCookieJar => {
                        no_cookie_jar = true;
                    },
                    AnnotationKind::Prompt => {},
                }
                i += 1;
            },
            None => {
                return (i, name, note, no_redirect, no_cookie_jar);
            },
        }
    }
}

/// Reads the URL continuation lines starting at `i0`: where they end and
/// their trimmed text joined together.
fn scan_url_continuation(ls: &Vec<Vec<char>>, i0: usize) -> (r: (usize, Vec<char>))
    requires
        i0 <= ls.len(),
    ensures
        i0 <= r.0 <= ls.len(),
        spec_url_continuation(ls.deep_view(), i0 as int) == (r.0 as int, r.1@),
{
    let ghost l = ls.deep_view();
    let mut i = i0;
    let mut more: Vec<char> = Vec::new();
    assert(more@ + spec_url_continuation(l, i0 as int).1 =~= spec_url_continuation(l, i0 as int).1);
    loop
        invariant
            i0 <= i <= ls.len(),
            l == ls.deep_view(),
            spec_url_continuation(l, i0 as int).0 == spec_url_continuation(l, i as int).0,
            spec_url_continuation(l, i0 as int).1 == more@ + spec_url_continuation(l, i as int).1,
        decreases ls.len() - i,
    {
        if i >= ls.len() {
            assert(more@ + Seq::<char>::empty() =~= more@);
            return (i, more);
        }
        proof {
            lemma_line_view(ls, i as int);
        }
        let t = trim_chars(&ls[i]);
        if t.len() == 0 || !is_whitespace(ls[i][0]) {
            assert(more@ + Seq::<char>::empty() =~= more@);
            return (i, more);
        }
        let ghost before = more@;
        append_vec(&mut more, &t);
        assert(more@ + spec_url_continuation(l, i + 1).1 =~= before + (t@ + spec_url_continuation(
            l,
            i + 1,
        ).1));
        i += 1;
    }
}

/// Reads the header block starting at `i0`, up to the first blank line.
fn scan_headers(ls: &Vec<Vec<char>>, i0: usize) -> (r: (usize, Vec<(String, String)>))
    requires
        i0 <= ls.len(),
    ensures
        r.0 <= ls.len(),
        spec_headers(ls.deep_view(), i0 as int) == (r.0 as int, pairs_view(r.1@)),
{
    proof {
        reveal_strlit(":");
    }
    let ghost l = ls.deep_view();
    let mut i = i0;
    let mut headers: Vec<(String, String)> = Vec::new();
    assert(pairs_view(headers@) + spec_headers(l, i0 as int).1 =~= spec_headers(l, i0 as int).1);
    assert(seq![':'] =~= ":"@);
    loop
        invariant
            i0 <= i <= ls.len(),
            l == ls.deep_view(),
            seq![':'] == ":"@,
            spec_headers(l, i0 as int).0 == spec_headers(l, i as int).0,
            spec_headers(l, i0 as int).1 == pairs_view(headers@) + spec_headers(l, i as int).1,
        decreases ls.len() - i,
    {
        if i >= ls.len() {
            assert(pairs_view(headers@) + Seq::<(Seq<char>, Seq<char>)>::empty() =~= pairs_view(headers@));
            return (i, headers);
        }
        proof {
            lemma_line_view(ls, i as int);
        }
        let t = trim_chars(&ls[i]);
        if t.len() == 0 {
            assert(pairs_view(headers@) + Seq::<(Seq<char>, Seq<char>)>::empty() =~= pairs_view(headers@));
            return (i, headers);
        }
        let ghost before = pairs_view(headers@);
        match find_char(&t, ':') {
            Some(p) => {
                proof {
                    lemma_find_char_bound(t@, ':');
                }
                let hn = trim_chars(&slice_chars(&t, 0, p));
                let hv = trim_chars(&slice_chars(&t, p + 1, t.len()));
                headers.push((string_of(&hn), string_of(&hv)));
                assert(pairs_view(headers@) =~= before.push((hn@, hv@)));
                assert(before.push((hn@, hv@)) + spec_headers(l, i + 1).1 =~= before + (seq![
                    (hn@, hv@),
                ] + spec_headers(l, i + 1).1));
            },
            None => {},
        }
        i += 1;
    }
}

/// The body from line `j` on.
fn section_body(ls: &Vec<Vec<char>>, j: usize) -> (r: Option<String>)
    ensures
        opt_view(r) == spec_body(ls.deep_view(), j as int),
{
    if j < ls.len() {
        let nl = chars_of("\n");
        let joined = join_from(ls, j, &nl);
        let b = trim_end_chars(&joined);
        if b.len() == 0 {
            None
        } else {
            Some(string_of(&b))
        }
    } else {
        None
    }
}

/// Parses one section: adds its file variables to `variables` and its
/// request, if it has one, to `requests`.
fn parse_section(
    text: &Vec<char>,
    start_line: usize,
    variables: &mut StrMap<String>,
    requests: &mut Vec<ParsedRequest>,
)
    requires
        start_line + text.len() <= usize::MAX,
    ensures
        ({
            let (vars2, r) = spec_section(text@, start_line as nat, old(variables)@);
            &&& final(variables)@ == vars2
            &&& match r {
                Some(req) => requests_view(final(requests)@) == requests_view(old(requests)@).push(req),
                None => requests_view(final(requests)@) == requests_view(old(requests)@),
            }
        }),
{
    let ls = lines_of(text);
    proof {
        lemma_lines_len(text@);
    }
    let ghost l = ls.deep_view();
    let i = scan_prelude(&ls, variables);
    if i >= ls.len() {
        return ;
    }
    let (i2, name, note, no_redirect, no_cookie_jar) = scan_annotations(&ls, i);
    if i2 >= ls.len() {
        return ;
    }
    proof {
        lemma_line_view(&ls, i2 as int);
    }
    let rl = trim_chars(&ls[i2]);
    let (method, url) = match parse_request_line(&rl) {
        Some(mu) => mu,
        None => {
            return ;
        },
    };
    let (c, more) = scan_url_continuation(&ls, i2 + 1);
    let mut full_url = url;
    append_vec(&mut full_url, &more);
    let (e, headers) = scan_headers(&ls, c);
    let mut j = e;
    if e < ls.len() {
        proof {
            lemma_line_view(&ls, e as int);
        }
        let te = trim_chars(&ls[e]);
        if te.len() == 0 {
            j = e + 1;
        }
    }
    let body = section_body(&ls, j);
    let req = ParsedRequest {
        name: opt_string(name),
        note: opt_string(note),
        method: string_of(&method),
        url: string_of(&full_url),
        headers,
        body,
        line: start_line + i2,
        no_redirect,
        no_cookie_jar,
    };
    let ghost before = requests_view(requests@);
    requests.push(req);
    assert(requests_view(requests@) =~= before.push(req@));
}

// ---------------------------------------------------------------------------
// Sections and files
// ---------------------------------------------------------------------------
pub open spec fn sections_view(v: Seq<(Vec<char>, usize)>) -> Seq<(Seq<char>, nat)> {
    v.map_values(|p: (Vec<char>, usize)| (p.0@, p.1 as nat))
}

/// Splits the lines of a file into sections at `###` separator lines.
fn split_sections(ls: &Vec<Vec<char>>) -> (r: Vec<(Vec<char>, usize)>)
    ensures
        sections_view(r@) == spec_sections_from(ls.deep_view(), 0, seq![], 0, seq![]),
        forall|k: int|
            0 <= k < r.len() ==> r@[k].1 + r@[k].0.len() <= ls.len() + total_len(ls.deep_view()),
{
    proof {
        reveal_strlit("###");
        reveal_strlit("\n");
    }
    let ghost l = ls.deep_view();
    let sep = chars_of("###");
    let nl = chars_of("\n");
    let mut r: Vec<(Vec<char>, usize)> = Vec::new();
    let mut cur: Vec<char> = Vec::new();
    let mut start: usize = 0;
    let mut i: usize = 0;
    proof {
        assert(l.take(0) =~= Seq::<Seq<char>>::empty());
        assert(sections_view(r@) =~= Seq::<(Seq<char>, nat)>::empty());
        assert(l.take(0) + l.skip(0) =~= l);
        lemma_total_len_append(l.take(0), l.skip(0));
    }
    while i < ls.len()
        invariant
            i <= ls.len(),
            l == ls.deep_view(),
            sep@ == "###"@,
            nl@ == "\n"@,
            nl.len() == 1,
            start <= i,
            cur.len() <= total_len(l.take(i as int)),
            total_len(l.take(i as int)) <= total_len(l),
            spec_sections_from(l, 0, seq![], 0, seq![]) == spec_sections_from(
                l,
                i as int,
                cur@,
                start as nat,
                sections_view(r@),
            ),
            forall|k: int| 0 <= k < r.len() ==> r@[k].1 + r@[k].0.len() <= ls.len() + total_len(l),
        decreases ls.len() - i,
    {
        proof {
            lemma_line_view(ls, i as int);
            assert(l.take(i + 1) =~= l.take(i as int) + seq![l[i as int]]);
            lemma_total_len_append(l.take(i as int), seq![l[i as int]]);
            assert(seq![l[i as int]].drop_first() =~= Seq::<Seq<char>>::empty());
            assert(l.take(i + 1) + l.skip(i + 1) =~= l);
            lemma_total_len_append(l.take(i + 1), l.skip(i + 1));
        }
        let ts = trim_start_chars(&ls[i]);
        if starts_with_chars(&ts, &sep) {
            if cur.len() > 0 {
                let ghost before = sections_view(r@);
                let mut done: Vec<char> = Vec::new();
                std::mem::swap(&mut done, &mut cur);
                r.push((done, start));
                assert(sections_view(r@) =~= before.push((done@, start as nat)));
            }
            start = i + 1;
            cur = Vec::new();
        } else {
            if cur.len() == 0 {
                start = i;
            }
            crate::text::append_vec(&mut cur, &ls[i]);
            crate::text::append_vec(&mut cur, &nl);
        }
        i += 1;
    }
    if cur.len() > 0 {
        let ghost before = sections_view(r@);
        r.push((cur, start));
        assert(sections_view(r@) =~= before.push((cur@, start as nat)));
    }
    r
}

/// Parses an `.http` file: its file variables and its requests.
pub fn parse(text: &str) -> (file: HttpFile)
    requires
        text@.len() <= isize::MAX,
    ensures
        file.variables@ == spec_parse(text@).0,
        requests_view(file.requests@) == spec_parse(text@).1,
{
    let chars = chars_of(text);
    let ls = lines_of(&chars);
    proof {
        lemma_lines_len(text@);
        lemma_total_len_lines(text@);
    }
    let secs = split_sections(&ls);
    let ghost sv = sections_view(secs@);
    let mut variables: StrMap<String> = StrMap::new();
    let mut requests: Vec<ParsedRequest> = Vec::new();
    let mut k: usize = 0;
    assert(sv.take(0) =~= Seq::<(Seq<char>, nat)>::empty());
    assert(requests_view(requests@) =~= Seq::<RequestModel>::empty());
    while k < secs.len()
        invariant
            k <= secs.len(),
            sv == sections_view(secs@),
            sv == spec_sections(text@),
            forall|m: int| 0 <= m < secs.len() ==> secs@[m].1 + secs@[m].0.len() <= usize::MAX,
            (variables@, requests_view(requests@)) == spec_parse_sections(
                sv.take(k as int),
                Map::empty(),
                seq![],
            ),
        decreases secs.len() - k,
    {
        assert(sv.take(k + 1).drop_last() =~= sv.take(k as int));
        assert(sv[k as int] == (secs@[k as int].0@, secs@[k as int].1 as nat));
        parse_section(&secs[k].0, secs[k].1, &mut variables, &mut requests);
        k += 1;
    }
    assert(sv.take(secs.len() as int) =~= sv);
    HttpFile { variables, requests }
}

/// The index of the last request whose request line is at or before `line`.
pub open spec fn spec_request_at_line(reqs: Seq<RequestModel>, line: nat) -> Option<int>
    decreases reqs.len(),
{
    if reqs.len() == 0 {
        None
    } else if reqs.last().line <= line {
        Some(reqs.len() - 1)
    } else {
        spec_request_at_line(reqs.drop_last(), line)
    }
}

/// The request a cursor on `line` belongs to: the last one starting at or
/// before it.
pub fn find_request_at_line(file: &HttpFile, line: usize) -> (r: Option<&ParsedRequest>)
    ensures
        r is None ==> spec_request_at_line(requests_view(file.requests@), line as nat) is None,
        r matches Some(req) ==> (spec_request_at_line(requests_view(file.requests@), line as nat)
            matches Some(i) && 0 <= i < file.requests.len() && req@ == file.requests@[i]@),
{
    let ghost rv = requests_view(file.requests@);
    let mut k = file.requests.len();
    assert(rv.take(k as int) =~= rv);
    while k > 0
        invariant
            k <= file.requests.len(),
            rv == requests_view(file.requests@),
            spec_request_at_line(rv, line as nat) == spec_request_at_line(rv.take(k as int), line as nat),
        decreases k,
    {
        if file.requests[k - 1].line <= line {
            return Some(&file.requests[k - 1]);
        }
        assert(rv.take(k as int).drop_last() =~= rv.take(k - 1));
        k -= 1;
    }
    None
}

/// A copy of a list of (name, value) pairs.
pub fn copy_pairs(v: &Vec<(String, String)>) -> (r: Vec<(String, String)>)
    ensures
        r@ == v@,
{
    let mut r: Vec<(String, String)> = Vec::new();
    let mut i: usize = 0;
    while i < v.len()
        invariant
            i <= v.len(),
            r@ == v@.take(i as int),
        decreases v.len() - i,
    {
        let p = (v[i].0.clone(), v[i].1.clone());
        r.push(p);
        assert(v@.take(i + 1) =~= v@.take(i as int).push(v@[i as int]));
        i += 1;
    }
    assert(v@.take(v.len() as int) =~= v@);
    r
}

pub fn copy_opt(o: &Option<String>) -> (r: Option<String>)
    ensures
        r == *o,
{
    match o {
        Some(s) => Some(s.clone()),
        None => None,
    }
}

impl ParsedRequest {
    /// A copy of the request.
    pub fn copy(&self) -> (r: ParsedRequest)
        ensures
            r@ == self@,
    {
        ParsedRequest {
            name: copy_opt(&self.name),
            note: copy_opt(&self.note),
            method: self.method.clone(),
            url: self.url.clone(),
            headers: copy_pairs(&self.headers),
            body: copy_opt(&self.body),
            line: self.line,
            no_redirect: self.no_redirect,
            no_cookie_jar: self.no_cookie_jar,
        }
    }
}

} // verus!
