//! The round trip of a request through a cURL command line: what
//! `to_curl` writes, `from_curl` reads back as the same request.
use vstd::prelude::*;
use crate::curl::{
    body_text, curl_header_part, curl_method, curl_parts, curl_step, curl_tokens, empty_curl_model,
    escape_single_quotes, header_block, http_text, interpret_from, json_formatted_body, next_token,
    normalize_continuations, replace_all, single_quoted, spec_curl_command, spec_to_curl, unquoted,
    CurlModel,
};
use crate::json::json_pretty_text;
use crate::parser::RequestModel;
use crate::text::{
    find, find_from, is_ws, join, lemma_find, lemma_find_from_shift, matches_at, trim_start,
    unicode_uppercase,
};

verus! {

/// The character does not occur in the text.
pub open spec fn no_char(s: Seq<char>, c: char) -> bool {
    forall|i: int| 0 <= i < s.len() ==> s[i] != c
}

/// Replacing a pattern whose first character does not occur changes
/// nothing.
proof fn lemma_replace_none(s: Seq<char>, pat: Seq<char>, w: Seq<char>)
    requires
        pat.len() > 0,
        no_char(s, pat[0]),
    ensures
        replace_all(s, pat, w) == s,
{
    lemma_find(s, pat);
    if let Some(k) = find(s, pat) {
        assert(s.subrange(k, k + pat.len())[0] == s[k]);
    }
}

/// The first occurrence of a pattern is the one right after a prefix
/// without the pattern's first character.
proof fn lemma_find_after(x: Seq<char>, y: Seq<char>, pat: Seq<char>)
    requires
        pat.len() > 0,
        no_char(x, pat[0]),
    ensures
        find(x + pat + y, pat) == Some(x.len() as int),
{
    let s = x + pat + y;
    let n = x.len() as int;
    assert forall|j: int| 0 <= j < n implies !matches_at(s, pat, j) by {
        if matches_at(s, pat, j) {
            let sub = s.subrange(j, j + pat.len());
            assert(sub[0] == s[j]);
            assert(s[j] == x[j]);
            assert(sub[0] == pat[0]);
        }
    }
    lemma_find_from_shift(s, pat, 0, n);
    assert(s.subrange(n, n + pat.len()) =~= pat);
    assert(matches_at(s, pat, n));
    assert(find_from(s, pat, n) == Some(n));
}

proof fn lemma_replace_first(x: Seq<char>, y: Seq<char>, pat: Seq<char>, w: Seq<char>)
    requires
        pat.len() > 0,
        no_char(x, pat[0]),
    ensures
        replace_all(x + pat + y, pat, w) == x + w + replace_all(y, pat, w),
{
    let s = x + pat + y;
    let n = x.len() as int;
    lemma_find_after(x, y, pat);
    assert(s.take(n) =~= x);
    assert(s.skip(n + pat.len()) =~= y);
    assert(replace_all(s, pat, w) == s.take(n) + w + replace_all(s.skip(n + pat.len()), pat, w));
}

/// A join read from the front: the first piece, the separator, and the
/// join of the rest.
proof fn lemma_join_first(ps: Seq<Seq<char>>, sep: Seq<char>)
    requires
        ps.len() >= 2,
    ensures
        join(ps, sep) == ps[0] + sep + join(ps.drop_first(), sep),
    decreases ps.len(),
{
    if ps.len() == 2 {
        assert(ps.drop_last().len() == 1);
        assert(ps.drop_first().len() == 1);
        assert(join(ps.drop_last(), sep) == ps.drop_last()[0]);
        assert(ps.drop_last()[0] == ps[0]);
        assert(join(ps.drop_first(), sep) == ps.drop_first()[0]);
        assert(ps.drop_first()[0] == ps.last());
    } else {
        lemma_join_first(ps.drop_last(), sep);
        assert(ps.drop_first().drop_last() =~= ps.drop_last().drop_first());
        assert(ps.drop_first().last() == ps.last());
        assert(ps.drop_last()[0] == ps[0]);
        let j1 = join(ps.drop_last().drop_first(), sep);
        assert(join(ps.drop_first(), sep) == j1 + sep + ps.last());
        assert(join(ps, sep) == (ps[0] + sep + j1) + sep + ps.last());
        assert((ps[0] + sep + j1) + sep + ps.last() =~= ps[0] + sep + (j1 + sep + ps.last()));
    }
}

/// The pieces after the first, each after two spaces.
pub open spec fn spaced(ps: Seq<Seq<char>>) -> Seq<char>
    decreases ps.len(),
{
    if ps.len() == 0 {
        seq![]
    } else {
        "  "@ + ps[0] + spaced(ps.drop_first())
    }
}

proof fn lemma_spaced_no_backslash(ps: Seq<Seq<char>>)
    requires
        forall|i: int| 0 <= i < ps.len() ==> no_char(#[trigger] ps[i], '\\'),
    ensures
        no_char(spaced(ps), '\\'),
    decreases ps.len(),
{
    reveal_strlit("  ");
    if ps.len() > 0 {
        assert forall|i: int| 0 <= i < ps.drop_first().len() implies no_char(
            #[trigger] ps.drop_first()[i],
            '\\',
        ) by {
            assert(ps.drop_first()[i] == ps[i + 1]);
        }
        lemma_spaced_no_backslash(ps.drop_first());
        assert(no_char(ps[0], '\\'));
        let s = "  "@ + ps[0] + spaced(ps.drop_first());
        assert forall|i: int| 0 <= i < s.len() implies s[i] != '\\' by {
            if i >= 2 + ps[0].len() {
                assert(s[i] == spaced(ps.drop_first())[i - 2 - ps[0].len()]);
            } else if i >= 2 {
                assert(s[i] == ps[0][i - 2]);
            }
        }
    }
}

/// Turning the line continuations of the joined pieces into spaces leaves
/// the first piece followed by the others, each after two spaces.
proof fn lemma_replace_join(ps: Seq<Seq<char>>)
    requires
        ps.len() >= 1,
        forall|i: int| 0 <= i < ps.len() ==> no_char(#[trigger] ps[i], '\\'),
    ensures
        replace_all(join(ps, " \\\n"@), "\\\n"@, " "@) == ps[0] + spaced(ps.drop_first()),
    decreases ps.len(),
{
    reveal_strlit(" \\\n");
    reveal_strlit("\\\n");
    reveal_strlit(" ");
    reveal_strlit("  ");
    let pat = "\\\n"@;
    assert(pat[0] == '\\');
    if ps.len() == 1 {
        lemma_replace_none(ps[0], pat, " "@);
        assert(spaced(ps.drop_first()) =~= Seq::<char>::empty());
        assert(ps[0] + Seq::<char>::empty() =~= ps[0]);
    } else {
        lemma_join_first(ps, " \\\n"@);
        let rest = join(ps.drop_first(), " \\\n"@);
        let x = ps[0] + " "@;
        assert(ps[0] + " \\\n"@ + rest =~= x + pat + rest);
        assert(no_char(ps[0], '\\'));
        assert(no_char(x, '\\')) by {
            assert forall|i: int| 0 <= i < x.len() implies x[i] != '\\' by {
                if i < ps[0].len() {
                    assert(x[i] == ps[0][i]);
                }
            }
        }
        lemma_replace_first(x, rest, pat, " "@);
        assert forall|i: int| 0 <= i < ps.drop_first().len() implies no_char(
            #[trigger] ps.drop_first()[i],
            '\\',
        ) by {
            assert(ps.drop_first()[i] == ps[i + 1]);
        }
        lemma_replace_join(ps.drop_first());
        assert(ps.drop_first()[0] == ps[1]);
        assert(spaced(ps.drop_first()) == "  "@ + ps[1] + spaced(ps.drop_first().drop_first()));
        assert(x + " "@ + (ps.drop_first()[0] + spaced(ps.drop_first().drop_first())) =~= ps[0]
            + spaced(ps.drop_first()));
    }
}

/// Each piece of the command holds no backslash where neither the method,
/// the URL, the headers nor the body does.
pub open spec fn plain_request(r: RequestModel) -> bool {
    &&& no_char(r.method, '\\')
    &&& no_char(r.url, '\\')
    &&& forall|i: int|
        0 <= i < r.headers.len() ==> no_char((#[trigger] r.headers[i]).0, '\\') && no_char(
            r.headers[i].1,
            '\\',
        )
    &&& r.body matches Some(b) ==> no_char(b, '\\') && no_char(b, '\'')
}

proof fn lemma_concat_no_char(a: Seq<char>, b: Seq<char>, c: char)
    requires
        no_char(a, c),
        no_char(b, c),
    ensures
        no_char(a + b, c),
{
    assert forall|i: int| 0 <= i < (a + b).len() implies (a + b)[i] != c by {
        if i >= a.len() {
            assert((a + b)[i] == b[i - a.len()]);
        } else {
            assert((a + b)[i] == a[i]);
        }
    }
}

proof fn lemma_escape_plain(b: Seq<char>)
    requires
        no_char(b, '\''),
    ensures
        escape_single_quotes(b) == b,
    decreases b.len(),
{
    if b.len() > 0 {
        assert(no_char(b.drop_last(), '\''));
        lemma_escape_plain(b.drop_last());
        assert(b.drop_last() + seq![b.last()] =~= b);
    }
}

/// The command with its line continuations turned into spaces.
pub proof fn lemma_normalized_command(r: RequestModel)
    requires
        plain_request(r),
    ensures
        normalize_continuations(spec_to_curl(r)) == curl_parts(r)[0] + spaced(curl_parts(r).drop_first()),
{
    reveal_strlit("curl -X ");
    reveal_strlit("  -H '");
    reveal_strlit(": ");
    reveal_strlit("'");
    reveal_strlit("  -d '");
    reveal_strlit("  '");
    reveal_strlit("\\\r\n");
    reveal_strlit(" ");
    let ps = curl_parts(r);
    let nh = r.headers.len();
    assert forall|i: int| 0 <= i < ps.len() implies no_char(#[trigger] ps[i], '\\') by {
        if i == 0 {
            lemma_concat_no_char("curl -X "@, r.method, '\\');
        } else if i <= nh {
            let h = r.headers[i - 1];
            assert(ps[i] == curl_header_part(h));
            lemma_concat_no_char("  -H '"@, h.0, '\\');
            lemma_concat_no_char("  -H '"@ + h.0, ": "@, '\\');
            lemma_concat_no_char("  -H '"@ + h.0 + ": "@, h.1, '\\');
            lemma_concat_no_char("  -H '"@ + h.0 + ": "@ + h.1, "'"@, '\\');
        } else if i == ps.len() - 1 {
            lemma_concat_no_char("  '"@, r.url, '\\');
            lemma_concat_no_char("  '"@ + r.url, "'"@, '\\');
        } else {
            let b = r.body->0;
            lemma_escape_plain(b);
            lemma_concat_no_char("  -d '"@, b, '\\');
            lemma_concat_no_char("  -d '"@ + b, "'"@, '\\');
        }
    }
    lemma_replace_join(ps);
    let once = ps[0] + spaced(ps.drop_first());
    assert forall|i: int| 0 <= i < ps.drop_first().len() implies no_char(
        #[trigger] ps.drop_first()[i],
        '\\',
    ) by {
        assert(ps.drop_first()[i] == ps[i + 1]);
    }
    lemma_spaced_no_backslash(ps.drop_first());
    lemma_concat_no_char(ps[0], spaced(ps.drop_first()), '\\');
    assert("\\\r\n"@[0] == '\\');
    lemma_replace_none(once, "\\\r\n"@, " "@);
}

// ---------------------------------------------------------------------------
// Tokens
// ---------------------------------------------------------------------------
pub open spec fn all_ws(w: Seq<char>) -> bool {
    forall|i: int| 0 <= i < w.len() ==> is_ws(w[i])
}

/// A bare word: not empty, no whitespace, not opening a quote.
pub open spec fn is_word(w: Seq<char>) -> bool {
    &&& w.len() > 0
    &&& forall|i: int| 0 <= i < w.len() ==> !is_ws(w[i])
    &&& w[0] != '\''
    &&& w[0] != '"'
}

proof fn lemma_trim_start_ws(w: Seq<char>, s: Seq<char>)
    requires
        all_ws(w),
    ensures
        trim_start(w + s) == trim_start(s),
    decreases w.len(),
{
    if w.len() > 0 {
        assert((w + s)[0] == w[0]);
        assert((w + s).drop_first() =~= w.drop_first() + s);
        lemma_trim_start_ws(w.drop_first(), s);
    } else {
        assert(w + s =~= s);
    }
}

/// Leading whitespace adds no token.
proof fn lemma_tokens_ws(w: Seq<char>, s: Seq<char>)
    requires
        all_ws(w),
    ensures
        curl_tokens(w + s) == curl_tokens(s),
{
    lemma_trim_start_ws(w, s);
}

proof fn lemma_unquoted_word(w: Seq<char>, s: Seq<char>)
    requires
        forall|i: int| 0 <= i < w.len() ==> !is_ws(w[i]),
        s.len() == 0 || is_ws(s[0]),
    ensures
        unquoted(w + s) == (w, s),
    decreases w.len(),
{
    if w.len() == 0 {
        assert(w + s =~= s);
    } else {
        assert((w + s)[0] == w[0]);
        assert((w + s).drop_first() =~= w.drop_first() + s);
        lemma_unquoted_word(w.drop_first(), s);
        assert(seq![w[0]] + w.drop_first() =~= w);
    }
}

/// A bare word followed by whitespace (or nothing) is one token.
proof fn lemma_tokens_word(w: Seq<char>, s: Seq<char>)
    requires
        is_word(w),
        s.len() == 0 || is_ws(s[0]),
    ensures
        curl_tokens(w + s) == seq![w] + curl_tokens(s),
{
    let t = w + s;
    assert(t[0] == w[0]);
    assert(trim_start(t) == t);
    lemma_unquoted_word(w, s);
    assert(next_token(t) == (w, s));
}

proof fn lemma_single_quoted_word(q: Seq<char>, s: Seq<char>)
    requires
        no_char(q, '\''),
    ensures
        single_quoted(q + "'"@ + s) == (q, s),
    decreases q.len(),
{
    reveal_strlit("'");
    let t = q + "'"@ + s;
    if q.len() == 0 {
        assert(t[0] == '\'');
        assert(t.drop_first() =~= s);
    } else {
        assert(t[0] == q[0]);
        assert(t.drop_first() =~= q.drop_first() + "'"@ + s);
        lemma_single_quoted_word(q.drop_first(), s);
        assert(seq![q[0]] + q.drop_first() =~= q);
    }
}

/// Single-quoted text is one token.
proof fn lemma_tokens_quoted(q: Seq<char>, s: Seq<char>)
    requires
        q.len() > 0,
        no_char(q, '\''),
    ensures
        curl_tokens("'"@ + q + "'"@ + s) == seq![q] + curl_tokens(s),
{
    reveal_strlit("'");
    let t = "'"@ + q + "'"@ + s;
    assert(t[0] == '\'');
    assert(trim_start(t) == t);
    assert(t.drop_first() =~= q + "'"@ + s);
    lemma_single_quoted_word(q, s);
    assert(next_token(t) == (q, s));
}

/// An option and its single-quoted value, after two spaces.
pub open spec fn opt_piece(o: (Seq<char>, Seq<char>)) -> Seq<char> {
    "  "@ + o.0 + " '"@ + o.1 + "'"@
}

pub open spec fn url_piece(url: Seq<char>) -> Seq<char> {
    "  '"@ + url + "'"@
}

/// The options and their values, in order.
pub open spec fn opt_tokens(os: Seq<(Seq<char>, Seq<char>)>) -> Seq<Seq<char>>
    decreases os.len(),
{
    if os.len() == 0 {
        seq![]
    } else {
        seq![os[0].0, os[0].1] + opt_tokens(os.drop_first())
    }
}

pub open spec fn good_opts(os: Seq<(Seq<char>, Seq<char>)>) -> bool {
    forall|i: int|
        0 <= i < os.len() ==> is_word((#[trigger] os[i]).0) && os[i].1.len() > 0 && no_char(
            os[i].1,
            '\'',
        )
}

/// The tokens of option pieces and a URL piece, each after two spaces.
proof fn lemma_tokens_spaced(os: Seq<(Seq<char>, Seq<char>)>, url: Seq<char>)
    requires
        good_opts(os),
        url.len() > 0,
        no_char(url, '\''),
    ensures
        curl_tokens(spaced(os.map_values(|o: (Seq<char>, Seq<char>)| opt_piece(o)) + seq![url_piece(url)]))
            == opt_tokens(os) + seq![url],
    decreases os.len(),
{
    reveal_strlit("  ");
    reveal_strlit("  '");
    reveal_strlit(" '");
    reveal_strlit("'");
    reveal_strlit(" ");
    let ps = os.map_values(|o: (Seq<char>, Seq<char>)| opt_piece(o)) + seq![url_piece(url)];
    let ws4 = "  "@ + "  "@;
    assert(all_ws(ws4));
    if os.len() == 0 {
        assert(ps =~= seq![url_piece(url)]);
        assert(ps.drop_first() =~= Seq::<Seq<char>>::empty());
        assert(spaced(ps.drop_first()) =~= Seq::<char>::empty());
        assert(ps[0] == url_piece(url));
        assert("  '"@ =~= "  "@ + "'"@);
        assert(spaced(ps) == "  "@ + url_piece(url) + Seq::<char>::empty());
        assert(spaced(ps) =~= ws4 + ("'"@ + url + "'"@ + Seq::<char>::empty()));
        lemma_tokens_ws(ws4, "'"@ + url + "'"@ + Seq::<char>::empty());
        lemma_tokens_quoted(url, Seq::<char>::empty());
        assert(curl_tokens(Seq::<char>::empty()) =~= Seq::<Seq<char>>::empty());
        assert(opt_tokens(os) =~= Seq::<Seq<char>>::empty());
        assert(seq![url] + Seq::<Seq<char>>::empty() =~= Seq::<Seq<char>>::empty() + seq![url]);
    } else {
        let o = os[0];
        let rest = os.drop_first();
        assert(good_opts(rest)) by {
            assert forall|i: int| 0 <= i < rest.len() implies is_word((#[trigger] rest[i]).0)
                && rest[i].1.len() > 0 && no_char(rest[i].1, '\'') by {
                assert(rest[i] == os[i + 1]);
            }
        }
        let ps2 = rest.map_values(|o: (Seq<char>, Seq<char>)| opt_piece(o)) + seq![url_piece(url)];
        assert(ps.drop_first() =~= ps2);
        assert(ps[0] == opt_piece(o));
        let s2 = spaced(ps2);
        assert(s2 == "  "@ + ps2[0] + spaced(ps2.drop_first()));
        assert(s2[0] == ' ');
        assert(is_word(o.0));
        let q = "'"@ + o.1 + "'"@ + s2;
        assert(spaced(ps) =~= ws4 + (o.0 + (" "@ + q)));
        lemma_tokens_ws(ws4, o.0 + (" "@ + q));
        assert((" "@ + q)[0] == ' ');
        lemma_tokens_word(o.0, " "@ + q);
        lemma_tokens_ws(" "@, q);
        lemma_tokens_quoted(o.1, s2);
        lemma_tokens_spaced(rest, url);
        assert(opt_tokens(os) == seq![o.0, o.1] + opt_tokens(rest));
        assert(seq![o.0] + (seq![o.1] + (opt_tokens(rest) + seq![url])) =~= opt_tokens(os) + seq![url]);
    }
}

pub open spec fn header_line(h: (Seq<char>, Seq<char>)) -> Seq<char> {
    h.0 + ": "@ + h.1
}

pub open spec fn header_opt(h: (Seq<char>, Seq<char>)) -> (Seq<char>, Seq<char>) {
    ("-H"@, header_line(h))
}

/// The options of the command: `-H` per header, then `-d` with the body.
pub open spec fn request_opts(r: RequestModel) -> Seq<(Seq<char>, Seq<char>)> {
    r.headers.map_values(|h: (Seq<char>, Seq<char>)| header_opt(h)) + match r.body {
        Some(b) => seq![("-d"@, b)],
        None => seq![],
    }
}

/// What a request asks of the headers, body and URL for the command's
/// tokens to be read back as written.
pub open spec fn quotable_request(r: RequestModel) -> bool {
    &&& plain_request(r)
    &&& is_word(r.method)
    &&& r.url.len() > 0
    &&& no_char(r.url, '\'')
    &&& forall|i: int|
        0 <= i < r.headers.len() ==> no_char((#[trigger] r.headers[i]).0, '\'') && no_char(
            r.headers[i].1,
            '\'',
        )
    &&& r.body matches Some(b) ==> b.len() > 0
}

proof fn lemma_parts_as_opts(r: RequestModel)
    requires
        quotable_request(r),
    ensures
        curl_parts(r).drop_first() == request_opts(r).map_values(|o: (Seq<char>, Seq<char>)| opt_piece(o))
            + seq![url_piece(r.url)],
        good_opts(request_opts(r)),
{
    reveal_strlit("  -H '");
    reveal_strlit("  -d '");
    reveal_strlit("  ");
    reveal_strlit("-H");
    reveal_strlit("-d");
    reveal_strlit(" '");
    reveal_strlit(": ");
    let os = request_opts(r);
    let nh = r.headers.len();
    let a = curl_parts(r).drop_first();
    let b = os.map_values(|o: (Seq<char>, Seq<char>)| opt_piece(o)) + seq![url_piece(r.url)];
    assert(a.len() == b.len());
    assert forall|i: int| 0 <= i < a.len() implies a[i] == b[i] by {
        if i < nh {
            let h = r.headers[i];
            assert(a[i] == curl_header_part(h));
            assert(os[i] == header_opt(h));
            assert(curl_header_part(h) =~= opt_piece(header_opt(h)));
        } else if i < a.len() - 1 {
            let bd = r.body->0;
            lemma_escape_plain(bd);
            assert(os[i] == ("-d"@, bd));
            assert(a[i] == "  -d '"@ + escape_single_quotes(bd) + "'"@);
            assert(a[i] =~= opt_piece(("-d"@, bd)));
        }
    }
    assert(a =~= b);
    assert forall|i: int| 0 <= i < os.len() implies is_word((#[trigger] os[i]).0) && os[i].1.len() > 0
        && no_char(os[i].1, '\'') by {
        if i < nh {
            let h = r.headers[i];
            assert(os[i] == header_opt(h));
            assert("-H"@[0] == '-');
            lemma_concat_no_char(h.0, ": "@, '\'');
            lemma_concat_no_char(h.0 + ": "@, h.1, '\'');
        } else {
            assert("-d"@[0] == '-');
        }
    }
}

/// The tokens of the command, once its line continuations are spaces.
pub proof fn lemma_command_tokens(r: RequestModel)
    requires
        quotable_request(r),
    ensures
        curl_tokens(normalize_continuations(spec_to_curl(r))) == seq!["curl"@, "-X"@, r.method]
            + opt_tokens(request_opts(r)) + seq![r.url],
{
    reveal_strlit("curl -X ");
    reveal_strlit("curl");
    reveal_strlit("-X");
    reveal_strlit(" ");
    reveal_strlit("  ");
    lemma_normalized_command(r);
    lemma_parts_as_opts(r);
    let os = request_opts(r);
    let ps = curl_parts(r);
    let tail = ps.drop_first();
    lemma_tokens_spaced(os, r.url);
    let st = spaced(tail);
    assert(st == "  "@ + tail[0] + spaced(tail.drop_first()));
    assert(st[0] == ' ');
    assert(ps[0] + st =~= "curl"@ + (" "@ + ("-X"@ + (" "@ + (r.method + st)))));
    assert(is_word("curl"@));
    assert(is_word("-X"@));
    lemma_tokens_word(r.method, st);
    lemma_tokens_ws(" "@, r.method + st);
    lemma_tokens_word("-X"@, " "@ + (r.method + st));
    lemma_tokens_ws(" "@, "-X"@ + (" "@ + (r.method + st)));
    lemma_tokens_word("curl"@, " "@ + ("-X"@ + (" "@ + (r.method + st))));
    assert(seq!["curl"@] + (seq!["-X"@] + (seq![r.method] + (opt_tokens(os) + seq![r.url])))
        =~= seq!["curl"@, "-X"@, r.method] + opt_tokens(os) + seq![r.url]);
}

// ---------------------------------------------------------------------------
// Reading the tokens
// ---------------------------------------------------------------------------
/// The options applied in order: `-H` adds a header line, anything else
/// (`-d`) sets the body.
pub open spec fn apply_opts(os: Seq<(Seq<char>, Seq<char>)>, m: CurlModel) -> CurlModel
    decreases os.len(),
{
    if os.len() == 0 {
        m
    } else {
        apply_opts(
            os.drop_first(),
            if os[0].0 == "-H"@ {
                CurlModel { headers: m.headers.push(os[0].1), ..m }
            } else {
                CurlModel { body: Some(os[0].1), ..m }
            },
        )
    }
}

pub open spec fn header_or_data(os: Seq<(Seq<char>, Seq<char>)>) -> bool {
    forall|i: int| 0 <= i < os.len() ==> (#[trigger] os[i]).0 == "-H"@ || os[i].0 == "-d"@
}

proof fn lemma_step_option(ts: Seq<Seq<char>>, i: int, m: CurlModel)
    requires
        0 <= i,
        i + 1 < ts.len(),
        ts[i] == "-H"@ || ts[i] == "-d"@,
    ensures
        curl_step(ts, i, m) == (if ts[i] == "-H"@ {
            CurlModel { headers: m.headers.push(ts[i + 1]), ..m }
        } else {
            CurlModel { body: Some(ts[i + 1]), ..m }
        }, i + 1),
{
    reveal_strlit("curl");
    reveal_strlit("-X");
    reveal_strlit("--request");
    reveal_strlit("-H");
    reveal_strlit("--header");
    reveal_strlit("-d");
    assert("-H"@.len() == 2 && "-d"@.len() == 2);
    assert("-H"@[1] == 'H' && "-d"@[1] == 'd' && "-X"@[1] == 'X');
    assert("-H"@ != "-d"@);
}

proof fn lemma_apply_options(ts: Seq<Seq<char>>, pre: Seq<Seq<char>>, os: Seq<(Seq<char>, Seq<char>)>, url: Seq<char>, m: CurlModel)
    requires
        ts == pre + opt_tokens(os) + seq![url],
        header_or_data(os),
    ensures
        interpret_from(ts, pre.len() as int, m) == interpret_from(
            ts,
            (pre.len() + 2 * os.len()) as int,
            apply_opts(os, m),
        ),
    decreases os.len(),
{
    if os.len() > 0 {
        let i = pre.len() as int;
        let o = os[0];
        let rest = os.drop_first();
        assert(opt_tokens(os) == seq![o.0, o.1] + opt_tokens(rest));
        let pre2 = pre + seq![o.0, o.1];
        assert(ts =~= pre2 + opt_tokens(rest) + seq![url]);
        assert(ts[i] == o.0);
        assert(ts[i + 1] == o.1);
        assert(o.0 == "-H"@ || o.0 == "-d"@);
        lemma_step_option(ts, i, m);
        let m2 = if o.0 == "-H"@ {
            CurlModel { headers: m.headers.push(o.1), ..m }
        } else {
            CurlModel { body: Some(o.1), ..m }
        };
        assert(interpret_from(ts, i, m) == interpret_from(ts, i + 2, m2));
        assert(header_or_data(rest)) by {
            assert forall|k: int| 0 <= k < rest.len() implies (#[trigger] rest[k]).0 == "-H"@
                || rest[k].0 == "-d"@ by {
                assert(rest[k] == os[k + 1]);
            }
        }
        lemma_apply_options(ts, pre2, rest, url, m2);
        assert(apply_opts(os, m) == apply_opts(rest, m2));
    }
}

/// The header options add their lines in order.
proof fn lemma_apply_headers(hs: Seq<(Seq<char>, Seq<char>)>, tail: Seq<(Seq<char>, Seq<char>)>, m: CurlModel)
    ensures
        apply_opts(hs.map_values(|h: (Seq<char>, Seq<char>)| header_opt(h)) + tail, m) == apply_opts(
            tail,
            CurlModel {
                headers: m.headers + hs.map_values(|h: (Seq<char>, Seq<char>)| header_line(h)),
                ..m
            },
        ),
    decreases hs.len(),
{
    let os = hs.map_values(|h: (Seq<char>, Seq<char>)| header_opt(h)) + tail;
    if hs.len() == 0 {
        assert(os =~= tail);
        assert(m.headers + hs.map_values(|h: (Seq<char>, Seq<char>)| header_line(h)) =~= m.headers);
    } else {
        let h = hs[0];
        assert(os[0] == header_opt(h));
        let m2 = CurlModel { headers: m.headers.push(header_line(h)), ..m };
        assert(os.drop_first() =~= hs.drop_first().map_values(|h: (Seq<char>, Seq<char>)| header_opt(h))
            + tail);
        lemma_apply_headers(hs.drop_first(), tail, m2);
        assert(m2.headers + hs.drop_first().map_values(|h: (Seq<char>, Seq<char>)| header_line(h))
            =~= m.headers + hs.map_values(|h: (Seq<char>, Seq<char>)| header_line(h)));
    }
}

proof fn lemma_not_option(t: Seq<char>, opt: Seq<char>)
    requires
        t.len() > 0,
        t[0] != '-',
        opt.len() > 0,
        opt[0] == '-',
    ensures
        t != opt,
{
}

proof fn lemma_step_url(ts: Seq<Seq<char>>, i: int, m: CurlModel)
    requires
        0 <= i < ts.len(),
        ts[i].len() > 0,
        ts[i][0] != '-',
        ts[i] != "curl"@,
        m.url is None,
    ensures
        curl_step(ts, i, m) == (CurlModel { url: Some(ts[i]), ..m }, i),
{
    reveal_strlit("-X");
    reveal_strlit("--request");
    reveal_strlit("-H");
    reveal_strlit("--header");
    reveal_strlit("-d");
    reveal_strlit("--data");
    reveal_strlit("--data-raw");
    reveal_strlit("--data-binary");
    reveal_strlit("--data-urlencode");
    reveal_strlit("-u");
    reveal_strlit("--user");
    reveal_strlit("-A");
    reveal_strlit("--user-agent");
    reveal_strlit("-o");
    reveal_strlit("--output");
    reveal_strlit("-w");
    reveal_strlit("--write-out");
    reveal_strlit("--connect-timeout");
    reveal_strlit("-m");
    reveal_strlit("--max-time");
    let t = ts[i];
    lemma_not_option(t, "-X"@);
    lemma_not_option(t, "--request"@);
    lemma_not_option(t, "-H"@);
    lemma_not_option(t, "--header"@);
    lemma_not_option(t, "-d"@);
    lemma_not_option(t, "--data"@);
    lemma_not_option(t, "--data-raw"@);
    lemma_not_option(t, "--data-binary"@);
    lemma_not_option(t, "--data-urlencode"@);
    lemma_not_option(t, "-u"@);
    lemma_not_option(t, "--user"@);
    lemma_not_option(t, "-A"@);
    lemma_not_option(t, "--user-agent"@);
    lemma_not_option(t, "-o"@);
    lemma_not_option(t, "--output"@);
    lemma_not_option(t, "-w"@);
    lemma_not_option(t, "--write-out"@);
    lemma_not_option(t, "--connect-timeout"@);
    lemma_not_option(t, "-m"@);
    lemma_not_option(t, "--max-time"@);
}

proof fn lemma_step_start(ts: Seq<Seq<char>>, m: CurlModel)
    requires
        ts.len() >= 4,
        ts[0] == "curl"@,
        ts[1] == "-X"@,
    ensures
        interpret_from(ts, 0, m) == interpret_from(
            ts,
            3,
            CurlModel { method: Some(unicode_uppercase(ts[2])), ..m },
        ),
{
    reveal_strlit("curl");
    reveal_strlit("-X");
    assert("curl"@.len() == 4 && "-X"@.len() == 2);
    assert(curl_step(ts, 0, m) == (m, 0int));
    assert(interpret_from(ts, 0, m) == interpret_from(ts, 1, m));
    assert(curl_step(ts, 1, m) == (CurlModel { method: Some(unicode_uppercase(ts[2])), ..m }, 2int));
}

/// A request written as a cURL command line reads back as the same
/// request: the method as `str::to_uppercase` gives it, the URL, one
/// `name: value` header line per header in order, and the body. This holds
/// for requests whose method is a bare word, whose URL neither starts with
/// `-` nor is `curl`, whose body is not empty, and where no `'` or `\`
/// occurs in the URL, a header or the body (nor `\` in the method), as
/// the command quotes them with `'` and reads `\` before a line break as
/// a continuation.
pub proof fn lemma_curl_round_trip(r: RequestModel)
    requires
        quotable_request(r),
        r.url[0] != '-',
        r.url != "curl"@,
    ensures
        spec_curl_command(spec_to_curl(r)) == (CurlModel {
            method: Some(unicode_uppercase(r.method)),
            url: Some(r.url),
            headers: r.headers.map_values(|h: (Seq<char>, Seq<char>)| header_line(h)),
            body: r.body,
        }),
{
    reveal_strlit("-H");
    reveal_strlit("-d");
    assert("-H"@[1] == 'H' && "-d"@[1] == 'd');
    lemma_command_tokens(r);
    let os = request_opts(r);
    let pre = seq!["curl"@, "-X"@, r.method];
    let ts = pre + opt_tokens(os) + seq![r.url];
    assert(curl_tokens(normalize_continuations(spec_to_curl(r))) == ts);
    let m0 = empty_curl_model();
    let m1 = CurlModel { method: Some(unicode_uppercase(r.method)), ..m0 };
    lemma_opt_tokens_len(os);
    assert(ts.len() == 4 + 2 * os.len());
    assert(ts[0] == "curl"@ && ts[1] == "-X"@ && ts[2] == r.method);
    lemma_step_start(ts, m0);
    assert(header_or_data(os)) by {
        assert forall|k: int| 0 <= k < os.len() implies (#[trigger] os[k]).0 == "-H"@ || os[k].0
            == "-d"@ by {
            if k < r.headers.len() {
                assert(os[k] == header_opt(r.headers[k]));
            }
        }
    }
    lemma_apply_options(ts, pre, os, r.url, m1);
    let hs = r.headers.map_values(|h: (Seq<char>, Seq<char>)| header_line(h));
    let tail = match r.body {
        Some(b) => seq![("-d"@, b)],
        None => Seq::<(Seq<char>, Seq<char>)>::empty(),
    };
    lemma_apply_headers(r.headers, tail, m1);
    let m2 = CurlModel { headers: m1.headers + hs, ..m1 };
    assert(m1.headers + hs =~= hs);
    let m3 = CurlModel { body: r.body, ..m2 };
    assert(apply_opts(tail, m2) == m3) by {
        match r.body {
            Some(b) => {
                let e = Seq::<(Seq<char>, Seq<char>)>::empty();
                assert(tail.drop_first() =~= e);
                assert(tail[0] == ("-d"@, b));
                assert(tail[0].0 != "-H"@);
                let mb = CurlModel { body: Some(b), ..m2 };
                assert(apply_opts(tail, m2) == apply_opts(tail.drop_first(), mb));
                assert(apply_opts(e, mb) == mb);
            },
            None => {
                assert(tail.len() == 0);
                assert(apply_opts(tail, m2) == m2);
            },
        }
    }
    let k = 3 + 2 * os.len();
    assert(ts[k as int] == r.url);
    lemma_step_url(ts, k as int, m3);
}

/// What `from_curl` gives for the command `to_curl` writes: the request
/// line with `HTTP/1.1`, one `name: value` line per header, and the body
/// (pretty-printed where it is JSON) after a blank line.
pub proof fn lemma_curl_round_trip_text(r: RequestModel)
    requires
        quotable_request(r),
        r.url[0] != '-',
        r.url != "curl"@,
    ensures
        ({
            let m = spec_curl_command(spec_to_curl(r));
            &&& m.url == Some(r.url)
            &&& http_text(m, r.url, body_text(m, json_formatted_body(m))) == unicode_uppercase(r.method)
                + " "@ + r.url + " HTTP/1.1\n"@ + header_block(
                r.headers.map_values(|h: (Seq<char>, Seq<char>)| header_line(h)),
            ) + match r.body {
                Some(b) => "\n"@ + match json_pretty_text(b) {
                    Some(p) => p,
                    None => b,
                } + "\n"@,
                None => seq![],
            }
        }),
{
    lemma_curl_round_trip(r);
}

proof fn lemma_opt_tokens_len(os: Seq<(Seq<char>, Seq<char>)>)
    ensures
        opt_tokens(os).len() == 2 * os.len(),
    decreases os.len(),
{
    if os.len() > 0 {
        lemma_opt_tokens_len(os.drop_first());
    }
}

// ---------------------------------------------------------------------------
// Data options
// ---------------------------------------------------------------------------
/// The options that give the body: `-d`, `--data`, `--data-raw`,
/// `--data-binary`.
pub open spec fn is_data_option(o: Seq<char>) -> bool {
    o == "-d"@ || o == "--data"@ || o == "--data-raw"@ || o == "--data-binary"@
}

proof fn lemma_step_data(ts: Seq<Seq<char>>, i: int, m: CurlModel)
    requires
        0 <= i,
        i + 1 < ts.len(),
        is_data_option(ts[i]),
    ensures
        curl_step(ts, i, m) == (CurlModel { body: Some(ts[i + 1]), ..m }, i + 1),
{
    reveal_strlit("curl");
    reveal_strlit("-X");
    reveal_strlit("--request");
    reveal_strlit("-H");
    reveal_strlit("--header");
    reveal_strlit("-d");
    reveal_strlit("--data");
    reveal_strlit("--data-raw");
    reveal_strlit("--data-binary");
    assert("-d"@.len() == 2 && "--data"@.len() == 6 && "--data-raw"@.len() == 10
        && "--data-binary"@.len() == 13);
    assert("curl"@.len() == 4 && "-X"@.len() == 2 && "--request"@.len() == 9 && "-H"@.len() == 2
        && "--header"@.len() == 8);
    assert("-d"@[1] == 'd' && "-X"@[1] == 'X' && "-H"@[1] == 'H');
}

proof fn lemma_apply_data(ts: Seq<Seq<char>>, pre: Seq<Seq<char>>, os: Seq<(Seq<char>, Seq<char>)>, m: CurlModel)
    requires
        ts == pre + opt_tokens(os),
        os.len() > 0,
        forall|k: int| 0 <= k < os.len() ==> is_data_option(#[trigger] os[k].0),
    ensures
        interpret_from(ts, pre.len() as int, m) == (CurlModel { body: Some(os.last().1), ..m }),
    decreases os.len(),
{
    let i = pre.len() as int;
    let o = os[0];
    let rest = os.drop_first();
    assert(opt_tokens(os) == seq![o.0, o.1] + opt_tokens(rest));
    lemma_opt_tokens_len(rest);
    assert(ts[i] == o.0);
    assert(ts[i + 1] == o.1);
    assert(is_data_option(os[0].0));
    lemma_step_data(ts, i, m);
    let m2 = CurlModel { body: Some(o.1), ..m };
    if os.len() == 1 {
        assert(ts.len() == i + 2);
    } else {
        let pre2 = pre + seq![o.0, o.1];
        assert(ts =~= pre2 + opt_tokens(rest));
        assert forall|k: int| 0 <= k < rest.len() implies is_data_option(#[trigger] rest[k].0) by {
            assert(rest[k] == os[k + 1]);
        }
        lemma_apply_data(ts, pre2, rest, m2);
        assert(rest.last() == os.last());
    }
}

/// The tokens of option pieces, each after two spaces.
proof fn lemma_tokens_spaced_opts(os: Seq<(Seq<char>, Seq<char>)>)
    requires
        good_opts(os),
    ensures
        curl_tokens(spaced(os.map_values(|o: (Seq<char>, Seq<char>)| opt_piece(o)))) == opt_tokens(os),
    decreases os.len(),
{
    reveal_strlit("  ");
    reveal_strlit(" '");
    reveal_strlit("'");
    reveal_strlit(" ");
    let ps = os.map_values(|o: (Seq<char>, Seq<char>)| opt_piece(o));
    let ws4 = "  "@ + "  "@;
    assert(all_ws(ws4));
    if os.len() == 0 {
        assert(ps =~= Seq::<Seq<char>>::empty());
        assert(spaced(ps) =~= Seq::<char>::empty());
        assert(curl_tokens(Seq::<char>::empty()) =~= Seq::<Seq<char>>::empty());
    } else {
        let o = os[0];
        let rest = os.drop_first();
        assert(good_opts(rest)) by {
            assert forall|i: int| 0 <= i < rest.len() implies is_word((#[trigger] rest[i]).0)
                && rest[i].1.len() > 0 && no_char(rest[i].1, '\'') by {
                assert(rest[i] == os[i + 1]);
            }
        }
        let ps2 = rest.map_values(|o: (Seq<char>, Seq<char>)| opt_piece(o));
        assert(ps.drop_first() =~= ps2);
        assert(ps[0] == opt_piece(o));
        let s2 = spaced(ps2);
        assert(s2.len() == 0 || s2[0] == ' ') by {
            if ps2.len() > 0 {
                assert(s2 == "  "@ + ps2[0] + spaced(ps2.drop_first()));
            } else {
                assert(s2 =~= Seq::<char>::empty());
            }
        }
        assert(is_word(o.0));
        let q = "'"@ + o.1 + "'"@ + s2;
        assert(spaced(ps) =~= ws4 + (o.0 + (" "@ + q)));
        lemma_tokens_ws(ws4, o.0 + (" "@ + q));
        assert((" "@ + q)[0] == ' ');
        lemma_tokens_word(o.0, " "@ + q);
        lemma_tokens_ws(" "@, q);
        lemma_tokens_quoted(o.1, s2);
        lemma_tokens_spaced_opts(rest);
        assert(opt_tokens(os) == seq![o.0, o.1] + opt_tokens(rest));
        assert(seq![o.0] + (seq![o.1] + opt_tokens(rest)) =~= opt_tokens(os));
    }
}

/// The command line `curl <url>` followed by data options, each with a
/// single-quoted payload.
pub open spec fn data_command(url: Seq<char>, os: Seq<(Seq<char>, Seq<char>)>) -> Seq<char> {
    "curl "@ + url + spaced(os.map_values(|o: (Seq<char>, Seq<char>)| opt_piece(o)))
}

/// Every data option (`-d`, `--data`, `--data-raw`, `--data-binary`) sets
/// the body to its argument, the last one winning; with a body and no
/// `-X`, the method is `POST`. This holds for a URL that is a bare word
/// not starting with `-` (and not `curl`), and payloads that are not empty,
/// with no `'` or `\` in them nor `\` in the URL.
pub proof fn lemma_data_options_set_body(url: Seq<char>, os: Seq<(Seq<char>, Seq<char>)>)
    requires
        is_word(url),
        url[0] != '-',
        url != "curl"@,
        no_char(url, '\\'),
        os.len() > 0,
        forall|k: int|
            0 <= k < os.len() ==> is_data_option((#[trigger] os[k]).0) && os[k].1.len() > 0
                && no_char(os[k].1, '\'') && no_char(os[k].1, '\\'),
    ensures
        spec_curl_command(data_command(url, os)) == (CurlModel {
            method: None,
            url: Some(url),
            headers: seq![],
            body: Some(os.last().1),
        }),
        curl_method(spec_curl_command(data_command(url, os))) == "POST"@,
{
    reveal_strlit("curl ");
    reveal_strlit("curl");
    reveal_strlit(" ");
    reveal_strlit("  ");
    reveal_strlit(" '");
    reveal_strlit("'");
    reveal_strlit("-d");
    reveal_strlit("--data");
    reveal_strlit("--data-raw");
    reveal_strlit("--data-binary");
    reveal_strlit("\\\n");
    reveal_strlit("\\\r\n");
    let ps = os.map_values(|o: (Seq<char>, Seq<char>)| opt_piece(o));
    let sp = spaced(ps);
    let text = data_command(url, os);
    // The options are words, and no piece holds a backslash.
    assert(good_opts(os)) by {
        assert forall|k: int| 0 <= k < os.len() implies is_word((#[trigger] os[k]).0) && os[k].1.len()
            > 0 && no_char(os[k].1, '\'') by {
            assert(is_data_option(os[k].0));
            assert(os[k].0[0] == '-');
        }
    }
    assert forall|k: int| 0 <= k < ps.len() implies no_char(#[trigger] ps[k], '\\') by {
        let o = os[k];
        assert(ps[k] == opt_piece(o));
        assert(is_data_option(o.0));
        assert(no_char(o.0, '\\'));
        lemma_concat_no_char("  "@, o.0, '\\');
        lemma_concat_no_char("  "@ + o.0, " '"@, '\\');
        lemma_concat_no_char("  "@ + o.0 + " '"@, o.1, '\\');
        lemma_concat_no_char("  "@ + o.0 + " '"@ + o.1, "'"@, '\\');
    }
    lemma_spaced_no_backslash(ps);
    lemma_concat_no_char("curl "@, url, '\\');
    lemma_concat_no_char("curl "@ + url, sp, '\\');
    assert("\\\n"@[0] == '\\' && "\\\r\n"@[0] == '\\');
    lemma_replace_none(text, "\\\n"@, " "@);
    lemma_replace_none(text, "\\\r\n"@, " "@);
    assert(normalize_continuations(text) == text);
    // Tokens: `curl`, the URL, then each option and its payload.
    lemma_tokens_spaced_opts(os);
    assert(sp.len() > 0 && sp[0] == ' ') by {
        assert(sp == "  "@ + ps[0] + spaced(ps.drop_first()));
    }
    assert(text =~= "curl"@ + (" "@ + (url + sp)));
    lemma_tokens_word(url, sp);
    lemma_tokens_ws(" "@, url + sp);
    assert(is_word("curl"@));
    lemma_tokens_word("curl"@, " "@ + (url + sp));
    let pre = seq!["curl"@, url];
    let ts = pre + opt_tokens(os);
    assert(seq!["curl"@] + (seq![url] + opt_tokens(os)) =~= ts);
    assert(curl_tokens(text) == ts);
    // Reading them.
    lemma_opt_tokens_len(os);
    let m0 = empty_curl_model();
    assert(curl_step(ts, 0, m0) == (m0, 0int));
    assert(interpret_from(ts, 0, m0) == interpret_from(ts, 1, m0));
    assert(ts[1] == url);
    lemma_step_url(ts, 1, m0);
    let m1 = CurlModel { url: Some(url), ..m0 };
    assert(interpret_from(ts, 1, m0) == interpret_from(ts, 2, m1));
    lemma_apply_data(ts, pre, os, m1);
}

} // verus!
