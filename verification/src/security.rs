//! Guards on what a request may touch: file paths inside the workspace,
//! the process environment through an allowlist, and warnings for
//! requests to local or private hosts.
use vstd::prelude::*;
use crate::text::{
    eq_ignore_ascii_case, eq_ignore_ascii_case_chars, rfind, rfind_chars,
    append_vec, chars_eq, chars_of, contains, contains_chars, decimal, decimal_chars, find,
    find_char, lemma_find, slice_chars, starts_with, starts_with_chars, string_of, trim,
    trim_chars,
};

verus! {

pub open spec fn result_view(r: Result<String, String>) -> Result<Seq<char>, Seq<char>> {
    match r {
        Ok(s) => Ok(s@),
        Err(e) => Err(e@),
    }
}

fn concat_parts(a: &str, b: &Vec<char>, c: &str) -> (r: String)
    ensures
        r@ == a@ + b@ + c@,
{
    let mut v = chars_of(a);
    append_vec(&mut v, b);
    let cv = chars_of(c);
    append_vec(&mut v, &cv);
    string_of(&v)
}

// ---------------------------------------------------------------------------
// File paths
// ---------------------------------------------------------------------------
/// What `Path::new(root).join(rel)` gives, as text.
pub uninterp spec fn joined_path(root: Seq<char>, rel: Seq<char>) -> Seq<char>;

/// Whether `Path::starts_with` holds: `base`'s components are a prefix of
/// `path`'s.
pub uninterp spec fn path_has_prefix(path: Seq<char>, base: Seq<char>) -> bool;

/// `Path::join`, as text; the result is named by `joined_path`.
#[verifier::external_body]
fn path_join(root: &str, rel: &str) -> (r: String)
    ensures
        r@ == joined_path(root@, rel@),
{
    std::path::Path::new(root).join(rel).to_string_lossy().to_string()
}

/// Holds of an outcome that a call of `Path::canonicalize` on `path` gave
/// (the resolved path as text, or the error's text). What comes back
/// depends on the file system at the time of the call, so this names no
/// single result: it only ties an outcome to the path it was asked for.
pub uninterp spec fn canonicalized_from(path: Seq<char>, outcome: Result<Seq<char>, Seq<char>>) -> bool;

/// `Path::canonicalize`: the absolute path with links resolved, as text
/// (bytes that are not UTF-8 replaced, as `to_string_lossy` does), or the
/// error's text. The contract ties the outcome to the path asked for; what
/// it is, the file system decides and nothing states.
#[verifier::external_body]
fn canonicalize_path(p: &str) -> (r: Result<String, String>)
    ensures
        canonicalized_from(p@, result_view(r)),
{
    match std::path::Path::new(p).canonicalize() {
        Ok(c) => Ok(c.to_string_lossy().to_string()),
        Err(e) => Err(e.to_string()),
    }
}

/// `Path::starts_with`; the result is named by `path_has_prefix`.
#[verifier::external_body]
fn path_starts_with(path: &str, base: &str) -> (b: bool)
    ensures
        b == path_has_prefix(path@, base@),
{
    std::path::Path::new(path).starts_with(std::path::Path::new(base))
}

pub open spec fn absolute_path_message(p: Seq<char>) -> Seq<char> {
    "absolute file path not allowed: "@ + p + ". Use a relative path within the workspace."@
}

pub open spec fn traversal_message(p: Seq<char>) -> Seq<char> {
    "path traversal not allowed: "@ + p + ". File references must stay within the workspace."@
}

/// What checking a resolved path gives, for the outcomes of resolving the
/// path (`canonical`) and the workspace root (`root_canonical`).
pub open spec fn resolution_outcome(
    p: Seq<char>,
    root: Seq<char>,
    canonical: Result<Seq<char>, Seq<char>>,
    root_canonical: Result<Seq<char>, Seq<char>>,
) -> Result<Seq<char>, Seq<char>> {
    match canonical {
        Err(e) => Err("cannot resolve path '"@ + p + "': "@ + e),
        Ok(c) => match root_canonical {
            Err(e) => Err("cannot resolve workspace root: "@ + e),
            Ok(w) => if path_has_prefix(c, w) {
                Ok(c)
            } else {
                Err("file path resolves outside workspace: "@ + p + ". Must be within "@ + root)
            },
        },
    }
}

/// `r` is what checking the resolved path gives, for an outcome of
/// resolving the path joined to the workspace root and an outcome of
/// resolving the workspace root itself.
pub open spec fn is_path_resolution(p: Seq<char>, root: Seq<char>, r: Result<Seq<char>, Seq<char>>) -> bool {
    exists|c: Result<Seq<char>, Seq<char>>, w: Result<Seq<char>, Seq<char>>|
        canonicalized_from(joined_path(root, p), c) && canonicalized_from(root, w) && r
            == #[trigger] resolution_outcome(p, root, c, w)
}

/// Checks a resolved path against the resolved workspace root: the path
/// when it lies inside, else an error naming the step that failed.
pub fn check_resolved_path(
    path: &str,
    workspace_root: &str,
    canonical: Result<String, String>,
    root_canonical: Result<String, String>,
) -> (r: Result<String, String>)
    ensures
        result_view(r) == resolution_outcome(
            path@,
            workspace_root@,
            result_view(canonical),
            result_view(root_canonical),
        ),
{
    proof {
        reveal_strlit("");
    }
    let p = chars_of(path);
    match canonical {
        Err(e) => {
            let mut v = chars_of("cannot resolve path '");
            append_vec(&mut v, &p);
            let tail = chars_of("': ");
            append_vec(&mut v, &tail);
            let ev = chars_of(e.as_str());
            append_vec(&mut v, &ev);
            Err(string_of(&v))
        },
        Ok(c) => match root_canonical {
            Err(e) => Err(concat_parts("cannot resolve workspace root: ", &chars_of(e.as_str()), "")),
            Ok(w) => if path_starts_with(c.as_str(), w.as_str()) {
                Ok(c)
            } else {
                let mut v = chars_of("file path resolves outside workspace: ");
                append_vec(&mut v, &p);
                let mid = chars_of(". Must be within ");
                append_vec(&mut v, &mid);
                let rv = chars_of(workspace_root);
                append_vec(&mut v, &rv);
                Err(string_of(&v))
            },
        },
    }
}

/// Checks that a file a request reads lies inside the workspace: the path
/// (trimmed) may not be absolute nor contain `..`; it is then resolved
/// against the workspace root and must stay inside it. Gives the resolved
/// path.
pub fn validate_file_path(path: &str, workspace_root: &str) -> (r: Result<String, String>)
    ensures
        ({
            let p = trim(path@);
            if starts_with(p, "/"@) || starts_with(p, "\\"@) {
                result_view(r) == Err::<Seq<char>, Seq<char>>(absolute_path_message(p))
            } else if contains(p, ".."@) {
                result_view(r) == Err::<Seq<char>, Seq<char>>(traversal_message(p))
            } else {
                is_path_resolution(p, workspace_root@, result_view(r))
            }
        }),
{
    let p = trim_chars(&chars_of(path));
    if starts_with_chars(&p, &chars_of("/")) || starts_with_chars(&p, &chars_of("\\")) {
        return Err(concat_parts(
            "absolute file path not allowed: ",
            &p,
            ". Use a relative path within the workspace.",
        ));
    }
    if contains_chars(&p, &chars_of("..")) {
        return Err(concat_parts(
            "path traversal not allowed: ",
            &p,
            ". File references must stay within the workspace.",
        ));
    }
    let ps = string_of(&p);
    let full = path_join(workspace_root, ps.as_str());
    let canonical = canonicalize_path(full.as_str());
    let root_canonical = canonicalize_path(workspace_root);
    let ghost cv = result_view(canonical);
    let ghost wv = result_view(root_canonical);
    let r = check_resolved_path(ps.as_str(), workspace_root, canonical, root_canonical);
    assert(canonicalized_from(joined_path(workspace_root@, p@), cv));
    assert(result_view(r) == resolution_outcome(p@, workspace_root@, cv, wv));
    r
}

// ---------------------------------------------------------------------------
// Environment variables
// ---------------------------------------------------------------------------
pub open spec fn env_blocked_message(name: Seq<char>) -> Seq<char> {
    "access to environment variable '"@ + name
        + "' is blocked. Add it to rest-client.allowedProcessEnvVars in .zed/settings.json to allow access."@
}

pub open spec fn env_not_allowed_message(name: Seq<char>) -> Seq<char> {
    "access to environment variable '"@ + name
        + "' is not in the allowlist. Add it to rest-client.allowedProcessEnvVars in .zed/settings.json."@
}

/// Reading an environment variable is allowed only for names on the
/// allowlist; an empty allowlist blocks every name.
pub fn validate_env_var(name: &str, allowed: &[String]) -> (r: Result<(), String>)
    ensures
        allowed@.len() == 0 ==> (r matches Err(e) && e@ == env_blocked_message(name@)),
        allowed@.len() > 0 && (exists|i: int| 0 <= i < allowed@.len() && #[trigger] allowed@[i]@ == name@) ==> r is Ok,
        allowed@.len() > 0 && !(exists|i: int| 0 <= i < allowed@.len() && #[trigger] allowed@[i]@ == name@) ==> (r matches Err(e) && e@ == env_not_allowed_message(name@)),
{
    let nv = chars_of(name);
    if allowed.len() == 0 {
        return Err(concat_parts(
            "access to environment variable '",
            &nv,
            "' is blocked. Add it to rest-client.allowedProcessEnvVars in .zed/settings.json to allow access.",
        ));
    }
    let mut i: usize = 0;
    while i < allowed.len()
        invariant
            i <= allowed@.len(),
            nv@ == name@,
            forall|j: int| 0 <= j < i ==> #[trigger] allowed@[j]@ != name@,
        decreases allowed.len() - i,
    {
        if chars_eq(&chars_of(allowed[i].as_str()), &nv) {
            return Ok(());
        }
        i += 1;
    }
    Err(concat_parts(
        "access to environment variable '",
        &nv,
        "' is not in the allowlist. Add it to rest-client.allowedProcessEnvVars in .zed/settings.json.",
    ))
}

// ---------------------------------------------------------------------------
// Hosts of URLs
// ---------------------------------------------------------------------------
/// The text before the first `c`, all of it if there is none.
pub open spec fn before_char(s: Seq<char>, c: char) -> Seq<char> {
    match find(s, seq![c]) {
        Some(i) => s.take(i),
        None => s,
    }
}

/// The text after the last `c`, all of it if there is none.
pub open spec fn after_last_char(s: Seq<char>, c: char) -> Seq<char> {
    match rfind(s, seq![c]) {
        Some(i) => s.skip(i + 1),
        None => s,
    }
}

fn after_last_char_exec(s: &Vec<char>, c: char) -> (r: Vec<char>)
    ensures
        r@ == after_last_char(s@, c),
{
    let pat = vec![c];
    assert(pat@ =~= seq![c]);
    proof {
        crate::text::lemma_rfind_below(s@, seq![c], s@.len() - 1);
    }
    match rfind_chars(s, &pat) {
        Some(i) => {
            assert(rfind(s@, seq![c]) == Some(i as int));
            assert(i + 1 <= s.len());
            let r = slice_chars(s, i + 1, s.len());
            assert(r@ =~= s@.skip(i + 1));
            r
        },
        None => slice_chars(s, 0, s.len()),
    }
}

/// The host of a URL: after the scheme and any `user@`, before the path
/// and the port; an IPv6 literal keeps its brackets.
pub open spec fn spec_extract_host(url: Seq<char>) -> Seq<char> {
    let after_scheme = if starts_with(url, "https://"@) {
        url.skip(8)
    } else if starts_with(url, "http://"@) {
        url.skip(7)
    } else {
        url
    };
    let host_port = after_last_char(before_char(after_scheme, '/'), '@');
    if starts_with(host_port, "["@) {
        before_char(host_port, ']') + "]"@
    } else {
        before_char(host_port, ':')
    }
}

fn before_char_exec(s: &Vec<char>, c: char) -> (r: Vec<char>)
    ensures
        r@ == before_char(s@, c),
{
    proof {
        lemma_find(s@, seq![c]);
    }
    match find_char(s, c) {
        Some(i) => {
            let r = slice_chars(s, 0, i);
            assert(r@ =~= s@.take(i as int));
            r
        },
        None => slice_chars(s, 0, s.len()),
    }
}

/// The host of a URL.
pub fn extract_host(url: &str) -> (r: Option<String>)
    ensures
        r matches Some(h) && h@ == spec_extract_host(url@),
{
    proof {
        reveal_strlit("https://");
        reveal_strlit("http://");
        reveal_strlit("[");
        reveal_strlit("]");
    }
    let u = chars_of(url);
    let after = if starts_with_chars(&u, &chars_of("https://")) {
        slice_chars(&u, 8, u.len())
    } else if starts_with_chars(&u, &chars_of("http://")) {
        slice_chars(&u, 7, u.len())
    } else {
        slice_chars(&u, 0, u.len())
    };
    assert(after@ =~= if starts_with(u@, "https://"@) {
        u@.skip(8)
    } else if starts_with(u@, "http://"@) {
        u@.skip(7)
    } else {
        u@
    });
    let authority = before_char_exec(&after, '/');
    let host_port = after_last_char_exec(&authority, '@');
    if starts_with_chars(&host_port, &chars_of("[")) {
        let mut h = before_char_exec(&host_port, ']');
        h.push(']');
        Some(string_of(&h))
    } else {
        let h = before_char_exec(&host_port, ':');
        Some(string_of(&h))
    }
}

/// Whether a host names the local machine: `localhost` in any case, or
/// `[::1]`.
pub open spec fn is_localhost_name(host: Seq<char>) -> bool {
    eq_ignore_ascii_case(host, "localhost"@) || host == "[::1]"@
}

/// A warning for a request to the local machine by name.
pub fn host_warning(host: &str) -> (r: Option<String>)
    ensures
        is_localhost_name(host@) ==> (r matches Some(w) && w@
            == "request targets localhost ("@ + host@ + "). Ensure this is intentional."@),
        !is_localhost_name(host@) ==> r is None,
{
    let h = chars_of(host);
    if eq_ignore_ascii_case_chars(&h, &chars_of("localhost")) || chars_eq(&h, &chars_of("[::1]")) {
        Some(concat_parts("request targets localhost (", &h, "). Ensure this is intentional."))
    } else {
        None
    }
}

/// The host without leading `[` and trailing `]`, as an IP literal.
pub open spec fn strip_brackets(h: Seq<char>) -> Seq<char>
    decreases h.len(),
{
    if h.len() > 0 && h[0] == '[' {
        strip_brackets(h.drop_first())
    } else if h.len() > 0 && h.last() == ']' {
        strip_brackets(h.drop_last())
    } else {
        h
    }
}

/// The host as an IP literal: leading `[` and trailing `]` removed.
pub fn ip_literal(host: &str) -> (r: String)
    ensures
        r@ == strip_brackets(host@),
{
    let h = chars_of(host);
    let mut lo: usize = 0;
    let mut hi: usize = h.len();
    assert(h@.subrange(0, h.len() as int) =~= h@);
    while lo < hi && h[lo] == '['
        invariant
            lo <= hi <= h.len(),
            hi == h.len(),
            strip_brackets(h@) == strip_brackets(h@.subrange(lo as int, hi as int)),
        decreases hi - lo,
    {
        assert(h@.subrange(lo as int, hi as int).drop_first() =~= h@.subrange(lo + 1, hi as int));
        lo += 1;
    }
    while lo < hi && h[hi - 1] == ']'
        invariant
            lo <= hi <= h.len(),
            lo == hi || h@[lo as int] != '[',
            strip_brackets(h@) == strip_brackets(h@.subrange(lo as int, hi as int)),
        decreases hi - lo,
    {
        assert(h@.subrange(lo as int, hi as int).drop_last() =~= h@.subrange(lo as int, hi - 1));
        hi -= 1;
    }
    let r = slice_chars(&h, lo, hi);
    string_of(&r)
}

/// An IPv4 address in dotted decimal.
pub open spec fn dotted(o: Seq<u8>) -> Seq<char> {
    decimal(o[0] as nat) + "."@ + decimal(o[1] as nat) + "."@ + decimal(o[2] as nat) + "."@
        + decimal(o[3] as nat)
}

/// The warning for a request to an IPv4 address: loopback, private
/// networks and link-local (cloud metadata) addresses; none for others.
pub open spec fn spec_ipv4_warning(o: Seq<u8>) -> Option<Seq<char>> {
    let a = dotted(o);
    if o[0] == 127 {
        Some("request targets loopback address ("@ + a + "). Ensure this is intentional."@)
    } else if o[0] == 10 || (o[0] == 172 && 16 <= o[1] <= 31) || (o[0] == 192 && o[1] == 168) {
        Some("request targets private network ("@ + a + "). Ensure this is intentional."@)
    } else if o[0] == 169 && o[1] == 254 {
        Some(
            "request targets link-local/cloud metadata address ("@ + a
                + "). This is commonly used to steal cloud credentials. Ensure this is intentional."@,
        )
    } else {
        None
    }
}

/// The warning for a request to the IPv4 address with these octets.
pub fn ipv4_warning(octets: [u8; 4]) -> (r: Option<String>)
    ensures
        match r {
            Some(w) => spec_ipv4_warning(octets@) == Some(w@),
            None => spec_ipv4_warning(octets@) is None,
        },
{
    let mut a = decimal_chars(octets[0] as u128);
    a.push('.');
    let b = decimal_chars(octets[1] as u128);
    append_vec(&mut a, &b);
    a.push('.');
    let c = decimal_chars(octets[2] as u128);
    append_vec(&mut a, &c);
    a.push('.');
    let d = decimal_chars(octets[3] as u128);
    append_vec(&mut a, &d);
    proof {
        reveal_strlit(".");
    }
    assert(a@ =~= dotted(octets@));
    let o0 = octets[0];
    let o1 = octets[1];
    if o0 == 127 {
        Some(concat_parts("request targets loopback address (", &a, "). Ensure this is intentional."))
    } else if o0 == 10 || (o0 == 172 && 16 <= o1 && o1 <= 31) || (o0 == 192 && o1 == 168) {
        Some(concat_parts("request targets private network (", &a, "). Ensure this is intentional."))
    } else if o0 == 169 && o1 == 254 {
        Some(
            concat_parts(
                "request targets link-local/cloud metadata address (",
                &a,
                "). This is commonly used to steal cloud credentials. Ensure this is intentional.",
            ),
        )
    } else {
        None
    }
}

/// An IP address as `str::parse::<std::net::IpAddr>` reads it: the four
/// octets of an IPv4 address or the sixteen bytes of an IPv6 one.
pub enum IpLiteral {
    V4([u8; 4]),
    V6([u8; 16]),
}

pub ghost enum IpModel {
    V4(Seq<u8>),
    V6(Seq<u8>),
}

impl View for IpLiteral {
    type V = IpModel;

    open spec fn view(&self) -> IpModel {
        match self {
            IpLiteral::V4(o) => IpModel::V4(o@),
            IpLiteral::V6(b) => IpModel::V6(b@),
        }
    }
}

pub open spec fn opt_ip_view(ip: Option<IpLiteral>) -> Option<IpModel> {
    match ip {
        Some(a) => Some(a@),
        None => None,
    }
}

/// `Ipv6Addr::is_loopback`: the address `::1`.
pub open spec fn is_ipv6_loopback(b: Seq<u8>) -> bool {
    b.len() == 16 && (forall|i: int| 0 <= i < 15 ==> b[i] == 0) && b[15] == 1
}

/// The text of a URL that is read as an IP address: its host without the
/// brackets of an IPv6 literal.
pub open spec fn spec_url_ip_text(url: Seq<char>) -> Seq<char> {
    strip_brackets(spec_extract_host(url))
}

/// The warning for a request to a URL, given what its IP text
/// (`spec_url_ip_text`) reads as: a local host name; else an IPv4
/// loopback, private or link-local address; else the IPv6 loopback address
/// (shown as `::1`); else none.
pub open spec fn spec_url_warning(url: Seq<char>, ip: Option<IpModel>) -> Option<Seq<char>> {
    let host = spec_extract_host(url);
    if is_localhost_name(host) {
        Some("request targets localhost ("@ + host + "). Ensure this is intentional."@)
    } else {
        match ip {
            None => None,
            Some(IpModel::V4(o)) => spec_ipv4_warning(o),
            Some(IpModel::V6(b)) => if is_ipv6_loopback(b) {
                Some("request targets loopback address (::1). Ensure this is intentional."@)
            } else {
                None
            },
        }
    }
}

/// The text of a URL that is read as an IP address: its host without the
/// brackets of an IPv6 literal.
pub fn url_ip_text(url: &str) -> (r: String)
    ensures
        r@ == spec_url_ip_text(url@),
{
    let host = match extract_host(url) {
        Some(h) => h,
        None => string_of(&Vec::new()),
    };
    ip_literal(host.as_str())
}

/// A warning for a request to a URL that targets the local machine or a
/// private network. `ip` is what `str::parse::<IpAddr>` reads from
/// `url_ip_text(url)`, `None` where that is no IP address.
pub fn check_url_safety(url: &str, ip: Option<IpLiteral>) -> (r: Option<String>)
    ensures
        crate::parser::opt_view(r) == spec_url_warning(url@, opt_ip_view(ip)),
{
    let host = match extract_host(url) {
        Some(h) => h,
        None => string_of(&Vec::new()),
    };
    match host_warning(host.as_str()) {
        Some(w) => {
            return Some(w);
        },
        None => {},
    }
    match ip {
        None => None,
        Some(IpLiteral::V4(o)) => ipv4_warning(o),
        Some(IpLiteral::V6(b)) => {
            let mut loopback = b[15] == 1;
            let mut i: usize = 0;
            while i < 15
                invariant
                    i <= 15,
                    b@.len() == 16,
                    loopback == (b@[15] == 1 && forall|j: int| 0 <= j < i ==> b@[j] == 0),
                decreases 15 - i,
            {
                if b[i] != 0 {
                    loopback = false;
                }
                i += 1;
            }
            if loopback {
                Some(string_of(&chars_of("request targets loopback address (::1). Ensure this is intentional.")))
            } else {
                None
            }
        },
    }
}

} // verus!
