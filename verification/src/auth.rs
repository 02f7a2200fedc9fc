//! Authentication headers: `Basic user:password` is sent base64-encoded,
//! every other value passes through unchanged.
use vstd::prelude::*;
use vstd::utf8::encode_utf8;
use crate::text::{
    chars_of, contains, contains_chars, eq_ignore_ascii_case, eq_ignore_ascii_case_chars,
    slice_chars, starts_with, starts_with_chars, string_of, trim, trim_chars,
};

verus! {

// ---------------------------------------------------------------------------
// Base64 (standard alphabet, with `=` padding)
// ---------------------------------------------------------------------------
/// The 64 digits of the standard base64 alphabet.
pub open spec fn base64_alphabet() -> Seq<char> {
    "ABCDEFGHIJKLMNOPQRSTUVWXYZabcdefghijklmnopqrstuvwxyz0123456789+/"@
}

pub open spec fn base64_digit(n: int) -> char {
    base64_alphabet()[n]
}

/// The four characters for a group of one to three bytes: the bytes taken
/// as a 24-bit number (missing bytes are zero) cut into four 6-bit digits,
/// and `=` for each digit that only covers missing bytes.
pub open spec fn base64_group(b: Seq<u8>) -> Seq<char> {
    let b0 = b[0] as int;
    let b1 = if b.len() > 1 { b[1] as int } else { 0 };
    let b2 = if b.len() > 2 { b[2] as int } else { 0 };
    seq![
        base64_digit(b0 / 4),
        base64_digit((b0 % 4) * 16 + b1 / 16),
        if b.len() > 1 { base64_digit((b1 % 16) * 4 + b2 / 64) } else { '=' },
        if b.len() > 2 { base64_digit(b2 % 64) } else { '=' },
    ]
}

/// Base64 of a byte sequence, three bytes at a time.
pub open spec fn base64(b: Seq<u8>) -> Seq<char>
    decreases b.len(),
{
    if b.len() == 0 {
        Seq::empty()
    } else if b.len() <= 3 {
        base64_group(b)
    } else {
        base64_group(b.take(3)) + base64(b.skip(3))
    }
}

/// Four characters for every started group of three bytes.
pub proof fn lemma_base64_len(b: Seq<u8>)
    ensures
        base64(b).len() == 4 * ((b.len() + 2) / 3),
    decreases b.len(),
{
    if b.len() > 3 {
        lemma_base64_len(b.skip(3));
    }
}

fn base64_group_exec(alphabet: &Vec<char>, b0: u8, b1: u8, b2: u8, n: usize) -> (r: [char; 4])
    requires
        alphabet@ == base64_alphabet(),
        1 <= n <= 3,
        n < 2 ==> b1 == 0,
        n < 3 ==> b2 == 0,
    ensures
        r@ == base64_group(
            if n == 1 {
                seq![b0]
            } else if n == 2 {
                seq![b0, b1]
            } else {
                seq![b0, b1, b2]
            },
        ),
{
    proof {
        reveal_strlit("ABCDEFGHIJKLMNOPQRSTUVWXYZabcdefghijklmnopqrstuvwxyz0123456789+/");
    }
    let d0 = alphabet[(b0 / 4) as usize];
    let d1 = alphabet[((b0 % 4) * 16 + b1 / 16) as usize];
    let d2 = if n > 1 {
        alphabet[((b1 % 16) * 4 + b2 / 64) as usize]
    } else {
        '='
    };
    let d3 = if n > 2 {
        alphabet[(b2 % 64) as usize]
    } else {
        '='
    };
    let r = [d0, d1, d2, d3];
    assert(r@ =~= base64_group(
        if n == 1 {
            seq![b0]
        } else if n == 2 {
            seq![b0, b1]
        } else {
            seq![b0, b1, b2]
        },
    ));
    r
}

/// Base64 of the bytes, standard alphabet with padding.
pub fn base64_encode(input: &[u8]) -> (r: String)
    ensures
        r@ == base64(input@),
{
    let alphabet = chars_of("ABCDEFGHIJKLMNOPQRSTUVWXYZabcdefghijklmnopqrstuvwxyz0123456789+/");
    let mut out: Vec<char> = Vec::new();
    let len = input.len();
    let mut i: usize = 0;
    assert(input@.skip(0) =~= input@);
    assert(Seq::<char>::empty() + base64(input@) =~= base64(input@));
    while i < len
        invariant
            len == input@.len(),
            i <= len,
            alphabet@ == base64_alphabet(),
            out@ + base64(input@.skip(i as int)) == base64(input@),
        decreases len - i,
    {
        let ghost rest = input@.skip(i as int);
        let n: usize = if len - i >= 3 { 3 } else { len - i };
        let b0 = input[i];
        let b1 = if n > 1 { input[i + 1] } else { 0 };
        let b2 = if n > 2 { input[i + 2] } else { 0 };
        let g = base64_group_exec(&alphabet, b0, b1, b2, n);
        proof {
            let chunk = if n == 1 {
                seq![b0]
            } else if n == 2 {
                seq![b0, b1]
            } else {
                seq![b0, b1, b2]
            };
            assert(chunk =~= rest.take(n as int));
            if rest.len() > 3 {
                assert(rest.skip(3) =~= input@.skip(i + 3));
            } else {
                assert(chunk =~= rest);
            }
        }
        let ghost before = out@;
        out.push(g[0]);
        out.push(g[1]);
        out.push(g[2]);
        out.push(g[3]);
        proof {
            assert(out@ =~= before + g@);
            if rest.len() > 3 {
                assert(base64(rest) == base64_group(rest.take(3)) + base64(input@.skip(i + 3)));
                assert(out@ + base64(input@.skip(i + 3)) =~= before + base64(rest));
            } else {
                assert(input@.skip((i + n) as int) =~= Seq::<u8>::empty());
                assert(out@ + base64(input@.skip((i + n) as int)) =~= before + base64(rest));
            }
        }
        i = i + n;
    }
    assert(input@.skip(len as int) =~= Seq::<u8>::empty());
    assert(out@ + Seq::<char>::empty() =~= out@);
    string_of(&out)
}

// ---------------------------------------------------------------------------
// Authorization headers
// ---------------------------------------------------------------------------
/// The value a header is sent with: an `Authorization` header (any case)
/// whose trimmed value is `Basic ` followed by text with a `:` gets that
/// text, trimmed, encoded as base64 (its UTF-8 bytes); anything else is
/// unchanged.
pub open spec fn auth_header_value(name: Seq<char>, value: Seq<char>) -> Seq<char> {
    let t = trim(value);
    let rest = trim(t.skip(6));
    if eq_ignore_ascii_case(name, "authorization"@) && starts_with(t, "Basic "@) && contains(
        rest,
        seq![':'],
    ) {
        "Basic "@ + base64(encode_utf8(rest))
    } else {
        value
    }
}

/// Only an `Authorization` header with a `Basic` value holding a `:` is
/// rewritten; every other header, `Bearer` tokens and already encoded
/// credentials among them, keeps its value.
pub proof fn lemma_only_basic_credentials_rewritten(name: Seq<char>, value: Seq<char>)
    ensures
        auth_header_value(name, value) != value ==> eq_ignore_ascii_case(name, "authorization"@)
            && starts_with(trim(value), "Basic "@) && contains(trim(trim(value).skip(6)), seq![':']),
{
}

fn auth_replacement(name: &String, value: &String) -> (r: Option<String>)
    ensures
        r matches Some(s) ==> s@ == auth_header_value(name@, value@),
        r is None ==> auth_header_value(name@, value@) == value@,
{
    proof {
        reveal_strlit("authorization");
        reveal_strlit("Basic ");
    }
    let auth = chars_of("authorization");
    if !eq_ignore_ascii_case_chars(&chars_of(name.as_str()), &auth) {
        return None;
    }
    let t = trim_chars(&chars_of(value.as_str()));
    let prefix = chars_of("Basic ");
    if !starts_with_chars(&t, &prefix) {
        return None;
    }
    let tail = slice_chars(&t, 6, t.len());
    assert(tail@ =~= t@.skip(6));
    let rest = trim_chars(&tail);
    let colon = vec![':'];
    assert(colon@ =~= seq![':']);
    if !contains_chars(&rest, &colon) {
        return None;
    }
    let rest_s = string_of(&rest);
    let bytes = rest_s.as_str().as_bytes();
    assert(bytes@ == encode_utf8(rest@));
    let encoded = base64_encode(bytes);
    let mut out = prefix.clone();
    let enc = chars_of(encoded.as_str());
    let mut k: usize = 0;
    while k < enc.len()
        invariant
            k <= enc.len(),
            out@ == prefix@ + enc@.take(k as int),
        decreases enc.len() - k,
    {
        out.push(enc[k]);
        assert(enc@.take(k + 1) =~= enc@.take(k as int).push(enc@[k as int]));
        k += 1;
    }
    assert(enc@.take(enc.len() as int) =~= enc@);
    Some(string_of(&out))
}

/// `after` is `before` with its value rewritten by `auth_header_value`.
pub open spec fn auth_processed(before: (String, String), after: (String, String)) -> bool {
    after.0@ == before.0@ && after.1@ == auth_header_value(before.0@, before.1@)
}

/// Rewrites the headers before a request is sent: each value becomes
/// `auth_header_value` of its header, names and order unchanged.
pub fn process_auth_headers(headers: &mut [(String, String)])
    ensures
        final(headers)@.len() == old(headers)@.len(),
        forall|i: int|
            0 <= i < old(headers)@.len() ==> #[trigger] auth_processed(
                old(headers)@[i],
                final(headers)@[i],
            ),
{
    let n = headers.len();
    let mut i: usize = 0;
    while i < n
        invariant
            n == old(headers)@.len(),
            headers@.len() == n,
            i <= n,
            forall|j: int| 0 <= j < i ==> #[trigger] auth_processed(old(headers)@[j], headers@[j]),
            forall|j: int| i <= j < n ==> #[trigger] headers@[j] == old(headers)@[j],
        decreases n - i,
    {
        let ghost prev = headers@;
        match auth_replacement(&headers[i].0, &headers[i].1) {
            Some(v) => {
                let name = headers[i].0.clone();
                headers[i] = (name, v);
            },
            None => {},
        }
        assert(auth_processed(old(headers)@[i as int], headers@[i as int]));
        assert forall|j: int| 0 <= j < i + 1 implies #[trigger] auth_processed(
            old(headers)@[j],
            headers@[j],
        ) by {
            if j < i {
                assert(headers@[j] == prev[j]);
            }
        }
        i += 1;
    }
}

} // verus!
