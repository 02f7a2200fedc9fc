//! The values behind the system variables: `$guid`, `$randomInt`,
//! `$timestamp`, `$datetime`, `$localDatetime` and `$dotenv`.
//! What depends on the clock is computed from a reading of it that the
//! caller passes in.
use vstd::prelude::*;
use std::hash::Hasher;
use crate::text::{
    all_digits, append_vec, chars_eq, digit_char, digit_value, chars_of, decimal, decimal_chars, find, find_char, is_ws,
    is_whitespace, lemma_find_char_bound, lines, lines_of, parse_i64, parse_i64_chars,
    signed_decimal, signed_decimal_chars, slice_chars, starts_with, starts_with_chars, trim,
    trim_chars, trim_start, trim_start_chars,
};

verus! {

// ---------------------------------------------------------------------------
// Clock and seed
// ---------------------------------------------------------------------------
/// `SystemTime::now().duration_since(UNIX_EPOCH)` (zero if the clock is
/// before the epoch), as whole seconds and as nanoseconds. The reading
/// itself is not stated; the two parts are of one duration, so the seconds
/// are the nanoseconds divided by 10^9.
#[verifier::external_body]
pub(crate) fn unix_time_now() -> (r: (u64, u128))
    ensures
        r.0 as int == r.1 as int / 1_000_000_000,
{
    let d = std::time::SystemTime::now().duration_since(std::time::UNIX_EPOCH).unwrap_or_default();
    (d.as_secs(), d.as_nanos())
}

/// `u128::to_ne_bytes`: the value's bytes in the machine's byte order. Not
/// stated: which order that is.
#[verifier::external_body]
fn u128_ne_bytes(x: u128) -> [u8; 16] {
    x.to_ne_bytes()
}

/// The 64-bit hash that a fresh `std::collections::hash_map::DefaultHasher`
/// gives for the value (`Hash` for `u128` writes its bytes in the
/// machine's order). What the hash is, std leaves unspecified.
pub(crate) fn default_hash_u128(x: u128) -> u64 {
    let bytes = u128_ne_bytes(x);
    let mut hasher = std::collections::hash_map::DefaultHasher::new();
    hasher.write(bytes.as_slice());
    hasher.finish()
}

// ---------------------------------------------------------------------------
// Pseudo-random bytes
// ---------------------------------------------------------------------------
pub open spec fn lcg_mul() -> nat {
    6364136223846793005
}

pub open spec fn lcg_inc() -> nat {
    1442695040888963407
}

/// One step of the linear congruential generator, modulo 2^64.
pub open spec fn lcg_next(s: u64) -> u64 {
    ((s as nat * lcg_mul() + lcg_inc()) % 0x1_0000_0000_0000_0000) as u64
}

pub open spec fn lcg_state(s0: u64, k: nat) -> u64
    decreases k,
{
    if k == 0 {
        s0
    } else {
        lcg_next(lcg_state(s0, (k - 1) as nat))
    }
}

/// The bytes drawn from the generator started in `s0`: byte `i` is bits
/// 33..41 of the state after `i + 1` steps.
pub open spec fn lcg_bytes(s0: u64, n: nat) -> Seq<u8> {
    Seq::new(n, |i: int| (lcg_state(s0, (i + 1) as nat) >> 33) as u8)
}

/// `n` pseudo-random bytes from the generator seeded with `seed`.
pub fn fill_random(seed: u64, n: usize) -> (r: Vec<u8>)
    ensures
        r@ == lcg_bytes(seed, n as nat),
{
    let mut r: Vec<u8> = Vec::new();
    let mut state = seed;
    let mut i: usize = 0;
    while i < n
        invariant
            i <= n,
            state == lcg_state(seed, i as nat),
            r@ == lcg_bytes(seed, i as nat),
        decreases n - i,
    {
        let next: u128 = ((state as u128) * 6364136223846793005u128 + 1442695040888963407u128)
            % 0x1_0000_0000_0000_0000u128;
        state = next as u64;
        r.push((state >> 33) as u8);
        assert(r@ =~= lcg_bytes(seed, (i + 1) as nat));
        i += 1;
    }
    r
}

// ---------------------------------------------------------------------------
// UUID
// ---------------------------------------------------------------------------
pub open spec fn hex_digit(n: nat) -> char {
    if n < 10 {
        ((48 + n) as u32) as char
    } else {
        ((87 + n) as u32) as char
    }
}

/// Two lower-case hexadecimal digits per byte.
pub open spec fn hex_of(bs: Seq<u8>) -> Seq<char>
    decreases bs.len(),
{
    if bs.len() == 0 {
        seq![]
    } else {
        hex_of(bs.drop_last()) + seq![hex_digit((bs.last() / 16) as nat), hex_digit((bs.last() % 16) as nat)]
    }
}

/// The 16 bytes with the version (4) and variant (RFC 4122) bits set.
pub open spec fn uuid_v4_bytes(b: Seq<u8>) -> Seq<u8> {
    b.update(6, (b[6] & 0x0f) | 0x40).update(8, (b[8] & 0x3f) | 0x80)
}

/// `xxxxxxxx-xxxx-xxxx-xxxx-xxxxxxxxxxxx` from 16 bytes.
pub open spec fn uuid_text(b: Seq<u8>) -> Seq<char> {
    hex_of(b.subrange(0, 4)) + seq!['-'] + hex_of(b.subrange(4, 6)) + seq!['-'] + hex_of(
        b.subrange(6, 8),
    ) + seq!['-'] + hex_of(b.subrange(8, 10)) + seq!['-'] + hex_of(b.subrange(10, 16))
}

fn hex_digit_exec(n: u8) -> (c: char)
    requires
        n < 16,
    ensures
        c == hex_digit(n as nat),
{
    if n == 0 { '0' } else if n == 1 { '1' } else if n == 2 { '2' } else if n == 3 { '3' }
    else if n == 4 { '4' } else if n == 5 { '5' } else if n == 6 { '6' } else if n == 7 { '7' }
    else if n == 8 { '8' } else if n == 9 { '9' } else if n == 10 { 'a' } else if n == 11 { 'b' }
    else if n == 12 { 'c' } else if n == 13 { 'd' } else if n == 14 { 'e' } else { 'f' }
}

fn push_hex(out: &mut Vec<char>, b: &Vec<u8>, lo: usize, hi: usize)
    requires
        lo <= hi <= b.len(),
    ensures
        final(out)@ == old(out)@ + hex_of(b@.subrange(lo as int, hi as int)),
{
    let mut i = lo;
    assert(b@.subrange(lo as int, lo as int) =~= Seq::<u8>::empty());
    assert(old(out)@ + hex_of(Seq::<u8>::empty()) =~= old(out)@);
    while i < hi
        invariant
            lo <= i <= hi <= b.len(),
            out@ == old(out)@ + hex_of(b@.subrange(lo as int, i as int)),
        decreases hi - i,
    {
        let x = b[i];
        let ghost prev = b@.subrange(lo as int, i as int);
        assert(b@.subrange(lo as int, i + 1).drop_last() =~= prev);
        out.push(hex_digit_exec(x / 16));
        out.push(hex_digit_exec(x % 16));
        i += 1;
        assert(out@ =~= old(out)@ + hex_of(b@.subrange(lo as int, i as int)));
    }
}

/// Formats 16 bytes as a version-4 UUID.
pub fn format_uuid_v4(bytes: &Vec<u8>) -> (r: Vec<char>)
    requires
        bytes.len() == 16,
    ensures
        r@ == uuid_text(uuid_v4_bytes(bytes@)),
{
    let mut b = bytes.clone();
    assert(b@ == bytes@);
    let b6 = (b[6] & 0x0f) | 0x40;
    b.set(6, b6);
    let b8 = (b[8] & 0x3f) | 0x80;
    b.set(8, b8);
    assert(b@ =~= uuid_v4_bytes(bytes@));
    let mut out: Vec<char> = Vec::new();
    push_hex(&mut out, &b, 0, 4);
    out.push('-');
    push_hex(&mut out, &b, 4, 6);
    out.push('-');
    push_hex(&mut out, &b, 6, 8);
    out.push('-');
    push_hex(&mut out, &b, 8, 10);
    out.push('-');
    push_hex(&mut out, &b, 10, 16);
    assert(out@ =~= uuid_text(b@));
    out
}

pub proof fn lemma_hex_of_len(bs: Seq<u8>)
    ensures
        hex_of(bs).len() == 2 * bs.len(),
        forall|i: int| 0 <= i < hex_of(bs).len() ==> hex_of(bs)[i] != '-',
    decreases bs.len(),
{
    if bs.len() > 0 {
        lemma_hex_of_len(bs.drop_last());
        let h = hex_of(bs);
        let p = hex_of(bs.drop_last());
        assert forall|i: int| 0 <= i < h.len() implies h[i] != '-' by {
            if i < p.len() {
                assert(h[i] == p[i]);
            }
        }
    }
}

/// A version-4 UUID text has 36 characters, 4 of them dashes.
pub proof fn lemma_uuid_text_shape(b: Seq<u8>)
    requires
        b.len() == 16,
    ensures
        uuid_text(b).len() == 36,
        uuid_text(b)[8] == '-' && uuid_text(b)[13] == '-' && uuid_text(b)[18] == '-'
            && uuid_text(b)[23] == '-',
        forall|i: int|
            0 <= i < 36 && i != 8 && i != 13 && i != 18 && i != 23 ==> uuid_text(b)[i] != '-',
{
    lemma_hex_of_len(b.subrange(0, 4));
    lemma_hex_of_len(b.subrange(4, 6));
    lemma_hex_of_len(b.subrange(6, 8));
    lemma_hex_of_len(b.subrange(8, 10));
    lemma_hex_of_len(b.subrange(10, 16));
}

/// `$guid`: 16 pseudo-random bytes seeded from the hash of the clock's
/// nanoseconds, formatted as a version-4 UUID.
pub open spec fn spec_guid(seed: u64) -> Seq<char> {
    uuid_text(uuid_v4_bytes(lcg_bytes(seed, 16)))
}

pub fn uuid_v4(seed: u64) -> (r: Vec<char>)
    ensures
        r@ == spec_guid(seed),
{
    let bytes = fill_random(seed, 16);
    format_uuid_v4(&bytes)
}

// ---------------------------------------------------------------------------
// $randomInt
// ---------------------------------------------------------------------------
pub open spec fn first_ws_from(s: Seq<char>, i: int) -> int
    decreases s.len() - i,
{
    if i < 0 || i >= s.len() {
        s.len() as int
    } else if is_ws(s[i]) {
        i
    } else {
        first_ws_from(s, i + 1)
    }
}

/// `str::split_whitespace`: the maximal runs of non-whitespace characters.
pub open spec fn words(s: Seq<char>) -> Seq<Seq<char>>
    decreases s.len(),
{
    let t = trim_start(s);
    if t.len() == 0 || t.len() > s.len() {
        seq![]
    } else {
        let e = first_ws_from(t, 1);
        if 1 <= e <= t.len() {
            seq![t.subrange(0, e)] + words(t.subrange(e, t.len() as int))
        } else {
            seq![]
        }
    }
}

pub proof fn lemma_trim_start_len(s: Seq<char>)
    ensures
        trim_start(s).len() <= s.len(),
        trim_start(s).len() > 0 ==> !is_ws(trim_start(s)[0]),
        trim_start(s) == s.subrange(s.len() - trim_start(s).len(), s.len() as int),
    decreases s.len(),
{
    if s.len() > 0 && is_ws(s[0]) {
        lemma_trim_start_len(s.drop_first());
        assert(s.drop_first().subrange(
            s.drop_first().len() - trim_start(s.drop_first()).len(),
            s.drop_first().len() as int,
        ) =~= s.subrange(s.len() - trim_start(s).len(), s.len() as int));
    } else {
        assert(s.subrange(0, s.len() as int) =~= s);
    }
}

/// `str::split_whitespace`.
pub fn split_whitespace(s: &Vec<char>) -> (r: Vec<Vec<char>>)
    ensures
        r.deep_view() == words(s@),
{
    let mut r: Vec<Vec<char>> = Vec::new();
    let mut rest = slice_chars(s, 0, s.len());
    assert(rest@ =~= s@);
    assert(r.deep_view() =~= Seq::<Seq<char>>::empty());
    loop
        invariant
            words(s@) == r.deep_view() + words(rest@),
        decreases rest.len(),
    {
        let t = trim_start_chars(&rest);
        proof {
            lemma_trim_start_len(rest@);
        }
        if t.len() == 0 {
            assert(words(rest@) =~= Seq::<Seq<char>>::empty());
            assert(r.deep_view() + Seq::<Seq<char>>::empty() =~= r.deep_view());
            return r;
        }
        let mut e: usize = 1;
        while e < t.len() && !is_whitespace(t[e])
            invariant
                1 <= e <= t.len(),
                first_ws_from(t@, 1) == first_ws_from(t@, e as int),
            decreases t.len() - e,
        {
            e += 1;
        }
        let w = slice_chars(&t, 0, e);
        let next = slice_chars(&t, e, t.len());
        let ghost before = r.deep_view();
        assert(w.deep_view() =~= w@);
        r.push(w);
        assert(r.deep_view() =~= before.push(w@));
        assert(before.push(w@) + words(next@) =~= before + (seq![w@] + words(next@)));
        rest = next;
    }
}

/// `u64::from_le_bytes` on the first 8 bytes.
pub open spec fn le_u64(b: Seq<u8>) -> nat
    decreases b.len(),
{
    if b.len() == 0 {
        0
    } else {
        b[0] as nat + 256 * le_u64(b.drop_first())
    }
}

/// The `(min, max)` that `$randomInt` arguments give: two words that parse
/// as `i64` (0 and 100 standing in for one that does not), otherwise 0..100.
pub open spec fn random_int_bounds(args: Seq<char>) -> (int, int) {
    let parts = words(args);
    if parts.len() == 2 {
        (
            match parse_i64(parts[0]) {
                Some(v) => v as int,
                None => 0,
            },
            match parse_i64(parts[1]) {
                Some(v) => v as int,
                None => 100,
            },
        )
    } else {
        (0, 100)
    }
}

/// The value that `$randomInt` draws from `raw`: `min + raw % (max - min + 1)`
/// with the range taken modulo 2^64 and the offset read as `i64`. `None` on
/// the bounds for which that arithmetic overflows or divides by zero.
pub open spec fn spec_random_int(args: Seq<char>, raw: u64) -> Option<int> {
    let (min, max) = random_int_bounds(args);
    let diff = max - min;
    if diff < i64::MIN || diff > i64::MAX || diff + 1 > i64::MAX {
        None
    } else {
        let range = ((diff + 1) % 0x1_0000_0000_0000_0000) as nat;
        if range == 0 {
            None
        } else {
            let off = (raw as nat % range) as int;
            let off_i = if off > i64::MAX {
                off - 0x1_0000_0000_0000_0000
            } else {
                off
            };
            let v = min + off_i;
            if v < i64::MIN || v > i64::MAX {
                None
            } else {
                Some(v)
            }
        }
    }
}

/// A drawn integer lies between the bounds, when they are in order and
/// their distance leaves room for one more in `i64`.
pub proof fn lemma_random_int_in_range(args: Seq<char>, raw: u64)
    requires
        random_int_bounds(args).0 <= random_int_bounds(args).1,
        random_int_bounds(args).1 - random_int_bounds(args).0 < i64::MAX,
    ensures
        spec_random_int(args, raw) matches Some(v) && random_int_bounds(args).0 <= v <= random_int_bounds(args).1,
{
    let (min, max) = random_int_bounds(args);
    let diff = max - min;
    let range = ((diff + 1) % 0x1_0000_0000_0000_0000) as nat;
    assert(range == diff + 1);
    let off = (raw as nat % range) as int;
    assert(0 <= off < range);
    assert(i64::MIN <= min && max <= i64::MAX) by {
        let parts = words(args);
        if parts.len() == 2 {
            match parse_i64(parts[0]) {
                Some(v) => {},
                None => {},
            }
            match parse_i64(parts[1]) {
                Some(v) => {},
                None => {},
            }
        }
    }
}

fn le_u64_exec(b: &Vec<u8>) -> (r: u64)
    requires
        b.len() == 8,
    ensures
        r as nat == le_u64(b@),
{
    let mut acc: u128 = 0;
    let mut i: usize = 8;
    assert(b@.subrange(8, 8) =~= Seq::<u8>::empty());
    assert(forall|k: int| 0 <= k <= 8 ==> pow256(k) <= 0x1_0000_0000_0000_0000) by {
        reveal_with_fuel(pow256, 9);
    }
    while i > 0
        invariant
            i <= 8,
            b.len() == 8,
            acc as nat == le_u64(b@.subrange(i as int, 8)),
            acc < pow256(8 - i),
            forall|k: int| 0 <= k <= 8 ==> pow256(k) <= 0x1_0000_0000_0000_0000,
        decreases i,
    {
        i -= 1;
        assert(b@.subrange(i as int, 8).drop_first() =~= b@.subrange(i + 1, 8));
        assert(pow256(8 - i) == 256 * pow256(8 - (i + 1)));
        acc = (b[i] as u128) + 256 * acc;
    }
    assert(b@.subrange(0, 8) =~= b@);
    assert(pow256(8) == 0x1_0000_0000_0000_0000) by {
        reveal_with_fuel(pow256, 9);
    }
    acc as u64
}

pub open spec fn pow256(n: int) -> nat
    decreases n,
{
    if n <= 0 {
        1
    } else {
        256 * pow256(n - 1)
    }
}

/// `$randomInt min max` drawn from the generator seeded with `seed`.
pub fn random_int(args: &Vec<char>, seed: u64) -> (r: Option<i64>)
    ensures
        ({
            let raw = le_u64(lcg_bytes(seed, 8));
            match r {
                Some(v) => raw <= u64::MAX && spec_random_int(args@, raw as u64) == Some(v as int),
                None => raw <= u64::MAX && spec_random_int(args@, raw as u64) is None,
            }
        }),
{
    let parts = split_whitespace(args);
    let (min, max): (i64, i64) = if parts.len() == 2 {
        proof {
            assert(parts[0]@ =~= parts.deep_view()[0]);
            assert(parts[1]@ =~= parts.deep_view()[1]);
        }
        (
            match parse_i64_chars(&parts[0]) {
                Some(v) => v,
                None => 0,
            },
            match parse_i64_chars(&parts[1]) {
                Some(v) => v,
                None => 100,
            },
        )
    } else {
        (0, 100)
    };
    let bytes = fill_random(seed, 8);
    let raw = le_u64_exec(&bytes);
    let diff: i128 = (max as i128) - (min as i128);
    if diff < i64::MIN as i128 || diff > i64::MAX as i128 || diff + 1 > i64::MAX as i128 {
        return None;
    }
    let range128: i128 = (diff + 1) % 0x1_0000_0000_0000_0000i128;
    let range: u128 = if range128 < 0 { (range128 + 0x1_0000_0000_0000_0000i128) as u128 } else { range128 as u128 };
    assert(range as nat == ((diff + 1) % 0x1_0000_0000_0000_0000) as nat);
    if range == 0 {
        return None;
    }
    let off: u128 = (raw as u128) % range;
    let off_i: i128 = if off > i64::MAX as u128 { (off as i128) - 0x1_0000_0000_0000_0000i128 } else { off as i128 };
    let v: i128 = (min as i128) + off_i;
    if v < i64::MIN as i128 || v > i64::MAX as i128 {
        return None;
    }
    Some(v as i64)
}

// ---------------------------------------------------------------------------
// Dates
// ---------------------------------------------------------------------------
/// The civil date (year, month, day) of a day count since 1970-01-01, by
/// the days-to-civil algorithm (proleptic Gregorian calendar).
pub open spec fn civil_from_days(days: nat) -> (int, int, int) {
    let z = days + 719468;
    let era = z / 146097;
    let doe = z % 146097;
    let yoe = (doe - doe / 1460 + doe / 36524 - doe / 146096) / 365;
    let y = yoe + era * 400;
    let doy = doe - (365 * yoe + yoe / 4 - yoe / 100);
    let mp = (5 * doy + 2) / 153;
    let d = doy - (153 * mp + 2) / 5 + 1;
    let m = if mp < 10 {
        mp + 3
    } else {
        mp - 9
    };
    (if m <= 2 {
        y + 1
    } else {
        y
    }, m, d)
}

proof fn lemma_civil_parts(doe: int)
    by (nonlinear_arith)
    requires
        0 <= doe < 146097,
    ensures
        ({
            let yoe = (doe - doe / 1460 + doe / 36524 - doe / 146096) / 365;
            let doy = doe - (365 * yoe + yoe / 4 - yoe / 100);
            let mp = (5 * doy + 2) / 153;
            let d = doy - (153 * mp + 2) / 5 + 1;
            &&& 0 <= yoe <= 399
            &&& 0 <= doy <= 365
            &&& 0 <= mp <= 11
            &&& 1 <= d <= 31
        }),
{
}

/// Months run from 1 to 12 and days from 1 to 31.
pub proof fn lemma_civil_from_days_ranges(days: nat)
    ensures
        1 <= civil_from_days(days).1 <= 12,
        1 <= civil_from_days(days).2 <= 31,
        civil_from_days(days).0 >= 0,
{
    let z = days + 719468;
    lemma_civil_parts((z % 146097) as int);
}

/// The date of a day count since the epoch.
pub fn epoch_days_to_date(days: u64) -> (r: (u64, u64, u64))
    ensures
        (r.0 as int, r.1 as int, r.2 as int) == civil_from_days(days as nat),
{
    let z: u128 = days as u128 + 719468;
    let era: u128 = z / 146097;
    let doe: u128 = z % 146097;
    proof {
        lemma_civil_parts(doe as int);
    }
    let yoe: u128 = (doe - doe / 1460 + doe / 36524 - doe / 146096) / 365;
    let y: u128 = yoe + era * 400;
    let doy: u128 = doe - (365 * yoe + yoe / 4 - yoe / 100);
    let mp: u128 = (5 * doy + 2) / 153;
    let d: u128 = doy - (153 * mp + 2) / 5 + 1;
    let m: u128 = if mp < 10 { mp + 3 } else { mp - 9 };
    let y2: u128 = if m <= 2 { y + 1 } else { y };
    assert(y2 <= u64::MAX) by {
        assert(era <= z / 146097);
        assert(z <= u64::MAX + 719468);
    }
    (y2 as u64, m as u64, d as u64)
}

/// `n` in decimal, with zeros in front up to `w` characters (`{:0w}`).
pub open spec fn padded(n: nat, w: nat) -> Seq<char> {
    let d = decimal(n);
    if d.len() < w {
        Seq::new((w - d.len()) as nat, |i: int| '0') + d
    } else {
        d
    }
}

pub open spec fn day_name(i: nat) -> Seq<char> {
    if i == 0 { "Sun"@ } else if i == 1 { "Mon"@ } else if i == 2 { "Tue"@ } else if i == 3 {
        "Wed"@
    } else if i == 4 { "Thu"@ } else if i == 5 { "Fri"@ } else { "Sat"@ }
}

pub open spec fn month_name(m: int) -> Seq<char> {
    if m == 1 { "Jan"@ } else if m == 2 { "Feb"@ } else if m == 3 { "Mar"@ } else if m == 4 {
        "Apr"@
    } else if m == 5 { "May"@ } else if m == 6 { "Jun"@ } else if m == 7 { "Jul"@ } else if m
        == 8 { "Aug"@ } else if m == 9 { "Sep"@ } else if m == 10 { "Oct"@ } else if m == 11 {
        "Nov"@
    } else { "Dec"@ }
}

/// `$datetime <format>` for the instant `secs` seconds after the epoch:
/// ISO 8601 (`iso8601` or no format), RFC 1123 (`rfc1123`), otherwise the
/// seconds themselves.
pub open spec fn spec_format_datetime(format: Seq<char>, secs: u64) -> Seq<char> {
    let days = secs / 86400;
    let tod = secs % 86400;
    let (year, month, day) = civil_from_days(days as nat);
    let hh = padded((tod / 3600) as nat, 2);
    let mm = padded(((tod % 3600) / 60) as nat, 2);
    let ss = padded((tod % 60) as nat, 2);
    if format == "iso8601"@ || format.len() == 0 {
        padded(year as nat, 4) + "-"@ + padded(month as nat, 2) + "-"@ + padded(day as nat, 2)
            + "T"@ + hh + ":"@ + mm + ":"@ + ss + "Z"@
    } else if format == "rfc1123"@ {
        day_name(((days + 4) % 7) as nat) + ", "@ + padded(day as nat, 2) + " "@ + month_name(
            month,
        ) + " "@ + padded(year as nat, 4) + " "@ + hh + ":"@ + mm + ":"@ + ss + " GMT"@
    } else {
        decimal(secs as nat)
    }
}

/// The ISO 8601 form is a date, `T`, a time and `Z`, whatever the time.
pub proof fn lemma_iso8601_shape(secs: u64)
    ensures
        spec_format_datetime("iso8601"@, secs).len() > 0,
        spec_format_datetime("iso8601"@, secs).last() == 'Z',
        spec_format_datetime("iso8601"@, secs).contains('T'),
        spec_format_datetime(Seq::<char>::empty(), secs) == spec_format_datetime("iso8601"@, secs),
{
    reveal_strlit("iso8601");
    reveal_strlit("T");
    reveal_strlit("Z");
    let days = secs / 86400;
    let tod = secs % 86400;
    let (year, month, day) = civil_from_days(days as nat);
    let hh = padded((tod / 3600) as nat, 2);
    let mm = padded(((tod % 3600) / 60) as nat, 2);
    let ss = padded((tod % 60) as nat, 2);
    let date = padded(year as nat, 4) + "-"@ + padded(month as nat, 2) + "-"@ + padded(day as nat, 2);
    let s = date + "T"@ + hh + ":"@ + mm + ":"@ + ss + "Z"@;
    assert(spec_format_datetime("iso8601"@, secs) == s);
    assert(s[date.len() as int] == 'T');
    assert(s[s.len() - 1] == 'Z');
}

/// The number a run of decimal digits stands for.
pub open spec fn digits_value(s: Seq<char>) -> nat
    decreases s.len(),
{
    if s.len() == 0 {
        0
    } else {
        digits_value(s.drop_last()) * 10 + digit_value(s.last())
    }
}

pub open spec fn all_decimal_digits(s: Seq<char>) -> bool {
    forall|i: int| 0 <= i < s.len() ==> '0' <= #[trigger] s[i] && s[i] <= '9'
}

pub open spec fn pow10(k: nat) -> nat
    decreases k,
{
    if k == 0 {
        1
    } else {
        10 * pow10((k - 1) as nat)
    }
}

proof fn lemma_decimal_digits(n: nat, k: nat)
    requires
        n < pow10(k),
        k >= 1,
    ensures
        all_decimal_digits(decimal(n)),
        digits_value(decimal(n)) == n,
        decimal(n).len() <= k,
    decreases n,
{
    if n < 10 {
        assert(digit_value(digit_char(n)) == n);
        let d = decimal(n);
        assert(d.drop_last() =~= Seq::<char>::empty());
        assert(digits_value(d.drop_last()) == 0);
    } else {
        assert(k >= 2) by {
            if k < 2 {
                assert(pow10(0) == 1);
                assert(pow10(1) == 10);
            }
        }
        assert(n / 10 < pow10((k - 1) as nat)) by (nonlinear_arith)
            requires
                n < pow10(k),
                pow10(k) == 10 * pow10((k - 1) as nat),
        ;
        lemma_decimal_digits(n / 10, (k - 1) as nat);
        let d = decimal(n);
        assert(d.drop_last() =~= decimal(n / 10));
        assert(digit_value(digit_char(n % 10)) == n % 10);
        assert(digits_value(d) == (n / 10) * 10 + n % 10);
    }
}

proof fn lemma_zeros_value(z: Seq<char>, d: Seq<char>)
    requires
        forall|i: int| 0 <= i < z.len() ==> z[i] == '0',
    ensures
        digits_value(z + d) == digits_value(d),
    decreases z.len() + d.len(),
{
    if d.len() == 0 {
        assert(z + d =~= z);
        lemma_zeros_value_only(z);
    } else {
        assert((z + d).drop_last() =~= z + d.drop_last());
        lemma_zeros_value(z, d.drop_last());
    }
}

proof fn lemma_zeros_value_only(z: Seq<char>)
    requires
        forall|i: int| 0 <= i < z.len() ==> z[i] == '0',
    ensures
        digits_value(z) == 0,
    decreases z.len(),
{
    if z.len() > 0 {
        lemma_zeros_value_only(z.drop_last());
    }
}

/// A number below `10^w` padded to `w` places: exactly `w` decimal digits
/// that stand for the number.
proof fn lemma_padded_digits(n: nat, w: nat)
    requires
        w >= 1,
        n < pow10(w),
    ensures
        padded(n, w).len() == w,
        all_decimal_digits(padded(n, w)),
        digits_value(padded(n, w)) == n,
{
    lemma_decimal_digits(n, w);
    let d = decimal(n);
    if d.len() < w {
        let z = Seq::new((w - d.len()) as nat, |i: int| '0');
        lemma_zeros_value(z, d);
        assert forall|i: int| 0 <= i < (z + d).len() implies '0' <= #[trigger] (z + d)[i] && (z + d)[i]
            <= '9' by {
            if i >= z.len() {
                assert((z + d)[i] == d[i - z.len()]);
            }
        }
    }
}

/// The ISO 8601 text of an instant (in a year up to 9999) is
/// `YYYY-MM-DD` of its civil date, month before day, then `T`, the time
/// of day as `hh:mm:ss`, and `Z`: each field is a run of digits that stands
/// for that part of the instant, the month runs from 1 to 12 and the day
/// from 1 to 31.
pub proof fn lemma_iso8601_fields(secs: u64)
    requires
        civil_from_days((secs / 86400) as nat).0 <= 9999,
    ensures
        ({
            let s = spec_format_datetime("iso8601"@, secs);
            let (year, month, day) = civil_from_days((secs / 86400) as nat);
            let tod = secs % 86400;
            &&& s.len() == 20
            &&& s[4] == '-' && s[7] == '-' && s[10] == 'T' && s[13] == ':' && s[16] == ':' && s[19] == 'Z'
            &&& all_decimal_digits(s.subrange(0, 4)) && digits_value(s.subrange(0, 4)) == year
            &&& all_decimal_digits(s.subrange(5, 7)) && digits_value(s.subrange(5, 7)) == month
            &&& all_decimal_digits(s.subrange(8, 10)) && digits_value(s.subrange(8, 10)) == day
            &&& 1 <= digits_value(s.subrange(5, 7)) <= 12
            &&& 1 <= digits_value(s.subrange(8, 10)) <= 31
            &&& all_decimal_digits(s.subrange(11, 13)) && digits_value(s.subrange(11, 13)) == tod / 3600
            &&& all_decimal_digits(s.subrange(14, 16)) && digits_value(s.subrange(14, 16)) == (tod % 3600) / 60
            &&& all_decimal_digits(s.subrange(17, 19)) && digits_value(s.subrange(17, 19)) == tod % 60
        }),
{
    reveal_strlit("iso8601");
    reveal_strlit("-");
    reveal_strlit("T");
    reveal_strlit(":");
    reveal_strlit("Z");
    let days = secs / 86400;
    let tod = secs % 86400;
    let (year, month, day) = civil_from_days(days as nat);
    lemma_civil_from_days_ranges(days as nat);
    assert(pow10(2) == 100 && pow10(4) == 10000) by {
        reveal_with_fuel(pow10, 5);
    }
    lemma_padded_digits(year as nat, 4);
    lemma_padded_digits(month as nat, 2);
    lemma_padded_digits(day as nat, 2);
    lemma_padded_digits((tod / 3600) as nat, 2);
    lemma_padded_digits(((tod % 3600) / 60) as nat, 2);
    lemma_padded_digits((tod % 60) as nat, 2);
    let y = padded(year as nat, 4);
    let mo = padded(month as nat, 2);
    let d = padded(day as nat, 2);
    let hh = padded((tod / 3600) as nat, 2);
    let mm = padded(((tod % 3600) / 60) as nat, 2);
    let ss = padded((tod % 60) as nat, 2);
    let s = y + "-"@ + mo + "-"@ + d + "T"@ + hh + ":"@ + mm + ":"@ + ss + "Z"@;
    assert(spec_format_datetime("iso8601"@, secs) == s);
    assert(s.subrange(0, 4) =~= y);
    assert(s.subrange(5, 7) =~= mo);
    assert(s.subrange(8, 10) =~= d);
    assert(s.subrange(11, 13) =~= hh);
    assert(s.subrange(14, 16) =~= mm);
    assert(s.subrange(17, 19) =~= ss);
}

/// The RFC 1123 text of an instant (in a year up to 9999) is the weekday,
/// `, `, the day of the month, the month's name, the year, the time of day
/// as `hh:mm:ss` and `GMT`, each at its place: the day field is a run of
/// digits that stands for the civil day, the year field for the civil year,
/// and the hour, minute and second fields for the time of day.
pub proof fn lemma_rfc1123_fields(secs: u64)
    requires
        civil_from_days((secs / 86400) as nat).0 <= 9999,
    ensures
        ({
            let s = spec_format_datetime("rfc1123"@, secs);
            let (year, month, day) = civil_from_days((secs / 86400) as nat);
            let tod = secs % 86400;
            &&& s.len() == 29
            &&& s.subrange(0, 3) == day_name((((secs / 86400) + 4) % 7) as nat)
            &&& s[3] == ',' && s[4] == ' ' && s[7] == ' ' && s[11] == ' ' && s[16] == ' '
            &&& s[19] == ':' && s[22] == ':'
            &&& s.subrange(25, 29) == " GMT"@
            &&& all_decimal_digits(s.subrange(5, 7)) && digits_value(s.subrange(5, 7)) == day
            &&& s.subrange(8, 11) == month_name(month)
            &&& all_decimal_digits(s.subrange(12, 16)) && digits_value(s.subrange(12, 16)) == year
            &&& all_decimal_digits(s.subrange(17, 19)) && digits_value(s.subrange(17, 19)) == tod / 3600
            &&& all_decimal_digits(s.subrange(20, 22)) && digits_value(s.subrange(20, 22)) == (tod % 3600) / 60
            &&& all_decimal_digits(s.subrange(23, 25)) && digits_value(s.subrange(23, 25)) == tod % 60
        }),
{
    reveal_strlit("rfc1123");
    reveal_strlit("iso8601");
    reveal_strlit(", ");
    reveal_strlit(" ");
    reveal_strlit(":");
    reveal_strlit(" GMT");
    reveal_strlit("Sun");
    reveal_strlit("Mon");
    reveal_strlit("Tue");
    reveal_strlit("Wed");
    reveal_strlit("Thu");
    reveal_strlit("Fri");
    reveal_strlit("Sat");
    reveal_strlit("Jan");
    reveal_strlit("Feb");
    reveal_strlit("Mar");
    reveal_strlit("Apr");
    reveal_strlit("May");
    reveal_strlit("Jun");
    reveal_strlit("Jul");
    reveal_strlit("Aug");
    reveal_strlit("Sep");
    reveal_strlit("Oct");
    reveal_strlit("Nov");
    reveal_strlit("Dec");
    let days = secs / 86400;
    let tod = secs % 86400;
    let (year, month, day) = civil_from_days(days as nat);
    lemma_civil_from_days_ranges(days as nat);
    assert(pow10(2) == 100 && pow10(4) == 10000) by {
        reveal_with_fuel(pow10, 5);
    }
    lemma_padded_digits(year as nat, 4);
    lemma_padded_digits(day as nat, 2);
    lemma_padded_digits((tod / 3600) as nat, 2);
    lemma_padded_digits(((tod % 3600) / 60) as nat, 2);
    lemma_padded_digits((tod % 60) as nat, 2);
    let w = day_name(((days + 4) % 7) as nat);
    let mn = month_name(month);
    assert(w.len() == 3);
    assert(mn.len() == 3);
    let y = padded(year as nat, 4);
    let d = padded(day as nat, 2);
    let hh = padded((tod / 3600) as nat, 2);
    let mm = padded(((tod % 3600) / 60) as nat, 2);
    let ss = padded((tod % 60) as nat, 2);
    let s = w + ", "@ + d + " "@ + mn + " "@ + y + " "@ + hh + ":"@ + mm + ":"@ + ss + " GMT"@;
    assert("rfc1123"@ != "iso8601"@ && "rfc1123"@.len() != 0) by {
        assert("rfc1123"@[0] != "iso8601"@[0]);
    }
    assert(spec_format_datetime("rfc1123"@, secs) == s);
    assert(s.subrange(0, 3) =~= w);
    assert(s.subrange(5, 7) =~= d);
    assert(s.subrange(8, 11) =~= mn);
    assert(s.subrange(12, 16) =~= y);
    assert(s.subrange(17, 19) =~= hh);
    assert(s.subrange(20, 22) =~= mm);
    assert(s.subrange(23, 25) =~= ss);
    assert(s.subrange(25, 29) =~= " GMT"@);
}

fn padded_exec(n: u64, w: usize) -> (r: Vec<char>)
    ensures
        r@ == padded(n as nat, w as nat),
{
    let d = decimal_chars(n as u128);
    if d.len() < w {
        let mut r: Vec<char> = Vec::new();
        let mut i: usize = 0;
        while i < w - d.len()
            invariant
                d.len() < w,
                i <= w - d.len(),
                r@ == Seq::new(i as nat, |k: int| '0'),
            decreases w - d.len() - i,
        {
            r.push('0');
            assert(r@ =~= Seq::new((i + 1) as nat, |k: int| '0'));
            i += 1;
        }
        append_vec(&mut r, &d);
        r
    } else {
        d
    }
}

fn lit(s: &str) -> (v: Vec<char>)
    ensures
        v@ == s@,
{
    chars_of(s)
}

fn day_name_exec(i: u64) -> (r: Vec<char>)
    requires
        i < 7,
    ensures
        r@ == day_name(i as nat),
{
    if i == 0 { lit("Sun") } else if i == 1 { lit("Mon") } else if i == 2 { lit("Tue") } else if i
        == 3 { lit("Wed") } else if i == 4 { lit("Thu") } else if i == 5 { lit("Fri") } else {
        lit("Sat")
    }
}

fn month_name_exec(m: u64) -> (r: Vec<char>)
    ensures
        r@ == month_name(m as int),
{
    if m == 1 { lit("Jan") } else if m == 2 { lit("Feb") } else if m == 3 { lit("Mar") } else if m
        == 4 { lit("Apr") } else if m == 5 { lit("May") } else if m == 6 { lit("Jun") } else if m
        == 7 { lit("Jul") } else if m == 8 { lit("Aug") } else if m == 9 { lit("Sep") } else if m
        == 10 { lit("Oct") } else if m == 11 { lit("Nov") } else { lit("Dec") }
}

/// `$datetime` / `$localDatetime` for the instant `secs`.
pub fn format_datetime(format: &Vec<char>, secs: u64) -> (r: Vec<char>)
    ensures
        r@ == spec_format_datetime(format@, secs),
{
    let days = secs / 86400;
    let tod = secs % 86400;
    let (year, month, day) = epoch_days_to_date(days);
    let hh = padded_exec(tod / 3600, 2);
    let mm = padded_exec((tod % 3600) / 60, 2);
    let ss = padded_exec(tod % 60, 2);
    let mut r: Vec<char> = Vec::new();
    if chars_eq(format, &lit("iso8601")) || format.len() == 0 {
        append_vec(&mut r, &padded_exec(year, 4));
        append_vec(&mut r, &lit("-"));
        append_vec(&mut r, &padded_exec(month, 2));
        append_vec(&mut r, &lit("-"));
        append_vec(&mut r, &padded_exec(day, 2));
        append_vec(&mut r, &lit("T"));
        append_vec(&mut r, &hh);
        append_vec(&mut r, &lit(":"));
        append_vec(&mut r, &mm);
        append_vec(&mut r, &lit(":"));
        append_vec(&mut r, &ss);
        append_vec(&mut r, &lit("Z"));
        assert(r@ =~= spec_format_datetime(format@, secs));
    } else if chars_eq(format, &lit("rfc1123")) {
        append_vec(&mut r, &day_name_exec((days + 4) % 7));
        append_vec(&mut r, &lit(", "));
        append_vec(&mut r, &padded_exec(day, 2));
        append_vec(&mut r, &lit(" "));
        append_vec(&mut r, &month_name_exec(month));
        append_vec(&mut r, &lit(" "));
        append_vec(&mut r, &padded_exec(year, 4));
        append_vec(&mut r, &lit(" "));
        append_vec(&mut r, &hh);
        append_vec(&mut r, &lit(":"));
        append_vec(&mut r, &mm);
        append_vec(&mut r, &lit(":"));
        append_vec(&mut r, &ss);
        append_vec(&mut r, &lit(" GMT"));
        assert(r@ =~= spec_format_datetime(format@, secs));
    } else {
        r = decimal_chars(secs as u128);
    }
    r
}

// ---------------------------------------------------------------------------
// .env files
// ---------------------------------------------------------------------------
/// A value with one pair of matching surrounding quotes (`"` or `'`)
/// removed.
pub open spec fn unquote(v: Seq<char>) -> Seq<char> {
    if v.len() >= 2 && v[0] == '"' && v.last() == '"' {
        v.subrange(1, v.len() - 1)
    } else if v.len() >= 2 && v[0] == '\'' && v.last() == '\'' {
        v.subrange(1, v.len() - 1)
    } else {
        v
    }
}

/// The value of `name` in `.env` lines from `i` on: the first line, not
/// blank and not a `#` comment, of the form `name = value`.
pub open spec fn dotenv_lookup(ls: Seq<Seq<char>>, i: int, name: Seq<char>) -> Seq<char>
    decreases ls.len() - i,
{
    if i < 0 || i >= ls.len() {
        seq![]
    } else {
        let t = trim(ls[i]);
        if t.len() == 0 || starts_with(t, "#"@) {
            dotenv_lookup(ls, i + 1, name)
        } else {
            match find(t, "="@) {
                Some(eq) => if trim(t.subrange(0, eq)) == name {
                    unquote(trim(t.subrange(eq + 1, t.len() as int)))
                } else {
                    dotenv_lookup(ls, i + 1, name)
                },
                None => dotenv_lookup(ls, i + 1, name),
            }
        }
    }
}

/// `$dotenv name` given the text of the `.env` file (`None` when it could
/// not be read): the value found, or empty.
pub open spec fn spec_dotenv(content: Option<Seq<char>>, name: Seq<char>) -> Seq<char> {
    match content {
        Some(c) => dotenv_lookup(lines(c), 0, name),
        None => seq![],
    }
}

fn unquote_exec(v: &Vec<char>) -> (r: Vec<char>)
    ensures
        r@ == unquote(v@),
{
    let n = v.len();
    if n >= 2 && v[0] == '"' && v[n - 1] == '"' {
        slice_chars(v, 1, n - 1)
    } else if n >= 2 && v[0] == '\'' && v[n - 1] == '\'' {
        slice_chars(v, 1, n - 1)
    } else {
        slice_chars(v, 0, n)
    }
}

/// Looks `name` up in the text of a `.env` file.
pub fn resolve_dotenv(content: &Option<Vec<char>>, name: &Vec<char>) -> (r: Vec<char>)
    ensures
        r@ == spec_dotenv(
            match content {
                Some(c) => Some(c@),
                None => None,
            },
            name@,
        ),
{
    proof {
        reveal_strlit("#");
        reveal_strlit("=");
    }
    let c = match content {
        Some(c) => c,
        None => {
            return Vec::new();
        },
    };
    let ls = lines_of(c);
    let ghost l = ls.deep_view();
    let ghost target = spec_dotenv(
        match content {
            Some(c) => Some(c@),
            None => None,
        },
        name@,
    );
    assert(target == dotenv_lookup(l, 0, name@));
    let hash = lit("#");
    let mut i: usize = 0;
    while i < ls.len()
        invariant
            i <= ls.len(),
            l == ls.deep_view(),
            target == dotenv_lookup(l, 0, name@),
            target == spec_dotenv(
                match content {
                    Some(c) => Some(c@),
                    None => None,
                },
                name@,
            ),
            hash@ == "#"@,
            seq!['='] == "="@,
            dotenv_lookup(l, 0, name@) == dotenv_lookup(l, i as int, name@),
        decreases ls.len() - i,
    {
        assert(ls[i as int].deep_view() =~= ls[i as int]@);
        let t = trim_chars(&ls[i]);
        if t.len() != 0 && !starts_with_chars(&t, &hash) {
            match find_char(&t, '=') {
                Some(eq) => {
                    proof {
                        lemma_find_char_bound(t@, '=');
                    }
                    let key = trim_chars(&slice_chars(&t, 0, eq));
                    if chars_eq(&key, name) {
                        let value = trim_chars(&slice_chars(&t, eq + 1, t.len()));
                        let r = unquote_exec(&value);
                        assert(r@ == target);
                        return r;
                    }
                },
                None => {},
            }
        }
        i += 1;
    }
    Vec::new()
}

} // verus!
