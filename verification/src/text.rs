//! Character-level text utilities: the model of the text operations that the
//! rest of the library is written against (trimming, searching, splitting into
//! lines and fields, decimal numbers, ASCII case) with their executable
//! counterparts.
use vstd::prelude::*;

verus! {

// ---------------------------------------------------------------------------
// Whitespace and trimming
// ---------------------------------------------------------------------------

/// Unicode `White_Space`, the property that `char::is_whitespace` tests.
pub open spec fn is_ws(c: char) -> bool {
    let u = c as u32;
    ||| u == 0x20
    ||| (0x09 <= u && u <= 0x0D)
    ||| u == 0x85
    ||| u == 0xA0
    ||| u == 0x1680
    ||| (0x2000 <= u && u <= 0x200A)
    ||| u == 0x2028
    ||| u == 0x2029
    ||| u == 0x202F
    ||| u == 0x205F
    ||| u == 0x3000
}

pub fn is_whitespace(c: char) -> (b: bool)
    ensures
        b == is_ws(c),
{
    let u = c as u32;
    u == 0x20 || (0x09 <= u && u <= 0x0D) || u == 0x85 || u == 0xA0 || u == 0x1680 || (0x2000
        <= u && u <= 0x200A) || u == 0x2028 || u == 0x2029 || u == 0x202F || u == 0x205F || u
        == 0x3000
}

pub open spec fn trim_start(s: Seq<char>) -> Seq<char>
    decreases s.len(),
{
    if s.len() > 0 && is_ws(s[0]) {
        trim_start(s.drop_first())
    } else {
        s
    }
}

pub open spec fn trim_end(s: Seq<char>) -> Seq<char>
    decreases s.len(),
{
    if s.len() > 0 && is_ws(s.last()) {
        trim_end(s.drop_last())
    } else {
        s
    }
}

/// `str::trim`: whitespace removed from both ends.
pub open spec fn trim(s: Seq<char>) -> Seq<char> {
    trim_end(trim_start(s))
}

/// The characters `v[lo..hi]` as a new vector.
pub fn slice_chars(v: &Vec<char>, lo: usize, hi: usize) -> (r: Vec<char>)
    requires
        lo <= hi <= v.len(),
    ensures
        r@ == v@.subrange(lo as int, hi as int),
{
    let mut r: Vec<char> = Vec::new();
    let mut i = lo;
    while i < hi
        invariant
            lo <= i <= hi <= v.len(),
            r@ == v@.subrange(lo as int, i as int),
        decreases hi - i,
    {
        r.push(v[i]);
        i += 1;
    }
    r
}

pub fn trim_start_chars(v: &Vec<char>) -> (r: Vec<char>)
    ensures
        r@ == trim_start(v@),
{
    let mut i: usize = 0;
    assert(v@.subrange(0, v.len() as int) =~= v@);
    while i < v.len() && is_whitespace(v[i])
        invariant
            i <= v.len(),
            trim_start(v@) == trim_start(v@.subrange(i as int, v.len() as int)),
        decreases v.len() - i,
    {
        assert(v@.subrange(i as int, v.len() as int).drop_first() =~= v@.subrange(
            i + 1,
            v.len() as int,
        ));
        i += 1;
    }
    slice_chars(v, i, v.len())
}

pub fn trim_end_chars(v: &Vec<char>) -> (r: Vec<char>)
    ensures
        r@ == trim_end(v@),
{
    let mut j: usize = v.len();
    assert(v@.subrange(0, v.len() as int) =~= v@);
    while j > 0 && is_whitespace(v[j - 1])
        invariant
            j <= v.len(),
            trim_end(v@) == trim_end(v@.subrange(0, j as int)),
        decreases j,
    {
        assert(v@.subrange(0, j as int).drop_last() =~= v@.subrange(0, j - 1));
        j -= 1;
    }
    slice_chars(v, 0, j)
}

pub fn trim_chars(v: &Vec<char>) -> (r: Vec<char>)
    ensures
        r@ == trim(v@),
{
    let a = trim_start_chars(v);
    trim_end_chars(&a)
}

// ---------------------------------------------------------------------------
// Searching
// ---------------------------------------------------------------------------
pub open spec fn matches_at(s: Seq<char>, pat: Seq<char>, i: int) -> bool {
    0 <= i && i + pat.len() <= s.len() && s.subrange(i, i + pat.len()) == pat
}

pub open spec fn find_from(s: Seq<char>, pat: Seq<char>, i: int) -> Option<int>
    decreases s.len() + 1 - i,
{
    if i < 0 || i + pat.len() > s.len() {
        None
    } else if matches_at(s, pat, i) {
        Some(i)
    } else {
        find_from(s, pat, i + 1)
    }
}

/// `str::find`: the first position at which `pat` occurs in `s`.
pub open spec fn find(s: Seq<char>, pat: Seq<char>) -> Option<int> {
    find_from(s, pat, 0)
}

/// `str::contains`.
pub open spec fn contains(s: Seq<char>, pat: Seq<char>) -> bool {
    find(s, pat) is Some
}

/// `str::starts_with`.
pub open spec fn starts_with(s: Seq<char>, pat: Seq<char>) -> bool {
    pat.len() <= s.len() && s.subrange(0, pat.len() as int) == pat
}

pub proof fn lemma_find_from_props(s: Seq<char>, pat: Seq<char>, i: int)
    requires
        0 <= i,
    ensures
        find_from(s, pat, i) matches Some(k) ==> i <= k && matches_at(s, pat, k) && forall|j: int|
            i <= j < k ==> !matches_at(s, pat, j),
        find_from(s, pat, i) is None ==> forall|j: int| i <= j ==> !matches_at(s, pat, j),
    decreases s.len() + 1 - i,
{
    if i + pat.len() > s.len() {
    } else if matches_at(s, pat, i) {
    } else {
        lemma_find_from_props(s, pat, i + 1);
    }
}

/// A text holds whatever stands in it between two other texts.
pub proof fn lemma_contains_middle(x: Seq<char>, pat: Seq<char>, y: Seq<char>)
    ensures
        contains(x + pat + y, pat),
{
    let s = x + pat + y;
    lemma_find_from_props(s, pat, 0);
    assert(s.subrange(x.len() as int, (x.len() + pat.len()) as int) =~= pat);
    assert(matches_at(s, pat, x.len() as int));
}

/// The first occurrence: found at `k`, and nowhere before.
pub proof fn lemma_find(s: Seq<char>, pat: Seq<char>)
    ensures
        find(s, pat) matches Some(k) ==> 0 <= k && k + pat.len() <= s.len() && s.subrange(
            k,
            k + pat.len(),
        ) == pat && forall|j: int| 0 <= j < k ==> !matches_at(s, pat, j),
        find(s, pat) is None ==> forall|j: int| 0 <= j ==> !matches_at(s, pat, j),
{
    lemma_find_from_props(s, pat, 0);
}

pub proof fn lemma_find_from_shift(s: Seq<char>, pat: Seq<char>, i: int, j: int)
    requires
        0 <= i <= j,
        forall|k: int| i <= k < j ==> !matches_at(s, pat, k),
    ensures
        find_from(s, pat, i) == find_from(s, pat, j),
    decreases j - i,
{
    if i < j {
        lemma_find_from_shift(s, pat, i + 1, j);
    }
}

fn matches_at_exec(s: &Vec<char>, pat: &Vec<char>, i: usize) -> (b: bool)
    requires
        i + pat.len() <= s.len(),
    ensures
        b == matches_at(s@, pat@, i as int),
{
    let mut k: usize = 0;
    while k < pat.len()
        invariant
            i + pat.len() <= s.len(),
            k <= pat.len(),
            forall|m: int| 0 <= m < k ==> s@[i + m] == pat@[m],
        decreases pat.len() - k,
    {
        if s[i + k] != pat[k] {
            assert(s@.subrange(i as int, i + pat.len())[k as int] != pat@[k as int]);
            return false;
        }
        k += 1;
    }
    assert(s@.subrange(i as int, i + pat.len()) =~= pat@);
    true
}

/// The last position at or below `i` at which `pat` occurs in `s`.
pub open spec fn rfind_below(s: Seq<char>, pat: Seq<char>, i: int) -> Option<int>
    decreases i + 1,
{
    if i < 0 {
        None
    } else if matches_at(s, pat, i) {
        Some(i)
    } else {
        rfind_below(s, pat, i - 1)
    }
}

/// `str::rfind`: the last position at which `pat` occurs in `s`.
pub open spec fn rfind(s: Seq<char>, pat: Seq<char>) -> Option<int> {
    rfind_below(s, pat, s.len() - pat.len())
}

pub proof fn lemma_rfind_below(s: Seq<char>, pat: Seq<char>, i: int)
    ensures
        rfind_below(s, pat, i) matches Some(k) ==> 0 <= k <= i && k + pat.len() <= s.len() && s.subrange(k, k + pat.len()) == pat,
    decreases i + 1,
{
    if i >= 0 && !matches_at(s, pat, i) {
        lemma_rfind_below(s, pat, i - 1);
    }
}

/// The last position at which `pat` occurs in `s`.
pub fn rfind_chars(s: &Vec<char>, pat: &Vec<char>) -> (r: Option<usize>)
    ensures
        r matches Some(k) ==> rfind(s@, pat@) == Some(k as int),
        r is None ==> rfind(s@, pat@) is None,
{
    if pat.len() > s.len() {
        return None;
    }
    let mut i: usize = s.len() - pat.len();
    loop
        invariant
            pat.len() <= s.len(),
            i <= s.len() - pat.len(),
            rfind(s@, pat@) == rfind_below(s@, pat@, i as int),
        decreases i,
    {
        if matches_at_exec(s, pat, i) {
            return Some(i);
        }
        if i == 0 {
            assert(rfind_below(s@, pat@, -1) is None);
            return None;
        }
        i -= 1;
    }
}

/// The first position at which `pat` occurs in `s`.
pub fn find_chars(s: &Vec<char>, pat: &Vec<char>) -> (r: Option<usize>)
    ensures
        r matches Some(k) ==> find(s@, pat@) == Some(k as int),
        r is None ==> find(s@, pat@) is None,
{
    if pat.len() > s.len() {
        return None;
    }
    let limit = s.len() - pat.len();
    let mut i: usize = 0;
    loop
        invariant
            pat.len() <= s.len(),
            limit == s.len() - pat.len(),
            i <= limit,
            find(s@, pat@) == find_from(s@, pat@, i as int),
        decreases limit - i,
    {
        if matches_at_exec(s, pat, i) {
            return Some(i);
        }
        if i == limit {
            assert(find_from(s@, pat@, i + 1) is None);
            return None;
        }
        i += 1;
    }
}

pub fn contains_chars(s: &Vec<char>, pat: &Vec<char>) -> (b: bool)
    ensures
        b == contains(s@, pat@),
{
    find_chars(s, pat).is_some()
}

pub fn starts_with_chars(s: &Vec<char>, pat: &Vec<char>) -> (b: bool)
    ensures
        b == starts_with(s@, pat@),
{
    if pat.len() > s.len() {
        return false;
    }
    let b = matches_at_exec(s, pat, 0);
    b
}

pub fn find_char(s: &Vec<char>, c: char) -> (r: Option<usize>)
    ensures
        r matches Some(k) ==> find(s@, seq![c]) == Some(k as int),
        r is None ==> find(s@, seq![c]) is None,
{
    let mut pat: Vec<char> = Vec::new();
    pat.push(c);
    assert(pat@ =~= seq![c]);
    find_chars(s, &pat)
}

// ---------------------------------------------------------------------------
// Splitting
// ---------------------------------------------------------------------------
/// `str::split` on a single character: always at least one piece.
pub open spec fn split_on(s: Seq<char>, c: char) -> Seq<Seq<char>>
    decreases s.len(),
{
    match find(s, seq![c]) {
        Some(i) => if 0 <= i < s.len() {
            seq![s.subrange(0, i)] + split_on(s.subrange(i + 1, s.len() as int), c)
        } else {
            seq![s]
        },
        None => seq![s],
    }
}

/// `str::splitn(n, c)` for `n >= 1`: at most `n` pieces, the last holding
/// the rest of the text.
pub open spec fn splitn(s: Seq<char>, n: nat, c: char) -> Seq<Seq<char>>
    decreases n,
{
    if n <= 1 {
        seq![s]
    } else {
        match find(s, seq![c]) {
            Some(i) => if 0 <= i < s.len() {
                seq![s.subrange(0, i)] + splitn(s.subrange(i + 1, s.len() as int), (n - 1) as nat, c)
            } else {
                seq![s]
            },
            None => seq![s],
        }
    }
}

pub open spec fn strip_cr(l: Seq<char>) -> Seq<char> {
    if l.len() > 0 && l.last() == '\r' {
        l.drop_last()
    } else {
        l
    }
}

/// `str::lines`: split at `\n`; a line that ended in `\r\n` loses the `\r`;
/// a final line without `\n` is kept as it is, unless it is empty.
pub open spec fn lines(s: Seq<char>) -> Seq<Seq<char>>
    decreases s.len(),
{
    match find(s, seq!['\n']) {
        Some(i) => if 0 <= i < s.len() {
            seq![strip_cr(s.subrange(0, i))] + lines(s.subrange(i + 1, s.len() as int))
        } else {
            seq![]
        },
        None => if s.len() == 0 {
            seq![]
        } else {
            seq![s]
        },
    }
}

/// The first `c` in `x + [c] + y`, where `x` holds none, is right after `x`.
pub proof fn lemma_find_first_char(x: Seq<char>, y: Seq<char>, c: char)
    requires
        forall|i: int| 0 <= i < x.len() ==> x[i] != c,
    ensures
        find(x + seq![c] + y, seq![c]) == Some(x.len() as int),
{
    let s = x + seq![c] + y;
    assert forall|k: int| 0 <= k < x.len() implies !matches_at(s, seq![c], k) by {
        if matches_at(s, seq![c], k) {
            assert(s.subrange(k, k + 1)[0] == s[k]);
        }
    }
    lemma_find_from_shift(s, seq![c], 0, x.len() as int);
    assert(s.subrange(x.len() as int, x.len() as int + 1) =~= seq![c]);
}

/// A text without `c` has no `c` to find.
pub proof fn lemma_find_no_char(x: Seq<char>, c: char)
    requires
        forall|i: int| 0 <= i < x.len() ==> x[i] != c,
    ensures
        find(x, seq![c]) is None,
{
    lemma_find(x, seq![c]);
    if let Some(k) = find(x, seq![c]) {
        assert(x.subrange(k, k + 1)[0] == x[k]);
    }
}

/// Where `a` holds a `c`, the first `c` of `a + b` is the first of `a`.
pub proof fn lemma_find_char_prefix(a: Seq<char>, b: Seq<char>, c: char)
    requires
        find(a, seq![c]) is Some,
    ensures
        find(a + b, seq![c]) == find(a, seq![c]),
{
    lemma_find_char_bound(a, c);
    lemma_find_char_bound(a + b, c);
    let i = find(a, seq![c])->0;
    assert((a + b)[i] == c);
    if let Some(j) = find(a + b, seq![c]) {
        if j < i {
            assert((a + b)[j] == a[j]);
        }
    }
}

/// No line of a text holds a `\n`.
pub proof fn lemma_lines_no_newline(s: Seq<char>)
    ensures
        forall|k: int, j: int|
            0 <= k < lines(s).len() && 0 <= j < lines(s)[k].len() ==> #[trigger] lines(s)[k][j] != '\n',
    decreases s.len(),
{
    lemma_find_char_bound(s, '\n');
    match find(s, seq!['\n']) {
        Some(i) => {
            if 0 <= i < s.len() {
                let rest = s.subrange(i + 1, s.len() as int);
                lemma_lines_no_newline(rest);
                let first = strip_cr(s.subrange(0, i));
                assert forall|k: int, j: int|
                    0 <= k < lines(s).len() && 0 <= j < lines(s)[k].len() implies #[trigger] lines(s)[k][j] != '\n' by {
                    if k == 0 {
                        assert(lines(s)[0] == first);
                        assert(first[j] == s[j]);
                    } else {
                        assert(lines(s)[k] == lines(rest)[k - 1]);
                    }
                }
            }
        },
        None => {},
    }
}

/// Adding a line and its `\n` to a text that is empty or ends in `\n`
/// adds one line.
pub proof fn lemma_lines_append_line(a: Seq<char>, l: Seq<char>)
    requires
        a.len() == 0 || a.last() == '\n',
        forall|j: int| 0 <= j < l.len() ==> l[j] != '\n',
    ensures
        lines(a + l + seq!['\n']).len() == lines(a).len() + 1,
    decreases a.len(),
{
    let t = l + seq!['\n'];
    if a.len() == 0 {
        assert(a + l + seq!['\n'] =~= l + seq!['\n'] + Seq::<char>::empty());
        lemma_find_first_char(l, Seq::<char>::empty(), '\n');
        assert((l + seq!['\n'] + Seq::<char>::empty()).subrange(l.len() as int + 1, l.len() as int + 1) =~= Seq::<char>::empty());
        assert(lines(Seq::<char>::empty()) =~= Seq::<Seq<char>>::empty()) by {
            lemma_find(Seq::<char>::empty(), seq!['\n']);
        }
        assert(lines(a) =~= Seq::<Seq<char>>::empty()) by {
            lemma_find(a, seq!['\n']);
        }
    } else {
        lemma_find_char_bound(a, '\n');
        assert(a[a.len() - 1] == '\n');
        if find(a, seq!['\n']) is None {
            assert(false);
        }
        let i = find(a, seq!['\n'])->0;
        lemma_find_char_prefix(a, t, '\n');
        assert(a + l + seq!['\n'] =~= a + t);
        let a2 = a.subrange(i + 1, a.len() as int);
        assert((a + t).subrange(i + 1, (a + t).len() as int) =~= a2 + l + seq!['\n']);
        assert((a + t).subrange(0, i) =~= a.subrange(0, i));
        if a2.len() > 0 {
            assert(a2.last() == a.last());
        }
        lemma_lines_append_line(a2, l);
    }
}

pub proof fn lemma_find_char_bound(s: Seq<char>, c: char)
    ensures
        find(s, seq![c]) matches Some(i) ==> 0 <= i < s.len() && s[i] == c && forall|j: int|
            0 <= j < i ==> s[j] != c,
        find(s, seq![c]) is None ==> forall|j: int| 0 <= j < s.len() ==> s[j] != c,
{
    lemma_find(s, seq![c]);
    if let Some(i) = find(s, seq![c]) {
        assert(s.subrange(i, i + 1)[0] == c);
        assert forall|j: int| 0 <= j < i implies s[j] != c by {
            if s[j] == c {
                assert(s.subrange(j, j + 1) =~= seq![c]);
                assert(matches_at(s, seq![c], j));
            }
        }
    } else {
        assert forall|j: int| 0 <= j < s.len() implies s[j] != c by {
            if s[j] == c {
                assert(s.subrange(j, j + 1) =~= seq![c]);
                assert(matches_at(s, seq![c], j));
            }
        }
    }
}

/// First index `>= from` holding `c`, or `s.len()`.
fn scan_to(s: &Vec<char>, from: usize, c: char) -> (k: usize)
    requires
        from <= s.len(),
    ensures
        from <= k <= s.len(),
        k < s.len() ==> s@[k as int] == c,
        forall|j: int| from <= j < k ==> s@[j] != c,
{
    let mut k = from;
    while k < s.len() && s[k] != c
        invariant
            from <= k <= s.len(),
            forall|j: int| from <= j < k ==> s@[j] != c,
        decreases s.len() - k,
    {
        k += 1;
    }
    k
}

/// `find(s[from..], c)` expressed through a scan from `from`.
proof fn lemma_find_char_suffix(s: Seq<char>, from: int, k: int, c: char)
    requires
        0 <= from <= k <= s.len(),
        k < s.len() ==> s[k] == c,
        forall|j: int| from <= j < k ==> s[j] != c,
    ensures
        ({
            let t = s.subrange(from, s.len() as int);
            &&& k < s.len() ==> find(t, seq![c]) == Some(k - from)
            &&& k == s.len() ==> find(t, seq![c]) is None
        }),
{
    let t = s.subrange(from, s.len() as int);
    lemma_find_char_bound(t, c);
    if k < s.len() {
        match find(t, seq![c]) {
            Some(i) => {
                if i < k - from {
                    assert(t[i] == s[from + i]);
                }
                if i > k - from {
                    assert(t[k - from] == c);
                }
            },
            None => {
                assert(t[k - from] == c);
            },
        }
    } else {
        match find(t, seq![c]) {
            Some(i) => {
                assert(t[i] == s[from + i]);
            },
            None => {},
        }
    }
}

/// `str::lines`, as vectors of characters.
pub fn lines_of(s: &Vec<char>) -> (r: Vec<Vec<char>>)
    ensures
        r.deep_view() == lines(s@),
{
    let mut r: Vec<Vec<char>> = Vec::new();
    let mut start: usize = 0;
    assert(s@.subrange(0, s.len() as int) =~= s@);
    assert(r.deep_view() =~= Seq::<Seq<char>>::empty());
    while start < s.len()
        invariant
            start <= s.len(),
            lines(s@) == r.deep_view() + lines(s@.subrange(start as int, s.len() as int)),
        decreases s.len() - start,
    {
        let k = scan_to(s, start, '\n');
        proof {
            lemma_find_char_suffix(s@, start as int, k as int, '\n');
        }
        let ghost t = s@.subrange(start as int, s.len() as int);
        if k < s.len() {
            let mut line = slice_chars(s, start, k);
            if line.len() > 0 && line[line.len() - 1] == '\r' {
                line.pop();
            }
            proof {
                assert(t.subrange(0, k - start) =~= s@.subrange(start as int, k as int));
                assert(t.subrange(k - start + 1, t.len() as int) =~= s@.subrange(
                    k + 1,
                    s.len() as int,
                ));
            }
            let ghost before = r.deep_view();
            assert(line.deep_view() =~= line@);
            r.push(line);
            assert(r.deep_view() =~= before.push(line@));
            start = k + 1;
        } else {
            let line = slice_chars(s, start, k);
            assert(t =~= s@.subrange(start as int, k as int));
            let ghost before = r.deep_view();
            assert(line.deep_view() =~= line@);
            r.push(line);
            assert(r.deep_view() =~= before.push(line@));
            start = k;
            assert(s@.subrange(start as int, s.len() as int) =~= Seq::<char>::empty());
        }
    }
    assert(s@.subrange(start as int, s.len() as int) =~= Seq::<char>::empty());
    assert(r.deep_view() + Seq::<Seq<char>>::empty() =~= r.deep_view());
    r
}

// ---------------------------------------------------------------------------
// More splitting and joining
// ---------------------------------------------------------------------------
/// `pieces` joined with `sep` between consecutive pieces.
pub open spec fn join(pieces: Seq<Seq<char>>, sep: Seq<char>) -> Seq<char>
    decreases pieces.len(),
{
    if pieces.len() == 0 {
        seq![]
    } else if pieces.len() == 1 {
        pieces[0]
    } else {
        join(pieces.drop_last(), sep) + sep + pieces.last()
    }
}

pub fn splitn_chars(s: &Vec<char>, n: usize, c: char) -> (r: Vec<Vec<char>>)
    requires
        n >= 1,
    ensures
        r.deep_view() == splitn(s@, n as nat, c),
        1 <= r.len() <= n,
{
    let mut r: Vec<Vec<char>> = Vec::new();
    let mut start: usize = 0;
    assert(s@.subrange(0, s.len() as int) =~= s@);
    assert(r.deep_view() =~= Seq::<Seq<char>>::empty());
    loop
        invariant
            start <= s.len(),
            r.len() < n,
            splitn(s@, n as nat, c) == r.deep_view() + splitn(
                s@.subrange(start as int, s.len() as int),
                (n - r.len()) as nat,
                c,
            ),
        decreases n - r.len(),
    {
        let ghost t = s@.subrange(start as int, s.len() as int);
        let ghost before = r.deep_view();
        let k = scan_to(s, start, c);
        proof {
            lemma_find_char_suffix(s@, start as int, k as int, c);
        }
        if r.len() + 1 == n || k == s.len() {
            let piece = slice_chars(s, start, s.len());
            assert(piece.deep_view() =~= piece@);
            r.push(piece);
            assert(r.deep_view() =~= before.push(piece@));
            assert(before + seq![piece@] =~= before.push(piece@));
            return r;
        }
        let piece = slice_chars(s, start, k);
        proof {
            assert(t.subrange(0, k - start) =~= s@.subrange(start as int, k as int));
            assert(t.subrange(k - start + 1, t.len() as int) =~= s@.subrange(
                k + 1,
                s.len() as int,
            ));
        }
        assert(piece.deep_view() =~= piece@);
        r.push(piece);
        assert(r.deep_view() =~= before.push(piece@));
        start = k + 1;
    }
}

pub fn split_chars(s: &Vec<char>, c: char) -> (r: Vec<Vec<char>>)
    ensures
        r.deep_view() == split_on(s@, c),
        r.len() >= 1,
{
    let mut r: Vec<Vec<char>> = Vec::new();
    let mut start: usize = 0;
    assert(s@.subrange(0, s.len() as int) =~= s@);
    assert(r.deep_view() =~= Seq::<Seq<char>>::empty());
    loop
        invariant
            start <= s.len(),
            split_on(s@, c) == r.deep_view() + split_on(
                s@.subrange(start as int, s.len() as int),
                c,
            ),
        decreases s.len() - start,
    {
        let ghost t = s@.subrange(start as int, s.len() as int);
        let ghost before = r.deep_view();
        let k = scan_to(s, start, c);
        proof {
            lemma_find_char_suffix(s@, start as int, k as int, c);
        }
        if k == s.len() {
            let piece = slice_chars(s, start, s.len());
            assert(piece.deep_view() =~= piece@);
            r.push(piece);
            assert(r.deep_view() =~= before.push(piece@));
            assert(before + seq![piece@] =~= before.push(piece@));
            return r;
        }
        let piece = slice_chars(s, start, k);
        proof {
            assert(t.subrange(0, k - start) =~= s@.subrange(start as int, k as int));
            assert(t.subrange(k - start + 1, t.len() as int) =~= s@.subrange(
                k + 1,
                s.len() as int,
            ));
        }
        assert(piece.deep_view() =~= piece@);
        r.push(piece);
        assert(r.deep_view() =~= before.push(piece@));
        start = k + 1;
    }
}

// ---------------------------------------------------------------------------
// Building strings
// ---------------------------------------------------------------------------
/// `String::push`: the character is added at the end.
#[verifier::external_body]
pub(crate) fn push_char(s: &mut String, c: char)
    ensures
        final(s)@ == old(s)@.push(c),
{
    s.push(c);
}

pub fn append_chars(s: &mut String, v: &Vec<char>)
    ensures
        final(s)@ == old(s)@ + v@,
{
    let mut i: usize = 0;
    while i < v.len()
        invariant
            i <= v.len(),
            s@ == old(s)@ + v@.subrange(0, i as int),
        decreases v.len() - i,
    {
        push_char(s, v[i]);
        assert(v@.subrange(0, i + 1) =~= v@.subrange(0, i as int).push(v@[i as int]));
        i += 1;
    }
    assert(v@.subrange(0, v.len() as int) =~= v@);
}

pub fn append_str(s: &mut String, t: &str)
    ensures
        final(s)@ == old(s)@ + t@,
{
    let v = chars_of(t);
    append_chars(s, &v);
}

pub fn string_of(v: &Vec<char>) -> (s: String)
    ensures
        s@ == v@,
{
    let mut s = String::new();
    append_chars(&mut s, v);
    assert(Seq::<char>::empty() + v@ =~= v@);
    s
}

pub fn string_of_str(t: &str) -> (s: String)
    ensures
        s@ == t@,
{
    let v = chars_of(t);
    string_of(&v)
}

/// The characters of a string slice, in order.
pub fn chars_of(s: &str) -> (v: Vec<char>)
    ensures
        v@ == s@,
{
    let mut v: Vec<char> = Vec::new();
    for c in it: s.chars()
        invariant
            v@ == it.seq().take(it.index() as int),
    {
        v.push(c);
    }
    v
}

pub fn chars_eq(a: &Vec<char>, b: &Vec<char>) -> (r: bool)
    ensures
        r == (a@ == b@),
{
    if a.len() != b.len() {
        return false;
    }
    let mut i: usize = 0;
    while i < a.len()
        invariant
            a.len() == b.len(),
            i <= a.len(),
            forall|j: int| 0 <= j < i ==> a@[j] == b@[j],
        decreases a.len() - i,
    {
        if a[i] != b[i] {
            return false;
        }
        i += 1;
    }
    assert(a@ =~= b@);
    true
}

// ---------------------------------------------------------------------------
// ASCII case
// ---------------------------------------------------------------------------
pub open spec fn ascii_lower(c: char) -> char {
    if 'A' <= c && c <= 'Z' {
        ((c as u32) + 32) as char
    } else {
        c
    }
}

pub open spec fn ascii_upper(c: char) -> char {
    if 'a' <= c && c <= 'z' {
        ((c as u32) - 32) as char
    } else {
        c
    }
}

/// Every character is ASCII.
pub open spec fn all_ascii(s: Seq<char>) -> bool {
    forall|i: int| 0 <= i < s.len() ==> (s[i] as u32) < 128
}

/// `str::eq_ignore_ascii_case`.
pub open spec fn eq_ignore_ascii_case(a: Seq<char>, b: Seq<char>) -> bool {
    a.len() == b.len() && forall|i: int| 0 <= i < a.len() ==> ascii_lower(a[i]) == ascii_lower(b[i])
}

fn ascii_lower_exec(c: char) -> (r: char)
    ensures
        r == ascii_lower(c),
{
    if 'A' <= c && c <= 'Z' {
        let u = (c as u32) + 32;
        // 'a'..='z'
        if u == 97 { 'a' } else if u == 98 { 'b' } else if u == 99 { 'c' } else if u == 100 { 'd' }
        else if u == 101 { 'e' } else if u == 102 { 'f' } else if u == 103 { 'g' } else if u == 104 { 'h' }
        else if u == 105 { 'i' } else if u == 106 { 'j' } else if u == 107 { 'k' } else if u == 108 { 'l' }
        else if u == 109 { 'm' } else if u == 110 { 'n' } else if u == 111 { 'o' } else if u == 112 { 'p' }
        else if u == 113 { 'q' } else if u == 114 { 'r' } else if u == 115 { 's' } else if u == 116 { 't' }
        else if u == 117 { 'u' } else if u == 118 { 'v' } else if u == 119 { 'w' } else if u == 120 { 'x' }
        else if u == 121 { 'y' } else { 'z' }
    } else {
        c
    }
}

pub fn eq_ignore_ascii_case_chars(a: &Vec<char>, b: &Vec<char>) -> (r: bool)
    ensures
        r == eq_ignore_ascii_case(a@, b@),
{
    if a.len() != b.len() {
        return false;
    }
    let mut i: usize = 0;
    while i < a.len()
        invariant
            a.len() == b.len(),
            i <= a.len(),
            forall|j: int| 0 <= j < i ==> ascii_lower(a@[j]) == ascii_lower(b@[j]),
        decreases a.len() - i,
    {
        if ascii_lower_exec(a[i]) != ascii_lower_exec(b[i]) {
            return false;
        }
        i += 1;
    }
    true
}

/// What `str::to_uppercase` returns for the given characters (Unicode case
/// mapping, which can change the length).
pub uninterp spec fn unicode_uppercase(s: Seq<char>) -> Seq<char>;

/// What `str::to_lowercase` returns for the given characters.
pub uninterp spec fn unicode_lowercase(s: Seq<char>) -> Seq<char>;

/// `str::to_uppercase`; the result is named by `unicode_uppercase`. On
/// ASCII text the Unicode mapping is ASCII upper-casing: `a`..`z` become
/// `A`..`Z`, every other character stays.
#[verifier::external_body]
pub(crate) fn to_uppercase_chars(v: &Vec<char>) -> (r: Vec<char>)
    ensures
        r@ == unicode_uppercase(v@),
        all_ascii(v@) ==> r@ == v@.map_values(|c: char| ascii_upper(c)),
{
    let s: String = v.iter().collect();
    s.to_uppercase().chars().collect()
}

/// `str::to_lowercase`; the result is named by `unicode_lowercase`. On
/// ASCII text the Unicode mapping is ASCII lower-casing: `A`..`Z` become
/// `a`..`z`, every other character stays.
#[verifier::external_body]
pub(crate) fn to_lowercase_chars(v: &Vec<char>) -> (r: Vec<char>)
    ensures
        r@ == unicode_lowercase(v@),
        all_ascii(v@) ==> r@ == v@.map_values(|c: char| ascii_lower(c)),
{
    let s: String = v.iter().collect();
    s.to_lowercase().chars().collect()
}

// ---------------------------------------------------------------------------
// Decimal numbers
// ---------------------------------------------------------------------------
pub open spec fn digit_char(d: nat) -> char {
    ((48 + d) as u32) as char
}

pub open spec fn is_digit(c: char) -> bool {
    '0' <= c && c <= '9'
}

pub open spec fn digit_value(c: char) -> nat {
    ((c as u32) - 48) as nat
}

/// The decimal representation of a natural number, without leading zeros.
pub open spec fn decimal(n: nat) -> Seq<char>
    decreases n,
{
    if n < 10 {
        seq![digit_char(n)]
    } else {
        decimal(n / 10).push(digit_char(n % 10))
    }
}

/// The decimal representation of an integer, with `-` in front when negative.
pub open spec fn signed_decimal(n: int) -> Seq<char> {
    if n < 0 {
        seq!['-'] + decimal((-n) as nat)
    } else {
        decimal(n as nat)
    }
}

fn digit_exec(d: u128) -> (c: char)
    requires
        d < 10,
    ensures
        c == digit_char(d as nat),
{
    if d == 0 { '0' } else if d == 1 { '1' } else if d == 2 { '2' } else if d == 3 { '3' }
    else if d == 4 { '4' } else if d == 5 { '5' } else if d == 6 { '6' } else if d == 7 { '7' }
    else if d == 8 { '8' } else { '9' }
}

pub fn decimal_chars(n: u128) -> (r: Vec<char>)
    ensures
        r@ == decimal(n as nat),
    decreases n,
{
    if n < 10 {
        let mut r: Vec<char> = Vec::new();
        r.push(digit_exec(n));
        assert(r@ =~= seq![digit_char(n as nat)]);
        r
    } else {
        let mut r = decimal_chars(n / 10);
        r.push(digit_exec(n % 10));
        r
    }
}

pub fn signed_decimal_chars(n: i64) -> (r: Vec<char>)
    ensures
        r@ == signed_decimal(n as int),
{
    if n < 0 {
        let m: i128 = -(n as i128);
        let d = decimal_chars(m as u128);
        let mut r: Vec<char> = Vec::new();
        r.push('-');
        let mut i: usize = 0;
        while i < d.len()
            invariant
                i <= d.len(),
                r@ == seq!['-'] + d@.subrange(0, i as int),
            decreases d.len() - i,
        {
            r.push(d[i]);
            assert(d@.subrange(0, i + 1) =~= d@.subrange(0, i as int).push(d@[i as int]));
            i += 1;
        }
        assert(d@.subrange(0, d.len() as int) =~= d@);
        r
    } else {
        decimal_chars(n as u128)
    }
}

/// The value of a nonempty run of ASCII digits.
pub open spec fn digits_value(s: Seq<char>) -> nat
    decreases s.len(),
{
    if s.len() == 0 {
        0
    } else {
        digits_value(s.drop_last()) * 10 + digit_value(s.last())
    }
}

pub open spec fn all_digits(s: Seq<char>) -> bool {
    forall|i: int| 0 <= i < s.len() ==> is_digit(s[i])
}

/// The integer that `str::parse::<i64>` reads (before the range check):
/// an optional `+` or `-`, then one or more ASCII digits.
pub open spec fn parse_signed(s: Seq<char>) -> Option<int> {
    let neg = s.len() > 0 && s[0] == '-';
    let body = if s.len() > 0 && (s[0] == '-' || s[0] == '+') {
        s.drop_first()
    } else {
        s
    };
    if body.len() == 0 || !all_digits(body) {
        None
    } else if neg {
        Some(-(digits_value(body) as int))
    } else {
        Some(digits_value(body) as int)
    }
}

/// `str::parse::<i64>`.
pub open spec fn parse_i64(s: Seq<char>) -> Option<i64> {
    match parse_signed(s) {
        Some(v) => if i64::MIN <= v && v <= i64::MAX {
            Some(v as i64)
        } else {
            None
        },
        None => None,
    }
}

/// `str::parse::<usize>`: an optional `+`, then one or more ASCII digits.
pub open spec fn parse_usize(s: Seq<char>) -> Option<usize> {
    let body = if s.len() > 0 && s[0] == '+' {
        s.drop_first()
    } else {
        s
    };
    if body.len() == 0 || !all_digits(body) {
        None
    } else if digits_value(body) <= usize::MAX {
        Some(digits_value(body) as usize)
    } else {
        None
    }
}

proof fn lemma_digits_value_push(s: Seq<char>, c: char)
    ensures
        digits_value(s.push(c)) == digits_value(s) * 10 + digit_value(c),
{
    assert(s.push(c).drop_last() =~= s);
}

/// Reads a run of digits `v[lo..hi]`; `None` when it is empty, holds a
/// non-digit, or exceeds `cap`.
fn read_digits(v: &Vec<char>, lo: usize, cap: u128) -> (r: Option<u128>)
    requires
        lo <= v.len(),
        cap >= 9,
    ensures
        ({
            let body = v@.subrange(lo as int, v.len() as int);
            match r {
                Some(x) => body.len() > 0 && all_digits(body) && x == digits_value(body) && x <= cap,
                None => body.len() == 0 || !all_digits(body) || digits_value(body) > cap,
            }
        }),
{
    let ghost body = v@.subrange(lo as int, v.len() as int);
    if lo == v.len() {
        return None;
    }
    let mut acc: u128 = 0;
    let mut over = false;
    let mut i = lo;
    assert(v@.subrange(lo as int, lo as int) =~= Seq::<char>::empty());
    while i < v.len()
        invariant
            lo <= i <= v.len(),
            cap >= 9,
            body == v@.subrange(lo as int, v.len() as int),
            all_digits(v@.subrange(lo as int, i as int)),
            !over ==> acc == digits_value(v@.subrange(lo as int, i as int)) && acc <= cap,
            over ==> digits_value(v@.subrange(lo as int, i as int)) > cap,
        decreases v.len() - i,
    {
        let c = v[i];
        if !('0' <= c && c <= '9') {
            assert(!is_digit(body[i - lo]));
            return None;
        }
        let d: u128 = ((c as u32) - 48) as u128;
        proof {
            assert(v@.subrange(lo as int, i + 1) =~= v@.subrange(lo as int, i as int).push(c));
            lemma_digits_value_push(v@.subrange(lo as int, i as int), c);
        }
        if !over {
            if acc > (cap - d) / 10 {
                over = true;
                assert(acc * 10 + d > cap) by (nonlinear_arith)
                    requires acc > (cap - d) / 10, d <= cap || d > cap;
            } else {
                assert(acc * 10 + d <= cap) by (nonlinear_arith)
                    requires acc <= (cap - d) / 10, d <= 9;
                acc = acc * 10 + d;
            }
        } else {
            assert(digits_value(v@.subrange(lo as int, i + 1)) >= digits_value(v@.subrange(lo as int, i as int)));
        }
        i += 1;
    }
    assert(v@.subrange(lo as int, v.len() as int) == body);
    if over {
        None
    } else {
        Some(acc)
    }
}

/// `str::parse::<i64>`.
pub fn parse_i64_chars(v: &Vec<char>) -> (r: Option<i64>)
    ensures
        r == parse_i64(v@),
{
    let neg = v.len() > 0 && v[0] == '-';
    let signed = v.len() > 0 && (v[0] == '-' || v[0] == '+');
    let lo: usize = if signed { 1 } else { 0 };
    let cap: u128 = if neg { 9223372036854775808 } else { 9223372036854775807 };
    proof {
        if signed {
            assert(v@.drop_first() =~= v@.subrange(1, v.len() as int));
        } else {
            assert(v@ =~= v@.subrange(0, v.len() as int));
        }
    }
    match read_digits(v, lo, cap) {
        Some(x) => {
            if neg {
                let y: i128 = -(x as i128);
                Some(y as i64)
            } else {
                Some(x as i64)
            }
        },
        None => None,
    }
}

/// `str::parse::<usize>`.
pub fn parse_usize_chars(v: &Vec<char>) -> (r: Option<usize>)
    ensures
        r == parse_usize(v@),
{
    let lo: usize = if v.len() > 0 && v[0] == '+' { 1 } else { 0 };
    proof {
        if lo == 1 {
            assert(v@.drop_first() =~= v@.subrange(1, v.len() as int));
        } else {
            assert(v@ =~= v@.subrange(0, v.len() as int));
        }
    }
    match read_digits(v, lo, usize::MAX as u128) {
        Some(x) => Some(x as usize),
        None => None,
    }
}

pub proof fn lemma_join_push(s: Seq<Seq<char>>, x: Seq<char>, sep: Seq<char>)
    ensures
        join(s.push(x), sep) == if s.len() == 0 {
            x
        } else {
            join(s, sep) + sep + x
        },
{
    assert(s.push(x).drop_last() =~= s);
}

/// The pieces `ls[from..]` joined with `sep`.
pub fn join_from(ls: &Vec<Vec<char>>, from: usize, sep: &Vec<char>) -> (r: Vec<char>)
    requires
        from <= ls.len(),
    ensures
        r@ == join(ls.deep_view().subrange(from as int, ls.len() as int), sep@),
{
    let mut r: Vec<char> = Vec::new();
    let mut k = from;
    assert(ls.deep_view().subrange(from as int, from as int) =~= Seq::<Seq<char>>::empty());
    while k < ls.len()
        invariant
            from <= k <= ls.len(),
            r@ == join(ls.deep_view().subrange(from as int, k as int), sep@),
        decreases ls.len() - k,
    {
        let ghost prev = ls.deep_view().subrange(from as int, k as int);
        proof {
            assert(ls[k as int].deep_view() =~= ls[k as int]@);
            assert(ls.deep_view().subrange(from as int, k + 1) =~= prev.push(ls[k as int]@));
            lemma_join_push(prev, ls[k as int]@, sep@);
        }
        if k > from {
            append_vec(&mut r, sep);
        }
        append_vec(&mut r, &ls[k]);
        k += 1;
    }
    r
}

pub fn append_vec(r: &mut Vec<char>, v: &Vec<char>)
    ensures
        final(r)@ == old(r)@ + v@,
{
    let mut i: usize = 0;
    while i < v.len()
        invariant
            i <= v.len(),
            r@ == old(r)@ + v@.subrange(0, i as int),
        decreases v.len() - i,
    {
        r.push(v[i]);
        assert(v@.subrange(0, i + 1) =~= v@.subrange(0, i as int).push(v@[i as int]));
        i += 1;
    }
    assert(v@.subrange(0, v.len() as int) =~= v@);
}

/// A text has no more lines than characters.
pub proof fn lemma_lines_len(s: Seq<char>)
    ensures
        lines(s).len() <= s.len(),
    decreases s.len(),
{
    lemma_find_char_bound(s, '\n');
    match find(s, seq!['\n']) {
        Some(i) => {
            lemma_lines_len(s.subrange(i + 1, s.len() as int));
        },
        None => {},
    }
}

/// Characters needed to write lines each followed by a line break.
pub open spec fn total_len(ls: Seq<Seq<char>>) -> nat
    decreases ls.len(),
{
    if ls.len() == 0 {
        0
    } else {
        ls[0].len() + 1 + total_len(ls.drop_first())
    }
}

pub proof fn lemma_total_len_append(a: Seq<Seq<char>>, b: Seq<Seq<char>>)
    ensures
        total_len(a + b) == total_len(a) + total_len(b),
    decreases a.len(),
{
    if a.len() > 0 {
        assert((a + b).drop_first() =~= a.drop_first() + b);
        lemma_total_len_append(a.drop_first(), b);
    } else {
        assert(a + b =~= b);
    }
}

pub proof fn lemma_total_len_lines(s: Seq<char>)
    ensures
        total_len(lines(s)) <= s.len() + 1,
    decreases s.len(),
{
    lemma_find_char_bound(s, '\n');
    match find(s, seq!['\n']) {
        Some(i) => {
            let rest = s.subrange(i + 1, s.len() as int);
            lemma_total_len_lines(rest);
            let first = strip_cr(s.subrange(0, i));
            assert((seq![first] + lines(rest)).drop_first() =~= lines(rest));
            assert((seq![first] + lines(rest))[0] == first);
            assert(lines(s) == seq![first] + lines(rest));
            assert(first.len() <= i);
            assert(total_len(lines(s)) == first.len() + 1 + total_len(lines(rest)));
        },
        None => {
            if s.len() > 0 {
                assert(seq![s].drop_first() =~= Seq::<Seq<char>>::empty());
                assert(total_len(seq![s]) == s.len() + 1 + total_len(Seq::<Seq<char>>::empty()));
            }
        },
    }
}

pub proof fn lemma_trim_start_shape(s: Seq<char>)
    ensures
        trim_start(s).len() <= s.len(),
        trim_start(s) == s.subrange(s.len() - trim_start(s).len(), s.len() as int),
    decreases s.len(),
{
    if s.len() > 0 && is_ws(s[0]) {
        lemma_trim_start_shape(s.drop_first());
        assert(s.drop_first().subrange(
            s.drop_first().len() - trim_start(s.drop_first()).len(),
            s.drop_first().len() as int,
        ) =~= s.subrange(s.len() - trim_start(s).len(), s.len() as int));
    } else {
        assert(s.subrange(0, s.len() as int) =~= s);
    }
}

pub proof fn lemma_trim_end_shape(s: Seq<char>)
    ensures
        trim_end(s).len() <= s.len(),
        trim_end(s) == s.subrange(0, trim_end(s).len() as int),
    decreases s.len(),
{
    if s.len() > 0 && is_ws(s.last()) {
        lemma_trim_end_shape(s.drop_last());
        assert(s.drop_last().subrange(0, trim_end(s.drop_last()).len() as int) =~= s.subrange(
            0,
            trim_end(s).len() as int,
        ));
    } else {
        assert(s.subrange(0, s.len() as int) =~= s);
    }
}

/// Trimming never lengthens.
pub proof fn lemma_trim_len(s: Seq<char>)
    ensures
        trim(s).len() <= s.len(),
{
    lemma_trim_start_shape(s);
    lemma_trim_end_shape(trim_start(s));
}

// ---------------------------------------------------------------------------
// Ordering strings
// ---------------------------------------------------------------------------
/// Lexicographic order by code point, which is the order `String` compares
/// in (UTF-8 preserves code point order).
pub open spec fn seq_le(a: Seq<char>, b: Seq<char>) -> bool
    decreases a.len(),
{
    if a.len() == 0 {
        true
    } else if b.len() == 0 {
        false
    } else if (a[0] as u32) < (b[0] as u32) {
        true
    } else if (a[0] as u32) > (b[0] as u32) {
        false
    } else {
        seq_le(a.drop_first(), b.drop_first())
    }
}

pub proof fn lemma_seq_le_total(a: Seq<char>, b: Seq<char>)
    ensures
        seq_le(a, b) || seq_le(b, a),
    decreases a.len(),
{
    if a.len() > 0 && b.len() > 0 && (a[0] as u32) == (b[0] as u32) {
        lemma_seq_le_total(a.drop_first(), b.drop_first());
    }
}

pub proof fn lemma_seq_le_trans(a: Seq<char>, b: Seq<char>, c: Seq<char>)
    requires
        seq_le(a, b),
        seq_le(b, c),
    ensures
        seq_le(a, c),
    decreases a.len(),
{
    if a.len() > 0 && b.len() > 0 && c.len() > 0 && (a[0] as u32) == (b[0] as u32) && (b[0] as u32) == (c[0] as u32) {
        lemma_seq_le_trans(a.drop_first(), b.drop_first(), c.drop_first());
    }
}

pub fn chars_le(a: &Vec<char>, b: &Vec<char>) -> (r: bool)
    ensures
        r == seq_le(a@, b@),
{
    let mut i: usize = 0;
    assert(a@.skip(0) =~= a@);
    assert(b@.skip(0) =~= b@);
    loop
        invariant
            i <= a.len(),
            i <= b.len(),
            seq_le(a@, b@) == seq_le(a@.skip(i as int), b@.skip(i as int)),
        decreases a.len() - i,
    {
        if i == a.len() {
            return true;
        }
        if i == b.len() {
            return false;
        }
        let x = a[i] as u32;
        let y = b[i] as u32;
        if x < y {
            return true;
        }
        if x > y {
            return false;
        }
        assert(a@.skip(i as int).drop_first() =~= a@.skip(i + 1));
        assert(b@.skip(i as int).drop_first() =~= b@.skip(i + 1));
        i += 1;
    }
}

pub open spec fn strings_view(v: Seq<String>) -> Seq<Seq<char>> {
    v.map_values(|s: String| s@)
}

pub open spec fn sorted_seqs(s: Seq<Seq<char>>) -> bool {
    forall|i: int, j: int| 0 <= i < j < s.len() ==> seq_le(s[i], s[j])
}

/// Position at which `x` goes into the sorted `r`: after every element that
/// is not greater than `x`.
fn insertion_point(r: &Vec<String>, x: &Vec<char>) -> (p: usize)
    ensures
        p <= r.len(),
        forall|i: int| 0 <= i < p ==> seq_le(#[trigger] r@[i]@, x@),
        p < r.len() ==> !seq_le(r@[p as int]@, x@),
{
    let mut p: usize = 0;
    loop
        invariant
            p <= r.len(),
            forall|i: int| 0 <= i < p ==> seq_le(#[trigger] r@[i]@, x@),
        decreases r.len() - p,
    {
        if p == r.len() {
            return p;
        }
        let cur = chars_of(r[p].as_str());
        if !chars_le(&cur, x) {
            return p;
        }
        p += 1;
    }
}

/// The strings in ascending order.
pub fn sort_strings(v: Vec<String>) -> (r: Vec<String>)
    ensures
        sorted_seqs(strings_view(r@)),
        strings_view(r@).to_multiset() == strings_view(v@).to_multiset(),
{
    let ghost input = strings_view(v@);
    let mut r: Vec<String> = Vec::new();
    let mut k: usize = 0;
    assert(input.take(0) =~= Seq::<Seq<char>>::empty());
    assert(strings_view(r@) =~= Seq::<Seq<char>>::empty());
    while k < v.len()
        invariant
            k <= v.len(),
            input == strings_view(v@),
            sorted_seqs(strings_view(r@)),
            strings_view(r@).to_multiset() == input.take(k as int).to_multiset(),
        decreases v.len() - k,
    {
        let item = v[k].clone();
        let x = chars_of(item.as_str());
        let p = insertion_point(&r, &x);
        let ghost before = strings_view(r@);
        proof {
            if p < r.len() {
                lemma_seq_le_total(before[p as int], x@);
            }
        }
        r.insert(p, item);
        proof {
            let after = strings_view(r@);
            assert(after =~= before.insert(p as int, x@));
            assert forall|i: int, j: int| 0 <= i < j < after.len() implies seq_le(
                after[i],
                after[j],
            ) by {
                if j == p {
                    assert(seq_le(r@[i]@, x@));
                } else if i == p {
                    if j - 1 > p {
                        assert(seq_le(before[p as int], before[j - 1]));
                        lemma_seq_le_trans(x@, before[p as int], before[j - 1]);
                    }
                } else if j < p {
                    assert(seq_le(before[i], before[j]));
                } else if i < p {
                    assert(seq_le(before[i], x@));
                    if j - 1 > p {
                        assert(seq_le(before[p as int], before[j - 1]));
                        lemma_seq_le_trans(x@, before[p as int], before[j - 1]);
                    }
                    lemma_seq_le_trans(before[i], x@, before[j - 1]);
                } else {
                    assert(seq_le(before[i - 1], before[j - 1]));
                }
            }
            vstd::seq_lib::to_multiset_insert(before, p as int, x@);
            assert(input.take(k + 1) =~= input.take(k as int).push(x@));
            vstd::seq_lib::to_multiset_build(input.take(k as int), x@);
        }
        k += 1;
    }
    assert(input.take(v.len() as int) =~= input);
    r
}

// ---------------------------------------------------------------------------
// UTF-8 length
// ---------------------------------------------------------------------------
fn utf8_width(c: char) -> (n: u128)
    ensures
        n == vstd::utf8::encode_scalar(c as u32).len(),
{
    let u = c as u32;
    if u <= 0x7F {
        1
    } else if u <= 0x7FF {
        2
    } else if u <= 0xFFFF && !(0xD800 <= u && u <= 0xDFFF) {
        3
    } else {
        4
    }
}

/// The length in bytes of the UTF-8 encoding of the characters.
pub fn utf8_len(v: &Vec<char>) -> (n: u128)
    ensures
        n == vstd::utf8::encode_utf8(v@).len(),
{
    let mut n: u128 = 0;
    let mut i: usize = 0;
    assert(v@.skip(0) =~= v@);
    while i < v.len()
        invariant
            i <= v.len(),
            n <= 4 * i,
            n + vstd::utf8::encode_utf8(v@.skip(i as int)).len() == vstd::utf8::encode_utf8(v@).len(),
        decreases v.len() - i,
    {
        assert(v@.skip(i as int).drop_first() =~= v@.skip(i + 1));
        assert(v@.skip(i as int)[0] == v@[i as int]);
        n = n + utf8_width(v[i]);
        i += 1;
    }
    assert(v@.skip(v.len() as int) =~= Seq::<char>::empty());
    n
}

} // verus!
