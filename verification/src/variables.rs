//! Variable resolution: `{{name}}` file and environment variables,
//! `{{$...}}` system variables and `{{request.response...}}` values of
//! earlier named responses.
use vstd::prelude::*;
use crate::json::{extract_json_path, spec_json_path};
use crate::parser::{copy_pairs, pairs_view};
use crate::strmap::{StrMap, ViewCopy};
use crate::system::{
    default_hash_u128, format_datetime, random_int, resolve_dotenv, spec_dotenv,
    spec_format_datetime, spec_guid, spec_random_int, unix_time_now, uuid_v4,
};
use crate::text::{
    append_chars, append_str, append_vec, chars_eq, chars_of, contains, contains_chars, decimal,
    decimal_chars, eq_ignore_ascii_case, eq_ignore_ascii_case_chars, find, find_chars, join,
    lemma_find, lemma_find_first_char, lemma_find_no_char, lemma_trim_len, matches_at, signed_decimal, signed_decimal_chars, slice_chars, splitn, splitn_chars,
    sort_strings, sorted_seqs, starts_with, string_of, string_of_str, strings_view, trim,
    trim_chars,
};

verus! {

/// The stored response of a named request.
pub struct NamedResponse {
    pub headers: Vec<(String, String)>,
    pub body: String,
}

pub ghost struct ResponseModel {
    pub headers: Seq<(Seq<char>, Seq<char>)>,
    pub body: Seq<char>,
}

impl ViewCopy for NamedResponse {
    fn view_copy(&self) -> (r: NamedResponse) {
        NamedResponse { headers: copy_pairs(&self.headers), body: self.body.clone() }
    }
}

impl View for NamedResponse {
    type V = ResponseModel;

    open spec fn view(&self) -> ResponseModel {
        ResponseModel { headers: pairs_view(self.headers@), body: self.body@ }
    }
}

/// Everything variables are resolved against: file and environment
/// variables, the responses of named requests, and the process
/// environment and `.env` file text that `$processEnv` and `$dotenv` read.
pub struct VariableContext {
    pub variables: StrMap<String>,
    pub named_responses: StrMap<NamedResponse>,
    pub process_env: StrMap<String>,
    pub dotenv: Option<String>,
}

pub ghost struct ContextModel {
    pub variables: Map<Seq<char>, Seq<char>>,
    pub responses: Map<Seq<char>, ResponseModel>,
    pub env: Map<Seq<char>, Seq<char>>,
    pub dotenv: Option<Seq<char>>,
}

impl View for VariableContext {
    type V = ContextModel;

    open spec fn view(&self) -> ContextModel {
        ContextModel {
            variables: self.variables@,
            responses: self.named_responses@,
            env: self.process_env@,
            dotenv: match self.dotenv {
                Some(d) => Some(d@),
                None => None,
            },
        }
    }
}

impl VariableContext {
    /// A context with the given variables and nothing else.
    pub fn new(variables: StrMap<String>) -> (c: Self)
        ensures
            c@.variables == variables@,
            c@.responses == Map::<Seq<char>, ResponseModel>::empty(),
            c@.env == Map::<Seq<char>, Seq<char>>::empty(),
            c@.dotenv is None,
    {
        VariableContext {
            variables,
            named_responses: StrMap::new(),
            process_env: StrMap::new(),
            dotenv: None,
        }
    }

    /// Stores the response of the request named `name`, replacing an
    /// earlier one.
    pub fn store_response(&mut self, name: &str, response: NamedResponse)
        ensures
            final(self)@ == (ContextModel {
                responses: old(self)@.responses.insert(name@, response@),
                ..old(self)@
            }),
    {
        self.named_responses.insert(string_of(&chars_of(name)), response);
    }
}

// ---------------------------------------------------------------------------
// System variables
// ---------------------------------------------------------------------------
pub open spec fn is_blank(c: char) -> bool {
    c == ' ' || c == '\t'
}

pub open spec fn first_blank_from(s: Seq<char>, i: int) -> int
    decreases s.len() - i,
{
    if i < 0 || i >= s.len() {
        s.len() as int
    } else if is_blank(s[i]) {
        i
    } else {
        first_blank_from(s, i + 1)
    }
}

/// A system expression (the text after `$`) as name and arguments, split
/// at the first space or tab.
pub open spec fn system_split(sys: Seq<char>) -> (Seq<char>, Seq<char>) {
    let p = first_blank_from(sys, 0);
    if 0 <= p < sys.len() {
        (trim(sys.subrange(0, p)), trim(sys.subrange(p, sys.len() as int)))
    } else {
        (trim(sys), seq![])
    }
}

/// The text `$randomInt` gives for a draw: the number, or nothing where
/// the bounds make the arithmetic fail.
pub open spec fn random_int_text(args: Seq<char>, raw: u64) -> Seq<char> {
    match spec_random_int(args, raw) {
        Some(n) => signed_decimal(n),
        None => seq![],
    }
}

/// The system variables by name.
#[derive(PartialEq, Eq, Structural, Clone, Copy)]
pub enum SystemKind {
    Guid,
    RandomInt,
    Timestamp,
    Datetime,
    Dotenv,
    ProcessEnv,
    Unknown,
}

pub open spec fn system_kind(name: Seq<char>) -> SystemKind {
    if name == "guid"@ {
        SystemKind::Guid
    } else if name == "randomInt"@ {
        SystemKind::RandomInt
    } else if name == "timestamp"@ {
        SystemKind::Timestamp
    } else if name == "datetime"@ || name == "localDatetime"@ {
        SystemKind::Datetime
    } else if name == "dotenv"@ {
        SystemKind::Dotenv
    } else if name == "processEnv"@ {
        SystemKind::ProcessEnv
    } else {
        SystemKind::Unknown
    }
}

/// What a system variable may give. The clock and random draws are free
/// (any reading of the clock, any seed); `$dotenv` and `$processEnv` read
/// the context; an unknown name is written back as it was.
pub open spec fn sys_value_ok(sys: Seq<char>, ctx: ContextModel, v: Seq<char>) -> bool {
    let (name, args) = system_split(sys);
    match system_kind(name) {
        SystemKind::Guid => exists|seed: u64| v == spec_guid(seed),
        SystemKind::RandomInt => exists|raw: u64| v == #[trigger] random_int_text(args, raw),
        SystemKind::Timestamp => exists|secs: u64| v == decimal(secs as nat),
        SystemKind::Datetime => exists|secs: u64| v == spec_format_datetime(args, secs),
        SystemKind::Dotenv => v == spec_dotenv(ctx.dotenv, args),
        SystemKind::ProcessEnv => v == (if ctx.env.dom().contains(args) {
            ctx.env[args]
        } else {
            seq![]
        }),
        SystemKind::Unknown => v == "{{$"@ + sys + "}}"@,
    }
}

fn system_kind_exec(name: &Vec<char>) -> (k: SystemKind)
    ensures
        k == system_kind(name@),
{
    if chars_eq(name, &chars_of("guid")) {
        SystemKind::Guid
    } else if chars_eq(name, &chars_of("randomInt")) {
        SystemKind::RandomInt
    } else if chars_eq(name, &chars_of("timestamp")) {
        SystemKind::Timestamp
    } else if chars_eq(name, &chars_of("datetime")) || chars_eq(name, &chars_of("localDatetime")) {
        SystemKind::Datetime
    } else if chars_eq(name, &chars_of("dotenv")) {
        SystemKind::Dotenv
    } else if chars_eq(name, &chars_of("processEnv")) {
        SystemKind::ProcessEnv
    } else {
        SystemKind::Unknown
    }
}

fn system_split_exec(sys: &Vec<char>) -> (r: (Vec<char>, Vec<char>))
    ensures
        (r.0@, r.1@) == system_split(sys@),
{
    let mut p: usize = 0;
    while p < sys.len() && !(sys[p] == ' ' || sys[p] == '\t')
        invariant
            p <= sys.len(),
            first_blank_from(sys@, 0) == first_blank_from(sys@, p as int),
        decreases sys.len() - p,
    {
        p += 1;
    }
    if p < sys.len() {
        (trim_chars(&slice_chars(sys, 0, p)), trim_chars(&slice_chars(sys, p, sys.len())))
    } else {
        (trim_chars(sys), Vec::new())
    }
}

fn guid_value() -> (r: Vec<char>)
    ensures
        exists|seed: u64| r@ == spec_guid(seed),
{
    let (_, nanos) = unix_time_now();
    let seed = default_hash_u128(nanos);
    uuid_v4(seed)
}

fn random_int_value(args: &Vec<char>) -> (r: Vec<char>)
    ensures
        exists|raw: u64| r@ == #[trigger] random_int_text(args@, raw),
{
    let (_, nanos) = unix_time_now();
    let seed = default_hash_u128(nanos);
    let r = match random_int(args, seed) {
        Some(v) => signed_decimal_chars(v),
        None => Vec::new(),
    };
    proof {
        let raw = crate::system::le_u64(crate::system::lcg_bytes(seed, 8));
        assert(r@ == random_int_text(args@, raw as u64));
    }
    r
}

fn timestamp_value() -> (r: Vec<char>)
    ensures
        exists|secs: u64| r@ == decimal(secs as nat),
{
    let (secs, _) = unix_time_now();
    decimal_chars(secs as u128)
}

fn datetime_value(args: &Vec<char>) -> (r: Vec<char>)
    ensures
        exists|secs: u64| r@ == spec_format_datetime(args@, secs),
{
    let (secs, _) = unix_time_now();
    format_datetime(args, secs)
}

/// The value of a system variable (`sys` is the text after `$`).
pub fn resolve_system_variable(sys: &Vec<char>, ctx: &VariableContext) -> (r: Vec<char>)
    ensures
        sys_value_ok(sys@, ctx@, r@),
{
    let (name, args) = system_split_exec(sys);
    let kind = system_kind_exec(&name);
    let r = match kind {
        SystemKind::Guid => guid_value(),
        SystemKind::RandomInt => random_int_value(&args),
        SystemKind::Timestamp => timestamp_value(),
        SystemKind::Datetime => datetime_value(&args),
        SystemKind::Dotenv => {
            let content = match &ctx.dotenv {
                Some(d) => Some(chars_of(d.as_str())),
                None => None,
            };
            assert(match content {
                Some(c) => Some(c@),
                None => None,
            } == ctx@.dotenv);
            resolve_dotenv(&content, &args)
        },
        SystemKind::ProcessEnv => match ctx.process_env.get_chars(&args) {
            Some(v) => chars_of(v.as_str()),
            None => Vec::new(),
        },
        SystemKind::Unknown => {
            let mut r = chars_of("{{$");
            append_vec(&mut r, sys);
            append_vec(&mut r, &chars_of("}}"));
            r
        },
    };
    proof {
        let (n, a) = system_split(sys@);
        assert(n == name@ && a == args@);
        assert(system_kind(n) == kind);
    }
    r
}

// ---------------------------------------------------------------------------
// Request variables
// ---------------------------------------------------------------------------
/// What `request.response.<section>[.<rest>]` refers to.
pub ghost enum Lookup {
    /// Nothing: no such response, or an unknown section or header.
    Absent,
    /// A value taken as it is.
    Value(Seq<char>),
}

/// The value of the first header whose name equals `name` ignoring ASCII
/// case.
pub open spec fn header_ci(hs: Seq<(Seq<char>, Seq<char>)>, name: Seq<char>) -> Option<Seq<char>>
    decreases hs.len(),
{
    if hs.len() == 0 {
        None
    } else if eq_ignore_ascii_case(hs[0].0, name) {
        Some(hs[0].1)
    } else {
        header_ci(hs.drop_first(), name)
    }
}

/// The headers as `name: value` lines.
pub open spec fn header_lines(hs: Seq<(Seq<char>, Seq<char>)>) -> Seq<Seq<char>> {
    hs.map_values(|h: (Seq<char>, Seq<char>)| h.0 + ": "@ + h.1)
}

/// `name.response.body[.path]` or `name.response.headers[.Name]`.
pub open spec fn request_lookup(expr: Seq<char>, ctx: ContextModel) -> Lookup {
    let parts = splitn(expr, 4, '.');
    if parts.len() < 3 || !ctx.responses.dom().contains(parts[0]) {
        Lookup::Absent
    } else {
        let resp = ctx.responses[parts[0]];
        if parts[2] == "body"@ {
            if parts.len() >= 4 {
                match spec_json_path(resp.body, parts[3]) {
                    Some(v) => Lookup::Value(v),
                    None => Lookup::Absent,
                }
            } else {
                Lookup::Value(resp.body)
            }
        } else if parts[2] == "headers"@ {
            if parts.len() >= 4 {
                match header_ci(resp.headers, parts[3]) {
                    Some(v) => Lookup::Value(v),
                    None => Lookup::Absent,
                }
            } else {
                Lookup::Value(join(header_lines(resp.headers), "\n"@))
            }
        } else {
            Lookup::Absent
        }
    }
}

fn header_lines_joined(hs: &Vec<(String, String)>) -> (r: Vec<char>)
    ensures
        r@ == join(header_lines(pairs_view(hs@)), "\n"@),
{
    let ghost hl = header_lines(pairs_view(hs@));
    let mut r: Vec<char> = Vec::new();
    let mut i: usize = 0;
    assert(hl.take(0) =~= Seq::<Seq<char>>::empty());
    while i < hs.len()
        invariant
            i <= hs.len(),
            hl == header_lines(pairs_view(hs@)),
            r@ == join(hl.take(i as int), "\n"@),
        decreases hs.len() - i,
    {
        let mut line = chars_of(hs[i].0.as_str());
        append_vec(&mut line, &chars_of(": "));
        append_vec(&mut line, &chars_of(hs[i].1.as_str()));
        proof {
            assert(hl.take(i + 1) =~= hl.take(i as int).push(line@));
            crate::text::lemma_join_push(hl.take(i as int), line@, "\n"@);
        }
        if i > 0 {
            append_vec(&mut r, &chars_of("\n"));
        }
        append_vec(&mut r, &line);
        i += 1;
    }
    assert(hl.take(hs.len() as int) =~= hl);
    r
}

pub(crate) fn header_ci_exec(hs: &Vec<(String, String)>, name: &Vec<char>) -> (r: Option<Vec<char>>)
    ensures
        match r {
            Some(v) => header_ci(pairs_view(hs@), name@) == Some(v@),
            None => header_ci(pairs_view(hs@), name@) is None,
        },
{
    let ghost pv = pairs_view(hs@);
    let mut i: usize = 0;
    assert(pv.skip(0) =~= pv);
    while i < hs.len()
        invariant
            i <= hs.len(),
            pv == pairs_view(hs@),
            header_ci(pv, name@) == header_ci(pv.skip(i as int), name@),
        decreases hs.len() - i,
    {
        assert(pv.skip(i as int).drop_first() =~= pv.skip(i + 1));
        let k = chars_of(hs[i].0.as_str());
        if eq_ignore_ascii_case_chars(&k, name) {
            return Some(chars_of(hs[i].1.as_str()));
        }
        i += 1;
    }
    None
}

/// The value of a request variable, if the expression names one that
/// gives a value.
pub fn resolve_request_variable(expr: &Vec<char>, ctx: &VariableContext) -> (r: Option<Vec<char>>)
    ensures
        match request_lookup(expr@, ctx@) {
            Lookup::Absent => r is None,
            Lookup::Value(v) => r matches Some(x) && x@ == v,
        },
{
    let parts = splitn_chars(expr, 4, '.');
    if parts.len() < 3 {
        return None;
    }
    proof {
        assert(parts[0]@ =~= parts.deep_view()[0]);
        assert(parts[2]@ =~= parts.deep_view()[2]);
        if parts.len() >= 4 {
            assert(parts[3]@ =~= parts.deep_view()[3]);
        }
    }
    let response = match ctx.named_responses.get_chars(&parts[0]) {
        Some(resp) => resp,
        None => {
            return None;
        },
    };
    if chars_eq(&parts[2], &chars_of("body")) {
        if parts.len() >= 4 {
            extract_json_path(response.body.as_str(), &parts[3])
        } else {
            Some(chars_of(response.body.as_str()))
        }
    } else if chars_eq(&parts[2], &chars_of("headers")) {
        if parts.len() >= 4 {
            header_ci_exec(&response.headers, &parts[3])
        } else {
            Some(header_lines_joined(&response.headers))
        }
    } else {
        None
    }
}

// ---------------------------------------------------------------------------
// Resolution
// ---------------------------------------------------------------------------
/// `{{...}}` in a text: the text before it, the trimmed expression inside,
/// and the text after it. `None` when the text holds no `{{` that a later
/// `}}` closes.
pub open spec fn next_reference(text: Seq<char>) -> Option<(Seq<char>, Seq<char>, Seq<char>)> {
    match find(text, "{{"@) {
        None => None,
        Some(s) => if 0 <= s && s + 2 <= text.len() {
            let ao = text.subrange(s + 2, text.len() as int);
            match find(ao, "}}"@) {
                None => None,
                Some(e) => if 0 <= e && e + 2 <= ao.len() {
                    Some(
                        (
                            text.subrange(0, s),
                            trim(ao.subrange(0, e)),
                            ao.subrange(e + 2, ao.len() as int),
                        ),
                    )
                } else {
                    None
                },
            }
        } else {
            None
        },
    }
}

pub proof fn lemma_next_reference(text: Seq<char>)
    ensures
        next_reference(text) matches Some((pre, expr, rest)) ==> pre.len() + expr.len()
            + rest.len() + 4 <= text.len() && text.subrange(0, pre.len() as int) == pre
            && text.subrange(text.len() - rest.len(), text.len() as int) == rest,
{
    reveal_strlit("{{");
    reveal_strlit("}}");
    lemma_find(text, "{{"@);
    if let Some(s) = find(text, "{{"@) {
        let ao = text.subrange(s + 2, text.len() as int);
        lemma_find(ao, "}}"@);
        if let Some(e) = find(ao, "}}"@) {
            lemma_trim_len(ao.subrange(0, e));
            assert(text.subrange(text.len() - (ao.len() - e - 2), text.len() as int) =~= ao.subrange(
                e + 2,
                ao.len() as int,
            ));
        }
    }
}

/// A trigger for the fuel a variable's value is resolved with.
pub open spec fn fuel_point(f: nat) -> bool {
    true
}

/// A trigger for the two parts a resolution is cut into.
pub open spec fn split_point(x: Seq<char>, y: Seq<char>) -> bool {
    true
}

/// `out` is a possible resolution of `text`: each `{{expr}}` replaced by a
/// value of the expression, the rest kept. `fuel` bounds how deeply
/// variable values are resolved in turn.
pub open spec fn resolves(text: Seq<char>, ctx: ContextModel, out: Seq<char>, fuel: nat) -> bool
    decreases fuel, text.len(),
{
    match next_reference(text) {
        None => out == text,
        Some((pre, expr, rest)) => {
            proof {
                lemma_next_reference(text);
            }
            exists|x: Seq<char>, y: Seq<char>|
                #![trigger split_point(x, y)]
                split_point(x, y) && out == pre + x + y && expr_value(expr, ctx, x, fuel) && resolves(
                    rest,
                    ctx,
                    y,
                    fuel,
                )
        },
    }
}

/// `x` is a possible value of the expression inside `{{...}}`: a system
/// variable; a request variable that gives a value; otherwise the value of
/// the variable of that name, itself resolved; otherwise empty.
pub open spec fn expr_value(expr: Seq<char>, ctx: ContextModel, x: Seq<char>, fuel: nat) -> bool
    decreases fuel, expr.len(),
{
    if starts_with(expr, "$"@) {
        sys_value_ok(expr.drop_first(), ctx, x)
    } else {
        let lk = if contains(expr, ".response."@) || contains(expr, ".request."@) {
            request_lookup(expr, ctx)
        } else {
            Lookup::Absent
        };
        let from_variable = if ctx.variables.dom().contains(expr) {
            exists|f2: nat|
                #![trigger fuel_point(f2)]
                fuel_point(f2) && f2 < fuel && resolves(ctx.variables[expr], ctx, x, f2)
        } else {
            x == Seq::<char>::empty()
        };
        match lk {
            Lookup::Value(v) => x == v,
            Lookup::Absent => from_variable,
        }
    }
}

/// The expressions of a text's `{{...}}` references that are looked up as
/// variables (all but system variables).
pub open spec fn var_refs(text: Seq<char>) -> Seq<Seq<char>>
    decreases text.len(),
{
    match next_reference(text) {
        None => seq![],
        Some((pre, expr, rest)) => {
            proof {
                lemma_next_reference(text);
            }
            if starts_with(expr, "$"@) {
                var_refs(rest)
            } else {
                seq![expr] + var_refs(rest)
            }
        },
    }
}

/// Every variable the text refers to is ranked below `bound`.
pub open spec fn refs_below(
    text: Seq<char>,
    vars: Map<Seq<char>, Seq<char>>,
    rank: spec_fn(Seq<char>) -> nat,
    bound: nat,
) -> bool {
    forall|i: int|
        0 <= i < var_refs(text).len() && vars.dom().contains(#[trigger] var_refs(text)[i])
            ==> rank(var_refs(text)[i]) < bound
}

/// A ranking under which every variable refers only to lower-ranked ones.
pub open spec fn ranks(vars: Map<Seq<char>, Seq<char>>, rank: spec_fn(Seq<char>) -> nat) -> bool {
    forall|k: Seq<char>| #[trigger] vars.dom().contains(k) ==> refs_below(vars[k], vars, rank, rank(k))
}

/// No variable refers to itself, directly or through others.
pub open spec fn acyclic(vars: Map<Seq<char>, Seq<char>>) -> bool {
    exists|rank: spec_fn(Seq<char>) -> nat| ranks(vars, rank)
}

/// A ranking under which every variable ranked below `top` refers only to
/// lower-ranked ones.
pub open spec fn ranks_below(vars: Map<Seq<char>, Seq<char>>, rank: spec_fn(Seq<char>) -> nat, top: nat) -> bool {
    forall|k: Seq<char>|
        #[trigger] vars.dom().contains(k) && rank(k) < top ==> refs_below(vars[k], vars, rank, rank(k))
}

/// No variable that the text reaches, through its references and theirs,
/// refers to itself: the reached variables can be ranked so that each
/// refers only to lower-ranked ones. Cycles among variables the text never
/// reaches do not count.
pub open spec fn no_cycle_from(text: Seq<char>, vars: Map<Seq<char>, Seq<char>>) -> bool {
    exists|rank: spec_fn(Seq<char>) -> nat, top: nat|
        ranks_below(vars, rank, top) && refs_below(text, vars, rank, top)
}

fn next_reference_exec(text: &Vec<char>) -> (r: Option<(Vec<char>, Vec<char>, Vec<char>)>)
    ensures
        match r {
            None => next_reference(text@) is None,
            Some((a, b, c)) => next_reference(text@) == Some((a@, b@, c@)),
        },
{
    let open = chars_of("{{");
    let close = chars_of("}}");
    match find_chars(text, &open) {
        None => None,
        Some(s) => {
            proof {
                reveal_strlit("{{");
                lemma_find(text@, "{{"@);
                assert(open@.len() == 2);
                assert(s + 2 <= text.len());
            }
            let ao = slice_chars(text, s + 2, text.len());
            match find_chars(&ao, &close) {
                None => None,
                Some(e) => {
                    proof {
                        reveal_strlit("}}");
                        lemma_find(ao@, "}}"@);
                        assert(close@.len() == 2);
                    }
                    let pre = slice_chars(text, 0, s);
                    let expr = trim_chars(&slice_chars(&ao, 0, e));
                    let rest = slice_chars(&ao, e + 2, ao.len());
                    Some((pre, expr, rest))
                },
            }
        },
    }
}

/// The value of one `{{expr}}`.
fn resolve_expression(
    expr: &Vec<char>,
    ctx: &VariableContext,
    Ghost(rank): Ghost<spec_fn(Seq<char>) -> nat>,
    Ghost(top): Ghost<nat>,
    Ghost(bound): Ghost<nat>,
) -> (x: Vec<char>)
    requires
        ranks_below(ctx@.variables, rank, top),
        bound <= top,
        !starts_with(expr@, "$"@) && ctx@.variables.dom().contains(expr@) ==> rank(expr@) < bound,
    ensures
        expr_value(expr@, ctx@, x@, bound),
    decreases bound, 0nat,
{
    if expr.len() > 0 && expr[0] == '$' {
        proof {
            reveal_strlit("$");
            assert(expr@.subrange(0, 1) =~= "$"@);
            assert(starts_with(expr@, "$"@));
        }
        let sys = slice_chars(expr, 1, expr.len());
        assert(sys@ =~= expr@.drop_first());
        return resolve_system_variable(&sys, ctx);
    }
    proof {
        reveal_strlit("$");
        if starts_with(expr@, "$"@) {
            assert(expr@.subrange(0, 1)[0] == expr@[0]);
        }
        assert(!starts_with(expr@, "$"@));
    }
    let is_request = contains_chars(expr, &chars_of(".response.")) || contains_chars(
        expr,
        &chars_of(".request."),
    );
    if is_request {
        match resolve_request_variable(expr, ctx) {
            Some(v) => {
                return v;
            },
            None => {},
        }
    }
    match ctx.variables.get_chars(expr) {
        Some(val) => {
            let vc = chars_of(val.as_str());
            let ghost r = rank(expr@);
            proof {
                assert(refs_below(vc@, ctx@.variables, rank, r));
            }
            let x = resolve_in(&vc, ctx, Ghost(rank), Ghost(top), Ghost(r));
            assert(resolves(ctx@.variables[expr@], ctx@, x@, r));
            assert(fuel_point(r));
            x
        },
        None => Vec::new(),
    }
}

proof fn lemma_resolves_intro(
    text: Seq<char>,
    ctx: ContextModel,
    pre: Seq<char>,
    expr: Seq<char>,
    rest: Seq<char>,
    x: Seq<char>,
    y: Seq<char>,
    fuel: nat,
)
    requires
        next_reference(text) == Some((pre, expr, rest)),
        expr_value(expr, ctx, x, fuel),
        resolves(rest, ctx, y, fuel),
    ensures
        resolves(text, ctx, pre + x + y, fuel),
{
    assert(split_point(x, y));
}

proof fn lemma_var_refs_step(text: Seq<char>)
    requires
        next_reference(text) is Some,
    ensures
        ({
            let (pre, expr, rest) = next_reference(text)->0;
            &&& starts_with(expr, "$"@) ==> var_refs(text) == var_refs(rest)
            &&& !starts_with(expr, "$"@) ==> var_refs(text) == seq![expr] + var_refs(rest)
        }),
{
}

/// Resolves every `{{...}}` in `text`.
fn resolve_in(
    text: &Vec<char>,
    ctx: &VariableContext,
    Ghost(rank): Ghost<spec_fn(Seq<char>) -> nat>,
    Ghost(top): Ghost<nat>,
    Ghost(bound): Ghost<nat>,
) -> (out: Vec<char>)
    requires
        ranks_below(ctx@.variables, rank, top),
        bound <= top,
        refs_below(text@, ctx@.variables, rank, bound),
    ensures
        resolves(text@, ctx@, out@, bound),
    decreases bound, 1nat,
{
    let mut result: Vec<char> = Vec::new();
    let mut rest = slice_chars(text, 0, text.len());
    assert(rest@ =~= text@);
    assert forall|y: Seq<char>| #[trigger] resolves(rest@, ctx@, y, bound) implies resolves(
        text@,
        ctx@,
        result@ + y,
        bound,
    ) by {
        assert(result@ + y =~= y);
    }
    loop
        invariant
            ranks_below(ctx@.variables, rank, top),
            bound <= top,
            refs_below(rest@, ctx@.variables, rank, bound),
            forall|y: Seq<char>| #[trigger]
                resolves(rest@, ctx@, y, bound) ==> resolves(text@, ctx@, result@ + y, bound),
        decreases rest.len(),
    {
        match next_reference_exec(&rest) {
            None => {
                assert(resolves(rest@, ctx@, rest@, bound));
                append_vec(&mut result, &rest);
                return result;
            },
            Some((pre, expr, rest2)) => {
                proof {
                    lemma_next_reference(rest@);
                    lemma_var_refs_step(rest@);
                    if !starts_with(expr@, "$"@) && ctx@.variables.dom().contains(expr@) {
                        assert(var_refs(rest@)[0] == expr@);
                    }
                    assert forall|i: int|
                        0 <= i < var_refs(rest2@).len() && ctx@.variables.dom().contains(
                            #[trigger] var_refs(rest2@)[i],
                        ) implies rank(var_refs(rest2@)[i]) < bound by {
                        if starts_with(expr@, "$"@) {
                            assert(var_refs(rest@)[i] == var_refs(rest2@)[i]);
                        } else {
                            assert(var_refs(rest@)[i + 1] == var_refs(rest2@)[i]);
                        }
                    }
                }
                let x = resolve_expression(&expr, ctx, Ghost(rank), Ghost(top), Ghost(bound));
                let ghost old_result = result@;
                let ghost old_rest = rest@;
                append_vec(&mut result, &pre);
                append_vec(&mut result, &x);
                proof {
                    assert forall|y2: Seq<char>| #[trigger]
                        resolves(rest2@, ctx@, y2, bound) implies resolves(
                        text@,
                        ctx@,
                        result@ + y2,
                        bound,
                    ) by {
                        assert(expr_value(expr@, ctx@, x@, bound));
                        lemma_resolves_intro(old_rest, ctx@, pre@, expr@, rest2@, x@, y2, bound);
                        assert(old_result + (pre@ + x@ + y2) =~= result@ + y2);
                    }
                }
                rest = rest2;
            },
        }
    }
}

/// `out` is a possible resolution of `text`, however deep variable
/// values nest.
pub open spec fn is_resolution(text: Seq<char>, ctx: ContextModel, out: Seq<char>) -> bool {
    exists|fuel: nat| resolves(text, ctx, out, fuel)
}

pub open spec fn max_rank(refs: Seq<Seq<char>>, rank: spec_fn(Seq<char>) -> nat) -> nat
    decreases refs.len(),
{
    if refs.len() == 0 {
        0
    } else {
        let m = max_rank(refs.drop_last(), rank);
        if rank(refs.last()) > m {
            rank(refs.last())
        } else {
            m
        }
    }
}

proof fn lemma_max_rank(refs: Seq<Seq<char>>, rank: spec_fn(Seq<char>) -> nat)
    ensures
        forall|i: int| 0 <= i < refs.len() ==> rank(#[trigger] refs[i]) <= max_rank(refs, rank),
    decreases refs.len(),
{
    if refs.len() > 0 {
        lemma_max_rank(refs.drop_last(), rank);
        assert forall|i: int| 0 <= i < refs.len() implies rank(#[trigger] refs[i]) <= max_rank(
            refs,
            rank,
        ) by {
            if i < refs.len() - 1 {
                assert(refs.drop_last()[i] == refs[i]);
            }
        }
    }
}

/// Resolves every `{{...}}` in `text` against the context. A variable's
/// value is resolved in turn; an undefined variable gives the empty text.
/// Needs no cycle among the variables the text reaches, without which
/// resolving would not end.
pub fn resolve(text: &str, ctx: &VariableContext) -> (r: String)
    requires
        no_cycle_from(text@, ctx@.variables),
    ensures
        is_resolution(text@, ctx@, r@),
{
    let ghost (rank, top) = choose|rank: spec_fn(Seq<char>) -> nat, top: nat|
        ranks_below(ctx@.variables, rank, top) && refs_below(text@, ctx@.variables, rank, top);
    let t = chars_of(text);
    let out = resolve_in(&t, ctx, Ghost(rank), Ghost(top), Ghost(top));
    string_of(&out)
}

/// Variables without any cycle reach none from any text.
pub proof fn lemma_acyclic_no_cycle_from(text: Seq<char>, vars: Map<Seq<char>, Seq<char>>)
    requires
        acyclic(vars),
    ensures
        no_cycle_from(text, vars),
{
    let rank = choose|rank: spec_fn(Seq<char>) -> nat| ranks(vars, rank);
    let top = max_rank(var_refs(text), rank) + 1;
    lemma_max_rank(var_refs(text), rank);
    assert(ranks_below(vars, rank, top));
    assert(refs_below(text, vars, rank, top));
}

/// The variable references of a text, as `var_refs` gives them.
fn var_refs_exec(text: &Vec<char>) -> (r: Vec<Vec<char>>)
    ensures
        r.deep_view() == var_refs(text@),
{
    let mut r: Vec<Vec<char>> = Vec::new();
    let mut rest = slice_chars(text, 0, text.len());
    assert(rest@ =~= text@);
    assert(r.deep_view() + var_refs(rest@) =~= var_refs(text@));
    loop
        invariant
            r.deep_view() + var_refs(rest@) == var_refs(text@),
        decreases rest.len(),
    {
        match next_reference_exec(&rest) {
            None => {
                assert(r.deep_view() + var_refs(rest@) =~= r.deep_view());
                return r;
            },
            Some((_pre, expr, rest2)) => {
                proof {
                    lemma_next_reference(rest@);
                    lemma_var_refs_step(rest@);
                    reveal_strlit("$");
                }
                let is_sys = expr.len() > 0 && expr[0] == '$';
                proof {
                    if is_sys {
                        assert(expr@.subrange(0, 1) =~= "$"@);
                    } else if starts_with(expr@, "$"@) {
                        assert(expr@.subrange(0, 1)[0] == expr@[0]);
                    }
                }
                if !is_sys {
                    let ghost before = r.deep_view();
                    assert(expr.deep_view() =~= expr@);
                    r.push(expr);
                    assert(r.deep_view() =~= before.push(expr@));
                    assert(before.push(expr@) + var_refs(rest2@) =~= before + (seq![expr@] + var_refs(
                        rest2@,
                    )));
                }
                rest = rest2;
            },
        }
    }
}

/// Whether every variable of key `ko[k]` that its value refers to is done.
pub open spec fn eligible(vars: Map<Seq<char>, Seq<char>>, ko: Seq<Seq<char>>, done: Seq<bool>, k: int) -> bool {
    forall|u: int|
        0 <= u < var_refs(vars[ko[k]]).len() && vars.dom().contains(#[trigger] var_refs(vars[ko[k]])[u])
            ==> done[ko.index_of(var_refs(vars[ko[k]])[u])]
}

/// The facts about a map's key order that the check uses.
pub open spec fn key_order_of(vars: Map<Seq<char>, Seq<char>>, ko: Seq<Seq<char>>) -> bool {
    &&& ko.no_duplicates()
    &&& forall|s: Seq<char>| #![auto] vars.dom().contains(s) <==> ko.contains(s)
}

/// Under a ranking, a variable not yet done leads to one that is not done
/// and whose references all are.
proof fn lemma_eligible_exists(
    vars: Map<Seq<char>, Seq<char>>,
    ko: Seq<Seq<char>>,
    done: Seq<bool>,
    rank: spec_fn(Seq<char>) -> nat,
    s: Seq<char>,
)
    requires
        ranks(vars, rank),
        key_order_of(vars, ko),
        done.len() == ko.len(),
        ko.contains(s),
        !done[ko.index_of(s)],
    ensures
        exists|k: int| 0 <= k < ko.len() && !done[k] && #[trigger] eligible(vars, ko, done, k),
    decreases rank(s),
{
    let k = ko.index_of(s);
    assert(ko[k] == s);
    if eligible(vars, ko, done, k) {
    } else {
        let refs = var_refs(vars[s]);
        let u = choose|u: int|
            0 <= u < refs.len() && vars.dom().contains(#[trigger] refs[u]) && !done[ko.index_of(refs[u])];
        let r = refs[u];
        assert(vars.dom().contains(s));
        assert(refs_below(vars[s], vars, rank, rank(s)));
        assert(rank(r) < rank(s));
        lemma_eligible_exists(vars, ko, done, rank, r);
    }
}

fn count_not_done(done: &Vec<bool>) -> (c: usize)
    ensures
        c == not_done(done@),
{
    let mut c: usize = 0;
    let mut i: usize = 0;
    while i < done.len()
        invariant
            i <= done.len(),
            c == not_done(done@.take(i as int)),
            c <= i,
        decreases done.len() - i,
    {
        assert(done@.take(i + 1).drop_last() =~= done@.take(i as int));
        if !done[i] {
            c += 1;
        }
        i += 1;
    }
    assert(done@.take(done.len() as int) =~= done@);
    c
}

/// How many entries are not done.
pub open spec fn not_done(done: Seq<bool>) -> nat
    decreases done.len(),
{
    if done.len() == 0 {
        0
    } else {
        not_done(done.drop_last()) + if done.last() {
            0nat
        } else {
            1nat
        }
    }
}

proof fn lemma_not_done_set(done: Seq<bool>, k: int)
    requires
        0 <= k < done.len(),
        !done[k],
    ensures
        not_done(done.update(k, true)) + 1 == not_done(done),
    decreases done.len(),
{
    if k < done.len() - 1 {
        assert(done.update(k, true).drop_last() =~= done.drop_last().update(k, true));
        lemma_not_done_set(done.drop_last(), k);
    } else {
        assert(done.update(k, true).drop_last() =~= done.drop_last());
    }
}

proof fn lemma_not_done_pos(done: Seq<bool>)
    requires
        not_done(done) > 0,
    ensures
        exists|k: int| 0 <= k < done.len() && !done[k],
    decreases done.len(),
{
    if done.last() {
        lemma_not_done_pos(done.drop_last());
        let k = choose|k: int| 0 <= k < done.drop_last().len() && !done.drop_last()[k];
        assert(!done[k]);
    } else {
        assert(!done[done.len() - 1]);
    }
}

proof fn lemma_not_done_zero(done: Seq<bool>, k: int)
    requires
        not_done(done) == 0,
        0 <= k < done.len(),
    ensures
        done[k],
    decreases done.len(),
{
    if k < done.len() - 1 {
        lemma_not_done_zero(done.drop_last(), k);
    }
}

/// The first variable, by key order, that is not done and whose references
/// all are.
fn find_eligible(vars: &StrMap<String>, done: &Vec<bool>) -> (r: Option<usize>)
    requires
        done.len() == vars.key_order().len(),
        key_order_of(vars@, vars.key_order()),
    ensures
        r matches Some(k) ==> k < done.len() && !done@[k as int] && eligible(vars@, vars.key_order(), done@, k as int),
        r is None ==> forall|k: int| 0 <= k < done.len() && !done@[k] ==> !#[trigger] eligible(vars@, vars.key_order(), done@, k),
{
    let ghost ko = vars.key_order();
    let n = done.len();
    let mut k: usize = 0;
    while k < n
        invariant
            n == done.len(),
            n == ko.len(),
            ko == vars.key_order(),
            key_order_of(vars@, ko),
            k <= n,
            forall|m: int| 0 <= m < k && !done@[m] ==> !#[trigger] eligible(vars@, ko, done@, m),
        decreases n - k,
    {
        if !done[k] {
            let (key, value) = vars.entry(k);
            let vc = chars_of(value.as_str());
            let refs = var_refs_exec(&vc);
            proof {
                assert(vars@[ko[k as int]] == vc@);
            }
            let mut t: usize = 0;
            let mut ok = true;
            while t < refs.len()
                invariant
                    n == done.len(),
                    n == ko.len(),
                    ko == vars.key_order(),
                    key_order_of(vars@, ko),
                    k < n,
                    t <= refs.len(),
                    refs.deep_view() == var_refs(vars@[ko[k as int]]),
                    ok ==> forall|u: int|
                        0 <= u < t && vars@.dom().contains(#[trigger] var_refs(vars@[ko[k as int]])[u])
                            ==> done@[ko.index_of(var_refs(vars@[ko[k as int]])[u])],
                    !ok ==> !eligible(vars@, ko, done@, k as int),
                decreases refs.len() - t,
            {
                assert(refs[t as int].deep_view() =~= refs[t as int]@);
                if ok {
                    match vars.index_of_key(&refs[t]) {
                        Some(j) => {
                            proof {
                                assert(ko.contains(ko[j as int]));
                                assert(ko.index_of(ko[j as int]) == j) by {
                                    assert(ko[ko.index_of(ko[j as int])] == ko[j as int]);
                                }
                                assert(vars@.dom().contains(refs@[t as int]@));
                            }
                            if !done[j] {
                                proof {
                                    assert(var_refs(vars@[ko[k as int]])[t as int] == ko[j as int]);
                                }
                                ok = false;
                            }
                        },
                        None => {},
                    }
                }
                t += 1;
            }
            if ok {
                return Some(k);
            }
        }
        k += 1;
    }
    None
}

/// Whether the variables refer to one another without a cycle, so that
/// resolving them ends. Works by taking out, one at a time, a variable
/// whose references are all taken out already.
pub fn variables_acyclic(vars: &StrMap<String>) -> (b: bool)
    ensures
        b <==> acyclic(vars@),
{
    vars.key_order_facts();
    let ghost ko = vars.key_order();
    let n = vars.len();
    let mut done: Vec<bool> = Vec::new();
    let mut i: usize = 0;
    while i < n
        invariant
            i <= n,
            done.len() == i,
            forall|j: int| 0 <= j < i ==> !done@[j],
        decreases n - i,
    {
        done.push(false);
        i += 1;
    }
    let ghost mut step: Seq<nat> = Seq::new(n as nat, |j: int| 0nat);
    let ghost mut count: nat = 0;
    assert(key_order_of(vars@, ko));
    loop
        invariant
            n == ko.len(),
            ko == vars.key_order(),
            key_order_of(vars@, ko),
            done.len() == n,
            step.len() == n,
            forall|m: int| 0 <= m < n && done@[m] ==> step[m] < count,
            forall|m: int, u: int|
                #![trigger var_refs(vars@[ko[m]])[u]]
                0 <= m < n && done@[m] && 0 <= u < var_refs(vars@[ko[m]]).len() && vars@.dom().contains(
                    var_refs(vars@[ko[m]])[u],
                ) ==> done@[ko.index_of(var_refs(vars@[ko[m]])[u])] && step[ko.index_of(
                    var_refs(vars@[ko[m]])[u],
                )] < step[m],
        decreases not_done(done@),
    {
        match find_eligible(vars, &done) {
            Some(k) => {
                let ghost before = done@;
                let ghost old_step = step;
                let ghost old_count = count;
                proof {
                    lemma_not_done_set(before, k as int);
                }
                done.set(k, true);
                proof {
                    step = step.update(k as int, count);
                    count = count + 1;
                    assert forall|m: int| 0 <= m < n && done@[m] implies step[m] < count by {
                        if m != k {
                            assert(before[m]);
                        }
                    }
                    assert forall|m: int, u: int|
                        #![trigger var_refs(vars@[ko[m]])[u]]
                        0 <= m < n && done@[m] && 0 <= u < var_refs(vars@[ko[m]]).len()
                            && vars@.dom().contains(var_refs(vars@[ko[m]])[u]) implies done@[ko.index_of(
                        var_refs(vars@[ko[m]])[u],
                    )] && step[ko.index_of(var_refs(vars@[ko[m]])[u])] < step[m] by {
                        let r = var_refs(vars@[ko[m]])[u];
                        let j = ko.index_of(r);
                        assert(ko.contains(r));
                        assert(0 <= j < n && ko[j] == r);
                        if m == k {
                            assert(before[j]);
                            assert(j != k);
                            assert(old_step[j] < old_count);
                        } else {
                            assert(before[m]);
                            assert(before[j] && old_step[j] < old_step[m]);
                            assert(j != k);
                        }
                    }
                }
            },
            None => {
                let left = count_not_done(&done);
                if left == 0 {
                    proof {
                        let rank_fn = |s: Seq<char>| if ko.contains(s) {
                            step[ko.index_of(s)]
                        } else {
                            0nat
                        };
                        assert forall|s: Seq<char>| #[trigger] vars@.dom().contains(s) implies refs_below(
                            vars@[s],
                            vars@,
                            rank_fn,
                            rank_fn(s),
                        ) by {
                            assert(ko.contains(s));
                            let m = ko.index_of(s);
                            assert(ko[m] == s);
                            lemma_not_done_zero(done@, m);
                            assert forall|u: int|
                                0 <= u < var_refs(vars@[s]).len() && vars@.dom().contains(
                                    #[trigger] var_refs(vars@[s])[u],
                                ) implies rank_fn(var_refs(vars@[s])[u]) < rank_fn(s) by {
                                let r = var_refs(vars@[s])[u];
                                assert(ko.contains(r));
                                assert(var_refs(vars@[ko[m]])[u] == r);
                            }
                        }
                        assert(ranks(vars@, rank_fn));
                    }
                    return true;
                } else {
                    proof {
                        if acyclic(vars@) {
                            let rank = choose|rank: spec_fn(Seq<char>) -> nat| ranks(vars@, rank);
                            lemma_not_done_pos(done@);
                            let m = choose|m: int| 0 <= m < done@.len() && !done@[m];
                            assert(ko[m] == ko[m]);
                            assert(ko.contains(ko[m]));
                            assert(ko.index_of(ko[m]) == m) by {
                                assert(ko[ko.index_of(ko[m])] == ko[m]);
                            }
                            lemma_eligible_exists(vars@, ko, done@, rank, ko[m]);
                        }
                    }
                    return false;
                }
            },
        }
    }
}

/// Marks, in `reached` (indexed by key order), the keys among `refs`.
/// Reports whether any mark is new.
fn mark_refs(refs: &Vec<Vec<char>>, vars: &StrMap<String>, reached: &mut Vec<bool>) -> (changed: bool)
    requires
        old(reached)@.len() == vars.key_order().len(),
        key_order_of(vars@, vars.key_order()),
    ensures
        final(reached)@.len() == old(reached)@.len(),
        forall|j: int| 0 <= j < old(reached)@.len() && old(reached)@[j] ==> final(reached)@[j],
        forall|u: int|
            0 <= u < refs@.len() && vars@.dom().contains(#[trigger] refs@[u]@)
                ==> final(reached)@[vars.key_order().index_of(refs@[u]@)],
        forall|j: int|
            0 <= j < final(reached)@.len() && final(reached)@[j] && !old(reached)@[j]
                ==> refs.deep_view().contains(#[trigger] vars.key_order()[j]),
        changed ==> not_done(final(reached)@) < not_done(old(reached)@),
        !changed ==> final(reached)@ == old(reached)@,
{
    let ghost ko = vars.key_order();
    let ghost start = reached@;
    let mut changed = false;
    let mut t: usize = 0;
    while t < refs.len()
        invariant
            ko == vars.key_order(),
            key_order_of(vars@, ko),
            reached@.len() == start.len(),
            start.len() == ko.len(),
            t <= refs.len(),
            forall|j: int| 0 <= j < start.len() && start[j] ==> reached@[j],
            forall|u: int|
                0 <= u < t && vars@.dom().contains(#[trigger] refs@[u]@) ==> reached@[ko.index_of(
                    refs@[u]@,
                )],
            forall|j: int|
                0 <= j < reached@.len() && reached@[j] && !start[j] ==> refs.deep_view().contains(
                    #[trigger] ko[j],
                ),
            changed ==> not_done(reached@) < not_done(start),
            !changed ==> reached@ == start,
        decreases refs.len() - t,
    {
        let ghost prev = reached@;
        match vars.index_of_key(&refs[t]) {
            Some(j) => {
                proof {
                    assert(ko.index_of(ko[j as int]) == j) by {
                        assert(ko.contains(ko[j as int]));
                        assert(ko[ko.index_of(ko[j as int])] == ko[j as int]);
                    }
                    assert(refs.deep_view()[t as int] == refs@[t as int]@);
                }
                if !reached[j] {
                    let ghost before = reached@;
                    proof {
                        lemma_not_done_set(before, j as int);
                    }
                    reached.set(j, true);
                    changed = true;
                }
            },
            None => {},
        }
        proof {
            assert forall|u: int|
                0 <= u < t + 1 && vars@.dom().contains(#[trigger] refs@[u]@) implies reached@[ko.index_of(
                refs@[u]@,
            )] by {
                assert(ko.contains(refs@[u]@));
                if u < t {
                    assert(prev[ko.index_of(refs@[u]@)]);
                }
            }
        }
        t += 1;
    }
    changed
}

/// The keys, by key order, that the text reaches through its references
/// and theirs. For any ranking of the reached variables (as in
/// `no_cycle_from`) every reached key is ranked below `top`.
fn reached_keys(
    text: &Vec<char>,
    vars: &StrMap<String>,
    Ghost(rank): Ghost<spec_fn(Seq<char>) -> nat>,
    Ghost(top): Ghost<nat>,
) -> (reached: Vec<bool>)
    ensures
        reached@.len() == vars.key_order().len(),
        key_order_of(vars@, vars.key_order()),
        forall|u: int|
            0 <= u < var_refs(text@).len() && vars@.dom().contains(#[trigger] var_refs(text@)[u])
                ==> reached@[vars.key_order().index_of(var_refs(text@)[u])],
        forall|m: int, u: int|
            #![trigger var_refs(vars@[vars.key_order()[m]])[u]]
            0 <= m < reached@.len() && reached@[m] && 0 <= u < var_refs(vars@[vars.key_order()[m]]).len()
                && vars@.dom().contains(var_refs(vars@[vars.key_order()[m]])[u]) ==> reached@[vars.key_order().index_of(
                var_refs(vars@[vars.key_order()[m]])[u],
            )],
        ranks_below(vars@, rank, top) && refs_below(text@, vars@, rank, top) ==> forall|m: int|
            0 <= m < reached@.len() && reached@[m] ==> rank(#[trigger] vars.key_order()[m]) < top,
{
    vars.key_order_facts();
    let ghost ko = vars.key_order();
    let ghost sound = ranks_below(vars@, rank, top) && refs_below(text@, vars@, rank, top);
    let n = vars.len();
    let mut reached: Vec<bool> = Vec::new();
    let mut i: usize = 0;
    while i < n
        invariant
            i <= n,
            reached@.len() == i,
            forall|j: int| 0 <= j < i ==> !reached@[j],
        decreases n - i,
    {
        reached.push(false);
        i += 1;
    }
    let refs = var_refs_exec(text);
    let ghost none = reached@;
    mark_refs(&refs, vars, &mut reached);
    proof {
        assert forall|m: int| 0 <= m < reached@.len() && reached@[m] && sound implies rank(
            #[trigger] ko[m],
        ) < top by {
            assert(!none[m]);
            let u = choose|u: int| 0 <= u < refs.deep_view().len() && refs.deep_view()[u] == ko[m];
            assert(var_refs(text@)[u] == ko[m]);
            assert(ko.contains(ko[m]));
            assert(vars@.dom().contains(ko[m]));
        }
        assert forall|u: int|
            0 <= u < var_refs(text@).len() && vars@.dom().contains(
                #[trigger] var_refs(text@)[u],
            ) implies reached@[ko.index_of(var_refs(text@)[u])] by {
            assert(refs@[u]@ == refs.deep_view()[u]);
        }
    }
    loop
        invariant
            n == ko.len(),
            ko == vars.key_order(),
            key_order_of(vars@, ko),
            reached@.len() == n,
            sound == (ranks_below(vars@, rank, top) && refs_below(text@, vars@, rank, top)),
            forall|u: int|
                0 <= u < var_refs(text@).len() && vars@.dom().contains(#[trigger] var_refs(text@)[u])
                    ==> reached@[ko.index_of(var_refs(text@)[u])],
            sound ==> forall|m: int| 0 <= m < reached@.len() && reached@[m] ==> rank(#[trigger] ko[m]) < top,
        decreases not_done(reached@),
    {
        let ghost start = reached@;
        let mut changed = false;
        let mut k: usize = 0;
        while k < n
            invariant
                n == ko.len(),
                ko == vars.key_order(),
                key_order_of(vars@, ko),
                reached@.len() == n,
                start.len() == n,
                k <= n,
                sound == (ranks_below(vars@, rank, top) && refs_below(text@, vars@, rank, top)),
                forall|j: int| 0 <= j < n && start[j] ==> reached@[j],
                forall|u: int|
                    0 <= u < var_refs(text@).len() && vars@.dom().contains(#[trigger] var_refs(text@)[u])
                        ==> reached@[ko.index_of(var_refs(text@)[u])],
                sound ==> forall|m: int| 0 <= m < reached@.len() && reached@[m] ==> rank(#[trigger] ko[m]) < top,
                changed ==> not_done(reached@) < not_done(start),
                !changed ==> reached@ == start,
                !changed ==> forall|m: int, u: int|
                    #![trigger var_refs(vars@[ko[m]])[u]]
                    0 <= m < k && reached@[m] && 0 <= u < var_refs(vars@[ko[m]]).len()
                        && vars@.dom().contains(var_refs(vars@[ko[m]])[u]) ==> reached@[ko.index_of(
                        var_refs(vars@[ko[m]])[u],
                    )],
            decreases n - k,
        {
            if reached[k] {
                let (_key, value) = vars.entry(k);
                let vc = chars_of(value.as_str());
                let krefs = var_refs_exec(&vc);
                let ghost before = reached@;
                let c = mark_refs(&krefs, vars, &mut reached);
                proof {
                    assert(vars@[ko[k as int]] == vc@);
                    assert forall|j: int| 0 <= j < n && start[j] implies reached@[j] by {
                        assert(before[j]);
                    }
                    assert forall|u: int|
                        0 <= u < var_refs(text@).len() && vars@.dom().contains(
                            #[trigger] var_refs(text@)[u],
                        ) implies reached@[ko.index_of(var_refs(text@)[u])] by {
                        assert(ko.contains(var_refs(text@)[u]));
                        assert(before[ko.index_of(var_refs(text@)[u])]);
                    }
                    assert forall|m: int| 0 <= m < reached@.len() && reached@[m] && sound implies rank(
                        #[trigger] ko[m],
                    ) < top by {
                        if !before[m] {
                            let u = choose|u: int|
                                0 <= u < krefs.deep_view().len() && krefs.deep_view()[u] == ko[m];
                            assert(var_refs(vc@)[u] == ko[m]);
                            assert(ko.contains(ko[m]));
                            assert(vars@.dom().contains(ko[m]));
                            assert(rank(ko[k as int]) < top);
                            assert(vars@.dom().contains(ko[k as int]));
                            assert(refs_below(vars@[ko[k as int]], vars@, rank, rank(ko[k as int])));
                        }
                    }
                    if !c {
                        assert forall|u: int|
                            0 <= u < var_refs(vars@[ko[k as int]]).len() && vars@.dom().contains(
                                #[trigger] var_refs(vars@[ko[k as int]])[u],
                            ) implies reached@[ko.index_of(var_refs(vars@[ko[k as int]])[u])] by {
                            assert(krefs@[u]@ == krefs.deep_view()[u]);
                        }
                    }
                }
                if c {
                    changed = true;
                }
            }
            k += 1;
        }
        if !changed {
            return reached;
        }
    }
}

/// The variables whose keys are marked in `reached` (indexed by key
/// order).
fn restrict_to_reached(vars: &StrMap<String>, reached: &Vec<bool>) -> (r: StrMap<String>)
    requires
        reached@.len() == vars.key_order().len(),
        key_order_of(vars@, vars.key_order()),
    ensures
        forall|s: Seq<char>|
            #[trigger] r@.dom().contains(s) <==> (vars@.dom().contains(s)
                && reached@[vars.key_order().index_of(s)]),
        forall|s: Seq<char>| #[trigger] r@.dom().contains(s) ==> r@[s] == vars@[s],
{
    let ghost ko = vars.key_order();
    let mut r: StrMap<String> = StrMap::new();
    let n = reached.len();
    proof {
        assert forall|s: Seq<char>| #[trigger] vars@.dom().contains(s) implies 0 <= ko.index_of(s) < n by {
            assert(ko.contains(s));
        }
    }
    let mut k: usize = 0;
    while k < n
        invariant
            n == reached@.len(),
            n == ko.len(),
            ko == vars.key_order(),
            key_order_of(vars@, ko),
            k <= n,
            forall|s: Seq<char>|
                #[trigger] r@.dom().contains(s) <==> (vars@.dom().contains(s) && ko.index_of(s) < k
                    && reached@[ko.index_of(s)]),
            forall|s: Seq<char>| #[trigger] r@.dom().contains(s) ==> r@[s] == vars@[s],
        decreases n - k,
    {
        if reached[k] {
            let (key, value) = vars.entry(k);
            proof {
                assert(ko.index_of(ko[k as int]) == k) by {
                    assert(ko.contains(ko[k as int]));
                    assert(ko[ko.index_of(ko[k as int])] == ko[k as int]);
                }
            }
            r.insert(key.clone(), value.clone());
        }
        proof {
            assert forall|s: Seq<char>| vars@.dom().contains(s) && ko.index_of(s) == k implies s == ko[k as int] by {
                assert(ko.contains(s));
            }
        }
        k += 1;
    }
    proof {
        assert forall|s: Seq<char>| #[trigger] vars@.dom().contains(s) implies ko.index_of(s) < n by {
            assert(ko.contains(s));
        }
    }
    r
}

/// Whether no cycle of variables is reachable from the text, so that
/// resolving it ends. Cycles among variables the text never reaches do
/// not count.
pub fn refs_cycle_free(text: &Vec<char>, vars: &StrMap<String>) -> (b: bool)
    ensures
        b <==> no_cycle_from(text@, vars@),
{
    let ghost (rank0, top0) = choose|rank: spec_fn(Seq<char>) -> nat, top: nat|
        ranks_below(vars@, rank, top) && refs_below(text@, vars@, rank, top);
    let reached = reached_keys(text, vars, Ghost(rank0), Ghost(top0));
    let ghost ko = vars.key_order();
    let sub = restrict_to_reached(vars, &reached);
    let b = variables_acyclic(&sub);
    proof {
        if b {
            let r = choose|rank: spec_fn(Seq<char>) -> nat| ranks(sub@, rank);
            let t = max_rank(var_refs(text@), r) + 1;
            lemma_max_rank(var_refs(text@), r);
            let rank2 = |s: Seq<char>| if sub@.dom().contains(s) {
                r(s)
            } else {
                t
            };
            assert forall|u: int|
                0 <= u < var_refs(text@).len() && vars@.dom().contains(
                    #[trigger] var_refs(text@)[u],
                ) implies rank2(var_refs(text@)[u]) < t by {
                assert(sub@.dom().contains(var_refs(text@)[u]));
            }
            assert(refs_below(text@, vars@, rank2, t));
            assert forall|k: Seq<char>| #[trigger]
                vars@.dom().contains(k) && rank2(k) < t implies refs_below(
                vars@[k],
                vars@,
                rank2,
                rank2(k),
            ) by {
                assert(sub@.dom().contains(k));
                assert(ko.contains(k));
                let m = ko.index_of(k);
                assert(ko[m] == k);
                assert(refs_below(sub@[k], sub@, r, r(k)));
                assert forall|u: int|
                    0 <= u < var_refs(vars@[k]).len() && vars@.dom().contains(
                        #[trigger] var_refs(vars@[k])[u],
                    ) implies rank2(var_refs(vars@[k])[u]) < rank2(k) by {
                    assert(var_refs(vars@[ko[m]])[u] == var_refs(vars@[k])[u]);
                    assert(sub@.dom().contains(var_refs(vars@[k])[u]));
                }
            }
            assert(ranks_below(vars@, rank2, t));
        } else {
            if no_cycle_from(text@, vars@) {
                assert(ranks_below(vars@, rank0, top0) && refs_below(text@, vars@, rank0, top0));
                assert forall|k: Seq<char>| #[trigger] sub@.dom().contains(k) implies refs_below(
                    sub@[k],
                    sub@,
                    rank0,
                    rank0(k),
                ) by {
                    assert(ko.contains(k));
                    let m = ko.index_of(k);
                    assert(ko[m] == k);
                    assert(rank0(ko[m]) < top0);
                    assert(refs_below(vars@[k], vars@, rank0, rank0(k)));
                }
                assert(ranks(sub@, rank0));
                assert(false);
            }
        }
    }
    b
}

/// Resolves `text` when no cycle of variables is reachable from it;
/// `None` otherwise (where resolving would not end).
pub fn try_resolve(text: &str, ctx: &VariableContext) -> (r: Option<String>)
    ensures
        r is Some <==> no_cycle_from(text@, ctx@.variables),
        r matches Some(s) ==> is_resolution(text@, ctx@, s@),
{
    if refs_cycle_free(&chars_of(text), &ctx.variables) {
        let s = resolve(text, ctx);
        Some(s)
    } else {
        None
    }
}

// ---------------------------------------------------------------------------
// Laws of resolution
// ---------------------------------------------------------------------------
/// `{{e}}` on its own, for an expression text without `}`: the reference
/// is the whole text.
pub proof fn lemma_single_reference(e: Seq<char>)
    requires
        forall|i: int| 0 <= i < e.len() ==> e[i] != '}',
    ensures
        next_reference("{{"@ + e + "}}"@) == Some((Seq::<char>::empty(), trim(e), Seq::<char>::empty())),
{
    reveal_strlit("{{");
    reveal_strlit("}}");
    let text = "{{"@ + e + "}}"@;
    assert(text.subrange(0, 2) =~= "{{"@);
    assert(matches_at(text, "{{"@, 0));
    assert(find(text, "{{"@) == Some(0int));
    let ao = text.subrange(2, text.len() as int);
    assert(ao =~= e + "}}"@);
    assert forall|k: int| 0 <= k < e.len() implies !matches_at(ao, "}}"@, k) by {
        assert(ao[k] == e[k]);
        if matches_at(ao, "}}"@, k) {
            assert(ao.subrange(k, k + 2)[0] == ao[k]);
        }
    }
    crate::text::lemma_find_from_shift(ao, "}}"@, 0, e.len() as int);
    assert(ao.subrange(e.len() as int, e.len() as int + 2) =~= "}}"@);
    assert(matches_at(ao, "}}"@, e.len() as int));
    assert(find(ao, "}}"@) == Some(e.len() as int));
    assert(ao.subrange(0, e.len() as int) =~= e);
    assert(ao.subrange(e.len() as int + 2, ao.len() as int) =~= Seq::<char>::empty());
    assert(text.subrange(0, 0) =~= Seq::<char>::empty());
}

/// A text with no `{{` that a later `}}` closes (an unclosed `{{`
/// included) resolves to itself, whatever the context holds, and resolving
/// it ends.
pub proof fn lemma_plain_text_unchanged(text: Seq<char>, ctx: ContextModel, out: Seq<char>)
    requires
        next_reference(text) is None,
    ensures
        no_cycle_from(text, ctx.variables),
        is_resolution(text, ctx, out) <==> out == text,
{
    let rank = |s: Seq<char>| 0nat;
    assert(var_refs(text) =~= Seq::<Seq<char>>::empty());
    assert(ranks_below(ctx.variables, rank, 0));
    assert(refs_below(text, ctx.variables, rank, 0));
    if out == text {
        assert(resolves(text, ctx, out, 0));
    }
}

/// `{{e}}` where `e` (trimmed) names no system variable, no response and no
/// variable resolves to nothing.
pub proof fn lemma_undefined_variable_empty(e: Seq<char>, ctx: ContextModel, out: Seq<char>)
    requires
        forall|i: int| 0 <= i < e.len() ==> e[i] != '}',
        !starts_with(trim(e), "$"@),
        !contains(trim(e), ".response."@),
        !contains(trim(e), ".request."@),
        !ctx.variables.dom().contains(trim(e)),
    ensures
        is_resolution("{{"@ + e + "}}"@, ctx, out) <==> out == Seq::<char>::empty(),
{
    let text = "{{"@ + e + "}}"@;
    lemma_single_reference(e);
    let empty = Seq::<char>::empty();
    assert(next_reference(empty) is None) by {
        lemma_find(empty, "{{"@);
    }
    if is_resolution(text, ctx, out) {
        let fuel = choose|fuel: nat| resolves(text, ctx, out, fuel);
        let (x, y) = choose|x: Seq<char>, y: Seq<char>|
            #![trigger split_point(x, y)]
            split_point(x, y) && out == empty + x + y && expr_value(trim(e), ctx, x, fuel) && resolves(
                empty,
                ctx,
                y,
                fuel,
            );
        assert(out =~= empty);
    }
    if out == empty {
        assert(split_point(empty, empty));
        assert(expr_value(trim(e), ctx, empty, 0));
        assert(resolves(empty, ctx, empty, 0));
        assert(out =~= empty + empty + empty);
        assert(resolves(text, ctx, out, 0));
    }
}

/// `{{e}}` where `e` names a stored response's body or headers gives that
/// text as stored: a response cannot bring in `{{...}}` references of its
/// own.
pub proof fn lemma_response_value_verbatim(e: Seq<char>, ctx: ContextModel, v: Seq<char>, out: Seq<char>)
    requires
        forall|i: int| 0 <= i < e.len() ==> e[i] != '}',
        !starts_with(trim(e), "$"@),
        contains(trim(e), ".response."@),
        request_lookup(trim(e), ctx) == Lookup::Value(v),
    ensures
        is_resolution("{{"@ + e + "}}"@, ctx, out) <==> out == v,
{
    let text = "{{"@ + e + "}}"@;
    lemma_single_reference(e);
    let empty = Seq::<char>::empty();
    assert(next_reference(empty) is None) by {
        lemma_find(empty, "{{"@);
    }
    if is_resolution(text, ctx, out) {
        let fuel = choose|fuel: nat| resolves(text, ctx, out, fuel);
        let (x, y) = choose|x: Seq<char>, y: Seq<char>|
            #![trigger split_point(x, y)]
            split_point(x, y) && out == empty + x + y && expr_value(trim(e), ctx, x, fuel) && resolves(
                empty,
                ctx,
                y,
                fuel,
            );
        assert(out =~= v);
    }
    if out == v {
        assert(split_point(v, empty));
        assert(expr_value(trim(e), ctx, v, 0));
        assert(resolves(empty, ctx, empty, 0));
        assert(out =~= empty + v + empty);
        assert(resolves(text, ctx, out, 0));
    }
}

/// `{{name}}` gives the value of variable `name`, when that value holds no
/// reference of its own and the name is an ordinary one (no `$` in front,
/// no `.`, `}` or surrounding whitespace).
pub proof fn lemma_variable_read_back(name: Seq<char>, ctx: ContextModel, out: Seq<char>)
    requires
        name.len() > 0,
        !crate::text::is_ws(name[0]),
        !crate::text::is_ws(name.last()),
        name[0] != '$',
        forall|i: int| 0 <= i < name.len() ==> name[i] != '.' && name[i] != '}',
        ctx.variables.dom().contains(name),
        !contains(ctx.variables[name], "{{"@),
    ensures
        is_resolution("{{"@ + name + "}}"@, ctx, out) <==> out == ctx.variables[name],
{
    reveal_strlit("$");
    reveal_strlit(".response.");
    reveal_strlit(".request.");
    let text = "{{"@ + name + "}}"@;
    let value = ctx.variables[name];
    lemma_single_reference(name);
    lemma_trim_unchanged(name);
    assert(name.subrange(0, 1)[0] == name[0]);
    assert(!starts_with(name, "$"@));
    assert(!contains(name, ".response."@)) by {
        lemma_find(name, ".response."@);
        if let Some(k) = find(name, ".response."@) {
            assert(name.subrange(k, k + 10)[0] == name[k]);
        }
    }
    assert(!contains(name, ".request."@)) by {
        lemma_find(name, ".request."@);
        if let Some(k) = find(name, ".request."@) {
            assert(name.subrange(k, k + 9)[0] == name[k]);
        }
    }
    let empty = Seq::<char>::empty();
    assert(next_reference(empty) is None) by {
        lemma_find(empty, "{{"@);
    }
    assert(next_reference(value) is None);
    if is_resolution(text, ctx, out) {
        let fuel = choose|fuel: nat| resolves(text, ctx, out, fuel);
        let (x, y) = choose|x: Seq<char>, y: Seq<char>|
            #![trigger split_point(x, y)]
            split_point(x, y) && out == empty + x + y && expr_value(name, ctx, x, fuel) && resolves(
                empty,
                ctx,
                y,
                fuel,
            );
        let f2 = choose|f2: nat| #![trigger fuel_point(f2)] fuel_point(f2) && f2 < fuel && resolves(value, ctx, x, f2);
        assert(x == value);
        assert(out =~= value);
    }
    if out == value {
        assert(fuel_point(0));
        assert(resolves(value, ctx, value, 0));
        assert(expr_value(name, ctx, value, 1));
        assert(split_point(value, empty));
        assert(resolves(empty, ctx, empty, 1));
        assert(out =~= empty + value + empty);
        assert(resolves(text, ctx, out, 1));
    }
}

/// A text that starts and ends with non-whitespace is its own trim.
pub proof fn lemma_trim_unchanged(s: Seq<char>)
    requires
        s.len() > 0,
        !crate::text::is_ws(s[0]),
        !crate::text::is_ws(s.last()),
    ensures
        trim(s) == s,
{
}

/// `name.response.body`: the expression for the body of a stored response.
pub open spec fn body_reference(name: Seq<char>) -> Seq<char> {
    name + ".response.body"@
}

/// A response stored under `name` is what `{{name.response.body}}` gives
/// back, exactly as stored, for a name without `.`, `}` and surrounding
/// whitespace that is no system variable.
pub proof fn lemma_stored_body_read_back(
    name: Seq<char>,
    ctx: ContextModel,
    response: ResponseModel,
    out: Seq<char>,
)
    requires
        name.len() > 0,
        !crate::text::is_ws(name[0]),
        name[0] != '$',
        forall|i: int| 0 <= i < name.len() ==> name[i] != '.' && name[i] != '}',
    ensures
        is_resolution(
            "{{"@ + body_reference(name) + "}}"@,
            ContextModel { responses: ctx.responses.insert(name, response), ..ctx },
            out,
        ) <==> out == response.body,
{
    reveal_strlit(".response.body");
    reveal_strlit("response.body");
    reveal_strlit("response");
    reveal_strlit("body");
    reveal_strlit(".response.");
    reveal_strlit("$");
    let ctx2 = ContextModel { responses: ctx.responses.insert(name, response), ..ctx };
    let e = body_reference(name);
    let rest = "response.body"@;
    assert(e =~= name + seq!['.'] + rest);
    assert(e.last() == 'y');
    lemma_trim_unchanged(e);
    assert(e[0] == name[0]);
    assert(e.subrange(0, 1)[0] == e[0]);
    assert(!starts_with(e, "$"@));
    // Splitting at the dots: the name, `response`, `body`.
    lemma_find_first_char(name, rest, '.');
    assert(e.subrange(0, name.len() as int) =~= name);
    assert(e.subrange(name.len() as int + 1, e.len() as int) =~= rest);
    let w1 = "response"@;
    let w2 = "body"@;
    assert(rest =~= w1 + seq!['.'] + w2);
    lemma_find_first_char(w1, w2, '.');
    assert(rest.subrange(0, 8) =~= w1);
    assert(rest.subrange(9, rest.len() as int) =~= w2);
    lemma_find_no_char(w2, '.');
    assert(splitn(w2, 2, '.') == seq![w2]);
    assert(splitn(rest, 3, '.') =~= seq![w1, w2]);
    assert(splitn(e, 4, '.') =~= seq![name, w1, w2]);
    assert(request_lookup(e, ctx2) == Lookup::Value(response.body));
    // The expression names a response.
    assert(matches_at(e, ".response."@, name.len() as int)) by {
        assert(e.subrange(name.len() as int, name.len() as int + 10) =~= ".response."@);
    }
    lemma_find(e, ".response."@);
    assert(contains(e, ".response."@));
    assert forall|i: int| 0 <= i < e.len() implies e[i] != '}' by {
        if i >= name.len() {
            assert(e[i] == ".response.body"@[i - name.len()]);
        }
    }
    lemma_response_value_verbatim(e, ctx2, response.body, out);
}

/// `name.response.body.<path>`: the expression for a JSONPath into the body
/// of a stored response.
pub open spec fn json_reference(name: Seq<char>, path: Seq<char>) -> Seq<char> {
    name + ".response.body."@ + path
}

/// Where a JSONPath finds a value in the body of a response stored under
/// `name`, `{{name.response.body.<path>}}` gives that value, exactly as
/// found and never resolved again, for a name as in
/// `lemma_stored_body_read_back` and a path without `}` that does not end
/// in whitespace.
#[verifier::spinoff_prover]
#[verifier::rlimit(50)]
pub proof fn lemma_stored_json_read_back(
    name: Seq<char>,
    path: Seq<char>,
    ctx: ContextModel,
    response: ResponseModel,
    out: Seq<char>,
)
    requires
        name.len() > 0,
        !crate::text::is_ws(name[0]),
        name[0] != '$',
        forall|i: int| 0 <= i < name.len() ==> name[i] != '.' && name[i] != '}',
        path.len() > 0,
        !crate::text::is_ws(path.last()),
        forall|i: int| 0 <= i < path.len() ==> path[i] != '}',
        spec_json_path(response.body, path) is Some,
    ensures
        is_resolution(
            "{{"@ + json_reference(name, path) + "}}"@,
            ContextModel { responses: ctx.responses.insert(name, response), ..ctx },
            out,
        ) <==> out == spec_json_path(response.body, path)->0,
{
    reveal_strlit(".response.body.");
    reveal_strlit("response");
    reveal_strlit("body");
    reveal_strlit(".response.");
    reveal_strlit("$");
    let ctx2 = ContextModel { responses: ctx.responses.insert(name, response), ..ctx };
    let v = spec_json_path(response.body, path)->0;
    let e = json_reference(name, path);
    let w1 = "response"@;
    let w2 = "body"@;
    let rest2 = w2 + seq!['.'] + path;
    let rest = w1 + seq!['.'] + rest2;
    assert(e =~= name + seq!['.'] + rest);
    assert(e.last() == path.last());
    lemma_trim_unchanged(e);
    assert(e[0] == name[0]);
    assert(e.subrange(0, 1)[0] == e[0]);
    assert(!starts_with(e, "$"@));
    // Splitting at the first three dots: the name, `response`, `body`, and
    // the path.
    lemma_find_first_char(name, rest, '.');
    assert(e.subrange(0, name.len() as int) =~= name);
    assert(e.subrange(name.len() as int + 1, e.len() as int) =~= rest);
    lemma_find_first_char(w1, rest2, '.');
    assert(rest.subrange(0, 8) =~= w1);
    assert(rest.subrange(9, rest.len() as int) =~= rest2);
    lemma_find_first_char(w2, path, '.');
    assert(rest2.subrange(0, 4) =~= w2);
    assert(rest2.subrange(5, rest2.len() as int) =~= path);
    assert(splitn(path, 1, '.') == seq![path]);
    assert(splitn(rest2, 2, '.') =~= seq![w2, path]);
    assert(splitn(rest, 3, '.') =~= seq![w1, w2, path]);
    assert(splitn(e, 4, '.') =~= seq![name, w1, w2, path]);
    assert(request_lookup(e, ctx2) == Lookup::Value(v));
    // The expression names a response.
    assert(matches_at(e, ".response."@, name.len() as int)) by {
        assert(e.subrange(name.len() as int, name.len() as int + 10) =~= ".response."@);
    }
    lemma_find(e, ".response."@);
    assert(contains(e, ".response."@));
    assert forall|i: int| 0 <= i < e.len() implies e[i] != '}' by {
        if name.len() <= i < name.len() + 15 {
            assert(e[i] == ".response.body."@[i - name.len()]);
        } else if i >= name.len() + 15 {
            assert(e[i] == path[i - name.len() - 15]);
        }
    }
    lemma_response_value_verbatim(e, ctx2, v, out);
}

// ---------------------------------------------------------------------------
// Completion
// ---------------------------------------------------------------------------
/// The system variables offered for completion.
pub open spec fn system_variable_names() -> Seq<Seq<char>> {
    seq![
        "$guid"@,
        "$randomInt"@,
        "$timestamp"@,
        "$datetime"@,
        "$localDatetime"@,
        "$dotenv"@,
        "$processEnv"@,
    ]
}

/// For each response name, its `.response.body` and `.response.headers`
/// variables.
pub open spec fn response_variable_names(names: Seq<Seq<char>>) -> Seq<Seq<char>>
    decreases names.len(),
{
    if names.len() == 0 {
        Seq::empty()
    } else {
        response_variable_names(names.drop_last()).push(names.last() + ".response.body"@).push(
            names.last() + ".response.headers"@,
        )
    }
}

fn push_string(v: &mut Vec<String>, s: String)
    ensures
        strings_view(final(v)@) == strings_view(old(v)@).push(s@),
{
    v.push(s);
    assert(strings_view(v@) =~= strings_view(old(v)@).push(s@));
}

fn suffixed(name: &String, suffix: &str) -> (r: String)
    ensures
        r@ == name@ + suffix@,
{
    let mut r = name.clone();
    append_str(&mut r, suffix);
    r
}

/// Every variable name available for completion, sorted: the file and
/// environment variables, the system variables, and the body and headers
/// of each named response.
pub fn available_variables(ctx: &VariableContext) -> (r: Vec<String>)
    ensures
        sorted_seqs(strings_view(r@)),
        strings_view(r@).to_multiset() == ctx.variables.key_order().to_multiset().add(
            system_variable_names().to_multiset(),
        ).add(response_variable_names(ctx.named_responses.key_order()).to_multiset()),
{
    broadcast use vstd::seq_lib::group_to_multiset_ensures;

    let mut vars: Vec<String> = Vec::new();
    let n = ctx.variables.len();
    let mut i: usize = 0;
    while i < n
        invariant
            i <= n,
            n == ctx.variables.key_order().len(),
            strings_view(vars@) == ctx.variables.key_order().take(i as int),
        decreases n - i,
    {
        let (k, _) = ctx.variables.entry(i);
        push_string(&mut vars, k.clone());
        assert(ctx.variables.key_order().take(i + 1) =~= ctx.variables.key_order().take(
            i as int,
        ).push(k@));
        i += 1;
    }
    assert(ctx.variables.key_order().take(n as int) =~= ctx.variables.key_order());
    let ghost base = strings_view(vars@);
    push_string(&mut vars, string_of_str("$guid"));
    push_string(&mut vars, string_of_str("$randomInt"));
    push_string(&mut vars, string_of_str("$timestamp"));
    push_string(&mut vars, string_of_str("$datetime"));
    push_string(&mut vars, string_of_str("$localDatetime"));
    push_string(&mut vars, string_of_str("$dotenv"));
    push_string(&mut vars, string_of_str("$processEnv"));
    assert(strings_view(vars@) =~= base + system_variable_names());
    let ghost mid = strings_view(vars@);
    let m = ctx.named_responses.len();
    let mut j: usize = 0;
    assert(response_variable_names(ctx.named_responses.key_order().take(0)) =~= Seq::<
        Seq<char>,
    >::empty());
    assert(mid + Seq::<Seq<char>>::empty() =~= mid);
    while j < m
        invariant
            j <= m,
            m == ctx.named_responses.key_order().len(),
            strings_view(vars@) == mid + response_variable_names(
                ctx.named_responses.key_order().take(j as int),
            ),
        decreases m - j,
    {
        let (name, _) = ctx.named_responses.entry(j);
        let ghost prev = ctx.named_responses.key_order().take(j as int);
        let ghost next = ctx.named_responses.key_order().take(j + 1);
        push_string(&mut vars, suffixed(name, ".response.body"));
        push_string(&mut vars, suffixed(name, ".response.headers"));
        assert(next.drop_last() =~= prev);
        assert(strings_view(vars@) =~= mid + response_variable_names(next));
        j += 1;
    }
    assert(ctx.named_responses.key_order().take(m as int) =~= ctx.named_responses.key_order());
    let ghost all = strings_view(vars@);
    proof {
        vstd::seq_lib::lemma_multiset_commutative(base, system_variable_names());
        vstd::seq_lib::lemma_multiset_commutative(
            base + system_variable_names(),
            response_variable_names(ctx.named_responses.key_order()),
        );
    }
    sort_strings(vars)
}

} // verus!
