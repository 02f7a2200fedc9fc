//! The editor-facing decisions of the language server: the state it keeps,
//! code lenses, diagnostics, completions, and what sending the request
//! under the cursor takes.
use vstd::prelude::*;
use vstd::multiset::Multiset;
use vstd::utf8::{decode_utf8, encode_utf8};
use crate::environments::{spec_resolved_variables, RestClientSettings};
use crate::executor::Response;
use crate::parser::{
    copy_pairs, find_request_at_line, pairs_view, parse, requests_view, spec_parse,
    spec_request_at_line, ParsedRequest, RequestModel,
};
use crate::strmap::StrMap;
use crate::text::{
    append_vec, chars_of, contains, contains_chars, decimal, decimal_chars, lines, lines_of,
    rfind, rfind_chars, slice_chars, sorted_seqs, starts_with, starts_with_chars, string_of,
    strings_view, trim, trim_chars, utf8_len,
};
use crate::variables::{
    available_variables, response_variable_names, system_variable_names, ContextModel,
    NamedResponse, VariableContext,
};

verus! {

/// The command a code lens runs.
pub const SEND_REQUEST_COMMAND: &'static str = "rest-client.sendRequest";

/// What the server keeps: the open documents by URI, the variables and
/// named responses, the settings, and the sources of the variables: the
/// active environment's, the documents' file variables, and those file
/// variables set since the environment was last applied.
pub struct State {
    pub documents: StrMap<String>,
    pub variable_ctx: VariableContext,
    pub settings: RestClientSettings,
    /// The variables of the active environment, `$shared` included.
    pub environment_variables: StrMap<String>,
    /// The file variables of the documents opened or changed so far.
    pub file_variables: StrMap<String>,
    /// The file variables set since the environment was last applied.
    pub recent_file_variables: StrMap<String>,
}

/// The variables in effect: where a file variable and the environment
/// both set a name, whichever was set last wins; the file variables set
/// since the environment was applied (`recent`) win over it, the others
/// give way to it.
pub open spec fn combined_variables(
    env: Map<Seq<char>, Seq<char>>,
    file: Map<Seq<char>, Seq<char>>,
    recent: Map<Seq<char>, Seq<char>>,
) -> Map<Seq<char>, Seq<char>> {
    file.union_prefer_right(env).union_prefer_right(recent)
}

/// A document's file variables win over every variable set before them:
/// adding them to both the file variables and the recent ones puts them
/// over the variables in effect.
pub proof fn lemma_file_variables_win(
    env: Map<Seq<char>, Seq<char>>,
    file: Map<Seq<char>, Seq<char>>,
    recent: Map<Seq<char>, Seq<char>>,
    doc: Map<Seq<char>, Seq<char>>,
)
    ensures
        combined_variables(env, file.union_prefer_right(doc), recent.union_prefer_right(doc))
            == combined_variables(env, file, recent).union_prefer_right(doc),
{
    assert(combined_variables(env, file.union_prefer_right(doc), recent.union_prefer_right(doc))
        =~= combined_variables(env, file, recent).union_prefer_right(doc));
}

/// Once an environment is applied, the variables in effect are its own
/// over the file variables: a name is set exactly where the environment or
/// a file sets it, to the environment's value where it has one, else to the
/// file's. Nothing of an environment applied before stays.
pub proof fn lemma_environment_replaces(
    env: Map<Seq<char>, Seq<char>>,
    file: Map<Seq<char>, Seq<char>>,
    k: Seq<char>,
)
    ensures
        combined_variables(env, file, Map::empty()).dom().contains(k) <==> (env.dom().contains(k)
            || file.dom().contains(k)),
        env.dom().contains(k) ==> combined_variables(env, file, Map::empty())[k] == env[k],
        !env.dom().contains(k) && file.dom().contains(k) ==> combined_variables(
            env,
            file,
            Map::empty(),
        )[k] == file[k],
{
}

impl State {
    /// No documents, no variables, default settings.
    pub fn new() -> (s: Self)
        ensures
            s.documents@ == Map::<Seq<char>, Seq<char>>::empty(),
            s.variable_ctx@.variables == Map::<Seq<char>, Seq<char>>::empty(),
            s.variable_ctx@.responses == Map::<Seq<char>, crate::variables::ResponseModel>::empty(),
            s.settings.active_environment is None,
            s.settings.environments@ == Map::<Seq<char>, Map<Seq<char>, Seq<char>>>::empty(),
            s.settings.allowed_process_env_vars@.len() == 0,
            s.variable_ctx@.env == Map::<Seq<char>, Seq<char>>::empty(),
            s.variable_ctx@.dotenv is None,
            s.environment_variables@ == Map::<Seq<char>, Seq<char>>::empty(),
            s.file_variables@ == Map::<Seq<char>, Seq<char>>::empty(),
            s.recent_file_variables@ == Map::<Seq<char>, Seq<char>>::empty(),
    {
        State {
            documents: StrMap::new(),
            variable_ctx: VariableContext::new(StrMap::new()),
            settings: RestClientSettings::default(),
            environment_variables: StrMap::new(),
            file_variables: StrMap::new(),
            recent_file_variables: StrMap::new(),
        }
    }

    /// Sets the variables in effect from their sources.
    fn rebuild_variables(&mut self)
        ensures
            final(self).variable_ctx@ == (ContextModel {
                variables: combined_variables(
                    old(self).environment_variables@,
                    old(self).file_variables@,
                    old(self).recent_file_variables@,
                ),
                ..old(self).variable_ctx@
            }),
            final(self).documents@ == old(self).documents@,
            final(self).settings == old(self).settings,
            final(self).environment_variables@ == old(self).environment_variables@,
            final(self).file_variables@ == old(self).file_variables@,
            final(self).recent_file_variables@ == old(self).recent_file_variables@,
    {
        let mut vars = self.file_variables.copy();
        vars.extend_from(&self.environment_variables);
        vars.extend_from(&self.recent_file_variables);
        self.variable_ctx.variables = vars;
    }

    /// Puts the variables of the settings' active environment (with
    /// `$shared`) in effect, in place of those of the environment before and
    /// over the file variables set so far.
    pub fn apply_environment_variables(&mut self)
        ensures
            final(self).settings == old(self).settings,
            final(self).documents@ == old(self).documents@,
            final(self).file_variables@ == old(self).file_variables@,
            final(self).recent_file_variables@ == Map::<Seq<char>, Seq<char>>::empty(),
            final(self).environment_variables@ == spec_resolved_variables(
                old(self).settings.environments@,
                old(self).settings.active_view(),
            ),
            final(self).variable_ctx@ == (ContextModel {
                variables: old(self).file_variables@.union_prefer_right(
                    spec_resolved_variables(old(self).settings.environments@, old(self).settings.active_view()),
                ),
                ..old(self).variable_ctx@
            }),
    {
        self.environment_variables = self.settings.resolved_variables();
        self.recent_file_variables = StrMap::new();
        self.rebuild_variables();
        assert(combined_variables(
            self.environment_variables@,
            self.file_variables@,
            Map::<Seq<char>, Seq<char>>::empty(),
        ) =~= self.file_variables@.union_prefer_right(self.environment_variables@));
    }

    /// Puts the file variables of `text` in effect, over those already set.
    pub fn sync_file_variables(&mut self, text: &str)
        requires
            text@.len() <= isize::MAX,
        ensures
            final(self).settings == old(self).settings,
            final(self).documents@ == old(self).documents@,
            final(self).environment_variables@ == old(self).environment_variables@,
            final(self).file_variables@ == old(self).file_variables@.union_prefer_right(spec_parse(text@).0),
            final(self).recent_file_variables@ == old(self).recent_file_variables@.union_prefer_right(
                spec_parse(text@).0,
            ),
            final(self).variable_ctx@ == (ContextModel {
                variables: combined_variables(
                    old(self).environment_variables@,
                    old(self).file_variables@.union_prefer_right(spec_parse(text@).0),
                    old(self).recent_file_variables@.union_prefer_right(spec_parse(text@).0),
                ),
                ..old(self).variable_ctx@
            }),
    {
        let file = parse(text);
        self.file_variables.extend_from(&file.variables);
        self.recent_file_variables.extend_from(&file.variables);
        self.rebuild_variables();
    }

    /// Records the text of an opened or changed document and its file
    /// variables.
    pub fn open_document(&mut self, uri: &str, text: &str)
        requires
            text@.len() <= isize::MAX,
        ensures
            final(self).settings == old(self).settings,
            final(self).documents@ == old(self).documents@.insert(uri@, text@),
            final(self).environment_variables@ == old(self).environment_variables@,
            final(self).file_variables@ == old(self).file_variables@.union_prefer_right(spec_parse(text@).0),
            final(self).recent_file_variables@ == old(self).recent_file_variables@.union_prefer_right(
                spec_parse(text@).0,
            ),
            final(self).variable_ctx@ == (ContextModel {
                variables: combined_variables(
                    old(self).environment_variables@,
                    old(self).file_variables@.union_prefer_right(spec_parse(text@).0),
                    old(self).recent_file_variables@.union_prefer_right(spec_parse(text@).0),
                ),
                ..old(self).variable_ctx@
            }),
    {
        self.documents.insert(string_of(&chars_of(uri)), string_of(&chars_of(text)));
        self.sync_file_variables(text);
    }

    /// Forgets a closed document.
    pub fn close_document(&mut self, uri: &str)
        ensures
            final(self).settings == old(self).settings,
            final(self).documents@ == old(self).documents@.remove(uri@),
            final(self).variable_ctx@ == old(self).variable_ctx@,
            final(self).environment_variables@ == old(self).environment_variables@,
            final(self).file_variables@ == old(self).file_variables@,
            final(self).recent_file_variables@ == old(self).recent_file_variables@,
    {
        self.documents.remove(uri);
    }

    /// Makes `name` the active environment and puts its variables (with
    /// `$shared`) in effect, in place of those of the environment before and
    /// over the file variables, which fill the names it leaves unset.
    pub fn switch_environment(&mut self, name: &str)
        ensures
            final(self).settings.active_view() == Some(name@),
            final(self).settings.environments@ == old(self).settings.environments@,
            final(self).settings.allowed_process_env_vars@ == old(self).settings.allowed_process_env_vars@,
            final(self).documents@ == old(self).documents@,
            final(self).file_variables@ == old(self).file_variables@,
            final(self).recent_file_variables@ == Map::<Seq<char>, Seq<char>>::empty(),
            final(self).environment_variables@ == spec_resolved_variables(
                old(self).settings.environments@,
                Some(name@),
            ),
            final(self).variable_ctx@ == (ContextModel {
                variables: old(self).file_variables@.union_prefer_right(
                    spec_resolved_variables(old(self).settings.environments@, Some(name@)),
                ),
                ..old(self).variable_ctx@
            }),
    {
        self.settings.active_environment = Some(string_of(&chars_of(name)));
        self.apply_environment_variables();
    }
}

// ---------------------------------------------------------------------------
// Code lenses and diagnostics
// ---------------------------------------------------------------------------
/// A "Send Request" lens on a request line.
pub struct CodeLensInfo {
    pub line: usize,
    pub title: String,
    pub command: String,
    pub uri: String,
}

pub open spec fn lens_title(r: RequestModel) -> Seq<char> {
    "Send Request - "@ + r.method + " "@ + r.url
}

/// One lens per request of the document, on its request line.
pub fn code_lenses(uri: &str, text: &str) -> (r: Vec<CodeLensInfo>)
    requires
        text@.len() <= isize::MAX,
    ensures
        r@.len() == spec_parse(text@).1.len(),
        forall|i: int|
            0 <= i < r@.len() ==> {
                let req = #[trigger] spec_parse(text@).1[i];
                &&& r@[i].line == req.line
                &&& r@[i].title@ == lens_title(req)
                &&& r@[i].command@ == SEND_REQUEST_COMMAND@
                &&& r@[i].uri@ == uri@
            },
{
    let file = parse(text);
    let ghost reqs = spec_parse(text@).1;
    let mut r: Vec<CodeLensInfo> = Vec::new();
    let mut i: usize = 0;
    while i < file.requests.len()
        invariant
            reqs == requests_view(file.requests@),
            i <= file.requests.len(),
            r@.len() == i,
            forall|j: int|
                0 <= j < i ==> {
                    let req = #[trigger] reqs[j];
                    &&& r@[j].line == req.line
                    &&& r@[j].title@ == lens_title(req)
                    &&& r@[j].command@ == SEND_REQUEST_COMMAND@
                    &&& r@[j].uri@ == uri@
                },
        decreases file.requests.len() - i,
    {
        let req = &file.requests[i];
        let mut title = chars_of("Send Request - ");
        append_vec(&mut title, &chars_of(req.method.as_str()));
        append_vec(&mut title, &chars_of(" "));
        append_vec(&mut title, &chars_of(req.url.as_str()));
        assert(reqs[i as int] == req@);
        r.push(
            CodeLensInfo {
                line: req.line,
                title: string_of(&title),
                command: string_of(&chars_of(SEND_REQUEST_COMMAND)),
                uri: string_of(&chars_of(uri)),
            },
        );
        i += 1;
    }
    r
}

/// An error on a request line.
pub struct DiagnosticInfo {
    pub line: usize,
    /// Where the marked range ends: the line's length in bytes.
    pub end_character: u32,
    pub message: String,
}

/// The length in bytes of line `n` of the text, as the editor's column
/// type holds it; zero past the last line.
pub open spec fn line_end(ls: Seq<Seq<char>>, n: int) -> u32 {
    if 0 <= n < ls.len() {
        ((encode_utf8(ls[n]).len() as usize) as u32)
    } else {
        0
    }
}

/// One entry per request with an empty URL: its line and the end of that
/// line.
pub open spec fn empty_url_lines(reqs: Seq<RequestModel>, ls: Seq<Seq<char>>) -> Seq<(nat, u32)>
    decreases reqs.len(),
{
    if reqs.len() == 0 {
        seq![]
    } else {
        let rest = empty_url_lines(reqs.drop_last(), ls);
        if reqs.last().url.len() == 0 {
            rest.push((reqs.last().line, line_end(ls, reqs.last().line as int)))
        } else {
            rest
        }
    }
}

pub open spec fn diagnostics_view(ds: Seq<DiagnosticInfo>) -> Seq<(nat, u32)> {
    ds.map_values(|d: DiagnosticInfo| (d.line as nat, d.end_character))
}

/// "Request URL is empty" on each request line without a URL.
pub fn diagnostics(text: &str) -> (r: Vec<DiagnosticInfo>)
    requires
        text@.len() <= isize::MAX,
    ensures
        diagnostics_view(r@) == empty_url_lines(spec_parse(text@).1, lines(text@)),
        forall|i: int| 0 <= i < r@.len() ==> (#[trigger] r@[i]).message@ == "Request URL is empty"@,
{
    let ls = lines_of(&chars_of(text));
    let file = parse(text);
    let ghost reqs = spec_parse(text@).1;
    let mut r: Vec<DiagnosticInfo> = Vec::new();
    let mut i: usize = 0;
    assert(reqs.take(0) =~= Seq::<RequestModel>::empty());
    assert(diagnostics_view(r@) =~= Seq::<(nat, u32)>::empty());
    while i < file.requests.len()
        invariant
            reqs == requests_view(file.requests@),
            ls.deep_view() == lines(text@),
            i <= file.requests.len(),
            diagnostics_view(r@) == empty_url_lines(reqs.take(i as int), ls.deep_view()),
            forall|j: int| 0 <= j < r@.len() ==> (#[trigger] r@[j]).message@ == "Request URL is empty"@,
        decreases file.requests.len() - i,
    {
        let req = &file.requests[i];
        assert(reqs[i as int] == req@);
        assert(reqs.take(i + 1).drop_last() =~= reqs.take(i as int));
        if chars_of(req.url.as_str()).len() == 0 {
            let end: u32 = if req.line < ls.len() {
                let l = string_of(&ls[req.line]);
                assert(ls.deep_view()[req.line as int] =~= ls@[req.line as int]@);
                let n = l.as_str().len();
                n as u32
            } else {
                0
            };
            let ghost before = diagnostics_view(r@);
            r.push(
                DiagnosticInfo {
                    line: req.line,
                    end_character: end,
                    message: string_of(&chars_of("Request URL is empty")),
                },
            );
            assert(diagnostics_view(r@) =~= before.push((req.line as nat, end)));
        }
        i += 1;
    }
    assert(reqs.take(file.requests.len() as int) =~= reqs);
    r
}

// ---------------------------------------------------------------------------
// Completions
// ---------------------------------------------------------------------------
/// A cursor position: zero-based line, and column in bytes.
pub struct Position {
    pub line: u32,
    pub character: u32,
}

/// A variable name offered for completion; system variables (`$...`) are
/// offered as functions.
pub struct CompletionInfo {
    pub label: String,
    pub is_function: bool,
}

/// The text of a line before the cursor: its first `col` bytes, all of it
/// when the cursor is past its end.
pub open spec fn text_before_cursor(line: Seq<char>, col: nat) -> Seq<char> {
    if col <= encode_utf8(line).len() {
        decode_utf8(encode_utf8(line).take(col as int))
    } else {
        line
    }
}

/// Inside an unclosed `{{`: the text typed since it, trimmed.
pub open spec fn completion_prefix(before: Seq<char>) -> Option<Seq<char>> {
    match rfind(before, "{{"@) {
        Some(o) => {
            let after = before.skip(o + 2);
            if contains(after, "}}"@) {
                None
            } else {
                Some(trim(after))
            }
        },
        None => None,
    }
}

/// The names that start with the prefix (all of them for an empty one), in
/// order.
pub open spec fn offered_names(names: Seq<Seq<char>>, prefix: Seq<char>) -> Seq<Seq<char>>
    decreases names.len(),
{
    if names.len() == 0 {
        seq![]
    } else {
        let rest = offered_names(names.drop_last(), prefix);
        if prefix.len() == 0 || starts_with(names.last(), prefix) {
            rest.push(names.last())
        } else {
            rest
        }
    }
}

/// Every name available for completion, as a multiset.
pub open spec fn available_names(ctx: &VariableContext) -> Multiset<Seq<char>> {
    ctx.variables.key_order().to_multiset().add(system_variable_names().to_multiset()).add(
        response_variable_names(ctx.named_responses.key_order()).to_multiset(),
    )
}

/// `items` offers, in sorted order, the available names that start with
/// `prefix`.
pub open spec fn is_completion_list(ctx: &VariableContext, prefix: Seq<char>, items: Seq<CompletionInfo>) -> bool {
    &&& exists|names: Seq<Seq<char>>|
        sorted_seqs(names) && names.to_multiset() == available_names(ctx) && #[trigger] offered_names(
            names,
            prefix,
        ) == items.map_values(|c: CompletionInfo| c.label@)
    &&& forall|i: int|
        0 <= i < items.len() ==> (#[trigger] items[i]).is_function == (items[i].label@.len() > 0
            && items[i].label@[0] == '$')
}

/// The completions at a position: inside an unclosed `{{` on the cursor's
/// line, the variable names that start with what has been typed since.
pub fn completions_at(text: &str, position: Position, ctx: &VariableContext) -> (r: Vec<CompletionInfo>)
    requires
        ({
            let ls = lines(text@);
            (position.line as int) < ls.len() && (position.character as int) <= encode_utf8(
                ls[position.line as int],
            ).len() ==> vstd::utf8::is_char_boundary(
                encode_utf8(ls[position.line as int]),
                position.character as int,
            )
        }),
    ensures
        ({
            let ls = lines(text@);
            if (position.line as int) < ls.len() {
                match completion_prefix(
                    text_before_cursor(ls[position.line as int], position.character as nat),
                ) {
                    Some(p) => is_completion_list(ctx, p, r@),
                    None => r@.len() == 0,
                }
            } else {
                r@.len() == 0
            }
        }),
{
    let ls = lines_of(&chars_of(text));
    let li = position.line as usize;
    if li >= ls.len() {
        return Vec::new();
    }
    assert(ls.deep_view()[li as int] =~= ls@[li as int]@);
    let line_s = string_of(&ls[li]);
    let col = position.character as usize;
    assert(ls.deep_view() == lines(text@));
    assert(line_s@ == lines(text@)[li as int]);
    let before: Vec<char> = if (col as u128) <= utf8_len(&ls[li]) {
        let (head, _) = line_s.as_str().split_at(col);
        proof {
            vstd::utf8::encode_utf8_decode_utf8(head@);
            assert(encode_utf8(head@) =~= encode_utf8(line_s@).take(col as int));
        }
        chars_of(head)
    } else {
        chars_of(line_s.as_str())
    };
    assert(before@ == text_before_cursor(ls@[li as int]@, col as nat));
    proof {
        reveal_strlit("{{");
        reveal_strlit("}}");
        crate::text::lemma_rfind_below(before@, "{{"@, before@.len() - 2);
    }
    let open = match rfind_chars(&before, &chars_of("{{")) {
        Some(o) => o,
        None => {
            return Vec::new();
        },
    };
    assert(open + 2 <= before.len());
    let after = slice_chars(&before, open + 2, before.len());
    assert(after@ =~= before@.skip(open + 2));
    if contains_chars(&after, &chars_of("}}")) {
        return Vec::new();
    }
    let prefix = trim_chars(&after);
    let names = available_variables(ctx);
    let ghost nv = strings_view(names@);
    let mut r: Vec<CompletionInfo> = Vec::new();
    let mut k: usize = 0;
    assert(nv.take(0) =~= Seq::<Seq<char>>::empty());
    assert(r@.map_values(|c: CompletionInfo| c.label@) =~= offered_names(nv.take(0), prefix@));
    while k < names.len()
        invariant
            nv == strings_view(names@),
            k <= names.len(),
            r@.map_values(|c: CompletionInfo| c.label@) == offered_names(nv.take(k as int), prefix@),
            forall|i: int|
                0 <= i < r@.len() ==> (#[trigger] r@[i]).is_function == (r@[i].label@.len() > 0
                    && r@[i].label@[0] == '$'),
        decreases names.len() - k,
    {
        let name = chars_of(names[k].as_str());
        assert(nv.take(k + 1).drop_last() =~= nv.take(k as int));
        assert(nv.take(k + 1).last() == name@);
        if prefix.len() == 0 || starts_with_chars(&name, &prefix) {
            let is_function = name.len() > 0 && name[0] == '$';
            let ghost before_labels = r@.map_values(|c: CompletionInfo| c.label@);
            r.push(CompletionInfo { label: names[k].clone(), is_function });
            assert(r@.map_values(|c: CompletionInfo| c.label@) =~= before_labels.push(name@));
        }
        k += 1;
    }
    assert(nv.take(names.len() as int) =~= nv);
    r
}

// ---------------------------------------------------------------------------
// Sending a request
// ---------------------------------------------------------------------------
/// What sending the request at a line takes: the request, and the
/// variables and responses to resolve it against.
pub struct Execution {
    pub ctx: VariableContext,
    pub request: ParsedRequest,
}

pub open spec fn no_request_message(line: nat) -> Seq<char> {
    "no request found at line "@ + decimal(line)
}

/// Prepares sending the request of a document at a line: the document's
/// file variables over the state's variables, the stored responses, and
/// the last request starting at or before the line.
pub fn prepare_execution(state: &State, uri: &str, line: usize) -> (r: Result<Execution, String>)
    requires
        forall|k: Seq<char>| #[trigger] state.documents@.dom().contains(k) ==> state.documents@[k].len() <= isize::MAX,
    ensures
        !state.documents@.dom().contains(uri@) ==> (r matches Err(e) && e@ == "document not found"@),
        state.documents@.dom().contains(uri@) ==> ({
            let text = state.documents@[uri@];
            let reqs = spec_parse(text).1;
            match spec_request_at_line(reqs, line as nat) {
                None => r matches Err(e) && e@ == no_request_message(line as nat),
                Some(i) => r matches Ok(x) && x.request@ == reqs[i] && x.ctx@ == (ContextModel {
                    variables: state.variable_ctx@.variables.union_prefer_right(spec_parse(text).0),
                    ..state.variable_ctx@
                }),
            }
        }),
{
    let text = match state.documents.get(uri) {
        Some(t) => t,
        None => {
            return Err(string_of(&chars_of("document not found")));
        },
    };
    let file = parse(text.as_str());
    let mut variables = state.variable_ctx.variables.copy();
    variables.extend_from(&file.variables);
    let ctx = VariableContext {
        variables,
        named_responses: state.variable_ctx.named_responses.copy(),
        process_env: state.variable_ctx.process_env.copy(),
        dotenv: crate::parser::copy_opt(&state.variable_ctx.dotenv),
    };
    match find_request_at_line(&file, line) {
        Some(req) => Ok(Execution { ctx, request: req.copy() }),
        None => {
            let mut msg = chars_of("no request found at line ");
            let d = decimal_chars(line as u128);
            append_vec(&mut msg, &d);
            Err(string_of(&msg))
        },
    }
}

/// Stores the response of a named request for later `{{name.response...}}`
/// references.
pub fn record_response(state: &mut State, request: &ParsedRequest, response: &Response)
    ensures
        final(state).documents@ == old(state).documents@,
        final(state).settings == old(state).settings,
        final(state).environment_variables@ == old(state).environment_variables@,
        final(state).file_variables@ == old(state).file_variables@,
        final(state).recent_file_variables@ == old(state).recent_file_variables@,
        request.name matches Some(n) ==> final(state).variable_ctx@ == (ContextModel {
            responses: old(state).variable_ctx@.responses.insert(
                n@,
                crate::variables::ResponseModel {
                    headers: pairs_view(response.headers@),
                    body: response.body@,
                },
            ),
            ..old(state).variable_ctx@
        }),
        request.name is None ==> final(state).variable_ctx@ == old(state).variable_ctx@,
{
    match &request.name {
        Some(name) => {
            state.variable_ctx.store_response(
                name.as_str(),
                NamedResponse { headers: copy_pairs(&response.headers), body: response.body.clone() },
            );
        },
        None => {},
    }
}

} // verus!
