//! JSON through `serde_json`: parsing, navigation by a simple JSONPath
//! (`$.key.nested`, `$[0].key`), and rendering.
use vstd::prelude::*;
use crate::parser::opt_view;
use crate::text::{
    chars_of, parse_usize, parse_usize_chars, slice_chars, split_chars, split_on,
    starts_with, starts_with_chars, string_of,
};

verus! {

/// Whether `serde_json::from_str::<serde_json::Value>` accepts the text.
pub uninterp spec fn serde_json_accepts(text: Seq<char>) -> bool;

/// What `serde_json::to_string_pretty` writes for the value that
/// `serde_json::from_str::<Value>` reads from the text; `None` for text it
/// does not accept.
pub uninterp spec fn json_pretty_text(text: Seq<char>) -> Option<Seq<char>>;

/// The compact JSON text (`Value::to_string`) of the value read from the
/// text; `None` for text that is not JSON.
pub uninterp spec fn json_compact_text(text: Seq<char>) -> Option<Seq<char>>;

/// The contents of the JSON string that the text holds (`Value::as_str`);
/// `None` for anything else.
pub uninterp spec fn json_string_contents(text: Seq<char>) -> Option<Seq<char>>;

/// The compact JSON text of the element at an index of the array that the
/// text holds (`Value::get` with an index); `None` for anything else.
pub uninterp spec fn json_index_text(text: Seq<char>, i: usize) -> Option<Seq<char>>;

/// The compact JSON text of the member under a key of the object that the
/// text holds (`Value::get` with a key); `None` for anything else.
pub uninterp spec fn json_key_text(text: Seq<char>, key: Seq<char>) -> Option<Seq<char>>;

/// `serde_json::to_string_pretty` of the value `serde_json::from_str` reads
/// from the text. The result is named by `json_pretty_text`; it is `Some`
/// exactly for accepted text, since serializing a `Value` into memory
/// cannot fail (its `Serialize` never fails and its object keys are
/// strings).
#[verifier::external_body]
pub(crate) fn json_pretty(text: &str) -> (r: Option<String>)
    ensures
        opt_view(r) == json_pretty_text(text@),
        r is Some <==> serde_json_accepts(text@),
{
    match serde_json::from_str::<serde_json::Value>(text) {
        Ok(v) => serde_json::to_string_pretty(&v).ok(),
        Err(_) => None,
    }
}

/// `Value::to_string` (compact JSON text) of the value read from the text.
/// The result is named by `json_compact_text`; `Some` exactly for accepted
/// text, and that text is accepted in turn.
#[verifier::external_body]
pub(crate) fn json_compact(text: &str) -> (r: Option<String>)
    ensures
        opt_view(r) == json_compact_text(text@),
        r is Some <==> serde_json_accepts(text@),
{
    match serde_json::from_str::<serde_json::Value>(text) {
        Ok(v) => Some(v.to_string()),
        Err(_) => None,
    }
}

/// `Value::as_str` of the value read from the text: the contents of a JSON
/// string. The result is named by `json_string_contents`.
#[verifier::external_body]
pub(crate) fn json_as_str(text: &str) -> (r: Option<String>)
    ensures
        opt_view(r) == json_string_contents(text@),
        r is Some ==> serde_json_accepts(text@),
{
    match serde_json::from_str::<serde_json::Value>(text) {
        Ok(v) => v.as_str().map(|s| s.to_string()),
        Err(_) => None,
    }
}

/// `Value::get` with an index on the value read from the text, as compact
/// JSON text (`Value::to_string`). The result is named by
/// `json_index_text`.
#[verifier::external_body]
pub(crate) fn json_get_index(text: &str, i: usize) -> (r: Option<String>)
    ensures
        opt_view(r) == json_index_text(text@, i),
        r is Some ==> serde_json_accepts(text@),
{
    match serde_json::from_str::<serde_json::Value>(text) {
        Ok(v) => v.get(i).map(|c| c.to_string()),
        Err(_) => None,
    }
}

/// `Value::get` with a key on the value read from the text, as compact JSON
/// text (`Value::to_string`), which serde_json reads back. The result is
/// named by `json_key_text`.
#[verifier::external_body]
pub(crate) fn json_get_key(text: &str, key: &str) -> (r: Option<String>)
    ensures
        opt_view(r) == json_key_text(text@, key@),
        r is Some ==> serde_json_accepts(text@),
{
    match serde_json::from_str::<serde_json::Value>(text) {
        Ok(v) => v.get(key).map(|c| c.to_string()),
        Err(_) => None,
    }
}

/// One step of a path: an array index (`[0]`) or an object key.
pub enum PathStep {
    Index(usize),
    Key(Vec<char>),
}

pub ghost enum StepModel {
    Index(usize),
    Key(Seq<char>),
}

impl View for PathStep {
    type V = StepModel;

    open spec fn view(&self) -> StepModel {
        match self {
            PathStep::Index(i) => StepModel::Index(*i),
            PathStep::Key(k) => StepModel::Key(k@),
        }
    }
}

/// The path without a leading `$`.
pub open spec fn strip_dollar(path: Seq<char>) -> Seq<char> {
    if path.len() > 0 && path[0] == '$' {
        path.drop_first()
    } else {
        path
    }
}

/// The step a `.`-separated segment stands for; `None` for an empty one.
pub open spec fn segment_step(seg: Seq<char>) -> Option<StepModel> {
    if seg.len() == 0 {
        None
    } else if seg.len() >= 2 && seg[0] == '[' && seg.last() == ']' && parse_usize(
        seg.subrange(1, seg.len() - 1),
    ) is Some {
        Some(StepModel::Index(parse_usize(seg.subrange(1, seg.len() - 1))->0))
    } else {
        Some(StepModel::Key(seg))
    }
}

pub open spec fn steps_of(segs: Seq<Seq<char>>) -> Seq<StepModel>
    decreases segs.len(),
{
    if segs.len() == 0 {
        seq![]
    } else {
        let rest = steps_of(segs.drop_last());
        match segment_step(segs.last()) {
            Some(s) => rest.push(s),
            None => rest,
        }
    }
}

/// The steps of a path: its `.`-separated segments after a leading `$`,
/// empty segments skipped.
pub open spec fn path_steps(path: Seq<char>) -> Seq<StepModel> {
    steps_of(split_on(strip_dollar(path), '.'))
}

pub open spec fn steps_view(v: Seq<PathStep>) -> Seq<StepModel> {
    v.map_values(|s: PathStep| s@)
}

/// The steps of a path, one per nonempty `.`-separated segment after a
/// leading `$`: `[n]` an array index, anything else an object key.
pub fn json_path_steps(path: &Vec<char>) -> (r: Vec<PathStep>)
    ensures
        steps_view(r@) == path_steps(path@),
{
    let p = if path.len() > 0 && path[0] == '$' {
        slice_chars(path, 1, path.len())
    } else {
        slice_chars(path, 0, path.len())
    };
    assert(p@ =~= strip_dollar(path@));
    let segs = split_chars(&p, '.');
    let ghost sv = segs.deep_view();
    let mut r: Vec<PathStep> = Vec::new();
    let mut k: usize = 0;
    assert(sv.take(0) =~= Seq::<Seq<char>>::empty());
    assert(steps_view(r@) =~= Seq::<StepModel>::empty());
    while k < segs.len()
        invariant
            k <= segs.len(),
            sv == segs.deep_view(),
            sv == split_on(strip_dollar(path@), '.'),
            steps_view(r@) == steps_of(sv.take(k as int)),
        decreases segs.len() - k,
    {
        let seg = &segs[k];
        assert(seg.deep_view() =~= seg@);
        assert(sv.take(k + 1).drop_last() =~= sv.take(k as int));
        assert(sv.take(k + 1).last() == seg@);
        let n = seg.len();
        if n > 0 {
            let ghost before = steps_view(r@);
            let whole = slice_chars(seg, 0, n);
            assert(whole@ =~= seg@);
            let mut step = PathStep::Key(whole);
            if n >= 2 && seg[0] == '[' && seg[n - 1] == ']' {
                let inner = slice_chars(seg, 1, n - 1);
                match parse_usize_chars(&inner) {
                    Some(i) => {
                        step = PathStep::Index(i);
                    },
                    None => {},
                }
            }
            r.push(step);
            assert(steps_view(r@) =~= before.push(step@));
        }
        k += 1;
    }
    assert(sv.take(segs.len() as int) =~= sv);
    r
}

/// The JSON text at the end of the steps, from a JSON text.
pub open spec fn json_walk(text: Seq<char>, steps: Seq<StepModel>) -> Option<Seq<char>>
    decreases steps.len(),
{
    if steps.len() == 0 {
        Some(text)
    } else {
        match json_walk(text, steps.drop_last()) {
            None => None,
            Some(t) => match steps.last() {
                StepModel::Index(i) => json_index_text(t, i),
                StepModel::Key(k) => json_key_text(t, k),
            },
        }
    }
}

/// The value at a path: a JSON string gives its contents, anything else
/// its compact JSON text.
pub open spec fn spec_json_path(body: Seq<char>, path: Seq<char>) -> Option<Seq<char>> {
    match json_walk(body, path_steps(path)) {
        None => None,
        Some(t) => match json_string_contents(t) {
            Some(s) => Some(s),
            None => json_compact_text(t),
        },
    }
}

/// The value at a simple JSONPath in a JSON text: a JSON string gives its
/// contents, anything else its compact JSON text. `None` when the text is
/// not JSON or a step finds nothing.
pub fn extract_json_path(body: &str, path: &Vec<char>) -> (r: Option<Vec<char>>)
    ensures
        match r {
            Some(v) => spec_json_path(body@, path@) == Some(v@),
            None => spec_json_path(body@, path@) is None,
        },
        r is Some ==> serde_json_accepts(body@),
        serde_json_accepts(body@) && path_steps(path@).len() == 0 ==> r is Some,
{
    let steps = json_path_steps(path);
    let ghost sv = steps_view(steps@);
    let mut current: String = string_of(&chars_of(body));
    let mut k: usize = 0;
    assert(sv.take(0) =~= Seq::<StepModel>::empty());
    while k < steps.len()
        invariant
            k <= steps.len(),
            sv == steps_view(steps@),
            sv == path_steps(path@),
            k > 0 ==> serde_json_accepts(body@),
            k == 0 ==> current@ == body@,
            json_walk(body@, sv.take(k as int)) == Some(current@),
        decreases steps.len() - k,
    {
        assert(sv.take(k + 1).drop_last() =~= sv.take(k as int));
        assert(sv.take(k + 1).last() == steps@[k as int]@);
        let next = match &steps[k] {
            PathStep::Index(i) => json_get_index(current.as_str(), *i),
            PathStep::Key(key) => {
                let ks = string_of(key);
                json_get_key(current.as_str(), ks.as_str())
            },
        };
        match next {
            Some(n) => {
                current = n;
            },
            None => {
                proof {
                    lemma_walk_none_stays(body@, sv, k as int + 1);
                    assert(sv.take(sv.len() as int) =~= sv);
                }
                return None;
            },
        }
        k += 1;
    }
    assert(sv.take(steps.len() as int) =~= sv);
    match json_as_str(current.as_str()) {
        Some(s) => Some(chars_of(s.as_str())),
        None => {
            let t = json_compact(current.as_str());
            match t {
                Some(t) => Some(chars_of(t.as_str())),
                None => None,
            }
        },
    }
}

/// Once a step finds nothing, so do all longer walks.
proof fn lemma_walk_none_stays(text: Seq<char>, steps: Seq<StepModel>, k: int)
    requires
        0 <= k <= steps.len(),
        json_walk(text, steps.take(k)) is None,
    ensures
        json_walk(text, steps) is None,
    decreases steps.len() - k,
{
    if k < steps.len() {
        assert(steps.take(k + 1).drop_last() =~= steps.take(k));
        lemma_walk_none_stays(text, steps, k + 1);
    } else {
        assert(steps.take(k) =~= steps);
    }
}

} // verus!
