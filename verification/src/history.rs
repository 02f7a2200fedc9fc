//! The history of sent requests: the latest fifty, newest last.
use vstd::prelude::*;
use crate::text::{append_str, append_vec, chars_of, decimal, decimal_chars, string_of, string_of_str};

verus! {

/// How many entries the history keeps.
pub const MAX_ENTRIES: usize = 50;

/// One sent request.
pub struct HistoryEntry {
    pub method: String,
    pub url: String,
    pub status: u16,
    pub elapsed_ms: u128,
    pub timestamp: u64,
}

/// The history, oldest entry first.
pub struct History {
    entries: Vec<HistoryEntry>,
}

impl View for History {
    type V = Seq<HistoryEntry>;

    closed spec fn view(&self) -> Seq<HistoryEntry> {
        self.entries@
    }
}

impl Default for History {
    fn default() -> (h: Self)
        ensures
            h@ == Seq::<HistoryEntry>::empty(),
    {
        History { entries: Vec::new() }
    }
}

/// The entries after `e` is added: appended, and the oldest dropped when
/// that makes more than `MAX_ENTRIES`.
pub open spec fn history_after_add(es: Seq<HistoryEntry>, e: HistoryEntry) -> Seq<HistoryEntry> {
    if es.len() + 1 > MAX_ENTRIES {
        es.push(e).drop_first()
    } else {
        es.push(e)
    }
}

/// `n. [status] METHOD URL — Tms` and a line break.
pub open spec fn entry_line(n: nat, e: HistoryEntry) -> Seq<char> {
    decimal(n) + ". ["@ + decimal(e.status as nat) + "] "@ + e.method@ + " "@ + e.url@ + " \u{2014} "@
        + decimal(e.elapsed_ms as nat) + "ms\n"@
}

/// The entries newest first, numbered from `start`.
pub open spec fn entry_lines(es: Seq<HistoryEntry>, start: nat) -> Seq<char>
    decreases es.len(),
{
    if es.len() == 0 {
        seq![]
    } else {
        entry_line(start, es.last()) + entry_lines(es.drop_last(), start + 1)
    }
}

/// The text of the history: the entries newest first, numbered from one,
/// or a note that there are none.
pub open spec fn history_text(es: Seq<HistoryEntry>) -> Seq<char> {
    if es.len() == 0 {
        "No request history."@
    } else {
        entry_lines(es, 1)
    }
}

impl History {
    /// A history with the given entries, oldest first.
    pub fn from_entries(entries: Vec<HistoryEntry>) -> (h: Self)
        ensures
            h@ == entries@,
    {
        History { entries }
    }

    /// Records an entry; beyond `MAX_ENTRIES` the oldest is dropped.
    pub fn add(&mut self, entry: HistoryEntry)
        ensures
            final(self)@ == history_after_add(old(self)@, entry),
    {
        self.entries.push(entry);
        if self.entries.len() > MAX_ENTRIES {
            self.entries.remove(0);
        }
    }

    /// The entries, oldest first.
    pub fn entries(&self) -> (r: &[HistoryEntry])
        ensures
            r@ == self@,
    {
        self.entries.as_slice()
    }

    /// The history as text, newest entry first.
    pub fn format(&self) -> (r: String)
        ensures
            r@ == history_text(self@),
    {
        if self.entries.len() == 0 {
            return string_of_str("No request history.");
        }
        let ghost es = self.entries@;
        let n = self.entries.len();
        let mut out: Vec<char> = Vec::new();
        let mut k: usize = 0;
        assert(es.take(n as int) =~= es);
        assert(Seq::<char>::empty() + entry_lines(es.take(n as int), 1) =~= entry_lines(es, 1));
        while k < n
            invariant
                n == es.len(),
                es == self.entries@,
                k <= n,
                out@ + entry_lines(es.take(n - k), (k + 1) as nat) == entry_lines(es, 1),
            decreases n - k,
        {
            let e = &self.entries[n - 1 - k];
            let ghost rest = es.take(n - k);
            assert(rest.last() == *e);
            assert(rest.drop_last() =~= es.take(n - k - 1));
            let ghost before = out@;
            let num = decimal_chars((k + 1) as u128);
            append_vec(&mut out, &num);
            append_str_chars(&mut out, ". [");
            let st = decimal_chars(e.status as u128);
            append_vec(&mut out, &st);
            append_str_chars(&mut out, "] ");
            append_str_chars(&mut out, e.method.as_str());
            append_str_chars(&mut out, " ");
            append_str_chars(&mut out, e.url.as_str());
            append_str_chars(&mut out, " \u{2014} ");
            let ms = decimal_chars(e.elapsed_ms);
            append_vec(&mut out, &ms);
            append_str_chars(&mut out, "ms\n");
            assert(out@ =~= before + entry_line((k + 1) as nat, *e));
            k += 1;
        }
        assert(es.take(0) =~= Seq::<HistoryEntry>::empty());
        assert(out@ + Seq::<char>::empty() =~= out@);
        string_of(&out)
    }
}

fn append_str_chars(r: &mut Vec<char>, s: &str)
    ensures
        final(r)@ == old(r)@ + s@,
{
    let v = chars_of(s);
    append_vec(r, &v);
}

/// Adding to a history of at most `MAX_ENTRIES` entries leaves at most
/// `MAX_ENTRIES`, the new entry last.
pub proof fn lemma_history_bounded(es: Seq<HistoryEntry>, e: HistoryEntry)
    requires
        es.len() <= MAX_ENTRIES,
    ensures
        history_after_add(es, e).len() <= MAX_ENTRIES,
        history_after_add(es, e).last() == e,
        history_after_add(es, e).len() == if es.len() < MAX_ENTRIES {
            (es.len() + 1) as int
        } else {
            MAX_ENTRIES as int
        },
{
}

} // verus!
