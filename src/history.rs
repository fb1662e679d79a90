//! The bounded log of completed computations and its text file format.
use crate::text::{chars_of, string_of};
use vstd::prelude::*;

verus! {

/// Most entries the log keeps; the oldest leave first.
pub const MAX_HISTORY: usize = 10;

/// One completed computation: what was computed and what came out.
#[derive(Clone)]
pub struct HistoryEntry {
    pub expression: String,
    pub result: String,
}

impl View for HistoryEntry {
    type V = (Seq<char>, Seq<char>);

    open spec fn view(&self) -> (Seq<char>, Seq<char>) {
        (self.expression@, self.result@)
    }
}

impl HistoryEntry {
    pub fn new(expression: String, result: String) -> (r: HistoryEntry)
        ensures
            r@ == (expression@, result@),
    {
        HistoryEntry { expression, result }
    }
}

/// The contents of a log, entry by entry.
pub open spec fn entries_view(h: Seq<HistoryEntry>) -> Seq<(Seq<char>, Seq<char>)> {
    h.map_values(|e: HistoryEntry| e@)
}

/// `h` with `e` appended, the oldest entry dropped when that makes one too many.
pub open spec fn bounded_push<T>(h: Seq<T>, e: T) -> Seq<T> {
    if h.len() + 1 > MAX_HISTORY {
        h.push(e).drop_first()
    } else {
        h.push(e)
    }
}

/// Appends `entry`, then drops the oldest entry if the log holds too many.
pub fn push_bounded(history: &mut Vec<HistoryEntry>, entry: HistoryEntry)
    ensures
        entries_view(final(history)@) == bounded_push(entries_view(old(history)@), entry@),
{
    let ghost e = entry@;
    history.push(entry);
    let ghost pushed = history@;
    assert(entries_view(pushed) =~= entries_view(old(history)@).push(e));
    if history.len() > MAX_HISTORY {
        history.remove(0);
        assert(entries_view(history@) =~= entries_view(pushed).drop_first());
    }
}

/// The most recent `MAX_HISTORY` entries of `h`.
pub open spec fn most_recent<T>(h: Seq<T>) -> Seq<T> {
    if h.len() > MAX_HISTORY {
        h.skip(h.len() - MAX_HISTORY)
    } else {
        h
    }
}

/// Keeps only the most recent `MAX_HISTORY` entries.
pub fn keep_recent(history: Vec<HistoryEntry>) -> (r: Vec<HistoryEntry>)
    ensures
        entries_view(r@) == most_recent(entries_view(history@)),
{
    let mut history = history;
    if history.len() <= MAX_HISTORY {
        return history;
    }
    let ghost h0 = history@;
    let cut = history.len() - MAX_HISTORY;
    let tail = history.split_off(cut);
    assert(tail@ == h0.skip(cut as int));
    assert(entries_view(tail@) =~= entries_view(h0).skip(cut as int));
    tail
}

/// One line of the history file: the expression, a tab, the result.
pub open spec fn record_text(e: (Seq<char>, Seq<char>)) -> Seq<char> {
    e.0 + seq!['\t'] + e.1
}

/// The history file: one record per line, joined by newlines, with no
/// newline after the last.
pub open spec fn file_text(h: Seq<(Seq<char>, Seq<char>)>) -> Seq<char>
    decreases h.len(),
{
    if h.len() == 0 {
        Seq::empty()
    } else if h.len() == 1 {
        record_text(h[0])
    } else {
        file_text(h.drop_last()) + seq!['\n'] + record_text(h.last())
    }
}

fn append_chars(out: &mut Vec<char>, s: &String)
    ensures
        final(out)@ == old(out)@ + s@,
{
    let mut v = chars_of(s.as_str());
    out.append(&mut v);
}

/// The text that the history file holds for `history`.
pub fn history_text(history: &Vec<HistoryEntry>) -> (s: String)
    ensures
        s@ == file_text(entries_view(history@)),
{
    let mut out: Vec<char> = Vec::new();
    let mut i: usize = 0;
    assert(entries_view(history@.take(0)) =~= Seq::<(Seq<char>, Seq<char>)>::empty());
    while i < history.len()
        invariant
            i <= history.len(),
            out@ == file_text(entries_view(history@.take(i as int))),
        decreases history.len() - i,
    {
        let ghost before = out@;
        let ghost prev = entries_view(history@.take(i as int));
        let ghost next = entries_view(history@.take(i + 1));
        assert(next.drop_last() =~= prev);
        assert(next.last() == history@[i as int]@);
        if i > 0 {
            out.push('\n');
        }
        append_chars(&mut out, &history[i].expression);
        out.push('\t');
        append_chars(&mut out, &history[i].result);
        proof {
            if i == 0 {
                assert(out@ =~= record_text(next[0]));
            } else {
                assert(out@ =~= before + seq!['\n'] + record_text(next.last()));
            }
        }
        i = i + 1;
    }
    assert(history@.take(history.len() as int) =~= history@);
    string_of(&out)
}

/// `s` cut at each newline; always at least one piece.
pub open spec fn split_lines(s: Seq<char>) -> Seq<Seq<char>>
    decreases s.len(),
{
    if s.len() == 0 {
        seq![Seq::empty()]
    } else {
        let p = split_lines(s.drop_last());
        if s.last() == '\n' {
            p.push(Seq::empty())
        } else {
            p.drop_last().push(p.last().push(s.last()))
        }
    }
}

proof fn lemma_split_lines_nonempty(s: Seq<char>)
    ensures
        split_lines(s).len() >= 1,
    decreases s.len(),
{
    if s.len() > 0 {
        lemma_split_lines_nonempty(s.drop_last());
    }
}

/// A line without the carriage return of a CR LF ending.
pub open spec fn strip_cr(l: Seq<char>) -> Seq<char> {
    if l.len() > 0 && l.last() == '\r' {
        l.drop_last()
    } else {
        l
    }
}

/// The lines of a text: the pieces ended by a newline, without a carriage
/// return before it, and the final piece when it is not empty.
pub open spec fn text_lines(s: Seq<char>) -> Seq<Seq<char>> {
    let p = split_lines(s);
    let ended = p.drop_last().map_values(|l: Seq<char>| strip_cr(l));
    if p.last().len() == 0 {
        ended
    } else {
        ended.push(p.last())
    }
}

/// Index of the first tab in `l`, which must hold one.
pub open spec fn first_tab(l: Seq<char>) -> int {
    choose|i: int| 0 <= i < l.len() && l[i] == '\t' && forall|j: int| 0 <= j < i ==> l[j] != '\t'
}

/// The record that a line holds: the text before its first tab and the text
/// after it; none for a line without a tab.
pub open spec fn record_of_line(l: Seq<char>) -> Option<(Seq<char>, Seq<char>)> {
    if l.contains('\t') {
        Some((l.take(first_tab(l)), l.skip(first_tab(l) + 1)))
    } else {
        None
    }
}

/// The records of the lines that hold one, in order.
pub open spec fn records(lines: Seq<Seq<char>>) -> Seq<(Seq<char>, Seq<char>)>
    decreases lines.len(),
{
    if lines.len() == 0 {
        Seq::empty()
    } else {
        match record_of_line(lines.last()) {
            Some(r) => records(lines.drop_last()).push(r),
            None => records(lines.drop_last()),
        }
    }
}

/// The record of one line, if it holds a tab.
fn record_of(line: &Vec<char>) -> (r: Option<HistoryEntry>)
    ensures
        match r {
            Some(e) => record_of_line(line@) == Some(e@),
            None => record_of_line(line@) is None,
        },
{
    let mut i: usize = 0;
    while i < line.len() && line[i] != '\t'
        invariant
            i <= line.len(),
            forall|j: int| 0 <= j < i ==> line@[j] != '\t',
        decreases line.len() - i,
    {
        i = i + 1;
    }
    if i == line.len() {
        return None;
    }
    proof {
        assert(line@.contains('\t')) by {
            assert(line@[i as int] == '\t');
        }
        let t = first_tab(line@);
        if t < i {
            assert(line@[t] != '\t');
        } else if t > i {
            assert(line@[i as int] != '\t');
        }
    }
    let mut before: Vec<char> = Vec::new();
    let mut after: Vec<char> = Vec::new();
    let mut j: usize = 0;
    while j < line.len()
        invariant
            i < line.len(),
            j <= line.len(),
            j <= i ==> before@ == line@.take(j as int) && after@.len() == 0,
            j > i ==> before@ == line@.take(i as int) && after@ == line@.subrange(
                i + 1,
                j as int,
            ),
        decreases line.len() - j,
    {
        if j < i {
            before.push(line[j]);
            assert(before@ =~= line@.take(j + 1));
        } else if j > i {
            after.push(line[j]);
            assert(after@ =~= line@.subrange(i + 1, j + 1));
        } else {
            assert(after@ =~= line@.subrange(i + 1, j + 1));
        }
        j = j + 1;
    }
    assert(line@.subrange(i + 1, line.len() as int) =~= line@.skip(i + 1));
    Some(HistoryEntry::new(string_of(&before), string_of(&after)))
}

fn add_record(out: &mut Vec<HistoryEntry>, line: &Vec<char>)
    ensures
        entries_view(final(out)@) == match record_of_line(line@) {
            Some(r) => entries_view(old(out)@).push(r),
            None => entries_view(old(out)@),
        },
{
    match record_of(line) {
        Some(e) => {
            let ghost ev = e@;
            out.push(e);
            assert(entries_view(out@) =~= entries_view(old(out)@).push(ev));
        },
        None => {},
    }
}

/// Reads the records of a history file's text, skipping lines without a tab.
pub fn parse_history(text: &String) -> (r: Vec<HistoryEntry>)
    ensures
        entries_view(r@) == records(text_lines(text@)),
{
    let chars = chars_of(text.as_str());
    let mut out: Vec<HistoryEntry> = Vec::new();
    let mut current: Vec<char> = Vec::new();
    let mut i: usize = 0;
    assert(chars@.take(0) =~= Seq::<char>::empty());
    assert(split_lines(chars@.take(0)).drop_last() =~= Seq::<Seq<char>>::empty());
    assert(split_lines(chars@.take(0)).drop_last().map_values(|l: Seq<char>| strip_cr(l))
        =~= Seq::<Seq<char>>::empty());
    while i < chars.len()
        invariant
            i <= chars.len(),
            split_lines(chars@.take(i as int)).last() == current@,
            entries_view(out@) == records(
                split_lines(chars@.take(i as int)).drop_last().map_values(
                    |l: Seq<char>| strip_cr(l),
                ),
            ),
        decreases chars.len() - i,
    {
        let c = chars[i];
        let ghost p = split_lines(chars@.take(i as int));
        let ghost grown = split_lines(chars@.take(i + 1));
        proof {
            lemma_split_lines_nonempty(chars@.take(i as int));
            assert(chars@.take(i + 1).drop_last() =~= chars@.take(i as int));
            assert(chars@.take(i + 1).last() == c);
        }
        if c == '\n' {
            let ghost before = entries_view(out@);
            let line = strip_cr_exec(&current);
            add_record(&mut out, &line);
            current = Vec::new();
            proof {
                let f = |l: Seq<char>| strip_cr(l);
                assert(grown == p.push(Seq::empty()));
                assert(grown.drop_last() =~= p);
                assert(p.map_values(f) =~= p.drop_last().map_values(f).push(strip_cr(p.last())));
                assert(p.map_values(f).drop_last() =~= p.drop_last().map_values(f));
                assert(current@ =~= grown.last());
            }
        } else {
            current.push(c);
            proof {
                assert(grown == p.drop_last().push(p.last().push(c)));
                assert(grown.drop_last() =~= p.drop_last());
            }
        }
        i = i + 1;
    }
    assert(chars@.take(chars.len() as int) =~= text@);
    proof {
        lemma_split_lines_nonempty(text@);
    }
    if current.len() > 0 {
        let ghost before = entries_view(out@);
        add_record(&mut out, &current);
        proof {
            let p = split_lines(text@);
            let ended = p.drop_last().map_values(|l: Seq<char>| strip_cr(l));
            assert(ended.push(p.last()).drop_last() =~= ended);
        }
    }
    out
}

fn strip_cr_exec(l: &Vec<char>) -> (r: Vec<char>)
    ensures
        r@ == strip_cr(l@),
{
    let mut r = l.clone();
    if r.len() > 0 && r[r.len() - 1] == '\r' {
        r.pop();
        assert(r@ =~= l@.drop_last());
    }
    r
}

} // verus!
