//! The decisions of the search screen: how keys change the mode, the query
//! and what happens next; how the selection moves through the results; and
//! which line of a file previews a result. Drawing, reading files and
//! running the terminal are the caller's part.
use vstd::prelude::*;
use crate::text::{
    chars_of, contains_run, find_newline, has_run, lines_of, lowercase_of, newline_at, pop_char,
    push_char, string_of, strip_cr, to_lowercase, trim_range, trimmed,
};
use crate::tokenizer::{tokenize, truncate_chars, truncated, views, words};
use crate::storage::BuildStats;
use vstd::string::StringExecFns;

verus! {

/// Whether keys edit the query or act on the results.
#[derive(Clone, Copy, Debug, PartialEq, Eq, Structural)]
pub enum Mode {
    Normal,
    Search,
}

/// A key press.
#[derive(Clone, Copy, Debug, PartialEq, Eq, Structural)]
pub enum Key {
    Char(char),
    Esc,
    Enter,
    Backspace,
    Up,
    Down,
    Other,
}

/// What the screen does after a key.
#[derive(Clone, Copy, Debug, PartialEq, Eq, Structural)]
pub enum Action {
    /// Nothing beyond the change of mode or query.
    Stay,
    Quit,
    /// Move the selection by this many rows.
    MoveSelection(i32),
    /// Re-index the tree now (incrementally).
    Reindex,
    /// Open the selected file in the editor.
    OpenSelected,
    /// Run the query.
    RunSearch,
}

/// The mode, query and action after `key` in `mode` with `query`.
pub open spec fn key_step(mode: Mode, query: Seq<char>, key: Key) -> (Mode, Seq<char>, Action) {
    match mode {
        Mode::Normal => match key {
            Key::Char(c) => if c == 'q' {
                (Mode::Normal, query, Action::Quit)
            } else if c == '/' {
                (Mode::Search, Seq::empty(), Action::Stay)
            } else if c == 'j' {
                (Mode::Normal, query, Action::MoveSelection(1))
            } else if c == 'k' {
                (Mode::Normal, query, Action::MoveSelection(-1i32))
            } else if c == 'r' {
                (Mode::Normal, query, Action::Reindex)
            } else {
                (Mode::Normal, query, Action::Stay)
            },
            Key::Esc => (Mode::Normal, query, Action::Quit),
            Key::Down => (Mode::Normal, query, Action::MoveSelection(1)),
            Key::Up => (Mode::Normal, query, Action::MoveSelection(-1i32)),
            Key::Enter => (Mode::Normal, query, Action::OpenSelected),
            _ => (Mode::Normal, query, Action::Stay),
        },
        Mode::Search => match key {
            Key::Esc => (Mode::Normal, query, Action::Stay),
            Key::Enter => (Mode::Normal, query, Action::RunSearch),
            Key::Backspace => (Mode::Search, if query.len() > 0 {
                query.drop_last()
            } else {
                query
            }, Action::Stay),
            Key::Char(c) => (Mode::Search, query.push(c), Action::Stay),
            _ => (Mode::Search, query, Action::Stay),
        },
    }
}

/// Apply a key press to the mode and the query, and say what to do next.
pub fn handle_key(mode: &mut Mode, query: &mut String, key: Key) -> (a: Action)
    ensures
        (*final(mode), final(query)@, a) == key_step(*old(mode), old(query)@, key),
{
    match *mode {
        Mode::Normal => match key {
            Key::Char(c) => {
                if c == 'q' {
                    Action::Quit
                } else if c == '/' {
                    *mode = Mode::Search;
                    *query = String::new();
                    Action::Stay
                } else if c == 'j' {
                    Action::MoveSelection(1)
                } else if c == 'k' {
                    Action::MoveSelection(-1)
                } else if c == 'r' {
                    Action::Reindex
                } else {
                    Action::Stay
                }
            },
            Key::Esc => Action::Quit,
            Key::Down => Action::MoveSelection(1),
            Key::Up => Action::MoveSelection(-1),
            Key::Enter => Action::OpenSelected,
            _ => Action::Stay,
        },
        Mode::Search => match key {
            Key::Esc => {
                *mode = Mode::Normal;
                Action::Stay
            },
            Key::Enter => {
                *mode = Mode::Normal;
                Action::RunSearch
            },
            Key::Backspace => {
                pop_char(query);
                Action::Stay
            },
            Key::Char(c) => {
                push_char(query, c);
                Action::Stay
            },
            _ => Action::Stay,
        },
    }
}

/// The selection after moving `delta` rows from `selected` among `len`
/// results: clamped to the first and last row; unchanged when there are
/// no results.
pub open spec fn moved(selected: int, len: int, delta: int) -> int {
    if len == 0 {
        selected
    } else if selected + delta < 0 {
        0
    } else if selected + delta > len - 1 {
        len - 1
    } else {
        selected + delta
    }
}


/// The selection stays on a result: with at least one result, moving by
/// any amount lands on a row between the first and the last.
pub proof fn lemma_selection_in_range(selected: int, len: int, delta: int)
    requires
        len > 0,
    ensures
        0 <= moved(selected, len, delta) < len,
{
}

/// How the selection moves: among `len > 0` results, a move that stays
/// within the rows lands exactly `delta` rows away; one that would go above
/// the first row stops on the first, one that would go past the last stops
/// on the last. Moving by `delta` and then by `-delta` within the rows comes
/// back to the start. With no results the selection does not move.
pub proof fn lemma_selection_moves_by_delta(selected: int, len: int, delta: int)
    ensures
        0 <= selected + delta < len ==> moved(selected, len, delta) == selected + delta,
        len > 0 && selected + delta < 0 ==> moved(selected, len, delta) == 0,
        len > 0 && selected + delta >= len ==> moved(selected, len, delta) == len - 1,
        0 <= selected < len && 0 <= selected + delta < len ==> moved(
            moved(selected, len, delta),
            len,
            -delta,
        ) == selected,
        len == 0 ==> moved(selected, len, delta) == selected,
{
}

/// Typing a character into the query and then erasing it gives back the
/// query, still in search mode.
pub proof fn lemma_backspace_undoes_typing(query: Seq<char>, c: char)
    ensures
        ({
            let (m1, q1, a1) = key_step(Mode::Search, query, Key::Char(c));
            let (m2, q2, a2) = key_step(m1, q1, Key::Backspace);
            m2 == Mode::Search && q2 == query && a1 == Action::Stay && a2 == Action::Stay
        }),
{
    assert(query.push(c).drop_last() =~= query);
}

/// A preview is never longer than 141 characters (140 kept and an
/// ellipsis).
pub proof fn lemma_snippet_short(content: Seq<char>, query: Seq<char>)
    ensures
        snippet_of(content, query).len() <= 141,
{
}

/// Move the selection `delta` rows through `len` results.
pub fn next_selection(selected: usize, len: usize, delta: i32) -> (r: usize)
    requires
        len > 0 ==> len <= i32::MAX && selected <= i32::MAX && selected + delta <= i32::MAX,
    ensures
        r == moved(selected as int, len as int, delta as int),
{
    if len == 0 {
        return selected;
    }
    let last = len as i32 - 1;
    let new = selected as i32 + delta;
    if new < 0 {
        0
    } else if new > last {
        last as usize
    } else {
        new as usize
    }
}

/// Whether the lowercase form of `line` holds one of `terms`.
pub open spec fn line_matches(line: Seq<char>, terms: Seq<Seq<char>>) -> bool {
    exists|j: int| 0 <= j < terms.len() && contains_run(lowercase_of(line), #[trigger] terms[j])
}

/// The first of `lines` that holds one of `terms`.
pub open spec fn first_matching(lines: Seq<Seq<char>>, terms: Seq<Seq<char>>) -> Option<Seq<char>>
    decreases lines.len(),
{
    if lines.len() == 0 {
        None
    } else if line_matches(lines[0], terms) {
        Some(lines[0])
    } else {
        first_matching(lines.drop_first(), terms)
    }
}

/// The preview of a file with text `content` for `query`: the first line
/// whose lowercase form holds one of the query's words, trimmed and cut to
/// 140 characters; empty when no line does.
pub open spec fn snippet_of(content: Seq<char>, query: Seq<char>) -> Seq<char> {
    match first_matching(lines_of(content), words(lowercase_of(query))) {
        Some(line) => truncated(trimmed(line), 140),
        None => Seq::empty(),
    }
}

/// `first_matching` gives the first line that holds one of the terms.
proof fn lemma_first_matching_is_first(lines: Seq<Seq<char>>, terms: Seq<Seq<char>>, k: int)
    requires
        0 <= k < lines.len(),
        exists|j: int| 0 <= j < terms.len() && contains_run(lowercase_of(lines[k]), #[trigger] terms[j]),
        forall|k2: int, j: int|
            0 <= k2 < k && 0 <= j < terms.len() ==> !contains_run(
                lowercase_of(#[trigger] lines[k2]),
                #[trigger] terms[j],
            ),
    ensures
        first_matching(lines, terms) == Some(lines[k]),
    decreases k,
{
    if k > 0 {
        assert(!line_matches(lines[0], terms)) by {
            if line_matches(lines[0], terms) {
                let j = choose|j: int| 0 <= j < terms.len() && contains_run(lowercase_of(lines[0]), #[trigger] terms[j]);
                assert(!contains_run(lowercase_of(lines[0]), terms[j]));
            }
        }
        let rest = lines.drop_first();
        assert(rest[k - 1] == lines[k]);
        assert forall|k2: int, j: int| 0 <= k2 < k - 1 && 0 <= j < terms.len() implies !contains_run(
            lowercase_of(#[trigger] rest[k2]),
            #[trigger] terms[j],
        ) by {
            assert(rest[k2] == lines[k2 + 1]);
        }
        lemma_first_matching_is_first(rest, terms, k - 1);
    }
}

proof fn lemma_first_matching_none(lines: Seq<Seq<char>>, terms: Seq<Seq<char>>)
    requires
        forall|k: int, j: int|
            0 <= k < lines.len() && 0 <= j < terms.len() ==> !contains_run(
                lowercase_of(#[trigger] lines[k]),
                #[trigger] terms[j],
            ),
    ensures
        first_matching(lines, terms) == None::<Seq<char>>,
    decreases lines.len(),
{
    if lines.len() > 0 {
        assert(!line_matches(lines[0], terms)) by {
            if line_matches(lines[0], terms) {
                let j = choose|j: int| 0 <= j < terms.len() && contains_run(lowercase_of(lines[0]), #[trigger] terms[j]);
                assert(!contains_run(lowercase_of(lines[0]), terms[j]));
            }
        }
        let rest = lines.drop_first();
        assert forall|k: int, j: int| 0 <= k < rest.len() && 0 <= j < terms.len() implies !contains_run(
            lowercase_of(#[trigger] rest[k]),
            #[trigger] terms[j],
        ) by {
            assert(rest[k] == lines[k + 1]);
        }
        lemma_first_matching_none(rest, terms);
    }
}

/// Which line previews a result: a line whose lowercase form holds any
/// one of the query's words (not only the first) is a match, and the
/// preview is the first matching line of the content, trimmed and cut to
/// 140 characters; with no matching line the preview is empty.
pub proof fn lemma_snippet_is_first_matching_line(content: Seq<char>, query: Seq<char>)
    ensures
        ({
            let ls = lines_of(content);
            let ws = words(lowercase_of(query));
            &&& forall|k: int, j: int|
                0 <= k < ls.len() && 0 <= j < ws.len() && contains_run(
                    lowercase_of(#[trigger] ls[k]),
                    #[trigger] ws[j],
                ) && (forall|k2: int, j2: int|
                    0 <= k2 < k && 0 <= j2 < ws.len() ==> !contains_run(
                        lowercase_of(#[trigger] ls[k2]),
                        #[trigger] ws[j2],
                    )) ==> snippet_of(content, query) == truncated(trimmed(ls[k]), 140)
            &&& (forall|k: int, j: int|
                0 <= k < ls.len() && 0 <= j < ws.len() ==> !contains_run(
                    lowercase_of(#[trigger] ls[k]),
                    #[trigger] ws[j],
                )) ==> snippet_of(content, query) == Seq::<char>::empty()
        }),
{
    let ls = lines_of(content);
    let ws = words(lowercase_of(query));
    assert forall|k: int, j: int|
        0 <= k < ls.len() && 0 <= j < ws.len() && contains_run(
            lowercase_of(#[trigger] ls[k]),
            #[trigger] ws[j],
        ) && (forall|k2: int, j2: int|
            0 <= k2 < k && 0 <= j2 < ws.len() ==> !contains_run(
                lowercase_of(#[trigger] ls[k2]),
                #[trigger] ws[j2],
            )) implies snippet_of(content, query) == truncated(trimmed(ls[k]), 140) by {
        lemma_first_matching_is_first(ls, ws, k);
    }
    if forall|k: int, j: int|
        0 <= k < ls.len() && 0 <= j < ws.len() ==> !contains_run(
            lowercase_of(#[trigger] ls[k]),
            #[trigger] ws[j],
        ) {
        lemma_first_matching_none(ls, ws);
    }
}

/// Whether `lc` holds one of `terms`.
fn holds_any(lc: &Vec<char>, terms: &Vec<Vec<char>>) -> (r: bool)
    ensures
        r == exists|j: int| 0 <= j < terms@.len() && contains_run(lc@, #[trigger] terms@[j]@),
{
    let mut j: usize = 0;
    while j < terms.len()
        invariant
            j <= terms@.len(),
            forall|q: int| 0 <= q < j ==> !contains_run(lc@, #[trigger] terms@[q]@),
        decreases terms@.len() - j,
    {
        if has_run(lc, &terms[j]) {
            return true;
        }
        j = j + 1;
    }
    false
}

/// The preview line for a result: the first line of `content` (the file's
/// text) holding one of the words of `query`, trimmed and cut short.
pub fn snippet_from(content: &str, query: &str) -> (r: String)
    ensures
        r@ == snippet_of(content@, query@),
{
    let terms = tokenize(query);
    let ghost ts = words(lowercase_of(query@));
    let mut tcs: Vec<Vec<char>> = Vec::new();
    let mut i: usize = 0;
    while i < terms.len()
        invariant
            i <= terms@.len(),
            tcs@.len() == i,
            forall|q: int| 0 <= q < i ==> (#[trigger] tcs@[q])@ == terms@[q]@,
        decreases terms@.len() - i,
    {
        tcs.push(chars_of(terms[i].as_str()));
        i = i + 1;
    }
    assert(views(terms@) == ts);
    let cs = chars_of(content);
    let ghost target = first_matching(lines_of(cs@), ts);
    let mut start: usize = 0;
    assert(cs@.skip(0) =~= cs@);
    while start < cs.len()
        invariant
            start <= cs@.len(),
            tcs@.len() == ts.len(),
            forall|q: int| 0 <= q < ts.len() ==> (#[trigger] tcs@[q])@ == ts[q],
            first_matching(lines_of(cs@.skip(start as int)), ts) == target,
            target == first_matching(lines_of(content@), ts),
            ts == words(lowercase_of(query@)),
        decreases cs@.len() - start,
    {
        let ghost s = cs@.skip(start as int);
        let k = find_newline(&cs, start);
        proof {
            crate::text::lemma_newline_at_bound(s);
        }
        let end = if k < cs.len() && k > start && cs[k - 1] == '\r' {
            k - 1
        } else {
            k
        };
        let ghost line = cs@.subrange(start as int, end as int);
        let ghost rest = if k < cs.len() {
            lines_of(cs@.skip(k + 1))
        } else {
            Seq::<Seq<char>>::empty()
        };
        proof {
            let kk = newline_at(s);
            if k < cs.len() {
                assert(s.take(kk as int) =~= cs@.subrange(start as int, k as int));
                assert(s.skip(kk + 1int) =~= cs@.skip(k + 1));
                assert(strip_cr(s.take(kk as int)) =~= line);
                assert(lines_of(s) == seq![line] + rest);
            } else {
                assert(s =~= line);
                assert(lines_of(s) == seq![line]);
            }
            assert((seq![line] + rest)[0] == line);
            assert((seq![line] + rest).drop_first() =~= rest);
        }
        let line_str = string_of(&cs, start, end);
        let lower = to_lowercase(line_str.as_str());
        let lc = chars_of(lower.as_str());
        if holds_any(&lc, &tcs) {
            proof {
                let j = choose|j: int| 0 <= j < tcs@.len() && contains_run(lc@, #[trigger] tcs@[j]@);
                assert(contains_run(lowercase_of(line), ts[j]));
                assert(line_matches(line, ts));
                assert(lines_of(s) == seq![line] + rest);
                assert(first_matching(lines_of(s), ts) == Some(line));
                assert(target == Some(line));
            }
            let t = trim_range(&cs, start, end);
            return truncate_chars(t.as_str(), 140);
        }
        proof {
            assert(!line_matches(line, ts)) by {
                if line_matches(line, ts) {
                    let j = choose|j: int| 0 <= j < ts.len() && contains_run(lowercase_of(line), #[trigger] ts[j]);
                    assert(contains_run(lc@, tcs@[j]@));
                }
            }
        }
        proof {
            assert(first_matching(lines_of(s), ts) == first_matching(rest, ts));
        }
        if k >= cs.len() {
            proof {
                assert(rest.len() == 0);
                assert(target == None::<Seq<char>>);
            }
            return String::new();
        }
        start = k + 1;
    }
    proof {
        assert(cs@.skip(start as int) =~= Seq::<char>::empty());
    }
    String::new()
}

/// The character of the decimal digit `d`.
pub open spec fn digit_char(d: nat) -> char {
    if d == 0 {
        '0'
    } else if d == 1 {
        '1'
    } else if d == 2 {
        '2'
    } else if d == 3 {
        '3'
    } else if d == 4 {
        '4'
    } else if d == 5 {
        '5'
    } else if d == 6 {
        '6'
    } else if d == 7 {
        '7'
    } else if d == 8 {
        '8'
    } else {
        '9'
    }
}

/// `n` written in decimal, without leading zeros.
pub open spec fn decimal(n: nat) -> Seq<char>
    decreases n,
{
    if n < 10 {
        seq![digit_char(n)]
    } else {
        decimal(n / 10).push(digit_char(n % 10))
    }
}

fn digit(d: u128) -> (c: char)
    requires
        d < 10,
    ensures
        c == digit_char(d as nat),
{
    if d == 0 {
        '0'
    } else if d == 1 {
        '1'
    } else if d == 2 {
        '2'
    } else if d == 3 {
        '3'
    } else if d == 4 {
        '4'
    } else if d == 5 {
        '5'
    } else if d == 6 {
        '6'
    } else if d == 7 {
        '7'
    } else if d == 8 {
        '8'
    } else {
        '9'
    }
}

/// `n` written in decimal.
fn decimal_string(n: u128) -> (r: String)
    ensures
        r@ == decimal(n as nat),
    decreases n,
{
    if n < 10 {
        let mut s = String::new();
        push_char(&mut s, digit(n));
        assert(s@ =~= seq![digit_char(n as nat)]);
        s
    } else {
        let mut s = decimal_string(n / 10);
        push_char(&mut s, digit(n % 10));
        s
    }
}

/// What the screen shows once a search has given `count` results for
/// `query`: the selection goes back to the first row, and the status line
/// reads `<count> results for "<query>"`.
pub fn after_search(count: usize, query: &str) -> (r: (usize, String))
    ensures
        r.0 == 0,
        r.1@ == decimal(count as nat) + " results for \""@ + query@ + "\""@,
{
    let mut s = decimal_string(count as u128);
    s.append(" results for \"");
    s.append(query);
    s.append("\"");
    (0, s)
}

/// What the screen does after a refresh that gave `stats`, with `query`
/// typed: the status line reads
/// `reindexed: <added> added, <updated> updated, <removed> removed (<ms> ms)`,
/// and the query is run again exactly when it is not empty.
pub fn after_reindex(stats: &BuildStats, query: &str) -> (r: (String, bool))
    ensures
        r.0@ == "reindexed: "@ + decimal(stats.added as nat) + " added, "@ + decimal(
            stats.updated as nat,
        ) + " updated, "@ + decimal(stats.removed as nat) + " removed ("@ + decimal(
            stats.elapsed_ms as nat,
        ) + " ms)"@,
        r.1 == (query@.len() > 0),
{
    let mut s = String::from_str("reindexed: ");
    let a = decimal_string(stats.added as u128);
    s.append(a.as_str());
    s.append(" added, ");
    let u = decimal_string(stats.updated as u128);
    s.append(u.as_str());
    s.append(" updated, ");
    let d = decimal_string(stats.removed as u128);
    s.append(d.as_str());
    s.append(" removed (");
    let e = decimal_string(stats.elapsed_ms);
    s.append(e.as_str());
    s.append(" ms)");
    (s, !query.is_empty())
}

} // verus!
