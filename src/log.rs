//! The log as a whole: its text, and its replay into a map.
use vstd::prelude::*;

use crate::codec::{chars_of, decode, escape_char, escape_str, json_quote, line_entry, line_of, lemma_line_round_trip, written, EntryModel, LogEntry};
use crate::errors::DatabaseError;
use crate::table::Table;

verus! {

/// The text of a log holding `es`: one line per record, each ending in a newline.
pub open spec fn log_text(es: Seq<EntryModel>) -> Seq<char>
    decreases es.len(),
{
    if es.len() == 0 {
        Seq::empty()
    } else {
        line_of(es[0]) + seq!['\n'] + log_text(es.drop_first())
    }
}

/// Every record of `es` was written by `encode`.
pub open spec fn all_written(es: Seq<EntryModel>) -> bool {
    forall|k: int| 0 <= k < es.len() ==> #[trigger] written(es[k])
}

/// The effect of one record on the map.
pub open spec fn apply(m: Map<Seq<char>, Seq<char>>, e: EntryModel) -> Map<Seq<char>, Seq<char>> {
    match e {
        EntryModel::Put { key, value } => m.insert(key, value),
        EntryModel::Remove { key } => m.remove(key),
    }
}

/// Right after a record is applied, its key reads as the record left it: the
/// value of a `Put`, nothing after a `Remove`.
pub proof fn lemma_read_your_writes(m: Map<Seq<char>, Seq<char>>, e: EntryModel)
    ensures
        match e {
            EntryModel::Put { key, value } => apply(m, e).contains_key(key) && apply(m, e)[key]
                == value,
            EntryModel::Remove { key } => !apply(m, e).contains_key(key),
        },
{
}

/// The map that the records `es` leave, applied in order to an empty map.
pub open spec fn replay(es: Seq<EntryModel>) -> Map<Seq<char>, Seq<char>>
    decreases es.len(),
{
    if es.len() == 0 {
        Map::empty()
    } else {
        apply(replay(es.drop_last()), es.last())
    }
}

/// The records of `s` from the line that starts at `start`, where `start..i`
/// holds no newline.
pub open spec fn entries_from(s: Seq<char>, start: int, i: int) -> Option<Seq<EntryModel>>
    decreases s.len() - i,
{
    if !(0 <= start <= i) {
        None
    } else if i >= s.len() {
        if start >= s.len() {
            Some(Seq::empty())
        } else {
            match line_entry(s.subrange(start, s.len() as int)) {
                Some(e) => Some(seq![e]),
                None => None,
            }
        }
    } else if s[i] == '\n' {
        match line_entry(s.subrange(start, i)) {
            Some(e) => match entries_from(s, i + 1, i + 1) {
                Some(rest) => Some(seq![e] + rest),
                None => None,
            },
            None => None,
        }
    } else {
        entries_from(s, start, i + 1)
    }
}

/// The records of a log text, or `None` if a line is no record. A last line
/// without a newline counts; an empty line does not decode.
pub open spec fn log_entries(s: Seq<char>) -> Option<Seq<EntryModel>> {
    entries_from(s, 0, 0)
}

/// The map that a log text replays to, if every line decodes.
pub open spec fn log_replay(s: Seq<char>) -> Option<Map<Seq<char>, Seq<char>>> {
    match log_entries(s) {
        Some(es) => Some(replay(es)),
        None => None,
    }
}

/// `o` with the records `done` before it.
pub open spec fn prepend(done: Seq<EntryModel>, o: Option<Seq<EntryModel>>) -> Option<Seq<EntryModel>> {
    match o {
        Some(rest) => Some(done + rest),
        None => None,
    }
}

proof fn lemma_escape_no_newline(t: Seq<char>)
    ensures
        forall|k: int| 0 <= k < escape_str(t).len() ==> escape_str(t)[k] != '\n',
    decreases t.len(),
{
    if t.len() > 0 {
        lemma_escape_no_newline(t.drop_first());
        let e = escape_char(t[0]);
        let rest = escape_str(t.drop_first());
        assert forall|k: int| 0 <= k < e.len() implies e[k] != '\n' by {
            let c = t[0];
            if (c as u32) < 0x20 && !(c == '"' || c == '\\' || c == '\u{8}' || c == '\t' || c
                == '\n' || c == '\u{c}' || c == '\r') {
                let h = seq!['0', '1', '2', '3', '4', '5', '6', '7', '8', '9', 'a', 'b', 'c', 'd', 'e', 'f'];
                assert(forall|d: int| 0 <= d < 16 ==> h[d] != '\n');
            }
        }
        assert forall|k: int| 0 <= k < escape_str(t).len() implies escape_str(t)[k] != '\n' by {
            if k < e.len() {
                assert(escape_str(t)[k] == e[k]);
            } else {
                assert(escape_str(t)[k] == rest[k - e.len()]);
            }
        }
    }
}

proof fn lemma_line_no_newline(m: EntryModel)
    ensures
        forall|k: int| 0 <= k < line_of(m).len() ==> line_of(m)[k] != '\n',
{
    match m {
        EntryModel::Put { key, value } => {
            lemma_escape_no_newline(key);
            lemma_escape_no_newline(value);
            assert(forall|k: int| 0 <= k < json_quote(key).len() ==> json_quote(key)[k] != '\n');
            assert(forall|k: int|
                0 <= k < json_quote(value).len() ==> json_quote(value)[k] != '\n');
        },
        EntryModel::Remove { key } => {
            lemma_escape_no_newline(key);
            assert(forall|k: int| 0 <= k < json_quote(key).len() ==> json_quote(key)[k] != '\n');
        },
    }
}

proof fn lemma_skip_line(s: Seq<char>, start: int, i: int, j: int)
    requires
        0 <= start <= i <= j <= s.len(),
        forall|k: int| i <= k < j ==> s[k] != '\n',
    ensures
        entries_from(s, start, i) == entries_from(s, start, j),
    decreases j - i,
{
    if i < j {
        lemma_skip_line(s, start, i + 1, j);
    }
}

proof fn lemma_entries_of_text(s: Seq<char>, i: int, es: Seq<EntryModel>)
    requires
        0 <= i <= s.len(),
        s.subrange(i, s.len() as int) == log_text(es),
        all_written(es),
    ensures
        entries_from(s, i, i) == Some(es),
    decreases es.len(),
{
    if es.len() == 0 {
        assert(s.subrange(i, s.len() as int).len() == 0);
    } else {
        let line = line_of(es[0]);
        let rest = es.drop_first();
        let j = i + line.len();
        let text = log_text(es);
        assert(text == line + seq!['\n'] + log_text(rest));
        assert forall|k: int| 0 <= k < line.len() implies s[i + k] == line[k] by {
            assert(s.subrange(i, s.len() as int)[k] == text[k]);
        }
        assert(s.subrange(i, s.len() as int)[line.len() as int] == text[line.len() as int]);
        assert(s[j] == '\n');
        lemma_line_no_newline(es[0]);
        assert forall|k: int| i <= k < j implies s[k] != '\n' by {
            assert(s[i + (k - i)] == line[k - i]);
        }
        lemma_skip_line(s, i, i, j);
        assert(s.subrange(i, j) =~= line);
        assert(written(es[0]));
        lemma_line_round_trip(es[0]);
        assert forall|k: int| 0 <= k < rest.len() implies written(#[trigger] rest[k]) by {
            assert(rest[k] == es[k + 1]);
        }
        assert forall|k: int| 0 <= k < log_text(rest).len() implies s[j + 1 + k] == log_text(
            rest,
        )[k] by {
            assert(s.subrange(i, s.len() as int)[line.len() + 1 + k] == text[line.len() + 1 + k]);
        }
        assert(s.subrange(j + 1, s.len() as int) =~= log_text(rest));
        lemma_entries_of_text(s, j + 1, rest);
        assert(seq![es[0]] + rest =~= es);
    }
}

/// A log of records that `encode` wrote reads back as those records, so
/// opening it again gives the map that the records leave.
pub proof fn lemma_replay_log(es: Seq<EntryModel>)
    requires
        all_written(es),
    ensures
        log_entries(log_text(es)) == Some(es),
        log_replay(log_text(es)) == Some(replay(es)),
{
    let s = log_text(es);
    assert(s.subrange(0, s.len() as int) =~= s);
    lemma_entries_of_text(s, 0, es);
}

/// Appending a record's line to a log's text gives the text of the longer log.
pub proof fn lemma_log_text_push(es: Seq<EntryModel>, e: EntryModel)
    ensures
        log_text(es.push(e)) == log_text(es) + line_of(e) + seq!['\n'],
    decreases es.len(),
{
    if es.len() == 0 {
        assert(es.push(e).drop_first() =~= Seq::<EntryModel>::empty());
        assert(es.push(e)[0] == e);
        assert(log_text(es.push(e).drop_first()) == Seq::<char>::empty());
        assert(log_text(es) == Seq::<char>::empty());
        assert(log_text(es.push(e)) =~= log_text(es) + line_of(e) + seq!['\n']);
    } else {
        lemma_log_text_push(es.drop_first(), e);
        assert(es.push(e).drop_first() =~= es.drop_first().push(e));
        assert(es.push(e)[0] == es[0]);
        let a = line_of(es[0]) + seq!['\n'];
        let b = log_text(es.drop_first());
        let c = line_of(e) + seq!['\n'];
        assert(log_text(es.push(e)) == a + log_text(es.drop_first().push(e)));
        assert(log_text(es.drop_first().push(e)) == b + line_of(e) + seq!['\n']);
        assert(b + line_of(e) + seq!['\n'] =~= b + c);
        assert(log_text(es) == a + b);
        assert(a + (b + c) =~= (a + b) + c);
        assert(log_text(es) + line_of(e) + seq!['\n'] =~= (a + b) + c);
    }
}

fn copy_range(cs: &Vec<char>, from: usize, to: usize) -> (r: Vec<char>)
    requires
        from <= to <= cs@.len(),
    ensures
        r@ == cs@.subrange(from as int, to as int),
{
    let mut r: Vec<char> = Vec::new();
    let mut k = from;
    while k < to
        invariant
            from <= k <= to <= cs@.len(),
            r@ == cs@.subrange(from as int, k as int),
        decreases to - k,
    {
        r.push(cs[k]);
        k = k + 1;
        assert(r@ =~= cs@.subrange(from as int, k as int));
    }
    r
}

/// Applies one record to the table.
pub fn apply_entry(table: &mut Table, e: LogEntry)
    requires
        old(table).wf(),
    ensures
        final(table).wf(),
        final(table)@ == apply(old(table)@, e@),
{
    match e {
        LogEntry::Put { key, value } => table.insert(key, value),
        LogEntry::Remove { key } => table.remove(&key),
    }
}

/// Replays the text of a log from its start into a table.
pub fn replay_text(text: &str) -> (r: Result<Table, DatabaseError>)
    ensures
        match log_entries(text@) {
            Some(es) => r is Ok && r->Ok_0.wf() && r->Ok_0@ == replay(es),
            None => r is Err && r->Err_0 == DatabaseError::SystemError,
        },
{
    let cs = chars_of(text);
    let n = cs.len();
    let mut table = Table::new();
    let ghost mut done: Seq<EntryModel> = Seq::empty();
    let mut start: usize = 0;
    let mut i: usize = 0;
    assert(done + Seq::<EntryModel>::empty() =~= Seq::<EntryModel>::empty());
    assert(replay(done) == Map::<Seq<char>, Seq<char>>::empty());
    while i < n
        invariant
            n == cs@.len(),
            cs@ == text@,
            start <= i <= n,
            table.wf(),
            table@ == replay(done),
            log_entries(cs@) == prepend(done, entries_from(cs@, start as int, i as int)),
        decreases n - i,
    {
        if cs[i] == '\n' {
            let line = copy_range(&cs, start, i);
            let e = decode(&line);
            match e {
                Ok(e) => {
                    let ghost m = e@;
                    apply_entry(&mut table, e);
                    proof {
                        let rest = entries_from(cs@, i + 1, i + 1);
                        if rest is Some {
                            assert(done + (seq![m] + rest->0) =~= done.push(m) + rest->0);
                        }
                        assert(done.push(m).drop_last() =~= done);
                        done = done.push(m);
                    }
                    start = i + 1;
                },
                Err(err) => {
                    return Err(err);
                },
            }
        }
        i = i + 1;
    }
    if start < n {
        let line = copy_range(&cs, start, n);
        match decode(&line) {
            Ok(e) => {
                let ghost m = e@;
                apply_entry(&mut table, e);
                proof {
                    assert(done.push(m).drop_last() =~= done);
                    assert(done + seq![m] =~= done.push(m));
                }
            },
            Err(err) => {
                return Err(err);
            },
        }
    } else {
        assert(done + Seq::<EntryModel>::empty() =~= done);
    }
    Ok(table)
}

} // verus!
