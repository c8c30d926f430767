//! One log record per line: `{"Set":{"key":K,"value":V}}` or
//! `{"Remove":{"key":K}}`, where `K` and `V` are JSON string literals.
use vstd::prelude::*;
use vstd::string::*;

use crate::errors::DatabaseError;

verus! {

/// A record of the log.
#[derive(Debug)]
pub enum LogEntry {
    Put { key: String, value: String },
    Remove { key: String },
}

/// What a record says, over the characters of its strings.
pub enum EntryModel {
    Put { key: Seq<char>, value: Seq<char> },
    Remove { key: Seq<char> },
}

impl View for LogEntry {
    type V = EntryModel;

    open spec fn view(&self) -> EntryModel {
        match self {
            LogEntry::Put { key, value } => EntryModel::Put { key: key@, value: value@ },
            LogEntry::Remove { key } => EntryModel::Remove { key: key@ },
        }
    }
}

pub open spec fn hex_digit(n: int) -> char {
    seq!['0', '1', '2', '3', '4', '5', '6', '7', '8', '9', 'a', 'b', 'c', 'd', 'e', 'f'][n]
}

/// How a JSON string literal writes one character.
pub open spec fn escape_char(c: char) -> Seq<char> {
    if c == '"' {
        seq!['\\', '"']
    } else if c == '\\' {
        seq!['\\', '\\']
    } else if c == '\u{8}' {
        seq!['\\', 'b']
    } else if c == '\t' {
        seq!['\\', 't']
    } else if c == '\n' {
        seq!['\\', 'n']
    } else if c == '\u{c}' {
        seq!['\\', 'f']
    } else if c == '\r' {
        seq!['\\', 'r']
    } else if (c as u32) < 0x20 {
        seq!['\\', 'u', '0', '0', hex_digit((c as u32) as int / 16), hex_digit((c as u32) as int % 16)]
    } else {
        seq![c]
    }
}

pub open spec fn escape_str(s: Seq<char>) -> Seq<char>
    decreases s.len(),
{
    if s.len() == 0 {
        Seq::empty()
    } else {
        escape_char(s[0]) + escape_str(s.drop_first())
    }
}

/// The JSON string literal of `s`, quotes included.
pub open spec fn json_quote(s: Seq<char>) -> Seq<char> {
    seq!['"'] + escape_str(s) + seq!['"']
}

/// The string that serde_json reads from the text `s`, if `s` is one JSON
/// string literal.
pub uninterp spec fn json_string_value(s: Seq<char>) -> Option<Seq<char>>;

/// Relies on `serde_json::to_string` on a `String`: it writes the JSON string
/// literal with the escapes of serde_json's escape table, which
/// `serde_json::from_str` reads back; writing into memory, it does not fail.
#[verifier::external_body]
fn quote(s: &String) -> (r: Result<String, serde_json::Error>)
    ensures
        r is Ok,
        r is Ok ==> r->Ok_0@ == json_quote(s@),
        r is Ok ==> json_string_value(r->Ok_0@) == Some(s@),
{
    serde_json::to_string(s)
}

/// Relies on `serde_json::from_str::<String>` on the characters `cs[from..to]`.
#[verifier::external_body]
fn unquote(cs: &Vec<char>, from: usize, to: usize) -> (r: Result<String, serde_json::Error>)
    requires
        from <= to <= cs@.len(),
    ensures
        r is Ok <==> json_string_value(cs@.subrange(from as int, to as int)) is Some,
        r is Ok ==> json_string_value(cs@.subrange(from as int, to as int)) == Some(r->Ok_0@),
{
    let text: String = cs[from..to].iter().collect();
    serde_json::from_str::<String>(&text)
}

/// Relies on `str::chars`: the characters of `s`, in order.
#[verifier::external_body]
pub(crate) fn chars_of(s: &str) -> (r: Vec<char>)
    ensures
        r@ == s@,
{
    s.chars().collect()
}

pub open spec fn set_prefix() -> Seq<char> {
    seq!['{', '"', 'S', 'e', 't', '"', ':', '{', '"', 'k', 'e', 'y', '"', ':']
}

pub open spec fn remove_prefix() -> Seq<char> {
    seq!['{', '"', 'R', 'e', 'm', 'o', 'v', 'e', '"', ':', '{', '"', 'k', 'e', 'y', '"', ':']
}

pub open spec fn value_sep() -> Seq<char> {
    seq![',', '"', 'v', 'a', 'l', 'u', 'e', '"', ':']
}

pub open spec fn closing() -> Seq<char> {
    seq!['}', '}']
}

/// The line (without its newline) that stands for a record.
pub open spec fn line_of(e: EntryModel) -> Seq<char> {
    match e {
        EntryModel::Put { key, value } => set_prefix() + json_quote(key) + value_sep()
            + json_quote(value) + closing(),
        EntryModel::Remove { key } => remove_prefix() + json_quote(key) + closing(),
    }
}

fn set_prefix_str() -> (r: &'static str)
    ensures
        r@ == set_prefix(),
{
    let s = "{\"Set\":{\"key\":";
    proof {
        reveal_strlit("{\"Set\":{\"key\":");
    }
    assert(s@ =~= set_prefix());
    s
}

fn remove_prefix_str() -> (r: &'static str)
    ensures
        r@ == remove_prefix(),
{
    let s = "{\"Remove\":{\"key\":";
    proof {
        reveal_strlit("{\"Remove\":{\"key\":");
    }
    assert(s@ =~= remove_prefix());
    s
}

fn value_sep_str() -> (r: &'static str)
    ensures
        r@ == value_sep(),
{
    let s = ",\"value\":";
    proof {
        reveal_strlit(",\"value\":");
    }
    assert(s@ =~= value_sep());
    s
}

fn closing_str() -> (r: &'static str)
    ensures
        r@ == closing(),
{
    let s = "}}";
    proof {
        reveal_strlit("}}");
    }
    assert(s@ =~= closing());
    s
}

/// Writes a record as one line, without the newline.
pub fn encode(e: &LogEntry) -> (r: String)
    ensures
        r@ == line_of(e@),
        written(e@),
{
    match e {
        LogEntry::Put { key, value } => {
            let qk = match quote(key) {
                Ok(t) => t,
                Err(_) => String::new(),
            };
            let qv = match quote(value) {
                Ok(t) => t,
                Err(_) => String::new(),
            };
            let mut r = String::from_str(set_prefix_str());
            r.append(qk.as_str());
            r.append(value_sep_str());
            r.append(qv.as_str());
            r.append(closing_str());
            r
        },
        LogEntry::Remove { key } => {
            let qk = match quote(key) {
                Ok(t) => t,
                Err(_) => String::new(),
            };
            let mut r = String::from_str(remove_prefix_str());
            r.append(qk.as_str());
            r.append(closing_str());
            r
        },
    }
}

/// The strings of a record read back from their JSON literals, as they do
/// once `encode` has written them.
pub open spec fn written(e: EntryModel) -> bool {
    match e {
        EntryModel::Put { key, value } => json_string_value(json_quote(key)) == Some(key)
            && json_string_value(json_quote(value)) == Some(value),
        EntryModel::Remove { key } => json_string_value(json_quote(key)) == Some(key),
    }
}

/// One past the closing quote of the JSON string literal whose characters
/// start at `i` (just after its opening quote), looking no further than `hi`.
pub open spec fn literal_end(s: Seq<char>, i: int, hi: int) -> Option<int>
    decreases hi - i,
{
    if i < 0 || i >= hi || hi > s.len() {
        None
    } else if s[i] == '"' {
        Some(i + 1)
    } else if s[i] == '\\' {
        let next = if i + 1 < hi && s[i + 1] == 'u' {
            i + 6
        } else {
            i + 2
        };
        if next >= hi {
            None
        } else {
            literal_end(s, next, hi)
        }
    } else {
        literal_end(s, i + 1, hi)
    }
}

/// The record that a line (without its newline) holds, if it holds one.
pub open spec fn line_entry(line: Seq<char>) -> Option<EntryModel> {
    let n = line.len() as int;
    if n >= 16 && line.subrange(0, 14) == set_prefix() && line[14] == '"' {
        match literal_end(line, 15, n) {
            Some(ke) => {
                if ke + 11 <= n && line.subrange(ke, ke + 9) == value_sep() && line.subrange(
                    n - 2,
                    n,
                ) == closing() {
                    match (
                        json_string_value(line.subrange(14, ke)),
                        json_string_value(line.subrange(ke + 9, n - 2)),
                    ) {
                        (Some(k), Some(v)) => Some(EntryModel::Put { key: k, value: v }),
                        _ => None,
                    }
                } else {
                    None
                }
            },
            None => None,
        }
    } else if n >= 19 && line.subrange(0, 17) == remove_prefix() && line.subrange(n - 2, n)
        == closing() {
        match json_string_value(line.subrange(17, n - 2)) {
            Some(k) => Some(EntryModel::Remove { key: k }),
            None => None,
        }
    } else {
        None
    }
}

/// Whether `lit` stands in `cs` from index `i` on.
fn has_at(cs: &Vec<char>, i: usize, lit: &str) -> (r: bool)
    requires
        i <= cs@.len(),
    ensures
        r == (i + lit@.len() <= cs@.len() && cs@.subrange(i as int, i + lit@.len()) == lit@),
{
    let n = lit.unicode_len();
    if n > cs.len() - i {
        return false;
    }
    let mut k: usize = 0;
    while k < n
        invariant
            n == lit@.len(),
            i + n <= cs.len(),
            k <= n,
            forall|j: int| 0 <= j < k ==> cs@[i + j] == lit@[j],
        decreases n - k,
    {
        if cs[i + k] != lit.get_char(k) {
            assert(cs@.subrange(i as int, i + n)[k as int] != lit@[k as int]);
            return false;
        }
        k = k + 1;
    }
    assert(cs@.subrange(i as int, i + n) =~= lit@);
    true
}

/// Finds the end of a JSON string literal, as `literal_end` says.
fn scan_literal(cs: &Vec<char>, start: usize, hi: usize) -> (r: Option<usize>)
    requires
        start <= hi <= cs@.len(),
    ensures
        match r {
            Some(e) => literal_end(cs@, start as int, hi as int) == Some(e as int),
            None => literal_end(cs@, start as int, hi as int) is None,
        },
{
    let mut i = start;
    while i < hi
        invariant
            start <= i,
            hi <= cs@.len(),
            literal_end(cs@, start as int, hi as int) == literal_end(cs@, i as int, hi as int),
        decreases hi - i,
    {
        let c = cs[i];
        if c == '"' {
            return Some(i + 1);
        } else if c == '\\' {
            let step: usize = if i + 1 < hi && cs[i + 1] == 'u' {
                6
            } else {
                2
            };
            if step >= hi - i {
                return None;
            }
            i = i + step;
        } else {
            i = i + 1;
        }
    }
    None
}

/// Reads a record from one line (without its newline).
pub fn decode(line: &Vec<char>) -> (r: Result<LogEntry, DatabaseError>)
    ensures
        match line_entry(line@) {
            Some(m) => r is Ok && r->Ok_0@ == m,
            None => r == Err::<LogEntry, DatabaseError>(DatabaseError::SystemError),
        },
{
    let n = line.len();
    assert(set_prefix().len() == 14);
    assert(remove_prefix().len() == 17);
    assert(value_sep().len() == 9);
    assert(closing().len() == 2);
    if n >= 16 && has_at(line, 0, set_prefix_str()) && line[14] == '"' {
        match scan_literal(line, 15, n) {
            Some(ke) => {
                if ke <= n - 11 && has_at(line, ke, value_sep_str()) && has_at(
                    line,
                    n - 2,
                    closing_str(),
                ) {
                    let k = unquote(line, 14, ke);
                    let v = unquote(line, ke + 9, n - 2);
                    match (k, v) {
                        (Ok(key), Ok(value)) => Ok(LogEntry::Put { key, value }),
                        (Err(e), _) => Err(DatabaseError::from(e)),
                        (_, Err(e)) => Err(DatabaseError::from(e)),
                    }
                } else {
                    Err(DatabaseError::SystemError)
                }
            },
            None => Err(DatabaseError::SystemError),
        }
    } else if n >= 19 && has_at(line, 0, remove_prefix_str()) && has_at(line, n - 2, closing_str()) {
        match unquote(line, 17, n - 2) {
            Ok(key) => Ok(LogEntry::Remove { key }),
            Err(e) => Err(DatabaseError::from(e)),
        }
    } else {
        Err(DatabaseError::SystemError)
    }
}

/// The escapes of a string end where the next unescaped quote stands.
proof fn lemma_literal_end(s: Seq<char>, i: int, hi: int, t: Seq<char>)
    requires
        0 <= i,
        i + escape_str(t).len() < hi <= s.len(),
        s.subrange(i, i + escape_str(t).len()) == escape_str(t),
        s[i + escape_str(t).len()] == '"',
    ensures
        literal_end(s, i, hi) == Some(i + escape_str(t).len() + 1),
    decreases t.len(),
{
    if t.len() > 0 {
        let e = escape_char(t[0]);
        let rest = escape_str(t.drop_first());
        let m = e.len() as int;
        assert(escape_str(t) == e + rest);
        assert forall|k: int| 0 <= k < m implies s[i + k] == e[k] by {
            assert(s.subrange(i, i + escape_str(t).len())[k] == (e + rest)[k]);
        }
        assert forall|k: int| 0 <= k < rest.len() implies s[i + m + k] == rest[k] by {
            assert(s.subrange(i, i + escape_str(t).len())[m + k] == (e + rest)[m + k]);
        }
        assert(s.subrange(i + m, i + m + rest.len()) =~= rest);
        assert(s[i + m + rest.len()] == '"');
        lemma_literal_end(s, i + m, hi, t.drop_first());
        let c = t[0];
        if c == '"' || c == '\\' || c == '\u{8}' || c == '\t' || c == '\n' || c == '\u{c}' || c
            == '\r' {
            assert(m == 2);
            assert(s[i] == '\\');
            assert(s[i + 1] != 'u');
        } else if (c as u32) < 0x20 {
            assert(m == 6);
            assert(s[i] == '\\');
            assert(s[i + 1] == 'u');
        } else {
            assert(e == seq![c]);
            assert(e[0] == c);
            assert(s[i] == c);
        }
    }
}

/// A line that `encode` wrote reads back as the record it was written from.
pub proof fn lemma_line_round_trip(m: EntryModel)
    requires
        written(m),
    ensures
        line_entry(line_of(m)) == Some(m),
{
    let line = line_of(m);
    let n = line.len() as int;
    match m {
        EntryModel::Put { key, value } => {
            let qk = json_quote(key);
            let qv = json_quote(value);
            let ke = 14 + qk.len() as int;
            assert(line == set_prefix() + qk + value_sep() + qv + closing());
            assert(line.subrange(0, 14) =~= set_prefix());
            assert(line[14] == '"');
            assert(line.subrange(15, 15 + escape_str(key).len() as int) =~= escape_str(key));
            lemma_literal_end(line, 15, n, key);
            assert(line.subrange(ke, ke + 9) =~= value_sep());
            assert(line.subrange(n - 2, n) =~= closing());
            assert(line.subrange(14, ke) =~= qk);
            assert(line.subrange(ke + 9, n - 2) =~= qv);
        },
        EntryModel::Remove { key } => {
            let qk = json_quote(key);
            assert(line == remove_prefix() + qk + closing());
            assert(line.subrange(0, 14)[2] != set_prefix()[2]);
            assert(line.subrange(0, 17) =~= remove_prefix());
            assert(line.subrange(n - 2, n) =~= closing());
            assert(line.subrange(17, n - 2) =~= qk);
        },
    }
}

} // verus!
