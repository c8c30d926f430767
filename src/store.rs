//! The store: the cache of the log, the records it asks to append, and the
//! compaction policy. Reading and writing the file is left to the caller,
//! which hands over the file's size and text and writes what it is given.
use vstd::prelude::*;

use crate::codec::{encode, line_of, written, EntryModel, LogEntry};
use crate::errors::DatabaseError;
use crate::log::{
    all_written, apply, apply_entry, lemma_log_text_push, lemma_replay_log, log_entries,
    log_replay, log_text, replay, replay_text,
};
use crate::table::Table;

verus! {

/// Above this many bytes a log is worth compacting.
pub const FILE_SIZE_THRESHOLD: u64 = 100_000;

/// Whether the log is compacted: always when forced, else when it is larger
/// than the threshold and fewer than half of its records are live keys.
pub open spec fn compaction_due(forced: bool, file_size: u64, live: nat, records: nat) -> bool {
    forced || (file_size > FILE_SIZE_THRESHOLD && 2 * live < records)
}

/// The records that a compaction writes for the map `m`: one `Put` per key.
pub open spec fn is_rewrite(es: Seq<EntryModel>, m: Map<Seq<char>, Seq<char>>) -> bool {
    &&& es.len() == m.len()
    &&& all_written(es)
    &&& forall|k: int| 0 <= k < es.len() ==> #[trigger] es[k] is Put
    &&& replay(es) == m
}

/// A record to append to the log, with its line.
pub struct PendingWrite {
    entry: LogEntry,
    line: String,
}

impl PendingWrite {
    #[verifier::type_invariant]
    closed spec fn inv(&self) -> bool {
        &&& self.line@ == line_of(self.entry@) + seq!['\n']
        &&& written(self.entry@)
    }

    /// The record.
    pub closed spec fn record(&self) -> EntryModel {
        self.entry@
    }

    fn new(entry: LogEntry) -> (r: PendingWrite)
        ensures
            r.record() == entry@,
    {
        let mut line = encode(&entry);
        let nl = "\n";
        proof {
            reveal_strlit("\n");
        }
        assert(nl@ =~= seq!['\n']);
        line.append(nl);
        PendingWrite { entry, line }
    }

    /// The line to append to the file, newline included.
    pub fn line(&self) -> (r: &str)
        ensures
            r@ == line_of(self.record()) + seq!['\n'],
    {
        proof {
            use_type_invariant(self);
        }
        self.line.as_str()
    }
}

pub struct KvStore {
    cache: Table,
    log_entry_count: usize,
    log: Ghost<Seq<EntryModel>>,
}

impl View for KvStore {
    type V = Map<Seq<char>, Seq<char>>;

    closed spec fn view(&self) -> Map<Seq<char>, Seq<char>> {
        self.cache@
    }
}

impl KvStore {
    /// The cache is the replay of the records written since the file was
    /// last rewritten.
    pub closed spec fn wf(&self) -> bool {
        &&& self.cache.wf()
        &&& self.cache@ == replay(self.log@)
        &&& all_written(self.log@)
    }

    /// The records this store has had written since the file was last rewritten.
    pub closed spec fn records(&self) -> Seq<EntryModel> {
        self.log@
    }

    /// The count of records appended since the file was last rewritten.
    pub closed spec fn entry_count(&self) -> nat {
        self.log_entry_count as nat
    }

    /// The text of the records that the store has had written replays to its
    /// cache: opening that file again gives the same map.
    pub proof fn lemma_reopen(&self)
        requires
            self.wf(),
        ensures
            log_replay(log_text(self.records())) == Some(self@),
    {
        lemma_replay_log(self.log@);
    }

    /// A store of an empty log.
    pub fn new() -> (r: KvStore)
        ensures
            r.wf(),
            r@ == Map::<Seq<char>, Seq<char>>::empty(),
            r.records() == Seq::<EntryModel>::empty(),
            r.entry_count() == 0,
    {
        KvStore { cache: Table::new(), log_entry_count: 0, log: Ghost(Seq::empty()) }
    }

    /// Opens a store on the text of its log file: replays the text and gives
    /// back the compacted text to write in its place.
    pub fn open(text: &str) -> (r: Result<(KvStore, String), DatabaseError>)
        ensures
            match log_replay(text@) {
                Some(m) => r is Ok && r->Ok_0.0.wf() && r->Ok_0.0@ == m && r->Ok_0.0.entry_count()
                    == m.len() && is_rewrite(r->Ok_0.0.records(), m) && r->Ok_0.1@ == log_text(
                    r->Ok_0.0.records(),
                ),
                None => r is Err && r->Err_0 == DatabaseError::SystemError,
            },
    {
        let mut store = KvStore::new();
        match store.compact_and_read_cache(text) {
            Ok(content) => Ok((store, content)),
            Err(e) => Err(e),
        }
    }

    /// The value of `key`, or `None`; never an error.
    pub fn get(&self, key: String) -> (r: Result<Option<String>, DatabaseError>)
        requires
            self.wf(),
        ensures
            r is Ok,
            r matches Ok(Some(v)) ==> self@.contains_key(key@) && v@ == self@[key@],
            r matches Ok(None) ==> !self@.contains_key(key@),
    {
        Ok(self.cache.get(&key))
    }

    /// The record that sets `key` to `value`, to be appended and then committed.
    pub fn set(&self, key: String, value: String) -> (r: PendingWrite)
        ensures
            r.record() == (EntryModel::Put { key: key@, value: value@ }),
    {
        PendingWrite::new(LogEntry::Put { key, value })
    }

    /// The record that removes `key`, or `KeyNotFound` if the store does not
    /// hold it, in which case nothing is to be written.
    pub fn remove(&self, key: String) -> (r: Result<PendingWrite, DatabaseError>)
        requires
            self.wf(),
        ensures
            self@.contains_key(key@) <==> r is Ok,
            r matches Ok(w) ==> w.record() == (EntryModel::Remove { key: key@ }),
            r matches Err(e) ==> e == DatabaseError::KeyNotFound,
    {
        match self.get(key.clone()) {
            Ok(Some(_)) => Ok(PendingWrite::new(LogEntry::Remove { key })),
            _ => Err(DatabaseError::KeyNotFound),
        }
    }

    /// Takes in a record once its line is appended: the cache applies it and
    /// the record count grows by one (it stays at its largest value).
    pub fn commit(&mut self, w: PendingWrite)
        requires
            old(self).wf(),
        ensures
            final(self).wf(),
            final(self)@ == apply(old(self)@, w.record()),
            final(self).records() == old(self).records().push(w.record()),
            final(self).entry_count() == if old(self).entry_count() < usize::MAX {
                old(self).entry_count() + 1
            } else {
                old(self).entry_count()
            },
    {
        proof {
            use_type_invariant(&w);
        }
        let ghost m = w.entry@;
        apply_entry(&mut self.cache, w.entry);
        if self.log_entry_count < usize::MAX {
            self.log_entry_count = self.log_entry_count + 1;
        }
        proof {
            assert(self.log@.push(m).drop_last() =~= self.log@);
            assert forall|k: int| 0 <= k < self.log@.push(m).len() implies #[trigger] written(
                self.log@.push(m)[k],
            ) by {
                if k < self.log@.len() {
                    assert(self.log@.push(m)[k] == self.log@[k]);
                }
            }
            self.log = Ghost(self.log@.push(m));
        }
    }

    /// Whether the log, now `file_size` bytes long, is to be compacted.
    pub fn should_compact_and_read_cache(&self, force_compaction: bool, file_size: u64) -> (r:
        bool)
        requires
            self.wf(),
        ensures
            r == compaction_due(force_compaction, file_size, self@.len(), self.entry_count()),
    {
        force_compaction || (file_size > FILE_SIZE_THRESHOLD && self.cache.len()
            < self.log_entry_count && self.log_entry_count - self.cache.len()
            > self.cache.len())
    }

    /// Compacts the log whose text is `text`: the cache becomes the text's
    /// replay, and the result is the text to write in place of the file, one
    /// record per live key. On an error the store is left as it was.
    pub fn compact_and_read_cache(&mut self, text: &str) -> (r: Result<String, DatabaseError>)
        requires
            old(self).wf(),
        ensures
            final(self).wf(),
            match log_replay(text@) {
                Some(m) => r is Ok && final(self)@ == m && final(self).entry_count() == m.len()
                    && is_rewrite(final(self).records(), m) && r->Ok_0@ == log_text(
                    final(self).records(),
                ),
                None => r is Err && r->Err_0 == DatabaseError::SystemError && *final(self) == *old(
                    self,
                ),
            },
            text@ == log_text(old(self).records()) ==> final(self)@ == old(self)@,
    {
        proof {
            lemma_replay_log(self.log@);
        }
        match replay_text(text) {
            Ok(table) => {
                let (content, es) = rewrite(&table);
                self.log_entry_count = table.len();
                self.cache = table;
                self.log = es;
                Ok(content)
            },
            Err(e) => Err(e),
        }
    }
}

/// The text of a log holding one `Put` per key of `t`.
fn rewrite(t: &Table) -> (r: (String, Ghost<Seq<EntryModel>>))
    requires
        t.wf(),
    ensures
        is_rewrite(r.1@, t@),
        r.0@ == log_text(r.1@),
{
    let n = t.len();
    let mut content = String::new();
    let ghost mut es: Seq<EntryModel> = Seq::empty();
    proof {
        t.lemma_pairs();
    }
    let mut i: usize = 0;
    while i < n
        invariant
            n == t@.len(),
            t.wf(),
            i <= n,
            es.len() == i,
            content@ == log_text(es),
            all_written(es),
            forall|k: int| 0 <= k < i ==> #[trigger] es[k] is Put,
            forall|k: int|
                0 <= k < i ==> #[trigger] replay(es).contains_key(t.pair_at(k).0) && replay(
                    es,
                )[t.pair_at(k).0] == t.pair_at(k).1,
            forall|key: Seq<char>| #[trigger]
                replay(es).contains_key(key) ==> exists|k: int| 0 <= k < i && t.pair_at(k).0 == key,
            forall|a: int, b: int| 0 <= a < b < n ==> t.pair_at(a).0 != t.pair_at(b).0,
        decreases n - i,
    {
        let (key, value) = t.entry(i);
        let w = PendingWrite::new(LogEntry::Put { key: key.clone(), value: value.clone() });
        proof {
            use_type_invariant(&w);
        }
        content.append(w.line());
        proof {
            let e = w.entry@;
            let es2 = es.push(e);
            lemma_log_text_push(es, e);
            assert(content@ =~= log_text(es) + line_of(e) + seq!['\n']);
            assert(es2.drop_last() =~= es);
            assert(replay(es2) == replay(es).insert(key@, value@));
            assert forall|k: int| 0 <= k < es2.len() implies #[trigger] written(es2[k]) by {
                if k < es.len() {
                    assert(es2[k] == es[k]);
                }
            }
            assert forall|k: int| 0 <= k < es2.len() implies #[trigger] es2[k] is Put by {
                if k < es.len() {
                    assert(es2[k] == es[k]);
                }
            }
            assert forall|k: int| 0 <= k < i + 1 implies #[trigger] replay(es2).contains_key(
                t.pair_at(k).0,
            ) && replay(es2)[t.pair_at(k).0] == t.pair_at(k).1 by {
                if k < i {
                    assert(t.pair_at(k).0 != t.pair_at(i as int).0);
                }
            }
            assert forall|kk: Seq<char>| #[trigger] replay(es2).contains_key(kk) implies exists|
                k: int,
            | 0 <= k < i + 1 && t.pair_at(k).0 == kk by {
                if kk != key@ {
                    assert(replay(es).contains_key(kk));
                } else {
                    assert(t.pair_at(i as int).0 == kk);
                }
            }
            es = es2;
        }
        i = i + 1;
    }
    proof {
        assert forall|key: Seq<char>| #[trigger] replay(es).contains_key(key) implies t@.contains_key(key) by {
            let k = choose|k: int| 0 <= k < i && t.pair_at(k).0 == key;
        }
        assert forall|key: Seq<char>| t@.contains_key(key) implies #[trigger] replay(es).contains_key(key) by {
            let k = choose|k: int| 0 <= k < t@.len() && t.pair_at(k).0 == key;
        }
        assert(replay(es) =~= t@);
    }
    (content, Ghost(es))
}

/// Once compacted, a log is not compacted again until records are added:
/// its record count is its count of live keys.
pub proof fn lemma_compaction_settles(m: Map<Seq<char>, Seq<char>>, file_size: u64)
    ensures
        !compaction_due(false, file_size, m.len(), m.len()),
{
}

/// The text that a compaction writes replays to the map it was made from.
pub proof fn lemma_rewrite_replays(es: Seq<EntryModel>, m: Map<Seq<char>, Seq<char>>)
    requires
        is_rewrite(es, m),
    ensures
        log_replay(log_text(es)) == Some(m),
        log_entries(log_text(es)) == Some(es),
{
    lemma_replay_log(es);
}

} // verus!
