//! The persisted state: a table mapping content fingerprints to
//! destination-relative paths, its line-based serialized form, and the proof
//! that serializing and parsing are inverse to each other.
//!
//! Serialized form: one entry per line, the fixed-width fingerprint
//! immediately followed by the path, no delimiter, lines in any order.

use vstd::prelude::*;
use crate::bytes::{
    bytes_eq, copy_bytes, copy_range, find_from, first_index_of, lemma_first_index_of_is,
    no_newline, push_all, NEWLINE,
};
use crate::KEY_WIDTH;

verus! {

/// Error of the engine: a persisted state line shorter than the fingerprint
/// width.
#[derive(Debug)]
pub enum SyncError {
    DataCorruption,
}

/// One persisted entry: a content fingerprint and the destination-relative
/// path last synced for that content.
#[derive(Debug)]
pub struct StateEntry {
    pub hash: Vec<u8>,
    pub path: Vec<u8>,
}

/// The state table: a mapping from content fingerprint to
/// destination-relative path, with unique fingerprints.
#[derive(Debug)]
pub struct StateTable {
    pub entries: Vec<StateEntry>,
}

/// A usable fingerprint key: exactly the fingerprint width, and free of line
/// separators.
pub open spec fn wf_key(k: Seq<u8>) -> bool {
    k.len() == KEY_WIDTH && no_newline(k)
}

/// Entries whose keys are usable and unique and whose paths are free of line
/// separators.
pub open spec fn wf_entries(es: Seq<(Seq<u8>, Seq<u8>)>) -> bool {
    &&& forall|i: int| 0 <= i < es.len() ==> wf_key(#[trigger] es[i].0) && no_newline(es[i].1)
    &&& forall|i: int, j: int| 0 <= i < j < es.len() ==> es[i].0 != es[j].0
}

/// The mapping that a sequence of entries denotes, later entries overriding
/// earlier ones.
pub open spec fn map_of(es: Seq<(Seq<u8>, Seq<u8>)>) -> Map<Seq<u8>, Seq<u8>>
    decreases es.len(),
{
    if es.len() == 0 {
        Map::empty()
    } else {
        map_of(es.drop_last()).insert(es.last().0, es.last().1)
    }
}

/// A key under none of the entries is not in the denoted mapping.
pub proof fn lemma_map_of_absent(es: Seq<(Seq<u8>, Seq<u8>)>, k: Seq<u8>)
    requires
        forall|i: int| 0 <= i < es.len() ==> es[i].0 != k,
    ensures
        !map_of(es).contains_key(k),
    decreases es.len(),
{
    if es.len() > 0 {
        assert forall|i: int| 0 <= i < es.drop_last().len() implies es.drop_last()[i].0 != k by {
            assert(es.drop_last()[i] == es[i]);
        }
        lemma_map_of_absent(es.drop_last(), k);
    }
}

/// A key whose entry is the only one with that key is mapped to its value.
pub proof fn lemma_map_of_get(es: Seq<(Seq<u8>, Seq<u8>)>, i: int)
    requires
        0 <= i < es.len(),
        forall|j: int| 0 <= j < es.len() && j != i ==> es[j].0 != es[i].0,
    ensures
        map_of(es).contains_key(es[i].0),
        map_of(es)[es[i].0] == es[i].1,
    decreases es.len(),
{
    if i < es.len() - 1 {
        assert forall|j: int|
            0 <= j < es.drop_last().len() && j != i implies es.drop_last()[j].0
            != es.drop_last()[i].0 by {
            assert(es.drop_last()[j] == es[j]);
        }
        lemma_map_of_get(es.drop_last(), i);
        assert(es.last().0 != es[i].0);
    }
}

/// Replacing the value of the entry holding a key replaces that key's value
/// in the denoted mapping.
proof fn lemma_map_of_update(es: Seq<(Seq<u8>, Seq<u8>)>, i: int, k: Seq<u8>, v: Seq<u8>)
    requires
        0 <= i < es.len(),
        es[i].0 == k,
        forall|j: int| 0 <= j < es.len() && j != i ==> es[j].0 != k,
    ensures
        map_of(es.update(i, (k, v))) == map_of(es).insert(k, v),
    decreases es.len(),
{
    let es2 = es.update(i, (k, v));
    if i == es.len() - 1 {
        assert(es2.drop_last() =~= es.drop_last());
        assert(map_of(es.drop_last()).insert(k, es[i].1).insert(k, v) =~= map_of(
            es.drop_last(),
        ).insert(k, v));
    } else {
        assert(es2.drop_last() =~= es.drop_last().update(i, (k, v)));
        assert forall|j: int|
            0 <= j < es.drop_last().len() && j != i implies es.drop_last()[j].0 != k by {
            assert(es.drop_last()[j] == es[j]);
        }
        lemma_map_of_update(es.drop_last(), i, k, v);
        let last = es.last();
        assert(last.0 != k);
        assert(map_of(es.drop_last()).insert(k, v).insert(last.0, last.1) =~= map_of(
            es.drop_last(),
        ).insert(last.0, last.1).insert(k, v));
    }
}

impl StateTable {
    /// The entries as a sequence of (fingerprint, path) pairs.
    pub open spec fn entry_seq(self) -> Seq<(Seq<u8>, Seq<u8>)> {
        self.entries@.map(|i: int, e: StateEntry| (e.hash@, e.path@))
    }

    /// Well-formed table: usable, unique keys and separator-free paths.
    pub open spec fn wf(self) -> bool {
        wf_entries(self.entry_seq())
    }

    /// The mapping the table holds.
    pub open spec fn as_map(self) -> Map<Seq<u8>, Seq<u8>> {
        map_of(self.entry_seq())
    }

    /// An empty table.
    pub fn new() -> (r: StateTable)
        ensures
            r.wf(),
            r.as_map() == Map::<Seq<u8>, Seq<u8>>::empty(),
            r.entry_seq() == Seq::<(Seq<u8>, Seq<u8>)>::empty(),
    {
        let r = StateTable { entries: Vec::new() };
        proof {
            assert(r.entry_seq() =~= Seq::<(Seq<u8>, Seq<u8>)>::empty());
        }
        r
    }

    /// The path stored under a fingerprint, if any.
    pub fn get(&self, hash: &Vec<u8>) -> (r: Option<Vec<u8>>)
        requires
            self.wf(),
        ensures
            match r {
                Some(p) => self.as_map().contains_key(hash@) && p@ == self.as_map()[hash@],
                None => !self.as_map().contains_key(hash@),
            },
    {
        let mut i: usize = 0;
        while i < self.entries.len()
            invariant
                self.wf(),
                i <= self.entries@.len(),
                forall|j: int| 0 <= j < i ==> self.entry_seq()[j].0 != hash@,
            decreases self.entries@.len() - i,
        {
            if bytes_eq(&self.entries[i].hash, hash) {
                proof {
                    lemma_map_of_get(self.entry_seq(), i as int);
                }
                return Some(copy_bytes(&self.entries[i].path));
            }
            i = i + 1;
        }
        proof {
            lemma_map_of_absent(self.entry_seq(), hash@);
        }
        None
    }

    /// Insert a fingerprint-to-path binding; an existing binding of the same
    /// fingerprint is replaced (last write wins). Returns whether one
    /// existed.
    pub fn insert(&mut self, hash: Vec<u8>, path: Vec<u8>) -> (collision: bool)
        requires
            old(self).wf(),
            wf_key(hash@),
            no_newline(path@),
        ensures
            final(self).wf(),
            final(self).as_map() == old(self).as_map().insert(hash@, path@),
            collision == old(self).as_map().contains_key(hash@),
    {
        let ghost k = hash@;
        let ghost v = path@;
        let ghost es0 = old(self).entry_seq();
        let mut i: usize = 0;
        while i < self.entries.len()
            invariant
                self.entry_seq() == es0,
                es0 == old(self).entry_seq(),
                wf_entries(es0),
                wf_key(k),
                no_newline(v),
                hash@ == k,
                path@ == v,
                i <= self.entries@.len(),
                forall|j: int| 0 <= j < i ==> es0[j].0 != k,
            decreases self.entries@.len() - i,
        {
            if bytes_eq(&self.entries[i].hash, &hash) {
                proof {
                    assert(es0[i as int].0 == self.entries@[i as int].hash@);
                    assert(es0[i as int].0 == k);
                    assert forall|j: int| 0 <= j < es0.len() && j != i implies es0[j].0 != k by {
                        if j > i {
                            assert(es0[i as int].0 != es0[j].0);
                        }
                    }
                    lemma_map_of_get(es0, i as int);
                    lemma_map_of_update(es0, i as int, k, v);
                }
                let mut e = self.entries.remove(i);
                e.path = path;
                self.entries.insert(i, e);
                proof {
                    assert(self.entry_seq() =~= es0.update(i as int, (k, v)));
                    let es1 = self.entry_seq();
                    assert forall|a: int|
                        0 <= a < es1.len() implies wf_key(#[trigger] es1[a].0) && no_newline(
                        es1[a].1,
                    ) by {
                        if a != i {
                            assert(es1[a] == es0[a]);
                        }
                    }
                    assert forall|a: int, b: int|
                        0 <= a < b < es1.len() implies es1[a].0 != es1[b].0 by {
                        assert(es1[a].0 == es0[a].0);
                        assert(es1[b].0 == es0[b].0);
                    }
                }
                return true;
            }
            i = i + 1;
        }
        proof {
            lemma_map_of_absent(es0, k);
        }
        self.entries.push(StateEntry { hash, path });
        proof {
            assert(self.entry_seq() =~= es0.push((k, v)));
            assert(self.entry_seq().drop_last() =~= es0);
            let es1 = self.entry_seq();
            assert forall|a: int|
                0 <= a < es1.len() implies wf_key(#[trigger] es1[a].0) && no_newline(es1[a].1) by {
                if a < es0.len() {
                    assert(es1[a] == es0[a]);
                }
            }
            assert forall|a: int, b: int| 0 <= a < b < es1.len() implies es1[a].0 != es1[b].0 by {
                if b < es0.len() {
                    assert(es1[a] == es0[a]);
                    assert(es1[b] == es0[b]);
                } else {
                    assert(es1[a] == es0[a]);
                    assert(es1[b].0 == k);
                }
            }
        }
        false
    }

    /// The number of entries.
    pub fn len(&self) -> (r: usize)
        ensures
            r == self.entry_seq().len(),
    {
        self.entries.len()
    }
}

/// The serialized form of one entry: fingerprint, path, line separator.
pub open spec fn line_of(key: Seq<u8>, val: Seq<u8>) -> Seq<u8> {
    key + val + seq![NEWLINE]
}

/// The serialized form of a sequence of entries.
pub open spec fn serialize_spec(es: Seq<(Seq<u8>, Seq<u8>)>) -> Seq<u8>
    decreases es.len(),
{
    if es.len() == 0 {
        Seq::empty()
    } else {
        line_of(es[0].0, es[0].1) + serialize_spec(es.drop_first())
    }
}

/// Serialization appends one line per appended entry.
pub proof fn lemma_serialize_push(es: Seq<(Seq<u8>, Seq<u8>)>, k: Seq<u8>, v: Seq<u8>)
    ensures
        serialize_spec(es.push((k, v))) == serialize_spec(es) + line_of(k, v),
    decreases es.len(),
{
    if es.len() == 0 {
        assert(es.push((k, v))[0] == (k, v));
        assert(es.push((k, v)).drop_first() =~= Seq::<(Seq<u8>, Seq<u8>)>::empty());
        assert(serialize_spec(es.push((k, v))) == line_of(k, v) + serialize_spec(
            es.push((k, v)).drop_first(),
        ));
        assert(serialize_spec(es) == Seq::<u8>::empty());
        assert(line_of(k, v) + Seq::<u8>::empty() =~= Seq::<u8>::empty() + line_of(k, v));
    } else {
        assert(es.push((k, v))[0] == es[0]);
        assert(es.push((k, v)).drop_first() =~= es.drop_first().push((k, v)));
        lemma_serialize_push(es.drop_first(), k, v);
        assert(serialize_spec(es.push((k, v))) == line_of(es[0].0, es[0].1) + serialize_spec(
            es.drop_first().push((k, v)),
        ));
        assert(serialize_spec(es) == line_of(es[0].0, es[0].1) + serialize_spec(es.drop_first()));
        assert(line_of(es[0].0, es[0].1) + (serialize_spec(es.drop_first()) + line_of(k, v)) =~= (
        line_of(es[0].0, es[0].1) + serialize_spec(es.drop_first())) + line_of(k, v));
    }
}

/// The persisted form of a table: one line per entry, fingerprint
/// immediately followed by the path.
pub fn serialize_table(t: &StateTable) -> (r: Vec<u8>)
    ensures
        r@ == serialize_spec(t.entry_seq()),
{
    let mut out: Vec<u8> = Vec::new();
    let mut i: usize = 0;
    while i < t.entries.len()
        invariant
            i <= t.entries@.len(),
            out@ == serialize_spec(t.entry_seq().take(i as int)),
        decreases t.entries@.len() - i,
    {
        push_all(&mut out, &t.entries[i].hash);
        push_all(&mut out, &t.entries[i].path);
        out.push(NEWLINE);
        proof {
            let es = t.entry_seq();
            assert(es.take(i as int + 1) =~= es.take(i as int).push(es[i as int]));
            lemma_serialize_push(es.take(i as int), es[i as int].0, es[i as int].1);
            assert(out@ =~= serialize_spec(es.take(i as int)) + line_of(
                es[i as int].0,
                es[i as int].1,
            ));
        }
        i = i + 1;
    }
    proof {
        assert(t.entry_seq().take(t.entries@.len() as int) =~= t.entry_seq());
    }
    out
}

/// The entries that a serialized state denotes, or nothing when some line is
/// shorter than the fingerprint width. Each line contributes the entry whose
/// fingerprint is the line's first `KEY_WIDTH` bytes and whose path is the
/// remainder; a final line may lack the trailing separator.
pub open spec fn parse_spec(s: Seq<u8>) -> Option<Seq<(Seq<u8>, Seq<u8>)>>
    decreases s.len(),
{
    if s.len() == 0 {
        Some(Seq::empty())
    } else {
        let i = first_index_of(s, NEWLINE);
        if i < KEY_WIDTH as int {
            None
        } else {
            let key = s.subrange(0, KEY_WIDTH as int);
            let val = s.subrange(KEY_WIDTH as int, i);
            let rest = if i < s.len() {
                s.subrange(i + 1, s.len() as int)
            } else {
                Seq::empty()
            };
            match parse_spec(rest) {
                None => None,
                Some(es) => Some(seq![(key, val)] + es),
            }
        }
    }
}

/// Read a serialized state back into a table. Fails exactly when some line
/// is shorter than the fingerprint width; otherwise the table holds the
/// mapping the lines denote, later lines overriding earlier ones.
pub fn parse_table(data: &Vec<u8>) -> (r: Result<StateTable, SyncError>)
    ensures
        parse_spec(data@) matches Some(es) ==> r matches Ok(t) && t.wf() && t.as_map() == map_of(
            es,
        ),
        parse_spec(data@) is None ==> r is Err,
{
    let n = data.len();
    let mut table = StateTable::new();
    let mut pos: usize = 0;
    let ghost mut done: Seq<(Seq<u8>, Seq<u8>)> = Seq::empty();
    proof {
        assert(data@.subrange(0, n as int) =~= data@);
        if parse_spec(data@) is Some {
            let rest = parse_spec(data@)->Some_0;
            assert(done + rest =~= rest);
        }
    }
    while pos < n
        invariant
            pos <= n,
            n == data@.len(),
            table.wf(),
            table.as_map() == map_of(done),
            match parse_spec(data@.subrange(pos as int, n as int)) {
                Some(rest) => parse_spec(data@) == Some(done + rest),
                None => parse_spec(data@) is None,
            },
        decreases n - pos,
    {
        let ghost suffix = data@.subrange(pos as int, n as int);
        let found = find_from(data, pos, NEWLINE);
        let has_nl = found.is_some();
        let line_end: usize = match found {
            Some(i) => i,
            None => n,
        };
        proof {
            let e = line_end as int - pos as int;
            assert forall|j: int| 0 <= j < e implies suffix[j] != NEWLINE by {
                assert(suffix[j] == data@[pos + j]);
            }
            if has_nl {
                assert(suffix[e] == data@[line_end as int]);
            }
            lemma_first_index_of_is(suffix, NEWLINE, e);
        }
        if line_end - pos < KEY_WIDTH {
            return Err(SyncError::DataCorruption);
        }
        let key = copy_range(data, pos, pos + KEY_WIDTH);
        let val = copy_range(data, pos + KEY_WIDTH, line_end);
        let ghost k = key@;
        let ghost v = val@;
        let next_pos: usize = if has_nl {
            line_end + 1
        } else {
            n
        };
        proof {
            let e = line_end as int - pos as int;
            let next_suffix = data@.subrange(next_pos as int, n as int);
            assert forall|j: int| 0 <= j < k.len() implies k[j] != NEWLINE by {
                assert(k[j] == data@[pos + j]);
            }
            assert forall|j: int| 0 <= j < v.len() implies v[j] != NEWLINE by {
                assert(v[j] == data@[pos + KEY_WIDTH + j]);
            }
            assert(k =~= suffix.subrange(0, KEY_WIDTH as int));
            assert(v =~= suffix.subrange(KEY_WIDTH as int, e));
            if has_nl {
                assert(suffix.subrange(e + 1, suffix.len() as int) =~= next_suffix);
            } else {
                assert(next_suffix =~= Seq::<u8>::empty());
            }
            assert(parse_spec(suffix) == match parse_spec(next_suffix) {
                None => None::<Seq<(Seq<u8>, Seq<u8>)>>,
                Some(es) => Some(seq![(k, v)] + es),
            });
        }
        table.insert(key, val);
        proof {
            let next_suffix = data@.subrange(next_pos as int, n as int);
            if parse_spec(next_suffix) is Some {
                let rest = parse_spec(next_suffix)->Some_0;
                assert(parse_spec(data@) == Some(done + (seq![(k, v)] + rest)));
                assert(done + (seq![(k, v)] + rest) =~= done.push((k, v)) + rest);
            }
            let done0 = done;
            done = done.push((k, v));
            assert(done.drop_last() =~= done0);
        }
        pos = next_pos;
    }
    proof {
        assert(data@.subrange(pos as int, n as int) =~= Seq::<u8>::empty());
        if parse_spec(data@) is Some {
            let es = parse_spec(data@)->Some_0;
            assert(done + Seq::<(Seq<u8>, Seq<u8>)>::empty() =~= done);
            assert(es == done);
        }
    }
    Ok(table)
}

/// Parsing the serialized form of entries with usable fingerprints and
/// separator-free paths gives back exactly those entries.
pub proof fn lemma_parse_of_serialize(es: Seq<(Seq<u8>, Seq<u8>)>)
    requires
        forall|i: int| 0 <= i < es.len() ==> wf_key(#[trigger] es[i].0) && no_newline(es[i].1),
    ensures
        parse_spec(serialize_spec(es)) == Some(es),
    decreases es.len(),
{
    if es.len() > 0 {
        let s = serialize_spec(es);
        let k = es[0].0;
        let v = es[0].1;
        let rest_bytes = serialize_spec(es.drop_first());
        assert(s == line_of(k, v) + rest_bytes);
        let i = k.len() as int + v.len() as int;
        assert forall|j: int| 0 <= j < i implies s[j] != NEWLINE by {
            assert(s[j] == line_of(k, v)[j]);
            if j < k.len() {
                assert(line_of(k, v)[j] == k[j]);
            } else {
                assert(line_of(k, v)[j] == v[j - k.len()]);
            }
        }
        assert(s[i as int] == line_of(k, v)[i as int]);
        assert(s[i as int] == NEWLINE);
        lemma_first_index_of_is(s, NEWLINE, i as int);
        assert(s.subrange(0, KEY_WIDTH as int) =~= k);
        assert(s.subrange(KEY_WIDTH as int, i as int) =~= v);
        assert(i + 1 <= s.len());
        assert(s.subrange(i + 1, s.len() as int) =~= rest_bytes);
        assert forall|j: int|
            0 <= j < es.drop_first().len() implies wf_key(#[trigger] es.drop_first()[j].0)
            && no_newline(es.drop_first()[j].1) by {
            assert(es.drop_first()[j] == es[j + 1]);
        }
        lemma_parse_of_serialize(es.drop_first());
        assert(seq![(k, v)] + es.drop_first() =~= es);
    }
}

/// ROUND TRIP: the persisted form of a well-formed table parses back to
/// exactly the table's entries, and so to a table holding the same mapping.
pub proof fn lemma_state_round_trip(t: StateTable)
    requires
        t.wf(),
    ensures
        parse_spec(serialize_spec(t.entry_seq())) == Some(t.entry_seq()),
        map_of(t.entry_seq()) == t.as_map(),
{
    lemma_parse_of_serialize(t.entry_seq());
}

} // verus!
