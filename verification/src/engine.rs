//! The engine: the public operation surface over one append-only log and its
//! in-memory index.
//!
//! The store owns the log's bytes and the index. Opening hands it the bytes
//! of the backing file; every mutation appends one encoded record to the
//! bytes it owns, and the caller keeping a file appends the same bytes there.
//! `load` replays the whole log through the codec to rebuild the index;
//! `get`, `insert`, `update` and `delete` route through the index, and `find`
//! re-derives one key's latest record by a full scan.

use vstd::prelude::*;

use crate::codec::{
    decode_error_at, encode_record, encoded, process_record, record_end, record_key, record_value,
    valid_record_at, KeyValuePair, StoreError,
};
use crate::codec::{lemma_record_at_append, lemma_record_unaffected_by_append};
use crate::index::Index;

verus! {

/// Where a scan that starts at `pos` stops: the first position, reached by
/// stepping over valid records, where no further valid record starts. A scan
/// of an intact log stops exactly at the log's length.
pub open spec fn scan_end(log: Seq<u8>, pos: int) -> int
    decreases log.len() - pos,
{
    if pos < 0 || pos >= log.len() || !valid_record_at(log, pos) {
        pos
    } else {
        scan_end(log, record_end(log, pos))
    }
}

/// The index that replaying the log from `pos` builds: each key maps to the
/// offset of its last record before the scan stops. A later record for the
/// same key wins over an earlier one.
pub open spec fn replay_from(log: Seq<u8>, pos: int) -> Map<Seq<u8>, u64>
    decreases log.len() - pos,
{
    if pos < 0 || pos >= log.len() || !valid_record_at(log, pos) {
        Map::empty()
    } else {
        let rest = replay_from(log, record_end(log, pos));
        if rest.dom().contains(record_key(log, pos)) {
            rest
        } else {
            rest.insert(record_key(log, pos), pos as u64)
        }
    }
}

/// The log is intact: scanning from offset 0 reaches the clean end of the
/// log, with every record along the way complete and checksum-verified.
pub open spec fn log_ok(log: Seq<u8>) -> bool {
    scan_end(log, 0) == log.len()
}

/// The corruption a full scan of a non-intact log reports: the decode error
/// at the position where the scan stops.
pub open spec fn scan_error(log: Seq<u8>) -> StoreError {
    decode_error_at(log, scan_end(log, 0))
}

/// What an exhaustive scan finds for `key`: the offset and value of the
/// key's last record, or nothing when no record carries the key.
pub open spec fn spec_find(log: Seq<u8>, key: Seq<u8>) -> Option<(u64, Seq<u8>)> {
    if replay_from(log, 0).dom().contains(key) {
        let p = replay_from(log, 0)[key];
        Some((p, record_value(log, p as int)))
    } else {
        None
    }
}

/// Every offset the replayed index holds points back into the scanned part
/// of the log, at a valid record carrying exactly that key.
pub proof fn lemma_replay_from_valid(log: Seq<u8>, pos: int)
    requires
        log.len() <= u64::MAX,
    ensures
        forall|k: Seq<u8>| #[trigger] replay_from(log, pos).dom().contains(k) ==> {
            let p = replay_from(log, pos)[k] as int;
            &&& pos <= p < log.len()
            &&& valid_record_at(log, p)
            &&& record_key(log, p) == k
        },
    decreases log.len() - pos,
{
    if pos < 0 || pos >= log.len() || !valid_record_at(log, pos) {
    } else {
        let end = record_end(log, pos);
        lemma_replay_from_valid(log, end);
        let rest = replay_from(log, end);
        assert forall|k: Seq<u8>| #[trigger] replay_from(log, pos).dom().contains(k) implies {
            let p = replay_from(log, pos)[k] as int;
            &&& pos <= p < log.len()
            &&& valid_record_at(log, p)
            &&& record_key(log, p) == k
        } by {
            if rest.dom().contains(k) {
                assert(replay_from(log, pos)[k] == rest[k]);
            } else {
                assert(k == record_key(log, pos));
                assert(replay_from(log, pos)[k] == pos as u64);
            }
        }
    }
}

/// Appending bytes to an intact log leaves its scan following the same
/// records up to the old end; what the whole scan then builds is the old
/// replay overridden by whatever replaying the appended part builds.
proof fn lemma_scan_extend_from(log: Seq<u8>, tail: Seq<u8>, pos: int)
    requires
        0 <= pos <= log.len(),
        scan_end(log, pos) == log.len(),
    ensures
        scan_end(log + tail, pos) == scan_end(log + tail, log.len() as int),
        replay_from(log + tail, pos) == replay_from(log, pos).union_prefer_right(
            replay_from(log + tail, log.len() as int),
        ),
    decreases log.len() - pos,
{
    let l2 = log + tail;
    if pos == log.len() {
        assert(replay_from(log, pos) == Map::<Seq<u8>, u64>::empty());
        assert(replay_from(log, pos).union_prefer_right(replay_from(l2, pos)) =~= replay_from(
            l2,
            pos,
        ));
    } else {
        assert(valid_record_at(log, pos));
        lemma_record_unaffected_by_append(log, tail, pos);
        let end = record_end(log, pos);
        assert(scan_end(log, end) == log.len());
        lemma_scan_extend_from(log, tail, end);
        let k = record_key(log, pos);
        let r_log = replay_from(log, end);
        let r_tail = replay_from(l2, log.len() as int);
        assert(replay_from(l2, end) == r_log.union_prefer_right(r_tail));
        if r_tail.dom().contains(k) {
            assert(replay_from(l2, pos) =~= replay_from(log, pos).union_prefer_right(r_tail));
        } else if r_log.dom().contains(k) {
            assert(replay_from(l2, pos) =~= replay_from(log, pos).union_prefer_right(r_tail));
        } else {
            assert(replay_from(l2, pos) =~= replay_from(log, pos).union_prefer_right(r_tail));
        }
    }
}

/// Appending one encoded record to an intact log keeps it intact, and the
/// rebuilt index is the old one with the key bound to the append offset; the
/// appended record reads back exactly as written.
pub proof fn lemma_log_append_record(log: Seq<u8>, key: Seq<u8>, value: Seq<u8>)
    requires
        log_ok(log),
        key.len() + value.len() <= u32::MAX,
    ensures
        ({
            let l2 = log + encoded(key, value);
            let pos = log.len() as int;
            &&& log_ok(l2)
            &&& replay_from(l2, 0) == replay_from(log, 0).insert(key, log.len() as u64)
            &&& valid_record_at(l2, pos)
            &&& record_key(l2, pos) == key
            &&& record_value(l2, pos) == value
            &&& record_end(l2, pos) == l2.len()
        }),
{
    let e = encoded(key, value);
    let l2 = log + e;
    let pos = log.len() as int;
    lemma_record_at_append(log, key, value);
    lemma_scan_extend_from(log, e, 0);
    assert(scan_end(l2, record_end(l2, pos)) == l2.len());
    assert(scan_end(l2, pos) == l2.len());
    assert(replay_from(l2, record_end(l2, pos)) == Map::<Seq<u8>, u64>::empty());
    assert(replay_from(l2, pos) == Map::<Seq<u8>, u64>::empty().insert(key, pos as u64));
    assert(replay_from(log, 0).union_prefer_right(replay_from(l2, pos)) =~= replay_from(
        log,
        0,
    ).insert(key, log.len() as u64));
}

/// Appending a strict, nonempty prefix of an encoded record to an intact log
/// leaves a log whose scan stops exactly at the old end with a truncation
/// error, and whose replay still holds every entry the intact part held.
pub proof fn lemma_log_append_partial(log: Seq<u8>, key: Seq<u8>, value: Seq<u8>, cut: int)
    requires
        log_ok(log),
        key.len() + value.len() <= u32::MAX,
        0 < cut < encoded(key, value).len(),
    ensures
        ({
            let l2 = log + encoded(key, value).subrange(0, cut);
            &&& !log_ok(l2)
            &&& scan_end(l2, 0) == log.len()
            &&& scan_error(l2) == StoreError::TruncatedRecord
            &&& replay_from(l2, 0) == replay_from(log, 0)
        }),
{
    let e = encoded(key, value);
    let part = e.subrange(0, cut);
    let l2 = log + part;
    let pos = log.len() as int;
    crate::codec::lemma_encoded_parts(key, value);
    lemma_scan_extend_from(log, part, 0);
    if cut >= 12 {
        assert(crate::codec::u32_at(l2, pos + 4) == crate::codec::u32_at(e, 4)) by {
            assert(l2[pos + 4] == e[4]);
            assert(l2[pos + 5] == e[5]);
            assert(l2[pos + 6] == e[6]);
            assert(l2[pos + 7] == e[7]);
        }
        assert(crate::codec::u32_at(l2, pos + 8) == crate::codec::u32_at(e, 8)) by {
            assert(l2[pos + 8] == e[8]);
            assert(l2[pos + 9] == e[9]);
            assert(l2[pos + 10] == e[10]);
            assert(l2[pos + 11] == e[11]);
        }
        assert(record_end(l2, pos) == pos + e.len());
        assert(!crate::codec::record_fits(l2, pos));
    } else {
        assert(!crate::codec::header_fits(l2, pos));
    }
    assert(!valid_record_at(l2, pos));
    assert(scan_end(l2, pos) == pos);
    assert(replay_from(l2, pos) == Map::<Seq<u8>, u64>::empty());
    assert(replay_from(log, 0).union_prefer_right(replay_from(l2, pos)) =~= replay_from(log, 0));
}

/// Last write wins: appending a record for `key` with `v1` and then one with
/// `v2` to an intact log leaves an intact log whose replayed index maps `key`
/// to the second record's offset, where the stored value is `v2`; a reload
/// followed by a `get` of `key` therefore returns `v2`.
pub proof fn lemma_last_write_wins(log: Seq<u8>, key: Seq<u8>, v1: Seq<u8>, v2: Seq<u8>)
    requires
        log_ok(log),
        key.len() + v1.len() <= u32::MAX,
        key.len() + v2.len() <= u32::MAX,
        log.len() + encoded(key, v1).len() <= u64::MAX,
    ensures
        ({
            let l1 = log + encoded(key, v1);
            let l2 = l1 + encoded(key, v2);
            &&& log_ok(l2)
            &&& replay_from(l2, 0).dom().contains(key)
            &&& replay_from(l2, 0)[key] == l1.len() as u64
            &&& valid_record_at(l2, l1.len() as int)
            &&& record_value(l2, replay_from(l2, 0)[key] as int) == v2
        }),
{
    let l1 = log + encoded(key, v1);
    let l2 = l1 + encoded(key, v2);
    lemma_log_append_record(log, key, v1);
    lemma_log_append_record(l1, key, v2);
    assert(replay_from(l2, 0)[key] == l1.len() as u64);
    assert((l1.len() as u64) as int == l1.len() as int);
}

/// Tombstone: appending a delete — a record for `key` with an empty value —
/// to an intact log leaves the key present, in the replayed index and in an
/// exhaustive scan alike, bound at the highest record offset to the empty
/// value, rather than absent.
pub proof fn lemma_tombstone(log: Seq<u8>, key: Seq<u8>)
    requires
        log_ok(log),
        key.len() <= u32::MAX,
        log.len() <= u64::MAX,
    ensures
        ({
            let l2 = log + encoded(key, Seq::<u8>::empty());
            &&& log_ok(l2)
            &&& replay_from(l2, 0).dom().contains(key)
            &&& replay_from(l2, 0)[key] == log.len() as u64
            &&& record_value(l2, replay_from(l2, 0)[key] as int) == Seq::<u8>::empty()
            &&& spec_find(l2, key) == Some((log.len() as u64, Seq::<u8>::empty()))
        }),
{
    lemma_log_append_record(log, key, Seq::<u8>::empty());
    assert((log.len() as u64) as int == log.len() as int);
}

/// Crash-log tolerance: a log that ends partway through its last record —
/// an intact log with a strict, nonempty prefix of one more encoded record
/// after it — replays to exactly the intact part's index, and the scan
/// reports a truncation, never a clean end and never a checksum mismatch.
pub proof fn lemma_truncated_tail(log: Seq<u8>, key: Seq<u8>, value: Seq<u8>, cut: int)
    requires
        log_ok(log),
        key.len() + value.len() <= u32::MAX,
        0 < cut < encoded(key, value).len(),
    ensures
        ({
            let l2 = log + encoded(key, value).subrange(0, cut);
            &&& !log_ok(l2)
            &&& scan_error(l2) == StoreError::TruncatedRecord
            &&& replay_from(l2, 0) == replay_from(log, 0)
        }),
{
    lemma_log_append_partial(log, key, value, cut);
}

/// Idempotent reload: the index a `load` rebuilds is a function of the log's
/// bytes alone, so two loads of an unchanged log yield identical indexes.
pub proof fn lemma_idempotent_reload(first: Seq<u8>, second: Seq<u8>)
    requires
        first == second,
    ensures
        replay_from(first, 0) == replay_from(second, 0),
        log_ok(first) == log_ok(second),
{
}

/// The store handle: the bytes of the append-only log and the in-memory
/// index over them.
pub struct ActionKV {
    data: Vec<u8>,
    index: Index,
}

impl ActionKV {
    /// The log's bytes.
    pub closed spec fn log(&self) -> Seq<u8> {
        self.data@
    }

    /// The mapping the index holds.
    pub closed spec fn index_map(&self) -> Map<Seq<u8>, u64> {
        self.index@
    }

    /// The handle is well formed: its index denotes a mapping.
    pub closed spec fn wf(&self) -> bool {
        self.index.wf()
    }

    /// Attaches a store to the given log bytes — the full content of the
    /// backing file, empty when the file was just created — with an empty
    /// index. Reads are meaningful only once `load` has run.
    pub fn open(data: Vec<u8>) -> (r: Self)
        ensures
            r.wf(),
            r.log() == data@,
            r.index_map() == Map::<Seq<u8>, u64>::empty(),
    {
        ActionKV { data, index: Index::new() }
    }

    /// The log's bytes, as the backing file must hold them; a caller keeping
    /// a file in step writes the bytes past the file's old length after each
    /// mutation.
    pub fn log_bytes(&self) -> (r: &Vec<u8>)
        ensures
            r@ == self.log(),
    {
        &self.data
    }

    /// The offset of the physical end of the log: where the next append
    /// goes.
    pub fn seek_to_end(&mut self) -> (r: u64)
        ensures
            *final(self) == *old(self),
            r == old(self).log().len() as u64,
    {
        self.data.len() as u64
    }

    /// Rebuilds the index by replaying every record in the log. Succeeds if
    /// and only if the log is intact; on a corrupt log it reports the exact
    /// error at the first bad position, and the index keeps the entries of
    /// the intact prefix, so the records before the corruption stay
    /// readable.
    pub fn load(&mut self) -> (r: Result<(), StoreError>)
        requires
            old(self).wf(),
        ensures
            final(self).wf(),
            final(self).log() == old(self).log(),
            final(self).index_map() == replay_from(old(self).log(), 0),
            match r {
                Ok(()) => log_ok(old(self).log()),
                Err(e) => !log_ok(old(self).log()) && e == scan_error(old(self).log()),
            },
    {
        let ghost log0 = self.data@;
        self.index.clear();
        let n = self.data.len();
        let mut position: usize = 0;
        loop
            invariant
                self.wf(),
                self.data@ == log0,
                old(self).log() == log0,
                n == log0.len(),
                position <= n,
                scan_end(log0, 0) == scan_end(log0, position as int),
                replay_from(log0, 0) == self.index_map().union_prefer_right(
                    replay_from(log0, position as int),
                ),
            decreases n - position,
        {
            if position == n {
                proof {
                    assert(replay_from(log0, position as int) == Map::<Seq<u8>, u64>::empty());
                    assert(self.index_map().union_prefer_right(replay_from(log0, position as int))
                        =~= self.index_map());
                }
                return Ok(());
            }
            match process_record(&self.data, position) {
                Ok(p) => {
                    let (kv, next) = p;
                    let ghost prior = self.index_map();
                    let ghost k = kv.key@;
                    let ghost rest = replay_from(log0, next as int);
                    self.index.set(kv.key, position as u64);
                    proof {
                        assert(scan_end(log0, position as int) == scan_end(log0, next as int));
                        if rest.dom().contains(k) {
                            assert(prior.union_prefer_right(replay_from(log0, position as int))
                                =~= self.index_map().union_prefer_right(rest));
                        } else {
                            assert(prior.union_prefer_right(replay_from(log0, position as int))
                                =~= self.index_map().union_prefer_right(rest));
                        }
                    }
                    position = next;
                },
                Err(e) => {
                    proof {
                        assert(scan_end(log0, position as int) == position as int);
                        assert(!log_ok(log0));
                        assert(replay_from(log0, position as int) == Map::<Seq<u8>, u64>::empty());
                        assert(self.index_map().union_prefer_right(replay_from(log0, position as int))
                            =~= self.index_map());
                    }
                    return Err(e);
                },
            }
        }
    }

    /// Looks the key up in the index and reads the record at the offset the
    /// index holds. A key without an index entry is not found; one whose
    /// offset no longer decodes — an index out of step with the log —
    /// surfaces the decode error.
    pub fn get(&mut self, key: &[u8]) -> (r: Result<Option<Vec<u8>>, StoreError>)
        requires
            old(self).wf(),
        ensures
            *final(self) == *old(self),
            match r {
                Ok(opt) => match opt {
                    None => !old(self).index_map().dom().contains(key@),
                    Some(v) => {
                        &&& old(self).index_map().dom().contains(key@)
                        &&& valid_record_at(old(self).log(), old(self).index_map()[key@] as int)
                        &&& v@ == record_value(old(self).log(), old(self).index_map()[key@] as int)
                    },
                },
                Err(e) => {
                    &&& old(self).index_map().dom().contains(key@)
                    &&& !valid_record_at(old(self).log(), old(self).index_map()[key@] as int)
                    &&& e == decode_error_at(old(self).log(), old(self).index_map()[key@] as int)
                },
            },
    {
        let position = match self.index.lookup(key) {
            None => {
                return Ok(None);
            },
            Some(position) => position,
        };
        match self.get_at(position) {
            Ok(kv) => Ok(Some(kv.value)),
            Err(e) => Err(e),
        }
    }

    /// Decodes the one record at the given offset. Succeeds if and only if a
    /// complete, checksum-verified record starts exactly there.
    pub fn get_at(&mut self, position: u64) -> (r: Result<KeyValuePair, StoreError>)
        ensures
            *final(self) == *old(self),
            match r {
                Ok(kv) => {
                    &&& valid_record_at(old(self).log(), position as int)
                    &&& kv.key@ == record_key(old(self).log(), position as int)
                    &&& kv.value@ == record_value(old(self).log(), position as int)
                },
                Err(e) => {
                    &&& !valid_record_at(old(self).log(), position as int)
                    &&& e == decode_error_at(old(self).log(), position as int)
                },
            },
    {
        let n = self.data.len();
        if position > n as u64 {
            return Err(StoreError::TruncatedRecord);
        }
        match process_record(&self.data, position as usize) {
            Ok(p) => Ok(p.0),
            Err(e) => Err(e),
        }
    }

    /// Scans the whole log for the target key, never stopping early on a
    /// match, since a later record for the same key supersedes it: the
    /// offset and value of the key's last record. Any corruption aborts the
    /// scan, match or no match.
    pub fn find(&mut self, target: &[u8]) -> (r: Result<Option<(u64, Vec<u8>)>, StoreError>)
        ensures
            *final(self) == *old(self),
            match r {
                Ok(found) => log_ok(old(self).log()) && (match found {
                    None => spec_find(old(self).log(), target@) is None,
                    Some(p) => spec_find(old(self).log(), target@) == Some((p.0, p.1@)),
                }),
                Err(e) => !log_ok(old(self).log()) && e == scan_error(old(self).log()),
            },
    {
        let ghost log0 = self.data@;
        let n = self.data.len();
        let mut position: usize = 0;
        let mut found: Option<(u64, Vec<u8>)> = None;
        loop
            invariant
                *self == *old(self),
                self.data@ == log0,
                n == log0.len(),
                position <= n,
                scan_end(log0, 0) == scan_end(log0, position as int),
                ({
                    let acc = match found {
                        None => None,
                        Some(p) => Some((p.0, p.1@)),
                    };
                    let cur = if replay_from(log0, position as int).dom().contains(target@) {
                        let p = replay_from(log0, position as int)[target@];
                        Some((p, record_value(log0, p as int)))
                    } else {
                        acc
                    };
                    cur == spec_find(log0, target@)
                }),
            decreases n - position,
        {
            if position == n {
                proof {
                    assert(replay_from(log0, position as int) == Map::<Seq<u8>, u64>::empty());
                }
                return Ok(found);
            }
            match process_record(&self.data, position) {
                Ok(p) => {
                    let (kv, next) = p;
                    proof {
                        assert(scan_end(log0, position as int) == scan_end(log0, next as int));
                        assert(n <= u64::MAX) by {
                            assert(n <= usize::MAX);
                        }
                        lemma_replay_from_valid(log0, position as int);
                    }
                    if crate::index::bytes_eq(kv.key.as_slice(), target) {
                        found = Some((position as u64, kv.value));
                    }
                    position = next;
                },
                Err(e) => {
                    proof {
                        assert(scan_end(log0, position as int) == position as int);
                        assert(!log_ok(log0));
                    }
                    return Err(e);
                },
            }
        }
    }

    /// Appends one encoded record for the pair and binds the key, in the
    /// index, to the offset the record was appended at.
    pub fn insert(&mut self, key: &[u8], value: &[u8])
        requires
            old(self).wf(),
            key@.len() + value@.len() <= u32::MAX,
        ensures
            final(self).wf(),
            final(self).log() == old(self).log() + encoded(key@, value@),
            final(self).index_map() == old(self).index_map().insert(
                key@,
                old(self).log().len() as u64,
            ),
    {
        let position = self.insert_but_ignore_index(key, value);
        self.index.set(vstd::slice::slice_to_vec(key), position);
    }

    /// Appends one encoded record for the pair at the end of the log,
    /// leaving the index alone: the offset the record starts at.
    pub fn insert_but_ignore_index(&mut self, key: &[u8], value: &[u8]) -> (r: u64)
        requires
            old(self).wf(),
            key@.len() + value@.len() <= u32::MAX,
        ensures
            final(self).wf(),
            final(self).log() == old(self).log() + encoded(key@, value@),
            final(self).index_map() == old(self).index_map(),
            r == old(self).log().len() as u64,
    {
        let mut rec = encode_record(key, value);
        let position = self.data.len() as u64;
        self.data.append(&mut rec);
        position
    }

    /// The same as `insert`: the log format does not distinguish a first
    /// write from an overwrite.
    pub fn update(&mut self, key: &[u8], value: &[u8])
        requires
            old(self).wf(),
            key@.len() + value@.len() <= u32::MAX,
        ensures
            final(self).wf(),
            final(self).log() == old(self).log() + encoded(key@, value@),
            final(self).index_map() == old(self).index_map().insert(
                key@,
                old(self).log().len() as u64,
            ),
    {
        self.insert(key, value)
    }

    /// Appends a tombstone: a record for the key with an empty value. The
    /// key is not removed from the index and no space is reclaimed; a later
    /// `get` finds the key bound to the empty value.
    pub fn delete(&mut self, key: &[u8])
        requires
            old(self).wf(),
            key@.len() <= u32::MAX,
        ensures
            final(self).wf(),
            final(self).log() == old(self).log() + encoded(key@, Seq::<u8>::empty()),
            final(self).index_map() == old(self).index_map().insert(
                key@,
                old(self).log().len() as u64,
            ),
    {
        let empty: Vec<u8> = Vec::new();
        self.insert(key, empty.as_slice());
        proof {
            assert(empty@ =~= Seq::<u8>::empty());
        }
    }
}

} // verus!
