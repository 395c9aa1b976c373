//! The log store: the append-only log as bytes, the key directory built
//! from it, and the write cursor. Opening replays the log to rebuild the
//! directory; `get` reads the stored byte range back through the codec;
//! `set` appends one record and repoints the key's directory entry. The
//! caller keeps the log bytes on durable storage: it hands them in at
//! `open` and persists what `set` returns.

use crate::format::copy_range;
use crate::format::lemma_header_round_trip;
use crate::format::read_header;
use crate::format::spec_decode_header;
use crate::format::spec_header_bytes;
use crate::format::spec_record_bytes;
use crate::format::FormatError;
use crate::format::Header;
use crate::format::Record;
use crate::key_dir::kd_contents;
use crate::key_dir::kd_empty;
use crate::key_dir::kd_insert;
use crate::key_dir::kd_lookup;
use crate::key_dir::kd_new;
use crate::key_dir::KeyDirectory;
use crate::key_dir::KeyEntry;
use vstd::prelude::*;

verus! {

/// Replay of the log from byte offset `pos`: scan record by record,
/// entering each key's location into `dir`, later records overwriting
/// earlier ones. Stops cleanly at the end of the log; a record cut short
/// yields the same `FormatError` that decoding it would. (Offsets outside
/// the log never arise; the first branch only makes the function total.)
pub open spec fn spec_replay(log: Seq<u8>, pos: int, dir: Map<Seq<u8>, KeyEntry>) -> Result<
    Map<Seq<u8>, KeyEntry>,
    FormatError,
>
    decreases log.len() - pos,
{
    if pos < 0 || pos > log.len() {
        Err(FormatError::Header(0))
    } else if pos == log.len() {
        Ok(dir)
    } else if log.len() - pos < 16 {
        Err(FormatError::Header((log.len() - pos) as usize))
    } else {
        let h = spec_decode_header(log.subrange(pos, pos + 16));
        if log.len() - pos - 16 < h.key_size {
            Err(FormatError::Key((log.len() - pos - 16) as usize, h.key_size as usize))
        } else if log.len() - pos - 16 - h.key_size < h.value_size {
            Err(FormatError::Value(
                (log.len() - pos - 16 - h.key_size) as usize,
                h.value_size as usize,
            ))
        } else {
            spec_replay(
                log,
                pos + 16 + h.key_size + h.value_size,
                dir.insert(
                    log.subrange(pos + 16, pos + 16 + h.key_size),
                    KeyEntry {
                        total_size: (h.key_size + h.value_size) as u64,
                        value_offset: pos as u64,
                        timestamp: h.timestamp,
                    },
                ),
            )
        }
    }
}

/// Replaying `log` from `pos`, directory `dir` in hand, succeeds with `m`.
pub open spec fn replay_from_yields(
    log: Seq<u8>,
    pos: int,
    dir: Map<Seq<u8>, KeyEntry>,
    m: Map<Seq<u8>, KeyEntry>,
) -> bool {
    spec_replay(log, pos, dir) == Ok::<Map<Seq<u8>, KeyEntry>, FormatError>(m)
}

/// Replaying the whole of `log` succeeds and yields the directory `m`.
pub open spec fn replay_yields(log: Seq<u8>, m: Map<Seq<u8>, KeyEntry>) -> bool {
    replay_from_yields(log, 0, kd_empty(), m)
}

/// Replaying the whole of `log` fails with exactly the error `e`.
pub open spec fn replay_fails(log: Seq<u8>, e: FormatError) -> bool {
    spec_replay(log, 0, kd_empty()) == Err::<Map<Seq<u8>, KeyEntry>, FormatError>(e)
}

/// A directory entry is consistent with the log: it points at a complete
/// record whose header matches the entry's sizes and timestamp and whose
/// key bytes are the entry's key.
pub open spec fn entry_valid(log: Seq<u8>, key: Seq<u8>, e: KeyEntry) -> bool {
    let off = e.value_offset as int;
    &&& off + 16 + e.total_size <= log.len()
    &&& {
        let h = spec_decode_header(log.subrange(off, off + 16));
        &&& h.key_size + h.value_size == e.total_size
        &&& h.timestamp == e.timestamp
        &&& h.key_size == key.len()
        &&& log.subrange(off + 16, off + 16 + h.key_size as int) == key
    }
}

/// The bytes that storing `value` under `key` at time `ts` appends: one
/// record with a zero `crc` and the sizes taken from the two lengths.
pub open spec fn spec_set_bytes(ts: u32, key: Seq<u8>, value: Seq<u8>) -> Seq<u8> {
    spec_record_bytes(
        Header { crc: 0, timestamp: ts, key_size: key.len() as u32, value_size: value.len() as u32 },
        key,
        value,
    )
}

/// The value bytes of the record a directory entry points at.
pub open spec fn entry_value(log: Seq<u8>, e: KeyEntry) -> Seq<u8> {
    let off = e.value_offset as int;
    let h = spec_decode_header(log.subrange(off, off + 16));
    log.subrange(off + 16 + h.key_size, off + 16 + h.key_size + h.value_size)
}

/// The log store. Its abstract content (the view) is the map from each key
/// in the directory to the value bytes of that key's latest record.
pub struct LogStore {
    log: Vec<u8>,
    key_dir: KeyDirectory,
    write_position: u64,
}

impl View for LogStore {
    type V = Map<Seq<u8>, Seq<u8>>;

    closed spec fn view(&self) -> Map<Seq<u8>, Seq<u8>> {
        Map::new(
            |k: Seq<u8>| kd_contents(self.key_dir).contains_key(k),
            |k: Seq<u8>| entry_value(self.log@, kd_contents(self.key_dir)[k]),
        )
    }
}

impl LogStore {
    /// The raw bytes of the log.
    pub closed spec fn log(&self) -> Seq<u8> {
        self.log@
    }

    /// The key directory's contents.
    pub closed spec fn dir(&self) -> Map<Seq<u8>, KeyEntry> {
        kd_contents(self.key_dir)
    }

    /// Well-formed: the write cursor sits at the end of the log, replaying
    /// the log yields exactly the directory, and every directory entry
    /// points at a complete record for its key.
    pub closed spec fn wf(&self) -> bool {
        &&& self.write_position == self.log@.len()
        &&& replay_yields(self.log@, kd_contents(self.key_dir))
        &&& forall|k: Seq<u8>| #[trigger]
            kd_contents(self.key_dir).contains_key(k) ==> entry_valid(
                self.log@,
                k,
                kd_contents(self.key_dir)[k],
            )
    }

    /// The log's bytes as they stand: what a caller persists so that a
    /// later `open` sees the same store.
    pub fn log_bytes(&self) -> (r: &Vec<u8>)
        ensures
            r@ == self.log(),
    {
        &self.log
    }

    /// Open a store over the given log bytes: replay them from offset 0 to
    /// rebuild the key directory, exactly as `spec_replay` describes. A log
    /// whose last record is cut short is rejected with the error the replay
    /// meets; nothing else fails.
    #[verifier::loop_isolation(false)]
    pub fn open(log: Vec<u8>) -> (r: Result<LogStore, FormatError>)
        ensures
            match r {
                Ok(s) => s.wf() && s.log() == log@ && replay_yields(log@, s.dir()),
                Err(e) => replay_fails(log@, e),
            },
    {
        let mut dir = kd_new();
        let mut pos: usize = 0;
        while pos < log.len()
            invariant
                pos <= log.len(),
                spec_replay(log@, 0, kd_empty()) == spec_replay(
                    log@,
                    pos as int,
                    kd_contents(dir),
                ),
                forall|k: Seq<u8>| #[trigger]
                    kd_contents(dir).contains_key(k) ==> entry_valid(
                        log@,
                        k,
                        kd_contents(dir)[k],
                    ),
            decreases log.len() - pos,
        {
            if log.len() - pos < 16 {
                return Err(FormatError::Header(log.len() - pos));
            }
            let h = read_header(&log, pos);
            let ks = h.key_size as usize;
            let vs = h.value_size as usize;
            let rem = log.len() - pos - 16;
            if rem < ks {
                return Err(FormatError::Key(rem, ks));
            }
            let key = copy_range(&log, pos + 16, ks);
            if rem - ks < vs {
                return Err(FormatError::Value(rem - ks, vs));
            }
            let entry = KeyEntry {
                total_size: (ks as u64) + (vs as u64),
                value_offset: pos as u64,
                timestamp: h.timestamp,
            };
            proof {
                assert(spec_replay(log@, pos as int, kd_contents(dir)) == spec_replay(
                    log@,
                    pos as int + 16 + ks as int + vs as int,
                    kd_contents(dir).insert(key@, entry),
                ));
                assert(entry_valid(log@, key@, entry));
            }
            kd_insert(&mut dir, key, entry);
            pos = pos + 16 + ks + vs;
        }
        let store = LogStore { log, key_dir: dir, write_position: pos as u64 };
        Ok(store)
    }

    /// Look the key up and, when present, read its record's bytes back out
    /// of the log and decode them. An absent key is not an error; on a
    /// well-formed store the stored range always decodes, so no error is
    /// ever returned.
    pub fn get(&self, key: &Vec<u8>) -> (r: Result<Option<Vec<u8>>, FormatError>)
        requires
            self.wf(),
        ensures
            match r {
                Ok(Some(v)) => self@.contains_key(key@) && v@ == self@[key@],
                Ok(None) => !self@.contains_key(key@),
                Err(_) => false,
            },
    {
        let e = match kd_lookup(&self.key_dir, key) {
            None => {
                return Ok(None);
            },
            Some(e) => e,
        };
        proof {
            assert(entry_valid(self.log@, key@, e));
            assert(self.log@.len() == self.log.len());
        }
        let off = e.value_offset as usize;
        let total = e.total_size as usize;
        proof {
            assert(off == e.value_offset && total == e.total_size);
        }
        let buf = copy_range(&self.log, off, 16 + total);
        proof {
            assert(buf@.subrange(0, 16) =~= self.log@.subrange(off as int, off as int + 16));
        }
        match Record::decode(buf) {
            Ok(rec) => {
                proof {
                    let h = spec_decode_header(self.log@.subrange(off as int, off as int + 16));
                    assert(rec.value@ =~= self.log@.subrange(
                        off + 16 + h.key_size,
                        off + 16 + h.key_size + h.value_size,
                    ));
                }
                Ok(Some(rec.value))
            },
            Err(err) => {
                proof {
                    assert(false);
                }
                Err(err)
            },
        }
    }

    /// Store `value` under `key` with the given header timestamp: repoint
    /// the key's directory entry at the current write cursor, append the
    /// encoded record there, and advance the cursor. Returns the appended
    /// bytes, which the caller persists at the end of the log file.
    pub fn set_with_timestamp(&mut self, key: Vec<u8>, value: Vec<u8>, timestamp: u32) -> (appended:
        Vec<u8>)
        requires
            old(self).wf(),
            key@.len() <= u32::MAX,
            value@.len() <= u32::MAX,
            old(self).log().len() + 16 + key@.len() + value@.len() <= usize::MAX,
        ensures
            final(self).wf(),
            final(self)@ == old(self)@.insert(key@, value@),
            final(self).log() == old(self).log() + appended@,
            appended@ == spec_set_bytes(timestamp, key@, value@),
    {
        let ghost gkey = key@;
        let ghost gvalue = value@;
        let ghost oldlog = self.log@;
        let ghost olddir = kd_contents(self.key_dir);
        let ks = key.len();
        let vs = value.len();
        let entry = KeyEntry {
            total_size: (ks as u64) + (vs as u64),
            value_offset: self.write_position,
            timestamp,
        };
        let key_copy = copy_range(&key, 0, ks);
        proof {
            assert(key_copy@ =~= gkey);
        }
        kd_insert(&mut self.key_dir, key_copy, entry);
        let record = Record::new(timestamp, key, value);
        let mut data = record.encode();
        let appended = copy_range(&data, 0, data.len());
        self.log.append(&mut data);
        self.write_position = self.log.len() as u64;
        proof {
            let h = Header { crc: 0, timestamp, key_size: ks as u32, value_size: vs as u32 };
            let ext = spec_record_bytes(h, gkey, gvalue);
            assert(appended@ =~= ext);
            assert(self.log@ == oldlog + ext);
            lemma_replay_extend(oldlog, ext, 0, kd_empty(), olddir);
            lemma_replay_one_record(oldlog, h, gkey, gvalue, olddir);
            assert(spec_header_bytes(h).len() == 16);
            assert(entry == (KeyEntry {
                total_size: (h.key_size + h.value_size) as u64,
                value_offset: oldlog.len() as u64,
                timestamp: h.timestamp,
            }));
            assert(replay_yields(self.log@, kd_contents(self.key_dir)));
            assert(self.log@.subrange(oldlog.len() as int, oldlog.len() as int + 16)
                =~= spec_header_bytes(h));
            lemma_header_round_trip(h);
            assert(self.log@.subrange(
                oldlog.len() as int + 16,
                oldlog.len() as int + 16 + ks as int,
            ) =~= gkey);
            assert(self.log@.subrange(
                oldlog.len() as int + 16 + ks as int,
                oldlog.len() as int + 16 + ks as int + vs as int,
            ) =~= gvalue);
            assert(entry_valid(self.log@, gkey, entry));
            assert(entry_value(self.log@, entry) == gvalue);
            assert forall|k: Seq<u8>| #[trigger]
                kd_contents(self.key_dir).contains_key(k) implies entry_valid(
                self.log@,
                k,
                kd_contents(self.key_dir)[k],
            ) by {
                if k != gkey {
                    assert(olddir.contains_key(k));
                    lemma_entry_valid_extend(oldlog, ext, k, olddir[k]);
                }
            }
            assert forall|k: Seq<u8>| #[trigger]
                kd_contents(self.key_dir).contains_key(k) implies self@[k] == old(self)@.insert(
                gkey,
                gvalue,
            )[k] by {
                if k != gkey {
                    lemma_entry_valid_extend(oldlog, ext, k, olddir[k]);
                }
            }
            assert(self@ =~= old(self)@.insert(gkey, gvalue));
        }
        appended
    }

    /// Store `value` under `key`, stamped with the current wall-clock time.
    /// Returns the appended record bytes for the caller to persist; the
    /// store's view gains exactly the one binding.
    pub fn set(&mut self, key: Vec<u8>, value: Vec<u8>) -> (appended: Vec<u8>)
        requires
            old(self).wf(),
            key@.len() <= u32::MAX,
            value@.len() <= u32::MAX,
            old(self).log().len() + 16 + key@.len() + value@.len() <= usize::MAX,
        ensures
            final(self).wf(),
            final(self)@ == old(self)@.insert(key@, value@),
            final(self).log() == old(self).log() + appended@,
            exists|ts: u32| appended@ == #[trigger] spec_set_bytes(ts, key@, value@),
    {
        let ts = now_timestamp();
        let ghost gkey = key@;
        let ghost gvalue = value@;
        let appended = self.set_with_timestamp(key, value, ts);
        proof {
            assert(appended@ == spec_set_bytes(ts, gkey, gvalue));
        }
        appended
    }
}

/// Relies on chrono::Local::now and chrono::DateTime::timestamp for the
/// current wall-clock time; keeps the low 32 bits of the unix-seconds
/// count, since the record header stores the timestamp as a `u32`.
#[verifier::external_body]
fn now_timestamp() -> u32 {
    chrono::Local::now().timestamp() as u32
}

/// Replaying a log that `ext` was appended to walks the old records exactly
/// as before and continues into `ext` with the directory they produced.
proof fn lemma_replay_extend(
    log: Seq<u8>,
    ext: Seq<u8>,
    pos: int,
    dir: Map<Seq<u8>, KeyEntry>,
    m: Map<Seq<u8>, KeyEntry>,
)
    requires
        0 <= pos <= log.len(),
        replay_from_yields(log, pos, dir, m),
    ensures
        spec_replay(log + ext, pos, dir) == spec_replay(log + ext, log.len() as int, m),
    decreases log.len() - pos,
{
    let full = log + ext;
    if pos == log.len() {
        assert(m == dir);
    } else {
        assert(log.len() - pos >= 16);
        let h = spec_decode_header(log.subrange(pos, pos + 16));
        assert(log.len() - pos - 16 >= h.key_size);
        assert(log.len() - pos - 16 - h.key_size >= h.value_size);
        let next = pos + 16 + h.key_size + h.value_size;
        let k = log.subrange(pos + 16, pos + 16 + h.key_size as int);
        let e = KeyEntry {
            total_size: (h.key_size + h.value_size) as u64,
            value_offset: pos as u64,
            timestamp: h.timestamp,
        };
        let dir2 = dir.insert(k, e);
        assert(replay_from_yields(log, next, dir2, m));
        assert(full.subrange(pos, pos + 16) =~= log.subrange(pos, pos + 16));
        assert(full.subrange(pos + 16, pos + 16 + h.key_size as int) =~= k);
        assert(spec_replay(full, pos, dir) == spec_replay(full, next, dir2));
        lemma_replay_extend(log, ext, next, dir2, m);
    }
}

/// Replaying exactly one whole record, appended at the end of the log,
/// enters exactly that record's key and location into the directory.
proof fn lemma_replay_one_record(
    log: Seq<u8>,
    h: Header,
    key: Seq<u8>,
    value: Seq<u8>,
    m: Map<Seq<u8>, KeyEntry>,
)
    requires
        h.key_size == key.len(),
        h.value_size == value.len(),
        log.len() + 16 + key.len() + value.len() <= usize::MAX,
    ensures
        ({
            let full = log + spec_record_bytes(h, key, value);
            let e = KeyEntry {
                total_size: (h.key_size + h.value_size) as u64,
                value_offset: log.len() as u64,
                timestamp: h.timestamp,
            };
            replay_from_yields(full, log.len() as int, m, m.insert(key, e))
        }),
{
    let ext = spec_record_bytes(h, key, value);
    let full = log + ext;
    let pos = log.len() as int;
    assert(spec_header_bytes(h).len() == 16);
    assert(ext.len() == 16 + key.len() + value.len());
    assert(full.subrange(pos, pos + 16) =~= spec_header_bytes(h));
    lemma_header_round_trip(h);
    assert(full.subrange(pos + 16, pos + 16 + h.key_size as int) =~= key);
    let next = pos + 16 + h.key_size + h.value_size;
    assert(next == full.len());
    let e = KeyEntry {
        total_size: (h.key_size + h.value_size) as u64,
        value_offset: pos as u64,
        timestamp: h.timestamp,
    };
    assert(spec_replay(full, pos, m) == spec_replay(full, next, m.insert(key, e)));
}

/// An entry that is consistent with the log stays so, pointing at the same
/// value bytes, when more bytes are appended after the log's end.
proof fn lemma_entry_valid_extend(log: Seq<u8>, ext: Seq<u8>, k: Seq<u8>, e: KeyEntry)
    requires
        entry_valid(log, k, e),
    ensures
        entry_valid(log + ext, k, e),
        entry_value(log + ext, e) == entry_value(log, e),
{
    let off = e.value_offset as int;
    let full = log + ext;
    assert(full.subrange(off, off + 16) =~= log.subrange(off, off + 16));
    let h = spec_decode_header(log.subrange(off, off + 16));
    assert(full.subrange(off + 16, off + 16 + h.key_size as int) =~= log.subrange(
        off + 16,
        off + 16 + h.key_size as int,
    ));
    assert(full.subrange(off + 16 + h.key_size, off + 16 + h.key_size + h.value_size)
        =~= log.subrange(off + 16 + h.key_size, off + 16 + h.key_size + h.value_size));
}

/// Last write wins: two stores of values under one key step the store's
/// view by two inserts in order, and the later value is the one the view
/// then holds for that key.
pub proof fn lemma_last_write_wins(m: Map<Seq<u8>, Seq<u8>>, k: Seq<u8>, v1: Seq<u8>, v2: Seq<u8>)
    ensures
        m.insert(k, v1).insert(k, v2).contains_key(k),
        m.insert(k, v1).insert(k, v2)[k] == v2,
{
}

/// Recovery is deterministic and persists the store: any two well-formed
/// stores over the same log bytes — one before closing and one reopened
/// from the bytes it persisted, or two stores reopened in a row — hold the
/// same directory and the same key-value view.
pub proof fn lemma_recovery_deterministic(a: &LogStore, b: &LogStore)
    requires
        a.wf(),
        b.wf(),
        a.log() == b.log(),
    ensures
        a.dir() == b.dir(),
        a@ == b@,
{
    assert(a.dir() == b.dir());
    assert(a@ =~= b@);
}

} // verus!
