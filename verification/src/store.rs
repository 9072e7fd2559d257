//! The store: the whole in-memory state of the database and every state
//! transition over it.
//!
//! The data log is carried as its full byte image; the vector file is
//! carried as the flat array of component bit patterns it decodes to. Each
//! mutating operation returns the byte-level effect (what to write where)
//! that an owner of real files replays, and the contracts tie the in-memory
//! state to the images byte for byte.

use vstd::prelude::*;
use vstd::utf8::{valid_utf8, decode_utf8, encode_utf8};
use vstd::arithmetic::div_mod::{lemma_fundamental_div_mod, lemma_mod_bound};
use crate::errors::DbError;
use crate::format::{
    MAGIC, VERSION, HEADER_SIZE, FileHeader, spec_u32_from_be_bytes, spec_header_bytes,
    vec_bits_encoding, vec_bits_decoding, read_u32_be,
};
use crate::index::{
    IndexEntry, EntryView, KeyedEntry, unique_keys, index_map, lemma_index_map_at,
    lemma_index_map_absent, lemma_index_map_push, lemma_index_map_update, lemma_index_map_dom,
    find_entry,
};
use crate::record::{
    Record, RecordView, LocRecord, parse_record_at, parse_from, parse_end, decode_record_at,
    encode_record, lemma_parse_from_restrict,
};
use crate::json::json_null;

verus! {

/// Default deletion-ratio threshold for auto-compaction, in parts per
/// million (one half).
pub const DEFAULT_COMPACT_RATIO_PPM: u64 = 500_000;

/// Default deleted-slot count threshold for auto-compaction.
pub const DEFAULT_COMPACT_COUNT_THRESHOLD: usize = 1000;

/// Largest accepted vector dimension.
pub const MAX_DIMENSION: u32 = 100_000;

/// One million: the denominator of ratios expressed in parts per million.
pub const PPM_SCALE: u64 = 1_000_000;

/// Configuration of a store. The deletion-ratio threshold is held exactly,
/// as parts per million, so that the auto-compaction trigger is integer
/// arithmetic.
#[derive(Debug, Clone)]
pub struct DbConfig {
    /// Vector dimension, in `1..=100_000`.
    pub dimension: u32,
    /// Auto-compaction fires only when deleted slots exceed this fraction of
    /// all slots, expressed in parts per million of the total.
    pub compact_threshold_ppm: u64,
    /// Auto-compaction fires only when more than this many slots are deleted.
    pub compact_threshold_count: usize,
    /// Whether a write may request auto-compaction at all.
    pub enable_auto_compact: bool,
}

impl DbConfig {
    /// A configuration with the default compaction thresholds.
    pub fn new(dimension: u32) -> (c: Self)
        ensures
            c.dimension == dimension,
            c.compact_threshold_ppm == DEFAULT_COMPACT_RATIO_PPM,
            c.compact_threshold_count == DEFAULT_COMPACT_COUNT_THRESHOLD,
            c.enable_auto_compact == true,
    {
        DbConfig {
            dimension,
            compact_threshold_ppm: DEFAULT_COMPACT_RATIO_PPM,
            compact_threshold_count: DEFAULT_COMPACT_COUNT_THRESHOLD,
            enable_auto_compact: true,
        }
    }

    /// Sets the deletion-ratio threshold, clamped to at most one million
    /// parts per million.
    pub fn with_compact_ratio(self, ppm: u64) -> (c: Self)
        ensures
            c.compact_threshold_ppm == if ppm > PPM_SCALE {
                PPM_SCALE
            } else {
                ppm
            },
            c.dimension == self.dimension,
            c.compact_threshold_count == self.compact_threshold_count,
            c.enable_auto_compact == self.enable_auto_compact,
    {
        let clamped = if ppm > PPM_SCALE {
            PPM_SCALE
        } else {
            ppm
        };
        DbConfig { compact_threshold_ppm: clamped, ..self }
    }

    /// Sets the deleted-slot count threshold.
    pub fn with_compact_count(self, count: usize) -> (c: Self)
        ensures
            c.compact_threshold_count == count,
            c.dimension == self.dimension,
            c.compact_threshold_ppm == self.compact_threshold_ppm,
            c.enable_auto_compact == self.enable_auto_compact,
    {
        DbConfig { compact_threshold_count: count, ..self }
    }

    /// Enables or disables auto-compaction.
    pub fn with_auto_compact(self, enabled: bool) -> (c: Self)
        ensures
            c.enable_auto_compact == enabled,
            c.dimension == self.dimension,
            c.compact_threshold_ppm == self.compact_threshold_ppm,
            c.compact_threshold_count == self.compact_threshold_count,
    {
        DbConfig { enable_auto_compact: enabled, ..self }
    }
}

/// A dimension in range and a threshold that is a genuine ratio.
pub open spec fn valid_config(c: DbConfig) -> bool {
    &&& 1 <= c.dimension <= MAX_DIMENSION
    &&& c.compact_threshold_ppm <= PPM_SCALE
}

/// How many of the booleans are set.
pub open spec fn count_true(s: Seq<bool>) -> int
    decreases s.len(),
{
    if s.len() == 0 {
        0
    } else {
        count_true(s.drop_last()) + if s.last() {
            1int
        } else {
            0int
        }
    }
}

/// The index that replaying a record sequence produces: a put installs the
/// key live at its slot and offset; a tombstone marks an existing key
/// deleted in place and is ignored for an unknown key.
pub open spec fn replay(rs: Seq<LocRecord>) -> Map<Seq<char>, EntryView>
    decreases rs.len(),
{
    if rs.len() == 0 {
        Map::empty()
    } else {
        let m = replay(rs.drop_last());
        let lr = rs.last();
        let k = decode_utf8(lr.rec.key);
        if lr.rec.tombstone {
            if m.dom().contains(k) {
                m.insert(k, EntryView { id: m[k].id, off: m[k].off, deleted: true })
            } else {
                m
            }
        } else {
            m.insert(k, EntryView { id: lr.rec.id, off: lr.off, deleted: false })
        }
    }
}

/// Every record's slot id lies below `n`.
pub open spec fn recs_ids_below(rs: Seq<LocRecord>, n: int) -> bool {
    forall|i: int| 0 <= i < rs.len() ==> (#[trigger] rs[i].rec.id as int) < n
}

/// Some live key of the map owns slot `slot`.
pub open spec fn live_at(m: Map<Seq<char>, EntryView>, slot: int) -> bool {
    exists|k: Seq<char>|
        #![auto]
        m.dom().contains(k) && !m[k].deleted && m[k].id as int == slot
}

/// No two live keys of the map share a slot.
pub open spec fn no_dup_live(m: Map<Seq<char>, EntryView>) -> bool {
    forall|k1: Seq<char>, k2: Seq<char>|
        #![auto]
        m.dom().contains(k1) && m.dom().contains(k2) && !m[k1].deleted && !m[k2].deleted
            && m[k1].id == m[k2].id ==> k1 == k2
}

/// The file's magic number and version are the ones this crate writes.
pub open spec fn header_magic_ok(f: Seq<u8>) -> bool {
    &&& f.len() >= HEADER_SIZE
    &&& spec_u32_from_be_bytes(f.subrange(0, 4)) == MAGIC
    &&& f[4] == VERSION
}

/// The dimension recorded in a file header.
pub open spec fn vf_dim(vf: Seq<u8>) -> u32 {
    spec_u32_from_be_bytes(vf.subrange(6, 10))
}

/// The log image after opening: a fresh header for an empty file, otherwise
/// the given bytes cut at the end of the last valid record.
pub open spec fn spec_scan_log(log: Seq<u8>, dim: u32) -> Seq<u8> {
    if log.len() == 0 {
        spec_header_bytes(dim)
    } else {
        log.take(parse_end(log, 32))
    }
}

/// How many whole slots the vector file holds.
pub open spec fn spec_n_slots(vf: Seq<u8>, dim: u32) -> int {
    if vf.len() == 0 {
        0
    } else {
        (vf.len() - HEADER_SIZE) / ((dim as int) * 4)
    }
}

/// Whether opening these two file images under this configuration succeeds.
pub open spec fn open_accepts(log: Seq<u8>, vf: Seq<u8>, c: DbConfig) -> bool {
    &&& valid_config(c)
    &&& (vf.len() == 0 || (header_magic_ok(vf) && vf_dim(vf) == c.dimension))
    &&& (log.len() == 0 || header_magic_ok(log))
    &&& spec_n_slots(vf, c.dimension) <= u32::MAX
    &&& recs_ids_below(
        parse_from(spec_scan_log(log, c.dimension), 32),
        spec_n_slots(vf, c.dimension),
    )
    &&& no_dup_live(replay(parse_from(spec_scan_log(log, c.dimension), 32)))
}

/// What the file layer must do after a successful delete: append these
/// bytes to the data log at this offset, then sync.
pub struct DeleteEffect {
    /// Byte offset at which the tombstone record begins.
    pub log_offset: u64,
    /// The tombstone record's bytes.
    pub log_bytes: Vec<u8>,
}

/// The store: index, vector cache, ownership and deletion state per slot,
/// reusable slots, configuration, and the byte image of the data log.
pub struct Store {
    log: Vec<u8>,
    vectors: Vec<u32>,
    index: Vec<KeyedEntry>,
    id_to_key: Vec<String>,
    deleted: Vec<bool>,
    free_list: Vec<u32>,
    config: DbConfig,
}

impl Store {
    /// The store's configuration.
    pub closed spec fn cfg(self) -> DbConfig {
        self.config
    }

    /// The vector dimension.
    pub closed spec fn dim(self) -> int {
        self.config.dimension as int
    }

    /// Number of slots the vector file holds, deleted ones included.
    pub closed spec fn n_slots(self) -> int {
        self.deleted@.len() as int
    }

    /// The byte image of the data log.
    pub closed spec fn log_bytes(self) -> Seq<u8> {
        self.log@
    }

    /// The mapping the index stands for.
    pub closed spec fn key_map(self) -> Map<Seq<char>, EntryView> {
        index_map(self.index@)
    }

    /// Number of keys the index holds, deleted ones included.
    pub closed spec fn index_len(self) -> int {
        self.index@.len() as int
    }

    /// Whether slot `s` is deleted (free or never claimed).
    pub closed spec fn slot_deleted(self, s: int) -> bool {
        self.deleted@[s]
    }

    /// The key recorded as slot `s`'s owner.
    pub closed spec fn slot_key(self, s: int) -> Seq<char> {
        self.id_to_key@[s]@
    }

    /// The components stored in slot `s`.
    pub closed spec fn slot_vec(self, s: int) -> Seq<u32> {
        self.vectors@.subrange(s * self.dim(), (s + 1) * self.dim())
    }

    /// The whole flat component array.
    pub closed spec fn vectors_flat(self) -> Seq<u32> {
        self.vectors@
    }

    /// The reusable slot ids, in stack order.
    pub closed spec fn free_slots(self) -> Seq<u32> {
        self.free_list@
    }

    /// Number of deleted slots.
    pub closed spec fn deleted_count(self) -> int {
        count_true(self.deleted@)
    }

    /// What a read of `k` returns: the metadata text of the key's defining
    /// log record, if the key is live.
    pub closed spec fn spec_get(self, k: Seq<char>) -> Option<Seq<char>> {
        if self.key_map().dom().contains(k) && !self.key_map()[k].deleted {
            match parse_record_at(self.log@, self.key_map()[k].off) {
                Some(rv) => Some(decode_utf8(rv.val)),
                None => None,
            }
        } else {
            None
        }
    }

    /// Size bounds: a valid configuration, slot ids that fit in `u32`, and
    /// the three per-slot structures sized together.
    pub closed spec fn wf_sizes(self) -> bool {
        &&& valid_config(self.config)
        &&& self.deleted@.len() <= u32::MAX
        &&& self.vectors@.len() == self.deleted@.len() * self.dim()
        &&& self.id_to_key@.len() == self.deleted@.len()
    }

    /// The log image opens with a valid header and holds exactly a run of
    /// valid records after it.
    pub closed spec fn wf_log(self) -> bool {
        &&& self.log@.len() >= HEADER_SIZE
        &&& spec_u32_from_be_bytes(self.log@.subrange(0, 4)) == MAGIC
        &&& self.log@[4] == VERSION
        &&& parse_end(self.log@, 32) == self.log@.len()
    }

    /// Index entry `i` agrees with the per-slot structures and, if live,
    /// with the log record it points at.
    pub closed spec fn entry_ok(self, i: int) -> bool {
        let e = self.index@[i];
        &&& (e.entry.id as int) < self.n_slots()
        &&& (!e.entry.deleted ==> {
            &&& !self.deleted@[e.entry.id as int]
            &&& self.id_to_key@[e.entry.id as int]@ == e.key@
            &&& (parse_record_at(self.log@, e.entry.data_offset as int) matches Some(rv)
                && rv.id == e.entry.id && rv.key == encode_utf8(e.key@) && rv.tombstone == false)
        })
        &&& (e.entry.deleted ==> (self.deleted@[e.entry.id as int] || self.id_to_key@[e.entry.id
            as int]@ != e.key@))
    }

    /// Every key at most once, every entry consistent.
    pub closed spec fn wf_index(self) -> bool {
        &&& unique_keys(self.index@)
        &&& forall|i: int| 0 <= i < self.index@.len() ==> self.entry_ok(i)
    }

    /// Every live slot is owned by some live index entry.
    pub closed spec fn wf_slots(self) -> bool {
        forall|s: int|
            0 <= s < self.n_slots() && !self.deleted@[s] ==> exists|i: int|
                #![auto]
                0 <= i < self.index@.len() && !self.index@[i].entry.deleted
                    && self.index@[i].entry.id as int == s
    }

    /// The free list holds exactly the deleted slots, each once.
    pub closed spec fn wf_free(self) -> bool {
        &&& self.free_list@.no_duplicates()
        &&& forall|i: int|
            0 <= i < self.free_list@.len() ==> (#[trigger] self.free_list@[i] as int)
                < self.n_slots() && self.deleted@[self.free_list@[i] as int]
        &&& forall|s: int|
            0 <= s < self.n_slots() && self.deleted@[s] ==> self.free_list@.contains(s as u32)
    }

    /// Replaying the log image reproduces the index, and every slot the log
    /// mentions exists in the vector file.
    pub closed spec fn wf_replay(self) -> bool {
        &&& replay(parse_from(self.log@, 32)) == self.key_map()
        &&& recs_ids_below(parse_from(self.log@, 32), self.n_slots())
    }

    /// The store's full invariant: every constructor establishes it and
    /// every operation preserves it.
    pub closed spec fn wf(self) -> bool {
        &&& self.wf_sizes()
        &&& self.wf_log()
        &&& self.wf_index()
        &&& self.wf_slots()
        &&& self.wf_free()
        &&& self.wf_replay()
    }

    /// The log image, for the file layer to persist.
    pub fn log_image(&self) -> (r: &Vec<u8>)
        ensures
            r@ == self.log_bytes(),
    {
        &self.log
    }

    /// The byte length the data log should have on disk.
    pub fn log_len(&self) -> (r: u64)
        ensures
            r == self.log_bytes().len(),
    {
        self.log.len() as u64
    }
    /// Opens a store from the byte images of the two files, creating fresh
    /// images where a file is empty. Scans the log, truncating it after the
    /// last valid record; rebuilds the index, the per-slot ownership and
    /// deletion state, and the free list; and rejects a log that refers to
    /// slots the vector file does not hold.
    pub fn open(log_file: Vec<u8>, vector_file: Vec<u8>, config: DbConfig) -> (r: Result<
        Store,
        DbError,
    >)
        ensures
            r is Ok <==> open_accepts(log_file@, vector_file@, config),
            r matches Ok(s) ==> {
                &&& s.wf()
                &&& s.cfg() == config
                &&& s.log_bytes() == spec_scan_log(log_file@, config.dimension)
                &&& s.key_map() == replay(parse_from(s.log_bytes(), 32))
                &&& s.n_slots() == spec_n_slots(vector_file@, config.dimension)
                &&& (vector_file@.len() >= HEADER_SIZE ==> s.vectors_flat() == vec_bits_decoding(
                    vector_file@.subrange(
                        32,
                        32 + 4 * spec_n_slots(vector_file@, config.dimension) * (config.dimension
                            as int),
                    ),
                ))
                &&& (vector_file@.len() == 0 ==> s.n_slots() == 0 && s.vectors_flat()
                    == Seq::<u32>::empty())
                &&& forall|slot: int|
                    0 <= slot < s.n_slots() ==> s.slot_deleted(slot) == !live_at(
                        s.key_map(),
                        slot,
                    )
                &&& s.free_slots().no_duplicates()
                &&& (forall|i: int|
                    0 <= i < s.free_slots().len() ==> (#[trigger] s.free_slots()[i] as int)
                        < s.n_slots() && s.slot_deleted(s.free_slots()[i] as int))
                &&& (forall|t: int|
                    0 <= t < s.n_slots() && s.slot_deleted(t) ==> s.free_slots().contains(
                        t as u32,
                    ))
                &&& (forall|i: int, j: int|
                    0 <= i < j < s.free_slots().len() ==> s.free_slots()[i] < s.free_slots()[j])
            },
            !valid_config(config) ==> r matches Err(DbError::ConfigError(_)),
            (valid_config(config) && (vector_file@.len() == 0 || (header_magic_ok(vector_file@)
                && vf_dim(vector_file@) == config.dimension)) && (log_file@.len() == 0
                || header_magic_ok(log_file@)) && !open_accepts(log_file@, vector_file@, config))
                ==> r matches Err(DbError::Corruption(_)),
            (valid_config(config) && vector_file@.len() > 0 && !header_magic_ok(vector_file@))
                ==> r matches Err(DbError::Corruption(_)),
            (valid_config(config) && vector_file@.len() > 0 && header_magic_ok(vector_file@)
                && vf_dim(vector_file@) != config.dimension) ==> (r matches Err(
                DbError::DimensionMismatch { expected, got },
            ) && expected == config.dimension && got == vf_dim(vector_file@)),
    {
        if config.dimension == 0 || config.dimension > MAX_DIMENSION {
            return Err(DbError::ConfigError("dimension out of range".to_owned()));
        }
        if config.compact_threshold_ppm > PPM_SCALE {
            return Err(DbError::ConfigError("compaction ratio out of range".to_owned()));
        }
        // vector file: header, whole-slot alignment, component array
        let mut n_slots: usize = 0;
        let mut vectors: Vec<u32> = Vec::new();
        if vector_file.len() > 0 {
            let h = match FileHeader::decode(&vector_file) {
                Some(h) => h,
                None => {
                    return Err(DbError::Corruption("invalid vector file header".to_owned()));
                },
            };
            if h.dimension != config.dimension {
                return Err(
                    DbError::DimensionMismatch { expected: config.dimension, got: h.dimension },
                );
            }
            match read_slots(&vector_file, config.dimension) {
                Some((n, vs)) => {
                    n_slots = n;
                    vectors = vs;
                },
                None => {
                    return Err(DbError::Corruption("vector file too large".to_owned()));
                },
            }
        }
        // data log: validate or create the header
        let mut log: Vec<u8>;
        if log_file.len() == 0 {
            let h = FileHeader::new(config.dimension);
            log = h.encode();
            proof {
                assert(log@ =~= spec_header_bytes(config.dimension));
                crate::format::lemma_header_bytes_fields(config.dimension);
            }
        } else {
            match FileHeader::decode(&log_file) {
                Some(_) => {},
                None => {
                    return Err(DbError::Corruption("invalid data log header".to_owned()));
                },
            }
            log = log_file;
        }
        // scan the records forward from the header
        let (temp, cur, max_id_plus1, recs_g) = scan_log(&log);
        let ghost recs = recs_g@;
        proof {
            lemma_parse_from_restrict(log@, 32);
        }
        let ghost full_log = log@;
        log.truncate(cur);
        proof {
            assert(log@ =~= full_log.take(cur as int));
            assert(parse_from(log@, 32) == recs);
            assert(parse_end(log@, 32) == cur as int);
            assert(log@.subrange(0, 4) =~= full_log.subrange(0, 4));
            assert(log@[4] == full_log[4]);
            assert forall|j: int|
                0 <= j < temp@.len() && !(#[trigger] temp@[j]).entry.deleted implies (
            parse_record_at(log@, temp@[j].entry.data_offset as int) matches Some(rv)
                && rv.id == temp@[j].entry.id && rv.key == encode_utf8(temp@[j].key@)
                && rv.tombstone == false) by {
                let e = temp@[j];
                let w = choose|w: int|
                    #![auto]
                    0 <= w < recs.len() && recs[w].off == e.entry.data_offset as int
                        && recs[w].rec.id == e.entry.id && recs[w].rec.key == encode_utf8(e.key@)
                        && recs[w].rec.tombstone == false;
                crate::record::lemma_parse_from_records(log@, 32, w);
            }
        }
        // the log must not refer to slots the vector file does not hold
        if max_id_plus1 > n_slots as u64 {
            return Err(
                DbError::Corruption("log record points past the end of the vector file".to_owned()),
            );
        }
        // per-slot ownership and deletion state
        let (id_to_key, deleted) = match build_slots(&temp, n_slots) {
            Some(pair) => pair,
            None => {
                proof {
                    let (j1, j2) = choose|j1: int, j2: int|
                        #![auto]
                        0 <= j1 < j2 < temp@.len() && !temp@[j1].entry.deleted
                            && !temp@[j2].entry.deleted && temp@[j1].entry.id
                            == temp@[j2].entry.id;
                    lemma_index_map_at(temp@, j1);
                    lemma_index_map_at(temp@, j2);
                    assert(temp@[j1].key@ != temp@[j2].key@);
                    assert(!no_dup_live(index_map(temp@)));
                }
                return Err(
                    DbError::Corruption("two live keys share one vector slot".to_owned()),
                );
            },
        };
        let free_list = build_free_list(&deleted);
        let store = Store { log, vectors, index: temp, id_to_key, deleted, free_list, config };
        proof {
            lemma_store_open_wf(store, recs, n_slots as int);
            assert(spec_scan_log(log_file@, config.dimension) =~= store.log@);
            assert(no_dup_live(index_map(store.index@))) by {
                assert forall|k1: Seq<char>, k2: Seq<char>|
                    #![auto]
                    index_map(store.index@).dom().contains(k1) && index_map(
                        store.index@,
                    ).dom().contains(k2) && !index_map(store.index@)[k1].deleted && !index_map(
                        store.index@,
                    )[k2].deleted && index_map(store.index@)[k1].id == index_map(
                        store.index@,
                    )[k2].id implies k1 == k2 by {
                    lemma_index_map_dom(store.index@, k1);
                    lemma_index_map_dom(store.index@, k2);
                    let j1 = choose|j: int|
                        0 <= j < store.index@.len() && store.index@[j].key@ == k1;
                    let j2 = choose|j: int|
                        0 <= j < store.index@.len() && store.index@[j].key@ == k2;
                    lemma_index_map_at(store.index@, j1);
                    lemma_index_map_at(store.index@, j2);
                }
            }
            assert forall|slot: int| 0 <= slot < store.n_slots() implies store.slot_deleted(slot)
                == !live_at(store.key_map(), slot) by {
                if !store.deleted@[slot] {
                    let j = choose|j: int|
                        #![auto]
                        0 <= j < store.index@.len() && !store.index@[j].entry.deleted
                            && store.index@[j].entry.id as int == slot;
                    lemma_index_map_at(store.index@, j);
                    assert(live_at(store.key_map(), slot));
                } else {
                    if live_at(store.key_map(), slot) {
                        let kx = choose|kx: Seq<char>|
                            #![auto]
                            store.key_map().dom().contains(kx) && !store.key_map()[kx].deleted
                                && store.key_map()[kx].id as int == slot;
                        lemma_index_map_dom(store.index@, kx);
                        let j = choose|j: int|
                            0 <= j < store.index@.len() && store.index@[j].key@ == kx;
                        lemma_index_map_at(store.index@, j);
                        assert(!store.deleted@[slot]);
                    }
                }
            }
        }
        Ok(store)
    }
}

/// Reads the whole-slot prefix of the vector file's component array.
/// `None` when the file holds more slots than ids can address.
fn read_slots(vector_file: &Vec<u8>, dimension: u32) -> (r: Option<(usize, Vec<u32>)>)
    requires
        vector_file@.len() >= HEADER_SIZE,
        1 <= dimension <= MAX_DIMENSION,
    ensures
        match r {
            Some((n, vs)) => {
                &&& n == spec_n_slots(vector_file@, dimension)
                &&& n <= u32::MAX
                &&& vs@.len() == n * (dimension as int)
                &&& vs@ == vec_bits_decoding(
                    vector_file@.subrange(
                        32,
                        32 + 4 * spec_n_slots(vector_file@, dimension) * (dimension as int),
                    ),
                )
            },
            None => spec_n_slots(vector_file@, dimension) > u32::MAX,
        },
{
    let dim = dimension as usize;
    let slot_bytes = dim * 4;
    let vf_len = vector_file.len();
    let data_len = vf_len - HEADER_SIZE;
    let n_slots = data_len / slot_bytes;
    proof {
        lemma_fundamental_div_mod(data_len as int, slot_bytes as int);
        lemma_mod_bound(data_len as int, slot_bytes as int);
        assert((slot_bytes as int) * (n_slots as int) <= data_len as int);
        assert((slot_bytes as int) * (n_slots as int) == 4 * ((n_slots as int) * (dim as int)))
            by (nonlinear_arith)
            requires
                slot_bytes as int == (dim as int) * 4,
        ;
        assert((n_slots as int) * (dim as int) >= 0) by (nonlinear_arith)
            requires
                dim as int >= 1 && n_slots as int >= 0,
        ;
    }
    if n_slots > u32::MAX as usize {
        return None;
    }
    let total = n_slots * dim;
    let mut vectors: Vec<u32> = Vec::new();
    let mut i: usize = 0;
    while i < total
        invariant
            4 * total <= data_len,
            data_len + 32 == vf_len,
            vf_len == vector_file@.len(),
            i <= total,
            vectors@.len() == i,
            forall|j: int|
                0 <= j < i ==> vectors@[j] == spec_u32_from_be_bytes(
                    vector_file@.subrange(32 + 4 * j, 32 + 4 * j + 4),
                ),
        decreases total - i,
    {
        let v = read_u32_be(vector_file, 32 + 4 * i);
        vectors.push(v);
        i = i + 1;
    }
    proof {
        let data = vector_file@.subrange(32, 32 + 4 * (total as int));
        assert forall|j: int| 0 <= j < total implies #[trigger] data.subrange(4 * j, 4 * j + 4)
            =~= vector_file@.subrange(32 + 4 * j, 32 + 4 * j + 4) by {}
        assert(vectors@ =~= vec_bits_decoding(data));
        assert(4 * (n_slots as int) * (dim as int) == 4 * (total as int)) by (nonlinear_arith)
            requires
                total as int == (n_slots as int) * (dim as int),
        ;
        assert((n_slots as int) * (dimension as int) == total as int);
    }
    Some((n_slots, vectors))
}

/// What the log scan guarantees: the records parsed, the stopping point,
/// the provisional index they replay to, and bounds on the slot ids seen.
pub open spec fn scan_post(
    log: Seq<u8>,
    temp: Seq<KeyedEntry>,
    cur: int,
    max_id_plus1: u64,
    recs: Seq<LocRecord>,
) -> bool {
    &&& 32 <= cur <= log.len()
    &&& parse_from(log, 32) == recs
    &&& parse_end(log, 32) == cur
    &&& unique_keys(temp)
    &&& index_map(temp) == replay(recs)
    &&& (forall|j: int|
        0 <= j < temp.len() ==> {
            let e = #[trigger] temp[j];
            &&& (e.entry.id as u64) < max_id_plus1
            &&& (!e.entry.deleted ==> exists|w: int|
                #![auto]
                0 <= w < recs.len() && recs[w].off == e.entry.data_offset as int && recs[w].rec.id
                    == e.entry.id && recs[w].rec.key == encode_utf8(e.key@)
                    && recs[w].rec.tombstone == false)
        })
    &&& recs_ids_below(recs, max_id_plus1 as int)
    &&& max_id_plus1 <= 0x1_0000_0000u64
    &&& (max_id_plus1 == 0 || exists|i: int|
        #![auto]
        0 <= i < recs.len() && (recs[i].rec.id as u64) + 1 == max_id_plus1)
}

/// Scans the log from the header, building the provisional index: a put
/// installs or replaces its key, a tombstone marks an existing key deleted.
/// Returns the index, the end of the last valid record, one past the
/// largest slot id seen, and the parsed records.
fn scan_log(log: &Vec<u8>) -> (r: (Vec<KeyedEntry>, usize, u64, Ghost<Seq<LocRecord>>))
    requires
        log@.len() >= 32,
    ensures
        scan_post(log@, r.0@, r.1 as int, r.2, r.3@),
{
    let log_len = log.len();
    let mut cur: usize = HEADER_SIZE;
    let mut temp: Vec<KeyedEntry> = Vec::new();
    let mut max_id_plus1: u64 = 0;
    let ghost mut recs: Seq<LocRecord> = Seq::empty();
    proof {
        assert(parse_from(log@, 32) =~= recs + parse_from(log@, 32));
    }
    loop
        invariant
            log_len == log@.len(),
            32 <= cur <= log@.len(),
            parse_from(log@, 32) == recs + parse_from(log@, cur as int),
            parse_end(log@, 32) == parse_end(log@, cur as int),
            unique_keys(temp@),
            index_map(temp@) == replay(recs),
            forall|j: int|
                0 <= j < temp@.len() ==> {
                    let e = #[trigger] temp@[j];
                    &&& (e.entry.id as u64) < max_id_plus1
                    &&& (!e.entry.deleted ==> exists|w: int|
                        #![auto]
                        0 <= w < recs.len() && recs[w].off == e.entry.data_offset as int
                            && recs[w].rec.id == e.entry.id && recs[w].rec.key == encode_utf8(
                            e.key@,
                        ) && recs[w].rec.tombstone == false)
                },
            recs_ids_below(recs, max_id_plus1 as int),
            max_id_plus1 <= 0x1_0000_0000u64,
            max_id_plus1 == 0 || exists|i: int|
                #![auto]
                0 <= i < recs.len() && (recs[i].rec.id as u64) + 1 == max_id_plus1,
        ensures
            parse_record_at(log@, cur as int) is None,
        decreases log@.len() - cur,
    {
        match decode_record_at(log, cur) {
            None => {
                break ;
            },
            Some((rec, len)) => {
                let ghost lr = LocRecord { off: cur as int, rec: rec.view() };
                let ghost old_temp = temp@;
                let ghost old_recs = recs;
                if (rec.id as u64) + 1 > max_id_plus1 {
                    max_id_plus1 = rec.id as u64 + 1;
                }
                if rec.tombstone {
                    match find_entry(&temp, &rec.key) {
                        Some(i) => {
                            let oid = temp[i].entry.id;
                            let ooff = temp[i].entry.data_offset;
                            let ne = KeyedEntry {
                                key: rec.key,
                                entry: IndexEntry { id: oid, data_offset: ooff, deleted: true },
                            };
                            temp[i] = ne;
                            proof {
                                lemma_index_map_at(old_temp, i as int);
                                lemma_index_map_update(old_temp, i as int, ne);
                            }
                        },
                        None => {
                            proof {
                                lemma_index_map_absent(temp@, rec.key@);
                            }
                        },
                    }
                } else {
                    let e = IndexEntry { id: rec.id, data_offset: cur as u64, deleted: false };
                    match find_entry(&temp, &rec.key) {
                        Some(i) => {
                            let ne = KeyedEntry { key: rec.key, entry: e };
                            temp[i] = ne;
                            proof {
                                lemma_index_map_update(old_temp, i as int, ne);
                            }
                        },
                        None => {
                            let ne = KeyedEntry { key: rec.key, entry: e };
                            temp.push(ne);
                            proof {
                                lemma_index_map_absent(old_temp, ne.key@);
                                lemma_index_map_push(old_temp, ne);
                            }
                        },
                    }
                }
                proof {
                    recs = recs.push(lr);
                    assert(recs.drop_last() =~= old_recs);
                    assert(recs.last() == lr);
                    assert(parse_from(log@, cur as int) == seq![lr] + parse_from(
                        log@,
                        cur as int + len as int,
                    ));
                    assert(parse_from(log@, 32) =~= recs + parse_from(
                        log@,
                        cur as int + len as int,
                    ));
                    assert(parse_end(log@, cur as int) == parse_end(
                        log@,
                        cur as int + len as int,
                    ));
                }
                cur = cur + len;
            },
        }
    }
    proof {
        assert(parse_from(log@, cur as int) =~= Seq::<LocRecord>::empty());
        assert(parse_from(log@, 32) =~= recs);
        assert(parse_end(log@, cur as int) == cur as int);
        assert(parse_end(log@, 32) == cur as int);
        assert(scan_post(log@, temp@, cur as int, max_id_plus1, recs));
    }
    (temp, cur, max_id_plus1, Ghost(recs))
}

/// Builds slot ownership and the deletion bitmap from the recovered index:
/// live keys claim their slots first, then tombstoned keys label the slots
/// no live key claimed. `None` when two live keys claim one slot.
fn build_slots(temp: &Vec<KeyedEntry>, n: usize) -> (r: Option<(Vec<String>, Vec<bool>)>)
    requires
        forall|j: int| 0 <= j < temp@.len() ==> (#[trigger] temp@[j].entry.id as int) < n as int,
    ensures
        match r {
            Some(pair) => {
                let (id_to_key, deleted) = pair;
                &&& id_to_key@.len() == n
                &&& deleted@.len() == n
                &&& (forall|s: int|
                    0 <= s < n ==> (!deleted@[s] <==> exists|j: int|
                        #![auto]
                        0 <= j < temp@.len() && !temp@[j].entry.deleted && temp@[j].entry.id
                            as int == s))
                &&& (forall|j: int|
                    #![auto]
                    0 <= j < temp@.len() && !temp@[j].entry.deleted ==> !deleted@[temp@[j].entry.id
                        as int] && id_to_key@[temp@[j].entry.id as int]@ == temp@[j].key@)
            },
            None => exists|j1: int, j2: int|
                #![auto]
                0 <= j1 < j2 < temp@.len() && !temp@[j1].entry.deleted && !temp@[j2].entry.deleted
                    && temp@[j1].entry.id == temp@[j2].entry.id,
        },
{
    let mut id_to_key: Vec<String> = Vec::new();
    let mut deleted: Vec<bool> = Vec::new();
    let mut k: usize = 0;
    while k < n
        invariant
            k <= n,
            id_to_key@.len() == k,
            deleted@.len() == k,
            forall|j: int| 0 <= j < k ==> deleted@[j] == true,
        decreases n - k,
    {
        id_to_key.push(String::new());
        deleted.push(true);
        k = k + 1;
    }
    let tlen = temp.len();
    // first pass: live keys claim their slots
    let mut i: usize = 0;
    while i < tlen
        invariant
            i <= tlen,
            tlen == temp@.len(),
            deleted@.len() == n,
            id_to_key@.len() == n,
            forall|j: int| 0 <= j < tlen ==> (#[trigger] temp@[j].entry.id as int) < n as int,
            forall|s: int|
                0 <= s < n ==> (!deleted@[s] <==> exists|j: int|
                    #![auto]
                    0 <= j < i && !temp@[j].entry.deleted && temp@[j].entry.id as int == s),
            forall|j: int|
                #![auto]
                0 <= j < i && !temp@[j].entry.deleted ==> !deleted@[temp@[j].entry.id as int]
                    && id_to_key@[temp@[j].entry.id as int]@ == temp@[j].key@,
        decreases tlen - i,
    {
        if !temp[i].entry.deleted {
            let s = temp[i].entry.id as usize;
            if !deleted[s] {
                proof {
                    let j = choose|j: int|
                        #![auto]
                        0 <= j < i && !temp@[j].entry.deleted && temp@[j].entry.id as int
                            == s as int;
                    assert(0 <= j && j < i as int && (i as int) < temp@.len());
                }
                return None;
            }
            let key_copy = temp[i].key.clone();
            id_to_key[s] = key_copy;
            deleted[s] = false;
        }
        i = i + 1;
    }
    // second pass: tombstoned keys label slots no live key claimed
    let mut i2: usize = 0;
    while i2 < tlen
        invariant
            i2 <= tlen,
            tlen == temp@.len(),
            deleted@.len() == n,
            id_to_key@.len() == n,
            forall|j: int| 0 <= j < tlen ==> (#[trigger] temp@[j].entry.id as int) < n as int,
            forall|s: int|
                0 <= s < n ==> (!deleted@[s] <==> exists|j: int|
                    #![auto]
                    0 <= j < tlen && !temp@[j].entry.deleted && temp@[j].entry.id as int == s),
            forall|j: int|
                #![auto]
                0 <= j < tlen && !temp@[j].entry.deleted ==> !deleted@[temp@[j].entry.id as int]
                    && id_to_key@[temp@[j].entry.id as int]@ == temp@[j].key@,
        decreases tlen - i2,
    {
        if temp[i2].entry.deleted {
            let s = temp[i2].entry.id as usize;
            if deleted[s] {
                let key_copy = temp[i2].key.clone();
                id_to_key[s] = key_copy;
            }
        }
        i2 = i2 + 1;
    }
    Some((id_to_key, deleted))
}

/// The free list after recovery: every deleted slot, ascending.
fn build_free_list(deleted: &Vec<bool>) -> (r: Vec<u32>)
    requires
        deleted@.len() <= u32::MAX,
    ensures
        r@.no_duplicates(),
        forall|i: int|
            0 <= i < r@.len() ==> (#[trigger] r@[i] as int) < deleted@.len()
                && deleted@[r@[i] as int],
        forall|s: int| 0 <= s < deleted@.len() && deleted@[s] ==> r@.contains(s as u32),
        forall|i: int, j: int| 0 <= i < j < r@.len() ==> r@[i] < r@[j],
{
    let n = deleted.len();
    let mut free_list: Vec<u32> = Vec::new();
    let mut s: usize = 0;
    while s < n
        invariant
            s <= n,
            n == deleted@.len(),
            n <= u32::MAX,
            forall|j: int|
                0 <= j < free_list@.len() ==> (#[trigger] free_list@[j] as int) < s as int
                    && deleted@[free_list@[j] as int],
            forall|j1: int, j2: int|
                0 <= j1 < j2 < free_list@.len() ==> free_list@[j1] < free_list@[j2],
            forall|t: int| 0 <= t < s && deleted@[t] ==> free_list@.contains(t as u32),
        decreases n - s,
    {
        if deleted[s] {
            let ghost oldf = free_list@;
            free_list.push(s as u32);
            proof {
                assert(free_list@ =~= oldf.push(s as u32));
                assert forall|t: int| 0 <= t < s + 1 && deleted@[t] implies free_list@.contains(
                    t as u32,
                ) by {
                    if t < s as int {
                        let w = choose|w: int| 0 <= w < oldf.len() && oldf[w] == t as u32;
                        assert(free_list@[w] == t as u32);
                    } else {
                        assert(free_list@[free_list@.len() - 1] == t as u32);
                    }
                }
            }
        }
        s = s + 1;
    }
    proof {
        assert(free_list@.no_duplicates()) by {
            assert forall|j1: int, j2: int|
                0 <= j1 < free_list@.len() && 0 <= j2 < free_list@.len() && j1 != j2 implies
                free_list@[j1] != free_list@[j2] by {}
        }
    }
    free_list
}

/// Everything `open` established, bundled: the assembled store satisfies the
/// full invariant.
proof fn lemma_store_open_wf(store: Store, recs: Seq<LocRecord>, n: int)
    requires
        valid_config(store.config),
        n == store.deleted@.len(),
        n <= u32::MAX,
        store.vectors@.len() == n * (store.config.dimension as int),
        store.id_to_key@.len() == n,
        store.log@.len() >= 32,
        spec_u32_from_be_bytes(store.log@.subrange(0, 4)) == MAGIC,
        store.log@[4] == VERSION,
        parse_end(store.log@, 32) == store.log@.len(),
        parse_from(store.log@, 32) == recs,
        index_map(store.index@) == replay(recs),
        recs_ids_below(recs, n),
        unique_keys(store.index@),
        forall|j: int|
            0 <= j < store.index@.len() ==> (#[trigger] store.index@[j].entry.id as int) < n,
        forall|j: int|
            #![auto]
            0 <= j < store.index@.len() && !store.index@[j].entry.deleted ==> (parse_record_at(
                store.log@,
                store.index@[j].entry.data_offset as int,
            ) matches Some(rv) && rv.id == store.index@[j].entry.id && rv.key == encode_utf8(
                store.index@[j].key@,
            ) && rv.tombstone == false),
        forall|s: int|
            0 <= s < n ==> (!store.deleted@[s] <==> exists|j: int|
                #![auto]
                0 <= j < store.index@.len() && !store.index@[j].entry.deleted
                    && store.index@[j].entry.id as int == s),
        forall|j: int|
            #![auto]
            0 <= j < store.index@.len() && !store.index@[j].entry.deleted
                ==> !store.deleted@[store.index@[j].entry.id as int]
                && store.id_to_key@[store.index@[j].entry.id as int]@ == store.index@[j].key@,
        store.free_list@.no_duplicates(),
        forall|i: int|
            0 <= i < store.free_list@.len() ==> (#[trigger] store.free_list@[i] as int) < n
                && store.deleted@[store.free_list@[i] as int],
        forall|s: int| 0 <= s < n && store.deleted@[s] ==> store.free_list@.contains(s as u32),
    ensures
        store.wf(),
{
    assert forall|i: int| 0 <= i < store.index@.len() implies store.entry_ok(i) by {
        let e = store.index@[i];
        if e.entry.deleted {
            if !store.deleted@[e.entry.id as int] {
                let j = choose|j: int|
                    #![auto]
                    0 <= j < store.index@.len() && !store.index@[j].entry.deleted
                        && store.index@[j].entry.id as int == e.entry.id as int;
                assert(store.id_to_key@[e.entry.id as int]@ == store.index@[j].key@);
                assert(j != i);
                assert(store.index@[j].key@ != e.key@);
            }
        }
    }
}


/// Updating one element changes the count of set booleans by the difference
/// at that position.
proof fn lemma_count_true_update(s: Seq<bool>, i: int, v: bool)
    requires
        0 <= i < s.len(),
    ensures
        count_true(s.update(i, v)) == count_true(s) - (if s[i] {
            1int
        } else {
            0int
        }) + (if v {
            1int
        } else {
            0int
        }),
    decreases s.len(),
{
    let s2 = s.update(i, v);
    if i == s.len() - 1 {
        assert(s2.drop_last() =~= s.drop_last());
    } else {
        assert(s2.drop_last() =~= s.drop_last().update(i, v));
        lemma_count_true_update(s.drop_last(), i, v);
        assert(s2.last() == s.last());
    }
}

/// Appending one element adds its contribution to the count.
proof fn lemma_count_true_push(s: Seq<bool>, v: bool)
    ensures
        count_true(s.push(v)) == count_true(s) + (if v {
            1int
        } else {
            0int
        }),
{
    assert(s.push(v).drop_last() =~= s);
    assert(s.push(v).last() == v);
}

/// A read is unaffected by appending log bytes and changing the index at one
/// other key alone.
proof fn lemma_spec_get_frame(pre: Store, post: Store, changed: Seq<char>, ext: Seq<u8>)
    requires
        pre.wf(),
        post.log@ == pre.log@ + ext,
        forall|k2: Seq<char>|
            k2 != changed ==> (#[trigger] post.key_map().dom().contains(k2)
                == pre.key_map().dom().contains(k2) && (pre.key_map().dom().contains(k2)
                ==> post.key_map()[k2] == pre.key_map()[k2])),
    ensures
        forall|k2: Seq<char>|
            k2 != changed ==> #[trigger] post.spec_get(k2) == pre.spec_get(k2),
{
    assert forall|k2: Seq<char>| k2 != changed implies #[trigger] post.spec_get(k2)
        == pre.spec_get(k2) by {
        if pre.key_map().dom().contains(k2) && !pre.key_map()[k2].deleted {
            lemma_index_map_dom(pre.index@, k2);
            let j = choose|j: int| 0 <= j < pre.index@.len() && pre.index@[j].key@ == k2;
            lemma_index_map_at(pre.index@, j);
            assert(pre.entry_ok(j));
            crate::record::lemma_parse_record_at_stable(
                pre.log@,
                ext,
                pre.key_map()[k2].off,
            );
        }
    }
}

impl Store {
    /// Looks up a key and returns the metadata text of its defining log
    /// record; `NotFound` when the key is absent or deleted.
    pub fn get(&self, key: &String) -> (r: Result<String, DbError>)
        requires
            self.wf(),
        ensures
            r is Ok <==> self.spec_get(key@) is Some,
            r matches Ok(v) ==> self.spec_get(key@) == Some(v@),
            r matches Err(e) ==> (e matches DbError::NotFound(k) && k@ == key@),
    {
        let i = match find_entry(&self.index, key) {
            None => {
                proof {
                    lemma_index_map_absent(self.index@, key@);
                }
                return Err(DbError::NotFound(key.clone()));
            },
            Some(i) => i,
        };
        proof {
            lemma_index_map_at(self.index@, i as int);
            assert(self.entry_ok(i as int));
        }
        if self.index[i].entry.deleted {
            return Err(DbError::NotFound(key.clone()));
        }
        let loglen = self.log.len();
        proof {
            let e = self.index@[i as int];
            assert(parse_record_at(self.log@, e.entry.data_offset as int) is Some);
            assert(e.entry.data_offset as int + 17 <= loglen as int);
        }
        let off = self.index[i].entry.data_offset as usize;
        match decode_record_at(&self.log, off) {
            Some((rec, _len)) => Ok(rec.value),
            None => {
                proof {
                    assert(false);
                }
                Err(DbError::Corruption("log record unreadable".to_owned()))
            },
        }
    }

    /// Marks a key deleted: appends one tombstone record, flips the entry
    /// and the slot's deletion bit, and frees the slot for reuse. Deleting a
    /// key that is already deleted succeeds and writes nothing; deleting an
    /// unknown key fails with `NotFound`.
    #[verifier::rlimit(50)]
    pub fn delete(&mut self, key: &String) -> (r: Result<Option<DeleteEffect>, DbError>)
        requires
            old(self).wf(),
        ensures
            final(self).wf(),
            final(self).cfg() == old(self).cfg(),
            final(self).n_slots() == old(self).n_slots(),
            final(self).vectors_flat() == old(self).vectors_flat(),
            r is Err <==> !old(self).key_map().dom().contains(key@),
            r matches Err(e) ==> (e matches DbError::NotFound(k) && k@ == key@ && *final(self)
                == *old(self)),
            r matches Ok(None) ==> {
                &&& old(self).key_map().dom().contains(key@)
                &&& old(self).key_map()[key@].deleted
                &&& *final(self) == *old(self)
            },
            r matches Ok(Some(eff)) ==> {
                let e0 = old(self).key_map()[key@];
                &&& old(self).key_map().dom().contains(key@)
                &&& !e0.deleted
                &&& eff.log_offset == old(self).log_bytes().len()
                &&& eff.log_bytes@ == crate::record::spec_record_bytes(
                    e0.id,
                    encode_utf8(key@),
                    crate::json::null_json_bytes(),
                    true,
                )
                &&& final(self).log_bytes() == old(self).log_bytes() + eff.log_bytes@
                &&& final(self).key_map() == old(self).key_map().insert(
                    key@,
                    EntryView { id: e0.id, off: e0.off, deleted: true },
                )
                &&& final(self).spec_get(key@) is None
                &&& (forall|k2: Seq<char>|
                    k2 != key@ ==> #[trigger] final(self).spec_get(k2) == old(self).spec_get(k2))
                &&& final(self).free_slots() == old(self).free_slots().push(e0.id)
                &&& (forall|s: int|
                    0 <= s < final(self).n_slots() ==> final(self).slot_deleted(s) == (s == e0.id
                        as int || old(self).slot_deleted(s)))
                &&& final(self).deleted_count() == old(self).deleted_count() + 1
                &&& (forall|s: int|
                    0 <= s < final(self).n_slots() ==> #[trigger] final(self).slot_key(s) == old(
                        self,
                    ).slot_key(s))
            },
    {
        let i = match find_entry(&self.index, key) {
            None => {
                proof {
                    lemma_index_map_absent(self.index@, key@);
                }
                return Err(DbError::NotFound(key.clone()));
            },
            Some(i) => i,
        };
        proof {
            lemma_index_map_at(self.index@, i as int);
            assert(self.entry_ok(i as int));
        }
        if self.index[i].entry.deleted {
            return Ok(None);
        }
        let id = self.index[i].entry.id;
        let off = self.index[i].entry.data_offset;
        let ghost pre = *self;

        // append the tombstone record
        let null_bytes = json_null();
        let rec_bytes = encode_record(id, key, &null_bytes, true);
        let log_offset = self.log.len() as u64;
        self.log.extend_from_slice(rec_bytes.as_slice());
        proof {
            broadcast use vstd::utf8::encode_utf8_valid_utf8;

            assert(self.log@ =~= pre.log@ + crate::record::spec_record_bytes(
                id,
                encode_utf8(key@),
                crate::json::null_json_bytes(),
                true,
            ));
            crate::record::lemma_append_record(
                pre.log@,
                self.log@,
                id,
                encode_utf8(key@),
                crate::json::null_json_bytes(),
                true,
            );
        }
        // mark the entry deleted, keeping its slot and offset
        let ne = KeyedEntry {
            key: key.clone(),
            entry: IndexEntry { id, data_offset: off, deleted: true },
        };
        let ghost mid_index = self.index@;
        self.index[i] = ne;
        proof {
            lemma_index_map_update(mid_index, i as int, ne);
        }
        // flip the slot's deletion bit and free it
        let s = id as usize;
        let ghost pre_deleted = self.deleted@;
        self.deleted[s] = true;
        self.free_list.push(id);
        proof {
            lemma_delete_restores_wf(pre, *self, key@, i as int, id, off);
            lemma_count_true_update(pre_deleted, s as int, true);
            lemma_spec_get_frame(pre, *self, key@, rec_bytes@);
        }
        Ok(Some(DeleteEffect { log_offset, log_bytes: rec_bytes }))
    }
}

/// The state after a delete satisfies the invariant again, and replaying the
/// extended log yields the updated index.
proof fn lemma_delete_restores_wf(
    pre: Store,
    post: Store,
    k: Seq<char>,
    i: int,
    id: u32,
    off: u64,
)
    requires
        pre.wf(),
        0 <= i < pre.index@.len(),
        pre.index@[i].key@ == k,
        pre.index@[i].entry.id == id,
        pre.index@[i].entry.data_offset == off,
        !pre.index@[i].entry.deleted,
        post.config == pre.config,
        post.vectors@ == pre.vectors@,
        post.id_to_key@ == pre.id_to_key@,
        post.log@ == pre.log@ + crate::record::spec_record_bytes(
            id,
            encode_utf8(k),
            crate::json::null_json_bytes(),
            true,
        ),
        parse_from(post.log@, 32) == parse_from(pre.log@, 32) + seq![
            LocRecord {
                off: pre.log@.len() as int,
                rec: RecordView {
                    id,
                    key: encode_utf8(k),
                    val: crate::json::null_json_bytes(),
                    tombstone: true,
                },
            },
        ],
        parse_end(post.log@, 32) == post.log@.len(),
        post.log@.subrange(0, 4) == pre.log@.subrange(0, 4),
        post.log@[4] == pre.log@[4],
        forall|o: int|
            parse_record_at(pre.log@, o) is Some ==> #[trigger] parse_record_at(post.log@, o)
                == parse_record_at(pre.log@, o),
        post.index@ == pre.index@.update(
            i,
            KeyedEntry {
                key: post.index@[i].key,
                entry: IndexEntry { id, data_offset: off, deleted: true },
            },
        ),
        post.index@[i].key@ == k,
        post.deleted@ == pre.deleted@.update(id as int, true),
        post.free_list@ == pre.free_list@.push(id),
    ensures
        post.wf(),
        post.key_map() == pre.key_map().insert(
            k,
            EntryView { id, off: off as int, deleted: true },
        ),
{
    assert(pre.entry_ok(i));
    lemma_index_map_at(pre.index@, i);
    lemma_index_map_update(
        pre.index@,
        i,
        KeyedEntry {
            key: post.index@[i].key,
            entry: IndexEntry { id, data_offset: off, deleted: true },
        },
    );
    // replay of the extended log
    let rs = parse_from(pre.log@, 32);
    let lr = LocRecord {
        off: pre.log@.len() as int,
        rec: RecordView {
            id,
            key: encode_utf8(k),
            val: crate::json::null_json_bytes(),
            tombstone: true,
        },
    };
    assert((rs + seq![lr]).drop_last() =~= rs);
    assert((rs + seq![lr]).last() == lr);
    vstd::utf8::encode_utf8_decode_utf8(k);
    assert(replay(rs + seq![lr]) == replay(rs).insert(
        k,
        EntryView { id: replay(rs)[k].id, off: replay(rs)[k].off, deleted: true },
    ));
    assert(replay(rs)[k] == pre.key_map()[k]);
    assert(pre.key_map()[k] == EntryView { id, off: off as int, deleted: false });
    assert(post.key_map() =~= pre.key_map().insert(
        k,
        EntryView { id, off: off as int, deleted: true },
    ));
    // entry consistency
    assert forall|j: int| 0 <= j < post.index@.len() implies post.entry_ok(j) by {
        let e = post.index@[j];
        assert(pre.entry_ok(j));
        if j != i && !e.entry.deleted {
            assert(e == pre.index@[j]);
            if e.entry.id == id {
                assert(pre.id_to_key@[id as int]@ == e.key@);
                assert(pre.id_to_key@[id as int]@ == k);
                assert(e.key@ != k);
                assert(false);
            }
        }
    }
    // live slots still have live owners
    assert forall|s: int| 0 <= s < post.n_slots() && !post.deleted@[s] implies exists|j: int|
        #![auto]
        0 <= j < post.index@.len() && !post.index@[j].entry.deleted
            && post.index@[j].entry.id as int == s by {
        assert(!pre.deleted@[s]);
        let j = choose|j: int|
            #![auto]
            0 <= j < pre.index@.len() && !pre.index@[j].entry.deleted
                && pre.index@[j].entry.id as int == s;
        assert(j != i);
        assert(!post.index@[j].entry.deleted && post.index@[j].entry.id as int == s);
    }
    // the free list still mirrors the deletion bitmap
    assert(post.free_list@.no_duplicates()) by {
        assert(!pre.free_list@.contains(id)) by {
            if pre.free_list@.contains(id) {
                let w = choose|w: int|
                    0 <= w < pre.free_list@.len() && pre.free_list@[w] == id;
                assert(pre.deleted@[id as int]);
            }
        }
        assert(pre.free_list@.push(id).drop_last() =~= pre.free_list@);
    }
    assert forall|s: int| 0 <= s < post.n_slots() && post.deleted@[s] implies
        post.free_list@.contains(s as u32) by {
        if s == id as int {
            assert(post.free_list@[post.free_list@.len() - 1] == s as u32);
        } else {
            assert(pre.deleted@[s]);
            let w = choose|w: int| 0 <= w < pre.free_list@.len() && pre.free_list@[w] == s as u32;
            assert(post.free_list@[w] == s as u32);
        }
    }
}


/// Whether a stored f32 bit pattern is finite: its exponent bits are not
/// all ones (which would mean an infinity or a NaN).
pub open spec fn f32_bits_finite(b: u32) -> bool {
    (b >> 23) & 0xff != 0xff
}

/// Every component of the vector is finite.
pub open spec fn all_finite(v: Seq<u32>) -> bool {
    forall|i: int| 0 <= i < v.len() ==> f32_bits_finite(#[trigger] v[i])
}

/// What the file layer must do after a successful put: write the vector
/// bytes at their offset in the vector file and sync it, then append the
/// log record and sync the log — vector first, log last, so the log never
/// names an unwritten slot. `should_compact` asks for one background
/// compaction.
pub struct PutEffect {
    /// The slot the vector was written to.
    pub id: u32,
    /// Byte offset of the slot in the vector file.
    pub vector_offset: u64,
    /// The slot's bytes: each component big-endian.
    pub vector_bytes: Vec<u8>,
    /// Whether the write extends the vector file rather than reusing a slot.
    pub vector_grows: bool,
    /// Byte offset at which the log record begins.
    pub log_offset: u64,
    /// The log record's bytes.
    pub log_bytes: Vec<u8>,
    /// Whether this write crossed the auto-compaction thresholds.
    pub should_compact: bool,
}

/// Whether every component is finite.
pub(crate) fn vec_all_finite(v: &Vec<u32>) -> (r: bool)
    ensures
        r == all_finite(v@),
{
    let n = v.len();
    let mut j: usize = 0;
    while j < n
        invariant
            j <= n,
            n == v@.len(),
            forall|t: int| 0 <= t < j ==> f32_bits_finite(#[trigger] v@[t]),
        decreases n - j,
    {
        if (v[j] >> 23) & 0xff == 0xff {
            return false;
        }
        j = j + 1;
    }
    true
}

/// Overwrites one slot's window of the component array in place.
fn overwrite_slot(vectors: &mut Vec<u32>, base: usize, v: &Vec<u32>)
    requires
        base + v@.len() <= old(vectors)@.len(),
    ensures
        final(vectors)@.len() == old(vectors)@.len(),
        final(vectors)@.subrange(base as int, base + v@.len()) == v@,
        forall|t: int|
            0 <= t < old(vectors)@.len() && !(base <= t < base + v@.len())
                ==> #[trigger] final(vectors)@[t] == old(vectors)@[t],
{
    let n = v.len();
    let cap = vectors.len();
    let mut j: usize = 0;
    while j < n
        invariant
            j <= n,
            n == v@.len(),
            base + n <= cap,
            cap == vectors@.len(),
            vectors@.len() == old(vectors)@.len(),
            forall|t: int|
                0 <= t < vectors@.len() && !(base <= t < base + j) ==> #[trigger] vectors@[t]
                    == old(vectors)@[t],
            forall|t: int| 0 <= t < j ==> #[trigger] vectors@[base + t] == v@[t],
        decreases n - j,
    {
        vectors[base + j] = v[j];
        j = j + 1;
    }
    proof {
        assert forall|t: int| 0 <= t < v@.len() implies vectors@.subrange(
            base as int,
            base + v@.len(),
        )[t] == v@[t] by {
            assert(vectors@[base + t] == v@[t]);
        }
        assert(vectors@.subrange(base as int, base + v@.len()) =~= v@);
    }
}

/// Appends one component array to another.
fn append_u32s(dst: &mut Vec<u32>, src: &Vec<u32>)
    ensures
        final(dst)@ == old(dst)@ + src@,
{
    let n = src.len();
    let mut j: usize = 0;
    while j < n
        invariant
            j <= n,
            n == src@.len(),
            dst@ == old(dst)@ + src@.take(j as int),
        decreases n - j,
    {
        dst.push(src[j]);
        proof {
            assert(old(dst)@ + src@.take(j as int + 1) =~= (old(dst)@ + src@.take(j as int)).push(
                src@[j as int],
            ));
        }
        j = j + 1;
    }
    proof {
        assert(src@.take(n as int) =~= src@);
    }
}

/// Encodes a component array as its big-endian bytes.
fn encode_components(v: &Vec<u32>) -> (out: Vec<u8>)
    ensures
        out@ == vec_bits_encoding(v@),
{
    let mut out: Vec<u8> = Vec::new();
    let n = v.len();
    let mut j: usize = 0;
    while j < n
        invariant
            j <= n,
            n == v@.len(),
            out@ == vec_bits_encoding(v@.take(j as int)),
        decreases n - j,
    {
        crate::format::push_u32_be(&mut out, v[j]);
        proof {
            assert(v@.take(j as int + 1).drop_last() =~= v@.take(j as int));
            assert(v@.take(j as int + 1).last() == v@[j as int]);
        }
        j = j + 1;
    }
    proof {
        assert(v@.take(n as int) =~= v@);
    }
    out
}

/// Counts the deleted slots.
fn count_deleted(deleted: &Vec<bool>) -> (r: usize)
    ensures
        r as int == count_true(deleted@),
{
    let n = deleted.len();
    let mut count: usize = 0;
    let mut j: usize = 0;
    while j < n
        invariant
            j <= n,
            n == deleted@.len(),
            count as int == count_true(deleted@.take(j as int)),
            count <= j,
        decreases n - j,
    {
        proof {
            assert(deleted@.take(j as int + 1).drop_last() =~= deleted@.take(j as int));
            assert(deleted@.take(j as int + 1).last() == deleted@[j as int]);
        }
        if deleted[j] {
            count = count + 1;
        }
        j = j + 1;
    }
    proof {
        assert(deleted@.take(n as int) =~= deleted@);
    }
    count
}

impl Store {
    /// Inserts or replaces a key: writes the vector into a reused slot or a
    /// fresh one, appends one put record to the log, retires the key's old
    /// slot if it was live elsewhere, and reports whether the write crossed
    /// the auto-compaction thresholds.
    #[verifier::rlimit(100)]
    pub fn put(&mut self, key: &String, vector: &Vec<u32>, value: &String) -> (r: Result<
        PutEffect,
        DbError,
    >)
        requires
            old(self).wf(),
            old(self).n_slots() < u32::MAX,
            encode_utf8(key@).len() < 0x1_0000_0000,
            encode_utf8(value@).len() < 0x1_0000_0000,
        ensures
            final(self).wf(),
            final(self).cfg() == old(self).cfg(),
            r is Err ==> *final(self) == *old(self),
            r is Ok <==> (vector@.len() == old(self).dim() && all_finite(vector@) && crate::json::is_json(
                encode_utf8(value@),
            )),
            vector@.len() != old(self).dim() ==> (r matches Err(DbError::DimensionMismatch {
                expected,
                got,
            }) && expected == old(self).cfg().dimension && got == vector@.len() as u32),
            (vector@.len() == old(self).dim() && !all_finite(vector@)) ==> r matches Err(
                DbError::InvalidVector(_),
            ),
            (vector@.len() == old(self).dim() && all_finite(vector@) && !crate::json::is_json(
                encode_utf8(value@),
            )) ==> r matches Err(DbError::Serialization(_)),
            r matches Ok(eff) ==> {
                let s0 = *old(self);
                let s1 = *final(self);
                let k = key@;
                let own = spec_live_slot(s0, k) is Some;
                let reused = !own && s0.free_slots().len() > 0;
                &&& (own ==> eff.id == spec_live_slot(s0, k)->0 && s1.n_slots() == s0.n_slots()
                    && s1.free_slots() == s0.free_slots())
                &&& (reused ==> eff.id == s0.free_slots().last() && s1.n_slots() == s0.n_slots()
                    && s1.free_slots() == s0.free_slots().drop_last())
                &&& (!own && !reused ==> eff.id as int == s0.n_slots() && s1.n_slots()
                    == s0.n_slots() + 1 && s1.free_slots() == s0.free_slots())
                &&& eff.vector_grows == (!own && !reused)
                &&& eff.vector_offset == 32 + (eff.id as int) * s0.dim() * 4
                &&& eff.vector_bytes@ == vec_bits_encoding(vector@)
                &&& eff.log_offset == s0.log_bytes().len()
                &&& eff.log_bytes@ == crate::record::spec_record_bytes(
                    eff.id,
                    encode_utf8(k),
                    encode_utf8(value@),
                    false,
                )
                &&& s1.log_bytes() == s0.log_bytes() + eff.log_bytes@
                &&& s1.key_map() == s0.key_map().insert(
                    k,
                    EntryView { id: eff.id, off: s0.log_bytes().len() as int, deleted: false },
                )
                &&& s1.spec_get(k) == Some(value@)
                &&& (forall|k2: Seq<char>|
                    k2 != k ==> #[trigger] s1.spec_get(k2) == s0.spec_get(k2))
                &&& s1.slot_vec(eff.id as int) == vector@
                &&& (forall|s: int|
                    0 <= s < s0.n_slots() && s != eff.id as int ==> #[trigger] s1.slot_vec(s)
                        == s0.slot_vec(s))
                &&& !s1.slot_deleted(eff.id as int)
                &&& (forall|s: int|
                    0 <= s < s1.n_slots() && s != eff.id as int && s < s0.n_slots()
                        ==> #[trigger] s1.slot_deleted(s) == s0.slot_deleted(s))
                &&& s1.deleted_count() == s0.deleted_count() - (if reused {
                    1int
                } else {
                    0int
                })
                &&& s1.slot_key(eff.id as int) == k
                &&& (forall|s: int|
                    0 <= s < s0.n_slots() && s != eff.id as int ==> #[trigger] s1.slot_key(s)
                        == s0.slot_key(s))
                &&& eff.should_compact == (s1.cfg().enable_auto_compact && s1.deleted_count() * (
                PPM_SCALE as int) > (s1.cfg().compact_threshold_ppm as int) * s1.n_slots()
                    && s1.deleted_count() > s1.cfg().compact_threshold_count)
            },
    {
        let dim = self.config.dimension as usize;
        if vector.len() != dim {
            let got = #[verifier::truncate] (vector.len() as u32);
            return Err(DbError::DimensionMismatch { expected: self.config.dimension, got });
        }
        if !vec_all_finite(vector) {
            return Err(
                DbError::InvalidVector("vector has a NaN or infinite component".to_owned()),
            );
        }
        let value_bytes = value.as_str().as_bytes_vec();
        if !crate::json::json_valid(value_bytes.as_slice()) {
            return Err(DbError::Serialization("metadata is not a JSON document".to_owned()));
        }
        let ghost pre = *self;
        // pick the slot: a live key keeps its own slot; otherwise reuse a
        // freed one, or grow the file by one
        let mut own = false;
        match find_entry(&self.index, key) {
            Some(i0) => {
                if !self.index[i0].entry.deleted {
                    own = true;
                }
                proof {
                    lemma_index_map_at(pre.index@, i0 as int);
                    assert(pre.entry_ok(i0 as int));
                }
            },
            None => {
                proof {
                    lemma_index_map_absent(pre.index@, key@);
                }
            },
        }
        let (id, grows) = if own {
            let i0 = match find_entry(&self.index, key) {
                Some(i0) => i0,
                None => {
                    proof {
                        assert(false);
                    }
                    0
                },
            };
            let oid = self.index[i0].entry.id;
            proof {
                lemma_index_map_at(pre.index@, i0 as int);
                assert(pre.entry_ok(i0 as int));
                assert((oid as int) < pre.deleted@.len());
                assert(!pre.deleted@[oid as int]);
                assert(pre.key_map().dom().contains(key@) && !pre.key_map()[key@].deleted && oid
                    == pre.key_map()[key@].id);
            }
            (oid, false)
        } else {
            match self.free_list.pop() {
                Some(fid) => (fid, false),
                None => ((self.deleted.len() as u32), true),
            }
        };
        proof {
            if !own && !grows {
                assert(pre.free_list@.contains(id)) by {
                    assert(pre.free_list@[pre.free_list@.len() - 1] == id);
                }
            }
        }
        // write the vector into the in-memory cache
        let s = id as usize;
        let vlen = self.vectors.len();
        if grows {
            append_u32s(&mut self.vectors, vector);
            self.id_to_key.push(String::new());
            self.deleted.push(true);
            proof {
                assert((pre.deleted@.len() + 1) * (dim as int) == pre.deleted@.len() * (dim as int)
                    + (dim as int)) by (nonlinear_arith);
                lemma_slot_window(pre.deleted@.len() + 1int, s as int, dim as int);
                assert(self.vectors@.subrange((s as int) * (dim as int), (s as int) * (dim as int)
                    + (dim as int)) =~= vector@);
            }
        } else {
            proof {
                if !own {
                    assert(pre.free_list@[pre.free_list@.len() - 1] == id);
                }
                assert((id as int) < pre.deleted@.len());
                lemma_slot_window(pre.deleted@.len() as int, s as int, dim as int);
                assert(pre.vectors@.len() == pre.deleted@.len() * (dim as int));
            }
            let base = s * dim;
            overwrite_slot(&mut self.vectors, base, vector);
        }
        // append the log record
        let rec_bytes = encode_record(id, key, &value_bytes, false);
        let log_offset = self.log.len() as u64;
        let ghost mid_log = self.log@;
        self.log.extend_from_slice(rec_bytes.as_slice());
        proof {
            broadcast use vstd::utf8::encode_utf8_valid_utf8;

            assert(self.log@ =~= pre.log@ + crate::record::spec_record_bytes(
                id,
                encode_utf8(key@),
                encode_utf8(value@),
                false,
            ));
            crate::record::lemma_append_record(
                pre.log@,
                self.log@,
                id,
                encode_utf8(key@),
                encode_utf8(value@),
                false,
            );
        }
        // install the index entry; a live key keeps its slot, so no slot is
        // ever retired here
        let ne_entry = IndexEntry { id, data_offset: log_offset, deleted: false };
        let ghost mid_index = self.index@;
        match find_entry(&self.index, key) {
            Some(i) => {
                proof {
                    lemma_index_map_at(mid_index, i as int);
                    assert(pre.entry_ok(i as int));
                }
                let ne = KeyedEntry { key: key.clone(), entry: ne_entry };
                self.index[i] = ne;
                proof {
                    lemma_index_map_update(mid_index, i as int, ne);
                }
            },
            None => {
                let ne = KeyedEntry { key: key.clone(), entry: ne_entry };
                proof {
                    lemma_index_map_absent(mid_index, ne.key@);
                }
                self.index.push(ne);
                proof {
                    lemma_index_map_push(mid_index, ne);
                }
            },
        }
        // record the slot's owner and liveness
        proof {
            if own {
                assert((s as int) < pre.deleted@.len());
            } else if !grows {
                assert(pre.free_list@[pre.free_list@.len() - 1] == id);
                assert((s as int) < pre.deleted@.len());
            }
        }
        let key_copy = key.clone();
        self.id_to_key[s] = key_copy;
        self.deleted[s] = false;
        proof {
            lemma_put_restores_wf(pre, *self, key@, encode_utf8(value@), vector@, id, own, grows);
            lemma_spec_get_frame(pre, *self, key@, rec_bytes@);
            vstd::utf8::encode_utf8_decode_utf8(value@);
            // how the deleted-slot count moved
            if grows {
                lemma_count_true_push(pre.deleted@, true);
                lemma_count_true_update(pre.deleted@.push(true), s as int, false);
                assert(self.deleted@ == pre.deleted@.push(true).update(s as int, false));
            } else {
                lemma_count_true_update(pre.deleted@, s as int, false);
                assert(self.deleted@ == pre.deleted@.update(s as int, false));
            }
        }
        // evaluate the auto-compaction trigger
        let deleted_cnt = count_deleted(&self.deleted);
        let total = self.deleted.len();
        proof {
            vstd::arithmetic::mul::lemma_mul_upper_bound(
                deleted_cnt as int,
                0xffff_ffff_ffff_ffffint,
                PPM_SCALE as int,
                0x100000int,
            );
            vstd::arithmetic::mul::lemma_mul_upper_bound(
                self.config.compact_threshold_ppm as int,
                0x100000int,
                total as int,
                0xffff_ffff_ffff_ffffint,
            );
        }
        let should_compact = self.config.enable_auto_compact && (deleted_cnt as u128) * (PPM_SCALE
            as u128) > (self.config.compact_threshold_ppm as u128) * (total as u128)
            && deleted_cnt > self.config.compact_threshold_count;
        // the slot's byte window in the vector file
        proof {
            vstd::arithmetic::mul::lemma_mul_upper_bound(
                id as int,
                0xffff_ffffint,
                (dim as int) * 4,
                400_000int,
            );
        }
        let vector_offset = 32 + (id as u64) * ((dim as u64) * 4);
        let vector_bytes = encode_components(vector);
        proof {
            assert((id as int) * ((dim as int) * 4) == (id as int) * (dim as int) * 4)
                by (nonlinear_arith);
        }
        Ok(
            PutEffect {
                id,
                vector_offset,
                vector_bytes,
                vector_grows: grows,
                log_offset,
                log_bytes: rec_bytes,
                should_compact,
            },
        )
    }
}

/// The slot a key occupies while live, if any.
pub open spec fn spec_live_slot(s: Store, k: Seq<char>) -> Option<u32> {
    if s.key_map().dom().contains(k) && !s.key_map()[k].deleted {
        Some(s.key_map()[k].id)
    } else {
        None
    }
}

/// Slot `s`'s window lies inside a component array of `n` slots.
proof fn lemma_slot_window(n: int, s: int, dim: int)
    requires
        0 <= s < n,
        1 <= dim,
    ensures
        (s + 1) * dim <= n * dim,
        s * dim >= 0,
        (s + 1) * dim == s * dim + dim,
    decreases n,
{
    assert((s + 1) * dim <= n * dim) by (nonlinear_arith)
        requires
            0 <= s < n && 1 <= dim,
    ;
    assert(s * dim >= 0) by (nonlinear_arith)
        requires
            0 <= s && 1 <= dim,
    ;
    assert((s + 1) * dim == s * dim + dim) by (nonlinear_arith);
}


/// The state after a put satisfies the invariant again: the new record
/// extends the log scan, the updated index replays from it, the slot
/// structures agree, and the free list still mirrors the deletion bitmap.
/// `own` means the key already lived at `id`; `grows` means `id` is the
/// fresh slot past the old end of the file; otherwise `id` was popped off
/// the free list.
#[verifier::rlimit(100)]
proof fn lemma_put_restores_wf(
    pre: Store,
    post: Store,
    k: Seq<char>,
    v: Seq<u8>,
    vv: Seq<u32>,
    id: u32,
    own: bool,
    grows: bool,
)
    requires
        pre.wf(),
        pre.deleted@.len() < u32::MAX,
        post.config == pre.config,
        vv.len() == pre.dim(),
        crate::json::is_json(v),
        valid_utf8(v),
        encode_utf8(k).len() < 0x1_0000_0000,
        v.len() < 0x1_0000_0000,
        pre.log@.len() <= 0xffff_ffff_ffff_ffff,
        post.log@ == pre.log@ + crate::record::spec_record_bytes(id, encode_utf8(k), v, false),
        own ==> pre.key_map().dom().contains(k) && !pre.key_map()[k].deleted && id
            == pre.key_map()[k].id,
        !own ==> !(pre.key_map().dom().contains(k) && !pre.key_map()[k].deleted),
        grows ==> !own && id as int == pre.deleted@.len(),
        (!own && !grows) ==> pre.free_list@.len() > 0 && id == pre.free_list@.last(),
        post.deleted@.len() == pre.deleted@.len() + (if grows {
            1int
        } else {
            0int
        }),
        post.id_to_key@.len() == post.deleted@.len(),
        post.vectors@.len() == post.deleted@.len() * pre.dim(),
        post.vectors@.subrange((id as int) * pre.dim(), (id as int) * pre.dim() + pre.dim()) == vv,
        forall|t: int|
            0 <= t < pre.vectors@.len() && !((id as int) * pre.dim() <= t < (id as int) * pre.dim()
                + pre.dim()) ==> #[trigger] post.vectors@[t] == pre.vectors@[t],
        post.id_to_key@[id as int]@ == k,
        forall|t: int|
            0 <= t < pre.id_to_key@.len() && t != id as int ==> #[trigger] post.id_to_key@[t]@
                == pre.id_to_key@[t]@,
        post.deleted@[id as int] == false,
        forall|s: int|
            0 <= s < post.deleted@.len() && s != id as int ==> s < pre.deleted@.len()
                && #[trigger] post.deleted@[s] == pre.deleted@[s],
        post.free_list@ == (if !own && !grows {
            pre.free_list@.drop_last()
        } else {
            pre.free_list@
        }),
        // the index was updated in place or extended by one entry
        ({
            ||| (exists|i: int|
                {
                    &&& 0 <= i < pre.index@.len()
                    &&& pre.index@[i].key@ == k
                    &&& post.index@ == pre.index@.update(
                        i,
                        KeyedEntry {
                            key: post.index@[i].key,
                            entry: IndexEntry {
                                id,
                                data_offset: pre.log@.len() as u64,
                                deleted: false,
                            },
                        },
                    )
                    &&& post.index@[i].key@ == k
                })
            ||| ((forall|i: int| 0 <= i < pre.index@.len() ==> #[trigger] pre.index@[i].key@ != k)
                && exists|ne: KeyedEntry|
                post.index@ == pre.index@.push(ne) && ne.key@ == k && ne.entry == (IndexEntry {
                    id,
                    data_offset: pre.log@.len() as u64,
                    deleted: false,
                }))
        }),
    ensures
        post.wf(),
        post.key_map() == pre.key_map().insert(
            k,
            EntryView { id, off: pre.log@.len() as int, deleted: false },
        ),
        post.spec_get(k) == Some(decode_utf8(v)),
        post.slot_vec(id as int) == vv,
        forall|s: int|
            0 <= s < pre.n_slots() && s != id as int ==> #[trigger] post.slot_vec(s)
                == pre.slot_vec(s),
{
    let dim = pre.dim();
    let n0 = pre.deleted@.len() as int;
    let n1 = post.deleted@.len() as int;
    let off = pre.log@.len() as int;
    let rv = RecordView { id, key: encode_utf8(k), val: v, tombstone: false };
    let lr = LocRecord { off, rec: rv };
    broadcast use vstd::utf8::encode_utf8_valid_utf8;

    crate::record::lemma_append_record(pre.log@, post.log@, id, encode_utf8(k), v, false);
    // the slot taken off the free list was a deleted one; a kept slot was the
    // key's own live one
    if !own && !grows {
        assert(pre.free_list@[pre.free_list@.len() - 1] == id);
        assert(pre.deleted@[id as int]);
    }
    if own {
        lemma_index_map_dom(pre.index@, k);
        let i0 = choose|i0: int| 0 <= i0 < pre.index@.len() && pre.index@[i0].key@ == k;
        lemma_index_map_at(pre.index@, i0);
        assert(pre.entry_ok(i0));
        assert((id as int) < pre.deleted@.len());
        assert(pre.deleted@[id as int] == false);
    }
    assert((id as int) < n1);
    // the key map after the update
    if exists|i: int|
        {
            &&& 0 <= i < pre.index@.len()
            &&& pre.index@[i].key@ == k
            &&& post.index@ == pre.index@.update(
                i,
                KeyedEntry {
                    key: post.index@[i].key,
                    entry: IndexEntry { id, data_offset: pre.log@.len() as u64, deleted: false },
                },
            )
        } {
        let i = choose|i: int|
            {
                &&& 0 <= i < pre.index@.len()
                &&& pre.index@[i].key@ == k
                &&& post.index@ == pre.index@.update(
                    i,
                    KeyedEntry {
                        key: post.index@[i].key,
                        entry: IndexEntry {
                            id,
                            data_offset: pre.log@.len() as u64,
                            deleted: false,
                        },
                    },
                )
            };
        lemma_index_map_at(pre.index@, i);
        lemma_index_map_update(
            pre.index@,
            i,
            KeyedEntry {
                key: post.index@[i].key,
                entry: IndexEntry { id, data_offset: pre.log@.len() as u64, deleted: false },
            },
        );
        assert(unique_keys(post.index@));
    } else {
        let ne = choose|ne: KeyedEntry|
            post.index@ == pre.index@.push(ne) && ne.key@ == k && ne.entry == (IndexEntry {
                id,
                data_offset: pre.log@.len() as u64,
                deleted: false,
            });
        lemma_index_map_absent(pre.index@, k);
        lemma_index_map_push(pre.index@, ne);
        assert(unique_keys(post.index@)) by {
            assert forall|a: int, b: int| 0 <= a < b < post.index@.len() implies post.index@[a].key@
                != post.index@[b].key@ by {
                if b == post.index@.len() - 1 {
                    assert(post.index@[a] == pre.index@[a]);
                }
            }
        }
    }
    assert(post.key_map() == pre.key_map().insert(
        k,
        EntryView { id, off, deleted: false },
    ));
    // replay of the extended log matches the updated map
    let rs = parse_from(pre.log@, 32);
    assert((rs + seq![lr]).drop_last() =~= rs);
    assert((rs + seq![lr]).last() == lr);
    vstd::utf8::encode_utf8_decode_utf8(k);
    assert(replay(rs + seq![lr]) == replay(rs).insert(k, EntryView { id, off, deleted: false }));
    assert(replay(parse_from(post.log@, 32)) == post.key_map());
    assert(recs_ids_below(parse_from(post.log@, 32), n1)) by {
        assert forall|w: int| 0 <= w < parse_from(post.log@, 32).len() implies (
        #[trigger] parse_from(post.log@, 32)[w].rec.id as int) < n1 by {
            if w < rs.len() {
                assert(parse_from(post.log@, 32)[w] == rs[w]);
                assert((rs[w].rec.id as int) < pre.deleted@.len());
            } else {
                assert(parse_from(post.log@, 32)[w] == lr);
            }
        }
    }
    // sizes
    assert(n1 * dim == n0 * dim + (if grows {
        dim
    } else {
        0int
    })) by (nonlinear_arith)
        requires
            n1 == n0 + (if grows {
                1int
            } else {
                0int
            }),
    ;
    // entries agree with the slots and the log
    lemma_slot_window(n1, id as int, dim);
    assert forall|j: int| 0 <= j < post.index@.len() implies (#[trigger] post.index@[j]).key@
        == k || (j < pre.index@.len() && post.index@[j] == pre.index@[j]) by {}
    lemma_put_entries(pre, post, k, id, own, grows);
    // every live slot keeps a live owner
    assert forall|s: int| 0 <= s < n1 && !post.deleted@[s] implies exists|j: int|
        #![auto]
        0 <= j < post.index@.len() && !post.index@[j].entry.deleted && post.index@[j].entry.id
            as int == s by {
        if s == id as int {
            lemma_index_map_dom_post(post, k, id, off);
        } else {
            assert(s < n0 && !pre.deleted@[s]);
            let j = choose|j: int|
                #![auto]
                0 <= j < pre.index@.len() && !pre.index@[j].entry.deleted
                    && pre.index@[j].entry.id as int == s;
            if pre.index@[j].key@ == k {
                lemma_index_map_at(pre.index@, j);
                assert(pre.key_map()[k].id as int == s && !pre.key_map()[k].deleted);
                assert(own && id as int == s);
                assert(false);
            }
            assert(post.index@[j] == pre.index@[j]);
        }
    }
    // the free list still mirrors the bitmap
    lemma_put_free_list(pre, post, id, own, grows);
    // the new slot's vector is in place, others untouched
    assert(post.dim() == dim && pre.dim() == dim);
    assert(post.slot_vec(id as int) == vv) by {
        lemma_slot_window(n1, id as int, dim);
        assert(post.slot_vec(id as int) == post.vectors@.subrange(
            (id as int) * dim,
            (id as int) * dim + dim,
        ));
    }
    assert forall|s: int| 0 <= s < n0 && s != id as int implies #[trigger] post.slot_vec(s)
        == pre.slot_vec(s) by {
        lemma_slot_window(n0, s, dim);
        lemma_slot_window(n1, s, dim);
        lemma_slot_windows_disjoint(s, id as int, dim);
        assert(n0 * dim <= n1 * dim) by (nonlinear_arith)
            requires
                n0 <= n1 && dim >= 1,
        ;
        assert forall|t: int| 0 <= t < dim implies #[trigger] post.vectors@[s * dim + t]
            == pre.vectors@[s * dim + t] by {
            assert(s * dim + t < (s + 1) * dim);
            assert(!((id as int) * dim <= s * dim + t < (id as int) * dim + dim));
        }
        assert(post.slot_vec(s) =~= pre.slot_vec(s));
    }
    // reading the key back yields the new record's value
    assert(post.spec_get(k) == Some(decode_utf8(v)));
}

/// The updated map holds a live entry for `k`, so some index entry is live
/// at the new slot.
proof fn lemma_index_map_dom_post(post: Store, k: Seq<char>, id: u32, off: int)
    requires
        post.key_map().dom().contains(k),
        post.key_map()[k] == (EntryView { id, off, deleted: false }),
        unique_keys(post.index@),
    ensures
        exists|j: int|
            #![auto]
            0 <= j < post.index@.len() && !post.index@[j].entry.deleted && post.index@[j].entry.id
                as int == id as int,
{
    lemma_index_map_dom(post.index@, k);
    let j = choose|j: int| 0 <= j < post.index@.len() && post.index@[j].key@ == k;
    lemma_index_map_at(post.index@, j);
    assert(post.index@[j].entry.view() == (EntryView { id, off, deleted: false }));
    assert(!post.index@[j].entry.deleted && post.index@[j].entry.id == id);
}

/// Two different slots occupy disjoint windows of the component array.
proof fn lemma_slot_windows_disjoint(s: int, t: int, dim: int)
    requires
        0 <= s,
        0 <= t,
        s != t,
        1 <= dim,
    ensures
        (s + 1) * dim <= t * dim || (t + 1) * dim <= s * dim,
        (s + 1) * dim == s * dim + dim,
        (t + 1) * dim == t * dim + dim,
{
    assert(((s + 1) * dim <= t * dim || (t + 1) * dim <= s * dim) && (s + 1) * dim == s * dim
        + dim && (t + 1) * dim == t * dim + dim) by (nonlinear_arith)
        requires
            0 <= s && 0 <= t && s != t && 1 <= dim,
    ;
}

/// After a put, the free list still holds exactly the deleted slots, each
/// once: a slot taken off it left it, and no live slot joined it.
proof fn lemma_put_free_list(pre: Store, post: Store, id: u32, own: bool, grows: bool)
    requires
        pre.wf(),
        own ==> (id as int) < pre.deleted@.len() && pre.deleted@[id as int] == false,
        grows ==> !own && id as int == pre.deleted@.len(),
        (!own && !grows) ==> pre.free_list@.len() > 0 && id == pre.free_list@.last()
            && pre.deleted@[id as int],
        post.deleted@.len() == pre.deleted@.len() + (if grows {
            1int
        } else {
            0int
        }),
        post.deleted@[id as int] == false,
        forall|s: int|
            0 <= s < post.deleted@.len() && s != id as int ==> s < pre.deleted@.len()
                && #[trigger] post.deleted@[s] == pre.deleted@[s],
        post.free_list@ == (if !own && !grows {
            pre.free_list@.drop_last()
        } else {
            pre.free_list@
        }),
    ensures
        post.free_list@.no_duplicates(),
        forall|w: int|
            0 <= w < post.free_list@.len() ==> (#[trigger] post.free_list@[w] as int)
                < post.deleted@.len() && post.deleted@[post.free_list@[w] as int],
        forall|sl: int|
            0 <= sl < post.deleted@.len() && post.deleted@[sl] ==> post.free_list@.contains(
                sl as u32,
            ),
{
    let n0 = pre.deleted@.len() as int;
    let n1 = post.deleted@.len() as int;
    let fap = post.free_list@;
    assert(fap.no_duplicates()) by {
        assert forall|a: int, b: int|
            0 <= a < fap.len() && 0 <= b < fap.len() && a != b implies fap[a] != fap[b] by {
            assert(fap[a] == pre.free_list@[a] && fap[b] == pre.free_list@[b]);
        }
    }
    assert forall|w: int| 0 <= w < fap.len() implies (#[trigger] fap[w] as int) < n1
        && post.deleted@[fap[w] as int] by {
        assert(fap[w] == pre.free_list@[w]);
        let sl = pre.free_list@[w] as int;
        assert(pre.deleted@[sl]);
        if sl == id as int {
            if own {
                assert(pre.deleted@[id as int] == false);
                assert(false);
            } else if grows {
                assert(sl < n0);
                assert(false);
            } else {
                let a = pre.free_list@.len() - 1;
                assert(pre.free_list@[a] == id);
                assert(w != a);
                assert(pre.free_list@[w] != pre.free_list@[a]);
                assert(false);
            }
        }
        assert(post.deleted@[sl] == pre.deleted@[sl]);
    }
    assert forall|sl: int| 0 <= sl < n1 && post.deleted@[sl] implies fap.contains(sl as u32) by {
        assert(sl != id as int);
        assert(sl < n0 && pre.deleted@[sl]);
        let w = choose|w: int| 0 <= w < pre.free_list@.len() && pre.free_list@[w] == sl as u32;
        if !own && !grows {
            assert(pre.free_list@[pre.free_list@.len() - 1] == id);
            assert(w != pre.free_list@.len() - 1);
            assert(fap[w] == sl as u32);
        } else {
            assert(fap[w] == sl as u32);
        }
    }
}

/// After a put, every index entry still agrees with the bitmap, the slot
/// ownership and the log.
proof fn lemma_put_entries(pre: Store, post: Store, k: Seq<char>, id: u32, own: bool, grows: bool)
    requires
        pre.wf(),
        pre.log@.len() <= 0xffff_ffff_ffff_ffff,
        post.log@.len() >= pre.log@.len(),
        parse_record_at(post.log@, pre.log@.len() as int) matches Some(rv) && rv.id == id
            && rv.key == encode_utf8(k) && rv.tombstone == false,
        forall|o: int|
            parse_record_at(pre.log@, o) is Some ==> #[trigger] parse_record_at(post.log@, o)
                == parse_record_at(pre.log@, o),
        (id as int) < post.deleted@.len(),
        post.id_to_key@.len() == post.deleted@.len(),
        post.deleted@.len() >= pre.deleted@.len(),
        post.deleted@[id as int] == false,
        post.id_to_key@[id as int]@ == k,
        forall|t: int|
            0 <= t < pre.id_to_key@.len() && t != id as int ==> #[trigger] post.id_to_key@[t]@
                == pre.id_to_key@[t]@,
        forall|s: int|
            0 <= s < post.deleted@.len() && s != id as int ==> s < pre.deleted@.len()
                && #[trigger] post.deleted@[s] == pre.deleted@[s],
        own ==> pre.key_map().dom().contains(k) && !pre.key_map()[k].deleted && id
            == pre.key_map()[k].id,
        grows ==> !own && id as int == pre.deleted@.len(),
        (!own && !grows) ==> pre.deleted@[id as int],
        unique_keys(post.index@),
        post.key_map().dom().contains(k),
        post.key_map()[k] == (EntryView { id, off: pre.log@.len() as int, deleted: false }),
        forall|j: int|
            0 <= j < post.index@.len() ==> (#[trigger] post.index@[j]).key@ == k || (j
                < pre.index@.len() && post.index@[j] == pre.index@[j]),
    ensures
        forall|j: int| 0 <= j < post.index@.len() ==> post.entry_ok(j),
{
    assert forall|j: int| 0 <= j < post.index@.len() implies post.entry_ok(j) by {
        let e = post.index@[j];
        if e.key@ == k {
            lemma_index_map_at(post.index@, j);
            assert(e.entry.view() == (EntryView {
                id,
                off: pre.log@.len() as int,
                deleted: false,
            }));
            assert(e.entry.id == id && !e.entry.deleted);
            assert(e.entry.data_offset as int == pre.log@.len() as int);
            assert(parse_record_at(post.log@, e.entry.data_offset as int) is Some);
        } else {
            assert(j < pre.index@.len() && pre.index@[j] == e);
            assert(pre.entry_ok(j));
            if !e.entry.deleted {
                assert(!pre.deleted@[e.entry.id as int]);
                if e.entry.id == id {
                    if own {
                        lemma_index_map_dom(pre.index@, k);
                        let i0 = choose|i0: int|
                            0 <= i0 < pre.index@.len() && pre.index@[i0].key@ == k;
                        lemma_index_map_at(pre.index@, i0);
                        assert(pre.entry_ok(i0));
                        assert(pre.id_to_key@[id as int]@ == k);
                        assert(pre.id_to_key@[e.entry.id as int]@ == e.key@);
                        assert(false);
                    } else {
                        assert(pre.deleted@[id as int] || id as int >= pre.deleted@.len());
                        assert(false);
                    }
                }
                assert(post.deleted@[e.entry.id as int] == false);
                assert(post.id_to_key@[e.entry.id as int]@ == e.key@);
            } else {
                if !post.deleted@[e.entry.id as int] {
                    if e.entry.id == id {
                        assert(post.id_to_key@[id as int]@ == k);
                    } else {
                        assert(pre.deleted@[e.entry.id as int] == post.deleted@[e.entry.id
                            as int]);
                        assert(post.id_to_key@[e.entry.id as int]@ == pre.id_to_key@[e.entry.id
                            as int]@);
                    }
                }
            }
        }
    }
}


/// Counts of a store's contents and the byte sizes of its two files.
/// The deletion ratio is the fraction `deleted_vectors / max(total_vectors, 1)`,
/// which callers may form from these exact counts.
#[derive(Debug, Clone, PartialEq, Eq, Structural)]
pub struct DbStats {
    /// Slots in the vector file, deleted ones included.
    pub total_vectors: usize,
    /// Slots marked deleted.
    pub deleted_vectors: usize,
    /// Slots owned by a live key.
    pub active_vectors: usize,
    /// Keys in the index, deleted ones included.
    pub index_size: usize,
    /// Byte length of the data log.
    pub data_file_size: u64,
    /// Byte length of the vector file.
    pub vector_file_size: u64,
    /// Slots available for reuse.
    pub free_list_size: usize,
}

/// The count of set booleans never exceeds the length.
proof fn lemma_count_true_bounds(s: Seq<bool>)
    ensures
        0 <= count_true(s) <= s.len(),
    decreases s.len(),
{
    if s.len() > 0 {
        lemma_count_true_bounds(s.drop_last());
    }
}

/// A sequence with no boolean set counts to zero, and conversely.
proof fn lemma_count_true_zero(s: Seq<bool>)
    ensures
        (count_true(s) == 0 <==> forall|i: int| 0 <= i < s.len() ==> !s[i]),
    decreases s.len(),
{
    lemma_count_true_bounds(s);
    if s.len() > 0 {
        lemma_count_true_bounds(s.drop_last());
        lemma_count_true_zero(s.drop_last());
        if count_true(s) == 0 {
            assert forall|i: int| 0 <= i < s.len() implies !s[i] by {
                if i < s.len() - 1 {
                    assert(s.drop_last()[i] == s[i]);
                }
            }
        } else {
            if forall|i: int| 0 <= i < s.len() ==> !s[i] {
                assert forall|i: int| 0 <= i < s.drop_last().len() implies !s.drop_last()[i] by {
                    assert(s.drop_last()[i] == s[i]);
                }
                assert(!s.last());
                assert(false);
            }
        }
    }
}

impl Store {
    /// The dimension accessor agrees with the configuration's field.
    pub proof fn lemma_dim_is_cfg(self)
        ensures
            self.dim() == self.cfg().dimension as int,
    {
    }

    /// The store's configuration, for callers.
    pub fn config(&self) -> (c: DbConfig)
        ensures
            c == self.cfg(),
    {
        DbConfig {
            dimension: self.config.dimension,
            compact_threshold_ppm: self.config.compact_threshold_ppm,
            compact_threshold_count: self.config.compact_threshold_count,
            enable_auto_compact: self.config.enable_auto_compact,
        }
    }

    /// Number of slots in the vector file, deleted ones included.
    pub fn total_slots(&self) -> (r: usize)
        ensures
            r as int == self.n_slots(),
    {
        self.deleted.len()
    }

    /// Whether slot `s` is deleted.
    pub fn slot_is_deleted(&self, s: usize) -> (r: bool)
        requires
            0 <= s < self.n_slots(),
        ensures
            r == self.slot_deleted(s as int),
    {
        self.deleted[s]
    }

    /// A copy of the components stored in slot `s`.
    pub fn slot_vector(&self, s: usize) -> (r: Vec<u32>)
        requires
            self.wf(),
            0 <= s < self.n_slots(),
        ensures
            r@ == self.slot_vec(s as int),
    {
        let dim = self.config.dimension as usize;
        let n = self.vectors.len();
        proof {
            lemma_slot_window(self.deleted@.len() as int, s as int, dim as int);
            assert((s as int) * (dim as int) + dim <= n);
        }
        let base = s * dim;
        let mut out: Vec<u32> = Vec::new();
        let mut j: usize = 0;
        while j < dim
            invariant
                j <= dim,
                n == self.vectors@.len(),
                base + dim <= n,
                base == (s as int) * (dim as int),
                out@.len() == j,
                forall|t: int| 0 <= t < j ==> out@[t] == self.vectors@[base + t],
            decreases dim - j,
        {
            out.push(self.vectors[base + j]);
            j = j + 1;
        }
        proof {
            assert(out@ =~= self.slot_vec(s as int));
        }
        out
    }

    /// The key that owns slot `s` (or last owned it, for a deleted slot).
    pub fn slot_owner(&self, s: usize) -> (r: String)
        requires
            self.wf(),
            0 <= s < self.n_slots(),
        ensures
            r@ == self.slot_key(s as int),
    {
        self.id_to_key[s].clone()
    }

    /// The byte image the vector file should hold: header, then every slot's
    /// components big-endian.
    pub closed spec fn vector_file_bytes(self) -> Seq<u8> {
        spec_header_bytes(self.config.dimension) + vec_bits_encoding(self.vectors@)
    }

    /// Builds the vector file's byte image.
    pub fn vector_file_image(&self) -> (r: Vec<u8>)
        ensures
            r@ == self.vector_file_bytes(),
    {
        let h = FileHeader::new(self.config.dimension);
        let mut out = h.encode();
        let body = encode_components(&self.vectors);
        out.extend_from_slice(body.as_slice());
        proof {
            assert(out@ =~= self.vector_file_bytes());
        }
        out
    }

    /// Counts and file sizes, all under the one reading of the state.
    pub fn stats(&self) -> (r: DbStats)
        requires
            self.wf(),
        ensures
            r.total_vectors as int == self.n_slots(),
            r.deleted_vectors as int == self.deleted_count(),
            r.active_vectors as int == self.n_slots() - self.deleted_count(),
            r.active_vectors + r.deleted_vectors == r.total_vectors,
            r.index_size as int == self.index_len(),
            r.data_file_size as int == self.log_bytes().len(),
            r.vector_file_size as int == 32 + 4 * self.n_slots() * self.dim(),
            r.vector_file_size as int == self.vector_file_bytes().len(),
            r.free_list_size as int == self.free_slots().len(),
    {
        let total_vectors = self.deleted.len();
        let deleted_vectors = count_deleted(&self.deleted);
        proof {
            lemma_count_true_bounds(self.deleted@);
        }
        let active_vectors = total_vectors - deleted_vectors;
        let dim = self.config.dimension as u64;
        proof {
            vstd::arithmetic::mul::lemma_mul_upper_bound(
                total_vectors as int,
                0xffff_ffffint,
                4 * (dim as int),
                400_000int,
            );
            assert((total_vectors as int) * (4 * (dim as int)) == 4 * (total_vectors as int) * (dim
                as int)) by (nonlinear_arith);
            crate::format::lemma_vec_bits_encoding_len(self.vectors@);
            assert(4 * ((total_vectors as int) * (dim as int)) == 4 * (total_vectors as int) * (dim
                as int)) by (nonlinear_arith);
            assert(self.vector_file_bytes().len() == 32 + 4 * self.vectors@.len());
        }
        let vector_file_size = 32 + (total_vectors as u64) * (4 * dim);
        DbStats {
            total_vectors,
            deleted_vectors,
            active_vectors,
            index_size: self.index.len(),
            data_file_size: self.log.len() as u64,
            vector_file_size,
            free_list_size: self.free_list.len(),
        }
    }
}


/// Per-entry facts maintained while compaction rebuilds the store: entry `j`
/// is live at new slot `j`, its key owned old slot `src[j]`, its vector was
/// copied, and its new record carries the old record's metadata.
spec fn compact_entry_inv(
    st: Store,
    nlog: Seq<u8>,
    nindex: Seq<KeyedEntry>,
    nvec: Seq<u32>,
    nkeys: Seq<String>,
    ndel: Seq<bool>,
    src: Seq<int>,
    j: int,
) -> bool {
    let e = nindex[j];
    let k = e.key@;
    &&& e.entry.id as int == j
    &&& !e.entry.deleted
    &&& ndel[j] == false
    &&& nkeys[j]@ == k
    &&& k == st.id_to_key@[src[j]]@
    &&& st.key_map().dom().contains(k)
    &&& !st.key_map()[k].deleted
    &&& st.key_map()[k].id as int == src[j]
    &&& nvec.subrange(j * st.dim(), (j + 1) * st.dim()) == st.slot_vec(src[j])
    &&& (parse_record_at(nlog, e.entry.data_offset as int) matches Some(rv) && rv.id == e.entry.id
        && rv.key == encode_utf8(k) && rv.tombstone == false && (parse_record_at(
        st.log@,
        st.key_map()[k].off,
    ) matches Some(rv0) && rv.val == rv0.val))
}

/// Everything compaction's rebuild loop maintains after processing the old
/// slots below `s`.
spec fn compact_inv(
    st: Store,
    nlog: Seq<u8>,
    nindex: Seq<KeyedEntry>,
    nvec: Seq<u32>,
    nkeys: Seq<String>,
    ndel: Seq<bool>,
    src: Seq<int>,
    s: int,
) -> bool {
    let m = src.len() as int;
    &&& st.wf()
    &&& 0 <= s <= st.deleted@.len()
    &&& m <= s
    &&& nindex.len() == m
    &&& nkeys.len() == m
    &&& ndel.len() == m
    &&& nvec.len() == m * st.dim()
    &&& nlog.len() >= 32
    &&& spec_u32_from_be_bytes(nlog.subrange(0, 4)) == MAGIC
    &&& nlog[4] == VERSION
    &&& parse_end(nlog, 32) == nlog.len()
    &&& index_map(nindex) == replay(parse_from(nlog, 32))
    &&& unique_keys(nindex)
    &&& recs_ids_below(parse_from(nlog, 32), m)
    &&& parse_from(nlog, 32).len() == m
    &&& (forall|w: int|
        0 <= w < m ==> {
            let lrw = #[trigger] parse_from(nlog, 32)[w];
            &&& lrw.rec.tombstone == false
            &&& lrw.rec.id as int == w
            &&& lrw.rec.key == encode_utf8(nindex[w].key@)
        })
    &&& (forall|j1: int, j2: int| 0 <= j1 < j2 < m ==> src[j1] < src[j2])
    &&& (forall|j: int| 0 <= j < m ==> 0 <= #[trigger] src[j] < s && !st.deleted@[src[j]])
    &&& (forall|t: int|
        0 <= t < s && !st.deleted@[t] ==> exists|j: int| 0 <= j < m && #[trigger] src[j] == t)
    &&& (forall|j: int|
        0 <= j < m ==> #[trigger] compact_entry_inv(st, nlog, nindex, nvec, nkeys, ndel, src, j))
}

/// One rebuild step: appending the live slot `s`'s vector, key and record to
/// the fresh structures carries the loop's facts from `s` to `s + 1`.
#[verifier::rlimit(100)]
proof fn lemma_compact_step(
    st: Store,
    pre_log: Seq<u8>,
    nlog: Seq<u8>,
    pre_index: Seq<KeyedEntry>,
    nindex: Seq<KeyedEntry>,
    pre_vec: Seq<u32>,
    nvec: Seq<u32>,
    pre_keys: Seq<String>,
    nkeys: Seq<String>,
    pre_del: Seq<bool>,
    ndel: Seq<bool>,
    src_old: Seq<int>,
    src_new: Seq<int>,
    s: int,
    k: Seq<char>,
)
    requires
        compact_inv(st, pre_log, pre_index, pre_vec, pre_keys, pre_del, src_old, s),
        0 <= s < st.deleted@.len(),
        !st.deleted@[s],
        k == st.id_to_key@[s]@,
        st.key_map().dom().contains(k),
        !st.key_map()[k].deleted,
        st.key_map()[k].id as int == s,
        parse_record_at(st.log@, st.key_map()[k].off) is Some,
        parse_record_at(st.log@, st.key_map()[k].off)->Some_0.key == encode_utf8(k),
        pre_log.len() <= 0xffff_ffff_ffff_ffff,
        nlog == pre_log + crate::record::spec_record_bytes(
            src_old.len() as u32,
            encode_utf8(k),
            parse_record_at(st.log@, st.key_map()[k].off)->Some_0.val,
            false,
        ),
        nindex == pre_index.push(
            KeyedEntry {
                key: nindex.last().key,
                entry: IndexEntry {
                    id: src_old.len() as u32,
                    data_offset: pre_log.len() as u64,
                    deleted: false,
                },
            },
        ),
        nindex.last().key@ == k,
        nvec == pre_vec + st.slot_vec(s),
        nkeys.len() == pre_keys.len() + 1,
        forall|t: int| 0 <= t < pre_keys.len() ==> #[trigger] nkeys[t]@ == pre_keys[t]@,
        nkeys.last()@ == k,
        ndel == pre_del.push(false),
        src_new == src_old.push(s),
    ensures
        compact_inv(st, nlog, nindex, nvec, nkeys, ndel, src_new, s + 1),
{
    let dim = st.dim();
    let m = src_old.len() as int;
    let off0 = st.key_map()[k].off;
    let rv0 = parse_record_at(st.log@, off0)->Some_0;
    let rv = RecordView { id: m as u32, key: encode_utf8(k), val: rv0.val, tombstone: false };
    let lr = LocRecord { off: pre_log.len() as int, rec: rv };
    broadcast use vstd::utf8::encode_utf8_valid_utf8;

    // the old record's bounds and validity come from its parse
    assert(rv0.key.len() < 0x1_0000_0000 && rv0.val.len() < 0x1_0000_0000 && crate::json::is_json(
        rv0.val,
    ) && valid_utf8(rv0.val));
    crate::record::lemma_append_record(
        pre_log,
        nlog,
        m as u32,
        encode_utf8(k),
        rv0.val,
        false,
    );
    // the key is new to the rebuilt index
    assert forall|j: int| 0 <= j < pre_index.len() implies #[trigger] pre_index[j].key@ != k by {
        assert(compact_entry_inv(st, pre_log, pre_index, pre_vec, pre_keys, pre_del, src_old, j));
        if pre_index[j].key@ == k {
            assert(st.key_map()[k].id as int == src_old[j]);
            assert(src_old[j] < s);
        }
    }
    lemma_index_map_absent(pre_index, k);
    lemma_index_map_push(pre_index, nindex.last());
    // replaying the extended log installs exactly the new entry
    let rs = parse_from(pre_log, 32);
    assert((rs + seq![lr]).drop_last() =~= rs);
    assert((rs + seq![lr]).last() == lr);
    vstd::utf8::encode_utf8_decode_utf8(k);
    assert(replay(parse_from(nlog, 32)) == replay(rs).insert(
        k,
        EntryView { id: m as u32, off: pre_log.len() as int, deleted: false },
    ));
    assert(index_map(nindex) == replay(parse_from(nlog, 32)));
    assert(recs_ids_below(parse_from(nlog, 32), m + 1)) by {
        assert forall|w: int| 0 <= w < parse_from(nlog, 32).len() implies (#[trigger] parse_from(
            nlog,
            32,
        )[w].rec.id as int) < m + 1 by {
            if w < rs.len() {
                assert(parse_from(nlog, 32)[w] == rs[w]);
                assert((rs[w].rec.id as int) < m);
            } else {
                assert(parse_from(nlog, 32)[w] == lr);
            }
        }
    }
    assert(parse_from(nlog, 32).len() == m + 1);
    assert forall|w: int| 0 <= w < m + 1 implies {
        let lrw = #[trigger] parse_from(nlog, 32)[w];
        &&& lrw.rec.tombstone == false
        &&& lrw.rec.id as int == w
        &&& lrw.rec.key == encode_utf8(nindex[w].key@)
    } by {
        if w < m {
            assert(parse_from(nlog, 32)[w] == rs[w]);
            assert(nindex[w] == pre_index[w]);
        } else {
            assert(parse_from(nlog, 32)[w] == lr);
        }
    }
    // sizes of the grown structures
    assert((m + 1) * dim == m * dim + dim) by (nonlinear_arith);
    lemma_slot_window(st.deleted@.len() as int, s, dim);
    assert(st.slot_vec(s).len() == dim);
    assert(nvec.len() == (m + 1) * dim);
    // each entry, old or new, keeps its facts
    assert forall|j: int| 0 <= j < nindex.len() implies #[trigger] compact_entry_inv(
        st,
        nlog,
        nindex,
        nvec,
        nkeys,
        ndel,
        src_new,
        j,
    ) by {
        if j < m {
            assert(compact_entry_inv(
                st,
                pre_log,
                pre_index,
                pre_vec,
                pre_keys,
                pre_del,
                src_old,
                j,
            ));
            assert(nindex[j] == pre_index[j]);
            assert(src_new[j] == src_old[j]);
            assert(ndel[j] == pre_del[j]);
            assert(nkeys[j]@ == pre_keys[j]@);
            lemma_slot_window(m, j, dim);
            assert(nvec.subrange(j * dim, (j + 1) * dim) =~= pre_vec.subrange(
                j * dim,
                (j + 1) * dim,
            ));
            assert(parse_record_at(nlog, pre_index[j].entry.data_offset as int)
                == parse_record_at(pre_log, pre_index[j].entry.data_offset as int));
        } else {
            assert(src_new[j] == s);
            assert(nvec.subrange(m * dim, (m + 1) * dim) =~= st.slot_vec(s));
            assert(nindex[j].entry.data_offset as int == pre_log.len());
            assert(parse_record_at(nlog, pre_log.len() as int) == Some(rv));
        }
    }
    // the processed slots below s + 1
    assert forall|t: int| 0 <= t < s + 1 && !st.deleted@[t] implies exists|j: int|
        0 <= j < src_new.len() && #[trigger] src_new[j] == t by {
        if t < s {
            let j = choose|j: int| 0 <= j < src_old.len() && #[trigger] src_old[j] == t;
            assert(src_new[j] == t);
        } else {
            assert(src_new[src_new.len() - 1] == t);
        }
    }
}

/// Installing the rebuilt structures leaves a well-formed, fully dense store
/// holding exactly the live keys.
#[verifier::rlimit(100)]
proof fn lemma_compact_final(pre: Store, post: Store, src: Seq<int>)
    requires
        compact_inv(
            pre,
            post.log@,
            post.index@,
            post.vectors@,
            post.id_to_key@,
            post.deleted@,
            src,
            pre.deleted@.len() as int,
        ),
        post.config == pre.config,
        post.free_list@ == Seq::<u32>::empty(),
    ensures
        post.wf(),
        post.deleted_count() == 0,
        post.n_slots() == post.index@.len(),
        forall|s: int| 0 <= s < post.n_slots() ==> !post.slot_deleted(s),
        forall|k: Seq<char>| #[trigger]
            post.key_map().dom().contains(k) <==> (pre.key_map().dom().contains(k)
                && !pre.key_map()[k].deleted),
        forall|k: Seq<char>|
            pre.key_map().dom().contains(k) && !(#[trigger] pre.key_map()[k]).deleted ==> {
                &&& post.key_map().dom().contains(k)
                &&& !post.key_map()[k].deleted
                &&& post.spec_get(k) == pre.spec_get(k)
                &&& post.slot_vec(post.key_map()[k].id as int) == pre.slot_vec(
                    pre.key_map()[k].id as int,
                )
            },
        parse_from(post.log@, 32).len() == post.index@.len(),
        forall|w: int|
            0 <= w < parse_from(post.log@, 32).len() ==> {
                let lrw = #[trigger] parse_from(post.log@, 32)[w];
                &&& lrw.rec.tombstone == false
                &&& lrw.rec.id as int == w
                &&& post.key_map().dom().contains(decode_utf8(lrw.rec.key))
                &&& !post.key_map()[decode_utf8(lrw.rec.key)].deleted
                &&& post.key_map()[decode_utf8(lrw.rec.key)].id as int == w
            },
        forall|k1: Seq<char>, k2: Seq<char>|
            #![auto]
            pre.key_map().dom().contains(k1) && !pre.key_map()[k1].deleted
                && pre.key_map().dom().contains(k2) && !pre.key_map()[k2].deleted ==> ((
            post.key_map()[k1].id < post.key_map()[k2].id) <==> (pre.key_map()[k1].id
                < pre.key_map()[k2].id)),
{
    let m = src.len() as int;
    let n0 = pre.deleted@.len() as int;
    // every new slot is live and owned by its own entry
    assert forall|s: int| 0 <= s < m implies !post.deleted@[s] && !post.index@[s].entry.deleted
        && post.index@[s].entry.id as int == s by {
        assert(compact_entry_inv(
            pre,
            post.log@,
            post.index@,
            post.vectors@,
            post.id_to_key@,
            post.deleted@,
            src,
            s,
        ));
    }
    assert forall|j: int|
        #![auto]
        0 <= j < post.index@.len() && !post.index@[j].entry.deleted implies (parse_record_at(
        post.log@,
        post.index@[j].entry.data_offset as int,
    ) matches Some(rv) && rv.id == post.index@[j].entry.id && rv.key == encode_utf8(
        post.index@[j].key@,
    ) && rv.tombstone == false) && !post.deleted@[post.index@[j].entry.id as int]
        && post.id_to_key@[post.index@[j].entry.id as int]@ == post.index@[j].key@ by {
        assert(compact_entry_inv(
            pre,
            post.log@,
            post.index@,
            post.vectors@,
            post.id_to_key@,
            post.deleted@,
            src,
            j,
        ));
    }
    assert forall|j: int| 0 <= j < post.index@.len() implies (#[trigger] post.index@[j].entry.id
        as int) < m by {
        assert(compact_entry_inv(
            pre,
            post.log@,
            post.index@,
            post.vectors@,
            post.id_to_key@,
            post.deleted@,
            src,
            j,
        ));
    }
    lemma_store_open_wf(post, parse_from(post.log@, 32), m);
    lemma_count_true_zero(post.deleted@);
    // the surviving keys are exactly the live keys
    assert forall|k: Seq<char>| #[trigger]
        post.key_map().dom().contains(k) implies (pre.key_map().dom().contains(k)
        && !pre.key_map()[k].deleted) by {
        lemma_index_map_dom(post.index@, k);
        let j = choose|j: int| 0 <= j < post.index@.len() && post.index@[j].key@ == k;
        assert(compact_entry_inv(
            pre,
            post.log@,
            post.index@,
            post.vectors@,
            post.id_to_key@,
            post.deleted@,
            src,
            j,
        ));
    }
    assert forall|k: Seq<char>|
        pre.key_map().dom().contains(k) && !(#[trigger] pre.key_map()[k]).deleted implies {
        &&& post.key_map().dom().contains(k)
        &&& !post.key_map()[k].deleted
        &&& post.spec_get(k) == pre.spec_get(k)
        &&& post.slot_vec(post.key_map()[k].id as int) == pre.slot_vec(
            pre.key_map()[k].id as int,
        )
    } by {
        lemma_index_map_dom(pre.index@, k);
        let j0 = choose|j0: int| 0 <= j0 < pre.index@.len() && pre.index@[j0].key@ == k;
        lemma_index_map_at(pre.index@, j0);
        assert(pre.entry_ok(j0));
        let t = pre.key_map()[k].id as int;
        assert(!pre.deleted@[t]);
        assert(0 <= t < n0);
        assert(pre.id_to_key@[t]@ == k);
        assert(exists|j: int| 0 <= j < src.len() && #[trigger] src[j] == t);
        let j = choose|j: int| 0 <= j < src.len() && #[trigger] src[j] == t;
        assert(compact_entry_inv(
            pre,
            post.log@,
            post.index@,
            post.vectors@,
            post.id_to_key@,
            post.deleted@,
            src,
            j,
        ));
        assert(post.index@[j].key@ == k);
        lemma_index_map_at(post.index@, j);
        assert(post.key_map()[k] == post.index@[j].entry.view());
        assert(post.key_map()[k].id as int == j);
    }
    // the rebuilt log names each surviving key once, by its new slot
    assert forall|w: int| 0 <= w < parse_from(post.log@, 32).len() implies {
        let lrw = #[trigger] parse_from(post.log@, 32)[w];
        &&& lrw.rec.tombstone == false
        &&& lrw.rec.id as int == w
        &&& post.key_map().dom().contains(decode_utf8(lrw.rec.key))
        &&& !post.key_map()[decode_utf8(lrw.rec.key)].deleted
        &&& post.key_map()[decode_utf8(lrw.rec.key)].id as int == w
    } by {
        let lrw = parse_from(post.log@, 32)[w];
        assert(lrw.rec.key == encode_utf8(post.index@[w].key@));
        vstd::utf8::encode_utf8_decode_utf8(post.index@[w].key@);
        lemma_index_map_at(post.index@, w);
        assert(compact_entry_inv(
            pre,
            post.log@,
            post.index@,
            post.vectors@,
            post.id_to_key@,
            post.deleted@,
            src,
            w,
        ));
    }
    // renumbering keeps the old slot order
    assert forall|k1: Seq<char>, k2: Seq<char>|
        #![auto]
        pre.key_map().dom().contains(k1) && !pre.key_map()[k1].deleted
            && pre.key_map().dom().contains(k2) && !pre.key_map()[k2].deleted implies ((
    post.key_map()[k1].id < post.key_map()[k2].id) <==> (pre.key_map()[k1].id
        < pre.key_map()[k2].id)) by {
        let j1 = lemma_compact_slot_of(pre, post, src, k1);
        let j2 = lemma_compact_slot_of(pre, post, src, k2);
        if j1 < j2 {
            assert(src[j1] < src[j2]);
        } else if j2 < j1 {
            assert(src[j2] < src[j1]);
        }
    }
}

/// For a key live before compaction, locates its new slot: the position of
/// its old slot among the surviving ones.
proof fn lemma_compact_slot_of(pre: Store, post: Store, src: Seq<int>, k: Seq<char>) -> (j: int)
    requires
        compact_inv(
            pre,
            post.log@,
            post.index@,
            post.vectors@,
            post.id_to_key@,
            post.deleted@,
            src,
            pre.deleted@.len() as int,
        ),
        pre.key_map().dom().contains(k),
        !pre.key_map()[k].deleted,
    ensures
        0 <= j < src.len(),
        src[j] == pre.key_map()[k].id as int,
        post.key_map().dom().contains(k),
        post.key_map()[k].id as int == j,
{
    lemma_index_map_dom(pre.index@, k);
    let j0 = choose|j0: int| 0 <= j0 < pre.index@.len() && pre.index@[j0].key@ == k;
    lemma_index_map_at(pre.index@, j0);
    assert(pre.entry_ok(j0));
    let t = pre.key_map()[k].id as int;
    assert(!pre.deleted@[t]);
    assert(0 <= t < pre.deleted@.len());
    assert(pre.id_to_key@[t]@ == k);
    assert(exists|j: int| 0 <= j < src.len() && #[trigger] src[j] == t);
    let j = choose|j: int| 0 <= j < src.len() && #[trigger] src[j] == t;
    assert(compact_entry_inv(
        pre,
        post.log@,
        post.index@,
        post.vectors@,
        post.id_to_key@,
        post.deleted@,
        src,
        j,
    ));
    assert(post.index@[j].key@ == k);
    lemma_index_map_at(post.index@, j);
    j
}


impl Store {
    /// Rewrites the store dense: only live keys survive, renumbered to slots
    /// `0..` in ascending order of their old slots; the log holds exactly one
    /// put record per live key; the free list empties. The caller then writes
    /// the fresh images (`log_image`, `vector_file_image`) to a staging
    /// directory and swaps them in atomically.
    #[verifier::rlimit(100)]
    pub fn compact(&mut self)
        requires
            old(self).wf(),
        ensures
            final(self).wf(),
            final(self).cfg() == old(self).cfg(),
            final(self).free_slots() == Seq::<u32>::empty(),
            final(self).deleted_count() == 0,
            final(self).n_slots() == final(self).index_len(),
            forall|s: int| 0 <= s < final(self).n_slots() ==> !final(self).slot_deleted(s),
            forall|k: Seq<char>| #[trigger]
                final(self).key_map().dom().contains(k) <==> (old(
                    self,
                ).key_map().dom().contains(k) && !old(self).key_map()[k].deleted),
            forall|k: Seq<char>|
                old(self).key_map().dom().contains(k) && !(#[trigger] old(
                    self,
                ).key_map()[k]).deleted ==> {
                    &&& final(self).key_map().dom().contains(k)
                    &&& !final(self).key_map()[k].deleted
                    &&& final(self).spec_get(k) == old(self).spec_get(k)
                    &&& final(self).slot_vec(final(self).key_map()[k].id as int) == old(
                        self,
                    ).slot_vec(old(self).key_map()[k].id as int)
                },
            // the rebuilt log holds exactly one put record per surviving key,
            // no tombstones, slot ids dense from zero
            parse_from(final(self).log_bytes(), 32).len() == final(self).index_len(),
            forall|w: int|
                0 <= w < parse_from(final(self).log_bytes(), 32).len() ==> {
                    let lrw = #[trigger] parse_from(final(self).log_bytes(), 32)[w];
                    &&& lrw.rec.tombstone == false
                    &&& lrw.rec.id as int == w
                    &&& final(self).key_map().dom().contains(decode_utf8(lrw.rec.key))
                    &&& !final(self).key_map()[decode_utf8(lrw.rec.key)].deleted
                    &&& final(self).key_map()[decode_utf8(lrw.rec.key)].id as int == w
                },
            // renumbering keeps the surviving keys in ascending old-slot order
            forall|k1: Seq<char>, k2: Seq<char>|
                #![auto]
                (old(self).key_map().dom().contains(k1) && !old(self).key_map()[k1].deleted
                    && old(self).key_map().dom().contains(k2)
                    && !old(self).key_map()[k2].deleted) ==> ((final(self).key_map()[k1].id
                    < final(self).key_map()[k2].id) <==> (old(self).key_map()[k1].id
                    < old(self).key_map()[k2].id)),
    {
        let n = self.deleted.len();
        let h = FileHeader::new(self.config.dimension);
        let mut new_log: Vec<u8> = h.encode();
        let mut new_index: Vec<KeyedEntry> = Vec::new();
        let mut new_vectors: Vec<u32> = Vec::new();
        let mut new_id_to_key: Vec<String> = Vec::new();
        let mut new_deleted: Vec<bool> = Vec::new();
        let ghost mut src: Seq<int> = Seq::empty();
        proof {
            assert(new_log@ =~= spec_header_bytes(self.config.dimension));
            crate::format::lemma_header_bytes_fields(self.config.dimension);
            assert(parse_record_at(new_log@, 32) is None);
            assert(parse_from(new_log@, 32) =~= Seq::<LocRecord>::empty());
            assert(parse_end(new_log@, 32) == 32);
            assert(Seq::<u32>::empty().len() == 0 * self.dim()) by (nonlinear_arith);
            assert(compact_inv(
                *self,
                new_log@,
                new_index@,
                new_vectors@,
                new_id_to_key@,
                new_deleted@,
                src,
                0,
            ));
        }
        let mut s: usize = 0;
        while s < n
            invariant
                *self == *old(self),
                self.wf(),
                n == self.deleted@.len(),
                s <= n,
                compact_inv(
                    *self,
                    new_log@,
                    new_index@,
                    new_vectors@,
                    new_id_to_key@,
                    new_deleted@,
                    src,
                    s as int,
                ),
            decreases n - s,
        {
            if !self.deleted[s] {
                let ghost src_old = src;
                let ghost pre_index = new_index@;
                let ghost pre_vec = new_vectors@;
                let ghost pre_keys = new_id_to_key@;
                let ghost pre_del = new_deleted@;
                let key = self.id_to_key[s].clone();
                proof {
                    let j0 = choose|j0: int|
                        #![auto]
                        0 <= j0 < self.index@.len() && !self.index@[j0].entry.deleted
                            && self.index@[j0].entry.id as int == s as int;
                    assert(self.entry_ok(j0));
                    assert(self.index@[j0].key@ == key@);
                    lemma_index_map_at(self.index@, j0);
                }
                let i = match find_entry(&self.index, &key) {
                    Some(i) => i,
                    None => {
                        proof {
                            assert(false);
                        }
                        0
                    },
                };
                proof {
                    lemma_index_map_at(self.index@, i as int);
                    assert(self.entry_ok(i as int));
                    assert(self.index@[i as int].entry.id as int == s as int);
                    assert(!self.index@[i as int].entry.deleted);
                }
                let loglen = self.log.len();
                let off64 = self.index[i].entry.data_offset;
                proof {
                    assert(parse_record_at(self.log@, off64 as int) is Some);
                    assert(off64 as int + 17 <= loglen as int);
                }
                let (rec, _rl) = match decode_record_at(&self.log, off64 as usize) {
                    Some(p) => p,
                    None => {
                        proof {
                            assert(false);
                        }
                        (
                            Record {
                                id: 0,
                                key: String::new(),
                                value: String::new(),
                                tombstone: false,
                            },
                            0,
                        )
                    },
                };
                let value_bytes = rec.value.as_str().as_bytes_vec();
                proof {
                    let rv0 = parse_record_at(self.log@, off64 as int)->Some_0;
                    vstd::utf8::decode_utf8_encode_utf8(rv0.val);
                    assert(value_bytes@ == rv0.val);
                    assert(rv0.key == encode_utf8(key@));
                    assert(encode_utf8(key@).len() < 0x1_0000_0000);
                    assert(value_bytes@.len() < 0x1_0000_0000);
                    assert(new_index@.len() <= s as int);
                    assert((n as int) <= u32::MAX);
                }
                let sv = self.slot_vector(s);
                let new_id32 = new_index.len() as u32;
                append_u32s(&mut new_vectors, &sv);
                let key_copy = key.clone();
                new_id_to_key.push(key_copy);
                new_deleted.push(false);
                let rec_bytes = encode_record(new_id32, &key, &value_bytes, false);
                let new_off = new_log.len() as u64;
                let ghost pre_log = new_log@;
                new_log.extend_from_slice(rec_bytes.as_slice());
                let ne = KeyedEntry {
                    key,
                    entry: IndexEntry { id: new_id32, data_offset: new_off, deleted: false },
                };
                new_index.push(ne);
                proof {
                    src = src.push(s as int);
                    assert(new_log@ =~= pre_log + crate::record::spec_record_bytes(
                        new_id32,
                        encode_utf8(new_index@.last().key@),
                        value_bytes@,
                        false,
                    ));
                    lemma_compact_step(
                        *self,
                        pre_log,
                        new_log@,
                        pre_index,
                        new_index@,
                        pre_vec,
                        new_vectors@,
                        pre_keys,
                        new_id_to_key@,
                        pre_del,
                        new_deleted@,
                        src_old,
                        src,
                        s as int,
                        new_index@.last().key@,
                    );
                }
            }
            s = s + 1;
            proof {
                assert(compact_inv(
                    *self,
                    new_log@,
                    new_index@,
                    new_vectors@,
                    new_id_to_key@,
                    new_deleted@,
                    src,
                    s as int,
                ));
            }
        }
        let ghost pre = *old(self);
        self.log = new_log;
        self.vectors = new_vectors;
        self.index = new_index;
        self.id_to_key = new_id_to_key;
        self.deleted = new_deleted;
        self.free_list = Vec::new();
        proof {
            lemma_compact_final(pre, *self, src);
        }
    }
}


/// Law: the vector file is always a whole number of slots past its header —
/// its length satisfies `(len - 32) % (dimension * 4) == 0`.
pub proof fn lemma_vector_file_aligned(s: Store)
    requires
        s.wf(),
    ensures
        s.vector_file_bytes().len() == 32 + 4 * s.n_slots() * s.dim(),
        (s.vector_file_bytes().len() - 32) % (s.dim() * 4) == 0,
{
    crate::format::lemma_vec_bits_encoding_len(s.vectors@);
    assert(4 * (s.n_slots() * s.dim()) == 4 * s.n_slots() * s.dim()) by (nonlinear_arith);
    let m = s.dim() * 4;
    let d = s.dim();
    let nn = s.n_slots();
    vstd::arithmetic::div_mod::lemma_mod_multiples_basic(s.n_slots(), m);
    assert(nn * m == 4 * nn * d) by (nonlinear_arith)
        requires
            m == d * 4,
    ;
}

/// Law: no two live keys share a slot in a well-formed store.
pub proof fn lemma_wf_no_dup_live(s: Store)
    requires
        s.wf(),
    ensures
        no_dup_live(s.key_map()),
{
    assert forall|k1: Seq<char>, k2: Seq<char>|
        #![auto]
        s.key_map().dom().contains(k1) && s.key_map().dom().contains(k2)
            && !s.key_map()[k1].deleted && !s.key_map()[k2].deleted && s.key_map()[k1].id
            == s.key_map()[k2].id implies k1 == k2 by {
        lemma_index_map_dom(s.index@, k1);
        lemma_index_map_dom(s.index@, k2);
        let j1 = choose|j: int| 0 <= j < s.index@.len() && s.index@[j].key@ == k1;
        let j2 = choose|j: int| 0 <= j < s.index@.len() && s.index@[j].key@ == k2;
        lemma_index_map_at(s.index@, j1);
        lemma_index_map_at(s.index@, j2);
        assert(s.entry_ok(j1));
        assert(s.entry_ok(j2));
    }
}

/// Law: a slot is deleted exactly when no live key owns it, so
/// `active_vectors + deleted_vectors == total_vectors` counts each slot once.
pub proof fn lemma_bitmap_matches_live(s: Store)
    requires
        s.wf(),
    ensures
        forall|slot: int|
            0 <= slot < s.n_slots() ==> s.slot_deleted(slot) == !live_at(s.key_map(), slot),
{
    assert forall|slot: int| 0 <= slot < s.n_slots() implies s.slot_deleted(slot) == !live_at(
        s.key_map(),
        slot,
    ) by {
        if !s.deleted@[slot] {
            let j = choose|j: int|
                #![auto]
                0 <= j < s.index@.len() && !s.index@[j].entry.deleted && s.index@[j].entry.id
                    as int == slot;
            lemma_index_map_at(s.index@, j);
            assert(live_at(s.key_map(), slot));
        } else {
            if live_at(s.key_map(), slot) {
                let kx = choose|kx: Seq<char>|
                    #![auto]
                    s.key_map().dom().contains(kx) && !s.key_map()[kx].deleted
                        && s.key_map()[kx].id as int == slot;
                lemma_index_map_dom(s.index@, kx);
                let j = choose|j: int| 0 <= j < s.index@.len() && s.index@[j].key@ == kx;
                lemma_index_map_at(s.index@, j);
                assert(s.entry_ok(j));
                assert(!s.deleted@[slot]);
            }
        }
    }
}

/// Law: closing and reopening reproduces the state. The two byte images a
/// well-formed store persists are accepted by `open`, and what `open`
/// guarantees of the store it returns — the key map as the log's replay, the
/// slot count, the component array, the deletion bitmap — equals this
/// store's own state.
pub proof fn lemma_reopen_round_trip(s: Store)
    requires
        s.wf(),
    ensures
        open_accepts(s.log_bytes(), s.vector_file_bytes(), s.cfg()),
        spec_scan_log(s.log_bytes(), s.cfg().dimension) == s.log_bytes(),
        replay(parse_from(s.log_bytes(), 32)) == s.key_map(),
        spec_n_slots(s.vector_file_bytes(), s.cfg().dimension) == s.n_slots(),
        vec_bits_decoding(
            s.vector_file_bytes().subrange(32, s.vector_file_bytes().len() as int),
        ) == s.vectors_flat(),
        forall|slot: int|
            0 <= slot < s.n_slots() ==> s.slot_deleted(slot) == !live_at(s.key_map(), slot),
{
    let dim = s.cfg().dimension;
    let vf = s.vector_file_bytes();
    crate::format::lemma_header_bytes_fields(dim);
    crate::format::lemma_vec_bits_encoding_len(s.vectors@);
    // the vector file image opens under the same dimension
    assert(vf.subrange(0, 4) =~= spec_header_bytes(dim).subrange(0, 4));
    assert(vf.subrange(6, 10) =~= spec_header_bytes(dim).subrange(6, 10));
    assert(vf[4] == spec_header_bytes(dim)[4]);
    assert(header_magic_ok(vf));
    assert(vf_dim(vf) == dim);
    // it holds exactly this store's slots
    let n = s.n_slots();
    let d = s.dim();
    let m = (dim as int) * 4;
    assert(4 * (n * d) == m * n) by (nonlinear_arith)
        requires
            m == d * 4,
    ;
    assert(vf.len() - 32 == m * n);
    vstd::arithmetic::div_mod::lemma_div_multiples_vanish(n, m);
    assert(spec_n_slots(vf, dim) == n);
    // the log image rescans to itself
    assert(s.log_bytes().take(parse_end(s.log_bytes(), 32)) =~= s.log_bytes());
    assert(spec_scan_log(s.log_bytes(), dim) == s.log_bytes());
    lemma_wf_no_dup_live(s);
    // the components decode back to the in-memory array
    assert(vf.subrange(32, vf.len() as int) =~= vec_bits_encoding(s.vectors@));
    crate::format::lemma_vec_bits_roundtrip(s.vectors@);
    lemma_bitmap_matches_live(s);
}

/// Law: cutting the data log at any byte and rescanning yields a prefix of
/// the full record sequence — a crash can only lose a suffix of committed
/// writes, never invent or reorder records.
pub proof fn lemma_truncated_log_is_prefix(s: Store, n: int)
    requires
        s.wf(),
        0 <= n <= s.log_bytes().len(),
    ensures
        parse_from(s.log_bytes().take(n), 32).is_prefix_of(parse_from(s.log_bytes(), 32)),
{
    crate::record::lemma_parse_from_prefix(s.log_bytes(), n, 32);
}


/// Law: a live key owns its slot — the slot is not deleted and records that
/// key as its owner.
pub proof fn lemma_live_slot_owner(s: Store, k: Seq<char>)
    requires
        s.wf(),
        s.key_map().dom().contains(k),
        !s.key_map()[k].deleted,
    ensures
        0 <= s.key_map()[k].id as int && (s.key_map()[k].id as int) < s.n_slots(),
        !s.slot_deleted(s.key_map()[k].id as int),
        s.slot_key(s.key_map()[k].id as int) == k,
{
    lemma_index_map_dom(s.index@, k);
    let j = choose|j: int| 0 <= j < s.index@.len() && s.index@[j].key@ == k;
    lemma_index_map_at(s.index@, j);
    assert(s.entry_ok(j));
}

/// Law: a live slot's recorded owner is a live key of the map, and that
/// key's slot is this one.
pub proof fn lemma_slot_owner_live(s: Store, slot: int)
    requires
        s.wf(),
        0 <= slot < s.n_slots(),
        !s.slot_deleted(slot),
    ensures
        s.key_map().dom().contains(s.slot_key(slot)),
        !s.key_map()[s.slot_key(slot)].deleted,
        s.key_map()[s.slot_key(slot)].id as int == slot,
{
    let j = choose|j: int|
        #![auto]
        0 <= j < s.index@.len() && !s.index@[j].entry.deleted && s.index@[j].entry.id as int
            == slot;
    assert(s.entry_ok(j));
    assert(s.index@[j].key@ == s.slot_key(slot));
    lemma_index_map_at(s.index@, j);
}

/// Law: a read succeeds exactly on the live keys.
pub proof fn lemma_get_iff_live(s: Store, k: Seq<char>)
    requires
        s.wf(),
    ensures
        s.spec_get(k) is Some <==> (s.key_map().dom().contains(k) && !s.key_map()[k].deleted),
{
    if s.key_map().dom().contains(k) && !s.key_map()[k].deleted {
        lemma_index_map_dom(s.index@, k);
        let j = choose|j: int| 0 <= j < s.index@.len() && s.index@[j].key@ == k;
        lemma_index_map_at(s.index@, j);
        assert(s.entry_ok(j));
        assert(parse_record_at(s.log@, s.key_map()[k].off) is Some);
    }
}

/// Law: what a read of a live key returns is the metadata of the put record
/// its entry points at in the log image.
pub proof fn lemma_get_reads_log(s: Store, k: Seq<char>)
    requires
        s.wf(),
        s.key_map().dom().contains(k),
        !s.key_map()[k].deleted,
    ensures
        parse_record_at(s.log_bytes(), s.key_map()[k].off) matches Some(rv) && rv.id
            == s.key_map()[k].id && rv.key == encode_utf8(k) && rv.tombstone == false
            && s.spec_get(k) == Some(decode_utf8(rv.val)),
{
    lemma_index_map_dom(s.index@, k);
    let j = choose|j: int| 0 <= j < s.index@.len() && s.index@[j].key@ == k;
    lemma_index_map_at(s.index@, j);
    assert(s.entry_ok(j));
}

/// Law: the vector file image is the canonical header for the store's
/// dimension followed by every slot's components, big-endian.
pub proof fn lemma_vector_file_image_layout(s: Store)
    ensures
        s.vector_file_bytes() == spec_header_bytes(s.cfg().dimension) + vec_bits_encoding(
            s.vectors_flat(),
        ),
{
}


/// The deleted slots, as a set of ids.
spec fn deleted_slot_set(d: Seq<bool>) -> Set<u32> {
    Set::new(|x: u32| (x as int) < d.len() && d[x as int])
}

/// The count of set bits is the cardinality of the set of set positions.
proof fn lemma_count_true_is_card(d: Seq<bool>)
    requires
        d.len() <= u32::MAX,
    ensures
        deleted_slot_set(d).finite(),
        deleted_slot_set(d).len() == count_true(d),
    decreases d.len(),
{
    broadcast use vstd::set::group_set_axioms;

    if d.len() == 0 {
        assert(deleted_slot_set(d) =~= Set::<u32>::empty());
    } else {
        lemma_count_true_is_card(d.drop_last());
        let prev = deleted_slot_set(d.drop_last());
        let last = (d.len() - 1) as u32;
        if d.last() {
            assert(deleted_slot_set(d) =~= prev.insert(last));
            assert(!prev.contains(last));
        } else {
            assert(deleted_slot_set(d) =~= prev);
        }
    }
}

/// Law: the free list holds exactly the deleted slots, each once, so its
/// length is the deleted-slot count — `free_list_size == deleted_vectors`
/// in every reachable state.
pub proof fn lemma_free_list_counts_deleted(s: Store)
    requires
        s.wf(),
    ensures
        s.free_slots().len() == s.deleted_count(),
        s.free_slots().no_duplicates(),
        forall|i: int|
            0 <= i < s.free_slots().len() ==> (#[trigger] s.free_slots()[i] as int) < s.n_slots()
                && s.slot_deleted(s.free_slots()[i] as int),
        forall|t: int| 0 <= t < s.n_slots() && s.slot_deleted(t) ==> s.free_slots().contains(
            t as u32,
        ),
{
    broadcast use vstd::set::group_set_axioms;

    s.free_list@.unique_seq_to_set();
    lemma_count_true_is_card(s.deleted@);
    assert(s.free_list@.to_set() =~= deleted_slot_set(s.deleted@)) by {
        assert forall|x: u32| s.free_list@.to_set().contains(x) implies deleted_slot_set(
            s.deleted@,
        ).contains(x) by {
            let w = choose|w: int| 0 <= w < s.free_list@.len() && s.free_list@[w] == x;
        }
        assert forall|x: u32| deleted_slot_set(s.deleted@).contains(x) implies
            s.free_list@.to_set().contains(x) by {
            assert(s.free_list@.contains(x));
        }
    }
}


/// Law: the flat component array holds exactly one window per slot.
pub proof fn lemma_vectors_sized(s: Store)
    requires
        s.wf(),
    ensures
        s.vectors_flat().len() == s.n_slots() * s.dim(),
        s.n_slots() <= u32::MAX,
{
}

} // verus!
