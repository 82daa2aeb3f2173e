//! The persistent store: a small index file and an append-only data file.
//!
//! The data file is a run of frames, `u32 length` then that many bytes of
//! one encoded entry. The index file opens with a fixed header (magic,
//! version, flags) and carries the path-to-offset directory together with
//! the scan metadata. Reading and writing the files is the caller's part;
//! this module turns bytes into a live store and back, and proves that a
//! saved store reopens to the same contents.

use vstd::prelude::*;
use vstd::bytes::*;
use crate::codec::{
    enc_u32, enc_u64, enc_i64, enc_bytes, dec_u32, dec_u64, dec_i64, dec_u8, dec_bytes,
    lemma_dec_u32, lemma_dec_u64, lemma_dec_i64, lemma_dec_u8, lemma_dec_bytes, MAX_FIELD,
    spec_decode_entry, spec_encode_entry, entry_encodable, encode_entry, decode_entry,
    push_u32, push_u64, push_bytes, read_field, read_u32_at,
};
use crate::entry::{DirEntry, EntryModel};
use crate::journal::USNJournalState;
use crate::error::CacheError;

verus! {

/// First bytes of every index file.
pub const INDEX_MAGIC: u32 = 0x5049_4458;

/// The index format this crate writes.
pub const INDEX_VERSION: u16 = 1;

// ---------------------------------------------------------------------------
// The index
// ---------------------------------------------------------------------------

/// The directory of the store: byte offsets of every entry in the data
/// file, and the scan metadata.
pub struct CacheIndex {
    pub offsets: Vec<(Vec<u8>, u64)>,
    pub last_scan: i64,
    pub root: Vec<u8>,
    pub last_scanned_root: Vec<u8>,
    pub usn_state: USNJournalState,
    pub skip_stats: Vec<(Vec<u8>, u64)>,
}

/// The mathematical value of a `CacheIndex`.
pub ghost struct IndexModel {
    pub offsets: Seq<(Seq<u8>, u64)>,
    pub last_scan: i64,
    pub root: Seq<u8>,
    pub last_scanned_root: Seq<u8>,
    pub usn_state: USNJournalState,
    pub skip_stats: Seq<(Seq<u8>, u64)>,
}

/// The views of a sequence of (byte string, number) pairs.
pub open spec fn pair_views(s: Seq<(Vec<u8>, u64)>) -> Seq<(Seq<u8>, u64)> {
    s.map_values(|p: (Vec<u8>, u64)| (p.0@, p.1))
}

impl View for CacheIndex {
    type V = IndexModel;

    open spec fn view(&self) -> IndexModel {
        IndexModel {
            offsets: pair_views(self.offsets@),
            last_scan: self.last_scan,
            root: self.root@,
            last_scanned_root: self.last_scanned_root@,
            usn_state: self.usn_state,
            skip_stats: pair_views(self.skip_stats@),
        }
    }
}

impl CacheIndex {
    /// A fresh, empty index stamped with `now`.
    pub fn new(now: i64) -> (r: Self)
        ensures
            r@ == (IndexModel {
                offsets: Seq::<(Seq<u8>, u64)>::empty(),
                last_scan: now,
                root: Seq::<u8>::empty(),
                last_scanned_root: Seq::<u8>::empty(),
                usn_state: USNJournalState {
                    last_usn: 0,
                    journal_id: 0,
                    last_read: 0,
                    drive_letter: 'C',
                    change_count: 0,
                },
                skip_stats: Seq::<(Seq<u8>, u64)>::empty(),
            }),
    {
        let r = CacheIndex {
            offsets: Vec::new(),
            last_scan: now,
            root: Vec::new(),
            last_scanned_root: Vec::new(),
            usn_state: Default::default(),
            skip_stats: Vec::new(),
        };
        proof {
            assert(pair_views(r.offsets@) =~= Seq::<(Seq<u8>, u64)>::empty());
            assert(pair_views(r.skip_stats@) =~= Seq::<(Seq<u8>, u64)>::empty());
        }
        r
    }
}

// ---------------------------------------------------------------------------
// Index encoding
// ---------------------------------------------------------------------------

pub open spec fn enc_pairs_from(ps: Seq<(Seq<u8>, u64)>, i: int) -> Seq<u8>
    decreases ps.len() - i,
{
    if 0 <= i < ps.len() {
        enc_bytes(ps[i].0) + enc_u64(ps[i].1) + enc_pairs_from(ps, i + 1)
    } else {
        Seq::empty()
    }
}

pub open spec fn enc_pairs(ps: Seq<(Seq<u8>, u64)>) -> Seq<u8> {
    enc_pairs_from(ps, 0)
}

/// Every length-prefixed field of the index fits its prefix, and the drive
/// letter is one byte.
pub open spec fn index_encodable(ix: IndexModel) -> bool {
    &&& ix.root.len() <= MAX_FIELD
    &&& ix.last_scanned_root.len() <= MAX_FIELD
    &&& ix.offsets.len() <= MAX_FIELD
    &&& ix.skip_stats.len() <= MAX_FIELD
    &&& (forall|i: int| 0 <= i < ix.offsets.len() ==> (#[trigger] ix.offsets[i]).0.len()
        <= MAX_FIELD)
    &&& (forall|i: int| 0 <= i < ix.skip_stats.len() ==> (#[trigger] ix.skip_stats[i]).0.len()
        <= MAX_FIELD)
    &&& (ix.usn_state.drive_letter as u32) < 256
}

pub open spec fn spec_encode_index(ix: IndexModel) -> Seq<u8> {
    enc_u32(INDEX_MAGIC) + enc_u32((INDEX_VERSION as u32)) + enc_bytes(ix.root) + enc_bytes(
        ix.last_scanned_root,
    ) + enc_i64(ix.last_scan) + enc_u64(ix.usn_state.journal_id) + enc_i64(ix.usn_state.last_usn)
        + seq![(ix.usn_state.drive_letter as u8)] + enc_i64(ix.usn_state.last_read) + enc_u64(
        ix.usn_state.change_count,
    ) + enc_u32(ix.offsets.len() as u32) + enc_pairs(ix.offsets) + enc_u32(
        ix.skip_stats.len() as u32,
    ) + enc_pairs(ix.skip_stats)
}

// ---------------------------------------------------------------------------
// Index decoding
// ---------------------------------------------------------------------------

pub open spec fn dec_pairs(b: Seq<u8>, n: nat) -> Option<(Seq<(Seq<u8>, u64)>, Seq<u8>)>
    decreases n,
{
    if n == 0 {
        Some((Seq::empty(), b))
    } else {
        match dec_bytes(b) {
            Some((s, r)) => match dec_u64(r) {
                Some((v, r2)) => match dec_pairs(r2, (n - 1) as nat) {
                    Some((ps, r3)) => Some((seq![(s, v)] + ps, r3)),
                    None => None,
                },
                None => None,
            },
            None => None,
        }
    }
}

/// The index header carries the expected magic and version.
pub open spec fn header_ok(b: Seq<u8>) -> bool {
    match dec_u32(b) {
        Some((magic, b1)) => magic == INDEX_MAGIC && (match dec_u32(b1) {
            Some((version, _)) => version == INDEX_VERSION as u32,
            None => false,
        }),
        None => false,
    }
}

pub open spec fn spec_decode_index(b: Seq<u8>) -> Option<IndexModel> {
    if !header_ok(b) {
        None
    } else {
        let b1 = (dec_u32(b)->0).1;
        let b2 = (dec_u32(b1)->0).1;
        match dec_bytes(b2) {
            Some((root, b3)) => match dec_bytes(b3) {
                Some((lsr, b4)) => match dec_i64(b4) {
                    Some((last_scan, b5)) => match dec_u64(b5) {
                        Some((journal_id, b6)) => match dec_i64(b6) {
                            Some((last_usn, b7)) => match dec_u8(b7) {
                                Some((drive, b8)) => match dec_i64(b8) {
                                    Some((last_read, b9)) => match dec_u64(b9) {
                                        Some((change_count, b10)) => match dec_u32(b10) {
                                            Some((n_off, b11)) => match dec_pairs(
                                                b11,
                                                n_off as nat,
                                            ) {
                                                Some((offsets, b12)) => match dec_u32(b12) {
                                                    Some((n_stats, b13)) => match dec_pairs(
                                                        b13,
                                                        n_stats as nat,
                                                    ) {
                                                        Some((skip_stats, b14)) => if b14.len()
                                                            == 0 {
                                                            Some(
                                                                IndexModel {
                                                                    offsets,
                                                                    last_scan,
                                                                    root,
                                                                    last_scanned_root: lsr,
                                                                    usn_state: USNJournalState {
                                                                        last_usn,
                                                                        journal_id,
                                                                        last_read,
                                                                        drive_letter: (
                                                                        drive as char),
                                                                        change_count,
                                                                    },
                                                                    skip_stats,
                                                                },
                                                            )
                                                        } else {
                                                            None
                                                        },
                                                        None => None,
                                                    },
                                                    None => None,
                                                },
                                                None => None,
                                            },
                                            None => None,
                                        },
                                        None => None,
                                    },
                                    None => None,
                                },
                                None => None,
                            },
                            None => None,
                        },
                        None => None,
                    },
                    None => None,
                },
                None => None,
            },
            None => None,
        }
    }
}

// ---------------------------------------------------------------------------
// Index round trip
// ---------------------------------------------------------------------------

pub proof fn lemma_dec_pairs(ps: Seq<(Seq<u8>, u64)>, rest: Seq<u8>)
    requires
        forall|i: int| 0 <= i < ps.len() ==> (#[trigger] ps[i]).0.len() <= MAX_FIELD,
    ensures
        dec_pairs(enc_pairs(ps) + rest, ps.len()) == Some((ps, rest)),
    decreases ps.len(),
{
    if ps.len() == 0 {
        assert(enc_pairs(ps) =~= Seq::<u8>::empty());
        assert(enc_pairs(ps) + rest =~= rest);
        assert(ps =~= Seq::<(Seq<u8>, u64)>::empty());
    } else {
        let tail = ps.skip(1);
        lemma_enc_pairs_shift(ps);
        assert(enc_pairs(ps) + rest =~= enc_bytes(ps[0].0) + (enc_u64(ps[0].1) + (enc_pairs(tail)
            + rest)));
        lemma_dec_bytes(ps[0].0, enc_u64(ps[0].1) + (enc_pairs(tail) + rest));
        lemma_dec_u64(ps[0].1, enc_pairs(tail) + rest);
        assert(forall|i: int| 0 <= i < tail.len() ==> (#[trigger] tail[i]).0.len() <= MAX_FIELD)
            by {
            assert(forall|i: int| 0 <= i < tail.len() ==> tail[i] == ps[i + 1]);
        }
        lemma_dec_pairs(tail, rest);
        assert(seq![(ps[0].0, ps[0].1)] + tail =~= ps);
    }
}

proof fn lemma_enc_pairs_shift(ps: Seq<(Seq<u8>, u64)>)
    requires
        ps.len() > 0,
    ensures
        enc_pairs_from(ps, 1) == enc_pairs(ps.skip(1)),
{
    lemma_enc_pairs_from_shift(ps, 1);
}

proof fn lemma_enc_pairs_from_shift(ps: Seq<(Seq<u8>, u64)>, k: int)
    requires
        0 < k <= ps.len(),
    ensures
        enc_pairs_from(ps, k) == enc_pairs_from(ps.skip(1), k - 1),
    decreases ps.len() - k,
{
    let tail = ps.skip(1);
    if k == ps.len() {
        assert(enc_pairs_from(ps, k) =~= Seq::<u8>::empty());
    } else {
        lemma_enc_pairs_from_shift(ps, k + 1);
        assert(tail[k - 1] == ps[k]);
    }
}

/// Decoding inverts encoding: the round-trip law for the index.
#[verifier::rlimit(100)]
pub proof fn lemma_index_roundtrip(ix: IndexModel)
    requires
        index_encodable(ix),
    ensures
        spec_decode_index(spec_encode_index(ix)) == Some(ix),
{
    let drive = (ix.usn_state.drive_letter as u8);
    let t12 = enc_pairs(ix.skip_stats);
    let t11 = enc_u32(ix.skip_stats.len() as u32) + t12;
    let t10 = enc_pairs(ix.offsets) + t11;
    let t9 = enc_u32(ix.offsets.len() as u32) + t10;
    let t8 = enc_u64(ix.usn_state.change_count) + t9;
    let t7 = enc_i64(ix.usn_state.last_read) + t8;
    let t6 = seq![drive] + t7;
    let t5 = enc_i64(ix.usn_state.last_usn) + t6;
    let t4 = enc_u64(ix.usn_state.journal_id) + t5;
    let t3 = enc_i64(ix.last_scan) + t4;
    let t2 = enc_bytes(ix.last_scanned_root) + t3;
    let t1 = enc_bytes(ix.root) + t2;
    let t0 = enc_u32(INDEX_VERSION as u32) + t1;
    let b = enc_u32(INDEX_MAGIC) + t0;
    assert(spec_encode_index(ix) =~= b);

    lemma_dec_u32(INDEX_MAGIC, t0);
    lemma_dec_u32(INDEX_VERSION as u32, t1);
    lemma_dec_bytes(ix.root, t2);
    lemma_dec_bytes(ix.last_scanned_root, t3);
    lemma_dec_i64(ix.last_scan, t4);
    lemma_dec_u64(ix.usn_state.journal_id, t5);
    lemma_dec_i64(ix.usn_state.last_usn, t6);
    lemma_dec_u8(drive, t7);
    lemma_dec_i64(ix.usn_state.last_read, t8);
    lemma_dec_u64(ix.usn_state.change_count, t9);
    lemma_dec_u32(ix.offsets.len() as u32, t10);
    assert(enc_pairs(ix.offsets) + t11 =~= t10);
    lemma_dec_pairs(ix.offsets, t11);
    lemma_dec_u32(ix.skip_stats.len() as u32, t12);
    assert(enc_pairs(ix.skip_stats) + Seq::<u8>::empty() =~= t12);
    lemma_dec_pairs(ix.skip_stats, Seq::empty());
    assert((drive as char) as u8 == drive);
    assert(((ix.usn_state.drive_letter as u8) as char) == ix.usn_state.drive_letter);
    assert(spec_decode_index(b) == Some(ix));
}

// ---------------------------------------------------------------------------
// Executable index codec
// ---------------------------------------------------------------------------

/// Serialise the index; `None` when a field exceeds its length prefix or
/// the drive letter is not one byte.
#[verifier::loop_isolation(false)]
pub fn encode_index(ix: &CacheIndex) -> (r: Option<Vec<u8>>)
    ensures
        match r {
            Some(v) => index_encodable(ix@) && v@ == spec_encode_index(ix@),
            None => !index_encodable(ix@),
        },
{
    if (ix.usn_state.drive_letter as u32) >= 256 {
        return None;
    }
    let mut out: Vec<u8> = Vec::new();
    push_u32(&mut out, INDEX_MAGIC);
    push_u32(&mut out, INDEX_VERSION as u32);
    if !push_bytes(&mut out, ix.root.as_slice()) {
        return None;
    }
    if !push_bytes(&mut out, ix.last_scanned_root.as_slice()) {
        return None;
    }
    push_u64(&mut out, ix.last_scan as u64);
    push_u64(&mut out, ix.usn_state.journal_id);
    push_u64(&mut out, ix.usn_state.last_usn as u64);
    out.push(ix.usn_state.drive_letter as u8);
    push_u64(&mut out, ix.usn_state.last_read as u64);
    push_u64(&mut out, ix.usn_state.change_count);
    if ix.offsets.len() > MAX_FIELD as usize {
        return None;
    }
    push_u32(&mut out, ix.offsets.len() as u32);
    let ghost head = out@;
    let mut i: usize = 0;
    while i < ix.offsets.len()
        invariant
            0 <= i <= ix.offsets@.len(),
            forall|j: int| 0 <= j < i ==> (#[trigger] ix@.offsets[j]).0.len() <= MAX_FIELD,
            out@ == head + enc_pairs(ix@.offsets.take(i as int)),
        decreases ix.offsets@.len() - i,
    {
        if !push_bytes(&mut out, ix.offsets[i].0.as_slice()) {
            proof {
                assert(ix@.offsets[i as int].0.len() > MAX_FIELD);
            }
            return None;
        }
        push_u64(&mut out, ix.offsets[i].1);
        proof {
            lemma_enc_pairs_snoc(ix@.offsets.take(i as int), ix@.offsets[i as int]);
            assert(ix@.offsets.take(i + 1 as int) =~= ix@.offsets.take(i as int).push(
                ix@.offsets[i as int],
            ));
        }
        i = i + 1;
    }
    proof {
        assert(ix@.offsets.take(ix@.offsets.len() as int) =~= ix@.offsets);
    }
    if ix.skip_stats.len() > MAX_FIELD as usize {
        return None;
    }
    push_u32(&mut out, ix.skip_stats.len() as u32);
    let ghost head2 = out@;
    let mut i: usize = 0;
    while i < ix.skip_stats.len()
        invariant
            0 <= i <= ix.skip_stats@.len(),
            forall|j: int| 0 <= j < i ==> (#[trigger] ix@.skip_stats[j]).0.len() <= MAX_FIELD,
            out@ == head2 + enc_pairs(ix@.skip_stats.take(i as int)),
        decreases ix.skip_stats@.len() - i,
    {
        if !push_bytes(&mut out, ix.skip_stats[i].0.as_slice()) {
            proof {
                assert(ix@.skip_stats[i as int].0.len() > MAX_FIELD);
            }
            return None;
        }
        push_u64(&mut out, ix.skip_stats[i].1);
        proof {
            lemma_enc_pairs_snoc(ix@.skip_stats.take(i as int), ix@.skip_stats[i as int]);
            assert(ix@.skip_stats.take(i + 1 as int) =~= ix@.skip_stats.take(i as int).push(
                ix@.skip_stats[i as int],
            ));
        }
        i = i + 1;
    }
    proof {
        assert(ix@.skip_stats.take(ix@.skip_stats.len() as int) =~= ix@.skip_stats);
        assert(out@ =~= spec_encode_index(ix@));
    }
    Some(out)
}

proof fn lemma_enc_pairs_snoc(ps: Seq<(Seq<u8>, u64)>, p: (Seq<u8>, u64))
    ensures
        enc_pairs(ps.push(p)) == enc_pairs(ps) + enc_bytes(p.0) + enc_u64(p.1),
    decreases ps.len(),
{
    let q = ps.push(p);
    if ps.len() == 0 {
        assert(q[0] == p);
        assert(enc_pairs_from(q, 1) =~= Seq::<u8>::empty());
        assert(enc_pairs(q) =~= enc_bytes(p.0) + enc_u64(p.1));
        assert(enc_pairs(ps) =~= Seq::<u8>::empty());
        assert(enc_pairs(ps) + enc_bytes(p.0) + enc_u64(p.1) =~= enc_bytes(p.0) + enc_u64(p.1));
    } else {
        lemma_enc_pairs_snoc(ps.skip(1), p);
        assert(ps.skip(1).push(p) =~= q.skip(1));
        lemma_enc_pairs_shift(q);
        lemma_enc_pairs_shift(ps);
        assert(q[0] == ps[0]);
        assert(enc_pairs(q) == enc_bytes(q[0].0) + enc_u64(q[0].1) + enc_pairs(q.skip(1)));
        assert(enc_pairs(ps) == enc_bytes(ps[0].0) + enc_u64(ps[0].1) + enc_pairs(ps.skip(1)));
        assert(enc_pairs(q) =~= enc_pairs(ps) + enc_bytes(p.0) + enc_u64(p.1));
    }
}

/// Parse an index from exactly the bytes of `b`. A wrong magic or version
/// is a format mismatch; any other malformation is corruption.
#[verifier::loop_isolation(false)]
#[verifier::rlimit(100)]
pub fn decode_index(b: &[u8]) -> (r: Result<CacheIndex, CacheError>)
    ensures
        match r {
            Ok(ix) => spec_decode_index(b@) == Some(ix@),
            Err(e) => spec_decode_index(b@) is None && (e is FormatMismatch <==> b@.len() >= 8
                && !header_ok(b@)),
        },
{
    let ghost whole = b@;
    let blen = b.len();
    if blen < 8 {
        proof {
            if blen < 4 {
            } else {
                assert(whole.skip(4).len() < 4);
            }
        }
        return Err(CacheError::Corrupt);
    }
    let magic = read_u32_at(b, 0);
    proof {
        assert(whole.take(4) =~= whole.subrange(0, 4));
        assert(whole.skip(4).take(4) =~= whole.subrange(4, 8));
        assert(whole.skip(4).skip(4) =~= whole.skip(8));
    }
    let version = read_u32_at(b, 4);
    if magic != INDEX_MAGIC || version != INDEX_VERSION as u32 {
        return Err(CacheError::FormatMismatch);
    }

    let (root, o1) = match read_field(b, 8) {
        Some(p) => p,
        None => {
            return Err(CacheError::Corrupt);
        },
    };
    let (lsr, o2) = match read_field(b, o1) {
        Some(p) => p,
        None => {
            return Err(CacheError::Corrupt);
        },
    };
    if blen - o2 < 8 {
        proof {
            assert(whole.skip(o2 as int).len() < 8);
        }
        return Err(CacheError::Corrupt);
    }
    let last_scan = crate::codec::read_u64_at(b, o2) as i64;
    proof {
        assert(whole.skip(o2 as int).take(8) =~= whole.subrange(o2 as int, o2 + 8));
        assert(whole.skip(o2 as int).skip(8) =~= whole.skip(o2 + 8));
    }
    let o3 = o2 + 8;
    if blen - o3 < 8 {
        proof {
            assert(whole.skip(o3 as int).len() < 8);
        }
        return Err(CacheError::Corrupt);
    }
    let journal_id = crate::codec::read_u64_at(b, o3);
    proof {
        assert(whole.skip(o3 as int).take(8) =~= whole.subrange(o3 as int, o3 + 8));
        assert(whole.skip(o3 as int).skip(8) =~= whole.skip(o3 + 8));
    }
    let o4 = o3 + 8;
    if blen - o4 < 8 {
        proof {
            assert(whole.skip(o4 as int).len() < 8);
        }
        return Err(CacheError::Corrupt);
    }
    let last_usn = crate::codec::read_u64_at(b, o4) as i64;
    proof {
        assert(whole.skip(o4 as int).take(8) =~= whole.subrange(o4 as int, o4 + 8));
        assert(whole.skip(o4 as int).skip(8) =~= whole.skip(o4 + 8));
    }
    let o5 = o4 + 8;
    if blen - o5 < 1 {
        proof {
            assert(whole.skip(o5 as int).len() < 1);
        }
        return Err(CacheError::Corrupt);
    }
    let drive = b[o5];
    proof {
        assert(whole.skip(o5 as int)[0] == whole[o5 as int]);
        assert(whole.skip(o5 as int).skip(1) =~= whole.skip(o5 + 1));
    }
    let o6 = o5 + 1;
    if blen - o6 < 8 {
        proof {
            assert(whole.skip(o6 as int).len() < 8);
        }
        return Err(CacheError::Corrupt);
    }
    let last_read = crate::codec::read_u64_at(b, o6) as i64;
    proof {
        assert(whole.skip(o6 as int).take(8) =~= whole.subrange(o6 as int, o6 + 8));
        assert(whole.skip(o6 as int).skip(8) =~= whole.skip(o6 + 8));
    }
    let o7 = o6 + 8;
    if blen - o7 < 8 {
        proof {
            assert(whole.skip(o7 as int).len() < 8);
        }
        return Err(CacheError::Corrupt);
    }
    let change_count = crate::codec::read_u64_at(b, o7);
    proof {
        assert(whole.skip(o7 as int).take(8) =~= whole.subrange(o7 as int, o7 + 8));
        assert(whole.skip(o7 as int).skip(8) =~= whole.skip(o7 + 8));
    }
    let o8 = o7 + 8;

    proof {
        if o8 + 4 <= blen {
            assert(whole.skip(o8 as int).skip(4) =~= whole.skip(o8 + 4));
        }
    }
    let (offsets, o9) = match read_pair_list(b, o8) {
        Some(p) => p,
        None => {
            return Err(CacheError::Corrupt);
        },
    };
    proof {
        if o9 + 4 <= blen {
            assert(whole.skip(o9 as int).skip(4) =~= whole.skip(o9 + 4));
        }
    }
    let (skip_stats, o10) = match read_pair_list(b, o9) {
        Some(p) => p,
        None => {
            return Err(CacheError::Corrupt);
        },
    };
    if o10 != blen {
        proof {
            assert(whole.skip(o10 as int).len() != 0);
        }
        return Err(CacheError::Corrupt);
    }
    proof {
        assert(whole.skip(o10 as int).len() == 0);
    }
    let ix = CacheIndex {
        offsets,
        last_scan,
        root,
        last_scanned_root: lsr,
        usn_state: USNJournalState {
            last_usn,
            journal_id,
            last_read,
            drive_letter: drive as char,
            change_count,
        },
        skip_stats,
    };
    Ok(ix)
}

/// Read a `u32` count followed by that many (byte string, `u64`) pairs.
#[verifier::loop_isolation(false)]
fn read_pair_list(b: &[u8], off: usize) -> (r: Option<(Vec<(Vec<u8>, u64)>, usize)>)
    requires
        off <= b@.len(),
    ensures
        match r {
            Some((ps, noff)) => {
                &&& off < noff <= b@.len()
                &&& (match dec_u32(b@.skip(off as int)) {
                    Some((n, _)) => dec_pairs(b@.skip(off + 4), n as nat) == Some(
                        (pair_views(ps@), b@.skip(noff as int)),
                    ),
                    None => false,
                })
            },
            None => (match dec_u32(b@.skip(off as int)) {
                Some((n, _)) => dec_pairs(b@.skip(off + 4), n as nat) is None,
                None => true,
            }),
        },
{
    let ghost whole = b@;
    let blen = b.len();
    if blen - off < 4 {
        proof {
            assert(whole.skip(off as int).len() < 4);
        }
        return None;
    }
    let count = read_u32_at(b, off);
    proof {
        assert(whole.skip(off as int).take(4) =~= whole.subrange(off as int, off + 4));
        assert(whole.skip(off as int).skip(4) =~= whole.skip(off + 4));
    }
    let mut off = off + 4;
    let ghost off_start = off;
    let mut out: Vec<(Vec<u8>, u64)> = Vec::new();
    let mut k: u32 = 0;
    proof {
        assert(pair_views(out@) =~= Seq::<(Seq<u8>, u64)>::empty());
        match dec_pairs(whole.skip(off_start as int), count as nat) {
            Some((ps, r)) => {
                assert(pair_views(out@) + ps =~= ps);
            },
            None => {},
        }
    }
    while k < count
        invariant
            0 <= k <= count,
            off_start <= off <= whole.len(),
            dec_pairs(whole.skip(off_start as int), count as nat) == (match dec_pairs(
                whole.skip(off as int),
                (count - k) as nat,
            ) {
                Some((ps, r)) => Some((pair_views(out@) + ps, r)),
                None => None::<(Seq<(Seq<u8>, u64)>, Seq<u8>)>,
            }),
        decreases count - k,
    {
        let (path, noff) = match read_field(b, off) {
            Some(p) => p,
            None => {
                return None;
            },
        };
        if blen - noff < 8 {
            proof {
                assert(whole.skip(noff as int).len() < 8);
            }
            return None;
        }
        let value = crate::codec::read_u64_at(b, noff);
        proof {
            assert(whole.skip(noff as int).take(8) =~= whole.subrange(noff as int, noff + 8));
            assert(whole.skip(noff as int).skip(8) =~= whole.skip(noff + 8));
        }
        let ghost pre = out@;
        out.push((path, value));
        proof {
            let m = (out@.last().0@, out@.last().1);
            assert(pair_views(out@) =~= pair_views(pre).push(m));
            let rest = whole.skip(noff + 8);
            match dec_pairs(rest, (count - k - 1) as nat) {
                Some((ps, r)) => {
                    assert(pair_views(pre) + (seq![m] + ps) =~= pair_views(out@) + ps);
                },
                None => {},
            }
        }
        off = noff + 8;
        k = k + 1;
    }
    proof {
        assert(dec_pairs(whole.skip(off as int), 0) == Some(
            (Seq::<(Seq<u8>, u64)>::empty(), whole.skip(off as int)),
        ));
        assert(pair_views(out@) + Seq::<(Seq<u8>, u64)>::empty() =~= pair_views(out@));
    }
    Some((out, off))
}

// ---------------------------------------------------------------------------
// Frames of the data file
// ---------------------------------------------------------------------------

/// The length prefix of the frame at `off`.
pub open spec fn frame_len(data: Seq<u8>, off: int) -> int {
    spec_u32_from_le_bytes(data.subrange(off, off + 4)) as int
}

/// The frame at `off` lies inside the data and its payload decodes.
pub open spec fn frame_ok(data: Seq<u8>, off: int) -> bool {
    &&& 0 <= off
    &&& off + 4 <= data.len()
    &&& off + 4 + frame_len(data, off) <= data.len()
    &&& spec_decode_entry(data.subrange(off + 4, off + 4 + frame_len(data, off))) is Some
}

/// The entry held by the frame at `off`.
pub open spec fn frame_entry(data: Seq<u8>, off: int) -> EntryModel {
    spec_decode_entry(data.subrange(off + 4, off + 4 + frame_len(data, off)))->0
}

/// An entry that fits one frame: every field fits its prefix and so does the
/// whole encoding.
pub open spec fn frame_encodable(e: EntryModel) -> bool {
    entry_encodable(e) && spec_encode_entry(e).len() <= MAX_FIELD
}

/// Appending a frame for `e` to the data file.
pub open spec fn spec_append_frame(data: Seq<u8>, e: EntryModel) -> Seq<u8> {
    data + enc_u32(spec_encode_entry(e).len() as u32) + spec_encode_entry(e)
}

pub open spec fn pair_has(ps: Seq<(Seq<u8>, u64)>, p: Seq<u8>) -> bool {
    exists|i: int| 0 <= i < ps.len() && ps[i].0 == p
}

pub open spec fn pair_idx(ps: Seq<(Seq<u8>, u64)>, p: Seq<u8>) -> int {
    choose|i: int| 0 <= i < ps.len() && ps[i].0 == p
}

pub open spec fn pairs_unique(ps: Seq<(Seq<u8>, u64)>) -> bool {
    forall|i: int, j: int| 0 <= i < j < ps.len() ==> ps[i].0 != ps[j].0
}

/// Recording an offset: the pair at the path is replaced, or the directory
/// grows by one.
pub open spec fn pair_insert(ps: Seq<(Seq<u8>, u64)>, p: Seq<u8>, off: u64) -> Seq<
    (Seq<u8>, u64),
> {
    if pair_has(ps, p) {
        ps.update(pair_idx(ps, p), (p, off))
    } else {
        ps.push((p, off))
    }
}

pub proof fn lemma_pair_idx_unique(ps: Seq<(Seq<u8>, u64)>, p: Seq<u8>, i: int)
    requires
        pairs_unique(ps),
        0 <= i < ps.len(),
        ps[i].0 == p,
    ensures
        pair_idx(ps, p) == i,
        pair_has(ps, p),
{
    assert(pair_has(ps, p));
    let k = pair_idx(ps, p);
    if k != i {
        if k < i {
            assert(ps[k].0 != ps[i].0);
        } else {
            assert(ps[i].0 != ps[k].0);
        }
    }
}

/// Every recorded offset carries a valid frame whose entry is at the
/// recorded path, and paths are recorded once.
pub open spec fn store_ok(data: Seq<u8>, ps: Seq<(Seq<u8>, u64)>) -> bool {
    &&& pairs_unique(ps)
    &&& forall|i: int|
        0 <= i < ps.len() ==> frame_ok(data, (#[trigger] ps[i]).1 as int) && frame_entry(
            data,
            ps[i].1 as int,
        ).path == ps[i].0
}

/// A valid frame stays valid when the data file grows.
pub proof fn lemma_frame_ok_extend(data: Seq<u8>, ext: Seq<u8>, off: int)
    requires
        frame_ok(data, off),
    ensures
        frame_ok(data + ext, off),
        frame_entry(data + ext, off) == frame_entry(data, off),
{
    assert((data + ext).subrange(off, off + 4) =~= data.subrange(off, off + 4));
    assert((data + ext).subrange(off + 4, off + 4 + frame_len(data, off)) =~= data.subrange(
        off + 4,
        off + 4 + frame_len(data, off),
    ));
}

/// The frame appended for an encodable entry is valid and holds it.
pub proof fn lemma_append_frame_ok(data: Seq<u8>, e: EntryModel)
    requires
        frame_encodable(e),
    ensures
        frame_ok(spec_append_frame(data, e), data.len() as int),
        frame_entry(spec_append_frame(data, e), data.len() as int) == e,
{
    let payload = spec_encode_entry(e);
    let d2 = spec_append_frame(data, e);
    let off = data.len() as int;
    vstd::bytes::lemma_auto_spec_u32_to_from_le_bytes();
    assert(d2.subrange(off, off + 4) =~= enc_u32(payload.len() as u32));
    assert(frame_len(d2, off) == payload.len());
    assert(d2.subrange(off + 4, off + 4 + payload.len()) =~= payload);
    crate::codec::lemma_entry_roundtrip(e);
}

// ---------------------------------------------------------------------------
// The store
// ---------------------------------------------------------------------------

/// The live store: the materialised index, the bytes of the data file, and
/// the write buffer. The caller reads and writes the two files; the store
/// hands it the bytes.
pub struct MmapCache {
    pub index: CacheIndex,
    pub data: Vec<u8>,
    pub pending_writes: Vec<DirEntry>,
    pub flush_threshold: usize,
}

/// The pairs kept when opening: a pair survives when its frame validates,
/// holds an entry at the recorded path, and no earlier pair with the same
/// path survived.
pub open spec fn spec_clean(ps: Seq<(Seq<u8>, u64)>, data: Seq<u8>) -> Seq<(Seq<u8>, u64)>
    decreases ps.len(),
{
    if ps.len() == 0 {
        Seq::empty()
    } else {
        let front = spec_clean(ps.drop_last(), data);
        if frame_ok(data, ps.last().1 as int) && frame_entry(data, ps.last().1 as int).path
            == ps.last().0 && !pair_has(front, ps.last().0) {
            front.push(ps.last())
        } else {
            front
        }
    }
}

/// What survives the cleaning is a valid, uniquely-keyed directory.
pub proof fn lemma_clean_ok(ps: Seq<(Seq<u8>, u64)>, data: Seq<u8>)
    ensures
        store_ok(data, spec_clean(ps, data)),
    decreases ps.len(),
{
    if ps.len() > 0 {
        lemma_clean_ok(ps.drop_last(), data);
        let front = spec_clean(ps.drop_last(), data);
        let c = spec_clean(ps, data);
        if frame_ok(data, ps.last().1 as int) && frame_entry(data, ps.last().1 as int).path
            == ps.last().0 && !pair_has(front, ps.last().0) {
            assert forall|i: int, j: int| 0 <= i < j < c.len() implies c[i].0 != c[j].0 by {
                if j == c.len() - 1 {
                    assert(c[i] == front[i]);
                    assert(!pair_has(front, ps.last().0));
                }
            }
        }
    }
}

/// When every pair is already valid and uniquely keyed, cleaning keeps all.
pub proof fn lemma_clean_identity(ps: Seq<(Seq<u8>, u64)>, data: Seq<u8>)
    requires
        store_ok(data, ps),
    ensures
        spec_clean(ps, data) == ps,
    decreases ps.len(),
{
    if ps.len() > 0 {
        let t = ps.drop_last();
        assert(store_ok(data, t)) by {
            assert(forall|i: int| 0 <= i < t.len() ==> t[i] == ps[i]);
        }
        lemma_clean_identity(t, data);
        assert(frame_ok(data, ps.last().1 as int));
        assert(!pair_has(t, ps.last().0)) by {
            if pair_has(t, ps.last().0) {
                let i = choose|i: int| 0 <= i < t.len() && t[i].0 == ps.last().0;
                assert(ps[i].0 != ps[ps.len() - 1].0);
            }
        }
        assert(spec_clean(ps, data) =~= ps);
    }
}

impl MmapCache {
    /// The index directory matches the data file, and the buffer threshold
    /// is positive.
    pub open spec fn wf(self) -> bool {
        &&& store_ok(self.data@, self.index@.offsets)
        &&& self.flush_threshold >= 1
    }

    /// The entry recorded at `p`, through its frame.
    pub open spec fn spec_get(self, p: Seq<u8>) -> Option<EntryModel> {
        if pair_has(self.index@.offsets, p) {
            Some(frame_entry(self.data@, self.index@.offsets[pair_idx(self.index@.offsets, p)].1 as int))
        } else {
            None
        }
    }

    /// Open the store from the bytes of its two files, either of which may
    /// be absent. A wrong index header is a format mismatch; an index that
    /// does not parse, or one that records offsets with no data file, is
    /// corruption. Pairs whose frame does not validate (a torn tail) are
    /// dropped.
    #[verifier::loop_isolation(false)]
    pub fn open(index_bytes: Option<&[u8]>, data_bytes: Option<Vec<u8>>, now: i64) -> (r: Result<
        MmapCache,
        CacheError,
    >)
        ensures
            match r {
                Ok(store) => {
                    &&& store.wf()
                    &&& store.pending_writes@.len() == 0
                    &&& store.flush_threshold == crate::cache::DEFAULT_FLUSH_THRESHOLD
                    &&& (match index_bytes {
                        None => store.index@ == (IndexModel {
                            offsets: Seq::<(Seq<u8>, u64)>::empty(),
                            last_scan: now,
                            root: Seq::<u8>::empty(),
                            last_scanned_root: Seq::<u8>::empty(),
                            usn_state: USNJournalState {
                                last_usn: 0,
                                journal_id: 0,
                                last_read: 0,
                                drive_letter: 'C',
                                change_count: 0,
                            },
                            skip_stats: Seq::<(Seq<u8>, u64)>::empty(),
                        }) && store.data@ == (match data_bytes {
                            Some(d) => d@,
                            None => Seq::<u8>::empty(),
                        }),
                        Some(ib) => {
                            &&& spec_decode_index(ib@) is Some
                            &&& {
                                let ix = spec_decode_index(ib@)->0;
                                let d = (match data_bytes {
                                    Some(d) => d@,
                                    None => Seq::<u8>::empty(),
                                });
                                &&& store.data@ == d
                                &&& store.index@ == (IndexModel {
                                    offsets: spec_clean(ix.offsets, d),
                                    ..ix
                                })
                            }
                        },
                    })
                },
                Err(e) => (match index_bytes {
                    None => false,
                    Some(ib) => spec_decode_index(ib@) is None || (data_bytes is None
                        && (spec_decode_index(ib@)->0).offsets.len() > 0),
                }),
            },
    {
        let have_data = match &data_bytes {
            Some(_) => true,
            None => false,
        };
        let data: Vec<u8> = match data_bytes {
            Some(d) => d,
            None => Vec::new(),
        };
        let ix = match index_bytes {
            None => {
                let ix = CacheIndex::new(now);
                proof {
                    assert(pair_views(ix.offsets@) =~= Seq::<(Seq<u8>, u64)>::empty());
                }
                return Ok(
                    MmapCache {
                        index: ix,
                        data,
                        pending_writes: Vec::new(),
                        flush_threshold: crate::cache::DEFAULT_FLUSH_THRESHOLD,
                    },
                );
            },
            Some(ib) => {
                match decode_index(ib) {
                    Ok(ix) => ix,
                    Err(e) => {
                        return Err(e);
                    },
                }
            },
        };
        if !have_data && ix.offsets.len() > 0 {
            return Err(CacheError::Corrupt);
        }
        let mut ix = ix;
        let mut kept: Vec<(Vec<u8>, u64)> = Vec::new();
        let ghost orig = ix@.offsets;
        let ghost ix0 = ix;
        let ghost mut consumed: int = 0;
        while ix.offsets.len() > 0
            invariant
                0 <= consumed <= orig.len(),
                pair_views(ix.offsets@) == orig.skip(consumed),
                pair_views(kept@) == spec_clean(orig.take(consumed), data@),
                ix.last_scan == ix0.last_scan,
                ix.root == ix0.root,
                ix.last_scanned_root == ix0.last_scanned_root,
                ix.usn_state == ix0.usn_state,
                ix.skip_stats == ix0.skip_stats,
            decreases ix.offsets@.len(),
        {
            proof {
                assert(orig.skip(consumed).len() > 0);
                assert(pair_views(ix.offsets@).len() == ix.offsets@.len());
            }
            let ghost pre = ix.offsets@;
            let (path, off) = ix.offsets.remove(0);
            proof {
                assert forall|j: int| 0 <= j < ix.offsets@.len() implies pair_views(
                    ix.offsets@,
                )[j] == orig.skip(consumed + 1)[j] by {
                    assert(ix.offsets@[j] == pre[j + 1]);
                    assert(pair_views(pre)[j + 1] == orig.skip(consumed)[j + 1]);
                }
                assert(pair_views(ix.offsets@) =~= orig.skip(consumed + 1));
                assert((path@, off) == pair_views(pre)[0]);
                assert(pair_views(pre)[0] == orig.skip(consumed)[0]);
                assert((path@, off) == orig[consumed]);
                assert(orig.take(consumed + 1).drop_last() =~= orig.take(consumed));
                assert(orig.take(consumed + 1).last() == orig[consumed]);
            }
            let valid = frame_check(data.as_slice(), off, path.as_slice());
            let dup = pairs_contain(&kept, path.as_slice());
            if valid && !dup {
                let ghost pre = kept@;
                kept.push((path, off));
                proof {
                    assert(pair_views(kept@) =~= pair_views(pre).push((path@, off)));
                }
            }
            proof {
                consumed = consumed + 1;
            }
        }
        proof {
            assert(orig.take(orig.len() as int) =~= orig);
            assert(pair_views(ix.offsets@).len() == 0);
        }
        ix.offsets = kept;
        proof {
            lemma_clean_ok(orig, data@);
        }
        Ok(
            MmapCache {
                index: ix,
                data,
                pending_writes: Vec::new(),
                flush_threshold: crate::cache::DEFAULT_FLUSH_THRESHOLD,
            },
        )
    }

    /// Look one entry up through its recorded offset: read the length at
    /// the offset, check the bounds, decode the payload.
    #[verifier::loop_isolation(false)]
    pub fn get(&self, path: &[u8]) -> (r: Option<DirEntry>)
        requires
            self.wf(),
        ensures
            match r {
                Some(e) => self.spec_get(path@) == Some(e@) && e@.path == path@,
                None => self.spec_get(path@) is None,
            },
    {
        let mut i: usize = 0;
        while i < self.index.offsets.len()
            invariant
                0 <= i <= self.index.offsets@.len(),
                forall|j: int| 0 <= j < i ==> pair_views(self.index.offsets@)[j].0 != path@,
            decreases self.index.offsets@.len() - i,
        {
            if crate::bytestr::bytes_eq(self.index.offsets[i].0.as_slice(), path) {
                proof {
                    lemma_pair_idx_unique(self.index@.offsets, path@, i as int);
                }
                let off = self.index.offsets[i].1;
                let dlen = self.data.len();
                proof {
                    assert(self.index@.offsets[i as int].1 == off);
                    assert(frame_ok(self.data@, off as int));
                    assert(off + 4 <= dlen);
                }
                let offu = off as usize;
                let len = read_u32_at(self.data.as_slice(), offu) as usize;
                proof {
                    assert(offu + 4 + len <= dlen);
                }
                let payload = crate::bytestr::copy_range(
                    self.data.as_slice(),
                    offu + 4,
                    offu + 4 + len,
                );
                match decode_entry(payload.as_slice()) {
                    Some(e) => {
                        return Some(e);
                    },
                    None => {
                        proof {
                            assert(false);
                        }
                        return None;
                    },
                }
            }
            i = i + 1;
        }
        None
    }

    /// Materialise every recorded entry, in directory order.
    #[verifier::loop_isolation(false)]
    pub fn get_all(&self) -> (r: Vec<DirEntry>)
        requires
            self.wf(),
        ensures
            r@.len() == self.index@.offsets.len(),
            forall|i: int|
                0 <= i < r@.len() ==> (#[trigger] r@[i])@ == frame_entry(
                    self.data@,
                    self.index@.offsets[i].1 as int,
                ) && r@[i]@.path == self.index@.offsets[i].0,
    {
        let mut out: Vec<DirEntry> = Vec::new();
        let mut i: usize = 0;
        while i < self.index.offsets.len()
            invariant
                0 <= i <= self.index.offsets@.len(),
                out@.len() == i,
                forall|j: int|
                    0 <= j < i ==> (#[trigger] out@[j])@ == frame_entry(
                        self.data@,
                        self.index@.offsets[j].1 as int,
                    ) && out@[j]@.path == self.index@.offsets[j].0,
            decreases self.index.offsets@.len() - i,
        {
            let off = self.index.offsets[i].1;
            let dlen = self.data.len();
            proof {
                assert(self.index@.offsets[i as int].1 == off);
                assert(frame_ok(self.data@, off as int));
                assert(off + 4 <= dlen);
            }
            let offu = off as usize;
            let len = read_u32_at(self.data.as_slice(), offu) as usize;
            proof {
                assert(offu + 4 + len <= dlen);
            }
            let payload = crate::bytestr::copy_range(
                self.data.as_slice(),
                offu + 4,
                offu + 4 + len,
            );
            match decode_entry(payload.as_slice()) {
                Some(e) => {
                    out.push(e);
                },
                None => {
                    proof {
                        assert(false);
                    }
                },
            }
            i = i + 1;
        }
        out
    }

    /// Stage one entry for the next flush; the buffer drains when it
    /// reaches the threshold.
    pub fn add_entry(&mut self, entry: DirEntry)
        requires
            old(self).wf(),
        ensures
            final(self).wf(),
            final(self).index@.last_scan == old(self).index@.last_scan,
            final(self).index@.root == old(self).index@.root,
            final(self).index@.last_scanned_root == old(self).index@.last_scanned_root,
            final(self).index@.usn_state == old(self).index@.usn_state,
            final(self).index@.skip_stats == old(self).index@.skip_stats,
            final(self).flush_threshold == old(self).flush_threshold,
            ({
                let staged = old(self).pending_writes@.push(entry);
                if staged.len() >= old(self).flush_threshold && all_frames_encodable(staged) {
                    final(self).pending_writes@.len() == 0 && (
                    final(self).data@,
                    final(self).index@.offsets,
                    ) == spec_flush(old(self).data@, old(self).index@.offsets, staged)
                } else {
                    final(self).data@ == old(self).data@ && final(self).index@.offsets == old(
                        self,
                    ).index@.offsets && final(self).pending_writes@ == staged
                }
            }),
    {
        self.pending_writes.push(entry);
        if self.pending_writes.len() >= self.flush_threshold {
            let _ = self.flush_pending_writes();
        }
    }

    /// Drain the buffer into the files: each entry is framed and appended
    /// to the data bytes, and its offset recorded. When any staged entry
    /// cannot be framed nothing changes and the store reports it.
    #[verifier::loop_isolation(false)]
    #[verifier::rlimit(100)]
    pub fn flush_pending_writes(&mut self) -> (r: Result<(), CacheError>)
        requires
            old(self).wf(),
        ensures
            final(self).wf(),
            final(self).index@.last_scan == old(self).index@.last_scan,
            final(self).index@.root == old(self).index@.root,
            final(self).index@.last_scanned_root == old(self).index@.last_scanned_root,
            final(self).index@.usn_state == old(self).index@.usn_state,
            final(self).index@.skip_stats == old(self).index@.skip_stats,
            final(self).flush_threshold == old(self).flush_threshold,
            match r {
                Ok(_) => all_frames_encodable(old(self).pending_writes@) && final(self).pending_writes@.len() == 0 && (final(self).data@, final(self).index@.offsets)
                    == spec_flush(
                    old(self).data@,
                    old(self).index@.offsets,
                    old(self).pending_writes@,
                ),
                Err(_) => !all_frames_encodable(old(self).pending_writes@) && *final(self) == *old(
                    self,
                ),
            },
    {
        let mut payloads: Vec<Vec<u8>> = Vec::new();
        let mut i: usize = 0;
        while i < self.pending_writes.len()
            invariant
                0 <= i <= self.pending_writes@.len(),
                self == old(self),
                payloads@.len() == i,
                forall|j: int| 0 <= j < i ==> #[trigger] frame_encodable(
                    self.pending_writes@[j]@,
                ),
                forall|j: int|
                    0 <= j < i ==> (#[trigger] payloads@[j])@ == spec_encode_entry(
                        self.pending_writes@[j]@,
                    ),
            decreases self.pending_writes@.len() - i,
        {
            match crate::codec::encode_entry(&self.pending_writes[i]) {
                Some(payload) => {
                    if payload.len() > MAX_FIELD as usize {
                        return Err(CacheError::Io("cache entry exceeds the frame limit".to_owned()));
                    }
                    proof {
                        assert(payload@ == spec_encode_entry(self.pending_writes@[i as int]@));
                        assert(frame_encodable(self.pending_writes@[i as int]@));
                    }
                    payloads.push(payload);
                    proof {
                        assert(payloads@.len() == i + 1);
                        assert(payloads@[i as int]@ == spec_encode_entry(
                            self.pending_writes@[i as int]@,
                        ));
                    }
                },
                None => {
                    return Err(CacheError::Io("cache entry exceeds the frame limit".to_owned()));
                },
            }
            i = i + 1;
        }
        let mut i: usize = 0;
        proof {
            assert(self.pending_writes@.skip(0) =~= self.pending_writes@);
        }
        while i < self.pending_writes.len()
            invariant
                0 <= i <= self.pending_writes@.len(),
                payloads@.len() == self.pending_writes@.len(),
                self.pending_writes == old(self).pending_writes,
                self.flush_threshold == old(self).flush_threshold,
                self.index@.last_scan == old(self).index@.last_scan,
                self.index@.root == old(self).index@.root,
                self.index@.last_scanned_root == old(self).index@.last_scanned_root,
                self.index@.usn_state == old(self).index@.usn_state,
                self.index@.skip_stats == old(self).index@.skip_stats,
                forall|j: int|
                    0 <= j < payloads@.len() ==> #[trigger] frame_encodable(
                        self.pending_writes@[j]@,
                    ),
                forall|j: int|
                    0 <= j < payloads@.len() ==> (#[trigger] payloads@[j])@ == spec_encode_entry(
                        self.pending_writes@[j]@,
                    ),
                store_ok(self.data@, self.index@.offsets),
                spec_flush(old(self).data@, old(self).index@.offsets, old(self).pending_writes@)
                    == spec_flush(
                    self.data@,
                    self.index@.offsets,
                    self.pending_writes@.skip(i as int),
                ),
            decreases self.pending_writes@.len() - i,
        {
            let off = self.data.len() as u64;
            let ghost data0 = self.data@;
            let ghost ps0 = self.index@.offsets;
            let ghost e = self.pending_writes@[i as int]@;
            push_u32(&mut self.data, payloads[i].len() as u32);
            crate::bytestr::append_bytes(&mut self.data, payloads[i].as_slice());
            proof {
                assert(self.data@ =~= spec_append_frame(data0, e));
                lemma_append_frame_ok(data0, e);
                assert(frame_ok(self.data@, off as int));
                assert(frame_entry(self.data@, off as int) == e);
            }
            let path = crate::bytestr::clone_bytes(&self.pending_writes[i].path);
            record_offset(&mut self.index.offsets, path, off);
            proof {
                assert(self.pending_writes@.skip(i as int)[0] == self.pending_writes@[i as int]);
                assert(self.pending_writes@.skip(i as int).skip(1) =~= self.pending_writes@.skip(
                    i + 1,
                ));
                assert(self.data@ == spec_append_frame(data0, self.pending_writes@[i as int]@));
                assert(off == data0.len() as u64);
                assert(self.index@.offsets == pair_insert(
                    ps0,
                    self.pending_writes@[i as int]@.path,
                    data0.len() as u64,
                ));
                assert forall|k: int|
                    0 <= k < self.index@.offsets.len() implies frame_ok(
                    self.data@,
                    (#[trigger] self.index@.offsets[k]).1 as int,
                ) && frame_entry(self.data@, self.index@.offsets[k].1 as int).path
                    == self.index@.offsets[k].0 by {
                    if pair_has(ps0, e.path) && k == pair_idx(ps0, e.path) {
                    } else if !pair_has(ps0, e.path) && k == self.index@.offsets.len() - 1 {
                    } else {
                        assert(self.index@.offsets[k] == ps0[k]);
                        lemma_frame_ok_extend(
                            data0,
                            enc_u32(spec_encode_entry(e).len() as u32) + spec_encode_entry(e),
                            ps0[k].1 as int,
                        );
                        assert(data0 + (enc_u32(spec_encode_entry(e).len() as u32)
                            + spec_encode_entry(e)) =~= self.data@);
                    }
                }
                assert(pairs_unique(self.index@.offsets)) by {
                    if pair_has(ps0, e.path) {
                        assert forall|a: int, b: int|
                            0 <= a < b < self.index@.offsets.len() implies self.index@.offsets[a].0
                            != self.index@.offsets[b].0 by {
                            assert(ps0[a].0 != ps0[b].0);
                        }
                    } else {
                        assert forall|a: int, b: int|
                            0 <= a < b < self.index@.offsets.len() implies self.index@.offsets[a].0
                            != self.index@.offsets[b].0 by {
                            if b < self.index@.offsets.len() - 1 {
                                assert(ps0[a].0 != ps0[b].0);
                            } else {
                                assert(self.index@.offsets[a] == ps0[a]);
                                assert(!pair_has(ps0, e.path));
                            }
                        }
                    }
                }
            }
            i = i + 1;
        }
        proof {
            assert(self.pending_writes@.skip(self.pending_writes@.len() as int)
                =~= Seq::<DirEntry>::empty());
        }
        self.pending_writes.clear();
        Ok(())
    }

    /// The bytes of the index file for the current directory; `None` when a
    /// field exceeds its length prefix.
    pub fn save_index(&self) -> (r: Option<Vec<u8>>)
        ensures
            match r {
                Some(v) => index_encodable(self.index@) && v@ == spec_encode_index(self.index@),
                None => !index_encodable(self.index@),
            },
    {
        encode_index(&self.index)
    }

    /// How many entries the directory records.
    pub fn len(&self) -> (r: usize)
        ensures
            r == self.index@.offsets.len(),
    {
        self.index.offsets.len()
    }

    /// Whether the directory records nothing.
    pub fn is_empty(&self) -> (r: bool)
        ensures
            r == (self.index@.offsets.len() == 0),
    {
        self.index.offsets.len() == 0
    }
}

/// Every staged entry fits one frame.
pub open spec fn all_frames_encodable(pending: Seq<DirEntry>) -> bool {
    forall|i: int| 0 <= i < pending.len() ==> frame_encodable((#[trigger] pending[i])@)
}

/// The store after appending every staged entry, oldest first: each entry
/// is framed at the end of the data and its offset recorded.
pub open spec fn spec_flush(
    data: Seq<u8>,
    ps: Seq<(Seq<u8>, u64)>,
    pending: Seq<DirEntry>,
) -> (Seq<u8>, Seq<(Seq<u8>, u64)>)
    decreases pending.len(),
{
    if pending.len() == 0 {
        (data, ps)
    } else {
        spec_flush(
            spec_append_frame(data, pending[0]@),
            pair_insert(ps, pending[0]@.path, data.len() as u64),
            pending.skip(1),
        )
    }
}

/// Whether the directory already records `path`.
#[verifier::loop_isolation(false)]
fn pairs_contain(ps: &Vec<(Vec<u8>, u64)>, path: &[u8]) -> (r: bool)
    ensures
        r == pair_has(pair_views(ps@), path@),
{
    let mut i: usize = 0;
    while i < ps.len()
        invariant
            0 <= i <= ps@.len(),
            forall|j: int| 0 <= j < i ==> pair_views(ps@)[j].0 != path@,
        decreases ps@.len() - i,
    {
        if crate::bytestr::bytes_eq(ps[i].0.as_slice(), path) {
            proof {
                assert(pair_views(ps@)[i as int].0 == path@);
            }
            return true;
        }
        i = i + 1;
    }
    false
}

/// Check that the frame recorded at `off` validates and holds an entry at
/// `path`.
fn frame_check(data: &[u8], off: u64, path: &[u8]) -> (r: bool)
    ensures
        r == (frame_ok(data@, off as int) && frame_entry(data@, off as int).path == path@),
{
    let dlen = data.len();
    if off > dlen as u64 || dlen as u64 - off < 4 {
        return false;
    }
    let offu = off as usize;
    let len = read_u32_at(data, offu) as usize;
    if dlen - offu - 4 < len {
        return false;
    }
    let payload = crate::bytestr::copy_range(data, offu + 4, offu + 4 + len);
    match decode_entry(payload.as_slice()) {
        Some(e) => crate::bytestr::bytes_eq(e.path.as_slice(), path),
        None => false,
    }
}

/// Record `(path, off)` in the directory, replacing the pair at the path.
#[verifier::loop_isolation(false)]
fn record_offset(ps: &mut Vec<(Vec<u8>, u64)>, path: Vec<u8>, off: u64)
    requires
        pairs_unique(pair_views(old(ps)@)),
    ensures
        pair_views(final(ps)@) == pair_insert(pair_views(old(ps)@), path@, off),
{
    let mut i: usize = 0;
    while i < ps.len()
        invariant
            0 <= i <= ps@.len(),
            ps == old(ps),
            forall|j: int| 0 <= j < i ==> pair_views(ps@)[j].0 != path@,
        decreases ps@.len() - i,
    {
        if crate::bytestr::bytes_eq(ps[i].0.as_slice(), path.as_slice()) {
            let ghost pv = pair_views(ps@);
            proof {
                assert(pv[i as int].0 == path@);
                lemma_pair_idx_unique(pv, path@, i as int);
            }
            ps.remove(i);
            ps.insert(i, (path, off));
            proof {
                assert(pair_views(ps@) =~= pair_insert(pv, path@, off));
            }
            return ;
        }
        i = i + 1;
    }
    ps.push((path, off));
    proof {
        assert(!pair_has(pair_views(old(ps)@), path@));
        assert(pair_views(ps@) =~= pair_views(old(ps)@).push((path@, off)));
    }
}

// ---------------------------------------------------------------------------
// Laws of the store
// ---------------------------------------------------------------------------

/// Every path the directory records is retrievable, and retrieves an entry
/// carrying that very path.
pub proof fn lemma_index_complete(store: MmapCache, p: Seq<u8>)
    requires
        store.wf(),
        pair_has(store.index@.offsets, p),
    ensures
        store.spec_get(p) is Some,
        store.spec_get(p)->0.path == p,
{
    let ps = store.index@.offsets;
    let i = pair_idx(ps, p);
}

/// Saving the index and reopening the store over the same data file loses
/// nothing: the saved bytes decode back to the index, and every recorded
/// pair survives the reopening cleanly.
pub proof fn lemma_save_reopen(ix: IndexModel, data: Seq<u8>)
    requires
        index_encodable(ix),
        store_ok(data, ix.offsets),
    ensures
        spec_decode_index(spec_encode_index(ix)) == Some(ix),
        spec_clean(ix.offsets, data) == ix.offsets,
{
    lemma_index_roundtrip(ix);
    lemma_clean_identity(ix.offsets, data);
}

/// A fresh store that buffers one encodable entry and flushes holds exactly
/// one frame, at offset zero, retrieving that entry; saving the index and
/// reopening over the data keeps it retrievable.
pub proof fn lemma_single_entry_roundtrip(e: DirEntry, ix: IndexModel)
    requires
        frame_encodable(e@),
        index_encodable(ix),
        ix.offsets == spec_flush(Seq::<u8>::empty(), Seq::<(Seq<u8>, u64)>::empty(), seq![e]).1,
    ensures
        ({
            let (data, ps) = spec_flush(
                Seq::<u8>::empty(),
                Seq::<(Seq<u8>, u64)>::empty(),
                seq![e],
            );
            &&& ps == seq![(e@.path, 0u64)]
            &&& frame_ok(data, 0)
            &&& frame_entry(data, 0) == e@
            &&& spec_decode_index(spec_encode_index(ix)) == Some(ix)
            &&& spec_clean(ix.offsets, data) == ix.offsets
        }),
{
    let (data, ps) = spec_flush(Seq::<u8>::empty(), Seq::<(Seq<u8>, u64)>::empty(), seq![e]);
    let tail = seq![e].skip(1);
    assert(tail.len() == 0);
    let d1 = spec_append_frame(Seq::<u8>::empty(), e@);
    let p1 = pair_insert(Seq::<(Seq<u8>, u64)>::empty(), e@.path, 0u64);
    assert(spec_flush(Seq::<u8>::empty(), Seq::<(Seq<u8>, u64)>::empty(), seq![e]) == spec_flush(
        d1,
        p1,
        tail,
    ));
    assert(spec_flush(d1, p1, tail) == (d1, p1));
    assert(data == d1);
    assert(ps =~= seq![(e@.path, 0u64)]);
    lemma_append_frame_ok(Seq::<u8>::empty(), e@);
    lemma_index_roundtrip(ix);
    assert(store_ok(data, ix.offsets)) by {
        assert(ix.offsets[0] == (e@.path, 0u64));
    }
    lemma_clean_identity(ix.offsets, data);
}

// ---------------------------------------------------------------------------
// The fully-materialised cache over the two files
// ---------------------------------------------------------------------------

/// The stat pairs kept when materialising: first occurrence of each name.
pub open spec fn spec_dedup(ps: Seq<(Vec<u8>, u64)>) -> Seq<(Vec<u8>, u64)>
    decreases ps.len(),
{
    if ps.len() == 0 {
        Seq::empty()
    } else {
        let front = spec_dedup(ps.drop_last());
        if !pair_has(pair_views(front), ps.last().0@) {
            front.push(ps.last())
        } else {
            front
        }
    }
}

proof fn lemma_dedup_unique(ps: Seq<(Vec<u8>, u64)>)
    ensures
        crate::cache::stats_unique(spec_dedup(ps)),
    decreases ps.len(),
{
    if ps.len() > 0 {
        lemma_dedup_unique(ps.drop_last());
        let front = spec_dedup(ps.drop_last());
        let c = spec_dedup(ps);
        if !pair_has(pair_views(front), ps.last().0@) {
            assert forall|i: int, j: int| 0 <= i < j < c.len() implies c[i].0@ != c[j].0@ by {
                if j == c.len() - 1 {
                    assert(c[i] == front[i]);
                    assert(pair_views(front)[i].0 == front[i].0@);
                }
            }
        }
    }
}

/// Keep the first pair of each name.
#[verifier::loop_isolation(false)]
fn dedup_pairs(ps: Vec<(Vec<u8>, u64)>) -> (r: Vec<(Vec<u8>, u64)>)
    ensures
        r@ == spec_dedup(ps@),
        crate::cache::stats_unique(r@),
{
    let mut ps = ps;
    let ghost orig = ps@;
    let mut kept: Vec<(Vec<u8>, u64)> = Vec::new();
    let ghost mut consumed: int = 0;
    while ps.len() > 0
        invariant
            0 <= consumed <= orig.len(),
            ps@ == orig.skip(consumed),
            kept@ == spec_dedup(orig.take(consumed)),
        decreases ps@.len(),
    {
        proof {
            assert(orig.skip(consumed).len() > 0);
        }
        let p = ps.remove(0);
        proof {
            assert(ps@ =~= orig.skip(consumed + 1));
            assert(p == orig[consumed]);
            assert(orig.take(consumed + 1).drop_last() =~= orig.take(consumed));
            assert(orig.take(consumed + 1).last() == orig[consumed]);
        }
        let dup = pairs_contain(&kept, p.0.as_slice());
        if !dup {
            kept.push(p);
        }
        proof {
            consumed = consumed + 1;
        }
    }
    proof {
        assert(orig.take(orig.len() as int) =~= orig);
        lemma_dedup_unique(orig);
    }
    kept
}

/// The index that saving a cache writes: the flushed directory and the
/// cache's own metadata.
pub open spec fn saved_index_model(c: crate::cache::DiskCache) -> IndexModel {
    IndexModel {
        offsets: spec_flush(Seq::<u8>::empty(), Seq::<(Seq<u8>, u64)>::empty(), c.entries@).1,
        last_scan: c.last_scan,
        root: c.root@,
        last_scanned_root: c.last_scanned_root@,
        usn_state: c.usn_state,
        skip_stats: pair_views(c.skip_stats@),
    }
}

impl crate::cache::DiskCache {
    /// Open the cache fully materialised: open the store from the two
    /// files' bytes and load every entry.
    pub fn open(index_bytes: Option<&[u8]>, data_bytes: Option<Vec<u8>>, now: i64) -> (r: Result<
        crate::cache::DiskCache,
        CacheError,
    >)
        ensures
            match r {
                Ok(c) => {
                    &&& c.wf()
                    &&& c.pending_writes@.len() == 0
                    &&& c.flush_threshold == crate::cache::DEFAULT_FLUSH_THRESHOLD
                    &&& c.show_hidden == false
                    &&& (index_bytes is None ==> c.entries@.len() == 0 && c.last_scan == now
                        && c.root@.len() == 0 && c.last_scanned_root@.len() == 0 && c.usn_state
                        == (USNJournalState {
                        last_usn: 0,
                        journal_id: 0,
                        last_read: 0,
                        drive_letter: 'C',
                        change_count: 0,
                    }) && c.skip_stats@.len() == 0)
                    &&& (match index_bytes {
                        Some(ib) => {
                            let ix = spec_decode_index(ib@)->0;
                            let d = (match data_bytes {
                                Some(d) => d@,
                                None => Seq::<u8>::empty(),
                            });
                            let kept = spec_clean(ix.offsets, d);
                            &&& spec_decode_index(ib@) is Some
                            &&& c.last_scan == ix.last_scan
                            &&& c.root@ == ix.root
                            &&& c.last_scanned_root@ == ix.last_scanned_root
                            &&& c.usn_state == ix.usn_state
                            &&& c.entries@.len() == kept.len()
                            &&& forall|i: int|
                                0 <= i < kept.len() ==> (#[trigger] c.entries@[i])@
                                    == frame_entry(d, kept[i].1 as int) && c.entries@[i].path@
                                    == kept[i].0
                        },
                        None => true,
                    })
                },
                Err(_) => (match index_bytes {
                    None => false,
                    Some(ib) => spec_decode_index(ib@) is None || (data_bytes is None
                        && (spec_decode_index(ib@)->0).offsets.len() > 0),
                }),
            },
    {
        let store = match MmapCache::open(index_bytes, data_bytes, now) {
            Ok(s) => s,
            Err(e) => {
                return Err(e);
            },
        };
        let entries = store.get_all();
        proof {
            assert forall|i: int, j: int|
                0 <= i < j < entries@.len() implies entries@[i].path@ != entries@[j].path@ by {
                assert(store.index@.offsets[i].0 != store.index@.offsets[j].0);
            }
        }
        let MmapCache { index, data: _, pending_writes: _, flush_threshold } = store;
        let CacheIndex { offsets: _, last_scan, root, last_scanned_root, usn_state, skip_stats } =
            index;
        let skip_stats = dedup_pairs(skip_stats);
        Ok(
            crate::cache::DiskCache {
                entries,
                last_scan,
                root,
                last_scanned_root,
                usn_state,
                pending_writes: Vec::new(),
                flush_threshold,
                show_hidden: false,
                skip_stats,
            },
        )
    }

    /// Save the cache: stage every entry into a fresh store, flush it, and
    /// hand back the bytes of the index and data files. The caller writes
    /// the index to a sibling temporary file and renames it over the old
    /// one, so an interrupted save leaves the previous index intact.
    #[verifier::loop_isolation(false)]
    pub fn save(&mut self) -> (r: Result<(Vec<u8>, Vec<u8>), CacheError>)
        requires
            old(self).wf(),
        ensures
            final(self).wf(),
            final(self).entries@ == crate::cache::flush_seq(
                old(self).entries@,
                old(self).pending_writes@,
            ),
            final(self).pending_writes@.len() == 0,
            match r {
                Ok((ib, db)) => {
                    let st = spec_flush(
                        Seq::<u8>::empty(),
                        Seq::<(Seq<u8>, u64)>::empty(),
                        final(self).entries@,
                    );
                    &&& db@ == st.0
                    &&& spec_decode_index(ib@) == Some(saved_index_model(*final(self)))
                },
                Err(_) => !(all_frames_encodable(final(self).entries@) && index_encodable(
                    saved_index_model(*final(self)),
                )),
            },
    {
        self.flush_pending_writes();
        let mut copies: Vec<DirEntry> = Vec::new();
        let mut i: usize = 0;
        while i < self.entries.len()
            invariant
                0 <= i <= self.entries@.len(),
                copies@.len() == i,
                forall|j: int| 0 <= j < i ==> (#[trigger] copies@[j])@ == self.entries@[j]@,
            decreases self.entries@.len() - i,
        {
            copies.push(self.entries[i].duplicate());
            i = i + 1;
        }
        let ghost gcopies = copies@;
        let mut store = MmapCache {
            index: CacheIndex {
                offsets: Vec::new(),
                last_scan: self.last_scan,
                root: crate::bytestr::clone_bytes(&self.root),
                last_scanned_root: crate::bytestr::clone_bytes(&self.last_scanned_root),
                usn_state: self.usn_state.duplicate(),
                skip_stats: copy_stats(&self.skip_stats),
            },
            data: Vec::new(),
            pending_writes: copies,
            flush_threshold: crate::cache::DEFAULT_FLUSH_THRESHOLD,
        };
        proof {
            assert(pair_views(store.index.offsets@) =~= Seq::<(Seq<u8>, u64)>::empty());
            assert(store.wf());
        }
        match store.flush_pending_writes() {
            Ok(_) => {},
            Err(e) => {
                proof {
                    assert(!all_frames_encodable(self.entries@)) by {
                        let j = choose|j: int|
                            0 <= j < gcopies.len() && !frame_encodable(gcopies[j]@);
                        assert(gcopies[j]@ == self.entries@[j]@);
                        assert(!frame_encodable(self.entries@[j]@));
                    }
                }
                return Err(e);
            },
        }
        proof {
            lemma_flush_models_eq(
                Seq::<u8>::empty(),
                Seq::<(Seq<u8>, u64)>::empty(),
                gcopies,
                self.entries@,
            );
            assert(store.index@ == saved_index_model(*self));
        }
        let ib = match store.save_index() {
            Some(v) => v,
            None => {
                return Err(CacheError::Io("cache index exceeds a frame limit".to_owned()));
            },
        };
        proof {
            lemma_index_roundtrip(store.index@);
        }
        Ok((ib, store.data))
    }
}

/// Staged buffers with equal entry models flush to the same store.
proof fn lemma_flush_models_eq(
    data: Seq<u8>,
    ps: Seq<(Seq<u8>, u64)>,
    a: Seq<DirEntry>,
    b: Seq<DirEntry>,
)
    requires
        a.len() == b.len(),
        forall|i: int| 0 <= i < a.len() ==> (#[trigger] a[i])@ == b[i]@,
    ensures
        spec_flush(data, ps, a) == spec_flush(data, ps, b),
    decreases a.len(),
{
    if a.len() > 0 {
        assert(a[0]@ == b[0]@);
        assert(forall|i: int| 0 <= i < a.skip(1).len() ==> (#[trigger] a.skip(1)[i])@ == b.skip(
            1,
        )[i]@) by {
            assert(forall|i: int| 0 <= i < a.skip(1).len() ==> a.skip(1)[i] == a[i + 1]);
            assert(forall|i: int| 0 <= i < b.skip(1).len() ==> b.skip(1)[i] == b[i + 1]);
        }
        lemma_flush_models_eq(
            spec_append_frame(data, a[0]@),
            pair_insert(ps, a[0]@.path, data.len() as u64),
            a.skip(1),
            b.skip(1),
        );
    }
}

/// Copy the statistics pairs.
#[verifier::loop_isolation(false)]
fn copy_stats(ps: &Vec<(Vec<u8>, u64)>) -> (r: Vec<(Vec<u8>, u64)>)
    ensures
        pair_views(r@) == pair_views(ps@),
{
    let mut r: Vec<(Vec<u8>, u64)> = Vec::new();
    let mut i: usize = 0;
    while i < ps.len()
        invariant
            0 <= i <= ps@.len(),
            pair_views(r@) == pair_views(ps@).take(i as int),
        decreases ps@.len() - i,
    {
        let ghost pre = r@;
        r.push((crate::bytestr::clone_bytes(&ps[i].0), ps[i].1));
        proof {
            assert(pair_views(r@) =~= pair_views(pre).push((ps@[i as int].0@, ps@[i as int].1)));
            assert(pair_views(ps@).take(i + 1 as int) =~= pair_views(ps@).take(i as int).push(
                pair_views(ps@)[i as int],
            ));
        }
        i = i + 1;
    }
    proof {
        assert(pair_views(ps@).take(ps@.len() as int) =~= pair_views(ps@));
    }
    r
}

} // verus!
