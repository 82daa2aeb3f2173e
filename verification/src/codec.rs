//! The stable binary encoding of cache records.
//!
//! Every field is written in a fixed order with explicit little-endian
//! integers and length-prefixed byte strings:
//!
//! ```text
//! entry  := u64 modified ; u64 size ; u8 flags ; str path ; str name ;
//!           [ str symlink_target, when flags bit 1 is set ] ;
//!           u32 child_count ; child_count * str
//! str    := u32 length ; length bytes
//! flags  := bit 0 = is_hidden, bit 1 = symlink_target present
//! ```
//!
//! Decoding consumes the buffer exactly and mirrors the encoder; the
//! round-trip law is proved below.

use vstd::prelude::*;
use vstd::bytes::*;
use crate::entry::{DirEntry, EntryModel};
use crate::bytestr::views_of;

verus! {

pub const MAX_FIELD: u32 = 0xffff_ffff;

// ---------------------------------------------------------------------------
// Specification: encoding
// ---------------------------------------------------------------------------

pub open spec fn enc_u32(x: u32) -> Seq<u8> {
    spec_u32_to_le_bytes(x)
}

pub open spec fn enc_u64(x: u64) -> Seq<u8> {
    spec_u64_to_le_bytes(x)
}

pub open spec fn enc_i64(x: i64) -> Seq<u8> {
    spec_u64_to_le_bytes(x as u64)
}

pub open spec fn enc_bytes(b: Seq<u8>) -> Seq<u8> {
    enc_u32(b.len() as u32) + b
}

pub open spec fn enc_names_from(names: Seq<Seq<u8>>, i: int) -> Seq<u8>
    decreases names.len() - i,
{
    if 0 <= i < names.len() {
        enc_bytes(names[i]) + enc_names_from(names, i + 1)
    } else {
        Seq::empty()
    }
}

pub open spec fn enc_names(names: Seq<Seq<u8>>) -> Seq<u8> {
    enc_names_from(names, 0)
}

pub open spec fn entry_flags(e: EntryModel) -> u8 {
    if e.is_hidden {
        if e.symlink_target is Some {
            3u8
        } else {
            1u8
        }
    } else {
        if e.symlink_target is Some {
            2u8
        } else {
            0u8
        }
    }
}

/// Every length-prefixed field fits its `u32` prefix.
pub open spec fn entry_encodable(e: EntryModel) -> bool {
    &&& e.path.len() <= MAX_FIELD
    &&& e.name.len() <= MAX_FIELD
    &&& (e.symlink_target is Some ==> e.symlink_target->0.len() <= MAX_FIELD)
    &&& e.children.len() <= MAX_FIELD
    &&& (forall|i: int| 0 <= i < e.children.len() ==> #[trigger] e.children[i].len() <= MAX_FIELD)
}

pub open spec fn spec_encode_entry(e: EntryModel) -> Seq<u8> {
    enc_i64(e.modified) + enc_u64(e.size) + seq![entry_flags(e)] + enc_bytes(e.path) + enc_bytes(
        e.name,
    ) + (match e.symlink_target {
        Some(t) => enc_bytes(t),
        None => Seq::empty(),
    }) + enc_u32(e.children.len() as u32) + enc_names(e.children)
}

// ---------------------------------------------------------------------------
// Specification: decoding (each decoder consumes a prefix, returning the rest)
// ---------------------------------------------------------------------------

pub open spec fn dec_u32(b: Seq<u8>) -> Option<(u32, Seq<u8>)> {
    if b.len() >= 4 {
        Some((spec_u32_from_le_bytes(b.take(4)), b.skip(4)))
    } else {
        None
    }
}

pub open spec fn dec_u64(b: Seq<u8>) -> Option<(u64, Seq<u8>)> {
    if b.len() >= 8 {
        Some((spec_u64_from_le_bytes(b.take(8)), b.skip(8)))
    } else {
        None
    }
}

pub open spec fn dec_i64(b: Seq<u8>) -> Option<(i64, Seq<u8>)> {
    match dec_u64(b) {
        Some((x, r)) => Some((x as i64, r)),
        None => None,
    }
}

pub open spec fn dec_u8(b: Seq<u8>) -> Option<(u8, Seq<u8>)> {
    if b.len() >= 1 {
        Some((b[0], b.skip(1)))
    } else {
        None
    }
}

pub open spec fn dec_bytes(b: Seq<u8>) -> Option<(Seq<u8>, Seq<u8>)> {
    match dec_u32(b) {
        Some((n, r)) => if r.len() >= n {
            Some((r.take(n as int), r.skip(n as int)))
        } else {
            None
        },
        None => None,
    }
}

pub open spec fn dec_names(b: Seq<u8>, n: nat) -> Option<(Seq<Seq<u8>>, Seq<u8>)>
    decreases n,
{
    if n == 0 {
        Some((Seq::empty(), b))
    } else {
        match dec_bytes(b) {
            Some((s, r)) => match dec_names(r, (n - 1) as nat) {
                Some((ss, r2)) => Some((seq![s] + ss, r2)),
                None => None,
            },
            None => None,
        }
    }
}

pub open spec fn spec_decode_entry(b: Seq<u8>) -> Option<EntryModel> {
    match dec_i64(b) {
        Some((modified, b1)) => match dec_u64(b1) {
            Some((size, b2)) => match dec_u8(b2) {
                Some((flags, b3)) => if flags < 4 {
                    match dec_bytes(b3) {
                        Some((path, b4)) => match dec_bytes(b4) {
                            Some((name, b5)) => {
                                let (target, b6) = if flags >= 2 {
                                    match dec_bytes(b5) {
                                        Some((t, r)) => (Some(t), Some(r)),
                                        None => (None, None),
                                    }
                                } else {
                                    (None, Some(b5))
                                };
                                if flags >= 2 && target is None {
                                    None
                                } else {
                                    match b6 {
                                        Some(b6) => match dec_u32(b6) {
                                            Some((count, b7)) => match dec_names(
                                                b7,
                                                count as nat,
                                            ) {
                                                Some((children, b8)) => if b8.len() == 0 {
                                                    Some(
                                                        EntryModel {
                                                            path,
                                                            name,
                                                            modified,
                                                            size,
                                                            children,
                                                            symlink_target: target,
                                                            is_hidden: flags == 1 || flags == 3,
                                                        },
                                                    )
                                                } else {
                                                    None
                                                },
                                                None => None,
                                            },
                                            None => None,
                                        },
                                        None => None,
                                    }
                                }
                            },
                            None => None,
                        },
                        None => None,
                    }
                } else {
                    None
                },
                None => None,
            },
            None => None,
        },
        None => None,
    }
}

// ---------------------------------------------------------------------------
// Round-trip lemmas
// ---------------------------------------------------------------------------

pub proof fn lemma_dec_u32(x: u32, rest: Seq<u8>)
    ensures
        dec_u32(enc_u32(x) + rest) == Some((x, rest)),
{
    lemma_auto_spec_u32_to_from_le_bytes();
    assert((enc_u32(x) + rest).take(4) =~= enc_u32(x));
    assert((enc_u32(x) + rest).skip(4) =~= rest);
}

pub proof fn lemma_dec_u64(x: u64, rest: Seq<u8>)
    ensures
        dec_u64(enc_u64(x) + rest) == Some((x, rest)),
{
    lemma_auto_spec_u64_to_from_le_bytes();
    assert((enc_u64(x) + rest).take(8) =~= enc_u64(x));
    assert((enc_u64(x) + rest).skip(8) =~= rest);
}

pub proof fn lemma_dec_i64(x: i64, rest: Seq<u8>)
    ensures
        dec_i64(enc_i64(x) + rest) == Some((x, rest)),
{
    lemma_dec_u64(x as u64, rest);
    assert(x as u64 as i64 == x) by (bit_vector);
}

pub proof fn lemma_dec_u8(x: u8, rest: Seq<u8>)
    ensures
        dec_u8(seq![x] + rest) == Some((x, rest)),
{
    assert((seq![x] + rest)[0] == x);
    assert((seq![x] + rest).skip(1) =~= rest);
}

pub proof fn lemma_dec_bytes(s: Seq<u8>, rest: Seq<u8>)
    requires
        s.len() <= MAX_FIELD,
    ensures
        dec_bytes(enc_bytes(s) + rest) == Some((s, rest)),
{
    assert(enc_bytes(s) + rest =~= enc_u32(s.len() as u32) + (s + rest));
    lemma_dec_u32(s.len() as u32, s + rest);
    assert((s + rest).take(s.len() as int) =~= s);
    assert((s + rest).skip(s.len() as int) =~= rest);
}

pub proof fn lemma_dec_names(names: Seq<Seq<u8>>, rest: Seq<u8>)
    requires
        forall|i: int| 0 <= i < names.len() ==> #[trigger] names[i].len() <= MAX_FIELD,
    ensures
        dec_names(enc_names(names) + rest, names.len()) == Some((names, rest)),
    decreases names.len(),
{
    if names.len() == 0 {
        assert(enc_names(names) =~= Seq::<u8>::empty());
        assert(enc_names(names) + rest =~= rest);
        assert(dec_names(rest, 0) == Some((Seq::<Seq<u8>>::empty(), rest)));
        assert(names =~= Seq::<Seq<u8>>::empty());
    } else {
        let tail = names.skip(1);
        assert(enc_names_from(names, 0) == enc_bytes(names[0]) + enc_names_from(names, 1));
        lemma_enc_names_shift(names);
        assert(enc_names(names) + rest =~= enc_bytes(names[0]) + (enc_names(tail) + rest));
        lemma_dec_bytes(names[0], enc_names(tail) + rest);
        assert(forall|i: int|
            0 <= i < tail.len() ==> #[trigger] tail[i].len() <= MAX_FIELD) by {
            assert(forall|i: int| 0 <= i < tail.len() ==> tail[i] == names[i + 1]);
        }
        lemma_dec_names(tail, rest);
        assert(seq![names[0]] + tail =~= names);
    }
}

/// Encoding the elements from position 1 onward equals encoding the tail.
proof fn lemma_enc_names_shift(names: Seq<Seq<u8>>)
    requires
        names.len() > 0,
    ensures
        enc_names_from(names, 1) == enc_names(names.skip(1)),
{
    lemma_enc_names_from_shift(names, 1);
}

proof fn lemma_enc_names_from_shift(names: Seq<Seq<u8>>, k: int)
    requires
        0 < k <= names.len(),
    ensures
        enc_names_from(names, k) == enc_names_from(names.skip(1), k - 1),
    decreases names.len() - k,
{
    let tail = names.skip(1);
    if k == names.len() {
        assert(enc_names_from(names, k) =~= Seq::<u8>::empty());
    } else {
        lemma_enc_names_from_shift(names, k + 1);
        assert(tail[k - 1] == names[k]);
    }
}

/// Decoding inverts encoding: the round-trip law for one entry.
#[verifier::rlimit(100)]
pub proof fn lemma_entry_roundtrip(e: EntryModel)
    requires
        entry_encodable(e),
    ensures
        spec_decode_entry(spec_encode_entry(e)) == Some(e),
{
    let flags = entry_flags(e);
    let sym = match e.symlink_target {
        Some(t) => enc_bytes(t),
        None => Seq::<u8>::empty(),
    };
    let tail5 = enc_u32(e.children.len() as u32) + enc_names(e.children);
    let tail4 = sym + tail5;
    let tail3 = enc_bytes(e.name) + tail4;
    let tail2 = enc_bytes(e.path) + tail3;
    let tail1 = seq![flags] + tail2;
    let tail0 = enc_u64(e.size) + tail1;
    let b = enc_i64(e.modified) + tail0;
    assert(spec_encode_entry(e) =~= b);

    lemma_dec_i64(e.modified, tail0);
    lemma_dec_u64(e.size, tail1);
    lemma_dec_u8(flags, tail2);
    lemma_dec_bytes(e.path, tail3);
    lemma_dec_bytes(e.name, tail4);
    match e.symlink_target {
        Some(t) => {
            lemma_dec_bytes(t, tail5);
        },
        None => {
            assert(tail4 == tail5);
        },
    }
    lemma_dec_u32(e.children.len() as u32, enc_names(e.children));
    assert(enc_names(e.children) + Seq::<u8>::empty() =~= enc_names(e.children));
    lemma_dec_names(e.children, Seq::empty());
    assert(spec_decode_entry(b) == Some(e));
}

// ---------------------------------------------------------------------------
// Executable encoder
// ---------------------------------------------------------------------------

/// Append the little-endian bytes of `x`.
pub(crate) fn push_u32(out: &mut Vec<u8>, x: u32)
    ensures
        final(out)@ == old(out)@ + enc_u32(x),
{
    let bs = u32_to_le_bytes(x);
    let mut i: usize = 0;
    let ghost base = out@;
    while i < bs.len()
        invariant
            0 <= i <= bs@.len(),
            bs@ == enc_u32(x),
            out@ == base + bs@.subrange(0, i as int),
        decreases bs@.len() - i,
    {
        out.push(bs[i]);
        assert(out@ =~= base + bs@.subrange(0, i + 1 as int));
        i = i + 1;
    }
    assert(bs@.subrange(0, bs@.len() as int) =~= bs@);
}

/// Append the little-endian bytes of `x`.
pub(crate) fn push_u64(out: &mut Vec<u8>, x: u64)
    ensures
        final(out)@ == old(out)@ + enc_u64(x),
{
    let bs = u64_to_le_bytes(x);
    let mut i: usize = 0;
    let ghost base = out@;
    while i < bs.len()
        invariant
            0 <= i <= bs@.len(),
            bs@ == enc_u64(x),
            out@ == base + bs@.subrange(0, i as int),
        decreases bs@.len() - i,
    {
        out.push(bs[i]);
        assert(out@ =~= base + bs@.subrange(0, i + 1 as int));
        i = i + 1;
    }
    assert(bs@.subrange(0, bs@.len() as int) =~= bs@);
}

/// Append a length-prefixed byte string; fails when it exceeds the prefix.
pub(crate) fn push_bytes(out: &mut Vec<u8>, b: &[u8]) -> (ok: bool)
    ensures
        ok == (b@.len() <= MAX_FIELD),
        ok ==> final(out)@ == old(out)@ + enc_bytes(b@),
        !ok ==> final(out)@ == old(out)@,
{
    if b.len() > MAX_FIELD as usize {
        return false;
    }
    push_u32(out, b.len() as u32);
    let ghost mid = out@;
    let mut i: usize = 0;
    while i < b.len()
        invariant
            0 <= i <= b@.len(),
            out@ == mid + b@.subrange(0, i as int),
        decreases b@.len() - i,
    {
        out.push(b[i]);
        assert(out@ =~= mid + b@.subrange(0, i + 1 as int));
        i = i + 1;
    }
    assert(b@.subrange(0, b@.len() as int) =~= b@);
    assert(out@ =~= old(out)@ + enc_bytes(b@));
    true
}

/// Serialise one entry; `None` when a field exceeds its length prefix.
pub fn encode_entry(e: &DirEntry) -> (r: Option<Vec<u8>>)
    ensures
        match r {
            Some(v) => entry_encodable(e@) && v@ == spec_encode_entry(e@),
            None => !entry_encodable(e@),
        },
{
    let mut out: Vec<u8> = Vec::new();
    push_u64(&mut out, e.modified as u64);
    push_u64(&mut out, e.size);
    let flags: u8 = (if e.is_hidden {
        1u8
    } else {
        0u8
    }) + (match &e.symlink_target {
        Some(_) => 2u8,
        None => 0u8,
    });
    out.push(flags);
    assert(out@ =~= enc_i64(e@.modified) + enc_u64(e@.size) + seq![entry_flags(e@)]);
    if !push_bytes(&mut out, e.path.as_slice()) {
        return None;
    }
    if !push_bytes(&mut out, e.name.as_slice()) {
        return None;
    }
    match &e.symlink_target {
        Some(t) => {
            if !push_bytes(&mut out, t.as_slice()) {
                return None;
            }
        },
        None => {},
    }
    if e.children.len() > MAX_FIELD as usize {
        return None;
    }
    push_u32(&mut out, e.children.len() as u32);
    let ghost head = out@;
    let mut i: usize = 0;
    #[verifier::loop_isolation(false)]
    while i < e.children.len()
        invariant
            0 <= i <= e.children@.len(),
            e.children@.len() <= MAX_FIELD,
            forall|j: int| 0 <= j < i ==> #[trigger] e.children@[j]@.len() <= MAX_FIELD,
            out@ == head + enc_names(views_of(e.children@).take(i as int)),
        decreases e.children@.len() - i,
    {
        let ghost pre = out@;
        if !push_bytes(&mut out, e.children[i].as_slice()) {
            proof {
                assert(e@.children[i as int] == e.children@[i as int]@);
            }
            return None;
        }
        proof {
            lemma_enc_names_snoc(views_of(e.children@).take(i as int), e.children@[i as int]@);
            assert(views_of(e.children@).take(i + 1 as int) =~= views_of(e.children@).take(
                i as int,
            ).push(e.children@[i as int]@));
            assert(out@ =~= head + enc_names(views_of(e.children@).take(i + 1 as int)));
        }
        i = i + 1;
    }
    proof {
        assert(views_of(e.children@).take(e.children@.len() as int) =~= views_of(e.children@));
        assert(out@ =~= spec_encode_entry(e@));
    }
    Some(out)
}

/// Appending one name to the list appends its encoding.
proof fn lemma_enc_names_snoc(names: Seq<Seq<u8>>, s: Seq<u8>)
    ensures
        enc_names(names.push(s)) == enc_names(names) + enc_bytes(s),
    decreases names.len(),
{
    let p = names.push(s);
    if names.len() == 0 {
        assert(p[0] == s);
        assert(enc_names_from(p, 1) =~= Seq::<u8>::empty());
        assert(enc_names(p) =~= enc_bytes(s));
        assert(enc_names(names) =~= Seq::<u8>::empty());
        assert(enc_names(names) + enc_bytes(s) =~= enc_bytes(s));
    } else {
        lemma_enc_names_snoc(names.skip(1), s);
        assert(names.skip(1).push(s) =~= p.skip(1));
        lemma_enc_names_shift(p);
        lemma_enc_names_shift(names);
        assert(p[0] == names[0]);
        assert(enc_names(p) == enc_bytes(p[0]) + enc_names(p.skip(1)));
        assert(enc_names(names) == enc_bytes(names[0]) + enc_names(names.skip(1)));
        assert(enc_names(p) =~= enc_names(names) + enc_bytes(s));
    }
}

// ---------------------------------------------------------------------------
// Executable decoder
// ---------------------------------------------------------------------------

/// Read a `u32` at `off`.
pub fn read_u32_at(b: &[u8], off: usize) -> (r: u32)
    requires
        off + 4 <= b@.len(),
    ensures
        r == spec_u32_from_le_bytes(b@.subrange(off as int, off + 4)),
{
    let blen = b.len();
    let window = crate::bytestr::copy_range(b, off, off + 4);
    u32_from_le_bytes(window.as_slice())
}

/// Read a `u64` at `off`.
pub fn read_u64_at(b: &[u8], off: usize) -> (r: u64)
    requires
        off + 8 <= b@.len(),
    ensures
        r == spec_u64_from_le_bytes(b@.subrange(off as int, off + 8)),
{
    let blen = b.len();
    let window = crate::bytestr::copy_range(b, off, off + 8);
    u64_from_le_bytes(window.as_slice())
}

/// Parse one entry from exactly the bytes of `b`.
pub fn decode_entry(b: &[u8]) -> (r: Option<DirEntry>)
    ensures
        match r {
            Some(e) => spec_decode_entry(b@) == Some(e@),
            None => spec_decode_entry(b@) is None,
        },
{
    let ghost whole = b@;
    let blen = b.len();

    if blen < 8 {
        return None;
    }
    let modified = read_u64_at(b, 0) as i64;
    proof {
        assert(whole.take(8) =~= whole.subrange(0, 8));
    }
    let ghost b1 = whole.skip(8);

    if blen - 8 < 8 {
        proof {
            assert(b1.len() < 8);
        }
        return None;
    }
    let size = read_u64_at(b, 8);
    proof {
        assert(b1.take(8) =~= whole.subrange(8, 16));
        assert(b1.skip(8) =~= whole.skip(16));
    }
    let ghost b2 = whole.skip(16);

    if blen - 16 < 1 {
        proof {
            assert(b2.len() < 1);
        }
        return None;
    }
    let flags = b[16];
    proof {
        assert(b2[0] == whole[16]);
        assert(b2.skip(1) =~= whole.skip(17));
    }
    if flags >= 4 {
        return None;
    }
    let ghost b3 = whole.skip(17);

    let (path, off1) = match read_field(b, 17) {
        Some(p) => p,
        None => {
            return None;
        },
    };
    let ghost b4 = whole.skip(off1 as int);

    let (name, off2) = match read_field(b, off1) {
        Some(p) => p,
        None => {
            return None;
        },
    };
    let ghost b5 = whole.skip(off2 as int);

    let mut symlink_target: Option<Vec<u8>> = None;
    let mut off: usize = off2;
    if flags >= 2 {
        let (t, off3) = match read_field(b, off2) {
            Some(p) => p,
            None => {
                return None;
            },
        };
        symlink_target = Some(t);
        off = off3;
    }
    let ghost b6 = whole.skip(off as int);

    if blen - off < 4 {
        proof {
            assert(b6.len() < 4);
        }
        return None;
    }
    let count = read_u32_at(b, off);
    proof {
        assert(b6.take(4) =~= whole.subrange(off as int, off + 4));
        assert(b6.skip(4) =~= whole.skip(off + 4));
    }
    off = off + 4;
    let ghost b7 = whole.skip(off as int);

    let mut children: Vec<Vec<u8>> = Vec::new();
    let mut k: u32 = 0;
    let ghost off_start = off;
    proof {
        assert(views_of(children@) =~= Seq::<Seq<u8>>::empty());
        match dec_names(whole.skip(off_start as int), count as nat) {
            Some((ss, r)) => {
                assert(views_of(children@) + ss =~= ss);
            },
            None => {},
        }
    }
    #[verifier::loop_isolation(false)]
    while k < count
        invariant
            0 <= k <= count,
            off <= whole.len(),
            whole == b@,
            blen == b@.len(),
            dec_names(whole.skip(off_start as int), count as nat) == (match dec_names(
                whole.skip(off as int),
                (count - k) as nat,
            ) {
                Some((ss, r)) => Some((views_of(children@) + ss, r)),
                None => None::<(Seq<Seq<u8>>, Seq<u8>)>,
            }),
        decreases count - k,
    {
        let ghost rem = whole.skip(off as int);
        let (field, noff) = match read_field(b, off) {
            Some(p) => p,
            None => {
                return None;
            },
        };
        let ghost pre = children@;
        children.push(field);
        proof {
            crate::bytestr::lemma_views_of_push(pre, children@[children@.len() - 1]);
            assert(views_of(children@) =~= views_of(pre).push(field@));
            let rest = whole.skip(noff as int);
            assert(dec_names(rem, (count - k) as nat) == (match dec_names(
                rest,
                (count - k - 1) as nat,
            ) {
                Some((ss, r)) => Some((seq![field@] + ss, r)),
                None => None::<(Seq<Seq<u8>>, Seq<u8>)>,
            }));
            match dec_names(rest, (count - k - 1) as nat) {
                Some((ss, r)) => {
                    assert((views_of(pre) + (seq![field@] + ss)) =~= (views_of(children@) + ss));
                },
                None => {},
            }
        }
        off = noff;
        k = k + 1;
    }
    proof {
        assert(dec_names(whole.skip(off as int), 0) == Some(
            (Seq::<Seq<u8>>::empty(), whole.skip(off as int)),
        ));
        assert(views_of(children@) + Seq::<Seq<u8>>::empty() =~= views_of(children@));
    }

    if off != blen {
        proof {
            assert(whole.skip(off as int).len() != 0);
        }
        return None;
    }
    proof {
        assert(whole.skip(off as int).len() == 0);
    }

    let e = DirEntry {
        path,
        name,
        modified,
        size,
        children,
        symlink_target,
        is_hidden: flags == 1 || flags == 3,
    };
    Some(e)
}

/// Read one length-prefixed byte string at `off`; `None` on truncation.
pub(crate) fn read_field(b: &[u8], off: usize) -> (r: Option<(Vec<u8>, usize)>)
    requires
        off <= b@.len(),
    ensures
        match r {
            Some((v, noff)) => {
                &&& off < noff <= b@.len()
                &&& dec_bytes(b@.skip(off as int)) == Some((v@, b@.skip(noff as int)))
            },
            None => dec_bytes(b@.skip(off as int)) is None,
        },
{
    let ghost rem = b@.skip(off as int);
    if b.len() - off < 4 {
        return None;
    }
    let n = read_u32_at(b, off);
    proof {
        assert(rem.take(4) =~= b@.subrange(off as int, off + 4));
        assert(rem.skip(4) =~= b@.skip(off + 4));
    }
    if (b.len() - off - 4) < n as usize {
        proof {
            assert(b@.skip(off + 4).len() < n);
        }
        return None;
    }
    let v = crate::bytestr::copy_range(b, off + 4, off + 4 + n as usize);
    proof {
        assert(b@.skip(off + 4).take(n as int) =~= b@.subrange(off + 4, off + 4 + n as int));
        assert(b@.skip(off + 4).skip(n as int) =~= b@.skip(off + 4 + n as int));
    }
    Some((v, off + 4 + n as usize))
}

} // verus!
