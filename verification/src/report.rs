//! The skip report: one line per skipped directory name, `"  <count> × <name>"`,
//! most-skipped first, or a marker line when nothing was skipped.
//!
//! Ordering goes through sortable keys: each statistic becomes the byte
//! string `big-endian(u64::MAX - count) + name`, so that ascending
//! byte-wise order of the keys is exactly descending count, ties broken by
//! ascending name. The report renders the sorted keys.

use vstd::prelude::*;
use crate::cache::DiskCache;
use crate::bytestr::{sort_views, sorted_copy, views_of};
use crate::store::pair_views;

verus! {

/// The big-endian bytes of `x`.
pub open spec fn be8(x: u64) -> Seq<u8> {
    seq![
        ((x >> 56) & 0xff) as u8,
        ((x >> 48) & 0xff) as u8,
        ((x >> 40) & 0xff) as u8,
        ((x >> 32) & 0xff) as u8,
        ((x >> 24) & 0xff) as u8,
        ((x >> 16) & 0xff) as u8,
        ((x >> 8) & 0xff) as u8,
        (x & 0xff) as u8,
    ]
}

/// The value of eight big-endian bytes.
pub open spec fn be8_dec(s: Seq<u8>) -> u64 {
    ((s[0] as u64) << 56 | (s[1] as u64) << 48 | (s[2] as u64) << 40 | (s[3] as u64) << 32 | (
    s[4] as u64) << 24 | (s[5] as u64) << 16 | (s[6] as u64) << 8 | (s[7] as u64)) as u64
}

/// The sort key of one statistic: complemented count, then the name, so
/// ascending keys mean descending counts.
pub open spec fn stat_key(name: Seq<u8>, count: u64) -> Seq<u8> {
    be8((u64::MAX - count) as u64) + name
}

pub open spec fn stat_keys(stats: Seq<(Seq<u8>, u64)>) -> Seq<Seq<u8>> {
    stats.map_values(|p: (Seq<u8>, u64)| stat_key(p.0, p.1))
}

/// The decimal digits of `n`.
pub open spec fn dec_digits(n: nat) -> Seq<u8>
    decreases n,
{
    if n < 10 {
        seq![(48 + n) as u8]
    } else {
        dec_digits(n / 10) + seq![(48 + n % 10) as u8]
    }
}

/// ` × ` as UTF-8 bytes.
pub open spec fn times_sign() -> Seq<u8> {
    seq![0x20u8, 0xC3u8, 0x97u8, 0x20u8]
}

/// The line of one key: two spaces, the count, ` × `, the name, a newline.
pub open spec fn report_line(key: Seq<u8>) -> Seq<u8> {
    seq![0x20u8, 0x20u8] + dec_digits((u64::MAX - be8_dec(key.take(8))) as nat) + times_sign()
        + key.skip(8) + seq![0x0Au8]
}

pub open spec fn report_lines(keys: Seq<Seq<u8>>, i: int) -> Seq<u8>
    decreases keys.len() - i,
{
    if 0 <= i < keys.len() {
        report_line(keys[i]) + report_lines(keys, i + 1)
    } else {
        Seq::empty()
    }
}

/// `(no directories skipped)` and a newline.
pub open spec fn no_skips_marker() -> Seq<u8> {
    seq![
        0x28u8, 0x6Eu8, 0x6Fu8, 0x20u8, 0x64u8, 0x69u8, 0x72u8, 0x65u8, 0x63u8, 0x74u8, 0x6Fu8,
        0x72u8, 0x69u8, 0x65u8, 0x73u8, 0x20u8, 0x73u8, 0x6Bu8, 0x69u8, 0x70u8, 0x70u8, 0x65u8,
        0x64u8, 0x29u8, 0x0Au8,
    ]
}

/// The whole report: the marker for an empty statistic, else the lines of
/// the keys in ascending order — counts descending, names ascending within
/// one count.
pub open spec fn spec_skip_report(stats: Seq<(Seq<u8>, u64)>) -> Seq<u8> {
    if stats.len() == 0 {
        no_skips_marker()
    } else {
        report_lines(sort_views(stat_keys(stats)), 0)
    }
}

/// Append the decimal digits of `n`.
fn push_decimal(out: &mut Vec<u8>, n: u64)
    ensures
        final(out)@ == old(out)@ + dec_digits(n as nat),
    decreases n,
{
    if n < 10 {
        out.push(48 + n as u8);
        proof {
            assert(out@ =~= old(out)@ + dec_digits(n as nat));
        }
    } else {
        push_decimal(out, n / 10);
        out.push(48 + (n % 10) as u8);
        proof {
            assert(out@ =~= old(out)@ + dec_digits(n as nat));
        }
    }
}

/// Append the big-endian bytes of `x`.
fn push_be8(out: &mut Vec<u8>, x: u64)
    ensures
        final(out)@ == old(out)@ + be8(x),
{
    out.push(((x >> 56) & 0xff) as u8);
    out.push(((x >> 48) & 0xff) as u8);
    out.push(((x >> 40) & 0xff) as u8);
    out.push(((x >> 32) & 0xff) as u8);
    out.push(((x >> 24) & 0xff) as u8);
    out.push(((x >> 16) & 0xff) as u8);
    out.push(((x >> 8) & 0xff) as u8);
    out.push((x & 0xff) as u8);
    proof {
        assert(out@ =~= old(out)@ + be8(x));
    }
}

/// Read eight big-endian bytes at the front of `s`.
fn read_be8(s: &[u8]) -> (r: u64)
    requires
        s@.len() >= 8,
    ensures
        r == be8_dec(s@.take(8)),
{
    let r = (s[0] as u64) << 56 | (s[1] as u64) << 48 | (s[2] as u64) << 40 | (s[3] as u64) << 32
        | (s[4] as u64) << 24 | (s[5] as u64) << 16 | (s[6] as u64) << 8 | (s[7] as u64);
    proof {
        assert(s@.take(8)[0] == s@[0]);
        assert(s@.take(8)[1] == s@[1]);
        assert(s@.take(8)[2] == s@[2]);
        assert(s@.take(8)[3] == s@[3]);
        assert(s@.take(8)[4] == s@[4]);
        assert(s@.take(8)[5] == s@[5]);
        assert(s@.take(8)[6] == s@[6]);
        assert(s@.take(8)[7] == s@[7]);
    }
    r
}

impl DiskCache {
    /// The skip report of this cache's statistics.
    #[verifier::loop_isolation(false)]
    pub fn get_skip_report(&self) -> (r: Vec<u8>)
        ensures
            r@ == spec_skip_report(pair_views(self.skip_stats@)),
    {
        let mut out: Vec<u8> = Vec::new();
        if self.skip_stats.len() == 0 {
            out.push(0x28);
            out.push(0x6E);
            out.push(0x6F);
            out.push(0x20);
            out.push(0x64);
            out.push(0x69);
            out.push(0x72);
            out.push(0x65);
            out.push(0x63);
            out.push(0x74);
            out.push(0x6F);
            out.push(0x72);
            out.push(0x69);
            out.push(0x65);
            out.push(0x73);
            out.push(0x20);
            out.push(0x73);
            out.push(0x6B);
            out.push(0x69);
            out.push(0x70);
            out.push(0x70);
            out.push(0x65);
            out.push(0x64);
            out.push(0x29);
            out.push(0x0A);
            proof {
                assert(out@ =~= no_skips_marker());
            }
            return out;
        }
        let mut keys: Vec<Vec<u8>> = Vec::new();
        let ghost gstats = pair_views(self.skip_stats@);
        let mut i: usize = 0;
        while i < self.skip_stats.len()
            invariant
                0 <= i <= self.skip_stats@.len(),
                views_of(keys@) == stat_keys(gstats).take(i as int),
            decreases self.skip_stats@.len() - i,
        {
            let mut key: Vec<u8> = Vec::new();
            push_be8(&mut key, u64::MAX - self.skip_stats[i].1);
            crate::bytestr::append_bytes(&mut key, self.skip_stats[i].0.as_slice());
            let ghost pre = keys@;
            keys.push(key);
            proof {
                crate::bytestr::lemma_views_of_push(pre, keys@.last());
                assert(keys@.last()@ == stat_key(gstats[i as int].0, gstats[i as int].1));
                assert(views_of(keys@) =~= stat_keys(gstats).take(i + 1 as int));
            }
            i = i + 1;
        }
        proof {
            assert(stat_keys(gstats).take(gstats.len() as int) =~= stat_keys(gstats));
        }
        let sorted = sorted_copy(&keys);
        let ghost skeys = sort_views(stat_keys(gstats));
        let mut k: usize = 0;
        while k < sorted.len()
            invariant
                0 <= k <= sorted@.len(),
                views_of(sorted@) == skeys,
                out@ + report_lines(skeys, k as int) == report_lines(skeys, 0),
            decreases sorted@.len() - k,
        {
            let key = &sorted[k];
            let ghost out0 = out@;
            proof {
                assert(key@ == skeys[k as int]);
                crate::bytestr::lemma_sort_views_elem(stat_keys(gstats), k as int);
                let i = choose|i: int|
                    0 <= i < stat_keys(gstats).len() && stat_keys(gstats)[i] == key@;
                assert(stat_keys(gstats)[i] == stat_key(gstats[i].0, gstats[i].1));
                assert(key@.len() >= 8);
            }
            out.push(0x20);
            out.push(0x20);
            let count = u64::MAX - read_be8(key.as_slice());
            push_decimal(&mut out, count);
            out.push(0x20);
            out.push(0xC3);
            out.push(0x97);
            out.push(0x20);
            let name = crate::bytestr::copy_range(key.as_slice(), 8, key.len());
            crate::bytestr::append_bytes(&mut out, name.as_slice());
            out.push(0x0A);
            proof {
                assert(name@ =~= key@.skip(8));
                assert(out@ =~= out0 + report_line(skeys[k as int]));
                assert(out0 + (report_line(skeys[k as int]) + report_lines(skeys, k + 1)) =~= out@
                    + report_lines(skeys, k + 1));
            }
            k = k + 1;
        }
        proof {
            assert(report_lines(skeys, sorted@.len() as int) =~= Seq::<u8>::empty());
            assert(out@ =~= out@ + Seq::<u8>::empty());
        }
        out
    }
}

} // verus!
