//! Byte-string utilities: paths and names are handled as raw bytes.
//!
//! Both `/` and `\` are recognised as path separators when splitting; joining
//! inserts `/` unless the base already ends in a separator.

use vstd::prelude::*;

verus! {

/// True of the two bytes that act as path separators.
pub open spec fn is_sep(b: u8) -> bool {
    b == 47 || b == 92
}

pub fn is_separator(b: u8) -> (r: bool)
    ensures
        r == is_sep(b),
{
    b == 47 || b == 92
}

/// True when `hay` starts with `pre`.
pub fn starts_with(hay: &[u8], pre: &[u8]) -> (r: bool)
    ensures
        r == (pre@.len() <= hay@.len() && hay@.subrange(0, pre@.len() as int) == pre@),
{
    if pre.len() > hay.len() {
        return false;
    }
    let mut i: usize = 0;
    while i < pre.len()
        invariant
            0 <= i <= pre@.len() <= hay@.len(),
            forall|j: int| 0 <= j < i ==> hay@[j] == pre@[j],
        decreases pre@.len() - i,
    {
        if hay[i] != pre[i] {
            assert(hay@.subrange(0, pre@.len() as int)[i as int] != pre@[i as int]);
            return false;
        }
        i = i + 1;
    }
    assert(hay@.subrange(0, pre@.len() as int) =~= pre@);
    true
}

/// A copy of a byte vector with the same contents.
pub fn clone_bytes(v: &Vec<u8>) -> (r: Vec<u8>)
    ensures
        r@ == v@,
{
    let r = v.clone();
    proof {
        assert(r@ =~= v@);
    }
    r
}

/// Exact equality of two byte strings.
pub fn bytes_eq(a: &[u8], b: &[u8]) -> (r: bool)
    ensures
        r == (a@ == b@),
{
    if a.len() != b.len() {
        assert(a@ != b@) by {
            assert(a@.len() != b@.len());
        }
        return false;
    }
    let mut i: usize = 0;
    while i < a.len()
        invariant
            0 <= i <= a@.len() == b@.len(),
            forall|j: int| 0 <= j < i ==> a@[j] == b@[j],
        decreases a@.len() - i,
    {
        if a[i] != b[i] {
            return false;
        }
        i = i + 1;
    }
    assert(a@ =~= b@);
    true
}

/// ASCII lower-casing of one byte; bytes outside `A..=Z` are unchanged.
pub open spec fn lower(b: u8) -> u8 {
    if 65 <= b <= 90 {
        (b + 32) as u8
    } else {
        b
    }
}

pub fn to_lower(b: u8) -> (r: u8)
    ensures
        r == lower(b),
{
    if 65 <= b && b <= 90 {
        b + 32
    } else {
        b
    }
}

/// Case-insensitive equality over ASCII letters.
pub open spec fn eq_ignore_case(a: Seq<u8>, b: Seq<u8>) -> bool {
    a.len() == b.len() && (forall|i: int| 0 <= i < a.len() ==> lower(a[i]) == lower(b[i]))
}

pub fn bytes_eq_ignore_case(a: &[u8], b: &[u8]) -> (r: bool)
    ensures
        r == eq_ignore_case(a@, b@),
{
    if a.len() != b.len() {
        return false;
    }
    let mut i: usize = 0;
    while i < a.len()
        invariant
            0 <= i <= a@.len() == b@.len(),
            forall|j: int| 0 <= j < i ==> lower(a@[j]) == lower(b@[j]),
        decreases a@.len() - i,
    {
        if to_lower(a[i]) != to_lower(b[i]) {
            return false;
        }
        i = i + 1;
    }
    true
}

/// Lexicographic (byte-wise) order on byte strings; a prefix sorts first.
pub open spec fn lex_le(a: Seq<u8>, b: Seq<u8>) -> bool
    decreases a.len(),
{
    if a.len() == 0 {
        true
    } else if b.len() == 0 {
        false
    } else if a[0] < b[0] {
        true
    } else if a[0] > b[0] {
        false
    } else {
        lex_le(a.skip(1), b.skip(1))
    }
}

pub proof fn lemma_lex_le_total(a: Seq<u8>, b: Seq<u8>)
    ensures
        lex_le(a, b) || lex_le(b, a),
    decreases a.len(),
{
    if a.len() > 0 && b.len() > 0 && a[0] == b[0] {
        lemma_lex_le_total(a.skip(1), b.skip(1));
    }
}

pub proof fn lemma_lex_le_trans(a: Seq<u8>, b: Seq<u8>, c: Seq<u8>)
    requires
        lex_le(a, b),
        lex_le(b, c),
    ensures
        lex_le(a, c),
    decreases a.len(),
{
    if a.len() > 0 && b.len() > 0 && c.len() > 0 && a[0] == b[0] && b[0] == c[0] {
        lemma_lex_le_trans(a.skip(1), b.skip(1), c.skip(1));
    }
}

pub proof fn lemma_lex_le_refl(a: Seq<u8>)
    ensures
        lex_le(a, a),
    decreases a.len(),
{
    if a.len() > 0 {
        lemma_lex_le_refl(a.skip(1));
    }
}

pub proof fn lemma_lex_le_antisym(a: Seq<u8>, b: Seq<u8>)
    requires
        lex_le(a, b),
        lex_le(b, a),
    ensures
        a == b,
    decreases a.len(),
{
    if a.len() > 0 && b.len() > 0 && a[0] == b[0] {
        lemma_lex_le_antisym(a.skip(1), b.skip(1));
        assert(a =~= seq![a[0]] + a.skip(1));
        assert(b =~= seq![b[0]] + b.skip(1));
    } else {
        assert(a.len() == 0 && b.len() == 0);
        assert(a =~= b);
    }
}

/// The ordering on byte strings as a function value.
pub open spec fn lex_leq_fn() -> spec_fn(Seq<u8>, Seq<u8>) -> bool {
    |a: Seq<u8>, b: Seq<u8>| lex_le(a, b)
}

/// `lex_le` is a total ordering on byte strings.
pub proof fn lemma_lex_total_ordering()
    ensures
        vstd::relations::total_ordering(lex_leq_fn()),
{
    let leq = lex_leq_fn();
    assert forall|a: Seq<u8>| #[trigger] leq(a, a) by {
        lemma_lex_le_refl(a);
    }
    assert forall|a: Seq<u8>, b: Seq<u8>| #[trigger] leq(a, b) && #[trigger] leq(b, a) implies a
        == b by {
        lemma_lex_le_antisym(a, b);
    }
    assert forall|a: Seq<u8>, b: Seq<u8>, c: Seq<u8>|
        #[trigger] leq(a, b) && #[trigger] leq(b, c) implies leq(a, c) by {
        lemma_lex_le_trans(a, b, c);
    }
    assert forall|a: Seq<u8>, b: Seq<u8>| true implies #[trigger] leq(a, b) || #[trigger] leq(
        b,
        a,
    ) by {
        lemma_lex_le_total(a, b);
    }
}

/// The ascending ordering of a sequence of byte strings.
pub open spec fn sort_views(s: Seq<Seq<u8>>) -> Seq<Seq<u8>> {
    s.sort_by(lex_leq_fn())
}

/// Byte-string views in ascending order.
pub open spec fn sorted_views(s: Seq<Seq<u8>>) -> bool {
    forall|i: int, j: int| 0 <= i < j < s.len() ==> lex_le(s[i], s[j])
}

/// Every element of the ascending ordering is an element of the original.
pub proof fn lemma_sort_views_elem(keys: Seq<Seq<u8>>, k: int)
    requires
        0 <= k < sort_views(keys).len(),
    ensures
        keys.contains(sort_views(keys)[k]),
{
    lemma_lex_total_ordering();
    keys.lemma_sort_by_ensures(lex_leq_fn());
    let x = sort_views(keys)[k];
    assert(sort_views(keys).contains(x));
    if !keys.contains(x) {
        assert(!keys.sort_by(lex_leq_fn()).contains(x));
    }
}

/// Two ascending sequences with the same multiset of byte strings are equal.
pub proof fn lemma_sorted_unique(a: Seq<Seq<u8>>, b: Seq<Seq<u8>>)
    requires
        sorted_views(a),
        sorted_views(b),
        a.to_multiset() == b.to_multiset(),
    ensures
        a == b,
    decreases a.len(),
{
    broadcast use vstd::seq_lib::group_to_multiset_ensures;
    broadcast use vstd::multiset::group_multiset_axioms;
    broadcast use vstd::multiset::group_multiset_properties;

    if a.len() == 0 {
        assert(b.to_multiset().len() == 0);
        assert(a =~= b);
    } else {
        a.to_multiset_ensures();
        b.to_multiset_ensures();
        assert(b.to_multiset().len() == a.to_multiset().len());
        assert(b.len() > 0);
        assert(a.to_multiset().contains(a[0])) by {
            assert(a.contains(a[0]));
        }
        assert(b.to_multiset().contains(b[0])) by {
            assert(b.contains(b[0]));
        }
        assert(b.contains(a[0]));
        assert(a.contains(b[0]));
        let i = choose|i: int| 0 <= i < b.len() && b[i] == a[0];
        let j = choose|j: int| 0 <= j < a.len() && a[j] == b[0];
        assert(lex_le(b[0], a[0])) by {
            if i == 0 {
                lemma_lex_le_refl(a[0]);
            }
        }
        assert(lex_le(a[0], b[0])) by {
            if j == 0 {
                lemma_lex_le_refl(a[0]);
            }
        }
        lemma_lex_le_antisym(a[0], b[0]);
        let at = a.drop_first();
        let bt = b.drop_first();
        assert(a.remove(0) =~= at);
        assert(b.remove(0) =~= bt);
        assert(at.to_multiset() == a.to_multiset().remove(a[0]));
        assert(bt.to_multiset() == b.to_multiset().remove(b[0]));
        assert(forall|p: int, q: int| 0 <= p < q < at.len() ==> lex_le(at[p], at[q])) by {
            assert(forall|p: int| 0 <= p < at.len() ==> at[p] == a[p + 1]);
        }
        assert(forall|p: int, q: int| 0 <= p < q < bt.len() ==> lex_le(bt[p], bt[q])) by {
            assert(forall|p: int| 0 <= p < bt.len() ==> bt[p] == b[p + 1]);
        }
        lemma_sorted_unique(at, bt);
        assert(a =~= seq![a[0]] + at);
        assert(b =~= seq![b[0]] + bt);
    }
}

/// If two byte strings agree on their first `i` bytes, their order is decided
/// by the remainders.
proof fn lemma_lex_le_skip(a: Seq<u8>, b: Seq<u8>, i: int)
    requires
        0 <= i <= a.len(),
        i <= b.len(),
        forall|j: int| 0 <= j < i ==> a[j] == b[j],
    ensures
        lex_le(a, b) == lex_le(a.skip(i), b.skip(i)),
    decreases i,
{
    if i > 0 {
        assert(a.len() > 0 && b.len() > 0 && a[0] == b[0]);
        lemma_lex_le_skip(a.skip(1), b.skip(1), i - 1);
        assert(a.skip(1).skip(i - 1) =~= a.skip(i));
        assert(b.skip(1).skip(i - 1) =~= b.skip(i));
    } else {
        assert(a.skip(0) =~= a);
        assert(b.skip(0) =~= b);
    }
}

pub fn bytes_le(a: &[u8], b: &[u8]) -> (r: bool)
    ensures
        r == lex_le(a@, b@),
{
    let mut i: usize = 0;
    while i < a.len() && i < b.len()
        invariant
            0 <= i <= a@.len(),
            i <= b@.len(),
            forall|j: int| 0 <= j < i ==> a@[j] == b@[j],
        decreases a@.len() - i,
    {
        if a[i] < b[i] {
            proof {
                lemma_lex_le_skip(a@, b@, i as int);
            }
            return true;
        }
        if a[i] > b[i] {
            proof {
                lemma_lex_le_skip(a@, b@, i as int);
            }
            return false;
        }
        i = i + 1;
    }
    proof {
        lemma_lex_le_skip(a@, b@, i as int);
    }
    a.len() <= b.len()
}

/// Index of the last separator byte in `p`, or `-1` when there is none.
pub open spec fn last_sep(p: Seq<u8>) -> int
    decreases p.len(),
{
    if p.len() == 0 {
        -1
    } else if is_sep(p[p.len() - 1]) {
        p.len() - 1
    } else {
        last_sep(p.drop_last())
    }
}

pub proof fn lemma_last_sep_bounds(p: Seq<u8>)
    ensures
        -1 <= last_sep(p) < p.len(),
        last_sep(p) >= 0 ==> is_sep(p[last_sep(p)]),
        forall|j: int| last_sep(p) < j < p.len() ==> !is_sep(p[j]),
    decreases p.len(),
{
    if p.len() > 0 && !is_sep(p[p.len() - 1]) {
        lemma_last_sep_bounds(p.drop_last());
        assert(forall|j: int| 0 <= j < p.len() - 1 ==> p.drop_last()[j] == p[j]);
    }
}

proof fn lemma_last_sep_take(p: Seq<u8>, i: int)
    requires
        0 <= i <= p.len(),
        forall|j: int| i <= j < p.len() ==> !is_sep(p[j]),
    ensures
        last_sep(p) == last_sep(p.take(i)),
    decreases p.len() - i,
{
    if i == p.len() {
        assert(p.take(i) =~= p);
    } else {
        lemma_last_sep_take(p, i + 1);
        assert(p.take(i + 1).drop_last() =~= p.take(i));
        assert(!is_sep(p.take(i + 1)[i]));
    }
}

/// The terminal component of a path: the bytes after the last separator.
pub open spec fn spec_basename(p: Seq<u8>) -> Seq<u8> {
    p.subrange(last_sep(p) + 1, p.len() as int)
}

/// The bytes before the last separator; a lone leading separator is kept, and
/// a path without a separator has an empty parent.
pub open spec fn spec_parent(p: Seq<u8>) -> Seq<u8> {
    if last_sep(p) <= 0 {
        p.subrange(0, last_sep(p) + 1)
    } else {
        p.subrange(0, last_sep(p))
    }
}

/// Copy `p[start..end]` into a fresh vector.
pub fn copy_range(p: &[u8], start: usize, end: usize) -> (r: Vec<u8>)
    requires
        start <= end <= p@.len(),
    ensures
        r@ == p@.subrange(start as int, end as int),
{
    let mut out: Vec<u8> = Vec::new();
    let mut i: usize = start;
    while i < end
        invariant
            start <= i <= end <= p@.len(),
            out@ == p@.subrange(start as int, i as int),
        decreases end - i,
    {
        out.push(p[i]);
        assert(out@ =~= p@.subrange(start as int, i + 1 as int));
        i = i + 1;
    }
    out
}

/// Split a path into `(parent, basename)`.
pub fn split_path(p: &[u8]) -> (r: (Vec<u8>, Vec<u8>))
    ensures
        r.0@ == spec_parent(p@),
        r.1@ == spec_basename(p@),
{
    proof {
        lemma_last_sep_bounds(p@);
    }
    let mut i: usize = p.len();
    while i > 0
        invariant
            0 <= i <= p@.len(),
            forall|j: int| i <= j < p@.len() ==> !is_sep(p@[j]),
        decreases i,
    {
        if is_separator(p[i - 1]) {
            proof {
                lemma_last_sep_take(p@, i as int);
                assert(is_sep(p@.take(i as int)[i - 1]));
                assert(last_sep(p@.take(i as int)) == i - 1);
            }
            let name = copy_range(p, i, p.len());
            let parent = if i == 1 {
                copy_range(p, 0, 1)
            } else {
                copy_range(p, 0, i - 1)
            };
            return (parent, name);
        }
        i = i - 1;
    }
    proof {
        lemma_last_sep_take(p@, 0);
        assert(p@.take(0) =~= Seq::<u8>::empty());
        assert(last_sep(p@) == -1);
    }
    let name = copy_range(p, 0, p.len());
    let parent = Vec::new();
    assert(parent@ =~= spec_parent(p@));
    assert(name@ =~= spec_basename(p@));
    (parent, name)
}

/// Join a base path and a component: `/` is inserted unless the base already
/// ends in a separator.
pub open spec fn spec_join(base: Seq<u8>, name: Seq<u8>) -> Seq<u8> {
    if base.len() > 0 && is_sep(base[base.len() - 1]) {
        base + name
    } else {
        base + seq![47u8] + name
    }
}

pub fn join_path(base: &[u8], name: &[u8]) -> (r: Vec<u8>)
    ensures
        r@ == spec_join(base@, name@),
{
    let mut out = copy_range(base, 0, base.len());
    assert(out@ =~= base@);
    if base.len() == 0 || !is_separator(base[base.len() - 1]) {
        out.push(47);
        assert(out@ =~= base@ + seq![47u8]);
    }
    let mut i: usize = 0;
    let ghost mid = out@;
    while i < name.len()
        invariant
            0 <= i <= name@.len(),
            out@ == mid + name@.subrange(0, i as int),
        decreases name@.len() - i,
    {
        out.push(name[i]);
        assert(out@ =~= mid + name@.subrange(0, i + 1 as int));
        i = i + 1;
    }
    assert(name@.subrange(0, name@.len() as int) =~= name@);
    assert(out@ =~= spec_join(base@, name@));
    out
}

/// The views of a sequence of byte vectors.
pub open spec fn views_of(s: Seq<Vec<u8>>) -> Seq<Seq<u8>> {
    s.map_values(|v: Vec<u8>| v@)
}

pub proof fn lemma_views_of_push(s: Seq<Vec<u8>>, v: Vec<u8>)
    ensures
        views_of(s.push(v)) =~= views_of(s).push(v@),
{
}

/// Byte strings in ascending lexicographic order.
pub open spec fn sorted_names(s: Seq<Vec<u8>>) -> bool {
    forall|i: int, j: int| 0 <= i < j < s.len() ==> lex_le(s[i]@, s[j]@)
}

/// Insertion sort over byte strings: ascending order, same multiset of values.
pub fn sort_names(v: &mut Vec<Vec<u8>>)
    ensures
        sorted_names(final(v)@),
        views_of(final(v)@).to_multiset() == views_of(old(v)@).to_multiset(),
        final(v)@.len() == old(v)@.len(),
{
    let mut i: usize = 1;
    while i < v.len()
        invariant
            1 <= i,
            i <= v@.len() || v@.len() <= 1,
            v@.len() == old(v)@.len(),
            forall|p: int, q: int| 0 <= p < q < i && q < v@.len() ==> lex_le(v@[p]@, v@[q]@),
            views_of(v@).to_multiset() == views_of(old(v)@).to_multiset(),
        decreases v@.len() - i,
    {
        let mut j: usize = i;
        let mut placed: bool = false;
        while j > 0 && !placed
            invariant
                0 <= j <= i < v@.len(),
                v@.len() == old(v)@.len(),
                forall|p: int, q: int| 0 <= p < q <= i && q != j ==> lex_le(v@[p]@, v@[q]@),
                forall|q: int| j < q <= i ==> lex_le(v@[j as int]@, v@[q]@),
                placed ==> forall|p: int, q: int| 0 <= p < q <= i ==> lex_le(v@[p]@, v@[q]@),
                views_of(v@).to_multiset() == views_of(old(v)@).to_multiset(),
            decreases j + (if placed { 0int } else { 1int }),
        {
            let in_order = {
                let a = &v[j - 1];
                let b = &v[j];
                bytes_le(a.as_slice(), b.as_slice())
            };
            if in_order {
                proof {
                    assert forall|p: int, q: int| 0 <= p < q <= i implies lex_le(
                        v@[p]@,
                        v@[q]@,
                    ) by {
                        if q == j {
                            if p < j - 1 {
                                lemma_lex_le_trans(v@[p]@, v@[j - 1]@, v@[j as int]@);
                            }
                        }
                    }
                }
                placed = true;
            } else {
                proof {
                    lemma_lex_le_total(v@[j - 1]@, v@[j as int]@);
                }
                let ghost pre = v@;
                let x = v.remove(j);
                v.insert(j - 1, x);
                proof {
                    assert(v@ =~= pre.update(j - 1, pre[j as int]).update(j as int, pre[j - 1]));
                    lemma_swap_multiset(views_of(pre), j - 1, j as int);
                    assert(views_of(v@) =~= views_of(pre).update(j - 1, pre[j as int]@).update(
                        j as int,
                        pre[j - 1]@,
                    ));
                    assert forall|q: int| j - 1 < q <= i implies lex_le(
                        v@[j - 1]@,
                        #[trigger] v@[q]@,
                    ) by {
                        if q > j {
                            lemma_lex_le_trans(v@[j - 1]@, v@[j as int]@, v@[q]@);
                        }
                    }
                }
                j = j - 1;
            }
        }
        i = i + 1;
    }
}

/// Append the bytes of `src` to `dst`.
pub fn append_bytes(dst: &mut Vec<u8>, src: &[u8])
    ensures
        final(dst)@ == old(dst)@ + src@,
{
    let mut i: usize = 0;
    let ghost base = dst@;
    while i < src.len()
        invariant
            0 <= i <= src@.len(),
            dst@ == base + src@.subrange(0, i as int),
        decreases src@.len() - i,
    {
        dst.push(src[i]);
        assert(dst@ =~= base + src@.subrange(0, i + 1 as int));
        i = i + 1;
    }
    assert(src@.subrange(0, src@.len() as int) =~= src@);
}

/// A copy of the byte strings in ascending order.
pub fn sorted_copy(v: &Vec<Vec<u8>>) -> (r: Vec<Vec<u8>>)
    ensures
        views_of(r@) == sort_views(views_of(v@)),
{
    let mut r: Vec<Vec<u8>> = Vec::new();
    let mut i: usize = 0;
    while i < v.len()
        invariant
            0 <= i <= v@.len(),
            views_of(r@) == views_of(v@).subrange(0, i as int),
        decreases v@.len() - i,
    {
        let ghost pre = r@;
        r.push(clone_bytes(&v[i]));
        proof {
            lemma_views_of_push(pre, r@.last());
            assert(views_of(r@) =~= views_of(v@).subrange(0, i + 1 as int));
        }
        i = i + 1;
    }
    proof {
        assert(views_of(v@).subrange(0, v@.len() as int) =~= views_of(v@));
    }
    sort_names(&mut r);
    proof {
        let leq = lex_leq_fn();
        lemma_lex_total_ordering();
        views_of(v@).lemma_sort_by_ensures(leq);
        let sv = sort_views(views_of(v@));
        assert(vstd::relations::sorted_by(sv, leq));
        assert forall|i: int, j: int| 0 <= i < j < sv.len() implies lex_le(sv[i], sv[j]) by {
            assert(leq(sv[i], sv[j]));
        }
        assert(sorted_views(sv));
        assert(sorted_views(views_of(r@))) by {
            assert(forall|i: int, j: int|
                0 <= i < j < r@.len() ==> lex_le(r@[i]@, r@[j]@));
            assert(forall|i: int| 0 <= i < r@.len() ==> views_of(r@)[i] == r@[i]@);
        }
        lemma_sorted_unique(views_of(r@), sort_views(views_of(v@)));
    }
    r
}

/// Swapping two adjacent positions of a sequence keeps its multiset of
/// elements.
proof fn lemma_swap_multiset(s: Seq<Seq<u8>>, a: int, b: int)
    requires
        0 <= a < b < s.len(),
    ensures
        s.update(a, s[b]).update(b, s[a]).to_multiset() == s.to_multiset(),
{
    broadcast use vstd::seq_lib::to_multiset_update;
    broadcast use vstd::multiset::group_multiset_axioms;
    broadcast use vstd::multiset::group_multiset_properties;
    broadcast use vstd::seq_lib::group_to_multiset_ensures;

    let t1 = s.update(a, s[b]);
    let t2 = t1.update(b, s[a]);
    assert(s.to_multiset().contains(s[a])) by {
        assert(s.contains(s[a]));
    }
    assert(t1[b] == s[b]);
    assert(t2.to_multiset() =~= t1.to_multiset().insert(s[a]).remove(s[b]));
    assert(t1.to_multiset() =~= s.to_multiset().insert(s[b]).remove(s[a]));
    assert(t2.to_multiset() =~= s.to_multiset());
}

} // verus!
