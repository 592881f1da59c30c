use vstd::prelude::*;
use crate::text::{lex_lt, lemma_lex_irreflexive, lemma_lex_transitive, lemma_lex_total, lemma_lex_asymmetric, bytes_less, lemma_lex_first_difference, lemma_lex_proper_prefix};

verus! {

/// The key by which directory listings are ordered: whether the entry is a
/// directory, and the UTF-8 bytes of its lower-cased name.
pub struct SortKey {
    pub is_dir: bool,
    pub name: Vec<u8>,
}

impl View for SortKey {
    type V = (bool, Seq<u8>);

    open spec fn view(&self) -> (bool, Seq<u8>) {
        (self.is_dir, self.name@)
    }
}

/// Listing order: directories before files, then by name (byte order).
pub open spec fn key_lt(a: (bool, Seq<u8>), b: (bool, Seq<u8>)) -> bool {
    (a.0 && !b.0) || (a.0 == b.0 && lex_lt(a.1, b.1))
}

pub proof fn lemma_key_irreflexive(a: (bool, Seq<u8>))
    ensures
        !key_lt(a, a),
{
    lemma_lex_irreflexive(a.1);
}

pub proof fn lemma_key_transitive(a: (bool, Seq<u8>), b: (bool, Seq<u8>), c: (bool, Seq<u8>))
    requires
        key_lt(a, b),
        key_lt(b, c),
    ensures
        key_lt(a, c),
{
    if a.0 == b.0 && b.0 == c.0 {
        lemma_lex_transitive(a.1, b.1, c.1);
    }
}

pub proof fn lemma_key_total(a: (bool, Seq<u8>), b: (bool, Seq<u8>))
    ensures
        a == b || key_lt(a, b) || key_lt(b, a),
{
    lemma_lex_total(a.1, b.1);
}

pub proof fn lemma_key_asymmetric(a: (bool, Seq<u8>), b: (bool, Seq<u8>))
    ensures
        !(key_lt(a, b) && key_lt(b, a)),
{
    lemma_lex_asymmetric(a.1, b.1);
}

/// Listing order: a directory comes before every file, and of two entries
/// of one kind whose names first differ at byte `i`, the one with the
/// smaller byte there comes first; a name that is a proper prefix of
/// another comes before it.
pub proof fn lemma_listing_order(is_dir: bool, a: Seq<u8>, b: Seq<u8>, i: int)
    ensures
        key_lt((true, a), (false, b)),
        !key_lt((false, a), (true, b)),
        0 <= i < a.len() && i < b.len() && a.subrange(0, i) == b.subrange(0, i) && a[i] != b[i] ==> (key_lt(
            (is_dir, a),
            (is_dir, b),
        ) <==> a[i] < b[i]),
        a.len() < b.len() && b.subrange(0, a.len() as int) == a ==> key_lt((is_dir, a), (is_dir, b)),
{
    if 0 <= i < a.len() && i < b.len() && a.subrange(0, i) == b.subrange(0, i) && a[i] != b[i] {
        lemma_lex_first_difference(a, b, i);
    }
    if a.len() < b.len() && b.subrange(0, a.len() as int) == a {
        lemma_lex_proper_prefix(a, b);
    }
}

/// The keys of a vector of sort keys.
pub open spec fn key_views(keys: Seq<SortKey>) -> Seq<(bool, Seq<u8>)> {
    keys.map_values(|k: SortKey| k@)
}

/// `perm` lists each index below `n` exactly once.
pub open spec fn is_index_permutation(perm: Seq<int>, n: nat) -> bool {
    &&& perm.len() == n
    &&& forall|i: int| 0 <= i < n ==> 0 <= #[trigger] perm[i] < n
    &&& forall|i: int, j: int| 0 <= i < n && 0 <= j < n && i != j ==> perm[i] != perm[j]
    &&& forall|a: int| 0 <= a < n ==> #[trigger] occurs_in(perm, a)
}

/// The index `a` appears in `perm`.
pub open spec fn occurs_in(perm: Seq<int>, a: int) -> bool {
    exists|i: int| 0 <= i < perm.len() && #[trigger] perm[i] == a
}

/// Taking the indices in the order `perm` orders `keys` ascending, and
/// keeps equal keys in the order they came in.
pub open spec fn is_stable_order(perm: Seq<int>, keys: Seq<(bool, Seq<u8>)>) -> bool {
    &&& is_index_permutation(perm, keys.len())
    &&& forall|i: int, j: int|
        0 <= i < j < perm.len() ==> !key_lt(keys[#[trigger] perm[j]], keys[#[trigger] perm[i]])
    &&& forall|i: int, j: int|
        0 <= i < j < perm.len() && keys[#[trigger] perm[i]] == keys[#[trigger] perm[j]] ==> perm[i]
            < perm[j]
}

/// `out` is `inp` stably sorted by `keys` (one key per item of `inp`).
pub open spec fn is_stable_sort<T>(out: Seq<T>, inp: Seq<T>, keys: Seq<(bool, Seq<u8>)>) -> bool {
    exists|perm: Seq<int>|
        #![trigger is_stable_order(perm, keys)]
        is_stable_order(perm, keys) && keys.len() == inp.len() && out.len() == inp.len()
            && forall|i: int| 0 <= i < out.len() ==> out[i] == inp[#[trigger] perm[i]]
}

/// A stable sort stays one when every item is replaced by its image under
/// `f`.
pub proof fn lemma_stable_sort_map<T, U>(
    out: Seq<T>,
    inp: Seq<T>,
    keys: Seq<(bool, Seq<u8>)>,
    f: spec_fn(T) -> U,
)
    requires
        is_stable_sort(out, inp, keys),
    ensures
        is_stable_sort(out.map_values(f), inp.map_values(f), keys),
{
    let perm = choose|perm: Seq<int>|
        #![trigger is_stable_order(perm, keys)]
        is_stable_order(perm, keys) && keys.len() == inp.len() && out.len() == inp.len()
            && forall|i: int| 0 <= i < out.len() ==> out[i] == inp[#[trigger] perm[i]];
    assert forall|i: int| 0 <= i < out.map_values(f).len() implies out.map_values(f)[i]
        == inp.map_values(f)[#[trigger] perm[i]] by {
        assert(out[i] == inp[perm[i]]);
    }
    assert(is_stable_order(perm, keys));
}

/// A stable sort lists the items in key order: no item has a smaller key
/// than an item before it (so directories come before files).
pub proof fn lemma_stable_sort_sorted<T>(out: Seq<T>, inp: Seq<T>, key: spec_fn(T) -> (bool, Seq<u8>))
    requires
        is_stable_sort(out, inp, inp.map_values(key)),
    ensures
        forall|i: int, j: int| 0 <= i < j < out.len() ==> !key_lt(key(out[j]), key(out[i])),
{
    let keys = inp.map_values(key);
    let perm = choose|perm: Seq<int>|
        #![trigger is_stable_order(perm, keys)]
        is_stable_order(perm, keys) && keys.len() == inp.len() && out.len() == inp.len()
            && forall|i: int| 0 <= i < out.len() ==> out[i] == inp[#[trigger] perm[i]];
    assert forall|i: int, j: int| 0 <= i < j < out.len() implies !key_lt(key(out[j]), key(out[i])) by {
        assert(out[i] == inp[perm[i]]);
        assert(out[j] == inp[perm[j]]);
        assert(keys[perm[i]] == key(inp[perm[i]]));
        assert(keys[perm[j]] == key(inp[perm[j]]));
    }
}

/// Index `a` comes before index `b` in the stable order of `keys`.
pub open spec fn index_before(keys: Seq<(bool, Seq<u8>)>, a: int, b: int) -> bool {
    key_lt(keys[a], keys[b]) || (keys[a] == keys[b] && a < b)
}

proof fn lemma_stable_order_increasing(perm: Seq<int>, keys: Seq<(bool, Seq<u8>)>, i: int, j: int)
    requires
        is_stable_order(perm, keys),
        0 <= i < j < perm.len(),
    ensures
        index_before(keys, perm[i], perm[j]),
{
    lemma_key_total(keys[perm[i]], keys[perm[j]]);
}

proof fn lemma_stable_orders_agree_upto(p1: Seq<int>, p2: Seq<int>, keys: Seq<(bool, Seq<u8>)>, i: int)
    requires
        is_stable_order(p1, keys),
        is_stable_order(p2, keys),
        0 <= i < keys.len(),
    ensures
        forall|m: int| 0 <= m <= i ==> p1[m] == p2[m],
    decreases i,
{
    if i > 0 {
        lemma_stable_orders_agree_upto(p1, p2, keys, i - 1);
    }
    let n = keys.len();
    if p1[i] != p2[i] {
        let a = p1[i];
        let b = p2[i];
        assert(crate::sort::occurs_in(p2, a));
        let j = choose|j: int| 0 <= j < p2.len() && #[trigger] p2[j] == a;
        assert(crate::sort::occurs_in(p1, b));
        let m = choose|m: int| 0 <= m < p1.len() && #[trigger] p1[m] == b;
        if j < i {
            assert(p1[j] == p2[j]);
        }
        if m < i {
            assert(p1[m] == p2[m]);
        }
        assert(j > i);
        assert(m > i);
        lemma_stable_order_increasing(p2, keys, i, j);
        lemma_stable_order_increasing(p1, keys, i, m);
        lemma_key_asymmetric(keys[a], keys[b]);
        lemma_key_irreflexive(keys[a]);
    }
}

/// The stable sort of items by keys is unique: whatever sorted them, the
/// order is the same.
pub proof fn lemma_stable_sort_unique<T>(out1: Seq<T>, out2: Seq<T>, inp: Seq<T>, keys: Seq<(bool, Seq<u8>)>)
    requires
        is_stable_sort(out1, inp, keys),
        is_stable_sort(out2, inp, keys),
    ensures
        out1 == out2,
{
    let p1 = choose|perm: Seq<int>|
        #![trigger is_stable_order(perm, keys)]
        is_stable_order(perm, keys) && keys.len() == inp.len() && out1.len() == inp.len()
            && forall|i: int| 0 <= i < out1.len() ==> out1[i] == inp[#[trigger] perm[i]];
    let p2 = choose|perm: Seq<int>|
        #![trigger is_stable_order(perm, keys)]
        is_stable_order(perm, keys) && keys.len() == inp.len() && out2.len() == inp.len()
            && forall|i: int| 0 <= i < out2.len() ==> out2[i] == inp[#[trigger] perm[i]];
    if keys.len() > 0 {
        lemma_stable_orders_agree_upto(p1, p2, keys, keys.len() - 1);
    }
    assert forall|i: int| 0 <= i < out1.len() implies out1[i] == out2[i] by {
        assert(out1[i] == inp[p1[i]]);
        assert(out2[i] == inp[p2[i]]);
    }
    assert(out1 =~= out2);
}

/// Compares two sort keys in listing order.
pub fn key_less(a: &SortKey, b: &SortKey) -> (r: bool)
    ensures
        r == key_lt(a@, b@),
{
    if a.is_dir != b.is_dir {
        a.is_dir
    } else {
        bytes_less(a.name.as_slice(), b.name.as_slice())
    }
}

proof fn lemma_before_irreflexive(keys: Seq<(bool, Seq<u8>)>, a: int)
    ensures
        !index_before(keys, a, a),
{
    lemma_key_irreflexive(keys[a]);
}

proof fn lemma_before_total(keys: Seq<(bool, Seq<u8>)>, a: int, b: int)
    requires
        a != b,
    ensures
        index_before(keys, a, b) || index_before(keys, b, a),
{
    lemma_key_total(keys[a], keys[b]);
}

proof fn lemma_before_transitive(keys: Seq<(bool, Seq<u8>)>, a: int, b: int, c: int)
    requires
        index_before(keys, a, b),
        index_before(keys, b, c),
    ensures
        index_before(keys, a, c),
{
    if key_lt(keys[a], keys[b]) && key_lt(keys[b], keys[c]) {
        lemma_key_transitive(keys[a], keys[b], keys[c]);
    }
}

/// The indices `s` run strictly ascending in the stable order of `keys`.
pub open spec fn index_sorted(keys: Seq<(bool, Seq<u8>)>, s: Seq<usize>) -> bool {
    forall|i: int, j: int| 0 <= i < j < s.len() ==> index_before(keys, #[trigger] s[i] as int, #[trigger] s[j] as int)
}

/// Every index of `s` is below `n`.
pub open spec fn indices_below(s: Seq<usize>, n: nat) -> bool {
    forall|i: int| 0 <= i < s.len() ==> #[trigger] s[i] < n
}

/// Whether index `a` comes before index `b` in the stable order of `keys`.
fn index_less(keys: &Vec<SortKey>, a: usize, b: usize) -> (r: bool)
    requires
        a < keys@.len(),
        b < keys@.len(),
    ensures
        r == index_before(key_views(keys@), a as int, b as int),
{
    let ghost ks = key_views(keys@);
    assert(ks[a as int] == keys@[a as int]@);
    assert(ks[b as int] == keys@[b as int]@);
    proof {
        lemma_key_total(ks[a as int], ks[b as int]);
        lemma_key_asymmetric(ks[a as int], ks[b as int]);
        lemma_key_irreflexive(ks[a as int]);
    }
    key_less(&keys[a], &keys[b]) || (!key_less(&keys[b], &keys[a]) && a < b)
}

/// Merges two runs of indices, each ascending in the stable order of `keys`
/// and sharing no index, into one ascending run.
fn merge_indices(keys: &Vec<SortKey>, left: &Vec<usize>, right: &Vec<usize>) -> (r: Vec<usize>)
    requires
        indices_below(left@, keys@.len()),
        indices_below(right@, keys@.len()),
        index_sorted(key_views(keys@), left@),
        index_sorted(key_views(keys@), right@),
        forall|i: int, j: int| 0 <= i < left@.len() && 0 <= j < right@.len() ==> #[trigger] left@[i] != #[trigger] right@[j],
    ensures
        indices_below(r@, keys@.len()),
        index_sorted(key_views(keys@), r@),
        r@.to_multiset() == left@.to_multiset().add(right@.to_multiset()),
{
    broadcast use vstd::seq_lib::group_to_multiset_ensures, vstd::multiset::group_multiset_axioms;
    let ghost ks = key_views(keys@);
    let mut r: Vec<usize> = Vec::new();
    let mut i: usize = 0;
    let mut j: usize = 0;
    while i < left.len() || j < right.len()
        invariant
            ks == key_views(keys@),
            indices_below(left@, keys@.len()),
            indices_below(right@, keys@.len()),
            index_sorted(ks, left@),
            index_sorted(ks, right@),
            forall|a: int, b: int| 0 <= a < left@.len() && 0 <= b < right@.len() ==> #[trigger] left@[a] != #[trigger] right@[b],
            i <= left@.len(),
            j <= right@.len(),
            indices_below(r@, keys@.len()),
            index_sorted(ks, r@),
            r@.to_multiset() == left@.take(i as int).to_multiset().add(right@.take(j as int).to_multiset()),
            forall|a: int, b: int| 0 <= a < r@.len() && i <= b < left@.len() ==> index_before(ks, #[trigger] r@[a] as int, #[trigger] left@[b] as int),
            forall|a: int, b: int| 0 <= a < r@.len() && j <= b < right@.len() ==> index_before(ks, #[trigger] r@[a] as int, #[trigger] right@[b] as int),
        decreases left@.len() - i + right@.len() - j,
    {
        let take_left = if i < left.len() && j < right.len() {
            index_less(keys, left[i], right[j])
        } else {
            i < left.len()
        };
        let ghost old_r = r@;
        let x = if take_left {
            left[i]
        } else {
            right[j]
        };
        proof {
            // The index taken comes before every index still to be taken.
            if take_left {
                assert forall|b: int| i < b < left@.len() implies index_before(ks, x as int, #[trigger] left@[b] as int) by {}
                if j < right@.len() {
                    assert forall|b: int| j <= b < right@.len() implies index_before(ks, x as int, #[trigger] right@[b] as int) by {
                        if b > j {
                            lemma_before_transitive(ks, x as int, right@[j as int] as int, right@[b] as int);
                        }
                    }
                }
            } else {
                assert forall|b: int| j < b < right@.len() implies index_before(ks, x as int, #[trigger] right@[b] as int) by {}
                if i < left@.len() {
                    assert(left@[i as int] != right@[j as int]);
                    lemma_before_total(ks, left@[i as int] as int, right@[j as int] as int);
                    assert forall|b: int| i <= b < left@.len() implies index_before(ks, x as int, #[trigger] left@[b] as int) by {
                        if b > i {
                            lemma_before_transitive(ks, x as int, left@[i as int] as int, left@[b] as int);
                        }
                    }
                }
            }
        }
        r.push(x);
        proof {
            assert(r@ == old_r.push(x));
            assert forall|a: int, b: int| 0 <= a < b < r@.len() implies index_before(ks, #[trigger] r@[a] as int, #[trigger] r@[b] as int) by {
                if b < old_r.len() {
                    assert(r@[a] == old_r[a] && r@[b] == old_r[b]);
                } else {
                    assert(r@[a] == old_r[a]);
                    if take_left {
                        assert(index_before(ks, old_r[a] as int, left@[i as int] as int));
                    } else {
                        assert(index_before(ks, old_r[a] as int, right@[j as int] as int));
                    }
                }
            }
        }
        if take_left {
            proof {
                assert(left@.take(i + 1) =~= left@.take(i as int).push(x));
                vstd::seq_lib::to_multiset_build(old_r, x);
                vstd::seq_lib::to_multiset_build(left@.take(i as int), x);
                assert(r@.to_multiset() =~= left@.take(i + 1).to_multiset().add(right@.take(j as int).to_multiset()));
            }
            i = i + 1;
        } else {
            proof {
                assert(right@.take(j + 1) =~= right@.take(j as int).push(x));
                vstd::seq_lib::to_multiset_build(old_r, x);
                vstd::seq_lib::to_multiset_build(right@.take(j as int), x);
                assert(r@.to_multiset() =~= left@.take(i as int).to_multiset().add(right@.take(j + 1).to_multiset()));
            }
            j = j + 1;
        }
        proof {
            assert forall|a: int, b: int| 0 <= a < r@.len() && i <= b < left@.len() implies index_before(ks, #[trigger] r@[a] as int, #[trigger] left@[b] as int) by {
                if a < old_r.len() {
                    assert(r@[a] == old_r[a]);
                }
            }
            assert forall|a: int, b: int| 0 <= a < r@.len() && j <= b < right@.len() implies index_before(ks, #[trigger] r@[a] as int, #[trigger] right@[b] as int) by {
                if a < old_r.len() {
                    assert(r@[a] == old_r[a]);
                }
            }
        }
    }
    assert(left@.take(left@.len() as int) =~= left@);
    assert(right@.take(right@.len() as int) =~= right@);
    r
}

/// Copies `s[lo..hi]`.
fn copy_range(s: &Vec<usize>, lo: usize, hi: usize) -> (r: Vec<usize>)
    requires
        lo <= hi <= s@.len(),
    ensures
        r@ == s@.subrange(lo as int, hi as int),
{
    let mut r: Vec<usize> = Vec::new();
    let mut k: usize = lo;
    while k < hi
        invariant
            lo <= k <= hi <= s@.len(),
            r@ == s@.subrange(lo as int, k as int),
        decreases hi - k,
    {
        r.push(s[k]);
        assert(r@ =~= s@.subrange(lo as int, k + 1));
        k = k + 1;
    }
    r
}

/// Sorts distinct indices into the stable order of `keys` (merge sort).
fn sort_indices(keys: &Vec<SortKey>, idx: Vec<usize>) -> (r: Vec<usize>)
    requires
        indices_below(idx@, keys@.len()),
        idx@.no_duplicates(),
    ensures
        indices_below(r@, keys@.len()),
        index_sorted(key_views(keys@), r@),
        r@.to_multiset() == idx@.to_multiset(),
    decreases idx@.len(),
{
    broadcast use vstd::seq_lib::group_to_multiset_ensures;
    let n = idx.len();
    if n <= 1 {
        return idx;
    }
    let mid = n / 2;
    let left = copy_range(&idx, 0, mid);
    let right = copy_range(&idx, mid, n);
    assert(idx@ =~= left@ + right@);
    proof {
        vstd::seq_lib::lemma_multiset_commutative(left@, right@);
    }
    let sl = sort_indices(keys, left);
    let sr = sort_indices(keys, right);
    assert forall|a: int, b: int| 0 <= a < sl@.len() && 0 <= b < sr@.len() implies #[trigger] sl@[a] != #[trigger] sr@[b] by {
        assert(sl@.to_multiset().count(sl@[a]) > 0);
        assert(sr@.to_multiset().count(sr@[b]) > 0);
        if sl@[a] == sr@[b] {
            let v = sl@[a];
            assert(idx@.subrange(0, mid as int).contains(v));
            assert(idx@.subrange(mid as int, n as int).contains(v));
            let a0 = choose|a0: int| 0 <= a0 < mid && idx@.subrange(0, mid as int)[a0] == v;
            let b0 = choose|b0: int| 0 <= b0 < n - mid && idx@.subrange(mid as int, n as int)[b0] == v;
            assert(idx@[a0] == idx@[mid + b0]);
        }
    }
    merge_indices(keys, &sl, &sr)
}

/// Sorted distinct indices, all below `n` and as many as there are, list
/// each index below `n` once, in the stable order of `keys`.
proof fn lemma_sorted_indices_order(perm: Seq<usize>, keys: Seq<(bool, Seq<u8>)>)
    requires
        keys.len() <= usize::MAX,
        index_sorted(keys, perm),
        indices_below(perm, keys.len()),
        perm.to_multiset() == Seq::new(keys.len(), |i: int| i as usize).to_multiset(),
    ensures
        is_stable_order(perm.map_values(|x: usize| x as int), keys),
{
    broadcast use vstd::seq_lib::group_to_multiset_ensures;
    let n = keys.len();
    let all = Seq::new(n, |i: int| i as usize);
    let p = perm.map_values(|x: usize| x as int);
    assert(perm.to_multiset().len() == all.to_multiset().len());
    assert(perm.len() == all.len());
    assert forall|i: int, j: int| 0 <= i < n && 0 <= j < n && i != j implies p[i] != p[j] by {
        if i < j {
            assert(index_before(keys, perm[i] as int, perm[j] as int));
        } else {
            assert(index_before(keys, perm[j] as int, perm[i] as int));
        }
        lemma_before_irreflexive(keys, p[i]);
    }
    assert forall|a: int| 0 <= a < n implies #[trigger] occurs_in(p, a) by {
        assert(all[a] == a as usize);
        assert(all.contains(a as usize));
        assert(all.to_multiset().count(a as usize) > 0);
        assert(perm.to_multiset().count(a as usize) > 0);
        assert(perm.contains(a as usize));
        let i = choose|i: int| 0 <= i < perm.len() && perm[i] == a as usize;
        assert(p[i] == a);
    }
    assert forall|i: int, j: int| 0 <= i < j < p.len() implies !key_lt(keys[#[trigger] p[j]], keys[#[trigger] p[i]]) by {
        assert(index_before(keys, perm[i] as int, perm[j] as int));
        lemma_key_asymmetric(keys[p[i]], keys[p[j]]);
        lemma_key_irreflexive(keys[p[i]]);
    }
    assert forall|i: int, j: int| 0 <= i < j < p.len() && keys[#[trigger] p[i]] == keys[#[trigger] p[j]] implies p[i] < p[j] by {
        assert(index_before(keys, perm[i] as int, perm[j] as int));
        lemma_key_irreflexive(keys[p[i]]);
    }
}

/// Sorts `items` stably by `keys` (the `i`-th key belongs to the `i`-th item):
/// the indices are merge sorted by key, ties by position, and the items are
/// then taken in that order.
pub fn stable_sort_by_keys<T>(items: Vec<T>, keys: Vec<SortKey>) -> (out: Vec<T>)
    requires
        items@.len() == keys@.len(),
    ensures
        is_stable_sort(out@, items@, key_views(keys@)),
{
    let ghost inp = items@;
    let ghost ik = key_views(keys@);
    let n = items.len();
    let mut idx: Vec<usize> = Vec::new();
    for i in 0..n
        invariant
            n == inp.len(),
            idx@ == Seq::new(i as nat, |m: int| m as usize),
    {
        idx.push(i);
        assert(idx@ =~= Seq::new((i + 1) as nat, |m: int| m as usize));
    }
    assert(ik.len() == n);
    let perm = sort_indices(&keys, idx);
    proof {
        lemma_sorted_indices_order(perm@, ik);
    }
    let ghost p = perm@.map_values(|x: usize| x as int);
    // The items, last first, each in a slot that is emptied when taken.
    let mut items = items;
    let mut slots: Vec<Option<T>> = Vec::new();
    while items.len() > 0
        invariant
            n == inp.len(),
            items@ == inp.subrange(0, n - slots@.len()),
            slots@.len() <= n,
            forall|m: int| 0 <= m < slots@.len() ==> #[trigger] slots@[m] == Some(inp[n - 1 - m]),
        decreases items@.len(),
    {
        let ghost before = items@;
        let x = items.pop().unwrap();
        assert(x == inp[n - 1 - slots@.len()]);
        slots.push(Some(x));
        assert(items@ =~= inp.subrange(0, n - slots@.len()));
    }
    let mut out: Vec<T> = Vec::new();
    for k in 0..n
        invariant
            n == inp.len(),
            ik.len() == n,
            perm@.len() == n,
            p == perm@.map_values(|x: usize| x as int),
            is_stable_order(p, ik),
            slots@.len() == n,
            out@.len() == k,
            forall|m: int| 0 <= m < k ==> out@[m] == inp[#[trigger] p[m]],
            forall|j: int|
                0 <= j < n && (forall|m: int| 0 <= m < k ==> p[m] != j) ==> #[trigger] slots@[n - 1 - j]
                    == Some(inp[j]),
    {
        let j = perm[k];
        assert(p[k as int] == j as int);
        assert(0 <= p[k as int] < n);
        assert forall|m: int| 0 <= m < k implies p[m] != j by {
            assert(p[m] != p[k as int]);
        }
        let ghost old_slots = slots@;
        assert(old_slots[n - 1 - j] == Some(inp[j as int]));
        let mut taken: Option<T> = None;
        std::mem::swap(&mut slots[n - 1 - j], &mut taken);
        match taken {
            Some(x) => {
                out.push(x);
            },
            None => {
                assert(false);
            },
        }
        assert forall|jj: int|
            0 <= jj < n && (forall|m: int| 0 <= m < k + 1 ==> p[m] != jj) implies #[trigger] slots@[n - 1 - jj]
                == Some(inp[jj]) by {
            assert(p[k as int] != jj);
            assert(slots@[n - 1 - jj] == old_slots[n - 1 - jj]);
        }
    }
    assert(is_stable_order(p, ik) && ik.len() == inp.len() && out@.len() == inp.len()
        && forall|i: int| 0 <= i < out@.len() ==> out@[i] == inp[#[trigger] p[i]]);
    out
}

} // verus!
