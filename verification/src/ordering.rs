//! The order of names, and sorting by it.

use vstd::prelude::*;
use crate::text::chars_of;

verus! {

/// `a` comes before `b` or is `b`: at the first place at which they differ, `a`
/// ends or has the smaller code point. This is also the order of their bytes in
/// UTF-8.
pub open spec fn name_le(a: Seq<char>, b: Seq<char>) -> bool
    decreases a.len(),
{
    if a.len() == 0 {
        true
    } else if b.len() == 0 {
        false
    } else if a[0] != b[0] {
        a[0] < b[0]
    } else {
        name_le(a.drop_first(), b.drop_first())
    }
}

/// `a` comes before `b`.
pub open spec fn name_lt(a: Seq<char>, b: Seq<char>) -> bool {
    name_le(a, b) && a != b
}

/// Any two names are in order one way or the other.
pub proof fn lemma_name_le_total(a: Seq<char>, b: Seq<char>)
    ensures
        name_le(a, b) || name_le(b, a),
        a == b ==> name_le(a, b),
    decreases a.len(),
{
    if a.len() > 0 && b.len() > 0 && a[0] == b[0] {
        lemma_name_le_total(a.drop_first(), b.drop_first());
    }
}

/// Only a name itself is in order with it both ways.
pub proof fn lemma_name_le_antisymmetric(a: Seq<char>, b: Seq<char>)
    requires
        name_le(a, b),
        name_le(b, a),
    ensures
        a == b,
    decreases a.len(),
{
    if a.len() > 0 && b.len() > 0 {
        lemma_name_le_antisymmetric(a.drop_first(), b.drop_first());
        assert(a =~= seq![a[0]] + a.drop_first());
        assert(b =~= seq![b[0]] + b.drop_first());
    } else {
        assert(a =~= b);
    }
}

/// The order of names carries over.
pub proof fn lemma_name_le_transitive(a: Seq<char>, b: Seq<char>, c: Seq<char>)
    requires
        name_le(a, b),
        name_le(b, c),
    ensures
        name_le(a, c),
    decreases a.len(),
{
    if a.len() > 0 && b.len() > 0 && c.len() > 0 && a[0] == b[0] && b[0] == c[0] {
        lemma_name_le_transitive(a.drop_first(), b.drop_first(), c.drop_first());
    }
}

/// Whether `a` comes before `b` or is `b`.
pub fn compare_names(a: &Vec<char>, b: &Vec<char>) -> (r: bool)
    ensures
        r == name_le(a@, b@),
{
    let n: usize = a.len();
    let m: usize = b.len();
    let mut i: usize = 0;
    assert(a@.skip(0) =~= a@);
    assert(b@.skip(0) =~= b@);
    while i < n && i < m
        invariant
            i <= n,
            i <= m,
            n == a@.len(),
            m == b@.len(),
            name_le(a@, b@) == name_le(a@.skip(i as int), b@.skip(i as int)),
        decreases n - i,
    {
        let x: char = a[i];
        let y: char = b[i];
        if x != y {
            return x < y;
        }
        proof {
            assert(a@.skip(i as int).drop_first() =~= a@.skip(i as int + 1));
            assert(b@.skip(i as int).drop_first() =~= b@.skip(i as int + 1));
        }
        i += 1;
    }
    i == n
}

/// Index `a` comes before index `b` when `keys` are sorted: by the keys, and
/// where those are equal by the index.
pub open spec fn index_before(keys: Seq<Seq<char>>, a: int, b: int) -> bool {
    name_lt(keys[a], keys[b]) || (keys[a] == keys[b] && a < b)
}

/// `order` holds the indices `lo..hi`, sorted.
pub open spec fn sorted_range(keys: Seq<Seq<char>>, lo: int, hi: int, order: Seq<int>) -> bool {
    &&& order.len() == hi - lo
    &&& forall|x: int| lo <= x < hi <==> #[trigger] order.contains(x)
    &&& forall|i: int, j: int|
        0 <= i < j < order.len() ==> index_before(keys, #[trigger] order[i], #[trigger] order[j])
}

/// The indices of `keys`, sorted by their keys; equal keys stay in order.
pub open spec fn sorted_order(keys: Seq<Seq<char>>) -> Seq<int> {
    choose|order: Seq<int>| sorted_range(keys, 0, keys.len() as int, order)
}

/// No two indices come before each other.
proof fn lemma_before_asymmetric(keys: Seq<Seq<char>>, a: int, b: int)
    requires
        index_before(keys, a, b),
    ensures
        !index_before(keys, b, a),
        a != b,
{
    if keys[a] != keys[b] && name_le(keys[b], keys[a]) {
        lemma_name_le_antisymmetric(keys[a], keys[b]);
    }
}

proof fn lemma_before_transitive(keys: Seq<Seq<char>>, a: int, b: int, c: int)
    requires
        index_before(keys, a, b),
        index_before(keys, b, c),
    ensures
        index_before(keys, a, c),
{
    if name_lt(keys[a], keys[b]) && name_lt(keys[b], keys[c]) {
        lemma_name_le_transitive(keys[a], keys[b], keys[c]);
        if keys[a] == keys[c] {
            lemma_name_le_antisymmetric(keys[a], keys[b]);
        }
    }
}

/// There is only one way to sort.
proof fn lemma_sorted_unique(keys: Seq<Seq<char>>, a: Seq<int>, b: Seq<int>)
    requires
        forall|i: int, j: int|
            0 <= i < j < a.len() ==> index_before(keys, #[trigger] a[i], #[trigger] a[j]),
        forall|i: int, j: int|
            0 <= i < j < b.len() ==> index_before(keys, #[trigger] b[i], #[trigger] b[j]),
        forall|x: int| #[trigger] a.contains(x) <==> b.contains(x),
    ensures
        a == b,
    decreases a.len(),
{
    if a.len() == 0 {
        if b.len() > 0 {
            assert(b.contains(b[0]));
            assert(a.contains(b[0]));
        }
        assert(a =~= b);
    } else {
        assert(a.contains(a.last()));
        let j = choose|j: int| 0 <= j < b.len() && b[j] == a.last();
        assert(b.contains(b.last()));
        assert(a.contains(b.last()));
        let i = choose|i: int| 0 <= i < a.len() && a[i] == b.last();
        if i < a.len() - 1 && j < b.len() - 1 {
            lemma_before_asymmetric(keys, a[i], a[a.len() - 1]);
            assert(index_before(keys, b[j], b[b.len() - 1]));
        }
        assert(a.last() == b.last());
        let a2 = a.drop_last();
        let b2 = b.drop_last();
        assert forall|x: int| #[trigger] a2.contains(x) <==> b2.contains(x) by {
            if a2.contains(x) {
                let k = choose|k: int| 0 <= k < a2.len() && a2[k] == x;
                assert(a[k] == x);
                assert(a.contains(x));
                lemma_before_asymmetric(keys, a[k], a[a.len() - 1]);
                let m = choose|m: int| 0 <= m < b.len() && b[m] == x;
                assert(b2[m] == x);
            }
            if b2.contains(x) {
                let k = choose|k: int| 0 <= k < b2.len() && b2[k] == x;
                assert(b[k] == x);
                assert(b.contains(x));
                assert(a.contains(x));
                lemma_before_asymmetric(keys, b[k], b[b.len() - 1]);
                let m = choose|m: int| 0 <= m < a.len() && a[m] == x;
                assert(a2[m] == x);
            }
        }
        lemma_sorted_unique(keys, a2, b2);
        assert(a =~= a2.push(a.last()));
        assert(b =~= b2.push(b.last()));
    }
}

/// Indices as integers.
pub open spec fn as_ints(v: Seq<usize>) -> Seq<int> {
    v.map_values(|x: usize| x as int)
}

/// The characters of each key.
pub open spec fn key_views(keys: Seq<Vec<char>>) -> Seq<Seq<char>> {
    keys.map_values(|k: Vec<char>| k@)
}

/// Merges two sorted ranges that touch.
fn merge_orders(
    keys: &Vec<Vec<char>>,
    lo: usize,
    mid: usize,
    hi: usize,
    a: &Vec<usize>,
    b: &Vec<usize>,
) -> (r: Vec<usize>)
    requires
        lo <= mid <= hi <= keys@.len(),
        sorted_range(key_views(keys@), lo as int, mid as int, as_ints(a@)),
        sorted_range(key_views(keys@), mid as int, hi as int, as_ints(b@)),
    ensures
        sorted_range(key_views(keys@), lo as int, hi as int, as_ints(r@)),
{
    let ghost kv = key_views(keys@);
    let ghost ai = as_ints(a@);
    let ghost bi = as_ints(b@);
    let mut out: Vec<usize> = Vec::new();
    let n: usize = a.len();
    let m: usize = b.len();
    let mut i: usize = 0;
    let mut j: usize = 0;
    while i < n || j < m
        invariant
            kv == key_views(keys@),
            ai == as_ints(a@),
            bi == as_ints(b@),
            lo <= mid <= hi <= keys@.len(),
            sorted_range(kv, lo as int, mid as int, ai),
            sorted_range(kv, mid as int, hi as int, bi),
            i <= n,
            j <= m,
            n == a@.len(),
            m == b@.len(),
            out@.len() == i + j,
            forall|k: int| 0 <= k < out@.len() ==> lo <= #[trigger] out@[k] < hi,
            forall|k: int, l: int|
                0 <= k < l < out@.len() ==> index_before(
                    kv,
                    #[trigger] out@[k] as int,
                    #[trigger] out@[l] as int,
                ),
            forall|k: int, l: int|
                0 <= k < out@.len() && i <= l < n ==> index_before(
                    kv,
                    #[trigger] out@[k] as int,
                    #[trigger] ai[l],
                ),
            forall|k: int, l: int|
                0 <= k < out@.len() && j <= l < m ==> index_before(
                    kv,
                    #[trigger] out@[k] as int,
                    #[trigger] bi[l],
                ),
            forall|l: int| 0 <= l < i ==> out@.contains(#[trigger] a@[l]),
            forall|l: int| 0 <= l < j ==> out@.contains(#[trigger] b@[l]),
        decreases (n - i) + (m - j),
    {
        let ghost before = out@;
        proof {
            if i < n {
                assert(ai.contains(ai[i as int]));
            }
            if j < m {
                assert(bi.contains(bi[j as int]));
            }
        }
        let from_a: bool = if i >= n {
            false
        } else if j >= m {
            true
        } else {
            let le = compare_names(&keys[a[i]], &keys[b[j]]);
            proof {
                let x = ai[i as int];
                let y = bi[j as int];
                assert(kv[x] == keys@[x]@ && kv[y] == keys@[y]@);
                lemma_name_le_total(kv[x], kv[y]);
                assert(le ==> index_before(kv, x, y));
                assert(!le ==> index_before(kv, y, x));
                if le {
                    assert forall|l: int| j <= l < m implies index_before(kv, x, #[trigger] bi[l]) by {
                        if l > j {
                            lemma_before_transitive(kv, x, y, bi[l]);
                        }
                    }
                } else {
                    assert forall|l: int| i <= l < n implies index_before(kv, y, #[trigger] ai[l]) by {
                        if l > i {
                            lemma_before_transitive(kv, y, x, ai[l]);
                        }
                    }
                }
            }
            le
        };
        if from_a {
            out.push(a[i]);
            i += 1;
        } else {
            out.push(b[j]);
            j += 1;
        }
        proof {
            assert(out@.last() == out@[out@.len() - 1]);
            assert forall|l: int| 0 <= l < i implies out@.contains(#[trigger] a@[l]) by {
                if before.contains(a@[l]) {
                    let k = choose|k: int| 0 <= k < before.len() && before[k] == a@[l];
                    assert(out@[k] == a@[l]);
                } else {
                    assert(out@[out@.len() - 1] == a@[l]);
                }
            }
            assert forall|l: int| 0 <= l < j implies out@.contains(#[trigger] b@[l]) by {
                if before.contains(b@[l]) {
                    let k = choose|k: int| 0 <= k < before.len() && before[k] == b@[l];
                    assert(out@[k] == b@[l]);
                } else {
                    assert(out@[out@.len() - 1] == b@[l]);
                }
            }
        }
    }
    proof {
        let oi = as_ints(out@);
        assert forall|x: int| lo <= x < hi <==> #[trigger] oi.contains(x) by {
            if lo <= x < mid {
                assert(ai.contains(x));
                let l = choose|l: int| 0 <= l < ai.len() && ai[l] == x;
                assert(out@.contains(a@[l]));
                let k = choose|k: int| 0 <= k < out@.len() && out@[k] == a@[l];
                assert(oi[k] == x);
            } else if mid <= x < hi {
                assert(bi.contains(x));
                let l = choose|l: int| 0 <= l < bi.len() && bi[l] == x;
                assert(out@.contains(b@[l]));
                let k = choose|k: int| 0 <= k < out@.len() && out@[k] == b@[l];
                assert(oi[k] == x);
            }
            if oi.contains(x) {
                let k = choose|k: int| 0 <= k < oi.len() && oi[k] == x;
                assert(out@[k] == x);
            }
        }
    }
    out
}

fn sort_range(keys: &Vec<Vec<char>>, lo: usize, hi: usize) -> (r: Vec<usize>)
    requires
        lo <= hi <= keys@.len(),
    ensures
        sorted_range(key_views(keys@), lo as int, hi as int, as_ints(r@)),
    decreases hi - lo,
{
    let mut out: Vec<usize> = Vec::new();
    if hi - lo == 0 {
        return out;
    }
    if hi - lo == 1 {
        out.push(lo);
        proof {
            let oi = as_ints(out@);
            assert(oi[0] == lo);
            assert forall|x: int| lo <= x < hi <==> #[trigger] oi.contains(x) by {
                if x == lo {
                    assert(oi[0] == x);
                }
            }
        }
        return out;
    }
    let mid: usize = lo + (hi - lo) / 2;
    let a = sort_range(keys, lo, mid);
    let b = sort_range(keys, mid, hi);
    merge_orders(keys, lo, mid, hi, &a, &b)
}

/// Sorts the indices of `keys`.
pub fn sort_keys(keys: &Vec<Vec<char>>) -> (r: Vec<usize>)
    ensures
        as_ints(r@) == sorted_order(key_views(keys@)),
        sorted_range(key_views(keys@), 0, keys@.len() as int, as_ints(r@)),
{
    let n: usize = keys.len();
    let r = sort_range(keys, 0, n);
    proof {
        let kv = key_views(keys@);
        let other = sorted_order(kv);
        assert(sorted_range(kv, 0, kv.len() as int, as_ints(r@)));
        assert(sorted_range(kv, 0, kv.len() as int, other));
        assert forall|x: int| #[trigger] as_ints(r@).contains(x) <==> other.contains(x) by {
            assert((0 <= x < kv.len()) <==> other.contains(x));
        }
        lemma_sorted_unique(kv, as_ints(r@), other);
    }
    r
}

/// Every set of keys can be sorted.
pub proof fn lemma_can_be_sorted(keys: Seq<Seq<char>>)
    ensures
        sorted_range(keys, 0, keys.len() as int, sorted_order(keys)),
{
    lemma_sorting_exists(keys, keys.len() as int);
}

proof fn lemma_sorting_exists(keys: Seq<Seq<char>>, n: int)
    requires
        0 <= n <= keys.len(),
    ensures
        exists|order: Seq<int>| sorted_range(keys, 0, n, order),
    decreases n,
{
    if n == 0 {
        let e = Seq::<int>::empty();
        assert(sorted_range(keys, 0, 0, e));
    } else {
        lemma_sorting_exists(keys, n - 1);
        let top = n - 1;
        let o = choose|order: Seq<int>| sorted_range(keys, 0, top, order);
        let k = place_of(keys, o, n - 1, 0);
        lemma_place_of(keys, o, n - 1, 0);
        let p = o.insert(k, n - 1);
        assert forall|i: int, j: int| 0 <= i < j < p.len() implies index_before(
            keys,
            #[trigger] p[i],
            #[trigger] p[j],
        ) by {
            if i < k && j == k {
                assert(o.contains(o[i]));
            } else if i == k {
                let m = j - 1;
                assert(o.contains(o[k]) && o.contains(o[m]));
                lemma_name_le_total(keys[n - 1], keys[o[k]]);
                if m > k {
                    lemma_before_transitive(keys, n - 1, o[k], o[m]);
                }
            }
        }
        assert forall|x: int| 0 <= x < n <==> #[trigger] p.contains(x) by {
            if 0 <= x < n - 1 {
                assert(o.contains(x));
                let i = choose|i: int| 0 <= i < o.len() && o[i] == x;
                assert(p[if i < k {
                    i
                } else {
                    i + 1
                }] == x);
            }
            if x == n - 1 {
                assert(p[k] == x);
            }
            if p.contains(x) {
                let i = choose|i: int| 0 <= i < p.len() && p[i] == x;
                if i != k {
                    assert(o.contains(o[if i < k {
                        i
                    } else {
                        i - 1
                    }]));
                }
            }
        }
        assert(sorted_range(keys, 0, n, p));
    }
}

/// The first place from `i` on at which `x` may be put.
spec fn place_of(keys: Seq<Seq<char>>, o: Seq<int>, x: int, i: int) -> int
    decreases o.len() - i,
{
    if i < 0 || i >= o.len() {
        o.len() as int
    } else if index_before(keys, o[i], x) {
        place_of(keys, o, x, i + 1)
    } else {
        i
    }
}

proof fn lemma_place_of(keys: Seq<Seq<char>>, o: Seq<int>, x: int, i: int)
    requires
        0 <= i <= o.len(),
    ensures
        i <= place_of(keys, o, x, i) <= o.len(),
        forall|j: int| i <= j < place_of(keys, o, x, i) ==> index_before(keys, #[trigger] o[j], x),
        place_of(keys, o, x, i) < o.len() ==> !index_before(keys, o[place_of(keys, o, x, i)], x),
    decreases o.len() - i,
{
    if i < o.len() && index_before(keys, o[i], x) {
        lemma_place_of(keys, o, x, i + 1);
    }
}

/// The keys of a list of names.
pub fn keys_of(names: &Vec<String>) -> (r: Vec<Vec<char>>)
    ensures
        key_views(r@) == crate::text::views(names@),
{
    let mut out: Vec<Vec<char>> = Vec::new();
    let mut i: usize = 0;
    while i < names.len()
        invariant
            i <= names@.len(),
            out@.len() == i,
            forall|j: int| 0 <= j < i ==> #[trigger] out@[j]@ == names@[j]@,
        decreases names@.len() - i,
    {
        out.push(chars_of(names[i].as_str()));
        i += 1;
    }
    assert(key_views(out@) =~= crate::text::views(names@));
    out
}

} // verus!
