//! The mode classifier.
//!
//! Values are tallied by their canonical decimal key, values that occur
//! only once are discarded, and the rest are reported in ascending
//! numeric order, in a shape that tells how many there are: none, one,
//! two, three, or four and more.

use vstd::prelude::*;

use crate::count::{
    count_of, lemma_count_contains, lemma_count_le_len, lemma_count_take_step_all,
};
use crate::key_order::{
    key_le, key_le_bytes, key_lt, keys_equal, lemma_key_le_total, lemma_key_le_transitive,
};
use crate::number::{lemma_count_of_keys, lemma_key_injective, Number};

verus! {

/// Outcome of the mode classifier.  `NoMode` reports that no value occurs
/// more than once.
#[derive(Debug, PartialEq)]
pub enum Mode<T> {
    NoMode,
    Unimodal(T),
    Bimodal(T, T),
    Trimodal(T, T, T),
    Multimodal(Vec<T>),
}

/// The byte strings held by a sequence of byte vectors.
pub open spec fn key_views(ks: Seq<Vec<u8>>) -> Seq<Seq<u8>> {
    ks.map_values(|k: Vec<u8>| k@)
}

/// Some element of `s` holds the byte string `k`.
pub open spec fn has_key(s: Seq<Vec<u8>>, k: Seq<u8>) -> bool {
    exists|i: int| 0 <= i < s.len() && (#[trigger] s[i])@ == k
}

/// One tally entry: a canonical key and how often it has occurred.
struct KeyBucket {
    key: Vec<u8>,
    count: usize,
}

/// The tally holds each key of `ks` exactly once, with its exact count.
spec fn tally_inv(bs: Seq<KeyBucket>, ks: Seq<Seq<u8>>) -> bool {
    &&& forall|i: int|
        0 <= i < bs.len() ==> count_of(ks, (#[trigger] bs[i]).key@) == bs[i].count
            && bs[i].count >= 1
    &&& forall|i: int, j: int|
        0 <= i < j < bs.len() ==> (#[trigger] bs[i]).key@ != (#[trigger] bs[j]).key@
    &&& forall|k: Seq<u8>|
        #[trigger] count_of(ks, k) >= 1 ==> exists|i: int|
            0 <= i < bs.len() && (#[trigger] bs[i]).key@ == k
}

/// Copies a byte string.
fn clone_key(k: &Vec<u8>) -> (r: Vec<u8>)
    ensures
        r@ == k@,
{
    let n = k.len();
    let mut r: Vec<u8> = Vec::new();
    let mut i: usize = 0;
    while i < n
        invariant
            0 <= i <= n,
            n == k@.len(),
            r@ == k@.take(i as int),
        decreases n - i,
    {
        r.push(k[i]);
        proof {
            assert(k@.take(i + 1) =~= k@.take(i as int).push(k@[i as int]));
        }
        i += 1;
    }
    proof {
        assert(k@.take(n as int) =~= k@);
    }
    r
}

/// Index of the tally entry holding `key`, if any.
fn find_bucket(bs: &Vec<KeyBucket>, key: &Vec<u8>) -> (r: Option<usize>)
    ensures
        match r {
            Some(j) => 0 <= j < bs@.len() && bs@[j as int].key@ == key@,
            None => forall|i: int| 0 <= i < bs@.len() ==> (#[trigger] bs@[i]).key@ != key@,
        },
{
    let n = bs.len();
    let mut j: usize = 0;
    while j < n
        invariant
            0 <= j <= n,
            n == bs@.len(),
            forall|i: int| 0 <= i < j ==> (#[trigger] bs@[i]).key@ != key@,
        decreases n - j,
    {
        if keys_equal(&bs[j].key, key) {
            return Some(j);
        }
        j += 1;
    }
    None
}

/// Tallies how often each key occurs.
fn tally_keys(keys: &Vec<Vec<u8>>) -> (bs: Vec<KeyBucket>)
    ensures
        tally_inv(bs@, key_views(keys@)),
{
    let ghost ks = key_views(keys@);
    let n = keys.len();
    let mut bs: Vec<KeyBucket> = Vec::new();
    let mut idx: usize = 0;
    while idx < n
        invariant
            0 <= idx <= n,
            n == keys@.len(),
            tally_inv(bs@, key_views(keys@).take(idx as int)),
        decreases n - idx,
    {
        let ghost ks = key_views(keys@);
        let ghost pre = ks.take(idx as int);
        let ghost post = ks.take(idx as int + 1);
        proof {
            lemma_count_take_step_all::<Seq<u8>>(ks, idx as int);
            assert(ks[idx as int] == keys@[idx as int]@);
        }
        match find_bucket(&bs, &keys[idx]) {
            Some(j) => {
                let c = bs[j].count;
                proof {
                    lemma_count_le_len(pre, bs@[j as int].key@);
                }
                let k2 = clone_key(&bs[j].key);
                let ghost old_bs = bs@;
                bs.set(j, KeyBucket { key: k2, count: c + 1 });
                proof {
                    assert forall|i: int| 0 <= i < bs@.len() implies count_of(
                        post,
                        (#[trigger] bs@[i]).key@,
                    ) == bs@[i].count && bs@[i].count >= 1 by {
                        if i == j {
                            assert(bs@[i].key@ == keys@[idx as int]@);
                        } else {
                            assert(bs@[i] == old_bs[i]);
                            assert(old_bs[i].key@ != old_bs[j as int].key@);
                        }
                    }
                    assert forall|k: Seq<u8>| #[trigger]
                        count_of(post, k) >= 1 implies exists|i: int|
                        0 <= i < bs@.len() && (#[trigger] bs@[i]).key@ == k by {
                        if count_of(pre, k) >= 1 {
                            let w = choose|i: int|
                                0 <= i < old_bs.len() && (#[trigger] old_bs[i]).key@ == k;
                            assert(bs@[w].key@ == k);
                        } else {
                            assert(k == keys@[idx as int]@);
                            assert(bs@[j as int].key@ == k);
                        }
                    }
                }
            },
            None => {
                let k2 = clone_key(&keys[idx]);
                let ghost old_bs = bs@;
                bs.push(KeyBucket { key: k2, count: 1 });
                proof {
                    assert(count_of(pre, keys@[idx as int]@) == 0) by {
                        if count_of(pre, keys@[idx as int]@) >= 1 {
                            let w = choose|i: int|
                                0 <= i < old_bs.len() && (#[trigger] old_bs[i]).key@
                                    == keys@[idx as int]@;
                        }
                    }
                    assert forall|i: int| 0 <= i < bs@.len() implies count_of(
                        post,
                        (#[trigger] bs@[i]).key@,
                    ) == bs@[i].count && bs@[i].count >= 1 by {
                        if i < old_bs.len() {
                            assert(bs@[i] == old_bs[i]);
                        } else {
                            assert(bs@[i].key@ == keys@[idx as int]@);
                        }
                    }
                    assert forall|k: Seq<u8>| #[trigger]
                        count_of(post, k) >= 1 implies exists|i: int|
                        0 <= i < bs@.len() && (#[trigger] bs@[i]).key@ == k by {
                        if count_of(pre, k) >= 1 {
                            let w = choose|i: int|
                                0 <= i < old_bs.len() && (#[trigger] old_bs[i]).key@ == k;
                            assert(bs@[w].key@ == k);
                        } else {
                            assert(k == keys@[idx as int]@);
                            assert(bs@[old_bs.len() as int].key@ == k);
                        }
                    }
                }
            },
        }
        idx += 1;
    }
    proof {
        assert(ks.take(n as int) =~= ks);
    }
    bs
}

/// Some entry among the first `upto` tally entries holds `k` with a count
/// of at least two.
spec fn has_bucket(bs: Seq<KeyBucket>, upto: int, k: Seq<u8>) -> bool {
    exists|b: int| 0 <= b < upto && (#[trigger] bs[b]).key@ == k && bs[b].count >= 2
}

proof fn lemma_has_bucket_count(bs: Seq<KeyBucket>, upto: int, k: Seq<u8>, ks: Seq<Seq<u8>>)
    requires
        tally_inv(bs, ks),
        0 <= upto <= bs.len(),
        has_bucket(bs, upto, k),
    ensures
        count_of(ks, k) >= 2,
{
    let b = choose|b: int| 0 <= b < upto && (#[trigger] bs[b]).key@ == k && bs[b].count >= 2;
    assert(count_of(ks, bs[b].key@) == bs[b].count);
}

/// Keeps the keys that occur at least twice, one copy each.
fn select_repeated(bs: &Vec<KeyBucket>, Ghost(ks): Ghost<Seq<Seq<u8>>>) -> (r: Vec<Vec<u8>>)
    requires
        tally_inv(bs@, ks),
    ensures
        forall|i: int| 0 <= i < r@.len() ==> count_of(ks, (#[trigger] r@[i])@) >= 2,
        forall|i: int, j: int| 0 <= i < j < r@.len() ==> (#[trigger] r@[i])@ != (#[trigger] r@[j])@,
        forall|k: Seq<u8>| #[trigger] count_of(ks, k) >= 2 ==> has_key(r@, k),
{
    let n = bs.len();
    let mut r: Vec<Vec<u8>> = Vec::new();
    let mut i: usize = 0;
    while i < n
        invariant
            0 <= i <= n,
            n == bs@.len(),
            tally_inv(bs@, ks),
            forall|x: int| 0 <= x < r@.len() ==> has_bucket(bs@, i as int, (#[trigger] r@[x])@),
            forall|b: int|
                0 <= b < i && (#[trigger] bs@[b]).count >= 2 ==> has_key(r@, bs@[b].key@),
            forall|x: int, y: int|
                0 <= x < y < r@.len() ==> (#[trigger] r@[x])@ != (#[trigger] r@[y])@,
        decreases n - i,
    {
        let c = bs[i].count;
        if c >= 2 {
            let k2 = clone_key(&bs[i].key);
            let ghost old_r = r@;
            r.push(k2);
            proof {
                assert forall|x: int| 0 <= x < r@.len() implies has_bucket(
                    bs@,
                    i + 1,
                    (#[trigger] r@[x])@,
                ) by {
                    if x < old_r.len() {
                        assert(has_bucket(bs@, i as int, old_r[x]@));
                        let b = choose|b: int|
                            0 <= b < i && (#[trigger] bs@[b]).key@ == old_r[x]@ && bs@[b].count
                                >= 2;
                        assert(0 <= b < i + 1 && bs@[b].key@ == r@[x]@ && bs@[b].count >= 2);
                    } else {
                        assert(bs@[i as int].key@ == r@[x]@ && bs@[i as int].count >= 2);
                    }
                }
                assert forall|x: int, y: int| 0 <= x < y < r@.len() implies (#[trigger] r@[x])@
                    != (#[trigger] r@[y])@ by {
                    if y == old_r.len() as int {
                        assert(has_bucket(bs@, i as int, old_r[x]@));
                        let b = choose|b: int|
                            0 <= b < i && (#[trigger] bs@[b]).key@ == old_r[x]@ && bs@[b].count
                                >= 2;
                        assert(bs@[b].key@ != bs@[i as int].key@);
                    }
                }
                assert forall|b: int|
                    0 <= b < i + 1 && (#[trigger] bs@[b]).count >= 2 implies has_key(
                    r@,
                    bs@[b].key@,
                ) by {
                    if b < i {
                        let w = choose|w: int|
                            0 <= w < old_r.len() && (#[trigger] old_r[w])@ == bs@[b].key@;
                        assert(r@[w]@ == bs@[b].key@);
                    } else {
                        assert(r@[old_r.len() as int]@ == bs@[b].key@);
                    }
                }
            }
        } else {
            proof {
                assert forall|x: int| 0 <= x < r@.len() implies has_bucket(
                    bs@,
                    i + 1,
                    (#[trigger] r@[x])@,
                ) by {
                    assert(has_bucket(bs@, i as int, r@[x]@));
                    let b = choose|b: int|
                        0 <= b < i && (#[trigger] bs@[b]).key@ == r@[x]@ && bs@[b].count >= 2;
                    assert(0 <= b < i + 1 && bs@[b].key@ == r@[x]@ && bs@[b].count >= 2);
                }
            }
        }
        i += 1;
    }
    proof {
        assert forall|x: int| 0 <= x < r@.len() implies count_of(ks, (#[trigger] r@[x])@)
            >= 2 by {
            lemma_has_bucket_count(bs@, i as int, r@[x]@, ks);
        }
        assert forall|k: Seq<u8>| #[trigger] count_of(ks, k) >= 2 implies has_key(r@, k) by {
            let b = choose|b: int| 0 <= b < bs@.len() && (#[trigger] bs@[b]).key@ == k;
            assert(count_of(ks, bs@[b].key@) == bs@[b].count);
            assert(bs@[b].count >= 2);
        }
    }
    r
}

/// Every pair of keys is in order.
spec fn keys_sorted(s: Seq<Vec<u8>>) -> bool {
    forall|i: int, j: int| 0 <= i < j < s.len() ==> key_le((#[trigger] s[i])@, (#[trigger] s[j])@)
}

/// Index at which `x` belongs in the sorted `r`: everything before it is
/// no later than `x`, everything from it on is strictly later.
fn insert_position(r: &Vec<Vec<u8>>, x: &Vec<u8>) -> (p: usize)
    requires
        keys_sorted(r@),
    ensures
        0 <= p <= r@.len(),
        forall|i: int| 0 <= i < p ==> key_le((#[trigger] r@[i])@, x@),
        forall|i: int| p <= i < r@.len() ==> !key_le((#[trigger] r@[i])@, x@),
{
    let n = r.len();
    let mut p: usize = 0;
    while p < n
        invariant
            0 <= p <= n,
            n == r@.len(),
            keys_sorted(r@),
            forall|i: int| 0 <= i < p ==> key_le((#[trigger] r@[i])@, x@),
        decreases n - p,
    {
        if !key_le_bytes(&r[p], x) {
            proof {
                assert forall|i: int| p <= i < r@.len() implies !key_le((#[trigger] r@[i])@, x@) by {
                    if i > p && key_le(r@[i]@, x@) {
                        lemma_key_le_transitive(r@[p as int]@, r@[i]@, x@);
                    }
                }
            }
            return p;
        }
        p += 1;
    }
    p
}

/// Sorts pairwise-distinct keys lexicographically.
fn sort_keys(keys: Vec<Vec<u8>>) -> (r: Vec<Vec<u8>>)
    requires
        forall|i: int, j: int|
            0 <= i < j < keys@.len() ==> (#[trigger] keys@[i])@ != (#[trigger] keys@[j])@,
    ensures
        r@.len() == keys@.len(),
        keys_sorted(r@),
        forall|i: int, j: int| 0 <= i < j < r@.len() ==> (#[trigger] r@[i])@ != (#[trigger] r@[j])@,
        forall|k: Seq<u8>| #[trigger] has_key(keys@, k) <==> #[trigger] has_key(r@, k),
{
    let ghost orig = keys@;
    let mut rest = keys;
    let mut r: Vec<Vec<u8>> = Vec::new();
    while rest.len() > 0
        invariant
            r@.len() + rest@.len() == orig.len(),
            keys_sorted(r@),
            forall|i: int, j: int|
                0 <= i < j < r@.len() ==> (#[trigger] r@[i])@ != (#[trigger] r@[j])@,
            forall|i: int, j: int|
                0 <= i < j < rest@.len() ==> (#[trigger] rest@[i])@ != (#[trigger] rest@[j])@,
            forall|i: int, j: int|
                0 <= i < r@.len() && 0 <= j < rest@.len() ==> (#[trigger] r@[i])@
                    != (#[trigger] rest@[j])@,
            forall|k: Seq<u8>|
                #[trigger] has_key(orig, k) <==> (has_key(r@, k) || has_key(rest@, k)),
        decreases rest@.len(),
    {
        let ghost old_rest = rest@;
        let x = rest.remove(0);
        proof {
            old_rest.remove_ensures(0);
        }
        let p = insert_position(&r, &x);
        let ghost old_r = r@;
        r.insert(p, x);
        proof {
            old_r.insert_ensures(p as int, x);
            assert forall|i: int, j: int| 0 <= i < j < r@.len() implies key_le(
                (#[trigger] r@[i])@,
                (#[trigger] r@[j])@,
            ) by {
                if j < p {
                    assert(r@[i] == old_r[i] && r@[j] == old_r[j]);
                } else if i < p && j == p {
                    assert(r@[i] == old_r[i] && r@[j] == x);
                } else if i < p && j > p {
                    assert(r@[i] == old_r[i] && r@[j] == old_r[j - 1]);
                } else if i == p && j > p {
                    assert(r@[i] == x && r@[j] == old_r[j - 1]);
                    assert(!key_le(old_r[j - 1]@, x@));
                    lemma_key_le_total(x@, old_r[j - 1]@);
                } else {
                    assert(r@[i] == old_r[i - 1] && r@[j] == old_r[j - 1]);
                }
            }
            assert forall|i: int, j: int| 0 <= i < j < r@.len() implies (#[trigger] r@[i])@
                != (#[trigger] r@[j])@ by {
                assert(has_key(old_rest, x@)) by {
                    assert(old_rest[0] == x);
                }
                if i == p {
                    assert(r@[j] == old_r[j - 1]);
                    assert(!has_key(old_r, x@));
                    assert(old_r[j - 1]@ != x@) by {
                        if old_r[j - 1]@ == x@ {
                            assert(has_key(old_r, x@));
                        }
                    }
                } else if j == p {
                    assert(r@[i] == old_r[i]);
                    assert(old_r[i]@ != x@) by {
                        if old_r[i]@ == x@ {
                            assert(has_key(old_r, x@));
                        }
                    }
                } else {
                    let i0: int = if i < p {
                        i
                    } else {
                        i - 1
                    };
                    let j0: int = if j < p {
                        j
                    } else {
                        j - 1
                    };
                    assert(r@[i] == old_r[i0] && r@[j] == old_r[j0]);
                }
            }
            assert forall|i: int, j: int|
                0 <= i < r@.len() && 0 <= j < rest@.len() implies (#[trigger] r@[i])@
                != (#[trigger] rest@[j])@ by {
                assert(rest@[j] == old_rest[j + 1]);
                if i == p {
                    assert(r@[i] == x && x == old_rest[0]);
                } else {
                    let i0: int = if i < p {
                        i
                    } else {
                        i - 1
                    };
                    assert(r@[i] == old_r[i0]);
                }
            }
            assert forall|k: Seq<u8>| #[trigger]
                has_key(orig, k) <==> (has_key(r@, k) || has_key(rest@, k)) by {
                if has_key(orig, k) {
                    assert(has_key(old_r, k) || has_key(old_rest, k));
                    if has_key(old_r, k) {
                        let w = choose|w: int| 0 <= w < old_r.len() && (#[trigger] old_r[w])@ == k;
                        let w2: int = if w < p {
                            w
                        } else {
                            w + 1
                        };
                        assert(r@[w2]@ == k);
                    } else {
                        let w = choose|w: int|
                            0 <= w < old_rest.len() && (#[trigger] old_rest[w])@ == k;
                        if w == 0 {
                            assert(r@[p as int]@ == k);
                        } else {
                            assert(rest@[w - 1]@ == k);
                        }
                    }
                }
                if has_key(r@, k) {
                    let w = choose|w: int| 0 <= w < r@.len() && (#[trigger] r@[w])@ == k;
                    if w == p {
                        assert(old_rest[0]@ == k);
                        assert(has_key(old_rest, k));
                    } else {
                        let w0: int = if w < p {
                            w
                        } else {
                            w - 1
                        };
                        assert(old_r[w0]@ == k);
                        assert(has_key(old_r, k));
                    }
                }
                if has_key(rest@, k) {
                    let w = choose|w: int| 0 <= w < rest@.len() && (#[trigger] rest@[w])@ == k;
                    assert(old_rest[w + 1]@ == k);
                    assert(has_key(old_rest, k));
                }
            }
        }
    }
    r
}

/// The distinct byte strings that occur at least twice in `keys`, in
/// strictly ascending lexicographic order.  This is the whole frequency
/// phase of the mode classifier, working on canonical keys alone.
pub fn repeated_keys_sorted(keys: &Vec<Vec<u8>>) -> (r: Vec<Vec<u8>>)
    ensures
        forall|i: int| 0 <= i < r@.len() ==> count_of(key_views(keys@), (#[trigger] r@[i])@) >= 2,
        forall|i: int, j: int|
            0 <= i < j < r@.len() ==> key_lt((#[trigger] r@[i])@, (#[trigger] r@[j])@),
        forall|k: Seq<u8>| #[trigger] count_of(key_views(keys@), k) >= 2 ==> has_key(r@, k),
{
    let bs = tally_keys(keys);
    let sel = select_repeated(&bs, Ghost(key_views(keys@)));
    let r = sort_keys(sel);
    proof {
        assert forall|i: int| 0 <= i < r@.len() implies count_of(
            key_views(keys@),
            (#[trigger] r@[i])@,
        ) >= 2 by {
            assert(has_key(r@, r@[i]@));
            assert(has_key(sel@, r@[i]@));
            let w = choose|w: int| 0 <= w < sel@.len() && (#[trigger] sel@[w])@ == r@[i]@;
        }
        assert forall|k: Seq<u8>| #[trigger]
            count_of(key_views(keys@), k) >= 2 implies has_key(r@, k) by {
            assert(has_key(sel@, k));
        }
    }
    r
}

/// Index at which `x` belongs in `r`, sorted in ascending numeric
/// order: everything before it is no greater than `x`, everything from
/// it on is strictly greater.
fn insert_position_value<T: Number>(r: &Vec<T>, x: T) -> (p: usize)
    requires
        forall|i: int, j: int|
            0 <= i < j < r@.len() ==> (#[trigger] r@[i]).int_spec()
                <= (#[trigger] r@[j]).int_spec(),
    ensures
        0 <= p <= r@.len(),
        forall|i: int| 0 <= i < p ==> (#[trigger] r@[i]).int_spec() <= x.int_spec(),
        forall|i: int| p <= i < r@.len() ==> (#[trigger] r@[i]).int_spec() > x.int_spec(),
{
    let n = r.len();
    let mut p: usize = 0;
    while p < n
        invariant
            0 <= p <= n,
            n == r@.len(),
            forall|i: int, j: int|
                0 <= i < j < r@.len() ==> (#[trigger] r@[i]).int_spec()
                    <= (#[trigger] r@[j]).int_spec(),
            forall|i: int| 0 <= i < p ==> (#[trigger] r@[i]).int_spec() <= x.int_spec(),
        decreases n - p,
    {
        if !r[p].le(x) {
            proof {
                assert forall|i: int| p <= i < r@.len() implies (#[trigger] r@[i]).int_spec()
                    > x.int_spec() by {
                    if i > p {
                        assert(r@[p as int].int_spec() <= r@[i].int_spec());
                    }
                }
            }
            return p;
        }
        p += 1;
    }
    p
}

/// Sorts pairwise-distinct values into strictly ascending numeric order.
fn sort_values<T: Number>(vals: Vec<T>) -> (r: Vec<T>)
    requires
        forall|i: int, j: int| 0 <= i < j < vals@.len() ==> vals@[i] != vals@[j],
    ensures
        r@.len() == vals@.len(),
        forall|i: int, j: int|
            0 <= i < j < r@.len() ==> (#[trigger] r@[i]).int_spec()
                < (#[trigger] r@[j]).int_spec(),
        forall|v: T| vals@.contains(v) <==> r@.contains(v),
{
    let ghost orig = vals@;
    let mut rest = vals;
    let mut r: Vec<T> = Vec::new();
    while rest.len() > 0
        invariant
            r@.len() + rest@.len() == orig.len(),
            forall|i: int, j: int|
                0 <= i < j < r@.len() ==> (#[trigger] r@[i]).int_spec()
                    <= (#[trigger] r@[j]).int_spec(),
            forall|i: int, j: int| 0 <= i < j < r@.len() ==> r@[i] != r@[j],
            forall|i: int, j: int| 0 <= i < j < rest@.len() ==> rest@[i] != rest@[j],
            forall|i: int, j: int|
                0 <= i < r@.len() && 0 <= j < rest@.len() ==> r@[i] != rest@[j],
            forall|v: T| orig.contains(v) <==> (r@.contains(v) || rest@.contains(v)),
        decreases rest@.len(),
    {
        let ghost old_rest = rest@;
        let x = rest.remove(0);
        proof {
            old_rest.remove_ensures(0);
        }
        let p = insert_position_value(&r, x);
        let ghost old_r = r@;
        r.insert(p, x);
        proof {
            old_r.insert_ensures(p as int, x);
            assert forall|i: int, j: int| 0 <= i < j < r@.len() implies (#[trigger] r@[i]).int_spec()
                <= (#[trigger] r@[j]).int_spec() by {
                if j < p {
                    assert(r@[i] == old_r[i] && r@[j] == old_r[j]);
                } else if i < p && j == p {
                    assert(r@[i] == old_r[i] && r@[j] == x);
                } else if i < p && j > p {
                    assert(r@[i] == old_r[i] && r@[j] == old_r[j - 1]);
                } else if i == p && j > p {
                    assert(r@[i] == x && r@[j] == old_r[j - 1]);
                } else {
                    assert(r@[i] == old_r[i - 1] && r@[j] == old_r[j - 1]);
                }
            }
            assert(old_rest.contains(x)) by {
                assert(old_rest[0] == x);
            }
            assert(!old_r.contains(x)) by {
                if old_r.contains(x) {
                    let w = choose|w: int| 0 <= w < old_r.len() && old_r[w] == x;
                }
            }
            assert forall|i: int, j: int| 0 <= i < j < r@.len() implies r@[i] != r@[j] by {
                if i == p {
                    assert(r@[j] == old_r[j - 1]);
                    assert(old_r.contains(old_r[j - 1]));
                } else if j == p {
                    assert(r@[i] == old_r[i]);
                    assert(old_r.contains(old_r[i]));
                } else {
                    let i0: int = if i < p {
                        i
                    } else {
                        i - 1
                    };
                    let j0: int = if j < p {
                        j
                    } else {
                        j - 1
                    };
                    assert(r@[i] == old_r[i0] && r@[j] == old_r[j0]);
                }
            }
            assert forall|i: int, j: int|
                0 <= i < r@.len() && 0 <= j < rest@.len() implies r@[i] != rest@[j] by {
                assert(rest@[j] == old_rest[j + 1]);
                if i == p {
                    assert(r@[i] == x && x == old_rest[0]);
                } else {
                    let i0: int = if i < p {
                        i
                    } else {
                        i - 1
                    };
                    assert(r@[i] == old_r[i0]);
                }
            }
            assert forall|v: T|
                orig.contains(v) <==> (r@.contains(v) || rest@.contains(v)) by {
                if orig.contains(v) {
                    assert(old_r.contains(v) || old_rest.contains(v));
                    if old_r.contains(v) {
                        let w = choose|w: int| 0 <= w < old_r.len() && old_r[w] == v;
                        let w2: int = if w < p {
                            w
                        } else {
                            w + 1
                        };
                        assert(r@[w2] == v);
                    } else {
                        let w = choose|w: int| 0 <= w < old_rest.len() && old_rest[w] == v;
                        if w == 0 {
                            assert(r@[p as int] == v);
                        } else {
                            assert(rest@[w - 1] == v);
                        }
                    }
                }
                if r@.contains(v) {
                    let w = choose|w: int| 0 <= w < r@.len() && r@[w] == v;
                    if w == p {
                        assert(old_rest[0] == v);
                        assert(old_rest.contains(v));
                    } else {
                        let w0: int = if w < p {
                            w
                        } else {
                            w - 1
                        };
                        assert(old_r[w0] == v);
                        assert(old_r.contains(v));
                    }
                }
                if rest@.contains(v) {
                    let w = choose|w: int| 0 <= w < rest@.len() && rest@[w] == v;
                    assert(old_rest[w + 1] == v);
                    assert(old_rest.contains(v));
                }
            }
        }
    }
    proof {
        assert forall|i: int, j: int| 0 <= i < j < r@.len() implies (#[trigger] r@[i]).int_spec()
            < (#[trigger] r@[j]).int_spec() by {
            if r@[i].int_spec() == r@[j].int_spec() {
                T::lemma_int_injective(r@[i], r@[j]);
            }
        }
    }
    r
}

/// The distinct values that occur at least twice in `s`.
pub open spec fn repeated_values<T>(s: Seq<T>) -> Set<T> {
    Set::new(|v: T| count_of(s, v) >= 2)
}

/// What it means for `m` to be the mode of `s`: every reported value
/// occurs at least twice, the reported values are distinct, they stand in
/// strictly ascending numeric order, every value that occurs at least
/// twice is reported, and the shape matches how many there are.
pub open spec fn is_mode_of<T: Number>(s: Seq<T>, m: Mode<T>) -> bool {
    match m {
        Mode::NoMode => forall|v: T| #[trigger] count_of(s, v) < 2,
        Mode::Unimodal(a) => {
            &&& count_of(s, a) >= 2
            &&& forall|v: T| #[trigger] count_of(s, v) >= 2 ==> v == a
        },
        Mode::Bimodal(a, b) => {
            &&& count_of(s, a) >= 2
            &&& count_of(s, b) >= 2
            &&& a.int_spec() < b.int_spec()
            &&& forall|v: T| #[trigger] count_of(s, v) >= 2 ==> v == a || v == b
        },
        Mode::Trimodal(a, b, c) => {
            &&& count_of(s, a) >= 2
            &&& count_of(s, b) >= 2
            &&& count_of(s, c) >= 2
            &&& a.int_spec() < b.int_spec()
            &&& b.int_spec() < c.int_spec()
            &&& forall|v: T| #[trigger] count_of(s, v) >= 2 ==> v == a || v == b || v == c
        },
        Mode::Multimodal(vs) => {
            &&& vs@.len() >= 4
            &&& forall|i: int| 0 <= i < vs@.len() ==> count_of(s, #[trigger] vs@[i]) >= 2
            &&& forall|i: int, j: int|
                0 <= i < j < vs@.len() ==> (#[trigger] vs@[i]).int_spec()
                    < (#[trigger] vs@[j]).int_spec()
            &&& forall|v: T| #[trigger] count_of(s, v) >= 2 ==> vs@.contains(v)
        },
    }
}

/// The mode of `data`: the values that occur at least twice, keyed by
/// their canonical decimal rendering, reported in ascending numeric
/// order as one of five shapes.
pub fn mode<T: Number>(data: &[T]) -> (m: Mode<T>)
    ensures
        is_mode_of(data@, m),
{
    let ghost ks = data@.map_values(|x: T| x.key_spec());
    let n = data.len();
    let mut keys: Vec<Vec<u8>> = Vec::new();
    let mut i: usize = 0;
    while i < n
        invariant
            0 <= i <= n,
            n == data@.len(),
            keys@.len() == i,
            forall|j: int| 0 <= j < i ==> (#[trigger] keys@[j])@ == data@[j].key_spec(),
        decreases n - i,
    {
        let k = data[i].to_key();
        keys.push(k);
        i += 1;
    }
    proof {
        assert(key_views(keys@) =~= ks);
    }
    let sel = repeated_keys_sorted(&keys);
    let m = sel.len();
    let mut vals: Vec<T> = Vec::new();
    let mut i: usize = 0;
    while i < m
        invariant
            0 <= i <= m,
            m == sel@.len(),
            ks == data@.map_values(|x: T| x.key_spec()),
            vals@.len() == i,
            forall|j: int| 0 <= j < sel@.len() ==> count_of(ks, (#[trigger] sel@[j])@) >= 2,
            forall|x: int, y: int|
                0 <= x < y < sel@.len() ==> key_lt((#[trigger] sel@[x])@, (#[trigger] sel@[y])@),
            forall|k: Seq<u8>| #[trigger] count_of(ks, k) >= 2 ==> has_key(sel@, k),
            forall|j: int|
                0 <= j < i ==> (#[trigger] vals@[j]).key_spec() == sel@[j]@ && count_of(
                    data@,
                    vals@[j],
                ) >= 2,
        decreases m - i,
    {
        proof {
            lemma_count_contains(ks, sel@[i as int]@);
            let d = choose|d: int| 0 <= d < ks.len() && ks[d] == sel@[i as int]@;
            let w = data@[d];
            assert(w.key_spec() == sel@[i as int]@);
            w.lemma_key_round_trip();
            lemma_count_of_keys(data@, w);
        }
        match T::from_key(sel[i].as_slice()) {
            Some(v) => {
                vals.push(v);
            },
            _ => {
                // The round-trip law makes this arm unreachable: every
                // selected key is the rendering of some input value, and
                // rendering then parsing loses nothing.
                proof {
                    assert(false);
                }
                return Mode::NoMode;
            },
        }
        i += 1;
    }
    proof {
        assert forall|v: T| #[trigger] count_of(data@, v) >= 2 implies vals@.contains(v) by {
            lemma_count_of_keys(data@, v);
            assert(count_of(ks, v.key_spec()) >= 2);
            assert(has_key(sel@, v.key_spec()));
            let x = choose|x: int| 0 <= x < sel@.len() && (#[trigger] sel@[x])@ == v.key_spec();
            lemma_key_injective(vals@[x], v);
            assert(vals@[x] == v);
        }
        assert forall|x: int, y: int| 0 <= x < y < vals@.len() implies vals@[x] != vals@[y] by {
            assert(key_lt(sel@[x]@, sel@[y]@));
            assert(vals@[x].key_spec() == sel@[x]@);
            assert(vals@[y].key_spec() == sel@[y]@);
        }
    }
    let ghost pre_vals = vals@;
    let vals = sort_values(vals);
    proof {
        assert forall|j: int| 0 <= j < vals@.len() implies count_of(
            data@,
            #[trigger] vals@[j],
        ) >= 2 by {
            assert(vals@.contains(vals@[j]));
            assert(pre_vals.contains(vals@[j]));
            let w = choose|w: int| 0 <= w < pre_vals.len() && pre_vals[w] == vals@[j];
        }
        assert forall|v: T| #[trigger] count_of(data@, v) >= 2 implies vals@.contains(v) by {
            assert(pre_vals.contains(v));
        }
        assert forall|v: T| #[trigger]
            count_of(data@, v) >= 2 implies exists|j: int|
            0 <= j < vals@.len() && vals@[j] == v by {
            assert(vals@.contains(v));
            let j = choose|j: int| 0 <= j < vals@.len() && vals@[j] == v;
        }
    }
    if vals.len() == 0 {
        Mode::NoMode
    } else if vals.len() == 1 {
        Mode::Unimodal(vals[0])
    } else if vals.len() == 2 {
        Mode::Bimodal(vals[0], vals[1])
    } else if vals.len() == 3 {
        Mode::Trimodal(vals[0], vals[1], vals[2])
    } else {
        Mode::Multimodal(vals)
    }
}

/// The reported values, in reported order.
pub open spec fn mode_values<T>(m: Mode<T>) -> Seq<T> {
    match m {
        Mode::NoMode => Seq::empty(),
        Mode::Unimodal(a) => seq![a],
        Mode::Bimodal(a, b) => seq![a, b],
        Mode::Trimodal(a, b, c) => seq![a, b, c],
        Mode::Multimodal(vs) => vs@,
    }
}

/// The values stand in strictly ascending numeric order.
pub open spec fn values_sorted<T: Number>(vs: Seq<T>) -> bool {
    forall|i: int, j: int|
        0 <= i < j < vs.len() ==> (#[trigger] vs[i]).int_spec() < (#[trigger] vs[j]).int_spec()
}

/// Two sequences in ascending numeric order with the same members are
/// the same sequence.
proof fn lemma_sorted_same_members_equal<T: Number>(xs: Seq<T>, ys: Seq<T>)
    requires
        values_sorted(xs),
        values_sorted(ys),
        forall|v: T| xs.contains(v) <==> ys.contains(v),
    ensures
        xs == ys,
    decreases xs.len(),
{
    if xs.len() == 0 {
        if ys.len() > 0 {
            assert(ys.contains(ys[0]));
        }
        assert(xs =~= ys);
    } else {
        assert(xs.contains(xs[0]));
        assert(ys.contains(ys[0]));
        let j = choose|j: int| 0 <= j < ys.len() && ys[j] == xs[0];
        let i = choose|i: int| 0 <= i < xs.len() && xs[i] == ys[0];
        assert(xs[0] == ys[0]) by {
            if j > 0 {
                assert(ys[0].int_spec() < ys[j].int_spec());
                if i > 0 {
                    assert(xs[0].int_spec() < xs[i].int_spec());
                }
            }
        }
        let xt = xs.drop_first();
        let yt = ys.drop_first();
        assert forall|v: T| xt.contains(v) <==> yt.contains(v) by {
            if xt.contains(v) {
                let w = choose|w: int| 0 <= w < xt.len() && xt[w] == v;
                assert(xs[w + 1] == v);
                assert(xs[0].int_spec() < xs[w + 1].int_spec());
                assert(ys.contains(v));
                let y = choose|y: int| 0 <= y < ys.len() && ys[y] == v;
                assert(y != 0);
                assert(yt[y - 1] == v);
            }
            if yt.contains(v) {
                let w = choose|w: int| 0 <= w < yt.len() && yt[w] == v;
                assert(ys[w + 1] == v);
                assert(ys[0].int_spec() < ys[w + 1].int_spec());
                assert(xs.contains(v));
                let x = choose|x: int| 0 <= x < xs.len() && xs[x] == v;
                assert(x != 0);
                assert(xt[x - 1] == v);
            }
        }
        lemma_sorted_same_members_equal(xt, yt);
        assert forall|k: int| 0 <= k < xs.len() implies xs[k] == ys[k] by {
            if k > 0 {
                assert(xs[k] == xt[k - 1]);
                assert(ys[k] == yt[k - 1]);
            }
        }
        assert(xs =~= ys);
    }
}

/// The reported values of an outcome are in ascending numeric order and
/// are exactly the values that occur at least twice.
pub proof fn lemma_mode_values<T: Number>(s: Seq<T>, m: Mode<T>)
    requires
        is_mode_of(s, m),
    ensures
        values_sorted(mode_values(m)),
        forall|v: T| mode_values(m).contains(v) <==> count_of(s, v) >= 2,
        mode_values(m).len() == mode_len(m),
{
    let vs = mode_values(m);
    match m {
        Mode::NoMode => {
            assert forall|v: T| vs.contains(v) <==> count_of(s, v) >= 2 by {
                assert(!vs.contains(v));
            }
        },
        Mode::Unimodal(a) => {
            assert forall|v: T| vs.contains(v) <==> count_of(s, v) >= 2 by {
                if vs.contains(v) {
                    assert(v == a);
                }
                if count_of(s, v) >= 2 {
                    assert(vs[0] == v);
                }
            }
        },
        Mode::Bimodal(a, b) => {
            assert forall|v: T| vs.contains(v) <==> count_of(s, v) >= 2 by {
                if count_of(s, v) >= 2 {
                    assert(vs[0] == a && vs[1] == b);
                }
            }
        },
        Mode::Trimodal(a, b, c) => {
            assert forall|v: T| vs.contains(v) <==> count_of(s, v) >= 2 by {
                if count_of(s, v) >= 2 {
                    assert(vs[0] == a && vs[1] == b && vs[2] == c);
                }
            }
        },
        Mode::Multimodal(_) => {
        },
    }
}

/// Uniqueness law: the reported values, and with them the shape, are
/// determined by the input alone, so any tie-breaking during value
/// recovery is unobservable in the outcome.
pub proof fn lemma_mode_unique<T: Number>(s: Seq<T>, m1: Mode<T>, m2: Mode<T>)
    requires
        is_mode_of(s, m1),
        is_mode_of(s, m2),
    ensures
        mode_values(m1) == mode_values(m2),
{
    lemma_mode_values(s, m1);
    lemma_mode_values(s, m2);
    lemma_sorted_same_members_equal(mode_values(m1), mode_values(m2));
}

/// How many values the outcome reports.
pub open spec fn mode_len<T>(m: Mode<T>) -> nat {
    match m {
        Mode::NoMode => 0,
        Mode::Unimodal(_) => 1,
        Mode::Bimodal(_, _) => 2,
        Mode::Trimodal(_, _, _) => 3,
        Mode::Multimodal(vs) => vs@.len(),
    }
}

/// Shape–count law: an outcome of the mode classifier reports exactly one
/// value for each distinct value that occurs at least twice, and its shape
/// is decided by that number alone — `NoMode` for none, `Unimodal`,
/// `Bimodal` and `Trimodal` for one, two and three, and `Multimodal`,
/// carrying all of them, for four or more.
pub proof fn lemma_mode_shape<T: Number>(s: Seq<T>, m: Mode<T>)
    requires
        is_mode_of(s, m),
    ensures
        repeated_values(s).finite(),
        mode_len(m) == repeated_values(s).len(),
        (m is NoMode <==> repeated_values(s).len() == 0),
        (m is Unimodal <==> repeated_values(s).len() == 1),
        (m is Bimodal <==> repeated_values(s).len() == 2),
        (m is Trimodal <==> repeated_values(s).len() == 3),
        (m is Multimodal <==> repeated_values(s).len() >= 4),
{
    broadcast use vstd::set::group_set_axioms;

    let rep = repeated_values(s);
    match m {
        Mode::NoMode => {
            assert(rep =~= Set::<T>::empty());
        },
        Mode::Unimodal(a) => {
            assert(rep =~= Set::<T>::empty().insert(a));
        },
        Mode::Bimodal(a, b) => {
            assert(a != b);
            assert(rep =~= Set::<T>::empty().insert(a).insert(b));
        },
        Mode::Trimodal(a, b, c) => {
            assert(a != b && b != c && a != c);
            assert(rep =~= Set::<T>::empty().insert(a).insert(b).insert(c));
        },
        Mode::Multimodal(vs) => {
            assert(vs@.no_duplicates()) by {
                assert forall|i: int, j: int|
                    0 <= i < vs@.len() && 0 <= j < vs@.len() && i != j implies vs@[i]
                    != vs@[j] by {
                    if i < j {
                        assert(vs@[i].int_spec() < vs@[j].int_spec());
                    } else {
                        assert(vs@[j].int_spec() < vs@[i].int_spec());
                    }
                }
            }
            vs@.unique_seq_to_set();
            broadcast use vstd::seq_lib::seq_to_set_is_finite;

            assert(rep =~= vs@.to_set());
        },
    }
}

} // verus!
