//! Partitioning items into classes of equal key, where a key is a size
//! and a digest. Classes come in order of first occurrence, and each lists
//! its members in increasing position.
use vstd::prelude::*;
use std::collections::HashMap;
use crate::text::chars_of;

verus! {

broadcast use vstd::std_specs::hash::group_hash_axioms;

/// A grouping key: a size and a digest text.
pub type Key = (u64, Seq<char>);

pub open spec fn key_views(v: Seq<(u64, String)>) -> Seq<Key> {
    v.map_values(|x: (u64, String)| (x.0, x.1@))
}

/// The distinct keys among the first `upto` items, in order of first occurrence.
pub open spec fn distinct_keys(keys: Seq<Key>, upto: int) -> Seq<Key>
    decreases upto,
{
    if upto <= 0 {
        Seq::empty()
    } else {
        let p = distinct_keys(keys, upto - 1);
        if p.contains(keys[upto - 1]) {
            p
        } else {
            p.push(keys[upto - 1])
        }
    }
}

/// The positions, among the first `upto`, whose key is `k`, in increasing order.
pub open spec fn members(keys: Seq<Key>, k: Key, upto: int) -> Seq<int>
    decreases upto,
{
    if upto <= 0 {
        Seq::empty()
    } else {
        let p = members(keys, k, upto - 1);
        if keys[upto - 1] == k {
            p.push(upto - 1)
        } else {
            p
        }
    }
}

/// The classes of all items: one per distinct key, in order of first occurrence.
pub open spec fn classes_of(keys: Seq<Key>) -> Seq<Seq<int>> {
    let d = distinct_keys(keys, keys.len() as int);
    Seq::new(d.len(), |c: int| members(keys, d[c], keys.len() as int))
}

pub proof fn lemma_distinct_keys(keys: Seq<Key>, upto: int)
    requires
        0 <= upto <= keys.len(),
    ensures
        distinct_keys(keys, upto).no_duplicates(),
        forall|k: Key| distinct_keys(keys, upto).contains(k)
            <==> exists|j: int| 0 <= j < upto && keys[j] == k,
    decreases upto,
{
    if upto > 0 {
        lemma_distinct_keys(keys, upto - 1);
        let p = distinct_keys(keys, upto - 1);
        assert forall|k: Key| distinct_keys(keys, upto).contains(k)
            <==> exists|j: int| 0 <= j < upto && keys[j] == k by {
            if distinct_keys(keys, upto).contains(k) {
                if p.contains(k) {
                    let j = choose|j: int| 0 <= j < upto - 1 && keys[j] == k;
                    assert(0 <= j < upto && keys[j] == k);
                } else {
                    assert(k == keys[upto - 1]);
                }
            }
            if exists|j: int| 0 <= j < upto && keys[j] == k {
                let j = choose|j: int| 0 <= j < upto && keys[j] == k;
                if j < upto - 1 {
                    assert(p.contains(k));
                    if !p.contains(keys[upto - 1]) {
                        assert(p.push(keys[upto - 1])[p.index_of(k)] == k) by {
                            p.index_of_first_ensures(k);
                        }
                    }
                } else {
                    if !p.contains(keys[upto - 1]) {
                        assert(p.push(keys[upto - 1])[p.len() as int] == k);
                    }
                }
            }
        }
    }
}

pub proof fn lemma_members(keys: Seq<Key>, k: Key, upto: int)
    requires
        0 <= upto <= keys.len(),
    ensures
        forall|j: int| members(keys, k, upto).contains(j) <==> (0 <= j < upto && keys[j] == k),
        forall|a: int, b: int| 0 <= a < b < members(keys, k, upto).len()
            ==> members(keys, k, upto)[a] < members(keys, k, upto)[b],
        forall|a: int| 0 <= a < members(keys, k, upto).len()
            ==> 0 <= #[trigger] members(keys, k, upto)[a] < upto && keys[members(keys, k, upto)[a]] == k,
    decreases upto,
{
    if upto > 0 {
        lemma_members(keys, k, upto - 1);
        let p = members(keys, k, upto - 1);
        let m = members(keys, k, upto);
        assert forall|j: int| m.contains(j) <==> (0 <= j < upto && keys[j] == k) by {
            if keys[upto - 1] == k {
                if j == upto - 1 {
                    assert(m[p.len() as int] == j);
                }
                if p.contains(j) {
                    let t = choose|t: int| 0 <= t < p.len() && p[t] == j;
                    assert(m[t] == j);
                }
                if m.contains(j) {
                    let t = choose|t: int| 0 <= t < m.len() && m[t] == j;
                    if t < p.len() {
                        assert(p.contains(j));
                    }
                }
            }
        }
    }
}

/// The digest bucket of a key.
pub open spec fn bucket_fold(h0: int, s: Seq<char>) -> int
    decreases s.len(),
{
    if s.len() == 0 {
        h0
    } else {
        (bucket_fold(h0, s.drop_last()) * 31 + (s.last() as u32) as int) % 4294967291
    }
}

pub open spec fn bucket(k: Key) -> u64 {
    bucket_fold((k.0 % 4294967291) as int, k.1) as u64
}

proof fn lemma_bucket_fold_range(h0: int, s: Seq<char>)
    requires
        0 <= h0 < 4294967291,
    ensures
        0 <= bucket_fold(h0, s) < 4294967291,
    decreases s.len(),
{
    if s.len() > 0 {
        lemma_bucket_fold_range(h0, s.drop_last());
    }
}

fn bucket_of(size: u64, text: &String) -> (b: u64)
    ensures
        b == bucket((size, text@)),
{
    let cs = chars_of(text.as_str());
    let mut h: u64 = size % 4294967291;
    let mut i: usize = 0;
    proof {
        assert(cs@.take(0) =~= Seq::<char>::empty());
    }
    while i < cs.len()
        invariant
            i <= cs.len(),
            h as int == bucket_fold((size % 4294967291) as int, cs@.take(i as int)),
            h < 4294967291,
        decreases cs.len() - i,
    {
        let c = cs[i] as u32;
        proof {
            assert(cs@.take(i + 1).drop_last() =~= cs@.take(i as int));
        }
        h = (h * 31 + c as u64) % 4294967291;
        i = i + 1;
    }
    proof {
        assert(cs@.take(i as int) =~= cs@);
        lemma_bucket_fold_range((size % 4294967291) as int, cs@);
    }
    h
}

/// Class `c` is listed in bucket `b`.
spec fn listed(m: Map<u64, Vec<usize>>, b: u64, c: int) -> bool {
    m.contains_key(b) && exists|s: int| 0 <= s < m[b]@.len() && m[b]@[s] as int == c
}

/// The classes of equal key, in order of first occurrence; each class
/// lists the positions of its members in increasing order.
pub fn group_by_key(keys: &Vec<(u64, String)>) -> (classes: Vec<Vec<usize>>)
    ensures
        classes@.len() == classes_of(key_views(keys@)).len(),
        forall|c: int| 0 <= c < classes@.len()
            ==> (#[trigger] classes@[c])@.map_values(|j: usize| j as int) == classes_of(key_views(keys@))[c],
{
    let ghost kv = key_views(keys@);
    let mut classes: Vec<Vec<usize>> = Vec::new();
    let mut buckets: HashMap<u64, Vec<usize>> = HashMap::new();
    let mut i: usize = 0;
    while i < keys.len()
        invariant
            kv == key_views(keys@),
            i <= keys.len(),
            classes@.len() == distinct_keys(kv, i as int).len(),
            forall|c: int| 0 <= c < classes@.len()
                ==> (#[trigger] classes@[c])@.map_values(|j: usize| j as int)
                    == members(kv, distinct_keys(kv, i as int)[c], i as int),
            forall|c: int| 0 <= c < classes@.len() ==> listed(buckets@, bucket(#[trigger] distinct_keys(kv, i as int)[c]), c),
            forall|b: u64, t: int| buckets@.contains_key(b) && 0 <= t < buckets@[b]@.len() ==> {
                let c = #[trigger] buckets@[b]@[t];
                c < classes@.len() && bucket(distinct_keys(kv, i as int)[c as int]) == b
            },
        decreases keys.len() - i,
    {
        let ghost d = distinct_keys(kv, i as int);
        proof {
            lemma_distinct_keys(kv, i as int);
        }
        let b = bucket_of(keys[i].0, &keys[i].1);
        let ghost ki = kv[i as int];
        assert(ki == (keys@[i as int].0, keys@[i as int].1@));
        let mut found: Option<usize> = None;
        let mut ids: Vec<usize> = Vec::new();
        match buckets.get(&b) {
            Some(list) => {
                ids = list.clone();
                assert(ids@ == list@);
            },
            None => {},
        }
        proof {
            assert forall|c: int| 0 <= c < classes@.len() implies listed(buckets@, bucket(#[trigger] d[c]), c) by {
                let bb = bucket(distinct_keys(kv, i as int)[c]);
                assert(buckets@.contains_key(bb));
                let s = choose|s: int| 0 <= s < buckets@[bb]@.len() && buckets@[bb]@[s] as int == c;
                assert(buckets@[bb]@[s] as int == c);
            }
        }
        let mut t: usize = 0;
        while t < ids.len()
            invariant
                kv == key_views(keys@),
                i < keys.len(),
                d == distinct_keys(kv, i as int),
                ki == kv[i as int],
                ids@ == (if buckets@.contains_key(b) { buckets@[b]@ } else { Seq::empty() }),
                classes@.len() == d.len(),
                forall|c: int| 0 <= c < classes@.len()
                    ==> (#[trigger] classes@[c])@.map_values(|j: usize| j as int)
                        == members(kv, d[c], i as int),
                forall|bb: u64, tt: int| buckets@.contains_key(bb) && 0 <= tt < buckets@[bb]@.len() ==> {
                    let c = #[trigger] buckets@[bb]@[tt];
                    c < classes@.len() && bucket(d[c as int]) == bb
                },
                forall|c: int| 0 <= c < classes@.len() ==> listed(buckets@, bucket(#[trigger] d[c]), c),
                t <= ids.len(),
                found matches Some(c) ==> c < classes@.len() && d[c as int] == ki,
                found is None ==> forall|s: int| 0 <= s < t ==> d[ids@[s] as int] != ki,
            decreases ids.len() - t,
        {
            if found.is_none() {
                let c = ids[t];
                assert(buckets@[b]@[t as int] == c);
                proof {
                    lemma_distinct_keys(kv, i as int);
                    assert(d.contains(d[c as int]));
                    lemma_members(kv, d[c as int], i as int);
                    let j = choose|j: int| 0 <= j < i && kv[j] == d[c as int];
                    assert(members(kv, d[c as int], i as int).contains(j));
                    assert(classes@[c as int]@.map_values(|j: usize| j as int)[0]
                        == members(kv, d[c as int], i as int)[0]);
                }
                let first = classes[c][0];
                if keys[first].0 == keys[i].0 && keys[first].1 == keys[i].1 {
                    found = Some(c);
                }
            }
            t = t + 1;
        }
        proof {
            lemma_distinct_keys(kv, i as int + 1);
        }
        match found {
            Some(c) => {
                let ghost old_classes = classes@;
                classes[c].push(i);
                proof {
                    assert(d.contains(ki));
                    assert(distinct_keys(kv, i + 1) == d);
                    assert forall|e: int| 0 <= e < classes@.len()
                        implies (#[trigger] classes@[e])@.map_values(|j: usize| j as int)
                            == members(kv, distinct_keys(kv, i + 1)[e], i + 1) by {
                        if e == c {
                            assert(classes@[e]@.map_values(|j: usize| j as int)
                                =~= old_classes[e]@.map_values(|j: usize| j as int).push(i as int));
                        } else {
                            assert(classes@[e] == old_classes[e]);
                            if d[e] == ki {
                                lemma_distinct_keys(kv, i as int);
                                assert(d[e] == d[c as int]);
                            }
                        }
                    }
                    assert forall|e: int| 0 <= e < classes@.len() implies listed(buckets@, bucket(#[trigger] distinct_keys(kv, i + 1)[e]), e) by {
                        assert(distinct_keys(kv, i + 1)[e] == d[e]);
                    }
                }
            },
            None => {
                proof {
                    // no class has this key yet
                    if d.contains(ki) {
                        let c = choose|c: int| 0 <= c < d.len() && d[c] == ki;
                        assert(bucket(d[c]) == b);
                        let s = choose|s: int| 0 <= s < buckets@[b]@.len() && buckets@[b]@[s] as int == c;
                        assert(d[ids@[s] as int] == ki);
                    }
                    assert(!d.contains(ki));
                    assert(distinct_keys(kv, i + 1) == d.push(ki));
                    lemma_members(kv, ki, i as int);
                    assert(members(kv, ki, i as int) =~= Seq::<int>::empty()) by {
                        if members(kv, ki, i as int).len() > 0 {
                            let j = members(kv, ki, i as int)[0];
                            assert(members(kv, ki, i as int).contains(j));
                            lemma_distinct_keys(kv, i as int);
                            assert(d.contains(ki));
                        }
                    }
                }
                let c = classes.len();
                let ghost old_classes = classes@;
                let mut fresh: Vec<usize> = Vec::new();
                fresh.push(i);
                classes.push(fresh);
                let mut ids2 = ids;
                ids2.push(c);
                let ghost old_buckets = buckets@;
                buckets.insert(b, ids2);
                proof {
                    let d2 = distinct_keys(kv, i + 1);
                    assert forall|e: int| 0 <= e < classes@.len()
                        implies (#[trigger] classes@[e])@.map_values(|j: usize| j as int)
                            == members(kv, d2[e], i + 1) by {
                        if e == c {
                            assert(classes@[e]@.map_values(|j: usize| j as int) =~= seq![i as int]);
                            assert(members(kv, ki, i + 1) =~= seq![i as int]);
                        } else {
                            assert(classes@[e] == old_classes[e]);
                            assert(d2[e] == d[e]);
                        }
                    }
                    assert forall|e: int| 0 <= e < classes@.len() implies listed(buckets@, bucket(#[trigger] d2[e]), e) by {
                        if e == c {
                            assert(d2[e] == ki);
                            assert(bucket(d2[e]) == b);
                            assert(buckets@.contains_key(b));
                            assert(buckets@[b]@ == ids@.push(c));
                            assert(buckets@[b]@[buckets@[b]@.len() - 1] as int == e);
                        } else {
                            assert(d2[e] == d[e]);
                            let bb = bucket(d[e]);
                            assert(old_buckets.contains_key(bb));
                            let s = choose|s: int| 0 <= s < old_buckets[bb]@.len() && old_buckets[bb]@[s] as int == e;
                            if bb == b {
                                assert(ids@ == old_buckets[b]@);
                                assert(buckets@[b]@[s] as int == e);
                            } else {
                                assert(buckets@[bb] == old_buckets[bb]);
                                assert(buckets@[bb]@[s] as int == e);
                            }
                        }
                    }
                    assert forall|bb: u64, tt: int| buckets@.contains_key(bb) && 0 <= tt < buckets@[bb]@.len() implies {
                        let e = #[trigger] buckets@[bb]@[tt];
                        e < classes@.len() && bucket(d2[e as int]) == bb
                    } by {
                        if bb == b {
                            if tt < ids@.len() {
                                assert(buckets@[bb]@[tt] == old_buckets[b]@[tt]);
                            }
                        } else {
                            assert(buckets@[bb] == old_buckets[bb]);
                        }
                    }
                }
            },
        }
        i = i + 1;
    }
    proof {
        let d = distinct_keys(kv, keys@.len() as int);
        assert(kv.len() == keys@.len());
    }
    classes
}


/// Two keys among the items are equal at positions `i` and some other.
pub open spec fn has_twin(keys: Seq<Key>, i: int) -> bool {
    exists|j: int| 0 <= j < keys.len() && j != i && keys[j] == keys[i]
}

/// The members of the classes that have at least two members, class by class.
pub open spec fn flatten_big(cls: Seq<Seq<int>>) -> Seq<int>
    decreases cls.len(),
{
    if cls.len() == 0 {
        Seq::empty()
    } else {
        flatten_big(cls.drop_last()) + (if cls.last().len() >= 2 { cls.last() } else { Seq::empty() })
    }
}

/// The classes that have at least two members, in order.
pub open spec fn big_classes(cls: Seq<Seq<int>>) -> Seq<Seq<int>>
    decreases cls.len(),
{
    if cls.len() == 0 {
        Seq::empty()
    } else {
        big_classes(cls.drop_last()) + (if cls.last().len() >= 2 { seq![cls.last()] } else { Seq::empty() })
    }
}

/// The classes partition the positions: each position lies in the class
/// of its key, and in no other.
pub proof fn lemma_classes_partition(keys: Seq<Key>)
    ensures
        ({
            let d = distinct_keys(keys, keys.len() as int);
            let cls = classes_of(keys);
            &&& d.no_duplicates()
            &&& cls.len() == d.len()
            &&& forall|c: int, i: int| 0 <= c < cls.len() ==>
                (#[trigger] cls[c].contains(i) <==> (0 <= i < keys.len() && keys[i] == d[c]))
            &&& forall|c: int, a: int, b: int| 0 <= c < cls.len() && 0 <= a < b < cls[c].len() ==>
                #[trigger] cls[c][a] < #[trigger] cls[c][b]
            &&& forall|c: int| 0 <= c < cls.len() ==> (#[trigger] cls[c]).len() >= 1
            &&& forall|i: int| #![trigger keys[i]] 0 <= i < keys.len() ==> exists|c: int| 0 <= c < cls.len() && #[trigger] d[c] == keys[i]
        }),
{
    let n = keys.len() as int;
    let d = distinct_keys(keys, n);
    let cls = classes_of(keys);
    lemma_distinct_keys(keys, n);
    assert forall|c: int, i: int| 0 <= c < cls.len() implies
        (#[trigger] cls[c].contains(i) <==> (0 <= i < keys.len() && keys[i] == d[c])) by {
        lemma_members(keys, d[c], n);
    }
    assert forall|c: int, a: int, b: int| 0 <= c < cls.len() && 0 <= a < b < cls[c].len() implies
        #[trigger] cls[c][a] < #[trigger] cls[c][b] by {
        lemma_members(keys, d[c], n);
    }
    assert forall|c: int| 0 <= c < cls.len() implies (#[trigger] cls[c]).len() >= 1 by {
        assert(d.contains(d[c]));
        let j = choose|j: int| 0 <= j < n && keys[j] == d[c];
        lemma_members(keys, d[c], n);
        assert(cls[c].contains(j));
    }
    assert forall|i: int| #![trigger keys[i]] 0 <= i < keys.len() implies exists|c: int| 0 <= c < cls.len() && #[trigger] d[c] == keys[i] by {
        assert(d.contains(keys[i]));
    }
}

proof fn lemma_flatten_big_prefix(cls: Seq<Seq<int>>)
    ensures
        forall|i: int| flatten_big(cls).contains(i)
            <==> exists|c: int| 0 <= c < cls.len() && cls[c].len() >= 2 && #[trigger] cls[c].contains(i),
        flatten_big(cls).len() <= flatten_len_bound(cls),
    decreases cls.len(),
{
    if cls.len() > 0 {
        let pre = cls.drop_last();
        lemma_flatten_big_prefix(pre);
        let last = cls.last();
        let tail = if last.len() >= 2 { last } else { Seq::<int>::empty() };
        assert forall|i: int| flatten_big(cls).contains(i)
            <==> exists|c: int| 0 <= c < cls.len() && cls[c].len() >= 2 && #[trigger] cls[c].contains(i) by {
            if flatten_big(cls).contains(i) {
                let t = choose|t: int| 0 <= t < flatten_big(cls).len() && flatten_big(cls)[t] == i;
                if t < flatten_big(pre).len() {
                    assert(flatten_big(pre).contains(i));
                    let c = choose|c: int| 0 <= c < pre.len() && pre[c].len() >= 2 && #[trigger] pre[c].contains(i);
                    assert(cls[c] == pre[c]);
                } else {
                    assert(tail[t - flatten_big(pre).len()] == i);
                    assert(cls[cls.len() - 1].contains(i));
                }
            }
            if exists|c: int| 0 <= c < cls.len() && cls[c].len() >= 2 && #[trigger] cls[c].contains(i) {
                let c = choose|c: int| 0 <= c < cls.len() && cls[c].len() >= 2 && #[trigger] cls[c].contains(i);
                if c < cls.len() - 1 {
                    assert(pre[c] == cls[c]);
                    assert(flatten_big(pre).contains(i));
                    let t = choose|t: int| 0 <= t < flatten_big(pre).len() && flatten_big(pre)[t] == i;
                    assert(flatten_big(cls)[t] == i);
                } else {
                    let t = choose|t: int| 0 <= t < last.len() && last[t] == i;
                    assert(flatten_big(cls)[flatten_big(pre).len() + t] == i);
                }
            }
        }
    }
}

/// The total size of the classes.
pub open spec fn flatten_len_bound(cls: Seq<Seq<int>>) -> int
    decreases cls.len(),
{
    if cls.len() == 0 {
        0
    } else {
        flatten_len_bound(cls.drop_last()) + cls.last().len()
    }
}

/// The members of the classes with at least two members are exactly the
/// positions whose key occurs at another position too, each listed once.
pub proof fn lemma_flatten_big(keys: Seq<Key>)
    ensures
        flatten_big(classes_of(keys)).no_duplicates(),
        forall|i: int| #[trigger] flatten_big(classes_of(keys)).contains(i) <==> (0 <= i < keys.len() && has_twin(keys, i)),
        flatten_big(classes_of(keys)).len() <= keys.len(),
{
    let cls = classes_of(keys);
    let d = distinct_keys(keys, keys.len() as int);
    let f = flatten_big(cls);
    lemma_classes_partition(keys);
    lemma_flatten_big_prefix(cls);
    assert forall|i: int| f.contains(i) <==> (0 <= i < keys.len() && has_twin(keys, i)) by {
        if f.contains(i) {
            let c = choose|c: int| 0 <= c < cls.len() && cls[c].len() >= 2 && #[trigger] cls[c].contains(i);
            let a = if cls[c][0] == i { cls[c][1] } else { cls[c][0] };
            assert(cls[c].contains(a));
            assert(a != i);
        }
        if 0 <= i < keys.len() && has_twin(keys, i) {
            let j = choose|j: int| 0 <= j < keys.len() && j != i && keys[j] == keys[i];
            let c = choose|c: int| 0 <= c < cls.len() && #[trigger] d[c] == keys[i];
            assert(cls[c].contains(i));
            assert(cls[c].contains(j));
            if cls[c].len() < 2 {
                let ti = choose|t: int| 0 <= t < cls[c].len() && cls[c][t] == i;
                let tj = choose|t: int| 0 <= t < cls[c].len() && cls[c][t] == j;
                assert(ti == tj);
            }
        }
    }
    lemma_flatten_big_no_dup(cls, d, keys);
    // all members lie in 0..n and are distinct
    let fs = f.to_set();
    f.unique_seq_to_set();
    assert(fs.subset_of(vstd::set_lib::set_int_range(0, keys.len() as int)));
    vstd::set_lib::lemma_int_range(0, keys.len() as int);
    vstd::set_lib::lemma_len_subset(fs, vstd::set_lib::set_int_range(0, keys.len() as int));
}

proof fn lemma_flatten_big_no_dup(cls: Seq<Seq<int>>, d: Seq<Key>, keys: Seq<Key>)
    requires
        cls.len() <= d.len(),
        d.no_duplicates(),
        forall|c: int, i: int| 0 <= c < cls.len() ==>
            (#[trigger] cls[c].contains(i) <==> (0 <= i < keys.len() && keys[i] == d[c])),
        forall|c: int, a: int, b: int| 0 <= c < cls.len() && 0 <= a < b < cls[c].len() ==>
            #[trigger] cls[c][a] < #[trigger] cls[c][b],
    ensures
        flatten_big(cls).no_duplicates(),
    decreases cls.len(),
{
    if cls.len() > 0 {
        let pre = cls.drop_last();
        assert forall|c: int, i: int| 0 <= c < pre.len() implies
            (#[trigger] pre[c].contains(i) <==> (0 <= i < keys.len() && keys[i] == d[c])) by {
            assert(pre[c] == cls[c]);
        }
        assert forall|c: int, a: int, b: int| 0 <= c < pre.len() && 0 <= a < b < pre[c].len() implies
            #[trigger] pre[c][a] < #[trigger] pre[c][b] by {
            assert(pre[c] == cls[c]);
        }
        lemma_flatten_big_no_dup(pre, d, keys);
        lemma_flatten_big_prefix(pre);
        let last = cls.last();
        let k = cls.len() - 1;
        if last.len() >= 2 {
            let fp = flatten_big(pre);
            let f = flatten_big(cls);
            assert(f == fp + last);
            assert forall|a: int, b: int| 0 <= a < f.len() && 0 <= b < f.len() && a != b implies f[a] != f[b] by {
                if a < fp.len() && b < fp.len() {
                } else if a >= fp.len() && b >= fp.len() {
                    let (x, y) = if a < b { (a - fp.len(), b - fp.len()) } else { (b - fp.len(), a - fp.len()) };
                    assert(cls[k][x] < cls[k][y]);
                } else {
                    let (p, q) = if a < fp.len() { (a, b - fp.len()) } else { (b, a - fp.len()) };
                    let v = fp[p];
                    if v == last[q] {
                        assert(fp.contains(v));
                        let c = choose|c: int| 0 <= c < pre.len() && pre[c].len() >= 2 && #[trigger] pre[c].contains(v);
                        assert(cls[c].contains(v));
                        assert(cls[k].contains(v));
                        assert(d[c] == keys[v] && d[k] == keys[v]);
                    }
                }
            }
        }
    }
}

pub proof fn lemma_big_classes(cls: Seq<Seq<int>>)
    ensures
        forall|x: Seq<int>| #[trigger] big_classes(cls).contains(x) <==> (cls.contains(x) && x.len() >= 2),
        cls.no_duplicates() ==> big_classes(cls).no_duplicates(),
        big_classes(cls).len() <= cls.len(),
    decreases cls.len(),
{
    if cls.len() > 0 {
        let pre = cls.drop_last();
        lemma_big_classes(pre);
        let b = big_classes(cls);
        let bp = big_classes(pre);
        let last = cls.last();
        assert forall|x: Seq<int>| #[trigger] b.contains(x) <==> (cls.contains(x) && x.len() >= 2) by {
            if b.contains(x) {
                let t = choose|t: int| 0 <= t < b.len() && b[t] == x;
                if t < bp.len() {
                    assert(bp.contains(x));
                    let u = choose|u: int| 0 <= u < pre.len() && pre[u] == x;
                    assert(cls[u] == x);
                } else {
                    assert(x == last);
                    assert(cls[cls.len() - 1] == x);
                }
            }
            if cls.contains(x) && x.len() >= 2 {
                let u = choose|u: int| 0 <= u < cls.len() && cls[u] == x;
                if u < cls.len() - 1 {
                    assert(pre[u] == x);
                    assert(bp.contains(x));
                    let t = choose|t: int| 0 <= t < bp.len() && bp[t] == x;
                    assert(b[t] == x);
                } else {
                    assert(b[bp.len() as int] == x);
                }
            }
        }
        if cls.no_duplicates() {
            assert(pre.no_duplicates());
            if last.len() >= 2 {
                assert forall|a: int, c: int| 0 <= a < b.len() && 0 <= c < b.len() && a != c implies b[a] != b[c] by {
                    if a < bp.len() && c < bp.len() {
                    } else if a == bp.len() && c < bp.len() {
                        assert(bp.contains(b[c]));
                        let u = choose|u: int| 0 <= u < pre.len() && pre[u] == b[c];
                        assert(cls[u] != cls[cls.len() - 1]);
                    } else if c == bp.len() && a < bp.len() {
                        assert(bp.contains(b[a]));
                        let u = choose|u: int| 0 <= u < pre.len() && pre[u] == b[a];
                        assert(cls[u] != cls[cls.len() - 1]);
                    }
                }
            }
        }
    }
}

/// Distinct classes have distinct keys; every member of a class carries the
/// key of its first member.
pub proof fn lemma_class_keys(keys: Seq<Key>)
    ensures
        classes_of(keys).no_duplicates(),
        forall|x: Seq<int>| #[trigger] classes_of(keys).contains(x) ==> x.len() >= 1
            && (forall|m: int| #[trigger] x.contains(m) <==> (0 <= m < keys.len() && keys[m] == keys[x[0]])),
        forall|x: Seq<int>, y: Seq<int>| #[trigger] classes_of(keys).contains(x) && #[trigger] classes_of(keys).contains(y)
            && x != y ==> keys[x[0]] != keys[y[0]],
{
    let cls = classes_of(keys);
    let d = distinct_keys(keys, keys.len() as int);
    lemma_classes_partition(keys);
    assert forall|x: Seq<int>| #[trigger] cls.contains(x) implies x.len() >= 1
        && (forall|m: int| #[trigger] x.contains(m) <==> (0 <= m < keys.len() && keys[m] == keys[x[0]])) by {
        let c = choose|c: int| 0 <= c < cls.len() && cls[c] == x;
        assert(cls[c].len() >= 1);
        assert(cls[c].contains(x[0]));
    }
    assert forall|x: Seq<int>, y: Seq<int>| #[trigger] cls.contains(x) && #[trigger] cls.contains(y)
        && x != y implies keys[x[0]] != keys[y[0]] by {
        let c = choose|c: int| 0 <= c < cls.len() && cls[c] == x;
        let e = choose|e: int| 0 <= e < cls.len() && cls[e] == y;
        assert(cls[c].len() >= 1 && cls[e].len() >= 1);
        assert(cls[c].contains(x[0]));
        assert(cls[e].contains(y[0]));
        assert(c != e);
    }
    assert forall|a: int, b: int| 0 <= a < cls.len() && 0 <= b < cls.len() && a != b implies cls[a] != cls[b] by {
        assert(cls[a].len() >= 1);
        assert(cls[a].contains(cls[a][0]));
        if cls[a] == cls[b] {
            assert(cls[b].contains(cls[a][0]));
        }
    }
}

pub proof fn lemma_flatten_big_take(cls: Seq<Seq<int>>, c: int)
    requires
        0 <= c <= cls.len(),
    ensures
        flatten_big(cls.take(c)).len() <= flatten_big(cls).len(),
    decreases cls.len() - c,
{
    if c < cls.len() {
        lemma_flatten_big_take(cls, c + 1);
        assert(cls.take(c + 1).drop_last() =~= cls.take(c));
    } else {
        assert(cls.take(c) =~= cls);
    }
}

/// All members of all classes, class by class.
pub open spec fn flatten_all(cls: Seq<Seq<int>>) -> Seq<int>
    decreases cls.len(),
{
    if cls.len() == 0 {
        Seq::empty()
    } else {
        flatten_all(cls.drop_last()) + cls.last()
    }
}

/// For each class, the members beyond the first, summed.
pub open spec fn extra_members(cls: Seq<Seq<int>>) -> int
    decreases cls.len(),
{
    if cls.len() == 0 {
        0
    } else {
        extra_members(cls.drop_last()) + (if cls.last().len() >= 2 { cls.last().len() - 1 } else { 0 })
    }
}

proof fn lemma_flatten_all_facts(cls: Seq<Seq<int>>, d: Seq<Key>, keys: Seq<Key>)
    requires
        cls.len() <= d.len(),
        d.no_duplicates(),
        forall|c: int, i: int| 0 <= c < cls.len() ==>
            (#[trigger] cls[c].contains(i) <==> (0 <= i < keys.len() && keys[i] == d[c])),
        forall|c: int, a: int, b: int| 0 <= c < cls.len() && 0 <= a < b < cls[c].len() ==>
            #[trigger] cls[c][a] < #[trigger] cls[c][b],
        forall|c: int| 0 <= c < cls.len() ==> (#[trigger] cls[c]).len() >= 1,
    ensures
        flatten_all(cls).no_duplicates(),
        forall|i: int| #[trigger] flatten_all(cls).contains(i)
            <==> exists|c: int| 0 <= c < cls.len() && #[trigger] cls[c].contains(i),
        extra_members(cls) + cls.len() == flatten_all(cls).len(),
    decreases cls.len(),
{
    if cls.len() > 0 {
        let pre = cls.drop_last();
        assert forall|c: int, i: int| 0 <= c < pre.len() implies
            (#[trigger] pre[c].contains(i) <==> (0 <= i < keys.len() && keys[i] == d[c])) by {
            assert(pre[c] == cls[c]);
        }
        assert forall|c: int, a: int, b: int| 0 <= c < pre.len() && 0 <= a < b < pre[c].len() implies
            #[trigger] pre[c][a] < #[trigger] pre[c][b] by {
            assert(pre[c] == cls[c]);
        }
        assert forall|c: int| 0 <= c < pre.len() implies (#[trigger] pre[c]).len() >= 1 by {
            assert(pre[c] == cls[c]);
        }
        lemma_flatten_all_facts(pre, d, keys);
        let last = cls.last();
        let k = cls.len() - 1;
        let fp = flatten_all(pre);
        let f = flatten_all(cls);
        assert(f == fp + last);
        assert(cls[k].len() >= 1);
        assert forall|i: int| #[trigger] f.contains(i)
            <==> exists|c: int| 0 <= c < cls.len() && #[trigger] cls[c].contains(i) by {
            if f.contains(i) {
                let t = choose|t: int| 0 <= t < f.len() && f[t] == i;
                if t < fp.len() {
                    assert(fp.contains(i));
                    let c = choose|c: int| 0 <= c < pre.len() && #[trigger] pre[c].contains(i);
                    assert(cls[c] == pre[c]);
                } else {
                    assert(last[t - fp.len()] == i);
                    assert(cls[k].contains(i));
                }
            }
            if exists|c: int| 0 <= c < cls.len() && #[trigger] cls[c].contains(i) {
                let c = choose|c: int| 0 <= c < cls.len() && #[trigger] cls[c].contains(i);
                if c < k {
                    assert(pre[c] == cls[c]);
                    assert(fp.contains(i));
                    let t = choose|t: int| 0 <= t < fp.len() && fp[t] == i;
                    assert(f[t] == i);
                } else {
                    let t = choose|t: int| 0 <= t < last.len() && last[t] == i;
                    assert(f[fp.len() + t] == i);
                }
            }
        }
        assert forall|a: int, b: int| 0 <= a < f.len() && 0 <= b < f.len() && a != b implies f[a] != f[b] by {
            if a < fp.len() && b < fp.len() {
            } else if a >= fp.len() && b >= fp.len() {
                let (x, y) = if a < b { (a - fp.len(), b - fp.len()) } else { (b - fp.len(), a - fp.len()) };
                assert(cls[k][x] < cls[k][y]);
            } else {
                let (p, q) = if a < fp.len() { (a, b - fp.len()) } else { (b, a - fp.len()) };
                let v = fp[p];
                if v == last[q] {
                    assert(fp.contains(v));
                    let c = choose|c: int| 0 <= c < pre.len() && #[trigger] pre[c].contains(v);
                    assert(cls[c].contains(v));
                    assert(cls[k].contains(v));
                    assert(d[c] == keys[v] && d[k] == keys[v]);
                }
            }
        }
    }
}

/// Every position lies in exactly one class, so the classes' members,
/// beyond each class's first, number the positions less the classes.
pub proof fn lemma_extra_members(keys: Seq<Key>)
    ensures
        extra_members(classes_of(keys)) + classes_of(keys).len() == keys.len(),
        flatten_all(classes_of(keys)).len() == keys.len(),
{
    let cls = classes_of(keys);
    let d = distinct_keys(keys, keys.len() as int);
    lemma_classes_partition(keys);
    lemma_flatten_all_facts(cls, d, keys);
    let f = flatten_all(cls);
    let fs = f.to_set();
    f.unique_seq_to_set();
    let r = vstd::set_lib::set_int_range(0, keys.len() as int);
    assert forall|i: int| fs.contains(i) <==> r.contains(i) by {
        if fs.contains(i) {
            assert(f.contains(i));
            let c = choose|c: int| 0 <= c < cls.len() && #[trigger] cls[c].contains(i);
        }
        if r.contains(i) {
            let c = choose|c: int| 0 <= c < cls.len() && #[trigger] d[c] == keys[i];
            assert(cls[c].contains(i));
            assert(f.contains(i));
        }
    }
    assert(fs =~= r);
    vstd::set_lib::lemma_int_range(0, keys.len() as int);
}

/// The members beyond the first of each class, summed.
pub open spec fn extra_of(cls: Seq<Seq<int>>) -> int
    decreases cls.len(),
{
    if cls.len() == 0 {
        0
    } else {
        extra_of(cls.drop_last()) + cls.last().len() - 1
    }
}

pub proof fn lemma_extra_of_big(cls: Seq<Seq<int>>)
    ensures
        extra_of(big_classes(cls)) == extra_members(cls),
    decreases cls.len(),
{
    if cls.len() > 0 {
        lemma_extra_of_big(cls.drop_last());
        let b0 = big_classes(cls.drop_last());
        if cls.last().len() >= 2 {
            assert(big_classes(cls) =~= b0.push(cls.last()));
            assert(big_classes(cls).drop_last() =~= b0);
        } else {
            assert(big_classes(cls) =~= b0);
        }
    }
}

pub proof fn lemma_extra_of_take(cls: Seq<Seq<int>>, y: int)
    requires
        0 <= y <= cls.len(),
        forall|z: int| 0 <= z < cls.len() ==> (#[trigger] cls[z]).len() >= 1,
    ensures
        extra_of(cls.take(y)) <= extra_of(cls),
    decreases cls.len() - y,
{
    if y < cls.len() {
        lemma_extra_of_take(cls, y + 1);
        assert(cls.take(y + 1).drop_last() =~= cls.take(y));
        assert(cls.take(y + 1).last() == cls[y]);
    } else {
        assert(cls.take(y) =~= cls);
    }
}
} // verus!
