//! Paths that refer to the *same* underlying file (hard links, and
//! symlinks when they are followed) are never content duplicates.
//!
//! Each file comes with an identity key: equal keys mean the same file on
//! disk, and a missing key means the platform could not tell (such files
//! simply fall through to content comparison).
use vstd::prelude::*;
use crate::grouping::{Key, key_views, classes_of, big_classes, group_by_key, extra_members, lemma_class_keys,
    lemma_big_classes};
use crate::model::{FileEntry, IdentityGroup, strs};

verus! {

/// The positions among the first `upto` whose key is given (or missing, if `given` is false).
pub open spec fn keyed(keys: Seq<Option<u64>>, given: bool, upto: int) -> Seq<int>
    decreases upto,
{
    if upto <= 0 {
        Seq::empty()
    } else {
        keyed(keys, given, upto - 1) + (if (keys[upto - 1] is Some) == given { seq![upto - 1] } else { Seq::empty() })
    }
}

pub open spec fn resolved(keys: Seq<Option<u64>>) -> Seq<int> {
    keyed(keys, true, keys.len() as int)
}

pub open spec fn unresolved(keys: Seq<Option<u64>>) -> Seq<int> {
    keyed(keys, false, keys.len() as int)
}

/// The grouping keys of the resolved files.
pub open spec fn identity_grouping_keys(keys: Seq<Option<u64>>) -> Seq<Key> {
    let r = resolved(keys);
    Seq::new(r.len(), |t: int| (keys[r[t]]->Some_0, Seq::<char>::empty()))
}

/// The classes of resolved files that are one file on disk.
pub open spec fn identity_classes(keys: Seq<Option<u64>>) -> Seq<Seq<int>> {
    classes_of(identity_grouping_keys(keys))
}

pub open spec fn same_entry(a: FileEntry, b: FileEntry) -> bool {
    a.path@ == b.path@ && a.size == b.size && a.modified == b.modified
}

/// The result of splitting: one representative per identity class (its
/// first file), then every unresolved file; and a group for each class of
/// two or more files.
pub open spec fn split_result(files: Seq<FileEntry>, keys: Seq<Option<u64>>,
    groups: Seq<IdentityGroup>, reps: Seq<FileEntry>) -> bool {
    let r = resolved(keys);
    let u = unresolved(keys);
    let cls = identity_classes(keys);
    let big = big_classes(cls);
    &&& reps.len() == cls.len() + u.len()
    &&& forall|c: int| 0 <= c < cls.len() ==> same_entry(#[trigger] reps[c], files[r[cls[c][0]]])
    &&& forall|v: int| 0 <= v < u.len() ==> same_entry(#[trigger] reps[cls.len() + v], files[u[v]])
    &&& groups.len() == big.len()
    &&& forall|x: int| 0 <= x < groups.len() ==> {
        &&& strs((#[trigger] groups[x]).paths@) == big[x].map_values(|t: int| files[r[t]].path@)
        &&& groups[x].size == files[r[big[x][0]]].size
    }
}

proof fn lemma_keyed(keys: Seq<Option<u64>>, given: bool, upto: int)
    requires
        0 <= upto <= keys.len(),
    ensures
        forall|t: int| 0 <= t < keyed(keys, given, upto).len()
            ==> 0 <= #[trigger] keyed(keys, given, upto)[t] < upto
                && (keys[keyed(keys, given, upto)[t]] is Some) == given,
    decreases upto,
{
    if upto > 0 {
        lemma_keyed(keys, given, upto - 1);
    }
}

/// Partition files into identity groups (same underlying file) and the
/// remaining files that need content comparison. Only one representative
/// per identity group is passed on to the size/sample/hash cascade.
pub fn split_by_identity(files: Vec<FileEntry>, keys: Vec<Option<u64>>) -> (r: (Vec<IdentityGroup>, Vec<FileEntry>))
    requires
        keys@.len() == files@.len(),
    ensures
        split_result(files@, keys@, r.0@, r.1@),
{
    let ghost kv = keys@;
    let mut rpos: Vec<usize> = Vec::new();
    let mut upos: Vec<usize> = Vec::new();
    let mut gkeys: Vec<(u64, String)> = Vec::new();
    let mut i: usize = 0;
    while i < keys.len()
        invariant
            kv == keys@,
            i <= keys@.len(),
            rpos@.map_values(|t: usize| t as int) == keyed(kv, true, i as int),
            upos@.map_values(|t: usize| t as int) == keyed(kv, false, i as int),
            key_views(gkeys@) =~= Seq::new(keyed(kv, true, i as int).len(),
                |t: int| (kv[keyed(kv, true, i as int)[t]]->Some_0, Seq::<char>::empty())),
        decreases keys@.len() - i,
    {
        let ghost rb = rpos@;
        let ghost ub = upos@;
        let ghost gb = gkeys@;
        match keys[i] {
            Some(k) => {
                rpos.push(i);
                let empty = String::new();
                gkeys.push((k, empty));
                proof {
                    assert(rpos@.map_values(|t: usize| t as int) =~= rb.map_values(|t: usize| t as int).push(i as int));
                    assert(keyed(kv, true, i + 1) =~= keyed(kv, true, i as int).push(i as int));
                    assert(keyed(kv, false, i + 1) =~= keyed(kv, false, i as int));
                    assert(key_views(gkeys@) =~= key_views(gb).push((k, empty@)));
                }
            },
            None => {
                upos.push(i);
                proof {
                    assert(upos@.map_values(|t: usize| t as int) =~= ub.map_values(|t: usize| t as int).push(i as int));
                    assert(keyed(kv, false, i + 1) =~= keyed(kv, false, i as int).push(i as int));
                    assert(keyed(kv, true, i + 1) =~= keyed(kv, true, i as int));
                }
            },
        }
        i = i + 1;
    }
    let ghost r = resolved(kv);
    let ghost u = unresolved(kv);
    let ghost ik = identity_grouping_keys(kv);
    assert(key_views(gkeys@) == ik);
    let classes = group_by_key(&gkeys);
    let ghost cls = classes_of(ik);
    proof {
        lemma_keyed(kv, true, kv.len() as int);
        lemma_keyed(kv, false, kv.len() as int);
        lemma_class_keys(ik);
        lemma_big_classes(cls);
    }
    let mut groups: Vec<IdentityGroup> = Vec::new();
    let mut reps: Vec<FileEntry> = Vec::new();
    let mut c: usize = 0;
    while c < classes.len()
        invariant
            r == resolved(kv),
            cls == classes_of(ik),
            ik == identity_grouping_keys(kv),
            kv.len() == files@.len(),
            rpos@.map_values(|t: usize| t as int) == r,
            forall|t: int| 0 <= t < r.len() ==> 0 <= #[trigger] r[t] < kv.len(),
            classes@.len() == cls.len(),
            forall|e: int| 0 <= e < classes@.len()
                ==> (#[trigger] classes@[e])@.map_values(|j: usize| j as int) == cls[e],
            forall|x: Seq<int>| #[trigger] cls.contains(x) ==> x.len() >= 1
                && (forall|m: int| #[trigger] x.contains(m) <==> (0 <= m < ik.len() && ik[m] == ik[x[0]])),
            ik.len() == r.len(),
            c <= classes@.len(),
            reps@.len() == c,
            forall|e: int| 0 <= e < c ==> same_entry(#[trigger] reps@[e], files@[r[cls[e][0]]]),
            groups@.len() == big_classes(cls.take(c as int)).len(),
            forall|x: int| 0 <= x < groups@.len() ==> {
                &&& strs((#[trigger] groups@[x]).paths@) == big_classes(cls.take(c as int))[x].map_values(|t: int| files@[r[t]].path@)
                &&& groups@[x].size == files@[r[big_classes(cls.take(c as int))[x][0]]].size
            },
        decreases classes@.len() - c,
    {
        proof {
            assert(cls.take(c + 1).drop_last() =~= cls.take(c as int));
            assert(cls.take(c + 1).last() == cls[c as int]);
            assert(cls.contains(cls[c as int]));
            assert(classes@[c as int]@.map_values(|j: usize| j as int)[0] == cls[c as int][0]);
            assert(cls[c as int].contains(cls[c as int][0]));
        }
        let first = classes[c][0];
        let f0 = rpos[first];
        assert(r[first as int] == f0 as int);
        reps.push(files[f0].duplicate());
        if classes[c].len() >= 2 {
            let ghost cl = cls[c as int];
            let mut paths: Vec<String> = Vec::new();
            let mut m: usize = 0;
            while m < classes[c].len()
                invariant
                    r == resolved(kv),
                    rpos@.map_values(|t: usize| t as int) == r,
                    forall|t: int| 0 <= t < r.len() ==> 0 <= #[trigger] r[t] < kv.len(),
                    kv.len() == files@.len(),
                    ik.len() == r.len(),
                    c < classes@.len(),
                    cl == cls[c as int],
                    classes@[c as int]@.map_values(|j: usize| j as int) == cl,
                    forall|q: int| #[trigger] cl.contains(q) ==> 0 <= q < ik.len(),
                    m <= cl.len(),
                    strs(paths@) =~= cl.take(m as int).map_values(|t: int| files@[r[t]].path@),
                decreases cl.len() - m,
            {
                let t = classes[c][m];
                proof {
                    assert(cl[m as int] == t as int);
                    assert(cl.contains(t as int));
                }
                let f = rpos[t];
                proof {
                    assert(rpos@.map_values(|q: usize| q as int)[t as int] == f as int);
                    assert(0 <= r[t as int] < kv.len());
                }
                let ghost pb = paths@;
                paths.push(files[f].path.clone());
                proof {
                    assert(strs(paths@) =~= strs(pb).push(files@[f as int].path@));
                    assert(cl.take(m + 1) =~= cl.take(m as int).push(t as int));
                }
                m = m + 1;
            }
            proof {
                assert(cl.take(m as int) =~= cl);
            }
            let ghost gb = groups@;
            groups.push(IdentityGroup { paths, size: files[f0].size });
            proof {
                let b1 = big_classes(cls.take(c + 1));
                assert(b1 =~= big_classes(cls.take(c as int)).push(cls[c as int]));
                assert forall|x: int| 0 <= x < groups@.len() implies {
                    &&& strs((#[trigger] groups@[x]).paths@) == b1[x].map_values(|t: int| files@[r[t]].path@)
                    &&& groups@[x].size == files@[r[b1[x][0]]].size
                } by {
                    if x < gb.len() {
                        assert(groups@[x] == gb[x]);
                    }
                }
            }
        } else {
            proof {
                assert(big_classes(cls.take(c + 1)) =~= big_classes(cls.take(c as int)));
            }
        }
        c = c + 1;
    }
    proof {
        assert(cls.take(c as int) =~= cls);
    }
    let mut v: usize = 0;
    while v < upos.len()
        invariant
            u == unresolved(kv),
            upos@.map_values(|t: usize| t as int) == u,
            forall|t: int| 0 <= t < u.len() ==> 0 <= #[trigger] u[t] < kv.len(),
            kv.len() == files@.len(),
            v <= upos@.len(),
            reps@.len() == cls.len() + v,
            forall|e: int| 0 <= e < cls.len() ==> same_entry(#[trigger] reps@[e], files@[r[cls[e][0]]]),
            forall|w: int| 0 <= w < v ==> same_entry(#[trigger] reps@[cls.len() + w], files@[u[w]]),
        decreases upos@.len() - v,
    {
        let f = upos[v];
        assert(u[v as int] == f as int);
        let ghost rb = reps@;
        reps.push(files[f].duplicate());
        proof {
            assert forall|e: int| 0 <= e < cls.len() implies same_entry(#[trigger] reps@[e], files@[r[cls[e][0]]]) by {
                assert(reps@[e] == rb[e]);
            }
            assert forall|w: int| 0 <= w < v + 1 implies same_entry(#[trigger] reps@[cls.len() + w], files@[u[w]]) by {
                if w < v {
                    assert(reps@[cls.len() + w] == rb[cls.len() + w]);
                }
            }
        }
        v = v + 1;
    }
    (groups, reps)
}

} // verus!
