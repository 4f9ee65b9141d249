//! Selecting which path in a duplicate group survives a delete.
use vstd::prelude::*;
use crate::lex::{ints, lex_lt, key_lt, lemma_lex_transitive, lemma_lex_total, lemma_lex_irreflexive};
use crate::model::{KeepStrategy, strs};
use crate::paths::{path_key, path_key_of};

verus! {

/// The modification time given for the `i`-th path (0 where none is given).
pub open spec fn mtime_at(mtimes: Seq<i128>, i: int) -> int {
    if 0 <= i < mtimes.len() {
        mtimes[i] as int
    } else {
        0
    }
}

/// The length of a path in bytes (UTF-8).
pub open spec fn byte_len(p: Seq<char>) -> int {
    (vstd::utf8::encode_utf8(p).len() as usize) as int
}

/// The key by which a strategy ranks a path: the least key survives.
pub open spec fn survivor_key(s: KeepStrategy, p: Seq<char>, m: int) -> Seq<int> {
    match s {
        KeepStrategy::First => path_key(p),
        KeepStrategy::ShortestPath => seq![byte_len(p)] + path_key(p),
        KeepStrategy::Oldest => seq![m] + path_key(p),
        KeepStrategy::Newest => seq![-m] + path_key(p),
    }
}

pub open spec fn survivor_keys(paths: Seq<Seq<char>>, mtimes: Seq<i128>, s: KeepStrategy) -> Seq<Seq<int>> {
    Seq::new(paths.len(), |i: int| survivor_key(s, paths[i], mtime_at(mtimes, i)))
}

/// `i` holds a least key, and no earlier position holds an equal one.
pub open spec fn is_first_least(keys: Seq<Seq<int>>, i: int) -> bool {
    &&& 0 <= i < keys.len()
    &&& forall|j: int| 0 <= j < keys.len() ==> !lex_lt(#[trigger] keys[j], keys[i])
    &&& forall|j: int| 0 <= j < i ==> lex_lt(keys[i], #[trigger] keys[j])
}

/// The position of the survivor of a group under a strategy.
pub open spec fn survivor_at(paths: Seq<Seq<char>>, mtimes: Seq<i128>, s: KeepStrategy, i: int) -> bool {
    is_first_least(survivor_keys(paths, mtimes, s), i)
}

pub proof fn lemma_lex_cons(x: int, a: Seq<int>, y: int, b: Seq<int>)
    ensures
        lex_lt(seq![x] + a, seq![y] + b) == (x < y || (x == y && lex_lt(a, b))),
{
    assert((seq![x] + a).drop_first() =~= a);
    assert((seq![y] + b).drop_first() =~= b);
}

/// The first least position is unique.
pub proof fn lemma_first_least_unique(keys: Seq<Seq<int>>, i: int, j: int)
    requires
        is_first_least(keys, i),
        is_first_least(keys, j),
    ensures
        i == j,
{
    if i < j {
        assert(lex_lt(keys[j], keys[i]));
    } else if j < i {
        assert(lex_lt(keys[i], keys[j]));
    }
}

proof fn lemma_encode_concat(p: Seq<char>, q: Seq<char>)
    ensures
        vstd::utf8::encode_utf8(p + q) == vstd::utf8::encode_utf8(p) + vstd::utf8::encode_utf8(q),
    decreases p.len(),
{
    if p.len() == 0 {
        assert(p + q =~= q);
        assert(vstd::utf8::encode_utf8(p) + vstd::utf8::encode_utf8(q) =~= vstd::utf8::encode_utf8(q));
    } else {
        lemma_encode_concat(p.drop_first(), q);
        assert((p + q).drop_first() =~= p.drop_first() + q);
        assert((p + q)[0] == p[0]);
        let a = vstd::utf8::encode_scalar(p[0] as u32);
        assert(a + (vstd::utf8::encode_utf8(p.drop_first()) + vstd::utf8::encode_utf8(q))
            =~= (a + vstd::utf8::encode_utf8(p.drop_first())) + vstd::utf8::encode_utf8(q));
    }
}

proof fn lemma_encode_len(p: Seq<char>)
    ensures
        p.len() <= vstd::utf8::encode_utf8(p).len() <= 4 * p.len(),
        (forall|i: int| 0 <= i < p.len() ==> (#[trigger] p[i] as u32) < 128) ==> vstd::utf8::encode_utf8(p).len() == p.len(),
    decreases p.len(),
{
    if p.len() > 0 {
        lemma_encode_len(p.drop_first());
        if forall|i: int| 0 <= i < p.len() ==> (#[trigger] p[i] as u32) < 128 {
            assert forall|i: int| 0 <= i < p.drop_first().len() implies (#[trigger] p.drop_first()[i] as u32) < 128 by {
                assert(p.drop_first()[i] == p[i + 1]);
            }
            assert((p[0] as u32) < 128);
        }
    }
}

/// The length of a path counts the whole path, every character as one to
/// four bytes (one for an ASCII character): two pieces of a path put
/// together are as long as both of them.
pub proof fn lemma_byte_len(p: Seq<char>, q: Seq<char>)
    requires
        vstd::utf8::encode_utf8(p + q).len() <= usize::MAX,
    ensures
        byte_len(p + q) == byte_len(p) + byte_len(q),
        p.len() <= byte_len(p) <= 4 * p.len(),
        (forall|i: int| 0 <= i < p.len() ==> (#[trigger] p[i] as u32) < 128) ==> byte_len(p) == p.len(),
{
    lemma_encode_concat(p, q);
    lemma_encode_len(p);
    lemma_encode_len(q);
    lemma_encode_len(p + q);
}

/// The length of a path in bytes.
pub fn path_len(p: &str) -> (r: usize)
    ensures
        r == byte_len(p@),
{
    p.len()
}

fn survivor_less(s: KeepStrategy, pa: &String, ka: &Vec<u64>, ma: i128, pb: &String, kb: &Vec<u64>, mb: i128) -> (r: bool)
    requires
        ints(ka@) == path_key(pa@),
        ints(kb@) == path_key(pb@),
    ensures
        r == lex_lt(survivor_key(s, pa@, ma as int), survivor_key(s, pb@, mb as int)),
{
    match s {
        KeepStrategy::First => key_lt(ka, kb),
        KeepStrategy::ShortestPath => {
            let la = path_len(pa.as_str());
            let lb = path_len(pb.as_str());
            proof {
                lemma_lex_cons(byte_len(pa@), path_key(pa@), byte_len(pb@), path_key(pb@));
            }
            la < lb || (la == lb && key_lt(ka, kb))
        },
        KeepStrategy::Oldest => {
            proof {
                lemma_lex_cons(ma as int, path_key(pa@), mb as int, path_key(pb@));
            }
            ma < mb || (ma == mb && key_lt(ka, kb))
        },
        KeepStrategy::Newest => {
            proof {
                lemma_lex_cons(-ma, path_key(pa@), -mb, path_key(pb@));
            }
            ma > mb || (ma == mb && key_lt(ka, kb))
        },
    }
}

fn mtime_of(mtimes: &Vec<i128>, i: usize) -> (m: i128)
    ensures
        m as int == mtime_at(mtimes@, i as int),
{
    if i < mtimes.len() {
        mtimes[i]
    } else {
        0
    }
}

/// The position of the surviving path: the first one with the least key.
pub fn survivor_index(paths: &Vec<String>, mtimes: &Vec<i128>, strategy: KeepStrategy) -> (r: usize)
    requires
        paths.len() > 0,
    ensures
        survivor_at(strs(paths@), mtimes@, strategy, r as int),
{
    let ghost keys = survivor_keys(strs(paths@), mtimes@, strategy);
    let mut best: usize = 0;
    let mut best_key = path_key_of(paths[0].as_str());
    let mut best_m = mtime_of(mtimes, 0);
    let mut j: usize = 1;
    proof {
        lemma_lex_irreflexive(keys[0]);
    }
    while j < paths.len()
        invariant
            keys == survivor_keys(strs(paths@), mtimes@, strategy),
            0 <= best < j <= paths.len(),
            ints(best_key@) == path_key(paths@[best as int]@),
            best_m as int == mtime_at(mtimes@, best as int),
            forall|k: int| 0 <= k < j ==> !lex_lt(#[trigger] keys[k], keys[best as int]),
            forall|k: int| 0 <= k < best ==> lex_lt(keys[best as int], #[trigger] keys[k]),
        decreases paths.len() - j,
    {
        let kj = path_key_of(paths[j].as_str());
        let mj = mtime_of(mtimes, j);
        let less = survivor_less(strategy, &paths[j], &kj, mj, &paths[best], &best_key, best_m);
        assert(keys[j as int] == survivor_key(strategy, paths@[j as int]@, mj as int));
        assert(keys[best as int] == survivor_key(strategy, paths@[best as int]@, best_m as int));
        if less {
            proof {
                assert forall|k: int| 0 <= k < j + 1 implies !lex_lt(#[trigger] keys[k], keys[j as int]) by {
                    if k < j && lex_lt(keys[k], keys[j as int]) {
                        lemma_lex_transitive(keys[k], keys[j as int], keys[best as int]);
                    }
                    if k == j {
                        lemma_lex_irreflexive(keys[j as int]);
                    }
                }
                assert forall|k: int| 0 <= k < j implies lex_lt(keys[j as int], #[trigger] keys[k]) by {
                    if k < best {
                        lemma_lex_transitive(keys[j as int], keys[best as int], keys[k]);
                    } else if k > best {
                        lemma_lex_total(keys[k], keys[best as int]);
                        if keys[k] != keys[best as int] {
                            lemma_lex_transitive(keys[j as int], keys[best as int], keys[k]);
                        }
                    }
                }
            }
            best = j;
            best_key = kj;
            best_m = mj;
        }
        j = j + 1;
    }
    best
}

/// Choose the surviving path from a non-empty group of duplicate paths.
/// `mtimes` gives each path's modification time, and is needed only by the
/// strategies that look at times.
pub fn choose_survivor(paths: &Vec<String>, mtimes: &Vec<i128>, strategy: KeepStrategy) -> (r: String)
    requires
        paths.len() > 0,
    ensures
        exists|i: int| survivor_at(strs(paths@), mtimes@, strategy, i) && r@ == paths@[i]@,
{
    let i = survivor_index(paths, mtimes, strategy);
    paths[i].clone()
}

/// The survivor by modification time: the oldest, or else the newest.
pub fn pick_by_mtime(paths: &Vec<String>, mtimes: &Vec<i128>, oldest: bool) -> (r: String)
    requires
        paths.len() > 0,
    ensures
        exists|i: int| survivor_at(strs(paths@), mtimes@,
            if oldest { KeepStrategy::Oldest } else { KeepStrategy::Newest }, i) && r@ == paths@[i]@,
{
    choose_survivor(paths, mtimes, if oldest { KeepStrategy::Oldest } else { KeepStrategy::Newest })
}

} // verus!
