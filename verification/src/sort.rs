//! A merge sort over items that carry a machine key, ordered
//! lexicographically by that key.
use vstd::prelude::*;
use crate::lex::{ints, lex_le, lemma_lex_total, lemma_lex_le_transitive, lemma_lex_asymmetric, key_lt};

verus! {

broadcast use vstd::seq_lib::group_seq_properties, vstd::multiset::group_multiset_axioms;

/// The key of a keyed item, as integers.
pub open spec fn key_of<T>(x: (Vec<u64>, T)) -> Seq<int> {
    ints(x.0@)
}

pub open spec fn kle<T>(x: (Vec<u64>, T), y: (Vec<u64>, T)) -> bool {
    lex_le(key_of(x), key_of(y))
}

/// Keys never decrease along the sequence.
pub open spec fn keyed_sorted<T>(s: Seq<(Vec<u64>, T)>) -> bool {
    forall|a: int, b: int| 0 <= a < b < s.len() ==> #[trigger] kle(s[a], s[b])
}

spec fn keyed_desc<T>(s: Seq<(Vec<u64>, T)>) -> bool {
    forall|a: int, b: int| 0 <= a < b < s.len() ==> #[trigger] kle(s[b], s[a])
}

/// Every item of `s` is at most `x`.
spec fn all_le<T>(s: Seq<(Vec<u64>, T)>, x: (Vec<u64>, T)) -> bool {
    forall|i: int| 0 <= i < s.len() ==> #[trigger] kle(s[i], x)
}

proof fn lemma_pop_multiset<A>(s: Seq<A>)
    requires
        s.len() > 0,
    ensures
        s.to_multiset() == s.drop_last().to_multiset().insert(s.last()),
{
    assert(s =~= s.drop_last().push(s.last()));
}

/// Takes the larger of the two last items, or the one that remains.
fn merge<T>(l0: Vec<(Vec<u64>, T)>, r0: Vec<(Vec<u64>, T)>) -> (res: Vec<(Vec<u64>, T)>)
    requires
        keyed_sorted(l0@),
        keyed_sorted(r0@),
    ensures
        keyed_sorted(res@),
        res@.to_multiset() == l0@.to_multiset().add(r0@.to_multiset()),
{
    let mut l = l0;
    let mut r = r0;
    let mut out: Vec<(Vec<u64>, T)> = Vec::new();
    while l.len() > 0 || r.len() > 0
        invariant
            keyed_sorted(l@),
            keyed_sorted(r@),
            keyed_desc(out@),
            forall|a: int| 0 <= a < out@.len() ==> all_le(l@, #[trigger] out@[a]),
            forall|a: int| 0 <= a < out@.len() ==> all_le(r@, #[trigger] out@[a]),
            out@.to_multiset().add(l@.to_multiset()).add(r@.to_multiset())
                == l0@.to_multiset().add(r0@.to_multiset()),
        decreases l.len() + r.len(),
    {
        let take_right = if l.len() == 0 {
            true
        } else if r.len() == 0 {
            false
        } else {
            !key_lt(&r[r.len() - 1].0, &l[l.len() - 1].0)
        };
        let ghost ol = l@;
        let ghost or = r@;
        let ghost oout = out@;
        let x = if take_right {
            r.pop().unwrap()
        } else {
            l.pop().unwrap()
        };
        proof {
            if take_right {
                lemma_pop_multiset(or);
                assert(x == or.last());
                // x is at least every remaining item
                assert forall|i: int| 0 <= i < r@.len() implies #[trigger] kle(r@[i], x) by {
                    assert(kle(or[i], or[or.len() - 1]));
                }
                assert forall|i: int| 0 <= i < l@.len() implies #[trigger] kle(l@[i], x) by {
                    lemma_lex_total(key_of(or.last()), key_of(ol.last()));
                    if i < ol.len() - 1 {
                        assert(kle(ol[i], ol[ol.len() - 1]));
                    }
                    lemma_lex_le_transitive(key_of(ol[i]), key_of(ol.last()), key_of(x));
                }
            } else {
                lemma_pop_multiset(ol);
                assert(x == ol.last());
                assert forall|i: int| 0 <= i < l@.len() implies #[trigger] kle(l@[i], x) by {
                    assert(kle(ol[i], ol[ol.len() - 1]));
                }
                assert forall|i: int| 0 <= i < r@.len() implies #[trigger] kle(r@[i], x) by {
                    if i < or.len() - 1 {
                        assert(kle(or[i], or[or.len() - 1]));
                    }
                    lemma_lex_le_transitive(key_of(or[i]), key_of(or.last()), key_of(x));
                }
            }
            assert forall|a: int| 0 <= a < oout.len() implies #[trigger] kle(x, oout[a]) by {
                assert(all_le(ol, oout[a]));
                assert(all_le(or, oout[a]));
                if take_right {
                    assert(kle(or[or.len() - 1], oout[a]));
                } else {
                    assert(kle(ol[ol.len() - 1], oout[a]));
                }
            }
        }
        out.push(x);
        proof {
            assert forall|a: int, b: int| 0 <= a < b < out@.len() implies #[trigger] kle(out@[b], out@[a]) by {
                if b < oout.len() {
                    assert(kle(oout[b], oout[a]));
                } else {
                    assert(kle(x, oout[a]));
                }
            }
            assert forall|a: int| 0 <= a < out@.len() implies all_le(l@, #[trigger] out@[a]) by {
                if a < oout.len() {
                    assert(all_le(ol, oout[a]));
                    assert forall|i: int| 0 <= i < l@.len() implies #[trigger] kle(l@[i], out@[a]) by {
                        assert(kle(ol[i], oout[a]));
                    }
                }
            }
            assert forall|a: int| 0 <= a < out@.len() implies all_le(r@, #[trigger] out@[a]) by {
                if a < oout.len() {
                    assert(all_le(or, oout[a]));
                    assert forall|i: int| 0 <= i < r@.len() implies #[trigger] kle(r@[i], out@[a]) by {
                        assert(kle(or[i], oout[a]));
                    }
                }
            }
            assert(out@.to_multiset() == oout.to_multiset().insert(x));
        }
    }
    // `out` is descending: reverse it.
    let mut res: Vec<(Vec<u64>, T)> = Vec::new();
    while out.len() > 0
        invariant
            keyed_desc(out@),
            keyed_sorted(res@),
            forall|a: int, b: int| 0 <= a < out@.len() && 0 <= b < res@.len() ==> #[trigger] kle(res@[b], out@[a]),
            res@.to_multiset().add(out@.to_multiset())
                == l0@.to_multiset().add(r0@.to_multiset()),
        decreases out.len(),
    {
        let ghost oout = out@;
        let ghost ores = res@;
        let x = out.pop().unwrap();
        proof {
            lemma_pop_multiset(oout);
        }
        res.push(x);
        proof {
            assert forall|a: int, b: int| 0 <= a < b < res@.len() implies #[trigger] kle(res@[a], res@[b]) by {
                if b < ores.len() {
                    assert(kle(ores[a], ores[b]));
                } else {
                    assert(kle(ores[a], oout[oout.len() - 1]));
                }
            }
            assert forall|a: int, b: int| 0 <= a < out@.len() && 0 <= b < res@.len() implies #[trigger] kle(res@[b], out@[a]) by {
                if b < ores.len() {
                    assert(kle(ores[b], oout[a]));
                } else {
                    assert(kle(oout[oout.len() - 1], oout[a]));
                }
            }
            assert(res@.to_multiset() == ores.to_multiset().insert(x));
        }
    }
    res
}

/// Sorts items by key; the result is a rearrangement of the input.
pub fn sort_keyed<T>(v: Vec<(Vec<u64>, T)>) -> (r: Vec<(Vec<u64>, T)>)
    ensures
        keyed_sorted(r@),
        r@.to_multiset() == v@.to_multiset(),
    decreases v.len(),
{
    if v.len() <= 1 {
        return v;
    }
    let mut left = v;
    let ghost whole = left@;
    let mid = left.len() / 2;
    let right = left.split_off(mid);
    proof {
        assert(whole =~= left@ + right@);
        vstd::seq_lib::lemma_multiset_commutative(left@, right@);
    }
    let ls = sort_keyed(left);
    let rs = sort_keyed(right);
    merge(ls, rs)
}


/// Rearranging a sequence rearranges its image under any function.
pub proof fn lemma_multiset_map<A, B>(s: Seq<A>, t: Seq<A>, f: spec_fn(A) -> B)
    requires
        s.to_multiset() == t.to_multiset(),
    ensures
        s.map_values(f).to_multiset() == t.map_values(f).to_multiset(),
    decreases s.len(),
{
    if s.len() == 0 {
        assert(t.to_multiset().len() == 0);
        assert(t.len() == 0);
        assert(s.map_values(f) =~= t.map_values(f));
    } else {
        let x = s.last();
        let s0 = s.drop_last();
        assert(s =~= s0.push(x));
        assert(s.to_multiset().count(x) > 0);
        assert(t.to_multiset().count(x) > 0);
        assert(t.contains(x));
        let i = choose|i: int| 0 <= i < t.len() && t[i] == x;
        let t0 = t.remove(i);
        assert(t0.to_multiset() == t.to_multiset().remove(x));
        assert(s0.to_multiset() == s.to_multiset().remove(x));
        lemma_multiset_map(s0, t0, f);
        assert(s.map_values(f) =~= s0.map_values(f).push(f(x)));
        assert(t.map_values(f).remove(i) =~= t0.map_values(f));
        assert(t.map_values(f)[i] == f(x));
        assert(t.map_values(f).remove(i).to_multiset() == t.map_values(f).to_multiset().remove(f(x)));
        assert(t.map_values(f).to_multiset().count(f(x)) > 0) by {
            assert(t.map_values(f).contains(f(x)));
        }
        assert(t.map_values(f).to_multiset() =~= t.map_values(f).to_multiset().remove(f(x)).insert(f(x)));
    }
}

/// The items of keyed pairs, in order.
pub fn values_of<T>(v: Vec<(Vec<u64>, T)>) -> (r: Vec<T>)
    ensures
        r@ == v@.map_values(|x: (Vec<u64>, T)| x.1),
{
    let mut r: Vec<T> = Vec::new();
    for x in it: v.into_iter()
        invariant
            r@ == it.seq().take(it.index() as int).map_values(|x: (Vec<u64>, T)| x.1),
    {
        proof {
            assert(it.seq().take(it.index() + 1).map_values(|x: (Vec<u64>, T)| x.1)
                =~= it.seq().take(it.index() as int).map_values(|x: (Vec<u64>, T)| x.1).push(x.1));
        }
        r.push(x.1);
    }
    r
}
} // verus!
