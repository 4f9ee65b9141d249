//! Lexicographic order on integer sequences, the order in which every
//! sort of this crate arranges its items.
use vstd::prelude::*;

verus! {

/// Strict lexicographic order; a proper prefix comes first.
pub open spec fn lex_lt(a: Seq<int>, b: Seq<int>) -> bool
    decreases a.len(),
{
    if a.len() == 0 {
        b.len() > 0
    } else if b.len() == 0 {
        false
    } else if a[0] < b[0] {
        true
    } else if a[0] > b[0] {
        false
    } else {
        lex_lt(a.drop_first(), b.drop_first())
    }
}

pub open spec fn lex_le(a: Seq<int>, b: Seq<int>) -> bool {
    a == b || lex_lt(a, b)
}

/// The characters of a text as integers, their code points.
pub open spec fn codes(s: Seq<char>) -> Seq<int> {
    s.map_values(|c: char| (c as u32) as int)
}

/// The view of a machine key as integers.
pub open spec fn ints(k: Seq<u64>) -> Seq<int> {
    k.map_values(|x: u64| x as int)
}

pub proof fn lemma_lex_irreflexive(a: Seq<int>)
    ensures
        !lex_lt(a, a),
    decreases a.len(),
{
    if a.len() > 0 {
        lemma_lex_irreflexive(a.drop_first());
    }
}

pub proof fn lemma_lex_asymmetric(a: Seq<int>, b: Seq<int>)
    ensures
        !(lex_lt(a, b) && lex_lt(b, a)),
    decreases a.len(),
{
    if a.len() > 0 && b.len() > 0 && a[0] == b[0] {
        lemma_lex_asymmetric(a.drop_first(), b.drop_first());
    }
}

pub proof fn lemma_lex_transitive(a: Seq<int>, b: Seq<int>, c: Seq<int>)
    requires
        lex_lt(a, b),
        lex_lt(b, c),
    ensures
        lex_lt(a, c),
    decreases a.len(),
{
    if a.len() > 0 && b.len() > 0 && c.len() > 0 && a[0] == b[0] && b[0] == c[0] {
        lemma_lex_transitive(a.drop_first(), b.drop_first(), c.drop_first());
    }
}

pub proof fn lemma_lex_total(a: Seq<int>, b: Seq<int>)
    ensures
        a == b || lex_lt(a, b) || lex_lt(b, a),
    decreases a.len(),
{
    if a.len() > 0 && b.len() > 0 && a[0] == b[0] {
        lemma_lex_total(a.drop_first(), b.drop_first());
        if a.drop_first() == b.drop_first() {
            assert(a =~= seq![a[0]] + a.drop_first());
            assert(b =~= seq![b[0]] + b.drop_first());
        }
    } else if a.len() == 0 && b.len() == 0 {
        assert(a =~= b);
    }
}

pub proof fn lemma_lex_le_transitive(a: Seq<int>, b: Seq<int>, c: Seq<int>)
    requires
        lex_le(a, b),
        lex_le(b, c),
    ensures
        lex_le(a, c),
{
    if lex_lt(a, b) && lex_lt(b, c) {
        lemma_lex_transitive(a, b, c);
    }
}

/// Are two machine keys equal?
pub fn key_eq(a: &Vec<u64>, b: &Vec<u64>) -> (r: bool)
    ensures
        r == (ints(a@) == ints(b@)),
{
    let lt = key_lt(a, b);
    let gt = key_lt(b, a);
    proof {
        lemma_lex_total(ints(a@), ints(b@));
        if ints(a@) == ints(b@) {
            lemma_lex_irreflexive(ints(a@));
        }
    }
    !lt && !gt
}

/// Exact lexicographic comparison of two machine keys.
pub fn key_lt(a: &Vec<u64>, b: &Vec<u64>) -> (r: bool)
    ensures
        r == lex_lt(ints(a@), ints(b@)),
{
    let mut i: usize = 0;
    assert(ints(a@).skip(0) =~= ints(a@));
    assert(ints(b@).skip(0) =~= ints(b@));
    while i < a.len() && i < b.len()
        invariant
            i <= a.len(),
            i <= b.len(),
            lex_lt(ints(a@), ints(b@)) == lex_lt(ints(a@).skip(i as int), ints(b@).skip(i as int)),
        decreases a.len() - i,
    {
        let ghost sa = ints(a@).skip(i as int);
        let ghost sb = ints(b@).skip(i as int);
        if a[i] < b[i] {
            assert(sa[0] == a@[i as int] as int);
            return true;
        } else if a[i] > b[i] {
            assert(sb[0] == b@[i as int] as int);
            return false;
        }
        assert(sa.drop_first() =~= ints(a@).skip(i + 1));
        assert(sb.drop_first() =~= ints(b@).skip(i + 1));
        i = i + 1;
    }
    let ghost sa = ints(a@).skip(i as int);
    let ghost sb = ints(b@).skip(i as int);
    if i == a.len() {
        assert(sa.len() == 0);
        i < b.len()
    } else {
        assert(sb.len() == 0);
        false
    }
}

} // verus!
