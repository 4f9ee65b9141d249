//! The order and equality of paths: component by component, as
//! `std::path::Path` orders and compares them on Unix, encoded as an
//! integer key. These are Unix paths: `/` is the only separator, and the
//! program that uses this library is built for Unix only.
//!
//! A path splits at `/` into components: a leading `/` is the root, a
//! leading lone `.` is the current directory, `..` is the parent, and empty
//! and (other) `.` segments vanish. Components compare by kind first
//! (root < current < parent < normal), normal ones by their characters;
//! a path that is a proper prefix of another, component-wise, comes first.
use vstd::prelude::*;
use crate::lex::{ints, lex_le, lex_lt, codes};
use crate::model::strs;
use crate::sort::{sort_keyed, keyed_sorted, kle, key_of, values_of, lemma_multiset_map};
use crate::text::chars_of;

verus! {

/// The segments of `s` between slashes (an empty string has one empty segment).
pub open spec fn split_slash(s: Seq<char>) -> Seq<Seq<char>>
    decreases s.len(),
{
    if s.len() == 0 {
        seq![Seq::<char>::empty()]
    } else {
        let prev = split_slash(s.drop_last());
        if s.last() == '/' {
            prev.push(Seq::<char>::empty())
        } else {
            prev.update(prev.len() - 1, prev.last().push(s.last()))
        }
    }
}

/// The key of one segment: nothing for an empty or `.` segment, a parent
/// mark for `..`, and otherwise a normal mark, the characters and an end mark.
pub open spec fn seg_code(t: Seq<char>) -> Seq<int> {
    if t.len() == 0 || t == seq!['.'] {
        Seq::empty()
    } else if t == seq!['.', '.'] {
        seq![3int]
    } else {
        seq![4int] + t.map_values(|c: char| (c as u32) as int + 1) + seq![0int]
    }
}

pub open spec fn segs_code(segs: Seq<Seq<char>>) -> Seq<int>
    decreases segs.len(),
{
    if segs.len() == 0 {
        Seq::empty()
    } else {
        segs_code(segs.drop_last()) + seg_code(segs.last())
    }
}

/// The ordering key of a path.
pub open spec fn path_key(s: Seq<char>) -> Seq<int> {
    let segs = split_slash(s);
    if s.len() > 0 && s[0] == '/' {
        seq![1int] + segs_code(segs)
    } else if segs[0] == seq!['.'] {
        seq![2int] + segs_code(segs)
    } else {
        segs_code(segs)
    }
}

/// A normal path component: not empty, without `/`, neither `.` nor `..`.
pub open spec fn is_name(x: Seq<char>) -> bool {
    &&& x.len() > 0
    &&& !x.contains('/')
    &&& x != seq!['.']
    &&& x != seq!['.', '.']
}

proof fn lemma_split_len(s: Seq<char>)
    ensures
        split_slash(s).len() >= 1,
    decreases s.len(),
{
    if s.len() > 0 {
        lemma_split_len(s.drop_last());
    }
}

/// Splitting a path that ends in `/` and a name gives the segments before
/// the `/`, then the name.
proof fn lemma_split_dir(dir: Seq<char>, x: Seq<char>)
    requires
        !x.contains('/'),
    ensures
        split_slash(dir + seq!['/'] + x) == split_slash(dir).push(x),
    decreases x.len(),
{
    let s = dir + seq!['/'] + x;
    if x.len() == 0 {
        assert(s.drop_last() =~= dir);
        assert(s.last() == '/');
        assert(x =~= Seq::<char>::empty());
        assert(split_slash(s) == split_slash(s.drop_last()).push(Seq::<char>::empty()));
    } else {
        let xp = x.drop_last();
        assert(!xp.contains('/')) by {
            if xp.contains('/') {
                let i = choose|i: int| 0 <= i < xp.len() && xp[i] == '/';
                assert(x[i] == '/');
            }
        }
        lemma_split_dir(dir, xp);
        assert(s.drop_last() =~= dir + seq!['/'] + xp);
        assert(s.last() == x.last());
        assert(x.last() != '/') by {
            assert(x[x.len() - 1] == x.last());
        }
        let prev = split_slash(dir).push(xp);
        assert(prev.update(prev.len() - 1, prev.last().push(s.last())) =~= split_slash(dir).push(x)) by {
            assert(xp.push(x.last()) =~= x);
        }
    }
}

proof fn lemma_lex_common_prefix(p: Seq<int>, a: Seq<int>, b: Seq<int>)
    ensures
        lex_lt(p + a, p + b) == lex_lt(a, b),
    decreases p.len(),
{
    if p.len() > 0 {
        lemma_lex_common_prefix(p.drop_first(), a, b);
        assert((p + a).drop_first() =~= p.drop_first() + a);
        assert((p + b).drop_first() =~= p.drop_first() + b);
    } else {
        assert(p + a =~= a);
        assert(p + b =~= b);
    }
}

/// The code of a name's characters, shifted up by one and closed by a 0,
/// orders as the characters do, a proper prefix first.
proof fn lemma_name_codes(x: Seq<char>, y: Seq<char>)
    ensures
        lex_lt(x.map_values(|c: char| (c as u32) as int + 1) + seq![0int],
            y.map_values(|c: char| (c as u32) as int + 1) + seq![0int]) == lex_lt(codes(x), codes(y)),
    decreases x.len(),
{
    let a = x.map_values(|c: char| (c as u32) as int + 1) + seq![0int];
    let b = y.map_values(|c: char| (c as u32) as int + 1) + seq![0int];
    if x.len() > 0 && y.len() > 0 {
        assert(a[0] == (x[0] as u32) as int + 1);
        assert(b[0] == (y[0] as u32) as int + 1);
        assert(codes(x)[0] == (x[0] as u32) as int);
        assert(codes(y)[0] == (y[0] as u32) as int);
        lemma_name_codes(x.drop_first(), y.drop_first());
        assert(a.drop_first() =~= x.drop_first().map_values(|c: char| (c as u32) as int + 1) + seq![0int]);
        assert(b.drop_first() =~= y.drop_first().map_values(|c: char| (c as u32) as int + 1) + seq![0int]);
        assert(codes(x).drop_first() =~= codes(x.drop_first()));
        assert(codes(y).drop_first() =~= codes(y.drop_first()));
    } else if x.len() == 0 && y.len() > 0 {
        assert(a[0] == 0);
        assert(b[0] == (y[0] as u32) as int + 1);
    } else if x.len() > 0 {
        assert(a[0] == (x[0] as u32) as int + 1);
        assert(b[0] == 0);
    } else {
        assert(a =~= b);
        crate::lex::lemma_lex_irreflexive(a);
    }
}

/// Paths in one directory come in the character order of their last
/// components, a proper prefix first, whatever their lengths.
pub proof fn lemma_names_in_order(dir: Seq<char>, x: Seq<char>, y: Seq<char>)
    requires
        is_name(x),
        is_name(y),
    ensures
        lex_lt(path_key(dir + seq!['/'] + x), path_key(dir + seq!['/'] + y)) == lex_lt(codes(x), codes(y)),
{
    let sx = dir + seq!['/'] + x;
    let sy = dir + seq!['/'] + y;
    lemma_split_dir(dir, x);
    lemma_split_dir(dir, y);
    lemma_split_len(dir);
    let d = split_slash(dir);
    assert(split_slash(sx)[0] == d[0]);
    assert(split_slash(sy)[0] == d[0]);
    assert(sx[0] == sy[0]) by {
        if dir.len() > 0 {
            assert(sx[0] == dir[0]);
            assert(sy[0] == dir[0]);
        } else {
            assert(sx[0] == '/');
            assert(sy[0] == '/');
        }
    }
    assert(d.push(x).drop_last() =~= d);
    assert(d.push(y).drop_last() =~= d);
    let body = segs_code(d);
    assert(segs_code(d.push(x)) == body + seg_code(x));
    assert(segs_code(d.push(y)) == body + seg_code(y));
    let pre: Seq<int> = if sx.len() > 0 && sx[0] == '/' {
        seq![1int]
    } else if d[0] == seq!['.'] {
        seq![2int]
    } else {
        Seq::empty()
    };
    assert(path_key(sx) =~= (pre + body) + seg_code(x));
    assert(path_key(sy) =~= (pre + body) + seg_code(y));
    lemma_lex_common_prefix(pre + body, seg_code(x), seg_code(y));
    let ax = x.map_values(|c: char| (c as u32) as int + 1) + seq![0int];
    let ay = y.map_values(|c: char| (c as u32) as int + 1) + seq![0int];
    assert(seg_code(x) =~= seq![4int] + ax);
    assert(seg_code(y) =~= seq![4int] + ay);
    crate::keep::lemma_lex_cons(4, ax, 4, ay);
    lemma_name_codes(x, y);
}

/// Two path texts name the same path: they are equal component by
/// component (repeated separators, a trailing separator and inner `.`
/// components make no difference).
pub open spec fn same_path(a: Seq<char>, b: Seq<char>) -> bool {
    path_key(a) == path_key(b)
}

fn push_seg_code(key: &mut Vec<u64>, t: &Vec<char>)
    ensures
        ints(final(key)@) == ints(old(key)@) + seg_code(t@),
{
    let ghost k0 = ints(key@);
    if t.len() == 0 || (t.len() == 1 && t[0] == '.') {
        proof {
            if t.len() == 1 {
                assert(t@ =~= seq!['.']);
            }
            assert(ints(key@) =~= k0 + seg_code(t@));
        }
        return;
    }
    if t.len() == 2 && t[0] == '.' && t[1] == '.' {
        key.push(3);
        proof {
            assert(t@ =~= seq!['.', '.']);
            assert(ints(key@) =~= k0 + seg_code(t@));
        }
        return;
    }
    proof {
        if t@ == seq!['.'] {
            assert(t@.len() == 1);
        }
        if t@ == seq!['.', '.'] {
            assert(t@.len() == 2 && t@[0] == '.' && t@[1] == '.');
        }
    }
    key.push(4);
    let mut i: usize = 0;
    while i < t.len()
        invariant
            i <= t.len(),
            ints(key@) =~= k0 + seq![4int] + t@.take(i as int).map_values(|c: char| (c as u32) as int + 1),
        decreases t.len() - i,
    {
        let c = t[i];
        let cu: u32 = c as u32;
        let code: u64 = cu as u64 + 1;
        let ghost kb = key@;
        key.push(code);
        proof {
            assert(ints(key@) =~= ints(kb).push((c as u32) as int + 1));
            assert(t@.take(i + 1) =~= t@.take(i as int).push(c));
        }
        i = i + 1;
    }
    let ghost kb = key@;
    key.push(0);
    proof {
        assert(ints(key@) =~= ints(kb).push(0));
        assert(t@.take(i as int) =~= t@);
        assert(ints(key@) =~= k0 + seg_code(t@));
    }
}

fn is_dot(t: &Vec<char>) -> (r: bool)
    ensures
        r == (t@ == seq!['.']),
{
    let r = t.len() == 1 && t[0] == '.';
    proof {
        if t@ == seq!['.'] {
            assert(t@.len() == 1);
        }
        if r {
            assert(t@ =~= seq!['.']);
        }
    }
    r
}

/// The ordering key of a path, computed.
pub fn path_key_of(s: &str) -> (r: Vec<u64>)
    ensures
        ints(r@) == path_key(s@),
{
    let cs = chars_of(s);
    let mut body: Vec<u64> = Vec::new();
    let mut cur: Vec<char> = Vec::new();
    let mut first_dot = false;
    let mut seen_first = false;
    let ghost mut done: Seq<Seq<char>> = Seq::empty();
    let mut i: usize = 0;
    proof {
        assert(cs@.take(0) =~= Seq::<char>::empty());
    }
    while i < cs.len()
        invariant
            i <= cs.len(),
            split_slash(cs@.take(i as int)) =~= done.push(cur@),
            ints(body@) == segs_code(done),
            seen_first == (done.len() > 0),
            seen_first ==> first_dot == (done[0] == seq!['.']),
        decreases cs.len() - i,
    {
        let c = cs[i];
        proof {
            assert(cs@.take(i + 1).drop_last() =~= cs@.take(i as int));
        }
        if c == '/' {
            let ghost d0 = done;
            if !seen_first {
                first_dot = is_dot(&cur);
                seen_first = true;
            }
            push_seg_code(&mut body, &cur);
            proof {
                done = done.push(cur@);
                assert(done.drop_last() =~= d0);
            }
            cur = Vec::new();
        } else {
            cur.push(c);
        }
        i = i + 1;
    }
    let ghost d0 = done;
    if !seen_first {
        first_dot = is_dot(&cur);
    }
    push_seg_code(&mut body, &cur);
    proof {
        done = done.push(cur@);
        assert(done.drop_last() =~= d0);
        assert(cs@.take(i as int) =~= cs@);
    }
    let mut r: Vec<u64> = Vec::new();
    if cs.len() > 0 && cs[0] == '/' {
        r.push(1);
    } else if first_dot {
        r.push(2);
    }
    let ghost r0 = r@;
    let ghost b0 = body@;
    r.append(&mut body);
    proof {
        assert(ints(r@) =~= ints(r0) + ints(b0));
    }
    r
}


/// Paths in non-decreasing path order.
pub open spec fn paths_sorted(ps: Seq<Seq<char>>) -> bool {
    forall|a: int, b: int| 0 <= a < b < ps.len() ==> lex_le(#[trigger] path_key(ps[a]), #[trigger] path_key(ps[b]))
}

/// Sorts paths into path order.
pub fn sort_paths(paths: Vec<String>) -> (r: Vec<String>)
    ensures
        paths_sorted(strs(r@)),
        strs(r@).to_multiset() == strs(paths@).to_multiset(),
{
    let ghost src = paths@;
    let mut pairs: Vec<(Vec<u64>, String)> = Vec::new();
    for p in it: paths.into_iter()
        invariant
            pairs@.len() == it.index(),
            it.seq() == src,
            forall|k: int| 0 <= k < pairs@.len() ==> #[trigger] pairs@[k].1 == src[k]
                && key_of(pairs@[k]) == path_key(src[k]@),
    {
        let key = path_key_of(p.as_str());
        pairs.push((key, p));
    }
    let ghost input = pairs@;
    assert(input.map_values(|x: (Vec<u64>, String)| x.1@) =~= strs(src));
    let sorted = sort_keyed(pairs);
    let ghost sv = sorted@;
    proof {
        assert forall|k: int| 0 <= k < sv.len() implies key_of(#[trigger] sv[k]) == path_key(sv[k].1@) by {
            sv.to_multiset_ensures();
            input.to_multiset_ensures();
            assert(sv.contains(sv[k]));
            assert(sv.to_multiset().count(sv[k]) > 0);
            assert(input.to_multiset().count(sv[k]) > 0);
            assert(input.contains(sv[k]));
        }
        lemma_multiset_map(sv, input, |x: (Vec<u64>, String)| x.1@);
    }
    let r = values_of(sorted);
    proof {
        assert(strs(r@) =~= sv.map_values(|x: (Vec<u64>, String)| x.1@));
        assert forall|a: int, b: int| 0 <= a < b < strs(r@).len() implies
            lex_le(#[trigger] path_key(strs(r@)[a]), #[trigger] path_key(strs(r@)[b])) by {
            assert(kle(sv[a], sv[b]));
        }
    }
    r
}
} // verus!
