use vstd::prelude::*;

use crate::reduce::{
    is_last_occ,
    is_left_cut,
    is_right_cut,
    last_occ,
    lemma_last_occ_unique,
    lemma_left_cut_exists,
    lemma_left_cut_unique,
    lemma_right_cut_exists,
    lemma_right_cut_unique,
    left_cut,
    normal_form,
    right_cut,
};
use crate::word::{
    Sym,
    covers,
    is_overlap,
    lemma_covers_equal_count,
    lemma_max_overlap,
    lemma_n_letters_cons,
    lemma_n_letters_push,
    lemma_same_alph,
    max_overlap,
    merged,
    n_letters,
};

verus! {

/// `a` and `b` have the same letters.
pub open spec fn same_letters(a: Seq<Sym>, b: Seq<Sym>) -> bool {
    covers(a, b) && covers(b, a)
}

/// `k` is the position of the first occurrence of `c` in `l`.
pub open spec fn is_first_occ(l: Seq<Sym>, c: Sym, k: int) -> bool {
    &&& 0 <= k < l.len()
    &&& l[k] == c
    &&& forall|j: int| 0 <= j < k ==> l[j] != c
}

/// The position of the first occurrence of `c` in `l`.
pub open spec fn first_occ(l: Seq<Sym>, c: Sym) -> int {
    choose|k: int| is_first_occ(l, c, k)
}

/// What precedes the first `c` in `x`.
pub open spec fn before_first(x: Seq<Sym>, c: Sym) -> Seq<Sym> {
    x.take(first_occ(x, c))
}

/// What follows the last `c` in `x`.
pub open spec fn after_last(x: Seq<Sym>, c: Sym) -> Seq<Sym> {
    x.skip(last_occ(x, c) + 1)
}

/// A letter occurs in `a·b` exactly when it occurs in `a` or in `b`.
pub proof fn lemma_contains_concat(a: Seq<Sym>, b: Seq<Sym>)
    ensures
        forall|c: Sym| #[trigger] (a + b).contains(c) <==> a.contains(c) || b.contains(c),
{
    assert forall|c: Sym| #[trigger] (a + b).contains(c) <==> a.contains(c) || b.contains(c) by {
        if (a + b).contains(c) {
            let k = choose|k: int| 0 <= k < (a + b).len() && (a + b)[k] == c;
            if k >= a.len() {
                assert(b[k - a.len()] == c);
            }
        }
        if a.contains(c) {
            let k = choose|k: int| 0 <= k < a.len() && a[k] == c;
            assert((a + b)[k] == c);
        }
        if b.contains(c) {
            let k = choose|k: int| 0 <= k < b.len() && b[k] == c;
            assert((a + b)[a.len() + k] == c);
        }
    }
}

/// The one-letter word `x` holds `x` alone.
pub proof fn lemma_contains_single(x: Sym)
    ensures
        forall|c: Sym| #[trigger] seq![x].contains(c) <==> c == x,
{
    assert(seq![x][0] == x);
}

/// A word is the concatenation of its prefix and the rest.
pub proof fn lemma_split(x: Seq<Sym>, k: int)
    requires
        0 <= k <= x.len(),
    ensures
        x.take(k) + x.skip(k) == x,
        forall|c: Sym| #[trigger] x.contains(c) <==> x.take(k).contains(c) || x.skip(k).contains(c),
{
    assert(x.take(k) + x.skip(k) =~= x);
    lemma_contains_concat(x.take(k), x.skip(k));
}

/// A letter occurring at `k` has a first occurrence.
pub proof fn lemma_first_occ_from(l: Seq<Sym>, c: Sym, k: int)
    requires
        0 <= k < l.len(),
        l[k] == c,
    ensures
        is_first_occ(l, c, first_occ(l, c)),
    decreases k,
{
    if exists|j: int| 0 <= j < k && l[j] == c {
        let j = choose|j: int| 0 <= j < k && l[j] == c;
        lemma_first_occ_from(l, c, j);
    } else {
        assert(is_first_occ(l, c, k));
    }
}

/// A letter of `l` has a first occurrence in it.
pub proof fn lemma_first_occ_exists(l: Seq<Sym>, c: Sym)
    requires
        l.contains(c),
    ensures
        is_first_occ(l, c, first_occ(l, c)),
{
    let k = choose|k: int| 0 <= k < l.len() && l[k] == c;
    lemma_first_occ_from(l, c, k);
}

/// The first occurrence is the one `first_occ` names.
pub proof fn lemma_first_occ_unique(l: Seq<Sym>, c: Sym, k: int)
    requires
        is_first_occ(l, c, k),
    ensures
        first_occ(l, c) == k,
{
    lemma_first_occ_from(l, c, k);
    let k2 = first_occ(l, c);
    assert(is_first_occ(l, c, k2));
}

/// A letter occurring at `k` has a last occurrence.
pub proof fn lemma_last_occ_from(l: Seq<Sym>, c: Sym, k: int)
    requires
        0 <= k < l.len(),
        l[k] == c,
    ensures
        is_last_occ(l, c, last_occ(l, c)),
    decreases l.len() - k,
{
    if exists|j: int| k < j < l.len() && l[j] == c {
        let j = choose|j: int| k < j < l.len() && l[j] == c;
        lemma_last_occ_from(l, c, j);
    } else {
        assert(is_last_occ(l, c, k));
    }
}

/// A letter of `l` has a last occurrence in it.
pub proof fn lemma_last_occ_exists(l: Seq<Sym>, c: Sym)
    requires
        l.contains(c),
    ensures
        is_last_occ(l, c, last_occ(l, c)),
{
    let k = choose|k: int| 0 <= k < l.len() && l[k] == c;
    lemma_last_occ_from(l, c, k);
}

/// `i` is the left cut of `x` when `x[i]` does not occur before it and
/// `x[..=i]` has every letter of `x`.
pub proof fn lemma_left_cut_at(x: Seq<Sym>, i: int)
    requires
        0 <= i < x.len(),
        !x.take(i).contains(x[i]),
        covers(x.take(i + 1), x),
    ensures
        is_left_cut(x, i),
        left_cut(x) == i,
{
    assert(x.take(i + 1) == x.take(i).push(x[i]));
    lemma_n_letters_push(x.take(i), x[i]);
    lemma_split(x, i + 1);
    lemma_same_alph(x.take(i + 1), x);
    lemma_left_cut_unique(x, i);
}

/// `j` is the right cut of `x` when `x[j]` does not occur after it and
/// `x[j..]` has every letter of `x`.
pub proof fn lemma_right_cut_at(x: Seq<Sym>, j: int)
    requires
        0 <= j < x.len(),
        !x.skip(j + 1).contains(x[j]),
        covers(x.skip(j), x),
    ensures
        is_right_cut(x, j),
        right_cut(x) == j,
{
    assert(x.skip(j) == seq![x[j]] + x.skip(j + 1));
    lemma_n_letters_cons(x[j], x.skip(j + 1));
    lemma_split(x, j);
    lemma_same_alph(x.skip(j), x);
    lemma_right_cut_unique(x, j);
}

/// The letter at the left cut of `x` is new there, `x[..=i]` has every
/// letter of `x`, and `x[..i]` every letter but that one.
pub proof fn lemma_left_cut_facts(x: Seq<Sym>)
    requires
        x.len() > 0,
    ensures
        0 <= left_cut(x) < x.len(),
        !x.take(left_cut(x)).contains(x[left_cut(x)]),
        covers(x.take(left_cut(x) + 1), x),
        forall|c: Sym|
            x.contains(c) && c != x[left_cut(x)] ==> #[trigger] x.take(left_cut(x)).contains(c),
        n_letters(x.take(left_cut(x))) < n_letters(x),
{
    lemma_left_cut_exists(x);
    let i = left_cut(x);
    assert(x.take(i + 1) == x.take(i).push(x[i]));
    lemma_n_letters_push(x.take(i), x[i]);
    lemma_split(x, i + 1);
    lemma_covers_equal_count(x, x.take(i + 1));
    lemma_contains_concat(x.take(i), seq![x[i]]);
    lemma_contains_single(x[i]);
    assert(x.take(i + 1) =~= x.take(i) + seq![x[i]]);
}

/// The letter at the right cut of `x` does not occur after it, `x[j..]`
/// has every letter of `x`, and `x[j + 1..]` every letter but that one.
pub proof fn lemma_right_cut_facts(x: Seq<Sym>)
    requires
        x.len() > 0,
    ensures
        0 <= right_cut(x) < x.len(),
        !x.skip(right_cut(x) + 1).contains(x[right_cut(x)]),
        covers(x.skip(right_cut(x)), x),
        forall|c: Sym|
            x.contains(c) && c != x[right_cut(x)] ==> #[trigger] x.skip(right_cut(x) + 1).contains(
                c,
            ),
        n_letters(x.skip(right_cut(x) + 1)) < n_letters(x),
{
    lemma_right_cut_exists(x);
    let j = right_cut(x);
    assert(x.skip(j) == seq![x[j]] + x.skip(j + 1));
    lemma_n_letters_cons(x[j], x.skip(j + 1));
    lemma_split(x, j);
    lemma_covers_equal_count(x, x.skip(j));
    lemma_contains_concat(seq![x[j]], x.skip(j + 1));
    lemma_contains_single(x[j]);
}

/// A letter that does not occur before position `i` has its first
/// occurrence there.
pub proof fn lemma_first_occ_at(x: Seq<Sym>, i: int)
    requires
        0 <= i < x.len(),
        !x.take(i).contains(x[i]),
    ensures
        is_first_occ(x, x[i], i),
        first_occ(x, x[i]) == i,
{
    assert forall|k: int| 0 <= k < i implies x[k] != x[i] by {
        assert(x.take(i)[k] == x[k]);
    }
    lemma_first_occ_unique(x, x[i], i);
}

/// A merge starts with its left word, ends with its right word, and has
/// the letters of both.
pub proof fn lemma_merged_facts(l: Seq<Sym>, r: Seq<Sym>)
    ensures
        merged(l, r).len() == l.len() + r.len() - max_overlap(l, r),
        merged(l, r).take(l.len() as int) == l,
        merged(l, r).skip(merged(l, r).len() - r.len()) == r,
        merged(l, r).len() >= l.len(),
        merged(l, r).len() >= r.len(),
        forall|k: int| 0 <= k < l.len() ==> #[trigger] merged(l, r)[k] == l[k],
        forall|k: int|
            0 <= k < r.len() ==> #[trigger] merged(l, r)[merged(l, r).len() - r.len() + k] == r[k],
        forall|c: Sym| #[trigger] merged(l, r).contains(c) <==> l.contains(c) || r.contains(c),
{
    lemma_max_overlap(l, r);
    let o = max_overlap(l, r) as int;
    let cut = l.len() - o;
    let m = merged(l, r);
    assert(m.take(l.len() as int) =~= l) by {
        assert forall|k: int| 0 <= k < l.len() implies m[k] == l[k] by {
            if k >= cut {
                assert(l.subrange(cut, l.len() as int)[k - cut] == r.subrange(0, o)[k - cut]);
            }
        }
    }
    assert(m.skip(m.len() - r.len()) =~= r);
    lemma_contains_concat(l.subrange(0, cut), r);
    lemma_split(l, cut);
    assert forall|c: Sym| l.skip(cut).contains(c) implies r.contains(c) by {
        let k = choose|k: int| 0 <= k < l.skip(cut).len() && l.skip(cut)[k] == c;
        assert(l.subrange(cut, l.len() as int)[k] == r.subrange(0, o)[k]);
        assert(r[k] == c);
    }
    assert(l.take(cut) == l.subrange(0, cut));
}

/// The longest overlap is `o` when `o` is an overlap and no longer one is.
pub proof fn lemma_max_overlap_is(l: Seq<Sym>, r: Seq<Sym>, o: int)
    requires
        is_overlap(l, r, o),
        forall|o2: int| o < o2 ==> !is_overlap(l, r, o2),
    ensures
        max_overlap(l, r) == o,
{
    lemma_max_overlap(l, r);
}

/// The canonical form of a nonempty word `x`, with `p` the part before its
/// left cut letter `a` and `s` the part after its right cut letter `b`, is
/// the merge of `N(p)·a` with `b·N(s)`.
pub proof fn lemma_structure(x: Seq<Sym>)
    requires
        x.len() > 0,
    ensures
        normal_form(x) == merged(
            normal_form(x.take(left_cut(x))) + seq![x[left_cut(x)]],
            seq![x[right_cut(x)]] + normal_form(x.skip(right_cut(x) + 1)),
        ),
    decreases n_letters(x), 1nat,
{
    lemma_left_cut_facts(x);
    lemma_right_cut_facts(x);
    if left_cut(x) <= right_cut(x) {
        lemma_structure_ordered(x);
    } else {
        lemma_structure_crossed(x);
    }
}

/// `lemma_structure` when the left cut is not after the right cut.
#[verifier::rlimit(100)]
proof fn lemma_structure_ordered(x: Seq<Sym>)
    requires
        x.len() > 0,
        left_cut(x) <= right_cut(x),
    ensures
        normal_form(x) == merged(
            normal_form(x.take(left_cut(x))) + seq![x[left_cut(x)]],
            seq![x[right_cut(x)]] + normal_form(x.skip(right_cut(x) + 1)),
        ),
    decreases n_letters(x), 0nat,
{
    lemma_left_cut_facts(x);
    lemma_right_cut_facts(x);
    let i = left_cut(x);
    let a = x[i];
    let p = x.take(i);
    let j = right_cut(x);
    let b = x[j];
    let s = x.skip(j + 1);
    lemma_keeps_letters(p);
    lemma_keeps_letters(s);
    let pp = normal_form(p);
    let ss = normal_form(s);
    let w1 = pp + x.skip(i);
    lemma_split(x, i);
    lemma_split(x, j + 1);
    lemma_contains_concat(pp, x.skip(i));
    lemma_contains_single(a);
    lemma_contains_single(b);
    assert(x.skip(i) == seq![a] + x.skip(i + 1));
    lemma_contains_concat(seq![a], x.skip(i + 1));
    assert(x.skip(j) == seq![b] + s);
    lemma_contains_concat(seq![b], s);
    lemma_contains_concat(pp, seq![a]);
    lemma_contains_concat(seq![b], ss);
    assert(!pp.contains(a));
    assert(!ss.contains(b));
    assert(same_letters(w1, x));
    lemma_same_alph(w1, x);
    let j1 = pp.len() + (j - i);
    assert(w1.skip(j1) =~= x.skip(j));
    assert(w1.skip(j1 + 1) =~= s);
    lemma_right_cut_at(w1, j1);
    let w2 = w1.take(j1 + 1) + ss;
    lemma_split(w1, j1 + 1);
    lemma_contains_concat(w1.take(j1 + 1), ss);
    assert(w2.take(pp.len() as int) =~= pp);
    assert(w2.take(pp.len() + 1int) =~= pp + seq![a]);
    assert(w2[pp.len() as int] == a);
    lemma_left_cut_at(w2, pp.len() as int);
    assert(w2.skip(j1) =~= seq![b] + ss);
    assert(w2.skip(j1 + 1) =~= ss);
    lemma_right_cut_at(w2, j1);
    if i == j {
        let l = pp + seq![a];
        let r = seq![a] + ss;
        assert(is_overlap(l, r, 1)) by {
            assert(l.subrange(l.len() - 1, l.len() as int) =~= r.subrange(0, 1));
        }
        assert forall|o2: int| 1 < o2 implies !is_overlap(l, r, o2) by {
            if is_overlap(l, r, o2) {
                assert(l.subrange(l.len() - o2, l.len() as int)[0] == r.subrange(0, o2)[0]);
                assert(pp[pp.len() + 1 - o2] == a);
            }
        }
        lemma_max_overlap_is(l, r, 1);
        assert(merged(l, r) =~= w2);
    } else {
        assert(w2.take(pp.len() + 1int) =~= pp + seq![a]);
    }
}

/// `lemma_structure` when the left cut is after the right cut.
#[verifier::rlimit(100)]
proof fn lemma_structure_crossed(x: Seq<Sym>)
    requires
        x.len() > 0,
        left_cut(x) > right_cut(x),
    ensures
        normal_form(x) == merged(
            normal_form(x.take(left_cut(x))) + seq![x[left_cut(x)]],
            seq![x[right_cut(x)]] + normal_form(x.skip(right_cut(x) + 1)),
        ),
    decreases n_letters(x), 0nat,
{
    lemma_left_cut_facts(x);
    lemma_right_cut_facts(x);
    let i = left_cut(x);
    let a = x[i];
    let p = x.take(i);
    let j = right_cut(x);
    let b = x[j];
    let s = x.skip(j + 1);
    lemma_keeps_letters(p);
    lemma_keeps_letters(s);
    let pp = normal_form(p);
    let ss = normal_form(s);
    let w1 = pp + x.skip(i);
    lemma_split(x, i);
    lemma_split(x, j + 1);
    lemma_contains_concat(pp, x.skip(i));
    lemma_contains_single(a);
    lemma_contains_single(b);
    assert(x.skip(i) == seq![a] + x.skip(i + 1));
    lemma_contains_concat(seq![a], x.skip(i + 1));
    assert(x.skip(j) == seq![b] + s);
    lemma_contains_concat(seq![b], s);
    lemma_contains_concat(pp, seq![a]);
    lemma_contains_concat(seq![b], ss);
    assert(!pp.contains(a));
    assert(!ss.contains(b));
    assert(same_letters(w1, x));
    lemma_same_alph(w1, x);
    let t = x.skip(i + 1);
    assert(p[j] == b);
    assert(a != b);
    let p1 = p.skip(j + 1);
    assert(is_last_occ(p, b, j)) by {
        assert forall|k: int| j < k < p.len() implies p[k] != b by {
            assert(s[k - j - 1] == p[k]);
        }
    }
    lemma_last_occ_unique(p, b, j);
    assert(p.contains(b));
    lemma_commutes_after_last(p, b);
    lemma_last_occ_exists(pp, b);
    let jb = last_occ(pp, b);
    let q = pp.skip(jb + 1);
    assert(q == normal_form(p1));
    let v = seq![a] + t;
    assert(s =~= p1 + v);
    assert(n_letters(p1 + v) < n_letters(x));
    lemma_absorbs(p1, v);
    lemma_split(p, j + 1);
    crate::word::lemma_covers_n_letters(p, p1);
    lemma_keeps_letters(p1);
    lemma_split(p, j + 1);
    lemma_split(pp, jb + 1);
    lemma_contains_concat(q, v);
    lemma_contains_concat(seq![a], t);
    assert(x.skip(i) == v);
    assert(w1.skip(jb + 1) =~= q + v);
    assert(w1.skip(jb) =~= seq![b] + (q + v));
    lemma_contains_concat(seq![b], q + v);
    assert(!t.contains(b)) by {
        assert forall|k: int| 0 <= k < t.len() implies t[k] != b by {
            assert(s[i - j + k] == t[k]);
        }
    }
    lemma_right_cut_at(w1, jb);
    let w2 = w1.take(jb + 1) + ss;
    assert(w1.take(jb + 1) =~= pp.take(jb + 1));
    assert(s.contains(a)) by {
        assert(s[i - j - 1] == a);
    }
    lemma_commutes_before_first(s, a);
    assert(is_first_occ(s, a, p1.len() as int)) by {
        assert(s[p1.len() as int] == a);
    }
    lemma_first_occ_unique(s, a, p1.len() as int);
    assert(s.take(p1.len() as int) =~= p1);
    lemma_first_occ_exists(ss, a);
    let fo = first_occ(ss, a);
    assert(ss.take(fo) == q);
    assert(fo == q.len());
    assert(w2.take(pp.len() as int) =~= pp);
    assert(w2[pp.len() as int] == a);
    assert(w2.take(pp.len() + 1int) =~= pp + seq![a]);
    lemma_split(ss, fo);
    lemma_contains_concat(pp.take(jb + 1), ss);
    lemma_left_cut_at(w2, pp.len() as int);
    assert(w2.skip(jb) =~= seq![b] + ss);
    assert(w2.skip(jb + 1) =~= ss);
    lemma_right_cut_at(w2, jb);
    let l = pp + seq![a];
    let r = seq![b] + ss;
    let o = q.len() + 2int;
    assert(is_overlap(l, r, o)) by {
        assert(l.subrange(l.len() - o, l.len() as int) =~= r.subrange(0, o));
    }
    assert forall|o2: int| o < o2 implies !is_overlap(l, r, o2) by {
        if is_overlap(l, r, o2) {
            assert(l.subrange(l.len() - o2, l.len() as int)[q.len() + 1int] == r.subrange(
                0,
                o2,
            )[q.len() + 1int]);
            assert(pp[pp.len() + 1 - o2 + q.len() + 1] == a);
        }
    }
    lemma_max_overlap_is(l, r, o);
    assert(merged(l, r) =~= w2);
}

/// A canonical form has the letters of its word.
pub proof fn lemma_keeps_letters(x: Seq<Sym>)
    ensures
        same_letters(normal_form(x), x),
    decreases n_letters(x), 2nat,
{
    if x.len() > 0 {
        lemma_structure(x);
        lemma_left_cut_facts(x);
        lemma_right_cut_facts(x);
        let i = left_cut(x);
        let j = right_cut(x);
        let p = x.take(i);
        let s = x.skip(j + 1);
        lemma_keeps_letters(p);
        lemma_keeps_letters(s);
        let l = normal_form(p) + seq![x[i]];
        let r = seq![x[j]] + normal_form(s);
        lemma_merged_facts(l, r);
        lemma_contains_concat(normal_form(p), seq![x[i]]);
        lemma_contains_concat(seq![x[j]], normal_form(s));
        lemma_contains_single(x[i]);
        lemma_contains_single(x[j]);
        lemma_split(x, i);
        lemma_split(x, j + 1);
        assert(x.contains(x[i]));
        assert(x.contains(x[j]));
    }
}

/// What precedes the first `c` in a canonical form is the canonical form
/// of what precedes the first `c` in the word.
pub proof fn lemma_commutes_before_first(x: Seq<Sym>, c: Sym)
    requires
        x.contains(c),
    ensures
        before_first(normal_form(x), c) == normal_form(before_first(x, c)),
    decreases n_letters(x), 3nat,
{
    lemma_structure(x);
    lemma_left_cut_facts(x);
    let i = left_cut(x);
    let a = x[i];
    let p = x.take(i);
    let j = right_cut(x);
    let pp = normal_form(p);
    let l = pp + seq![a];
    let r = seq![x[j]] + normal_form(x.skip(j + 1));
    let z = normal_form(x);
    lemma_merged_facts(l, r);
    lemma_keeps_letters(p);
    assert(forall|k: int| 0 <= k < pp.len() ==> z[k] == pp[k]) by {
        assert forall|k: int| 0 <= k < pp.len() implies z[k] == pp[k] by {
            assert(z.take(l.len() as int)[k] == l[k]);
        }
    }
    assert(z[pp.len() as int] == a) by {
        assert(z.take(l.len() as int)[pp.len() as int] == l[pp.len() as int]);
    }
    if c == a {
        assert(is_first_occ(z, a, pp.len() as int)) by {
            assert forall|k: int| 0 <= k < pp.len() implies z[k] != a by {
                assert(pp.contains(pp[k]));
            }
        }
        lemma_first_occ_unique(z, a, pp.len() as int);
        lemma_first_occ_at(x, i);
        assert(z.take(pp.len() as int) =~= pp);
    } else {
        assert(p.contains(c));
        lemma_first_occ_exists(pp, c);
        let k = first_occ(pp, c);
        assert(is_first_occ(z, c, k));
        lemma_first_occ_unique(z, c, k);
        assert(z.take(k) =~= pp.take(k));
        lemma_commutes_before_first(p, c);
        lemma_first_occ_exists(p, c);
        let k2 = first_occ(p, c);
        assert(is_first_occ(x, c, k2)) by {
            assert forall|m: int| 0 <= m < k2 implies x[m] != c by {
                assert(p[m] == x[m]);
            }
            assert(p[k2] == x[k2]);
        }
        lemma_first_occ_unique(x, c, k2);
        assert(x.take(k2) =~= p.take(k2));
    }
}

/// What follows the last `c` in a canonical form is the canonical form of
/// what follows the last `c` in the word.
pub proof fn lemma_commutes_after_last(x: Seq<Sym>, c: Sym)
    requires
        x.contains(c),
    ensures
        after_last(normal_form(x), c) == normal_form(after_last(x, c)),
    decreases n_letters(x), 3nat,
{
    lemma_structure(x);
    lemma_right_cut_facts(x);
    let i = left_cut(x);
    let j = right_cut(x);
    let b = x[j];
    let s = x.skip(j + 1);
    let ss = normal_form(s);
    let l = normal_form(x.take(i)) + seq![x[i]];
    let r = seq![b] + ss;
    let z = normal_form(x);
    lemma_merged_facts(l, r);
    lemma_keeps_letters(s);
    let e = z.len() - ss.len() - 1;
    assert(forall|k: int| 0 <= k < ss.len() ==> z[e + 1 + k] == ss[k]) by {
        assert forall|k: int| 0 <= k < ss.len() implies z[e + 1 + k] == ss[k] by {
            assert(z.skip(z.len() - r.len())[k + 1] == r[k + 1]);
        }
    }
    assert(z[e] == b) by {
        assert(z.skip(z.len() - r.len())[0] == r[0]);
    }
    if c == b {
        assert(is_last_occ(z, b, e)) by {
            assert forall|k: int| e < k < z.len() implies z[k] != b by {
                assert(z[e + 1 + (k - e - 1)] == ss[k - e - 1]);
                assert(ss.contains(ss[k - e - 1]));
            }
        }
        lemma_last_occ_unique(z, b, e);
        assert(is_last_occ(x, b, j)) by {
            assert forall|k: int| j < k < x.len() implies x[k] != b by {
                assert(s[k - j - 1] == x[k]);
                assert(s.contains(s[k - j - 1]));
            }
        }
        lemma_last_occ_unique(x, b, j);
        assert(z.skip(e + 1) =~= ss);
    } else {
        lemma_split(x, j + 1);
        assert(s.contains(c));
        lemma_last_occ_exists(ss, c);
        let k = last_occ(ss, c);
        assert(is_last_occ(z, c, e + 1 + k));
        lemma_last_occ_unique(z, c, e + 1 + k);
        assert(z.skip(e + 2 + k) =~= ss.skip(k + 1));
        lemma_commutes_after_last(s, c);
        lemma_last_occ_exists(s, c);
        let k2 = last_occ(s, c);
        assert(is_last_occ(x, c, j + 1 + k2));
        lemma_last_occ_unique(x, c, j + 1 + k2);
        assert(x.skip(j + 2 + k2) =~= s.skip(k2 + 1));
    }
}

/// Putting a prefix in canonical form first does not change the canonical
/// form of the whole word.
#[verifier::rlimit(100)]
pub proof fn lemma_absorbs(u: Seq<Sym>, v: Seq<Sym>)
    ensures
        normal_form(u + v) == normal_form(normal_form(u) + v),
    decreases n_letters(u + v), 4nat,
{
    let x = u + v;
    if u.len() == 0 {
        assert(normal_form(u) == u);
        return;
    }
    lemma_contains_concat(u, v);
    vstd::seq_lib::seq_to_set_is_finite(x);
    crate::word::lemma_covers_n_letters(x, u);
    lemma_keeps_letters(u);
    let uu = normal_form(u);
    let x2 = uu + v;
    lemma_contains_concat(uu, v);
    assert(same_letters(x, x2));
    lemma_same_alph(x, x2);
    assert(x.len() > 0);
    assert(x2.len() > 0) by {
        assert(u.contains(u[0]));
        assert(uu.contains(u[0]));
    }
    lemma_structure(x);
    lemma_structure(x2);
    lemma_left_cut_facts(x);
    lemma_left_cut_facts(x2);
    lemma_right_cut_facts(x);
    lemma_right_cut_facts(x2);
    let i = left_cut(x);
    let j = right_cut(x);
    // The parts before the left cuts.
    if covers(u, x) {
        lemma_left_cut_facts(u);
        let iu = left_cut(u);
        let a = u[iu];
        lemma_first_occ_at(u, iu);
        assert(x.take(iu) =~= u.take(iu));
        assert(x.take(iu + 1) =~= u.take(iu + 1));
        lemma_left_cut_at(x, iu);
        assert(is_first_occ(u, a, iu));
        lemma_first_occ_unique(u, a, iu);
        lemma_commutes_before_first(u, a);
        assert(u.contains(a));
        lemma_first_occ_exists(uu, a);
        let fo = first_occ(uu, a);
        let pu = normal_form(u.take(iu));
        assert(uu.take(fo) == pu);
        lemma_keeps_letters(u.take(iu));
        assert(x2.take(fo) =~= pu);
        assert(x2.take(fo + 1) =~= pu + seq![a]);
        lemma_contains_concat(pu, seq![a]);
        lemma_contains_single(a);
        lemma_split(u, iu + 1);
        assert(u.take(iu + 1) =~= u.take(iu) + seq![a]);
        lemma_contains_concat(u.take(iu), seq![a]);
        lemma_left_cut_at(x2, fo);
        lemma_idempotent(u.take(iu));
    } else {
        assert(i >= u.len()) by {
            if i < u.len() {
                lemma_split(u, i + 1);
                assert(x.take(i + 1) =~= u.take(i + 1));
            }
        }
        let k = i - u.len();
        let vk = v.take(k);
        assert(x.take(i) =~= u + vk);
        let i2 = uu.len() + k;
        assert(x2.take(i2) =~= uu + vk);
        assert(x2.take(i2 + 1) =~= uu + v.take(k + 1));
        assert(x.take(i + 1) =~= u + v.take(k + 1));
        lemma_contains_concat(u, vk);
        lemma_contains_concat(uu, vk);
        lemma_contains_concat(u, v.take(k + 1));
        lemma_contains_concat(uu, v.take(k + 1));
        assert(x2[i2] == x[i]);
        lemma_left_cut_at(x2, i2);
        lemma_absorbs(u, vk);
    }
    // The parts after the right cuts.
    if covers(v, x) {
        assert(v.len() > 0) by {
            assert(x.contains(x[0]));
        }
        lemma_right_cut_facts(v);
        let jv = right_cut(v);
        assert(x.skip(u.len() + jv) =~= v.skip(jv));
        assert(x.skip(u.len() + jv + 1) =~= v.skip(jv + 1));
        lemma_right_cut_at(x, u.len() + jv);
        assert(x2.skip(uu.len() + jv) =~= v.skip(jv));
        assert(x2.skip(uu.len() + jv + 1) =~= v.skip(jv + 1));
        lemma_right_cut_at(x2, uu.len() + jv);
    } else {
        assert(j < u.len()) by {
            if j >= u.len() {
                assert(x.skip(j) =~= v.skip(j - u.len()));
                lemma_split(v, j - u.len());
            }
        }
        let b = x[j];
        let uj = u.skip(j + 1);
        assert(x.skip(j + 1) =~= uj + v);
        lemma_contains_concat(uj, v);
        assert(is_last_occ(u, b, j)) by {
            assert forall|m: int| j < m < u.len() implies u[m] != b by {
                assert(x.skip(j + 1)[m - j - 1] == u[m]);
                assert(x.skip(j + 1).contains(u[m]));
            }
        }
        lemma_last_occ_unique(u, b, j);
        assert(u.contains(b));
        lemma_commutes_after_last(u, b);
        lemma_last_occ_exists(uu, b);
        let jb = last_occ(uu, b);
        let nuj = normal_form(uj);
        assert(uu.skip(jb + 1) == nuj);
        lemma_split(u, j + 1);
        crate::word::lemma_covers_n_letters(x, uj);
        lemma_keeps_letters(uj);
        assert(x2.skip(jb + 1) =~= nuj + v);
        assert(x2.skip(jb) =~= seq![b] + (nuj + v));
        assert(x.skip(j) =~= seq![b] + (uj + v));
        lemma_contains_concat(nuj, v);
        lemma_contains_concat(seq![b], nuj + v);
        lemma_contains_concat(seq![b], uj + v);
        lemma_contains_single(b);
        lemma_right_cut_at(x2, jb);
        lemma_absorbs(uj, v);
    }
}

/// Reducing a canonical form again gives it back.
pub proof fn lemma_idempotent(x: Seq<Sym>)
    ensures
        normal_form(normal_form(x)) == normal_form(x),
    decreases n_letters(x), 5nat,
{
    if x.len() == 0 {
        return;
    }
    lemma_structure(x);
    lemma_keeps_letters(x);
    lemma_left_cut_facts(x);
    lemma_right_cut_facts(x);
    let i = left_cut(x);
    let j = right_cut(x);
    let a = x[i];
    let b = x[j];
    let p = x.take(i);
    let s = x.skip(j + 1);
    lemma_keeps_letters(p);
    lemma_keeps_letters(s);
    let pp = normal_form(p);
    let ss = normal_form(s);
    let l = pp + seq![a];
    let r = seq![b] + ss;
    let z = normal_form(x);
    lemma_merged_facts(l, r);
    lemma_same_alph(z, x);
    lemma_contains_concat(pp, seq![a]);
    lemma_contains_concat(seq![b], ss);
    lemma_contains_single(a);
    lemma_contains_single(b);
    lemma_split(x, i);
    lemma_split(x, j + 1);
    assert(z.take(pp.len() as int) =~= pp) by {
        assert(z.take(l.len() as int) == l);
    }
    assert(z.take(pp.len() + 1int) == l);
    assert(z[pp.len() as int] == a) by {
        assert(z.take(l.len() as int)[pp.len() as int] == l[pp.len() as int]);
    }
    lemma_left_cut_at(z, pp.len() as int);
    let e = z.len() - ss.len() - 1;
    assert(z.skip(e) == r);
    assert(z.skip(e + 1) =~= ss) by {
        assert(z.skip(e) == r);
    }
    assert(z[e] == b) by {
        assert(z.skip(e)[0] == r[0]);
    }
    lemma_right_cut_at(z, e);
    lemma_structure(z);
    lemma_idempotent(p);
    lemma_idempotent(s);
}

/// Squares make no difference: for a nonempty `m`, the words `l·m·m·r`
/// and `l·m·r` have the same canonical form.
#[verifier::rlimit(100)]
pub proof fn lemma_square_invariance(l: Seq<Sym>, m: Seq<Sym>, r: Seq<Sym>)
    requires
        m.len() > 0,
    ensures
        normal_form(l + m + m + r) == normal_form(l + m + r),
    decreases n_letters(l + m + r),
{
    let x = l + m + m + r;
    let y = l + m + r;
    let ml = m.len() as int;
    let lm = l.len() + ml;
    lemma_contains_concat(l, m);
    lemma_contains_concat(l + m, m);
    lemma_contains_concat(l + m + m, r);
    lemma_contains_concat(l + m, r);
    assert(same_letters(x, y));
    lemma_same_alph(x, y);
    assert(y.len() > 0);
    lemma_left_cut_facts(y);
    lemma_right_cut_facts(y);
    let iy = left_cut(y);
    let jy = right_cut(y);
    // The parts before the left cuts.
    if iy < lm {
        assert(x.take(iy) =~= y.take(iy));
        assert(x.take(iy + 1) =~= y.take(iy + 1));
        assert(x[iy] == y[iy]);
        lemma_left_cut_at(x, iy);
    } else {
        let k = iy - lm;
        let rk = r.take(k);
        let rk1 = r.take(k + 1);
        assert(y.take(iy) =~= l + m + rk);
        assert(y.take(iy + 1) =~= l + m + rk1);
        assert(x.take(iy + ml) =~= l + m + m + rk);
        assert(x.take(iy + ml + 1) =~= l + m + m + rk1);
        assert(x[iy + ml] == y[iy]);
        lemma_contains_concat(l + m, rk);
        lemma_contains_concat(l + m + m, rk);
        lemma_contains_concat(l + m, rk1);
        lemma_contains_concat(l + m + m, rk1);
        lemma_left_cut_at(x, iy + ml);
        lemma_square_invariance(l, m, rk);
    }
    // The parts after the right cuts.
    if jy >= l.len() {
        assert(x.skip(jy + ml) =~= y.skip(jy));
        assert(x.skip(jy + ml + 1) =~= y.skip(jy + 1));
        assert(x[jy + ml] == y[jy]);
        lemma_right_cut_at(x, jy + ml);
    } else {
        let lj = l.skip(jy);
        let lj1 = l.skip(jy + 1);
        assert(y.skip(jy) =~= lj + m + r);
        assert(y.skip(jy + 1) =~= lj1 + m + r);
        assert(x.skip(jy) =~= lj + m + m + r);
        assert(x.skip(jy + 1) =~= lj1 + m + m + r);
        assert(x[jy] == y[jy]);
        lemma_contains_concat(lj, m);
        lemma_contains_concat(lj + m, m);
        lemma_contains_concat(lj + m + m, r);
        lemma_contains_concat(lj + m, r);
        lemma_contains_concat(lj1, m);
        lemma_contains_concat(lj1 + m, m);
        lemma_contains_concat(lj1 + m + m, r);
        lemma_contains_concat(lj1 + m, r);
        lemma_right_cut_at(x, jy);
        lemma_square_invariance(lj1, m, r);
    }
    lemma_structure(x);
    lemma_structure(y);
}

/// In the canonical form of a nonempty word, the part after its right cut
/// starts no later than in the word, given that the canonical form of the
/// part before the left cut is no longer than it and, when the cuts cross,
/// has the last right cut letter no later.
#[verifier::rlimit(100)]
proof fn lemma_right_part_start(y: Seq<Sym>)
    requires
        y.len() > 0,
        normal_form(y.take(left_cut(y))).len() <= left_cut(y),
        left_cut(y) > right_cut(y) ==> last_occ(normal_form(y.take(left_cut(y))), y[right_cut(y)])
            <= last_occ(y.take(left_cut(y)), y[right_cut(y)]),
    ensures
        normal_form(y).len() - normal_form(y.skip(right_cut(y) + 1)).len() - 1 <= right_cut(y),
{
    lemma_structure(y);
    lemma_left_cut_facts(y);
    lemma_right_cut_facts(y);
    let i = left_cut(y);
    let j = right_cut(y);
    let a = y[i];
    let b = y[j];
    let p = y.take(i);
    let s = y.skip(j + 1);
    lemma_keeps_letters(p);
    lemma_keeps_letters(s);
    let pp = normal_form(p);
    let ss = normal_form(s);
    let l = pp + seq![a];
    let r = seq![b] + ss;
    let z = normal_form(y);
    lemma_merged_facts(l, r);
    lemma_max_overlap(l, r);
    let o = max_overlap(l, r) as int;
    let pos = z.len() - ss.len() - 1;
    assert(pos == pp.len() + 1 - o);
    lemma_split(y, i);
    lemma_split(y, j + 1);
    if i < j {
        assert(pos <= j);
    } else if i == j {
        assert(is_overlap(l, r, 1)) by {
            assert(l.subrange(l.len() - 1, l.len() as int) =~= r.subrange(0, 1));
        }
        assert(pos <= j);
    } else {
        assert(p[j] == b);
        let p1 = p.skip(j + 1);
        let t = y.skip(i + 1);
        assert(is_last_occ(p, b, j)) by {
            assert forall|k: int| j < k < p.len() implies p[k] != b by {
                assert(s[k - j - 1] == p[k]);
            }
        }
        lemma_last_occ_unique(p, b, j);
        assert(p.contains(b));
        lemma_commutes_after_last(p, b);
        lemma_last_occ_exists(pp, b);
        let jb = last_occ(pp, b);
        let q = pp.skip(jb + 1);
        assert(q == normal_form(p1));
        assert(s =~= p1 + seq![a] + t);
        assert(s.contains(a)) by {
            assert(s[p1.len() as int] == a);
        }
        lemma_commutes_before_first(s, a);
        assert(!p1.contains(a)) by {
            if p1.contains(a) {
                let k = choose|k: int| 0 <= k < p1.len() && p1[k] == a;
                assert(p[j + 1 + k] == a);
                assert(p.contains(a));
            }
        }
        assert(is_first_occ(s, a, p1.len() as int)) by {
            assert forall|k: int| 0 <= k < p1.len() implies s[k] != a by {
                assert(s[k] == p1[k]);
                assert(p1.contains(p1[k]));
            }
        }
        lemma_first_occ_unique(s, a, p1.len() as int);
        assert(s.take(p1.len() as int) =~= p1);
        lemma_first_occ_exists(ss, a);
        let fo = first_occ(ss, a);
        assert(ss.take(fo) == q);
        assert(fo == q.len());
        let ov = q.len() + 2int;
        assert(is_overlap(l, r, ov)) by {
            assert(pp =~= pp.take(jb + 1) + q);
            assert(l.subrange(l.len() - ov, l.len() as int) =~= r.subrange(0, ov));
        }
        assert(pos <= jb);
        assert(pos <= j);
    }
}

/// A canonical form is no longer than its word, and the last occurrence
/// of each letter comes no later in it.
pub proof fn lemma_shrinks(y: Seq<Sym>)
    ensures
        normal_form(y).len() <= y.len(),
        forall|c: Sym| y.contains(c) ==> last_occ(normal_form(y), c) <= #[trigger] last_occ(y, c),
    decreases n_letters(y),
{
    if y.len() == 0 {
        return;
    }
    lemma_structure(y);
    lemma_left_cut_facts(y);
    lemma_right_cut_facts(y);
    let i = left_cut(y);
    let j = right_cut(y);
    let a = y[i];
    let b = y[j];
    let p = y.take(i);
    let s = y.skip(j + 1);
    lemma_shrinks(p);
    lemma_shrinks(s);
    lemma_keeps_letters(p);
    lemma_keeps_letters(s);
    let pp = normal_form(p);
    let ss = normal_form(s);
    let l = pp + seq![a];
    let r = seq![b] + ss;
    let z = normal_form(y);
    lemma_merged_facts(l, r);
    if i > j {
        assert(p[j] == b);
        assert(p.contains(b));
    }
    lemma_right_part_start(y);
    let pos = z.len() - ss.len() - 1;
    assert(pos <= j);
    lemma_split(y, j + 1);
    lemma_contains_concat(seq![b], ss);
    lemma_contains_single(b);
    assert(!ss.contains(b));
    assert forall|c: Sym| y.contains(c) implies last_occ(z, c) <= #[trigger] last_occ(y, c) by {
        assert(forall|k: int| 0 <= k < ss.len() ==> z[pos + 1 + k] == ss[k]) by {
            assert forall|k: int| 0 <= k < ss.len() implies z[pos + 1 + k] == ss[k] by {
                assert(z.skip(z.len() - r.len())[k + 1] == r[k + 1]);
            }
        }
        assert(z[pos] == b) by {
            assert(z.skip(z.len() - r.len())[0] == r[0]);
        }
        if c == b {
            assert(is_last_occ(z, b, pos)) by {
                assert forall|k: int| pos < k < z.len() implies z[k] != b by {
                    assert(z[pos + 1 + (k - pos - 1)] == ss[k - pos - 1]);
                    assert(ss.contains(ss[k - pos - 1]));
                }
            }
            lemma_last_occ_unique(z, b, pos);
            assert(is_last_occ(y, b, j)) by {
                assert forall|k: int| j < k < y.len() implies y[k] != b by {
                    assert(s[k - j - 1] == y[k]);
                    assert(s.contains(s[k - j - 1]));
                }
            }
            lemma_last_occ_unique(y, b, j);
        } else {
            assert(s.contains(c));
            lemma_last_occ_exists(ss, c);
            let k = last_occ(ss, c);
            assert(is_last_occ(z, c, pos + 1 + k));
            lemma_last_occ_unique(z, c, pos + 1 + k);
            lemma_last_occ_exists(s, c);
            let k2 = last_occ(s, c);
            assert(is_last_occ(y, c, j + 1 + k2));
            lemma_last_occ_unique(y, c, j + 1 + k2);
        }
    }
}

/// A canonical form has no square: no nonempty factor of it is followed
/// at once by a copy of itself.
pub proof fn lemma_canonical_square_free(z: Seq<Sym>, i: int, k: int)
    requires
        normal_form(z) == z,
        0 <= i,
        0 < k,
        i + 2 * k <= z.len(),
    ensures
        z.subrange(i, i + k) != z.subrange(i + k, i + 2 * k),
{
    if z.subrange(i, i + k) == z.subrange(i + k, i + 2 * k) {
        let l = z.take(i);
        let m = z.subrange(i, i + k);
        let r = z.skip(i + 2 * k);
        assert(l + m + m + r =~= z);
        lemma_square_invariance(l, m, r);
        lemma_shrinks(l + m + r);
        assert((l + m + r).len() == z.len() - k);
    }
}

} // verus!
