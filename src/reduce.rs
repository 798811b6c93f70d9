use vstd::prelude::*;

use crate::steps::{StepView, Steps, copy_word, prefixed, suffixed, undone, lemma_rev_concat, lemma_rev_rev, reversed, rev};
use crate::steps::lemma_valid_alph;
use crate::word::{
    Sym,
    Word,
    chain,
    count_letters,
    covers,
    find_left_subword,
    find_right_subword,
    lemma_covers_equal_count,
    lemma_covers_n_letters,
    lemma_factor_covered,
    lemma_max_overlap,
    lemma_n_letters_cons,
    lemma_n_letters_pos,
    lemma_n_letters_push,
    max_overlap,
    lemma_skip_covers,
    lemma_take_covers,
    merged,
    n_letters,
    overlap_len,
};

verus! {

/// Mirroring keeps the letters of each word.
pub proof fn lemma_rev_covers(a: Seq<Sym>, b: Seq<Sym>)
    requires
        covers(a, b),
    ensures
        covers(rev(a), rev(b)),
{
    assert forall|x: Sym| rev(b).contains(x) implies rev(a).contains(x) by {
        let i = choose|i: int| 0 <= i < rev(b).len() && rev(b)[i] == x;
        assert(b[b.len() - 1 - i] == x);
        assert(b.contains(x));
        let j = choose|j: int| 0 <= j < a.len() && a[j] == x;
        assert(rev(a)[a.len() - 1 - j] == x);
    }
}

/// `k` is the position of the last occurrence of `c` in `l`.
pub open spec fn is_last_occ(l: Seq<Sym>, c: Sym, k: int) -> bool {
    &&& 0 <= k < l.len()
    &&& l[k] == c
    &&& forall|j: int| k < j < l.len() ==> l[j] != c
}

/// The position of the last occurrence of `c` in `l`.
pub open spec fn last_occ(l: Seq<Sym>, c: Sym) -> int {
    choose|k: int| is_last_occ(l, c, k)
}

/// The last occurrence is the one `last_occ` names.
pub proof fn lemma_last_occ_unique(l: Seq<Sym>, c: Sym, k: int)
    requires
        is_last_occ(l, c, k),
    ensures
        last_occ(l, c) == k,
{
    let k2 = last_occ(l, c);
    assert(is_last_occ(l, c, k2));
}

/// The word `u` that `find_u` builds for `x` and `y`: each letter `c` of
/// `y` in turn, after the left part `x·y'` built so far, puts in front of
/// it what follows the last `c` of that left part.
pub open spec fn u_witness(x: Seq<Sym>, y: Seq<Sym>) -> Seq<Sym>
    decreases y.len(),
{
    if y.len() == 0 {
        Seq::empty()
    } else {
        let l = x + y.drop_last();
        l.skip(last_occ(l, y.last()) + 1) + u_witness(x, y.drop_last())
    }
}

/// The rewrite that `find_u` makes for the letter `y[i]`: in the word
/// `x·y[..i]·u'` reached so far, it squares the factor of `x·y[..i]` from
/// the last occurrence of `y[i]` to its end.
pub open spec fn u_move(x: Seq<Sym>, y: Seq<Sym>, i: int) -> StepView {
    let l = x + y.take(i);
    let k = last_occ(l, y[i]);
    StepView { left: l.take(k), frag: l.skip(k), right: u_witness(x, y.take(i)), squaring: true }
}

/// The rewrites of `find_u(x, y)`: one squaring for each letter of `y`.
pub open spec fn u_moves(x: Seq<Sym>, y: Seq<Sym>) -> Seq<StepView> {
    Seq::new(y.len(), |i: int| u_move(x, y, i))
}

/// The position of the last occurrence of `c` in `w`.
fn last_index_of(w: &[Sym], c: Sym) -> (r: usize)
    requires
        w@.contains(c),
    ensures
        r < w@.len(),
        w@[r as int] == c,
        forall|j: int| r < j < w@.len() ==> w@[j] != c,
{
    let mut i: usize = w.len();
    while i > 0
        invariant
            i <= w@.len(),
            w@.contains(c),
            forall|j: int| i <= j < w@.len() ==> w@[j] != c,
        decreases i,
    {
        if w[i - 1] == c {
            return i - 1;
        }
        i = i - 1;
    }
    0
}

/// For words `x` and `y` where every letter of `y` occurs in `x`, finds
/// `u` with `x ~ x·y·u`, and the derivation from `x` to `x·y·u`.
///
/// Each letter of `y` in turn is made to follow the current left part by
/// squaring the factor from its last occurrence there to the end of it.
pub fn find_u(x: &[Sym], y: &[Sym]) -> (res: (Steps, Word))
    requires
        covers(x@, y@),
    ensures
        res.0@.valid(),
        res.0@.start == x@,
        res.0@.end == x@ + y@ + res.1@,
        res.1@ == u_witness(x@, y@),
        res.0@.moves == u_moves(x@, y@),
{
    let mut l = copy_word(x);
    let mut r: Word = Vec::new();
    let mut d = Steps::empty(x);
    let mut i: usize = 0;
    while i < y.len()
        invariant
            i <= y@.len(),
            covers(x@, y@),
            l@ == x@ + y@.take(i as int),
            d@.valid(),
            d@.start == x@,
            d@.end == l@ + r@,
            r@ == u_witness(x@, y@.take(i as int)),
            d@.moves.len() == i,
            forall|k: int| 0 <= k < i ==> #[trigger] d@.moves[k] == u_move(x@, y@, k),
        decreases y@.len() - i,
    {
        let c = y[i];
        proof {
            assert(y@.contains(c));
            let k = choose|k: int| 0 <= k < x@.len() && x@[k] == c;
            assert(l@[k] == c);
        }
        let ls = l.as_slice();
        let rp = last_index_of(ls, c);
        proof {
            lemma_last_occ_unique(l@, c, rp as int);
            assert(y@.take(i + 1).drop_last() =~= y@.take(i as int));
            assert(y@.take(i + 1).last() == c);
        }
        let head = &ls[0..rp];
        let tail = &ls[rp..ls.len()];
        let sq = Steps::square(tail);
        let step = Steps::prefix(head, &sq).suffix(r.as_slice());
        proof {
            assert(l@ =~= head@ + tail@);
            assert(step@.start =~= d@.end);
            assert(step@.moves.len() == 1);
            assert(step@.moves[0].left =~= head@);
            assert(step@.moves[0].right =~= r@);
            assert(head@ =~= l@.take(rp as int));
            assert(tail@ =~= l@.skip(rp as int));
            assert(step@.moves[0] == u_move(x@, y@, i as int));
        }
        let ghost old_moves = d@.moves;
        d.append(&step);
        assert(d@.moves == old_moves + step@.moves);
        let nr = chain(&ls[rp + 1..ls.len()], r.as_slice());
        proof {
            assert(tail@ =~= seq![c] + ls@.subrange(rp + 1, ls@.len() as int));
            assert(d@.end =~= l@.push(c) + nr@);
            assert(x@ + y@.take(i + 1) =~= l@.push(c));
            assert(nr@ =~= l@.skip(rp + 1) + r@);
        }
        r = nr;
        l.push(c);
        i = i + 1;
    }
    assert(y@.take(i as int) =~= y@);
    assert(d@.moves =~= u_moves(x@, y@));
    (d, r)
}

/// For words `x` and `y` where every letter of `y` occurs in `x`, finds
/// `v` with `x ~ v·y·x`, and the derivation from `x` to `v·y·x`: the
/// mirror image of `find_u` on the mirrored words.
pub fn find_v(x: &[Sym], y: &[Sym]) -> (res: (Steps, Word))
    requires
        covers(x@, y@),
    ensures
        res.0@.valid(),
        res.0@.start == x@,
        res.0@.end == res.1@ + y@ + x@,
        res.1@ == rev(u_witness(rev(x@), rev(y@))),
        res.0@.moves == u_moves(rev(x@), rev(y@)).map_values(|m: StepView| m.mirrored()),
{
    let xr = reversed(x);
    let yr = reversed(y);
    proof {
        lemma_rev_covers(x@, y@);
    }
    let (d, ur) = find_u(xr.as_slice(), yr.as_slice());
    let v = reversed(ur.as_slice());
    let dr = d.word_rev();
    proof {
        lemma_rev_rev(x@);
        lemma_rev_rev(y@);
        lemma_rev_concat(xr@ + yr@, ur@);
        lemma_rev_concat(xr@, yr@);
        assert(dr@.end =~= v@ + y@ + x@);
    }
    (dr, v)
}

/// The derivation that collapses the longest overlap of `left` and
/// `right`: from `left·right` to their merge, by one unsquaring (or none
/// when they do not overlap).
pub fn reduce_middle(left: &[Sym], right: &[Sym]) -> (r: Steps)
    ensures
        r@.valid(),
        r@.start == left@ + right@,
        r@.end == merged(left@, right@),
        max_overlap(left@, right@) == 0 ==> r@.moves.len() == 0,
        max_overlap(left@, right@) > 0 ==> r@.moves == seq![
            StepView {
                left: left@.take(left@.len() - max_overlap(left@, right@)),
                frag: left@.skip(left@.len() - max_overlap(left@, right@)),
                right: right@.skip(max_overlap(left@, right@) as int),
                squaring: false,
            },
        ],
{
    let o = overlap_len(left, right);
    proof {
        lemma_max_overlap(left@, right@);
    }
    if o == 0 {
        let w = chain(left, right);
        assert(left@.subrange(0, left@.len() as int) =~= left@);
        return Steps::empty(w.as_slice());
    }
    let cut = left.len() - o;
    let l = &left[0..cut];
    let m = &left[cut..left.len()];
    let r = &right[o..right.len()];
    let d = Steps::prefix(l, &Steps::square(m).suffix(r)).time_rev();
    proof {
        assert(left@ =~= l@ + m@);
        assert(right@ =~= m@ + r@);
        assert(d@.start =~= left@ + right@);
        assert(d@.end =~= merged(left@, right@));
        assert(d@.moves.len() == 1);
        assert(d@.moves[0].left =~= l@);
        assert(d@.moves[0].right =~= r@);
        assert(d@.moves =~= seq![
            StepView {
                left: left@.take(left@.len() - max_overlap(left@, right@)),
                frag: left@.skip(left@.len() - max_overlap(left@, right@)),
                right: right@.skip(max_overlap(left@, right@) as int),
                squaring: false,
            },
        ]);
    }
    d
}

/// The rewrites of `remove_middle(l, m, r)`, in its six parts: with
/// `u`, `v` and their rewrites from `find_u(l, m·r)` and `find_v(r, l)`,
/// `find_v`'s rewrites after `l·m`; the squaring of `l·r` after `l·m·v`;
/// `find_v`'s rewrites undone, between `l·m` and `l·r`; `find_u`'s
/// rewrites between `l·m·r` and `r`; the unsquaring of `l·m·r` before
/// `u·r`; and `find_u`'s rewrites undone, before `r`.
pub open spec fn middle_moves(l: Seq<Sym>, m: Seq<Sym>, r: Seq<Sym>) -> Seq<StepView> {
    let uu = u_moves(l, m + r);
    let u = u_witness(l, m + r);
    let vv = u_moves(rev(r), rev(l)).map_values(|s: StepView| s.mirrored());
    let v = rev(u_witness(rev(r), rev(l)));
    prefixed(vv, l + m) + seq![
        StepView { left: l + m + v, frag: l + r, right: Seq::empty(), squaring: true },
    ] + prefixed(suffixed(undone(vv), l + r), l + m) + prefixed(suffixed(uu, r), l + m + r)
        + seq![StepView { left: Seq::empty(), frag: l + m + r, right: u + r, squaring: false }]
        + suffixed(undone(uu), r)
}

/// For `l`, `m`, `r` where `l` and `r` have the same letters and `m` has
/// none other, the derivation from `l·m·r` to `l·r`.
///
/// With `v·l·r` from `find_v(r, l)` and `l·m·r·u` from `find_u(l, m·r)`:
/// `l·m·r`, `l·m·v·l·r`, `l·m·v·l·r·l·r`, `l·m·r·l·r`, `l·m·r·l·m·r·u·r`,
/// `l·m·r·u·r`, `l·r`.
#[verifier::rlimit(100)]
pub fn remove_middle(l: &[Sym], m: &[Sym], r: &[Sym]) -> (d: Steps)
    requires
        covers(l@, m@),
        covers(l@, r@),
        covers(r@, l@),
    ensures
        d@.valid(),
        d@.start == l@ + m@ + r@,
        d@.end == l@ + r@,
        l@.len() == 0 ==> d@.moves.len() == 0,
        l@.len() > 0 ==> d@.moves == middle_moves(l@, m@, r@),
{
    let lm = chain(l, m);
    let lmr = chain(lm.as_slice(), r);
    if l.len() == 0 {
        proof {
            if m@.len() > 0 {
                assert(m@.contains(m@[0]));
            }
            if r@.len() > 0 {
                assert(r@.contains(r@[0]));
            }
            assert(m@ =~= Seq::empty());
            assert(r@ =~= Seq::empty());
            assert(lmr@ =~= l@ + r@);
        }
        return Steps::empty(lmr.as_slice());
    }
    let mr = chain(m, r);
    let lr = chain(l, r);
    proof {
        assert forall|x: Sym| mr@.contains(x) implies l@.contains(x) by {
            let i = choose|i: int| 0 <= i < mr@.len() && mr@[i] == x;
            if i < m@.len() {
                assert(m@[i] == x);
                assert(m@.contains(x));
            } else {
                assert(r@[i - m@.len()] == x);
                assert(r@.contains(x));
            }
        }
    }
    let (l_to_lmru, u) = find_u(l, mr.as_slice());
    let lmru_to_l = l_to_lmru.time_rev();
    let (r_to_vlr, v) = find_v(r, l);
    let vlr_to_r = r_to_vlr.time_rev();
    let lmv = chain(lm.as_slice(), v.as_slice());
    let ur = chain(u.as_slice(), r);

    // l·m·(r) -> l·m·(v·l·r)
    let mut d = Steps::prefix(lm.as_slice(), &r_to_vlr);
    // l·m·v·(l·r) -> l·m·v·(l·r·l·r)
    let s2 = Steps::prefix(lmv.as_slice(), &Steps::square(lr.as_slice()));
    assert(d@.end =~= s2@.start);
    assert(s2@.moves =~= seq![
        StepView { left: l@ + m@ + v@, frag: l@ + r@, right: Seq::empty(), squaring: true },
    ]) by {
        assert(s2@.moves[0].left =~= l@ + m@ + v@);
    }
    let ghost d1 = d@.moves;
    d.append(&s2);
    // l·m·(v·l·r)·l·r -> l·m·(r)·l·r
    let s3 = Steps::prefix(lm.as_slice(), &vlr_to_r.suffix(lr.as_slice()));
    assert(d@.end =~= s3@.start);
    d.append(&s3);
    // l·m·r·(l)·r -> l·m·r·(l·m·r·u)·r
    let s4 = Steps::prefix(lmr.as_slice(), &l_to_lmru.suffix(r));
    assert(d@.end =~= s4@.start);
    d.append(&s4);
    // (l·m·r·l·m·r)·u·r -> (l·m·r)·u·r
    let s5 = Steps::square(lmr.as_slice()).suffix(ur.as_slice()).time_rev();
    assert(d@.end =~= s5@.start);
    assert(s5@.moves =~= seq![
        StepView { left: Seq::empty(), frag: l@ + m@ + r@, right: u@ + r@, squaring: false },
    ]) by {
        assert(s5@.moves[0].right =~= u@ + r@);
    }
    d.append(&s5);
    // (l·m·r·u)·r -> l·r
    let s6 = lmru_to_l.suffix(r);
    assert(d@.end =~= s6@.start);
    d.append(&s6);
    assert(d@.start =~= l@ + m@ + r@);
    assert(d@.moves =~= d1 + s2@.moves + s3@.moves + s4@.moves + s5@.moves + s6@.moves);
    assert(d@.moves =~= middle_moves(l@, m@, r@));
    d
}

/// `w[i]` is the first occurrence of the last letter of `w` to appear:
/// `w[..i]` lacks exactly one letter of `w`, and `w[..=i]` has them all.
pub open spec fn is_left_cut(w: Seq<Sym>, i: int) -> bool {
    &&& 0 <= i < w.len()
    &&& n_letters(w.take(i)) + 1 == n_letters(w)
    &&& n_letters(w.take(i + 1)) == n_letters(w)
}

/// `w[j]` is the last occurrence of the first letter of `w` to be seen
/// for the last time: `w[j + 1..]` lacks exactly one letter of `w`, and
/// `w[j..]` has them all.
pub open spec fn is_right_cut(w: Seq<Sym>, j: int) -> bool {
    &&& 0 <= j < w.len()
    &&& n_letters(w.skip(j + 1)) + 1 == n_letters(w)
    &&& n_letters(w.skip(j)) == n_letters(w)
}

/// The position of a nonempty word's left cut.
pub open spec fn left_cut(w: Seq<Sym>) -> int {
    choose|i: int| is_left_cut(w, i)
}

/// The position of a nonempty word's right cut.
pub open spec fn right_cut(w: Seq<Sym>) -> int {
    choose|j: int| is_right_cut(w, j)
}

/// The canonical form of `w`. With `w[i]` its left cut, the prefix
/// `w[..i]` is put in canonical form; then, with `w1[j]` the right cut of
/// the resulting `w1`, so is the suffix `w1[j + 1..]`. In the resulting
/// `w2`, if the shortest prefix and the shortest suffix holding every
/// letter do not overlap, whatever lies between them is dropped and they
/// are merged.
///
/// The two tests on letter counts always pass, since canonical forms keep
/// the letters; they only make the recursion evidently finite.
pub open spec fn normal_form(w: Seq<Sym>) -> Seq<Sym>
    decreases n_letters(w),
{
    if w.len() == 0 {
        w
    } else {
        let p = w.take(left_cut(w));
        if n_letters(p) < n_letters(w) {
            let w1 = normal_form(p) + w.skip(left_cut(w));
            let s = w1.skip(right_cut(w1) + 1);
            if n_letters(s) < n_letters(w) {
                let w2 = w1.take(right_cut(w1) + 1) + normal_form(s);
                let l = left_cut(w2) + 1;
                let r = right_cut(w2);
                if l <= r {
                    merged(w2.take(l), w2.skip(r))
                } else {
                    w2
                }
            } else {
                w1
            }
        } else {
            w
        }
    }
}

/// A word has one left cut.
pub proof fn lemma_left_cut_unique(w: Seq<Sym>, i: int)
    requires
        is_left_cut(w, i),
    ensures
        left_cut(w) == i,
{
    let i2 = left_cut(w);
    assert(is_left_cut(w, i2));
    if i2 < i {
        lemma_take_covers(w, i2 + 1, i);
        lemma_covers_n_letters(w.take(i), w.take(i2 + 1));
    } else if i < i2 {
        lemma_take_covers(w, i + 1, i2);
        lemma_covers_n_letters(w.take(i2), w.take(i + 1));
    }
}

/// A word has one right cut.
pub proof fn lemma_right_cut_unique(w: Seq<Sym>, j: int)
    requires
        is_right_cut(w, j),
    ensures
        right_cut(w) == j,
{
    let j2 = right_cut(w);
    assert(is_right_cut(w, j2));
    if j2 < j {
        lemma_skip_covers(w, j2 + 1, j);
        lemma_covers_n_letters(w.skip(j2 + 1), w.skip(j));
    } else if j < j2 {
        lemma_skip_covers(w, j + 1, j2);
        lemma_covers_n_letters(w.skip(j + 1), w.skip(j2));
    }
}

/// A prefix of length `len` with every letter ends at or after the left cut.
proof fn lemma_left_cut_below(w: Seq<Sym>, len: int)
    requires
        0 < len <= w.len(),
        n_letters(w.take(len)) == n_letters(w),
    ensures
        exists|i: int| is_left_cut(w, i),
    decreases len,
{
    lemma_n_letters_pos(w);
    let c = w[len - 1];
    lemma_n_letters_push(w.take(len - 1), c);
    assert(w.take(len) == w.take(len - 1).push(c));
    if n_letters(w.take(len - 1)) == n_letters(w) {
        if len == 1 {
            assert(w.take(0).to_set() =~= Set::empty());
        } else {
            lemma_left_cut_below(w, len - 1);
        }
    } else {
        assert(is_left_cut(w, len - 1));
    }
}

/// Every nonempty word has its left cut.
pub proof fn lemma_left_cut_exists(w: Seq<Sym>)
    requires
        w.len() > 0,
    ensures
        is_left_cut(w, left_cut(w)),
{
    assert(w.take(w.len() as int) =~= w);
    lemma_left_cut_below(w, w.len() as int);
}

/// A suffix from `from` with every letter starts at or before the right cut.
proof fn lemma_right_cut_above(w: Seq<Sym>, from: int)
    requires
        0 <= from < w.len(),
        n_letters(w.skip(from)) == n_letters(w),
    ensures
        exists|j: int| is_right_cut(w, j),
    decreases w.len() - from,
{
    lemma_n_letters_pos(w);
    let c = w[from];
    lemma_n_letters_cons(c, w.skip(from + 1));
    assert(w.skip(from) == seq![c] + w.skip(from + 1));
    if n_letters(w.skip(from + 1)) == n_letters(w) {
        if from + 1 == w.len() {
            assert(w.skip(from + 1).to_set() =~= Set::empty());
        } else {
            lemma_right_cut_above(w, from + 1);
        }
    } else {
        assert(is_right_cut(w, from));
    }
}

/// Every nonempty word has its right cut.
pub proof fn lemma_right_cut_exists(w: Seq<Sym>)
    requires
        w.len() > 0,
    ensures
        is_right_cut(w, right_cut(w)),
{
    assert(w.skip(0) =~= w);
    lemma_right_cut_above(w, 0);
}

/// Puts in canonical form the longest prefix of `word` that lacks one of
/// its `k` letters.
pub fn reduce_left(word: &[Sym], k: usize) -> (r: Steps)
    requires
        k == n_letters(word@),
        k > 0,
    ensures
        r@.valid(),
        r@.start == word@,
        is_left_cut(word@, left_cut(word@)),
        r@.end == normal_form(word@.take(left_cut(word@))) + word@.skip(left_cut(word@)),
    decreases n_letters(word@), 0nat,
{
    let len = find_left_subword(word, k - 1);
    proof {
        lemma_left_cut_unique(word@, len as int);
    }
    let head = &word[0..len];
    let rest = &word[len..word.len()];
    let d = reduce(head).suffix(rest);
    assert(word@ =~= head@ + rest@);
    d
}

/// Puts in canonical form the longest suffix of `word` that lacks one of
/// its `k` letters.
pub fn reduce_right(word: &[Sym], k: usize) -> (r: Steps)
    requires
        k == n_letters(word@),
        k > 0,
    ensures
        r@.valid(),
        r@.start == word@,
        is_right_cut(word@, right_cut(word@)),
        r@.end == word@.take(right_cut(word@) + 1) + normal_form(word@.skip(right_cut(word@) + 1)),
    decreases n_letters(word@), 0nat,
{
    let len = find_right_subword(word, k - 1);
    proof {
        lemma_right_cut_unique(word@, len - 1);
    }
    let rest = &word[0..len];
    let tail = &word[len..word.len()];
    let d = Steps::prefix(rest, &reduce(tail));
    assert(word@ =~= rest@ + tail@);
    d
}

/// The derivation from `word` to its canonical form `normal_form(word)`.
pub fn reduce(word: &[Sym]) -> (r: Steps)
    ensures
        r@.valid(),
        r@.start == word@,
        r@.end == normal_form(word@),
    decreases n_letters(word@), 1nat,
{
    if word.len() == 0 {
        return Steps::empty(word);
    }
    let k = count_letters(word);
    proof {
        lemma_n_letters_pos(word@);
    }
    let mut d = reduce_left(word, k);
    proof {
        lemma_valid_alph(d@);
    }
    let w1 = copy_word(d.end.as_slice());
    assert(n_letters(w1@) == k);
    let second = reduce_right(w1.as_slice(), k);
    proof {
        lemma_valid_alph(second@);
    }
    d.append(&second);
    let w2 = copy_word(second.end.as_slice());
    assert(n_letters(w2@) == k);
    let l_len = find_left_subword(w2.as_slice(), k - 1) + 1;
    let r_idx = find_right_subword(w2.as_slice(), k - 1) - 1;
    proof {
        lemma_left_cut_unique(w2@, l_len - 1);
        lemma_right_cut_unique(w2@, r_idx as int);
    }
    if l_len <= r_idx {
        let ws = w2.as_slice();
        let lw = &ws[0..l_len];
        let rw = &ws[r_idx..ws.len()];
        proof {
            lemma_factor_covered(w2@, 0, l_len as int);
            lemma_factor_covered(w2@, r_idx as int, w2@.len() as int);
            assert(lw@ == w2@.subrange(0, l_len as int));
            assert(rw@ == w2@.subrange(r_idx as int, w2@.len() as int));
            lemma_covers_equal_count(w2@, lw@);
            lemma_covers_equal_count(w2@, rw@);
        }
        if l_len < r_idx {
            let mid = &ws[l_len..r_idx];
            proof {
                lemma_factor_covered(w2@, l_len as int, r_idx as int);
                assert(ws@ =~= lw@ + mid@ + rw@);
            }
            d.append(&remove_middle(lw, mid, rw));
        } else {
            assert(ws@ =~= lw@ + rw@);
        }
        d.append(&reduce_middle(lw, rw));
    }
    proof {
        let i = left_cut(word@);
        let p = word@.take(i);
        assert(n_letters(p) < n_letters(word@));
        assert(w1@ == normal_form(p) + word@.skip(i));
        let j = right_cut(w1@);
        assert(n_letters(w1@.skip(j + 1)) < n_letters(word@));
        assert(w2@ == w1@.take(j + 1) + normal_form(w1@.skip(j + 1)));
    }
    d
}

} // verus!
