use vstd::prelude::*;

use crate::laws::{
    lemma_contains_concat,
    lemma_contains_single,
    lemma_keeps_letters,
    lemma_left_cut_at,
    lemma_left_cut_facts,
    lemma_max_overlap_is,
    lemma_right_cut_at,
    lemma_right_cut_facts,
    lemma_split,
    lemma_structure,
};
use crate::reduce::{left_cut, normal_form, right_cut};
use crate::word::{Sym, covers, is_overlap, lemma_max_overlap, max_overlap, merged, n_letters};

verus! {

/// `w` with each letter `c` replaced by `f(c)`.
pub open spec fn rename(w: Seq<Sym>, f: spec_fn(Sym) -> Sym) -> Seq<Sym> {
    w.map_values(f)
}

/// `f` sends distinct letters of `w` to distinct letters.
pub open spec fn injective_on(f: spec_fn(Sym) -> Sym, w: Seq<Sym>) -> bool {
    forall|c1: Sym, c2: Sym|
        w.contains(c1) && w.contains(c2) && #[trigger] f(c1) == #[trigger] f(c2) ==> c1 == c2
}

/// A renamed word holds the images of the letters of `w`, and nothing else.
pub proof fn lemma_rename_contains(w: Seq<Sym>, f: spec_fn(Sym) -> Sym)
    ensures
        forall|c: Sym| w.contains(c) ==> #[trigger] rename(w, f).contains(f(c)),
        forall|d: Sym|
            #[trigger] rename(w, f).contains(d) ==> exists|c: Sym| w.contains(c) && f(c) == d,
{
    assert forall|c: Sym| w.contains(c) implies #[trigger] rename(w, f).contains(f(c)) by {
        let k = choose|k: int| 0 <= k < w.len() && w[k] == c;
        assert(rename(w, f)[k] == f(c));
    }
    assert forall|d: Sym| #[trigger] rename(w, f).contains(d) implies exists|c: Sym|
        w.contains(c) && f(c) == d by {
        let k = choose|k: int| 0 <= k < rename(w, f).len() && rename(w, f)[k] == d;
        assert(w.contains(w[k]));
    }
}

/// Within the letters of `w`, a renamed part of `w` holds `f(c)` exactly
/// when the part holds `c`.
pub proof fn lemma_rename_contains_iff(w: Seq<Sym>, x: Seq<Sym>, f: spec_fn(Sym) -> Sym)
    requires
        injective_on(f, w),
        covers(w, x),
    ensures
        forall|c: Sym| w.contains(c) ==> (#[trigger] rename(x, f).contains(f(c)) <==> x.contains(c)),
        covers(rename(w, f), rename(x, f)),
{
    lemma_rename_contains(x, f);
    lemma_rename_contains(w, f);
}

/// Renaming commutes with concatenation.
pub proof fn lemma_rename_concat(a: Seq<Sym>, b: Seq<Sym>, f: spec_fn(Sym) -> Sym)
    ensures
        rename(a + b, f) == rename(a, f) + rename(b, f),
{
    assert(rename(a + b, f) =~= rename(a, f) + rename(b, f));
}

/// Renaming commutes with taking a prefix or a suffix.
pub proof fn lemma_rename_split(w: Seq<Sym>, k: int, f: spec_fn(Sym) -> Sym)
    requires
        0 <= k <= w.len(),
    ensures
        rename(w, f).take(k) == rename(w.take(k), f),
        rename(w, f).skip(k) == rename(w.skip(k), f),
{
    assert(rename(w, f).take(k) =~= rename(w.take(k), f));
    assert(rename(w, f).skip(k) =~= rename(w.skip(k), f));
}

/// Renaming by a map that is one to one on the letters of both words
/// keeps their longest overlap, and so commutes with merging.
pub proof fn lemma_rename_merged(l: Seq<Sym>, r: Seq<Sym>, f: spec_fn(Sym) -> Sym)
    requires
        injective_on(f, l + r),
    ensures
        merged(rename(l, f), rename(r, f)) == rename(merged(l, r), f),
{
    let fl = rename(l, f);
    let fr = rename(r, f);
    lemma_contains_concat(l, r);
    lemma_max_overlap(l, r);
    let o = max_overlap(l, r) as int;
    assert forall|o2: int| #[trigger] is_overlap(fl, fr, o2) <==> is_overlap(l, r, o2) by {
        if 0 <= o2 <= l.len() && o2 <= r.len() {
            let a = l.subrange(l.len() - o2, l.len() as int);
            let b = r.subrange(0, o2);
            assert(fl.subrange(fl.len() - o2, fl.len() as int) =~= rename(a, f));
            assert(fr.subrange(0, o2) =~= rename(b, f));
            if rename(a, f) == rename(b, f) {
                assert forall|k: int| 0 <= k < o2 implies a[k] == b[k] by {
                    assert(rename(a, f)[k] == rename(b, f)[k]);
                    assert(l.contains(a[k])) by {
                        assert(l[l.len() - o2 + k] == a[k]);
                    }
                    assert(r.contains(b[k])) by {
                        assert(r[k] == b[k]);
                    }
                }
                assert(a =~= b);
            }
        }
    }
    lemma_max_overlap(fl, fr);
    lemma_max_overlap_is(fl, fr, o);
    assert(merged(fl, fr) =~= rename(merged(l, r), f));
}

/// Renaming letters one to one keeps both cuts of a nonempty word.
pub proof fn lemma_rename_cuts(x: Seq<Sym>, f: spec_fn(Sym) -> Sym)
    requires
        x.len() > 0,
        injective_on(f, x),
    ensures
        left_cut(rename(x, f)) == left_cut(x),
        right_cut(rename(x, f)) == right_cut(x),
        rename(x, f).take(left_cut(x)) == rename(x.take(left_cut(x)), f),
        rename(x, f).skip(right_cut(x) + 1) == rename(x.skip(right_cut(x) + 1), f),
        rename(x, f)[left_cut(x)] == f(x[left_cut(x)]),
        rename(x, f)[right_cut(x)] == f(x[right_cut(x)]),
{
    let y = rename(x, f);
    lemma_left_cut_facts(x);
    lemma_right_cut_facts(x);
    let i = left_cut(x);
    let j = right_cut(x);
    let a = x[i];
    let b = x[j];
    lemma_split(x, i);
    lemma_split(x, i + 1);
    lemma_split(x, j);
    lemma_split(x, j + 1);
    lemma_rename_split(x, i, f);
    lemma_rename_split(x, i + 1, f);
    lemma_rename_split(x, j, f);
    lemma_rename_split(x, j + 1, f);
    lemma_rename_contains_iff(x, x.take(i), f);
    lemma_rename_contains_iff(x, x.take(i + 1), f);
    lemma_rename_contains_iff(x, x, f);
    lemma_rename_contains_iff(x, x.skip(j + 1), f);
    lemma_rename_contains_iff(x, x.skip(j), f);
    assert(x.contains(a));
    assert(x.contains(b));
    assert(covers(y.take(i + 1), y)) by {
        lemma_rename_contains(x, f);
        lemma_rename_contains(x.take(i + 1), f);
    }
    lemma_left_cut_at(y, i);
    assert(covers(y.skip(j), y)) by {
        lemma_rename_contains(x, f);
        lemma_rename_contains(x.skip(j), f);
    }
    lemma_right_cut_at(y, j);
}

/// Canonical forms commute with renaming letters one to one.
pub proof fn lemma_rename_normal_form(x: Seq<Sym>, f: spec_fn(Sym) -> Sym)
    requires
        injective_on(f, x),
    ensures
        normal_form(rename(x, f)) == rename(normal_form(x), f),
    decreases n_letters(x),
{
    if x.len() == 0 {
        assert(rename(x, f) =~= x);
        return;
    }
    let y = rename(x, f);
    lemma_left_cut_facts(x);
    lemma_right_cut_facts(x);
    let i = left_cut(x);
    let j = right_cut(x);
    let a = x[i];
    let b = x[j];
    let p = x.take(i);
    let s = x.skip(j + 1);
    lemma_split(x, i);
    lemma_split(x, j + 1);
    lemma_rename_cuts(x, f);
    lemma_rename_normal_form(p, f);
    lemma_rename_normal_form(s, f);
    lemma_structure(x);
    lemma_structure(y);
    lemma_keeps_letters(p);
    lemma_keeps_letters(s);
    let l = normal_form(p) + seq![a];
    let r = seq![b] + normal_form(s);
    lemma_rename_concat(normal_form(p), seq![a], f);
    lemma_rename_concat(seq![b], normal_form(s), f);
    assert(rename(seq![a], f) =~= seq![f(a)]);
    assert(rename(seq![b], f) =~= seq![f(b)]);
    lemma_contains_concat(l, r);
    lemma_contains_concat(normal_form(p), seq![a]);
    lemma_contains_concat(seq![b], normal_form(s));
    lemma_contains_single(a);
    lemma_contains_single(b);
    assert(x.contains(a));
    assert(x.contains(b));
    assert(injective_on(f, l + r));
    lemma_rename_merged(l, r, f);
}

} // verus!
