use vstd::prelude::*;

use crate::generate::{
    concat_all,
    exact_monoid,
    joined,
    monoid,
    monoid_of_size,
    monoid_upto,
    pair_rows,
    relabel,
    selections,
    shifted,
    variants,
};
use crate::generate::{lemma_exact_monoid_below, lemma_selections_len};
use crate::laws::{
    lemma_canonical_square_free,
    lemma_contains_concat,
    lemma_contains_single,
    lemma_left_cut_at,
    lemma_left_cut_facts,
    lemma_merged_facts,
    lemma_right_cut_at,
    lemma_right_cut_facts,
    lemma_split,
    lemma_structure,
};
use crate::reduce::{left_cut, normal_form, right_cut};
use crate::renaming::{injective_on, lemma_rename_normal_form, rename};
use crate::word::{Sym, letters_below, merged};

verus! {

/// The letters of `w` are exactly those below `i`.
pub open spec fn uses_exactly(w: Seq<Sym>, i: nat) -> bool {
    &&& letters_below(w, i as int)
    &&& forall|c: Sym| c < i ==> #[trigger] w.contains(c)
}

/// Moves every letter at or above `a` up by one.
pub open spec fn shift_fn(a: Sym) -> spec_fn(Sym) -> Sym {
    |c: Sym| if c >= a { (c + 1) as Sym } else { c }
}

/// Moves every letter above `a` down by one.
pub open spec fn unshift_fn(a: Sym) -> spec_fn(Sym) -> Sym {
    |c: Sym| if c > a { (c - 1) as Sym } else { c }
}

/// The letters below `k` that occur in `w`, in increasing order.
pub open spec fn present_upto(w: Seq<Sym>, k: nat) -> Seq<Sym>
    decreases k,
{
    if k == 0 {
        Seq::empty()
    } else if w.contains((k - 1) as Sym) {
        present_upto(w, (k - 1) as nat).push((k - 1) as Sym)
    } else {
        present_upto(w, (k - 1) as nat)
    }
}

/// `sel` is strictly increasing, with values in `lo..n`.
pub open spec fn increasing_in(sel: Seq<Sym>, lo: nat, n: nat) -> bool {
    &&& forall|k: int| 0 <= k < sel.len() ==> lo <= #[trigger] sel[k] < n
    &&& forall|k1: int, k2: int| 0 <= k1 < k2 < sel.len() ==> #[trigger] sel[k1] < #[trigger] sel[k2]
}

/// Each item of each row is in the rows put end to end.
pub proof fn lemma_concat_all_contains<A>(rows: Seq<Seq<A>>, t: int, u: int)
    requires
        0 <= t < rows.len(),
        0 <= u < rows[t].len(),
    ensures
        concat_all(rows).contains(rows[t][u]),
    decreases rows.len(),
{
    let a = concat_all(rows.drop_last());
    let b = rows.last();
    if t == rows.len() - 1 {
        assert((a + b)[a.len() + u] == b[u]);
    } else {
        lemma_concat_all_contains(rows.drop_last(), t, u);
        let k = choose|k: int| 0 <= k < a.len() && a[k] == rows[t][u];
        assert((a + b)[k] == a[k]);
    }
}

/// Each word shifted to free each letter below `n` is among the variants.
pub proof fn lemma_variants_contains(ws: Seq<Seq<Sym>>, n: nat, a: nat, t: int)
    requires
        a < n <= 256,
        0 <= t < ws.len(),
    ensures
        variants(ws, n).contains((shifted(ws[t], a as Sym), a as Sym)),
    decreases n,
{
    let prev = variants(ws, (n - 1) as nat);
    let last = ws.map_values(|w: Seq<Sym>| (shifted(w, (n - 1) as Sym), (n - 1) as Sym));
    if a == n - 1 {
        assert((prev + last)[prev.len() + t] == last[t]);
    } else {
        lemma_variants_contains(ws, (n - 1) as nat, a, t);
        let k = choose|k: int| 0 <= k < prev.len() && prev[k] == (shifted(ws[t], a as Sym), a as Sym);
        assert((prev + last)[k] == prev[k]);
    }
}

/// Every ordered pair of variants has its join among the pair rows.
pub proof fn lemma_pairs_contains(vs: Seq<(Seq<Sym>, Sym)>, t: int, u: int)
    requires
        0 <= t < vs.len(),
        0 <= u < vs.len(),
    ensures
        concat_all(pair_rows(vs)).contains(joined(vs[t], vs[u])),
{
    let rows = pair_rows(vs);
    assert(rows[t][u] == joined(vs[t], vs[u]));
    lemma_concat_all_contains(rows, t, u);
}

/// A word whose letters are all below `i` except `a` is `shifted` from
/// the word with the letters above `a` moved down, which uses the letters
/// below `i - 1`.
pub proof fn lemma_unshift(p: Seq<Sym>, i: nat, a: Sym)
    requires
        a < i <= 256,
        letters_below(p, i as int),
        !p.contains(a),
        forall|c: Sym| c < i && c != a ==> #[trigger] p.contains(c),
    ensures
        uses_exactly(rename(p, unshift_fn(a)), (i - 1) as nat),
        shifted(rename(p, unshift_fn(a)), a) == p,
        rename(rename(p, unshift_fn(a)), shift_fn(a)) == p,
        injective_on(shift_fn(a), rename(p, unshift_fn(a))),
{
    let q = rename(p, unshift_fn(a));
    assert forall|k: int| 0 <= k < q.len() implies q[k] < i - 1 by {
        assert(p.contains(p[k]));
    }
    assert forall|c: Sym| c < i - 1 implies #[trigger] q.contains(c) by {
        let c0: Sym = if c >= a { (c + 1) as Sym } else { c };
        assert(p.contains(c0));
        let k = choose|k: int| 0 <= k < p.len() && p[k] == c0;
        assert(q[k] == c);
    }
    assert forall|k: int| 0 <= k < p.len() implies shifted(q, a)[k] == p[k] by {
        assert(p.contains(p[k]));
    }
    assert(shifted(q, a) =~= p);
    assert(rename(q, shift_fn(a)) =~= p);
    assert forall|c1: Sym, c2: Sym|
        q.contains(c1) && q.contains(c2) && #[trigger] shift_fn(a)(c1) == #[trigger] shift_fn(a)(
            c2,
        ) implies c1 == c2 by {
        let k1 = choose|k: int| 0 <= k < q.len() && q[k] == c1;
        let k2 = choose|k: int| 0 <= k < q.len() && q[k] == c2;
    }
}

/// The canonical form of a word that uses exactly the letters below `i`
/// is among `exact_monoid(i)`.
pub proof fn lemma_exact_contains(w: Seq<Sym>, i: nat)
    requires
        i <= 256,
        uses_exactly(w, i),
    ensures
        exact_monoid(i).contains(normal_form(w)),
    decreases i,
{
    if i == 0 {
        if w.len() > 0 {
            assert(w[0] < 0);
        }
        assert(w =~= Seq::<Sym>::empty());
        assert(exact_monoid(0)[0] == Seq::<Sym>::empty());
        return;
    }
    assert(w.contains(0));
    lemma_structure(w);
    lemma_left_cut_facts(w);
    lemma_right_cut_facts(w);
    let li = left_cut(w);
    let rj = right_cut(w);
    let a = w[li];
    let b = w[rj];
    let p = w.take(li);
    let s = w.skip(rj + 1);
    lemma_split(w, li);
    lemma_split(w, rj + 1);
    assert(a < i && b < i);
    assert(letters_below(p, i as int)) by {
        assert forall|k: int| 0 <= k < p.len() implies p[k] < i by {
            assert(w[k] == p[k]);
        }
    }
    assert(letters_below(s, i as int)) by {
        assert forall|k: int| 0 <= k < s.len() implies s[k] < i by {
            assert(w[rj + 1 + k] == s[k]);
        }
    }
    lemma_unshift(p, i, a);
    lemma_unshift(s, i, b);
    let p1 = rename(p, unshift_fn(a));
    let s1 = rename(s, unshift_fn(b));
    lemma_exact_contains(p1, (i - 1) as nat);
    lemma_exact_contains(s1, (i - 1) as nat);
    lemma_rename_normal_form(p1, shift_fn(a));
    lemma_rename_normal_form(s1, shift_fn(b));
    let ex = exact_monoid((i - 1) as nat);
    let tp = choose|t: int| 0 <= t < ex.len() && ex[t] == normal_form(p1);
    let ts = choose|t: int| 0 <= t < ex.len() && ex[t] == normal_form(s1);
    assert(shifted(normal_form(p1), a) =~= rename(normal_form(p1), shift_fn(a)));
    assert(shifted(normal_form(s1), b) =~= rename(normal_form(s1), shift_fn(b)));
    lemma_variants_contains(ex, i, a as nat, tp);
    lemma_variants_contains(ex, i, b as nat, ts);
    let vs = variants(ex, i);
    let va = choose|k: int| 0 <= k < vs.len() && vs[k] == (shifted(ex[tp], a), a);
    let vb = choose|k: int| 0 <= k < vs.len() && vs[k] == (shifted(ex[ts], b), b);
    lemma_pairs_contains(vs, va, vb);
    assert(normal_form(p).push(a) =~= normal_form(p) + seq![a]);
}

/// The letters below `k` present in `w` come in increasing order, each once.
pub proof fn lemma_present_upto(w: Seq<Sym>, k: nat)
    requires
        k <= 256,
    ensures
        increasing_in(present_upto(w, k), 0, k),
        present_upto(w, k).len() <= k,
        forall|c: Sym| #[trigger] present_upto(w, k).contains(c) ==> w.contains(c),
        forall|c: Sym| c < k && w.contains(c) ==> #[trigger] present_upto(w, k).contains(c),
    decreases k,
{
    if k > 0 {
        lemma_present_upto(w, (k - 1) as nat);
        let prev = present_upto(w, (k - 1) as nat);
        let c0 = (k - 1) as Sym;
        if w.contains(c0) {
            let cur = prev.push(c0);
            assert(cur[prev.len() as int] == c0);
            assert forall|c: Sym| #[trigger] cur.contains(c) implies w.contains(c) by {
                let m = choose|m: int| 0 <= m < cur.len() && cur[m] == c;
                if m < prev.len() {
                    assert(prev[m] == c);
                    assert(prev.contains(c));
                }
            }
            assert forall|c: Sym| c < k && w.contains(c) implies #[trigger] cur.contains(c) by {
                if c < k - 1 {
                    assert(prev.contains(c));
                    let m = choose|m: int| 0 <= m < prev.len() && prev[m] == c;
                    assert(cur[m] == c);
                }
            }
            assert forall|k1: int, k2: int| 0 <= k1 < k2 < cur.len() implies #[trigger] cur[k1]
                < #[trigger] cur[k2] by {
                if k2 < prev.len() {
                    assert(prev[k1] < prev[k2]);
                } else {
                    assert(prev[k1] < k - 1);
                }
            }
        }
    }
}

/// Every increasing sequence of letters in `lo..n` is one of the selections.
pub proof fn lemma_selections_contains(sel: Seq<Sym>, lo: nat, n: nat)
    requires
        n <= 256,
        increasing_in(sel, lo, n),
    ensures
        selections(lo, n, sel.len()).contains(sel),
    decreases n - lo,
{
    let k = sel.len();
    if k == 0 {
        assert(sel =~= Seq::<Sym>::empty());
        assert(selections(lo, n, 0)[0] == Seq::<Sym>::empty());
        return;
    }
    assert(lo <= sel[0] < n);
    let first = selections(lo + 1, n, (k - 1) as nat).map_values(
        |t: Seq<Sym>| seq![lo as Sym] + t,
    );
    let rest = selections(lo + 1, n, k);
    if sel[0] == lo {
        let tail = sel.drop_first();
        assert(increasing_in(tail, lo + 1, n)) by {
            assert forall|m: int| 0 <= m < tail.len() implies lo + 1 <= #[trigger] tail[m] < n by {
                assert(sel[0] < sel[m + 1]);
            }
            assert forall|k1: int, k2: int| 0 <= k1 < k2 < tail.len() implies #[trigger] tail[k1]
                < #[trigger] tail[k2] by {
                assert(sel[k1 + 1] < sel[k2 + 1]);
            }
        }
        lemma_selections_contains(tail, lo + 1, n);
        let sub = selections(lo + 1, n, (k - 1) as nat);
        let m = choose|m: int| 0 <= m < sub.len() && sub[m] == tail;
        assert(seq![lo as Sym] + tail =~= sel);
        assert(first[m] == sel);
        assert((first + rest)[m] == sel);
    } else {
        assert(increasing_in(sel, lo + 1, n)) by {
            assert forall|m: int| 0 <= m < sel.len() implies lo + 1 <= #[trigger] sel[m] < n by {
                if m > 0 {
                    assert(sel[0] < sel[m]);
                }
            }
        }
        lemma_selections_contains(sel, lo + 1, n);
        let m = choose|m: int| 0 <= m < rest.len() && rest[m] == sel;
        assert((first + rest)[first.len() + m] == sel);
    }
}

/// A canonical word with `i` letters is listed once words with fewer than
/// `m` letters are, for `i < m`.
pub proof fn lemma_monoid_upto_contains(n: nat, i: nat, m: nat, e: Seq<Sym>)
    requires
        i < m,
        monoid_of_size(n, i).contains(e),
    ensures
        monoid_upto(n, m).contains(e),
    decreases m,
{
    let prev = monoid_upto(n, (m - 1) as nat);
    let last = monoid_of_size(n, (m - 1) as nat);
    if i == m - 1 {
        let k = choose|k: int| 0 <= k < last.len() && last[k] == e;
        assert((prev + last)[prev.len() + k] == e);
    } else {
        lemma_monoid_upto_contains(n, i, (m - 1) as nat, e);
        let k = choose|k: int| 0 <= k < prev.len() && prev[k] == e;
        assert((prev + last)[k] == e);
    }
}

/// The generator and the reducer agree: for every word over the letters
/// below `n`, its canonical form is among the words `generate_monoid(n)`
/// lists.
pub proof fn lemma_generated_covers(w: Seq<Sym>, n: nat)
    requires
        n <= 256,
        letters_below(w, n as int),
    ensures
        monoid(n).contains(normal_form(w)),
{
    lemma_present_upto(w, n);
    let sel = present_upto(w, n);
    let i = sel.len();
    let g = |c: Sym| (choose|k: int| 0 <= k < sel.len() && sel[k] == c) as Sym;
    let sf = |c: Sym| sel[c as int];
    assert forall|c: Sym| w.contains(c) implies 0 <= #[trigger] g(c) < i && sel[g(c) as int] == c by {
        let k0 = choose|k: int| 0 <= k < w.len() && w[k] == c;
        assert(w[k0] < n);
        assert(sel.contains(c));
    }
    let w1 = rename(w, g);
    assert forall|k: int| 0 <= k < w1.len() implies w1[k] < i by {
        assert(w.contains(w[k]));
    }
    assert forall|c: Sym| c < i implies #[trigger] w1.contains(c) by {
        let d = sel[c as int];
        assert(sel.contains(d));
        assert(w.contains(d));
        let k0 = choose|k: int| 0 <= k < w.len() && w[k] == d;
        let k1 = g(d) as int;
        if k1 < c {
            assert(sel[k1] < sel[c as int]);
        } else if k1 > c {
            assert(sel[c as int] < sel[k1]);
        }
        assert(w1[k0] == c);
    }
    assert(uses_exactly(w1, i));
    assert forall|k: int| 0 <= k < w.len() implies rename(w1, sf)[k] == w[k] by {
        assert(w.contains(w[k]));
    }
    assert(rename(w1, sf) =~= w);
    assert(injective_on(sf, w1)) by {
        assert forall|c1: Sym, c2: Sym|
            w1.contains(c1) && w1.contains(c2) && #[trigger] sf(c1) == #[trigger] sf(c2) implies c1
            == c2 by {
            let k1 = choose|k: int| 0 <= k < w1.len() && w1[k] == c1;
            let k2 = choose|k: int| 0 <= k < w1.len() && w1[k] == c2;
            if c1 < c2 {
                assert(sel[c1 as int] < sel[c2 as int]);
            } else if c2 < c1 {
                assert(sel[c2 as int] < sel[c1 as int]);
            }
        }
    }
    lemma_rename_normal_form(w1, sf);
    let e = normal_form(w1);
    assert(relabel(e, sel) =~= rename(e, sf));
    lemma_exact_contains(w1, i);
    let ex = exact_monoid(i);
    let t = choose|t: int| 0 <= t < ex.len() && ex[t] == e;
    lemma_selections_contains(sel, 0, n);
    let sels = selections(0, n, i);
    let c = choose|c: int| 0 <= c < sels.len() && sels[c] == sel;
    let rows = sels.map_values(
        |sl: Seq<Sym>| ex.map_values(|x: Seq<Sym>| relabel(x, sl)),
    );
    assert(rows[c][t] == relabel(e, sel));
    lemma_concat_all_contains(rows, c, t);
    assert(monoid_of_size(n, i) == concat_all(rows));
    lemma_monoid_upto_contains(n, i, n + 1, relabel(e, sel));
}

/// Each item of the rows put end to end is an item of some row.
pub proof fn lemma_concat_all_member<A>(rows: Seq<Seq<A>>, k: int)
    requires
        0 <= k < concat_all(rows).len(),
    ensures
        exists|t: int, u: int|
            0 <= t < rows.len() && 0 <= u < rows[t].len() && rows[t][u] == concat_all(rows)[k],
    decreases rows.len(),
{
    let a = concat_all(rows.drop_last());
    let b = rows.last();
    if k < a.len() {
        lemma_concat_all_member(rows.drop_last(), k);
        let (t, u) = choose|t: int, u: int|
            0 <= t < rows.drop_last().len() && 0 <= u < rows.drop_last()[t].len()
                && rows.drop_last()[t][u] == a[k];
        assert(rows[t][u] == (a + b)[k]);
    } else {
        assert(rows[rows.len() - 1][k - a.len()] == (a + b)[k]);
    }
}

/// Each variant is a word shifted to free a letter below `n`, with that
/// letter.
pub proof fn lemma_variants_member(ws: Seq<Seq<Sym>>, n: nat, k: int)
    requires
        n <= 256,
        0 <= k < variants(ws, n).len(),
    ensures
        exists|a: nat, t: int|
            a < n && 0 <= t < ws.len() && variants(ws, n)[k] == (
                #[trigger] shifted(ws[t], a as Sym),
                a as Sym,
            ),
    decreases n,
{
    let prev = variants(ws, (n - 1) as nat);
    let last = ws.map_values(|w: Seq<Sym>| (shifted(w, (n - 1) as Sym), (n - 1) as Sym));
    if k < prev.len() {
        lemma_variants_member(ws, (n - 1) as nat, k);
        let (a, t) = choose|a: nat, t: int|
            a < n - 1 && 0 <= t < ws.len() && prev[k] == (#[trigger] shifted(ws[t], a as Sym), a as Sym);
        assert((prev + last)[k] == prev[k]);
    } else {
        let t = k - prev.len();
        assert((prev + last)[k] == last[t]);
        assert(variants(ws, n)[k] == (shifted(ws[t], (n - 1) as Sym), (n - 1) as Sym));
    }
}

/// Each selection is increasing, with values in `lo..n`.
pub proof fn lemma_selections_increasing(lo: nat, n: nat, k: nat, t: int)
    requires
        n <= 256,
        0 <= t < selections(lo, n, k).len(),
    ensures
        increasing_in(selections(lo, n, k)[t], lo, n),
    decreases n - lo,
{
    if k > 0 && lo < n {
        let sub = selections(lo + 1, n, (k - 1) as nat);
        let first = sub.map_values(|q: Seq<Sym>| seq![lo as Sym] + q);
        let rest = selections(lo + 1, n, k);
        if t < first.len() {
            lemma_selections_increasing(lo + 1, n, (k - 1) as nat, t);
            let q = sub[t];
            let sel = seq![lo as Sym] + q;
            assert((first + rest)[t] == sel);
            assert forall|k1: int, k2: int| 0 <= k1 < k2 < sel.len() implies #[trigger] sel[k1]
                < #[trigger] sel[k2] by {
                if k1 == 0 {
                    assert(sel[k2] == q[k2 - 1]);
                } else {
                    assert(q[k1 - 1] < q[k2 - 1]);
                }
            }
            assert forall|m: int| 0 <= m < sel.len() implies lo <= #[trigger] sel[m] < n by {
                if m > 0 {
                    assert(sel[m] == q[m - 1]);
                }
            }
        } else {
            lemma_selections_increasing(lo + 1, n, k, t - first.len());
            assert((first + rest)[t] == rest[t - first.len()]);
        }
    } else if k == 0 {
        assert(selections(lo, n, k)[t] =~= Seq::<Sym>::empty());
    }
}

/// A listed word is listed among the words of some number of letters.
pub proof fn lemma_monoid_upto_member(n: nat, m: nat, e: Seq<Sym>)
    requires
        monoid_upto(n, m).contains(e),
    ensures
        exists|i: nat| i < m && #[trigger] monoid_of_size(n, i).contains(e),
    decreases m,
{
    let prev = monoid_upto(n, (m - 1) as nat);
    let last = monoid_of_size(n, (m - 1) as nat);
    let k = choose|k: int| 0 <= k < (prev + last).len() && (prev + last)[k] == e;
    if k < prev.len() {
        assert(prev[k] == e);
        lemma_monoid_upto_member(n, (m - 1) as nat, e);
    } else {
        assert(last[k - prev.len()] == e);
        assert(monoid_of_size(n, (m - 1) as nat).contains(e));
    }
}

/// Shifting a word that uses exactly the letters below `k - 1` to free
/// the letter `a` gives a word without `a` that has every other letter
/// below `k`, and keeps it canonical when it was.
pub proof fn lemma_shifted_word(e: Seq<Sym>, k: nat, a: Sym)
    requires
        0 < k <= 256,
        a < k,
        uses_exactly(e, (k - 1) as nat),
    ensures
        !shifted(e, a).contains(a),
        letters_below(shifted(e, a), k as int),
        forall|c: Sym| c < k && c != a ==> #[trigger] shifted(e, a).contains(c),
        normal_form(e) == e ==> normal_form(shifted(e, a)) == shifted(e, a),
{
    let se = shifted(e, a);
    assert(se =~= rename(e, shift_fn(a)));
    assert forall|c1: Sym, c2: Sym|
        e.contains(c1) && e.contains(c2) && #[trigger] shift_fn(a)(c1) == #[trigger] shift_fn(a)(
            c2,
        ) implies c1 == c2 by {
        let k1 = choose|m: int| 0 <= m < e.len() && e[m] == c1;
        let k2 = choose|m: int| 0 <= m < e.len() && e[m] == c2;
    }
    lemma_rename_normal_form(e, shift_fn(a));
    assert forall|c: Sym| c < k && c != a implies #[trigger] se.contains(c) by {
        let c0: Sym = if c > a { (c - 1) as Sym } else { c };
        assert(e.contains(c0));
        let m = choose|m: int| 0 <= m < e.len() && e[m] == c0;
        assert(se[m] == c);
    }
    if se.contains(a) {
        let m = choose|m: int| 0 <= m < se.len() && se[m] == a;
        assert(se[m] == shift_fn(a)(e[m]));
    }
}

/// Every word of `exact_monoid(k)` is its own canonical form and uses
/// exactly the letters below `k`.
pub proof fn lemma_exact_fixed(k: nat, t: int)
    requires
        k <= 256,
        0 <= t < exact_monoid(k).len(),
    ensures
        normal_form(exact_monoid(k)[t]) == exact_monoid(k)[t],
        uses_exactly(exact_monoid(k)[t], k),
    decreases k,
{
    if k == 0 {
        assert(exact_monoid(0)[t] =~= Seq::<Sym>::empty());
        return;
    }
    let ex = exact_monoid((k - 1) as nat);
    let vs = variants(ex, k);
    let rows = pair_rows(vs);
    let z = exact_monoid(k)[t];
    lemma_concat_all_member(rows, t);
    let (ta, tb) = choose|ta: int, tb: int|
        0 <= ta < rows.len() && 0 <= tb < rows[ta].len() && rows[ta][tb] == z;
    assert(z == joined(vs[ta], vs[tb]));
    lemma_variants_member(ex, k, ta);
    lemma_variants_member(ex, k, tb);
    let (a, t1) = choose|a: nat, t1: int|
        a < k && 0 <= t1 < ex.len() && vs[ta] == (#[trigger] shifted(ex[t1], a as Sym), a as Sym);
    let (b, t2) = choose|b: nat, t2: int|
        b < k && 0 <= t2 < ex.len() && vs[tb] == (#[trigger] shifted(ex[t2], b as Sym), b as Sym);
    lemma_exact_fixed((k - 1) as nat, t1);
    lemma_exact_fixed((k - 1) as nat, t2);
    let a = a as Sym;
    let b = b as Sym;
    let e1 = shifted(ex[t1], a);
    let e2 = shifted(ex[t2], b);
    lemma_shifted_word(ex[t1], k, a);
    lemma_shifted_word(ex[t2], k, b);
    let l = e1 + seq![a];
    let r = seq![b] + e2;
    assert(e1.push(a) =~= l);
    assert(z == merged(l, r));
    lemma_merged_facts(l, r);
    lemma_contains_concat(e1, seq![a]);
    lemma_contains_concat(seq![b], e2);
    lemma_contains_single(a);
    lemma_contains_single(b);
    assert forall|c: Sym| c < k implies #[trigger] z.contains(c) by {
        assert(l.contains(c));
    }
    assert forall|m: int| 0 <= m < z.len() implies z[m] < k by {
        assert(z.contains(z[m]));
        if l.contains(z[m]) {
            let q = choose|q: int| 0 <= q < l.len() && l[q] == z[m];
            assert(l[q] < k);
        } else {
            let q = choose|q: int| 0 <= q < r.len() && r[q] == z[m];
            assert(r[q] < k);
        }
    }
    assert(uses_exactly(z, k));
    let e = z.len() - e2.len() - 1;
    assert(z.take(e1.len() as int) =~= e1) by {
        assert(z.take(l.len() as int) == l);
    }
    assert(z.take(e1.len() + 1int) == l);
    assert(z[e1.len() as int] == a) by {
        assert(z.take(l.len() as int)[e1.len() as int] == l[e1.len() as int]);
    }
    lemma_left_cut_at(z, e1.len() as int);
    assert(z.skip(e) == r);
    assert(z.skip(e + 1) =~= e2) by {
        assert(z.skip(e) == r);
    }
    assert(z[e] == b) by {
        assert(z.skip(e)[0] == r[0]);
    }
    lemma_right_cut_at(z, e);
    lemma_structure(z);
}

/// The generator lists canonical forms only: every word that
/// `generate_monoid(n)` lists is its own canonical form.
pub proof fn lemma_generated_canonical(n: nat, e: Seq<Sym>)
    requires
        n <= 256,
        monoid(n).contains(e),
    ensures
        normal_form(e) == e,
{
    lemma_monoid_upto_member(n, n + 1, e);
    let i = choose|i: nat| i < n + 1 && #[trigger] monoid_of_size(n, i).contains(e);
    let sels = selections(0, n, i);
    let ex = exact_monoid(i);
    let rows = sels.map_values(|sl: Seq<Sym>| ex.map_values(|x: Seq<Sym>| relabel(x, sl)));
    assert(monoid_of_size(n, i) == concat_all(rows));
    let k = choose|k: int| 0 <= k < concat_all(rows).len() && concat_all(rows)[k] == e;
    lemma_concat_all_member(rows, k);
    let (c, t) = choose|c: int, t: int|
        0 <= c < rows.len() && 0 <= t < rows[c].len() && rows[c][t] == e;
    let sel = sels[c];
    assert(e == relabel(ex[t], sel));
    lemma_selections_len(0, n, i);
    lemma_selections_increasing(0, n, i, c);
    lemma_exact_monoid_below(i);
    lemma_exact_fixed(i, t);
    let e0 = ex[t];
    assert(letters_below(e0, i as int));
    let sf = |x: Sym| sel[x as int];
    assert(relabel(e0, sel) =~= rename(e0, sf));
    assert(injective_on(sf, e0)) by {
        assert forall|c1: Sym, c2: Sym|
            e0.contains(c1) && e0.contains(c2) && #[trigger] sf(c1) == #[trigger] sf(c2) implies c1
            == c2 by {
            let k1 = choose|q: int| 0 <= q < e0.len() && e0[q] == c1;
            let k2 = choose|q: int| 0 <= q < e0.len() && e0[q] == c2;
            if c1 < c2 {
                assert(sel[c1 as int] < sel[c2 as int]);
            } else if c2 < c1 {
                assert(sel[c2 as int] < sel[c1 as int]);
            }
        }
    }
    lemma_rename_normal_form(e0, sf);
}

/// Every word that `generate_monoid(n)` lists is square-free: no nonempty
/// factor of it is followed at once by a copy of itself.
pub proof fn lemma_generated_square_free(n: nat, e: Seq<Sym>, i: int, k: int)
    requires
        n <= 256,
        monoid(n).contains(e),
        0 <= i,
        0 < k,
        i + 2 * k <= e.len(),
    ensures
        e.subrange(i, i + k) != e.subrange(i + k, i + 2 * k),
{
    lemma_generated_canonical(n, e);
    lemma_canonical_square_free(e, i, k);
}

} // verus!
