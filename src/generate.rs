use vstd::prelude::*;

use itertools::Itertools;

use crate::word::{Sym, Word, chain, letters_below, merge, merged, lemma_max_overlap};

verus! {

/// The views of a list of words.
pub open spec fn words_view(ws: Seq<Word>) -> Seq<Seq<Sym>> {
    ws.map_values(|w: Word| w@)
}

/// The lists of `rows`, one after another.
pub open spec fn concat_all<A>(rows: Seq<Seq<A>>) -> Seq<A>
    decreases rows.len(),
{
    if rows.len() == 0 {
        Seq::empty()
    } else {
        concat_all(rows.drop_last()) + rows.last()
    }
}

/// Putting one more row at the end adds that row.
pub proof fn lemma_concat_all_take<A>(rows: Seq<Seq<A>>, t: int)
    requires
        0 <= t < rows.len(),
    ensures
        concat_all(rows.take(t + 1)) == concat_all(rows.take(t)) + rows[t],
{
    assert(rows.take(t + 1).drop_last() =~= rows.take(t));
}

/// Every word of `ws` has its letters below `bound`.
pub open spec fn all_below(ws: Seq<Seq<Sym>>, bound: int) -> bool {
    forall|t: int| 0 <= t < ws.len() ==> letters_below(#[trigger] ws[t], bound)
}

/// Rows of words with small letters give small letters end to end.
pub proof fn lemma_concat_all_below(rows: Seq<Seq<Seq<Sym>>>, bound: int)
    requires
        forall|t: int| 0 <= t < rows.len() ==> all_below(#[trigger] rows[t], bound),
    ensures
        all_below(concat_all(rows), bound),
    decreases rows.len(),
{
    if rows.len() > 0 {
        lemma_concat_all_below(rows.drop_last(), bound);
        let a = concat_all(rows.drop_last());
        let b = rows.last();
        assert(all_below(b, bound));
        assert forall|t: int| 0 <= t < (a + b).len() implies letters_below(#[trigger] (a + b)[t], bound) by {
            if t < a.len() {
                assert((a + b)[t] == a[t]);
            } else {
                assert((a + b)[t] == b[t - a.len()]);
            }
        }
    }
}

/// `w` with every letter at or above `i` moved up by one, so that the
/// letter `i` is free.
pub open spec fn shifted(w: Seq<Sym>, i: Sym) -> Seq<Sym> {
    w.map_values(|c: Sym| if c >= i { (c + 1) as Sym } else { c })
}

/// For each missing letter `i` below `n` in turn, every word of `words`
/// shifted to free `i`, paired with `i`.
pub open spec fn variants(words: Seq<Seq<Sym>>, n: nat) -> Seq<(Seq<Sym>, Sym)>
    decreases n,
{
    if n == 0 {
        Seq::empty()
    } else {
        variants(words, (n - 1) as nat) + words.map_values(
            |w: Seq<Sym>| (shifted(w, (n - 1) as Sym), (n - 1) as Sym),
        )
    }
}

/// The merge of the left word of `a`, followed by its missing letter, with
/// the missing letter of `b` followed by the word of `b`.
pub open spec fn joined(a: (Seq<Sym>, Sym), b: (Seq<Sym>, Sym)) -> Seq<Sym> {
    merged(a.0.push(a.1), seq![b.1] + b.0)
}

/// `joined(a, b)` for every ordered pair of `vs`, grouped by `a`.
pub open spec fn pair_rows(vs: Seq<(Seq<Sym>, Sym)>) -> Seq<Seq<Seq<Sym>>> {
    vs.map_values(|a: (Seq<Sym>, Sym)| vs.map_values(|b: (Seq<Sym>, Sym)| joined(a, b)))
}

/// The canonical words that use exactly the letters below `k`.
pub open spec fn exact_monoid(k: nat) -> Seq<Seq<Sym>>
    decreases k,
{
    if k == 0 {
        seq![Seq::empty()]
    } else {
        concat_all(pair_rows(variants(exact_monoid((k - 1) as nat), k)))
    }
}

/// The increasing selections of `k` letters from `lo..n`, in
/// lexicographic order.
pub open spec fn selections(lo: nat, n: nat, k: nat) -> Seq<Seq<Sym>>
    decreases n - lo,
{
    if k == 0 {
        seq![Seq::empty()]
    } else if lo >= n {
        Seq::empty()
    } else {
        selections(lo + 1, n, (k - 1) as nat).map_values(|s: Seq<Sym>| seq![lo as Sym] + s)
            + selections(lo + 1, n, k)
    }
}

/// `w` with each letter `c` replaced by `sel[c]`.
pub open spec fn relabel(w: Seq<Sym>, sel: Seq<Sym>) -> Seq<Sym> {
    w.map_values(|c: Sym| sel[c as int])
}

/// The canonical words with exactly `i` letters, written in each
/// selection of `i` of the letters below `n` in turn.
pub open spec fn monoid_of_size(n: nat, i: nat) -> Seq<Seq<Sym>> {
    concat_all(
        selections(0, n, i).map_values(
            |sel: Seq<Sym>| exact_monoid(i).map_values(|w: Seq<Sym>| relabel(w, sel)),
        ),
    )
}

/// The canonical words over the letters below `n` with fewer than `i`
/// distinct letters, by number of letters.
pub open spec fn monoid_upto(n: nat, i: nat) -> Seq<Seq<Sym>>
    decreases i,
{
    if i == 0 {
        Seq::empty()
    } else {
        monoid_upto(n, (i - 1) as nat) + monoid_of_size(n, (i - 1) as nat)
    }
}

/// Every canonical word over the letters below `n`.
pub open spec fn monoid(n: nat) -> Seq<Seq<Sym>> {
    monoid_upto(n, n + 1)
}

/// Shifting words with letters below `m - 1` to free a letter below `n`
/// gives letters below `m`.
pub proof fn lemma_variants_below(words: Seq<Seq<Sym>>, n: nat, m: nat)
    requires
        n <= m <= 256,
        all_below(words, m - 1),
    ensures
        forall|t: int| 0 <= t < variants(words, n).len() ==> letters_below(
            (#[trigger] variants(words, n)[t]).0,
            m as int,
        ) && variants(words, n)[t].1 < n,
    decreases n,
{
    if n > 0 {
        lemma_variants_below(words, (n - 1) as nat, m);
        let a = variants(words, (n - 1) as nat);
        let i = (n - 1) as Sym;
        let b = words.map_values(|w: Seq<Sym>| (shifted(w, i), i));
        assert(variants(words, n) == a + b);
        assert forall|t: int| 0 <= t < (a + b).len() implies letters_below(
            (#[trigger] (a + b)[t]).0,
            m as int,
        ) && (a + b)[t].1 < n by {
            if t >= a.len() {
                assert((a + b)[t] == b[t - a.len()]);
                assert(letters_below(words[t - a.len()], m - 1));
            } else {
                assert((a + b)[t] == a[t]);
            }
        }
    }
}

/// A merge has no letter that its two words lack.
pub proof fn lemma_merged_below(l: Seq<Sym>, r: Seq<Sym>, bound: int)
    requires
        letters_below(l, bound),
        letters_below(r, bound),
    ensures
        letters_below(merged(l, r), bound),
{
    lemma_max_overlap(l, r);
    let m = merged(l, r);
    let cut = l.len() - crate::word::max_overlap(l, r);
    assert forall|j: int| 0 <= j < m.len() implies m[j] < bound by {
        if j < cut {
            assert(m[j] == l[j]);
        } else {
            assert(m[j] == r[j - cut]);
        }
    }
}

/// Every letter of a word of `exact_monoid(k)` is below `k`.
pub proof fn lemma_exact_monoid_below(k: nat)
    requires
        k <= 256,
    ensures
        all_below(exact_monoid(k), k as int),
    decreases k,
{
    if k > 0 {
        lemma_exact_monoid_below((k - 1) as nat);
        let vs = variants(exact_monoid((k - 1) as nat), k);
        lemma_variants_below(exact_monoid((k - 1) as nat), k, k);
        let rows = pair_rows(vs);
        assert forall|t: int| 0 <= t < rows.len() implies all_below(#[trigger] rows[t], k as int) by {
            assert forall|u: int| 0 <= u < rows[t].len() implies letters_below(
                #[trigger] rows[t][u],
                k as int,
            ) by {
                let a = vs[t];
                let b = vs[u];
                assert(letters_below(a.0, k as int) && a.1 < k);
                assert(letters_below(b.0, k as int) && b.1 < k);
                assert(letters_below(a.0.push(a.1), k as int));
                assert(letters_below(seq![b.1] + b.0, k as int)) by {
                    assert forall|j: int| 0 <= j < (seq![b.1] + b.0).len() implies (seq![b.1]
                        + b.0)[j] < k by {
                        if j > 0 {
                            assert((seq![b.1] + b.0)[j] == b.0[j - 1]);
                        }
                    }
                }
                lemma_merged_below(a.0.push(a.1), seq![b.1] + b.0, k as int);
            }
        }
        lemma_concat_all_below(rows, k as int);
    }
}

/// The pairs of a list of words and letters, as values.
pub open spec fn pairs_view(ps: Seq<(Word, Sym)>) -> Seq<(Seq<Sym>, Sym)> {
    ps.map_values(|p: (Word, Sym)| (p.0@, p.1))
}

/// For each missing letter `i` below `n_letters` in turn, every word of
/// `words` with its letters at or above `i` moved up by one, paired with
/// `i`. Every letter is below 255, so that it can move up.
pub fn variants_on(words: &Vec<Word>, n_letters: usize) -> (r: Vec<(Word, Sym)>)
    requires
        n_letters <= 256,
        all_below(words_view(words@), 255),
    ensures
        pairs_view(r@) == variants(words_view(words@), n_letters as nat),
{
    let ghost ws = words_view(words@);
    let mut res: Vec<(Word, Sym)> = Vec::new();
    let mut i: usize = 0;
    while i < n_letters
        invariant
            i <= n_letters <= 256,
            ws == words_view(words@),
            all_below(ws, 255),
            pairs_view(res@) == variants(ws, i as nat),
        decreases n_letters - i,
    {
        let ghost before = pairs_view(res@);
        let sym = i as Sym;
        let mut t: usize = 0;
        while t < words.len()
            invariant
                i < n_letters <= 256,
                sym == i,
                ws == words_view(words@),
                all_below(ws, 255),
                t <= words@.len(),
                pairs_view(res@) == before + ws.take(t as int).map_values(
                    |w: Seq<Sym>| (shifted(w, sym), sym),
                ),
            decreases words@.len() - t,
        {
            let word = &words[t];
            assert(letters_below(ws[t as int], 255));
            assert(word@ == ws[t as int]);
            let mut new_word: Word = Vec::new();
            let mut j: usize = 0;
            while j < word.len()
                invariant
                    j <= word@.len(),
                    letters_below(word@, 255),
                    n_letters <= 256,
                    new_word@ == shifted(word@.take(j as int), sym),
                decreases word@.len() - j,
            {
                let c = word[j];
                let d: Sym = if c >= sym {
                    c + 1
                } else {
                    c
                };
                new_word.push(d);
                j = j + 1;
                assert(new_word@ =~= shifted(word@.take(j as int), sym));
            }
            assert(word@.take(j as int) =~= word@);
            let ghost old_res = res@;
            let ghost nw = new_word@;
            res.push((new_word, sym));
            assert(pairs_view(res@) =~= pairs_view(old_res).push((nw, sym)));
            assert(ws.take(t + 1).map_values(|w: Seq<Sym>| (shifted(w, sym), sym))
                =~= ws.take(t as int).map_values(|w: Seq<Sym>| (shifted(w, sym), sym)).push(
                (shifted(ws[t as int], sym), sym),
            ));
            t = t + 1;
            assert(pairs_view(res@) =~= before + ws.take(t as int).map_values(
                |w: Seq<Sym>| (shifted(w, sym), sym),
            ));
        }
        assert(ws.take(t as int) =~= ws);
        i = i + 1;
        assert(pairs_view(res@) =~= variants(ws, i as nat));
    }
    res
}

/// The canonical words that use exactly the `n_letters` letters below
/// `n_letters`: from the words with one letter fewer, every merge of
/// `x·a` with `b·y`, where `x` misses the letter `a` and `y` the letter `b`.
pub fn generate_exact_monoid(n_letters: usize) -> (r: Vec<Word>)
    requires
        n_letters <= 256,
    ensures
        words_view(r@) == exact_monoid(n_letters as nat),
    decreases n_letters,
{
    if n_letters == 0 {
        let mut res: Vec<Word> = Vec::new();
        res.push(Vec::new());
        assert(words_view(res@) =~= seq![Seq::<Sym>::empty()]);
        return res;
    }
    let shorter_words = generate_exact_monoid(n_letters - 1);
    proof {
        lemma_exact_monoid_below((n_letters - 1) as nat);
    }
    let various = variants_on(&shorter_words, n_letters);
    let ghost vs = pairs_view(various@);
    let ghost rows = pair_rows(vs);
    let mut words: Vec<Word> = Vec::new();
    let mut a: usize = 0;
    assert(rows.take(0) =~= Seq::<Seq<Seq<Sym>>>::empty());
    while a < various.len()
        invariant
            a <= various@.len(),
            vs == pairs_view(various@),
            rows == pair_rows(vs),
            words_view(words@) == concat_all(rows.take(a as int)),
        decreases various@.len() - a,
    {
        let mut one_a: Word = Vec::new();
        one_a.push(various[a].1);
        let left = chain(various[a].0.as_slice(), one_a.as_slice());
        assert(left@ =~= vs[a as int].0.push(vs[a as int].1));
        let ghost before = words_view(words@);
        let mut b: usize = 0;
        while b < various.len()
            invariant
                a < various@.len(),
                b <= various@.len(),
                vs == pairs_view(various@),
                rows == pair_rows(vs),
                left@ == vs[a as int].0.push(vs[a as int].1),
                words_view(words@) == before + rows[a as int].take(b as int),
            decreases various@.len() - b,
        {
            let mut one_b: Word = Vec::new();
            one_b.push(various[b].1);
            let right = chain(one_b.as_slice(), various[b].0.as_slice());
            assert(right@ =~= seq![vs[b as int].1] + vs[b as int].0);
            let m = merge(left.as_slice(), right.as_slice());
            assert(rows[a as int][b as int] == joined(vs[a as int], vs[b as int]));
            let ghost old_words = words@;
            let ghost mv = m@;
            words.push(m);
            assert(words_view(words@) =~= words_view(old_words).push(mv));
            assert(rows[a as int].take(b + 1) =~= rows[a as int].take(b as int).push(mv));
            b = b + 1;
            assert(words_view(words@) =~= before + rows[a as int].take(b as int));
        }
        proof {
            assert(rows[a as int].take(b as int) =~= rows[a as int]);
            lemma_concat_all_take(rows, a as int);
        }
        a = a + 1;
    }
    assert(rows.take(a as int) =~= rows);
    words
}

/// Relies on itertools' `Itertools::combinations` over the range `0..n`:
/// it yields every selection of `k` of the values, each in increasing
/// order, the selections in lexicographic order (a single empty selection
/// when `k` is zero, none when `k` exceeds `n`).
#[verifier::external_body]
fn combinations(n: usize, k: usize) -> (r: Vec<Word>)
    requires
        n <= 256,
    ensures
        words_view(r@) == selections(0, n as nat, k as nat),
{
    (0..n).combinations(k).map(|c| c.into_iter().map(|x| x as Sym).collect()).collect()
}

/// Each selection of `k` letters has `k` letters.
pub proof fn lemma_selections_len(lo: nat, n: nat, k: nat)
    ensures
        forall|t: int|
            0 <= t < selections(lo, n, k).len() ==> (#[trigger] selections(lo, n, k)[t]).len() == k,
    decreases n - lo,
{
    if k > 0 && lo < n {
        lemma_selections_len(lo + 1, n, (k - 1) as nat);
        lemma_selections_len(lo + 1, n, k);
        let a = selections(lo + 1, n, (k - 1) as nat).map_values(
            |s: Seq<Sym>| seq![lo as Sym] + s,
        );
        let b = selections(lo + 1, n, k);
        assert forall|t: int| 0 <= t < (a + b).len() implies (#[trigger] (a + b)[t]).len() == k by {
            if t < a.len() {
                assert((a + b)[t] == a[t]);
            } else {
                assert((a + b)[t] == b[t - a.len()]);
            }
        }
    }
}

/// Every canonical word over the `n_letter` letters below `n_letter`:
/// for each number `i` of letters from zero up, the canonical words with
/// exactly `i` letters, written in each selection of `i` letters in turn.
pub fn generate_monoid(n_letter: usize) -> (r: Vec<Word>)
    requires
        n_letter <= 256,
    ensures
        words_view(r@) == monoid(n_letter as nat),
{
    let ghost n = n_letter as nat;
    let mut res: Vec<Word> = Vec::new();
    let mut i: usize = 0;
    assert(words_view(res@) =~= monoid_upto(n, 0));
    while i <= n_letter
        invariant
            n == n_letter as nat,
            n_letter <= 256,
            i <= n_letter + 1,
            words_view(res@) == monoid_upto(n, i as nat),
        decreases n_letter + 1 - i,
    {
        let words = generate_exact_monoid(i);
        proof {
            lemma_exact_monoid_below(i as nat);
            lemma_selections_len(0, n, i as nat);
        }
        let combs = combinations(n_letter, i);
        let ghost sels = selections(0, n, i as nat);
        let ghost ex = exact_monoid(i as nat);
        let ghost rows = sels.map_values(
            |sel: Seq<Sym>| ex.map_values(|w: Seq<Sym>| relabel(w, sel)),
        );
        let ghost before = words_view(res@);
        let mut c: usize = 0;
        assert(rows.take(0) =~= Seq::<Seq<Seq<Sym>>>::empty());
        while c < combs.len()
            invariant
                c <= combs@.len(),
                words_view(combs@) == sels,
                words_view(words@) == ex,
                all_below(ex, i as int),
                forall|t: int| 0 <= t < sels.len() ==> (#[trigger] sels[t]).len() == i,
                rows == sels.map_values(|sel: Seq<Sym>| ex.map_values(|w: Seq<Sym>| relabel(w, sel))),
                words_view(res@) == before + concat_all(rows.take(c as int)),
            decreases combs@.len() - c,
        {
            let comb = &combs[c];
            assert(comb@ == sels[c as int]);
            assert(combs@.len() == sels.len());
            assert(ex.len() == words@.len());
            let ghost before2 = words_view(res@);
            let mut t: usize = 0;
            while t < words.len()
                invariant
                    c < combs@.len(),
                    combs@.len() == sels.len(),
                    ex.len() == words@.len(),
                    t <= words@.len(),
                    comb@ == sels[c as int],
                    comb@.len() == i,
                    words_view(words@) == ex,
                    all_below(ex, i as int),
                    rows == sels.map_values(|sel: Seq<Sym>| ex.map_values(|w: Seq<Sym>| relabel(w, sel))),
                    words_view(res@) == before2 + rows[c as int].take(t as int),
                decreases words@.len() - t,
            {
                let word = &words[t];
                assert(word@ == ex[t as int]);
                assert(letters_below(ex[t as int], i as int));
                let mut new_word: Word = Vec::new();
                let mut j: usize = 0;
                while j < word.len()
                    invariant
                        j <= word@.len(),
                        letters_below(word@, i as int),
                        comb@.len() == i,
                        new_word@ == relabel(word@.take(j as int), comb@),
                    decreases word@.len() - j,
                {
                    let x = word[j];
                    new_word.push(comb[x as usize]);
                    j = j + 1;
                    assert(new_word@ =~= relabel(word@.take(j as int), comb@));
                }
                assert(word@.take(j as int) =~= word@);
                assert(rows[c as int][t as int] == relabel(ex[t as int], sels[c as int]));
                let ghost old_res = res@;
                let ghost nw = new_word@;
                res.push(new_word);
                assert(words_view(res@) =~= words_view(old_res).push(nw));
                assert(rows[c as int].take(t + 1) =~= rows[c as int].take(t as int).push(nw));
                t = t + 1;
            }
            proof {
                assert(rows[c as int].take(t as int) =~= rows[c as int]);
                lemma_concat_all_take(rows, c as int);
            }
            c = c + 1;
        }
        assert(rows.take(c as int) =~= rows);
        i = i + 1;
    }
    res
}

} // verus!
