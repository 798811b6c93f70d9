use vstd::prelude::*;

verus! {

/// A letter, written as its index in the alphabet.
pub type Sym = u8;

/// A word: a finite sequence of letters.
pub type Word = Vec<Sym>;

/// The number of distinct letters in `w`.
pub open spec fn n_letters(w: Seq<Sym>) -> nat {
    w.to_set().len()
}

/// Every letter of `w` is below `bound`.
pub open spec fn letters_below(w: Seq<Sym>, bound: int) -> bool {
    forall|j: int| 0 <= j < w.len() ==> w[j] < bound
}

/// Every letter of `small` occurs in `big`.
pub open spec fn covers(big: Seq<Sym>, small: Seq<Sym>) -> bool {
    forall|x: Sym| small.contains(x) ==> big.contains(x)
}

/// `left` ends with the first `o` letters of `right`.
pub open spec fn is_overlap(left: Seq<Sym>, right: Seq<Sym>, o: int) -> bool {
    &&& 0 <= o <= left.len()
    &&& o <= right.len()
    &&& left.subrange(left.len() - o, left.len() as int) == right.subrange(0, o)
}

/// The longest overlap of at most `o` letters between the end of `left`
/// and the start of `right`.
pub open spec fn overlap_upto(left: Seq<Sym>, right: Seq<Sym>, o: nat) -> nat
    decreases o,
{
    if o == 0 {
        0
    } else if is_overlap(left, right, o as int) {
        o
    } else {
        overlap_upto(left, right, (o - 1) as nat)
    }
}

/// The length of the shorter word.
pub open spec fn min_len(a: Seq<Sym>, b: Seq<Sym>) -> nat {
    if a.len() <= b.len() {
        a.len()
    } else {
        b.len()
    }
}

/// The longest overlap between the end of `left` and the start of `right`.
pub open spec fn max_overlap(left: Seq<Sym>, right: Seq<Sym>) -> nat {
    overlap_upto(left, right, min_len(left, right))
}

/// `left ++ right` with their longest boundary overlap written once.
pub open spec fn merged(left: Seq<Sym>, right: Seq<Sym>) -> Seq<Sym> {
    left.subrange(0, left.len() - max_overlap(left, right)) + right
}

/// The search for an overlap of at most `o` letters finds the longest one.
pub proof fn lemma_overlap_upto(left: Seq<Sym>, right: Seq<Sym>, o: nat)
    requires
        o <= min_len(left, right),
    ensures
        overlap_upto(left, right, o) <= o,
        is_overlap(left, right, overlap_upto(left, right, o) as int),
        forall|o2: int|
            overlap_upto(left, right, o) < o2 <= o ==> !is_overlap(left, right, o2),
    decreases o,
{
    if o == 0 {
        assert(left.subrange(left.len() as int, left.len() as int) =~= right.subrange(0, 0));
    } else if !is_overlap(left, right, o as int) {
        lemma_overlap_upto(left, right, (o - 1) as nat);
    }
}

/// The longest overlap is an overlap, and no longer one exists.
pub proof fn lemma_max_overlap(left: Seq<Sym>, right: Seq<Sym>)
    ensures
        is_overlap(left, right, max_overlap(left, right) as int),
        forall|o: int| max_overlap(left, right) < o ==> !is_overlap(left, right, o),
{
    lemma_overlap_upto(left, right, min_len(left, right));
}

/// The letters of `a·b` are those of `a` and those of `b`.
pub proof fn lemma_alph_concat(a: Seq<Sym>, b: Seq<Sym>)
    ensures
        (a + b).to_set() =~= a.to_set().union(b.to_set()),
{
    assert forall|x: Sym| (a + b).contains(x) <==> a.contains(x) || b.contains(x) by {
        if (a + b).contains(x) {
            let i = choose|i: int| 0 <= i < (a + b).len() && (a + b)[i] == x;
            if i >= a.len() {
                assert(b[i - a.len()] == x);
            }
        }
        if a.contains(x) {
            let i = choose|i: int| 0 <= i < a.len() && a[i] == x;
            assert((a + b)[i] == x);
        }
        if b.contains(x) {
            let i = choose|i: int| 0 <= i < b.len() && b[i] == x;
            assert((a + b)[a.len() + i] == x);
        }
    }
}

/// The one-letter word `x` has the letter `x` alone.
pub proof fn lemma_alph_single(x: Sym)
    ensures
        seq![x].to_set() =~= set![x],
{
    assert(seq![x][0] == x);
}

/// Adding one letter adds one distinct letter exactly when it is new.
pub proof fn lemma_n_letters_push(w: Seq<Sym>, x: Sym)
    ensures
        w.push(x).to_set() =~= w.to_set().insert(x),
        n_letters(w.push(x)) == n_letters(w) + (if w.contains(x) {
            0int
        } else {
            1int
        }),
{
    broadcast use vstd::seq_lib::group_seq_properties, vstd::set::group_set_axioms;

    w.lemma_push_to_set_commute(x);
    vstd::seq_lib::seq_to_set_is_finite(w);
}

/// The same holds for a letter added in front.
pub proof fn lemma_n_letters_cons(x: Sym, w: Seq<Sym>)
    ensures
        (seq![x] + w).to_set() =~= w.to_set().insert(x),
        n_letters(seq![x] + w) == n_letters(w) + (if w.contains(x) {
            0int
        } else {
            1int
        }),
{
    broadcast use vstd::set::group_set_axioms;

    lemma_alph_concat(seq![x], w);
    lemma_alph_single(x);
    vstd::seq_lib::seq_to_set_is_finite(w);
    assert((seq![x] + w).to_set() =~= w.to_set().insert(x));
    assert(w.to_set().contains(x) == w.contains(x));
}

/// Words with the same letters have the same number of distinct letters.
pub proof fn lemma_same_alph(a: Seq<Sym>, b: Seq<Sym>)
    requires
        covers(a, b),
        covers(b, a),
    ensures
        a.to_set() == b.to_set(),
        n_letters(a) == n_letters(b),
{
    assert(a.to_set() =~= b.to_set());
}

/// A word has at least as many distinct letters as any word it covers.
pub proof fn lemma_covers_n_letters(big: Seq<Sym>, small: Seq<Sym>)
    requires
        covers(big, small),
    ensures
        n_letters(small) <= n_letters(big),
{
    broadcast use vstd::set::group_set_axioms;

    vstd::seq_lib::seq_to_set_is_finite(big);
    assert(small.to_set().subset_of(big.to_set()));
    vstd::set_lib::lemma_len_subset(small.to_set(), big.to_set());
}

/// A word covering another with as many distinct letters has no letter
/// that the other lacks.
pub proof fn lemma_covers_equal_count(big: Seq<Sym>, small: Seq<Sym>)
    requires
        covers(big, small),
        n_letters(small) == n_letters(big),
    ensures
        covers(small, big),
{
    vstd::seq_lib::seq_to_set_is_finite(big);
    vstd::seq_lib::seq_to_set_is_finite(small);
    assert(small.to_set().subset_of(big.to_set()));
    vstd::set_lib::lemma_subset_equality(small.to_set(), big.to_set());
    assert forall|x: Sym| big.contains(x) implies small.contains(x) by {
        assert(big.to_set().contains(x));
    }
}

/// A nonempty word has at least one letter.
pub proof fn lemma_n_letters_pos(w: Seq<Sym>)
    requires
        w.len() > 0,
    ensures
        n_letters(w) > 0,
{
    vstd::seq_lib::seq_to_set_is_finite(w);
    assert(w.to_set().contains(w[0]));
    vstd::set::axiom_set_contains_len(w.to_set(), w[0]);
}

/// A longer prefix covers a shorter one.
pub proof fn lemma_take_covers(w: Seq<Sym>, a: int, b: int)
    requires
        0 <= a <= b <= w.len(),
    ensures
        covers(w.take(b), w.take(a)),
{
    assert forall|x: Sym| w.take(a).contains(x) implies w.take(b).contains(x) by {
        let i = choose|i: int| 0 <= i < a && w.take(a)[i] == x;
        assert(w.take(b)[i] == x);
    }
}

/// A longer suffix covers a shorter one.
pub proof fn lemma_skip_covers(w: Seq<Sym>, a: int, b: int)
    requires
        0 <= a <= b <= w.len(),
    ensures
        covers(w.skip(a), w.skip(b)),
{
    assert forall|x: Sym| w.skip(b).contains(x) implies w.skip(a).contains(x) by {
        let i = choose|i: int| 0 <= i < w.len() - b && w.skip(b)[i] == x;
        assert(w.skip(a)[i + b - a] == x);
    }
}

/// A word covers each of its factors.
pub proof fn lemma_factor_covered(w: Seq<Sym>, a: int, b: int)
    requires
        0 <= a <= b <= w.len(),
    ensures
        covers(w, w.subrange(a, b)),
{
    assert forall|x: Sym| w.subrange(a, b).contains(x) implies w.contains(x) by {
        let i = choose|i: int| 0 <= i < b - a && w.subrange(a, b)[i] == x;
        assert(w[a + i] == x);
    }
}

/// A table with one entry per possible letter, all false.
fn no_letters_seen() -> (seen: Vec<bool>)
    ensures
        seen@.len() == 256,
        forall|x: int| 0 <= x < 256 ==> !(#[trigger] seen@[x]),
{
    let mut seen: Vec<bool> = Vec::new();
    while seen.len() < 256
        invariant
            seen@.len() <= 256,
            forall|x: int| 0 <= x < seen@.len() ==> !(#[trigger] seen@[x]),
        decreases 256 - seen@.len(),
    {
        seen.push(false);
    }
    seen
}

/// The number of distinct letters in `word`.
pub fn count_letters(word: &[Sym]) -> (k: usize)
    ensures
        k == n_letters(word@),
{
    let mut seen = no_letters_seen();
    let mut cnt: usize = 0;
    let mut idx: usize = 0;
    assert(word@.take(0).to_set() =~= Set::empty());
    while idx < word.len()
        invariant
            idx <= word@.len(),
            cnt <= idx,
            seen@.len() == 256,
            cnt == n_letters(word@.take(idx as int)),
            forall|x: Sym| #[trigger] seen@[x as int] == word@.take(idx as int).contains(x),
        decreases word@.len() - idx,
    {
        let c = word[idx];
        proof {
            lemma_n_letters_push(word@.take(idx as int), c);
            assert(word@.take(idx + 1) =~= word@.take(idx as int).push(c));
        }
        if !seen[c as usize] {
            seen.set(c as usize, true);
            cnt = cnt + 1;
        }
        idx = idx + 1;
        assert forall|x: Sym| #[trigger] seen@[x as int] == word@.take(idx as int).contains(x) by {
            assert(word@.take(idx as int) == word@.take(idx - 1).push(c));
            assert(word@.take(idx as int).to_set() == word@.take(idx - 1).to_set().insert(c));
            assert(word@.take(idx as int).to_set().contains(x) == word@.take(idx as int).contains(x));
            assert(word@.take(idx - 1).to_set().contains(x) == word@.take(idx - 1).contains(x));
        }
    }
    assert(word@.take(idx as int) =~= word@);
    cnt
}

/// The length of the longest prefix of `word` that uses `n` distinct
/// letters: the position where the `n + 1`-th distinct letter first occurs.
pub fn find_left_subword(word: &[Sym], n: usize) -> (r: usize)
    requires
        n < n_letters(word@),
    ensures
        r < word.len(),
        n_letters(word@.take(r as int)) == n,
        n_letters(word@.take(r + 1)) == n + 1,
{
    let mut seen = no_letters_seen();
    let mut cnt: usize = 0;
    let mut idx: usize = 0;
    assert(word@.take(0).to_set() =~= Set::empty());
    while idx < word.len()
        invariant
            idx <= word@.len(),
            n < n_letters(word@),
            cnt <= n,
            seen@.len() == 256,
            cnt == n_letters(word@.take(idx as int)),
            forall|x: Sym| #[trigger] seen@[x as int] == word@.take(idx as int).contains(x),
        decreases word@.len() - idx,
    {
        let c = word[idx];
        proof {
            lemma_n_letters_push(word@.take(idx as int), c);
            assert(word@.take(idx + 1) =~= word@.take(idx as int).push(c));
        }
        if !seen[c as usize] {
            if cnt == n {
                return idx;
            }
            seen.set(c as usize, true);
            cnt = cnt + 1;
        }
        idx = idx + 1;
        assert forall|x: Sym| #[trigger] seen@[x as int] == word@.take(idx as int).contains(x) by {
            assert(word@.take(idx as int) == word@.take(idx - 1).push(c));
            assert(word@.take(idx as int).to_set() == word@.take(idx - 1).to_set().insert(c));
            assert(word@.take(idx as int).to_set().contains(x) == word@.take(idx as int).contains(x));
            assert(word@.take(idx - 1).to_set().contains(x) == word@.take(idx - 1).contains(x));
        }
    }
    assert(word@.take(idx as int) =~= word@);
    0
}

/// The start of the longest suffix of `word` that uses `n` distinct
/// letters: one past the position where, reading from the right, the
/// `n + 1`-th distinct letter first occurs.
pub fn find_right_subword(word: &[Sym], n: usize) -> (r: usize)
    requires
        n < n_letters(word@),
    ensures
        1 <= r <= word@.len(),
        n_letters(word@.skip(r as int)) == n,
        n_letters(word@.skip(r - 1)) == n + 1,
{
    let mut seen = no_letters_seen();
    let mut cnt: usize = 0;
    let mut idx: usize = word.len();
    assert(word@.skip(word@.len() as int).to_set() =~= Set::empty());
    while idx > 0
        invariant
            idx <= word@.len(),
            n < n_letters(word@),
            cnt <= n,
            seen@.len() == 256,
            cnt == n_letters(word@.skip(idx as int)),
            forall|x: Sym| #[trigger] seen@[x as int] == word@.skip(idx as int).contains(x),
        decreases idx,
    {
        let c = word[idx - 1];
        proof {
            lemma_n_letters_cons(c, word@.skip(idx as int));
            assert(word@.skip(idx - 1) =~= seq![c] + word@.skip(idx as int));
        }
        if !seen[c as usize] {
            if cnt == n {
                return idx;
            }
            seen.set(c as usize, true);
            cnt = cnt + 1;
        }
        idx = idx - 1;
        assert forall|x: Sym| #[trigger] seen@[x as int] == word@.skip(idx as int).contains(x) by {
            assert(word@.skip(idx as int) == seq![c] + word@.skip(idx + 1));
            assert(word@.skip(idx as int).to_set() == word@.skip(idx + 1).to_set().insert(c));
            assert(word@.skip(idx as int).to_set().contains(x) == word@.skip(idx as int).contains(x));
            assert(word@.skip(idx + 1).to_set().contains(x) == word@.skip(idx + 1).contains(x));
        }
    }
    assert(word@.skip(0) =~= word@);
    0
}

/// Concatenation of two words.
pub fn chain(left: &[Sym], right: &[Sym]) -> (r: Word)
    ensures
        r@ == left@ + right@,
{
    let mut r: Word = Vec::new();
    let mut i: usize = 0;
    while i < left.len()
        invariant
            i <= left@.len(),
            r@ == left@.subrange(0, i as int),
        decreases left@.len() - i,
    {
        r.push(left[i]);
        i = i + 1;
        assert(r@ =~= left@.subrange(0, i as int));
    }
    let mut j: usize = 0;
    while j < right.len()
        invariant
            i == left@.len(),
            j <= right@.len(),
            r@ == left@ + right@.subrange(0, j as int),
        decreases right@.len() - j,
    {
        r.push(right[j]);
        j = j + 1;
        assert(r@ =~= left@ + right@.subrange(0, j as int));
    }
    assert(right@.subrange(0, j as int) =~= right@);
    assert(left@.subrange(0, i as int) =~= left@);
    r
}

/// `a[a_from..a_from + n] == b[b_from..b_from + n]`, letter by letter.
fn same_run(a: &[Sym], a_from: usize, b: &[Sym], b_from: usize, n: usize) -> (r: bool)
    requires
        a_from + n <= a.len(),
        b_from + n <= b.len(),
    ensures
        r == (a@.subrange(a_from as int, a_from + n) == b@.subrange(b_from as int, b_from + n)),
{
    let mut i: usize = 0;
    while i < n
        invariant
            i <= n,
            a_from + n <= a.len(),
            b_from + n <= b.len(),
            forall|k: int| 0 <= k < i ==> #[trigger] a@[a_from + k] == b@[b_from + k],
        decreases n - i,
    {
        if a[a_from + i] != b[b_from + i] {
            assert(a@.subrange(a_from as int, a_from + n)[i as int] != b@.subrange(
                b_from as int,
                b_from + n,
            )[i as int]);
            return false;
        }
        i = i + 1;
    }
    assert forall|k: int| 0 <= k < n implies #[trigger] a@.subrange(a_from as int, a_from + n)[k]
        == b@.subrange(b_from as int, b_from + n)[k] by {
        assert(a@[a_from + k] == b@[b_from + k]);
    }
    assert(a@.subrange(a_from as int, a_from + n) =~= b@.subrange(b_from as int, b_from + n));
    true
}

/// The length of the longest overlap between the end of `left` and the
/// start of `right`.
pub fn overlap_len(left: &[Sym], right: &[Sym]) -> (o: usize)
    ensures
        o == max_overlap(left@, right@),
{
    let l_len = left.len();
    let r_len = right.len();
    let mut o: usize = if r_len > l_len {
        l_len
    } else {
        r_len
    };
    assert(o == min_len(left@, right@));
    while o > 0
        invariant
            o <= l_len,
            o <= r_len,
            l_len == left@.len(),
            r_len == right@.len(),
            overlap_upto(left@, right@, o as nat) == max_overlap(left@, right@),
        decreases o,
    {
        if same_run(left, l_len - o, right, 0, o) {
            return o;
        }
        o = o - 1;
    }
    o
}

/// Concatenates `left` and `right`, writing their longest boundary
/// overlap once.
pub fn merge(left: &[Sym], right: &[Sym]) -> (r: Word)
    ensures
        r@ == merged(left@, right@),
{
    let o = overlap_len(left, right);
    proof {
        lemma_max_overlap(left@, right@);
    }
    let cut = left.len() - o;
    chain(&left[0..cut], right)
}

/// Merging with the empty word changes nothing, and merging a word with
/// itself gives the word back.
pub proof fn lemma_merge_bounds(x: Seq<Sym>)
    ensures
        merged(x, Seq::empty()) == x,
        merged(x, x) == x,
{
    lemma_max_overlap(x, Seq::empty());
    assert(x.subrange(0, x.len() as int) =~= x);
    assert(x + Seq::<Sym>::empty() =~= x);
    assert(is_overlap(x, x, x.len() as int)) by {
        assert(x.subrange(0, x.len() as int) =~= x);
    }
    lemma_max_overlap(x, x);
    assert(max_overlap(x, x) <= x.len()) by {
        lemma_overlap_upto(x, x, min_len(x, x));
    }
    assert(x.subrange(0, 0) + x =~= x);
}

} // verus!
