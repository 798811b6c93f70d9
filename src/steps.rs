use vstd::prelude::*;

use crate::word::{Sym, Word, chain, covers, lemma_alph_concat};

verus! {

/// The mirror image of a word.
pub open spec fn rev(s: Seq<Sym>) -> Seq<Sym> {
    Seq::new(s.len(), |i: int| s[s.len() - 1 - i])
}

/// Mirroring `a·b` gives the mirror of `b` then the mirror of `a`.
pub proof fn lemma_rev_concat(a: Seq<Sym>, b: Seq<Sym>)
    ensures
        rev(a + b) =~= rev(b) + rev(a),
{
}

/// Mirroring twice gives the word back.
pub proof fn lemma_rev_rev(a: Seq<Sym>)
    ensures
        rev(rev(a)) =~= a,
{
}

/// One elementary rewrite, as a value: inside the fixed context
/// `left`/`right`, the fragment `frag` is squared (`frag` becomes
/// `frag·frag`) or, when `squaring` is false, unsquared.
pub struct StepView {
    pub left: Seq<Sym>,
    pub frag: Seq<Sym>,
    pub right: Seq<Sym>,
    pub squaring: bool,
}

impl StepView {
    /// The whole word before the rewrite.
    pub open spec fn before(self) -> Seq<Sym> {
        if self.squaring {
            self.left + self.frag + self.right
        } else {
            self.left + self.frag + self.frag + self.right
        }
    }

    /// The whole word after the rewrite.
    pub open spec fn after(self) -> Seq<Sym> {
        if self.squaring {
            self.left + self.frag + self.frag + self.right
        } else {
            self.left + self.frag + self.right
        }
    }

    pub open spec fn with_prefix(self, ctx: Seq<Sym>) -> StepView {
        StepView { left: ctx + self.left, ..self }
    }

    pub open spec fn with_suffix(self, ctx: Seq<Sym>) -> StepView {
        StepView { right: self.right + ctx, ..self }
    }

    /// The same rewrite run backwards.
    pub open spec fn flipped(self) -> StepView {
        StepView { squaring: !self.squaring, ..self }
    }

    /// The same rewrite on the mirrored word.
    pub open spec fn mirrored(self) -> StepView {
        StepView {
            left: rev(self.right),
            frag: rev(self.frag),
            right: rev(self.left),
            squaring: self.squaring,
        }
    }
}

/// A derivation, as a value: the words it starts and ends at, and its
/// rewrites in order.
pub struct StepsView {
    pub start: Seq<Sym>,
    pub end: Seq<Sym>,
    pub moves: Seq<StepView>,
}

impl StepsView {
    /// Each rewrite squares or unsquares a nonempty fragment, the first
    /// rewrite starts at `start`, each one starts where the one before it
    /// ended, and the last ends at `end` (with no rewrites, `start == end`).
    pub open spec fn valid(self) -> bool {
        &&& forall|i: int| 0 <= i < self.moves.len() ==> #[trigger] self.moves[i].frag.len() > 0
        &&& self.moves.len() == 0 ==> self.start == self.end
        &&& self.moves.len() > 0 ==> self.moves[0].before() == self.start
        &&& self.moves.len() > 0 ==> self.moves[self.moves.len() - 1].after() == self.end
        &&& forall|i: int|
            0 <= i < self.moves.len() - 1 ==> #[trigger] self.moves[i].after() == self.moves[i
                + 1].before()
    }

    /// `self` followed by `other`.
    pub open spec fn followed_by(self, other: StepsView) -> StepsView {
        StepsView { start: self.start, end: other.end, moves: self.moves + other.moves }
    }
}

/// The rewrites `ms` with the fixed word `ctx` put in front of each.
pub open spec fn prefixed(ms: Seq<StepView>, ctx: Seq<Sym>) -> Seq<StepView> {
    ms.map_values(|m: StepView| m.with_prefix(ctx))
}

/// The rewrites `ms` with the fixed word `ctx` put after each.
pub open spec fn suffixed(ms: Seq<StepView>, ctx: Seq<Sym>) -> Seq<StepView> {
    ms.map_values(|m: StepView| m.with_suffix(ctx))
}

/// The rewrites `ms` undone: in reverse order, each one run backwards.
pub open spec fn undone(ms: Seq<StepView>) -> Seq<StepView> {
    Seq::new(ms.len(), |i: int| ms[ms.len() - 1 - i].flipped())
}

/// The rewrites of `ds`, one derivation after another.
pub open spec fn all_moves(ds: Seq<StepsView>) -> Seq<StepView>
    decreases ds.len(),
{
    if ds.len() == 0 {
        Seq::empty()
    } else {
        all_moves(ds.drop_last()) + ds.last().moves
    }
}

/// Running one valid derivation after another that starts where the first
/// ends is a valid derivation.
pub proof fn lemma_then_valid(a: StepsView, b: StepsView)
    requires
        a.valid(),
        b.valid(),
        a.end == b.start,
    ensures
        a.followed_by(b).valid(),
{
    let c = a.followed_by(b);
    let na = a.moves.len();
    let nb = b.moves.len();
    if na == 0 {
        assert(c.moves =~= b.moves);
    } else if nb == 0 {
        assert(c.moves =~= a.moves);
    } else {
        assert(c.moves[0] == a.moves[0]);
        assert(c.moves[na + nb - 1] == b.moves[nb - 1]);
        assert forall|i: int| 0 <= i < c.moves.len() implies #[trigger] c.moves[i].frag.len() > 0 by {
            if i < na {
                assert(c.moves[i] == a.moves[i]);
            } else {
                assert(c.moves[i] == b.moves[i - na]);
            }
        }
        assert forall|i: int| 0 <= i < c.moves.len() - 1 implies #[trigger] c.moves[i].after()
            == c.moves[i + 1].before() by {
            if i < na - 1 {
                assert(c.moves[i] == a.moves[i]);
                assert(c.moves[i + 1] == a.moves[i + 1]);
            } else if i == na - 1 {
                assert(c.moves[i] == a.moves[i]);
                assert(c.moves[i + 1] == b.moves[0]);
            } else {
                assert(c.moves[i] == b.moves[i - na]);
                assert(c.moves[i + 1] == b.moves[i - na + 1]);
            }
        }
    }
}

/// Taking one more derivation adds its rewrites at the end.
pub proof fn lemma_all_moves_take(ds: Seq<StepsView>, i: int)
    requires
        0 <= i < ds.len(),
    ensures
        all_moves(ds.take(i + 1)) == all_moves(ds.take(i)) + ds[i].moves,
{
    assert(ds.take(i + 1).drop_last() =~= ds.take(i));
}

/// The mirrored rewrite goes between the mirrored words.
pub proof fn lemma_mirrored(m: StepView)
    ensures
        m.mirrored().before() =~= rev(m.before()),
        m.mirrored().after() =~= rev(m.after()),
{
    lemma_rev_concat(m.left, m.frag);
    lemma_rev_concat(m.left + m.frag, m.right);
    lemma_rev_concat(m.left + m.frag, m.frag);
    lemma_rev_concat(m.left + m.frag + m.frag, m.right);
}

/// A rewrite keeps the set of letters of the word.
pub proof fn lemma_step_alph(m: StepView)
    ensures
        m.before().to_set() == m.after().to_set(),
{
    lemma_alph_concat(m.left, m.frag);
    lemma_alph_concat(m.left + m.frag, m.frag);
    lemma_alph_concat(m.left + m.frag, m.right);
    lemma_alph_concat(m.left + m.frag + m.frag, m.right);
    assert((m.left + m.frag + m.right).to_set() =~= (m.left + m.frag + m.frag + m.right).to_set());
}

/// Each word a valid derivation reaches has the letters of its start.
proof fn lemma_valid_alph_upto(d: StepsView, k: int)
    requires
        d.valid(),
        0 <= k < d.moves.len(),
    ensures
        d.moves[k].after().to_set() == d.start.to_set(),
    decreases k,
{
    lemma_step_alph(d.moves[k]);
    if k > 0 {
        lemma_valid_alph_upto(d, k - 1);
        assert(d.moves[k - 1].after() == d.moves[k].before());
    }
}

/// A valid derivation ends at a word with the letters it started from.
pub proof fn lemma_valid_alph(d: StepsView)
    requires
        d.valid(),
    ensures
        d.start.to_set() == d.end.to_set(),
{
    if d.moves.len() > 0 {
        lemma_valid_alph_upto(d, d.moves.len() - 1);
    }
}

/// Every word a valid derivation passes through, and each part of each
/// rewrite, uses only letters of its start.
pub proof fn lemma_valid_moves_covered(d: StepsView, k: int)
    requires
        d.valid(),
        0 <= k < d.moves.len(),
    ensures
        covers(d.start, d.moves[k].left),
        covers(d.start, d.moves[k].frag),
        covers(d.start, d.moves[k].right),
{
    let m = d.moves[k];
    lemma_valid_alph_upto(d, k);
    lemma_step_alph(m);
    lemma_alph_concat(m.left, m.frag);
    lemma_alph_concat(m.left + m.frag, m.right);
    lemma_alph_concat(m.left + m.frag, m.frag);
    lemma_alph_concat(m.left + m.frag + m.frag, m.right);
    assert(m.before().to_set() == d.start.to_set());
    assert forall|x: Sym| m.left.contains(x) || m.frag.contains(x) || m.right.contains(x) implies d.start.contains(
        x,
    ) by {
        assert(d.start.to_set().contains(x) == d.start.contains(x));
        assert(m.left.to_set().contains(x) == m.left.contains(x));
        assert(m.frag.to_set().contains(x) == m.frag.contains(x));
        assert(m.right.to_set().contains(x) == m.right.contains(x));
    }
}

/// One elementary rewrite: see `StepView`.
pub struct Step {
    pub left: Word,
    pub frag: Word,
    pub right: Word,
    pub squaring: bool,
}

impl View for Step {
    type V = StepView;

    open spec fn view(&self) -> StepView {
        StepView {
            left: self.left@,
            frag: self.frag@,
            right: self.right@,
            squaring: self.squaring,
        }
    }
}

/// A derivation: a chain of elementary rewrites from `start` to `end`,
/// each squaring or unsquaring a fragment of the current word.
pub struct Steps {
    pub start: Word,
    pub end: Word,
    pub steps: Vec<Step>,
}

impl View for Steps {
    type V = StepsView;

    open spec fn view(&self) -> StepsView {
        StepsView {
            start: self.start@,
            end: self.end@,
            moves: self.steps@.map_values(|s: Step| s@),
        }
    }
}

/// A copy of a word.
pub fn copy_word(w: &[Sym]) -> (r: Word)
    ensures
        r@ == w@,
{
    chain(w, &[])
}

/// The mirror image of a word.
pub fn reversed(w: &[Sym]) -> (r: Word)
    ensures
        r@ == rev(w@),
{
    let mut r: Word = Vec::new();
    let mut i: usize = w.len();
    while i > 0
        invariant
            i <= w@.len(),
            r@ == rev(w@).subrange(0, w@.len() - i),
        decreases i,
    {
        i = i - 1;
        r.push(w[i]);
        assert(r@ =~= rev(w@).subrange(0, w@.len() - i));
    }
    assert(r@ =~= rev(w@));
    r
}

impl Step {
    fn copy(&self) -> (r: Step)
        ensures
            r@ == self@,
    {
        Step {
            left: copy_word(&self.left),
            frag: copy_word(&self.frag),
            right: copy_word(&self.right),
            squaring: self.squaring,
        }
    }
}

impl Steps {
    /// The derivation that does nothing: from `w` to `w`, with no rewrite.
    pub fn empty(w: &[Sym]) -> (r: Steps)
        ensures
            r@.valid(),
            r@.start == w@,
            r@.end == w@,
            r@.moves.len() == 0,
    {
        Steps { start: copy_word(w), end: copy_word(w), steps: Vec::new() }
    }

    /// One squaring: from `m` to `m·m`.
    pub fn square(m: &[Sym]) -> (r: Steps)
        requires
            m@.len() > 0,
        ensures
            r@.valid(),
            r@.start == m@,
            r@.end == m@ + m@,
            r@.moves == seq![
                StepView { left: Seq::empty(), frag: m@, right: Seq::empty(), squaring: true },
            ],
    {
        let step = Step {
            left: Vec::new(),
            frag: copy_word(m),
            right: Vec::new(),
            squaring: true,
        };
        let mut steps: Vec<Step> = Vec::new();
        steps.push(step);
        let r = Steps { start: copy_word(m), end: chain(m, m), steps };
        proof {
            let sv = r@.moves[0];
            assert(sv.before() =~= m@);
            assert(sv.after() =~= m@ + m@);
            assert(r@.moves =~= seq![
                StepView { left: Seq::empty(), frag: m@, right: Seq::empty(), squaring: true },
            ]);
        }
        r
    }
    /// Appends `other`, which starts where `self` ends.
    pub fn append(&mut self, other: &Steps)
        requires
            old(self)@.valid(),
            other@.valid(),
            old(self)@.end == other@.start,
        ensures
            final(self)@ == old(self)@.followed_by(other@),
            final(self)@.valid(),
    {
        proof {
            lemma_then_valid(self@, other@);
        }
        let ghost old_moves = self@.moves;
        let mut j: usize = 0;
        while j < other.steps.len()
            invariant
                j <= other@.moves.len(),
                self@.start == old(self)@.start,
                self@.moves == old_moves + other@.moves.take(j as int),
            decreases other@.moves.len() - j,
        {
            let st = other.steps[j].copy();
            assert(st@ == other@.moves[j as int]);
            let ghost before_push = self.steps@;
            self.steps.push(st);
            assert(self.steps@ == before_push.push(st));
            assert(self@.moves =~= before_push.map_values(|s: Step| s@).push(st@));
            assert(other@.moves.take(j + 1) =~= other@.moves.take(j as int).push(st@));
            j = j + 1;
            assert(self@.moves =~= old_moves + other@.moves.take(j as int));
        }
        self.end = copy_word(&other.end);
        assert(other@.moves.take(j as int) =~= other@.moves);
        assert(self@.moves =~= old(self)@.followed_by(other@).moves);
    }

    /// The derivations of `list`, run one after another: each must start
    /// where the one before it ends.
    pub fn join(list: Vec<Steps>) -> (r: Steps)
        requires
            list@.len() > 0,
            forall|i: int| 0 <= i < list@.len() ==> (#[trigger] list@[i])@.valid(),
            forall|i: int| 0 <= i < list@.len() - 1 ==> (#[trigger] list@[i])@.end == list@[i
                + 1]@.start,
        ensures
            r@.valid(),
            r@.start == list@[0]@.start,
            r@.end == list@[list@.len() - 1]@.end,
            r@.moves == all_moves(list@.map_values(|d: Steps| d@)),
    {
        let ghost views = list@.map_values(|d: Steps| d@);
        let mut r = Steps::empty(&list[0].start);
        proof {
            assert(views.take(0).len() == 0);
            assert(all_moves(views.take(0)) =~= Seq::empty());
            assert(r@.moves =~= Seq::empty());
        }
        let mut i: usize = 0;
        while i < list.len()
            invariant
                0 <= i <= list@.len(),
                views == list@.map_values(|d: Steps| d@),
                forall|k: int| 0 <= k < list@.len() ==> (#[trigger] list@[k])@.valid(),
                forall|k: int| 0 <= k < list@.len() - 1 ==> (#[trigger] list@[k])@.end
                    == list@[k + 1]@.start,
                r@.valid(),
                r@.start == list@[0]@.start,
                i == 0 ==> r@.end == list@[0]@.start,
                i > 0 ==> r@.end == list@[i - 1]@.end,
                r@.moves == all_moves(views.take(i as int)),
            decreases list@.len() - i,
        {
            proof {
                lemma_all_moves_take(views, i as int);
                if i > 0 {
                    assert(list@[i - 1]@.end == list@[i as int]@.start);
                }
            }
            r.append(&list[i]);
            i = i + 1;
        }
        assert(views.take(i as int) =~= views);
        r
    }

    /// Puts the fixed word `ctx` in front of every word of `s`.
    pub fn prefix(ctx: &[Sym], s: &Steps) -> (r: Steps)
        ensures
            r@.start == ctx@ + s@.start,
            r@.end == ctx@ + s@.end,
            r@.moves == prefixed(s@.moves, ctx@),
            s@.valid() ==> r@.valid(),
    {
        let mut steps: Vec<Step> = Vec::new();
        let mut j: usize = 0;
        while j < s.steps.len()
            invariant
                j <= s@.moves.len(),
                steps@.len() == j,
                forall|k: int| 0 <= k < j ==> (#[trigger] steps@[k])@ == s@.moves[k].with_prefix(ctx@),
            decreases s@.moves.len() - j,
        {
            let st = &s.steps[j];
            steps.push(
                Step {
                    left: chain(ctx, &st.left),
                    frag: copy_word(&st.frag),
                    right: copy_word(&st.right),
                    squaring: st.squaring,
                },
            );
            j = j + 1;
        }
        let r = Steps { start: chain(ctx, &s.start), end: chain(ctx, &s.end), steps };
        proof {
            assert(r@.moves =~= s@.moves.map_values(|m: StepView| m.with_prefix(ctx@)));
            if s@.valid() {
                assert forall|m: StepView| #[trigger] m.with_prefix(ctx@).before() == ctx@ + m.before() by {
                    assert(m.with_prefix(ctx@).before() =~= ctx@ + m.before());
                }
                assert forall|m: StepView| #[trigger] m.with_prefix(ctx@).after() == ctx@ + m.after() by {
                    assert(m.with_prefix(ctx@).after() =~= ctx@ + m.after());
                }
                let n = r@.moves.len();
                if n > 0 {
                    assert(r@.moves[0] == s@.moves[0].with_prefix(ctx@));
                    assert(r@.moves[n - 1] == s@.moves[n - 1].with_prefix(ctx@));
                }
                assert forall|i: int| 0 <= i < n - 1 implies #[trigger] r@.moves[i].after()
                    == r@.moves[i + 1].before() by {
                    assert(r@.moves[i] == s@.moves[i].with_prefix(ctx@));
                    assert(r@.moves[i + 1] == s@.moves[i + 1].with_prefix(ctx@));
                    assert(s@.moves[i].after() == s@.moves[i + 1].before());
                }
                assert forall|i: int| 0 <= i < n implies #[trigger] r@.moves[i].frag.len() > 0 by {
                    assert(r@.moves[i] == s@.moves[i].with_prefix(ctx@));
                }
            }
        }
        r
    }

    /// Puts the fixed word `ctx` after every word of `self`.
    pub fn suffix(&self, ctx: &[Sym]) -> (r: Steps)
        ensures
            r@.start == self@.start + ctx@,
            r@.end == self@.end + ctx@,
            r@.moves == suffixed(self@.moves, ctx@),
            self@.valid() ==> r@.valid(),
    {
        let mut steps: Vec<Step> = Vec::new();
        let mut j: usize = 0;
        while j < self.steps.len()
            invariant
                j <= self@.moves.len(),
                steps@.len() == j,
                forall|k: int| 0 <= k < j ==> (#[trigger] steps@[k])@ == self@.moves[k].with_suffix(ctx@),
            decreases self@.moves.len() - j,
        {
            let st = &self.steps[j];
            steps.push(
                Step {
                    left: copy_word(&st.left),
                    frag: copy_word(&st.frag),
                    right: chain(&st.right, ctx),
                    squaring: st.squaring,
                },
            );
            j = j + 1;
        }
        let r = Steps { start: chain(&self.start, ctx), end: chain(&self.end, ctx), steps };
        proof {
            assert(r@.moves =~= self@.moves.map_values(|m: StepView| m.with_suffix(ctx@)));
            if self@.valid() {
                assert forall|m: StepView| #[trigger] m.with_suffix(ctx@).before() == m.before() + ctx@ by {
                    assert(m.with_suffix(ctx@).before() =~= m.before() + ctx@);
                }
                assert forall|m: StepView| #[trigger] m.with_suffix(ctx@).after() == m.after() + ctx@ by {
                    assert(m.with_suffix(ctx@).after() =~= m.after() + ctx@);
                }
                let n = r@.moves.len();
                if n > 0 {
                    assert(r@.moves[0] == self@.moves[0].with_suffix(ctx@));
                    assert(r@.moves[n - 1] == self@.moves[n - 1].with_suffix(ctx@));
                }
                assert forall|i: int| 0 <= i < n - 1 implies #[trigger] r@.moves[i].after()
                    == r@.moves[i + 1].before() by {
                    assert(r@.moves[i] == self@.moves[i].with_suffix(ctx@));
                    assert(r@.moves[i + 1] == self@.moves[i + 1].with_suffix(ctx@));
                    assert(self@.moves[i].after() == self@.moves[i + 1].before());
                }
                assert forall|i: int| 0 <= i < n implies #[trigger] r@.moves[i].frag.len() > 0 by {
                    assert(r@.moves[i] == self@.moves[i].with_suffix(ctx@));
                }
            }
        }
        r
    }

    /// The same derivation run backwards: from `end` to `start`, the
    /// rewrites in reverse order, each one undone.
    pub fn time_rev(&self) -> (r: Steps)
        ensures
            r@.start == self@.end,
            r@.end == self@.start,
            r@.moves == undone(self@.moves),
            self@.valid() ==> r@.valid(),
    {
        let n = self.steps.len();
        let mut steps: Vec<Step> = Vec::new();
        let mut j: usize = 0;
        while j < n
            invariant
                n == self@.moves.len(),
                j <= n,
                steps@.len() == j,
                forall|k: int| 0 <= k < j ==> (#[trigger] steps@[k])@ == self@.moves[n - 1 - k].flipped(),
            decreases n - j,
        {
            let st = &self.steps[n - 1 - j];
            steps.push(
                Step {
                    left: copy_word(&st.left),
                    frag: copy_word(&st.frag),
                    right: copy_word(&st.right),
                    squaring: !st.squaring,
                },
            );
            j = j + 1;
        }
        let r = Steps { start: copy_word(&self.end), end: copy_word(&self.start), steps };
        proof {
            assert(r@.moves =~= Seq::new(
                self@.moves.len(),
                |i: int| self@.moves[self@.moves.len() - 1 - i].flipped(),
            ));
            if self@.valid() {
                if n > 0 {
                    assert(r@.moves[0] == self@.moves[n - 1].flipped());
                    assert(r@.moves[n - 1] == self@.moves[0].flipped());
                }
                assert forall|i: int| 0 <= i < n - 1 implies #[trigger] r@.moves[i].after()
                    == r@.moves[i + 1].before() by {
                    assert(r@.moves[i] == self@.moves[n - 1 - i].flipped());
                    assert(r@.moves[i + 1] == self@.moves[n - 2 - i].flipped());
                    assert(self@.moves[n - 2 - i].after() == self@.moves[n - 2 - i + 1].before());
                }
                assert forall|i: int| 0 <= i < n implies #[trigger] r@.moves[i].frag.len() > 0 by {
                    assert(r@.moves[i] == self@.moves[n - 1 - i].flipped());
                }
            }
        }
        r
    }

    /// The same derivation on mirrored words: every word written backwards.
    pub fn word_rev(&self) -> (r: Steps)
        ensures
            r@.start == rev(self@.start),
            r@.end == rev(self@.end),
            r@.moves == self@.moves.map_values(|m: StepView| m.mirrored()),
            self@.valid() ==> r@.valid(),
    {
        let mut steps: Vec<Step> = Vec::new();
        let mut j: usize = 0;
        while j < self.steps.len()
            invariant
                j <= self@.moves.len(),
                steps@.len() == j,
                forall|k: int| 0 <= k < j ==> (#[trigger] steps@[k])@ == self@.moves[k].mirrored(),
            decreases self@.moves.len() - j,
        {
            let st = &self.steps[j];
            steps.push(
                Step {
                    left: reversed(&st.right),
                    frag: reversed(&st.frag),
                    right: reversed(&st.left),
                    squaring: st.squaring,
                },
            );
            j = j + 1;
        }
        let r = Steps { start: reversed(&self.start), end: reversed(&self.end), steps };
        proof {
            assert(r@.moves =~= self@.moves.map_values(|m: StepView| m.mirrored()));
            if self@.valid() {
                let n = r@.moves.len();
                if n > 0 {
                    assert(r@.moves[0] == self@.moves[0].mirrored());
                    lemma_mirrored(self@.moves[0]);
                    assert(r@.moves[n - 1] == self@.moves[n - 1].mirrored());
                    lemma_mirrored(self@.moves[n - 1]);
                }
                assert forall|i: int| 0 <= i < n - 1 implies #[trigger] r@.moves[i].after()
                    == r@.moves[i + 1].before() by {
                    assert(r@.moves[i] == self@.moves[i].mirrored());
                    assert(r@.moves[i + 1] == self@.moves[i + 1].mirrored());
                    lemma_mirrored(self@.moves[i]);
                    lemma_mirrored(self@.moves[i + 1]);
                    assert(self@.moves[i].after() == self@.moves[i + 1].before());
                }
                assert forall|i: int| 0 <= i < n implies #[trigger] r@.moves[i].frag.len() > 0 by {
                    assert(r@.moves[i] == self@.moves[i].mirrored());
                }
            }
        }
        r
    }
}

} // verus!
