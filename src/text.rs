use vstd::prelude::*;

use crate::steps::{Step, StepView, Steps, lemma_valid_moves_covered};
use crate::word::{Sym, Word, letters_below};

verus! {

/// The character that writes letter `i`: `a` for 0, `b` for 1, and so on.
pub open spec fn letter_char(i: Sym) -> char {
    (97 + i) as char
}

/// `c` is one of `a` to `z`.
pub open spec fn is_letter_char(c: char) -> bool {
    'a' <= c <= 'z'
}

/// The letter that `c` writes.
pub open spec fn char_letter(c: char) -> Sym {
    (c as u32 - 97) as Sym
}

/// The written form of a word.
pub open spec fn word_text(w: Seq<Sym>) -> Seq<char> {
    w.map_values(|c: Sym| letter_char(c))
}

/// `l(f)r`: a word with one factor in brackets.
pub open spec fn bracketed(l: Seq<Sym>, f: Seq<Sym>, r: Seq<Sym>) -> Seq<char> {
    word_text(l) + seq!['('] + word_text(f) + seq![')'] + word_text(r)
}

/// The written form of a rewrite: the word before and the word after,
/// each with the rewritten factor in brackets, joined by ` -> `.
pub open spec fn move_text(m: StepView) -> Seq<char> {
    let once = m.frag;
    let twice = m.frag + m.frag;
    let (from, to) = if m.squaring {
        (once, twice)
    } else {
        (twice, once)
    };
    bracketed(m.left, from, m.right) + seq![' ', '-', '>', ' '] + bracketed(m.left, to, m.right)
}

/// The parts of a rewrite are all written with `a` to `z`.
pub open spec fn move_writable(m: StepView) -> bool {
    &&& letters_below(m.left, 26)
    &&& letters_below(m.frag, 26)
    &&& letters_below(m.right, 26)
}

/// Relies on `String::push`: appends one character to the string.
#[verifier::external_body]
fn push_char(s: &mut String, c: char)
    ensures
        final(s)@ == old(s)@.push(c),
{
    s.push(c)
}

/// The character that writes letter `i`.
pub fn sym_to_c(i: Sym) -> (c: char)
    requires
        i < 26,
    ensures
        c == letter_char(i),
        is_letter_char(c),
        char_letter(c) == i,
{
    (97u8 + i) as char
}

/// The letter that `c` writes, if `c` is one of `a` to `z`.
pub fn c_to_sym(c: char) -> (r: Option<Sym>)
    ensures
        r is Some <==> is_letter_char(c),
        r is Some ==> r->0 == char_letter(c) && r->0 < 26 && letter_char(r->0) == c,
{
    if 'a' <= c && c <= 'z' {
        Some((c as u32 - 97) as Sym)
    } else {
        None
    }
}

/// Appends the written form of `w` to `s`.
fn push_word(s: &mut String, w: &[Sym])
    requires
        letters_below(w@, 26),
    ensures
        final(s)@ == old(s)@ + word_text(w@),
{
    let ghost start = s@;
    let mut i: usize = 0;
    while i < w.len()
        invariant
            i <= w@.len(),
            letters_below(w@, 26),
            s@ == start + word_text(w@.take(i as int)),
        decreases w@.len() - i,
    {
        push_char(s, sym_to_c(w[i]));
        i = i + 1;
        assert(s@ =~= start + word_text(w@.take(i as int)));
    }
    assert(w@.take(i as int) =~= w@);
}

/// The written form of a word.
pub fn word_to_str(v: &[Sym]) -> (r: String)
    requires
        letters_below(v@, 26),
    ensures
        r@ == word_text(v@),
{
    let mut s = String::new();
    push_word(&mut s, v);
    assert(s@ =~= word_text(v@));
    s
}

/// A character of a written word that is not one of `a` to `z`.
pub struct BadLetter {
    /// Its position among the characters of the text.
    pub position: usize,
    /// The character itself.
    pub found: char,
}

/// Reads a word written with `a` to `z`; the first character that is not
/// one of them is reported.
pub fn str_to_word(s: &str) -> (r: Result<Word, BadLetter>)
    ensures
        r is Ok <==> forall|i: int| 0 <= i < s@.len() ==> is_letter_char(#[trigger] s@[i]),
        r is Ok ==> r->Ok_0@ == s@.map_values(|c: char| char_letter(c)),
        r is Ok ==> letters_below(r->Ok_0@, 26) && word_text(r->Ok_0@) == s@,
        r is Err ==> {
            let e = r->Err_0;
            &&& e.position < s@.len()
            &&& e.found == s@[e.position as int]
            &&& !is_letter_char(e.found)
            &&& forall|j: int| 0 <= j < e.position ==> is_letter_char(#[trigger] s@[j])
        },
{
    let n = s.unicode_len();
    let mut w: Word = Vec::new();
    let mut i: usize = 0;
    while i < n
        invariant
            n == s@.len(),
            i <= n,
            forall|j: int| 0 <= j < i ==> is_letter_char(#[trigger] s@[j]),
            w@ == s@.take(i as int).map_values(|c: char| char_letter(c)),
            letters_below(w@, 26),
            word_text(w@) == s@.take(i as int),
        decreases n - i,
    {
        let c = s.get_char(i);
        match c_to_sym(c) {
            Some(x) => {
                w.push(x);
                i = i + 1;
                assert(w@ =~= s@.take(i as int).map_values(|c: char| char_letter(c)));
                assert(word_text(w@) =~= s@.take(i as int));
            },
            None => {
                return Err(BadLetter { position: i, found: c });
            },
        }
    }
    assert(s@.take(i as int) =~= s@);
    Ok(w)
}

/// Appends `l(f)r`, written out, to `s`.
fn push_bracketed(s: &mut String, l: &[Sym], f: &[Sym], r: &[Sym])
    requires
        letters_below(l@, 26),
        letters_below(f@, 26),
        letters_below(r@, 26),
    ensures
        final(s)@ == old(s)@ + bracketed(l@, f@, r@),
{
    push_word(s, l);
    push_char(s, '(');
    push_word(s, f);
    push_char(s, ')');
    push_word(s, r);
    assert(s@ =~= old(s)@ + bracketed(l@, f@, r@));
}

impl Step {
    /// The written form of the rewrite, such as `ab(c)d -> ab(cc)d`.
    pub fn text(&self) -> (r: String)
        requires
            move_writable(self@),
        ensures
            r@ == move_text(self@),
    {
        let twice = crate::word::chain(&self.frag, &self.frag);
        let mut s = String::new();
        if self.squaring {
            push_bracketed(&mut s, &self.left, &self.frag, &self.right);
        } else {
            push_bracketed(&mut s, &self.left, &twice, &self.right);
        }
        push_char(&mut s, ' ');
        push_char(&mut s, '-');
        push_char(&mut s, '>');
        push_char(&mut s, ' ');
        if self.squaring {
            push_bracketed(&mut s, &self.left, &twice, &self.right);
        } else {
            push_bracketed(&mut s, &self.left, &self.frag, &self.right);
        }
        assert(s@ =~= move_text(self@));
        s
    }
}

impl Steps {
    /// The written form of each rewrite, in order.
    pub fn lines(&self) -> (r: Vec<String>)
        requires
            self@.valid(),
            letters_below(self@.start, 26),
        ensures
            r@.len() == self@.moves.len(),
            forall|k: int| 0 <= k < r@.len() ==> (#[trigger] r@[k])@ == move_text(self@.moves[k]),
    {
        let mut out: Vec<String> = Vec::new();
        let mut k: usize = 0;
        while k < self.steps.len()
            invariant
                k <= self@.moves.len(),
                self@.valid(),
                letters_below(self@.start, 26),
                out@.len() == k,
                forall|j: int| 0 <= j < k ==> (#[trigger] out@[j])@ == move_text(self@.moves[j]),
            decreases self@.moves.len() - k,
        {
            proof {
                lemma_valid_moves_covered(self@, k as int);
                let m = self@.moves[k as int];
                assert(letters_below(m.left, 26)) by {
                    assert forall|j: int| 0 <= j < m.left.len() implies m.left[j] < 26 by {
                        assert(m.left.contains(m.left[j]));
                    }
                }
                assert(letters_below(m.frag, 26)) by {
                    assert forall|j: int| 0 <= j < m.frag.len() implies m.frag[j] < 26 by {
                        assert(m.frag.contains(m.frag[j]));
                    }
                }
                assert(letters_below(m.right, 26)) by {
                    assert forall|j: int| 0 <= j < m.right.len() implies m.right[j] < 26 by {
                        assert(m.right.contains(m.right[j]));
                    }
                }
            }
            let line = self.steps[k].text();
            out.push(line);
            k = k + 1;
        }
        out
    }
}

} // verus!
