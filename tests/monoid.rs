use idem_monoid::{
    chain, count_letters, find_left_subword, find_right_subword, find_u, find_v,
    generate_exact_monoid, generate_monoid, merge, reduce, reduce_middle, remove_middle,
    str_to_word, sym_to_c, variants_on, word_to_str, Steps, Word,
};

fn w(s: &str) -> Word {
    str_to_word(s).ok().unwrap()
}

fn text(v: &[u8]) -> String {
    word_to_str(v)
}

fn normal(s: &str) -> String {
    text(&reduce(&w(s)).end)
}

/// The word each rewrite of `d` passes through, in order.
fn before_after(d: &Steps) -> Vec<(Word, Word)> {
    d.steps
        .iter()
        .map(|s| {
            let once = chain(&s.left, &s.frag);
            let twice = chain(&chain(&s.left, &s.frag), &s.frag);
            let (b, a) = if s.squaring { (once, twice) } else { (twice, once) };
            (chain(&b, &s.right), chain(&a, &s.right))
        })
        .collect()
}

/// The derivation starts at `start`, ends at `end`, and each rewrite
/// starts where the one before it ended.
fn assert_chain(d: &Steps, start: &[u8], end: &[u8]) {
    assert_eq!(d.start, start.to_vec());
    assert_eq!(d.end, end.to_vec());
    let pairs = before_after(d);
    let mut cur = start.to_vec();
    for (b, a) in pairs {
        assert_eq!(b, cur);
        cur = a;
    }
    assert_eq!(cur, end.to_vec());
    for s in d.steps.iter() {
        assert!(!s.frag.is_empty());
    }
}

fn all_words(n: u8, max_len: usize) -> Vec<Word> {
    let mut out: Vec<Word> = vec![vec![]];
    let mut layer: Vec<Word> = vec![vec![]];
    for _ in 0..max_len {
        let mut next = Vec::new();
        for x in layer.iter() {
            for c in 0..n {
                let mut y = x.clone();
                y.push(c);
                next.push(y);
            }
        }
        out.extend(next.iter().cloned());
        layer = next;
    }
    out
}

fn has_square(v: &[u8]) -> bool {
    for i in 0..v.len() {
        for len in 1..=(v.len() - i) / 2 {
            if v[i..i + len] == v[i + len..i + 2 * len] {
                return true;
            }
        }
    }
    false
}

#[test]
fn letters_round_trip() {
    assert_eq!(sym_to_c(0), 'a');
    assert_eq!(sym_to_c(25), 'z');
    assert_eq!(w("abz"), vec![0, 1, 25]);
    assert_eq!(text(&[2, 0, 1]), "cab");
    assert_eq!(text(&[]), "");
}

#[test]
fn parse_rejects_other_characters() {
    let e = str_to_word("abC").err().unwrap();
    assert_eq!(e.position, 2);
    assert_eq!(e.found, 'C');
    let e = str_to_word("a1b").err().unwrap();
    assert_eq!(e.position, 1);
    assert_eq!(e.found, '1');
    assert_eq!(str_to_word("").ok().unwrap(), Vec::<u8>::new());
}

#[test]
fn merge_boundary_cases() {
    for s in ["", "a", "ab", "abcacb", "aaa"] {
        assert_eq!(merge(&w(s), &[]), w(s));
        assert_eq!(merge(&w(s), &w(s)), w(s));
    }
}

#[test]
fn merge_takes_longest_overlap() {
    assert_eq!(text(&merge(&w("abc"), &w("bcd"))), "abcd");
    assert_eq!(text(&merge(&w("aba"), &w("ab"))), "abab");
    assert_eq!(text(&merge(&w("aba"), &w("aba"))), "aba");
    assert_eq!(text(&merge(&w("ab"), &w("cd"))), "abcd");
    assert_eq!(text(&merge(&w("b"), &w("abc"))), "babc");
    assert_eq!(text(&merge(&w(""), &w("abc"))), "abc");
}

#[test]
fn subword_scans() {
    assert_eq!(count_letters(&w("abcacb")), 3);
    assert_eq!(count_letters(&w("")), 0);
    // longest prefix with two letters is "ab"
    assert_eq!(find_left_subword(&w("abcacb"), 2), 2);
    assert_eq!(find_left_subword(&w("aabab"), 1), 2);
    // longest suffix with two letters is "cb", starting at 4
    assert_eq!(find_right_subword(&w("abcacb"), 2), 4);
    assert_eq!(find_right_subword(&w("abb"), 1), 1);
}

#[test]
fn chain_concatenates() {
    assert_eq!(text(&chain(&w("ab"), &w("ca"))), "abca");
    assert_eq!(text(&chain(&w(""), &w("b"))), "b");
}

#[test]
fn steps_operations() {
    let e = Steps::empty(&w("ab"));
    assert_eq!(e.start, w("ab"));
    assert_eq!(e.end, w("ab"));
    assert!(e.steps.is_empty());

    let s = Steps::square(&w("c"));
    assert_eq!(s.end, w("cc"));
    let p = Steps::prefix(&w("ab"), &s).suffix(&w("d"));
    assert_eq!(p.start, w("abcd"));
    assert_eq!(p.end, w("abccd"));
    assert_eq!(p.lines(), vec!["ab(c)d -> ab(cc)d".to_string()]);

    let back = p.time_rev();
    assert_eq!(back.start, w("abccd"));
    assert_eq!(back.end, w("abcd"));
    assert_eq!(back.lines(), vec!["ab(cc)d -> ab(c)d".to_string()]);

    let mirror = p.word_rev();
    assert_eq!(mirror.start, w("dcba"));
    assert_eq!(mirror.end, w("dccba"));
    assert_eq!(mirror.lines(), vec!["d(c)ba -> d(cc)ba".to_string()]);

    let j = Steps::join(vec![p, back]);
    assert_eq!(j.start, w("abcd"));
    assert_eq!(j.end, w("abcd"));
    assert_eq!(j.steps.len(), 2);
    assert_chain(&j, &w("abcd"), &w("abcd"));
}

#[test]
fn find_u_and_find_v_witnesses() {
    let (d, u) = find_u(&w("abc"), &w("ba"));
    let mut xyu = w("abcba");
    xyu.extend(u.iter());
    assert_chain(&d, &w("abc"), &xyu);
    assert_eq!(text(&u), "bcbc");

    let (d, v) = find_v(&w("abc"), &w("ba"));
    let mut vyx = v.clone();
    vyx.extend(w("baabc"));
    assert_chain(&d, &w("abc"), &vyx);
}

#[test]
fn remove_middle_drops_the_middle() {
    let d = remove_middle(&w("abc"), &w("ca"), &w("cba"));
    assert_chain(&d, &w("abccacba"), &w("abccba"));
    assert_eq!(d.steps.len() > 0, true);
}

#[test]
fn reduce_middle_collapses_overlap() {
    let d = reduce_middle(&w("abc"), &w("bca"));
    assert_chain(&d, &w("abcbca"), &w("abca"));
    assert_eq!(d.lines(), vec!["a(bcbc)a -> a(bc)a".to_string()]);
    let d = reduce_middle(&w("ab"), &w("cd"));
    assert_chain(&d, &w("abcd"), &w("abcd"));
    assert!(d.steps.is_empty());
}

#[test]
fn reduce_examples() {
    assert_eq!(normal(""), "");
    assert_eq!(normal("a"), "a");
    assert_eq!(normal("aaaa"), "a");
    assert_eq!(normal("aab"), "ab");
    assert_eq!(normal("abab"), "ab");
    assert_eq!(normal("abcbca"), "abca");
    assert_eq!(normal("abcabc"), "abc");
    assert_eq!(normal("bacbcab"), "bacab");
    assert_eq!(normal("abacaba"), "abacaba");
}

#[test]
fn reduce_abcacb_is_a_fixpoint() {
    let d = reduce(&w("abcacb"));
    assert_eq!(text(&d.end), "abcacb");
    let again = reduce(&d.end);
    assert_eq!(again.end, d.end);
}

#[test]
fn reduce_derivations_are_chains() {
    for word in all_words(3, 6) {
        let d = reduce(&word);
        let end = d.end.clone();
        assert_chain(&d, &word, &end);
        assert_eq!(d.lines().len(), d.steps.len());
    }
}

#[test]
fn reduce_is_idempotent() {
    for word in all_words(4, 6) {
        let r = reduce(&word).end;
        assert_eq!(reduce(&r).end, r);
    }
}

#[test]
fn reduce_ignores_squares() {
    let sides = all_words(3, 2);
    let middles = all_words(3, 3);
    for l in sides.iter() {
        for m in middles.iter().filter(|m| !m.is_empty()) {
            for r in sides.iter() {
                let lmr = chain(&chain(l, m), r);
                let lmmr = chain(&chain(&chain(l, m), m), r);
                assert_eq!(reduce(&lmmr).end, reduce(&lmr).end);
            }
        }
    }
}

#[test]
fn generate_two_letters() {
    let words: Vec<String> = generate_monoid(2).iter().map(|v| text(v)).collect();
    assert_eq!(words, vec!["", "a", "b", "bab", "ba", "ab", "aba"]);
    let mut sorted = words.clone();
    sorted.sort();
    sorted.dedup();
    assert_eq!(sorted.len(), 7);
    for v in generate_monoid(2) {
        assert!(!has_square(&v));
    }
}

#[test]
fn generate_counts() {
    assert_eq!(generate_monoid(0), vec![Vec::<u8>::new()]);
    assert_eq!(generate_monoid(1).len(), 2);
    let three = generate_monoid(3);
    assert_eq!(three.len(), 160);
    let mut sorted = three.clone();
    sorted.sort();
    sorted.dedup();
    assert_eq!(sorted.len(), 160);
    assert_eq!(generate_exact_monoid(0), vec![Vec::<u8>::new()]);
    assert_eq!(generate_exact_monoid(1), vec![vec![0u8]]);
    assert_eq!(generate_exact_monoid(2).len(), 4);
}

#[test]
fn generate_selects_letters_in_order() {
    // the one-letter words over three letters come in letter order
    let three = generate_monoid(3);
    assert_eq!(three[1], vec![0u8]);
    assert_eq!(three[2], vec![1u8]);
    assert_eq!(three[3], vec![2u8]);
    // then the two-letter words over {a, b}, {a, c}, {b, c}
    assert_eq!(text(&three[4]), "bab");
    assert_eq!(text(&three[8]), "cac");
    assert_eq!(text(&three[12]), "cbc");
}

#[test]
fn variants_shift_letters() {
    let v = variants_on(&vec![vec![0u8, 1]], 3);
    assert_eq!(v, vec![(vec![1u8, 2], 0u8), (vec![0u8, 2], 1u8), (vec![0u8, 1], 2u8)]);
}

#[test]
fn reduce_lands_in_generated_list() {
    for n in 1..=3u8 {
        let all = generate_monoid(n as usize);
        for word in all_words(n, 6) {
            let r = reduce(&word).end;
            assert!(all.contains(&r), "{:?} reduces to {:?}", word, r);
        }
    }
}

#[test]
fn generated_words_are_fixpoints() {
    for v in generate_monoid(3) {
        assert_eq!(reduce(&v).end, v);
        assert!(!has_square(&v));
    }
}

#[test]
fn find_u_one_squaring_per_letter() {
    let (d, u) = find_u(&w("ab"), &w("a"));
    assert_eq!(u, vec![1u8]);
    assert_eq!(d.start, w("ab"));
    assert_eq!(d.end, w("abab"));
    assert_eq!(d.lines(), vec!["(ab) -> (abab)".to_string()]);
    let (d, _) = find_u(&w("abc"), &w("bac"));
    assert_eq!(d.steps.len(), 3);
    assert!(d.steps.iter().all(|s| s.squaring));
    let (d, u) = find_u(&w("ab"), &w(""));
    assert!(d.steps.is_empty() && u.is_empty());
}

#[test]
fn find_v_mirrors_find_u() {
    let (d, v) = find_v(&w("ba"), &w("a"));
    assert_eq!(v, vec![1u8]);
    assert_eq!(d.end, w("baba"));
    let (du, _) = find_u(&w("ab"), &w("a"));
    let mirrored = du.word_rev();
    assert_eq!(d.lines(), mirrored.lines());
}

#[test]
fn reduce_middle_names_the_unsquaring() {
    let d = reduce_middle(&w("aba"), &w("ba"));
    assert_eq!(d.lines(), vec!["a(baba) -> a(ba)".to_string()]);
    assert_eq!(d.end, w("aba"));
}

#[test]
fn remove_middle_has_six_parts() {
    // |l| rewrites twice, |m| + |r| rewrites twice, and two more
    let d = remove_middle(&w("abc"), &w("ca"), &w("cba"));
    assert_eq!(d.steps.len(), 3 + 1 + 3 + 5 + 1 + 5);
    assert_eq!(d.steps.iter().filter(|s| !s.squaring).count(), 3 + 1 + 5);
}

#[test]
fn variants_accept_any_small_letter() {
    let v = variants_on(&vec![vec![5u8]], 2);
    assert_eq!(v, vec![(vec![6u8], 0u8), (vec![6u8], 1u8)]);
}
