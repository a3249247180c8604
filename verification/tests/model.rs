use markov_chain::chain::Markov;

fn keys_of(m: &Markov) -> Vec<String> {
    let mut out: Vec<String> = Vec::new();
    let n = m.num_keys();
    let mut i = 0;
    while i < n {
        out.push(m.key_at(i).clone());
        i += 1;
    }
    out
}

#[test]
fn training_empty_string_is_noop() {
    let mut m = Markov::new();
    m.add_string("");
    assert_eq!(m.num_keys(), 0);
    assert_eq!(m.total_observed().unwrap(), 0);

    m.add_string("a b");
    let keys_before = keys_of(&m);
    let succ_before = m.successors_of(&"a".to_string()).unwrap().clone();
    m.add_string("");
    m.add_string("   \t\n ");
    assert_eq!(keys_of(&m), keys_before);
    assert_eq!(m.successors_of(&"a".to_string()).unwrap(), &succ_before);
    assert_eq!(m.total_observed().unwrap(), 1);
}

#[test]
fn training_single_token_is_noop() {
    let mut m = Markov::new();
    m.add_string("hello");
    assert_eq!(m.num_keys(), 0);
    assert_eq!(m.total_observed().unwrap(), 0);
    m.add_string("  solitary  ");
    assert_eq!(m.num_keys(), 0);
    assert_eq!(m.total_observed().unwrap(), 0);
}

#[test]
fn training_counts_pairs() {
    let mut m = Markov::new();
    m.add_string("a b a c");
    assert_eq!(m.total_observed().unwrap(), 3);
    m.add_string("x y z");
    assert_eq!(m.total_observed().unwrap(), 5);
    m.add_string("a b a c a b a c");
    assert_eq!(m.total_observed().unwrap(), 12);
}

#[test]
fn generate_zero_or_negative_is_empty() {
    let mut m = Markov::new();
    m.add_string("a b a c");
    assert_eq!(m.generate(0), "");
    assert_eq!(m.generate(-1), "");
    assert_eq!(m.generate(-32768), "");
}

#[test]
fn generate_on_empty_model_is_empty() {
    let m = Markov::new();
    assert_eq!(m.generate(1), "");
    assert_eq!(m.generate(10), "");
    assert_eq!(m.generate(32767), "");
}

#[test]
fn generate_bounded_by_count() {
    let mut m = Markov::new();
    // a <-> b cycles forever, so every walk can use its full budget.
    m.add_string("a b a");
    for k in 1..8i16 {
        for _ in 0..20 {
            let out = m.generate(k);
            assert_eq!(out.split_whitespace().count(), k as usize);
        }
    }
    let mut loose = Markov::new();
    loose.add_string("a b a c");
    for _ in 0..50 {
        let out = loose.generate(10);
        assert!(out.split_whitespace().count() <= 10);
    }
}

#[test]
fn end_to_end_example() {
    let mut m = Markov::new();
    m.add_string("a b a c");
    assert_eq!(m.num_keys(), 2);
    assert_eq!(keys_of(&m), vec!["a".to_string(), "b".to_string()]);
    assert_eq!(
        m.successors_of(&"a".to_string()).unwrap(),
        &vec!["b".to_string(), "c".to_string()]
    );
    assert_eq!(m.successors_of(&"b".to_string()).unwrap(), &vec!["a".to_string()]);
    assert!(m.successors_of(&"c".to_string()).is_none());

    for _ in 0..30 {
        let one = m.generate(1);
        assert!(one == "a " || one == "b ");
    }
    for _ in 0..30 {
        let out = m.generate(10);
        let toks: Vec<&str> = out.split_whitespace().collect();
        assert!(!toks.is_empty());
        assert!(toks[0] == "a" || toks[0] == "b");
        for t in &toks {
            assert!(*t == "a" || *t == "b" || *t == "c");
        }
        // "c" was never seen as a predecessor, so a walk stops there.
        for (i, t) in toks.iter().enumerate() {
            if *t == "c" {
                assert_eq!(i, toks.len() - 1);
            }
        }
    }
}

#[test]
fn trains_accumulate() {
    let mut split = Markov::new();
    split.add_string("a b");
    split.add_string("c d");
    assert_eq!(keys_of(&split), vec!["a".to_string(), "c".to_string()]);
    assert_eq!(split.total_observed().unwrap(), 2);
    // No pair forms across the boundary between the two calls.
    assert!(split.successors_of(&"b".to_string()).is_none());

    let mut joined = Markov::new();
    joined.add_string("a b c d");
    assert_eq!(joined.total_observed().unwrap(), 3);
    assert_eq!(
        joined.successors_of(&"b".to_string()).unwrap(),
        &vec!["c".to_string()]
    );
}

#[test]
fn repeated_training_is_deterministic() {
    let corpus = ["the cat sat", "the dog sat", "a cat ran off", "", "the end"];
    let mut m1 = Markov::new();
    let mut m2 = Markov::new();
    for s in &corpus {
        m1.add_string(s);
        m2.add_string(s);
    }
    assert_eq!(keys_of(&m1), keys_of(&m2));
    for k in keys_of(&m1) {
        assert_eq!(m1.successors_of(&k).unwrap(), m2.successors_of(&k).unwrap());
    }
    assert_eq!(m1.total_observed().unwrap(), m2.total_observed().unwrap());
}

#[test]
fn whitespace_runs_and_edges() {
    let mut m = Markov::new();
    m.add_string("  a \t\r\n  b  ");
    assert_eq!(keys_of(&m), vec!["a".to_string()]);
    assert_eq!(m.successors_of(&"a".to_string()).unwrap(), &vec!["b".to_string()]);
    assert_eq!(m.total_observed().unwrap(), 1);
}

#[test]
fn dead_end_walk_is_deterministic() {
    let mut m = Markov::new();
    // The only key is "a"; "b" is a dead end, so the walk is forced.
    m.add_string("a b");
    for _ in 0..10 {
        assert_eq!(m.generate(5), "a b ");
    }
}

#[test]
fn self_loop_walk() {
    let mut m = Markov::new();
    m.add_string("a a a");
    assert_eq!(m.generate(3), "a a a ");
    assert_eq!(m.generate(1), "a ");
}

#[test]
fn successor_frequency_converges() {
    let mut m = Markov::new();
    m.add_string("x y");
    m.add_string("x z");
    m.add_string("x y");
    assert_eq!(
        m.successors_of(&"x".to_string()).unwrap(),
        &vec!["y".to_string(), "z".to_string(), "y".to_string()]
    );
    // "y" holds 2 of the 3 successor slots of the only key, so about 2/3 of
    // all two-token walks should end in "y"; allow a wide tolerance band.
    let trials = 3000;
    let mut y_count = 0;
    for _ in 0..trials {
        let out = m.generate(2);
        if out == "x y " {
            y_count += 1;
        } else {
            assert_eq!(out, "x z ");
        }
    }
    let freq = y_count as f64 / trials as f64;
    assert!(freq > 0.55 && freq < 0.78, "frequency of y was {}", freq);
}

#[test]
fn case_and_punctuation_are_significant() {
    let mut m = Markov::new();
    m.add_string("Word word word. word");
    assert_eq!(
        m.successors_of(&"Word".to_string()).unwrap(),
        &vec!["word".to_string()]
    );
    assert_eq!(
        m.successors_of(&"word".to_string()).unwrap(),
        &vec!["word.".to_string()]
    );
    assert_eq!(
        m.successors_of(&"word.".to_string()).unwrap(),
        &vec!["word".to_string()]
    );
}

#[test]
fn pair_iteration_matches_tokens() {
    let ps = markov_chain::tokenizer::pairs("a b a c");
    assert_eq!(
        ps,
        vec![
            ("a".to_string(), "b".to_string()),
            ("b".to_string(), "a".to_string()),
            ("a".to_string(), "c".to_string()),
        ]
    );
    assert!(markov_chain::tokenizer::pairs("").is_empty());
    assert!(markov_chain::tokenizer::pairs("  one  ").is_empty());

    let toks = markov_chain::tokenizer::tokenize("  a \t b\nc ");
    assert_eq!(toks, vec!["a".to_string(), "b".to_string(), "c".to_string()]);
    // Non-ASCII whitespace separates tokens too.
    let wide = markov_chain::tokenizer::tokenize("a\u{00a0}b\u{2003}c");
    assert_eq!(wide, vec!["a".to_string(), "b".to_string(), "c".to_string()]);
}
