use mx_engine::decode::{prompt_lookup, score_windows, DraftStrategy, Generation, SpecAction, Speculation};

/// A model whose next token depends on everything before it.
fn oracle(history: &[u32]) -> u32 {
    let n = history.len();
    if n % 7 == 0 {
        history.iter().sum::<u32>() % 5
    } else {
        history[n - 3.min(n)]
    }
}

fn greedy(prompt: &[u32], n_new: usize) -> Vec<u32> {
    let mut h = prompt.to_vec();
    for _ in 0..n_new {
        h.push(oracle(&h));
    }
    h[prompt.len()..].to_vec()
}

#[test]
fn drafts_continue_the_longest_recurrence() {
    // the last two tokens occurred at the front, followed by 3 4
    assert_eq!(prompt_lookup(&[1, 2, 3, 4, 9, 1, 2], 2), vec![3, 4]);
    assert_eq!(prompt_lookup(&[1, 2, 3, 4, 9, 1, 2], 1), vec![3]);
    // a draft runs into the tail of the history where that is all there is
    assert_eq!(prompt_lookup(&[5, 5, 5, 5], 8), prompt_lookup(&[5, 5, 5, 5], 4));
    assert_eq!(prompt_lookup(&[1, 2, 3], 4), Vec::<u32>::new());
    assert_eq!(prompt_lookup(&[1, 1], 4), Vec::<u32>::new());
    assert_eq!(prompt_lookup(&[1, 2, 1, 2], 0), Vec::<u32>::new());
}

#[test]
fn later_recurrences_win() {
    // 7 8 occurs twice before: the later one decides
    assert_eq!(prompt_lookup(&[7, 8, 1, 7, 8, 2, 7, 8], 1), vec![2]);
}

#[test]
fn speculation_is_lossless() {
    let prompts: [&[u32]; 3] = [&[1, 2, 3, 1, 2, 3, 1, 2], &[4], &[0, 1, 0, 1, 0, 1, 0, 1, 0]];
    for prompt in prompts {
        for spec_k in [1usize, 2, 8] {
            let n_new = 40;
            let want = greedy(prompt, n_new);
            let mut s = Speculation::start(prompt, oracle(prompt), n_new, spec_k);
            let mut cache = prompt.to_vec();
            loop {
                match s.next() {
                    SpecAction::Done => break,
                    SpecAction::Forward { tok, pos } => {
                        cache.truncate(pos);
                        cache.push(tok);
                        let g = oracle(&cache);
                        s.forwarded(g);
                    }
                    SpecAction::Verify { draft, pos } => {
                        assert!(draft.len() <= spec_k);
                        cache.truncate(pos);
                        let mut rows = Vec::new();
                        for &t in &draft {
                            cache.push(t);
                            rows.push(oracle(&cache));
                        }
                        s.verified(&draft, &rows);
                    }
                }
            }
            assert_eq!(s.output(), want, "k={spec_k}");
        }
    }
}

#[test]
fn acceptance_stops_at_the_first_difference() {
    let mut s = Speculation::start(&[1, 2, 3, 1, 2], 3, 10, 4);
    let draft = match s.next() {
        SpecAction::Verify { draft, pos } => {
            assert_eq!(pos, 5);
            draft
        }
        _ => panic!("a draft was there"),
    };
    assert_eq!(draft, vec![3, 1, 2]);
    // the model wants 1 after 3, then 9 instead of 2
    assert_eq!(s.verified(&draft, &[1, 9, 0]), 2);
    assert_eq!(s.output(), vec![3, 1]);
    match s.next() {
        SpecAction::Forward { tok, pos } => assert_eq!((tok, pos), (9, 7)),
        _ => panic!("no draft starts with 9"),
    }
}

#[test]
fn nothing_is_generated_where_nothing_is_asked() {
    let s = Speculation::start(&[1, 2], 3, 0, 4);
    assert!(matches!(s.next(), SpecAction::Done));
    assert_eq!(s.output(), Vec::<u32>::new());
}

#[test]
fn an_empty_prompt_is_continued_too() {
    let mut s = Speculation::start(&[], 7, 2, 4);
    assert!(matches!(s.next(), SpecAction::Forward { tok: 7, pos: 0 }));
    s.forwarded(8);
    assert!(matches!(s.next(), SpecAction::Forward { tok: 8, pos: 1 }));
    s.forwarded(9);
    assert!(matches!(s.next(), SpecAction::Done));
    assert_eq!(s.output(), vec![7, 8]);
}

#[test]
fn generation_counts_positions() {
    let mut g = Generation::start(4, 3);
    let mut positions = Vec::new();
    let mut tok = 7;
    while g.wants_more() {
        positions.push(g.decoded(tok));
        tok += 1;
    }
    assert_eq!(positions, vec![4, 5, 6]);
    assert_eq!(g.output(), vec![7, 8, 9]);
}

#[test]
fn windows_score_every_token_once() {
    assert_eq!(score_windows(10, 4), vec![(0, 4), (3, 7), (6, 10)]);
    assert_eq!(score_windows(4, 4), vec![(0, 4)]);
    assert_eq!(score_windows(5, 4), vec![(0, 4), (3, 5)]);
    assert_eq!(score_windows(1, 4), Vec::<(usize, usize)>::new());
    let mut scored = vec![0; 100];
    for (a, b) in score_windows(100, 7) {
        for t in a + 1..b {
            scored[t] += 1;
        }
    }
    assert!(scored[1..].iter().all(|&n| n == 1) && scored[0] == 0);
}

#[test]
fn draft_strategies_are_plain_values() {
    let s = DraftStrategy::SelfSpec { k: 6, gamma: 4 };
    assert_eq!(s, DraftStrategy::SelfSpec { k: 6, gamma: 4 });
    assert_ne!(s, DraftStrategy::PromptLookup { k: 6 });
}
