use mx_engine::floatbits::argmax;
use mx_engine::order::descending;
use mx_engine::sample::{select, Candidate, Choice, Sampler, ONE};

fn bits(v: &[f32]) -> Vec<u32> {
    v.iter().map(|x| x.to_bits()).collect()
}

fn candidates(s: &Sampler, logits: &[f32]) -> Vec<Candidate> {
    match s.pick(&bits(logits)) {
        Choice::Among(c) => c,
        Choice::Token(t) => panic!("greedy choice {t}"),
    }
}

#[test]
fn greedy_sampler_is_the_argmax() {
    let s = Sampler::greedy();
    assert!(s.is_greedy());
    let logits = bits(&[0.5, 2.0, 2.0, -1.0]);
    assert!(matches!(s.pick(&logits), Choice::Token(1)));
    assert_eq!(argmax(&logits), 1);
    assert!(matches!(s.pick(&bits(&[f32::NAN, 1.0])), Choice::Token(1)));
    assert!(matches!(s.pick(&bits(&[f32::NEG_INFINITY, f32::NEG_INFINITY])), Choice::Token(0)));
}

#[test]
fn temperature_decides_greediness() {
    let at = |t: f32| Sampler::new(t.to_bits(), 0, ONE, 1).is_greedy();
    assert!(at(0.0) && at(-0.0) && at(-1.5) && at(f32::NEG_INFINITY));
    assert!(!at(0.8) && !at(f32::INFINITY) && !at(f32::NAN));
    let from = |t: f32| Sampler::from_options(t.to_bits(), 40, ONE, 7);
    assert_eq!(from(0.0), Sampler::greedy());
    assert_eq!(from(f32::NAN), Sampler::greedy());
    assert_eq!(from(0.8), Sampler::new(0.8f32.to_bits(), 40, ONE, 7));
}

#[test]
fn seed_is_never_zero() {
    assert_eq!(Sampler::new(ONE, 0, ONE, 0).rng, 1);
    assert_eq!(Sampler::new(ONE, 0, ONE, 9).rng, 9);
    let mut s = Sampler::new(ONE, 0, ONE, 0);
    assert_eq!(s.draw(), 4711630);
    assert_eq!(s.draw(), 11259814);
}

#[test]
fn candidates_descend_and_top_k_cuts() {
    let logits = [0.5, 3.0, -2.0, 3.0, 1.0];
    let all = candidates(&Sampler::new(ONE, 0, ONE, 1), &logits);
    let ids: Vec<u32> = all.iter().map(|c| c.id).collect();
    assert_eq!(ids, vec![1, 3, 4, 0, 2]);
    assert_eq!(all[2].logit, 1.0f32.to_bits());
    let two = candidates(&Sampler::new(ONE, 2, ONE, 1), &logits);
    assert_eq!(two.len(), 2);
    assert_eq!((two[0].id, two[1].id), (1, 3));
    // as many as there are, or more, keep all
    assert_eq!(candidates(&Sampler::new(ONE, 5, ONE, 1), &logits).len(), 5);
    assert_eq!(candidates(&Sampler::new(ONE, 9, ONE, 1), &logits).len(), 5);
}

#[test]
fn zeros_are_told_apart_when_sorting() {
    let c = candidates(&Sampler::new(ONE, 0, ONE, 1), &[-0.0, 0.0]);
    assert_eq!((c[0].id, c[1].id), (1, 0));
}

#[test]
fn nucleus_is_the_shortest_prefix() {
    let cum = bits(&[0.5, 0.75, 0.9, 1.0]);
    let at = |p: f32| Sampler::new(ONE, 0, p.to_bits(), 1).nucleus(&cum);
    assert_eq!(at(0.5), 1);
    assert_eq!(at(0.6), 2);
    assert_eq!(at(0.95), 4);
    assert_eq!(at(1.0), 4);
    assert_eq!(at(f32::NAN), 4);
    // nothing reaches the limit
    assert_eq!(Sampler::new(ONE, 0, 0.99f32.to_bits(), 1).nucleus(&bits(&[0.1, 0.2])), 2);
}

#[test]
fn selection_takes_the_first_above_the_point() {
    let c: Vec<Candidate> = (0..3).map(|i| Candidate { id: 10 + i, logit: 0 }).collect();
    let cum = bits(&[0.5, 0.75, 1.0]);
    let at = |p: f32, n: usize| select(&c, &cum, n, p.to_bits());
    assert_eq!(at(0.0, 3), 10);
    assert_eq!(at(0.5, 3), 11);
    assert_eq!(at(0.74, 3), 11);
    assert_eq!(at(0.99, 3), 12);
    // nothing is above: the last of those in question
    assert_eq!(at(2.0, 3), 12);
    assert_eq!(at(2.0, 2), 11);
    assert_eq!(at(f32::NAN, 2), 11);
}

#[test]
fn descending_order_is_stable() {
    assert_eq!(descending(&[3, 1, 3, 2]), vec![0, 2, 3, 1]);
    assert_eq!(descending(&[]), Vec::<usize>::new());
    let keys: Vec<i64> = (0..200).map(|i| (i * 37) % 101).collect();
    let p = descending(&keys);
    let mut seen = vec![false; keys.len()];
    for w in p.windows(2) {
        assert!(keys[w[0]] > keys[w[1]] || (keys[w[0]] == keys[w[1]] && w[0] < w[1]));
    }
    for &i in &p {
        assert!(!seen[i]);
        seen[i] = true;
    }
    assert!(seen.iter().all(|&s| s));
}
