use llama2::floatbits::gt_bits;
use llama2::generate::{Emit, GenerateError, Generation};
use llama2::sampler::{nucleus_candidates, ProbIndex, SampleMode, SampleStep, Sampler};

fn bits(v: &[f32]) -> Vec<u32> {
    v.iter().map(|x| x.to_bits()).collect()
}

#[test]
fn float_comparison_on_bits() {
    let values = [
        0.0f32, -0.0, 1.0, -1.0, 0.5, -2.5, f32::INFINITY, f32::NEG_INFINITY, f32::NAN,
        f32::MIN_POSITIVE, -f32::MIN_POSITIVE, 1.0e-45, f32::MAX, f32::MIN,
    ];
    for &a in &values {
        for &b in &values {
            assert_eq!(gt_bits(a.to_bits(), b.to_bits()), a > b, "{} > {}", a, b);
        }
    }
}

#[test]
fn argmax_picks_sharp_peak() {
    let mut logits = vec![0.1f32; 32];
    logits[7] = 9.0;
    assert_eq!(Sampler::sample_argmax(&bits(&logits)), 7);
    let mut s = Sampler::new(0.0f32.to_bits(), 0.9f32.to_bits(), 42, 32);
    for _ in 0..10 {
        assert_eq!(s.sample(&bits(&logits)), SampleStep::Token(7));
    }
    assert_eq!(s.rng_state, 42);
}

#[test]
fn argmax_ties_take_lowest_index() {
    assert_eq!(Sampler::sample_argmax(&bits(&[1.0, 3.0, 2.0, 3.0])), 1);
    assert_eq!(Sampler::sample_argmax(&bits(&[-1.0, -0.5, -0.5])), 1);
    assert_eq!(Sampler::sample_argmax(&bits(&[0.0, -0.0])), 0);
    assert_eq!(Sampler::sample_argmax(&bits(&[5.0])), 0);
}

#[test]
fn modes() {
    let t1 = 1.0f32.to_bits();
    assert_eq!(Sampler::new(0.0f32.to_bits(), 0.5f32.to_bits(), 1, 4).mode(), SampleMode::Greedy);
    assert_eq!(Sampler::new((-0.0f32).to_bits(), 0.5f32.to_bits(), 1, 4).mode(), SampleMode::Greedy);
    assert_eq!(Sampler::new(t1, 1.0f32.to_bits(), 1, 4).mode(), SampleMode::Multinomial);
    assert_eq!(Sampler::new(t1, 0.0f32.to_bits(), 1, 4).mode(), SampleMode::Multinomial);
    assert_eq!(Sampler::new(t1, 1.5f32.to_bits(), 1, 4).mode(), SampleMode::Multinomial);
    assert_eq!(Sampler::new(t1, 0.9f32.to_bits(), 1, 4).mode(), SampleMode::Nucleus);
}

#[test]
fn xorshift_reference_values() {
    let mut s = Sampler::new(1.0f32.to_bits(), 1.0f32.to_bits(), 42, 4);
    let mut state: u64 = 42;
    for _ in 0..5 {
        state ^= state >> 12;
        state ^= state << 25;
        state ^= state >> 27;
        let expected = (state.wrapping_mul(0x2545F4914F6CDD1D) >> 32) as u32;
        assert_eq!(s.random_u32(), expected);
        assert_eq!(s.rng_state, state);
    }
}

#[test]
fn same_seed_same_draws() {
    let logits_a = bits(&[0.0, 1.0, 2.0]);
    let logits_b = bits(&[5.0, -1.0, 0.0]);
    let mut a = Sampler::new(1.0f32.to_bits(), 0.9f32.to_bits(), 42, 3);
    let mut b = Sampler::new(1.0f32.to_bits(), 0.9f32.to_bits(), 42, 3);
    let mut c = Sampler::new(1.0f32.to_bits(), 0.9f32.to_bits(), 43, 3);
    let mut differs = false;
    for _ in 0..20 {
        let x = a.sample(&logits_a);
        let y = b.sample(&logits_b);
        let z = c.sample(&logits_a);
        assert_eq!(x, y);
        match x {
            SampleStep::Draw { coin, nucleus } => {
                assert!(coin < 1 << 24);
                assert!(nucleus);
            }
            SampleStep::Token(_) => panic!("not greedy"),
        }
        differs |= x != z;
    }
    assert!(differs);
}

#[test]
fn generation_follows_prompt_then_sampler() {
    let mut g = Generation::new(vec![1, 10, 11], 10, 6).unwrap();
    assert_eq!(g.steps, 6);
    assert_eq!(g.next_forward(), Some((1, 0)));
    assert!(!g.needs_sample());
    assert_eq!(g.advance(99), Emit::Nothing);
    assert_eq!(g.next_forward(), Some((10, 1)));
    assert_eq!(g.advance(99), Emit::Piece { token: 10, prev_token: 1 });
    assert!(g.needs_sample());
    assert_eq!(g.next_forward(), Some((11, 2)));
    assert_eq!(g.advance(20), Emit::Piece { token: 11, prev_token: 10 });
    assert_eq!(g.next_forward(), Some((20, 3)));
    assert_eq!(g.advance(1), Emit::Stop);
    assert_eq!(g.next_forward(), None);
}

#[test]
fn generation_stops_at_step_limit() {
    let mut g = Generation::new(vec![1], 2, 100).unwrap();
    assert_eq!(g.advance(5), Emit::Nothing);
    assert_eq!(g.advance(6), Emit::Piece { token: 5, prev_token: 1 });
    assert_eq!(g.next_forward(), None);
    assert_eq!(g.pos, 2);
}

#[test]
fn generation_needs_a_prompt() {
    assert!(matches!(Generation::new(vec![], 5, 5), Err(GenerateError::EmptyPrompt)));
}

#[test]
fn nucleus_candidates_filter_and_order() {
    let probs = bits(&[0.1, 0.4, 0.05, 0.4, 0.05]);
    let kept = nucleus_candidates(&probs, 0.05f32.to_bits());
    let expected = [(0.4f32, 3usize), (0.4, 1), (0.1, 0), (0.05, 4), (0.05, 2)];
    assert_eq!(kept.len(), expected.len());
    for (k, (p, i)) in kept.iter().zip(expected.iter()) {
        assert_eq!(*k, ProbIndex { prob_bits: p.to_bits(), index: *i });
    }
    let kept = nucleus_candidates(&probs, 0.2f32.to_bits());
    assert_eq!(
        kept,
        vec![ProbIndex { prob_bits: 0.4f32.to_bits(), index: 3 }, ProbIndex { prob_bits: 0.4f32.to_bits(), index: 1 }]
    );
    assert!(nucleus_candidates(&probs, f32::NAN.to_bits()).is_empty());
    assert!(nucleus_candidates(&[], 0).is_empty());
}
