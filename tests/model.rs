use llama2::checkpoint::{CheckpointError, Span, WeightLayout};
use llama2::config::{Config, HEADER_BYTES};

fn header(fields: [i32; 7]) -> Vec<u8> {
    fields.iter().flat_map(|f| f.to_le_bytes()).collect()
}

fn small() -> Config {
    Config { dim: 8, hidden_dim: 16, n_layers: 2, n_heads: 4, n_kv_heads: 2, vocab_size: 32, seq_len: 10 }
}

#[test]
fn header_fields_in_order() {
    let c = Config::from_header(&header([8, 16, 2, 4, 2, -32, 10])).unwrap();
    assert_eq!(c, Config { vocab_size: -32, ..small() });
    assert_eq!(Config::from_header(&[0u8; 27]), Err(CheckpointError::ShortHeader));
    assert_eq!(HEADER_BYTES, 28);
}

#[test]
fn derived_sizes() {
    let c = small();
    assert!(c.check());
    assert_eq!(c.head_size(), 2);
    assert_eq!(c.kv_dim(), 4);
    assert_eq!(c.kv_mul(), 2);
    assert_eq!(c.cache_len(), 2 * 10 * 4);
    assert_eq!(c.att_len(), 40);
}

#[test]
fn invalid_configs() {
    assert!(!Config { dim: 0, ..small() }.check());
    assert!(!Config { n_heads: 3, ..small() }.check());
    assert!(!Config { n_kv_heads: 3, ..small() }.check());
    assert!(!Config { seq_len: 0, ..small() }.check());
    assert!(!Config { vocab_size: -1, ..small() }.check());
    // rotary embedding turns pairs: the width and the key/value width must be even
    assert!(!Config { dim: 9, n_heads: 3, n_kv_heads: 3, ..small() }.check());
    assert!(!Config { dim: 6, n_heads: 2, n_kv_heads: 1, ..small() }.check());
    assert!(!Config { dim: i32::MAX - 1, n_heads: 2, n_kv_heads: 2, n_layers: i32::MAX, ..small() }.check());
}

#[test]
fn odd_head_size_is_valid() {
    let c = Config { dim: 6, n_heads: 2, n_kv_heads: 2, ..small() };
    assert!(c.check());
    assert_eq!(c.head_size(), 3);
    assert_eq!(c.kv_dim(), 6);
    let c = Config { dim: 12, n_heads: 4, n_kv_heads: 2, ..small() };
    assert!(c.check());
    assert_eq!(c.kv_dim(), 6);
    assert_eq!(c.kv_head_offset(0, 1, 3), 6 + 3);
    let floats = 32 * 12 + 2 * 12 + 2 * 144 + 2 * 2 * 12 * 6 + 2 * 144 + 2 * 12 + 3 * 2 * 16 * 12 + 12 + 3;
    let w = WeightLayout::new(c, 28 + 4 * floats as u64).unwrap();
    assert_eq!(w.rms_final_weight.len, 12);
}

#[test]
fn kv_offsets() {
    let c = small();
    assert_eq!(c.kv_slot_offset(0, 0), 0);
    assert_eq!(c.kv_slot_offset(0, 3), 12);
    assert_eq!(c.kv_slot_offset(1, 2), 40 + 8);
    // heads 0 and 1 share key/value head 0; heads 2 and 3 share head 1
    assert_eq!(c.kv_head_offset(1, 2, 0), 48);
    assert_eq!(c.kv_head_offset(1, 2, 1), 48);
    assert_eq!(c.kv_head_offset(1, 2, 2), 50);
    assert_eq!(c.kv_head_offset(1, 2, 3), 50);
}

fn tensor_floats(c: &Config) -> u64 {
    let (v, d, l, h) = (c.vocab_size as u64, c.dim as u64, c.n_layers as u64, c.hidden_dim as u64);
    let kv = 4u64;
    v * d + l * d + l * d * d + 2 * l * d * kv + l * d * d + l * d + 3 * l * h * d + d + 2
}

#[test]
fn layout_shared_classifier() {
    let c = small();
    let len = 28 + 4 * tensor_floats(&c);
    let w = WeightLayout::new(c, len).unwrap();
    assert!(w.shared_weights);
    assert_eq!(w.config, c);
    assert_eq!(w.token_embedding, Span { offset: 28, len: 256 });
    assert_eq!(w.rms_att_weight, Span { offset: 28 + 4 * 256, len: 16 });
    assert_eq!(w.wq, Span { offset: 28 + 4 * 272, len: 128 });
    assert_eq!(w.wk, Span { offset: 28 + 4 * 400, len: 64 });
    assert_eq!(w.wv, Span { offset: 28 + 4 * 464, len: 64 });
    assert_eq!(w.wo, Span { offset: 28 + 4 * 528, len: 128 });
    assert_eq!(w.rms_ffn_weight, Span { offset: 28 + 4 * 656, len: 16 });
    assert_eq!(w.w1, Span { offset: 28 + 4 * 672, len: 256 });
    assert_eq!(w.w2, Span { offset: 28 + 4 * 928, len: 256 });
    assert_eq!(w.w3, Span { offset: 28 + 4 * 1184, len: 256 });
    assert_eq!(w.rms_final_weight, Span { offset: 28 + 4 * 1440, len: 8 });
    assert_eq!(w.wcls, w.token_embedding);
    assert_eq!(WeightLayout::new(c, len + 4), Err(CheckpointError::SizeMismatch));
    assert_eq!(WeightLayout::new(c, len - 1), Err(CheckpointError::SizeMismatch));
}

#[test]
fn layout_separate_classifier() {
    let c = small();
    let raw = Config { vocab_size: -32, ..c };
    let before = 28 + 4 * tensor_floats(&c);
    let len = before + 4 * 256;
    let w = WeightLayout::new(raw, len).unwrap();
    assert!(!w.shared_weights);
    assert_eq!(w.config, c);
    assert_eq!(w.wcls, Span { offset: before, len: 256 });
    assert_eq!(WeightLayout::new(raw, before), Err(CheckpointError::SizeMismatch));
}

#[test]
fn layout_rejects_bad_header() {
    let c = small();
    assert_eq!(WeightLayout::new(Config { vocab_size: i32::MIN, ..c }, 0), Err(CheckpointError::BadConfig));
    assert_eq!(WeightLayout::new(Config { n_heads: 0, ..c }, 0), Err(CheckpointError::BadConfig));
    assert_eq!(WeightLayout::new(Config { vocab_size: 0, ..c }, 28), Err(CheckpointError::BadConfig));
}
