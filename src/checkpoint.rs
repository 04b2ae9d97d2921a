use vstd::prelude::*;

use crate::config::{element_limit, Config, HEADER_BYTES, MAX_ELEMENTS};

verus! {

/// Why a checkpoint cannot be loaded.
#[derive(Clone, Copy, Debug, PartialEq, Eq, Structural)]
pub enum CheckpointError {
    /// The file is shorter than its header.
    ShortHeader,
    /// The header describes no usable model.
    BadConfig,
    /// The file is not exactly as long as the tensors that the header announces.
    SizeMismatch,
}

/// Where one tensor lies in a checkpoint: a byte offset and a number of `f32`s.
#[derive(Clone, Copy, Debug, PartialEq, Eq, Structural)]
pub struct Span {
    pub offset: u64,
    pub len: u64,
}

/// Number of tensors stored before the optional classifier; the last of them is the
/// discarded legacy rotary table.
pub const STORED_TENSORS: usize = 12;

/// The header with the sign of `vocab_size` dropped.
pub open spec fn normalized(raw: Config) -> Config {
    Config { vocab_size: (if raw.vocab_size < 0 { -(raw.vocab_size as int) } else { raw.vocab_size as int }) as i32, ..raw }
}

/// The header is usable: its `vocab_size` has an absolute value, which gives a valid shape.
pub open spec fn header_is_usable(raw: Config) -> bool {
    raw.vocab_size != i32::MIN && normalized(raw).is_valid()
}

/// A non-negative `vocab_size` in the header says that the classifier is the embedding table.
pub open spec fn shares_classifier(raw: Config) -> bool {
    raw.vocab_size >= 0
}

/// Number of `f32`s in the `k`-th stored tensor, in file order: token embedding,
/// attention norms, wq, wk, wv, wo, FFN norms, w1, w2, w3, final norm, legacy rotary table.
pub open spec fn tensor_len(c: Config, k: int) -> int {
    if k == 0 {
        c.embedding_len()
    } else if k == 1 || k == 6 {
        c.norm_len()
    } else if k == 2 || k == 5 {
        c.wq_len()
    } else if k == 3 || k == 4 {
        c.wk_len()
    } else if k == 7 || k == 8 || k == 9 {
        c.ffn_len()
    } else if k == 10 {
        c.dim as int
    } else {
        c.head_size_spec()
    }
}

/// Byte offset of the `k`-th stored tensor (of the classifier, for `k == STORED_TENSORS`).
pub open spec fn tensor_offset(c: Config, k: nat) -> int
    decreases k,
{
    if k == 0 {
        HEADER_BYTES as int
    } else {
        tensor_offset(c, (k - 1) as nat) + 4 * tensor_len(c, k - 1)
    }
}

pub open spec fn span_of(c: Config, k: nat) -> Span {
    Span { offset: tensor_offset(c, k) as u64, len: tensor_len(c, k as int) as u64 }
}

/// Length in bytes of a well-formed checkpoint with this header.
pub open spec fn expected_file_len(raw: Config) -> int {
    let c = normalized(raw);
    tensor_offset(c, STORED_TENSORS as nat) + if shares_classifier(raw) {
        0
    } else {
        4 * c.embedding_len()
    }
}

/// The positions of all weight tensors in a checkpoint file.
#[derive(Clone, Copy, Debug, PartialEq, Eq, Structural)]
pub struct WeightLayout {
    /// The header, with a positive `vocab_size`.
    pub config: Config,
    pub shared_weights: bool,
    pub token_embedding: Span,
    pub rms_att_weight: Span,
    pub wq: Span,
    pub wk: Span,
    pub wv: Span,
    pub wo: Span,
    pub rms_ffn_weight: Span,
    pub w1: Span,
    pub w2: Span,
    pub w3: Span,
    pub rms_final_weight: Span,
    /// The classifier; the token embedding itself when the weights are shared.
    pub wcls: Span,
}

impl WeightLayout {
    /// The layout of a checkpoint whose header is `raw`.
    pub open spec fn describes(self, raw: Config) -> bool {
        let c = normalized(raw);
        &&& self.config == c
        &&& self.shared_weights == shares_classifier(raw)
        &&& self.token_embedding == span_of(c, 0)
        &&& self.rms_att_weight == span_of(c, 1)
        &&& self.wq == span_of(c, 2)
        &&& self.wk == span_of(c, 3)
        &&& self.wv == span_of(c, 4)
        &&& self.wo == span_of(c, 5)
        &&& self.rms_ffn_weight == span_of(c, 6)
        &&& self.w1 == span_of(c, 7)
        &&& self.w2 == span_of(c, 8)
        &&& self.w3 == span_of(c, 9)
        &&& self.rms_final_weight == span_of(c, 10)
        &&& self.wcls == (if self.shared_weights {
            span_of(c, 0)
        } else {
            Span { offset: tensor_offset(c, STORED_TENSORS as nat) as u64, len: c.embedding_len() as u64 }
        })
    }

    /// Lays out the tensors of a checkpoint of `file_len` bytes whose header is `raw`:
    /// each tensor follows the previous one, the legacy rotary table is skipped, and a
    /// separate classifier fills the rest of the file exactly.
    pub fn new(raw: Config, file_len: u64) -> (r: Result<WeightLayout, CheckpointError>)
        ensures
            (r == Err::<WeightLayout, CheckpointError>(CheckpointError::BadConfig)) <==> !header_is_usable(raw),
            (r == Err::<WeightLayout, CheckpointError>(CheckpointError::SizeMismatch)) <==> (header_is_usable(raw)
                && file_len != expected_file_len(raw)),
            r is Ok <==> (header_is_usable(raw) && file_len == expected_file_len(raw)),
            r matches Ok(w) ==> w.describes(raw) && w.config.is_valid(),
    {
        if raw.vocab_size == i32::MIN {
            return Err(CheckpointError::BadConfig);
        }
        let shared = raw.vocab_size >= 0;
        let c = Config { vocab_size: if shared { raw.vocab_size } else { -raw.vocab_size }, ..raw };
        assert(c == normalized(raw));
        if !c.check() {
            return Err(CheckpointError::BadConfig);
        }
        proof {
            lemma_tensor_lens_bounded(c);
        }
        let kv_dim = c.kv_dim() as u64;
        let dim = c.dim as u64;
        let layers = c.n_layers as u64;
        proof {
            assert(c.vocab_size * c.dim * 1 == c.embedding_len());
            assert(c.n_layers * c.dim * 1 == c.norm_len());
            assert(tensor_len(c, 0) <= MAX_ELEMENTS && tensor_len(c, 1) <= MAX_ELEMENTS);
            assert(tensor_len(c, 2) <= MAX_ELEMENTS && tensor_len(c, 3) <= MAX_ELEMENTS);
            assert(tensor_len(c, 7) <= MAX_ELEMENTS);
        }
        let embedding = crate::config::product3(c.vocab_size as u64, dim, 1) as u64;
        let norm = crate::config::product3(layers, dim, 1) as u64;
        let wq = crate::config::product3(layers, dim, dim) as u64;
        let wk = crate::config::product3(layers, dim, kv_dim) as u64;
        let ffn = crate::config::product3(layers, c.hidden_dim as u64, dim) as u64;
        let head_size = c.head_size() as u64;
        let mut spans: Vec<Span> = Vec::new();
        let mut offset: u64 = HEADER_BYTES as u64;
        let mut k: usize = 0;
        while k < STORED_TENSORS
            invariant
                0 <= k <= STORED_TENSORS,
                c.is_valid(),
                spans@.len() == k,
                offset == tensor_offset(c, k as nat),
                offset <= HEADER_BYTES + 4 * k * MAX_ELEMENTS,
                forall|j: int| 0 <= j < k ==> spans@[j] == span_of(c, j as nat),
                forall|j: int| 0 <= j <= STORED_TENSORS ==> 0 <= #[trigger] tensor_len(c, j) <= MAX_ELEMENTS,
                embedding == c.embedding_len(),
                norm == c.norm_len(),
                wq == c.wq_len(),
                wk == c.wk_len(),
                ffn == c.ffn_len(),
                dim == c.dim,
                head_size == c.head_size_spec(),
            decreases STORED_TENSORS - k,
        {
            let len = if k == 0 {
                embedding
            } else if k == 1 || k == 6 {
                norm
            } else if k == 2 || k == 5 {
                wq
            } else if k == 3 || k == 4 {
                wk
            } else if k == 7 || k == 8 || k == 9 {
                ffn
            } else if k == 10 {
                dim
            } else {
                head_size
            };
            assert(len == tensor_len(c, k as int));
            spans.push(Span { offset, len });
            offset = offset + 4 * len;
            k = k + 1;
        }
        let expected = if shared {
            offset
        } else {
            offset + 4 * embedding
        };
        if file_len != expected {
            return Err(CheckpointError::SizeMismatch);
        }
        let wcls = if shared {
            spans[0]
        } else {
            Span { offset, len: embedding }
        };
        Ok(WeightLayout {
            config: c,
            shared_weights: shared,
            token_embedding: spans[0],
            rms_att_weight: spans[1],
            wq: spans[2],
            wk: spans[3],
            wv: spans[4],
            wo: spans[5],
            rms_ffn_weight: spans[6],
            w1: spans[7],
            w2: spans[8],
            w3: spans[9],
            rms_final_weight: spans[10],
            wcls,
        })
    }
}

proof fn lemma_tensor_lens_bounded(c: Config)
    requires
        c.is_valid(),
    ensures
        forall|j: int| 0 <= j <= STORED_TENSORS ==> 0 <= #[trigger] tensor_len(c, j) <= MAX_ELEMENTS,
{
    let (l, d, h) = (c.n_layers as int, c.dim as int, c.hidden_dim as int);
    let kv = c.kv_dim_spec();
    let hs = c.head_size_spec();
    assert(element_limit() <= MAX_ELEMENTS);
    assert(0 <= l * d <= l * d * d) by (nonlinear_arith)
        requires
            l > 0,
            d > 0,
    ;
    assert(kv <= d) by {
        crate::config::lemma_kv_dim_le_dim(c);
    }
    assert(0 <= l * d * kv <= l * d * d) by (nonlinear_arith)
        requires
            l > 0,
            d > 0,
            0 <= kv <= d,
    ;
    assert(0 <= d <= l * d * d) by (nonlinear_arith)
        requires
            l > 0,
            d > 0,
    ;
    assert(0 <= hs <= d) by {
        crate::config::lemma_kv_dim_le_dim(c);
    }
    assert(0 <= l * h * d) by (nonlinear_arith)
        requires
            l > 0,
            d > 0,
            h > 0,
    ;
    assert(0 <= c.vocab_size * d) by (nonlinear_arith)
        requires
            c.vocab_size > 0,
            d > 0,
    ;
}

} // verus!
