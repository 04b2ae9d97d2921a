use vstd::prelude::*;

use crate::bytes::le_i32;
use crate::checkpoint::CheckpointError;

verus! {

/// Number of bytes of the checkpoint header: seven little-endian `i32`s.
pub const HEADER_BYTES: usize = 28;

/// Largest number of elements that any one tensor or activation buffer may hold.
pub const MAX_ELEMENTS: u64 = 0x0100_0000_0000_0000;

/// `MAX_ELEMENTS`, or less where `usize` is narrower.
pub open spec fn element_limit() -> int {
    if usize::MAX < MAX_ELEMENTS {
        usize::MAX as int
    } else {
        MAX_ELEMENTS as int
    }
}

/// Hyper-parameters of the model, as stored at the head of a checkpoint.
#[derive(Clone, Copy, Debug, PartialEq, Eq, Structural)]
pub struct Config {
    pub dim: i32,
    pub hidden_dim: i32,
    pub n_layers: i32,
    pub n_heads: i32,
    pub n_kv_heads: i32,
    pub vocab_size: i32,
    pub seq_len: i32,
}

impl Config {
    pub open spec fn head_size_spec(self) -> int {
        self.dim as int / self.n_heads as int
    }

    pub open spec fn kv_dim_spec(self) -> int {
        (self.dim as int * self.n_kv_heads as int) / self.n_heads as int
    }

    pub open spec fn kv_mul_spec(self) -> int {
        self.n_heads as int / self.n_kv_heads as int
    }

    /// Elements of one layer's share of the key (or value) cache.
    pub open spec fn layer_cache_len(self) -> int {
        self.seq_len as int * self.kv_dim_spec()
    }

    pub open spec fn cache_len_spec(self) -> int {
        self.n_layers as int * self.layer_cache_len()
    }

    pub open spec fn att_len_spec(self) -> int {
        self.n_heads as int * self.seq_len as int
    }

    pub open spec fn embedding_len(self) -> int {
        self.vocab_size as int * self.dim as int
    }

    pub open spec fn norm_len(self) -> int {
        self.n_layers as int * self.dim as int
    }

    pub open spec fn wq_len(self) -> int {
        self.n_layers as int * self.dim as int * self.dim as int
    }

    pub open spec fn wk_len(self) -> int {
        self.n_layers as int * self.dim as int * self.kv_dim_spec()
    }

    pub open spec fn ffn_len(self) -> int {
        self.n_layers as int * self.hidden_dim as int * self.dim as int
    }

    /// The shape rules of a usable model: positive sizes, heads that divide the width,
    /// key/value heads that divide the heads, an even width and key/value width (rotary
    /// embedding turns pairs of entries), and
    /// tensors that a 64-bit machine can index.
    pub open spec fn is_valid(self) -> bool {
        &&& self.dim > 0
        &&& self.hidden_dim > 0
        &&& self.n_layers > 0
        &&& self.n_heads > 0
        &&& self.n_kv_heads > 0
        &&& self.vocab_size > 0
        &&& self.seq_len > 0
        &&& self.dim % self.n_heads == 0
        &&& self.n_heads % self.n_kv_heads == 0
        &&& self.dim % 2 == 0
        &&& self.kv_dim_spec() % 2 == 0
        &&& self.embedding_len() <= element_limit()
        &&& self.wq_len() <= element_limit()
        &&& self.ffn_len() <= element_limit()
        &&& self.cache_len_spec() <= element_limit()
        &&& self.att_len_spec() <= element_limit()
    }

    /// Reads the seven header fields, in order, from the first bytes of a checkpoint.
    pub fn from_header(b: &[u8]) -> (r: Result<Config, CheckpointError>)
        ensures
            b@.len() < HEADER_BYTES <==> r is Err,
            r is Err ==> r == Err::<Config, CheckpointError>(CheckpointError::ShortHeader),
            r matches Ok(c) ==> c == header_config(b@),
    {
        if b.len() < HEADER_BYTES {
            return Err(CheckpointError::ShortHeader);
        }
        Ok(Config {
            dim: le_i32(b, 0),
            hidden_dim: le_i32(b, 4),
            n_layers: le_i32(b, 8),
            n_heads: le_i32(b, 12),
            n_kv_heads: le_i32(b, 16),
            vocab_size: le_i32(b, 20),
            seq_len: le_i32(b, 24),
        })
    }

    /// Checks the shape rules of `is_valid`.
    pub fn check(&self) -> (r: bool)
        ensures
            r == self.is_valid(),
    {
        if self.dim <= 0 || self.hidden_dim <= 0 || self.n_layers <= 0 || self.n_heads <= 0
            || self.n_kv_heads <= 0 || self.vocab_size <= 0 || self.seq_len <= 0 {
            return false;
        }
        if self.dim % self.n_heads != 0 || self.n_heads % self.n_kv_heads != 0 {
            return false;
        }
        proof {
            lemma_kv_dim_bound(self.dim as int, self.n_kv_heads as int, self.n_heads as int);
            let (l, s, k) = (self.n_layers as int, self.seq_len as int, self.kv_dim_spec());
            assert(l * s * k == l * (s * k)) by (nonlinear_arith);
            assert(self.vocab_size * self.dim * 1 == self.vocab_size * self.dim);
            assert(self.n_heads * self.seq_len * 1 == self.n_heads * self.seq_len);
        }
        let kv_dim = (self.dim as u64 * self.n_kv_heads as u64) / self.n_heads as u64;
        if self.dim % 2 != 0 || kv_dim % 2 != 0 {
            return false;
        }
        let limit: u128 = if (usize::MAX as u64) < MAX_ELEMENTS {
            usize::MAX as u128
        } else {
            MAX_ELEMENTS as u128
        };
        product3(self.vocab_size as u64, self.dim as u64, 1) <= limit
            && product3(self.n_layers as u64, self.dim as u64, self.dim as u64) <= limit
            && product3(self.n_layers as u64, self.hidden_dim as u64, self.dim as u64) <= limit
            && product3(self.n_layers as u64, self.seq_len as u64, kv_dim) <= limit
            && product3(self.n_heads as u64, self.seq_len as u64, 1) <= limit
    }

    /// Offset in the key (or value) cache of the slot of `layer` at position `pos`.
    pub open spec fn kv_slot_start(self, layer: int, pos: int) -> int {
        layer * self.layer_cache_len() + pos * self.kv_dim_spec()
    }

    /// Offset of the slice that query head `head` reads in the slot of `layer` at `pos`:
    /// the heads of one group of `kv_mul` share a key/value head.
    pub open spec fn kv_head_start(self, layer: int, pos: int, head: int) -> int {
        self.kv_slot_start(layer, pos) + (head / self.kv_mul_spec()) * self.head_size_spec()
    }

    /// Length of the key (and of the value) cache.
    pub fn cache_len(&self) -> (r: usize)
        requires
            self.is_valid(),
        ensures
            r == self.cache_len_spec(),
    {
        let kv_dim = self.kv_dim();
        proof {
            lemma_kv_dim_le_dim(*self);
            let (l, s, k) = (self.n_layers as int, self.seq_len as int, kv_dim as int);
            assert(0 <= s * k <= l * (s * k)) by (nonlinear_arith)
                requires
                    l >= 1,
                    s >= 1,
                    k >= 0,
            ;
        }
        self.n_layers as usize * (self.seq_len as usize * kv_dim)
    }

    /// Length of the attention score buffer: one row of `seq_len` per head.
    pub fn att_len(&self) -> (r: usize)
        requires
            self.is_valid(),
        ensures
            r == self.att_len_spec(),
    {
        self.n_heads as usize * self.seq_len as usize
    }

    /// Offset of the cache slot that the step at `pos` fills in `layer`.
    pub fn kv_slot_offset(&self, layer: usize, pos: usize) -> (r: usize)
        requires
            self.is_valid(),
            layer < self.n_layers,
            pos < self.seq_len,
        ensures
            r == self.kv_slot_start(layer as int, pos as int),
            r + self.kv_dim_spec() <= self.cache_len_spec(),
    {
        let kv_dim = self.kv_dim();
        proof {
            lemma_slot_in_cache(*self, layer as int, pos as int);
        }
        layer * (self.seq_len as usize * kv_dim) + pos * kv_dim
    }

    /// Offset of the key (or value) slice that query head `head` reads at cached
    /// position `pos` of `layer`.
    pub fn kv_head_offset(&self, layer: usize, pos: usize, head: usize) -> (r: usize)
        requires
            self.is_valid(),
            layer < self.n_layers,
            pos < self.seq_len,
            head < self.n_heads,
        ensures
            r == self.kv_head_start(layer as int, pos as int, head as int),
            self.kv_slot_start(layer as int, pos as int) <= r,
            r + self.head_size_spec() <= self.kv_slot_start(layer as int, pos as int)
                + self.kv_dim_spec(),
    {
        let slot = self.kv_slot_offset(layer, pos);
        let head_size = self.head_size();
        let kv_mul = self.kv_mul();
        proof {
            lemma_head_in_slot(*self, head as int);
        }
        slot + (head / kv_mul) * head_size
    }

    pub fn head_size(&self) -> (r: usize)
        requires
            self.is_valid(),
        ensures
            r == self.head_size_spec(),
            r >= 1,
    {
        proof {
            lemma_exact_quotient_positive(self.dim as int, self.n_heads as int);
        }
        (self.dim / self.n_heads) as usize
    }

    pub fn kv_dim(&self) -> (r: usize)
        requires
            self.is_valid(),
        ensures
            r == self.kv_dim_spec(),
            r == self.head_size_spec() * self.n_kv_heads,
            r <= self.dim,
    {
        proof {
            lemma_kv_dim_bound(self.dim as int, self.n_kv_heads as int, self.n_heads as int);
            lemma_kv_dim_heads(self.dim as int, self.n_kv_heads as int, self.n_heads as int);
        }
        ((self.dim as u64 * self.n_kv_heads as u64) / self.n_heads as u64) as usize
    }

    pub fn kv_mul(&self) -> (r: usize)
        requires
            self.is_valid(),
        ensures
            r == self.kv_mul_spec(),
            r >= 1,
    {
        proof {
            lemma_exact_quotient_positive(self.n_heads as int, self.n_kv_heads as int);
        }
        (self.n_heads / self.n_kv_heads) as usize
    }
}

/// The configuration whose fields are the seven little-endian `i32`s at the start of `b`.
pub open spec fn header_config(b: Seq<u8>) -> Config {
    Config {
        dim: crate::bytes::le_i32_spec(b, 0),
        hidden_dim: crate::bytes::le_i32_spec(b, 4),
        n_layers: crate::bytes::le_i32_spec(b, 8),
        n_heads: crate::bytes::le_i32_spec(b, 12),
        n_kv_heads: crate::bytes::le_i32_spec(b, 16),
        vocab_size: crate::bytes::le_i32_spec(b, 20),
        seq_len: crate::bytes::le_i32_spec(b, 24),
    }
}

pub proof fn lemma_kv_dim_le_dim(c: Config)
    requires
        c.is_valid(),
    ensures
        1 <= c.head_size_spec() <= c.kv_dim_spec() <= c.dim,
        c.kv_dim_spec() == c.head_size_spec() * c.n_kv_heads,
{
    lemma_kv_dim_bound(c.dim as int, c.n_kv_heads as int, c.n_heads as int);
    lemma_kv_dim_heads(c.dim as int, c.n_kv_heads as int, c.n_heads as int);
    lemma_exact_quotient_positive(c.dim as int, c.n_heads as int);
    let hs = c.head_size_spec();
    assert(hs <= hs * c.n_kv_heads) by (nonlinear_arith)
        requires
            hs >= 1,
            c.n_kv_heads >= 1,
    ;
}

proof fn lemma_slot_in_cache(c: Config, layer: int, pos: int)
    requires
        c.is_valid(),
        0 <= layer < c.n_layers,
        0 <= pos < c.seq_len,
    ensures
        0 <= c.kv_slot_start(layer, pos),
        c.kv_slot_start(layer, pos) + c.kv_dim_spec() <= c.cache_len_spec(),
        c.layer_cache_len() == c.seq_len * c.kv_dim_spec(),
        0 <= c.seq_len * c.kv_dim_spec() <= c.cache_len_spec(),
{
    lemma_kv_dim_le_dim(c);
    let (l, s, k) = (c.n_layers as int, c.seq_len as int, c.kv_dim_spec());
    assert(0 <= layer * (s * k) + pos * k && layer * (s * k) + pos * k + k <= l * (s * k))
        by (nonlinear_arith)
        requires
            0 <= layer < l,
            0 <= pos < s,
            k >= 0,
    {
        assert(pos * k + k <= s * k);
        assert(layer * (s * k) + s * k <= l * (s * k));
    }
    assert(0 <= s * k <= l * (s * k)) by (nonlinear_arith)
        requires
            l >= 1,
            s >= 1,
            k >= 0,
    ;
}

/// A query head's key/value slice lies inside one cache slot.
pub proof fn lemma_head_in_slot(c: Config, head: int)
    requires
        c.is_valid(),
        0 <= head < c.n_heads,
    ensures
        0 <= (head / c.kv_mul_spec()) * c.head_size_spec(),
        (head / c.kv_mul_spec()) * c.head_size_spec() + c.head_size_spec() <= c.kv_dim_spec(),
{
    lemma_kv_dim_le_dim(c);
    lemma_exact_quotient_positive(c.n_heads as int, c.n_kv_heads as int);
    let m = c.kv_mul_spec();
    let nkv = c.n_kv_heads as int;
    let hs = c.head_size_spec();
    vstd::arithmetic::div_mod::lemma_fundamental_div_mod(c.n_heads as int, nkv);
    assert(c.n_heads == nkv * m);
    let g = head / m;
    vstd::arithmetic::div_mod::lemma_div_pos_is_pos(head, m);
    assert(g < nkv) by {
        vstd::arithmetic::div_mod::lemma_div_by_multiple_is_strongly_ordered(head, c.n_heads as int, nkv, m);
        vstd::arithmetic::div_mod::lemma_div_by_multiple(nkv, m);
    }
    assert(0 <= g * hs && g * hs + hs <= nkv * hs) by (nonlinear_arith)
        requires
            0 <= g < nkv,
            hs >= 0,
    ;
}

/// Key/value cache slots of distinct (layer, position) pairs do not overlap, and all lie
/// inside the cache: a slot, once written, stays as written while the later steps of the
/// session fill the other slots.
pub proof fn lemma_kv_slots_disjoint(c: Config, layer_a: int, pos_a: int, layer_b: int, pos_b: int)
    requires
        c.is_valid(),
        0 <= layer_a < c.n_layers,
        0 <= layer_b < c.n_layers,
        0 <= pos_a < c.seq_len,
        0 <= pos_b < c.seq_len,
        layer_a < layer_b || (layer_a == layer_b && pos_a < pos_b),
    ensures
        0 <= c.kv_slot_start(layer_a, pos_a),
        c.kv_slot_start(layer_a, pos_a) + c.kv_dim_spec() <= c.kv_slot_start(layer_b, pos_b),
        c.kv_slot_start(layer_b, pos_b) + c.kv_dim_spec() <= c.cache_len_spec(),
{
    lemma_slot_in_cache(c, layer_a, pos_a);
    lemma_slot_in_cache(c, layer_b, pos_b);
    let (s, k) = (c.seq_len as int, c.kv_dim_spec());
    if layer_a < layer_b {
        assert(pos_a * k + k <= s * k && layer_a * (s * k) + s * k <= layer_b * (s * k) && 0 <= pos_b * k)
            by (nonlinear_arith)
            requires
                0 <= layer_a < layer_b,
                0 <= pos_a < s,
                0 <= pos_b,
                k >= 0,
        {
            assert(layer_a * (s * k) + s * k == (layer_a + 1) * (s * k));
        }
    } else {
        assert(pos_a * k + k <= pos_b * k) by (nonlinear_arith)
            requires
                0 <= pos_a < pos_b,
                k >= 0,
        ;
    }
}

/// The step at position `pos` reads, for query head `head` and each cached position
/// `t <= pos`, a `head_size` slice inside the slot of `t`: after the steps at positions
/// `0..pos` and its own write at `pos`, attention reads only slots that were written.
pub proof fn lemma_attention_reads_filled_slots(c: Config, layer: int, pos: int, t: int, head: int)
    requires
        c.is_valid(),
        0 <= layer < c.n_layers,
        0 <= t <= pos < c.seq_len,
        0 <= head < c.n_heads,
    ensures
        c.kv_slot_start(layer, t) <= c.kv_head_start(layer, t, head),
        c.kv_head_start(layer, t, head) + c.head_size_spec() <= c.kv_slot_start(layer, t)
            + c.kv_dim_spec(),
        t < pos ==> c.kv_slot_start(layer, t) + c.kv_dim_spec() <= c.kv_slot_start(layer, pos),
{
    lemma_head_in_slot(c, head);
    if t < pos {
        lemma_kv_slots_disjoint(c, layer, t, layer, pos);
    }
}

pub(crate) fn product3(a: u64, b: u64, c: u64) -> (r: u128)
    requires
        a < 0x8000_0000,
        b < 0x8000_0000,
        c < 0x8000_0000_0000_0000,
    ensures
        r == a * b * c,
{
    proof {
        lemma_product3_bound(a as int, b as int, c as int);
    }
    (a as u128) * (b as u128) * (c as u128)
}

proof fn lemma_product3_bound(a: int, b: int, c: int)
    requires
        0 <= a < 0x8000_0000,
        0 <= b < 0x8000_0000,
        0 <= c < 0x8000_0000_0000_0000,
    ensures
        0 <= a * b < 0x4000_0000_0000_0000,
        0 <= a * b * c < 0x2000_0000_0000_0000_0000_0000_0000_0000,
{
    assert(0 <= a * b < 0x4000_0000_0000_0000) by (nonlinear_arith)
        requires
            0 <= a < 0x8000_0000,
            0 <= b < 0x8000_0000,
    ;
    assert(0 <= (a * b) * c < 0x2000_0000_0000_0000_0000_0000_0000_0000) by (nonlinear_arith)
        requires
            0 <= a * b < 0x4000_0000_0000_0000,
            0 <= c < 0x8000_0000_0000_0000,
    ;
}

proof fn lemma_kv_dim_bound(dim: int, nkv: int, nh: int)
    requires
        0 < dim < 0x8000_0000,
        0 < nkv < 0x8000_0000,
        0 < nh,
        nh % nkv == 0,
    ensures
        0 <= dim * nkv < 0x4000_0000_0000_0000,
        (dim * nkv) / nh <= dim,
{
    assert(0 <= dim * nkv < 0x4000_0000_0000_0000) by (nonlinear_arith)
        requires
            0 < dim < 0x8000_0000,
            0 < nkv < 0x8000_0000,
    ;
    vstd::arithmetic::div_mod::lemma_mod_pos_bound(nh, nkv);
    vstd::arithmetic::div_mod::lemma_mod_multiples_basic(nh / nkv, nkv);
    vstd::arithmetic::div_mod::lemma_fundamental_div_mod(nh, nkv);
    assert(nkv <= nh) by (nonlinear_arith)
        requires
            nh == nkv * (nh / nkv) + nh % nkv,
            nh % nkv == 0,
            0 < nkv,
            0 < nh,
    ;
    assert((dim * nkv) / nh <= dim) by (nonlinear_arith)
        requires
            0 < dim,
            0 < nkv <= nh,
    {
        vstd::arithmetic::div_mod::lemma_div_is_ordered(dim * nkv, dim * nh, nh);
        vstd::arithmetic::div_mod::lemma_div_by_multiple(dim, nh);
    }
}

proof fn lemma_exact_quotient_positive(a: int, b: int)
    requires
        0 < a,
        0 < b,
        a % b == 0,
    ensures
        a / b >= 1,
        a / b <= a,
{
    vstd::arithmetic::div_mod::lemma_fundamental_div_mod(a, b);
    let q = a / b;
    assert(q >= 1 && q <= a) by (nonlinear_arith)
        requires
            a == b * q,
            0 < a,
            0 < b,
    ;
}

proof fn lemma_kv_dim_heads(dim: int, nkv: int, nh: int)
    requires
        0 < dim,
        0 < nkv,
        0 < nh,
        dim % nh == 0,
    ensures
        (dim * nkv) / nh == (dim / nh) * nkv,
{
    vstd::arithmetic::div_mod::lemma_fundamental_div_mod(dim, nh);
    let q = dim / nh;
    assert(dim * nkv == (q * nkv) * nh) by (nonlinear_arith)
        requires
            dim == nh * q,
    ;
    vstd::arithmetic::div_mod::lemma_div_by_multiple(q * nkv, nh);
}

} // verus!
