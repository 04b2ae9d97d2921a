use vstd::prelude::*;

use unicode_segmentation::UnicodeSegmentation;
use vstd::utf8::{decode_utf8, encode_utf8, valid_utf8};

use crate::bytes::{le_u32, le_u32_spec};
use crate::floatbits::{float_gt, gt_bits, is_nan, order_key};
use crate::order::{bytes_lt, compare_bytes};

verus! {

/// Id of the beginning-of-sequence token.
pub const BOS: u32 = 1;

/// Id of the end-of-sequence token.
pub const EOS: u32 = 2;

/// Raw byte `b` stands for itself as the token `b + BYTE_TOKEN_OFFSET`.
pub const BYTE_TOKEN_OFFSET: u32 = 3;

/// Smallest vocabulary that holds the reserved ids and one token per byte.
pub const MIN_VOCAB_SIZE: u32 = 259;

/// The byte of the dummy-prefix piece, a single space.
pub const SPACE: u8 = 32;

/// Why a tokenizer cannot be built or used.
#[derive(Clone, Copy, Debug, PartialEq, Eq, Structural)]
pub enum TokenizerError {
    /// The vocabulary is too small to hold a token for every byte.
    VocabTooSmall,
    /// The tokenizer data ends inside its header or one of its records.
    Truncated,
    /// Non-empty text needs the single-space piece, which the vocabulary lacks.
    MissingSpacePiece,
    /// A token id outside the vocabulary.
    UnknownToken,
}

/// Text that `String::from_utf8_lossy` makes of these bytes.
pub uninterp spec fn utf8_lossy(b: Seq<u8>) -> Seq<char>;

/// The bytes of the extended grapheme clusters of a text, as `unicode_segmentation` cuts it.
pub uninterp spec fn grapheme_clusters(s: Seq<char>) -> Seq<Seq<u8>>;

/// Relies on `String::from_utf8_lossy`: the text of `b`, invalid sequences replaced, and
/// valid UTF-8 decoded unchanged.
#[verifier::external_body]
fn text_of_bytes(b: &[u8]) -> (r: String)
    ensures
        r@ == utf8_lossy(b@),
        valid_utf8(b@) ==> r@ == decode_utf8(b@),
{
    String::from_utf8_lossy(b).into_owned()
}

/// Relies on `UnicodeSegmentation::graphemes(s, true)`, which cuts `s` at extended grapheme
/// cluster boundaries: the clusters are non-empty and, in order, make up `s` byte for byte.
#[verifier::external_body]
fn graphemes(s: &str) -> (r: Vec<Vec<u8>>)
    ensures
        r.deep_view() == grapheme_clusters(s@),
        r.deep_view().flatten() == encode_utf8(s@),
        forall|i: int| 0 <= i < r@.len() ==> (#[trigger] r@[i])@.len() > 0,
{
    s.graphemes(true).map(|g| g.as_bytes().to_vec()).collect()
}

/// Position just past the first `k` records of tokenizer data: a four-byte header,
/// then records of a four-byte score, a four-byte length and that many bytes.
pub open spec fn record_end(data: Seq<u8>, k: nat) -> Option<int>
    decreases k,
{
    if k == 0 {
        if data.len() >= 4 {
            Some(4)
        } else {
            None
        }
    } else {
        match record_end(data, (k - 1) as nat) {
            None => None,
            Some(p) => if p + 8 <= data.len() && p + 8 + le_u32_spec(data, p + 4) <= data.len() {
                Some(p + 8 + le_u32_spec(data, p + 4))
            } else {
                None
            },
        }
    }
}

/// The score bits of record `k`.
pub open spec fn record_score(data: Seq<u8>, k: nat) -> u32 {
    le_u32_spec(data, record_end(data, k).unwrap())
}

/// The piece bytes of record `k`.
pub open spec fn record_piece(data: Seq<u8>, k: nat) -> Seq<u8> {
    let p = record_end(data, k).unwrap();
    data.subrange(p + 8, p + 8 + le_u32_spec(data, p + 4))
}

/// Orders token ids by their pieces, equal pieces by id.
pub open spec fn id_lt(pieces: Seq<Seq<u8>>, x: u32, y: u32) -> bool {
    bytes_lt(pieces[x as int], pieces[y as int]) || (pieces[x as int] == pieces[y as int] && x < y)
}

pub proof fn lemma_id_lt_transitive(pieces: Seq<Seq<u8>>, x: u32, y: u32, z: u32)
    requires
        id_lt(pieces, x, y),
        id_lt(pieces, y, z),
    ensures
        id_lt(pieces, x, z),
{
    if bytes_lt(pieces[x as int], pieces[y as int]) && bytes_lt(pieces[y as int], pieces[z as int]) {
        crate::order::lemma_bytes_lt_transitive(pieces[x as int], pieces[y as int], pieces[z as int]);
    }
}

/// A vocabulary with merge scores and a sorted index of its pieces.
#[derive(Debug)]
pub struct Tokenizer {
    /// `vocab[i]` is the text of token `i`.
    pub vocab: Vec<String>,
    /// Bit patterns of the binary32 merge scores; higher merges first.
    pub vocab_scores: Vec<u32>,
    pub vocab_size: u32,
    /// Every token id once, in the order of `id_lt`.
    pub vocab_sorted: Vec<u32>,
    pub max_token_length: usize,
}

impl Tokenizer {
    /// The UTF-8 bytes of every piece.
    pub open spec fn pieces(self) -> Seq<Seq<u8>> {
        Seq::new(self.vocab@.len(), |i: int| encode_utf8(self.vocab@[i]@))
    }

    pub open spec fn piece(self, id: u32) -> Seq<u8> {
        self.pieces()[id as int]
    }

    pub open spec fn wf(self) -> bool {
        &&& self.vocab@.len() == self.vocab_size
        &&& self.vocab_scores@.len() == self.vocab_size
        &&& self.vocab_sorted@.len() == self.vocab_size
        &&& self.vocab_size >= MIN_VOCAB_SIZE
        &&& forall|k: int| 0 <= k < self.vocab_size ==> #[trigger] self.vocab_sorted@[k] < self.vocab_size
        &&& forall|a: int, b: int|
            0 <= a < b < self.vocab_size ==> id_lt(
                self.pieces(),
                #[trigger] self.vocab_sorted@[a],
                #[trigger] self.vocab_sorted@[b],
            )
        &&& forall|id: u32| id < self.vocab_size ==> #[trigger] self.vocab_sorted@.contains(id)
    }

    /// The lowest id whose piece is `s`.
    pub open spec fn lookup(self, s: Seq<u8>) -> Option<u32> {
        match self.pieces().index_of_first(s) {
            Some(i) => Some(i as u32),
            None => None,
        }
    }

    /// The bytes of the piece of `token` as shown after `prev_token`: after the
    /// beginning-of-sequence token a leading space is dropped.
    pub open spec fn decoded(self, token: u32, prev_token: u32) -> Seq<u8> {
        let p = self.piece(token);
        if prev_token == BOS && p.len() > 0 && p[0] == SPACE {
            p.drop_first()
        } else {
            p
        }
    }

    /// Reads tokenizer data: a `u32` maximum token length, then `vocab_size` records of
    /// an `f32` score, a `u32` length and that many bytes of piece text.
    pub fn new(data: &[u8], vocab_size: u32) -> (r: Result<Tokenizer, TokenizerError>)
        ensures
            (r == Err::<Tokenizer, TokenizerError>(TokenizerError::VocabTooSmall)) <==> vocab_size
                < MIN_VOCAB_SIZE,
            (r == Err::<Tokenizer, TokenizerError>(TokenizerError::Truncated)) <==> (vocab_size
                >= MIN_VOCAB_SIZE && record_end(data@, vocab_size as nat) is None),
            r is Ok <==> (vocab_size >= MIN_VOCAB_SIZE && record_end(data@, vocab_size as nat) is Some),
            r matches Ok(t) ==> {
                &&& t.wf()
                &&& t.vocab_size == vocab_size
                &&& t.max_token_length == le_u32_spec(data@, 0)
                &&& forall|k: int|
                    0 <= k < vocab_size ==> (#[trigger] t.vocab@[k])@ == utf8_lossy(
                        record_piece(data@, k as nat),
                    )
                &&& forall|k: int|
                    0 <= k < vocab_size && valid_utf8(record_piece(data@, k as nat)) ==> #[trigger] t.piece(
                        k as u32,
                    ) == record_piece(data@, k as nat)
                &&& forall|k: int|
                    0 <= k < vocab_size ==> #[trigger] t.vocab_scores@[k] == record_score(
                        data@,
                        k as nat,
                    )
            },
    {
        if vocab_size < MIN_VOCAB_SIZE {
            return Err(TokenizerError::VocabTooSmall);
        }
        if data.len() < 4 {
            proof {
                lemma_record_end_none_after(data@, 0, vocab_size as nat);
            }
            return Err(TokenizerError::Truncated);
        }
        let max_token_length = le_u32(data, 0);
        let mut vocab: Vec<String> = Vec::new();
        let mut scores: Vec<u32> = Vec::new();
        let mut pos: usize = 4;
        let mut k: u32 = 0;
        while k < vocab_size
            invariant
                0 <= k <= vocab_size,
                vocab_size >= MIN_VOCAB_SIZE,
                record_end(data@, k as nat) == Some(pos as int),
                pos <= data@.len(),
                vocab@.len() == k,
                scores@.len() == k,
                forall|j: int| 0 <= j < k ==> (#[trigger] vocab@[j])@ == utf8_lossy(record_piece(data@, j as nat)),
                forall|j: int| 0 <= j < k ==> #[trigger] scores@[j] == record_score(data@, j as nat),
                forall|j: int|
                    0 <= j < k && valid_utf8(record_piece(data@, j as nat)) ==> encode_utf8(
                        (#[trigger] vocab@[j])@,
                    ) == record_piece(data@, j as nat),
            decreases vocab_size - k,
        {
            if data.len() - pos < 8 {
                proof {
                    assert(record_end(data@, (k + 1) as nat) is None);
                    lemma_record_end_none_after(data@, (k + 1) as nat, vocab_size as nat);
                }
                return Err(TokenizerError::Truncated);
            }
            let score = le_u32(data, pos);
            let len = le_u32(data, pos + 4) as usize;
            if data.len() - (pos + 8) < len {
                proof {
                    lemma_record_end_none_after(data@, (k + 1) as nat, vocab_size as nat);
                }
                return Err(TokenizerError::Truncated);
            }
            let bytes = &data[pos + 8..pos + 8 + len];
            let piece = text_of_bytes(bytes);
            proof {
                if valid_utf8(bytes@) {
                    vstd::utf8::decode_utf8_encode_utf8(bytes@);
                }
            }
            vocab.push(piece);
            scores.push(score);
            pos = pos + 8 + len;
            k = k + 1;
        }
        let sorted = sorted_ids(&vocab);
        Ok(Tokenizer {
            vocab,
            vocab_scores: scores,
            vocab_size,
            vocab_sorted: sorted,
            max_token_length: max_token_length as usize,
        })
    }

    /// Id of the piece `s`, the lowest one if several tokens share it.
    pub fn token_lookup(&self, s: &[u8]) -> (r: Option<u32>)
        requires
            self.wf(),
        ensures
            r == self.lookup(s@),
            r matches Some(id) ==> id < self.vocab_size && self.piece(id) == s@,
    {
        let n = self.vocab_sorted.len();
        let mut lo: usize = 0;
        let mut hi: usize = n;
        while lo < hi
            invariant
                self.wf(),
                n == self.vocab_size,
                0 <= lo <= hi <= n,
                forall|k: int| 0 <= k < lo ==> bytes_lt(self.piece(#[trigger] self.vocab_sorted@[k]), s@),
                forall|k: int| hi <= k < n ==> !bytes_lt(self.piece(#[trigger] self.vocab_sorted@[k]), s@),
            decreases hi - lo,
        {
            let mid = lo + (hi - lo) / 2;
            let id = self.vocab_sorted[mid];
            if compare_bytes(self.vocab[id as usize].as_str().as_bytes(), s) < 0 {
                proof {
                    assert forall|k: int| 0 <= k < mid + 1 implies bytes_lt(
                        self.piece(#[trigger] self.vocab_sorted@[k]),
                        s@,
                    ) by {
                        if k < mid {
                            self.lemma_sorted_le(k, mid as int);
                            let pk = self.piece(self.vocab_sorted@[k]);
                            if pk != self.piece(id) {
                                crate::order::lemma_bytes_lt_transitive(pk, self.piece(id), s@);
                            }
                        }
                    }
                }
                lo = mid + 1;
            } else {
                proof {
                    assert forall|k: int| mid <= k < n implies !bytes_lt(
                        self.piece(#[trigger] self.vocab_sorted@[k]),
                        s@,
                    ) by {
                        if k > mid {
                            self.lemma_sorted_le(mid as int, k);
                            let pk = self.piece(self.vocab_sorted@[k]);
                            if pk != self.piece(id) && bytes_lt(pk, s@) {
                                crate::order::lemma_bytes_lt_transitive(self.piece(id), pk, s@);
                            }
                        }
                    }
                }
                hi = mid;
            }
        }
        proof {
            self.pieces().index_of_first_ensures(s@);
        }
        if lo < n {
            let id = self.vocab_sorted[lo];
            if compare_bytes(self.vocab[id as usize].as_str().as_bytes(), s) == 0 {
                proof {
                    assert(self.pieces().contains(s@)) by {
                        assert(self.pieces()[id as int] == s@);
                    }
                    let first = self.pieces().index_of_first(s@).unwrap();
                    let fid = first as u32;
                    assert(self.vocab_sorted@.contains(fid));
                    let m = choose|m: int| 0 <= m < self.vocab_size && #[trigger] self.vocab_sorted@[m] == fid;
                    if m != lo {
                        if m < lo {
                            assert(bytes_lt(self.piece(self.vocab_sorted@[m]), s@));
                            crate::order::lemma_bytes_lt_irreflexive(s@);
                        } else {
                            assert(id_lt(self.pieces(), self.vocab_sorted@[lo as int], self.vocab_sorted@[m]));
                        }
                    }
                }
                return Some(id);
            }
        }
        proof {
            if self.pieces().contains(s@) {
                let j = self.pieces().index_of_first(s@).unwrap();
                let jid = j as u32;
                assert(self.vocab_sorted@.contains(jid));
                let m = choose|m: int| 0 <= m < self.vocab_size && #[trigger] self.vocab_sorted@[m] == jid;
                crate::order::lemma_bytes_lt_irreflexive(s@);
                if m > lo {
                    assert(id_lt(self.pieces(), self.vocab_sorted@[lo as int], self.vocab_sorted@[m]));
                    crate::order::lemma_bytes_lt_total(self.piece(self.vocab_sorted@[lo as int]), s@);
                }
            }
        }
        None
    }

    /// Entries of the sorted index never go down in piece order.
    proof fn lemma_sorted_le(self, a: int, b: int)
        requires
            self.wf(),
            0 <= a < b < self.vocab_size,
        ensures
            bytes_lt(self.piece(self.vocab_sorted@[a]), self.piece(self.vocab_sorted@[b]))
                || self.piece(self.vocab_sorted@[a]) == self.piece(self.vocab_sorted@[b]),
    {
        assert(id_lt(self.pieces(), self.vocab_sorted@[a], self.vocab_sorted@[b]));
    }

    /// The text of `token`, without its leading space when it follows the
    /// beginning-of-sequence token.
    pub fn decode(&self, token: u32, prev_token: u32) -> (r: Result<String, TokenizerError>)
        requires
            self.wf(),
        ensures
            r is Ok <==> token < self.vocab_size,
            r is Err ==> r == Err::<String, TokenizerError>(TokenizerError::UnknownToken),
            r matches Ok(s) ==> encode_utf8(s@) == self.decoded(token, prev_token),
    {
        if token >= self.vocab_size {
            return Err(TokenizerError::UnknownToken);
        }
        let piece = self.vocab[token as usize].as_str();
        let bytes = piece.as_bytes();
        if prev_token == BOS && bytes.len() > 0 && bytes[0] == SPACE {
            proof {
                vstd::utf8::encode_utf8_valid_utf8(piece@);
                reveal_with_fuel(vstd::utf8::is_char_boundary, 2);
            }
            let (_, rest) = piece.split_at(1);
            Ok(rest.to_owned())
        } else {
            Ok(piece.to_owned())
        }
    }
}

proof fn lemma_record_end_none_after(data: Seq<u8>, k: nat, n: nat)
    requires
        k <= n,
        record_end(data, k) is None,
    ensures
        record_end(data, n) is None,
    decreases n - k,
{
    if k < n {
        lemma_record_end_none_after(data, k + 1, n);
    }
}

/// The ids `0..vocab.len()` in the order of `id_lt`, by binary insertion.
fn sorted_ids(vocab: &Vec<String>) -> (r: Vec<u32>)
    requires
        vocab@.len() <= u32::MAX,
    ensures
        r@.len() == vocab@.len(),
        forall|k: int| 0 <= k < r@.len() ==> #[trigger] r@[k] < vocab@.len(),
        forall|a: int, b: int|
            0 <= a < b < r@.len() ==> id_lt(
                Seq::new(vocab@.len(), |i: int| encode_utf8(vocab@[i]@)),
                #[trigger] r@[a],
                #[trigger] r@[b],
            ),
        forall|id: u32| id < vocab@.len() ==> #[trigger] r@.contains(id),
{
    let ghost pieces = Seq::new(vocab@.len(), |i: int| encode_utf8(vocab@[i]@));
    let n = vocab.len();
    let mut v: Vec<u32> = Vec::new();
    let mut i: usize = 0;
    while i < n
        invariant
            n == vocab@.len(),
            n <= u32::MAX,
            pieces == Seq::new(vocab@.len(), |i: int| encode_utf8(vocab@[i]@)),
            0 <= i <= n,
            v@.len() == i,
            forall|k: int| 0 <= k < v@.len() ==> #[trigger] v@[k] < i,
            forall|a: int, b: int| 0 <= a < b < v@.len() ==> id_lt(pieces, #[trigger] v@[a], #[trigger] v@[b]),
            forall|id: u32| id < i ==> #[trigger] v@.contains(id),
        decreases n - i,
    {
        let new_id = i as u32;
        let key = vocab[i].as_str().as_bytes();
        let mut lo: usize = 0;
        let mut hi: usize = v.len();
        while lo < hi
            invariant
                n == vocab@.len(),
                pieces == Seq::new(vocab@.len(), |i: int| encode_utf8(vocab@[i]@)),
                0 <= i < n,
                new_id == i,
                key@ == pieces[i as int],
                v@.len() == i,
                forall|k: int| 0 <= k < v@.len() ==> #[trigger] v@[k] < i,
                forall|a: int, b: int| 0 <= a < b < v@.len() ==> id_lt(pieces, #[trigger] v@[a], #[trigger] v@[b]),
                0 <= lo <= hi <= v@.len(),
                forall|k: int| 0 <= k < lo ==> id_lt(pieces, #[trigger] v@[k], new_id),
                forall|k: int| hi <= k < v@.len() ==> id_lt(pieces, new_id, #[trigger] v@[k]),
            decreases hi - lo,
        {
            let mid = lo + (hi - lo) / 2;
            let other = v[mid];
            let c = compare_bytes(vocab[other as usize].as_str().as_bytes(), key);
            if c <= 0 {
                proof {
                    assert(id_lt(pieces, other, new_id));
                    assert forall|k: int| 0 <= k < mid + 1 implies id_lt(pieces, #[trigger] v@[k], new_id) by {
                        if k < mid {
                            lemma_id_lt_transitive(pieces, v@[k], other, new_id);
                        }
                    }
                }
                lo = mid + 1;
            } else {
                proof {
                    assert(id_lt(pieces, new_id, other));
                    assert forall|k: int| mid <= k < v@.len() implies id_lt(pieces, new_id, #[trigger] v@[k]) by {
                        if k > mid {
                            lemma_id_lt_transitive(pieces, new_id, other, v@[k]);
                        }
                    }
                }
                hi = mid;
            }
        }
        let ghost old_v = v@;
        v.insert(lo, new_id);
        proof {
            assert(v@ == old_v.insert(lo as int, new_id));
            assert forall|a: int, b: int| 0 <= a < b < v@.len() implies id_lt(pieces, #[trigger] v@[a], #[trigger] v@[b]) by {
                if a < lo as int && b < lo as int {
                    assert(v@[a] == old_v[a] && v@[b] == old_v[b]);
                } else if a < lo as int && b == lo as int {
                } else if a < lo as int {
                    assert(v@[a] == old_v[a] && v@[b] == old_v[b - 1]);
                } else if a == lo as int {
                    assert(v@[b] == old_v[b - 1]);
                } else {
                    assert(v@[a] == old_v[a - 1] && v@[b] == old_v[b - 1]);
                }
            }
            assert forall|id: u32| id < i + 1 implies #[trigger] v@.contains(id) by {
                if id == new_id {
                    assert(v@[lo as int] == id);
                } else {
                    assert(old_v.contains(id));
                    let m = choose|m: int| 0 <= m < old_v.len() && #[trigger] old_v[m] == id;
                    if m < lo {
                        assert(v@[m] == id);
                    } else {
                        assert(v@[m + 1] == id);
                    }
                }
            }
        }
        i = i + 1;
    }
    v
}

/// `t` with the pair at `i`, `i + 1` replaced by the single token `id`.
pub open spec fn merged(t: Seq<u32>, i: int, id: u32) -> Seq<u32> {
    t.take(i).push(id) + t.skip(i + 2)
}

impl Tokenizer {
    /// Tokens of one grapheme cluster: the id of its piece, or else one token per byte.
    pub open spec fn cluster_tokens(self, c: Seq<u8>) -> Seq<u32> {
        match self.lookup(c) {
            Some(id) => seq![id],
            None => c.map_values(|b: u8| (b + BYTE_TOKEN_OFFSET) as u32),
        }
    }

    /// Tokens of a sequence of grapheme clusters, before any merge.
    pub open spec fn initial_tokens(self, clusters: Seq<Seq<u8>>) -> Seq<u32>
        decreases clusters.len(),
    {
        if clusters.len() == 0 {
            Seq::empty()
        } else {
            self.initial_tokens(clusters.drop_last()) + self.cluster_tokens(clusters.last())
        }
    }

    /// The token whose piece is the pieces of `t[i]` and `t[i + 1]` together, if any.
    pub open spec fn merge_candidate(self, t: Seq<u32>, i: int) -> Option<u32> {
        self.lookup(self.piece(t[i]) + self.piece(t[i + 1]))
    }

    /// Among the pairs that start before `k`, the one to merge: the highest score wins,
    /// the earliest pair among equal scores.
    pub open spec fn best_merge(self, t: Seq<u32>, k: nat) -> Option<(int, u32)>
        decreases k,
    {
        if k == 0 {
            None
        } else {
            let prev = self.best_merge(t, (k - 1) as nat);
            match self.merge_candidate(t, k - 1) {
                None => prev,
                Some(id) => match prev {
                    None => Some((k - 1, id)),
                    Some(b) => if float_gt(
                        self.vocab_scores@[id as int],
                        self.vocab_scores@[b.1 as int],
                    ) {
                        Some((k - 1, id))
                    } else {
                        prev
                    },
                },
            }
        }
    }

    /// The pair merge of the whole token list, repeated until no pair merges.
    pub open spec fn bpe(self, t: Seq<u32>) -> Seq<u32>
        decreases t.len(),
    {
        if t.len() < 2 {
            t
        } else {
            match self.best_merge(t, (t.len() - 1) as nat) {
                None => t,
                Some(b) => if 0 <= b.0 < t.len() - 1 {
                    self.bpe(merged(t, b.0, b.1))
                } else {
                    t
                },
            }
        }
    }

    /// Non-empty text needs the single-space piece for its dummy prefix.
    pub open spec fn can_encode(self, clusters: Seq<Seq<u8>>) -> bool {
        clusters.len() == 0 || self.lookup(seq![SPACE]) is Some
    }

    /// Tokens before the merges: BOS if asked for, the dummy prefix for non-empty text,
    /// then the tokens of each cluster.
    pub open spec fn unmerged(self, clusters: Seq<Seq<u8>>, bos: bool) -> Seq<u32> {
        (if bos {
            seq![BOS]
        } else {
            Seq::empty()
        }) + (if clusters.len() > 0 {
            seq![self.lookup(seq![SPACE]).unwrap()]
        } else {
            Seq::empty()
        }) + self.initial_tokens(clusters)
    }

    /// The encoding of a text cut into `clusters`.
    pub open spec fn encoding(self, clusters: Seq<Seq<u8>>, bos: bool, eos: bool) -> Seq<u32> {
        self.bpe(self.unmerged(clusters, bos)) + if eos {
            seq![EOS]
        } else {
            Seq::empty()
        }
    }

    /// All ids of `t` lie in the vocabulary.
    pub open spec fn in_vocab(self, t: Seq<u32>) -> bool {
        forall|k: int| 0 <= k < t.len() ==> #[trigger] t[k] < self.vocab_size
    }

    /// Encodes `text` into token ids: BOS if `bos`, then the pair merges over the dummy
    /// space prefix and the grapheme clusters of `text`, then EOS if `eos`.
    pub fn encode(&self, text: &str, bos: bool, eos: bool) -> (r: Result<Vec<u32>, TokenizerError>)
        requires
            self.wf(),
        ensures
            r is Ok <==> self.can_encode(grapheme_clusters(text@)),
            r is Err ==> r == Err::<Vec<u32>, TokenizerError>(TokenizerError::MissingSpacePiece),
            r matches Ok(t) ==> t@ == self.encoding(grapheme_clusters(text@), bos, eos),
            grapheme_clusters(text@).flatten() == encode_utf8(text@),
            forall|i: int|
                0 <= i < grapheme_clusters(text@).len() ==> (#[trigger] grapheme_clusters(text@)[i]).len() > 0,
            (grapheme_clusters(text@).len() == 0) == (text@.len() == 0),
    {
        let clusters = graphemes(text);
        proof {
            lemma_clusters_empty_iff_text_empty(clusters.deep_view(), text@);
        }
        self.encode_clusters(&clusters, bos, eos)
    }

    /// Encodes a text given as its grapheme clusters, each as its UTF-8 bytes.
    pub fn encode_clusters(&self, clusters: &Vec<Vec<u8>>, bos: bool, eos: bool) -> (r: Result<
        Vec<u32>,
        TokenizerError,
    >)
        requires
            self.wf(),
        ensures
            r is Ok <==> self.can_encode(clusters.deep_view()),
            r is Err ==> r == Err::<Vec<u32>, TokenizerError>(TokenizerError::MissingSpacePiece),
            r matches Ok(t) ==> t@ == self.encoding(clusters.deep_view(), bos, eos),
    {
        let ghost cs = clusters.deep_view();
        let mut tokens: Vec<u32> = Vec::new();
        if bos {
            tokens.push(BOS);
        }
        if clusters.len() > 0 {
            let space: Vec<u8> = vec![SPACE];
            assert(space@ == seq![SPACE]);
            match self.token_lookup(space.as_slice()) {
                Some(id) => tokens.push(id),
                None => {
                    return Err(TokenizerError::MissingSpacePiece);
                },
            }
        }
        let ghost prefix = tokens@;
        proof {
            assert(cs.take(0) =~= Seq::<Seq<u8>>::empty());
            assert(tokens@ =~= prefix + self.initial_tokens(cs.take(0)));
        }
        let mut j: usize = 0;
        while j < clusters.len()
            invariant
                self.wf(),
                cs == clusters.deep_view(),
                0 <= j <= cs.len(),
                tokens@ == prefix + self.initial_tokens(cs.take(j as int)),
                self.in_vocab(tokens@),
            decreases cs.len() - j,
        {
            let c = &clusters[j];
            assert(c@ == cs[j as int]);
            let ghost before = tokens@;
            match self.token_lookup(c.as_slice()) {
                Some(id) => {
                    tokens.push(id);
                    assert(tokens@ =~= before + self.cluster_tokens(cs[j as int]));
                },
                None => {
                    let mut m: usize = 0;
                    while m < c.len()
                        invariant
                            self.wf(),
                            0 <= m <= c@.len(),
                            tokens@ == before + c@.take(m as int).map_values(
                                |b: u8| (b + BYTE_TOKEN_OFFSET) as u32,
                            ),
                            self.in_vocab(tokens@),
                        decreases c@.len() - m,
                    {
                        tokens.push(c[m] as u32 + BYTE_TOKEN_OFFSET);
                        proof {
                            assert(c@.take(m + 1) =~= c@.take(m as int).push(c@[m as int]));
                            assert(tokens@ =~= before + c@.take(m + 1).map_values(
                                |b: u8| (b + BYTE_TOKEN_OFFSET) as u32,
                            ));
                        }
                        m = m + 1;
                    }
                    assert(c@.take(m as int) =~= c@);
                },
            }
            proof {
                assert(cs.take(j + 1).drop_last() =~= cs.take(j as int));
                assert(cs.take(j + 1).last() == cs[j as int]);
                assert(tokens@ =~= prefix + self.initial_tokens(cs.take(j + 1)));
            }
            j = j + 1;
        }
        proof {
            assert(cs.take(j as int) =~= cs);
            assert(tokens@ =~= self.unmerged(cs, bos));
        }
        let ghost goal = self.bpe(tokens@);
        let mut done = false;
        while !done
            invariant
                self.wf(),
                self.in_vocab(tokens@),
                self.bpe(tokens@) == goal,
                done ==> tokens@ == goal,
            decreases tokens@.len() + if done {
                0int
            } else {
                1int
            },
        {
            match self.find_best_merge(&tokens) {
                None => {
                    done = true;
                },
                Some((i, id)) => {
                    let ghost t = tokens@;
                    let len = tokens.len();
                    assert(t.len() >= 2 && i + 1 < len);
                    tokens.set(i, id);
                    tokens.remove(i + 1);
                    assert(tokens@ =~= merged(t, i as int, id));
                },
            }
        }
        if eos {
            tokens.push(EOS);
        }
        Ok(tokens)
    }

    /// The merge that `best_merge` picks over the whole of `tokens`.
    fn find_best_merge(&self, tokens: &Vec<u32>) -> (r: Option<(usize, u32)>)
        requires
            self.wf(),
            self.in_vocab(tokens@),
        ensures
            tokens@.len() < 2 ==> r is None,
            tokens@.len() >= 2 ==> match r {
                None => self.best_merge(tokens@, (tokens@.len() - 1) as nat) is None,
                Some(b) => self.best_merge(tokens@, (tokens@.len() - 1) as nat) == Some(
                    (b.0 as int, b.1),
                ) && b.0 < tokens@.len() - 1 && b.1 < self.vocab_size,
            },
    {
        if tokens.len() < 2 {
            return None;
        }
        let ghost t = tokens@;
        let mut best: Option<(usize, u32)> = None;
        let mut k: usize = 0;
        while k < tokens.len() - 1
            invariant
                self.wf(),
                self.in_vocab(t),
                t == tokens@,
                t.len() >= 2,
                0 <= k <= t.len() - 1,
                match best {
                    None => self.best_merge(t, k as nat) is None,
                    Some(b) => self.best_merge(t, k as nat) == Some((b.0 as int, b.1)) && b.0 < k
                        && b.1 < self.vocab_size,
                },
            decreases t.len() - k,
        {
            let pair = concat_bytes(
                self.vocab[tokens[k] as usize].as_str().as_bytes(),
                self.vocab[tokens[k + 1] as usize].as_str().as_bytes(),
            );
            match self.token_lookup(pair.as_slice()) {
                None => {},
                Some(id) => {
                    match best {
                        None => {
                            best = Some((k, id));
                        },
                        Some((_, best_id)) => {
                            if gt_bits(self.vocab_scores[id as usize], self.vocab_scores[best_id as usize]) {
                                best = Some((k, id));
                            }
                        },
                    }
                },
            }
            k = k + 1;
        }
        best
    }
}

/// The merge picked does not depend on the order in which pairs are looked at: when no
/// score is a NaN, it is the earliest of the pairs whose merged piece has the highest score.
pub proof fn lemma_best_merge_is_earliest_highest(tok: Tokenizer, t: Seq<u32>, k: nat)
    requires
        tok.wf(),
        k < t.len(),
        forall|id: int| 0 <= id < tok.vocab_scores@.len() ==> !is_nan(#[trigger] tok.vocab_scores@[id]),
    ensures
        match tok.best_merge(t, k) {
            None => forall|i: int| 0 <= i < k ==> #[trigger] tok.merge_candidate(t, i) is None,
            Some(b) => {
                &&& 0 <= b.0 < k
                &&& tok.merge_candidate(t, b.0) == Some(b.1)
                &&& forall|j: int|
                    0 <= j < k && #[trigger] tok.merge_candidate(t, j) is Some ==> {
                        let s = order_key(tok.vocab_scores@[tok.merge_candidate(t, j).unwrap() as int]);
                        let best = order_key(tok.vocab_scores@[b.1 as int]);
                        &&& s <= best
                        &&& j < b.0 ==> s < best
                    }
            },
        },
    decreases k,
{
    if k > 0 {
        lemma_best_merge_is_earliest_highest(tok, t, (k - 1) as nat);
        let i = k - 1;
        tok.pieces().index_of_first_ensures(tok.piece(t[i]) + tok.piece(t[i + 1]));
        match tok.best_merge(t, (k - 1) as nat) {
            None => {},
            Some(b) => {
                tok.pieces().index_of_first_ensures(tok.piece(t[b.0]) + tok.piece(t[b.0 + 1]));
            },
        }
    }
}

/// Non-empty clusters that join to the UTF-8 bytes of `text` are none exactly when `text`
/// is empty.
proof fn lemma_clusters_empty_iff_text_empty(clusters: Seq<Seq<u8>>, text: Seq<char>)
    requires
        clusters.flatten() == encode_utf8(text),
        forall|i: int| 0 <= i < clusters.len() ==> (#[trigger] clusters[i]).len() > 0,
    ensures
        (clusters.len() == 0) == (text.len() == 0),
{
    vstd::utf8::encode_utf8_decode_utf8(text);
    if clusters.len() > 0 {
        assert(clusters.flatten() == clusters.first() + clusters.drop_first().flatten());
        assert(clusters[0].len() > 0);
        if text.len() == 0 {
            assert(encode_utf8(text) =~= Seq::<u8>::empty());
        }
    } else {
        assert(clusters.flatten() =~= Seq::<u8>::empty());
        assert(decode_utf8(Seq::<u8>::empty()) =~= Seq::<char>::empty());
    }
}

/// The bytes of `a` followed by those of `b`.
pub fn concat_bytes(a: &[u8], b: &[u8]) -> (r: Vec<u8>)
    ensures
        r@ == a@ + b@,
{
    let mut r: Vec<u8> = Vec::new();
    let mut i: usize = 0;
    while i < a.len()
        invariant
            0 <= i <= a@.len(),
            r@ == a@.take(i as int),
        decreases a@.len() - i,
    {
        r.push(a[i]);
        assert(a@.take(i + 1) =~= a@.take(i as int).push(a@[i as int]));
        i = i + 1;
    }
    let mut j: usize = 0;
    while j < b.len()
        invariant
            0 <= j <= b@.len(),
            r@ == a@ + b@.take(j as int),
        decreases b@.len() - j,
    {
        r.push(b[j]);
        assert(b@.take(j + 1) =~= b@.take(j as int).push(b@[j as int]));
        j = j + 1;
    }
    assert(a@.take(a@.len() as int) =~= a@);
    assert(b@.take(b@.len() as int) =~= b@);
    r
}

} // verus!
