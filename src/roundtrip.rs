use vstd::prelude::*;

use crate::tokenizer::{merged, Tokenizer, BOS, BYTE_TOKEN_OFFSET, SPACE};

verus! {

/// `x` without its first byte when that byte is a space.
pub open spec fn strip_space(x: Seq<u8>) -> Seq<u8> {
    if x.len() > 0 && x[0] == SPACE {
        x.drop_first()
    } else {
        x
    }
}

impl Tokenizer {
    /// The pieces of `t`, joined.
    pub open spec fn concat_pieces(self, t: Seq<u32>) -> Seq<u8>
        decreases t.len(),
    {
        if t.len() == 0 {
            Seq::empty()
        } else {
            self.concat_pieces(t.drop_last()) + self.piece(t.last())
        }
    }

    /// What a reader shows of `t`: each token from the second on, decoded after the one
    /// before it, joined.
    pub open spec fn decoded_text(self, t: Seq<u32>) -> Seq<u8>
        decreases t.len(),
    {
        if t.len() < 2 {
            Seq::empty()
        } else {
            self.decoded_text(t.drop_last()) + self.decoded(t.last(), t[t.len() - 2])
        }
    }

    /// Tokens from index 1 on have non-empty pieces.
    pub open spec fn tail_pieces_non_empty(self, t: Seq<u32>) -> bool {
        forall|i: int| 1 <= i < t.len() ==> #[trigger] self.piece(t[i]).len() > 0
    }

    /// Each cluster is non-empty, and is a piece of the vocabulary or is made of bytes
    /// whose byte tokens are those single bytes.
    pub open spec fn clusters_representable(self, clusters: Seq<Seq<u8>>) -> bool {
        forall|i: int|
            0 <= i < clusters.len() ==> {
                &&& (#[trigger] clusters[i]).len() > 0
                &&& (self.lookup(clusters[i]) is Some || forall|j: int|
                    0 <= j < clusters[i].len() ==> self.piece(
                        (clusters[i][j] + BYTE_TOKEN_OFFSET) as u32,
                    ) == seq![clusters[i][j]])
            }
    }
}

proof fn lemma_concat_pieces_add(tok: Tokenizer, a: Seq<u32>, b: Seq<u32>)
    ensures
        tok.concat_pieces(a + b) == tok.concat_pieces(a) + tok.concat_pieces(b),
    decreases b.len(),
{
    if b.len() == 0 {
        assert(a + b =~= a);
        assert(tok.concat_pieces(a) + tok.concat_pieces(b) =~= tok.concat_pieces(a));
    } else {
        lemma_concat_pieces_add(tok, a, b.drop_last());
        assert((a + b).drop_last() =~= a + b.drop_last());
        assert((a + b).last() == b.last());
        assert(tok.concat_pieces(a + b) =~= tok.concat_pieces(a) + tok.concat_pieces(b));
    }
}

proof fn lemma_concat_pieces_one(tok: Tokenizer, x: u32)
    ensures
        tok.concat_pieces(seq![x]) == tok.piece(x),
{
    assert(seq![x].drop_last() =~= Seq::<u32>::empty());
    assert(tok.concat_pieces(Seq::<u32>::empty()) =~= Seq::<u8>::empty());
    assert(seq![x].last() == x);
    assert(tok.concat_pieces(seq![x]) =~= tok.piece(x));
}

/// A merge keeps the joined pieces and the non-empty pieces past the first token.
proof fn lemma_merge_keeps_text(tok: Tokenizer, t: Seq<u32>, i: int, id: u32)
    requires
        tok.wf(),
        0 <= i < t.len() - 1,
        tok.merge_candidate(t, i) == Some(id),
        tok.tail_pieces_non_empty(t),
    ensures
        tok.concat_pieces(merged(t, i, id)) == tok.concat_pieces(t),
        tok.tail_pieces_non_empty(merged(t, i, id)),
{
    let pair = tok.piece(t[i]) + tok.piece(t[i + 1]);
    tok.pieces().index_of_first_ensures(pair);
    assert(tok.piece(id) == pair);
    let a = t.take(i);
    let c = t.skip(i + 2);
    assert(t =~= a + seq![t[i], t[i + 1]] + c);
    assert(seq![t[i], t[i + 1]] =~= seq![t[i]] + seq![t[i + 1]]);
    lemma_concat_pieces_add(tok, a + seq![t[i], t[i + 1]], c);
    lemma_concat_pieces_add(tok, a, seq![t[i], t[i + 1]]);
    lemma_concat_pieces_add(tok, seq![t[i]], seq![t[i + 1]]);
    lemma_concat_pieces_one(tok, t[i]);
    lemma_concat_pieces_one(tok, t[i + 1]);
    assert(merged(t, i, id) =~= a + seq![id] + c);
    lemma_concat_pieces_add(tok, a + seq![id], c);
    lemma_concat_pieces_add(tok, a, seq![id]);
    lemma_concat_pieces_one(tok, id);
    let m = merged(t, i, id);
    assert forall|j: int| 1 <= j < m.len() implies #[trigger] tok.piece(m[j]).len() > 0 by {
        if j < i {
            assert(m[j] == t[j]);
        } else if j == i {
            if i == 0 {
                assert(tok.piece(t[1]).len() > 0);
            } else {
                assert(tok.piece(t[i]).len() > 0);
            }
        } else {
            assert(m[j] == t[j + 1]);
        }
    }
}

proof fn lemma_best_merge_in_range(tok: Tokenizer, t: Seq<u32>, k: nat)
    ensures
        tok.best_merge(t, k) matches Some(b) ==> 0 <= b.0 < k && tok.merge_candidate(t, b.0)
            == Some(b.1),
    decreases k,
{
    if k > 0 {
        lemma_best_merge_in_range(tok, t, (k - 1) as nat);
    }
}

/// The merges keep the joined pieces.
pub proof fn lemma_bpe_keeps_text(tok: Tokenizer, t: Seq<u32>)
    requires
        tok.wf(),
        tok.tail_pieces_non_empty(t),
    ensures
        tok.concat_pieces(tok.bpe(t)) == tok.concat_pieces(t),
        tok.tail_pieces_non_empty(tok.bpe(t)),
    decreases t.len(),
{
    if t.len() >= 2 {
        lemma_best_merge_in_range(tok, t, (t.len() - 1) as nat);
        match tok.best_merge(t, (t.len() - 1) as nat) {
            None => {},
            Some(b) => {
                lemma_merge_keeps_text(tok, t, b.0, b.1);
                lemma_bpe_keeps_text(tok, merged(t, b.0, b.1));
            },
        }
    }
}

proof fn lemma_byte_tokens_text(tok: Tokenizer, c: Seq<u8>)
    requires
        forall|j: int| 0 <= j < c.len() ==> tok.piece((c[j] + BYTE_TOKEN_OFFSET) as u32) == seq![c[j]],
    ensures
        tok.concat_pieces(c.map_values(|b: u8| (b + BYTE_TOKEN_OFFSET) as u32)) == c,
    decreases c.len(),
{
    let f = |b: u8| (b + BYTE_TOKEN_OFFSET) as u32;
    if c.len() == 0 {
        assert(c.map_values(f) =~= Seq::<u32>::empty());
        assert(tok.concat_pieces(c.map_values(f)) =~= c);
    } else {
        lemma_byte_tokens_text(tok, c.drop_last());
        assert(c.map_values(f).drop_last() =~= c.drop_last().map_values(f));
        assert(tok.piece(c.map_values(f).last()) == seq![c.last()]);
        assert(tok.concat_pieces(c.map_values(f)) =~= c);
    }
}

proof fn lemma_initial_tokens_text(tok: Tokenizer, clusters: Seq<Seq<u8>>)
    requires
        tok.wf(),
        tok.clusters_representable(clusters),
    ensures
        tok.concat_pieces(tok.initial_tokens(clusters)) == clusters.flatten(),
        forall|i: int|
            0 <= i < tok.initial_tokens(clusters).len() ==> #[trigger] tok.piece(
                tok.initial_tokens(clusters)[i],
            ).len() > 0,
    decreases clusters.len(),
{
    if clusters.len() == 0 {
        assert(tok.concat_pieces(Seq::<u32>::empty()) =~= clusters.flatten());
    } else {
        let rest = clusters.drop_last();
        let c = clusters.last();
        assert(tok.clusters_representable(rest)) by {
            assert forall|i: int| 0 <= i < rest.len() implies #[trigger] rest[i] == clusters[i] by {}
        }
        lemma_initial_tokens_text(tok, rest);
        assert(c == clusters[clusters.len() - 1]);
        lemma_concat_pieces_add(tok, tok.initial_tokens(rest), tok.cluster_tokens(c));
        rest.lemma_flatten_push(c);
        assert(rest.push(c) =~= clusters);
        tok.pieces().index_of_first_ensures(c);
        match tok.lookup(c) {
            Some(id) => {
                lemma_concat_pieces_one(tok, id);
            },
            None => {
                lemma_byte_tokens_text(tok, c);
            },
        }
        let a = tok.initial_tokens(rest);
        let b = tok.cluster_tokens(c);
        assert forall|i: int| 0 <= i < (a + b).len() implies #[trigger] tok.piece((a + b)[i]).len() > 0 by {
            if i < a.len() {
                assert((a + b)[i] == a[i]);
            } else {
                assert((a + b)[i] == b[i - a.len()]);
                if tok.lookup(c) is None {
                    let j = i - a.len();
                    assert(b[j] == (c[j] + BYTE_TOKEN_OFFSET) as u32);
                }
            }
        }
    }
}

proof fn lemma_decoded_text(tok: Tokenizer, t: Seq<u32>)
    requires
        t.len() >= 2,
        t[0] == BOS,
        tok.tail_pieces_non_empty(t),
        forall|i: int|
            2 <= i < t.len() && t[i - 1] == BOS ==> !(#[trigger] tok.piece(t[i]).len() > 0 && tok.piece(
                t[i],
            )[0] == SPACE),
    ensures
        tok.decoded_text(t) == strip_space(tok.concat_pieces(t.skip(1))),
    decreases t.len(),
{
    let n = t.len();
    if n == 2 {
        assert(t.skip(1) =~= seq![t[1]]);
        lemma_concat_pieces_one(tok, t[1]);
        assert(t.drop_last().len() == 1);
        assert(tok.decoded_text(t.drop_last()) =~= Seq::<u8>::empty());
        assert(t.last() == t[1]);
        assert(tok.decoded_text(t) =~= tok.decoded(t[1], t[0]));
    } else {
        let s = t.drop_last();
        assert forall|i: int| 1 <= i < s.len() implies #[trigger] tok.piece(s[i]).len() > 0 by {
            assert(s[i] == t[i]);
        }
        assert forall|i: int|
            2 <= i < s.len() && s[i - 1] == BOS implies !(#[trigger] tok.piece(s[i]).len() > 0
            && tok.piece(s[i])[0] == SPACE) by {
            assert(s[i] == t[i] && s[i - 1] == t[i - 1]);
        }
        lemma_decoded_text(tok, s);
        assert(t.skip(1) =~= s.skip(1) + seq![t.last()]);
        lemma_concat_pieces_add(tok, s.skip(1), seq![t.last()]);
        lemma_concat_pieces_one(tok, t.last());
        assert(tok.decoded(t.last(), t[n - 2]) == tok.piece(t.last())) by {
            assert(tok.piece(t[n - 1]).len() > 0);
        }
        let x = tok.concat_pieces(s.skip(1));
        assert(x == tok.concat_pieces(s.skip(1).drop_last()) + tok.piece(s.skip(1).last()));
        assert(tok.piece(s[n - 2]).len() > 0);
        assert(x.len() > 0);
        assert(strip_space(x) + tok.piece(t.last()) =~= strip_space(x + tok.piece(t.last())));
    }
}

/// Decoding an encoding gives the text back: for text whose clusters are pieces or bytes
/// with single-byte tokens, encoding with BOS and then decoding each token after the one
/// before it (which drops the dummy-prefix space after BOS) yields the text's bytes,
/// provided BOS stays the first token and is not formed again by a merge in front of a
/// piece that starts with a space. For `encode(text, true, false)` the clusters are
/// `grapheme_clusters(text@)`, which `encode` guarantees join to `encode_utf8(text@)`:
/// the decoded bytes are then the text's own.
pub proof fn lemma_decode_round_trip(tok: Tokenizer, clusters: Seq<Seq<u8>>)
    requires
        tok.wf(),
        clusters.len() > 0,
        tok.can_encode(clusters),
        tok.clusters_representable(clusters),
        tok.encoding(clusters, true, false)[0] == BOS,
        forall|i: int|
            2 <= i < tok.encoding(clusters, true, false).len() && tok.encoding(clusters, true, false)[i
                - 1] == BOS ==> !(#[trigger] tok.piece(tok.encoding(clusters, true, false)[i]).len()
                > 0 && tok.piece(tok.encoding(clusters, true, false)[i])[0] == SPACE),
    ensures
        tok.decoded_text(tok.encoding(clusters, true, false)) == clusters.flatten(),
{
    let space = tok.lookup(seq![SPACE]).unwrap();
    tok.pieces().index_of_first_ensures(seq![SPACE]);
    let init = tok.initial_tokens(clusters);
    let u = tok.unmerged(clusters, true);
    assert(u =~= seq![BOS] + (seq![space] + init));
    lemma_initial_tokens_text(tok, clusters);
    lemma_concat_pieces_add(tok, seq![space], init);
    lemma_concat_pieces_one(tok, space);
    lemma_concat_pieces_add(tok, seq![BOS], seq![space] + init);
    lemma_concat_pieces_one(tok, BOS);
    assert(tok.tail_pieces_non_empty(u)) by {
        assert forall|i: int| 1 <= i < u.len() implies #[trigger] tok.piece(u[i]).len() > 0 by {
            if i >= 2 {
                assert(u[i] == init[i - 2]);
            }
        }
    }
    lemma_bpe_keeps_text(tok, u);
    let t = tok.bpe(u);
    assert(tok.encoding(clusters, true, false) =~= t);
    let flat = clusters.flatten();
    assert(tok.concat_pieces(t) == tok.piece(BOS) + (seq![SPACE] + flat));
    assert(t.len() >= 2) by {
        if t.len() < 2 {
            assert(t.len() == 1);
            assert(t =~= seq![t[0]]);
            lemma_concat_pieces_one(tok, t[0]);
            assert(clusters[0].len() > 0);
            assert(flat.len() > 0) by {
                assert(flat == clusters.first() + clusters.drop_first().flatten());
            }
        }
    }
    assert(t =~= seq![t[0]] + t.skip(1));
    lemma_concat_pieces_add(tok, seq![t[0]], t.skip(1));
    lemma_concat_pieces_one(tok, t[0]);
    let rest = tok.concat_pieces(t.skip(1));
    assert(rest =~= seq![SPACE] + flat) by {
        let whole = tok.piece(BOS) + (seq![SPACE] + flat);
        assert(whole == tok.piece(BOS) + rest);
        assert(rest =~= whole.skip(tok.piece(BOS).len() as int));
        assert(seq![SPACE] + flat =~= whole.skip(tok.piece(BOS).len() as int));
    }
    lemma_decoded_text(tok, t);
    assert(strip_space(rest) =~= flat);
}

} // verus!
