//! The round-trip law: decoding the plain encoding of a text gives back
//! exactly that text, for every well-formed tokenizer state whose vocabulary
//! covers the text's characters and the word-boundary marker, and every text
//! free of the reserved marker character.

use vstd::prelude::*;

use crate::decode::decode_spec;
use crate::encode::{
    bpe_fix, bpe_pass, char_ids, encode_plain, encode_tokens, encode_word, lemma_bpe_pass_len,
    lemma_char_ids_covered,
};
use crate::model::{
    lemma_merge_index_from_props, lemma_token_index_props, marker, merge_lookup, merges_wf,
    state_wf, token_index, vocab_has,
};
use crate::segment::{
    good_token, lemma_segment_render, lemma_segment_tokens_chars, lemma_segment_tokens_good,
    plain_chars, render, render_token, segment,
};
use crate::tokenizer::Merge;

verus! {

/// The id names a nonempty token string of plain word characters.
pub open spec fn plain_id(vocab: Seq<Seq<char>>, id: usize) -> bool {
    &&& (id as int) < vocab.len()
    &&& vocab[id as int].len() >= 1
    &&& plain_chars(vocab[id as int])
}

pub open spec fn plain_ids(vocab: Seq<Seq<char>>, ids: Seq<usize>) -> bool {
    forall|k: int| 0 <= k < ids.len() ==> plain_id(vocab, #[trigger] ids[k])
}

/// The id names a nonempty token string whose characters after the first are
/// plain word characters; the first character is unconstrained (it may be
/// the marker, a newline, or an ordinary character).
pub open spec fn head_id_ok(vocab: Seq<Seq<char>>, id: usize) -> bool {
    &&& (id as int) < vocab.len()
    &&& vocab[id as int].len() >= 1
    &&& plain_chars(vocab[id as int].skip(1))
}

/// The string an id sequence spells: the concatenation of the named token
/// strings.
pub open spec fn spell(vocab: Seq<Seq<char>>, ids: Seq<usize>) -> Seq<char>
    decreases ids.len(),
{
    if ids.len() == 0 {
        Seq::empty()
    } else {
        vocab[ids[0] as int] + spell(vocab, ids.drop_first())
    }
}

/// Decoding distributes over concatenation of id sequences, on success.
proof fn lemma_decode_concat(vocab: Seq<Seq<char>>, a: Seq<usize>, b: Seq<usize>)
    requires
        decode_spec(vocab, a) is Ok,
        decode_spec(vocab, b) is Ok,
    ensures
        decode_spec(vocab, a + b) == Ok::<Seq<char>, crate::error::ErrSpec>(
            decode_spec(vocab, a)->Ok_0 + decode_spec(vocab, b)->Ok_0,
        ),
    decreases a.len(),
{
    if a.len() == 0 {
        assert(a + b =~= b);
        assert(Seq::<char>::empty() + decode_spec(vocab, b)->Ok_0 =~= decode_spec(
            vocab,
            b,
        )->Ok_0);
    } else {
        lemma_decode_concat(vocab, a.drop_first(), b);
        assert((a + b)[0] == a[0]);
        assert((a + b).drop_first() =~= a.drop_first() + b);
        assert(render_token(vocab[a[0] as int]) + (decode_spec(vocab, a.drop_first())->Ok_0
            + decode_spec(vocab, b)->Ok_0) =~= (render_token(vocab[a[0] as int]) + decode_spec(
            vocab,
            a.drop_first(),
        )->Ok_0) + decode_spec(vocab, b)->Ok_0);
    }
}

/// A sequence of plain ids decodes to exactly the string it spells.
proof fn lemma_decode_plain(vocab: Seq<Seq<char>>, ids: Seq<usize>)
    requires
        plain_ids(vocab, ids),
    ensures
        decode_spec(vocab, ids) == Ok::<Seq<char>, crate::error::ErrSpec>(spell(vocab, ids)),
    decreases ids.len(),
{
    if ids.len() > 0 {
        assert(plain_id(vocab, ids[0]));
        assert forall|k: int| 0 <= k < ids.drop_first().len() implies plain_id(
            vocab,
            #[trigger] ids.drop_first()[k],
        ) by {
            assert(ids.drop_first()[k] == ids[k + 1]);
        }
        lemma_decode_plain(vocab, ids.drop_first());
        let head = vocab[ids[0] as int];
        assert(head[0] != marker());
        assert(render_token(head) == head);
    }
}

/// A headed sequence (first id arbitrary-headed, rest plain) decodes to the
/// rendering of the string it spells.
proof fn lemma_decode_headed(vocab: Seq<Seq<char>>, ids: Seq<usize>)
    requires
        ids.len() >= 1,
        head_id_ok(vocab, ids[0]),
        plain_ids(vocab, ids.drop_first()),
    ensures
        decode_spec(vocab, ids) == Ok::<Seq<char>, crate::error::ErrSpec>(
            render_token(spell(vocab, ids)),
        ),
{
    let head = vocab[ids[0] as int];
    let rest = ids.drop_first();
    lemma_decode_plain(vocab, rest);
    let s = spell(vocab, ids);
    assert(s == head + spell(vocab, rest));
    assert(s[0] == head[0]);
    assert(s.len() >= 1);
    if head[0] == marker() {
        assert(render_token(head) == seq![' '] + head.skip(1));
        assert(render_token(s) == seq![' '] + s.skip(1));
        assert((seq![' '] + head.skip(1)) + spell(vocab, rest) =~= seq![' '] + s.skip(1));
    } else {
        assert(render_token(head) == head);
        assert(render_token(s) == s);
    }
}

/// One merge pass preserves plainness and the spelled string.
proof fn lemma_pass_plain(vocab: Seq<Seq<char>>, merges: Seq<Merge>, ids: Seq<usize>)
    requires
        merges_wf(vocab, merges),
        plain_ids(vocab, ids),
    ensures
        plain_ids(vocab, bpe_pass(merges, ids)),
        spell(vocab, bpe_pass(merges, ids)) == spell(vocab, ids),
    decreases ids.len(),
{
    if ids.len() < 2 {
    } else {
        assert(plain_id(vocab, ids[0]));
        assert(plain_id(vocab, ids[1]));
        assert forall|k: int| 0 <= k < ids.skip(1).len() implies plain_id(
            vocab,
            #[trigger] ids.skip(1)[k],
        ) by {
            assert(ids.skip(1)[k] == ids[k + 1]);
        }
        assert forall|k: int| 0 <= k < ids.skip(2).len() implies plain_id(
            vocab,
            #[trigger] ids.skip(2)[k],
        ) by {
            assert(ids.skip(2)[k] == ids[k + 2]);
        }
        match merge_lookup(merges, ids[0], ids[1]) {
            Some(nid) => {
                lemma_merge_index_from_props(merges, ids[0], ids[1], 0);
                let l = vocab[ids[0] as int];
                let r = vocab[ids[1] as int];
                let m = vocab[nid as int];
                assert(m == l + r);
                assert(plain_id(vocab, nid)) by {
                    assert forall|i: int| 0 <= i < m.len() implies
                        crate::model::is_word_char(#[trigger] m[i]) && m[i] != marker() by {
                        if i < l.len() {
                            assert(m[i] == l[i]);
                        } else {
                            assert(m[i] == r[i - l.len()]);
                        }
                    }
                }
                lemma_pass_plain(vocab, merges, ids.skip(2));
                let tail = bpe_pass(merges, ids.skip(2));
                assert(bpe_pass(merges, ids) == seq![nid] + tail);
                assert forall|k: int| 0 <= k < (seq![nid] + tail).len() implies plain_id(
                    vocab,
                    #[trigger] (seq![nid] + tail)[k],
                ) by {
                    if k > 0 {
                        assert((seq![nid] + tail)[k] == tail[k - 1]);
                    }
                }
                assert((seq![nid] + tail).drop_first() =~= tail);
                assert(spell(vocab, seq![nid] + tail) == m + spell(vocab, tail));
                assert(ids.drop_first().drop_first() =~= ids.skip(2));
                assert(ids.drop_first()[0] == ids[1]);
                assert(spell(vocab, ids.drop_first()) == r + spell(vocab, ids.skip(2)));
                assert(spell(vocab, ids) == l + (r + spell(vocab, ids.skip(2))));
                assert((l + r) + spell(vocab, ids.skip(2)) =~= l + (r + spell(
                    vocab,
                    ids.skip(2),
                )));
            },
            None => {
                lemma_pass_plain(vocab, merges, ids.skip(1));
                let tail = bpe_pass(merges, ids.skip(1));
                assert(bpe_pass(merges, ids) == seq![ids[0]] + tail);
                assert forall|k: int| 0 <= k < (seq![ids[0]] + tail).len() implies plain_id(
                    vocab,
                    #[trigger] (seq![ids[0]] + tail)[k],
                ) by {
                    if k > 0 {
                        assert((seq![ids[0]] + tail)[k] == tail[k - 1]);
                    }
                }
                assert((seq![ids[0]] + tail).drop_first() =~= tail);
                assert(ids.drop_first() =~= ids.skip(1));
            },
        }
    }
}

/// One merge pass preserves the headed shape and the spelled string.
proof fn lemma_pass_headed(vocab: Seq<Seq<char>>, merges: Seq<Merge>, ids: Seq<usize>)
    requires
        merges_wf(vocab, merges),
        ids.len() >= 1,
        head_id_ok(vocab, ids[0]),
        plain_ids(vocab, ids.drop_first()),
    ensures
        ({
            let p = bpe_pass(merges, ids);
            &&& p.len() >= 1
            &&& head_id_ok(vocab, p[0])
            &&& plain_ids(vocab, p.drop_first())
            &&& spell(vocab, p) == spell(vocab, ids)
        }),
    decreases ids.len(),
{
    if ids.len() < 2 {
        assert(bpe_pass(merges, ids) == ids);
    } else {
        assert(plain_id(vocab, ids.drop_first()[0]));
        assert(ids.drop_first()[0] == ids[1]);
        assert forall|k: int| 0 <= k < ids.skip(2).len() implies plain_id(
            vocab,
            #[trigger] ids.skip(2)[k],
        ) by {
            assert(ids.skip(2)[k] == ids.drop_first()[k + 1]);
        }
        assert forall|k: int| 0 <= k < ids.skip(1).len() implies plain_id(
            vocab,
            #[trigger] ids.skip(1)[k],
        ) by {
            assert(ids.skip(1)[k] == ids.drop_first()[k]);
        }
        match merge_lookup(merges, ids[0], ids[1]) {
            Some(nid) => {
                lemma_merge_index_from_props(merges, ids[0], ids[1], 0);
                let l = vocab[ids[0] as int];
                let r = vocab[ids[1] as int];
                let m = vocab[nid as int];
                assert(m == l + r);
                assert(head_id_ok(vocab, nid)) by {
                    assert forall|i: int| 0 <= i < m.skip(1).len() implies
                        crate::model::is_word_char(#[trigger] m.skip(1)[i]) && m.skip(1)[i]
                        != marker() by {
                        assert(m.skip(1)[i] == m[i + 1]);
                        if i + 1 < l.len() {
                            assert(m[i + 1] == l[i + 1]);
                            assert(l.skip(1)[i] == l[i + 1]);
                        } else {
                            assert(m[i + 1] == r[i + 1 - l.len()]);
                        }
                    }
                }
                lemma_pass_plain(vocab, merges, ids.skip(2));
                let tail = bpe_pass(merges, ids.skip(2));
                let p = bpe_pass(merges, ids);
                assert(p == seq![nid] + tail);
                assert(p[0] == nid);
                assert(p.drop_first() =~= tail);
                assert(spell(vocab, p) == m + spell(vocab, tail));
                assert(ids.drop_first().drop_first() =~= ids.skip(2));
                assert(ids.drop_first()[0] == ids[1]);
                assert(spell(vocab, ids.drop_first()) == r + spell(vocab, ids.skip(2)));
                assert(spell(vocab, ids) == l + (r + spell(vocab, ids.skip(2))));
                assert((l + r) + spell(vocab, ids.skip(2)) =~= l + (r + spell(
                    vocab,
                    ids.skip(2),
                )));
            },
            None => {
                lemma_pass_plain(vocab, merges, ids.skip(1));
                let tail = bpe_pass(merges, ids.skip(1));
                let p = bpe_pass(merges, ids);
                assert(p == seq![ids[0]] + tail);
                assert(p[0] == ids[0]);
                assert(p.drop_first() =~= tail);
                assert(ids.drop_first() =~= ids.skip(1));
            },
        }
    }
}

/// The merge fixed point preserves the headed shape and the spelled string.
proof fn lemma_fix_headed(vocab: Seq<Seq<char>>, merges: Seq<Merge>, ids: Seq<usize>)
    requires
        merges_wf(vocab, merges),
        ids.len() >= 1,
        head_id_ok(vocab, ids[0]),
        plain_ids(vocab, ids.drop_first()),
    ensures
        ({
            let f = bpe_fix(merges, ids);
            &&& f.len() >= 1
            &&& head_id_ok(vocab, f[0])
            &&& plain_ids(vocab, f.drop_first())
            &&& spell(vocab, f) == spell(vocab, ids)
        }),
    decreases ids.len(),
{
    lemma_pass_headed(vocab, merges, ids);
    lemma_bpe_pass_len(merges, ids);
    let p = bpe_pass(merges, ids);
    if p.len() < ids.len() {
        lemma_fix_headed(vocab, merges, p);
    }
}

/// Per-character ids spell the word they came from.
proof fn lemma_char_ids_spell(vocab: Seq<Seq<char>>, w: Seq<char>, ids: Seq<usize>)
    requires
        ids.len() == w.len(),
        forall|k: int| 0 <= k < w.len() ==> vocab[#[trigger] ids[k] as int] == seq![w[k]],
    ensures
        spell(vocab, ids) == w,
    decreases w.len(),
{
    if w.len() == 0 {
        assert(spell(vocab, ids) =~= w);
    } else {
        assert forall|k: int| 0 <= k < w.drop_first().len() implies vocab[#[trigger] ids
            .drop_first()[k] as int] == seq![w.drop_first()[k]] by {
            assert(ids.drop_first()[k] == ids[k + 1]);
            assert(w.drop_first()[k] == w[k + 1]);
        }
        lemma_char_ids_spell(vocab, w.drop_first(), ids.drop_first());
        assert(vocab[ids[0] as int] == seq![w[0]]);
        assert(seq![w[0]] + w.drop_first() =~= w);
    }
}

/// Encoding one good segmentation token succeeds when the vocabulary covers
/// its characters, and its ids decode to the token's rendering.
proof fn lemma_word_roundtrip(vocab: Seq<Seq<char>>, merges: Seq<Merge>, t: Seq<char>)
    requires
        merges_wf(vocab, merges),
        vocab.len() <= usize::MAX,
        t.len() >= 1,
        plain_chars(t.skip(1)),
        forall|i: int| 0 <= i < t.len() ==> vocab_has(vocab, seq![#[trigger] t[i]]),
    ensures
        encode_word(vocab, merges, t) is Ok,
        decode_spec(vocab, encode_word(vocab, merges, t)->Ok_0) == Ok::<
            Seq<char>,
            crate::error::ErrSpec,
        >(render_token(t)),
{
    lemma_token_index_props(vocab, t);
    match token_index(vocab, t) {
        Some(id) => {
            let ids = seq![id as usize];
            assert(encode_word(vocab, merges, t)->Ok_0 == ids);
            assert(vocab[ids[0] as int] == t);
            assert(ids.drop_first() =~= Seq::<usize>::empty());
            assert(decode_spec(vocab, ids.drop_first()) == Ok::<
                Seq<char>,
                crate::error::ErrSpec,
            >(Seq::empty()));
            assert(render_token(t) + Seq::<char>::empty() =~= render_token(t));
        },
        None => {
            lemma_char_ids_covered(vocab, t);
            let ids0 = char_ids(vocab, t)->Ok_0;
            lemma_char_ids_spell(vocab, t, ids0);
            assert(head_id_ok(vocab, ids0[0])) by {
                assert(vocab[ids0[0] as int] == seq![t[0]]);
                assert(seq![t[0]].skip(1) =~= Seq::<char>::empty());
            }
            assert forall|k: int| 0 <= k < ids0.drop_first().len() implies plain_id(
                vocab,
                #[trigger] ids0.drop_first()[k],
            ) by {
                assert(ids0.drop_first()[k] == ids0[k + 1]);
                assert(vocab[ids0[k + 1] as int] == seq![t[k + 1]]);
                assert(t.skip(1)[k] == t[k + 1]);
                assert(seq![t[k + 1]][0] == t[k + 1]);
            }
            lemma_fix_headed(vocab, merges, ids0);
            let f = bpe_fix(merges, ids0);
            lemma_decode_headed(vocab, f);
            assert(encode_word(vocab, merges, t)->Ok_0 == f);
        },
    }
}

/// Encoding a sequence of good, covered tokens succeeds, and the ids decode
/// to the tokens' rendering.
proof fn lemma_tokens_roundtrip(vocab: Seq<Seq<char>>, merges: Seq<Merge>, ts: Seq<Seq<char>>)
    requires
        merges_wf(vocab, merges),
        vocab.len() <= usize::MAX,
        forall|k: int| 0 <= k < ts.len() ==> good_token(#[trigger] ts[k]),
        forall|k: int, i: int|
            0 <= k < ts.len() && 0 <= i < ts[k].len() ==> vocab_has(
                vocab,
                seq![#[trigger] ts[k][i]],
            ),
    ensures
        encode_tokens(vocab, merges, ts) is Ok,
        decode_spec(vocab, encode_tokens(vocab, merges, ts)->Ok_0) == Ok::<
            Seq<char>,
            crate::error::ErrSpec,
        >(render(ts)),
    decreases ts.len(),
{
    if ts.len() == 0 {
        assert(encode_tokens(vocab, merges, ts)->Ok_0 =~= Seq::<usize>::empty());
    } else {
        let t = ts[0];
        assert(good_token(t));
        assert(plain_chars(t.skip(1))) by {
            if t == seq!['\n'] {
                assert(t.skip(1) =~= Seq::<char>::empty());
            } else if t[0] != marker() {
                assert forall|i: int| 0 <= i < t.skip(1).len() implies
                    crate::model::is_word_char(#[trigger] t.skip(1)[i]) && t.skip(1)[i]
                    != marker() by {
                    assert(t.skip(1)[i] == t[i + 1]);
                }
            }
        }
        assert forall|i: int| 0 <= i < t.len() implies vocab_has(
            vocab,
            seq![#[trigger] t[i]],
        ) by {
            assert(ts[0][i] == t[i]);
        }
        lemma_word_roundtrip(vocab, merges, t);
        assert forall|k: int, i: int|
            0 <= k < ts.drop_first().len() && 0 <= i < ts.drop_first()[k].len() implies vocab_has(
            vocab,
            seq![#[trigger] ts.drop_first()[k][i]],
        ) by {
            assert(ts.drop_first()[k] == ts[k + 1]);
        }
        assert forall|k: int| 0 <= k < ts.drop_first().len() implies good_token(
            #[trigger] ts.drop_first()[k],
        ) by {
            assert(ts.drop_first()[k] == ts[k + 1]);
        }
        lemma_tokens_roundtrip(vocab, merges, ts.drop_first());
        let h = encode_word(vocab, merges, t)->Ok_0;
        let rest = encode_tokens(vocab, merges, ts.drop_first())->Ok_0;
        assert(encode_tokens(vocab, merges, ts)->Ok_0 == h + rest);
        lemma_decode_concat(vocab, h, rest);
    }
}

proof fn lemma_vocab_prefix_has(v1: Seq<Seq<char>>, v2: Seq<Seq<char>>, w: Seq<char>)
    requires
        v2.len() >= v1.len(),
        forall|k: int| 0 <= k < v1.len() ==> #[trigger] v2[k] == v1[k],
        vocab_has(v1, w),
    ensures
        vocab_has(v2, w),
{
    let i = choose|i: int| 0 <= i < v1.len() && #[trigger] v1[i] == w;
    assert(v2[i] == w);
}

/// Training yields a vocabulary that covers the word-boundary marker, every
/// character of the preprocessed corpus, and every codepoint below 256, and
/// a well-formed state — so the round-trip law applies to any marker-free
/// text written in those characters.
pub proof fn lemma_trained_vocab_covers(text: Seq<char>, specials: Seq<Seq<char>>, target: int)
    requires
        crate::tokenizer::base_vocab(crate::tokenizer::preprocess(text), specials).len()
            <= usize::MAX,
        target <= usize::MAX,
    ensures
        ({
            let pre = crate::tokenizer::preprocess(text);
            let base = crate::tokenizer::base_vocab(pre, specials);
            &&& char_ids(base, pre) is Ok
            &&& {
                let o = crate::tokenizer::train_loop(
                    base,
                    Seq::empty(),
                    char_ids(base, pre)->Ok_0,
                    target,
                );
                &&& state_wf(o.0, o.1)
                &&& vocab_has(o.0, seq![marker()])
                &&& forall|i: int| 0 <= i < pre.len() ==> vocab_has(o.0, seq![#[trigger] pre[i]])
                &&& forall|c: char| (c as u32) < 256 ==> vocab_has(o.0, seq![c])
            }
        }),
{
    let pre = crate::tokenizer::preprocess(text);
    let b0 = crate::tokenizer::base256();
    let b1 = crate::tokenizer::extend_chars(b0, pre);
    let b2 = crate::tokenizer::extend_chars(b1, seq![marker()]);
    let base = crate::tokenizer::base_vocab(pre, specials);
    crate::tokenizer::lemma_extend_chars_props(b0, pre);
    crate::tokenizer::lemma_extend_chars_props(b1, seq![marker()]);
    crate::tokenizer::lemma_extend_tokens_props(b2, specials);
    assert(vocab_has(b2, seq![marker()])) by {
        assert(seq![marker()][0] == marker());
    }
    assert forall|c: char| (c as u32) < 256 implies vocab_has(base, seq![c]) by {
        let i = (c as u32) as int;
        assert(b0[i] == seq![(i as u8) as char]);
        vstd::utf8::char_u32_cast(c, c as u32);
        let c2 = (i as u8) as char;
        assert(c2 as u32 == c as u32);
        vstd::utf8::char_u32_cast(c2, c2 as u32);
        assert(b0[i] == seq![c]);
        assert(vocab_has(b0, seq![c]));
        lemma_vocab_prefix_has(b0, b1, seq![c]);
        lemma_vocab_prefix_has(b1, b2, seq![c]);
        assert(vocab_has(b2, seq![c]));
    }
    assert forall|i: int| 0 <= i < pre.len() implies vocab_has(base, seq![#[trigger] pre[i]]) by {
        assert(vocab_has(b1, seq![pre[i]]));
        lemma_vocab_prefix_has(b1, b2, seq![pre[i]]);
    }
    lemma_char_ids_covered(base, pre);
    let ids0 = char_ids(base, pre)->Ok_0;
    crate::tokenizer::lemma_train_loop_props(base, Seq::empty(), ids0, target);
    let o = crate::tokenizer::train_loop(base, Seq::empty(), ids0, target);
    assert forall|i: int| 0 <= i < pre.len() implies vocab_has(o.0, seq![#[trigger] pre[i]]) by {
        lemma_vocab_prefix_has(base, o.0, seq![pre[i]]);
    }
    assert forall|c: char| (c as u32) < 256 implies vocab_has(o.0, seq![c]) by {
        lemma_vocab_prefix_has(base, o.0, seq![c]);
    }
    lemma_vocab_prefix_has(base, o.0, seq![marker()]);
}

/// Round trip: for every well-formed tokenizer state whose vocabulary covers
/// each character of `text` and the word-boundary marker, and every `text`
/// free of the reserved marker character, plain encoding succeeds and
/// decoding its output returns exactly `text`.
pub proof fn lemma_encode_decode_roundtrip(
    vocab: Seq<Seq<char>>,
    merges: Seq<Merge>,
    text: Seq<char>,
)
    requires
        state_wf(vocab, merges),
        vocab.len() <= usize::MAX,
        vocab_has(vocab, seq![marker()]),
        forall|i: int| 0 <= i < text.len() ==> vocab_has(vocab, seq![#[trigger] text[i]]),
        forall|i: int| 0 <= i < text.len() ==> #[trigger] text[i] != marker(),
    ensures
        encode_plain(vocab, merges, text) is Ok,
        decode_spec(vocab, encode_plain(vocab, merges, text)->Ok_0) == Ok::<
            Seq<char>,
            crate::error::ErrSpec,
        >(text),
{
    lemma_segment_tokens_good(text);
    lemma_segment_tokens_chars(text);
    let ts = segment(text);
    assert forall|k: int, i: int| 0 <= k < ts.len() && 0 <= i < ts[k].len() implies vocab_has(
        vocab,
        seq![#[trigger] ts[k][i]],
    ) by {
        if ts[k][i] != marker() {
            let j = choose|j: int| 0 <= j < text.len() && text[j] == ts[k][i];
            assert(vocab_has(vocab, seq![text[j]]));
        }
    }
    lemma_tokens_roundtrip(vocab, merges, ts);
    lemma_segment_render(text);
}

} // verus!
