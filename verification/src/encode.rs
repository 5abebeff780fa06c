//! Encoding: text to token ids.
//!
//! A segment of plain text is split into tokens (see [`crate::segment`]);
//! each token is either found verbatim in the vocabulary or decomposed into
//! per-character ids and merged to a fixed point: scan left to right merging
//! any adjacent pair the merge table knows, restarting until a full pass
//! changes nothing.

use vstd::prelude::*;

use crate::error::{ErrSpec, TokenizerError};
use crate::model::{chars_to_string, merge_index, merge_lookup, str_chars, token_index};
use crate::segment::{segment, segment_text};
use crate::tokenizer::{BPETokenizer, Merge};

verus! {

/// One left-to-right merge pass: each adjacent pair the table knows is
/// rewritten and scanning resumes after it.
pub open spec fn bpe_pass(merges: Seq<Merge>, ids: Seq<usize>) -> Seq<usize>
    decreases ids.len(),
{
    if ids.len() < 2 {
        ids
    } else {
        match merge_lookup(merges, ids[0], ids[1]) {
            Some(nid) => seq![nid] + bpe_pass(merges, ids.skip(2)),
            None => seq![ids[0]] + bpe_pass(merges, ids.skip(1)),
        }
    }
}

/// A pass never grows the sequence, and a pass that changes nothing at all
/// returns it unchanged.
pub proof fn lemma_bpe_pass_len(merges: Seq<Merge>, ids: Seq<usize>)
    ensures
        bpe_pass(merges, ids).len() <= ids.len(),
        bpe_pass(merges, ids).len() == ids.len() ==> bpe_pass(merges, ids) == ids,
    decreases ids.len(),
{
    if ids.len() < 2 {
    } else {
        match merge_lookup(merges, ids[0], ids[1]) {
            Some(nid) => {
                lemma_bpe_pass_len(merges, ids.skip(2));
            },
            None => {
                lemma_bpe_pass_len(merges, ids.skip(1));
                if bpe_pass(merges, ids).len() == ids.len() {
                    assert(bpe_pass(merges, ids.skip(1)) == ids.skip(1));
                    assert(bpe_pass(merges, ids) =~= ids);
                }
            },
        }
    }
}

/// The fixed point of [`bpe_pass`]: passes are applied until one changes
/// nothing.
pub open spec fn bpe_fix(merges: Seq<Merge>, ids: Seq<usize>) -> Seq<usize>
    decreases ids.len(),
{
    let p = bpe_pass(merges, ids);
    if p.len() < ids.len() {
        bpe_fix(merges, p)
    } else {
        ids
    }
}

/// The per-character ids of a token string, or the first character that the
/// vocabulary does not hold.
pub open spec fn char_ids(vocab: Seq<Seq<char>>, w: Seq<char>) -> Result<Seq<usize>, ErrSpec>
    decreases w.len(),
{
    if w.len() == 0 {
        Ok(Seq::empty())
    } else {
        match token_index(vocab, seq![w[0]]) {
            None => Err(ErrSpec::CharacterNotFound(seq![w[0]])),
            Some(id) => match char_ids(vocab, w.drop_first()) {
                Ok(rest) => Ok(seq![id as usize] + rest),
                Err(e) => Err(e),
            },
        }
    }
}

/// When every character of `w` is a one-character vocabulary entry, the
/// per-character decomposition succeeds, with one in-range id per character,
/// each spelling its character.
pub proof fn lemma_char_ids_covered(vocab: Seq<Seq<char>>, w: Seq<char>)
    requires
        vocab.len() <= usize::MAX,
        forall|i: int| 0 <= i < w.len() ==> crate::model::vocab_has(vocab, seq![#[trigger] w[i]]),
    ensures
        char_ids(vocab, w) is Ok,
        char_ids(vocab, w)->Ok_0.len() == w.len(),
        forall|k: int|
            0 <= k < w.len() ==> (#[trigger] char_ids(vocab, w)->Ok_0[k]) < vocab.len(),
        forall|k: int|
            0 <= k < w.len() ==> vocab[char_ids(vocab, w)->Ok_0[k] as int] == seq![w[k]],
    decreases w.len(),
{
    if w.len() > 0 {
        crate::model::lemma_token_index_props(vocab, seq![w[0]]);
        let id = token_index(vocab, seq![w[0]])->Some_0;
        assert forall|i: int| 0 <= i < w.drop_first().len() implies crate::model::vocab_has(
            vocab,
            seq![#[trigger] w.drop_first()[i]],
        ) by {
            assert(w.drop_first()[i] == w[i + 1]);
        }
        lemma_char_ids_covered(vocab, w.drop_first());
        let rest = char_ids(vocab, w.drop_first())->Ok_0;
        let ids = char_ids(vocab, w)->Ok_0;
        assert(ids == seq![id as usize] + rest);
        assert forall|k: int| 0 <= k < w.len() implies (#[trigger] ids[k]) < vocab.len()
            && vocab[ids[k] as int] == seq![w[k]] by {
            if k == 0 {
                assert(ids[0] == id as usize);
            } else {
                assert(ids[k] == rest[k - 1]);
                assert(w.drop_first()[k - 1] == w[k]);
            }
        }
    }
}

/// What `tokenize_with_bpe` returns: per-character ids merged to the fixed
/// point.
pub open spec fn bpe_word(vocab: Seq<Seq<char>>, merges: Seq<Merge>, w: Seq<char>) -> Result<
    Seq<usize>,
    ErrSpec,
> {
    match char_ids(vocab, w) {
        Ok(ids) => Ok(bpe_fix(merges, ids)),
        Err(e) => Err(e),
    }
}

/// What encoding one segmentation token returns: its verbatim id when the
/// vocabulary holds the whole token, else its merged character decomposition.
pub open spec fn encode_word(vocab: Seq<Seq<char>>, merges: Seq<Merge>, w: Seq<char>) -> Result<
    Seq<usize>,
    ErrSpec,
> {
    match token_index(vocab, w) {
        Some(id) => Ok(seq![id as usize]),
        None => bpe_word(vocab, merges, w),
    }
}

/// What encoding a token sequence returns: the tokens' id lists in order,
/// or the first failure.
pub open spec fn encode_tokens(vocab: Seq<Seq<char>>, merges: Seq<Merge>, ts: Seq<Seq<char>>)
    -> Result<Seq<usize>, ErrSpec>
    decreases ts.len(),
{
    if ts.len() == 0 {
        Ok(Seq::empty())
    } else {
        match encode_word(vocab, merges, ts[0]) {
            Err(e) => Err(e),
            Ok(h) => match encode_tokens(vocab, merges, ts.drop_first()) {
                Ok(rest) => Ok(h + rest),
                Err(e) => Err(e),
            },
        }
    }
}

/// What encoding plain text (no special-token interception) returns.
pub open spec fn encode_plain(vocab: Seq<Seq<char>>, merges: Seq<Merge>, text: Seq<char>)
    -> Result<Seq<usize>, ErrSpec> {
    encode_tokens(vocab, merges, segment(text))
}

/// An executable result agrees with a specification-level result.
pub open spec fn ids_match(
    r: Result<Vec<usize>, TokenizerError>,
    s: Result<Seq<usize>, ErrSpec>,
) -> bool {
    match s {
        Ok(ids) => r matches Ok(v) && v@ == ids,
        Err(e) => r matches Err(x) && x@ == e,
    }
}

/// `r` with `pre` prepended to its success value.
pub open spec fn ok_prepend_ids(pre: Seq<usize>, r: Result<Seq<usize>, ErrSpec>) -> Result<
    Seq<usize>,
    ErrSpec,
> {
    match r {
        Ok(s) => Ok(pre + s),
        Err(e) => Err(e),
    }
}

impl BPETokenizer {
    /// What the merge table rewrites the pair `(l, r)` to, if anything.
    fn find_merge(&self, l: usize, r: usize) -> (res: Option<usize>)
        ensures
            res == merge_lookup(self.merges_model(), l, r),
    {
        let ghost mm = self.merges_model();
        let n = self.merges.len();
        let mut i: usize = 0;
        while i < n
            invariant
                i <= n,
                n == mm.len(),
                mm == self.merges_model(),
                crate::model::merge_index_from(mm, l, r, 0) == crate::model::merge_index_from(
                    mm,
                    l,
                    r,
                    i as int,
                ),
            decreases n - i,
        {
            let m = self.merges[i];
            if m.left == l && m.right == r {
                return Some(m.new_id);
            }
            i = i + 1;
        }
        None
    }

    /// One left-to-right merge pass over `ids`.
    fn bpe_pass_exec(&self, ids: &Vec<usize>) -> (r: Vec<usize>)
        ensures
            r@ == bpe_pass(self.merges_model(), ids@),
    {
        let ghost mm = self.merges_model();
        let n = ids.len();
        let mut out: Vec<usize> = Vec::new();
        let mut i: usize = 0;
        proof {
            assert(ids@.skip(0) =~= ids@);
            assert(Seq::<usize>::empty() + bpe_pass(mm, ids@) =~= bpe_pass(mm, ids@));
        }
        while i < n
            invariant
                i <= n,
                n == ids@.len(),
                mm == self.merges_model(),
                out@ + bpe_pass(mm, ids@.skip(i as int)) == bpe_pass(mm, ids@),
            decreases n - i,
        {
            let ghost pre = out@;
            let ghost suf = ids@.skip(i as int);
            proof {
                assert(suf[0] == ids@[i as int]);
                if i + 1 < n {
                    assert(suf[1] == ids@[i + 1]);
                }
            }
            let mut stepped = false;
            if i + 1 < n {
                if let Some(nid) = self.find_merge(ids[i], ids[i + 1]) {
                    out.push(nid);
                    proof {
                        assert(suf.skip(2) =~= ids@.skip(i + 2));
                        assert(pre.push(nid) + bpe_pass(mm, ids@.skip(i + 2)) =~= pre + (
                        seq![nid] + bpe_pass(mm, suf.skip(2))));
                    }
                    i = i + 2;
                    stepped = true;
                }
            }
            if !stepped {
                out.push(ids[i]);
                proof {
                    assert(suf.skip(1) =~= ids@.skip(i + 1));
                    assert(pre.push(ids@[i as int]) + bpe_pass(mm, ids@.skip(i + 1)) =~= pre + (
                    seq![ids@[i as int]] + bpe_pass(mm, suf.skip(1))));
                }
                i = i + 1;
            }
        }
        proof {
            assert(ids@.skip(n as int) =~= Seq::<usize>::empty());
            assert(out@ + Seq::<usize>::empty() =~= out@);
        }
        out
    }

    /// Decomposes a single token into per-character ids and applies merges
    /// to the fixed point; fails with `CharacterNotFound` on the first
    /// character the vocabulary does not hold.
    pub fn tokenize_with_bpe(&self, token: &Vec<char>) -> (r: Result<Vec<usize>, TokenizerError>)
        ensures
            ids_match(r, bpe_word(self.vocab_model(), self.merges_model(), token@)),
    {
        let ghost vm = self.vocab_model();
        let ghost mm = self.merges_model();
        let n = token.len();
        let mut ids: Vec<usize> = Vec::new();
        let mut i: usize = 0;
        proof {
            assert(token@.skip(0) =~= token@);
            if char_ids(vm, token@) is Ok {
                assert(Seq::<usize>::empty() + char_ids(vm, token@)->Ok_0 =~= char_ids(
                    vm,
                    token@,
                )->Ok_0);
            }
        }
        while i < n
            invariant
                i <= n,
                n == token@.len(),
                vm == self.vocab_model(),
                mm == self.merges_model(),
                char_ids(vm, token@) == ok_prepend_ids(
                    ids@,
                    char_ids(vm, token@.skip(i as int)),
                ),
            decreases n - i,
        {
            let ghost suf = token@.skip(i as int);
            proof {
                assert(suf[0] == token@[i as int]);
                assert(suf.drop_first() =~= token@.skip(i + 1));
            }
            let c = token[i];
            match self.find_char(c) {
                None => {
                    let cs = vec![c];
                    proof {
                        assert(cs@ =~= seq![c]);
                        assert(char_ids(vm, suf) == Err::<Seq<usize>, ErrSpec>(
                            ErrSpec::CharacterNotFound(seq![c]),
                        ));
                    }
                    return Err(TokenizerError::CharacterNotFound(cs));
                },
                Some(id) => {
                    let ghost pre = ids@;
                    ids.push(id);
                    proof {
                        let rest = char_ids(vm, token@.skip(i + 1));
                        if rest is Ok {
                            assert(pre + (seq![id] + rest->Ok_0) =~= (pre + seq![id])
                                + rest->Ok_0);
                            assert(pre.push(id) =~= pre + seq![id]);
                        }
                    }
                    i = i + 1;
                },
            }
        }
        proof {
            assert(token@.skip(n as int) =~= Seq::<char>::empty());
            assert(ids@ + Seq::<usize>::empty() =~= ids@);
            assert(char_ids(vm, token@) == Ok::<Seq<usize>, ErrSpec>(ids@));
        }
        let mut cur = ids;
        loop
            invariant
                vm == self.vocab_model(),
                mm == self.merges_model(),
                bpe_fix(mm, cur@) == bpe_fix(mm, char_ids(vm, token@)->Ok_0),
                char_ids(vm, token@) is Ok,
            decreases cur@.len(),
        {
            let next = self.bpe_pass_exec(&cur);
            proof {
                lemma_bpe_pass_len(mm, cur@);
            }
            if next.len() < cur.len() {
                cur = next;
            } else {
                return Ok(cur);
            }
        }
    }

    /// The segmentation tokens of `text`, as character vectors.
    pub fn tokenize_text(&self, text: &str) -> (r: Vec<Vec<char>>)
        ensures
            r.deep_view() == segment(text@),
    {
        let tc = str_chars(text);
        segment_text(&tc)
    }

    /// Encodes a list of segmentation tokens in order.
    fn encode_tokens_exec(&self, toks: &Vec<Vec<char>>) -> (r: Result<Vec<usize>, TokenizerError>)
        ensures
            ids_match(r, encode_tokens(self.vocab_model(), self.merges_model(), toks.deep_view())),
    {
        let ghost vm = self.vocab_model();
        let ghost mm = self.merges_model();
        let ghost ts = toks.deep_view();
        let n = toks.len();
        let mut out: Vec<usize> = Vec::new();
        let mut i: usize = 0;
        proof {
            assert(ts.skip(0) =~= ts);
            if encode_tokens(vm, mm, ts) is Ok {
                assert(Seq::<usize>::empty() + encode_tokens(vm, mm, ts)->Ok_0 =~= encode_tokens(
                    vm,
                    mm,
                    ts,
                )->Ok_0);
            }
        }
        while i < n
            invariant
                i <= n,
                n == toks@.len(),
                vm == self.vocab_model(),
                mm == self.merges_model(),
                ts == toks.deep_view(),
                ts.len() == n,
                encode_tokens(vm, mm, ts) == ok_prepend_ids(
                    out@,
                    encode_tokens(vm, mm, ts.skip(i as int)),
                ),
            decreases n - i,
        {
            let ghost suf = ts.skip(i as int);
            proof {
                assert(suf[0] == ts[i as int]);
                assert(suf.drop_first() =~= ts.skip(i + 1));
                assert(ts[i as int] == toks@[i as int]@);
            }
            let tok = &toks[i];
            let ghost pre = out@;
            let piece: Vec<usize> = match self.find_token(tok) {
                Some(id) => {
                    proof {
                        crate::model::lemma_token_index_props(vm, tok@);
                    }
                    let mut p: Vec<usize> = Vec::new();
                    p.push(id);
                    proof {
                        assert(p@ =~= seq![id]);
                    }
                    p
                },
                None => {
                    match self.tokenize_with_bpe(tok) {
                        Ok(p) => p,
                        Err(e) => {
                            return Err(e);
                        },
                    }
                },
            };
            let ghost pv = piece@;
            proof {
                assert(encode_word(vm, mm, ts[i as int]) == Ok::<Seq<usize>, ErrSpec>(pv));
            }
            let mut k: usize = 0;
            let m = piece.len();
            while k < m
                invariant
                    k <= m,
                    m == pv.len(),
                    pv == piece@,
                    out@ == pre + pv.subrange(0, k as int),
                decreases m - k,
            {
                out.push(piece[k]);
                proof {
                    assert(pre + pv.subrange(0, k + 1) =~= (pre + pv.subrange(0, k as int)).push(
                        pv[k as int],
                    ));
                }
                k = k + 1;
            }
            proof {
                assert(pv.subrange(0, m as int) =~= pv);
                let rest = encode_tokens(vm, mm, ts.skip(i + 1));
                if rest is Ok {
                    assert(pre + (pv + rest->Ok_0) =~= (pre + pv) + rest->Ok_0);
                }
            }
            i = i + 1;
        }
        proof {
            assert(ts.skip(n as int) =~= Seq::<Seq<char>>::empty());
            assert(out@ + Seq::<usize>::empty() =~= out@);
        }
        Ok(out)
    }

    /// Encodes plain text: segmentation followed by per-token encoding.
    fn encode_plain_exec(&self, tc: &Vec<char>) -> (r: Result<Vec<usize>, TokenizerError>)
        ensures
            ids_match(r, encode_plain(self.vocab_model(), self.merges_model(), tc@)),
    {
        let toks = segment_text(tc);
        self.encode_tokens_exec(&toks)
    }
}

/// Whether the special token `s` literally matches `text` at position `p`.
/// An empty special token never matches.
pub open spec fn match_at(text: Seq<char>, p: int, s: Seq<char>) -> bool {
    s.len() >= 1 && 0 <= p && p + s.len() <= text.len() && text.subrange(p, p + s.len()) == s
}

/// The first special (in list order, from index `k`) matching at `p`.
pub open spec fn special_at(specials: Seq<Seq<char>>, text: Seq<char>, p: int, k: int) -> Option<
    int,
>
    decreases specials.len() - k,
{
    if k < 0 || k >= specials.len() {
        None
    } else if match_at(text, p, specials[k]) {
        Some(k)
    } else {
        special_at(specials, text, p, k + 1)
    }
}

/// The earliest position at or after `p` where some allowed special token
/// matches, with the index of the first matching special there.
pub open spec fn find_special_from(specials: Seq<Seq<char>>, text: Seq<char>, p: int) -> Option<
    (int, int),
>
    decreases text.len() - p,
{
    if p < 0 || p >= text.len() {
        None
    } else {
        match special_at(specials, text, p, 0) {
            Some(si) => Some((p, si)),
            None => find_special_from(specials, text, p + 1),
        }
    }
}

pub proof fn lemma_special_at_props(specials: Seq<Seq<char>>, text: Seq<char>, p: int, k: int)
    requires
        0 <= k <= specials.len(),
    ensures
        match special_at(specials, text, p, k) {
            Some(si) => k <= si < specials.len() && match_at(text, p, specials[si]),
            None => forall|j: int|
                k <= j < specials.len() ==> !match_at(text, p, #[trigger] specials[j]),
        },
    decreases specials.len() - k,
{
    if k < specials.len() && !match_at(text, p, specials[k]) {
        lemma_special_at_props(specials, text, p, k + 1);
    }
}

pub proof fn lemma_find_special_props(specials: Seq<Seq<char>>, text: Seq<char>, p: int)
    requires
        0 <= p <= text.len(),
    ensures
        match find_special_from(specials, text, p) {
            Some(qsi) => p <= qsi.0 < text.len() && 0 <= qsi.1 < specials.len() && match_at(
                text,
                qsi.0,
                specials[qsi.1],
            ),
            None => true,
        },
    decreases text.len() - p,
{
    if p < text.len() {
        match special_at(specials, text, p, 0) {
            Some(si) => {
                lemma_special_at_props(specials, text, p, 0);
            },
            None => {
                lemma_find_special_props(specials, text, p + 1);
            },
        }
    }
}

/// The earliest position at or after `p` where the closing delimiter `|>`
/// stands.
pub open spec fn find_close_from(text: Seq<char>, p: int) -> Option<int>
    decreases text.len() - p,
{
    if p < 0 || p + 2 > text.len() {
        None
    } else if text[p] == '|' && text[p + 1] == '>' {
        Some(p)
    } else {
        find_close_from(text, p + 1)
    }
}

pub proof fn lemma_find_close_props(text: Seq<char>, p: int)
    ensures
        match find_close_from(text, p) {
            Some(c) => p <= c && c + 2 <= text.len() && text[c] == '|' && text[c + 1] == '>',
            None => true,
        },
    decreases text.len() - p,
{
    if !(p < 0 || p + 2 > text.len()) && !(text[p] == '|' && text[p + 1] == '>') {
        lemma_find_close_props(text, p + 1);
    }
}

/// The special-shaped substrings of `text` from position `p` on that are not
/// in `specials`: each `<|` with a later `|>` delimits one, shortest-first,
/// and scanning resumes after it.
pub open spec fn disallowed_from(specials: Seq<Seq<char>>, text: Seq<char>, p: int) -> Seq<
    Seq<char>,
>
    decreases text.len() - p,
{
    if p < 0 || p + 2 > text.len() {
        Seq::empty()
    } else if text[p] == '<' && text[p + 1] == '|' {
        match find_close_from(text, p + 2) {
            Some(c) => {
                proof {
                    lemma_find_close_props(text, p + 2);
                }
                let tok = text.subrange(p, c + 2);
                if crate::model::vocab_has(specials, tok) {
                    disallowed_from(specials, text, c + 2)
                } else {
                    seq![tok] + disallowed_from(specials, text, c + 2)
                }
            },
            None => Seq::empty(),
        }
    } else {
        disallowed_from(specials, text, p + 1)
    }
}

/// The first allowed special token (in list order) that the vocabulary does
/// not hold.
pub open spec fn missing_special_from(
    vocab: Seq<Seq<char>>,
    specials: Seq<Seq<char>>,
    k: int,
) -> Option<int>
    decreases specials.len() - k,
{
    if k < 0 || k >= specials.len() {
        None
    } else if token_index(vocab, specials[k]) is None {
        Some(k)
    } else {
        missing_special_from(vocab, specials, k + 1)
    }
}

proof fn lemma_missing_special_none(vocab: Seq<Seq<char>>, specials: Seq<Seq<char>>, k: int)
    requires
        0 <= k <= specials.len(),
        missing_special_from(vocab, specials, k) is None,
    ensures
        forall|j: int|
            k <= j < specials.len() ==> token_index(vocab, #[trigger] specials[j]) is Some,
    decreases specials.len() - k,
{
    if k < specials.len() {
        lemma_missing_special_none(vocab, specials, k + 1);
    }
}

/// What encoding with special-token interception returns, scanning from `p`:
/// each gap before a match is encoded plainly, each match contributes its
/// vocabulary id, and the tail after the last match is first scanned for
/// special-shaped substrings outside the allowed set (which fail the call,
/// listing all of them) and then encoded plainly.
pub open spec fn encode_special(
    vocab: Seq<Seq<char>>,
    merges: Seq<Merge>,
    specials: Seq<Seq<char>>,
    text: Seq<char>,
    p: int,
) -> Result<Seq<usize>, ErrSpec>
    decreases text.len() - p,
{
    match find_special_from(specials, text, p) {
        None => {
            let bad = disallowed_from(specials, text.skip(p), 0);
            if bad.len() > 0 {
                Err(ErrSpec::DisallowedSpecialTokens(bad))
            } else {
                encode_plain(vocab, merges, text.skip(p))
            }
        },
        Some(qsi) => {
            proof {
                if 0 <= p <= text.len() {
                    lemma_find_special_props(specials, text, p);
                }
            }
            let q = qsi.0;
            let s = specials[qsi.1];
            match encode_plain(vocab, merges, text.subrange(p, q)) {
                Err(e) => Err(e),
                Ok(gids) => match token_index(vocab, s) {
                    None => Err(ErrSpec::SpecialTokenNotFound(s)),
                    Some(id) => match encode_special(vocab, merges, specials, text, q + s.len()) {
                        Ok(rest) => Ok(gids + seq![id as usize] + rest),
                        Err(e) => Err(e),
                    },
                },
            }
        },
    }
}

/// The views of an optional list of special-token strings.
pub open spec fn specials_view(o: Option<&Vec<String>>) -> Option<Seq<Seq<char>>> {
    match o {
        None => None,
        Some(sp) => Some(sp.deep_view()),
    }
}

/// What `encode` returns. With no allowed specials (absent or empty), the
/// plain pipeline runs on the whole text. Otherwise every allowed special
/// must be in the vocabulary (else the first missing one fails the call),
/// and the interception scan runs from the start of the text.
pub open spec fn encode_spec(
    vocab: Seq<Seq<char>>,
    merges: Seq<Merge>,
    specials: Option<Seq<Seq<char>>>,
    text: Seq<char>,
) -> Result<Seq<usize>, ErrSpec> {
    match specials {
        None => encode_plain(vocab, merges, text),
        Some(sv) => if sv.len() == 0 {
            encode_plain(vocab, merges, text)
        } else {
            match missing_special_from(vocab, sv, 0) {
                Some(j) => Err(ErrSpec::SpecialTokenNotFound(sv[j])),
                None => encode_special(vocab, merges, sv, text, 0),
            }
        },
    }
}

impl BPETokenizer {
    /// Encodes `text` into token ids.
    ///
    /// With `allowed_special` absent or empty, the plain pipeline runs on
    /// the whole text. Otherwise every allowed special token must be in the
    /// vocabulary (the first missing one fails the call with
    /// `SpecialTokenNotFound`); the text is scanned left to right for
    /// non-overlapping literal occurrences of the allowed specials, each gap
    /// is encoded plainly, each occurrence becomes its single id, and the
    /// tail after the last occurrence must hold no special-shaped substring
    /// outside the allowed set (else the call fails with
    /// `DisallowedSpecialTokens`, listing all of them).
    #[verifier::loop_isolation(false)]
    pub fn encode(&self, text: &str, allowed_special: Option<&Vec<String>>) -> (r: Result<
        Vec<usize>,
        TokenizerError,
    >)
        ensures
            ids_match(
                r,
                encode_spec(
                    self.vocab_model(),
                    self.merges_model(),
                    specials_view(allowed_special),
                    text@,
                ),
            ),
    {
        let ghost vm = self.vocab_model();
        let ghost mm = self.merges_model();
        let tc = str_chars(text);
        let sp = match allowed_special {
            None => {
                return self.encode_plain_exec(&tc);
            },
            Some(sp) => sp,
        };
        if sp.len() == 0 {
            return self.encode_plain_exec(&tc);
        }
        let ghost sv = sp.deep_view();
        let mut spc: Vec<Vec<char>> = Vec::new();
        let mut i: usize = 0;
        while i < sp.len()
            invariant
                i <= sp@.len(),
                spc@.len() == i,
                sv == sp.deep_view(),
                forall|j: int| 0 <= j < i ==> #[trigger] spc@[j]@ == sv[j],
            decreases sp@.len() - i,
        {
            let w = str_chars(sp[i].as_str());
            spc.push(w);
            i = i + 1;
        }
        proof {
            assert(spc.deep_view() =~~= sv);
        }
        let mut k: usize = 0;
        while k < spc.len()
            invariant
                k <= spc@.len(),
                spc@.len() == sv.len(),
                sv == sp.deep_view(),
                spc.deep_view() == sv,
                vm == self.vocab_model(),
                missing_special_from(vm, sv, 0) == missing_special_from(vm, sv, k as int),
            decreases spc@.len() - k,
        {
            proof {
                assert(spc@[k as int]@ == sv[k as int]);
            }
            if self.find_token(&spc[k]).is_none() {
                proof {
                    assert(missing_special_from(vm, sv, k as int) == Some(k as int));
                }
                let bad = sp[k].clone();
                return Err(TokenizerError::SpecialTokenNotFound(bad));
            }
            k = k + 1;
        }
        proof {
            assert(missing_special_from(vm, sv, 0) is None);
        }
        let mut out: Vec<usize> = Vec::new();
        let mut p: usize = 0;
        proof {
            let e0 = encode_special(vm, mm, sv, tc@, 0);
            if e0 is Ok {
                assert(Seq::<usize>::empty() + e0->Ok_0 =~= e0->Ok_0);
            }
        }
        loop
            invariant
                p <= tc@.len(),
                tc@ == text@,
                sv == spc.deep_view(),
                sv == sp.deep_view(),
                sv.len() >= 1,
                vm == self.vocab_model(),
                mm == self.merges_model(),
                missing_special_from(vm, sv, 0) is None,
                encode_special(vm, mm, sv, tc@, 0) == ok_prepend_ids(
                    out@,
                    encode_special(vm, mm, sv, tc@, p as int),
                ),
            decreases tc@.len() - p,
        {
            let ghost espec = encode_special(vm, mm, sv, tc@, p as int);
            match find_special_exec(&tc, &spc, p) {
                None => {
                    let tail = crate::segment::copy_range(&tc, p, tc.len(), false);
                    proof {
                        assert(tail@ =~= tc@.skip(p as int));
                    }
                    let bad = disallowed_exec(&tail, &spc);
                    if bad.len() > 0 {
                        proof {
                            assert(bad.deep_view().len() == bad@.len());
                            assert(espec == Err::<Seq<usize>, ErrSpec>(
                                ErrSpec::DisallowedSpecialTokens(bad.deep_view()),
                            ));
                        }
                        return Err(TokenizerError::DisallowedSpecialTokens(bad));
                    }
                    proof {
                        assert(disallowed_from(sv, tc@.skip(p as int), 0).len() == 0);
                        assert(espec == encode_plain(vm, mm, tail@));
                    }
                    match self.encode_plain_exec(&tail) {
                        Ok(v) => {
                            let ghost pre = out@;
                            crate::model::push_all(&mut out, &v);
                            proof {
                                assert(pre + v@ == out@);
                            }
                            return Ok(out);
                        },
                        Err(e) => {
                            return Err(e);
                        },
                    }
                },
                Some((q, si)) => {
                    proof {
                        lemma_find_special_props(sv, tc@, p as int);
                    }
                    let gap = crate::segment::copy_range(&tc, p, q, false);
                    let gids = match self.encode_plain_exec(&gap) {
                        Ok(v) => v,
                        Err(e) => {
                            return Err(e);
                        },
                    };
                    let ghost pre = out@;
                    crate::model::push_all(&mut out, &gids);
                    proof {
                        assert(spc@[si as int]@ == sv[si as int]);
                    }
                    match self.find_token(&spc[si]) {
                        Some(id) => {
                            out.push(id);
                            let ns = spc[si].len();
                            proof {
                                let s = sv[si as int];
                                assert(ns == s.len());
                                assert(token_index(vm, s) == Some(id as int));
                                let rest = encode_special(vm, mm, sv, tc@, q + ns);
                                if rest is Ok {
                                    assert((gids@ + seq![id]) + rest->Ok_0 =~= gids@ + seq![
                                        id as usize,
                                    ] + rest->Ok_0);
                                    assert(pre + ((gids@ + seq![id]) + rest->Ok_0) =~= (pre
                                        + gids@ + seq![id]) + rest->Ok_0);
                                }
                                assert(out@ =~= pre + gids@ + seq![id]);
                                assert(espec == ok_prepend_ids(gids@ + seq![id], rest));
                            }
                            p = q + ns;
                        },
                        None => {
                            proof {
                                lemma_missing_special_none(vm, sv, 0);
                                assert(false);
                            }
                            vstd::pervasive::unreached()
                        },
                    }
                },
            }
        }
    }
}

fn match_at_exec(text: &Vec<char>, p: usize, s: &Vec<char>) -> (r: bool)
    requires
        p <= text@.len(),
    ensures
        r == match_at(text@, p as int, s@),
{
    let n = text.len();
    let m = s.len();
    if m == 0 || m > n - p {
        return false;
    }
    let mut k: usize = 0;
    while k < m
        invariant
            k <= m,
            1 <= m == s@.len(),
            p + m <= n == text@.len(),
            forall|j: int| 0 <= j < k ==> text@[p + j] == s@[j],
        decreases m - k,
    {
        if text[p + k] != s[k] {
            proof {
                assert(text@.subrange(p as int, p + m) != s@) by {
                    assert(text@.subrange(p as int, p + m)[k as int] == text@[p + k]);
                }
            }
            return false;
        }
        k = k + 1;
    }
    proof {
        assert(text@.subrange(p as int, p + m) =~= s@);
    }
    true
}

fn special_at_exec(text: &Vec<char>, specials: &Vec<Vec<char>>, p: usize) -> (r: Option<usize>)
    requires
        p <= text@.len(),
    ensures
        match r {
            Some(si) => special_at(specials.deep_view(), text@, p as int, 0) == Some(si as int),
            None => special_at(specials.deep_view(), text@, p as int, 0) is None,
        },
{
    let ghost sv = specials.deep_view();
    let n = specials.len();
    let mut k: usize = 0;
    while k < n
        invariant
            k <= n,
            n == specials@.len(),
            p <= text@.len(),
            sv == specials.deep_view(),
            special_at(sv, text@, p as int, 0) == special_at(sv, text@, p as int, k as int),
        decreases n - k,
    {
        proof {
            assert(sv[k as int] == specials@[k as int]@);
        }
        if match_at_exec(text, p, &specials[k]) {
            return Some(k);
        }
        k = k + 1;
    }
    None
}

fn find_special_exec(text: &Vec<char>, specials: &Vec<Vec<char>>, p: usize) -> (r: Option<
    (usize, usize),
>)
    requires
        p <= text@.len(),
    ensures
        match r {
            Some(qsi) => find_special_from(specials.deep_view(), text@, p as int) == Some(
                (qsi.0 as int, qsi.1 as int),
            ) && p <= qsi.0 && qsi.0 < text@.len(),
            None => find_special_from(specials.deep_view(), text@, p as int) is None,
        },
{
    let ghost sv = specials.deep_view();
    let n = text.len();
    let mut q = p;
    while q < n
        invariant
            p <= q <= n,
            n == text@.len(),
            sv == specials.deep_view(),
            find_special_from(sv, text@, p as int) == find_special_from(sv, text@, q as int),
        decreases n - q,
    {
        match special_at_exec(text, specials, q) {
            Some(si) => {
                return Some((q, si));
            },
            None => {
                q = q + 1;
            },
        }
    }
    None
}

/// The special-shaped substrings of `tail` that are not among the allowed
/// specials, in scan order, as strings.
fn disallowed_exec(tail: &Vec<char>, spc: &Vec<Vec<char>>) -> (r: Vec<String>)
    ensures
        r.deep_view() == disallowed_from(spc.deep_view(), tail@, 0),
{
    let ghost sv = spc.deep_view();
    let ghost full = disallowed_from(sv, tail@, 0);
    let n = tail.len();
    let mut out: Vec<String> = Vec::new();
    let mut p: usize = 0;
    proof {
        assert(out.deep_view() =~= Seq::<Seq<char>>::empty());
        assert(Seq::<Seq<char>>::empty() + full =~= full);
    }
    while p < n && p + 1 < n
        invariant
            p <= n,
            n == tail@.len(),
            sv == spc.deep_view(),
            full == disallowed_from(sv, tail@, 0),
            out.deep_view() + disallowed_from(sv, tail@, p as int) == full,
        decreases n - p,
    {
        let ghost pre = out.deep_view();
        if tail[p] == '<' && tail[p + 1] == '|' {
            match find_close_exec(tail, p + 2) {
                Some(c) => {
                    let tok = crate::segment::copy_range(tail, p, c + 2, false);
                    let ghost tokv = tok@;
                    proof {
                        assert(tokv == tail@.subrange(p as int, c + 2));
                    }
                    if crate::model::list_has(spc, &tok) {
                        proof {
                            assert(disallowed_from(sv, tail@, p as int) == disallowed_from(
                                sv,
                                tail@,
                                c + 2,
                            ));
                        }
                    } else {
                        let s = chars_to_string(&tok);
                        out.push(s);
                        proof {
                            assert(out.deep_view() =~~= pre.push(tokv));
                            assert(pre.push(tokv) + disallowed_from(sv, tail@, c + 2) =~= pre + (
                            seq![tokv] + disallowed_from(sv, tail@, c + 2)));
                        }
                    }
                    p = c + 2;
                },
                None => {
                    proof {
                        assert(disallowed_from(sv, tail@, p as int) =~= Seq::<Seq<char>>::empty());
                        assert(out.deep_view() + Seq::<Seq<char>>::empty() =~= out.deep_view());
                    }
                    return out;
                },
            }
        } else {
            p = p + 1;
        }
    }
    proof {
        assert(disallowed_from(sv, tail@, p as int) =~= Seq::<Seq<char>>::empty());
        assert(out.deep_view() + Seq::<Seq<char>>::empty() =~= out.deep_view());
    }
    out
}

fn find_close_exec(text: &Vec<char>, p: usize) -> (r: Option<usize>)
    ensures
        match r {
            Some(c) => find_close_from(text@, p as int) == Some(c as int) && p <= c && c + 2 <= text@.len(),
            None => find_close_from(text@, p as int) is None,
        },
{
    let n = text.len();
    let mut q = p;
    while q < n && q + 1 < n
        invariant
            p <= q,
            n == text@.len(),
            find_close_from(text@, p as int) == find_close_from(text@, q as int),
        decreases n - q,
    {
        if text[q] == '|' && text[q + 1] == '>' {
            return Some(q);
        }
        q = q + 1;
    }
    None
}

} // verus!

