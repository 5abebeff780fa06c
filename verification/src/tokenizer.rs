//! The tokenizer state: vocabulary and merge table, with construction and
//! training.

use vstd::prelude::*;

use crate::error::TokenizerError;
use crate::model::{state_wf, token_index, vocab_has};

verus! {

/// One accepted merge: the ordered pair `(left, right)` rewrites to `new_id`.
#[derive(Debug, Clone, Copy, PartialEq, Eq, Structural)]
pub struct Merge {
    pub left: usize,
    pub right: usize,
    pub new_id: usize,
}

/// A byte-pair-encoding tokenizer.
///
/// Token ids are dense: id `i` is the `i`-th entry of `vocab`, so the
/// id-to-string mapping is total over `[0, vocab.len())` and needs no
/// separate inverse table (the inverse is an index search).
pub struct BPETokenizer {
    /// Token strings by id.
    pub vocab: Vec<Vec<char>>,
    /// The merge table, in the order the merges were accepted.
    pub merges: Vec<Merge>,
}

impl BPETokenizer {
    /// The vocabulary, as a sequence of token strings.
    pub open spec fn vocab_model(&self) -> Seq<Seq<char>> {
        self.vocab.deep_view()
    }

    /// The merge table, as a sequence of merge records.
    pub open spec fn merges_model(&self) -> Seq<Merge> {
        self.merges@
    }

    /// The data-model invariants of this state.
    pub open spec fn wf(&self) -> bool {
        state_wf(self.vocab_model(), self.merges_model())
    }

    /// An empty tokenizer: no vocabulary, no merges.
    pub fn new() -> (r: Self)
        ensures
            r.vocab_model() == Seq::<Seq<char>>::empty(),
            r.merges_model() == Seq::<Merge>::empty(),
            r.wf(),
    {
        let r = BPETokenizer { vocab: Vec::new(), merges: Vec::new() };
        proof {
            assert(r.vocab_model() =~= Seq::<Seq<char>>::empty());
            assert(r.merges_model() =~= Seq::<Merge>::empty());
        }
        r
    }

    /// The current vocabulary size.
    pub fn vocab_size(&self) -> (r: usize)
        ensures
            r == self.vocab_model().len(),
    {
        self.vocab.len()
    }

    /// The current number of accepted merges.
    pub fn merges_count(&self) -> (r: usize)
        ensures
            r == self.merges_model().len(),
    {
        self.merges.len()
    }

    /// The id of the token string `w`, if it is in the vocabulary.
    pub fn find_token(&self, w: &Vec<char>) -> (r: Option<usize>)
        ensures
            match r {
                Some(id) => token_index(self.vocab_model(), w@) == Some(id as int),
                None => token_index(self.vocab_model(), w@) is None,
            },
    {
        let ghost vm = self.vocab_model();
        let n = self.vocab.len();
        let mut i: usize = 0;
        while i < n
            invariant
                i <= n,
                n == self.vocab@.len(),
                vm == self.vocab_model(),
                vm.len() == n,
                crate::model::token_index_from(vm, w@, 0) == crate::model::token_index_from(
                    vm,
                    w@,
                    i as int,
                ),
            decreases n - i,
        {
            if crate::model::chars_eq(&self.vocab[i], w) {
                proof {
                    assert(vm[i as int] == self.vocab@[i as int]@);
                }
                return Some(i);
            }
            proof {
                assert(vm[i as int] == self.vocab@[i as int]@);
                assert(vm[i as int] != w@);
            }
            i = i + 1;
        }
        None
    }

    /// The id of the one-character token `c`, if it is in the vocabulary.
    pub fn find_char(&self, c: char) -> (r: Option<usize>)
        ensures
            match r {
                Some(id) => token_index(self.vocab_model(), seq![c]) == Some(id as int),
                None => token_index(self.vocab_model(), seq![c]) is None,
            },
    {
        let w: Vec<char> = vec![c];
        proof {
            assert(w@ =~= seq![c]);
        }
        self.find_token(&w)
    }

    /// The id registered for the token string `token`, if any.
    pub fn token_to_id(&self, token: &str) -> (r: Option<usize>)
        ensures
            match r {
                Some(id) => token_index(self.vocab_model(), token@) == Some(id as int),
                None => !vocab_has(self.vocab_model(), token@),
            },
    {
        let w = crate::model::str_chars(token);
        let r = self.find_token(&w);
        proof {
            crate::model::lemma_token_index_props(self.vocab_model(), token@);
        }
        r
    }
}

/// Training preprocessing of one character after the first: spaces become
/// the word-boundary marker, everything else (newlines included) passes
/// through unchanged.
pub open spec fn pp_tail(cs: Seq<char>) -> Seq<char> {
    cs.map_values(
        |c: char|
            if c == ' ' {
                crate::model::marker()
            } else {
                c
            },
    )
}

/// The preprocessed training text: every space is replaced by the
/// word-boundary marker, except a space at absolute position 0, which is
/// dropped.
pub open spec fn preprocess(text: Seq<char>) -> Seq<char> {
    if text.len() == 0 {
        Seq::empty()
    } else if text[0] == ' ' {
        pp_tail(text.skip(1))
    } else {
        seq![text[0]] + pp_tail(text.skip(1))
    }
}

/// Phase one of vocabulary construction: the one-character strings of
/// codepoints `0..256`, always present.
pub open spec fn base256() -> Seq<Seq<char>> {
    Seq::new(256, |i: int| seq![(i as u8) as char])
}

/// `vocab` extended by the one-character string of each character of `cs`,
/// in order, each appended only if absent.
pub open spec fn extend_chars(vocab: Seq<Seq<char>>, cs: Seq<char>) -> Seq<Seq<char>>
    decreases cs.len(),
{
    if cs.len() == 0 {
        vocab
    } else {
        let v2 = if vocab_has(vocab, seq![cs[0]]) {
            vocab
        } else {
            vocab.push(seq![cs[0]])
        };
        extend_chars(v2, cs.drop_first())
    }
}

/// `vocab` extended by each token string of `ts`, in order, each appended
/// only if absent.
pub open spec fn extend_tokens(vocab: Seq<Seq<char>>, ts: Seq<Seq<char>>) -> Seq<Seq<char>>
    decreases ts.len(),
{
    if ts.len() == 0 {
        vocab
    } else {
        let v2 = if vocab_has(vocab, ts[0]) {
            vocab
        } else {
            vocab.push(ts[0])
        };
        extend_tokens(v2, ts.drop_first())
    }
}

/// The vocabulary after the four construction phases: the 256 base
/// codepoints, the new characters of the preprocessed text in order of first
/// appearance, the word-boundary marker if absent, and the special tokens in
/// order, each if absent.
pub open spec fn base_vocab(pre: Seq<char>, specials: Seq<Seq<char>>) -> Seq<Seq<char>> {
    extend_tokens(
        extend_chars(extend_chars(base256(), pre), seq![crate::model::marker()]),
        specials,
    )
}

/// The default special token when the caller supplies none.
pub open spec fn default_special() -> Seq<char> {
    "<|endoftext|>"@
}

/// The special-token strings `train` registers.
pub open spec fn train_specials(o: Option<Vec<String>>) -> Seq<Seq<char>> {
    match o {
        None => seq![default_special()],
        Some(sp) => sp.deep_view(),
    }
}

/// The merge loop, as a fold: while the vocabulary is below the target and
/// an adjacent pair exists, the most frequent pair (ties toward the
/// lexicographically smallest) is merged: the next id is assigned to it, its
/// record is appended to the merge table, the id sequence is rewritten, and
/// the concatenated token string is appended to the vocabulary.
pub open spec fn train_loop(
    vocab: Seq<Seq<char>>,
    merges: Seq<Merge>,
    ids: Seq<usize>,
    target: int,
) -> (Seq<Seq<char>>, Seq<Merge>, Seq<usize>)
    decreases target - vocab.len(),
{
    if vocab.len() >= target {
        (vocab, merges, ids)
    } else {
        match crate::pairs::best_pair(ids) {
            None => (vocab, merges, ids),
            Some(pr) => {
                let nid = vocab.len() as usize;
                train_loop(
                    vocab.push(vocab[pr.0 as int] + vocab[pr.1 as int]),
                    merges.push(Merge { left: pr.0, right: pr.1, new_id: nid }),
                    crate::pairs::replaced(ids, pr.0, pr.1, nid),
                    target,
                )
            },
        }
    }
}

pub proof fn lemma_extend_chars_props(vocab: Seq<Seq<char>>, cs: Seq<char>)
    ensures
        extend_chars(vocab, cs).len() >= vocab.len(),
        forall|k: int| 0 <= k < vocab.len() ==> #[trigger] extend_chars(vocab, cs)[k] == vocab[k],
        forall|i: int|
            0 <= i < cs.len() ==> vocab_has(extend_chars(vocab, cs), seq![#[trigger] cs[i]]),
        forall|w: Seq<char>|
            #[trigger] vocab_has(vocab, w) ==> vocab_has(extend_chars(vocab, cs), w),
    decreases cs.len(),
{
    if cs.len() > 0 {
        let v2 = if vocab_has(vocab, seq![cs[0]]) {
            vocab
        } else {
            vocab.push(seq![cs[0]])
        };
        assert(vocab_has(v2, seq![cs[0]])) by {
            if !vocab_has(vocab, seq![cs[0]]) {
                assert(v2[vocab.len() as int] == seq![cs[0]]);
            }
        }
        assert forall|w: Seq<char>| #[trigger] vocab_has(vocab, w) implies vocab_has(v2, w) by {
            let i = choose|i: int| 0 <= i < vocab.len() && #[trigger] vocab[i] == w;
            assert(v2[i] == w);
        }
        lemma_extend_chars_props(v2, cs.drop_first());
        assert forall|i: int| 0 <= i < cs.len() implies vocab_has(
            extend_chars(vocab, cs),
            seq![#[trigger] cs[i]],
        ) by {
            if i > 0 {
                assert(cs.drop_first()[i - 1] == cs[i]);
            }
        }
    }
}

pub proof fn lemma_extend_tokens_props(vocab: Seq<Seq<char>>, ts: Seq<Seq<char>>)
    ensures
        extend_tokens(vocab, ts).len() >= vocab.len(),
        forall|k: int| 0 <= k < vocab.len() ==> #[trigger] extend_tokens(vocab, ts)[k] == vocab[k],
        forall|i: int| 0 <= i < ts.len() ==> vocab_has(extend_tokens(vocab, ts), #[trigger] ts[i]),
        forall|w: Seq<char>|
            #[trigger] vocab_has(vocab, w) ==> vocab_has(extend_tokens(vocab, ts), w),
    decreases ts.len(),
{
    if ts.len() > 0 {
        let v2 = if vocab_has(vocab, ts[0]) {
            vocab
        } else {
            vocab.push(ts[0])
        };
        assert(vocab_has(v2, ts[0])) by {
            if !vocab_has(vocab, ts[0]) {
                assert(v2[vocab.len() as int] == ts[0]);
            }
        }
        assert forall|w: Seq<char>| #[trigger] vocab_has(vocab, w) implies vocab_has(v2, w) by {
            let i = choose|i: int| 0 <= i < vocab.len() && #[trigger] vocab[i] == w;
            assert(v2[i] == w);
        }
        lemma_extend_tokens_props(v2, ts.drop_first());
        assert forall|i: int| 0 <= i < ts.len() implies vocab_has(
            extend_tokens(vocab, ts),
            #[trigger] ts[i],
        ) by {
            if i > 0 {
                assert(ts.drop_first()[i - 1] == ts[i]);
            }
        }
    }
}

/// The structural facts of the merge loop: the merge table grows only by
/// appending (its earlier records are untouched), each merge adds exactly
/// one vocabulary entry, merged ids are dense from the starting size, the
/// merge-table invariant is preserved, and the vocabulary never grows past
/// the target once below it.
pub proof fn lemma_train_loop_props(
    vocab: Seq<Seq<char>>,
    merges: Seq<Merge>,
    ids: Seq<usize>,
    target: int,
)
    requires
        crate::model::merges_wf(vocab, merges),
        forall|k: int| 0 <= k < ids.len() ==> #[trigger] ids[k] < vocab.len(),
        forall|k: int|
            0 <= k < merges.len() ==> #[trigger] merges[k].new_id == vocab.len() - merges.len()
                + k,
        merges.len() <= vocab.len(),
        target <= usize::MAX,
    ensures
        ({
            let o = train_loop(vocab, merges, ids, target);
            &&& crate::model::merges_wf(o.0, o.1)
            &&& o.0.len() >= vocab.len()
            &&& (o.0.len() == vocab.len() || o.0.len() <= target)
            &&& o.1.len() - merges.len() == o.0.len() - vocab.len()
            &&& merges.len() <= o.1.len() <= o.0.len()
            &&& forall|k: int| 0 <= k < merges.len() ==> #[trigger] o.1[k] == merges[k]
            &&& forall|k: int|
                0 <= k < o.1.len() ==> #[trigger] o.1[k].new_id == o.0.len() - o.1.len() + k
            &&& forall|k: int| 0 <= k < vocab.len() ==> #[trigger] o.0[k] == vocab[k]
            &&& forall|k: int| 0 <= k < o.2.len() ==> #[trigger] o.2[k] < o.0.len()
        }),
    decreases target - vocab.len(),
{
    if vocab.len() >= target {
    } else {
        match crate::pairs::best_pair(ids) {
            None => {},
            Some(pr) => {
                crate::pairs::lemma_best_pair_canonical(ids);
                crate::pairs::lemma_count_pos_occurs(ids, pr.0, pr.1);
                let j = choose|j: int|
                    0 <= j && j + 2 <= ids.len() && ids[j] == pr.0 && #[trigger] ids[j + 1]
                        == pr.1;
                assert(pr.0 < vocab.len() && pr.1 < vocab.len());
                let nid = vocab.len() as usize;
                let v2 = vocab.push(vocab[pr.0 as int] + vocab[pr.1 as int]);
                let m2 = merges.push(Merge { left: pr.0, right: pr.1, new_id: nid });
                let ids2 = crate::pairs::replaced(ids, pr.0, pr.1, nid);
                assert(crate::model::merges_wf(v2, m2)) by {
                    assert forall|k: int| 0 <= k < m2.len() implies {
                        let m = #[trigger] m2[k];
                        &&& (m.left as int) < v2.len()
                        &&& (m.right as int) < v2.len()
                        &&& (m.new_id as int) < v2.len()
                        &&& m.left < m.new_id
                        &&& m.right < m.new_id
                        &&& v2[m.new_id as int] == v2[m.left as int] + v2[m.right as int]
                    } by {
                        if k < merges.len() {
                            assert(m2[k] == merges[k]);
                        } else {
                            assert(m2[k].new_id == nid);
                        }
                    }
                }
                crate::pairs::lemma_replaced_elems(ids, pr.0, pr.1, nid, v2.len() as int);
                lemma_train_loop_props(v2, m2, ids2, target);
            },
        }
    }
}

impl BPETokenizer {
    /// Trains the tokenizer from scratch on `text`: any prior state is
    /// discarded, the base vocabulary is built, and the most frequent
    /// adjacent pair is merged repeatedly until the vocabulary reaches
    /// `target_vocab_size` or no adjacent pair is left. `allowed_special`
    /// defaults to the end-of-text token when absent. Training always
    /// succeeds; the resulting state is exactly the fold [`train_loop`] over
    /// the base vocabulary, and in particular the vocabulary never exceeds a
    /// target at or above the base size, and the merge count equals the
    /// vocabulary growth past the base size.
    #[verifier::loop_isolation(false)]
    #[verifier::rlimit(100)]
    pub fn train(
        &mut self,
        text: &str,
        target_vocab_size: usize,
        allowed_special: Option<Vec<String>>,
    ) -> (r: Result<(), TokenizerError>)
        ensures
            r is Ok,
            ({
                let pre = preprocess(text@);
                let sv = train_specials(allowed_special);
                let base = base_vocab(pre, sv);
                &&& crate::encode::char_ids(base, pre) is Ok
                &&& {
                    let o = train_loop(
                        base,
                        Seq::empty(),
                        crate::encode::char_ids(base, pre)->Ok_0,
                        target_vocab_size as int,
                    );
                    &&& final(self).vocab_model() == o.0
                    &&& final(self).merges_model() == o.1
                }
                &&& final(self).vocab_model().len() >= base.len()
                &&& (base.len() <= target_vocab_size ==> final(self).vocab_model().len()
                    <= target_vocab_size)
                &&& final(self).merges_model().len() == final(self).vocab_model().len()
                    - base.len()
                &&& forall|k: int|
                    0 <= k < final(self).merges_model().len()
                        ==> (#[trigger] final(self).merges_model()[k]).new_id == base.len() + k
            }),
            final(self).wf(),
    {
        let ghost sv = train_specials(allowed_special);
        // Convert the special tokens to character vectors.
        let mut spc: Vec<Vec<char>> = Vec::new();
        match allowed_special {
            None => {
                let w = crate::model::str_chars("<|endoftext|>");
                spc.push(w);
                proof {
                    assert(spc.deep_view() =~~= sv);
                }
            },
            Some(sp) => {
                let mut i: usize = 0;
                while i < sp.len()
                    invariant
                        i <= sp@.len(),
                        spc@.len() == i,
                        forall|j: int| 0 <= j < i ==> #[trigger] spc@[j]@ == sp.deep_view()[j],
                    decreases sp@.len() - i,
                {
                    let w = crate::model::str_chars(sp[i].as_str());
                    spc.push(w);
                    i = i + 1;
                }
                proof {
                    assert(spc.deep_view() =~~= sv);
                }
            },
        }
        // Preprocess the text: spaces (except one at position 0) become the
        // word-boundary marker.
        let tch = crate::model::str_chars(text);
        let mut pre: Vec<char> = Vec::new();
        let n = tch.len();
        let mut i: usize = 0;
        while i < n
            invariant
                i <= n,
                n == tch@.len(),
                pre@ == preprocess(tch@.take(i as int)),
            decreases n - i,
        {
            let c = tch[i];
            let ghost cur = tch@.take(i as int);
            let ghost nxt = tch@.take(i + 1);
            proof {
                assert(nxt[i as int] == tch@[i as int]);
                if i > 0 {
                    assert(nxt[0] == cur[0]);
                    assert(nxt.skip(1) =~= cur.skip(1).push(tch@[i as int]));
                    assert(pp_tail(cur.skip(1).push(tch@[i as int])) =~= pp_tail(
                        cur.skip(1),
                    ).push(
                        if tch@[i as int] == ' ' {
                            crate::model::marker()
                        } else {
                            tch@[i as int]
                        },
                    ));
                }
            }
            if c != ' ' {
                pre.push(c);
                proof {
                    if i == 0 {
                        assert(nxt.skip(1) =~= Seq::<char>::empty());
                        assert(pre@ =~= preprocess(nxt));
                    } else {
                        assert(pre@ =~= preprocess(nxt));
                    }
                }
            } else {
                if i != 0 {
                    pre.push('Ġ');
                    proof {
                        assert(pre@ =~= preprocess(nxt));
                    }
                } else {
                    proof {
                        assert(nxt.skip(1) =~= Seq::<char>::empty());
                        assert(pre@ =~= preprocess(nxt));
                    }
                }
            }
            i = i + 1;
        }
        proof {
            assert(tch@.take(n as int) =~= tch@);
        }
        let ghost prev = pre@;
        // Phase one: the 256 base codepoints.
        self.vocab = Vec::new();
        self.merges = Vec::new();
        let mut b: usize = 0;
        while b < 256
            invariant
                b <= 256,
                self.vocab@.len() == b,
                self.merges@.len() == 0,
                forall|k: int| 0 <= k < b ==> #[trigger] self.vocab.deep_view()[k] == base256()[k],
            decreases 256 - b,
        {
            let ghost vm0 = self.vocab.deep_view();
            let ch = (b as u8) as char;
            let w = vec![ch];
            proof {
                assert(w@ =~= seq![ch]);
            }
            self.vocab.push(w);
            proof {
                assert(self.vocab.deep_view() =~~= vm0.push(seq![ch]));
            }
            b = b + 1;
        }
        proof {
            assert(self.vocab.deep_view() =~~= base256());
        }
        // Phase two: new characters of the preprocessed text, in order of
        // first appearance.
        proof {
            assert(pre@.skip(0) =~= pre@);
        }
        let np = pre.len();
        let mut i: usize = 0;
        while i < np
            invariant
                i <= np,
                np == pre@.len(),
                pre@ == prev,
                self.merges@.len() == 0,
                extend_chars(base256(), pre@) == extend_chars(
                    self.vocab.deep_view(),
                    pre@.skip(i as int),
                ),
            decreases np - i,
        {
            let ghost vm0 = self.vocab.deep_view();
            let ghost suf = pre@.skip(i as int);
            proof {
                assert(suf[0] == pre@[i as int]);
                assert(suf.drop_first() =~= pre@.skip(i + 1));
            }
            let c = pre[i];
            match self.find_char(c) {
                Some(_) => {
                    proof {
                        crate::model::lemma_token_index_props(vm0, seq![c]);
                    }
                },
                None => {
                    proof {
                        crate::model::lemma_token_index_props(vm0, seq![c]);
                    }
                    let w = vec![c];
                    proof {
                        assert(w@ =~= seq![c]);
                    }
                    self.vocab.push(w);
                    proof {
                        assert(self.vocab.deep_view() =~~= vm0.push(seq![c]));
                    }
                },
            }
            i = i + 1;
        }
        proof {
            assert(pre@.skip(np as int) =~= Seq::<char>::empty());
        }
        // Phase three: the word-boundary marker, if absent.
        let ghost vm1 = self.vocab.deep_view();
        match self.find_char('Ġ') {
            Some(_) => {
                proof {
                    crate::model::lemma_token_index_props(vm1, seq![crate::model::marker()]);
                    assert(seq![crate::model::marker()].drop_first() =~= Seq::<char>::empty());
                    assert(extend_chars(vm1, Seq::<char>::empty()) == vm1);
                    assert(extend_chars(vm1, seq![crate::model::marker()]) == vm1);
                }
            },
            None => {
                proof {
                    crate::model::lemma_token_index_props(vm1, seq![crate::model::marker()]);
                }
                let w = vec!['Ġ'];
                proof {
                    assert(w@ =~= seq![crate::model::marker()]);
                }
                self.vocab.push(w);
                proof {
                    assert(self.vocab.deep_view() =~~= vm1.push(seq![crate::model::marker()]));
                    assert(seq![crate::model::marker()].drop_first() =~= Seq::<char>::empty());
                    assert(extend_chars(self.vocab.deep_view(), Seq::<char>::empty())
                        == self.vocab.deep_view());
                    assert(extend_chars(vm1, seq![crate::model::marker()])
                        == self.vocab.deep_view());
                }
            },
        }
        // Phase four: the special tokens, each if absent.
        let ghost vm2 = self.vocab.deep_view();
        proof {
            assert(sv.skip(0) =~= sv);
        }
        let ns = spc.len();
        let mut k: usize = 0;
        while k < ns
            invariant
                k <= ns,
                ns == spc@.len(),
                sv == spc.deep_view(),
                sv.len() == ns,
                self.merges@.len() == 0,
                extend_tokens(vm2, sv) == extend_tokens(self.vocab.deep_view(), sv.skip(k as int)),
            decreases ns - k,
        {
            let ghost vm0 = self.vocab.deep_view();
            let ghost suf = sv.skip(k as int);
            proof {
                assert(suf[0] == sv[k as int]);
                assert(suf.drop_first() =~= sv.skip(k + 1));
                assert(spc@[k as int]@ == sv[k as int]);
            }
            match self.find_token(&spc[k]) {
                Some(_) => {
                    proof {
                        crate::model::lemma_token_index_props(vm0, sv[k as int]);
                    }
                },
                None => {
                    proof {
                        crate::model::lemma_token_index_props(vm0, sv[k as int]);
                    }
                    let w = crate::segment::copy_range(&spc[k], 0, spc[k].len(), false);
                    proof {
                        assert(w@ =~= sv[k as int]);
                    }
                    self.vocab.push(w);
                    proof {
                        assert(self.vocab.deep_view() =~~= vm0.push(sv[k as int]));
                    }
                },
            }
            k = k + 1;
        }
        proof {
            assert(sv.skip(ns as int) =~= Seq::<Seq<char>>::empty());
        }
        let ghost base = self.vocab.deep_view();
        let base_len = self.vocab.len();
        proof {
            assert(base == base_vocab(prev, sv));
            assert(base.len() == base_len as int);
        }
        // The initial id sequence: one id per preprocessed character.
        proof {
            lemma_extend_chars_props(base256(), prev);
            lemma_extend_chars_props(extend_chars(base256(), prev), seq![crate::model::marker()]);
            lemma_extend_tokens_props(
                extend_chars(extend_chars(base256(), prev), seq![crate::model::marker()]),
                sv,
            );
            assert forall|ii: int| 0 <= ii < prev.len() implies vocab_has(
                base,
                seq![#[trigger] prev[ii]],
            ) by {
                assert(vocab_has(extend_chars(base256(), prev), seq![prev[ii]]));
            }
            crate::encode::lemma_char_ids_covered(base, prev);
        }
        let mut ids: Vec<usize> = Vec::new();
        let mut i: usize = 0;
        proof {
            assert(prev.skip(0) =~= prev);
            assert(Seq::<usize>::empty() + crate::encode::char_ids(base, prev)->Ok_0
                =~= crate::encode::char_ids(base, prev)->Ok_0);
        }
        while i < np
            invariant
                i <= np,
                np == pre@.len(),
                pre@ == prev,
                base == self.vocab.deep_view(),
                crate::encode::char_ids(base, prev) == crate::encode::ok_prepend_ids(
                    ids@,
                    crate::encode::char_ids(base, prev.skip(i as int)),
                ),
            decreases np - i,
        {
            let ghost suf = prev.skip(i as int);
            proof {
                assert(suf[0] == prev[i as int]);
                assert(suf.drop_first() =~= prev.skip(i + 1));
            }
            let c = pre[i];
            match self.find_char(c) {
                Some(id) => {
                    let ghost preids = ids@;
                    ids.push(id);
                    proof {
                        let rest = crate::encode::char_ids(base, prev.skip(i + 1));
                        if rest is Ok {
                            assert(preids + (seq![id] + rest->Ok_0) =~= (preids + seq![id])
                                + rest->Ok_0);
                            assert(preids.push(id) =~= preids + seq![id]);
                        }
                    }
                },
                None => {
                    proof {
                        crate::model::lemma_token_index_props(base, seq![c]);
                        assert(vocab_has(base, seq![prev[i as int]]));
                        assert(false);
                    }
                    vstd::pervasive::unreached()
                },
            }
            i = i + 1;
        }
        proof {
            assert(prev.skip(np as int) =~= Seq::<char>::empty());
            assert(ids@ + Seq::<usize>::empty() =~= ids@);
            assert(ids@ == crate::encode::char_ids(base, prev)->Ok_0);
        }
        let ghost ids0 = ids@;
        // The merge loop.
        let ghost t = target_vocab_size as int;
        proof {
            lemma_train_loop_props(base, Seq::empty(), ids0, t);
        }
        let ghost outcome = train_loop(base, Seq::empty(), ids0, t);
        proof {
            assert(self.merges@ =~= Seq::<Merge>::empty());
        }
        let mut ids = ids;
        loop
            invariant
                crate::model::merges_wf(self.vocab.deep_view(), self.merges@),
                forall|kk: int|
                    0 <= kk < ids@.len() ==> #[trigger] ids@[kk] < self.vocab.deep_view().len(),
                forall|kk: int|
                    0 <= kk < self.merges@.len() ==> (#[trigger] self.merges@[kk]).new_id
                        == self.vocab.deep_view().len() - self.merges@.len() + kk,
                self.merges@.len() <= self.vocab.deep_view().len(),
                self.vocab.deep_view().len() >= base.len(),
                self.merges@.len() == self.vocab.deep_view().len() - base.len(),
                self.vocab.deep_view().len() == base.len() || self.vocab.deep_view().len() <= t,
                outcome == train_loop(self.vocab.deep_view(), self.merges@, ids@, t),
            decreases t - self.vocab.len(),
        {
            let ghost vmc = self.vocab.deep_view();
            let ghost mmc = self.merges@;
            if self.vocab.len() >= target_vocab_size {
                proof {
                    assert(outcome == (vmc, mmc, ids@));
                }
                return Ok(());
            }
            let found = match Self::find_freq_pair(&ids, "most") {
                Ok(o) => o,
                Err(_) => vstd::pervasive::unreached(),
            };
            match found {
                None => {
                    proof {
                        assert(outcome == (vmc, mmc, ids@));
                    }
                    return Ok(());
                },
                Some((l, r)) => {
                    proof {
                        crate::pairs::lemma_best_pair_canonical(ids@);
                        crate::pairs::lemma_count_pos_occurs(ids@, l, r);
                        let j = choose|j: int|
                            0 <= j && j + 2 <= ids@.len() && ids@[j] == l && #[trigger] ids@[j
                                + 1] == r;
                        assert(l < vmc.len() && r < vmc.len());
                    }
                    let ghost oldids = ids@;
                    let nid = self.vocab.len();
                    let merged = crate::model::chars_concat(&self.vocab[l], &self.vocab[r]);
                    proof {
                        assert(merged@ == vmc[l as int] + vmc[r as int]);
                    }
                    self.vocab.push(merged);
                    self.merges.push(Merge { left: l, right: r, new_id: nid });
                    let ids2 = Self::replace_pair(&ids, (l, r), nid);
                    ids = ids2;
                    proof {
                        assert(self.vocab.deep_view() =~~= vmc.push(vmc[l as int] + vmc[r as int]));
                        assert(self.merges@ =~= mmc.push(Merge { left: l, right: r, new_id: nid }));
                        assert(crate::model::merges_wf(self.vocab.deep_view(), self.merges@)) by {
                            assert forall|kk: int| 0 <= kk < self.merges@.len() implies {
                                let m = #[trigger] self.merges@[kk];
                                &&& (m.left as int) < self.vocab.deep_view().len()
                                &&& (m.right as int) < self.vocab.deep_view().len()
                                &&& (m.new_id as int) < self.vocab.deep_view().len()
                                &&& m.left < m.new_id
                                &&& m.right < m.new_id
                                &&& self.vocab.deep_view()[m.new_id as int]
                                    == self.vocab.deep_view()[m.left as int]
                                    + self.vocab.deep_view()[m.right as int]
                            } by {
                                if kk < mmc.len() {
                                    assert(self.merges@[kk] == mmc[kk]);
                                } else {
                                    assert(self.merges@[kk].new_id == nid);
                                }
                            }
                        }
                        crate::pairs::lemma_replaced_elems(
                            oldids,
                            l,
                            r,
                            nid,
                            self.vocab.deep_view().len() as int,
                        );
                    }
                },
            }
        }
    }
}

impl Default for BPETokenizer {
    /// Same as [`BPETokenizer::new`]: an empty tokenizer.
    fn default() -> (r: Self)
        ensures
            r.vocab_model() == Seq::<Seq<char>>::empty(),
            r.merges_model() == Seq::<Merge>::empty(),
            r.wf(),
    {
        BPETokenizer::new()
    }
}

} // verus!
