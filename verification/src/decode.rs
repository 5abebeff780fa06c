//! Decoding: token ids back to text.
//!
//! Each id is looked up in the vocabulary; an unknown id fails the whole
//! call with `TokenIdNotFound`. A token string with a leading word-boundary
//! marker is emitted as one space followed by the rest of the string; every
//! other token string (the newline token included) is appended unchanged.
//! Nothing else is inserted: together with the segmentation rule this makes
//! decoding the exact inverse of encoding.

use vstd::prelude::*;

use crate::error::{ErrSpec, TokenizerError};
use crate::model::chars_to_string;
use crate::segment::render_token;
use crate::tokenizer::BPETokenizer;

verus! {

/// What `decode` returns: the concatenation of the rendered token strings,
/// or the first unknown id, scanning left to right.
pub open spec fn decode_spec(vocab: Seq<Seq<char>>, ids: Seq<usize>) -> Result<Seq<char>, ErrSpec>
    decreases ids.len(),
{
    if ids.len() == 0 {
        Ok(Seq::empty())
    } else if ids[0] as int >= vocab.len() {
        Err(ErrSpec::TokenIdNotFound(ids[0] as int))
    } else {
        match decode_spec(vocab, ids.drop_first()) {
            Ok(rest) => Ok(render_token(vocab[ids[0] as int]) + rest),
            Err(e) => Err(e),
        }
    }
}

/// `r` with `pre` prepended to its success value.
pub open spec fn ok_prepend(pre: Seq<char>, r: Result<Seq<char>, ErrSpec>) -> Result<
    Seq<char>,
    ErrSpec,
> {
    match r {
        Ok(s) => Ok(pre + s),
        Err(e) => Err(e),
    }
}

/// Appends the rendering of one token string.
fn push_rendered(out: &mut Vec<char>, tok: &Vec<char>)
    ensures
        final(out)@ == old(out)@ + render_token(tok@),
{
    let ghost base = out@;
    if tok.len() > 0 && tok[0] == 'Ġ' {
        out.push(' ');
        let mut k: usize = 1;
        while k < tok.len()
            invariant
                1 <= k <= tok@.len(),
                out@ == base + seq![' '] + tok@.subrange(1, k as int),
            decreases tok@.len() - k,
        {
            out.push(tok[k]);
            proof {
                assert(base + seq![' '] + tok@.subrange(1, k + 1) =~= (base + seq![' ']
                    + tok@.subrange(1, k as int)).push(tok@[k as int]));
            }
            k = k + 1;
        }
        proof {
            assert(tok@.subrange(1, tok@.len() as int) =~= tok@.skip(1));
            assert(base + seq![' '] + tok@.skip(1) =~= base + (seq![' '] + tok@.skip(1)));
        }
    } else {
        let mut k: usize = 0;
        while k < tok.len()
            invariant
                0 <= k <= tok@.len(),
                out@ == base + tok@.subrange(0, k as int),
            decreases tok@.len() - k,
        {
            out.push(tok[k]);
            proof {
                assert(base + tok@.subrange(0, k + 1) =~= (base + tok@.subrange(
                    0,
                    k as int,
                )).push(tok@[k as int]));
            }
            k = k + 1;
        }
        proof {
            assert(base + tok@.subrange(0, tok@.len() as int) =~= base + tok@);
            assert(render_token(tok@) == tok@);
        }
    }
}

impl BPETokenizer {
    /// Decodes a list of token ids back into a string: each id's token
    /// string is rendered in order; an id outside the vocabulary fails the
    /// whole call with `TokenIdNotFound` (the first such id, left to right).
    pub fn decode(&self, token_ids: &Vec<usize>) -> (r: Result<String, TokenizerError>)
        ensures
            match decode_spec(self.vocab_model(), token_ids@) {
                Ok(text) => r matches Ok(s) && s@ == text,
                Err(e) => r matches Err(x) && x@ == e,
            },
    {
        let ghost vm = self.vocab_model();
        let n = token_ids.len();
        let mut out: Vec<char> = Vec::new();
        let mut i: usize = 0;
        proof {
            assert(token_ids@.skip(0) =~= token_ids@);
            if decode_spec(vm, token_ids@) is Ok {
                assert(Seq::<char>::empty() + decode_spec(vm, token_ids@)->Ok_0 =~= decode_spec(
                    vm,
                    token_ids@,
                )->Ok_0);
            }
        }
        while i < n
            invariant
                i <= n,
                n == token_ids@.len(),
                vm == self.vocab_model(),
                decode_spec(vm, token_ids@) == ok_prepend(
                    out@,
                    decode_spec(vm, token_ids@.skip(i as int)),
                ),
            decreases n - i,
        {
            let ghost suf = token_ids@.skip(i as int);
            proof {
                assert(suf[0] == token_ids@[i as int]);
                assert(suf.drop_first() =~= token_ids@.skip(i + 1));
            }
            let id = token_ids[i];
            if id >= self.vocab.len() {
                return Err(TokenizerError::TokenIdNotFound(id));
            }
            let ghost pre = out@;
            proof {
                assert(vm[id as int] == self.vocab@[id as int]@);
            }
            push_rendered(&mut out, &self.vocab[id]);
            proof {
                let rt = render_token(vm[id as int]);
                let rest = decode_spec(vm, token_ids@.skip(i + 1));
                if rest is Ok {
                    assert(pre + (rt + rest->Ok_0) =~= (pre + rt) + rest->Ok_0);
                }
                assert(ok_prepend(pre, decode_spec(vm, suf)) == ok_prepend(pre + rt, rest));
            }
            i = i + 1;
        }
        proof {
            assert(token_ids@.skip(n as int) =~= Seq::<usize>::empty());
        }
        Ok(chars_to_string(&out))
    }
}

} // verus!
