//! Word segmentation: the rule that splits raw text into the tokens the
//! encoder looks up, and its inverse, the rendering rule the decoder applies.
//!
//! The pinned whitespace decision: a newline is its own one-character token;
//! a space directly before a word attaches to it as a word-boundary-marker
//! prefix; any other space becomes a standalone marker token. Rendering maps
//! a leading marker back to one space and leaves everything else unchanged,
//! so segmenting and rendering are exact inverses for any text that does not
//! itself contain the reserved marker character.

use vstd::prelude::*;

use crate::model::{is_word_char, marker};

verus! {

/// The length of the longest word prefix of `t`.
pub open spec fn word_len(t: Seq<char>) -> nat
    decreases t.len(),
{
    if t.len() == 0 || !is_word_char(t[0]) {
        0
    } else {
        1 + word_len(t.drop_first())
    }
}

pub proof fn lemma_word_len_props(t: Seq<char>)
    ensures
        word_len(t) <= t.len(),
        forall|i: int| 0 <= i < word_len(t) ==> is_word_char(#[trigger] t[i]),
        word_len(t) == t.len() || !is_word_char(t[word_len(t) as int]),
    decreases t.len(),
{
    if t.len() > 0 && is_word_char(t[0]) {
        lemma_word_len_props(t.drop_first());
        assert forall|i: int| 0 <= i < word_len(t) implies is_word_char(#[trigger] t[i]) by {
            if i > 0 {
                assert(t.drop_first()[i - 1] == t[i]);
            }
        }
        if word_len(t) < t.len() {
            assert(t.drop_first()[word_len(t) - 1int] == t[word_len(t) as int]);
        }
    }
}

/// The token sequence of `text`.
pub open spec fn segment(text: Seq<char>) -> Seq<Seq<char>>
    decreases text.len(),
{
    if text.len() == 0 {
        Seq::empty()
    } else if text[0] == '\n' {
        seq![seq!['\n']] + segment(text.skip(1))
    } else if text[0] == ' ' {
        if text.len() >= 2 && is_word_char(text[1]) {
            let w = word_len(text.skip(1)) as int;
            proof {
                lemma_word_len_props(text.skip(1));
            }
            seq![seq![marker()] + text.subrange(1, 1 + w)] + segment(text.skip(1 + w))
        } else {
            seq![seq![marker()]] + segment(text.skip(1))
        }
    } else {
        let w: int = 1 + word_len(text.skip(1)) as int;
        proof {
            lemma_word_len_props(text.skip(1));
        }
        seq![text.subrange(0, w)] + segment(text.skip(w))
    }
}

/// In the bare-word case the token length is the word-run length.
pub proof fn lemma_word_len_unfold(text: Seq<char>)
    requires
        text.len() > 0,
        is_word_char(text[0]),
    ensures
        word_len(text) == 1 + word_len(text.skip(1)),
{
    assert(text.drop_first() =~= text.skip(1));
}

/// What the decoder emits for one token string: a leading word-boundary
/// marker becomes one space; every other token is appended unchanged.
pub open spec fn render_token(t: Seq<char>) -> Seq<char> {
    if t.len() > 0 && t[0] == marker() {
        seq![' '] + t.skip(1)
    } else {
        t
    }
}

/// The text a sequence of token strings renders to.
pub open spec fn render(ts: Seq<Seq<char>>) -> Seq<char>
    decreases ts.len(),
{
    if ts.len() == 0 {
        Seq::empty()
    } else {
        render_token(ts[0]) + render(ts.drop_first())
    }
}

/// A string of word characters, free of the reserved marker.
pub open spec fn plain_chars(t: Seq<char>) -> bool {
    forall|i: int| 0 <= i < t.len() ==> is_word_char(#[trigger] t[i]) && t[i] != marker()
}

/// The shapes a segmentation token can take: a lone newline, a
/// marker-prefixed word, or a bare word.
pub open spec fn good_token(t: Seq<char>) -> bool {
    t.len() >= 1 && (t == seq!['\n'] || (t[0] == marker() && plain_chars(t.skip(1))) || (t[0]
        != marker() && plain_chars(t)))
}

proof fn lemma_render_cons(ts: Seq<Seq<char>>, t: Seq<char>)
    ensures
        render(seq![t] + ts) == render_token(t) + render(ts),
{
    let all = seq![t] + ts;
    assert(all[0] == t);
    assert(all.drop_first() =~= ts);
}

/// Rendering undoes segmentation: for any text free of the reserved marker
/// character, the segmentation tokens render back to exactly that text.
pub proof fn lemma_segment_render(text: Seq<char>)
    requires
        forall|i: int| 0 <= i < text.len() ==> #[trigger] text[i] != marker(),
    ensures
        render(segment(text)) == text,
    decreases text.len(),
{
    if text.len() == 0 {
        assert(render(segment(text)) =~= text);
    } else if text[0] == '\n' {
        lemma_render_cons(segment(text.skip(1)), seq!['\n']);
        lemma_segment_render(text.skip(1));
        assert(render_token(seq!['\n']) =~= seq!['\n']);
        assert(seq!['\n'] + text.skip(1) =~= text);
    } else if text[0] == ' ' {
        if text.len() >= 2 && is_word_char(text[1]) {
            let w = word_len(text.skip(1)) as int;
            lemma_word_len_props(text.skip(1));
            let tok = seq![marker()] + text.subrange(1, 1 + w);
            lemma_render_cons(segment(text.skip(1 + w)), tok);
            lemma_segment_render(text.skip(1 + w));
            assert(tok[0] == marker());
            assert(tok.skip(1) =~= text.subrange(1, 1 + w));
            assert(render_token(tok) =~= seq![' '] + text.subrange(1, 1 + w));
            assert((seq![' '] + text.subrange(1, 1 + w)) + text.skip(1 + w) =~= text);
        } else {
            lemma_render_cons(segment(text.skip(1)), seq![marker()]);
            lemma_segment_render(text.skip(1));
            assert(render_token(seq![marker()]) =~= seq![' ']);
            assert(seq![' '] + text.skip(1) =~= text);
        }
    } else {
        lemma_word_len_unfold(text);
        let w = word_len(text) as int;
        lemma_word_len_props(text);
        assert(w >= 1);
        let tok = text.subrange(0, w);
        lemma_render_cons(segment(text.skip(w)), tok);
        lemma_segment_render(text.skip(w));
        assert(tok[0] == text[0]);
        assert(tok[0] != marker());
        assert(render_token(tok) == tok);
        assert(tok + text.skip(w) =~= text);
    }
}

/// Every token of a segmentation is one of the three good shapes, provided
/// the text is free of the reserved marker character.
pub proof fn lemma_segment_tokens_good(text: Seq<char>)
    requires
        forall|i: int| 0 <= i < text.len() ==> #[trigger] text[i] != marker(),
    ensures
        forall|k: int|
            0 <= k < segment(text).len() ==> good_token(#[trigger] segment(text)[k]),
    decreases text.len(),
{
    if text.len() == 0 {
    } else if text[0] == '\n' {
        lemma_segment_tokens_good(text.skip(1));
        let ts = segment(text);
        assert(ts[0] == seq!['\n']);
        assert(good_token(seq!['\n']));
        assert forall|k: int| 1 <= k < ts.len() implies good_token(#[trigger] ts[k]) by {
            assert(ts[k] == segment(text.skip(1))[k - 1]);
        }
    } else if text[0] == ' ' {
        if text.len() >= 2 && is_word_char(text[1]) {
            let w = word_len(text.skip(1)) as int;
            lemma_word_len_props(text.skip(1));
            lemma_segment_tokens_good(text.skip(1 + w));
            let ts = segment(text);
            let tok = seq![marker()] + text.subrange(1, 1 + w);
            assert(ts[0] == tok);
            assert(tok.skip(1) =~= text.subrange(1, 1 + w));
            assert forall|i: int| 0 <= i < tok.skip(1).len() implies is_word_char(
                #[trigger] tok.skip(1)[i],
            ) && tok.skip(1)[i] != marker() by {
                assert(tok.skip(1)[i] == text.skip(1)[i]);
                assert(text.skip(1)[i] == text[1 + i]);
            }
            assert(good_token(tok));
            assert forall|k: int| 1 <= k < ts.len() implies good_token(#[trigger] ts[k]) by {
                assert(ts[k] == segment(text.skip(1 + w))[k - 1]);
            }
        } else {
            lemma_segment_tokens_good(text.skip(1));
            let ts = segment(text);
            assert(ts[0] == seq![marker()]);
            assert(seq![marker()].skip(1) =~= Seq::<char>::empty());
            assert(good_token(seq![marker()]));
            assert forall|k: int| 1 <= k < ts.len() implies good_token(#[trigger] ts[k]) by {
                assert(ts[k] == segment(text.skip(1))[k - 1]);
            }
        }
    } else {
        lemma_word_len_unfold(text);
        let w = word_len(text) as int;
        lemma_word_len_props(text);
        lemma_segment_tokens_good(text.skip(w));
        let ts = segment(text);
        let tok = text.subrange(0, w);
        assert(ts[0] == tok);
        assert forall|i: int| 0 <= i < tok.len() implies is_word_char(#[trigger] tok[i])
            && tok[i] != marker() by {
            assert(tok[i] == text[i]);
        }
        assert(good_token(tok));
        assert forall|k: int| 1 <= k < ts.len() implies good_token(#[trigger] ts[k]) by {
            assert(ts[k] == segment(text.skip(w))[k - 1]);
        }
    }
}

/// Every character of every segmentation token is the marker or a character
/// of the text.
pub proof fn lemma_segment_tokens_chars(text: Seq<char>)
    ensures
        forall|k: int, i: int|
            0 <= k < segment(text).len() && 0 <= i < segment(text)[k].len()
                ==> #[trigger] segment(text)[k][i] == marker() || exists|j: int|
                0 <= j < text.len() && text[j] == segment(text)[k][i],
    decreases text.len(),
{
    if text.len() == 0 {
    } else {
        let ts = segment(text);
        let o: int = if text[0] == '\n' {
            1
        } else if text[0] == ' ' {
            if text.len() >= 2 && is_word_char(text[1]) {
                1 + word_len(text.skip(1)) as int
            } else {
                1
            }
        } else {
            1 + word_len(text.skip(1)) as int
        };
        lemma_word_len_props(text.skip(1));
        lemma_segment_tokens_chars(text.skip(o));
        assert forall|k: int, i: int|
            0 <= k < ts.len() && 0 <= i < ts[k].len() implies #[trigger] ts[k][i] == marker()
            || exists|j: int| 0 <= j < text.len() && text[j] == ts[k][i] by {
            if k == 0 {
                if text[0] == '\n' {
                    assert(text[0] == ts[k][i]);
                } else if text[0] == ' ' {
                    if text.len() >= 2 && is_word_char(text[1]) {
                        if i >= 1 {
                            assert(ts[0][i] == text.subrange(1, o)[i - 1]);
                            assert(text[i] == ts[k][i]);
                        }
                    }
                } else {
                    assert(ts[0][i] == text.subrange(0, o)[i]);
                    assert(text[i] == ts[k][i]);
                }
            } else {
                assert(ts[k] == segment(text.skip(o))[k - 1]);
                let c = ts[k][i];
                if c != marker() {
                    let j = choose|j: int|
                        0 <= j < text.skip(o).len() && #[trigger] text.skip(o)[j] == c;
                    assert(text[o + j] == c);
                }
            }
        }
    }
}

/// The end of the word run that starts at `start`.
pub fn scan_word(text: &Vec<char>, start: usize) -> (j: usize)
    requires
        start <= text@.len(),
    ensures
        start <= j <= text@.len(),
        j - start == word_len(text@.skip(start as int)),
{
    let n = text.len();
    let mut j = start;
    while j < n && text[j] != ' ' && text[j] != '\n'
        invariant
            start <= j <= n,
            n == text@.len(),
            word_len(text@.skip(start as int)) == j - start + word_len(text@.skip(j as int)),
        decreases n - j,
    {
        proof {
            assert(text@.skip(j as int)[0] == text@[j as int]);
            assert(text@.skip(j as int).drop_first() =~= text@.skip(j + 1));
        }
        j = j + 1;
    }
    proof {
        if j < n {
            assert(text@.skip(j as int)[0] == text@[j as int]);
            assert(word_len(text@.skip(j as int)) == 0);
        } else {
            assert(text@.skip(j as int).len() == 0);
        }
    }
    j
}

/// The characters `text[from..to]`, with the marker prefixed when asked.
pub fn copy_range(text: &Vec<char>, from: usize, to: usize, mark: bool) -> (t: Vec<char>)
    requires
        from <= to <= text@.len(),
    ensures
        mark ==> t@ == seq![marker()] + text@.subrange(from as int, to as int),
        !mark ==> t@ == text@.subrange(from as int, to as int),
{
    let mut t: Vec<char> = Vec::new();
    if mark {
        t.push('Ġ');
    }
    let ghost base = t@;
    let mut k = from;
    while k < to
        invariant
            from <= k <= to <= text@.len(),
            t@ == base + text@.subrange(from as int, k as int),
        decreases to - k,
    {
        t.push(text[k]);
        proof {
            assert(base + text@.subrange(from as int, k + 1) =~= (base + text@.subrange(
                from as int,
                k as int,
            )).push(text@[k as int]));
        }
        k = k + 1;
    }
    proof {
        if !mark {
            assert(base =~= Seq::<char>::empty());
            assert(t@ =~= text@.subrange(from as int, to as int));
        } else {
            assert(base =~= seq![marker()]);
        }
    }
    t
}

/// The segmentation tokens of `text`, as character vectors.
pub fn segment_text(text: &Vec<char>) -> (r: Vec<Vec<char>>)
    ensures
        r.deep_view() == segment(text@),
{
    let n = text.len();
    let mut out: Vec<Vec<char>> = Vec::new();
    let mut i: usize = 0;
    proof {
        assert(text@.skip(0) =~= text@);
        assert(out.deep_view() =~= Seq::<Seq<char>>::empty());
        assert(Seq::<Seq<char>>::empty() + segment(text@) =~= segment(text@));
    }
    while i < n
        invariant
            i <= n,
            n == text@.len(),
            out.deep_view() + segment(text@.skip(i as int)) == segment(text@),
        decreases n - i,
    {
        let ghost pre = out.deep_view();
        let ghost suf = text@.skip(i as int);
        proof {
            assert(suf[0] == text@[i as int]);
        }
        let c = text[i];
        if c == '\n' {
            let mut t: Vec<char> = Vec::new();
            t.push('\n');
            let ghost tv = t@;
            out.push(t);
            proof {
                assert(tv =~= seq!['\n']);
                assert(out.deep_view() =~~= pre.push(tv));
                assert(suf.skip(1) =~= text@.skip(i + 1));
                assert(pre.push(tv) + segment(text@.skip(i + 1)) =~= pre + (seq![tv] + segment(
                    suf.skip(1),
                )));
            }
            i = i + 1;
        } else if c == ' ' {
            if i + 1 < n && text[i + 1] != ' ' && text[i + 1] != '\n' {
                proof {
                    assert(suf[1] == text@[i + 1]);
                    assert(suf.skip(1) =~= text@.skip(i + 1));
                }
                let j = scan_word(text, i + 1);
                let ghost w = word_len(text@.skip(i + 1)) as int;
                let t = copy_range(text, i + 1, j, true);
                let ghost tv = t@;
                out.push(t);
                proof {
                    assert(suf.subrange(1, 1 + w) =~= text@.subrange(i + 1, j as int));
                    assert(tv =~= seq![marker()] + suf.subrange(1, 1 + w));
                    assert(out.deep_view() =~~= pre.push(tv));
                    assert(suf.skip(1 + w) =~= text@.skip(j as int));
                    assert(pre.push(tv) + segment(text@.skip(j as int)) =~= pre + (seq![tv]
                        + segment(suf.skip(1 + w))));
                }
                i = j;
            } else {
                let mut t: Vec<char> = Vec::new();
                t.push('Ġ');
                let ghost tv = t@;
                out.push(t);
                proof {
                    if i + 1 < n {
                        assert(suf[1] == text@[i + 1]);
                    }
                    assert(!(suf.len() >= 2 && is_word_char(suf[1])));
                    assert(tv =~= seq![marker()]);
                    assert(out.deep_view() =~~= pre.push(tv));
                    assert(suf.skip(1) =~= text@.skip(i + 1));
                    assert(pre.push(tv) + segment(text@.skip(i + 1)) =~= pre + (seq![tv]
                        + segment(suf.skip(1))));
                }
                i = i + 1;
            }
        } else {
            let j = scan_word(text, i);
            let ghost w = word_len(text@.skip(i as int)) as int;
            proof {
                lemma_word_len_unfold(suf);
                assert(suf.skip(1) =~= text@.skip(i + 1));
                assert(w >= 1);
            }
            let t = copy_range(text, i, j, false);
            let ghost tv = t@;
            out.push(t);
            proof {
                assert(suf.subrange(0, w) =~= text@.subrange(i as int, j as int));
                assert(tv =~= suf.subrange(0, w));
                assert(out.deep_view() =~~= pre.push(tv));
                assert(suf.skip(w) =~= text@.skip(j as int));
                assert(pre.push(tv) + segment(text@.skip(j as int)) =~= pre + (seq![tv] + segment(
                    suf.skip(w),
                )));
            }
            i = j;
        }
    }
    proof {
        assert(text@.skip(n as int) =~= Seq::<char>::empty());
        assert(out.deep_view() + segment(Seq::<char>::empty()) =~= out.deep_view());
    }
    out
}

} // verus!
