//! Adjacent-pair statistics over an id sequence: counting, selection of the
//! most or least frequent pair with a pinned tie-break, and non-overlapping
//! pair replacement. These are the two working steps of the training loop.

use vstd::prelude::*;

use crate::error::TokenizerError;
use crate::model::str_eq;

verus! {

/// How often the pair `(l, r)` occurs at adjacent positions of `ids`.
/// Overlapping windows count independently: `[a, a, a]` holds `(a, a)` twice.
pub open spec fn pair_count(ids: Seq<usize>, l: usize, r: usize) -> nat
    decreases ids.len(),
{
    if ids.len() < 2 {
        0
    } else {
        (if ids[0] == l && ids[1] == r {
            1nat
        } else {
            0nat
        }) + pair_count(ids.drop_first(), l, r)
    }
}

/// Strict lexicographic order on pairs: the pinned tie-break.
pub open spec fn lex_lt(a: (usize, usize), b: (usize, usize)) -> bool {
    a.0 < b.0 || (a.0 == b.0 && a.1 < b.1)
}

/// `a` is selected over `b` when looking for the most frequent pair: it
/// occurs strictly more often, or equally often and is lexicographically
/// smaller.
pub open spec fn more_frequent(ids: Seq<usize>, a: (usize, usize), b: (usize, usize)) -> bool {
    pair_count(ids, a.0, a.1) > pair_count(ids, b.0, b.1) || (pair_count(ids, a.0, a.1)
        == pair_count(ids, b.0, b.1) && lex_lt(a, b))
}

/// `a` is selected over `b` when looking for the least frequent pair.
pub open spec fn less_frequent(ids: Seq<usize>, a: (usize, usize), b: (usize, usize)) -> bool {
    pair_count(ids, a.0, a.1) < pair_count(ids, b.0, b.1) || (pair_count(ids, a.0, a.1)
        == pair_count(ids, b.0, b.1) && lex_lt(a, b))
}

/// The winner among the pairs at window positions `0 .. k` (position `i`
/// holds the pair `(ids[i], ids[i+1])`), under the most-frequent order.
pub open spec fn best_upto(ids: Seq<usize>, k: int) -> Option<(usize, usize)>
    decreases k,
{
    if k <= 0 || k >= ids.len() {
        None
    } else {
        let cur = (ids[k - 1], ids[k]);
        match best_upto(ids, k - 1) {
            None => Some(cur),
            Some(b) => if more_frequent(ids, cur, b) {
                Some(cur)
            } else {
                Some(b)
            },
        }
    }
}

/// The most frequent adjacent pair of `ids`, ties broken toward the
/// lexicographically smallest pair; `None` when no adjacent pair exists.
pub open spec fn best_pair(ids: Seq<usize>) -> Option<(usize, usize)> {
    if ids.len() < 2 {
        None
    } else {
        best_upto(ids, ids.len() - 1)
    }
}

/// The winner among the pairs at window positions `0 .. k`, under the
/// least-frequent order.
pub open spec fn least_upto(ids: Seq<usize>, k: int) -> Option<(usize, usize)>
    decreases k,
{
    if k <= 0 || k >= ids.len() {
        None
    } else {
        let cur = (ids[k - 1], ids[k]);
        match least_upto(ids, k - 1) {
            None => Some(cur),
            Some(b) => if less_frequent(ids, cur, b) {
                Some(cur)
            } else {
                Some(b)
            },
        }
    }
}

/// The least frequent adjacent pair of `ids`, ties broken toward the
/// lexicographically smallest pair.
pub open spec fn least_pair(ids: Seq<usize>) -> Option<(usize, usize)> {
    if ids.len() < 2 {
        None
    } else {
        least_upto(ids, ids.len() - 1)
    }
}

/// `ids` with every non-overlapping, left-to-right occurrence of `(l, r)`
/// rewritten to `n`: once a pair is rewritten, scanning resumes after it,
/// so `[a, a, a, a]` with pair `(a, a)` becomes `[n, n]`, not three merges.
pub open spec fn replaced(ids: Seq<usize>, l: usize, r: usize, n: usize) -> Seq<usize>
    decreases ids.len(),
{
    if ids.len() == 0 {
        Seq::empty()
    } else if ids.len() >= 2 && ids[0] == l && ids[1] == r {
        seq![n] + replaced(ids.skip(2), l, r, n)
    } else {
        seq![ids[0]] + replaced(ids.skip(1), l, r, n)
    }
}

proof fn lemma_pair_count_step(ids: Seq<usize>, l: usize, r: usize, i: int)
    requires
        0 <= i,
        i + 2 <= ids.len(),
    ensures
        pair_count(ids.skip(i), l, r) == (if ids[i] == l && ids[i + 1] == r {
            1nat
        } else {
            0nat
        }) + pair_count(ids.skip(i + 1), l, r),
{
    assert(ids.skip(i).drop_first() =~= ids.skip(i + 1));
    assert(ids.skip(i)[0] == ids[i]);
    assert(ids.skip(i)[1] == ids[i + 1]);
}

/// A pair that is counted occurs at some adjacent window.
pub proof fn lemma_count_pos_occurs(ids: Seq<usize>, l: usize, r: usize)
    requires
        pair_count(ids, l, r) >= 1,
    ensures
        exists|j: int| 0 <= j && j + 2 <= ids.len() && ids[j] == l && #[trigger] ids[j + 1] == r,
    decreases ids.len(),
{
    if ids.len() >= 2 {
        if ids[0] == l && ids[1] == r {
            assert(ids[0int + 1] == r);
        } else {
            lemma_count_pos_occurs(ids.drop_first(), l, r);
            let j = choose|j: int|
                0 <= j && j + 2 <= ids.drop_first().len() && ids.drop_first()[j] == l
                    && #[trigger] ids.drop_first()[j + 1] == r;
            assert(ids[j + 1] == l && ids[(j + 1) + 1] == r);
        }
    }
}

/// Replacement keeps every element below a bound that covers the old
/// elements and the new id.
pub proof fn lemma_replaced_elems(ids: Seq<usize>, l: usize, r: usize, n: usize, bound: int)
    requires
        forall|k: int| 0 <= k < ids.len() ==> #[trigger] ids[k] < bound,
        n < bound,
    ensures
        forall|k: int|
            0 <= k < replaced(ids, l, r, n).len() ==> #[trigger] replaced(ids, l, r, n)[k]
                < bound,
    decreases ids.len(),
{
    if ids.len() == 0 {
    } else if ids.len() >= 2 && ids[0] == l && ids[1] == r {
        assert forall|k: int| 0 <= k < ids.skip(2).len() implies #[trigger] ids.skip(2)[k]
            < bound by {
            assert(ids.skip(2)[k] == ids[k + 2]);
        }
        lemma_replaced_elems(ids.skip(2), l, r, n, bound);
        assert forall|k: int| 0 <= k < replaced(ids, l, r, n).len() implies #[trigger] replaced(
            ids,
            l,
            r,
            n,
        )[k] < bound by {
            if k > 0 {
                assert(replaced(ids, l, r, n)[k] == replaced(ids.skip(2), l, r, n)[k - 1]);
            }
        }
    } else {
        assert forall|k: int| 0 <= k < ids.skip(1).len() implies #[trigger] ids.skip(1)[k]
            < bound by {
            assert(ids.skip(1)[k] == ids[k + 1]);
        }
        lemma_replaced_elems(ids.skip(1), l, r, n, bound);
        assert forall|k: int| 0 <= k < replaced(ids, l, r, n).len() implies #[trigger] replaced(
            ids,
            l,
            r,
            n,
        )[k] < bound by {
            if k > 0 {
                assert(replaced(ids, l, r, n)[k] == replaced(ids.skip(1), l, r, n)[k - 1]);
            }
        }
    }
}

/// A pair read off an adjacent window occurs at least once.
pub proof fn lemma_window_pair_occurs(ids: Seq<usize>, j: int)
    requires
        0 <= j,
        j + 2 <= ids.len(),
    ensures
        pair_count(ids, ids[j], ids[j + 1]) >= 1,
    decreases j,
{
    if j == 0 {
    } else {
        lemma_window_pair_occurs(ids.drop_first(), j - 1);
        assert(ids.drop_first()[j - 1] == ids[j]);
        assert(ids.drop_first()[j] == ids[j + 1]);
    }
}

/// How often `(l, r)` occurs among the adjacent windows of `ids`.
pub fn count_pair(ids: &Vec<usize>, l: usize, r: usize) -> (c: usize)
    ensures
        c == pair_count(ids@, l, r),
{
    let n = ids.len();
    if n < 2 {
        return 0;
    }
    let mut c: usize = 0;
    let mut i: usize = 0;
    proof {
        assert(ids@.skip(0) =~= ids@);
    }
    while i < n - 1
        invariant
            2 <= n == ids@.len(),
            i <= n - 1,
            c <= i,
            c + pair_count(ids@.skip(i as int), l, r) == pair_count(ids@, l, r),
        decreases n - 1 - i,
    {
        proof {
            lemma_pair_count_step(ids@, l, r, i as int);
        }
        if ids[i] == l && ids[i + 1] == r {
            c = c + 1;
        }
        i = i + 1;
    }
    proof {
        assert(pair_count(ids@.skip(n - 1 as int), l, r) == 0);
    }
    c
}

fn select_pair(ids: &Vec<usize>, most: bool) -> (r: Option<(usize, usize)>)
    ensures
        most ==> r == best_pair(ids@),
        !most ==> r == least_pair(ids@),
{
    let n = ids.len();
    if n < 2 {
        return None;
    }
    let mut bl = ids[0];
    let mut br = ids[1];
    let mut bc = count_pair(ids, bl, br);
    let mut i: usize = 1;
    proof {
        assert(best_upto(ids@, 0) is None);
        assert(least_upto(ids@, 0) is None);
        assert(best_upto(ids@, 1) == Some((ids@[0], ids@[1])));
        assert(least_upto(ids@, 1) == Some((ids@[0], ids@[1])));
    }
    while i < n - 1
        invariant
            2 <= n == ids@.len(),
            1 <= i <= n - 1,
            bc == pair_count(ids@, bl, br),
            most ==> best_upto(ids@, i as int) == Some((bl, br)),
            !most ==> least_upto(ids@, i as int) == Some((bl, br)),
        decreases n - 1 - i,
    {
        let cl = ids[i];
        let cr = ids[i + 1];
        let cc = count_pair(ids, cl, cr);
        let take = if most {
            cc > bc || (cc == bc && (cl < bl || (cl == bl && cr < br)))
        } else {
            cc < bc || (cc == bc && (cl < bl || (cl == bl && cr < br)))
        };
        proof {
            if most {
                assert(take == more_frequent(ids@, (cl, cr), (bl, br)));
            } else {
                assert(take == less_frequent(ids@, (cl, cr), (bl, br)));
            }
        }
        if take {
            bl = cl;
            br = cr;
            bc = cc;
        }
        i = i + 1;
    }
    Some((bl, br))
}

impl crate::tokenizer::BPETokenizer {
    /// The most (`"most"`) or least (`"least"`) frequent adjacent pair of
    /// `token_ids`, with ties broken toward the lexicographically smallest
    /// pair; `None` when the sequence has no adjacent pair; `InvalidMode`
    /// for any other mode string.
    pub fn find_freq_pair(token_ids: &Vec<usize>, mode: &str) -> (r: Result<
        Option<(usize, usize)>,
        TokenizerError,
    >)
        ensures
            mode@ == "most"@ ==> r == Ok::<Option<(usize, usize)>, TokenizerError>(
                best_pair(token_ids@),
            ),
            mode@ == "least"@ ==> r == Ok::<Option<(usize, usize)>, TokenizerError>(
                least_pair(token_ids@),
            ),
            mode@ != "most"@ && mode@ != "least"@ ==> r == Err::<
                Option<(usize, usize)>,
                TokenizerError,
            >(TokenizerError::InvalidMode),
    {
        proof {
            reveal_strlit("most");
            reveal_strlit("least");
            assert("most"@.len() == 4);
            assert("least"@.len() == 5);
        }
        if str_eq(mode, "most") {
            Ok(select_pair(token_ids, true))
        } else if str_eq(mode, "least") {
            Ok(select_pair(token_ids, false))
        } else {
            Err(TokenizerError::InvalidMode)
        }
    }

    /// `token_ids` with every non-overlapping, left-to-right occurrence of
    /// `pair_id` rewritten to `new_id`.
    pub fn replace_pair(token_ids: &Vec<usize>, pair_id: (usize, usize), new_id: usize) -> (r:
        Vec<usize>)
        ensures
            r@ == replaced(token_ids@, pair_id.0, pair_id.1, new_id),
    {
        let (l, r) = pair_id;
        let n = token_ids.len();
        let mut out: Vec<usize> = Vec::new();
        let mut i: usize = 0;
        proof {
            assert(token_ids@.skip(0) =~= token_ids@);
            assert(Seq::<usize>::empty() + replaced(token_ids@, l, r, new_id) =~= replaced(
                token_ids@,
                l,
                r,
                new_id,
            ));
        }
        while i < n
            invariant
                i <= n,
                n == token_ids@.len(),
                out@ + replaced(token_ids@.skip(i as int), l, r, new_id) == replaced(
                    token_ids@,
                    l,
                    r,
                    new_id,
                ),
            decreases n - i,
        {
            let ghost pre = out@;
            let ghost suf = token_ids@.skip(i as int);
            if i + 1 < n && token_ids[i] == l && token_ids[i + 1] == r {
                out.push(new_id);
                proof {
                    assert(suf[0] == token_ids@[i as int]);
                    assert(suf[1] == token_ids@[i + 1]);
                    assert(suf.skip(2) =~= token_ids@.skip(i + 2));
                    assert(out@ + replaced(token_ids@.skip(i + 2), l, r, new_id) =~= pre + (
                    seq![new_id] + replaced(token_ids@.skip(i + 2), l, r, new_id)));
                }
                i = i + 2;
            } else {
                out.push(token_ids[i]);
                proof {
                    assert(suf[0] == token_ids@[i as int]);
                    assert(suf.skip(1) =~= token_ids@.skip(i + 1));
                    if suf.len() >= 2 {
                        assert(suf[1] == token_ids@[i + 1]);
                    }
                    assert(out@ + replaced(token_ids@.skip(i + 1), l, r, new_id) =~= pre + (
                    seq![token_ids@[i as int]] + replaced(
                        token_ids@.skip(i + 1),
                        l,
                        r,
                        new_id,
                    )));
                }
                i = i + 1;
            }
        }
        proof {
            assert(token_ids@.skip(n as int) =~= Seq::<usize>::empty());
            assert(out@ =~= out@ + Seq::<usize>::empty());
        }
        out
    }
}

proof fn lemma_best_upto_props(ids: Seq<usize>, k: int)
    requires
        1 <= k < ids.len(),
    ensures
        best_upto(ids, k) is Some,
        ({
            let p = best_upto(ids, k)->Some_0;
            &&& exists|j: int| 0 <= j < k && ids[j] == p.0 && #[trigger] ids[j + 1] == p.1
            &&& forall|j: int|
                0 <= j < k ==> !more_frequent(ids, (ids[j], #[trigger] ids[j + 1]), p)
        }),
    decreases k,
{
    let p = best_upto(ids, k)->Some_0;
    let cur = (ids[k - 1], ids[k]);
    if k == 1 {
        assert(ids[0] == p.0 && ids[0int + 1] == p.1);
    } else {
        lemma_best_upto_props(ids, k - 1);
        let b = best_upto(ids, k - 1)->Some_0;
        if more_frequent(ids, cur, b) {
            assert(ids[k - 1] == p.0 && ids[(k - 1) + 1] == p.1);
            assert forall|j: int| 0 <= j < k implies !more_frequent(
                ids,
                (ids[j], #[trigger] ids[j + 1]),
                p,
            ) by {
                if j < k - 1 {
                    let q = (ids[j], ids[j + 1]);
                    assert(!more_frequent(ids, q, b));
                    // not more frequent than b, and cur beats b, so q does
                    // not beat cur either
                }
            }
        } else {
            assert(p == b);
        }
    }
}

/// The selected most-frequent pair occurs in `ids`, and no adjacent pair of
/// `ids` either occurs strictly more often or ties with it while being
/// lexicographically smaller. Together with determinism of the selection
/// function, this pins the training pair choice completely.
pub proof fn lemma_best_pair_canonical(ids: Seq<usize>)
    requires
        ids.len() >= 2,
    ensures
        best_pair(ids) is Some,
        ({
            let p = best_pair(ids)->Some_0;
            &&& pair_count(ids, p.0, p.1) >= 1
            &&& forall|j: int|
                0 <= j < ids.len() - 1 ==> !more_frequent(ids, (ids[j], #[trigger] ids[j + 1]), p)
        }),
{
    lemma_best_upto_props(ids, ids.len() - 1);
    let p = best_pair(ids)->Some_0;
    let j = choose|j: int| 0 <= j < ids.len() - 1 && ids[j] == p.0 && #[trigger] ids[j + 1] == p.1;
    lemma_window_pair_occurs(ids, j);
    let last = ids.len() - 2;
    assert(!more_frequent(ids, (ids[last], ids[last + 1]), p));
}

} // verus!
