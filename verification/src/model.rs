//! The mathematical model of the tokenizer state, and small verified
//! character-vector utilities shared by the other modules.

use vstd::prelude::*;
use vstd::string::StrSliceExecFns;

use crate::tokenizer::Merge;

verus! {

/// The reserved word-boundary marker character. A token string beginning
/// with it denotes "this token began a new word preceded by whitespace".
pub open spec fn marker() -> char {
    'Ġ'
}

/// True of the characters a word may consist of: everything except the two
/// characters the segmenter treats as separators.
pub open spec fn is_word_char(c: char) -> bool {
    c != ' ' && c != '\n'
}

/// The first index at or after `k` whose vocabulary entry equals `w`.
pub open spec fn token_index_from(vocab: Seq<Seq<char>>, w: Seq<char>, k: int) -> Option<int>
    decreases vocab.len() - k,
{
    if k < 0 || k >= vocab.len() {
        None
    } else if vocab[k] == w {
        Some(k)
    } else {
        token_index_from(vocab, w, k + 1)
    }
}

/// The id of token string `w`: the first vocabulary index holding it.
pub open spec fn token_index(vocab: Seq<Seq<char>>, w: Seq<char>) -> Option<int> {
    token_index_from(vocab, w, 0)
}

/// Whether some vocabulary entry equals `w`.
pub open spec fn vocab_has(vocab: Seq<Seq<char>>, w: Seq<char>) -> bool {
    exists|i: int| 0 <= i < vocab.len() && #[trigger] vocab[i] == w
}

pub proof fn lemma_token_index_from_props(vocab: Seq<Seq<char>>, w: Seq<char>, k: int)
    requires
        0 <= k <= vocab.len(),
    ensures
        match token_index_from(vocab, w, k) {
            Some(i) => k <= i < vocab.len() && vocab[i] == w && forall|j: int|
                k <= j < i ==> #[trigger] vocab[j] != w,
            None => forall|j: int| k <= j < vocab.len() ==> #[trigger] vocab[j] != w,
        },
    decreases vocab.len() - k,
{
    if k < vocab.len() && vocab[k] != w {
        lemma_token_index_from_props(vocab, w, k + 1);
    }
}

/// `token_index` finds `w` exactly when some entry equals `w`.
pub proof fn lemma_token_index_props(vocab: Seq<Seq<char>>, w: Seq<char>)
    ensures
        match token_index(vocab, w) {
            Some(i) => 0 <= i < vocab.len() && vocab[i] == w && forall|j: int|
                0 <= j < i ==> #[trigger] vocab[j] != w,
            None => !vocab_has(vocab, w),
        },
        token_index(vocab, w) is Some <==> vocab_has(vocab, w),
{
    lemma_token_index_from_props(vocab, w, 0);
    match token_index(vocab, w) {
        Some(i) => {
            assert(vocab_has(vocab, w));
        },
        None => {},
    }
}

/// The id an ordered pair merges into: the `new_id` of the first merge
/// record for that pair, if any.
pub open spec fn merge_index_from(merges: Seq<Merge>, l: usize, r: usize, k: int) -> Option<int>
    decreases merges.len() - k,
{
    if k < 0 || k >= merges.len() {
        None
    } else if merges[k].left == l && merges[k].right == r {
        Some(k)
    } else {
        merge_index_from(merges, l, r, k + 1)
    }
}

pub open spec fn merge_index(merges: Seq<Merge>, l: usize, r: usize) -> Option<int> {
    merge_index_from(merges, l, r, 0)
}

/// What the pair `(l, r)` rewrites to, if the merge table knows it.
pub open spec fn merge_lookup(merges: Seq<Merge>, l: usize, r: usize) -> Option<usize> {
    match merge_index(merges, l, r) {
        Some(i) => Some(merges[i].new_id),
        None => None,
    }
}

pub proof fn lemma_merge_index_from_props(merges: Seq<Merge>, l: usize, r: usize, k: int)
    requires
        0 <= k <= merges.len(),
    ensures
        match merge_index_from(merges, l, r, k) {
            Some(i) => k <= i < merges.len() && merges[i].left == l && merges[i].right == r
                && forall|j: int|
                k <= j < i ==> !(#[trigger] merges[j].left == l && merges[j].right == r),
            None => forall|j: int|
                k <= j < merges.len() ==> !(#[trigger] merges[j].left == l && merges[j].right
                    == r),
        },
    decreases merges.len() - k,
{
    if k < merges.len() && !(merges[k].left == l && merges[k].right == r) {
        lemma_merge_index_from_props(merges, l, r, k + 1);
    }
}

/// Every merge record names ids below the vocabulary size, its merged id is
/// strictly above both operands, and the merged id's string is the
/// concatenation of the operands' strings.
pub open spec fn merges_wf(vocab: Seq<Seq<char>>, merges: Seq<Merge>) -> bool {
    forall|k: int| 0 <= k < merges.len() ==> {
        let m = #[trigger] merges[k];
        &&& (m.left as int) < vocab.len()
        &&& (m.right as int) < vocab.len()
        &&& (m.new_id as int) < vocab.len()
        &&& m.left < m.new_id
        &&& m.right < m.new_id
        &&& vocab[m.new_id as int] == vocab[m.left as int] + vocab[m.right as int]
    }
}

/// A well-formed tokenizer state: the merge-table invariant of the data
/// model. (Id-to-string is total by construction, ids being vector indices;
/// string-to-id lookups take the first matching id, so a duplicate string —
/// possible when a caller-supplied special token equals a later merge's
/// concatenation — costs nothing.)
pub open spec fn state_wf(vocab: Seq<Seq<char>>, merges: Seq<Merge>) -> bool {
    merges_wf(vocab, merges)
}

/// The concatenation of a sequence of strings.
pub open spec fn concat_all(ts: Seq<Seq<char>>) -> Seq<char>
    decreases ts.len(),
{
    if ts.len() == 0 {
        Seq::empty()
    } else {
        ts[0] + concat_all(ts.drop_first())
    }
}

/// Relies on `String::from_iter` over `char`: the resulting string holds
/// exactly the characters of `v`, in order.
#[verifier::external_body]
pub fn chars_to_string(v: &Vec<char>) -> (r: String)
    ensures
        r@ == v@,
{
    v.iter().collect()
}

/// The characters of a `&str`, as a vector.
pub fn str_chars(s: &str) -> (r: Vec<char>)
    ensures
        r@ == s@,
{
    let n = s.unicode_len();
    let mut v: Vec<char> = Vec::new();
    let mut i: usize = 0;
    while i < n
        invariant
            i <= n,
            n == s@.len(),
            v@ == s@.take(i as int),
        decreases n - i,
    {
        let c = s.get_char(i);
        v.push(c);
        proof {
            assert(s@.take(i + 1 as int) =~= s@.take(i as int).push(s@[i as int]));
        }
        i = i + 1;
    }
    proof {
        assert(s@.take(n as int) =~= s@);
    }
    v
}

/// String-slice equality, by characters.
pub fn str_eq(a: &str, b: &str) -> (r: bool)
    ensures
        r == (a@ == b@),
{
    let na = a.unicode_len();
    let nb = b.unicode_len();
    if na != nb {
        proof {
            assert(a@ != b@);
        }
        return false;
    }
    let mut i: usize = 0;
    while i < na
        invariant
            i <= na,
            na == a@.len() == b@.len(),
            forall|j: int| 0 <= j < i ==> a@[j] == b@[j],
        decreases na - i,
    {
        if a.get_char(i) != b.get_char(i) {
            proof {
                assert(a@[i as int] != b@[i as int]);
            }
            return false;
        }
        i = i + 1;
    }
    proof {
        assert(a@ =~= b@);
    }
    true
}

/// Character-vector equality.
pub fn chars_eq(a: &Vec<char>, b: &Vec<char>) -> (r: bool)
    ensures
        r == (a@ == b@),
{
    if a.len() != b.len() {
        proof {
            assert(a@ != b@);
        }
        return false;
    }
    let n = a.len();
    let mut i: usize = 0;
    while i < n
        invariant
            i <= n,
            n == a@.len() == b@.len(),
            forall|j: int| 0 <= j < i ==> a@[j] == b@[j],
        decreases n - i,
    {
        if a[i] != b[i] {
            proof {
                assert(a@[i as int] != b@[i as int]);
            }
            return false;
        }
        i = i + 1;
    }
    proof {
        assert(a@ =~= b@);
    }
    true
}

/// Whether the list `ss` holds the string `t`.
pub fn list_has(ss: &Vec<Vec<char>>, t: &Vec<char>) -> (r: bool)
    ensures
        r == vocab_has(ss.deep_view(), t@),
{
    let ghost sv = ss.deep_view();
    let n = ss.len();
    let mut i: usize = 0;
    while i < n
        invariant
            i <= n,
            n == ss@.len(),
            sv == ss.deep_view(),
            forall|j: int| 0 <= j < i ==> #[trigger] sv[j] != t@,
        decreases n - i,
    {
        if chars_eq(&ss[i], t) {
            proof {
                assert(sv[i as int] == ss@[i as int]@);
            }
            return true;
        }
        proof {
            assert(sv[i as int] == ss@[i as int]@);
        }
        i = i + 1;
    }
    false
}

/// The concatenation of two character vectors.
pub fn chars_concat(a: &Vec<char>, b: &Vec<char>) -> (r: Vec<char>)
    ensures
        r@ == a@ + b@,
{
    let mut r: Vec<char> = Vec::new();
    let mut k: usize = 0;
    while k < a.len()
        invariant
            k <= a@.len(),
            r@ == a@.subrange(0, k as int),
        decreases a@.len() - k,
    {
        r.push(a[k]);
        proof {
            assert(a@.subrange(0, k + 1) =~= a@.subrange(0, k as int).push(a@[k as int]));
        }
        k = k + 1;
    }
    proof {
        assert(a@.subrange(0, a@.len() as int) =~= a@);
        assert(a@ + b@.subrange(0, 0) =~= a@);
    }
    let mut j: usize = 0;
    while j < b.len()
        invariant
            j <= b@.len(),
            r@ == a@ + b@.subrange(0, j as int),
        decreases b@.len() - j,
    {
        r.push(b[j]);
        proof {
            assert(a@ + b@.subrange(0, j + 1) =~= (a@ + b@.subrange(0, j as int)).push(
                b@[j as int],
            ));
        }
        j = j + 1;
    }
    proof {
        assert(a@ + b@.subrange(0, b@.len() as int) =~= a@ + b@);
    }
    r
}

/// Appends all characters of `xs` to `out`.
pub fn push_all_chars(out: &mut Vec<char>, xs: &Vec<char>)
    ensures
        final(out)@ == old(out)@ + xs@,
{
    let ghost base = out@;
    let n = xs.len();
    let mut k: usize = 0;
    while k < n
        invariant
            k <= n,
            n == xs@.len(),
            out@ == base + xs@.subrange(0, k as int),
        decreases n - k,
    {
        out.push(xs[k]);
        proof {
            assert(base + xs@.subrange(0, k + 1) =~= (base + xs@.subrange(0, k as int)).push(
                xs@[k as int],
            ));
        }
        k = k + 1;
    }
    proof {
        assert(base + xs@.subrange(0, n as int) =~= base + xs@);
    }
}

/// Appends all of `xs` to `out`.
pub fn push_all(out: &mut Vec<usize>, xs: &Vec<usize>)
    ensures
        final(out)@ == old(out)@ + xs@,
{
    let ghost base = out@;
    let n = xs.len();
    let mut k: usize = 0;
    while k < n
        invariant
            k <= n,
            n == xs@.len(),
            out@ == base + xs@.subrange(0, k as int),
        decreases n - k,
    {
        out.push(xs[k]);
        proof {
            assert(base + xs@.subrange(0, k + 1) =~= (base + xs@.subrange(0, k as int)).push(
                xs@[k as int],
            ));
        }
        k = k + 1;
    }
    proof {
        assert(base + xs@.subrange(0, n as int) =~= base + xs@);
    }
}

} // verus!
