//! The persisted artifacts: the vocabulary as a JSON object from stringified
//! id to token string (one entry per id, ids dense from zero), and the merge
//! table as a JSON array of records, each holding a two-element `"pair"`
//! array and a `"new_id"` field.
//!
//! Both the writers and the parsers live here and are verified against the
//! same format specification: parsing a written artifact gives back exactly
//! the state that was written (see [`crate::persist::lemma_vocab_roundtrip`]
//! and [`lemma_merges_roundtrip`]). The parsers are tolerant readers: they
//! skip blank space between tokens, accept the entries in any order (the
//! vocabulary is rebuilt by id), and silently skip merge records whose pair
//! array does not have exactly two elements. In token strings the writer
//! escapes `"` and `\` with a backslash and control characters as `\u00` and
//! two hex digits; every other character is written literally.

use vstd::prelude::*;
use vstd::string::StringExecFns;

use crate::error::TokenizerError;
use crate::model::chars_to_string;
use crate::tokenizer::{BPETokenizer, Merge};

verus! {

/// The decimal digit character for `d`.
pub open spec fn digit_char(d: int) -> char {
    ((48 + d) as u8) as char
}

/// The lower-case hex digit character for `d`.
pub open spec fn hex_char(d: int) -> char {
    if d < 10 {
        digit_char(d)
    } else {
        ((87 + d) as u8) as char
    }
}

/// The decimal representation of `n`, most significant digit first.
pub open spec fn dec_rep(n: int) -> Seq<char>
    decreases n,
{
    if n < 10 {
        seq![digit_char(n)]
    } else {
        dec_rep(n / 10) + seq![digit_char(n % 10)]
    }
}

/// The escaped form of one character inside a JSON string.
pub open spec fn esc_char(c: char) -> Seq<char> {
    if c == '"' {
        seq!['\\', '"']
    } else if c == '\\' {
        seq!['\\', '\\']
    } else if (c as u32) < 32 {
        seq!['\\', 'u', '0', '0', hex_char((c as u32) as int / 16), hex_char((c as u32) as int % 16)]
    } else {
        seq![c]
    }
}

/// The escaped form of a token string.
pub open spec fn esc_str(t: Seq<char>) -> Seq<char>
    decreases t.len(),
{
    if t.len() == 0 {
        Seq::empty()
    } else {
        esc_char(t[0]) + esc_str(t.drop_first())
    }
}

/// One vocabulary entry: `  "<id>": "<token>"`.
pub open spec fn vocab_entry(i: int, t: Seq<char>) -> Seq<char> {
    seq![' ', ' ', '"'] + dec_rep(i) + seq!['"', ':', ' ', '"'] + esc_str(t) + seq!['"']
}

/// The vocabulary entries from `i` on, comma-separated, one per line.
pub open spec fn vocab_entries(vocab: Seq<Seq<char>>, i: int) -> Seq<char>
    decreases vocab.len() - i,
{
    if i < 0 || i >= vocab.len() {
        Seq::empty()
    } else if i == vocab.len() - 1 {
        vocab_entry(i, vocab[i]) + seq!['\n']
    } else {
        vocab_entry(i, vocab[i]) + seq![',', '\n'] + vocab_entries(vocab, i + 1)
    }
}

/// The vocabulary artifact.
pub open spec fn vocab_json(vocab: Seq<Seq<char>>) -> Seq<char> {
    if vocab.len() == 0 {
        seq!['{', '}']
    } else {
        seq!['{', '\n'] + vocab_entries(vocab, 0) + seq!['}']
    }
}

/// One merge record: `  { "pair": [<l>, <r>], "new_id": <n> }`.
pub open spec fn merge_entry(m: Merge) -> Seq<char> {
    seq![' ', ' ', '{', ' ', '"', 'p', 'a', 'i', 'r', '"', ':', ' ', '['] + dec_rep(m.left as int)
        + seq![',', ' '] + dec_rep(m.right as int) + seq![']', ',', ' ', '"', 'n', 'e', 'w', '_', 'i', 'd', '"', ':', ' ']
        + dec_rep(m.new_id as int) + seq![' ', '}']
}

/// The merge records from `i` on, comma-separated, one per line.
pub open spec fn merges_entries(ms: Seq<Merge>, i: int) -> Seq<char>
    decreases (ms.len() - i) as nat,
{
    if i < 0 || i >= ms.len() {
        Seq::empty()
    } else if i == ms.len() - 1 {
        merge_entry(ms[i]) + seq!['\n']
    } else {
        merge_entry(ms[i]) + seq![',', '\n'] + merges_entries(ms, i + 1)
    }
}

/// The merge-table artifact.
pub open spec fn merges_json(ms: Seq<Merge>) -> Seq<char> {
    if ms.len() == 0 {
        seq!['[', ']']
    } else {
        seq!['[', '\n'] + merges_entries(ms, 0) + seq![']']
    }
}

/// A blank character the parsers skip between tokens.
pub open spec fn is_ws(c: char) -> bool {
    c == ' ' || c == '\n' || c == '\t' || c == '\r'
}

/// The first position at or after `p` holding no blank character.
pub open spec fn skip_ws(s: Seq<char>, p: int) -> int
    decreases s.len() - p,
{
    if 0 <= p < s.len() && is_ws(s[p]) {
        skip_ws(s, p + 1)
    } else {
        p
    }
}

pub proof fn lemma_skip_ws(s: Seq<char>, p: int)
    requires
        0 <= p <= s.len(),
    ensures
        p <= skip_ws(s, p) <= s.len(),
    decreases s.len() - p,
{
    if p < s.len() && is_ws(s[p]) {
        lemma_skip_ws(s, p + 1);
    }
}

pub open spec fn is_digit(c: char) -> bool {
    48 <= c as u32 && c as u32 <= 57
}

/// Digits folded into `acc`, stopping at the first non-digit; `None` past
/// the `usize` range.
pub open spec fn num_from(s: Seq<char>, p: int, acc: int) -> Option<(int, int)>
    decreases s.len() - p,
{
    if !(0 <= p < s.len() && is_digit(s[p])) {
        Some((acc, p))
    } else {
        let acc2 = acc * 10 + (s[p] as u32 - 48);
        if acc2 > usize::MAX as int {
            None
        } else {
            num_from(s, p + 1, acc2)
        }
    }
}

/// A decimal number at `p`: at least one digit, value within `usize`.
pub open spec fn parse_num(s: Seq<char>, p: int) -> Option<(int, int)> {
    if 0 <= p < s.len() && is_digit(s[p]) {
        num_from(s, p, 0)
    } else {
        None
    }
}

pub proof fn lemma_num_from_pos(s: Seq<char>, p: int, acc: int)
    requires
        0 <= p <= s.len(),
        0 <= acc <= usize::MAX as int,
    ensures
        match num_from(s, p, acc) {
            Some(vq) => p <= vq.1 <= s.len() && 0 <= vq.0 <= usize::MAX as int,
            None => true,
        },
    decreases s.len() - p,
{
    if 0 <= p < s.len() && is_digit(s[p]) {
        let acc2 = acc * 10 + (s[p] as u32 - 48);
        if acc2 <= usize::MAX as int {
            lemma_num_from_pos(s, p + 1, acc2);
        }
    }
}

pub proof fn lemma_parse_num_pos(s: Seq<char>, p: int)
    requires
        0 <= p <= s.len(),
    ensures
        match parse_num(s, p) {
            Some(vq) => p < vq.1 <= s.len() && 0 <= vq.0 <= usize::MAX as int,
            None => true,
        },
{
    if 0 <= p < s.len() && is_digit(s[p]) {
        let acc2 = 0 * 10 + (s[p] as u32 - 48);
        if acc2 <= usize::MAX as int {
            lemma_num_from_pos(s, p + 1, acc2);
        }
    }
}

/// The value of a lower-case hex digit, `-1` for any other character.
pub open spec fn hex_val(c: char) -> int {
    if is_digit(c) {
        c as u32 - 48
    } else if 97 <= c as u32 && c as u32 <= 102 {
        c as u32 - 87
    } else {
        -1
    }
}

/// The body of a JSON string, starting right after the opening quote:
/// literal characters, `\"`, `\\`, and `\u00` with two hex digits (the only
/// escapes the writer emits). Returns the content and the position after the
/// closing quote.
pub open spec fn parse_string_body(s: Seq<char>, p: int) -> Option<(Seq<char>, int)>
    decreases s.len() - p,
{
    if !(0 <= p < s.len()) {
        None
    } else if s[p] == '"' {
        Some((Seq::empty(), p + 1))
    } else if s[p] == '\\' {
        if p + 1 < s.len() && (s[p + 1] == '"' || s[p + 1] == '\\') {
            match parse_string_body(s, p + 2) {
                Some(tq) => Some((seq![s[p + 1]] + tq.0, tq.1)),
                None => None,
            }
        } else if p + 5 < s.len() && s[p + 1] == 'u' && s[p + 2] == '0' && s[p + 3] == '0'
            && hex_val(s[p + 4]) >= 0 && hex_val(s[p + 5]) >= 0 {
            let v = hex_val(s[p + 4]) * 16 + hex_val(s[p + 5]);
            match parse_string_body(s, p + 6) {
                Some(tq) => Some((seq![(v as u8) as char] + tq.0, tq.1)),
                None => None,
            }
        } else {
            None
        }
    } else {
        match parse_string_body(s, p + 1) {
            Some(tq) => Some((seq![s[p]] + tq.0, tq.1)),
            None => None,
        }
    }
}

pub proof fn lemma_string_body_pos(s: Seq<char>, p: int)
    requires
        0 <= p <= s.len(),
    ensures
        match parse_string_body(s, p) {
            Some(tq) => p < tq.1 <= s.len(),
            None => true,
        },
    decreases s.len() - p,
{
    if 0 <= p < s.len() && s[p] != '"' {
        if s[p] == '\\' {
            if p + 1 < s.len() && (s[p + 1] == '"' || s[p + 1] == '\\') {
                lemma_string_body_pos(s, p + 2);
            } else if p + 5 < s.len() && s[p + 1] == 'u' && s[p + 2] == '0' && s[p + 3] == '0'
                && hex_val(s[p + 4]) >= 0 && hex_val(s[p + 5]) >= 0 {
                lemma_string_body_pos(s, p + 6);
            }
        } else {
            lemma_string_body_pos(s, p + 1);
        }
    }
}

/// The vocabulary entries from the position right after `{` (or after a
/// comma): each is `"<id>": "<token>"`; returns the entries and the position
/// after the closing `}`.
pub open spec fn parse_ventries(s: Seq<char>, p: int) -> Option<(Seq<(int, Seq<char>)>, int)>
    decreases s.len() - p,
{
    if !(0 <= p <= s.len()) {
        None
    } else {
        let p1 = skip_ws(s, p);
        proof {
            lemma_skip_ws(s, p);
        }
        if !(p1 < s.len() && s[p1] == '"') {
            None
        } else {
            match parse_num(s, p1 + 1) {
                None => None,
                Some(idp) => {
                    proof {
                        lemma_parse_num_pos(s, p1 + 1);
                    }
                    let p2 = idp.1;
                    if !(p2 < s.len() && s[p2] == '"') {
                        None
                    } else {
                        let p3 = skip_ws(s, p2 + 1);
                        proof {
                            lemma_skip_ws(s, p2 + 1);
                        }
                        if !(p3 < s.len() && s[p3] == ':') {
                            None
                        } else {
                            let p4 = skip_ws(s, p3 + 1);
                            proof {
                                lemma_skip_ws(s, p3 + 1);
                            }
                            if !(p4 < s.len() && s[p4] == '"') {
                                None
                            } else {
                                match parse_string_body(s, p4 + 1) {
                                    None => None,
                                    Some(tq) => {
                                        proof {
                                            lemma_string_body_pos(s, p4 + 1);
                                        }
                                        let p5 = tq.1;
                                        let p6 = skip_ws(s, p5);
                                        proof {
                                            lemma_skip_ws(s, p5);
                                        }
                                        if p6 < s.len() && s[p6] == ',' {
                                            match parse_ventries(s, p6 + 1) {
                                                None => None,
                                                Some(rq) => Some(
                                                    (seq![(idp.0, tq.0)] + rq.0, rq.1),
                                                ),
                                            }
                                        } else if p6 < s.len() && s[p6] == '}' {
                                            Some((seq![(idp.0, tq.0)], p6 + 1))
                                        } else {
                                            None
                                        }
                                    },
                                }
                            }
                        }
                    }
                },
            }
        }
    }
}

/// The parsed vocabulary artifact, as a list of `(id, token)` entries.
pub open spec fn parse_vocab_spec(s: Seq<char>) -> Option<Seq<(int, Seq<char>)>> {
    let p0 = skip_ws(s, 0);
    if s.len() > 0 && 0 <= p0 < s.len() && s[p0] == '{' {
        let p1 = skip_ws(s, p0 + 1);
        if 0 <= p1 < s.len() && s[p1] == '}' {
            Some(Seq::empty())
        } else {
            match parse_ventries(s, p0 + 1) {
                Some(eq) => Some(eq.0),
                None => None,
            }
        }
    } else {
        None
    }
}

/// The first entry holding id `i`, from position `k` of the entry list.
pub open spec fn entry_index(es: Seq<(int, Seq<char>)>, i: int, k: int) -> Option<int>
    decreases es.len() - k,
{
    if k < 0 || k >= es.len() {
        None
    } else if es[k].0 == i {
        Some(k)
    } else {
        entry_index(es, i, k + 1)
    }
}

/// Every id below the entry count is present: the ids are dense.
pub open spec fn rebuild_ok(es: Seq<(int, Seq<char>)>) -> bool {
    forall|i: int| 0 <= i < es.len() ==> entry_index(es, i, 0) is Some
}

/// The dense vocabulary rebuilt from the entries: index `i` holds the token
/// of the first entry with id `i`.
pub open spec fn rebuilt(es: Seq<(int, Seq<char>)>) -> Seq<Seq<char>> {
    Seq::new(
        es.len(),
        |i: int|
            match entry_index(es, i, 0) {
                Some(k) => es[k].1,
                None => Seq::empty(),
            },
    )
}

/// What loading the vocabulary artifact yields: the dense id-to-token
/// vector, or nothing when the text does not parse or the ids are not
/// exactly `0 .. n`.
pub open spec fn vocab_from_json(s: Seq<char>) -> Option<Seq<Seq<char>>> {
    match parse_vocab_spec(s) {
        None => None,
        Some(es) => if rebuild_ok(es) {
            Some(rebuilt(es))
        } else {
            None
        },
    }
}

/// A comma-separated list of numbers, from the position right after `[` (or
/// a comma); returns the values and the position after the closing `]`.
pub open spec fn parse_numlist(s: Seq<char>, p: int) -> Option<(Seq<int>, int)>
    decreases s.len() - p,
{
    if !(0 <= p <= s.len()) {
        None
    } else {
        let p1 = skip_ws(s, p);
        proof {
            lemma_skip_ws(s, p);
        }
        if p1 < s.len() && s[p1] == ']' {
            Some((Seq::empty(), p1 + 1))
        } else {
            match parse_num(s, p1) {
                None => None,
                Some(vp) => {
                    proof {
                        lemma_parse_num_pos(s, p1);
                    }
                    let p2 = skip_ws(s, vp.1);
                    proof {
                        lemma_skip_ws(s, vp.1);
                    }
                    if p2 < s.len() && s[p2] == ',' {
                        match parse_numlist(s, p2 + 1) {
                            None => None,
                            Some(rq) => Some((seq![vp.0] + rq.0, rq.1)),
                        }
                    } else if p2 < s.len() && s[p2] == ']' {
                        Some((seq![vp.0], p2 + 1))
                    } else {
                        None
                    }
                },
            }
        }
    }
}

pub proof fn lemma_numlist_pos(s: Seq<char>, p: int)
    requires
        0 <= p <= s.len(),
    ensures
        match parse_numlist(s, p) {
            Some(rq) => p < rq.1 <= s.len(),
            None => true,
        },
    decreases s.len() - p,
{
    let p1 = skip_ws(s, p);
    lemma_skip_ws(s, p);
    if !(p1 < s.len() && s[p1] == ']') {
        match parse_num(s, p1) {
            None => {},
            Some(vp) => {
                lemma_parse_num_pos(s, p1);
                let p2 = skip_ws(s, vp.1);
                lemma_skip_ws(s, vp.1);
                if p2 < s.len() && s[p2] == ',' {
                    lemma_numlist_pos(s, p2 + 1);
                }
            },
        }
    }
}

/// The `"pair"` key.
pub open spec fn pair_key() -> Seq<char> {
    seq!['"', 'p', 'a', 'i', 'r', '"']
}

/// The `"new_id"` key.
pub open spec fn newid_key() -> Seq<char> {
    seq!['"', 'n', 'e', 'w', '_', 'i', 'd', '"']
}

/// One merge record `{ "pair": [..], "new_id": n }`; returns the pair values
/// and new id, and the position after the closing `}`.
pub open spec fn parse_record(s: Seq<char>, p: int) -> Option<((Seq<int>, int), int)> {
    let p1 = skip_ws(s, p);
    if !(0 <= p <= s.len() && p1 < s.len() && s[p1] == '{') {
        None
    } else {
        let p2 = skip_ws(s, p1 + 1);
        if !(p2 + 6 <= s.len() && s.subrange(p2, p2 + 6) == pair_key()) {
            None
        } else {
            let p3 = skip_ws(s, p2 + 6);
            if !(p3 < s.len() && s[p3] == ':') {
                None
            } else {
                let p4 = skip_ws(s, p3 + 1);
                if !(p4 < s.len() && s[p4] == '[') {
                    None
                } else {
                    match parse_numlist(s, p4 + 1) {
                        None => None,
                        Some(vs) => {
                            let p5 = skip_ws(s, vs.1);
                            if !(p5 < s.len() && s[p5] == ',') {
                                None
                            } else {
                                let p6 = skip_ws(s, p5 + 1);
                                if !(p6 + 8 <= s.len() && s.subrange(p6, p6 + 8) == newid_key()) {
                                    None
                                } else {
                                    let p7 = skip_ws(s, p6 + 8);
                                    if !(p7 < s.len() && s[p7] == ':') {
                                        None
                                    } else {
                                        match parse_num(s, skip_ws(s, p7 + 1)) {
                                            None => None,
                                            Some(np) => {
                                                let p8 = skip_ws(s, np.1);
                                                if p8 < s.len() && s[p8] == '}' {
                                                    Some(((vs.0, np.0), p8 + 1))
                                                } else {
                                                    None
                                                }
                                            },
                                        }
                                    }
                                }
                            }
                        },
                    }
                }
            }
        }
    }
}

pub proof fn lemma_record_pos(s: Seq<char>, p: int)
    requires
        0 <= p <= s.len(),
    ensures
        match parse_record(s, p) {
            Some(rq) => p < rq.1 <= s.len(),
            None => true,
        },
{
    let p1 = skip_ws(s, p);
    lemma_skip_ws(s, p);
    if p1 < s.len() && s[p1] == '{' {
        let p2 = skip_ws(s, p1 + 1);
        lemma_skip_ws(s, p1 + 1);
        if p2 + 6 <= s.len() && s.subrange(p2, p2 + 6) == pair_key() {
            let p3 = skip_ws(s, p2 + 6);
            lemma_skip_ws(s, p2 + 6);
            if p3 < s.len() && s[p3] == ':' {
                let p4 = skip_ws(s, p3 + 1);
                lemma_skip_ws(s, p3 + 1);
                if p4 < s.len() && s[p4] == '[' {
                    match parse_numlist(s, p4 + 1) {
                        None => {},
                        Some(vs) => {
                            lemma_numlist_pos(s, p4 + 1);
                            let p5 = skip_ws(s, vs.1);
                            lemma_skip_ws(s, vs.1);
                            if p5 < s.len() && s[p5] == ',' {
                                let p6 = skip_ws(s, p5 + 1);
                                lemma_skip_ws(s, p5 + 1);
                                if p6 + 8 <= s.len() && s.subrange(p6, p6 + 8) == newid_key() {
                                    let p7 = skip_ws(s, p6 + 8);
                                    lemma_skip_ws(s, p6 + 8);
                                    if p7 < s.len() && s[p7] == ':' {
                                        let p8 = skip_ws(s, p7 + 1);
                                        lemma_skip_ws(s, p7 + 1);
                                        match parse_num(s, p8) {
                                            None => {},
                                            Some(np) => {
                                                lemma_parse_num_pos(s, p8);
                                                lemma_skip_ws(s, np.1);
                                            },
                                        }
                                    }
                                }
                            }
                        },
                    }
                }
            }
        }
    }
}

/// The merge records from the position right after `[` (or a comma);
/// returns the records and the position after the closing `]`.
pub open spec fn parse_mentries(s: Seq<char>, p: int) -> Option<(Seq<(Seq<int>, int)>, int)>
    decreases s.len() - p,
{
    if !(0 <= p <= s.len()) {
        None
    } else {
        match parse_record(s, p) {
            None => None,
            Some(rq) => {
                proof {
                    lemma_record_pos(s, p);
                }
                let p1 = skip_ws(s, rq.1);
                proof {
                    lemma_skip_ws(s, rq.1);
                }
                if p1 < s.len() && s[p1] == ',' {
                    match parse_mentries(s, p1 + 1) {
                        None => None,
                        Some(mq) => Some((seq![rq.0] + mq.0, mq.1)),
                    }
                } else if p1 < s.len() && s[p1] == ']' {
                    Some((seq![rq.0], p1 + 1))
                } else {
                    None
                }
            },
        }
    }
}

/// The parsed merge artifact, as a list of `(pair values, new id)` records.
pub open spec fn parse_merges_spec(s: Seq<char>) -> Option<Seq<(Seq<int>, int)>> {
    let p0 = skip_ws(s, 0);
    if s.len() > 0 && 0 <= p0 < s.len() && s[p0] == '[' {
        let p1 = skip_ws(s, p0 + 1);
        if 0 <= p1 < s.len() && s[p1] == ']' {
            Some(Seq::empty())
        } else {
            match parse_mentries(s, p0 + 1) {
                Some(mq) => Some(mq.0),
                None => None,
            }
        }
    } else {
        None
    }
}

/// The merge table rebuilt from the parsed records, in order: a record whose
/// pair array does not have exactly two elements is silently skipped.
pub open spec fn merges_from_records(rs: Seq<(Seq<int>, int)>) -> Seq<Merge>
    decreases rs.len(),
{
    if rs.len() == 0 {
        Seq::empty()
    } else {
        (if rs[0].0.len() == 2 {
            seq![
                Merge {
                    left: rs[0].0[0] as usize,
                    right: rs[0].0[1] as usize,
                    new_id: rs[0].1 as usize,
                },
            ]
        } else {
            Seq::empty()
        }) + merges_from_records(rs.drop_first())
    }
}

/// What loading the merge artifact yields.
pub open spec fn merges_from_json(s: Seq<char>) -> Option<Seq<Merge>> {
    match parse_merges_spec(s) {
        None => None,
        Some(rs) => Some(merges_from_records(rs)),
    }
}

fn skip_ws_exec(s: &Vec<char>, p: usize) -> (r: usize)
    requires
        p <= s@.len(),
    ensures
        r as int == skip_ws(s@, p as int),
        p <= r <= s@.len(),
{
    let n = s.len();
    let mut q = p;
    while q < n && (s[q] == ' ' || s[q] == '\n' || s[q] == '\t' || s[q] == '\r')
        invariant
            p <= q <= n,
            n == s@.len(),
            skip_ws(s@, p as int) == skip_ws(s@, q as int),
        decreases n - q,
    {
        q = q + 1;
    }
    q
}

fn parse_num_exec(s: &Vec<char>, p: usize) -> (r: Option<(usize, usize)>)
    requires
        p <= s@.len(),
    ensures
        match parse_num(s@, p as int) {
            Some(vq) => r matches Some(x) && x.0 as int == vq.0 && x.1 as int == vq.1,
            None => r is None,
        },
{
    let n = s.len();
    if !(p < n && (s[p] as u32) >= 48 && (s[p] as u32) <= 57) {
        return None;
    }
    let mut acc: usize = 0;
    let mut q = p;
    while q < n && (s[q] as u32) >= 48 && (s[q] as u32) <= 57
        invariant
            p <= q <= n,
            n == s@.len(),
            acc <= usize::MAX,
            num_from(s@, p as int, 0) == num_from(s@, q as int, acc as int),
        decreases n - q,
    {
        let d = (s[q] as u32) - 48;
        let big = (acc as u128) * 10 + (d as u128);
        if big > (usize::MAX as u128) {
            return None;
        }
        acc = big as usize;
        q = q + 1;
    }
    proof {
        assert(num_from(s@, q as int, acc as int) == Some((acc as int, q as int)));
    }
    Some((acc, q))
}

fn parse_string_body_exec(s: &Vec<char>, p: usize) -> (r: Option<(Vec<char>, usize)>)
    requires
        p <= s@.len(),
    ensures
        match parse_string_body(s@, p as int) {
            Some(tq) => r matches Some(x) && x.0@ == tq.0 && x.1 as int == tq.1,
            None => r is None,
        },
    decreases s@.len() - p,
{
    let n = s.len();
    if !(p < n) {
        return None;
    }
    let c = s[p];
    if c == '"' {
        let v: Vec<char> = Vec::new();
        proof {
            assert(v@ =~= Seq::<char>::empty());
        }
        return Some((v, p + 1));
    }
    if c == '\\' {
        if p + 1 < n && (s[p + 1] == '"' || s[p + 1] == '\\') {
            let e = s[p + 1];
            match parse_string_body_exec(s, p + 2) {
                Some((t, q)) => {
                    let ghost tv = t@;
                    let mut out: Vec<char> = Vec::new();
                    out.push(e);
                    crate::model::push_all_chars(&mut out, &t);
                    proof {
                        assert(out@ =~= seq![e] + tv);
                    }
                    return Some((out, q));
                },
                None => {
                    return None;
                },
            }
        } else if n - p > 5 && s[p + 1] == 'u' && s[p + 2] == '0' && s[p + 3] == '0' {
            let h1 = hex_val_exec(s[p + 4]);
            let h2 = hex_val_exec(s[p + 5]);
            if h1 >= 0 && h2 >= 0 {
                let v = ((h1 * 16 + h2) as u8) as char;
                match parse_string_body_exec(s, p + 6) {
                    Some((t, q)) => {
                        let ghost tv = t@;
                        let mut out: Vec<char> = Vec::new();
                        out.push(v);
                        crate::model::push_all_chars(&mut out, &t);
                        proof {
                            assert(out@ =~= seq![v] + tv);
                        }
                        return Some((out, q));
                    },
                    None => {
                        return None;
                    },
                }
            } else {
                return None;
            }
        } else {
            return None;
        }
    }
    match parse_string_body_exec(s, p + 1) {
        Some((t, q)) => {
            let ghost tv = t@;
            let mut out: Vec<char> = Vec::new();
            out.push(c);
            crate::model::push_all_chars(&mut out, &t);
            proof {
                assert(out@ =~= seq![c] + tv);
            }
            Some((out, q))
        },
        None => None,
    }
}

fn hex_val_exec(c: char) -> (r: i32)
    ensures
        r as int == hex_val(c),
{
    let u = c as u32;
    if 48 <= u && u <= 57 {
        (u - 48) as i32
    } else if 97 <= u && u <= 102 {
        (u - 87) as i32
    } else {
        -1
    }
}

/// One parsed vocabulary entry agrees with its specification image.
pub open spec fn entry_matches(e: (usize, Vec<char>), se: (int, Seq<char>)) -> bool {
    e.0 as int == se.0 && e.1@ == se.1
}

#[verifier::loop_isolation(false)]
fn parse_ventries_exec(s: &Vec<char>, p: usize, out: &mut Vec<(usize, Vec<char>)>) -> (r: Option<
    usize,
>)
    requires
        p <= s@.len(),
    ensures
        match parse_ventries(s@, p as int) {
            Some(eq) => r matches Some(q) && q as int == eq.1 && final(out)@.len() == old(
                out,
            )@.len() + eq.0.len() && (forall|k: int|
                0 <= k < old(out)@.len() ==> #[trigger] final(out)@[k] == old(out)@[k]) && (
            forall|k: int|
                0 <= k < eq.0.len() ==> entry_matches(
                    #[trigger] final(out)@[old(out)@.len() + k],
                    eq.0[k],
                )),
            None => r is None,
        },
    decreases s@.len() - p,
{
    let n = s.len();
    let p1 = skip_ws_exec(s, p);
    proof {
        lemma_skip_ws(s@, p as int);
    }
    if !(p1 < n && s[p1] == '"') {
        return None;
    }
    let (id, p2) = match parse_num_exec(s, p1 + 1) {
        Some(x) => x,
        None => {
            return None;
        },
    };
    proof {
        lemma_parse_num_pos(s@, p1 + 1 as int);
    }
    if !(p2 < n && s[p2] == '"') {
        return None;
    }
    let p3 = skip_ws_exec(s, p2 + 1);
    if !(p3 < n && s[p3] == ':') {
        return None;
    }
    let p4 = skip_ws_exec(s, p3 + 1);
    if !(p4 < n && s[p4] == '"') {
        return None;
    }
    let (tok, p5) = match parse_string_body_exec(s, p4 + 1) {
        Some(x) => x,
        None => {
            return None;
        },
    };
    proof {
        lemma_string_body_pos(s@, p4 + 1 as int);
    }
    let p6 = skip_ws_exec(s, p5);
    let ghost oldlen = out@.len() as int;
    let ghost tokv = tok@;
    if p6 < n && s[p6] == ',' {
        out.push((id, tok));
        let ghost mid = out@;
        let r = parse_ventries_exec(s, p6 + 1, out);
        proof {
            if parse_ventries(s@, p as int) is Some {
                let eq = parse_ventries(s@, p as int)->Some_0;
                let rq = parse_ventries(s@, p6 + 1 as int)->Some_0;
                assert(eq.0 == seq![(id as int, tokv)] + rq.0);
                assert(mid[oldlen].0 == id && mid[oldlen].1@ == tokv);
                assert forall|k: int| 0 <= k < eq.0.len() implies entry_matches(
                    #[trigger] out@[oldlen + k],
                    eq.0[k],
                ) by {
                    if k == 0 {
                        assert(out@[oldlen] == mid[oldlen]);
                    } else {
                        assert(eq.0[k] == rq.0[k - 1]);
                        assert(oldlen + k == mid.len() + (k - 1));
                        assert(entry_matches(out@[mid.len() + (k - 1)], rq.0[k - 1]));
                    }
                }
            }
        }
        r
    } else if p6 < n && s[p6] == '}' {
        out.push((id, tok));
        proof {
            let eq = parse_ventries(s@, p as int)->Some_0;
            assert(eq.0 == seq![(id as int, tokv)]);
            assert(out@[oldlen].0 == id && out@[oldlen].1@ == tokv);
        }
        Some(p6 + 1)
    } else {
        None
    }
}

#[verifier::loop_isolation(false)]
fn parse_numlist_exec(s: &Vec<char>, p: usize, out: &mut Vec<usize>) -> (r: Option<usize>)
    requires
        p <= s@.len(),
    ensures
        match parse_numlist(s@, p as int) {
            Some(rq) => r matches Some(q) && q as int == rq.1 && final(out)@.len() == old(
                out,
            )@.len() + rq.0.len() && (forall|k: int|
                0 <= k < old(out)@.len() ==> #[trigger] final(out)@[k] == old(out)@[k]) && (
            forall|k: int|
                0 <= k < rq.0.len() ==> (#[trigger] final(out)@[old(out)@.len() + k]) as int
                    == rq.0[k]),
            None => r is None,
        },
    decreases s@.len() - p,
{
    let n = s.len();
    let p1 = skip_ws_exec(s, p);
    proof {
        lemma_skip_ws(s@, p as int);
    }
    if p1 < n && s[p1] == ']' {
        return Some(p1 + 1);
    }
    let (v, p2) = match parse_num_exec(s, p1) {
        Some(x) => x,
        None => {
            return None;
        },
    };
    proof {
        lemma_parse_num_pos(s@, p1 as int);
    }
    let p3 = skip_ws_exec(s, p2);
    let ghost oldlen = out@.len() as int;
    if p3 < n && s[p3] == ',' {
        out.push(v);
        let ghost mid = out@;
        let r = parse_numlist_exec(s, p3 + 1, out);
        proof {
            if parse_numlist(s@, p as int) is Some {
                let rq = parse_numlist(s@, p as int)->Some_0;
                let sq = parse_numlist(s@, p3 + 1 as int)->Some_0;
                assert(rq.0 == seq![v as int] + sq.0);
                assert forall|k: int| 0 <= k < rq.0.len() implies (#[trigger] out@[oldlen
                    + k]) as int == rq.0[k] by {
                    if k == 0 {
                        assert(out@[oldlen] == mid[oldlen]);
                    } else {
                        assert(rq.0[k] == sq.0[k - 1]);
                        assert(oldlen + k == mid.len() + (k - 1));
                        assert((out@[mid.len() + (k - 1)]) as int == sq.0[k - 1]);
                    }
                }
            }
        }
        r
    } else if p3 < n && s[p3] == ']' {
        out.push(v);
        proof {
            let rq = parse_numlist(s@, p as int)->Some_0;
            assert(rq.0 == seq![v as int]);
        }
        Some(p3 + 1)
    } else {
        None
    }
}

#[verifier::loop_isolation(false)]
#[verifier::rlimit(100)]
fn parse_record_exec(s: &Vec<char>, p: usize) -> (r: Option<((Vec<usize>, usize), usize)>)
    requires
        p <= s@.len(),
    ensures
        match parse_record(s@, p as int) {
            Some(rq) => r matches Some(x) && x.1 as int == rq.1 && x.0.1 as int == rq.0.1
                && x.0.0@.len() == rq.0.0.len() && (forall|k: int|
                0 <= k < rq.0.0.len() ==> (#[trigger] x.0.0@[k]) as int == rq.0.0[k]),
            None => r is None,
        },
{
    let n = s.len();
    let p1 = skip_ws_exec(s, p);
    if !(p1 < n && s[p1] == '{') {
        return None;
    }
    let p2 = skip_ws_exec(s, p1 + 1);
    if !(n - p2 >= 6 && s[p2] == '"' && s[p2 + 1] == 'p' && s[p2 + 2] == 'a' && s[p2 + 3] == 'i'
        && s[p2 + 4] == 'r' && s[p2 + 5] == '"') {
        proof {
            if p2 + 6 <= s@.len() {
                assert(s@.subrange(p2 as int, p2 + 6) == pair_key() ==> {
                    &&& s@[p2 as int] == '"'
                    &&& s@[p2 + 1] == 'p'
                    &&& s@[p2 + 2] == 'a'
                    &&& s@[p2 + 3] == 'i'
                    &&& s@[p2 + 4] == 'r'
                    &&& s@[p2 + 5] == '"'
                }) by {
                    if s@.subrange(p2 as int, p2 + 6) == pair_key() {
                        assert(s@.subrange(p2 as int, p2 + 6)[0] == s@[p2 as int]);
                        assert(s@.subrange(p2 as int, p2 + 6)[1] == s@[p2 + 1]);
                        assert(s@.subrange(p2 as int, p2 + 6)[2] == s@[p2 + 2]);
                        assert(s@.subrange(p2 as int, p2 + 6)[3] == s@[p2 + 3]);
                        assert(s@.subrange(p2 as int, p2 + 6)[4] == s@[p2 + 4]);
                        assert(s@.subrange(p2 as int, p2 + 6)[5] == s@[p2 + 5]);
                    }
                }
            }
        }
        return None;
    }
    proof {
        assert(s@.subrange(p2 as int, p2 + 6) =~= pair_key());
    }
    let p3 = skip_ws_exec(s, p2 + 6);
    if !(p3 < n && s[p3] == ':') {
        return None;
    }
    let p4 = skip_ws_exec(s, p3 + 1);
    if !(p4 < n && s[p4] == '[') {
        return None;
    }
    let mut vals: Vec<usize> = Vec::new();
    let p5 = match parse_numlist_exec(s, p4 + 1, &mut vals) {
        Some(q) => q,
        None => {
            return None;
        },
    };
    proof {
        lemma_numlist_pos(s@, p4 + 1 as int);
    }
    let p6 = skip_ws_exec(s, p5);
    if !(p6 < n && s[p6] == ',') {
        return None;
    }
    let p7 = skip_ws_exec(s, p6 + 1);
    if !(n - p7 >= 8 && s[p7] == '"' && s[p7 + 1] == 'n' && s[p7 + 2] == 'e' && s[p7 + 3] == 'w'
        && s[p7 + 4] == '_' && s[p7 + 5] == 'i' && s[p7 + 6] == 'd' && s[p7 + 7] == '"') {
        proof {
            if p7 + 8 <= s@.len() {
                assert(s@.subrange(p7 as int, p7 + 8) == newid_key() ==> {
                    &&& s@[p7 as int] == '"'
                    &&& s@[p7 + 1] == 'n'
                    &&& s@[p7 + 2] == 'e'
                    &&& s@[p7 + 3] == 'w'
                    &&& s@[p7 + 4] == '_'
                    &&& s@[p7 + 5] == 'i'
                    &&& s@[p7 + 6] == 'd'
                    &&& s@[p7 + 7] == '"'
                }) by {
                    if s@.subrange(p7 as int, p7 + 8) == newid_key() {
                        assert(s@.subrange(p7 as int, p7 + 8)[0] == s@[p7 as int]);
                        assert(s@.subrange(p7 as int, p7 + 8)[1] == s@[p7 + 1]);
                        assert(s@.subrange(p7 as int, p7 + 8)[2] == s@[p7 + 2]);
                        assert(s@.subrange(p7 as int, p7 + 8)[3] == s@[p7 + 3]);
                        assert(s@.subrange(p7 as int, p7 + 8)[4] == s@[p7 + 4]);
                        assert(s@.subrange(p7 as int, p7 + 8)[5] == s@[p7 + 5]);
                        assert(s@.subrange(p7 as int, p7 + 8)[6] == s@[p7 + 6]);
                        assert(s@.subrange(p7 as int, p7 + 8)[7] == s@[p7 + 7]);
                    }
                }
            }
        }
        return None;
    }
    proof {
        assert(s@.subrange(p7 as int, p7 + 8) =~= newid_key());
    }
    let p8 = skip_ws_exec(s, p7 + 8);
    if !(p8 < n && s[p8] == ':') {
        return None;
    }
    let p9 = skip_ws_exec(s, p8 + 1);
    let (nid, p10) = match parse_num_exec(s, p9) {
        Some(x) => x,
        None => {
            return None;
        },
    };
    proof {
        lemma_parse_num_pos(s@, p9 as int);
    }
    let p11 = skip_ws_exec(s, p10);
    if p11 < n && s[p11] == '}' {
        proof {
            if parse_record(s@, p as int) is Some {
                let rq = parse_record(s@, p as int)->Some_0;
                let nl = parse_numlist(s@, p4 + 1 as int)->Some_0;
                assert forall|k: int| 0 <= k < rq.0.0.len() implies (#[trigger] vals@[k]) as int
                    == rq.0.0[k] by {
                    assert(vals@[0 + k] as int == nl.0[k]);
                }
            }
        }
        Some(((vals, nid), p11 + 1))
    } else {
        None
    }
}

#[verifier::loop_isolation(false)]
fn parse_mentries_exec(s: &Vec<char>, p: usize, out: &mut Vec<Merge>) -> (r: Option<usize>)
    requires
        p <= s@.len(),
    ensures
        match parse_mentries(s@, p as int) {
            Some(mq) => r matches Some(q) && q as int == mq.1 && final(out)@ == old(out)@
                + merges_from_records(mq.0),
            None => r is None,
        },
    decreases s@.len() - p,
{
    let n = s.len();
    let ((vals, nid), p1) = match parse_record_exec(s, p) {
        Some(x) => x,
        None => {
            return None;
        },
    };
    proof {
        lemma_record_pos(s@, p as int);
    }
    let ghost rec = parse_record(s@, p as int)->Some_0.0;
    let ghost pre = out@;
    if vals.len() == 2 {
        let m = Merge { left: vals[0], right: vals[1], new_id: nid };
        out.push(m);
        proof {
            assert(rec.0[0] == vals@[0] as int);
            assert(rec.0[1] == vals@[1] as int);
        }
    }
    let ghost mid = out@;
    proof {
        if rec.0.len() == 2 {
            assert(mid =~= pre + seq![
                Merge { left: rec.0[0] as usize, right: rec.0[1] as usize, new_id: rec.1 as usize },
            ]);
        } else {
            assert(mid =~= pre);
        }
    }
    let p2 = skip_ws_exec(s, p1);
    if p2 < n && s[p2] == ',' {
        let r = parse_mentries_exec(s, p2 + 1, out);
        proof {
            if parse_mentries(s@, p as int) is Some {
                let mq = parse_mentries(s@, p as int)->Some_0;
                let sq = parse_mentries(s@, p2 + 1 as int)->Some_0;
                assert(mq.0 == seq![rec] + sq.0);
                assert((seq![rec] + sq.0).drop_first() =~= sq.0);
                assert((seq![rec] + sq.0)[0] == rec);
                if rec.0.len() == 2 {
                    let head = seq![
                        Merge {
                            left: rec.0[0] as usize,
                            right: rec.0[1] as usize,
                            new_id: rec.1 as usize,
                        },
                    ];
                    assert(merges_from_records(mq.0) == head + merges_from_records(sq.0));
                    assert(pre + (head + merges_from_records(sq.0)) =~= mid
                        + merges_from_records(sq.0));
                } else {
                    assert(merges_from_records(mq.0) == Seq::<Merge>::empty()
                        + merges_from_records(sq.0));
                    assert(pre + (Seq::<Merge>::empty() + merges_from_records(sq.0)) =~= mid
                        + merges_from_records(sq.0));
                }
            }
        }
        r
    } else if p2 < n && s[p2] == ']' {
        proof {
            if parse_mentries(s@, p as int) is Some {
                let mq = parse_mentries(s@, p as int)->Some_0;
                assert(mq.0 == seq![rec]);
                assert(seq![rec].drop_first() =~= Seq::<(Seq<int>, int)>::empty());
                assert(seq![rec][0] == rec);
                assert(merges_from_records(Seq::<(Seq<int>, int)>::empty())
                    == Seq::<Merge>::empty());
                if rec.0.len() == 2 {
                    let head = seq![
                        Merge {
                            left: rec.0[0] as usize,
                            right: rec.0[1] as usize,
                            new_id: rec.1 as usize,
                        },
                    ];
                    assert(merges_from_records(mq.0) == head + Seq::<Merge>::empty());
                    assert(pre + (head + Seq::<Merge>::empty()) =~= mid);
                } else {
                    assert(merges_from_records(mq.0) == Seq::<Merge>::empty()
                        + Seq::<Merge>::empty());
                    assert(pre + (Seq::<Merge>::empty() + Seq::<Merge>::empty()) =~= mid);
                }
            }
        }
        Some(p2 + 1)
    } else {
        None
    }
}

impl BPETokenizer {
    /// Rebuilds the dense vocabulary from parsed entries; `None` when some
    /// id below the entry count is missing.
    fn rebuild_exec(es: &Vec<(usize, Vec<char>)>) -> (r: Option<Vec<Vec<char>>>)
        ensures
            ({
                let ses = Seq::new(es@.len(), |k: int| (es@[k].0 as int, es@[k].1@));
                match r {
                    Some(v) => rebuild_ok(ses) && v.deep_view() == rebuilt(ses),
                    None => !rebuild_ok(ses),
                }
            }),
    {
        let ghost ses = Seq::new(es@.len(), |k: int| (es@[k].0 as int, es@[k].1@));
        let n = es.len();
        let mut v: Vec<Vec<char>> = Vec::new();
        let mut i: usize = 0;
        proof {
            assert(v.deep_view() =~= Seq::<Seq<char>>::empty());
        }
        while i < n
            invariant
                i <= n,
                n == es@.len(),
                ses == Seq::new(es@.len(), |k: int| (es@[k].0 as int, es@[k].1@)),
                v@.len() == i,
                forall|j: int| 0 <= j < i ==> #[trigger] entry_index(ses, j, 0) is Some,
                forall|j: int|
                    0 <= j < i ==> #[trigger] v.deep_view()[j] == ses[entry_index(
                        ses,
                        j,
                        0,
                    )->Some_0].1,
            decreases n - i,
        {
            let ghost pre = v.deep_view();
            let mut k: usize = 0;
            let mut found = false;
            while k < n && !found
                invariant
                    k <= n,
                    n == es@.len(),
                    ses == Seq::new(es@.len(), |kk: int| (es@[kk].0 as int, es@[kk].1@)),
                    !found ==> entry_index(ses, i as int, 0) == entry_index(
                        ses,
                        i as int,
                        k as int,
                    ),
                    found ==> k < n && entry_index(ses, i as int, 0) == Some(k as int),
                decreases n - k, (if found { 0int } else { 1int }),
            {
                if es[k].0 == i {
                    found = true;
                } else {
                    k = k + 1;
                }
            }
            if !found {
                proof {
                    assert(entry_index(ses, i as int, 0) is None);
                    assert(!rebuild_ok(ses));
                }
                return None;
            }
            let tok = crate::segment::copy_range(&es[k].1, 0, es[k].1.len(), false);
            proof {
                assert(tok@ =~= es@[k as int].1@);
            }
            v.push(tok);
            proof {
                assert(v.deep_view() =~~= pre.push(ses[entry_index(ses, i as int, 0)->Some_0].1));
            }
            i = i + 1;
        }
        proof {
            assert(rebuild_ok(ses));
            assert(v.deep_view() =~= rebuilt(ses));
        }
        Some(v)
    }
}

proof fn lemma_skip_ws_to(s: Seq<char>, p: int, q: int)
    requires
        0 <= p <= q <= s.len(),
        forall|j: int| p <= j < q ==> is_ws(#[trigger] s[j]),
        q == s.len() || !is_ws(s[q]),
    ensures
        skip_ws(s, p) == q,
    decreases q - p,
{
    if p < q {
        lemma_skip_ws_to(s, p + 1, q);
    }
}

proof fn lemma_digit_char(d: int)
    requires
        0 <= d <= 9,
    ensures
        is_digit(digit_char(d)),
        digit_char(d) as u32 == 48 + d,
        !is_ws(digit_char(d)),
        digit_char(d) != '"',
        digit_char(d) != ',',
        digit_char(d) != ']',
        digit_char(d) != '}',
        digit_char(d) != '\\',
{
}

proof fn lemma_digit_props(c: char)
    requires
        is_digit(c),
    ensures
        !is_ws(c),
        c != '"',
        c != ',',
        c != ']',
        c != '}',
        c != '{',
        c != ':',
        c != '[',
        c != '\\',
{
}

proof fn lemma_dec_digits(n: int)
    requires
        0 <= n,
    ensures
        dec_rep(n).len() >= 1,
        forall|i: int| 0 <= i < dec_rep(n).len() ==> is_digit(#[trigger] dec_rep(n)[i]),
    decreases n,
{
    if n < 10 {
        lemma_digit_char(n);
    } else {
        lemma_dec_digits(n / 10);
        lemma_digit_char(n % 10);
        assert forall|i: int| 0 <= i < dec_rep(n).len() implies is_digit(
            #[trigger] dec_rep(n)[i],
        ) by {
            if i < dec_rep(n / 10).len() {
                assert(dec_rep(n)[i] == dec_rep(n / 10)[i]);
            } else {
                assert(dec_rep(n)[i] == digit_char(n % 10));
            }
        }
    }
}

/// Digits folded into an accumulator, as [`num_from`] does, but over a
/// standalone digit string.
spec fn fold_num(acc: int, ds: Seq<char>) -> Option<int>
    decreases ds.len(),
{
    if ds.len() == 0 {
        Some(acc)
    } else {
        let a2 = acc * 10 + (ds[0] as u32 - 48);
        if a2 > usize::MAX as int {
            None
        } else {
            fold_num(a2, ds.drop_first())
        }
    }
}

proof fn lemma_fold_append(acc: int, a: Seq<char>, b: Seq<char>)
    ensures
        fold_num(acc, a + b) == (match fold_num(acc, a) {
            Some(v) => fold_num(v, b),
            None => None::<int>,
        }),
    decreases a.len(),
{
    if a.len() == 0 {
        assert(a + b =~= b);
    } else {
        assert((a + b)[0] == a[0]);
        assert((a + b).drop_first() =~= a.drop_first() + b);
        let a2 = acc * 10 + (a[0] as u32 - 48);
        if a2 <= usize::MAX as int {
            lemma_fold_append(a2, a.drop_first(), b);
        }
    }
}

proof fn lemma_fold_dec(n: int)
    requires
        0 <= n <= usize::MAX as int,
    ensures
        fold_num(0, dec_rep(n)) == Some(n),
    decreases n,
{
    if n < 10 {
        lemma_digit_char(n);
        let d = digit_char(n);
        assert(dec_rep(n) == seq![d]);
        assert(seq![d][0] == d);
        assert(0 * 10 + (d as u32 - 48) == n);
        assert(seq![d].drop_first() =~= Seq::<char>::empty());
        assert(fold_num(n, Seq::<char>::empty()) == Some(n));
    } else {
        lemma_fold_dec(n / 10);
        lemma_digit_char(n % 10);
        lemma_fold_append(0, dec_rep(n / 10), seq![digit_char(n % 10)]);
        vstd::arithmetic::div_mod::lemma_fundamental_div_mod(n, 10);
        let d = digit_char(n % 10);
        assert((n / 10) * 10 + (n % 10) == n);
        assert(fold_num(n / 10, seq![d]) == Some(n)) by {
            assert(seq![d][0] == d);
            assert((n / 10) * 10 + (d as u32 - 48) == n);
            assert(seq![d].drop_first() =~= Seq::<char>::empty());
            assert(fold_num(n, Seq::<char>::empty()) == Some(n));
        }
    }
}

proof fn lemma_num_from_at(s: Seq<char>, p: int, acc: int, ds: Seq<char>)
    requires
        0 <= p,
        p + ds.len() <= s.len(),
        0 <= acc,
        forall|i: int| 0 <= i < ds.len() ==> is_digit(#[trigger] ds[i]),
        s.subrange(p, p + ds.len()) == ds,
        p + ds.len() == s.len() || !is_digit(s[p + ds.len()]),
    ensures
        num_from(s, p, acc) == (match fold_num(acc, ds) {
            Some(v) => Some((v, p + ds.len())),
            None => None::<(int, int)>,
        }),
    decreases ds.len(),
{
    if ds.len() == 0 {
    } else {
        assert(s[p] == ds[0]) by {
            assert(s.subrange(p, p + ds.len())[0] == s[p]);
        }
        let a2 = acc * 10 + (s[p] as u32 - 48);
        if a2 <= usize::MAX as int {
            assert(s.subrange(p + 1, p + ds.len()) =~= ds.drop_first()) by {
                assert forall|i: int| 0 <= i < ds.len() - 1 implies s.subrange(
                    p + 1,
                    p + ds.len(),
                )[i] == ds.drop_first()[i] by {
                    assert(s.subrange(p, p + ds.len())[i + 1] == s[p + 1 + i]);
                }
            }
            lemma_num_from_at(s, p + 1, a2, ds.drop_first());
        }
    }
}

proof fn lemma_parse_num_at(s: Seq<char>, p: int, n: int)
    requires
        0 <= n <= usize::MAX as int,
        0 <= p,
        p + dec_rep(n).len() <= s.len(),
        s.subrange(p, p + dec_rep(n).len()) == dec_rep(n),
        p + dec_rep(n).len() == s.len() || !is_digit(s[p + dec_rep(n).len()]),
    ensures
        parse_num(s, p) == Some((n, p + dec_rep(n).len())),
{
    lemma_dec_digits(n);
    lemma_fold_dec(n);
    assert(s[p] == dec_rep(n)[0]) by {
        assert(s.subrange(p, p + dec_rep(n).len())[0] == s[p]);
    }
    lemma_num_from_at(s, p, 0, dec_rep(n));
}

proof fn lemma_numlist_pair(s: Seq<char>, q: int, l: usize, r: usize)
    requires
        0 <= q,
        ({
            let dl = dec_rep(l as int).len();
            let dr = dec_rep(r as int).len();
            &&& q + dl + dr + 3 <= s.len()
            &&& s.subrange(q, q + dl) == dec_rep(l as int)
            &&& s[q + dl] == ','
            &&& s[q + dl + 1] == ' '
            &&& s.subrange(q + dl + 2, q + dl + 2 + dr) == dec_rep(r as int)
            &&& s[q + dl + 2 + dr] == ']'
        }),
    ensures
        parse_numlist(s, q) == Some(
            (seq![l as int, r as int], q + dec_rep(l as int).len() + dec_rep(r as int).len() + 3),
        ),
{
    let dl = dec_rep(l as int).len() as int;
    let dr = dec_rep(r as int).len() as int;
    lemma_dec_digits(l as int);
    lemma_dec_digits(r as int);
    assert(s[q] == dec_rep(l as int)[0]) by {
        assert(s.subrange(q, q + dl)[0] == s[q]);
    }
    assert(is_digit(s[q]));
    lemma_digit_props(s[q]);
    lemma_skip_ws_to(s, q, q);
    lemma_parse_num_at(s, q, l as int);
    lemma_skip_ws_to(s, q + dl, q + dl);
    // the second element
    let q2 = q + dl + 1;
    assert(s[q2 + 1] == dec_rep(r as int)[0]) by {
        assert(s.subrange(q + dl + 2, q + dl + 2 + dr)[0] == s[q + dl + 2]);
    }
    assert(is_digit(s[q2 + 1]));
    lemma_digit_props(s[q2 + 1]);
    lemma_skip_ws_to(s, q2, q2 + 1);
    lemma_parse_num_at(s, q2 + 1, r as int);
    lemma_skip_ws_to(s, q2 + 1 + dr, q2 + 1 + dr);
    assert(parse_numlist(s, q2) == Some((seq![r as int], q + dl + dr + 3)));
    assert(seq![l as int] + seq![r as int] =~= seq![l as int, r as int]);
}

#[verifier::rlimit(100)]
proof fn lemma_record_at(s: Seq<char>, p: int, ep: int, m: Merge)
    requires
        0 <= p <= ep,
        forall|j: int| p <= j < ep ==> is_ws(#[trigger] s[j]),
        ep + merge_entry(m).len() <= s.len(),
        s.subrange(ep, ep + merge_entry(m).len()) == merge_entry(m),
    ensures
        parse_record(s, p) == Some(
            ((seq![m.left as int, m.right as int], m.new_id as int), ep + merge_entry(m).len()),
        ),
{
    let me = merge_entry(m);
    let dl = dec_rep(m.left as int).len() as int;
    let dr = dec_rep(m.right as int).len() as int;
    let dn = dec_rep(m.new_id as int).len() as int;
    lemma_dec_digits(m.left as int);
    lemma_dec_digits(m.right as int);
    lemma_dec_digits(m.new_id as int);
    assert(me.len() == 30 + dl + dr + dn);
    assert forall|i: int| 0 <= i < me.len() implies s[ep + i] == me[i] by {
        assert(s.subrange(ep, ep + me.len())[i] == s[ep + i]);
    }
    // the fixed characters of the record
    assert(me[0] == ' ' && me[1] == ' ' && me[2] == '{' && me[3] == ' ');
    assert(me[4] == '"' && me[5] == 'p' && me[6] == 'a' && me[7] == 'i' && me[8] == 'r' && me[9]
        == '"' && me[10] == ':' && me[11] == ' ' && me[12] == '[');
    assert(forall|i: int| 0 <= i < dl ==> me[13 + i] == dec_rep(m.left as int)[i]);
    assert(me[13 + dl] == ',' && me[13 + dl + 1] == ' ');
    assert(forall|i: int| 0 <= i < dr ==> me[15 + dl + i] == dec_rep(m.right as int)[i]);
    assert(me[15 + dl + dr] == ']' && me[16 + dl + dr] == ',' && me[17 + dl + dr] == ' ');
    assert(me[18 + dl + dr] == '"' && me[19 + dl + dr] == 'n' && me[20 + dl + dr] == 'e' && me[21
        + dl + dr] == 'w' && me[22 + dl + dr] == '_' && me[23 + dl + dr] == 'i' && me[24 + dl + dr]
        == 'd' && me[25 + dl + dr] == '"');
    assert(me[26 + dl + dr] == ':' && me[27 + dl + dr] == ' ');
    assert(forall|i: int| 0 <= i < dn ==> me[28 + dl + dr + i] == dec_rep(m.new_id as int)[i]);
    assert(me[28 + dl + dr + dn] == ' ' && me[29 + dl + dr + dn] == '}');
    // walk the parser
    lemma_skip_ws_to(s, p, ep + 2);
    lemma_skip_ws_to(s, ep + 3, ep + 4);
    assert(s.subrange(ep + 4, ep + 10) =~= pair_key());
    lemma_skip_ws_to(s, ep + 10, ep + 10);
    lemma_skip_ws_to(s, ep + 11, ep + 12);
    assert(s.subrange(ep + 13, ep + 13 + dl) =~= dec_rep(m.left as int));
    assert(s.subrange(ep + 13 + dl + 2, ep + 13 + dl + 2 + dr) =~= dec_rep(m.right as int));
    lemma_numlist_pair(s, ep + 13, m.left, m.right);
    let after_list = ep + 16 + dl + dr;
    lemma_skip_ws_to(s, after_list, after_list);
    lemma_skip_ws_to(s, after_list + 1, after_list + 2);
    assert(s.subrange(ep + 18 + dl + dr, ep + 26 + dl + dr) =~= newid_key());
    lemma_skip_ws_to(s, ep + 26 + dl + dr, ep + 26 + dl + dr);
    assert(s[ep + 28 + dl + dr] == dec_rep(m.new_id as int)[0]);
    lemma_digit_props(s[ep + 28 + dl + dr]);
    lemma_skip_ws_to(s, ep + 27 + dl + dr, ep + 28 + dl + dr);
    assert(s.subrange(ep + 28 + dl + dr, ep + 28 + dl + dr + dn) =~= dec_rep(m.new_id as int));
    lemma_parse_num_at(s, ep + 28 + dl + dr, m.new_id as int);
    lemma_skip_ws_to(s, ep + 28 + dl + dr + dn, ep + 29 + dl + dr + dn);
}

proof fn lemma_mentries_at(s: Seq<char>, p: int, ep: int, ms: Seq<Merge>, i: int)
    requires
        0 <= i < ms.len(),
        0 <= p <= ep,
        forall|j: int| p <= j < ep ==> is_ws(#[trigger] s[j]),
        ep + merges_entries(ms, i).len() + 1 <= s.len(),
        s.subrange(ep, ep + merges_entries(ms, i).len()) == merges_entries(ms, i),
        s[ep + merges_entries(ms, i).len()] == ']',
    ensures
        parse_mentries(s, p) == Some(
            (
                Seq::new(
                    (ms.len() - i) as nat,
                    |k: int|
                        (
                            seq![ms[i + k].left as int, ms[i + k].right as int],
                            ms[i + k].new_id as int,
                        ),
                ),
                ep + merges_entries(ms, i).len() + 1,
            ),
        ),
    decreases (ms.len() - i) as nat,
{
    let ent = merges_entries(ms, i);
    let me = merge_entry(ms[i]);
    assert forall|j: int| 0 <= j < ent.len() implies s[ep + j] == ent[j] by {
        assert(s.subrange(ep, ep + ent.len())[j] == s[ep + j]);
    }
    if i == ms.len() - 1 {
        assert(ent == me + seq!['\n']);
        assert(forall|j: int| 0 <= j < me.len() ==> ent[j] == me[j]);
        assert(s.subrange(ep, ep + me.len()) =~= me);
        lemma_record_at(s, p, ep, ms[i]);
        assert(ent[me.len() as int] == '\n');
        lemma_skip_ws_to(s, ep + me.len(), ep + me.len() + 1);
        let recs = Seq::new(
            (ms.len() - i) as nat,
            |k: int|
                (seq![ms[i + k].left as int, ms[i + k].right as int], ms[i + k].new_id as int),
        );
        assert(recs =~= seq![(seq![ms[i].left as int, ms[i].right as int], ms[i].new_id as int)]);
    } else {
        assert(ent == me + seq![',', '\n'] + merges_entries(ms, i + 1));
        assert(forall|j: int| 0 <= j < me.len() ==> ent[j] == me[j]);
        assert(s.subrange(ep, ep + me.len()) =~= me);
        lemma_record_at(s, p, ep, ms[i]);
        assert(ent[me.len() as int] == ',');
        assert(ent[me.len() as int + 1] == '\n');
        lemma_skip_ws_to(s, ep + me.len(), ep + me.len());
        let ep2 = ep + me.len() + 2;
        assert(s.subrange(ep2, ep2 + merges_entries(ms, i + 1).len()) =~= merges_entries(
            ms,
            i + 1,
        )) by {
            assert forall|j: int|
                0 <= j < merges_entries(ms, i + 1).len() implies #[trigger] s.subrange(
                ep2,
                ep2 + merges_entries(ms, i + 1).len(),
            )[j] == merges_entries(ms, i + 1)[j] by {
                assert(ent[me.len() + 2 + j] == merges_entries(ms, i + 1)[j]);
            }
        }
        lemma_mentries_at(s, ep + me.len() + 1, ep2, ms, i + 1);
        let recs = Seq::new(
            (ms.len() - i) as nat,
            |k: int|
                (seq![ms[i + k].left as int, ms[i + k].right as int], ms[i + k].new_id as int),
        );
        let rest = Seq::new(
            (ms.len() - (i + 1)) as nat,
            |k: int|
                (
                    seq![ms[i + 1 + k].left as int, ms[i + 1 + k].right as int],
                    ms[i + 1 + k].new_id as int,
                ),
        );
        assert(recs =~= seq![
            (seq![ms[i].left as int, ms[i].right as int], ms[i].new_id as int),
        ] + rest);
    }
}

proof fn lemma_records_rebuild(ms: Seq<Merge>, i: int)
    requires
        0 <= i <= ms.len(),
    ensures
        merges_from_records(
            Seq::new(
                (ms.len() - i) as nat,
                |k: int|
                    (seq![ms[i + k].left as int, ms[i + k].right as int], ms[i + k].new_id as int),
            ),
        ) == ms.skip(i),
    decreases (ms.len() - i) as nat,
{
    let recs = Seq::new(
        (ms.len() - i) as nat,
        |k: int|
            (seq![ms[i + k].left as int, ms[i + k].right as int], ms[i + k].new_id as int),
    );
    if i == ms.len() {
        assert(ms.skip(i) =~= Seq::<Merge>::empty());
    } else {
        lemma_records_rebuild(ms, i + 1);
        let rest = Seq::new(
            (ms.len() - (i + 1)) as nat,
            |k: int|
                (
                    seq![ms[i + 1 + k].left as int, ms[i + 1 + k].right as int],
                    ms[i + 1 + k].new_id as int,
                ),
        );
        assert(recs.drop_first() =~= rest);
        assert(recs[0].0.len() == 2);
        assert(recs[0].0[0] == ms[i].left as int);
        assert(recs[0].0[1] == ms[i].right as int);
        let m0 = Merge {
            left: recs[0].0[0] as usize,
            right: recs[0].0[1] as usize,
            new_id: recs[0].1 as usize,
        };
        assert(m0 == ms[i]);
        assert(seq![m0] + ms.skip(i + 1) =~= ms.skip(i));
    }
}

proof fn lemma_hex_char_val(d: int)
    requires
        0 <= d < 16,
    ensures
        hex_val(hex_char(d)) == d,
{
    if d < 10 {
        lemma_digit_char(d);
    }
}

proof fn lemma_esc_parse(s: Seq<char>, p: int, t: Seq<char>)
    requires
        0 <= p,
        p + esc_str(t).len() + 1 <= s.len(),
        s.subrange(p, p + esc_str(t).len()) == esc_str(t),
        s[p + esc_str(t).len()] == '"',
    ensures
        parse_string_body(s, p) == Some((t, p + esc_str(t).len() + 1)),
    decreases t.len(),
{
    let et = esc_str(t);
    assert forall|j: int| 0 <= j < et.len() implies s[p + j] == et[j] by {
        assert(s.subrange(p, p + et.len())[j] == s[p + j]);
    }
    if t.len() == 0 {
        assert(s[p] == '"');
    } else {
        let c = t[0];
        let ec = esc_char(c);
        let el = ec.len() as int;
        let rest = t.drop_first();
        assert(et == ec + esc_str(rest));
        assert(forall|j: int| 0 <= j < el ==> et[j] == ec[j]);
        assert(s.subrange(p + el, p + el + esc_str(rest).len()) =~= esc_str(rest)) by {
            assert forall|j: int|
                0 <= j < esc_str(rest).len() implies #[trigger] s.subrange(
                p + el,
                p + el + esc_str(rest).len(),
            )[j] == esc_str(rest)[j] by {
                assert(et[el + j] == esc_str(rest)[j]);
            }
        }
        lemma_esc_parse(s, p + el, rest);
        if c == '"' {
            assert(s[p] == '\\' && s[p + 1] == '"');
            assert(seq![s[p + 1]] + rest =~= t);
        } else if c == '\\' {
            assert(s[p] == '\\' && s[p + 1] == '\\');
            assert(seq![s[p + 1]] + rest =~= t);
        } else if (c as u32) < 32 {
            let u = (c as u32) as int;
            assert(s[p] == '\\' && s[p + 1] == 'u' && s[p + 2] == '0' && s[p + 3] == '0');
            assert(s[p + 4] == hex_char(u / 16));
            assert(s[p + 5] == hex_char(u % 16));
            lemma_hex_char_val(u / 16);
            lemma_hex_char_val(u % 16);
            vstd::arithmetic::div_mod::lemma_fundamental_div_mod(u, 16);
            assert(hex_val(s[p + 4]) * 16 + hex_val(s[p + 5]) == u);
            let c2 = (u as u8) as char;
            assert(c2 as u32 == u);
            vstd::utf8::char_u32_cast(c, c as u32);
            vstd::utf8::char_u32_cast(c2, c2 as u32);
            assert(c2 == c);
            assert(seq![(u as u8) as char] + rest =~= t);
        } else {
            assert(ec =~= seq![c]);
            assert(ec[0] == c);
            assert(s[p + 0] == et[0]);
            assert(s[p] == c);
            assert(seq![s[p]] + rest =~= t);
        }
    }
}

proof fn lemma_ventries_at(s: Seq<char>, p: int, ep: int, vocab: Seq<Seq<char>>, i: int)
    requires
        0 <= i < vocab.len(),
        vocab.len() <= usize::MAX,
        0 <= p <= ep,
        forall|j: int| p <= j < ep ==> is_ws(#[trigger] s[j]),
        ep + vocab_entries(vocab, i).len() + 1 <= s.len(),
        s.subrange(ep, ep + vocab_entries(vocab, i).len()) == vocab_entries(vocab, i),
        s[ep + vocab_entries(vocab, i).len()] == '}',
    ensures
        parse_ventries(s, p) == Some(
            (
                Seq::new((vocab.len() - i) as nat, |k: int| (i + k, vocab[i + k])),
                ep + vocab_entries(vocab, i).len() + 1,
            ),
        ),
    decreases vocab.len() - i,
{
    let ent = vocab_entries(vocab, i);
    let ve = vocab_entry(i, vocab[i]);
    let di = dec_rep(i).len() as int;
    let el = esc_str(vocab[i]).len() as int;
    lemma_dec_digits(i);
    assert(ve.len() == 8 + di + el);
    assert forall|j: int| 0 <= j < ent.len() implies s[ep + j] == ent[j] by {
        assert(s.subrange(ep, ep + ent.len())[j] == s[ep + j]);
    }
    assert(forall|j: int| 0 <= j < ve.len() ==> ent[j] == ve[j]);
    assert(ve[0] == ' ' && ve[1] == ' ' && ve[2] == '"');
    assert(forall|j: int| 0 <= j < di ==> ve[3 + j] == dec_rep(i)[j]);
    assert(ve[3 + di] == '"' && ve[4 + di] == ':' && ve[5 + di] == ' ' && ve[6 + di] == '"');
    assert(forall|j: int| 0 <= j < el ==> ve[7 + di + j] == esc_str(vocab[i])[j]);
    assert(ve[7 + di + el] == '"');
    lemma_skip_ws_to(s, p, ep + 2);
    assert(s.subrange(ep + 3, ep + 3 + di) =~= dec_rep(i));
    lemma_parse_num_at(s, ep + 3, i);
    lemma_skip_ws_to(s, ep + 4 + di, ep + 4 + di);
    lemma_skip_ws_to(s, ep + 5 + di, ep + 6 + di);
    assert(s.subrange(ep + 7 + di, ep + 7 + di + el) =~= esc_str(vocab[i]));
    lemma_esc_parse(s, ep + 7 + di, vocab[i]);
    let p5 = ep + ve.len();
    let recs = Seq::new((vocab.len() - i) as nat, |k: int| (i + k, vocab[i + k]));
    if i == vocab.len() - 1 {
        assert(ent == ve + seq!['\n']);
        assert(ent[ve.len() as int] == '\n');
        lemma_skip_ws_to(s, p5, p5 + 1);
        assert(recs =~= seq![(i, vocab[i])]);
    } else {
        assert(ent == ve + seq![',', '\n'] + vocab_entries(vocab, i + 1));
        assert(ent[ve.len() as int] == ',');
        assert(ent[ve.len() as int + 1] == '\n');
        lemma_skip_ws_to(s, p5, p5);
        let ep2 = p5 + 2;
        assert(s.subrange(ep2, ep2 + vocab_entries(vocab, i + 1).len()) =~= vocab_entries(
            vocab,
            i + 1,
        )) by {
            assert forall|j: int|
                0 <= j < vocab_entries(vocab, i + 1).len() implies #[trigger] s.subrange(
                ep2,
                ep2 + vocab_entries(vocab, i + 1).len(),
            )[j] == vocab_entries(vocab, i + 1)[j] by {
                assert(ent[ve.len() + 2 + j] == vocab_entries(vocab, i + 1)[j]);
            }
        }
        lemma_ventries_at(s, p5 + 1, ep2, vocab, i + 1);
        let rest = Seq::new((vocab.len() - (i + 1)) as nat, |k: int| (i + 1 + k, vocab[i + 1 + k]));
        assert(recs =~= seq![(i, vocab[i])] + rest);
    }
}

proof fn lemma_entry_index_canon(es: Seq<(int, Seq<char>)>, j: int, k: int)
    requires
        forall|m: int| 0 <= m < es.len() ==> (#[trigger] es[m]).0 == m,
        0 <= k <= j < es.len(),
    ensures
        entry_index(es, j, k) == Some(j),
    decreases j - k,
{
    if k < j {
        lemma_entry_index_canon(es, j, k + 1);
    }
}

/// Loading the written vocabulary artifact gives back exactly the
/// vocabulary that was written.
#[verifier::rlimit(100)]
pub proof fn lemma_vocab_roundtrip(vocab: Seq<Seq<char>>)
    requires
        vocab.len() <= usize::MAX,
    ensures
        vocab_from_json(vocab_json(vocab)) == Some(vocab),
{
    let s = vocab_json(vocab);
    if vocab.len() == 0 {
        assert(s == seq!['{', '}']);
        lemma_skip_ws_to(s, 0, 0);
        lemma_skip_ws_to(s, 1, 1);
        assert(rebuild_ok(Seq::<(int, Seq<char>)>::empty()));
        assert(rebuilt(Seq::<(int, Seq<char>)>::empty()) =~= vocab);
    } else {
        let ent = vocab_entries(vocab, 0);
        assert(s == seq!['{', '\n'] + ent + seq!['}']);
        assert(s[0] == '{');
        assert(s[1] == '\n');
        lemma_skip_ws_to(s, 0, 0);
        assert(s.subrange(2, 2 + ent.len() as int) =~= ent) by {
            assert forall|j: int| 0 <= j < ent.len() implies #[trigger] s.subrange(
                2,
                2 + ent.len() as int,
            )[j] == ent[j] by {
                assert(s[2 + j] == (seq!['{', '\n'] + ent + seq!['}'])[2 + j]);
            }
        }
        assert(s[2 + ent.len() as int] == '}');
        lemma_dec_digits(0);
        assert(vocab_entry(0, vocab[0]).len() >= 3);
        assert(vocab_entry(0, vocab[0])[0] == ' ');
        assert(vocab_entry(0, vocab[0])[1] == ' ');
        assert(vocab_entry(0, vocab[0])[2] == '"');
        assert(ent[0] == ' ' && ent[1] == ' ' && ent[2] == '"');
        assert(s[2] == ent[0] && s[3] == ent[1] && s[4] == ent[2]);
        lemma_skip_ws_to(s, 1, 4);
        lemma_ventries_at(s, 1, 2, vocab, 0);
        let es = Seq::new(vocab.len(), |k: int| (0 + k, vocab[0 + k]));
        assert(parse_vocab_spec(s) == Some(es));
        assert(forall|m: int| 0 <= m < es.len() ==> (#[trigger] es[m]).0 == m);
        assert forall|j: int| 0 <= j < es.len() implies #[trigger] entry_index(es, j, 0) == Some(
            j,
        ) by {
            lemma_entry_index_canon(es, j, 0);
        }
        assert(rebuild_ok(es));
        assert(rebuilt(es) =~= vocab);
    }
}

/// Saving then loading restores the exact tokenizer state: parsing the two
/// written artifacts yields precisely the vocabulary and the merge table
/// that were written, so a reloaded instance encodes and decodes every
/// input exactly as the saved one did.
pub proof fn lemma_save_load_roundtrip(vocab: Seq<Seq<char>>, merges: Seq<Merge>)
    requires
        vocab.len() <= usize::MAX,
    ensures
        vocab_from_json(vocab_json(vocab)) == Some(vocab),
        merges_from_json(merges_json(merges)) == Some(merges),
{
    lemma_vocab_roundtrip(vocab);
    lemma_merges_roundtrip(merges);
}

/// Loading the written merge artifact gives back exactly the merge table
/// that was written.
#[verifier::rlimit(100)]
pub proof fn lemma_merges_roundtrip(ms: Seq<Merge>)
    ensures
        merges_from_json(merges_json(ms)) == Some(ms),
{
    let s = merges_json(ms);
    if ms.len() == 0 {
        assert(s == seq!['[', ']']);
        lemma_skip_ws_to(s, 0, 0);
        lemma_skip_ws_to(s, 1, 1);
        assert(merges_from_records(Seq::<(Seq<int>, int)>::empty()) =~= Seq::<Merge>::empty());
        assert(ms =~= Seq::<Merge>::empty());
    } else {
        let ent = merges_entries(ms, 0);
        assert(s == seq!['[', '\n'] + ent + seq![']']);
        assert(s[0] == '[');
        assert(s[1] == '\n');
        lemma_skip_ws_to(s, 0, 0);
        lemma_dec_digits(ms[0].left as int);
        assert(merges_entries(ms, 0)[0] == merge_entry(ms[0])[0]);
        assert(s[2] == ' ');
        assert(s.subrange(2, 2 + ent.len() as int) =~= ent) by {
            assert forall|j: int| 0 <= j < ent.len() implies s.subrange(2, 2 + ent.len() as int)[j]
                == ent[j] by {
                assert(s[2 + j] == (seq!['[', '\n'] + ent + seq![']'])[2 + j]);
            }
        }
        assert(s[2 + ent.len() as int] == ']');
        // the skip after '[' runs into the first record and stops at its
        // opening brace, which is not ']'
        lemma_dec_digits(ms[0].right as int);
        lemma_dec_digits(ms[0].new_id as int);
        assert(merge_entry(ms[0]).len() >= 3);
        assert(merge_entry(ms[0])[0] == ' ');
        assert(merge_entry(ms[0])[1] == ' ');
        assert(merge_entry(ms[0])[2] == '{');
        assert(ent[0] == ' ' && ent[1] == ' ' && ent[2] == '{');
        assert(s[2] == ent[0] && s[3] == ent[1] && s[4] == ent[2]);
        lemma_skip_ws_to(s, 1, 4);
        lemma_mentries_at(s, 1, 2, ms, 0);
        lemma_records_rebuild(ms, 0);
        assert(ms.skip(0) =~= ms);
    }
}

impl BPETokenizer {
    /// Replaces the tokenizer state with the state held in the two
    /// artifacts: the vocabulary object and the merge array. When either
    /// text does not parse, or the vocabulary ids are not exactly
    /// `0 .. n`, the call fails with `SerializationError` and the state is
    /// left unchanged.
    #[verifier::loop_isolation(false)]
    pub fn load_serialized(&mut self, vocab_data: &str, merges_data: &str) -> (r: Result<
        (),
        TokenizerError,
    >)
        ensures
            match (vocab_from_json(vocab_data@), merges_from_json(merges_data@)) {
                (Some(v), Some(ms)) => r is Ok && final(self).vocab_model() == v
                    && final(self).merges_model() == ms,
                _ => (r matches Err(e) && e@ == crate::error::ErrSpec::SerializationError)
                    && final(self).vocab_model() == old(self).vocab_model()
                    && final(self).merges_model() == old(self).merges_model(),
            },
    {
        let vc = crate::model::str_chars(vocab_data);
        let mc = crate::model::str_chars(merges_data);
        // Parse the vocabulary artifact.
        let nv = vc.len();
        let p0 = skip_ws_exec(&vc, 0);
        if !(nv > 0 && p0 < nv && vc[p0] == '{') {
            return Err(TokenizerError::SerializationError(String::from_str("the vocabulary artifact is not an object")));
        }
        let p1 = skip_ws_exec(&vc, p0 + 1);
        let mut es: Vec<(usize, Vec<char>)> = Vec::new();
        if p1 < nv && vc[p1] == '}' {
        } else {
            match parse_ventries_exec(&vc, p0 + 1, &mut es) {
                Some(_) => {},
                None => {
                    return Err(TokenizerError::SerializationError(String::from_str("a vocabulary entry does not parse")));
                },
            }
        }
        let ghost ses = parse_vocab_spec(vocab_data@)->Some_0;
        proof {
            assert(ses.len() == es@.len());
            assert forall|k: int| 0 <= k < es@.len() implies (#[trigger] es@[k]).0 as int
                == ses[k].0 && es@[k].1@ == ses[k].1 by {
                assert(entry_matches(es@[0 + k], ses[k]));
            }
            assert(Seq::new(es@.len(), |k: int| (es@[k].0 as int, es@[k].1@)) =~~= ses);
        }
        let v = match Self::rebuild_exec(&es) {
            Some(v) => v,
            None => {
                proof {
                    assert(!rebuild_ok(ses));
                }
                return Err(TokenizerError::SerializationError(String::from_str("the vocabulary ids are not dense from zero")));
            },
        };
        // Parse the merge artifact.
        let nm = mc.len();
        let q0 = skip_ws_exec(&mc, 0);
        if !(nm > 0 && q0 < nm && mc[q0] == '[') {
            return Err(TokenizerError::SerializationError(String::from_str("the merge artifact is not an array")));
        }
        let q1 = skip_ws_exec(&mc, q0 + 1);
        let mut ms: Vec<Merge> = Vec::new();
        if q1 < nm && mc[q1] == ']' {
            proof {
                assert(ms@ =~= merges_from_json(merges_data@)->Some_0);
            }
        } else {
            match parse_mentries_exec(&mc, q0 + 1, &mut ms) {
                Some(_) => {
                    proof {
                        assert(Seq::<Merge>::empty() + merges_from_records(
                            parse_mentries(mc@, q0 + 1 as int)->Some_0.0,
                        ) =~= merges_from_records(parse_mentries(mc@, q0 + 1 as int)->Some_0.0));
                    }
                },
                None => {
                    return Err(TokenizerError::SerializationError(String::from_str("a merge record does not parse")));
                },
            }
        }
        self.vocab = v;
        self.merges = ms;
        Ok(())
    }
}

/// Appends the decimal representation of `n`.
fn push_dec(out: &mut Vec<char>, n: usize)
    ensures
        final(out)@ == old(out)@ + dec_rep(n as int),
    decreases n,
{
    if n < 10 {
        let d = ((48 + n as u8)) as char;
        out.push(d);
        proof {
            assert(old(out)@ + dec_rep(n as int) =~= old(out)@.push(digit_char(n as int)));
        }
    } else {
        let ghost base = out@;
        push_dec(out, n / 10);
        let d = ((48 + (n % 10) as u8)) as char;
        out.push(d);
        proof {
            assert(base + dec_rep(n as int) =~= (base + dec_rep(n as int / 10)).push(
                digit_char(n as int % 10),
            ));
        }
    }
}

/// Appends the escaped form of the token string `t`.
fn push_esc(out: &mut Vec<char>, t: &Vec<char>)
    ensures
        final(out)@ == old(out)@ + esc_str(t@),
{
    let ghost base = out@;
    let n = t.len();
    let mut i: usize = 0;
    proof {
        assert(t@.skip(0) =~= t@);
        assert(base + Seq::<char>::empty() =~= base);
    }
    while i < n
        invariant
            i <= n,
            n == t@.len(),
            out@ + esc_str(t@.skip(i as int)) == base + esc_str(t@),
        decreases n - i,
    {
        let ghost pre = out@;
        let ghost suf = t@.skip(i as int);
        proof {
            assert(suf[0] == t@[i as int]);
            assert(suf.drop_first() =~= t@.skip(i + 1));
        }
        let c = t[i];
        if c == '"' {
            out.push('\\');
            out.push('"');
        } else if c == '\\' {
            out.push('\\');
            out.push('\\');
        } else if (c as u32) < 32 {
            let u = c as u32;
            let hi = (u / 16) as u8;
            let lo = (u % 16) as u8;
            let hic = if hi < 10 {
                (48 + hi) as char
            } else {
                (87 + hi) as char
            };
            let loc = if lo < 10 {
                (48 + lo) as char
            } else {
                (87 + lo) as char
            };
            out.push('\\');
            out.push('u');
            out.push('0');
            out.push('0');
            out.push(hic);
            out.push(loc);
        } else {
            out.push(c);
        }
        proof {
            assert(out@ =~= pre + esc_char(t@[i as int]));
            assert((pre + esc_char(suf[0])) + esc_str(t@.skip(i + 1)) =~= pre + (esc_char(suf[0])
                + esc_str(suf.drop_first())));
        }
        i = i + 1;
    }
    proof {
        assert(t@.skip(n as int) =~= Seq::<char>::empty());
        assert(out@ + Seq::<char>::empty() =~= out@);
    }
}

/// Appends one merge record.
#[verifier::rlimit(100)]
fn push_merge_entry(out: &mut Vec<char>, m: Merge)
    ensures
        final(out)@ == old(out)@ + merge_entry(m),
{
    let ghost pre = out@;
    out.push(' ');
    out.push(' ');
    out.push('{');
    out.push(' ');
    out.push('"');
    out.push('p');
    out.push('a');
    out.push('i');
    out.push('r');
    out.push('"');
    out.push(':');
    out.push(' ');
    out.push('[');
    push_dec(out, m.left);
    out.push(',');
    out.push(' ');
    push_dec(out, m.right);
    out.push(']');
    out.push(',');
    out.push(' ');
    out.push('"');
    out.push('n');
    out.push('e');
    out.push('w');
    out.push('_');
    out.push('i');
    out.push('d');
    out.push('"');
    out.push(':');
    out.push(' ');
    push_dec(out, m.new_id);
    out.push(' ');
    out.push('}');
    proof {
        assert(out@ =~= pre + merge_entry(m));
    }
}

impl BPETokenizer {
    /// The vocabulary artifact: a JSON object mapping each stringified id to
    /// its token string, one entry per id, ids in increasing order.
    pub fn serialize_vocab(&self) -> (r: String)
        ensures
            r@ == vocab_json(self.vocab_model()),
    {
        let ghost vm = self.vocab_model();
        let mut out: Vec<char> = Vec::new();
        let n = self.vocab.len();
        if n == 0 {
            out.push('{');
            out.push('}');
            proof {
                assert(out@ =~= vocab_json(vm));
            }
            return chars_to_string(&out);
        }
        out.push('{');
        out.push('\n');
        let ghost base = out@;
        proof {
            assert(base =~= seq!['{', '\n']);
        }
        let mut i: usize = 0;
        while i < n
            invariant
                i <= n,
                n == self.vocab@.len(),
                vm == self.vocab_model(),
                vm.len() == n,
                out@ + vocab_entries(vm, i as int) == base + vocab_entries(vm, 0),
            decreases n - i,
        {
            let ghost pre = out@;
            out.push(' ');
            out.push(' ');
            out.push('"');
            push_dec(&mut out, i);
            out.push('"');
            out.push(':');
            out.push(' ');
            out.push('"');
            push_esc(&mut out, &self.vocab[i]);
            out.push('"');
            proof {
                assert(vm[i as int] == self.vocab@[i as int]@);
                assert(out@ =~= pre + vocab_entry(i as int, vm[i as int]));
            }
            if i == n - 1 {
                out.push('\n');
                proof {
                    assert(out@ + vocab_entries(vm, i + 1) =~= pre + vocab_entries(vm, i as int));
                }
            } else {
                out.push(',');
                out.push('\n');
                proof {
                    assert(out@ + vocab_entries(vm, i + 1) =~= pre + vocab_entries(vm, i as int));
                }
            }
            i = i + 1;
        }
        proof {
            assert(vocab_entries(vm, n as int) =~= Seq::<char>::empty());
            assert(out@ + Seq::<char>::empty() =~= out@);
        }
        out.push('}');
        proof {
            assert(out@ =~= vocab_json(vm));
        }
        chars_to_string(&out)
    }

    /// The merge-table artifact: a JSON array of records, one per accepted
    /// merge, in insertion order.
    pub fn serialize_merges(&self) -> (r: String)
        ensures
            r@ == merges_json(self.merges_model()),
    {
        let ghost mm = self.merges_model();
        let mut out: Vec<char> = Vec::new();
        let n = self.merges.len();
        if n == 0 {
            out.push('[');
            out.push(']');
            proof {
                assert(out@ =~= merges_json(mm));
            }
            return chars_to_string(&out);
        }
        out.push('[');
        out.push('\n');
        let ghost base = out@;
        proof {
            assert(base =~= seq!['[', '\n']);
        }
        let mut i: usize = 0;
        while i < n
            invariant
                i <= n,
                n == self.merges@.len(),
                mm == self.merges_model(),
                out@ + merges_entries(mm, i as int) == base + merges_entries(mm, 0),
            decreases n - i,
        {
            let ghost pre = out@;
            let m = self.merges[i];
            push_merge_entry(&mut out, m);
            proof {
                assert(out@ == pre + merge_entry(mm[i as int]));
            }
            if i == n - 1 {
                out.push('\n');
                proof {
                    assert(out@ + merges_entries(mm, i + 1) =~= pre + merges_entries(mm, i as int));
                }
            } else {
                out.push(',');
                out.push('\n');
                proof {
                    assert(out@ + merges_entries(mm, i + 1) =~= pre + merges_entries(mm, i as int));
                }
            }
            i = i + 1;
        }
        proof {
            assert(merges_entries(mm, n as int) =~= Seq::<char>::empty());
            assert(out@ + Seq::<char>::empty() =~= out@);
        }
        out.push(']');
        proof {
            assert(out@ =~= merges_json(mm));
        }
        chars_to_string(&out)
    }
}

} // verus!
