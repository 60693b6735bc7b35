//! Character filters: text-to-text rewriting stages run before
//! segmentation.
//!
//! Each filter rewrites a character sequence and returns an offset
//! map sending every boundary of the rewritten text back to the
//! text it received (see `offsets`).  Boundary policy for a span
//! that a filter rewrote as a whole: boundaries inside the
//! replacement round down to the start of the rewritten span.
//!
//! `mapping` (longest-match-first literal substitution) and
//! `japanese_iteration_mark` are implemented here.  Unicode
//! normalization and regular-expression replacement call outside
//! crates; their offset maps are recovered by aligning the common
//! prefix and suffix of input and output, boundaries in the changed
//! middle rounding down to its start.

use vstd::prelude::*;

verus! {

use unicode_normalization::UnicodeNormalization;

use crate::config::ConfigValue;
use crate::error::{LinderaError, LinderaErrorKind};
use crate::mode::spec_is_kanji;
use crate::offsets::OffsetMap;
use crate::text::{chars_match_at, chars_to_string, str_eq, to_chars};

/// Which Unicode normalization form to apply.
#[derive(Clone, Copy, Debug, PartialEq, Eq, Structural)]
pub enum NormalizeKind {
    Nfc,
    Nfd,
    Nfkc,
    Nfkd,
}

/// The characters of the NFC normalization of `s`.  Named, not
/// defined: the Unicode tables define it, and the result depends on
/// the characters alone.
pub uninterp spec fn nfc_of(s: Seq<char>) -> Seq<char>;

/// The characters of the NFD normalization of `s` (see `nfc_of`).
pub uninterp spec fn nfd_of(s: Seq<char>) -> Seq<char>;

/// The characters of the NFKC normalization of `s` (see `nfc_of`).
pub uninterp spec fn nfkc_of(s: Seq<char>) -> Seq<char>;

/// The characters of the NFKD normalization of `s` (see `nfc_of`).
pub uninterp spec fn nfkd_of(s: Seq<char>) -> Seq<char>;

/// The normalization of `s` under the chosen form.
pub open spec fn normalized_of(kind: NormalizeKind, s: Seq<char>) -> Seq<char> {
    match kind {
        NormalizeKind::Nfc => nfc_of(s),
        NormalizeKind::Nfd => nfd_of(s),
        NormalizeKind::Nfkc => nfkc_of(s),
        NormalizeKind::Nfkd => nfkd_of(s),
    }
}

/// Relies on unicode_normalization's `UnicodeNormalization::nfc`
/// over the string's characters: the result is a function of the
/// characters alone (fixed Unicode tables).
#[verifier::external_body]
fn nfc_str(s: &String) -> (r: String)
    ensures
        r@ == nfc_of(s@),
{
    s.as_str().nfc().collect()
}

/// Relies on unicode_normalization's `UnicodeNormalization::nfd`
/// (see `nfc_str`).
#[verifier::external_body]
fn nfd_str(s: &String) -> (r: String)
    ensures
        r@ == nfd_of(s@),
{
    s.as_str().nfd().collect()
}

/// Relies on unicode_normalization's `UnicodeNormalization::nfkc`
/// (see `nfc_str`).
#[verifier::external_body]
fn nfkc_str(s: &String) -> (r: String)
    ensures
        r@ == nfkc_of(s@),
{
    s.as_str().nfkc().collect()
}

/// Relies on unicode_normalization's `UnicodeNormalization::nfkd`
/// (see `nfc_str`).
#[verifier::external_body]
fn nfkd_str(s: &String) -> (r: String)
    ensures
        r@ == nfkd_of(s@),
{
    s.as_str().nfkd().collect()
}

/// Whether `pattern` is a valid regular expression.  Named: the
/// regex grammar decides it, as a function of the pattern alone.
pub uninterp spec fn regex_valid(pattern: Seq<char>) -> bool;

/// The text with every match of `pattern` replaced by
/// `replacement` (capture-group references expanded).  Named: a
/// function of the three arguments alone.
pub uninterp spec fn regex_replaced(
    pattern: Seq<char>,
    replacement: Seq<char>,
    text: Seq<char>,
) -> Seq<char>;

/// Relies on regex's `Regex::new`: whether the pattern compiles,
/// a function of the pattern alone.
#[verifier::external_body]
fn regex_compiles(pattern: &String) -> (r: bool)
    ensures
        r == regex_valid(pattern@),
{
    regex::Regex::new(pattern.as_str()).is_ok()
}

/// Relies on regex's `Regex::new` and `Regex::replace_all`: on a
/// valid pattern, replaces every non-overlapping match with the
/// replacement, `$`-references expanded; the result is a function
/// of pattern, replacement and text alone.
#[verifier::external_body]
fn regex_replace_all(pattern: &String, replacement: &String, text: &String) -> (r: Option<String>)
    ensures
        match r {
            Some(out) => regex_valid(pattern@) && out@ == regex_replaced(
                pattern@,
                replacement@,
                text@,
            ),
            None => !regex_valid(pattern@),
        },
{
    match regex::Regex::new(pattern.as_str()) {
        Ok(re) => Some(re.replace_all(text.as_str(), replacement.as_str()).into_owned()),
        Err(_) => None,
    }
}

/// True when mapping pair `(from, to)` applies at position `i`:
/// the non-empty `from` occurs there.
pub open spec fn pair_matches_at(text: Seq<char>, from: Seq<char>, i: int) -> bool {
    &&& from.len() > 0
    &&& i + from.len() <= text.len()
    &&& text.subrange(i, i + from.len()) == from
}

/// The view of a mapping pair table.
pub open spec fn pairs_view(pairs: Seq<(Vec<char>, Vec<char>)>) -> Seq<(Seq<char>, Seq<char>)> {
    pairs.map_values(|p: (Vec<char>, Vec<char>)| (p.0@, p.1@))
}

/// The pair the mapping filter picks at position `i` among
/// `pairs[0..j]`: the longest match, the earliest pair winning
/// ties; `None` when nothing matches.
pub open spec fn spec_best_pair(
    pairs: Seq<(Seq<char>, Seq<char>)>,
    text: Seq<char>,
    i: int,
    j: int,
) -> Option<int>
    decreases j,
{
    if j <= 0 {
        None
    } else {
        let rest = spec_best_pair(pairs, text, i, j - 1);
        if pair_matches_at(text, pairs[j - 1].0, i) {
            match rest {
                None => Some(j - 1),
                Some(b) => if pairs[j - 1].0.len() > pairs[b].0.len() {
                    Some(j - 1)
                } else {
                    Some(b)
                },
            }
        } else {
            rest
        }
    }
}

/// What a picked pair means: it is a real pair and it matches at
/// the position.
pub proof fn lemma_best_pair_inv(
    pairs: Seq<(Seq<char>, Seq<char>)>,
    text: Seq<char>,
    i: int,
    j: int,
)
    ensures
        match spec_best_pair(pairs, text, i, j) {
            None => true,
            Some(b) => 0 <= b < j && pair_matches_at(text, pairs[b].0, i),
        },
    decreases j,
{
    if j > 0 {
        lemma_best_pair_inv(pairs, text, i, j - 1);
    }
}

/// How far the mapping filter advances at position `i`, and what
/// it emits: the picked pair's length and replacement, or one
/// copied character.
pub open spec fn spec_mapping_step(
    pairs: Seq<(Seq<char>, Seq<char>)>,
    text: Seq<char>,
    i: int,
) -> (int, Seq<char>) {
    match spec_best_pair(pairs, text, i, pairs.len() as int) {
        Some(b) => (pairs[b].0.len() as int, pairs[b].1),
        None => (1, seq![text[i]]),
    }
}

/// The consumed count of a step, floored at one and capped at the
/// remaining text, so the rewrite always advances and never leaves
/// the text.  A matching pair always consumes its own length: it is
/// at least one character and lies inside the text.
pub open spec fn spec_step_len(pairs: Seq<(Seq<char>, Seq<char>)>, text: Seq<char>, i: int) -> int {
    let c = spec_mapping_step(pairs, text, i).0;
    let rem = text.len() - i;
    if c < 1 {
        1
    } else if c > rem {
        if rem < 1 {
            1
        } else {
            rem
        }
    } else {
        c
    }
}

/// The output of the mapping filter from position `i` on.
pub open spec fn spec_mapping_out(
    pairs: Seq<(Seq<char>, Seq<char>)>,
    text: Seq<char>,
    i: int,
) -> Seq<char>
    decreases text.len() - i,
{
    if i < 0 || i >= text.len() {
        Seq::empty()
    } else {
        spec_mapping_step(pairs, text, i).1 + spec_mapping_out(
            pairs,
            text,
            i + spec_step_len(pairs, text, i),
        )
    }
}


/// The boundary entries of the mapping filter from position `i`
/// on: one boundary per emitted character; inside a replacement
/// they round down to the start of the consumed span and the last
/// one is its end; a deletion contributes no boundary, so the span
/// it consumed is attributed to the following boundary.
pub open spec fn spec_mapping_bnds(
    pairs: Seq<(Seq<char>, Seq<char>)>,
    text: Seq<char>,
    i: int,
) -> Seq<int>
    decreases text.len() - i,
{
    if i < 0 || i >= text.len() {
        Seq::empty()
    } else {
        let emitted = spec_mapping_step(pairs, text, i).1;
        let c = spec_step_len(pairs, text, i);
        let here = if emitted.len() == 0 {
            Seq::empty()
        } else {
            Seq::new((emitted.len() - 1) as nat, |t: int| i).push(i + c)
        };
        here + spec_mapping_bnds(pairs, text, i + c)
    }
}

/// The mapping boundaries pair off with the output characters, lie
/// between their position and the text's end, and never decrease.
pub proof fn lemma_mapping_bnds_wf(pairs: Seq<(Seq<char>, Seq<char>)>, text: Seq<char>, i: int)
    requires
        0 <= i <= text.len(),
    ensures
        spec_mapping_bnds(pairs, text, i).len() == spec_mapping_out(pairs, text, i).len(),
        forall|a: int|
            0 <= a < spec_mapping_bnds(pairs, text, i).len() ==> i <= #[trigger] spec_mapping_bnds(
                pairs,
                text,
                i,
            )[a] <= text.len(),
        forall|a: int, b: int|
            0 <= a <= b < spec_mapping_bnds(pairs, text, i).len() ==> #[trigger] spec_mapping_bnds(
                pairs,
                text,
                i,
            )[a] <= #[trigger] spec_mapping_bnds(pairs, text, i)[b],
    decreases text.len() - i,
{
    if i < text.len() {
        let c = spec_step_len(pairs, text, i);
        lemma_best_pair_inv(pairs, text, i, pairs.len() as int);
        assert(1 <= c && i + c <= text.len());
        lemma_mapping_bnds_wf(pairs, text, i + c);
        let emitted = spec_mapping_step(pairs, text, i).1;
        let here = if emitted.len() == 0 {
            Seq::<int>::empty()
        } else {
            Seq::new((emitted.len() - 1) as nat, |t: int| i).push(i + c)
        };
        let rest = spec_mapping_bnds(pairs, text, i + c);
        let whole = spec_mapping_bnds(pairs, text, i);
        assert(whole == here + rest);
        assert forall|a: int| 0 <= a < whole.len() implies i <= #[trigger] whole[a]
            <= text.len() by {
            if a < here.len() {
                assert(whole[a] == here[a]);
            } else {
                assert(whole[a] == rest[a - here.len()]);
            }
        }
        assert forall|a: int, b: int| 0 <= a <= b < whole.len() implies #[trigger] whole[a]
            <= #[trigger] whole[b] by {
            if a < here.len() {
                assert(whole[a] == here[a]);
            } else {
                assert(whole[a] == rest[a - here.len()]);
            }
            if b < here.len() {
                assert(whole[b] == here[b]);
            } else {
                assert(whole[b] == rest[b - here.len()]);
            }
        }
    }
}

/// A sequence of machine sizes, as mathematical values.
spec fn usizes(s: Seq<usize>) -> Seq<int> {
    s.map_values(|x: usize| x as int)
}

/// True when `c` is a hiragana or katakana character.
pub open spec fn spec_is_kana(c: char) -> bool {
    (0x3041 <= c as u32 <= 0x3096) || (0x30A1 <= c as u32 <= 0x30FA)
}

/// True when `c` is a kana iteration mark (plain or voiced).
pub open spec fn spec_is_kana_mark(c: char) -> bool {
    c == '\u{309D}' || c == '\u{309E}' || c == '\u{30FD}' || c == '\u{30FE}'
}

/// What one character becomes under iteration-mark expansion,
/// given the previous output character: a kanji iteration mark
/// repeats a preceding kanji, a kana iteration mark repeats a
/// preceding kana (voicing left as it stands); anything else is
/// kept.
pub open spec fn spec_iter_char(prev: Option<char>, c: char, kj: bool, kn: bool) -> char {
    match prev {
        Some(p) => if kj && c == '\u{3005}' && spec_is_kanji(p) {
            p
        } else if kn && spec_is_kana_mark(c) && spec_is_kana(p) {
            p
        } else {
            c
        },
        None => c,
    }
}

/// The first `n` characters of the iteration-mark expansion of
/// `text`: character-for-character, each decided by its
/// predecessor in the output.
pub open spec fn spec_iter_out_upto(text: Seq<char>, kj: bool, kn: bool, n: int) -> Seq<char>
    decreases n,
{
    if n <= 0 {
        Seq::empty()
    } else {
        let pre = spec_iter_out_upto(text, kj, kn, n - 1);
        let prev = if n >= 2 {
            Some(pre[n - 2])
        } else {
            None
        };
        pre.push(spec_iter_char(prev, text[n - 1], kj, kn))
    }
}

/// The iteration-mark expansion of `text`.
pub open spec fn spec_iter_out(text: Seq<char>, kj: bool, kn: bool) -> Seq<char> {
    spec_iter_out_upto(text, kj, kn, text.len() as int)
}


/// Picks the mapping pair applying at position `i`: the longest
/// match, the earliest pair winning ties.
#[verifier::loop_isolation(false)]
fn best_pair_at(pairs: &Vec<(Vec<char>, Vec<char>)>, text: &[char], i: usize) -> (r: Option<
    usize,
>)
    requires
        i < text@.len(),
    ensures
        match r {
            Some(b) => spec_best_pair(pairs_view(pairs@), text@, i as int, pairs@.len() as int)
                == Some(b as int) && (b as int) < pairs@.len(),
            None => spec_best_pair(pairs_view(pairs@), text@, i as int, pairs@.len() as int)
                is None,
        },
{
    let ghost pv = pairs_view(pairs@);
    let n = pairs.len();
    let mut r: Option<usize> = None;
    let mut j: usize = 0;
    while j < n
        invariant
            j <= n,
            match r {
                Some(b) => spec_best_pair(pv, text@, i as int, j as int) == Some(b as int) && (
                b as int) < pairs@.len(),
                None => spec_best_pair(pv, text@, i as int, j as int) is None,
            },
        decreases n - j,
    {
        proof {
            assert(pv[j as int] == (pairs@[j as int].0@, pairs@[j as int].1@));
        }
        let from = &pairs[j].0;
        if from.len() > 0 && chars_match_at(text, i, from.as_slice()) {
            let better = match r {
                None => true,
                Some(b) => {
                    proof {
                        assert(pv[b as int] == (pairs@[b as int].0@, pairs@[b as int].1@));
                    }
                    from.len() > pairs[b].0.len()
                },
            };
            if better {
                r = Some(j);
            }
        }
        j = j + 1;
    }
    r
}

/// Applies longest-match-first literal substitution, producing the
/// rewritten text and its offset map, whose boundaries are exactly
/// `spec_mapping_bnds` behind the leading zero.
#[verifier::loop_isolation(false)]
#[verifier::rlimit(60)]
fn mapping_apply(pairs: &Vec<(Vec<char>, Vec<char>)>, text: &[char]) -> (r: (Vec<char>, OffsetMap))
    ensures
        r.0@ == spec_mapping_out(pairs_view(pairs@), text@, 0),
        r.1.bnds() == seq![0int] + spec_mapping_bnds(pairs_view(pairs@), text@, 0),
        r.1.wf(r.0@.len() as int, text@.len() as int),
{
    let ghost pv = pairs_view(pairs@);
    let n = text.len();
    let mut out: Vec<char> = Vec::new();
    let mut bnds: Vec<usize> = Vec::new();
    bnds.push(0);
    proof {
        assert(usizes(bnds@) =~= seq![0int]);
    }
    let mut i: usize = 0;
    while i < n
        invariant
            i <= n,
            spec_mapping_out(pv, text@, 0) == out@ + spec_mapping_out(pv, text@, i as int),
            seq![0int] + spec_mapping_bnds(pv, text@, 0) == usizes(bnds@) + spec_mapping_bnds(
                pv,
                text@,
                i as int,
            ),
            bnds@.len() == out@.len() + 1,
        decreases n - i,
    {
        let ghost out_pre = out@;
        let ghost bnds_pre = usizes(bnds@);
        let step = best_pair_at(pairs, text, i);
        match step {
            Some(b) => {
                proof {
                    lemma_best_pair_inv(pv, text@, i as int, pv.len() as int);
                    assert(pv[b as int] == (pairs@[b as int].0@, pairs@[b as int].1@));
                    assert(pair_matches_at(text@, pv[b as int].0, i as int));
                }
                let from_len = pairs[b].0.len();
                let to = &pairs[b].1;
                let k = to.len();
                let ghost here: Seq<int> = if k == 0 {
                    Seq::empty()
                } else {
                    Seq::new((k - 1) as nat, |t: int| i as int).push(i + from_len)
                };
                let mut t: usize = 0;
                while t < k
                    invariant
                        t <= k,
                        k == pairs@[b as int].1@.len(),
                        from_len == pairs@[b as int].0@.len(),
                        i + from_len <= n,
                        from_len >= 1,
                        out@ == out_pre + pairs@[b as int].1@.take(t as int),
                        usizes(bnds@) == bnds_pre + here.take(t as int),
                        bnds@.len() == out@.len() + 1,
                    decreases k - t,
                {
                    out.push(to[t]);
                    let ghost bnds_head = bnds@;
                    if t + 1 < k {
                        bnds.push(i);
                        proof {
                            assert(here[t as int] == i as int);
                        }
                    } else {
                        bnds.push(i + from_len);
                        proof {
                            assert(here[t as int] == i + from_len);
                        }
                    }
                    proof {
                        assert(pairs@[b as int].1@.take(t + 1) =~= pairs@[b as int].1@.take(
                            t as int,
                        ).push(pairs@[b as int].1@[t as int]));
                        assert(out@ =~= out_pre + pairs@[b as int].1@.take(t + 1));
                        assert(here.take(t + 1) =~= here.take(t as int).push(here[t as int]));
                        assert(usizes(bnds@) =~= usizes(bnds_head).push(here[t as int]));
                        assert(usizes(bnds@) =~= bnds_pre + here.take(t + 1));
                    }
                    t = t + 1;
                }
                proof {
                    assert(pairs@[b as int].1@.take(k as int) =~= pairs@[b as int].1@);
                    assert(here.take(k as int) =~= here);
                    assert(spec_step_len(pv, text@, i as int) == from_len);
                    assert(spec_mapping_out(pv, text@, i as int) == pairs@[b as int].1@
                        + spec_mapping_out(pv, text@, i + from_len));
                    assert(spec_mapping_bnds(pv, text@, i as int) == here + spec_mapping_bnds(
                        pv,
                        text@,
                        i + from_len,
                    ));
                    assert(out@ + spec_mapping_out(pv, text@, i + from_len) =~= out_pre + (
                    pairs@[b as int].1@ + spec_mapping_out(pv, text@, i + from_len)));
                    assert(usizes(bnds@) + spec_mapping_bnds(pv, text@, i + from_len)
                        =~= bnds_pre + (here + spec_mapping_bnds(pv, text@, i + from_len)));
                }
                i = i + from_len;
            },
            None => {
                out.push(text[i]);
                bnds.push(i + 1);
                proof {
                    assert(spec_step_len(pv, text@, i as int) == 1);
                    assert(spec_mapping_out(pv, text@, i as int) == seq![text@[i as int]]
                        + spec_mapping_out(pv, text@, i + 1));
                    assert(spec_mapping_bnds(pv, text@, i as int) =~= seq![(i + 1) as int]
                        + spec_mapping_bnds(pv, text@, i + 1));
                    assert(out@ =~= out_pre.push(text@[i as int]));
                    assert(out@ + spec_mapping_out(pv, text@, i + 1) =~= out_pre + (seq![
                        text@[i as int],
                    ] + spec_mapping_out(pv, text@, i + 1)));
                    assert(usizes(bnds@) =~= bnds_pre.push((i + 1) as int));
                    assert(usizes(bnds@) + spec_mapping_bnds(pv, text@, i + 1) =~= bnds_pre + (
                    seq![(i + 1) as int] + spec_mapping_bnds(pv, text@, i + 1)));
                }
                i = i + 1;
            },
        }
    }
    proof {
        assert(spec_mapping_out(pv, text@, n as int) =~= Seq::<char>::empty());
        assert(out@ + spec_mapping_out(pv, text@, n as int) =~= out@);
        assert(spec_mapping_bnds(pv, text@, n as int) =~= Seq::<int>::empty());
        assert(usizes(bnds@) + spec_mapping_bnds(pv, text@, n as int) =~= usizes(bnds@));
    }
    let map = OffsetMap { boundaries: bnds };
    proof {
        lemma_mapping_bnds_wf(pv, text@, 0);
        let whole = seq![0int] + spec_mapping_bnds(pv, text@, 0);
        assert(map.bnds() =~= whole);
        assert forall|a: int, b2: int| 0 <= a <= b2 <= out@.len() implies
            #[trigger] map.boundaries@[a] <= #[trigger] map.boundaries@[b2] by {
            assert(map.bnds()[a] == map.boundaries@[a] as int);
            assert(map.bnds()[b2] == map.boundaries@[b2] as int);
            if a > 0 {
                assert(whole[a] == spec_mapping_bnds(pv, text@, 0)[a - 1]);
            }
            if b2 > 0 {
                assert(whole[b2] == spec_mapping_bnds(pv, text@, 0)[b2 - 1]);
            }
        }
        assert forall|a: int| 0 <= a <= out@.len() implies #[trigger] map.boundaries@[a]
            <= text@.len() by {
            assert(map.bnds()[a] == map.boundaries@[a] as int);
            if a > 0 {
                assert(whole[a] == spec_mapping_bnds(pv, text@, 0)[a - 1]);
            }
        }
    }
    (out, map)
}

/// Expands iteration marks character by character; the text keeps
/// its length, so the offset map is the identity.
#[verifier::loop_isolation(false)]
fn iteration_mark_apply(text: &[char], kj: bool, kn: bool) -> (out: Vec<char>)
    ensures
        out@ == spec_iter_out(text@, kj, kn),
        out@.len() == text@.len(),
{
    let n = text.len();
    let mut out: Vec<char> = Vec::new();
    let mut i: usize = 0;
    while i < n
        invariant
            i <= n,
            out@.len() == i,
            out@ == spec_iter_out_upto(text@, kj, kn, i as int),
        decreases n - i,
    {
        let c = text[i];
        let repl: char = if i >= 1 {
            let p = out[i - 1];
            let u = c as u32;
            if kj && u == 0x3005 && crate::mode::is_kanji(p) {
                p
            } else if kn && (u == 0x309D || u == 0x309E || u == 0x30FD || u == 0x30FE) && (
            (0x3041 <= p as u32 && p as u32 <= 0x3096) || (0x30A1 <= p as u32 && p as u32
                <= 0x30FA)) {
                p
            } else {
                c
            }
        } else {
            c
        };
        proof {
            let prev = if i >= 1 {
                Some(out@[i - 1])
            } else {
                None
            };
            assert(repl == spec_iter_char(prev, text@[i as int], kj, kn));
        }
        out.push(repl);
        i = i + 1;
    }
    out
}

/// The length of the longest common prefix of `a` and `b` at or
/// after position `i`.
pub open spec fn spec_common_prefix(a: Seq<char>, b: Seq<char>, i: int) -> int
    decreases a.len() - i,
{
    if i < 0 || i >= a.len() || i >= b.len() || a[i] != b[i] {
        i
    } else {
        spec_common_prefix(a, b, i + 1)
    }
}

/// The length of the longest common suffix of `a` and `b` that
/// does not reach into their common prefix of length `p`.
pub open spec fn spec_common_suffix(a: Seq<char>, b: Seq<char>, p: int, s: int) -> int
    decreases a.len() - p - s,
{
    if s < 0 || s >= a.len() - p || s >= b.len() - p || a[a.len() - 1 - s] != b[b.len() - 1 - s] {
        s
    } else {
        spec_common_suffix(a, b, p, s + 1)
    }
}

/// The aligned source boundary of rewritten boundary `j`: identity
/// over the common prefix, shifted identity over the common
/// suffix, the start of the changed middle in between; the final
/// boundary is always the source length.
pub open spec fn spec_align_at(olen: int, flen: int, p: int, s: int, j: int) -> int {
    if j == flen {
        olen
    } else if j <= p {
        j
    } else if j >= flen - s {
        j + olen - flen
    } else {
        p
    }
}

/// The whole aligned boundary table of a rewrite of `a` into `b`.
pub open spec fn spec_align_bnds(a: Seq<char>, b: Seq<char>) -> Seq<int> {
    let p = spec_common_prefix(a, b, 0);
    let s = spec_common_suffix(a, b, p, 0);
    Seq::new(b.len() + 1, |j: int| spec_align_at(a.len() as int, b.len() as int, p, s, j))
}

/// Builds an offset map for a rewrite whose inner behavior is not
/// tracked: boundaries in the common prefix map to themselves,
/// boundaries in the common suffix map with the length shift, and
/// boundaries in the changed middle round down to its start.
#[verifier::loop_isolation(false)]
fn align_map(orig: &[char], out: &[char]) -> (r: OffsetMap)
    ensures
        r.wf(out@.len() as int, orig@.len() as int),
        r.spec_at(out@.len() as int) == orig@.len(),
        r.bnds() == spec_align_bnds(orig@, out@),
{
    let olen = orig.len();
    let flen = out.len();
    let mut p: usize = 0;
    while p < olen && p < flen && orig[p] == out[p]
        invariant
            p <= olen,
            p <= flen,
            spec_common_prefix(orig@, out@, 0) == spec_common_prefix(orig@, out@, p as int),
        decreases olen - p,
    {
        p = p + 1;
    }
    proof {
        assert(spec_common_prefix(orig@, out@, p as int) == p as int);
    }
    let mut s: usize = 0;
    while s < olen - p && s < flen - p && orig[olen - 1 - s] == out[flen - 1 - s]
        invariant
            s <= olen - p,
            s <= flen - p,
            spec_common_suffix(orig@, out@, p as int, 0) == spec_common_suffix(
                orig@,
                out@,
                p as int,
                s as int,
            ),
        decreases olen - p - s,
    {
        s = s + 1;
    }
    proof {
        assert(spec_common_suffix(orig@, out@, p as int, s as int) == s as int);
    }
    let mut boundaries: Vec<usize> = Vec::new();
    let mut j: usize = 0;
    while j < flen
        invariant
            p + s <= flen,
            p + s <= olen,
            j <= flen,
            boundaries@.len() == j,
            forall|a: int|
                0 <= a < j ==> #[trigger] boundaries@[a] as int == spec_align_at(
                    olen as int,
                    flen as int,
                    p as int,
                    s as int,
                    a,
                ),
            forall|a: int| 0 <= a < j ==> #[trigger] boundaries@[a] <= olen,
        decreases flen - j,
    {
        let v: usize = if j <= p {
            j
        } else if j >= flen - s {
            olen - s + (j - (flen - s))
        } else {
            p
        };
        boundaries.push(v);
        j = j + 1;
    }
    boundaries.push(olen);
    proof {
        assert(boundaries@[flen as int] as int == olen);
    }
    let r = OffsetMap { boundaries };
    proof {
        assert forall|a: int, b: int| 0 <= a <= b <= flen implies #[trigger] r.boundaries@[a]
            <= #[trigger] r.boundaries@[b] by {
            if b == flen {
                assert(r.boundaries@[b] as int == olen);
            } else if a <= p && b > p && b < flen - s {
                assert(r.boundaries@[b] as int == p as int);
            }
        }
        assert(r.spec_at(flen as int) == olen);
        assert(r.bnds() =~= spec_align_bnds(orig@, out@));
    }
    r
}

/// One character filter stage.
#[derive(Clone, Debug)]
pub enum CharacterFilter {
    UnicodeNormalize(NormalizeKind),
    Mapping { pairs: Vec<(Vec<char>, Vec<char>)> },
    RegexReplace { pattern: String, replacement: String },
    JapaneseIterationMark { normalize_kanji: bool, normalize_kana: bool },
}

impl CharacterFilter {
    /// Validity: mapping sources are non-empty and a regex pattern
    /// compiles; settled when the filter is configured, so that
    /// applying it cannot fail.
    pub open spec fn wf(self) -> bool {
        match self {
            CharacterFilter::Mapping { pairs } => forall|k: int|
                0 <= k < pairs@.len() ==> (#[trigger] pairs@[k]).0@.len() > 0,
            CharacterFilter::RegexReplace { pattern, replacement } => regex_valid(pattern@),
            _ => true,
        }
    }

    /// What a filter's output is, as a function of its input.
    pub open spec fn spec_output(self, text: Seq<char>) -> Seq<char> {
        match self {
            CharacterFilter::UnicodeNormalize(kind) => normalized_of(kind, text),
            CharacterFilter::Mapping { pairs } => spec_mapping_out(pairs_view(pairs@), text, 0),
            CharacterFilter::RegexReplace { pattern, replacement } => regex_replaced(
                pattern@,
                replacement@,
                text,
            ),
            CharacterFilter::JapaneseIterationMark { normalize_kanji, normalize_kana } =>
                spec_iter_out(text, normalize_kanji, normalize_kana),
        }
    }

    /// The offset map a filter produces, boundary for boundary, as
    /// a function of the filter and its input text.
    pub open spec fn spec_map(self, text: Seq<char>) -> Seq<int> {
        match self {
            CharacterFilter::UnicodeNormalize(kind) => spec_align_bnds(
                text,
                normalized_of(kind, text),
            ),
            CharacterFilter::Mapping { pairs } => seq![0int] + spec_mapping_bnds(
                pairs_view(pairs@),
                text,
                0,
            ),
            CharacterFilter::RegexReplace { pattern, replacement } => spec_align_bnds(
                text,
                regex_replaced(pattern@, replacement@, text),
            ),
            CharacterFilter::JapaneseIterationMark { .. } => Seq::new(
                text.len() + 1,
                |j: int| j,
            ),
        }
    }

    /// Rewrites `text`, returning the new text and the offset map
    /// from its boundaries back to `text`'s.  Succeeds on every
    /// well-formed filter; an invalid regex pattern (never produced
    /// by configuration parsing) is reported as a configuration
    /// error.
    pub fn apply(&self, text: &Vec<char>) -> (r: Result<(Vec<char>, OffsetMap), LinderaError>)
        requires
            text@.len() < usize::MAX,
        ensures
            match r {
                Ok(p) => {
                    &&& p.0@ == self.spec_output(text@)
                    &&& p.1.bnds() == self.spec_map(text@)
                    &&& p.1.wf(p.0@.len() as int, text@.len() as int)
                },
                Err(e) => {
                    &&& e.kind == LinderaErrorKind::Config
                    &&& !self.wf()
                },
            },
    {
        match self {
            CharacterFilter::UnicodeNormalize(kind) => {
                let s = chars_to_string(text.as_slice());
                let normalized = match kind {
                    NormalizeKind::Nfc => nfc_str(&s),
                    NormalizeKind::Nfd => nfd_str(&s),
                    NormalizeKind::Nfkc => nfkc_str(&s),
                    NormalizeKind::Nfkd => nfkd_str(&s),
                };
                let out = to_chars(normalized.as_str());
                let map = align_map(text.as_slice(), out.as_slice());
                Ok((out, map))
            },
            CharacterFilter::Mapping { pairs } => {
                let (out, map) = mapping_apply(pairs, text.as_slice());
                Ok((out, map))
            },
            CharacterFilter::RegexReplace { pattern, replacement } => {
                let s = chars_to_string(text.as_slice());
                match regex_replace_all(pattern, replacement, &s) {
                    Some(replaced) => {
                        let out = to_chars(replaced.as_str());
                        let map = align_map(text.as_slice(), out.as_slice());
                        Ok((out, map))
                    },
                    None => Err(
                        LinderaError::new(
                            LinderaErrorKind::Config,
                            String::from_str("invalid regular expression pattern"),
                        ),
                    ),
                }
            },
            CharacterFilter::JapaneseIterationMark { normalize_kanji, normalize_kana } => {
                let out = iteration_mark_apply(text.as_slice(), *normalize_kanji, *normalize_kana);
                let map = OffsetMap::identity(text.len());
                Ok((out, map))
            },
        }
    }
}

impl CharacterFilter {
    /// Serializes this filter back to its configuration: the stage
    /// name and an argument set that describes exactly this filter
    /// (`char_filter_matches_config` holds of the result), so that
    /// parsing it again yields an equivalent stage.
    #[verifier::loop_isolation(false)]
    pub fn to_config(&self) -> (r: (String, ConfigValue))
        ensures
            char_filter_matches_config(*self, r.0@, r.1),
    {
        match self {
            CharacterFilter::UnicodeNormalize(kind) => {
                let name = match kind {
                    NormalizeKind::Nfc => String::from_str("nfc"),
                    NormalizeKind::Nfd => String::from_str("nfd"),
                    NormalizeKind::Nfkc => String::from_str("nfkc"),
                    NormalizeKind::Nfkd => String::from_str("nfkd"),
                };
                let mut entries: Vec<(String, ConfigValue)> = Vec::new();
                entries.push((String::from_str("kind"), ConfigValue::Str(name)));
                let args = ConfigValue::Obj(entries);
                proof {
                    assert(args.spec_get("kind"@) matches Some(ConfigValue::Str(s)) && s@
                        == spec_normalize_name(*kind));
                }
                (String::from_str("unicode_normalize"), args)
            },
            CharacterFilter::Mapping { pairs } => {
                let n = pairs.len();
                let mut entries: Vec<(String, ConfigValue)> = Vec::new();
                let mut k: usize = 0;
                while k < n
                    invariant
                        k <= n,
                        entries@.len() == k,
                        forall|j: int|
                            0 <= j < k ==> {
                                &&& (#[trigger] entries@[j]).0@ == pairs@[j].0@
                                &&& entries@[j].1 matches ConfigValue::Str(t) && t@
                                    == pairs@[j].1@
                            },
                    decreases n - k,
                {
                    let from = chars_to_string(pairs[k].0.as_slice());
                    let to = chars_to_string(pairs[k].1.as_slice());
                    entries.push((from, ConfigValue::Str(to)));
                    k = k + 1;
                }
                let mut outer: Vec<(String, ConfigValue)> = Vec::new();
                outer.push((String::from_str("mapping"), ConfigValue::Obj(entries)));
                let args = ConfigValue::Obj(outer);
                (String::from_str("mapping"), args)
            },
            CharacterFilter::RegexReplace { pattern, replacement } => {
                let mut entries: Vec<(String, ConfigValue)> = Vec::new();
                entries.push((String::from_str("pattern"), ConfigValue::Str(pattern.clone())));
                entries.push(
                    (String::from_str("replacement"), ConfigValue::Str(replacement.clone())),
                );
                let args = ConfigValue::Obj(entries);
                proof {
                    reveal_with_fuel(ConfigValue::spec_find_from, 3);
                    reveal_strlit("pattern");
                    reveal_strlit("replacement");
                    assert("pattern"@.len() == 7);
                    assert("replacement"@.len() == 11);
                    assert(args.spec_get("pattern"@) matches Some(ConfigValue::Str(s)) && s@
                        == pattern@);
                    assert(args.spec_get("replacement"@) matches Some(ConfigValue::Str(s)) && s@
                        == replacement@);
                }
                (String::from_str("regex"), args)
            },
            CharacterFilter::JapaneseIterationMark { normalize_kanji, normalize_kana } => {
                let mut entries: Vec<(String, ConfigValue)> = Vec::new();
                entries.push(
                    (String::from_str("normalize_kanji"), ConfigValue::Bool(*normalize_kanji)),
                );
                entries.push(
                    (String::from_str("normalize_kana"), ConfigValue::Bool(*normalize_kana)),
                );
                let args = ConfigValue::Obj(entries);
                proof {
                    reveal_with_fuel(ConfigValue::spec_find_from, 3);
                    reveal_strlit("normalize_kanji");
                    reveal_strlit("normalize_kana");
                    assert("normalize_kanji"@.len() == 15);
                    assert("normalize_kana"@.len() == 14);
                    assert(args.spec_get("normalize_kanji"@) matches Some(ConfigValue::Bool(b))
                        && b == *normalize_kanji);
                    assert(args.spec_get("normalize_kana"@) matches Some(ConfigValue::Bool(b))
                        && b == *normalize_kana);
                }
                (String::from_str("japanese_iteration_mark"), args)
            },
        }
    }
}

/// The configuration name of a normalization form.
pub open spec fn spec_normalize_name(k: NormalizeKind) -> Seq<char> {
    match k {
        NormalizeKind::Nfc => "nfc"@,
        NormalizeKind::Nfd => "nfd"@,
        NormalizeKind::Nfkc => "nfkc"@,
        NormalizeKind::Nfkd => "nfkd"@,
    }
}

/// The relation between a character filter and a configuration
/// `(kind, args)`: the filter is exactly what that configuration
/// describes.  Parsing and serializing both speak of this one
/// relation, which is functional in the configuration (see
/// `lemma_char_filter_config_functional`).
pub open spec fn char_filter_matches_config(
    f: CharacterFilter,
    kind: Seq<char>,
    args: ConfigValue,
) -> bool {
    match f {
        CharacterFilter::UnicodeNormalize(nk) => {
            &&& kind == "unicode_normalize"@
            &&& match args.spec_get("kind"@) {
                Some(ConfigValue::Str(s)) => s@ == spec_normalize_name(nk),
                _ => false,
            }
        },
        CharacterFilter::Mapping { pairs } => {
            &&& kind == "mapping"@
            &&& match args.spec_get("mapping"@) {
                Some(ConfigValue::Obj(entries)) => {
                    &&& entries@.len() == pairs@.len()
                    &&& forall|k: int|
                        0 <= k < entries@.len() ==> {
                            &&& (#[trigger] entries@[k]).0@ == pairs@[k].0@
                            &&& entries@[k].1 matches ConfigValue::Str(t) && t@ == pairs@[k].1@
                        }
                },
                _ => false,
            }
        },
        CharacterFilter::RegexReplace { pattern, replacement } => {
            &&& kind == "regex"@
            &&& match args.spec_get("pattern"@) {
                Some(ConfigValue::Str(s)) => s@ == pattern@,
                _ => false,
            }
            &&& match args.spec_get("replacement"@) {
                Some(ConfigValue::Str(s)) => s@ == replacement@,
                _ => false,
            }
        },
        CharacterFilter::JapaneseIterationMark { normalize_kanji, normalize_kana } => {
            &&& kind == "japanese_iteration_mark"@
            &&& match args.spec_get("normalize_kanji"@) {
                Some(ConfigValue::Bool(b)) => b == normalize_kanji,
                None => normalize_kanji == true,
                _ => false,
            }
            &&& match args.spec_get("normalize_kana"@) {
                Some(ConfigValue::Bool(b)) => b == normalize_kana,
                None => normalize_kana == true,
                _ => false,
            }
        },
    }
}

/// Two character filters with the same effective configuration:
/// the same stage, with the same effective arguments.
pub open spec fn char_filter_equiv(f1: CharacterFilter, f2: CharacterFilter) -> bool {
    match (f1, f2) {
        (CharacterFilter::UnicodeNormalize(k1), CharacterFilter::UnicodeNormalize(k2)) => k1 == k2,
        (
            CharacterFilter::Mapping { pairs: p1 },
            CharacterFilter::Mapping { pairs: p2 },
        ) => pairs_view(p1@) == pairs_view(p2@),
        (
            CharacterFilter::RegexReplace { pattern: pa1, replacement: r1 },
            CharacterFilter::RegexReplace { pattern: pa2, replacement: r2 },
        ) => pa1@ == pa2@ && r1@ == r2@,
        (
            CharacterFilter::JapaneseIterationMark { normalize_kanji: kj1, normalize_kana: kn1 },
            CharacterFilter::JapaneseIterationMark { normalize_kanji: kj2, normalize_kana: kn2 },
        ) => kj1 == kj2 && kn1 == kn2,
        _ => false,
    }
}

/// The stage names are pairwise distinct, and so are the
/// normalization form names.
proof fn lemma_char_filter_names_distinct()
    ensures
        "unicode_normalize"@ != "mapping"@,
        "unicode_normalize"@ != "regex"@,
        "unicode_normalize"@ != "japanese_iteration_mark"@,
        "mapping"@ != "regex"@,
        "mapping"@ != "japanese_iteration_mark"@,
        "regex"@ != "japanese_iteration_mark"@,
        "nfc"@ != "nfd"@,
        "nfc"@ != "nfkc"@,
        "nfc"@ != "nfkd"@,
        "nfd"@ != "nfkc"@,
        "nfd"@ != "nfkd"@,
        "nfkc"@ != "nfkd"@,
{
    reveal_strlit("unicode_normalize");
    reveal_strlit("mapping");
    reveal_strlit("regex");
    reveal_strlit("japanese_iteration_mark");
    reveal_strlit("nfc");
    reveal_strlit("nfd");
    reveal_strlit("nfkc");
    reveal_strlit("nfkd");
    assert("unicode_normalize"@.len() == 17);
    assert("mapping"@.len() == 7);
    assert("regex"@.len() == 5);
    assert("japanese_iteration_mark"@.len() == 23);
    assert("nfc"@.len() == 3);
    assert("nfd"@.len() == 3);
    assert("nfkc"@.len() == 4);
    assert("nfkd"@.len() == 4);
    assert("nfc"@[2] == 'c' && "nfd"@[2] == 'd');
    assert("nfkc"@[3] == 'c' && "nfkd"@[3] == 'd');
}

/// The configuration relation is functional: one configuration
/// describes at most one stage, up to equivalent argument views.
/// Together with the contracts of `CharacterFilter::to_config` and
/// `parse_character_filter`, this is the configuration round trip:
/// re-serializing a parsed stage and parsing it again yields an
/// equivalent stage — nothing is dropped or reordered.
pub proof fn lemma_char_filter_config_functional(
    f1: CharacterFilter,
    f2: CharacterFilter,
    kind: Seq<char>,
    args: ConfigValue,
)
    requires
        char_filter_matches_config(f1, kind, args),
        char_filter_matches_config(f2, kind, args),
    ensures
        char_filter_equiv(f1, f2),
{
    lemma_char_filter_names_distinct();
    match (f1, f2) {
        (CharacterFilter::UnicodeNormalize(k1), CharacterFilter::UnicodeNormalize(k2)) => {
            if k1 != k2 {
                assert(spec_normalize_name(k1) == spec_normalize_name(k2));
                assert(false);
            }
        },
        (CharacterFilter::Mapping { pairs: p1 }, CharacterFilter::Mapping { pairs: p2 }) => {
            match args.spec_get("mapping"@) {
                Some(ConfigValue::Obj(entries)) => {
                    assert forall|k: int| 0 <= k < p1@.len() implies pairs_view(p1@)[k]
                        == pairs_view(p2@)[k] by {
                        assert(entries@[k].0@ == p1@[k].0@);
                        assert(entries@[k].0@ == p2@[k].0@);
                    }
                    assert(pairs_view(p1@) =~= pairs_view(p2@));
                },
                _ => {},
            }
        },
        _ => {},
    }
}

/// Reads a character filter from its configuration: the stage
/// name and its argument set.  An unknown name, a missing or
/// ill-typed argument, an empty mapping source or an invalid regex
/// pattern are configuration errors, raised here and never at
/// apply time.  The result is `Ok` exactly when some well-formed
/// filter matches the configuration, and then holds such a filter.
#[verifier::loop_isolation(false)]
pub fn parse_character_filter(kind: &str, args: &ConfigValue) -> (r: Result<
    CharacterFilter,
    LinderaError,
>)
    ensures
        match r {
            Ok(f) => f.wf() && char_filter_matches_config(f, kind@, *args),
            Err(e) => e.kind == LinderaErrorKind::Config && !(exists|f: CharacterFilter|
                char_filter_matches_config(f, kind@, *args) && f.wf()),
        },
{
    proof {
        lemma_char_filter_names_distinct();
    }
    if str_eq(kind, "unicode_normalize") {
        let nk: Option<NormalizeKind> = match args.get("kind") {
            Some(v) => match v.as_str() {
                Some(s) => {
                    if str_eq(s.as_str(), "nfc") {
                        Some(NormalizeKind::Nfc)
                    } else if str_eq(s.as_str(), "nfd") {
                        Some(NormalizeKind::Nfd)
                    } else if str_eq(s.as_str(), "nfkc") {
                        Some(NormalizeKind::Nfkc)
                    } else if str_eq(s.as_str(), "nfkd") {
                        Some(NormalizeKind::Nfkd)
                    } else {
                        None
                    }
                },
                None => None,
            },
            None => None,
        };
        match nk {
            Some(k) => Ok(CharacterFilter::UnicodeNormalize(k)),
            None => {
                proof {
                    assert(!(exists|f: CharacterFilter|
                        char_filter_matches_config(f, kind@, *args) && f.wf())) by {
                        if exists|f: CharacterFilter|
                            char_filter_matches_config(f, kind@, *args) && f.wf() {
                            let f0 = choose|f: CharacterFilter|
                                char_filter_matches_config(f, kind@, *args) && f.wf();
                            match f0 {
                                CharacterFilter::UnicodeNormalize(nk0) => {
                                    match nk0 {
                                        NormalizeKind::Nfc => {},
                                        NormalizeKind::Nfd => {},
                                        NormalizeKind::Nfkc => {},
                                        NormalizeKind::Nfkd => {},
                                    }
                                },
                                _ => {},
                            }
                        }
                    }
                }
                Err(
                    LinderaError::new(
                        LinderaErrorKind::Config,
                        String::from_str(
                            "unicode_normalize expects a 'kind' of nfc, nfd, nfkc or nfkd",
                        ),
                    ),
                )
            },
        }
    } else if str_eq(kind, "mapping") {
        let table = match args.get("mapping") {
            Some(v) => v.as_obj(),
            None => None,
        };
        match table {
            Some(entries) => {
                let n = entries.len();
                let mut pairs: Vec<(Vec<char>, Vec<char>)> = Vec::new();
                let mut k: usize = 0;
                let mut bad = false;
                while k < n && !bad
                    invariant
                        k <= n,
                        !bad ==> {
                            &&& pairs@.len() == k
                            &&& forall|j: int|
                                0 <= j < k ==> {
                                    &&& (#[trigger] pairs@[j]).0@ == entries@[j].0@
                                    &&& entries@[j].1 matches ConfigValue::Str(t) && t@
                                        == pairs@[j].1@
                                    &&& pairs@[j].0@.len() > 0
                                }
                        },
                        bad ==> exists|j: int|
                            0 <= j < n && !((#[trigger] entries@[j]).0@.len() > 0
                                && entries@[j].1 matches ConfigValue::Str(_)),
                    decreases n - k,
                {
                    let key = &entries[k].0;
                    let val = entries[k].1.as_str();
                    match val {
                        Some(t) => {
                            let from = to_chars(key.as_str());
                            if from.len() == 0 {
                                bad = true;
                            } else {
                                let to = to_chars(t.as_str());
                                pairs.push((from, to));
                            }
                        },
                        None => {
                            bad = true;
                        },
                    }
                    k = k + 1;
                }
                if bad {
                    proof {
                        assert(!(exists|f: CharacterFilter|
                            char_filter_matches_config(f, kind@, *args) && f.wf())) by {
                            if exists|f: CharacterFilter|
                                char_filter_matches_config(f, kind@, *args) && f.wf() {
                                let f0 = choose|f: CharacterFilter|
                                    char_filter_matches_config(f, kind@, *args) && f.wf();
                                match f0 {
                                    CharacterFilter::Mapping { pairs: p0 } => {
                                        let j0 = choose|j: int|
                                            0 <= j < n && !((#[trigger] entries@[j]).0@.len() > 0
                                                && entries@[j].1 matches ConfigValue::Str(_));
                                        assert(p0@[j0].0@ == entries@[j0].0@);
                                    },
                                    _ => {},
                                }
                            }
                        }
                    }
                    Err(
                        LinderaError::new(
                            LinderaErrorKind::Config,
                            String::from_str(
                                "mapping expects non-empty string keys and string values",
                            ),
                        ),
                    )
                } else {
                    Ok(CharacterFilter::Mapping { pairs })
                }
            },
            None => {
                proof {
                    assert(!(exists|f: CharacterFilter|
                        char_filter_matches_config(f, kind@, *args) && f.wf())) by {
                        if exists|f: CharacterFilter|
                            char_filter_matches_config(f, kind@, *args) && f.wf() {
                            let f0 = choose|f: CharacterFilter|
                                char_filter_matches_config(f, kind@, *args) && f.wf();
                            match f0 {
                                CharacterFilter::Mapping { pairs: p0 } => {},
                                _ => {},
                            }
                        }
                    }
                }
                Err(
                    LinderaError::new(
                        LinderaErrorKind::Config,
                        String::from_str("mapping expects a 'mapping' table"),
                    ),
                )
            },
        }
    } else if str_eq(kind, "regex") {
        let pat = match args.get("pattern") {
            Some(v) => match v.as_str() {
                Some(s) => Some(s),
                None => None,
            },
            None => None,
        };
        let rep = match args.get("replacement") {
            Some(v) => match v.as_str() {
                Some(s) => Some(s),
                None => None,
            },
            None => None,
        };
        match (pat, rep) {
            (Some(p), Some(t)) => {
                if regex_compiles(p) {
                    Ok(
                        CharacterFilter::RegexReplace {
                            pattern: p.clone(),
                            replacement: t.clone(),
                        },
                    )
                } else {
                    proof {
                        assert(!(exists|f: CharacterFilter|
                            char_filter_matches_config(f, kind@, *args) && f.wf())) by {
                            if exists|f: CharacterFilter|
                                char_filter_matches_config(f, kind@, *args) && f.wf() {
                                let f0 = choose|f: CharacterFilter|
                                    char_filter_matches_config(f, kind@, *args) && f.wf();
                                match f0 {
                                    CharacterFilter::RegexReplace { pattern: p0, replacement: r0 } => {
                                        assert(p0@ == p@);
                                    },
                                    _ => {},
                                }
                            }
                        }
                    }
                    Err(
                        LinderaError::new(
                            LinderaErrorKind::Config,
                            String::from_str("regex expects a valid 'pattern'"),
                        ),
                    )
                }
            },
            _ => {
                proof {
                    assert(!(exists|f: CharacterFilter|
                        char_filter_matches_config(f, kind@, *args) && f.wf())) by {
                        if exists|f: CharacterFilter|
                            char_filter_matches_config(f, kind@, *args) && f.wf() {
                            let f0 = choose|f: CharacterFilter|
                                char_filter_matches_config(f, kind@, *args) && f.wf();
                            match f0 {
                                CharacterFilter::RegexReplace { pattern: p0, replacement: r0 } => {},
                                _ => {},
                            }
                        }
                    }
                }
                Err(
                    LinderaError::new(
                        LinderaErrorKind::Config,
                        String::from_str("regex expects string 'pattern' and 'replacement'"),
                    ),
                )
            },
        }
    } else if str_eq(kind, "japanese_iteration_mark") {
        let kj: Option<bool> = match args.get("normalize_kanji") {
            Some(v) => v.as_bool(),
            None => Some(true),
        };
        let kn: Option<bool> = match args.get("normalize_kana") {
            Some(v) => v.as_bool(),
            None => Some(true),
        };
        match (kj, kn) {
            (Some(a), Some(b)) => Ok(
                CharacterFilter::JapaneseIterationMark {
                    normalize_kanji: a,
                    normalize_kana: b,
                },
            ),
            _ => {
                proof {
                    assert(!(exists|f: CharacterFilter|
                        char_filter_matches_config(f, kind@, *args) && f.wf())) by {
                        if exists|f: CharacterFilter|
                            char_filter_matches_config(f, kind@, *args) && f.wf() {
                            let f0 = choose|f: CharacterFilter|
                                char_filter_matches_config(f, kind@, *args) && f.wf();
                            match f0 {
                                CharacterFilter::JapaneseIterationMark {
                                    normalize_kanji: a0,
                                    normalize_kana: b0,
                                } => {},
                                _ => {},
                            }
                        }
                    }
                }
                Err(
                    LinderaError::new(
                        LinderaErrorKind::Config,
                        String::from_str(
                            "japanese_iteration_mark expects boolean 'normalize_kanji' and 'normalize_kana'",
                        ),
                    ),
                )
            },
        }
    } else {
        proof {
            assert(!(exists|f: CharacterFilter|
                char_filter_matches_config(f, kind@, *args) && f.wf())) by {
                if exists|f: CharacterFilter|
                    char_filter_matches_config(f, kind@, *args) && f.wf() {
                    let f0 = choose|f: CharacterFilter|
                        char_filter_matches_config(f, kind@, *args) && f.wf();
                    match f0 {
                        CharacterFilter::UnicodeNormalize(_) => {},
                        CharacterFilter::Mapping { pairs: _ } => {},
                        CharacterFilter::RegexReplace { pattern: _, replacement: _ } => {},
                        CharacterFilter::JapaneseIterationMark {
                            normalize_kanji: _,
                            normalize_kana: _,
                        } => {},
                    }
                }
            }
        }
        Err(
            LinderaError::new(
                LinderaErrorKind::Config,
                String::from_str("unknown character filter kind"),
            ),
        )
    }
}

} // verus!
