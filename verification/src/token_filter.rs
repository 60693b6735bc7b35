//! Token filters: token-sequence transformations run after
//! segmentation.
//!
//! Filters either rewrite each token's surface text (case folding,
//! base-form and reading-form substitution), drop tokens (length,
//! stop/keep word and tag sets), or merge runs of tokens
//! (compounding).  Rewrites never touch offsets: a rewritten token
//! still refers to its original span.  Filters that drop or merge
//! renumber the remaining positions contiguously from zero.

use vstd::prelude::*;

verus! {

use crate::config::ConfigValue;
use crate::error::{LinderaError, LinderaErrorKind};
use crate::text::str_eq;
use crate::token::{Token, TokenView, tokens_view};

/// The lowercase folding of `s`.  Named, not defined: the Unicode
/// tables define it, and the result depends on the characters
/// alone.
pub uninterp spec fn lower_of(s: Seq<char>) -> Seq<char>;

/// The uppercase folding of `s` (see `lower_of`).
pub uninterp spec fn upper_of(s: Seq<char>) -> Seq<char>;

/// Relies on `str::to_lowercase`: the lowercase folding of the
/// string, a function of its characters alone.
#[verifier::external_body]
fn to_lowercase(s: &String) -> (r: String)
    ensures
        r@ == lower_of(s@),
        s@.len() == 0 ==> r@.len() == 0,
{
    s.as_str().to_lowercase()
}

/// Relies on `str::to_uppercase`: the uppercase folding of the
/// string, a function of its characters alone.
#[verifier::external_body]
fn to_uppercase(s: &String) -> (r: String)
    ensures
        r@ == upper_of(s@),
        s@.len() == 0 ==> r@.len() == 0,
{
    s.as_str().to_uppercase()
}

/// One token filter stage.
#[derive(Clone, Debug)]
pub enum TokenFilter {
    Lowercase,
    Uppercase,
    Length { min: usize, max: usize },
    StopWords { words: Vec<String> },
    KeepWords { words: Vec<String> },
    StopTags { tags: Vec<String> },
    KeepTags { tags: Vec<String> },
    BaseForm { field: usize },
    ReadingForm { field: usize },
    CompoundWord { tags: Vec<String>, new_tag: Option<String> },
}

/// True when `text` is one of `words`.
pub open spec fn word_in(words: Seq<Seq<char>>, text: Seq<char>) -> bool {
    exists|j: int| 0 <= j < words.len() && words[j] == text
}

/// The part-of-speech tag of a token: its first detail field, or
/// nothing.
pub open spec fn spec_tag_of(t: TokenView) -> Option<Seq<char>> {
    if t.details.len() > 0 {
        Some(t.details[0])
    } else {
        None
    }
}

/// True when the token's tag begins with one of `tags`.
pub open spec fn tag_matches(tags: Seq<Seq<char>>, t: TokenView) -> bool {
    match spec_tag_of(t) {
        Some(tag) => exists|j: int| 0 <= j < tags.len() && (#[trigger] tags[j]).is_prefix_of(tag),
        None => false,
    }
}

/// The views of a string table.
pub open spec fn words_view(words: Seq<String>) -> Seq<Seq<char>> {
    words.map_values(|w: String| w@)
}

/// Whether a dropping filter keeps a token.
pub open spec fn spec_keeps(f: TokenFilter, t: TokenView) -> bool {
    match f {
        TokenFilter::Length { min, max } => min <= t.text.len() <= max,
        TokenFilter::StopWords { words } => !word_in(words_view(words@), t.text),
        TokenFilter::KeepWords { words } => word_in(words_view(words@), t.text),
        TokenFilter::StopTags { tags } => !tag_matches(words_view(tags@), t),
        TokenFilter::KeepTags { tags } => tag_matches(words_view(tags@), t),
        _ => true,
    }
}

/// How a rewriting filter changes a token's surface text; offsets,
/// positions and details stay as they are.
pub open spec fn spec_rewrite(f: TokenFilter, t: TokenView) -> TokenView {
    match f {
        TokenFilter::Lowercase => TokenView { text: lower_of(t.text), ..t },
        TokenFilter::Uppercase => TokenView { text: upper_of(t.text), ..t },
        TokenFilter::BaseForm { field } => {
            if field < t.details.len() && t.details[field as int] != "*"@ {
                TokenView { text: t.details[field as int], ..t }
            } else {
                t
            }
        },
        TokenFilter::ReadingForm { field } => {
            if field < t.details.len() && t.details[field as int] != "*"@ {
                TokenView { text: t.details[field as int], ..t }
            } else {
                t
            }
        },
        _ => t,
    }
}

/// The tokens a dropping filter keeps, in order, positions not yet
/// renumbered.
pub open spec fn spec_kept(f: TokenFilter, toks: Seq<TokenView>, n: int) -> Seq<TokenView>
    decreases n,
{
    if n <= 0 {
        Seq::empty()
    } else {
        let pre = spec_kept(f, toks, n - 1);
        if spec_keeps(f, toks[n - 1]) {
            pre.push(toks[n - 1])
        } else {
            pre
        }
    }
}

/// Renumbers positions contiguously from zero, keeping everything
/// else.
pub open spec fn spec_renumber(toks: Seq<TokenView>) -> Seq<TokenView> {
    Seq::new(toks.len(), |i: int| TokenView { position: i, ..toks[i] })
}

/// What a token filter does to a token sequence (compounding is
/// specified separately by `spec_compound`).
pub open spec fn spec_token_filter_output(f: TokenFilter, toks: Seq<TokenView>) -> Seq<TokenView> {
    match f {
        TokenFilter::Lowercase | TokenFilter::Uppercase | TokenFilter::BaseForm { .. }
            | TokenFilter::ReadingForm { .. } => Seq::new(
            toks.len(),
            |i: int| spec_rewrite(f, toks[i]),
        ),
        TokenFilter::Length { .. } | TokenFilter::StopWords { .. } | TokenFilter::KeepWords {
            ..
        } | TokenFilter::StopTags { .. } | TokenFilter::KeepTags { .. } => spec_renumber(
            spec_kept(f, toks, toks.len() as int),
        ),
        TokenFilter::CompoundWord { tags, new_tag } => spec_renumber(
            spec_compound(
                words_view(tags@),
                match new_tag {
                    Some(t) => Some(t@),
                    None => None,
                },
                toks,
                0,
            ),
        ),
    }
}

/// The first index at or after `i` whose token does not match
/// `tags`: the end of the run beginning at `i`.
pub open spec fn spec_run_end(tags: Seq<Seq<char>>, toks: Seq<TokenView>, i: int) -> int
    decreases toks.len() - i,
{
    if i < 0 || i >= toks.len() {
        i
    } else if tag_matches(tags, toks[i]) {
        spec_run_end(tags, toks, i + 1)
    } else {
        i
    }
}

/// The concatenation of the surface texts of `toks[i..j]`.
pub open spec fn spec_concat_texts(toks: Seq<TokenView>, i: int, j: int) -> Seq<char>
    decreases j - i,
{
    if i >= j {
        Seq::empty()
    } else {
        toks[i].text + spec_concat_texts(toks, i + 1, j)
    }
}

/// The sum of the position lengths of `toks[i..j]`.
pub open spec fn spec_sum_plen(toks: Seq<TokenView>, i: int, j: int) -> int
    decreases j - i,
{
    if i >= j {
        0
    } else {
        toks[i].position_length + spec_sum_plen(toks, i + 1, j)
    }
}

/// The token a run `toks[i..j]` merges into: concatenated text,
/// the union of the spans, the summed position length, and either
/// the configured new tag or the first token's details.
pub open spec fn spec_merged(
    new_tag: Option<Seq<char>>,
    toks: Seq<TokenView>,
    i: int,
    j: int,
) -> TokenView {
    TokenView {
        text: spec_concat_texts(toks, i, j),
        byte_start: toks[i].byte_start,
        byte_end: toks[j - 1].byte_end,
        position: toks[i].position,
        position_length: spec_sum_plen(toks, i, j),
        details: match new_tag {
            Some(t) => seq![t],
            None => toks[i].details,
        },
    }
}

/// Compounding: maximal runs of consecutive tokens matching `tags`
/// merge into one token each; everything else passes through.
pub open spec fn spec_compound(
    tags: Seq<Seq<char>>,
    new_tag: Option<Seq<char>>,
    toks: Seq<TokenView>,
    i: int,
) -> Seq<TokenView>
    decreases toks.len() - i,
{
    if i < 0 || i >= toks.len() {
        Seq::empty()
    } else if tag_matches(tags, toks[i]) {
        let j = spec_run_end(tags, toks, i + 1);
        let j2 = if j <= i {
            i + 1
        } else if j > toks.len() {
            toks.len() as int
        } else {
            j
        };
        seq![spec_merged(new_tag, toks, i, j2)] + spec_compound(tags, new_tag, toks, j2)
    } else {
        seq![toks[i]] + spec_compound(tags, new_tag, toks, i + 1)
    }
}

/// Splitting a surface-text sum at any point adds up.
pub proof fn lemma_sum_plen_split(toks: Seq<TokenView>, a: int, b: int, c: int)
    requires
        a <= b <= c,
    ensures
        spec_sum_plen(toks, a, b) + spec_sum_plen(toks, b, c) == spec_sum_plen(toks, a, c),
    decreases b - a,
{
    if a < b {
        lemma_sum_plen_split(toks, a + 1, b, c);
    }
}

/// A sum of position lengths of real tokens is non-negative.
pub proof fn lemma_sum_plen_nonneg(toks: Seq<TokenView>, a: int, b: int)
    requires
        forall|t: int| 0 <= t < toks.len() ==> (#[trigger] toks[t]).position_length >= 0,
        0 <= a,
        b <= toks.len(),
    ensures
        spec_sum_plen(toks, a, b) >= 0,
    decreases b - a,
{
    if a < b {
        lemma_sum_plen_nonneg(toks, a + 1, b);
    }
}

/// Appending one more token to a text concatenation appends its
/// text.
proof fn lemma_concat_snoc(toks: Seq<TokenView>, i: int, k: int)
    requires
        i <= k,
    ensures
        spec_concat_texts(toks, i, k + 1) == spec_concat_texts(toks, i, k) + toks[k].text,
    decreases k - i,
{
    if i < k {
        lemma_concat_snoc(toks, i + 1, k);
        assert(spec_concat_texts(toks, i, k + 1) =~= spec_concat_texts(toks, i, k)
            + toks[k].text);
    } else {
        reveal_with_fuel(spec_concat_texts, 2);
        assert(spec_concat_texts(toks, i, i + 1) =~= spec_concat_texts(toks, i, i)
            + toks[i].text);
    }
}

/// As `lemma_concat_snoc`, for position-length sums.
proof fn lemma_sum_plen_snoc(toks: Seq<TokenView>, i: int, k: int)
    requires
        i <= k,
    ensures
        spec_sum_plen(toks, i, k + 1) == spec_sum_plen(toks, i, k) + toks[k].position_length,
    decreases k - i,
{
    if i < k {
        lemma_sum_plen_snoc(toks, i + 1, k);
    } else {
        reveal_with_fuel(spec_sum_plen, 2);
    }
}

/// A run that stops where matching stops is what `spec_run_end`
/// computes.
proof fn lemma_run_end(tags: Seq<Seq<char>>, toks: Seq<TokenView>, s: int, j: int)
    requires
        0 <= s <= j <= toks.len(),
        forall|k: int| s <= k < j ==> tag_matches(tags, #[trigger] toks[k]),
        j == toks.len() || !tag_matches(tags, toks[j]),
    ensures
        spec_run_end(tags, toks, s) == j,
    decreases j - s,
{
    if s < j {
        lemma_run_end(tags, toks, s + 1, j);
    }
}

/// Decides whether `text` is one of `words`.
#[verifier::loop_isolation(false)]
fn word_in_exec(words: &Vec<String>, text: &String) -> (r: bool)
    ensures
        r == word_in(words_view(words@), text@),
{
    let n = words.len();
    let mut j: usize = 0;
    while j < n
        invariant
            j <= n,
            forall|k: int| 0 <= k < j ==> words_view(words@)[k] != text@,
        decreases n - j,
    {
        if str_eq(words[j].as_str(), text.as_str()) {
            assert(words_view(words@)[j as int] == text@);
            return true;
        }
        j = j + 1;
    }
    false
}

/// Decides whether `a` is a prefix of `b`, character for
/// character.
#[verifier::loop_isolation(false)]
fn str_is_prefix(a: &String, b: &String) -> (r: bool)
    ensures
        r == a@.is_prefix_of(b@),
{
    let a_str = a.as_str();
    let b_str = b.as_str();
    let na = a_str.unicode_len();
    let nb = b_str.unicode_len();
    if na > nb {
        return false;
    }
    let mut i: usize = 0;
    while i < na
        invariant
            na == a@.len(),
            nb == b@.len(),
            na <= nb,
            i <= na,
            forall|k: int| 0 <= k < i ==> a@[k] == b@[k],
        decreases na - i,
    {
        if a_str.get_char(i) != b_str.get_char(i) {
            assert(!a@.is_prefix_of(b@)) by {
                if a@.is_prefix_of(b@) {
                    assert(a@[i as int] == b@.subrange(0, a@.len() as int)[i as int]);
                }
            }
            return false;
        }
        i = i + 1;
    }
    assert(a@ =~= b@.subrange(0, a@.len() as int));
    true
}

/// Decides whether a token's tag begins with one of `tags`.
#[verifier::loop_isolation(false)]
fn tag_matches_exec(tags: &Vec<String>, t: &Token) -> (r: bool)
    ensures
        r == tag_matches(words_view(tags@), t@),
{
    if t.details.len() == 0 {
        return false;
    }
    let tag = &t.details[0];
    proof {
        assert(t@.details[0] == t.details@[0]@);
    }
    let n = tags.len();
    let mut j: usize = 0;
    while j < n
        invariant
            j <= n,
            t@.details.len() > 0,
            tag@ == t@.details[0],
            forall|k: int| 0 <= k < j ==> !(#[trigger] words_view(tags@)[k]).is_prefix_of(
                t@.details[0],
            ),
        decreases n - j,
    {
        if str_is_prefix(&tags[j], tag) {
            assert(words_view(tags@)[j as int].is_prefix_of(t@.details[0]));
            return true;
        }
        j = j + 1;
    }
    false
}

/// Clones a detail list, field for field.
#[verifier::loop_isolation(false)]
fn clone_details(d: &Vec<String>) -> (r: Vec<String>)
    ensures
        r.deep_view() == d.deep_view(),
{
    let n = d.len();
    let mut r: Vec<String> = Vec::new();
    let mut i: usize = 0;
    while i < n
        invariant
            i <= n,
            r@.len() == i,
            forall|k: int| 0 <= k < i ==> (#[trigger] r@[k])@ == d@[k]@,
        decreases n - i,
    {
        r.push(d[i].clone());
        i = i + 1;
    }
    proof {
        assert(r.deep_view() =~= d.deep_view());
    }
    r
}

/// Decides whether a dropping filter keeps a token.
fn keeps_exec(f: &TokenFilter, t: &Token) -> (r: bool)
    ensures
        r == spec_keeps(*f, t@),
{
    match f {
        TokenFilter::Length { min, max } => {
            let len = t.text.as_str().unicode_len();
            *min <= len && len <= *max
        },
        TokenFilter::StopWords { words } => !word_in_exec(words, &t.text),
        TokenFilter::KeepWords { words } => word_in_exec(words, &t.text),
        TokenFilter::StopTags { tags } => !tag_matches_exec(tags, t),
        TokenFilter::KeepTags { tags } => tag_matches_exec(tags, t),
        _ => true,
    }
}

/// Applies a surface-rewriting filter token by token; offsets,
/// positions and details stay.
#[verifier::loop_isolation(false)]
fn apply_rewrite(f: &TokenFilter, tokens: &Vec<Token>) -> (out: Vec<Token>)
    requires
        f matches TokenFilter::Lowercase || f matches TokenFilter::Uppercase || f matches
            TokenFilter::BaseForm { .. } || f matches TokenFilter::ReadingForm { .. },
    ensures
        tokens_view(out@) == Seq::new(
            tokens@.len(),
            |i: int| spec_rewrite(*f, tokens_view(tokens@)[i]),
        ),
{
    let ghost tv = tokens_view(tokens@);
    let n = tokens.len();
    let mut out: Vec<Token> = Vec::new();
    let mut i: usize = 0;
    while i < n
        invariant
            i <= n,
            tokens_view(out@) == Seq::new(i as nat, |j: int| spec_rewrite(*f, tv[j])),
        decreases n - i,
    {
        let t = &tokens[i];
        proof {
            assert(tv[i as int] == t@);
        }
        let new_text: String = match f {
            TokenFilter::Lowercase => to_lowercase(&t.text),
            TokenFilter::Uppercase => to_uppercase(&t.text),
            TokenFilter::BaseForm { field } | TokenFilter::ReadingForm { field } => {
                if *field < t.details.len() && !str_eq(t.details[*field].as_str(), "*") {
                    proof {
                        assert(t@.details[*field as int] == t.details@[*field as int]@);
                    }
                    t.details[*field].clone()
                } else {
                    proof {
                        reveal_strlit("*");
                    }
                    t.text.clone()
                }
            },
            _ => t.text.clone(),
        };
        let tok = Token::new(
            new_text,
            t.byte_start,
            t.byte_end,
            t.position,
            t.position_length,
            clone_details(&t.details),
        );
        proof {
            reveal_strlit("*");
            assert(tok@ == spec_rewrite(*f, tv[i as int]));
        }
        let ghost old_out = out@;
        out.push(tok);
        proof {
            assert forall|j: int| 0 <= j < i + 1 implies tokens_view(out@)[j] == Seq::new(
                (i + 1) as nat,
                |j2: int| spec_rewrite(*f, tv[j2]),
            )[j] by {
                if j < i {
                    assert(out@[j] == old_out[j]);
                    assert(tokens_view(old_out)[j] == spec_rewrite(*f, tv[j]));
                } else {
                    assert(out@[j] == tok);
                }
            }
            assert(tokens_view(out@) =~= Seq::new(
                (i + 1) as nat,
                |j: int| spec_rewrite(*f, tv[j]),
            ));
        }
        i = i + 1;
    }
    out
}

/// Applies a dropping filter: keeps matching tokens in order and
/// renumbers positions from zero.
#[verifier::loop_isolation(false)]
fn apply_keep(f: &TokenFilter, tokens: &Vec<Token>) -> (out: Vec<Token>)
    ensures
        tokens_view(out@) == spec_renumber(
            spec_kept(*f, tokens_view(tokens@), tokens@.len() as int),
        ),
{
    let ghost tv = tokens_view(tokens@);
    let n = tokens.len();
    let mut out: Vec<Token> = Vec::new();
    let mut i: usize = 0;
    while i < n
        invariant
            i <= n,
            out@.len() == spec_kept(*f, tv, i as int).len(),
            tokens_view(out@) == spec_renumber(spec_kept(*f, tv, i as int)),
        decreases n - i,
    {
        let t = &tokens[i];
        proof {
            assert(tv[i as int] == t@);
        }
        if keeps_exec(f, t) {
            let pos = out.len();
            let tok = Token::new(
                t.text.clone(),
                t.byte_start,
                t.byte_end,
                pos,
                t.position_length,
                clone_details(&t.details),
            );
            let ghost old_out = out@;
            out.push(tok);
            proof {
                let kept = spec_kept(*f, tv, i + 1);
                assert(kept == spec_kept(*f, tv, i as int).push(tv[i as int]));
                assert forall|j: int| 0 <= j < kept.len() implies tokens_view(out@)[j]
                    == spec_renumber(kept)[j] by {
                    if j < kept.len() - 1 {
                        assert(out@[j] == old_out[j]);
                        assert(tokens_view(old_out)[j] == spec_renumber(
                            spec_kept(*f, tv, i as int),
                        )[j]);
                    } else {
                        assert(out@[j] == tok);
                        assert(tok@ == TokenView { position: j, ..tv[i as int] });
                    }
                }
                assert(tokens_view(out@) =~= spec_renumber(kept));
            }
        } else {
            proof {
                assert(spec_kept(*f, tv, i + 1) == spec_kept(*f, tv, i as int));
            }
        }
        i = i + 1;
    }
    out
}

/// Applies compounding: merges each maximal run of consecutive
/// tokens whose tag matches `tags` into one token, then renumbers.
/// Fails only when a merged position length cannot be represented.
#[verifier::loop_isolation(false)]
#[verifier::rlimit(60)]
fn apply_compound(
    tags: &Vec<String>,
    new_tag: &Option<String>,
    tokens: &Vec<Token>,
) -> (r: Result<Vec<Token>, LinderaError>)
    ensures
        ({
            let tv = tokens_view(tokens@);
            let tagv = words_view(tags@);
            let ntv = match *new_tag {
                Some(t) => Some(t@),
                None => None,
            };
            match r {
                Ok(out) => tokens_view(out@) == spec_renumber(spec_compound(tagv, ntv, tv, 0)),
                Err(e) => e.kind == LinderaErrorKind::Segmentation && spec_sum_plen(
                    tv,
                    0,
                    tv.len() as int,
                ) > usize::MAX,
            }
        }),
{
    let ghost tv = tokens_view(tokens@);
    let ghost tagv = words_view(tags@);
    let ghost ntv: Option<Seq<char>> = match new_tag {
        Some(t) => Some(t@),
        None => None,
    };
    proof {
        assert forall|t: int| 0 <= t < tv.len() implies (#[trigger] tv[t]).position_length
            >= 0 by {
            assert(tv[t] == tokens@[t]@);
        }
    }
    let n = tokens.len();
    let mut out: Vec<Token> = Vec::new();
    let ghost mut acc: Seq<TokenView> = Seq::empty();
    let mut i: usize = 0;
    while i < n
        invariant
            i <= n,
            spec_compound(tagv, ntv, tv, 0) == acc + spec_compound(tagv, ntv, tv, i as int),
            out@.len() == acc.len(),
            forall|k: int|
                0 <= k < acc.len() ==> tokens_view(out@)[k] == (TokenView {
                    position: k,
                    ..acc[k]
                }),
        decreases n - i,
    {
        let t = &tokens[i];
        proof {
            assert(tv[i as int] == t@);
        }
        if tag_matches_exec(tags, t) {
            // scan the run
            let mut j: usize = i + 1;
            while j < n && tag_matches_exec(tags, &tokens[j])
                invariant
                    i + 1 <= j <= n,
                    forall|k: int| i + 1 <= k < j ==> tag_matches(tagv, #[trigger] tv[k]),
                decreases n - j,
            {
                proof {
                    assert(tv[j as int] == tokens@[j as int]@);
                }
                j = j + 1;
            }
            proof {
                assert(j == n || !tag_matches(tagv, tv[j as int]));
                lemma_run_end(tagv, tv, i + 1, j as int);
                assert(spec_run_end(tagv, tv, i + 1) == j);
            }
            // merge tokens[i..j]
            let mut text = String::new();
            let mut plen: usize = 0;
            let mut k: usize = i;
            while k < j
                invariant
                    i <= k <= j <= n,
                    text@ == spec_concat_texts(tv, i as int, k as int),
                    plen as int == spec_sum_plen(tv, i as int, k as int),
                decreases j - k,
            {
                proof {
                    assert(tv[k as int] == tokens@[k as int]@);
                    lemma_concat_snoc(tv, i as int, k as int);
                    lemma_sum_plen_snoc(tv, i as int, k as int);
                }
                text.append(tokens[k].text.as_str());
                plen = match plen.checked_add(tokens[k].position_length) {
                    Some(p) => p,
                    None => {
                        proof {
                            lemma_sum_plen_nonneg(tv, 0, i as int);
                            lemma_sum_plen_nonneg(tv, k + 1, tv.len() as int);
                            lemma_sum_plen_split(tv, 0, i as int, k + 1);
                            lemma_sum_plen_split(tv, 0, k + 1, tv.len() as int);
                        }
                        return Err(
                            LinderaError::new(
                                LinderaErrorKind::Segmentation,
                                String::from_str("compound position length overflows"),
                            ),
                        );
                    },
                };
                k = k + 1;
            }
            let details: Vec<String> = match new_tag {
                Some(tag) => {
                    let mut d: Vec<String> = Vec::new();
                    d.push(tag.clone());
                    proof {
                        assert(d.deep_view() =~= seq![tag@]);
                    }
                    d
                },
                None => {
                    let d = clone_details(&tokens[i].details);
                    proof {
                        assert(d.deep_view() == tv[i as int].details);
                    }
                    d
                },
            };
            let pos = out.len();
            let tok = Token::new(
                text,
                tokens[i].byte_start,
                tokens[j - 1].byte_end,
                pos,
                plen,
                details,
            );
            let ghost merged = spec_merged(ntv, tv, i as int, j as int);
            proof {
                assert(tv[j - 1] == tokens@[j - 1]@);
                assert(tok@ == TokenView { position: pos as int, ..merged });
            }
            let ghost old_out = out@;
            out.push(tok);
            proof {
                assert(spec_compound(tagv, ntv, tv, i as int) == seq![merged] + spec_compound(
                    tagv,
                    ntv,
                    tv,
                    j as int,
                ));
                assert((acc + spec_compound(tagv, ntv, tv, i as int)) =~= (acc.push(merged)
                    + spec_compound(tagv, ntv, tv, j as int)));
                acc = acc.push(merged);
                assert forall|k2: int| 0 <= k2 < acc.len() implies tokens_view(out@)[k2] == (
                TokenView { position: k2, ..acc[k2] }) by {
                    if k2 < acc.len() - 1 {
                        assert(out@[k2] == old_out[k2]);
                        assert(tokens_view(old_out)[k2] == (TokenView {
                            position: k2,
                            ..acc[k2]
                        }));
                    } else {
                        assert(out@[k2] == tok);
                    }
                }
            }
            i = j;
        } else {
            let pos = out.len();
            let tok = Token::new(
                t.text.clone(),
                t.byte_start,
                t.byte_end,
                pos,
                t.position_length,
                clone_details(&t.details),
            );
            let ghost old_out = out@;
            out.push(tok);
            proof {
                assert(spec_compound(tagv, ntv, tv, i as int) == seq![tv[i as int]]
                    + spec_compound(tagv, ntv, tv, i + 1));
                assert((acc + spec_compound(tagv, ntv, tv, i as int)) =~= (acc.push(tv[i as int])
                    + spec_compound(tagv, ntv, tv, i + 1)));
                acc = acc.push(tv[i as int]);
                assert forall|k2: int| 0 <= k2 < acc.len() implies tokens_view(out@)[k2] == (
                TokenView { position: k2, ..acc[k2] }) by {
                    if k2 < acc.len() - 1 {
                        assert(out@[k2] == old_out[k2]);
                        assert(tokens_view(old_out)[k2] == (TokenView {
                            position: k2,
                            ..acc[k2]
                        }));
                    } else {
                        assert(out@[k2] == tok);
                    }
                }
            }
            i = i + 1;
        }
    }
    proof {
        assert(spec_compound(tagv, ntv, tv, n as int) =~= Seq::<TokenView>::empty());
        assert(acc + spec_compound(tagv, ntv, tv, n as int) =~= acc);
        assert(acc == spec_compound(tagv, ntv, tv, 0));
        assert forall|k: int| 0 <= k < acc.len() implies tokens_view(out@)[k] == spec_renumber(
            acc,
        )[k] by {
        }
        assert(tokens_view(out@) =~= spec_renumber(acc));
    }
    Ok(out)
}

impl TokenFilter {
    /// Applies this filter to a token sequence.
    ///
    /// Rewriting filters change surface texts only; dropping
    /// filters keep a subsequence and renumber positions from
    /// zero; compounding merges matching runs.  The output is
    /// exactly `spec_token_filter_output` of the input.  The one
    /// failure is a compound whose merged position length cannot
    /// be represented.
    pub fn apply(&self, tokens: &Vec<Token>) -> (r: Result<Vec<Token>, LinderaError>)
        ensures
            match r {
                Ok(out) => tokens_view(out@) == spec_token_filter_output(
                    *self,
                    tokens_view(tokens@),
                ),
                Err(e) => {
                    &&& e.kind == LinderaErrorKind::Segmentation
                    &&& self matches TokenFilter::CompoundWord { .. }
                    &&& spec_sum_plen(tokens_view(tokens@), 0, tokens@.len() as int) > usize::MAX
                },
            },
    {
        match self {
            TokenFilter::Lowercase | TokenFilter::Uppercase | TokenFilter::BaseForm { .. }
                | TokenFilter::ReadingForm { .. } => Ok(apply_rewrite(self, tokens)),
            TokenFilter::Length { .. } | TokenFilter::StopWords { .. } | TokenFilter::KeepWords {
                ..
            } | TokenFilter::StopTags { .. } | TokenFilter::KeepTags { .. } => Ok(
                apply_keep(self, tokens),
            ),
            TokenFilter::CompoundWord { tags, new_tag } => apply_compound(tags, new_tag, tokens),
        }
    }
}

/// The relation between a string table and a configuration list:
/// element for element, the list holds exactly those strings.
pub open spec fn words_match_config(words: Seq<String>, items: Seq<ConfigValue>) -> bool {
    &&& items.len() == words.len()
    &&& forall|j: int|
        0 <= j < items.len() ==> ((#[trigger] items[j]) matches ConfigValue::Str(s) && s@
            == words[j]@)
}

/// The relation between a token filter and a configuration
/// `(kind, args)`; parsing and serializing both speak of this one
/// relation (see `lemma_token_filter_config_functional`).
pub open spec fn token_filter_matches_config(
    f: TokenFilter,
    kind: Seq<char>,
    args: ConfigValue,
) -> bool {
    match f {
        TokenFilter::Lowercase => kind == "lowercase"@,
        TokenFilter::Uppercase => kind == "uppercase"@,
        TokenFilter::Length { min, max } => {
            &&& kind == "length"@
            &&& match args.spec_get("min"@) {
                Some(ConfigValue::Int(v)) => v >= 0 && min as int == v as int,
                None => min == 1,
                _ => false,
            }
            &&& match args.spec_get("max"@) {
                Some(ConfigValue::Int(v)) => v >= 0 && max as int == v as int,
                None => max == usize::MAX,
                _ => false,
            }
        },
        TokenFilter::StopWords { words } => {
            &&& kind == "stop_words"@
            &&& match args.spec_get("words"@) {
                Some(ConfigValue::Arr(items)) => words_match_config(words@, items@),
                _ => false,
            }
        },
        TokenFilter::KeepWords { words } => {
            &&& kind == "keep_words"@
            &&& match args.spec_get("words"@) {
                Some(ConfigValue::Arr(items)) => words_match_config(words@, items@),
                _ => false,
            }
        },
        TokenFilter::StopTags { tags } => {
            &&& kind == "stop_tags"@
            &&& match args.spec_get("tags"@) {
                Some(ConfigValue::Arr(items)) => words_match_config(tags@, items@),
                _ => false,
            }
        },
        TokenFilter::KeepTags { tags } => {
            &&& kind == "keep_tags"@
            &&& match args.spec_get("tags"@) {
                Some(ConfigValue::Arr(items)) => words_match_config(tags@, items@),
                _ => false,
            }
        },
        TokenFilter::BaseForm { field } => {
            &&& kind == "base_form"@
            &&& match args.spec_get("field"@) {
                Some(ConfigValue::Int(v)) => v >= 0 && field as int == v as int,
                _ => false,
            }
        },
        TokenFilter::ReadingForm { field } => {
            &&& kind == "reading_form"@
            &&& match args.spec_get("field"@) {
                Some(ConfigValue::Int(v)) => v >= 0 && field as int == v as int,
                _ => false,
            }
        },
        TokenFilter::CompoundWord { tags, new_tag } => {
            &&& kind == "compound_word"@
            &&& match args.spec_get("tags"@) {
                Some(ConfigValue::Arr(items)) => words_match_config(tags@, items@),
                _ => false,
            }
            &&& match args.spec_get("new_tag"@) {
                Some(ConfigValue::Str(s)) => new_tag matches Some(t) && t@ == s@,
                None => new_tag is None,
                _ => false,
            }
        },
    }
}

/// Two token filters with the same effective configuration.
pub open spec fn token_filter_equiv(f1: TokenFilter, f2: TokenFilter) -> bool {
    match (f1, f2) {
        (TokenFilter::Lowercase, TokenFilter::Lowercase) => true,
        (TokenFilter::Uppercase, TokenFilter::Uppercase) => true,
        (TokenFilter::Length { min: a1, max: b1 }, TokenFilter::Length { min: a2, max: b2 }) => a1
            == a2 && b1 == b2,
        (
            TokenFilter::StopWords { words: w1 },
            TokenFilter::StopWords { words: w2 },
        ) => words_view(w1@) == words_view(w2@),
        (
            TokenFilter::KeepWords { words: w1 },
            TokenFilter::KeepWords { words: w2 },
        ) => words_view(w1@) == words_view(w2@),
        (
            TokenFilter::StopTags { tags: t1 },
            TokenFilter::StopTags { tags: t2 },
        ) => words_view(t1@) == words_view(t2@),
        (
            TokenFilter::KeepTags { tags: t1 },
            TokenFilter::KeepTags { tags: t2 },
        ) => words_view(t1@) == words_view(t2@),
        (TokenFilter::BaseForm { field: a1 }, TokenFilter::BaseForm { field: a2 }) => a1 == a2,
        (
            TokenFilter::ReadingForm { field: a1 },
            TokenFilter::ReadingForm { field: a2 },
        ) => a1 == a2,
        (
            TokenFilter::CompoundWord { tags: t1, new_tag: n1 },
            TokenFilter::CompoundWord { tags: t2, new_tag: n2 },
        ) => words_view(t1@) == words_view(t2@) && (match (n1, n2) {
            (Some(a), Some(b)) => a@ == b@,
            (None, None) => true,
            _ => false,
        }),
        _ => false,
    }
}

/// The token filter stage names are pairwise distinct.
proof fn lemma_token_filter_names_distinct()
    ensures
        "lowercase"@.len() == 9,
        "uppercase"@.len() == 9,
        "length"@.len() == 6,
        "stop_words"@.len() == 10,
        "keep_words"@.len() == 10,
        "stop_tags"@.len() == 9,
        "keep_tags"@.len() == 9,
        "base_form"@.len() == 9,
        "reading_form"@.len() == 12,
        "compound_word"@.len() == 13,
        "lowercase"@[0] == 'l',
        "uppercase"@[0] == 'u',
        "stop_tags"@[0] == 's',
        "keep_tags"@[0] == 'k',
        "base_form"@[0] == 'b',
        "stop_words"@[0] == 's',
        "keep_words"@[0] == 'k',
        "stop_tags"@[5] == 't',
        "stop_words"@[5] == 'w',
        "keep_tags"@[5] == 't',
        "keep_words"@[5] == 'w',
{
    reveal_strlit("lowercase");
    reveal_strlit("uppercase");
    reveal_strlit("length");
    reveal_strlit("stop_words");
    reveal_strlit("keep_words");
    reveal_strlit("stop_tags");
    reveal_strlit("keep_tags");
    reveal_strlit("base_form");
    reveal_strlit("reading_form");
    reveal_strlit("compound_word");
}

/// The configuration relation is functional: one configuration
/// describes at most one token filter, up to equivalent argument
/// views.  Together with the contracts of `TokenFilter::to_config`
/// and `parse_token_filter`, this is the configuration round trip
/// for token filter stages.
pub proof fn lemma_token_filter_config_functional(
    f1: TokenFilter,
    f2: TokenFilter,
    kind: Seq<char>,
    args: ConfigValue,
)
    requires
        token_filter_matches_config(f1, kind, args),
        token_filter_matches_config(f2, kind, args),
    ensures
        token_filter_equiv(f1, f2),
{
    lemma_token_filter_names_distinct();
    match (f1, f2) {
        (TokenFilter::StopWords { words: w1 }, TokenFilter::StopWords { words: w2 }) => {
            lemma_words_functional(w1, w2, args, "words"@);
        },
        (TokenFilter::KeepWords { words: w1 }, TokenFilter::KeepWords { words: w2 }) => {
            lemma_words_functional(w1, w2, args, "words"@);
        },
        (TokenFilter::StopTags { tags: t1 }, TokenFilter::StopTags { tags: t2 }) => {
            lemma_words_functional(t1, t2, args, "tags"@);
        },
        (TokenFilter::KeepTags { tags: t1 }, TokenFilter::KeepTags { tags: t2 }) => {
            lemma_words_functional(t1, t2, args, "tags"@);
        },
        (
            TokenFilter::CompoundWord { tags: t1, new_tag: _ },
            TokenFilter::CompoundWord { tags: t2, new_tag: _ },
        ) => {
            lemma_words_functional(t1, t2, args, "tags"@);
        },
        _ => {},
    }
}

/// Two string tables matching the same configuration list are
/// equal, view for view.
proof fn lemma_words_functional(w1: Vec<String>, w2: Vec<String>, args: ConfigValue, key: Seq<char>)
    requires
        match args.spec_get(key) {
            Some(ConfigValue::Arr(items)) => words_match_config(w1@, items@)
                && words_match_config(w2@, items@),
            _ => false,
        },
    ensures
        words_view(w1@) == words_view(w2@),
{
    match args.spec_get(key) {
        Some(ConfigValue::Arr(items)) => {
            assert forall|j: int| 0 <= j < w1@.len() implies words_view(w1@)[j] == words_view(
                w2@,
            )[j] by {
                assert(items@[j] matches ConfigValue::Str(s) && s@ == w1@[j]@);
                assert(items@[j] matches ConfigValue::Str(s) && s@ == w2@[j]@);
            }
            assert(words_view(w1@) =~= words_view(w2@));
        },
        _ => {},
    }
}

/// Reads a string table from an argument set.
#[verifier::loop_isolation(false)]
fn read_words(args: &ConfigValue, key: &str) -> (r: Option<Vec<String>>)
    ensures
        match r {
            Some(words) => args.spec_get(key@) matches Some(ConfigValue::Arr(items))
                && words_match_config(words@, items@),
            None => match args.spec_get(key@) {
                Some(ConfigValue::Arr(items)) => exists|j: int|
                    0 <= j < items@.len() && !((#[trigger] items@[j]) matches ConfigValue::Str(
                        _,
                    )),
                Some(_) => true,
                None => true,
            },
        },
{
    let arr = match args.get(key) {
        Some(v) => match v {
            ConfigValue::Arr(items) => Some(items),
            _ => {
                return None;
            },
        },
        None => {
            return None;
        },
    };
    let items = arr.unwrap();
    let n = items.len();
    let mut words: Vec<String> = Vec::new();
    let mut j: usize = 0;
    while j < n
        invariant
            j <= n,
            words@.len() == j,
            forall|k: int|
                0 <= k < j ==> ((#[trigger] items@[k]) matches ConfigValue::Str(s) && s@
                    == words@[k]@),
        decreases n - j,
    {
        match items[j].as_str() {
            Some(s) => {
                words.push(s.clone());
            },
            None => {
                return None;
            },
        }
        j = j + 1;
    }
    Some(words)
}

/// Reads a non-negative integer argument that fits the machine's
/// size type.
fn read_index(args: &ConfigValue, key: &str) -> (r: Option<usize>)
    ensures
        match r {
            Some(u) => args.spec_get(key@) matches Some(ConfigValue::Int(v)) && v >= 0 && u as int
                == v as int,
            None => !(args.spec_get(key@) matches Some(ConfigValue::Int(v)) && v >= 0 && v as int
                <= usize::MAX),
        },
{
    match args.get(key) {
        Some(v) => match v.as_int() {
            Some(n) => {
                if n < 0 {
                    None
                } else {
                    let wide = n as u64;
                    if wide <= (usize::MAX as u64) {
                        Some(wide as usize)
                    } else {
                        None
                    }
                }
            },
            None => None,
        },
        None => None,
    }
}

/// Reads a token filter from its configuration.  An unknown name
/// or a missing or ill-typed argument is a configuration error,
/// raised here and never at apply time.  The result is `Ok`
/// exactly when some token filter matches the configuration, and
/// then holds such a filter.
#[verifier::rlimit(30)]
pub fn parse_token_filter(kind: &str, args: &ConfigValue) -> (r: Result<TokenFilter, LinderaError>)
    ensures
        match r {
            Ok(f) => token_filter_matches_config(f, kind@, *args),
            Err(e) => e.kind == LinderaErrorKind::Config && !(exists|f: TokenFilter|
                token_filter_matches_config(f, kind@, *args)),
        },
{
    proof {
        lemma_token_filter_names_distinct();
    }
    if str_eq(kind, "lowercase") {
        Ok(TokenFilter::Lowercase)
    } else if str_eq(kind, "uppercase") {
        Ok(TokenFilter::Uppercase)
    } else if str_eq(kind, "length") {
        let min: Option<usize> = match args.get("min") {
            Some(_) => read_index(args, "min"),
            None => Some(1),
        };
        let max: Option<usize> = match args.get("max") {
            Some(_) => read_index(args, "max"),
            None => Some(usize::MAX),
        };
        match (min, max) {
            (Some(a), Some(b)) => Ok(TokenFilter::Length { min: a, max: b }),
            _ => {
                proof {
                    assert(!(exists|f: TokenFilter|
                        token_filter_matches_config(f, kind@, *args))) by {
                        if exists|f: TokenFilter| token_filter_matches_config(f, kind@, *args) {
                            let f0 = choose|f: TokenFilter|
                                token_filter_matches_config(f, kind@, *args);
                            match f0 {
                                TokenFilter::Length { min: m0, max: x0 } => {},
                                _ => {},
                            }
                        }
                    }
                }
                Err(
                    LinderaError::new(
                        LinderaErrorKind::Config,
                        String::from_str("length expects non-negative 'min' and 'max'"),
                    ),
                )
            },
        }
    } else if str_eq(kind, "stop_words") {
        match read_words(args, "words") {
            Some(words) => Ok(TokenFilter::StopWords { words }),
            None => {
                proof {
                    assert(!(exists|f: TokenFilter|
                        token_filter_matches_config(f, kind@, *args))) by {
                        if exists|f: TokenFilter| token_filter_matches_config(f, kind@, *args) {
                            let f0 = choose|f: TokenFilter|
                                token_filter_matches_config(f, kind@, *args);
                            match f0 {
                                TokenFilter::StopWords { words: w0 } => {},
                                _ => {},
                            }
                        }
                    }
                }
                Err(
                    LinderaError::new(
                        LinderaErrorKind::Config,
                        String::from_str("stop_words expects a 'words' list of strings"),
                    ),
                )
            },
        }
    } else if str_eq(kind, "keep_words") {
        match read_words(args, "words") {
            Some(words) => Ok(TokenFilter::KeepWords { words }),
            None => {
                proof {
                    assert(!(exists|f: TokenFilter|
                        token_filter_matches_config(f, kind@, *args))) by {
                        if exists|f: TokenFilter| token_filter_matches_config(f, kind@, *args) {
                            let f0 = choose|f: TokenFilter|
                                token_filter_matches_config(f, kind@, *args);
                            match f0 {
                                TokenFilter::KeepWords { words: w0 } => {},
                                _ => {},
                            }
                        }
                    }
                }
                Err(
                    LinderaError::new(
                        LinderaErrorKind::Config,
                        String::from_str("keep_words expects a 'words' list of strings"),
                    ),
                )
            },
        }
    } else if str_eq(kind, "stop_tags") {
        match read_words(args, "tags") {
            Some(tags) => Ok(TokenFilter::StopTags { tags }),
            None => {
                proof {
                    assert(!(exists|f: TokenFilter|
                        token_filter_matches_config(f, kind@, *args))) by {
                        if exists|f: TokenFilter| token_filter_matches_config(f, kind@, *args) {
                            let f0 = choose|f: TokenFilter|
                                token_filter_matches_config(f, kind@, *args);
                            match f0 {
                                TokenFilter::StopTags { tags: t0 } => {},
                                _ => {},
                            }
                        }
                    }
                }
                Err(
                    LinderaError::new(
                        LinderaErrorKind::Config,
                        String::from_str("stop_tags expects a 'tags' list of strings"),
                    ),
                )
            },
        }
    } else if str_eq(kind, "keep_tags") {
        match read_words(args, "tags") {
            Some(tags) => Ok(TokenFilter::KeepTags { tags }),
            None => {
                proof {
                    assert(!(exists|f: TokenFilter|
                        token_filter_matches_config(f, kind@, *args))) by {
                        if exists|f: TokenFilter| token_filter_matches_config(f, kind@, *args) {
                            let f0 = choose|f: TokenFilter|
                                token_filter_matches_config(f, kind@, *args);
                            match f0 {
                                TokenFilter::KeepTags { tags: t0 } => {},
                                _ => {},
                            }
                        }
                    }
                }
                Err(
                    LinderaError::new(
                        LinderaErrorKind::Config,
                        String::from_str("keep_tags expects a 'tags' list of strings"),
                    ),
                )
            },
        }
    } else if str_eq(kind, "base_form") {
        match read_index(args, "field") {
            Some(field) => Ok(TokenFilter::BaseForm { field }),
            None => {
                proof {
                    assert(!(exists|f: TokenFilter|
                        token_filter_matches_config(f, kind@, *args))) by {
                        if exists|f: TokenFilter| token_filter_matches_config(f, kind@, *args) {
                            let f0 = choose|f: TokenFilter|
                                token_filter_matches_config(f, kind@, *args);
                            match f0 {
                                TokenFilter::BaseForm { field: x0 } => {},
                                _ => {},
                            }
                        }
                    }
                }
                Err(
                    LinderaError::new(
                        LinderaErrorKind::Config,
                        String::from_str("base_form expects a non-negative 'field' index"),
                    ),
                )
            },
        }
    } else if str_eq(kind, "reading_form") {
        match read_index(args, "field") {
            Some(field) => Ok(TokenFilter::ReadingForm { field }),
            None => {
                proof {
                    assert(!(exists|f: TokenFilter|
                        token_filter_matches_config(f, kind@, *args))) by {
                        if exists|f: TokenFilter| token_filter_matches_config(f, kind@, *args) {
                            let f0 = choose|f: TokenFilter|
                                token_filter_matches_config(f, kind@, *args);
                            match f0 {
                                TokenFilter::ReadingForm { field: x0 } => {},
                                _ => {},
                            }
                        }
                    }
                }
                Err(
                    LinderaError::new(
                        LinderaErrorKind::Config,
                        String::from_str("reading_form expects a non-negative 'field' index"),
                    ),
                )
            },
        }
    } else if str_eq(kind, "compound_word") {
        let tags = read_words(args, "tags");
        let new_tag: Option<Option<String>> = match args.get("new_tag") {
            Some(v) => match v.as_str() {
                Some(s) => Some(Some(s.clone())),
                None => None,
            },
            None => Some(None),
        };
        match (tags, new_tag) {
            (Some(t), Some(nt)) => Ok(TokenFilter::CompoundWord { tags: t, new_tag: nt }),
            _ => {
                proof {
                    assert(!(exists|f: TokenFilter|
                        token_filter_matches_config(f, kind@, *args))) by {
                        if exists|f: TokenFilter| token_filter_matches_config(f, kind@, *args) {
                            let f0 = choose|f: TokenFilter|
                                token_filter_matches_config(f, kind@, *args);
                            match f0 {
                                TokenFilter::CompoundWord { tags: t0, new_tag: n0 } => {},
                                _ => {},
                            }
                        }
                    }
                }
                Err(
                    LinderaError::new(
                        LinderaErrorKind::Config,
                        String::from_str(
                            "compound_word expects a 'tags' list and an optional string 'new_tag'",
                        ),
                    ),
                )
            },
        }
    } else {
        proof {
            assert(!(exists|f: TokenFilter| token_filter_matches_config(f, kind@, *args))) by {
                if exists|f: TokenFilter| token_filter_matches_config(f, kind@, *args) {
                    let f0 = choose|f: TokenFilter| token_filter_matches_config(f, kind@, *args);
                    match f0 {
                        TokenFilter::Lowercase => {},
                        TokenFilter::Uppercase => {},
                        TokenFilter::Length { min: m0, max: x0 } => {},
                        TokenFilter::StopWords { words: w0 } => {},
                        TokenFilter::KeepWords { words: w0 } => {},
                        TokenFilter::StopTags { tags: t0 } => {},
                        TokenFilter::KeepTags { tags: t0 } => {},
                        TokenFilter::BaseForm { field: x0 } => {},
                        TokenFilter::ReadingForm { field: x0 } => {},
                        TokenFilter::CompoundWord { tags: t0, new_tag: n0 } => {},
                    }
                }
            }
        }
        Err(
            LinderaError::new(
                LinderaErrorKind::Config,
                String::from_str("unknown token filter kind"),
            ),
        )
    }
}

impl TokenFilter {
    /// Serializes this filter back to its configuration: the stage
    /// name and an argument set that describes exactly this filter,
    /// so that parsing it again yields an equivalent stage.  Bounds
    /// on numeric arguments come from the configuration model,
    /// which stores signed 64-bit integers.
    #[verifier::loop_isolation(false)]
    pub fn to_config(&self) -> (r: (String, ConfigValue))
        requires
            self matches TokenFilter::Length { min, max } ==> min <= 0x7fff_ffff_ffff_ffff && (max
                == usize::MAX || max <= 0x7fff_ffff_ffff_ffff),
            self matches TokenFilter::BaseForm { field } ==> field <= 0x7fff_ffff_ffff_ffff,
            self matches TokenFilter::ReadingForm { field } ==> field <= 0x7fff_ffff_ffff_ffff,
        ensures
            token_filter_matches_config(*self, r.0@, r.1),
    {
        proof {
            lemma_token_filter_names_distinct();
        }
        match self {
            TokenFilter::Lowercase => (String::from_str("lowercase"), ConfigValue::Obj(Vec::new())),
            TokenFilter::Uppercase => (String::from_str("uppercase"), ConfigValue::Obj(Vec::new())),
            TokenFilter::Length { min, max } => {
                let mut entries: Vec<(String, ConfigValue)> = Vec::new();
                entries.push((String::from_str("min"), ConfigValue::Int(*min as i64)));
                if *max != usize::MAX {
                    entries.push((String::from_str("max"), ConfigValue::Int(*max as i64)));
                }
                let args = ConfigValue::Obj(entries);
                proof {
                    reveal_with_fuel(ConfigValue::spec_find_from, 3);
                    reveal_strlit("min");
                    reveal_strlit("max");
                    assert("min"@.len() == 3);
                    assert("max"@.len() == 3);
                    assert("min"@[1] == 'i');
                    assert("max"@[1] == 'a');
                }
                (String::from_str("length"), args)
            },
            TokenFilter::StopWords { words } => (
                String::from_str("stop_words"),
                words_args(words, "words"),
            ),
            TokenFilter::KeepWords { words } => (
                String::from_str("keep_words"),
                words_args(words, "words"),
            ),
            TokenFilter::StopTags { tags } => (
                String::from_str("stop_tags"),
                words_args(tags, "tags"),
            ),
            TokenFilter::KeepTags { tags } => (
                String::from_str("keep_tags"),
                words_args(tags, "tags"),
            ),
            TokenFilter::BaseForm { field } => {
                let mut entries: Vec<(String, ConfigValue)> = Vec::new();
                entries.push((String::from_str("field"), ConfigValue::Int(*field as i64)));
                (String::from_str("base_form"), ConfigValue::Obj(entries))
            },
            TokenFilter::ReadingForm { field } => {
                let mut entries: Vec<(String, ConfigValue)> = Vec::new();
                entries.push((String::from_str("field"), ConfigValue::Int(*field as i64)));
                (String::from_str("reading_form"), ConfigValue::Obj(entries))
            },
            TokenFilter::CompoundWord { tags, new_tag } => {
                let mut items: Vec<ConfigValue> = Vec::new();
                let n = tags.len();
                let mut j: usize = 0;
                while j < n
                    invariant
                        j <= n,
                        items@.len() == j,
                        forall|k: int|
                            0 <= k < j ==> ((#[trigger] items@[k]) matches ConfigValue::Str(s)
                                && s@ == tags@[k]@),
                    decreases n - j,
                {
                    items.push(ConfigValue::Str(tags[j].clone()));
                    j = j + 1;
                }
                let mut entries: Vec<(String, ConfigValue)> = Vec::new();
                entries.push((String::from_str("tags"), ConfigValue::Arr(items)));
                match new_tag {
                    Some(t) => {
                        entries.push((String::from_str("new_tag"), ConfigValue::Str(t.clone())));
                    },
                    None => {},
                }
                let args = ConfigValue::Obj(entries);
                proof {
                    reveal_with_fuel(ConfigValue::spec_find_from, 3);
                    reveal_strlit("tags");
                    reveal_strlit("new_tag");
                    assert("tags"@.len() == 4);
                    assert("new_tag"@.len() == 7);
                }
                (String::from_str("compound_word"), args)
            },
        }
    }
}

/// Packs a string table as the single-key argument set a dropping
/// filter uses.
#[verifier::loop_isolation(false)]
fn words_args(words: &Vec<String>, key: &str) -> (r: ConfigValue)
    ensures
        r.spec_get(key@) matches Some(ConfigValue::Arr(items)) && words_match_config(
            words@,
            items@,
        ),
{
    let mut items: Vec<ConfigValue> = Vec::new();
    let n = words.len();
    let mut j: usize = 0;
    while j < n
        invariant
            j <= n,
            items@.len() == j,
            forall|k: int|
                0 <= k < j ==> ((#[trigger] items@[k]) matches ConfigValue::Str(s) && s@
                    == words@[k]@),
        decreases n - j,
    {
        items.push(ConfigValue::Str(words[j].clone()));
        j = j + 1;
    }
    let mut entries: Vec<(String, ConfigValue)> = Vec::new();
    entries.push((String::from_str(key), ConfigValue::Arr(items)));
    ConfigValue::Obj(entries)
}

/// Along an adjacent chain of non-empty spans, ends never move
/// backward.
proof fn lemma_chain_mono(toks: Seq<TokenView>, a: int, b: int)
    requires
        forall|t: int|
            0 <= t < toks.len() ==> (#[trigger] toks[t]).byte_start < toks[t].byte_end,
        forall|t: int|
            0 <= t < toks.len() - 1 ==> (#[trigger] toks[t]).byte_end == toks[t + 1].byte_start,
        0 <= a <= b < toks.len(),
    ensures
        toks[a].byte_end <= toks[b].byte_end,
    decreases b - a,
{
    if a < b {
        lemma_chain_mono(toks, a + 1, b);
        assert(toks[a].byte_end == toks[a + 1].byte_start);
    }
}

/// Compounding preserves the coverage invariant: when the input
/// spans partition a byte range — every token non-empty, each one
/// ending exactly where the next starts — the merged tokens'
/// spans partition the same range, from the first token's start to
/// the last token's end.  Renumbering afterwards touches positions
/// only, so the filter's full output keeps this shape.
pub proof fn lemma_compound_preserves_coverage(
    tags: Seq<Seq<char>>,
    new_tag: Option<Seq<char>>,
    toks: Seq<TokenView>,
    i: int,
)
    requires
        0 <= i < toks.len(),
        forall|t: int|
            0 <= t < toks.len() ==> (#[trigger] toks[t]).byte_start < toks[t].byte_end,
        forall|t: int|
            0 <= t < toks.len() - 1 ==> (#[trigger] toks[t]).byte_end == toks[t + 1].byte_start,
    ensures
        ({
            let out = spec_compound(tags, new_tag, toks, i);
            &&& out.len() >= 1
            &&& out[0].byte_start == toks[i].byte_start
            &&& out[out.len() - 1].byte_end == toks[toks.len() - 1].byte_end
            &&& forall|t: int|
                0 <= t < out.len() ==> (#[trigger] out[t]).byte_start < out[t].byte_end
            &&& forall|t: int|
                0 <= t < out.len() - 1 ==> (#[trigger] out[t]).byte_end == out[t + 1].byte_start
        }),
    decreases toks.len() - i,
{
    let out = spec_compound(tags, new_tag, toks, i);
    if tag_matches(tags, toks[i]) {
        let j = spec_run_end(tags, toks, i + 1);
        let j2 = if j <= i {
            i + 1
        } else if j > toks.len() {
            toks.len() as int
        } else {
            j
        };
        lemma_run_end_range(tags, toks, i + 1);
        let merged = spec_merged(new_tag, toks, i, j2);
        assert(out == seq![merged] + spec_compound(tags, new_tag, toks, j2));
        lemma_chain_mono(toks, i, j2 - 1);
        assert(merged.byte_start < merged.byte_end);
        if j2 < toks.len() {
            lemma_compound_preserves_coverage(tags, new_tag, toks, j2);
            let rest = spec_compound(tags, new_tag, toks, j2);
            assert(merged.byte_end == toks[j2 - 1].byte_end);
            assert(toks[j2 - 1].byte_end == toks[j2].byte_start);
            assert(rest[0].byte_start == toks[j2].byte_start);
            assert forall|t: int| 0 <= t < out.len() implies (#[trigger] out[t]).byte_start
                < out[t].byte_end by {
                if t == 0 {
                } else {
                    assert(out[t] == rest[t - 1]);
                }
            }
            assert forall|t: int| 0 <= t < out.len() - 1 implies (#[trigger] out[t]).byte_end
                == out[t + 1].byte_start by {
                if t == 0 {
                    assert(out[1] == rest[0]);
                } else {
                    assert(out[t] == rest[t - 1]);
                    assert(out[t + 1] == rest[t]);
                }
            }
            assert(out[out.len() - 1] == rest[rest.len() - 1]);
        } else {
            assert(spec_compound(tags, new_tag, toks, j2) =~= Seq::<TokenView>::empty());
            assert(out =~= seq![merged]);
        }
    } else {
        assert(out == seq![toks[i]] + spec_compound(tags, new_tag, toks, i + 1));
        if i + 1 < toks.len() {
            lemma_compound_preserves_coverage(tags, new_tag, toks, i + 1);
            let rest = spec_compound(tags, new_tag, toks, i + 1);
            assert(toks[i].byte_end == toks[i + 1].byte_start);
            assert(rest[0].byte_start == toks[i + 1].byte_start);
            assert forall|t: int| 0 <= t < out.len() implies (#[trigger] out[t]).byte_start
                < out[t].byte_end by {
                if t > 0 {
                    assert(out[t] == rest[t - 1]);
                }
            }
            assert forall|t: int| 0 <= t < out.len() - 1 implies (#[trigger] out[t]).byte_end
                == out[t + 1].byte_start by {
                if t == 0 {
                    assert(out[1] == rest[0]);
                } else {
                    assert(out[t] == rest[t - 1]);
                    assert(out[t + 1] == rest[t]);
                }
            }
            assert(out[out.len() - 1] == rest[rest.len() - 1]);
        } else {
            assert(spec_compound(tags, new_tag, toks, i + 1) =~= Seq::<TokenView>::empty());
            assert(out =~= seq![toks[i]]);
        }
    }
}

/// A run end lies between its start and the token count.
proof fn lemma_run_end_range(tags: Seq<Seq<char>>, toks: Seq<TokenView>, s: int)
    requires
        0 <= s <= toks.len(),
    ensures
        s <= spec_run_end(tags, toks, s) <= toks.len(),
    decreases toks.len() - s,
{
    if s < toks.len() && tag_matches(tags, toks[s]) {
        lemma_run_end_range(tags, toks, s + 1);
    }
}

} // verus!
