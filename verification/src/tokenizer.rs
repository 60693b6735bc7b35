//! The tokenizer: the character filter pipeline, the segmenter and
//! the token filter pipeline, composed; and its declarative
//! configuration.
//!
//! Character filters run in configured order over the text; the
//! accumulated offset map sends every boundary of the filtered text
//! back to the original, so emitted tokens carry byte offsets into
//! the original text.  Token filters then run in configured order
//! over the token sequence.

use vstd::prelude::*;

verus! {

use crate::char_filter::CharacterFilter;
use crate::config::ConfigValue;
use crate::dictionary::{ConnectionMatrix, Dictionary, UserDictionary, WordEntry};
use crate::error::{LinderaError, LinderaErrorKind};
use crate::lattice::{LatticeNode, NodeSource, build_lattice, node_wf, spec_lattice, spec_uents};
use crate::mode::Mode;
use crate::offsets::OffsetMap;
use crate::search::{idxs_view, run_search, spec_best_path};
use crate::segmenter::{
    Segmenter, byte_offsets, lemma_path_nodes_wf, lemma_search_pre, spec_segmentation,
};
use crate::text::{byte_offset, str_eq, to_chars};
use crate::token::{Token, TokenView, tokens_view};
use crate::token_filter::TokenFilter;

/// The text after the first `k` character filters ran, in order.
pub open spec fn spec_chain_output(
    filters: Seq<CharacterFilter>,
    text: Seq<char>,
    k: int,
) -> Seq<char>
    decreases k,
{
    if k <= 0 {
        text
    } else {
        filters[k - 1].spec_output(spec_chain_output(filters, text, k - 1))
    }
}

/// The token sequence after the first `k` token filters ran, in
/// order.
pub open spec fn spec_filter_chain(
    filters: Seq<TokenFilter>,
    toks: Seq<TokenView>,
    k: int,
) -> Seq<TokenView>
    decreases k,
{
    if k <= 0 {
        toks
    } else {
        crate::token_filter::spec_token_filter_output(
            filters[k - 1],
            spec_filter_chain(filters, toks, k - 1),
        )
    }
}

/// The token a path node becomes when its span is translated back
/// to the original text through the boundary table `bnds`.
pub open spec fn spec_mapped_token_of(
    fchars: Seq<char>,
    orig: Seq<char>,
    bnds: Seq<int>,
    ments: Seq<WordEntry>,
    uents: Seq<WordEntry>,
    nd: LatticeNode,
    t: int,
) -> TokenView {
    TokenView {
        text: fchars.subrange(nd.start as int, nd.end as int),
        byte_start: byte_offset(orig, bnds[nd.start as int]),
        byte_end: byte_offset(orig, bnds[nd.end as int]),
        position: t,
        position_length: 1,
        details: match nd.source {
            NodeSource::User(k) => uents[k as int].details.deep_view(),
            NodeSource::Main(k) => ments[k as int].details.deep_view(),
            NodeSource::Unknown => seq!["UNK"@],
        },
    }
}

/// The tokens of the best segmentation of the filtered text, with
/// spans translated through the boundary table `bnds` to byte
/// offsets of the original text.
pub open spec fn spec_mapped_segment_tokens(
    ments: Seq<WordEntry>,
    uents: Seq<WordEntry>,
    fchars: Seq<char>,
    orig: Seq<char>,
    bnds: Seq<int>,
    mode: Mode,
    mat: ConnectionMatrix,
) -> Seq<TokenView> {
    let segs = spec_segmentation(ments, uents, fchars, mode, mat);
    Seq::new(
        segs.len(),
        |t: int| spec_mapped_token_of(fchars, orig, bnds, ments, uents, segs[t], t),
    )
}

/// The accumulated offset map of the first `k` character filters:
/// each stage's boundary table, composed toward the original text.
pub open spec fn spec_chain_map(filters: Seq<CharacterFilter>, text: Seq<char>, k: int) -> Seq<
    int,
>
    decreases k,
{
    if k <= 0 {
        Seq::new(text.len() + 1, |j: int| j)
    } else {
        let prev = spec_chain_map(filters, text, k - 1);
        let cur = filters[k - 1].spec_map(spec_chain_output(filters, text, k - 1));
        Seq::new(cur.len(), |j: int| prev[cur[j]])
    }
}

/// The whole pipeline, as one function of the tokenizer's parts
/// and the text: what `Tokenizer::tokenize` returns on success.
pub open spec fn spec_tokenize_tokens(
    cfilters: Seq<CharacterFilter>,
    tfilters: Seq<TokenFilter>,
    ments: Seq<WordEntry>,
    uents: Seq<WordEntry>,
    text: Seq<char>,
    mode: Mode,
    mat: ConnectionMatrix,
) -> Seq<TokenView> {
    let ftext = spec_chain_output(cfilters, text, cfilters.len() as int);
    let bnds = spec_chain_map(cfilters, text, cfilters.len() as int);
    spec_filter_chain(
        tfilters,
        spec_mapped_segment_tokens(ments, uents, ftext, text, bnds, mode, mat),
        tfilters.len() as int,
    )
}

/// True when a compound stage of the token-filter chain would meet
/// a merged position length that the machine's size type cannot
/// hold: the one condition under which the pipeline fails on valid
/// configuration and encoding.
pub open spec fn spec_compound_overflow(
    cfilters: Seq<CharacterFilter>,
    tfilters: Seq<TokenFilter>,
    ments: Seq<WordEntry>,
    uents: Seq<WordEntry>,
    text: Seq<char>,
    mode: Mode,
    mat: ConnectionMatrix,
) -> bool {
    let ftext = spec_chain_output(cfilters, text, cfilters.len() as int);
    let bnds = spec_chain_map(cfilters, text, cfilters.len() as int);
    let base = spec_mapped_segment_tokens(ments, uents, ftext, text, bnds, mode, mat);
    exists|k: int|
        {
            &&& 0 <= k < tfilters.len()
            &&& (#[trigger] tfilters[k]) matches TokenFilter::CompoundWord { .. }
            &&& crate::token_filter::spec_sum_plen(
                spec_filter_chain(tfilters, base, k),
                0,
                spec_filter_chain(tfilters, base, k).len() as int,
            ) > usize::MAX
        }
}

/// Runs the character filter pipeline: each filter in order, the
/// offset maps composed so the result maps filtered boundaries all
/// the way back to the input.
#[verifier::loop_isolation(false)]
fn run_char_filters(filters: &Vec<CharacterFilter>, input: Vec<char>) -> (r: Result<
    (Vec<char>, OffsetMap),
    LinderaError,
>)
    requires
        input@.len() < usize::MAX,
    ensures
        match r {
            Ok(p) => {
                &&& p.0@ == spec_chain_output(filters@, input@, filters@.len() as int)
                &&& p.1.bnds() == spec_chain_map(filters@, input@, filters@.len() as int)
                &&& p.1.wf(p.0@.len() as int, input@.len() as int)
            },
            Err(e) => e.kind == LinderaErrorKind::Config && exists|k: int|
                0 <= k < filters@.len() && !(#[trigger] filters@[k]).wf(),
        },
{
    let ghost cfv = filters@;
    let ghost orig = input@;
    let orig_len = input.len();
    let mut cur = input;
    let mut map = OffsetMap::identity(orig_len);
    proof {
        assert(map.bnds() =~= spec_chain_map(cfv, orig, 0));
    }
    let n = filters.len();
    let mut k: usize = 0;
    while k < n
        invariant
            k <= n,
            cur@ == spec_chain_output(cfv, orig, k as int),
            map.bnds() == spec_chain_map(cfv, orig, k as int),
            map.wf(cur@.len() as int, orig.len() as int),
        decreases n - k,
    {
        let cur_len = cur.len();
        let blen = map.boundaries.len();
        proof {
            assert(blen == cur@.len() + 1);
            assert(cur@.len() < usize::MAX);
        }
        let f = &filters[k];
        match f.apply(&cur) {
            Ok((out, m2)) => {
                let out_blen = m2.boundaries.len();
                proof {
                    assert(out_blen == out@.len() + 1);
                    assert(out@.len() < usize::MAX);
                }
                let out_len = out.len();
                let composed = OffsetMap::compose(&map, &m2, cur_len, out_len, orig_len);
                proof {
                    let prev = spec_chain_map(cfv, orig, k as int);
                    let curm = cfv[k as int].spec_map(spec_chain_output(cfv, orig, k as int));
                    assert(m2.bnds() == curm);
                    assert forall|j: int| 0 <= j <= out@.len() implies #[trigger] composed.bnds()[j]
                        == Seq::new(curm.len(), |j2: int| prev[curm[j2]])[j] by {
                        assert(composed.spec_at(j) == map.spec_at(m2.spec_at(j)));
                        assert(m2.bnds()[j] == m2.spec_at(j));
                        assert(prev[m2.spec_at(j)] == map.spec_at(m2.spec_at(j)));
                    }
                    assert(composed.bnds() =~= spec_chain_map(cfv, orig, k + 1));
                }
                map = composed;
                cur = out;
            },
            Err(e) => {
                proof {
                    assert(!cfv[k as int].wf());
                }
                return Err(e);
            },
        }
        k = k + 1;
    }
    Ok((cur, map))
}

/// Builds the output tokens of a path over the filtered text,
/// translating each span through the offset map to byte offsets of
/// the original text.
#[verifier::loop_isolation(false)]
fn assemble_mapped_tokens(
    fchars: &[char],
    map: &OffsetMap,
    offsets: &Vec<usize>,
    Ghost(orig): Ghost<Seq<char>>,
    nodes: &Vec<LatticeNode>,
    path: &Vec<usize>,
    dictionary: &Dictionary,
    user_dictionary: &Option<UserDictionary>,
) -> (tokens: Vec<Token>)
    requires
        map.wf(fchars@.len() as int, orig.len() as int),
        offsets@.len() == orig.len() + 1,
        forall|i: int| 0 <= i <= orig.len() ==> (#[trigger] offsets@[i] as int) == byte_offset(orig, i),
        forall|j: int| 0 <= j < path@.len() ==> (#[trigger] path@[j] as int) < nodes@.len(),
        forall|j: int|
            0 <= j < path@.len() ==> node_wf(
                nodes@[#[trigger] path@[j] as int],
                dictionary.entries@,
                spec_uents(*user_dictionary),
                fchars@,
                dictionary.matrix.num_right as int,
                dictionary.matrix.num_left as int,
            ),
    ensures
        tokens_view(tokens@) == Seq::new(
            path@.len(),
            |t: int|
                spec_mapped_token_of(
                    fchars@,
                    orig,
                    map.bnds(),
                    dictionary.entries@,
                    spec_uents(*user_dictionary),
                    nodes@[path@[t] as int],
                    t,
                ),
        ),
{
    let ghost ments = dictionary.entries@;
    let ghost uents = spec_uents(*user_dictionary);
    let m = path.len();
    let mut tokens: Vec<Token> = Vec::new();
    let mut t: usize = 0;
    while t < m
        invariant
            t <= m,
            tokens_view(tokens@) == Seq::new(
                t as nat,
                |j: int|
                    spec_mapped_token_of(
                        fchars@,
                        orig,
                        map.bnds(),
                        ments,
                        uents,
                        nodes@[path@[j] as int],
                        j,
                    ),
            ),
        decreases m - t,
    {
        let k = path[t];
        let nd = nodes[k];
        proof {
            assert(node_wf(nd, ments, uents, fchars@, dictionary.matrix.num_right as int,
            dictionary.matrix.num_left as int));
        }
        let surface = crate::text::chars_range_to_string(fchars, nd.start, nd.end);
        let start_b = map.at(nd.start);
        let end_b = map.at(nd.end);
        let details: Vec<String> = match nd.source {
            NodeSource::User(e) => match user_dictionary {
                Some(u) => u.entries[e].details.clone(),
                None => {
                    proof {
                        assert(false);
                    }
                    Vec::new()
                },
            },
            NodeSource::Main(e) => dictionary.entries[e].details.clone(),
            NodeSource::Unknown => {
                let mut d: Vec<String> = Vec::new();
                d.push(String::from_str("UNK"));
                d
            },
        };
        let token = Token::new(surface, offsets[start_b], offsets[end_b], t, 1, details);
        proof {
            assert(details.deep_view() =~= spec_mapped_token_of(
                fchars@,
                orig,
                map.bnds(),
                ments,
                uents,
                nodes@[path@[t as int] as int],
                t as int,
            ).details);
            assert(token@ == spec_mapped_token_of(
                fchars@,
                orig,
                map.bnds(),
                ments,
                uents,
                nodes@[path@[t as int] as int],
                t as int,
            ));
        }
        let ghost old_tokens = tokens@;
        tokens.push(token);
        proof {
            let f = |j: int|
                spec_mapped_token_of(
                    fchars@,
                    orig,
                    map.bnds(),
                    ments,
                    uents,
                    nodes@[path@[j] as int],
                    j,
                );
            assert forall|j: int| 0 <= j < t + 1 implies tokens_view(tokens@)[j] == Seq::new(
                (t + 1) as nat,
                f,
            )[j] by {
                if j < t {
                    assert(tokens@[j] == old_tokens[j]);
                    assert(tokens_view(old_tokens)[j] == f(j));
                } else {
                    assert(tokens@[j] == token);
                }
            }
            assert(tokens_view(tokens@) =~= Seq::new((t + 1) as nat, f));
        }
        t = t + 1;
    }
    tokens
}

/// The whole analysis pipeline as one component.
#[derive(Clone, Debug)]
pub struct Tokenizer {
    pub character_filters: Vec<CharacterFilter>,
    pub segmenter: Segmenter,
    pub token_filters: Vec<TokenFilter>,
}

impl Tokenizer {
    /// Wraps a segmenter with empty filter pipelines.
    pub fn new(segmenter: Segmenter) -> (r: Tokenizer)
        ensures
            r.segmenter == segmenter,
            r.character_filters@.len() == 0,
            r.token_filters@.len() == 0,
    {
        Tokenizer { character_filters: Vec::new(), segmenter, token_filters: Vec::new() }
    }

    /// Runs the pipeline: character filters, segmentation, token
    /// filters.
    ///
    /// On success the tokens are exactly `spec_tokenize_tokens` of
    /// the tokenizer's parts and the text — one function of them,
    /// so two calls on equal parts agree.  Failure happens exactly
    /// in three cases, each named in the error clause: a dictionary
    /// whose declared encoding is not UTF-8, a merged position
    /// length that the machine cannot hold (both `Segmentation`),
    /// or a character filter whose configuration is not well-formed
    /// (`Config`).
    #[verifier::loop_isolation(false)]
    #[verifier::rlimit(100)]
    pub fn tokenize(&self, text: &str) -> (r: Result<Vec<Token>, LinderaError>)
        requires
            self.segmenter.wf(),
        ensures
            match r {
                Ok(tokens) => {
                    &&& self.segmenter.dictionary.metadata.encoding@ == "UTF-8"@
                    &&& tokens_view(tokens@) == spec_tokenize_tokens(
                        self.character_filters@,
                        self.token_filters@,
                        self.segmenter.dictionary.entries@,
                        spec_uents(self.segmenter.user_dictionary),
                        text@,
                        self.segmenter.mode,
                        self.segmenter.dictionary.matrix,
                    )
                },
                Err(e) => {
                    ||| (e.kind == LinderaErrorKind::Segmentation
                        && self.segmenter.dictionary.metadata.encoding@ != "UTF-8"@)
                    ||| (e.kind == LinderaErrorKind::Config && exists|k: int|
                        0 <= k < self.character_filters@.len() && !(
                        #[trigger] self.character_filters@[k]).wf())
                    ||| (e.kind == LinderaErrorKind::Segmentation && spec_compound_overflow(
                        self.character_filters@,
                        self.token_filters@,
                        self.segmenter.dictionary.entries@,
                        spec_uents(self.segmenter.user_dictionary),
                        text@,
                        self.segmenter.mode,
                        self.segmenter.dictionary.matrix,
                    ))
                },
            },
    {
        if !str_eq(self.segmenter.dictionary.metadata.encoding.as_str(), "UTF-8") {
            return Err(
                LinderaError::new(
                    LinderaErrorKind::Segmentation,
                    String::from_str("dictionary/text encoding mismatch: expected UTF-8"),
                ),
            );
        }
        let ghost cfv = self.character_filters@;
        let ghost tfv = self.token_filters@;
        let ghost ments = self.segmenter.dictionary.entries@;
        let ghost uents = spec_uents(self.segmenter.user_dictionary);
        let ghost mat = self.segmenter.dictionary.matrix;
        let byte_len = text.as_bytes().len();
        let orig = to_chars(text);
        proof {
            crate::text::lemma_byte_offset_is_utf8_len(text@, text@.len() as int);
            assert(text@.take(text@.len() as int) =~= text@);
            assert(byte_len as int == byte_offset(orig@, orig@.len() as int));
        }
        let offsets = byte_offsets(orig.as_slice(), byte_len);
        let olen = offsets.len();
        proof {
            assert(olen == orig@.len() + 1);
            assert(orig@.len() < usize::MAX);
        }
        let main_entry_count = self.segmenter.dictionary.entries.len();
        let user_entry_count = match &self.segmenter.user_dictionary {
            Some(u) => u.entries.len(),
            None => 0,
        };
        proof {
            assert(ments.len() == main_entry_count);
            assert(uents.len() == user_entry_count);
        }
        let (fchars, map) = match run_char_filters(&self.character_filters, orig) {
            Ok(p) => p,
            Err(e) => {
                return Err(e);
            },
        };
        let ghost ftext = fchars@;
        let n = fchars.len();
        proof {
            assert(ftext.len() == n);
        }
        let nodes = build_lattice(
            &self.segmenter.dictionary.entries,
            &self.segmenter.user_dictionary,
            fchars.as_slice(),
            &self.segmenter.mode,
        );
        proof {
            lemma_search_pre(
                ments,
                uents,
                ftext,
                self.segmenter.mode,
                mat.num_right as int,
                mat.num_left as int,
            );
        }
        let path = run_search(&nodes, &self.segmenter.dictionary.matrix, n);
        proof {
            lemma_path_nodes_wf(ments, uents, ftext, self.segmenter.mode, mat);
            assert(idxs_view(path@) == spec_best_path(nodes@, mat, n as int));
            assert forall|j: int| 0 <= j < path@.len() implies (#[trigger] path@[j] as int)
                < nodes@.len() && node_wf(
                nodes@[path@[j] as int],
                ments,
                uents,
                ftext,
                mat.num_right as int,
                mat.num_left as int,
            ) by {
                assert(idxs_view(path@)[j] == path@[j] as int);
            }
        }
        let base = assemble_mapped_tokens(
            fchars.as_slice(),
            &map,
            &offsets,
            Ghost(text@),
            &nodes,
            &path,
            &self.segmenter.dictionary,
            &self.segmenter.user_dictionary,
        );
        let ghost base_view = tokens_view(base@);
        let ghost bnds = spec_chain_map(cfv, text@, cfv.len() as int);
        proof {
            let segs = spec_segmentation(ments, uents, ftext, self.segmenter.mode, mat);
            assert(segs =~= idxs_view(path@).map_values(|k: int| nodes@[k]));
            assert(map.bnds() == bnds);
            assert forall|t: int| 0 <= t < path@.len() implies base_view[t]
                == spec_mapped_segment_tokens(
                ments,
                uents,
                ftext,
                text@,
                bnds,
                self.segmenter.mode,
                mat,
            )[t] by {
                assert(segs[t] == nodes@[idxs_view(path@)[t]]);
            }
            assert(base_view =~= spec_mapped_segment_tokens(
                ments,
                uents,
                ftext,
                text@,
                bnds,
                self.segmenter.mode,
                mat,
            ));
        }
        let nf = self.token_filters.len();
        let mut toks = base;
        let mut t: usize = 0;
        while t < nf
            invariant
                t <= nf,
                tokens_view(toks@) == spec_filter_chain(self.token_filters@, base_view, t as int),
            decreases nf - t,
        {
            match self.token_filters[t].apply(&toks) {
                Ok(o) => {
                    toks = o;
                },
                Err(e) => {
                    proof {
                        assert(tfv[t as int] matches
                            crate::token_filter::TokenFilter::CompoundWord { .. });
                        assert(spec_compound_overflow(
                            cfv,
                            tfv,
                            ments,
                            uents,
                            text@,
                            self.segmenter.mode,
                            mat,
                        ));
                    }
                    return Err(e);
                },
            }
            t = t + 1;
        }
        proof {
            assert(tokens_view(toks@) =~= spec_tokenize_tokens(
                cfv,
                tfv,
                ments,
                uents,
                text@,
                self.segmenter.mode,
                mat,
            ));
        }
        Ok(toks)
    }
}

/// Decides whether `suffix` ends `s`.
#[verifier::loop_isolation(false)]
pub fn str_ends_with(s: &str, suffix: &str) -> (r: bool)
    ensures
        r == suffix@.is_suffix_of(s@),
{
    let n = s.unicode_len();
    let m = suffix.unicode_len();
    if m > n {
        return false;
    }
    let mut i: usize = 0;
    while i < m
        invariant
            n == s@.len(),
            m == suffix@.len(),
            m <= n,
            i <= m,
            forall|k: int| 0 <= k < i ==> suffix@[k] == s@[n - m + k],
        decreases m - i,
    {
        if suffix.get_char(i) != s.get_char(n - m + i) {
            assert(!suffix@.is_suffix_of(s@)) by {
                if suffix@.is_suffix_of(s@) {
                    assert(suffix@[i as int] == s@.subrange(
                        s@.len() - suffix@.len(),
                        s@.len() as int,
                    )[i as int]);
                }
            }
            return false;
        }
        i = i + 1;
    }
    assert(suffix@ =~= s@.subrange(s@.len() - suffix@.len(), s@.len() as int));
    true
}

/// The dictionary source of a segmenter configuration: exactly one
/// of a built-in kind or a path must be set.  Anything else is a
/// configuration error, raised before any text is processed.
pub fn validate_dictionary_source(kind: &Option<String>, path: &Option<String>) -> (r: Result<
    (),
    LinderaError,
>)
    ensures
        r is Ok <==> ((kind is Some) != (path is Some)),
        r matches Err(e) ==> e.kind == LinderaErrorKind::Config,
{
    match (kind, path) {
        (Some(_), None) => Ok(()),
        (None, Some(_)) => Ok(()),
        (Some(_), Some(_)) => Err(
            LinderaError::new(
                LinderaErrorKind::Config,
                String::from_str("dictionary kind and path are mutually exclusive"),
            ),
        ),
        (None, None) => Err(
            LinderaError::new(
                LinderaErrorKind::Config,
                String::from_str("either a dictionary kind or a dictionary path must be set"),
            ),
        ),
    }
}

/// The user dictionary source: a precompiled `.bin` file is
/// self-describing, so supplying a dictionary kind alongside it is
/// a configuration error.
pub fn validate_user_dictionary_source(path: &Option<String>, kind: &Option<String>) -> (r: Result<
    (),
    LinderaError,
>)
    ensures
        r is Ok <==> !(path matches Some(p) && ".bin"@.is_suffix_of(p@) && kind is Some),
        r matches Err(e) ==> e.kind == LinderaErrorKind::Config,
{
    match (path, kind) {
        (Some(p), Some(_)) => {
            if str_ends_with(p.as_str(), ".bin") {
                Err(
                    LinderaError::new(
                        LinderaErrorKind::Config,
                        String::from_str(
                            "a binary user dictionary is self-describing: do not set a kind",
                        ),
                    ),
                )
            } else {
                Ok(())
            }
        },
        _ => Ok(()),
    }
}

/// Builds a tokenizer step by step: mode, dictionaries, and the
/// two filter pipelines, each filter checked as it is appended.
#[derive(Debug)]
pub struct TokenizerBuilder {
    pub mode: Mode,
    pub dictionary: Option<Dictionary>,
    pub user_dictionary: Option<UserDictionary>,
    pub character_filters: Vec<CharacterFilter>,
    pub token_filters: Vec<TokenFilter>,
}

impl TokenizerBuilder {
    /// A fresh builder: normal mode, no dictionaries, no filters.
    pub fn new() -> (r: TokenizerBuilder)
        ensures
            r.mode == Mode::Normal,
            r.dictionary is None,
            r.user_dictionary is None,
            r.character_filters@.len() == 0,
            r.token_filters@.len() == 0,
    {
        TokenizerBuilder {
            mode: Mode::Normal,
            dictionary: None,
            user_dictionary: None,
            character_filters: Vec::new(),
            token_filters: Vec::new(),
        }
    }

    /// Sets the segmentation mode from its configuration name:
    /// succeeds exactly on the accepted names, an unknown name is a
    /// configuration error and leaves the builder as it was.
    pub fn set_mode(&mut self, mode: &str) -> (r: Result<(), LinderaError>)
        ensures
            r is Ok <==> crate::mode::spec_mode_name_ok(mode@),
            match r {
                Ok(_) => {
                    &&& (mode@ == "normal"@ || mode@ == "Normal"@ ==> final(self).mode
                        == Mode::Normal)
                    &&& (mode@ == "decompose"@ || mode@ == "Decompose"@ ==> final(self).mode
                        == Mode::Decompose(crate::mode::Penalty::spec_default()))
                    &&& (final(self).mode == Mode::Normal || final(self).mode == Mode::Decompose(
                        crate::mode::Penalty::spec_default(),
                    ))
                    &&& *final(self) == (TokenizerBuilder { mode: final(self).mode, ..*old(self) })
                },
                Err(e) => {
                    &&& e.kind == LinderaErrorKind::Config
                    &&& *final(self) == *old(self)
                },
            },
    {
        match crate::mode::parse_mode(mode) {
            Ok(m) => {
                self.mode = m;
                Ok(())
            },
            Err(e) => Err(e),
        }
    }

    /// Sets the dictionary.
    pub fn set_dictionary(&mut self, dictionary: Dictionary)
        ensures
            *final(self) == (TokenizerBuilder {
                dictionary: Some(dictionary),
                ..*old(self)
            }),
    {
        self.dictionary = Some(dictionary);
    }

    /// Sets the user dictionary overlay.
    pub fn set_user_dictionary(&mut self, user_dictionary: UserDictionary)
        ensures
            *final(self) == (TokenizerBuilder {
                user_dictionary: Some(user_dictionary),
                ..*old(self)
            }),
    {
        self.user_dictionary = Some(user_dictionary);
    }

    /// Appends a character filter from its configuration; an
    /// unknown name or bad arguments are rejected here.
    pub fn append_character_filter(&mut self, kind: &str, args: &ConfigValue) -> (r: Result<
        (),
        LinderaError,
    >)
        ensures
            match r {
                Ok(_) => {
                    &&& final(self).character_filters@.len() == old(self).character_filters@.len()
                        + 1
                    &&& final(self).character_filters@.last().wf()
                    &&& crate::char_filter::char_filter_matches_config(
                        final(self).character_filters@.last(),
                        kind@,
                        *args,
                    )
                    &&& final(self).character_filters@.take(
                        old(self).character_filters@.len() as int,
                    ) == old(self).character_filters@
                    &&& final(self).mode == old(self).mode
                    &&& final(self).dictionary == old(self).dictionary
                    &&& final(self).user_dictionary == old(self).user_dictionary
                    &&& final(self).token_filters == old(self).token_filters
                },
                Err(e) => {
                    &&& e.kind == LinderaErrorKind::Config
                    &&& *final(self) == *old(self)
                    &&& !(exists|f: crate::char_filter::CharacterFilter|
                        crate::char_filter::char_filter_matches_config(f, kind@, *args) && f.wf())
                },
            },
    {
        match crate::char_filter::parse_character_filter(kind, args) {
            Ok(f) => {
                self.character_filters.push(f);
                proof {
                    assert(self.character_filters@.take(
                        old(self).character_filters@.len() as int,
                    ) =~= old(self).character_filters@);
                }
                Ok(())
            },
            Err(e) => Err(e),
        }
    }

    /// Appends a token filter from its configuration; an unknown
    /// name or bad arguments are rejected here.
    pub fn append_token_filter(&mut self, kind: &str, args: &ConfigValue) -> (r: Result<
        (),
        LinderaError,
    >)
        ensures
            match r {
                Ok(_) => {
                    &&& final(self).token_filters@.len() == old(self).token_filters@.len() + 1
                    &&& crate::token_filter::token_filter_matches_config(
                        final(self).token_filters@.last(),
                        kind@,
                        *args,
                    )
                    &&& final(self).token_filters@.take(old(self).token_filters@.len() as int)
                        == old(self).token_filters@
                    &&& final(self).mode == old(self).mode
                    &&& final(self).dictionary == old(self).dictionary
                    &&& final(self).user_dictionary == old(self).user_dictionary
                    &&& final(self).character_filters == old(self).character_filters
                },
                Err(e) => {
                    &&& e.kind == LinderaErrorKind::Config
                    &&& *final(self) == *old(self)
                    &&& !(exists|f: crate::token_filter::TokenFilter|
                        crate::token_filter::token_filter_matches_config(f, kind@, *args))
                },
            },
    {
        match crate::token_filter::parse_token_filter(kind, args) {
            Ok(f) => {
                self.token_filters.push(f);
                proof {
                    assert(self.token_filters@.take(old(self).token_filters@.len() as int)
                        =~= old(self).token_filters@);
                }
                Ok(())
            },
            Err(e) => Err(e),
        }
    }

    /// Builds the tokenizer: succeeds exactly when a dictionary was
    /// set, and then carries over every configured part.
    pub fn build(self) -> (r: Result<Tokenizer, LinderaError>)
        ensures
            match r {
                Ok(t) => {
                    &&& self.dictionary matches Some(d) && t.segmenter.dictionary == d
                    &&& t.segmenter.mode == self.mode
                    &&& t.segmenter.user_dictionary == self.user_dictionary
                    &&& t.character_filters == self.character_filters
                    &&& t.token_filters == self.token_filters
                },
                Err(e) => {
                    &&& e.kind == LinderaErrorKind::Config
                    &&& self.dictionary is None
                },
            },
    {
        match self.dictionary {
            Some(d) => {
                let segmenter = Segmenter::new(self.mode, d, self.user_dictionary);
                Ok(
                    Tokenizer {
                        character_filters: self.character_filters,
                        segmenter,
                        token_filters: self.token_filters,
                    },
                )
            },
            None => Err(
                LinderaError::new(
                    LinderaErrorKind::Config,
                    String::from_str("a tokenizer needs a dictionary"),
                ),
            ),
        }
    }
}

/// A tokenizer configuration, parsed and validated but not yet
/// bound to loaded dictionary data: the dictionary is still named
/// by kind or path, which only a host with file access can
/// resolve.
#[derive(Debug)]
pub struct TokenizerConfig {
    pub mode: Mode,
    pub dictionary_kind: Option<String>,
    pub dictionary_path: Option<String>,
    pub user_dictionary_path: Option<String>,
    pub user_dictionary_kind: Option<String>,
    pub character_filters: Vec<CharacterFilter>,
    pub token_filters: Vec<TokenFilter>,
}

/// The relation between an optional-string field of the parsed
/// configuration and the key of the object it came from.
pub open spec fn opt_str_matches(v: ConfigValue, key: Seq<char>, o: Option<String>) -> bool {
    match v.spec_get(key) {
        Some(ConfigValue::Str(s)) => o matches Some(os) && os@ == s@,
        None => o is None,
        _ => false,
    }
}

/// What a character filter parsed from a stage entry without an
/// argument set can be: only the stage whose arguments all
/// default.
pub open spec fn char_filter_matches_empty(
    f: crate::char_filter::CharacterFilter,
    kind: Seq<char>,
) -> bool {
    match f {
        crate::char_filter::CharacterFilter::JapaneseIterationMark {
            normalize_kanji,
            normalize_kana,
        } => kind == "japanese_iteration_mark"@ && normalize_kanji && normalize_kana,
        _ => false,
    }
}

/// What a token filter parsed from a stage entry without an
/// argument set can be: only the stages whose arguments all
/// default.
pub open spec fn token_filter_matches_empty(f: TokenFilter, kind: Seq<char>) -> bool {
    match f {
        TokenFilter::Lowercase => kind == "lowercase"@,
        TokenFilter::Uppercase => kind == "uppercase"@,
        TokenFilter::Length { min, max } => kind == "length"@ && min == 1 && max == usize::MAX,
        _ => false,
    }
}

/// The relation between a parsed character filter and the stage
/// entry it came from: the entry names its stage and the filter
/// matches the entry's arguments (or their defaults).
pub open spec fn char_filter_entry_matches(
    f: crate::char_filter::CharacterFilter,
    item: ConfigValue,
) -> bool {
    match item.spec_get("kind"@) {
        Some(ConfigValue::Str(ks)) => match item.spec_get("args"@) {
            Some(a) => crate::char_filter::char_filter_matches_config(f, ks@, a),
            None => char_filter_matches_empty(f, ks@),
        },
        _ => false,
    }
}

/// As `char_filter_entry_matches`, for token filter stages.
pub open spec fn token_filter_entry_matches(f: TokenFilter, item: ConfigValue) -> bool {
    match item.spec_get("kind"@) {
        Some(ConfigValue::Str(ks)) => match item.spec_get("args"@) {
            Some(a) => crate::token_filter::token_filter_matches_config(f, ks@, a),
            None => token_filter_matches_empty(f, ks@),
        },
        _ => false,
    }
}

/// A key that is a string or absent — the only shapes an optional
/// string field accepts.
pub open spec fn str_or_absent(v: ConfigValue, key: Seq<char>) -> bool {
    match v.spec_get(key) {
        Some(ConfigValue::Str(_)) => true,
        None => true,
        _ => false,
    }
}

/// A sound character filter stage entry: a stage name with
/// arguments some well-formed filter matches (or whose defaults
/// some filter matches, when the arguments are absent).
pub open spec fn char_filter_entry_ok(item: ConfigValue) -> bool {
    match item.spec_get("kind"@) {
        Some(ConfigValue::Str(ks)) => match item.spec_get("args"@) {
            Some(a) => exists|f: crate::char_filter::CharacterFilter|
                crate::char_filter::char_filter_matches_config(f, ks@, a) && f.wf(),
            None => exists|f: crate::char_filter::CharacterFilter|
                char_filter_matches_empty(f, ks@),
        },
        _ => false,
    }
}

/// A sound token filter stage entry.
pub open spec fn token_filter_entry_ok(item: ConfigValue) -> bool {
    match item.spec_get("kind"@) {
        Some(ConfigValue::Str(ks)) => match item.spec_get("args"@) {
            Some(a) => exists|f: TokenFilter|
                crate::token_filter::token_filter_matches_config(f, ks@, a),
            None => exists|f: TokenFilter| token_filter_matches_empty(f, ks@),
        },
        _ => false,
    }
}

/// A sound filter list: absent, or a list of sound stage entries.
pub open spec fn char_filter_list_ok(v: ConfigValue) -> bool {
    match v.spec_get("character_filters"@) {
        Some(ConfigValue::Arr(items)) => forall|i: int|
            0 <= i < items@.len() ==> char_filter_entry_ok(#[trigger] items@[i]),
        None => true,
        _ => false,
    }
}

/// As `char_filter_list_ok`, for token filter stages.
pub open spec fn token_filter_list_ok(v: ConfigValue) -> bool {
    match v.spec_get("token_filters"@) {
        Some(ConfigValue::Arr(items)) => forall|i: int|
            0 <= i < items@.len() ==> token_filter_entry_ok(#[trigger] items@[i]),
        None => true,
        _ => false,
    }
}

/// When a configuration value is a valid tokenizer description:
/// a segmenter section with a sound mode, exactly one dictionary
/// source, a sound user-dictionary choice, and sound filter lists.
/// `parse_tokenizer_config` succeeds exactly here.
pub open spec fn spec_config_ok(v: ConfigValue) -> bool {
    &&& match v.spec_get("segmenter"@) {
        Some(seg) => {
            &&& match seg.spec_get("mode"@) {
                Some(ConfigValue::Str(ms)) => crate::mode::spec_mode_name_ok(ms@),
                None => true,
                _ => false,
            }
            &&& match seg.spec_get("dictionary"@) {
                Some(d) => {
                    &&& str_or_absent(d, "kind"@)
                    &&& str_or_absent(d, "path"@)
                    &&& ((d.spec_get("kind"@) is Some) != (d.spec_get("path"@) is Some))
                },
                None => false,
            }
            &&& match seg.spec_get("user_dictionary"@) {
                Some(u) => {
                    &&& str_or_absent(u, "path"@)
                    &&& str_or_absent(u, "kind"@)
                    &&& !(u.spec_get("path"@) matches Some(ConfigValue::Str(p))
                        && ".bin"@.is_suffix_of(p@) && u.spec_get("kind"@) is Some)
                },
                None => true,
            }
        },
        None => false,
    }
    &&& char_filter_list_ok(v)
    &&& token_filter_list_ok(v)
}

/// The relation between a parsed configuration and the value it
/// was read from: every field corresponds to the input, stage for
/// stage, nothing dropped or reordered.
pub open spec fn config_matches_input(c: TokenizerConfig, v: ConfigValue) -> bool {
    &&& match v.spec_get("segmenter"@) {
        Some(seg) => {
            &&& match seg.spec_get("dictionary"@) {
                Some(dict) => opt_str_matches(dict, "kind"@, c.dictionary_kind)
                    && opt_str_matches(dict, "path"@, c.dictionary_path),
                None => false,
            }
            &&& match seg.spec_get("mode"@) {
                Some(ConfigValue::Str(ms)) => {
                    &&& crate::mode::spec_mode_name_ok(ms@)
                    &&& ((ms@ == "normal"@ || ms@ == "Normal"@) ==> c.mode == Mode::Normal)
                    &&& ((ms@ == "decompose"@ || ms@ == "Decompose"@) ==> c.mode
                        == Mode::Decompose(crate::mode::Penalty::spec_default()))
                },
                None => c.mode == Mode::Normal,
                _ => false,
            }
            &&& match seg.spec_get("user_dictionary"@) {
                Some(u) => opt_str_matches(u, "path"@, c.user_dictionary_path)
                    && opt_str_matches(u, "kind"@, c.user_dictionary_kind),
                None => c.user_dictionary_path is None && c.user_dictionary_kind is None,
            }
        },
        None => false,
    }
    &&& match v.spec_get("character_filters"@) {
        Some(ConfigValue::Arr(items)) => {
            &&& c.character_filters@.len() == items@.len()
            &&& forall|i: int|
                0 <= i < items@.len() ==> char_filter_entry_matches(
                    #[trigger] c.character_filters@[i],
                    items@[i],
                )
        },
        None => c.character_filters@.len() == 0,
        _ => false,
    }
    &&& match v.spec_get("token_filters"@) {
        Some(ConfigValue::Arr(items)) => {
            &&& c.token_filters@.len() == items@.len()
            &&& forall|i: int|
                0 <= i < items@.len() ==> token_filter_entry_matches(
                    #[trigger] c.token_filters@[i],
                    items@[i],
                )
        },
        None => c.token_filters@.len() == 0,
        _ => false,
    }
}

/// Reads an optional string key of an object.
fn opt_str(v: &ConfigValue, key: &str) -> (r: Result<Option<String>, LinderaError>)
    ensures
        match r {
            Ok(o) => match o {
                Some(s) => v.spec_get(key@) matches Some(ConfigValue::Str(t)) && t@ == s@,
                None => v.spec_get(key@) is None,
            },
            Err(e) => {
                &&& e.kind == LinderaErrorKind::Config
                &&& v.spec_get(key@) matches Some(w) && !(w matches ConfigValue::Str(_))
            },
        },
{
    match v.get(key) {
        Some(w) => match w.as_str() {
            Some(s) => Ok(Some(s.clone())),
            None => Err(
                LinderaError::new(
                    LinderaErrorKind::Config,
                    String::from_str("expected a string value"),
                ),
            ),
        },
        None => Ok(None),
    }
}

/// Reads a tokenizer configuration from a configuration value and
/// validates it: the segmenter section must name exactly one
/// dictionary source, a binary user dictionary must not carry a
/// kind, and every filter entry must be a known stage with sound
/// arguments.  All violations are configuration errors, raised
/// here before any text is processed; on success every field of
/// the result corresponds to the input, stage for stage.
#[verifier::loop_isolation(false)]
#[verifier::rlimit(60)]
pub fn parse_tokenizer_config(v: &ConfigValue) -> (r: Result<TokenizerConfig, LinderaError>)
    ensures
        r is Ok <==> spec_config_ok(*v),
        match r {
            Ok(c) => {
                &&& config_matches_input(c, *v)
                &&& ((c.dictionary_kind is Some) != (c.dictionary_path is Some))
                &&& !(c.user_dictionary_path matches Some(p) && ".bin"@.is_suffix_of(p@)
                    && c.user_dictionary_kind is Some)
                &&& forall|k: int|
                    0 <= k < c.character_filters@.len() ==> (
                    #[trigger] c.character_filters@[k]).wf()
            },
            Err(e) => e.kind == LinderaErrorKind::Config,
        },
        (match v.spec_get("segmenter"@) {
            Some(seg) => match seg.spec_get("dictionary"@) {
                Some(d) => (d.spec_get("kind"@) matches Some(ConfigValue::Str(_))) && (
                d.spec_get("path"@) matches Some(ConfigValue::Str(_))),
                None => false,
            },
            None => false,
        }) ==> r is Err,
        (match v.spec_get("segmenter"@) {
            Some(seg) => match seg.spec_get("user_dictionary"@) {
                Some(u) => (u.spec_get("path"@) matches Some(ConfigValue::Str(p))
                    && ".bin"@.is_suffix_of(p@)) && (u.spec_get("kind"@) matches Some(
                    ConfigValue::Str(_),
                )),
                None => false,
            },
            None => false,
        }) ==> r is Err,
{
    let seg = match v.get("segmenter") {
        Some(s) => s,
        None => {
            return Err(
                LinderaError::new(
                    LinderaErrorKind::Config,
                    String::from_str("missing 'segmenter' section"),
                ),
            );
        },
    };
    let mode = match seg.get("mode") {
        Some(m) => match m.as_str() {
            Some(s) => match crate::mode::parse_mode(s.as_str()) {
                Ok(md) => md,
                Err(e) => {
                    return Err(e);
                },
            },
            None => {
                return Err(
                    LinderaError::new(
                        LinderaErrorKind::Config,
                        String::from_str("'mode' must be a string"),
                    ),
                );
            },
        },
        None => Mode::Normal,
    };
    let dict = match seg.get("dictionary") {
        Some(d) => d,
        None => {
            return Err(
                LinderaError::new(
                    LinderaErrorKind::Config,
                    String::from_str("missing 'dictionary' section"),
                ),
            );
        },
    };
    let dictionary_kind = match opt_str(dict, "kind") {
        Ok(o) => o,
        Err(e) => {
            return Err(e);
        },
    };
    let dictionary_path = match opt_str(dict, "path") {
        Ok(o) => o,
        Err(e) => {
            return Err(e);
        },
    };
    match validate_dictionary_source(&dictionary_kind, &dictionary_path) {
        Ok(_) => {},
        Err(e) => {
            return Err(e);
        },
    }
    let (user_dictionary_path, user_dictionary_kind) = match seg.get("user_dictionary") {
        Some(u) => {
            let p = match opt_str(u, "path") {
                Ok(o) => o,
                Err(e) => {
                    return Err(e);
                },
            };
            let k = match opt_str(u, "kind") {
                Ok(o) => o,
                Err(e) => {
                    return Err(e);
                },
            };
            (p, k)
        },
        None => (None, None),
    };
    match validate_user_dictionary_source(&user_dictionary_path, &user_dictionary_kind) {
        Ok(_) => {},
        Err(e) => {
            return Err(e);
        },
    }
    let mut character_filters: Vec<CharacterFilter> = Vec::new();
    match v.get("character_filters") {
        Some(list) => match list {
            ConfigValue::Arr(items) => {
                let n = items.len();
                let mut i: usize = 0;
                while i < n
                    invariant
                        i <= n,
                        character_filters@.len() == i,
                        forall|j: int|
                            0 <= j < i ==> (#[trigger] character_filters@[j]).wf(),
                        forall|j: int|
                            0 <= j < i ==> char_filter_entry_matches(
                                #[trigger] character_filters@[j],
                                items@[j],
                            ),
                        forall|j: int| 0 <= j < i ==> char_filter_entry_ok(#[trigger] items@[j]),
                    decreases n - i,
                {
                    let kind = match opt_str(&items[i], "kind") {
                        Ok(Some(s)) => s,
                        _ => {
                            return Err(
                                LinderaError::new(
                                    LinderaErrorKind::Config,
                                    String::from_str("a filter entry needs a string 'kind'"),
                                ),
                            );
                        },
                    };
                    let empty_args = ConfigValue::Obj(Vec::new());
                    let has_args = match items[i].get("args") {
                        Some(_) => true,
                        None => false,
                    };
                    let parsed = match items[i].get("args") {
                        Some(args) => crate::char_filter::parse_character_filter(
                            kind.as_str(),
                            args,
                        ),
                        None => crate::char_filter::parse_character_filter(
                            kind.as_str(),
                            &empty_args,
                        ),
                    };
                    match parsed {
                        Ok(f) => {
                            proof {
                                if !has_args {
                                    assert(empty_args.spec_get("kind"@) is None);
                                    assert(empty_args.spec_get("mapping"@) is None);
                                    assert(empty_args.spec_get("pattern"@) is None);
                                    assert(empty_args.spec_get("replacement"@) is None);
                                    assert(empty_args.spec_get("normalize_kanji"@) is None);
                                    assert(empty_args.spec_get("normalize_kana"@) is None);
                                    assert(char_filter_matches_empty(f, kind@));
                                }
                                assert(char_filter_entry_matches(f, items@[i as int]));
                                assert(char_filter_entry_ok(items@[i as int]));
                            }
                            character_filters.push(f);
                        },
                        Err(e) => {
                            proof {
                                if !has_args {
                                    assert(empty_args.spec_get("kind"@) is None);
                                    assert(empty_args.spec_get("mapping"@) is None);
                                    assert(empty_args.spec_get("pattern"@) is None);
                                    assert(empty_args.spec_get("replacement"@) is None);
                                    assert(empty_args.spec_get("normalize_kanji"@) is None);
                                    assert(empty_args.spec_get("normalize_kana"@) is None);
                                    assert(!(exists|f0: CharacterFilter|
                                        char_filter_matches_empty(f0, kind@))) by {
                                        if exists|f0: CharacterFilter|
                                            char_filter_matches_empty(f0, kind@) {
                                            let f0 = choose|f0: CharacterFilter|
                                                char_filter_matches_empty(f0, kind@);
                                            assert(crate::char_filter::char_filter_matches_config(
                                                f0,
                                                kind@,
                                                empty_args,
                                            ) && f0.wf());
                                        }
                                    }
                                }
                                assert(!char_filter_entry_ok(items@[i as int]));
                            }
                            return Err(e);
                        },
                    }
                    i = i + 1;
                }
            },
            _ => {
                return Err(
                    LinderaError::new(
                        LinderaErrorKind::Config,
                        String::from_str("'character_filters' must be a list"),
                    ),
                );
            },
        },
        None => {},
    }
    let mut token_filters: Vec<TokenFilter> = Vec::new();
    match v.get("token_filters") {
        Some(list) => match list {
            ConfigValue::Arr(items) => {
                let n = items.len();
                let mut i: usize = 0;
                while i < n
                    invariant
                        i <= n,
                        token_filters@.len() == i,
                        forall|j: int|
                            0 <= j < i ==> token_filter_entry_matches(
                                #[trigger] token_filters@[j],
                                items@[j],
                            ),
                        forall|j: int| 0 <= j < i ==> token_filter_entry_ok(#[trigger] items@[j]),
                    decreases n - i,
                {
                    let kind = match opt_str(&items[i], "kind") {
                        Ok(Some(s)) => s,
                        _ => {
                            return Err(
                                LinderaError::new(
                                    LinderaErrorKind::Config,
                                    String::from_str("a filter entry needs a string 'kind'"),
                                ),
                            );
                        },
                    };
                    let empty_args = ConfigValue::Obj(Vec::new());
                    let has_args = match items[i].get("args") {
                        Some(_) => true,
                        None => false,
                    };
                    let parsed = match items[i].get("args") {
                        Some(args) => crate::token_filter::parse_token_filter(kind.as_str(), args),
                        None => crate::token_filter::parse_token_filter(
                            kind.as_str(),
                            &empty_args,
                        ),
                    };
                    match parsed {
                        Ok(f) => {
                            proof {
                                if !has_args {
                                    assert(empty_args.spec_get("min"@) is None);
                                    assert(empty_args.spec_get("max"@) is None);
                                    assert(empty_args.spec_get("words"@) is None);
                                    assert(empty_args.spec_get("tags"@) is None);
                                    assert(empty_args.spec_get("field"@) is None);
                                    assert(empty_args.spec_get("new_tag"@) is None);
                                    assert(token_filter_matches_empty(f, kind@));
                                }
                                assert(token_filter_entry_matches(f, items@[i as int]));
                                assert(token_filter_entry_ok(items@[i as int]));
                            }
                            token_filters.push(f);
                        },
                        Err(e) => {
                            proof {
                                if !has_args {
                                    assert(empty_args.spec_get("min"@) is None);
                                    assert(empty_args.spec_get("max"@) is None);
                                    assert(empty_args.spec_get("words"@) is None);
                                    assert(empty_args.spec_get("tags"@) is None);
                                    assert(empty_args.spec_get("field"@) is None);
                                    assert(empty_args.spec_get("new_tag"@) is None);
                                    assert(!(exists|f0: TokenFilter|
                                        token_filter_matches_empty(f0, kind@))) by {
                                        if exists|f0: TokenFilter|
                                            token_filter_matches_empty(f0, kind@) {
                                            let f0 = choose|f0: TokenFilter|
                                                token_filter_matches_empty(f0, kind@);
                                            assert(crate::token_filter::token_filter_matches_config(
                                                f0,
                                                kind@,
                                                empty_args,
                                            ));
                                        }
                                    }
                                }
                                assert(!token_filter_entry_ok(items@[i as int]));
                            }
                            return Err(e);
                        },
                    }
                    i = i + 1;
                }
            },
            _ => {
                return Err(
                    LinderaError::new(
                        LinderaErrorKind::Config,
                        String::from_str("'token_filters' must be a list"),
                    ),
                );
            },
        },
        None => {},
    }
    Ok(
        TokenizerConfig {
            mode,
            dictionary_kind,
            dictionary_path,
            user_dictionary_path,
            user_dictionary_kind,
            character_filters,
            token_filters,
        },
    )
}

/// Pipeline determinism: `Tokenizer::tokenize` pins its result to
/// `spec_tokenize_tokens` of the tokenizer's parts and the text,
/// so two runs over equal parts and equal text yield the same
/// token sequence — surfaces, offsets and order alike.
pub proof fn lemma_tokenize_deterministic(
    t1: Tokenizer,
    t2: Tokenizer,
    text: Seq<char>,
    r1: Seq<TokenView>,
    r2: Seq<TokenView>,
)
    requires
        t1.character_filters@ == t2.character_filters@,
        t1.token_filters@ == t2.token_filters@,
        t1.segmenter == t2.segmenter,
        r1 == spec_tokenize_tokens(
            t1.character_filters@,
            t1.token_filters@,
            t1.segmenter.dictionary.entries@,
            spec_uents(t1.segmenter.user_dictionary),
            text,
            t1.segmenter.mode,
            t1.segmenter.dictionary.matrix,
        ),
        r2 == spec_tokenize_tokens(
            t2.character_filters@,
            t2.token_filters@,
            t2.segmenter.dictionary.entries@,
            spec_uents(t2.segmenter.user_dictionary),
            text,
            t2.segmenter.mode,
            t2.segmenter.dictionary.matrix,
        ),
    ensures
        r1 == r2,
{
}

} // verus!
