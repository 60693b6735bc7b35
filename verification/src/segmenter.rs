//! The segmenter: lattice construction plus minimum-cost search,
//! wrapped as a reusable component.
//!
//! A segmenter owns its dictionary, optional user dictionary and
//! mode; `segment` is pure given those: the result is a function of
//! them and the text alone, which is what makes segmentation
//! deterministic.  The unknown-word fallback makes it total: every
//! character of the input is covered by exactly one token.

use vstd::prelude::*;

verus! {

use crate::dictionary::{ConnectionMatrix, Dictionary, UserDictionary, WordEntry};
use crate::error::{LinderaError, LinderaErrorKind};
use crate::lattice::{
    LatticeNode, NodeSource, build_lattice, lemma_lattice_has_start, lemma_lattice_structure,
    node_wf, spec_lattice, spec_uents,
};
use crate::mode::Mode;
use crate::search::{
    has_start_at, idxs_view, lemma_climb, lemma_min_pred_inv, lemma_min_pred_some,
    lemma_path_from, run_search, spec_best_path, spec_bests, spec_eos,
};
use crate::text::{byte_offset, char_width_of, chars_range_to_string, str_eq, to_chars};
use crate::token::{Token, TokenView, tokens_view};

/// The nodes of the least-cost path through the lattice of `text`,
/// in text order: the mathematical value of a segmentation, before
/// token assembly.
pub open spec fn spec_segmentation(
    ments: Seq<WordEntry>,
    uents: Seq<WordEntry>,
    text: Seq<char>,
    mode: Mode,
    mat: ConnectionMatrix,
) -> Seq<LatticeNode> {
    let nodes = spec_lattice(ments, uents, text, mode);
    spec_best_path(nodes, mat, text.len() as int).map_values(|k: int| nodes[k])
}

/// The token a path node `nd` becomes at output position `t`:
/// its surface is the characters it spans, its offsets are the byte
/// offsets of its span in the UTF-8 encoding of `text`, and its
/// details come from the matched entry — or the single field `UNK`
/// for an unknown word.
pub open spec fn spec_token_of(
    text: Seq<char>,
    ments: Seq<WordEntry>,
    uents: Seq<WordEntry>,
    nd: LatticeNode,
    t: int,
) -> TokenView {
    TokenView {
        text: text.subrange(nd.start as int, nd.end as int),
        byte_start: byte_offset(text, nd.start as int),
        byte_end: byte_offset(text, nd.end as int),
        position: t,
        position_length: 1,
        details: match nd.source {
            NodeSource::User(k) => uents[k as int].details.deep_view(),
            NodeSource::Main(k) => ments[k as int].details.deep_view(),
            NodeSource::Unknown => seq!["UNK"@],
        },
    }
}

/// The tokens of the best segmentation of `text`, in order: what
/// `Segmenter::segment` returns.
pub open spec fn spec_segment_tokens(
    ments: Seq<WordEntry>,
    uents: Seq<WordEntry>,
    text: Seq<char>,
    mode: Mode,
    mat: ConnectionMatrix,
) -> Seq<TokenView> {
    let segs = spec_segmentation(ments, uents, text, mode, mat);
    Seq::new(segs.len(), |t: int| spec_token_of(text, ments, uents, segs[t], t))
}

/// The segmentation engine: a mode, a dictionary, and an optional
/// user dictionary overlay.  Immutable while in use; safe to share
/// read-only.
#[derive(Clone, Debug)]
pub struct Segmenter {
    pub mode: Mode,
    pub dictionary: Dictionary,
    pub user_dictionary: Option<UserDictionary>,
}

impl Segmenter {
    /// Validity: a well-formed dictionary and mode, and a user
    /// dictionary whose category ids fit the main matrix.
    pub open spec fn wf(self) -> bool {
        &&& self.dictionary.wf()
        &&& self.mode.wf()
        &&& match self.user_dictionary {
            Some(u) => u.wf(
                self.dictionary.matrix.num_right as int,
                self.dictionary.matrix.num_left as int,
            ),
            None => true,
        }
    }

    /// Builds a segmenter from its parts.
    pub fn new(mode: Mode, dictionary: Dictionary, user_dictionary: Option<UserDictionary>) -> (r:
        Segmenter)
        ensures
            r.mode == mode,
            r.dictionary == dictionary,
            r.user_dictionary == user_dictionary,
    {
        Segmenter { mode, dictionary, user_dictionary }
    }

    /// Segments `text` into tokens.
    ///
    /// Pure given the segmenter: the tokens are exactly
    /// `spec_segment_tokens` of the segmenter's parts and the text.
    /// The one failure is a dictionary whose declared encoding is
    /// not UTF-8, rejected before any text is read.
    #[verifier::loop_isolation(false)]
    pub fn segment(&self, text: &str) -> (r: Result<Vec<Token>, LinderaError>)
        requires
            self.wf(),
        ensures
            match r {
                Ok(tokens) => {
                    &&& self.dictionary.metadata.encoding@ == "UTF-8"@
                    &&& tokens_view(tokens@) == spec_segment_tokens(
                        self.dictionary.entries@,
                        spec_uents(self.user_dictionary),
                        text@,
                        self.mode,
                        self.dictionary.matrix,
                    )
                },
                Err(e) => {
                    &&& e.kind == LinderaErrorKind::Segmentation
                    &&& self.dictionary.metadata.encoding@ != "UTF-8"@
                },
            },
    {
        if !str_eq(self.dictionary.metadata.encoding.as_str(), "UTF-8") {
            return Err(
                LinderaError::new(
                    LinderaErrorKind::Segmentation,
                    String::from_str("dictionary/text encoding mismatch: expected UTF-8"),
                ),
            );
        }
        let byte_len = text.as_bytes().len();
        let chars = to_chars(text);
        proof {
            crate::text::lemma_byte_offset_is_utf8_len(text@, text@.len() as int);
            assert(text@.take(text@.len() as int) =~= text@);
            assert(byte_len as int == byte_offset(chars@, chars@.len() as int));
        }
        let tokens = segment_core(
            &self.dictionary,
            &self.user_dictionary,
            &self.mode,
            chars.as_slice(),
            byte_len,
        );
        Ok(tokens)
    }
}

/// Runs the pipeline on a character sequence: lattice, search, and
/// token assembly.  `byte_len` is the byte length of the UTF-8
/// encoding of `chars`.
fn segment_core(
    dictionary: &Dictionary,
    user_dictionary: &Option<UserDictionary>,
    mode: &Mode,
    chars: &[char],
    byte_len: usize,
) -> (tokens: Vec<Token>)
    requires
        dictionary.wf(),
        mode.wf(),
        match *user_dictionary {
            Some(u) => u.wf(
                dictionary.matrix.num_right as int,
                dictionary.matrix.num_left as int,
            ),
            None => true,
        },
        byte_len == byte_offset(chars@, chars@.len() as int),
    ensures
        tokens_view(tokens@) == spec_segment_tokens(
            dictionary.entries@,
            spec_uents(*user_dictionary),
            chars@,
            *mode,
            dictionary.matrix,
        ),
{
    let ghost ments = dictionary.entries@;
    let ghost uents = spec_uents(*user_dictionary);
    let ghost mat = dictionary.matrix;
    let n = chars.len();
    let main_entry_count = dictionary.entries.len();
    let user_entry_count = match user_dictionary {
        Some(u) => u.entries.len(),
        None => 0,
    };
    proof {
        assert(ments.len() == main_entry_count);
        assert(uents.len() == user_entry_count);
    }
    let nodes = build_lattice(&dictionary.entries, user_dictionary, chars, mode);
    proof {
        lemma_search_pre(
            ments,
            uents,
            chars@,
            *mode,
            mat.num_right as int,
            mat.num_left as int,
        );
    }
    let path = run_search(&nodes, &dictionary.matrix, n);
    let offsets = byte_offsets(chars, byte_len);
    proof {
        lemma_path_nodes_wf(ments, uents, chars@, *mode, mat);
        assert(idxs_view(path@) == spec_best_path(nodes@, mat, n as int));
        assert forall|j: int| 0 <= j < path@.len() implies (#[trigger] path@[j] as int)
            < nodes@.len() && node_wf(
            nodes@[path@[j] as int],
            ments,
            uents,
            chars@,
            mat.num_right as int,
            mat.num_left as int,
        ) by {
            assert(idxs_view(path@)[j] == path@[j] as int);
        }
    }
    let tokens = assemble_tokens(chars, &offsets, &nodes, &path, dictionary, user_dictionary);
    proof {
        lemma_assembled_tokens_eq(ments, uents, chars@, *mode, mat);
    }
    tokens
}

/// The lattice meets the search's demands: every node's category
/// ids index the matrix and its cost is bounded.
pub proof fn lemma_search_pre(
    ments: Seq<WordEntry>,
    uents: Seq<WordEntry>,
    text: Seq<char>,
    mode: Mode,
    num_right: int,
    num_left: int,
)
    requires
        text.len() <= usize::MAX,
        ments.len() <= usize::MAX,
        uents.len() <= usize::MAX,
        num_right >= 1,
        num_left >= 1,
        mode.wf(),
        forall|k: int| 0 <= k < ments.len() ==> (#[trigger] ments[k]).wf(num_right, num_left),
        forall|k: int| 0 <= k < uents.len() ==> (#[trigger] uents[k]).wf(num_right, num_left),
    ensures
        forall|j: int|
            0 <= j < spec_lattice(ments, uents, text, mode).len() ==> ((#[trigger] spec_lattice(
                ments,
                uents,
                text,
                mode,
            )[j]).right_id as int) < num_right,
        forall|j: int|
            0 <= j < spec_lattice(ments, uents, text, mode).len() ==> ((#[trigger] spec_lattice(
                ments,
                uents,
                text,
                mode,
            )[j]).left_id as int) < num_left,
        forall|j: int|
            0 <= j < spec_lattice(ments, uents, text, mode).len() ==> -0x1_0000_0000
                <= (#[trigger] spec_lattice(ments, uents, text, mode)[j]).cost as int
                <= 0x1_0000_0000,
{
    lemma_lattice_structure(ments, uents, text, mode, text.len() as int, num_right, num_left);
}

/// Every node the best path selects is a well-formed node of the
/// lattice.
pub proof fn lemma_path_nodes_wf(
    ments: Seq<WordEntry>,
    uents: Seq<WordEntry>,
    text: Seq<char>,
    mode: Mode,
    mat: ConnectionMatrix,
)
    requires
        text.len() <= usize::MAX,
        ments.len() <= usize::MAX,
        uents.len() <= usize::MAX,
        mat.wf(),
        mode.wf(),
        forall|k: int|
            0 <= k < ments.len() ==> (#[trigger] ments[k]).wf(
                mat.num_right as int,
                mat.num_left as int,
            ),
        forall|k: int|
            0 <= k < uents.len() ==> (#[trigger] uents[k]).wf(
                mat.num_right as int,
                mat.num_left as int,
            ),
    ensures
        ({
            let nodes = spec_lattice(ments, uents, text, mode);
            let path = spec_best_path(nodes, mat, text.len() as int);
            forall|j: int|
                0 <= j < path.len() ==> 0 <= #[trigger] path[j] < nodes.len() && node_wf(
                    nodes[path[j]],
                    ments,
                    uents,
                    text,
                    mat.num_right as int,
                    mat.num_left as int,
                )
        }),
{
    let nodes = spec_lattice(ments, uents, text, mode);
    let path = spec_best_path(nodes, mat, text.len() as int);
    let segs = spec_segmentation(ments, uents, text, mode, mat);
    lemma_best_path_range(nodes, mat, text.len() as int);
    lemma_segmentation_covers(ments, uents, text, mode, mat);
    assert forall|j: int| 0 <= j < path.len() implies 0 <= #[trigger] path[j] < nodes.len()
        && node_wf(
        nodes[path[j]],
        ments,
        uents,
        text,
        mat.num_right as int,
        mat.num_left as int,
    ) by {
        assert(segs[j] == nodes[path[j]]);
    }
}

/// Token assembly agrees with the segmentation's token sequence.
proof fn lemma_assembled_tokens_eq(
    ments: Seq<WordEntry>,
    uents: Seq<WordEntry>,
    text: Seq<char>,
    mode: Mode,
    mat: ConnectionMatrix,
)
    ensures
        ({
            let nodes = spec_lattice(ments, uents, text, mode);
            let path = spec_best_path(nodes, mat, text.len() as int);
            Seq::new(
                path.len(),
                |t: int| spec_token_of(text, ments, uents, nodes[path[t]], t),
            ) == spec_segment_tokens(ments, uents, text, mode, mat)
        }),
{
    let nodes = spec_lattice(ments, uents, text, mode);
    let path = spec_best_path(nodes, mat, text.len() as int);
    let segs = spec_segmentation(ments, uents, text, mode, mat);
    let lhs = Seq::new(path.len(), |t: int| spec_token_of(text, ments, uents, nodes[path[t]], t));
    let rhs = spec_segment_tokens(ments, uents, text, mode, mat);
    assert forall|t: int| 0 <= t < path.len() implies lhs[t] == rhs[t] by {
        assert(segs[t] == nodes[path[t]]);
    }
    assert(lhs =~= rhs);
}

/// Every index of the best path names a node of the lattice.
pub proof fn lemma_best_path_range(nodes: Seq<LatticeNode>, mat: ConnectionMatrix, n: int)
    ensures
        forall|t: int|
            0 <= t < spec_best_path(nodes, mat, n).len() ==> 0 <= #[trigger] spec_best_path(
                nodes,
                mat,
                n,
            )[t] < nodes.len(),
{
    if n != 0 {
        let len = nodes.len() as int;
        let bests = spec_bests(nodes, mat, len);
        crate::search::lemma_bests_prefix(nodes, mat, len, len);
        match spec_eos(nodes, mat, bests, n) {
            None => {},
            Some(r) => {
                lemma_min_pred_inv(nodes, mat, bests, n, 0, len);
                match r.prev {
                    Some(k) => {
                        lemma_path_from(nodes, mat, k);
                    },
                    None => {},
                }
            },
        }
    }
}

/// Totality of segmentation (the coverage invariant at the node
/// level): on non-empty text the best path exists, starts at
/// position 0, ends at the text length, and each of its nodes ends
/// exactly where the next begins; every node is a well-formed span
/// of the text.  On empty text the segmentation is empty.
pub proof fn lemma_segmentation_covers(
    ments: Seq<WordEntry>,
    uents: Seq<WordEntry>,
    text: Seq<char>,
    mode: Mode,
    mat: ConnectionMatrix,
)
    requires
        text.len() <= usize::MAX,
        ments.len() <= usize::MAX,
        uents.len() <= usize::MAX,
        mat.wf(),
        mode.wf(),
        forall|k: int|
            0 <= k < ments.len() ==> (#[trigger] ments[k]).wf(
                mat.num_right as int,
                mat.num_left as int,
            ),
        forall|k: int|
            0 <= k < uents.len() ==> (#[trigger] uents[k]).wf(
                mat.num_right as int,
                mat.num_left as int,
            ),
    ensures
        ({
            let segs = spec_segmentation(ments, uents, text, mode, mat);
            &&& (segs.len() == 0 <==> text.len() == 0)
            &&& forall|t: int|
                0 <= t < segs.len() ==> node_wf(
                    #[trigger] segs[t],
                    ments,
                    uents,
                    text,
                    mat.num_right as int,
                    mat.num_left as int,
                )
            &&& (text.len() > 0 ==> segs[0].start == 0)
            &&& (text.len() > 0 ==> segs[segs.len() - 1].end == text.len())
            &&& forall|t: int|
                0 <= t < segs.len() - 1 ==> (#[trigger] segs[t]).end == segs[t + 1].start
        }),
{
    let n = text.len() as int;
    let nodes = spec_lattice(ments, uents, text, mode);
    let nr = mat.num_right as int;
    let nl = mat.num_left as int;
    lemma_lattice_structure(ments, uents, text, mode, n, nr, nl);
    let segs = spec_segmentation(ments, uents, text, mode, mat);
    if n == 0 {
        assert(spec_best_path(nodes, mat, 0) == Seq::<int>::empty());
        assert(segs =~= Seq::<LatticeNode>::empty());
    } else {
        let len = nodes.len() as int;
        let bests = spec_bests(nodes, mat, len);
        crate::search::lemma_bests_prefix(nodes, mat, len, len);
        assert forall|q: int| 0 <= q < n implies #[trigger] has_start_at(nodes, q) by {
            lemma_lattice_has_start(ments, uents, text, mode, n, q);
        }
        lemma_climb(nodes, mat, n, 0);
        let j0 = choose|j: int|
            0 <= j < nodes.len() && (#[trigger] nodes[j]).end == n && spec_bests(
                nodes,
                mat,
                nodes.len() as int,
            )[j] is Some;
        lemma_min_pred_some(nodes, mat, bests, n, 0, len, j0);
        assert(spec_eos(nodes, mat, bests, n) is Some);
        lemma_min_pred_inv(nodes, mat, bests, n, 0, len);
        let r = spec_eos(nodes, mat, bests, n)->0;
        let k = r.prev->0;
        assert(bests[k] is Some);
        assert(nodes[k].end == n);
        lemma_path_from(nodes, mat, k);
        let path = crate::search::spec_path_from(bests, k);
        assert(spec_best_path(nodes, mat, n) == path);
        assert(segs == path.map_values(|x: int| nodes[x]));
        assert(segs.len() == path.len());
        assert forall|t: int| 0 <= t < segs.len() implies node_wf(
            #[trigger] segs[t],
            ments,
            uents,
            text,
            nr,
            nl,
        ) by {
            assert(segs[t] == nodes[path[t]]);
        }
        assert(segs[0] == nodes[path[0]]);
        assert(segs[segs.len() - 1] == nodes[path[path.len() - 1]]);
        assert(segs[segs.len() - 1].end == n);
        assert forall|t: int| 0 <= t < segs.len() - 1 implies (#[trigger] segs[t]).end == segs[t
            + 1].start by {
            assert(segs[t] == nodes[path[t]]);
            assert(segs[t + 1] == nodes[path[t + 1]]);
        }
    }
}

/// Builds the output tokens of a path: one token per path node,
/// with the node's span as surface, its byte offsets, its ordinal
/// position, and the matched entry's details (`UNK` for unknown
/// words).
#[verifier::loop_isolation(false)]
fn assemble_tokens(
    chars: &[char],
    offsets: &Vec<usize>,
    nodes: &Vec<LatticeNode>,
    path: &Vec<usize>,
    dictionary: &Dictionary,
    user_dictionary: &Option<UserDictionary>,
) -> (tokens: Vec<Token>)
    requires
        offsets@.len() == chars@.len() + 1,
        forall|i: int|
            0 <= i <= chars@.len() ==> (#[trigger] offsets@[i] as int) == byte_offset(chars@, i),
        forall|j: int| 0 <= j < path@.len() ==> (#[trigger] path@[j] as int) < nodes@.len(),
        forall|j: int|
            0 <= j < path@.len() ==> node_wf(
                nodes@[#[trigger] path@[j] as int],
                dictionary.entries@,
                spec_uents(*user_dictionary),
                chars@,
                dictionary.matrix.num_right as int,
                dictionary.matrix.num_left as int,
            ),
    ensures
        tokens_view(tokens@) == Seq::new(
            path@.len(),
            |t: int|
                spec_token_of(
                    chars@,
                    dictionary.entries@,
                    spec_uents(*user_dictionary),
                    nodes@[path@[t] as int],
                    t,
                ),
        ),
{
    let ghost ments = dictionary.entries@;
    let ghost uents = spec_uents(*user_dictionary);
    let m = path.len();
    let mut tokens: Vec<Token> = Vec::new();
    let mut t: usize = 0;
    while t < m
        invariant
            t <= m,
            tokens_view(tokens@) == Seq::new(
                t as nat,
                |j: int| spec_token_of(chars@, ments, uents, nodes@[path@[j] as int], j),
            ),
        decreases m - t,
    {
        let k = path[t];
        let nd = nodes[k];
        proof {
            assert(node_wf(nd, ments, uents, chars@, dictionary.matrix.num_right as int,
            dictionary.matrix.num_left as int));
        }
        let surface = chars_range_to_string(chars, nd.start, nd.end);
        let details: Vec<String> = match nd.source {
            NodeSource::User(e) => match user_dictionary {
                Some(u) => u.entries[e].details.clone(),
                None => {
                    proof {
                        assert(false);
                    }
                    Vec::new()
                },
            },
            NodeSource::Main(e) => dictionary.entries[e].details.clone(),
            NodeSource::Unknown => {
                let mut d: Vec<String> = Vec::new();
                d.push(String::from_str("UNK"));
                d
            },
        };
        let token = Token::new(surface, offsets[nd.start], offsets[nd.end], t, 1, details);
        proof {
            assert(details.deep_view() =~= spec_token_of(
                chars@,
                ments,
                uents,
                nodes@[path@[t as int] as int],
                t as int,
            ).details);
            assert(token@ == spec_token_of(
                chars@,
                ments,
                uents,
                nodes@[path@[t as int] as int],
                t as int,
            ));
        }
        let ghost old_tokens = tokens@;
        tokens.push(token);
        proof {
            let f = |j: int| spec_token_of(chars@, ments, uents, nodes@[path@[j] as int], j);
            assert forall|j: int| 0 <= j < t + 1 implies tokens_view(tokens@)[j] == Seq::new(
                (t + 1) as nat,
                f,
            )[j] by {
                if j < t {
                    assert(tokens@[j] == old_tokens[j]);
                    assert(tokens_view(old_tokens)[j] == f(j));
                } else {
                    assert(tokens@[j] == token);
                }
            }
            assert(tokens_view(tokens@) =~= Seq::new((t + 1) as nat, f));
        }
        t = t + 1;
    }
    tokens
}

/// The byte offset of every character boundary of `s`, whose UTF-8
/// encoding is `byte_len` bytes long.
#[verifier::loop_isolation(false)]
pub(crate) fn byte_offsets(s: &[char], byte_len: usize) -> (r: Vec<usize>)
    requires
        byte_len == byte_offset(s@, s@.len() as int),
    ensures
        r@.len() == s@.len() + 1,
        forall|i: int| 0 <= i <= s@.len() ==> (#[trigger] r@[i] as int) == byte_offset(s@, i),
{
    let n = s.len();
    let mut r: Vec<usize> = Vec::new();
    let mut acc: usize = 0;
    r.push(0);
    let mut i: usize = 0;
    while i < n
        invariant
            i <= n,
            acc as int == byte_offset(s@, i as int),
            r@.len() == i + 1,
            forall|j: int| 0 <= j <= i ==> (#[trigger] r@[j] as int) == byte_offset(s@, j),
        decreases n - i,
    {
        proof {
            crate::text::lemma_byte_offset_mono(s@, i + 1, n as int);
            crate::text::lemma_char_width_bounds(s@[i as int]);
        }
        let w = char_width_of(s[i]);
        acc = acc + w;
        r.push(acc);
        i = i + 1;
    }
    r
}

/// The total coverage invariant: on any text the emitted token
/// spans partition the byte range of the text — the first token
/// starts at byte 0, each token ends exactly where the next starts,
/// every token is non-empty, and the last token ends at the byte
/// length of the text; the sequence is empty exactly for empty
/// text.  Positions are the ordinal indices 0, 1, 2, ...
pub proof fn lemma_tokens_cover(
    ments: Seq<WordEntry>,
    uents: Seq<WordEntry>,
    text: Seq<char>,
    mode: Mode,
    mat: ConnectionMatrix,
)
    requires
        text.len() <= usize::MAX,
        ments.len() <= usize::MAX,
        uents.len() <= usize::MAX,
        mat.wf(),
        mode.wf(),
        forall|k: int|
            0 <= k < ments.len() ==> (#[trigger] ments[k]).wf(
                mat.num_right as int,
                mat.num_left as int,
            ),
        forall|k: int|
            0 <= k < uents.len() ==> (#[trigger] uents[k]).wf(
                mat.num_right as int,
                mat.num_left as int,
            ),
    ensures
        ({
            let toks = spec_segment_tokens(ments, uents, text, mode, mat);
            &&& (toks.len() == 0 <==> text.len() == 0)
            &&& forall|t: int|
                0 <= t < toks.len() ==> (#[trigger] toks[t]).position == t
                    && toks[t].position_length == 1
            &&& forall|t: int|
                0 <= t < toks.len() ==> (#[trigger] toks[t]).byte_start < toks[t].byte_end
            &&& forall|t: int|
                0 <= t < toks.len() - 1 ==> (#[trigger] toks[t]).byte_end == toks[t
                    + 1].byte_start
            &&& (text.len() > 0 ==> toks[0].byte_start == 0)
            &&& (text.len() > 0 ==> toks[toks.len() - 1].byte_end == vstd::utf8::encode_utf8(
                text,
            ).len())
        }),
{
    let toks = spec_segment_tokens(ments, uents, text, mode, mat);
    let segs = spec_segmentation(ments, uents, text, mode, mat);
    lemma_segmentation_covers(ments, uents, text, mode, mat);
    assert(toks.len() == segs.len());
    assert forall|t: int| 0 <= t < toks.len() implies (#[trigger] toks[t]).byte_start
        < toks[t].byte_end by {
        assert(toks[t] == spec_token_of(text, ments, uents, segs[t], t));
        crate::text::lemma_byte_offset_mono(text, segs[t].start as int, segs[t].end as int);
    }
    assert forall|t: int| 0 <= t < toks.len() - 1 implies (#[trigger] toks[t]).byte_end == toks[t
        + 1].byte_start by {
        assert(toks[t] == spec_token_of(text, ments, uents, segs[t], t));
        assert(toks[t + 1] == spec_token_of(text, ments, uents, segs[t + 1], t + 1));
        assert(segs[t].end == segs[t + 1].start);
    }
    if text.len() > 0 {
        assert(toks[0] == spec_token_of(text, ments, uents, segs[0], 0));
        assert(toks[toks.len() - 1] == spec_token_of(
            text,
            ments,
            uents,
            segs[segs.len() - 1],
            toks.len() - 1,
        ));
        crate::text::lemma_byte_offset_is_utf8_len(text, text.len() as int);
        assert(text.take(text.len() as int) =~= text);
    }
}

/// Monotonic offsets: for any two output positions `i < j`, token
/// `i` ends no later than token `j` starts (and every token's start
/// is no later than its end).
pub proof fn lemma_monotonic_offsets(
    ments: Seq<WordEntry>,
    uents: Seq<WordEntry>,
    text: Seq<char>,
    mode: Mode,
    mat: ConnectionMatrix,
    i: int,
    j: int,
)
    requires
        text.len() <= usize::MAX,
        ments.len() <= usize::MAX,
        uents.len() <= usize::MAX,
        mat.wf(),
        mode.wf(),
        forall|k: int|
            0 <= k < ments.len() ==> (#[trigger] ments[k]).wf(
                mat.num_right as int,
                mat.num_left as int,
            ),
        forall|k: int|
            0 <= k < uents.len() ==> (#[trigger] uents[k]).wf(
                mat.num_right as int,
                mat.num_left as int,
            ),
        0 <= i < j < spec_segment_tokens(ments, uents, text, mode, mat).len(),
    ensures
        ({
            let toks = spec_segment_tokens(ments, uents, text, mode, mat);
            toks[i].byte_start <= toks[i].byte_end <= toks[j].byte_start
        }),
    decreases j - i,
{
    let toks = spec_segment_tokens(ments, uents, text, mode, mat);
    lemma_tokens_cover(ments, uents, text, mode, mat);
    if j == i + 1 {
    } else {
        lemma_monotonic_offsets(ments, uents, text, mode, mat, i, j - 1);
    }
}

/// Determinism: segmenting the same text twice with the same
/// dictionary, user dictionary and mode yields the same token
/// sequence.  `Segmenter::segment` pins its result to
/// `spec_segment_tokens` of its parts, so two runs over equal parts
/// agree exactly.
pub proof fn lemma_segment_deterministic(
    s1: Segmenter,
    s2: Segmenter,
    text: Seq<char>,
    r1: Seq<TokenView>,
    r2: Seq<TokenView>,
)
    requires
        s1.mode == s2.mode,
        s1.dictionary == s2.dictionary,
        s1.user_dictionary == s2.user_dictionary,
        r1 == spec_segment_tokens(
            s1.dictionary.entries@,
            spec_uents(s1.user_dictionary),
            text,
            s1.mode,
            s1.dictionary.matrix,
        ),
        r2 == spec_segment_tokens(
            s2.dictionary.entries@,
            spec_uents(s2.user_dictionary),
            text,
            s2.mode,
            s2.dictionary.matrix,
        ),
    ensures
        r1 == r2,
{
}

} // verus!
