//! Lattice construction: the candidate nodes the minimum-cost
//! search runs over.
//!
//! For every character position of the text, the candidates are the
//! user-dictionary matches at that position (in entry order), then
//! the main-dictionary matches (in entry order) that no user match
//! overrides — a user entry covering the exact same span excludes
//! the main entry.  A position with no match at all gets a single
//! synthesized unknown-word node covering one character, which keeps
//! the lattice connected from begin to end of text.  This fixed
//! candidate order is what makes segmentation deterministic.

use vstd::prelude::*;

verus! {

use crate::dictionary::{Dictionary, UserDictionary, WordEntry};
use crate::mode::{Mode, Penalty, spec_mode_penalty, spec_all_kanji, all_kanji, mode_penalty};
use crate::text::chars_match_at;

/// The intrinsic cost of a synthesized unknown-word node: high, so
/// dictionary entries win wherever one matches, but finite, so the
/// lattice always connects.
pub const UNKNOWN_WORD_COST: i32 = 20000;

/// Where a lattice node comes from: a user-dictionary entry, a
/// main-dictionary entry (each with its entry index), or the
/// unknown-word fallback.
#[derive(Clone, Copy, Debug, PartialEq, Eq, Structural)]
pub enum NodeSource {
    User(usize),
    Main(usize),
    Unknown,
}

/// One candidate token: a span `[start, end)` of character
/// positions, its connection categories, its cost (word cost plus
/// the mode's length penalty), and where it came from.
#[derive(Clone, Copy, Debug, PartialEq, Eq, Structural)]
pub struct LatticeNode {
    pub start: usize,
    pub end: usize,
    pub left_id: u16,
    pub right_id: u16,
    pub cost: i64,
    pub source: NodeSource,
}

/// The node a dictionary entry contributes at position `i`.
pub open spec fn spec_known_node(
    e: WordEntry,
    i: int,
    src: NodeSource,
    mode: Mode,
) -> LatticeNode {
    LatticeNode {
        start: i as usize,
        end: (i + e.surface@.len()) as usize,
        left_id: e.left_id,
        right_id: e.right_id,
        cost: (e.word_cost + spec_mode_penalty(
            mode,
            spec_all_kanji(e.surface@),
            e.surface@.len(),
        )) as i64,
        source: src,
    }
}

/// The synthesized unknown-word node at position `i`.
pub open spec fn spec_unknown_node(i: int) -> LatticeNode {
    LatticeNode {
        start: i as usize,
        end: (i + 1) as usize,
        left_id: 0,
        right_id: 0,
        cost: UNKNOWN_WORD_COST as i64,
        source: NodeSource::Unknown,
    }
}

/// True when some user entry matches at `i` with surface length
/// `len`: such a match overrides every main entry over the same
/// span.
pub open spec fn spec_user_covers(uents: Seq<WordEntry>, text: Seq<char>, i: int, len: int) -> bool {
    exists|j: int|
        0 <= j < uents.len() && Dictionary::spec_matches_at(text, uents[j], i)
            && uents[j].surface@.len() == len
}

/// The user-dictionary nodes at position `i` drawn from
/// `uents[0..n]`, in entry order.
pub open spec fn spec_user_nodes_upto(
    uents: Seq<WordEntry>,
    text: Seq<char>,
    i: int,
    mode: Mode,
    n: int,
) -> Seq<LatticeNode>
    decreases n,
{
    if n <= 0 {
        Seq::empty()
    } else {
        let pre = spec_user_nodes_upto(uents, text, i, mode, n - 1);
        if Dictionary::spec_matches_at(text, uents[n - 1], i) {
            pre.push(spec_known_node(uents[n - 1], i, NodeSource::User((n - 1) as usize), mode))
        } else {
            pre
        }
    }
}

/// The main-dictionary nodes at position `i` drawn from
/// `ments[0..n]`, in entry order, excluding entries whose exact span
/// a user match covers.
pub open spec fn spec_main_nodes_upto(
    ments: Seq<WordEntry>,
    uents: Seq<WordEntry>,
    text: Seq<char>,
    i: int,
    mode: Mode,
    n: int,
) -> Seq<LatticeNode>
    decreases n,
{
    if n <= 0 {
        Seq::empty()
    } else {
        let pre = spec_main_nodes_upto(ments, uents, text, i, mode, n - 1);
        if Dictionary::spec_matches_at(text, ments[n - 1], i) && !spec_user_covers(
            uents,
            text,
            i,
            ments[n - 1].surface@.len() as int,
        ) {
            pre.push(spec_known_node(ments[n - 1], i, NodeSource::Main((n - 1) as usize), mode))
        } else {
            pre
        }
    }
}

/// The entry table of an optional user dictionary.
pub open spec fn spec_uents(ud: Option<UserDictionary>) -> Seq<WordEntry> {
    match ud {
        Some(u) => u.entries@,
        None => Seq::empty(),
    }
}

/// All candidate nodes at position `i`: user matches, then
/// uncovered main matches, or the unknown-word fallback when there
/// is no match at all.
pub open spec fn spec_nodes_at(
    ments: Seq<WordEntry>,
    uents: Seq<WordEntry>,
    text: Seq<char>,
    i: int,
    mode: Mode,
) -> Seq<LatticeNode> {
    let u = spec_user_nodes_upto(uents, text, i, mode, uents.len() as int);
    let m = spec_main_nodes_upto(ments, uents, text, i, mode, ments.len() as int);
    let all = u + m;
    if all.len() == 0 {
        seq![spec_unknown_node(i)]
    } else {
        all
    }
}

/// The whole lattice: the candidate groups of positions
/// `0 .. p`, in position order.
pub open spec fn spec_nodes_upto(
    ments: Seq<WordEntry>,
    uents: Seq<WordEntry>,
    text: Seq<char>,
    mode: Mode,
    p: int,
) -> Seq<LatticeNode>
    decreases p,
{
    if p <= 0 {
        Seq::empty()
    } else {
        spec_nodes_upto(ments, uents, text, mode, p - 1) + spec_nodes_at(
            ments,
            uents,
            text,
            p - 1,
            mode,
        )
    }
}

/// The lattice of `text`: one candidate group per character
/// position.
pub open spec fn spec_lattice(
    ments: Seq<WordEntry>,
    uents: Seq<WordEntry>,
    text: Seq<char>,
    mode: Mode,
) -> Seq<LatticeNode> {
    spec_nodes_upto(ments, uents, text, mode, text.len() as int)
}

/// Well-formedness of one node of the lattice of `text`: a
/// non-empty span inside the text, category ids that index the
/// matrix, a bounded cost, and a source that names a real entry
/// whose surface spans the node.
pub open spec fn node_wf(
    nd: LatticeNode,
    ments: Seq<WordEntry>,
    uents: Seq<WordEntry>,
    text: Seq<char>,
    num_right: int,
    num_left: int,
) -> bool {
    &&& 0 <= nd.start < nd.end <= text.len()
    &&& (nd.left_id as int) < num_left
    &&& (nd.right_id as int) < num_right
    &&& -0x1_0000_0000 <= nd.cost as int <= 0x1_0000_0000
    &&& match nd.source {
        NodeSource::User(k) => {
            &&& k < uents.len()
            &&& nd.end - nd.start == uents[k as int].surface@.len()
            &&& Dictionary::spec_matches_at(text, uents[k as int], nd.start as int)
            &&& nd.left_id == uents[k as int].left_id
            &&& nd.right_id == uents[k as int].right_id
        },
        NodeSource::Main(k) => {
            &&& k < ments.len()
            &&& nd.end - nd.start == ments[k as int].surface@.len()
            &&& Dictionary::spec_matches_at(text, ments[k as int], nd.start as int)
            &&& nd.left_id == ments[k as int].left_id
            &&& nd.right_id == ments[k as int].right_id
        },
        NodeSource::Unknown => {
            &&& nd.end - nd.start == 1
            &&& nd.left_id == 0
            &&& nd.right_id == 0
        },
    }
}

/// Entry well-formedness carried over to every node a group emits,
/// plus: every node of the group starts at `i`.
pub proof fn lemma_user_nodes_wf(
    uents: Seq<WordEntry>,
    text: Seq<char>,
    i: int,
    mode: Mode,
    n: int,
    ments: Seq<WordEntry>,
    num_right: int,
    num_left: int,
)
    requires
        0 <= i <= text.len() <= usize::MAX,
        n <= uents.len() <= usize::MAX,
        mode.wf(),
        forall|k: int| 0 <= k < uents.len() ==> uents[k].wf(num_right, num_left),
    ensures
        forall|j: int|
            0 <= j < spec_user_nodes_upto(uents, text, i, mode, n).len() ==> {
                &&& node_wf(
                    #[trigger] spec_user_nodes_upto(uents, text, i, mode, n)[j],
                    ments,
                    uents,
                    text,
                    num_right,
                    num_left,
                )
                &&& spec_user_nodes_upto(uents, text, i, mode, n)[j].start == i
                &&& spec_user_nodes_upto(uents, text, i, mode, n)[j].source matches
                    NodeSource::User(_)
            },
    decreases n,
{
    if n > 0 {
        lemma_user_nodes_wf(uents, text, i, mode, n - 1, ments, num_right, num_left);
        if Dictionary::spec_matches_at(text, uents[n - 1], i) {
            let e = uents[n - 1];
            let src = NodeSource::User((n - 1) as usize);
            lemma_known_node_wf(e, i, src, mode, text);
            assert(uents[n - 1].wf(num_right, num_left));
            assert(node_wf(spec_known_node(e, i, src, mode), ments, uents, text, num_right,
            num_left));
            assert(spec_user_nodes_upto(uents, text, i, mode, n) == spec_user_nodes_upto(
                uents,
                text,
                i,
                mode,
                n - 1,
            ).push(spec_known_node(e, i, src, mode)));
        }
    }
}

/// As `lemma_user_nodes_wf`, for the main-dictionary group.
pub proof fn lemma_main_nodes_wf(
    ments: Seq<WordEntry>,
    uents: Seq<WordEntry>,
    text: Seq<char>,
    i: int,
    mode: Mode,
    n: int,
    num_right: int,
    num_left: int,
)
    requires
        0 <= i <= text.len() <= usize::MAX,
        n <= ments.len() <= usize::MAX,
        mode.wf(),
        forall|k: int| 0 <= k < ments.len() ==> ments[k].wf(num_right, num_left),
    ensures
        forall|j: int|
            0 <= j < spec_main_nodes_upto(ments, uents, text, i, mode, n).len() ==> {
                &&& node_wf(
                    #[trigger] spec_main_nodes_upto(ments, uents, text, i, mode, n)[j],
                    ments,
                    uents,
                    text,
                    num_right,
                    num_left,
                )
                &&& spec_main_nodes_upto(ments, uents, text, i, mode, n)[j].start == i
                &&& spec_main_nodes_upto(ments, uents, text, i, mode, n)[j].source matches
                    NodeSource::Main(_)
            },
    decreases n,
{
    if n > 0 {
        lemma_main_nodes_wf(ments, uents, text, i, mode, n - 1, num_right, num_left);
        if Dictionary::spec_matches_at(text, ments[n - 1], i) && !spec_user_covers(
            uents,
            text,
            i,
            ments[n - 1].surface@.len() as int,
        ) {
            let e = ments[n - 1];
            let src = NodeSource::Main((n - 1) as usize);
            lemma_known_node_wf(e, i, src, mode, text);
            assert(ments[n - 1].wf(num_right, num_left));
            assert(node_wf(spec_known_node(e, i, src, mode), ments, uents, text, num_right,
            num_left));
            assert(spec_main_nodes_upto(ments, uents, text, i, mode, n) == spec_main_nodes_upto(
                ments,
                uents,
                text,
                i,
                mode,
                n - 1,
            ).push(spec_known_node(e, i, src, mode)));
        }
    }
}

/// A node built from a well-formed matching entry is well-formed,
/// whatever its source tag says; the caller supplies a tag naming
/// that entry.
proof fn lemma_known_node_wf(e: WordEntry, i: int, src: NodeSource, mode: Mode, text: Seq<char>)
    requires
        0 <= i,
        text.len() <= usize::MAX,
        e.surface@.len() > 0,
        Dictionary::spec_matches_at(text, e, i),
        mode.wf(),
    ensures
        ({
            let nd = spec_known_node(e, i, src, mode);
            &&& nd.start == i
            &&& nd.end == i + e.surface@.len()
            &&& 0 <= nd.start < nd.end <= text.len()
            &&& nd.left_id == e.left_id
            &&& nd.right_id == e.right_id
            &&& nd.cost as int == e.word_cost + spec_mode_penalty(
                mode,
                spec_all_kanji(e.surface@),
                e.surface@.len(),
            )
            &&& -0x1_0000_0000 <= nd.cost as int <= 0x1_0000_0000
        }),
{
}

/// Every node of the candidate group of position `i` is well-formed
/// and starts at `i`; and the group is never empty.
pub proof fn lemma_nodes_at_wf(
    ments: Seq<WordEntry>,
    uents: Seq<WordEntry>,
    text: Seq<char>,
    i: int,
    mode: Mode,
    num_right: int,
    num_left: int,
)
    requires
        0 <= i < text.len() <= usize::MAX,
        ments.len() <= usize::MAX,
        uents.len() <= usize::MAX,
        num_right >= 1,
        num_left >= 1,
        mode.wf(),
        forall|k: int| 0 <= k < ments.len() ==> ments[k].wf(num_right, num_left),
        forall|k: int| 0 <= k < uents.len() ==> uents[k].wf(num_right, num_left),
    ensures
        spec_nodes_at(ments, uents, text, i, mode).len() >= 1,
        forall|j: int|
            0 <= j < spec_nodes_at(ments, uents, text, i, mode).len() ==> {
                &&& node_wf(
                    #[trigger] spec_nodes_at(ments, uents, text, i, mode)[j],
                    ments,
                    uents,
                    text,
                    num_right,
                    num_left,
                )
                &&& spec_nodes_at(ments, uents, text, i, mode)[j].start == i
            },
{
    lemma_user_nodes_wf(uents, text, i, mode, uents.len() as int, ments, num_right, num_left);
    lemma_main_nodes_wf(ments, uents, text, i, mode, ments.len() as int, num_right, num_left);
    let u = spec_user_nodes_upto(uents, text, i, mode, uents.len() as int);
    let m = spec_main_nodes_upto(ments, uents, text, i, mode, ments.len() as int);
    let all = u + m;
    if all.len() == 0 {
        assert(spec_nodes_at(ments, uents, text, i, mode) == seq![spec_unknown_node(i)]);
        assert(node_wf(spec_unknown_node(i), ments, uents, text, num_right, num_left));
    } else {
        assert(spec_nodes_at(ments, uents, text, i, mode) == all);
        assert forall|j: int| 0 <= j < all.len() implies {
            &&& node_wf(#[trigger] all[j], ments, uents, text, num_right, num_left)
            &&& all[j].start == i
        } by {
            if j < u.len() {
                assert(all[j] == u[j]);
            } else {
                assert(all[j] == m[j - u.len()]);
            }
        }
    }
}


/// Global shape of the lattice of the first `p` positions: every
/// node is well-formed and starts before `p`; node starts are
/// non-decreasing in node order; and every position before `p` has
/// a node starting there.
pub proof fn lemma_lattice_structure(
    ments: Seq<WordEntry>,
    uents: Seq<WordEntry>,
    text: Seq<char>,
    mode: Mode,
    p: int,
    num_right: int,
    num_left: int,
)
    requires
        0 <= p <= text.len() <= usize::MAX,
        ments.len() <= usize::MAX,
        uents.len() <= usize::MAX,
        num_right >= 1,
        num_left >= 1,
        mode.wf(),
        forall|k: int| 0 <= k < ments.len() ==> ments[k].wf(num_right, num_left),
        forall|k: int| 0 <= k < uents.len() ==> uents[k].wf(num_right, num_left),
    ensures
        forall|j: int|
            0 <= j < spec_nodes_upto(ments, uents, text, mode, p).len() ==> {
                &&& node_wf(
                    #[trigger] spec_nodes_upto(ments, uents, text, mode, p)[j],
                    ments,
                    uents,
                    text,
                    num_right,
                    num_left,
                )
                &&& spec_nodes_upto(ments, uents, text, mode, p)[j].start < p
            },
        forall|j1: int, j2: int|
            0 <= j1 <= j2 < spec_nodes_upto(ments, uents, text, mode, p).len()
                ==> #[trigger] spec_nodes_upto(ments, uents, text, mode, p)[j1].start
                <= #[trigger] spec_nodes_upto(ments, uents, text, mode, p)[j2].start,
    decreases p,
{
    if p > 0 {
        lemma_lattice_structure(ments, uents, text, mode, p - 1, num_right, num_left);
        lemma_nodes_at_wf(ments, uents, text, p - 1, mode, num_right, num_left);
        let pre = spec_nodes_upto(ments, uents, text, mode, p - 1);
        let grp = spec_nodes_at(ments, uents, text, p - 1, mode);
        let all = spec_nodes_upto(ments, uents, text, mode, p);
        assert(all == pre + grp);
        assert forall|j: int| 0 <= j < all.len() implies {
            &&& node_wf(#[trigger] all[j], ments, uents, text, num_right, num_left)
            &&& all[j].start < p
        } by {
            if j < pre.len() {
                assert(all[j] == pre[j]);
            } else {
                assert(all[j] == grp[j - pre.len()]);
            }
        }
        assert forall|j1: int, j2: int| 0 <= j1 <= j2 < all.len() implies #[trigger] all[j1].start
            <= #[trigger] all[j2].start by {
            if j1 < pre.len() {
                assert(all[j1] == pre[j1]);
            } else {
                assert(all[j1] == grp[j1 - pre.len()]);
            }
            if j2 < pre.len() {
                assert(all[j2] == pre[j2]);
            } else {
                assert(all[j2] == grp[j2 - pre.len()]);
            }
        }
    }
}

/// Every position `q` before `p` has a node of the lattice starting
/// at it: the unknown-word fallback guarantees a candidate
/// everywhere, so the lattice is connected from begin to end.
pub proof fn lemma_lattice_has_start(
    ments: Seq<WordEntry>,
    uents: Seq<WordEntry>,
    text: Seq<char>,
    mode: Mode,
    p: int,
    q: int,
)
    requires
        0 <= q < p <= text.len() <= usize::MAX,
        ments.len() <= usize::MAX,
        uents.len() <= usize::MAX,
        mode.wf(),
    ensures
        exists|j: int|
            0 <= j < spec_nodes_upto(ments, uents, text, mode, p).len()
                && (#[trigger] spec_nodes_upto(ments, uents, text, mode, p)[j]).start == q,
    decreases p,
{
    let pre = spec_nodes_upto(ments, uents, text, mode, p - 1);
    let grp = spec_nodes_at(ments, uents, text, p - 1, mode);
    let all = spec_nodes_upto(ments, uents, text, mode, p);
    assert(all == pre + grp);
    if q < p - 1 {
        lemma_lattice_has_start(ments, uents, text, mode, p - 1, q);
        let j0 = choose|j: int| 0 <= j < pre.len() && (#[trigger] pre[j]).start == q;
        assert(all[j0] == pre[j0]);
        assert(all[j0].start == q);
    } else {
        lemma_group_first_start(ments, uents, text, q, mode);
        let j0 = pre.len() as int;
        assert(all[j0] == grp[0]);
        assert(all[j0].start == q);
    }
}

/// A candidate group is never empty, and each of its nodes starts
/// at its position.
proof fn lemma_group_first_start(
    ments: Seq<WordEntry>,
    uents: Seq<WordEntry>,
    text: Seq<char>,
    i: int,
    mode: Mode,
)
    requires
        0 <= i < text.len() <= usize::MAX,
        ments.len() <= usize::MAX,
        uents.len() <= usize::MAX,
        mode.wf(),
    ensures
        spec_nodes_at(ments, uents, text, i, mode).len() >= 1,
        spec_nodes_at(ments, uents, text, i, mode)[0].start == i,
{
    lemma_user_starts(uents, text, i, mode, uents.len() as int);
    lemma_main_starts(ments, uents, text, i, mode, ments.len() as int);
}

/// Every user-group node starts at its position (needs no entry
/// well-formedness).
proof fn lemma_user_starts(uents: Seq<WordEntry>, text: Seq<char>, i: int, mode: Mode, n: int)
    requires
        0 <= i <= text.len() <= usize::MAX,
        n <= uents.len() <= usize::MAX,
    ensures
        forall|j: int|
            0 <= j < spec_user_nodes_upto(uents, text, i, mode, n).len()
                ==> (#[trigger] spec_user_nodes_upto(uents, text, i, mode, n)[j]).start == i,
    decreases n,
{
    if n > 0 {
        lemma_user_starts(uents, text, i, mode, n - 1);
    }
}

/// Every main-group node starts at its position (needs no entry
/// well-formedness).
proof fn lemma_main_starts(
    ments: Seq<WordEntry>,
    uents: Seq<WordEntry>,
    text: Seq<char>,
    i: int,
    mode: Mode,
    n: int,
)
    requires
        0 <= i <= text.len() <= usize::MAX,
        n <= ments.len() <= usize::MAX,
    ensures
        forall|j: int|
            0 <= j < spec_main_nodes_upto(ments, uents, text, i, mode, n).len()
                ==> (#[trigger] spec_main_nodes_upto(ments, uents, text, i, mode, n)[j]).start
                == i,
    decreases n,
{
    if n > 0 {
        lemma_main_starts(ments, uents, text, i, mode, n - 1);
    }
}

/// Decides whether a user entry matches at `i` with surface length
/// `len`, overriding main entries over that span.
#[verifier::loop_isolation(false)]
fn user_covers(uents: &Vec<WordEntry>, text: &[char], i: usize, len: usize) -> (b: bool)
    requires
        i <= text@.len(),
    ensures
        b == spec_user_covers(uents@, text@, i as int, len as int),
{
    let n = uents.len();
    let mut j: usize = 0;
    while j < n
        invariant
            j <= n,
            forall|k: int|
                0 <= k < j ==> !(Dictionary::spec_matches_at(text@, uents@[k], i as int)
                    && uents@[k].surface@.len() == len),
        decreases n - j,
    {
        let e = &uents[j];
        if e.surface.len() == len && chars_match_at(text, i, e.surface.as_slice()) {
            return true;
        }
        j = j + 1;
    }
    false
}

/// Builds the lattice node of a matching entry at position `i`.
fn known_node(e: &WordEntry, i: usize, src: NodeSource, mode: &Mode) -> (nd: LatticeNode)
    requires
        i + e.surface@.len() <= usize::MAX,
    ensures
        nd == spec_known_node(*e, i as int, src, *mode),
{
    let len = e.surface.len();
    let ak = all_kanji(e.surface.as_slice(), 0, len);
    proof {
        assert(e.surface@.subrange(0, len as int) =~= e.surface@);
    }
    let pen = mode_penalty(mode, ak, len);
    LatticeNode {
        start: i,
        end: i + len,
        left_id: e.left_id,
        right_id: e.right_id,
        cost: e.word_cost as i64 + pen as i64,
        source: src,
    }
}

/// Builds the candidate group of position `i`: user matches, then
/// uncovered main matches, or the unknown-word fallback.
#[verifier::loop_isolation(false)]
fn nodes_at(
    ments: &Vec<WordEntry>,
    ud: &Option<UserDictionary>,
    text: &[char],
    i: usize,
    mode: &Mode,
) -> (g: Vec<LatticeNode>)
    requires
        i < text@.len(),
    ensures
        g@ == spec_nodes_at(ments@, spec_uents(*ud), text@, i as int, *mode),
{
    let tlen = text.len();
    let ghost uents = spec_uents(*ud);
    let mut g: Vec<LatticeNode> = Vec::new();
    match ud {
        Some(u) => {
            let n = u.entries.len();
            let mut k: usize = 0;
            while k < n
                invariant
                    k <= n,
                    n == uents.len(),
                    uents == u.entries@,
                    g@ == spec_user_nodes_upto(uents, text@, i as int, *mode, k as int),
                decreases n - k,
            {
                let e = &u.entries[k];
                if chars_match_at(text, i, e.surface.as_slice()) {
                    let nd = known_node(e, i, NodeSource::User(k), mode);
                    g.push(nd);
                }
                k = k + 1;
            }
        },
        None => {
            assert(g@ =~= spec_user_nodes_upto(uents, text@, i as int, *mode, uents.len() as int));
        },
    }
    assert(g@ == spec_user_nodes_upto(uents, text@, i as int, *mode, uents.len() as int));
    let ghost ubase = g@;
    let n = ments.len();
    let mut k: usize = 0;
    while k < n
        invariant
            k <= n,
            g@ == ubase + spec_main_nodes_upto(ments@, uents, text@, i as int, *mode, k as int),
        decreases n - k,
    {
        let e = &ments[k];
        if chars_match_at(text, i, e.surface.as_slice()) {
            let covered = match ud {
                Some(u) => user_covers(&u.entries, text, i, e.surface.len()),
                None => false,
            };
            if !covered {
                let nd = known_node(e, i, NodeSource::Main(k), mode);
                g.push(nd);
            }
        }
        proof {
            assert(g@ =~= ubase + spec_main_nodes_upto(
                ments@,
                uents,
                text@,
                i as int,
                *mode,
                k + 1,
            ));
        }
        k = k + 1;
    }
    if g.len() == 0 {
        let nd = LatticeNode {
            start: i,
            end: i + 1,
            left_id: 0,
            right_id: 0,
            cost: UNKNOWN_WORD_COST as i64,
            source: NodeSource::Unknown,
        };
        g.push(nd);
        assert(g@ =~= seq![spec_unknown_node(i as int)]);
    }
    g
}

/// Builds the whole lattice of `text`, one candidate group per
/// character position, in position order.
#[verifier::loop_isolation(false)]
pub fn build_lattice(
    ments: &Vec<WordEntry>,
    ud: &Option<UserDictionary>,
    text: &[char],
    mode: &Mode,
) -> (nodes: Vec<LatticeNode>)
    ensures
        nodes@ == spec_lattice(ments@, spec_uents(*ud), text@, *mode),
{
    let n = text.len();
    let mut nodes: Vec<LatticeNode> = Vec::new();
    let mut p: usize = 0;
    while p < n
        invariant
            p <= n,
            nodes@ == spec_nodes_upto(ments@, spec_uents(*ud), text@, *mode, p as int),
        decreases n - p,
    {
        let mut g = nodes_at(ments, ud, text, p, mode);
        nodes.append(&mut g);
        p = p + 1;
    }
    nodes
}

/// Mode sensitivity, at the level where it is exact: decompose
/// mode never lowers a candidate's cost below normal mode, and
/// leaves a candidate at or under its class threshold with exactly
/// its normal cost.  Decompose therefore only biases the search
/// toward paths of shorter candidates; which path wins still
/// depends on the dictionary's costs.
pub proof fn lemma_decompose_node_cost(e: WordEntry, i: int, src: NodeSource, p: Penalty)
    requires
        p.wf(),
    ensures
        spec_known_node(e, i, src, Mode::Decompose(p)).cost as int >= spec_known_node(
            e,
            i,
            src,
            Mode::Normal,
        ).cost as int,
        spec_all_kanji(e.surface@) && e.surface@.len() <= p.kanji_penalty_length_threshold
            ==> spec_known_node(e, i, src, Mode::Decompose(p)).cost == spec_known_node(
            e,
            i,
            src,
            Mode::Normal,
        ).cost,
        !spec_all_kanji(e.surface@) && e.surface@.len() <= p.other_penalty_length_threshold
            ==> spec_known_node(e, i, src, Mode::Decompose(p)).cost == spec_known_node(
            e,
            i,
            src,
            Mode::Normal,
        ).cost,
{
    crate::mode::lemma_decompose_only_penalizes(p, spec_all_kanji(e.surface@), e.surface@.len());
}

} // verus!
