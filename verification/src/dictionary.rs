//! The dictionary data model: entries, the connection-cost matrix,
//! and prefix lookup.
//!
//! A dictionary is immutable once constructed and is only ever read
//! by segmenters; nothing here mutates one.  The user dictionary is
//! a smaller overlay of the same entry shape, consulted with
//! priority over the main dictionary (see the segmenter).

use vstd::prelude::*;

verus! {

use crate::error::{LinderaError, LinderaErrorKind};
use crate::text::chars_match_at;

/// One dictionary entry.
///
/// `surface` is the non-empty character sequence the entry matches;
/// `left_id` and `right_id` are its connection-cost categories;
/// `word_cost` is its intrinsic cost; `details` is the ordered list
/// of metadata fields the dictionary's schema defines.
#[derive(Clone, Debug)]
pub struct WordEntry {
    pub surface: Vec<char>,
    pub left_id: u16,
    pub right_id: u16,
    pub word_cost: i32,
    pub details: Vec<String>,
}

impl WordEntry {
    /// Validity of one entry against the matrix dimensions: the
    /// surface is non-empty and both category ids index the matrix.
    pub open spec fn wf(self, num_right: int, num_left: int) -> bool {
        &&& self.surface@.len() > 0
        &&& (self.left_id as int) < num_left
        &&& (self.right_id as int) < num_right
    }
}

/// Descriptive metadata of a dictionary: its name, the character
/// encoding of its source corpus, and the number of detail fields
/// its schema declares for every entry.
#[derive(Clone, Debug)]
pub struct Metadata {
    pub name: String,
    pub encoding: String,
    pub num_fields: usize,
}

/// The dense connection-cost table between adjacency categories:
/// `cost(right_id_of_prev, left_id_of_next)` scores an edge between
/// two adjacent lattice nodes.  Category 0 is reserved for the
/// virtual begin and end of text, so both dimensions are at least 1.
#[derive(Clone, Debug)]
pub struct ConnectionMatrix {
    pub num_right: usize,
    pub num_left: usize,
    pub costs: Vec<i32>,
}

impl ConnectionMatrix {
    /// The table is dense: one cost for every category pair.
    pub open spec fn wf(self) -> bool {
        &&& self.num_right >= 1
        &&& self.num_left >= 1
        &&& self.costs@.len() == self.num_right * self.num_left
    }

    /// The cost of joining a node of right category `r` to a
    /// following node of left category `l`.
    pub open spec fn spec_cost(self, r: int, l: int) -> int {
        self.costs@[r * self.num_left + l] as int
    }

    /// Looks a connection cost up; O(1).
    pub fn cost(&self, r: u16, l: u16) -> (c: i32)
        requires
            self.wf(),
            (r as int) < self.num_right,
            (l as int) < self.num_left,
        ensures
            c as int == self.spec_cost(r as int, l as int),
    {
        let clen = self.costs.len();
        proof {
            assert((r as int) * (self.num_left as int) + (l as int) < (self.num_right as int) * (
            self.num_left as int)) by (nonlinear_arith)
                requires
                    (r as int) < self.num_right as int,
                    (l as int) < self.num_left as int,
                    self.num_left >= 1,
            ;
        }
        self.costs[(r as usize) * self.num_left + (l as usize)]
    }
}

/// An immutable dictionary: metadata, the entry table, and the
/// connection-cost matrix.
#[derive(Clone, Debug)]
pub struct Dictionary {
    pub metadata: Metadata,
    pub entries: Vec<WordEntry>,
    pub matrix: ConnectionMatrix,
}

impl Dictionary {
    /// Validity of the whole dictionary: a dense matrix and entries
    /// whose category ids index it.
    pub open spec fn wf(self) -> bool {
        &&& self.matrix.wf()
        &&& forall|k: int|
            0 <= k < self.entries@.len() ==> self.entries@[k].wf(
                self.matrix.num_right as int,
                self.matrix.num_left as int,
            )
    }

    /// Builds a dictionary after validating it: the result is `Ok`
    /// exactly when the parts form a well-formed dictionary, and
    /// then holds exactly those parts.
    pub fn new(metadata: Metadata, entries: Vec<WordEntry>, matrix: ConnectionMatrix) -> (r:
        Result<Dictionary, LinderaError>)
        ensures
            match r {
                Ok(d) => {
                    &&& d.wf()
                    &&& d.metadata == metadata
                    &&& d.entries == entries
                    &&& d.matrix == matrix
                },
                Err(e) => {
                    &&& e.kind == LinderaErrorKind::Format
                    &&& !(Dictionary { metadata, entries, matrix }).wf()
                },
            },
    {
        let d = Dictionary { metadata, entries, matrix };
        if d.validate() {
            Ok(d)
        } else {
            Err(
                LinderaError::new(
                    LinderaErrorKind::Format,
                    String::from_str("malformed dictionary: entry ids or matrix shape are wrong"),
                ),
            )
        }
    }

    /// Decides well-formedness.
    #[verifier::loop_isolation(false)]
    pub fn validate(&self) -> (b: bool)
        ensures
            b == self.wf(),
    {
        if self.matrix.num_right < 1 || self.matrix.num_left < 1 {
            return false;
        }
        let clen = self.matrix.costs.len();
        let prod = match self.matrix.num_right.checked_mul(self.matrix.num_left) {
            Some(p) => p,
            None => {
                return false;
            },
        };
        if clen != prod {
            return false;
        }
        let n = self.entries.len();
        let mut k: usize = 0;
        while k < n
            invariant
                k <= n,
                forall|j: int|
                    0 <= j < k ==> self.entries@[j].wf(
                        self.matrix.num_right as int,
                        self.matrix.num_left as int,
                    ),
            decreases n - k,
        {
            let e = &self.entries[k];
            if e.surface.len() == 0 || (e.left_id as usize) >= self.matrix.num_left || (
            e.right_id as usize) >= self.matrix.num_right {
                return false;
            }
            k = k + 1;
        }
        true
    }

    /// True when `e`'s surface occurs in `text` starting at
    /// character position `i`.
    pub open spec fn spec_matches_at(text: Seq<char>, e: WordEntry, i: int) -> bool {
        &&& i + e.surface@.len() <= text.len()
        &&& text.subrange(i, i + e.surface@.len()) == e.surface@
    }

    /// The indices, in increasing order, of the entries among
    /// `entries[0..n]` whose surface occurs at position `i` of
    /// `text`.
    pub open spec fn spec_lookup_upto(
        entries: Seq<WordEntry>,
        text: Seq<char>,
        i: int,
        n: int,
    ) -> Seq<int>
        decreases n,
    {
        if n <= 0 {
            Seq::empty()
        } else {
            let pre = Self::spec_lookup_upto(entries, text, i, n - 1);
            if Self::spec_matches_at(text, entries[n - 1], i) {
                pre.push(n - 1)
            } else {
                pre
            }
        }
    }

    /// The indices, in increasing order, of all entries matching at
    /// position `i` of `text`: the candidates the lattice gets from
    /// this entry table at that position.
    pub open spec fn spec_lookup(entries: Seq<WordEntry>, text: Seq<char>, i: int) -> Seq<int> {
        Self::spec_lookup_upto(entries, text, i, entries.len() as int)
    }

    /// Collects the indices of the entries of `entries` matching at
    /// character position `i` of `text`, in entry order.
    #[verifier::loop_isolation(false)]
    pub fn lookup_indices(entries: &Vec<WordEntry>, text: &[char], i: usize) -> (r: Vec<usize>)
        requires
            i <= text@.len(),
        ensures
            r@.map_values(|x: usize| x as int) == Self::spec_lookup(entries@, text@, i as int),
    {
        let n = entries.len();
        let mut r: Vec<usize> = Vec::new();
        let mut k: usize = 0;
        while k < n
            invariant
                k <= n,
                r@.map_values(|x: usize| x as int) == Self::spec_lookup_upto(
                    entries@,
                    text@,
                    i as int,
                    k as int,
                ),
            decreases n - k,
        {
            let e = &entries[k];
            if chars_match_at(text, i, e.surface.as_slice()) {
                r.push(k);
                assert(r@.map_values(|x: usize| x as int) =~= Self::spec_lookup_upto(
                    entries@,
                    text@,
                    i as int,
                    k as int,
                ).push(k as int));
            } else {
                assert(r@.map_values(|x: usize| x as int) =~= Self::spec_lookup_upto(
                    entries@,
                    text@,
                    i as int,
                    k as int,
                ));
            }
            k = k + 1;
        }
        r
    }
}

/// The user dictionary overlay: a smaller entry table that takes
/// precedence over the main dictionary for spans it matches.  Its
/// category ids refer to the main dictionary's matrix.
#[derive(Clone, Debug)]
pub struct UserDictionary {
    pub entries: Vec<WordEntry>,
}

impl UserDictionary {
    /// Validity against the matrix of the main dictionary it will
    /// overlay.
    pub open spec fn wf(self, num_right: int, num_left: int) -> bool {
        forall|k: int| 0 <= k < self.entries@.len() ==> self.entries@[k].wf(num_right, num_left)
    }

    /// Builds a user dictionary after validating its entries against
    /// the main dictionary it overlays: `Ok` exactly when every
    /// entry is well-formed for that dictionary's matrix.
    #[verifier::loop_isolation(false)]
    pub fn new(entries: Vec<WordEntry>, main: &Dictionary) -> (r: Result<
        UserDictionary,
        LinderaError,
    >)
        ensures
            match r {
                Ok(u) => {
                    &&& u.wf(main.matrix.num_right as int, main.matrix.num_left as int)
                    &&& u.entries == entries
                },
                Err(e) => {
                    &&& e.kind == LinderaErrorKind::Format
                    &&& !(UserDictionary { entries }).wf(
                        main.matrix.num_right as int,
                        main.matrix.num_left as int,
                    )
                },
            },
    {
        let n = entries.len();
        let mut k: usize = 0;
        let mut ok = true;
        while k < n
            invariant
                k <= n,
                ok == forall|j: int|
                    0 <= j < k ==> entries@[j].wf(
                        main.matrix.num_right as int,
                        main.matrix.num_left as int,
                    ),
            decreases n - k,
        {
            let e = &entries[k];
            if e.surface.len() == 0 || (e.left_id as usize) >= main.matrix.num_left || (
            e.right_id as usize) >= main.matrix.num_right {
                ok = false;
            }
            k = k + 1;
        }
        if ok {
            Ok(UserDictionary { entries })
        } else {
            proof {
                let nr = main.matrix.num_right as int;
                let nl = main.matrix.num_left as int;
                assert(exists|j: int| 0 <= j < entries@.len() && !entries@[j].wf(nr, nl));
                let j0 = choose|j: int| 0 <= j < entries@.len() && !entries@[j].wf(nr, nl);
                let u0 = UserDictionary { entries };
                assert(u0.entries@[j0] == entries@[j0]);
                assert(!u0.wf(nr, nl));
            }
            Err(
                LinderaError::new(
                    LinderaErrorKind::Format,
                    String::from_str("malformed user dictionary entry"),
                ),
            )
        }
    }
}

} // verus!
