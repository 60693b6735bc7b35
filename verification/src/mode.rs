//! Segmentation modes and the decompose penalty.
//!
//! `Normal` picks the single least-cost path through the lattice.
//! `Decompose` raises the cost of long candidate tokens before the
//! search, biasing it toward shorter, more granular tokens: a
//! candidate whose character length exceeds the threshold for its
//! character class (kanji, or anything else) has the class's penalty
//! added once to its word cost.

use vstd::prelude::*;

verus! {

use crate::error::{LinderaError, LinderaErrorKind};
use crate::text::str_eq;

/// The length thresholds and additive penalties of decompose mode.
#[derive(Clone, Copy, Debug, PartialEq, Eq, Structural)]
pub struct Penalty {
    pub kanji_penalty_length_threshold: usize,
    pub kanji_penalty_length_penalty: i32,
    pub other_penalty_length_threshold: usize,
    pub other_penalty_length_penalty: i32,
}

impl Penalty {
    /// True when both penalties are non-negative; segmentation
    /// contracts assume penalties only ever raise a cost.
    pub open spec fn wf(self) -> bool {
        self.kanji_penalty_length_penalty >= 0 && self.other_penalty_length_penalty >= 0
    }

    /// The stock penalty, as a mathematical value.
    pub open spec fn spec_default() -> Penalty {
        Penalty {
            kanji_penalty_length_threshold: 2,
            kanji_penalty_length_penalty: 3000,
            other_penalty_length_threshold: 7,
            other_penalty_length_penalty: 1700,
        }
    }
}

impl Default for Penalty {
    /// The stock decompose penalty: kanji runs longer than 2
    /// characters pay 3000, any other run longer than 7 characters
    /// pays 1700.
    fn default() -> (r: Penalty)
        ensures
            r == Penalty::spec_default(),
            r.wf(),
    {
        Penalty {
            kanji_penalty_length_threshold: 2,
            kanji_penalty_length_penalty: 3000,
            other_penalty_length_threshold: 7,
            other_penalty_length_penalty: 1700,
        }
    }
}

/// How the minimum-cost search scores candidate tokens.
#[derive(Clone, Copy, Debug, PartialEq, Eq, Structural)]
pub enum Mode {
    Normal,
    Decompose(Penalty),
}

impl Mode {
    pub open spec fn wf(self) -> bool {
        match self {
            Mode::Normal => true,
            Mode::Decompose(p) => p.wf(),
        }
    }

    /// True when this is decompose mode.
    pub fn is_decompose(&self) -> (r: bool)
        ensures
            r == (self matches Mode::Decompose(_)),
    {
        matches!(self, Mode::Decompose(_))
    }

    /// True when this is normal mode.
    pub fn is_normal(&self) -> (r: bool)
        ensures
            r == (self matches Mode::Normal),
    {
        matches!(self, Mode::Normal)
    }

    /// The name of this mode, as configuration spells it.
    pub fn name(&self) -> (r: &'static str)
        ensures
            self matches Mode::Normal ==> r@ == "normal"@,
            self matches Mode::Decompose(_) ==> r@ == "decompose"@,
    {
        match self {
            Mode::Normal => "normal",
            Mode::Decompose(_) => "decompose",
        }
    }
}

/// True when `c` is a kanji (a CJK unified ideograph, basic block or
/// extension A).
pub open spec fn spec_is_kanji(c: char) -> bool {
    (0x4E00 <= c as u32 <= 0x9FFF) || (0x3400 <= c as u32 <= 0x4DBF)
}

/// Decides whether a character is a kanji.
pub fn is_kanji(c: char) -> (r: bool)
    ensures
        r == spec_is_kanji(c),
{
    let u = c as u32;
    (0x4E00 <= u && u <= 0x9FFF) || (0x3400 <= u && u <= 0x4DBF)
}

/// True when every character of `s` is a kanji; a candidate made of
/// kanji alone is judged by the kanji threshold, anything else by the
/// other threshold.
pub open spec fn spec_all_kanji(s: Seq<char>) -> bool {
    forall|i: int| 0 <= i < s.len() ==> spec_is_kanji(s[i])
}

/// Decides whether every character of `s` is a kanji.
#[verifier::loop_isolation(false)]
pub fn all_kanji(s: &[char], from: usize, to: usize) -> (r: bool)
    requires
        from <= to <= s@.len(),
    ensures
        r == spec_all_kanji(s@.subrange(from as int, to as int)),
{
    let ghost sub = s@.subrange(from as int, to as int);
    let mut i: usize = from;
    while i < to
        invariant
            from <= i <= to,
            forall|k: int| 0 <= k < i - from ==> spec_is_kanji(sub[k]),
        decreases to - i,
    {
        assert(sub[i - from] == s@[i as int]);
        if !is_kanji(s[i]) {
            return false;
        }
        i = i + 1;
    }
    true
}

/// The additional cost this mode lays on a candidate token whose
/// surface has `len` characters: zero in normal mode, the class
/// penalty in decompose mode once `len` exceeds the class threshold.
pub open spec fn spec_mode_penalty(mode: Mode, all_kanji: bool, len: nat) -> int {
    match mode {
        Mode::Normal => 0,
        Mode::Decompose(p) => {
            if all_kanji {
                if len > p.kanji_penalty_length_threshold {
                    p.kanji_penalty_length_penalty as int
                } else {
                    0
                }
            } else {
                if len > p.other_penalty_length_threshold {
                    p.other_penalty_length_penalty as int
                } else {
                    0
                }
            }
        },
    }
}

/// Computes the penalty a mode lays on a candidate of `len`
/// characters.
pub fn mode_penalty(mode: &Mode, all_kanji: bool, len: usize) -> (r: i32)
    ensures
        r == spec_mode_penalty(*mode, all_kanji, len as nat),
{
    match mode {
        Mode::Normal => 0,
        Mode::Decompose(p) => {
            if all_kanji {
                if len > p.kanji_penalty_length_threshold {
                    p.kanji_penalty_length_penalty
                } else {
                    0
                }
            } else {
                if len > p.other_penalty_length_threshold {
                    p.other_penalty_length_penalty
                } else {
                    0
                }
            }
        },
    }
}

/// Decompose mode never lowers a candidate's cost below what normal
/// mode gives it, and leaves a candidate at or under its class
/// threshold untouched.
pub proof fn lemma_decompose_only_penalizes(p: Penalty, all_kanji: bool, len: nat)
    requires
        p.wf(),
    ensures
        spec_mode_penalty(Mode::Decompose(p), all_kanji, len) >= spec_mode_penalty(
            Mode::Normal,
            all_kanji,
            len,
        ),
        all_kanji && len <= p.kanji_penalty_length_threshold ==> spec_mode_penalty(
            Mode::Decompose(p),
            all_kanji,
            len,
        ) == 0,
        !all_kanji && len <= p.other_penalty_length_threshold ==> spec_mode_penalty(
            Mode::Decompose(p),
            all_kanji,
            len,
        ) == 0,
{
}

/// True when `s` is one of the four accepted mode names.
pub open spec fn spec_mode_name_ok(s: Seq<char>) -> bool {
    s == "normal"@ || s == "Normal"@ || s == "decompose"@ || s == "Decompose"@
}

/// Reads a mode name: `"normal"` and `"decompose"` (capitalised or
/// not) are the two modes; decompose carries the stock penalty.  Any
/// other name is a configuration error.
pub fn parse_mode(s: &str) -> (r: Result<Mode, LinderaError>)
    ensures
        (s@ == "normal"@ || s@ == "Normal"@) <==> (r matches Ok(m) && m == Mode::Normal),
        (s@ == "decompose"@ || s@ == "Decompose"@) <==> (r matches Ok(m) && m
            == Mode::Decompose(Penalty::spec_default())),
        r matches Ok(m) ==> (m == Mode::Normal || m == Mode::Decompose(Penalty::spec_default())),
        r is Ok <==> spec_mode_name_ok(s@),
        r matches Err(e) ==> e.kind == LinderaErrorKind::Config,
{
    proof {
        reveal_strlit("normal");
        reveal_strlit("Normal");
        reveal_strlit("decompose");
        reveal_strlit("Decompose");
        assert("normal"@[0] == 'n');
        assert("Normal"@[0] == 'N');
        assert("decompose"@[0] == 'd');
        assert("Decompose"@[0] == 'D');
    }
    if str_eq(s, "normal") || str_eq(s, "Normal") {
        Ok(Mode::Normal)
    } else if str_eq(s, "decompose") || str_eq(s, "Decompose") {
        Ok(Mode::Decompose(Penalty::default()))
    } else {
        Err(
            LinderaError::new(
                LinderaErrorKind::Config,
                String::from_str("invalid mode: expected 'normal' or 'decompose'"),
            ),
        )
    }
}

} // verus!
