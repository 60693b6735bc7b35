//! Offset-correction tables for the character filter pipeline.
//!
//! A filter rewrites text; its offset map sends every character
//! boundary of the rewritten text back to a boundary of the text it
//! was given.  The map is total and monotonic, so downstream spans
//! translate without gaps appearing out of order.  Maps compose:
//! the pipeline threads one accumulated map from the final filtered
//! text all the way back to the original.

use vstd::prelude::*;

verus! {

/// A total, monotonic map from the character boundaries of a
/// filtered text (`0 ..= filtered_len`) to boundaries of the text
/// the filter received.
#[derive(Clone, Debug)]
pub struct OffsetMap {
    pub boundaries: Vec<usize>,
}

impl OffsetMap {
    /// Validity for a filtered text of `flen` characters over a
    /// source text of `prev_len` characters: one entry per
    /// boundary, monotonic, within the source.
    pub open spec fn wf(self, flen: int, prev_len: int) -> bool {
        &&& self.boundaries@.len() == flen + 1
        &&& forall|i: int, j: int|
            0 <= i <= j <= flen ==> #[trigger] self.boundaries@[i] <= #[trigger] self.boundaries@[j]
        &&& forall|i: int| 0 <= i <= flen ==> #[trigger] self.boundaries@[i] <= prev_len
    }

    /// The source boundary of filtered boundary `i`.
    pub open spec fn spec_at(self, i: int) -> int {
        self.boundaries@[i] as int
    }

    /// The whole boundary table, as mathematical values.
    pub open spec fn bnds(self) -> Seq<int> {
        self.boundaries@.map_values(|x: usize| x as int)
    }

    /// Looks a boundary up.
    pub fn at(&self, i: usize) -> (r: usize)
        requires
            (i as int) < self.boundaries@.len(),
        ensures
            r as int == self.spec_at(i as int),
    {
        self.boundaries[i]
    }

    /// The identity map of a text of `len` characters: every
    /// boundary maps to itself.
    #[verifier::loop_isolation(false)]
    pub fn identity(len: usize) -> (r: OffsetMap)
        requires
            len < usize::MAX,
        ensures
            r.wf(len as int, len as int),
            forall|i: int| 0 <= i <= len ==> r.spec_at(i) == i,
            r.bnds() == Seq::new(len as nat + 1, |j: int| j),
    {
        let mut boundaries: Vec<usize> = Vec::new();
        let mut i: usize = 0;
        while i <= len
            invariant
                len < usize::MAX,
                i <= len + 1,
                boundaries@.len() == i,
                forall|j: int| 0 <= j < i ==> #[trigger] boundaries@[j] == j,
            decreases len + 1 - i,
        {
            boundaries.push(i);
            i = i + 1;
        }
        let r = OffsetMap { boundaries };
        proof {
            assert(r.bnds() =~= Seq::new(len as nat + 1, |j: int| j));
        }
        r
    }

    /// Composes two maps: `outer` sends boundaries of a middle text
    /// to the source, `inner` sends boundaries of the filtered text
    /// to the middle text; the result sends filtered boundaries to
    /// the source.
    #[verifier::loop_isolation(false)]
    pub fn compose(outer: &OffsetMap, inner: &OffsetMap, mid_len: usize, flen: usize,
        src_len: usize) -> (r: OffsetMap)
        requires
            flen < usize::MAX,
            outer.wf(mid_len as int, src_len as int),
            inner.wf(flen as int, mid_len as int),
        ensures
            r.wf(flen as int, src_len as int),
            forall|i: int| 0 <= i <= flen ==> r.spec_at(i) == outer.spec_at(inner.spec_at(i)),
    {
        let mut boundaries: Vec<usize> = Vec::new();
        let mut i: usize = 0;
        while i <= flen
            invariant
                flen < usize::MAX,
                i <= flen + 1,
                boundaries@.len() == i,
                forall|j: int|
                    0 <= j < i ==> #[trigger] boundaries@[j] as int == outer.spec_at(
                        inner.spec_at(j),
                    ),
                forall|j: int| 0 <= j < i ==> #[trigger] boundaries@[j] <= src_len,
            decreases flen + 1 - i,
        {
            let m = inner.at(i);
            boundaries.push(outer.at(m));
            i = i + 1;
        }
        let r = OffsetMap { boundaries };
        proof {
            assert forall|i2: int, j2: int| 0 <= i2 <= j2 <= flen implies #[trigger] r.boundaries@[i2]
                <= #[trigger] r.boundaries@[j2] by {
                assert(inner.boundaries@[i2] <= inner.boundaries@[j2]);
                assert(outer.boundaries@[inner.spec_at(i2)] <= outer.boundaries@[inner.spec_at(
                    j2,
                )]);
            }
        }
        r
    }
}

} // verus!
