//! The offline dictionary builder and the binary dictionary
//! formats (main and user overlay).
//!
//! The builder ingests a tabular lexicon and a connection-cost
//! matrix description, validates them against the declared schema,
//! and serializes the dictionary into a self-contained byte
//! layout.  Parsing and serialization are pinned to spec functions
//! of the source texts, so building twice from identical input
//! yields identical bytes.  The loaders read the layouts back,
//! rejecting a foreign magic number as corrupt and a changed
//! version as a version mismatch.
//!
//! Layout, little-endian throughout: a four-byte magic number, a
//! format version byte, the metadata (name, encoding, field
//! count), the entry table, and the connection matrix.  Strings
//! are a character count followed by one 32-bit scalar per
//! character; costs are 32-bit two's complement.

use vstd::prelude::*;

verus! {

use crate::dictionary::{ConnectionMatrix, Dictionary, Metadata, UserDictionary, WordEntry};
use crate::error::{LinderaError, LinderaErrorKind};

/// The four magic bytes that begin every compiled dictionary.
pub open spec fn spec_magic() -> Seq<u8> {
    seq![0x4Cu8, 0x44u8, 0x43u8, 0x31u8]
}

/// The format version this crate writes and reads.
pub const FORMAT_VERSION: u8 = 1;

/// The four little-endian bytes of a 32-bit value.
pub open spec fn enc_u32(v: u32) -> Seq<u8> {
    seq![
        (v % 0x100) as u8,
        ((v / 0x100) % 0x100) as u8,
        ((v / 0x10000) % 0x100) as u8,
        ((v / 0x1000000) % 0x100) as u8,
    ]
}

/// The encoding of a character sequence: its length, then one
/// 32-bit scalar per character.
pub open spec fn enc_chars(s: Seq<char>, n: int) -> Seq<u8>
    decreases n,
{
    if n <= 0 {
        Seq::empty()
    } else {
        enc_chars(s, n - 1) + enc_u32(s[n - 1] as u32)
    }
}

/// The encoding of a string: length-prefixed characters.
pub open spec fn enc_str(s: Seq<char>) -> Seq<u8> {
    enc_u32(s.len() as u32) + enc_chars(s, s.len() as int)
}

/// The encoding of a detail field list.
pub open spec fn enc_details(d: Seq<Seq<char>>, n: int) -> Seq<u8>
    decreases n,
{
    if n <= 0 {
        Seq::empty()
    } else {
        enc_details(d, n - 1) + enc_str(d[n - 1])
    }
}

/// The encoding of one entry: surface, category ids, cost,
/// details.
pub open spec fn enc_entry(e: WordEntry) -> Seq<u8> {
    enc_str(e.surface@) + enc_u32(e.left_id as u32) + enc_u32(e.right_id as u32) + enc_u32(
        e.word_cost as u32,
    ) + enc_u32(e.details@.len() as u32) + enc_details(e.details.deep_view(), e.details@.len() as int)
}

/// The encoding of an entry table.
pub open spec fn enc_entries(es: Seq<WordEntry>, n: int) -> Seq<u8>
    decreases n,
{
    if n <= 0 {
        Seq::empty()
    } else {
        enc_entries(es, n - 1) + enc_entry(es[n - 1])
    }
}

/// The encoding of the cost table of a matrix.
pub open spec fn enc_costs(cs: Seq<i32>, n: int) -> Seq<u8>
    decreases n,
{
    if n <= 0 {
        Seq::empty()
    } else {
        enc_costs(cs, n - 1) + enc_u32(cs[n - 1] as u32)
    }
}

/// Whether a dictionary's declared lengths all fit the 32-bit
/// cells of the binary layout.
pub open spec fn dict_fits_layout(d: Dictionary) -> bool {
    &&& d.metadata.name@.len() <= u32::MAX
    &&& d.metadata.encoding@.len() <= u32::MAX
    &&& d.metadata.num_fields <= u32::MAX
    &&& d.entries@.len() <= u32::MAX
    &&& d.matrix.num_right <= u32::MAX
    &&& d.matrix.num_left <= u32::MAX
    &&& d.matrix.costs@.len() <= u32::MAX
    &&& forall|i: int|
        0 <= i < d.entries@.len() ==> {
            &&& (#[trigger] d.entries@[i]).surface@.len() <= u32::MAX
            &&& d.entries@[i].details@.len() <= u32::MAX
            &&& forall|j: int|
                0 <= j < d.entries@[i].details@.len() ==> (#[trigger] d.entries@[i].details@[j])@.len()
                    <= u32::MAX
        }
}

/// The encoding of a whole dictionary: magic, version, metadata,
/// entries, matrix.
pub open spec fn spec_encode_dictionary(d: Dictionary) -> Seq<u8> {
    spec_magic() + seq![FORMAT_VERSION] + enc_str(d.metadata.name@) + enc_str(d.metadata.encoding@)
        + enc_u32(d.metadata.num_fields as u32) + enc_u32(d.entries@.len() as u32) + enc_entries(
        d.entries@,
        d.entries@.len() as int,
    ) + enc_u32(d.matrix.num_right as u32) + enc_u32(d.matrix.num_left as u32) + enc_costs(
        d.matrix.costs@,
        d.matrix.costs@.len() as int,
    )
}

/// Appends the four little-endian bytes of `v`.
fn push_u32(out: &mut Vec<u8>, v: u32)
    ensures
        final(out)@ == old(out)@ + enc_u32(v),
{
    out.push((v % 0x100) as u8);
    out.push(((v / 0x100) % 0x100) as u8);
    out.push(((v / 0x10000) % 0x100) as u8);
    out.push(((v / 0x1000000) % 0x100) as u8);
    proof {
        assert(out@ =~= old(out)@ + enc_u32(v));
    }
}

/// Appends the encoding of a string.
#[verifier::loop_isolation(false)]
fn push_str(out: &mut Vec<u8>, s: &String)
    requires
        s@.len() <= u32::MAX,
    ensures
        final(out)@ == old(out)@ + enc_str(s@),
{
    let chars = crate::text::to_chars(s.as_str());
    let n = chars.len();
    push_u32(out, n as u32);
    let ghost base = out@;
    let mut i: usize = 0;
    while i < n
        invariant
            i <= n,
            out@ == base + enc_chars(s@, i as int),
        decreases n - i,
    {
        let c = chars[i];
        push_u32(out, c as u32);
        proof {
            assert(out@ =~= base + (enc_chars(s@, i as int) + enc_u32(s@[i as int] as u32)));
            assert(base + (enc_chars(s@, i as int) + enc_u32(s@[i as int] as u32)) =~= base
                + enc_chars(s@, i + 1));
        }
        i = i + 1;
    }
    proof {
        assert(out@ =~= old(out)@ + enc_str(s@));
    }
}

/// Whether one entry's declared lengths fit the layout's 32-bit
/// cells.
pub open spec fn entry_fits_layout(e: WordEntry) -> bool {
    &&& e.surface@.len() <= u32::MAX
    &&& e.details@.len() <= u32::MAX
    &&& forall|j: int| 0 <= j < e.details@.len() ==> (#[trigger] e.details@[j])@.len() <= u32::MAX
}

/// Appends the encoding of one entry; reports an entry whose
/// lengths do not fit instead of writing it.
#[verifier::loop_isolation(false)]
fn push_entry(out: &mut Vec<u8>, e: &WordEntry) -> (ok: bool)
    ensures
        ok ==> final(out)@ == old(out)@ + enc_entry(*e) && entry_fits_layout(*e),
        !ok ==> !entry_fits_layout(*e),
{
    let surface = crate::text::chars_to_string(e.surface.as_slice());
    if surface.as_str().unicode_len() > (u32::MAX as usize) || e.details.len() > (
    u32::MAX as usize) {
        return false;
    }
    let ghost ebase = out@;
    push_str(out, &surface);
    push_u32(out, e.left_id as u32);
    push_u32(out, e.right_id as u32);
    push_u32(out, e.word_cost as u32);
    push_u32(out, e.details.len() as u32);
    let ghost dbase = out@;
    let dn = e.details.len();
    let mut j: usize = 0;
    while j < dn
        invariant
            j <= dn,
            dn == e.details@.len(),
            out@ == dbase + enc_details(e.details.deep_view(), j as int),
            forall|k: int| 0 <= k < j ==> (#[trigger] e.details@[k])@.len() <= u32::MAX,
        decreases dn - j,
    {
        if e.details[j].as_str().unicode_len() > (u32::MAX as usize) {
            return false;
        }
        push_str(out, &e.details[j]);
        proof {
            assert(e.details.deep_view()[j as int] == e.details@[j as int]@);
            assert(out@ =~= dbase + (enc_details(e.details.deep_view(), j as int) + enc_str(
                e.details.deep_view()[j as int],
            )));
            assert(dbase + (enc_details(e.details.deep_view(), j as int) + enc_str(
                e.details.deep_view()[j as int],
            )) =~= dbase + enc_details(e.details.deep_view(), j + 1));
        }
        j = j + 1;
    }
    proof {
        assert(out@ =~= ebase + enc_entry(*e));
    }
    true
}

/// Serializes a dictionary; the bytes are a pure function of the
/// dictionary's value, which is what makes builds reproducible.
/// Succeeds exactly when every declared length fits the layout's
/// 32-bit cells.
#[verifier::loop_isolation(false)]
#[verifier::rlimit(100)]
pub fn encode_dictionary(d: &Dictionary) -> (r: Result<Vec<u8>, LinderaError>)
    ensures
        r is Ok <==> dict_fits_layout(*d),
        match r {
            Ok(bytes) => bytes@ == spec_encode_dictionary(*d),
            Err(e) => e.kind == LinderaErrorKind::Format,
        },
{
    if d.metadata.name.as_str().unicode_len() > (u32::MAX as usize) || d.metadata.encoding.as_str()
        .unicode_len() > (u32::MAX as usize) || d.metadata.num_fields > (u32::MAX as usize)
        || d.entries.len() > (u32::MAX as usize) || d.matrix.num_right > (u32::MAX as usize)
        || d.matrix.num_left > (u32::MAX as usize) || d.matrix.costs.len() > (u32::MAX as usize) {
        return Err(
            LinderaError::new(
                LinderaErrorKind::Format,
                String::from_str("dictionary too large for the binary layout"),
            ),
        );
    }
    let mut out: Vec<u8> = Vec::new();
    out.push(0x4C);
    out.push(0x44);
    out.push(0x43);
    out.push(0x31);
    out.push(FORMAT_VERSION);
    proof {
        assert(out@ =~= spec_magic() + seq![FORMAT_VERSION]);
    }
    push_str(&mut out, &d.metadata.name);
    push_str(&mut out, &d.metadata.encoding);
    push_u32(&mut out, d.metadata.num_fields as u32);
    push_u32(&mut out, d.entries.len() as u32);
    let ghost after_meta = out@;
    let n = d.entries.len();
    let mut i: usize = 0;
    while i < n
        invariant
            i <= n,
            out@ == after_meta + enc_entries(d.entries@, i as int),
            forall|k: int|
                0 <= k < i ==> {
                    &&& (#[trigger] d.entries@[k]).surface@.len() <= u32::MAX
                    &&& d.entries@[k].details@.len() <= u32::MAX
                    &&& forall|j: int|
                        0 <= j < d.entries@[k].details@.len() ==> (
                        #[trigger] d.entries@[k].details@[j])@.len() <= u32::MAX
                },
        decreases n - i,
    {
        let e = &d.entries[i];
        let ghost ebase = out@;
        if !push_entry(&mut out, e) {
            return Err(
                LinderaError::new(
                    LinderaErrorKind::Format,
                    String::from_str("dictionary entry too large for the binary layout"),
                ),
            );
        }
        proof {
            assert(out@ =~= ebase + enc_entry(d.entries@[i as int]));
            assert(ebase + enc_entry(d.entries@[i as int]) =~= after_meta + enc_entries(
                d.entries@,
                i + 1,
            ));
        }
        i = i + 1;
    }
    push_u32(&mut out, d.matrix.num_right as u32);
    push_u32(&mut out, d.matrix.num_left as u32);
    let ghost cbase = out@;
    let cn = d.matrix.costs.len();
    let mut k: usize = 0;
    while k < cn
        invariant
            k <= cn,
            out@ == cbase + enc_costs(d.matrix.costs@, k as int),
        decreases cn - k,
    {
        push_u32(&mut out, d.matrix.costs[k] as u32);
        proof {
            assert(out@ =~= cbase + (enc_costs(d.matrix.costs@, k as int) + enc_u32(
                d.matrix.costs@[k as int] as u32,
            )));
            assert(cbase + (enc_costs(d.matrix.costs@, k as int) + enc_u32(
                d.matrix.costs@[k as int] as u32,
            )) =~= cbase + enc_costs(d.matrix.costs@, k + 1));
        }
        k = k + 1;
    }
    proof {
        assert(out@ =~= spec_encode_dictionary(*d));
    }
    Ok(out)
}

/// Build determinism: `build_dictionary_data` pins its output to
/// `spec_encode_views` of the parsed sources and metadata, so two
/// builds whose source texts and metadata are identical emit
/// byte-identical artifacts.
pub proof fn lemma_build_deterministic(
    lexicon: Seq<char>,
    matrix_def: Seq<char>,
    name: Seq<char>,
    encoding: Seq<char>,
    nf: int,
    b1: Seq<u8>,
    b2: Seq<u8>,
)
    requires
        match (spec_parse_lexicon(lexicon, nf), spec_parse_matrix(matrix_def)) {
            (Some(rows), Some(t)) => b1 == spec_encode_views(
                name,
                encoding,
                nf,
                rows,
                t.0,
                t.1,
                t.2,
            ) && b2 == spec_encode_views(name, encoding, nf, rows, t.0, t.1, t.2),
            _ => false,
        },
    ensures
        b1 == b2,
{
}

/// The mathematical shape of a dictionary entry: what a lexicon
/// row describes, and what an entry of the built dictionary holds.
pub ghost struct EntryView {
    pub surface: Seq<char>,
    pub left_id: int,
    pub right_id: int,
    pub word_cost: int,
    pub details: Seq<Seq<char>>,
}

/// The view of one entry.
pub open spec fn entry_view(e: WordEntry) -> EntryView {
    EntryView {
        surface: e.surface@,
        left_id: e.left_id as int,
        right_id: e.right_id as int,
        word_cost: e.word_cost as int,
        details: e.details.deep_view(),
    }
}

/// The pieces of `s` between occurrences of `sep`, scanning from
/// position `i` with the current piece beginning at `start`.
pub open spec fn spec_split_acc(s: Seq<char>, sep: char, i: int, start: int) -> Seq<Seq<char>>
    decreases s.len() - i,
{
    if i < 0 || i >= s.len() {
        seq![s.subrange(start, s.len() as int)]
    } else if s[i] == sep {
        seq![s.subrange(start, i)] + spec_split_acc(s, sep, i + 1, i + 1)
    } else {
        spec_split_acc(s, sep, i + 1, start)
    }
}

/// The pieces of `s` between occurrences of `sep`.
pub open spec fn spec_split(s: Seq<char>, sep: char) -> Seq<Seq<char>> {
    spec_split_acc(s, sep, 0, 0)
}

/// A piece with a trailing carriage return removed.
pub open spec fn spec_trim_cr(p: Seq<char>) -> Seq<char> {
    if p.len() > 0 && p[p.len() - 1] == '\r' {
        p.take(p.len() - 1)
    } else {
        p
    }
}

/// The lines of a source text: split on line feeds, each line's
/// trailing carriage return removed.
pub open spec fn spec_source_lines(s: Seq<char>) -> Seq<Seq<char>> {
    spec_split(s, '\n').map_values(|p: Seq<char>| spec_trim_cr(p))
}

/// Folds decimal digits from position `i` onto `acc`, refusing a
/// stray character or a value beyond the signed 64-bit range.
pub open spec fn spec_digits(s: Seq<char>, i: int, acc: int) -> Option<int>
    decreases s.len() - i,
{
    if i < 0 || i >= s.len() {
        Some(acc)
    } else {
        let u = s[i] as u32;
        if u < 0x30 || u > 0x39 {
            None
        } else {
            let v = acc * 10 + (u - 0x30);
            if v > 0x7fff_ffff_ffff_ffff {
                None
            } else {
                spec_digits(s, i + 1, v)
            }
        }
    }
}

/// The decimal integer a piece denotes: an optional leading minus,
/// then digits; absent when empty, malformed or out of range.
pub open spec fn spec_parse_int(s: Seq<char>) -> Option<int> {
    if s.len() == 0 {
        None
    } else if s[0] == '-' {
        if s.len() == 1 {
            None
        } else {
            match spec_digits(s, 1, 0) {
                Some(v) => Some(-v),
                None => None,
            }
        }
    } else {
        spec_digits(s, 0, 0)
    }
}

/// Splits `s` at every occurrence of `sep`, dropping a carriage
/// return left at a line end.
#[verifier::loop_isolation(false)]
#[verifier::loop_isolation(false)]
fn split_on(s: &str, sep: char, trim_cr: bool) -> (r: Vec<String>)
    ensures
        !trim_cr ==> crate::token_filter::words_view(r@) == spec_split(s@, sep),
        trim_cr ==> crate::token_filter::words_view(r@) == spec_split(s@, sep).map_values(
            |p: Seq<char>| spec_trim_cr(p),
        ),
{
    let ghost raw = spec_split(s@, sep);
    let chars = crate::text::to_chars(s);
    let n = chars.len();
    let mut parts: Vec<String> = Vec::new();
    let mut cur: Vec<char> = Vec::new();
    let ghost mut start: int = 0;
    let ghost mut done: Seq<Seq<char>> = Seq::empty();
    let mut i: usize = 0;
    while i < n
        invariant
            i <= n,
            n == s@.len(),
            0 <= start <= i as int,
            cur@ == s@.subrange(start, i as int),
            raw == done + spec_split_acc(s@, sep, i as int, start),
            parts@.len() == done.len(),
            !trim_cr ==> crate::token_filter::words_view(parts@) == done,
            trim_cr ==> crate::token_filter::words_view(parts@) == done.map_values(
                |p: Seq<char>| spec_trim_cr(p),
            ),
        decreases n - i,
    {
        let c = chars[i];
        if c == sep {
            let mut piece = cur;
            proof {
                assert(spec_split_acc(s@, sep, i as int, start) == seq![s@.subrange(
                    start,
                    i as int,
                )] + spec_split_acc(s@, sep, i + 1, i + 1));
            }
            if trim_cr && piece.len() > 0 && piece[piece.len() - 1] == '\r' {
                let _ = piece.pop();
                proof {
                    assert(piece@ =~= spec_trim_cr(s@.subrange(start, i as int)));
                }
            } else {
                proof {
                    if trim_cr {
                        assert(piece@ == spec_trim_cr(s@.subrange(start, i as int)));
                    }
                }
            }
            let ghost old_done = done;
            let ghost old_parts = parts@;
            parts.push(crate::text::chars_to_string(piece.as_slice()));
            proof {
                done = done.push(s@.subrange(start, i as int));
                assert(old_done + (seq![s@.subrange(start, i as int)] + spec_split_acc(
                    s@,
                    sep,
                    i + 1,
                    i + 1,
                )) =~= done + spec_split_acc(s@, sep, i + 1, i + 1));
                if trim_cr {
                    assert forall|j: int| 0 <= j < parts@.len() implies
                        #[trigger] crate::token_filter::words_view(parts@)[j] == done.map_values(
                        |p: Seq<char>| spec_trim_cr(p),
                    )[j] by {
                        if j < old_parts.len() {
                            assert(parts@[j] == old_parts[j]);
                            assert(crate::token_filter::words_view(old_parts)[j] == old_parts[j]@);
                            assert(done[j] == old_done[j]);
                        } else {
                            assert(parts@[j]@ == piece@);
                        }
                    }
                    assert(crate::token_filter::words_view(parts@) =~= done.map_values(
                        |p: Seq<char>| spec_trim_cr(p),
                    ));
                } else {
                    assert forall|j: int| 0 <= j < parts@.len() implies
                        #[trigger] crate::token_filter::words_view(parts@)[j] == done[j] by {
                        if j < old_parts.len() {
                            assert(parts@[j] == old_parts[j]);
                            assert(crate::token_filter::words_view(old_parts)[j] == old_parts[j]@);
                            assert(done[j] == old_done[j]);
                        } else {
                            assert(parts@[j]@ == piece@);
                        }
                    }
                    assert(crate::token_filter::words_view(parts@) =~= done);
                }
            }
            cur = Vec::new();
            proof {
                start = i + 1;
                assert(cur@ =~= s@.subrange(start, i + 1));
            }
        } else {
            cur.push(c);
            proof {
                assert(cur@ =~= s@.subrange(start, i + 1));
                assert(spec_split_acc(s@, sep, i as int, start) == spec_split_acc(
                    s@,
                    sep,
                    i + 1,
                    start,
                ));
            }
        }
        i = i + 1;
    }
    let mut piece = cur;
    proof {
        assert(spec_split_acc(s@, sep, n as int, start) == seq![s@.subrange(start, n as int)]);
    }
    if trim_cr && piece.len() > 0 && piece[piece.len() - 1] == '\r' {
        let _ = piece.pop();
        proof {
            assert(piece@ =~= spec_trim_cr(s@.subrange(start, n as int)));
        }
    } else {
        proof {
            if trim_cr {
                assert(piece@ == spec_trim_cr(s@.subrange(start, n as int)));
            }
        }
    }
    let ghost old_parts = parts@;
    parts.push(crate::text::chars_to_string(piece.as_slice()));
    proof {
        let fin = done.push(s@.subrange(start, n as int));
        assert(raw =~= fin);
        if trim_cr {
            assert forall|j: int| 0 <= j < parts@.len() implies
                #[trigger] crate::token_filter::words_view(parts@)[j] == fin.map_values(
                |p: Seq<char>| spec_trim_cr(p),
            )[j] by {
                if j < old_parts.len() {
                    assert(parts@[j] == old_parts[j]);
                    assert(crate::token_filter::words_view(old_parts)[j] == old_parts[j]@);
                    assert(fin[j] == done[j]);
                } else {
                    assert(parts@[j]@ == piece@);
                }
            }
            assert(crate::token_filter::words_view(parts@) =~= fin.map_values(
                |p: Seq<char>| spec_trim_cr(p),
            ));
        } else {
            assert forall|j: int| 0 <= j < parts@.len() implies
                #[trigger] crate::token_filter::words_view(parts@)[j] == fin[j] by {
                if j < old_parts.len() {
                    assert(parts@[j] == old_parts[j]);
                    assert(crate::token_filter::words_view(old_parts)[j] == old_parts[j]@);
                    assert(fin[j] == done[j]);
                } else {
                    assert(parts@[j]@ == piece@);
                }
            }
            assert(crate::token_filter::words_view(parts@) =~= fin);
        }
    }
    parts
}

/// Reads a decimal integer with an optional leading minus sign;
/// `None` when the text is empty, has a stray character, or does
/// not fit.
#[verifier::loop_isolation(false)]
fn parse_int(s: &str) -> (r: Option<i64>)
    ensures
        match r {
            Some(v) => spec_parse_int(s@) == Some(v as int),
            None => spec_parse_int(s@) is None,
        },
{
    let chars = crate::text::to_chars(s);
    let n = chars.len();
    if n == 0 {
        return None;
    }
    let negative = chars[0] == '-';
    let ghost first: int = if negative {
        1
    } else {
        0
    };
    let mut i: usize = if negative {
        1
    } else {
        0
    };
    if i >= n {
        return None;
    }
    let mut value: i64 = 0;
    while i < n
        invariant
            first <= i as int <= n,
            n == s@.len(),
            0 <= value,
            spec_digits(s@, first, 0) == spec_digits(s@, i as int, value as int),
        decreases n - i,
    {
        let c = chars[i];
        let u = c as u32;
        if u < 0x30 || u > 0x39 {
            return None;
        }
        let digit = (u - 0x30) as i64;
        value = match value.checked_mul(10) {
            Some(v) => match v.checked_add(digit) {
                Some(w) => w,
                None => {
                    return None;
                },
            },
            None => {
                proof {
                    assert((value as int) * 10 + digit > 0x7fff_ffff_ffff_ffff) by (nonlinear_arith)
                        requires
                            (value as int) * 10 > 0x7fff_ffff_ffff_ffff,
                            digit >= 0,
                    ;
                }
                return None;
            },
        };
        i = i + 1;
    }
    if negative {
        Some(-value)
    } else {
        Some(value)
    }
}

/// The bounded non-negative reading of a piece: its integer value
/// when it parses and lies in `[0, max]`.
pub open spec fn spec_parse_bounded(s: Seq<char>, max: int) -> Option<int> {
    match spec_parse_int(s) {
        Some(v) => if 0 <= v <= max {
            Some(v)
        } else {
            None
        },
        None => None,
    }
}

/// Reads a bounded non-negative integer.
fn parse_bounded(s: &str, max: i64) -> (r: Option<i64>)
    requires
        max >= 0,
    ensures
        match r {
            Some(v) => 0 <= v <= max && spec_parse_bounded(s@, max as int) == Some(v as int),
            None => spec_parse_bounded(s@, max as int) is None,
        },
{
    match parse_int(s) {
        Some(v) => {
            if 0 <= v && v <= max {
                Some(v)
            } else {
                None
            }
        },
        None => None,
    }
}

/// Whether a lexicon row (already split into fields) is sound for
/// a schema declaring `nf` fields: the declared field count, a
/// non-empty surface, category ids, and a 32-bit cost.
pub open spec fn spec_row_ok(fields: Seq<Seq<char>>, nf: int) -> bool {
    &&& fields.len() == nf
    &&& fields.len() >= 4
    &&& fields[0].len() > 0
    &&& spec_parse_bounded(fields[1], 0xFFFF) is Some
    &&& spec_parse_bounded(fields[2], 0xFFFF) is Some
    &&& match spec_parse_int(fields[3]) {
        Some(v) => -0x8000_0000 <= v <= 0x7FFF_FFFF,
        None => false,
    }
}

/// The entry a sound lexicon row describes.
pub open spec fn spec_row_entry(fields: Seq<Seq<char>>) -> EntryView {
    EntryView {
        surface: fields[0],
        left_id: spec_parse_bounded(fields[1], 0xFFFF)->0,
        right_id: spec_parse_bounded(fields[2], 0xFFFF)->0,
        word_cost: spec_parse_int(fields[3])->0,
        details: fields.skip(4),
    }
}

/// The entries of the lexicon lines from `i` on: empty lines are
/// skipped, every other line must be a sound row.
pub open spec fn spec_lexicon_rows(lines: Seq<Seq<char>>, nf: int, i: int) -> Option<
    Seq<EntryView>,
>
    decreases lines.len() - i,
{
    if i < 0 || i >= lines.len() {
        Some(Seq::empty())
    } else if lines[i].len() == 0 {
        spec_lexicon_rows(lines, nf, i + 1)
    } else {
        let fields = spec_split(lines[i], ',');
        if !spec_row_ok(fields, nf) {
            None
        } else {
            match spec_lexicon_rows(lines, nf, i + 1) {
                Some(rest) => Some(seq![spec_row_entry(fields)] + rest),
                None => None,
            }
        }
    }
}

/// The entries a lexicon text describes under a schema declaring
/// `nf` fields, or nothing when any row violates the schema.
pub open spec fn spec_parse_lexicon(text: Seq<char>, nf: int) -> Option<Seq<EntryView>> {
    spec_lexicon_rows(spec_source_lines(text), nf, 0)
}

/// The costs of the matrix cell lines from `i` on, with `cnt`
/// cells already read: cells come in row-major order and their
/// count must land exactly on `total`.
pub open spec fn spec_matrix_cells(
    lines: Seq<Seq<char>>,
    nl: int,
    total: int,
    i: int,
    cnt: int,
) -> Option<Seq<int>>
    decreases lines.len() - i,
{
    if i < 0 || i >= lines.len() {
        if cnt == total {
            Some(Seq::empty())
        } else {
            None
        }
    } else if lines[i].len() == 0 {
        spec_matrix_cells(lines, nl, total, i + 1, cnt)
    } else if cnt >= total {
        None
    } else {
        let fields = spec_split(lines[i], ' ');
        if fields.len() != 3 {
            None
        } else {
            match (
                spec_parse_bounded(fields[0], 0xFFFF),
                spec_parse_bounded(fields[1], 0xFFFF),
                spec_parse_int(fields[2]),
            ) {
                (Some(r), Some(l), Some(c)) => {
                    if r == cnt / nl && l == cnt % nl && -0x8000_0000 <= c <= 0x7FFF_FFFF {
                        match spec_matrix_cells(lines, nl, total, i + 1, cnt + 1) {
                            Some(rest) => Some(seq![c] + rest),
                            None => None,
                        }
                    } else {
                        None
                    }
                },
                _ => None,
            }
        }
    }
}

/// The matrix a description text describes: its dimensions and its
/// dense cost table, or nothing when malformed.
pub open spec fn spec_parse_matrix(text: Seq<char>) -> Option<(int, int, Seq<int>)> {
    let lines = spec_source_lines(text);
    if lines.len() == 0 {
        None
    } else {
        let header = spec_split(lines[0], ' ');
        if header.len() != 2 {
            None
        } else {
            match (
                spec_parse_bounded(header[0], 0xFFFF),
                spec_parse_bounded(header[1], 0xFFFF),
            ) {
                (Some(nr), Some(nl)) => {
                    if nr >= 1 && nl >= 1 {
                        match spec_matrix_cells(lines, nl, nr * nl, 1, 0) {
                            Some(cs) => Some((nr, nl, cs)),
                            None => None,
                        }
                    } else {
                        None
                    }
                },
                _ => None,
            }
        }
    }
}

/// A formatting error naming the offending row.
#[verifier::loop_isolation(false)]
fn row_error(row: usize, what: &str) -> (r: LinderaError)
    ensures
        r.kind == LinderaErrorKind::Format,
{
    let mut msg = String::from_str("row ");
    let mut digits = String::new();
    let mut v = row;
    if v == 0 {
        digits.push('0');
    }
    while v > 0
        decreases v,
    {
        let d = ((v % 10) as u32 + 0x30) as u8;
        digits.push(d as char);
        v = v / 10;
    }
    // digits are reversed; for a diagnostic message the exact
    // rendering matters less than naming the row, but reverse them
    // anyway
    let dchars = crate::text::to_chars(digits.as_str());
    let mut k = dchars.len();
    while k > 0
        invariant
            k <= dchars@.len(),
        decreases k,
    {
        k = k - 1;
        msg.push(dchars[k]);
    }
    msg.push(':');
    msg.push(' ');
    msg.append(what);
    LinderaError::new(LinderaErrorKind::Format, msg)
}

/// Parses a tabular lexicon: one row per line, comma-separated,
/// `surface,left_id,right_id,word_cost` and then the remaining
/// detail fields; every row must carry exactly the field count the
/// metadata declares.  Empty lines are skipped.
#[verifier::loop_isolation(false)]
#[verifier::rlimit(60)]
fn parse_lexicon(lexicon: &str, num_fields: usize) -> (r: Result<Vec<WordEntry>, LinderaError>)
    ensures
        match r {
            Ok(es) => spec_parse_lexicon(lexicon@, num_fields as int) == Some(
                es@.map_values(|e: WordEntry| entry_view(e)),
            ),
            Err(e) => e.kind == LinderaErrorKind::Format && spec_parse_lexicon(
                lexicon@,
                num_fields as int,
            ) is None,
        },
{
    let ghost lv = spec_source_lines(lexicon@);
    let ghost nf = num_fields as int;
    let lines = split_on(lexicon, '\n', true);
    proof {
        assert(crate::token_filter::words_view(lines@) == lv);
    }
    let ln = lines.len();
    let mut entries: Vec<WordEntry> = Vec::new();
    let ghost mut done: Seq<EntryView> = Seq::empty();
    let mut row: usize = 0;
    while row < ln
        invariant
            row <= ln,
            ln == lv.len(),
            crate::token_filter::words_view(lines@) == lv,
            entries@.map_values(|e: WordEntry| entry_view(e)) == done,
            spec_lexicon_rows(lv, nf, 0) == (match spec_lexicon_rows(lv, nf, row as int) {
                Some(rest) => Some(done + rest),
                None => None::<Seq<EntryView>>,
            }),
        decreases ln - row,
    {
        let line = &lines[row];
        proof {
            assert(lv[row as int] == line@);
        }
        if line.as_str().unicode_len() == 0 {
            row = row + 1;
            continue;
        }
        let ghost fv = spec_split(line@, ',');
        let fields = split_on(line.as_str(), ',', false);
        proof {
            assert(crate::token_filter::words_view(fields@) == fv);
        }
        if fields.len() != num_fields || fields.len() < 4 {
            return Err(row_error(row, "wrong field count for the declared schema"));
        }
        proof {
            assert(fields@[0]@ == fv[0]);
            assert(fields@[1]@ == fv[1]);
            assert(fields@[2]@ == fv[2]);
            assert(fields@[3]@ == fv[3]);
        }
        let surface = crate::text::to_chars(fields[0].as_str());
        if surface.len() == 0 {
            return Err(row_error(row, "empty surface"));
        }
        let left_id = match parse_bounded(fields[1].as_str(), 0xFFFF) {
            Some(v) => v as u16,
            None => {
                return Err(row_error(row, "left_id is not a category id"));
            },
        };
        let right_id = match parse_bounded(fields[2].as_str(), 0xFFFF) {
            Some(v) => v as u16,
            None => {
                return Err(row_error(row, "right_id is not a category id"));
            },
        };
        let word_cost = match parse_int(fields[3].as_str()) {
            Some(v) => {
                if v < -0x8000_0000 || v > 0x7FFF_FFFF {
                    return Err(row_error(row, "word_cost does not fit 32 bits"));
                }
                v as i32
            },
            None => {
                return Err(row_error(row, "word_cost is not an integer"));
            },
        };
        let mut details: Vec<String> = Vec::new();
        let fl = fields.len();
        let mut k: usize = 4;
        while k < fl
            invariant
                4 <= k <= fl,
                fl == fields@.len(),
                crate::token_filter::words_view(fields@) == fv,
                details@.len() == k - 4,
                forall|j: int| 0 <= j < k - 4 ==> (#[trigger] details@[j])@ == fv[j + 4],
            decreases fl - k,
        {
            details.push(fields[k].clone());
            k = k + 1;
        }
        let e = WordEntry { surface, left_id, right_id, word_cost, details };
        proof {
            assert(spec_row_ok(fv, nf));
            assert(e.details.deep_view() =~= fv.skip(4));
            assert(entry_view(e) == spec_row_entry(fv));
        }
        let ghost old_done = done;
        let ghost old_entries = entries@;
        entries.push(e);
        proof {
            done = done.push(spec_row_entry(fv));
            assert forall|j: int| #![trigger done[j]] 0 <= j < entries@.len() implies entries@.map_values(
                |e2: WordEntry| entry_view(e2),
            )[j] == done[j] by {
                if j < old_entries.len() {
                    assert(entries@[j] == old_entries[j]);
                    assert(old_entries.map_values(|e2: WordEntry| entry_view(e2))[j] == old_done[
                        j]);
                }
            }
            assert(entries@.map_values(|e2: WordEntry| entry_view(e2)) =~= done);
            assert(spec_lexicon_rows(lv, nf, row as int) == (
            match spec_lexicon_rows(lv, nf, row + 1) {
                Some(rest) => Some(seq![spec_row_entry(fv)] + rest),
                None => None::<Seq<EntryView>>,
            }));
            match spec_lexicon_rows(lv, nf, row + 1) {
                Some(rest) => {
                    assert(old_done + (seq![spec_row_entry(fv)] + rest) =~= done + rest);
                },
                None => {},
            }
        }
        row = row + 1;
    }
    proof {
        assert(spec_lexicon_rows(lv, nf, ln as int) == Some(Seq::<EntryView>::empty()));
        assert(done + Seq::<EntryView>::empty() =~= done);
    }
    Ok(entries)
}

/// Parses a dense connection matrix description: a first line
/// `num_right num_left`, then one `right left cost` line per cell
/// in row-major order.
#[verifier::loop_isolation(false)]
#[verifier::rlimit(60)]
fn parse_matrix(matrix_def: &str) -> (r: Result<ConnectionMatrix, LinderaError>)
    ensures
        match r {
            Ok(m) => {
                &&& m.wf()
                &&& spec_parse_matrix(matrix_def@) == Some(
                    (
                        m.num_right as int,
                        m.num_left as int,
                        m.costs@.map_values(|c: i32| c as int),
                    ),
                )
            },
            Err(e) => e.kind == LinderaErrorKind::Format && spec_parse_matrix(matrix_def@)
                is None,
        },
{
    let ghost lv = spec_source_lines(matrix_def@);
    let lines = split_on(matrix_def, '\n', true);
    proof {
        assert(crate::token_filter::words_view(lines@) == lv);
    }
    if lines.len() == 0 {
        return Err(row_error(0, "empty matrix description"));
    }
    let ghost hv = spec_split(lv[0], ' ');
    let header = split_on(lines[0].as_str(), ' ', false);
    proof {
        assert(lv[0] == lines@[0]@);
        assert(crate::token_filter::words_view(header@) == hv);
    }
    if header.len() != 2 {
        return Err(row_error(0, "matrix header must be 'num_right num_left'"));
    }
    proof {
        assert(header@[0]@ == hv[0]);
        assert(header@[1]@ == hv[1]);
    }
    let num_right = match parse_bounded(header[0].as_str(), 0xFFFF) {
        Some(v) => v as usize,
        None => {
            return Err(row_error(0, "num_right is not a category count"));
        },
    };
    let num_left = match parse_bounded(header[1].as_str(), 0xFFFF) {
        Some(v) => v as usize,
        None => {
            return Err(row_error(0, "num_left is not a category count"));
        },
    };
    if num_right < 1 || num_left < 1 {
        return Err(row_error(0, "category counts must be at least 1"));
    }
    proof {
        assert(num_right * num_left <= 0xFFFF * 0xFFFF) by (nonlinear_arith)
            requires
                num_right <= 0xFFFF,
                num_left <= 0xFFFF,
        ;
    }
    let total = num_right * num_left;
    let mut costs: Vec<i32> = Vec::new();
    let ghost mut done: Seq<int> = Seq::empty();
    let ln = lines.len();
    let mut row: usize = 1;
    while row < ln
        invariant
            1 <= row <= ln,
            ln == lv.len(),
            crate::token_filter::words_view(lines@) == lv,
            total == num_right * num_left,
            costs@.len() <= total,
            costs@.len() == done.len(),
            costs@.map_values(|c: i32| c as int) == done,
            spec_matrix_cells(lv, num_left as int, total as int, 1, 0) == (
            match spec_matrix_cells(
                lv,
                num_left as int,
                total as int,
                row as int,
                costs@.len() as int,
            ) {
                Some(rest) => Some(done + rest),
                None => None::<Seq<int>>,
            }),
        decreases ln - row,
    {
        let line = &lines[row];
        proof {
            assert(lv[row as int] == line@);
        }
        if line.as_str().unicode_len() == 0 {
            row = row + 1;
            continue;
        }
        if costs.len() >= total {
            return Err(row_error(row, "more cells than the header declares"));
        }
        let ghost fv = spec_split(line@, ' ');
        let fields = split_on(line.as_str(), ' ', false);
        proof {
            assert(crate::token_filter::words_view(fields@) == fv);
        }
        if fields.len() != 3 {
            return Err(row_error(row, "a cell must be 'right left cost'"));
        }
        proof {
            assert(fields@[0]@ == fv[0]);
            assert(fields@[1]@ == fv[1]);
            assert(fields@[2]@ == fv[2]);
        }
        let r_id = match parse_bounded(fields[0].as_str(), 0xFFFF) {
            Some(v) => v as usize,
            None => {
                return Err(row_error(row, "right id is not a category id"));
            },
        };
        let l_id = match parse_bounded(fields[1].as_str(), 0xFFFF) {
            Some(v) => v as usize,
            None => {
                return Err(row_error(row, "left id is not a category id"));
            },
        };
        let expected = costs.len();
        if r_id != expected / num_left || l_id != expected % num_left {
            return Err(row_error(row, "cells must come in row-major order"));
        }
        let cost = match parse_int(fields[2].as_str()) {
            Some(v) => {
                if v < -0x8000_0000 || v > 0x7FFF_FFFF {
                    return Err(row_error(row, "cost does not fit 32 bits"));
                }
                v as i32
            },
            None => {
                return Err(row_error(row, "cost is not an integer"));
            },
        };
        let ghost old_done = done;
        let ghost old_costs = costs@;
        costs.push(cost);
        proof {
            done = done.push(cost as int);
            assert forall|j: int| #![trigger done[j]] 0 <= j < costs@.len() implies
                costs@.map_values(|c: i32| c as int)[j] == done[j] by {
                if j < old_costs.len() {
                    assert(costs@[j] == old_costs[j]);
                    assert(old_costs.map_values(|c: i32| c as int)[j] == old_done[j]);
                }
            }
            assert(costs@.map_values(|c: i32| c as int) =~= done);
            match spec_matrix_cells(
                lv,
                num_left as int,
                total as int,
                row + 1,
                costs@.len() as int,
            ) {
                Some(rest) => {
                    assert(old_done + (seq![cost as int] + rest) =~= done + rest);
                },
                None => {},
            }
        }
        row = row + 1;
    }
    if costs.len() != total {
        return Err(row_error(ln, "fewer cells than the header declares"));
    }
    proof {
        assert(spec_matrix_cells(lv, num_left as int, total as int, ln as int, total as int)
            == Some(Seq::<int>::empty()));
        assert(done + Seq::<int>::empty() =~= done);
    }
    Ok(ConnectionMatrix { num_right, num_left, costs })
}

/// The encoding of one entry, over its mathematical view.
pub open spec fn enc_entry_view(r: EntryView) -> Seq<u8> {
    enc_str(r.surface) + enc_u32(r.left_id as u32) + enc_u32(r.right_id as u32) + enc_u32(
        r.word_cost as u32,
    ) + enc_u32(r.details.len() as u32) + enc_details(r.details, r.details.len() as int)
}

/// The encoding of an entry table, over views.
pub open spec fn enc_entries_views(rows: Seq<EntryView>, n: int) -> Seq<u8>
    decreases n,
{
    if n <= 0 {
        Seq::empty()
    } else {
        enc_entries_views(rows, n - 1) + enc_entry_view(rows[n - 1])
    }
}

/// The encoding of a cost table, over mathematical values.
pub open spec fn enc_costs_views(cs: Seq<int>, n: int) -> Seq<u8>
    decreases n,
{
    if n <= 0 {
        Seq::empty()
    } else {
        enc_costs_views(cs, n - 1) + enc_u32(cs[n - 1] as u32)
    }
}

/// The bytes a dictionary with the given parts serializes to: the
/// whole artifact as a function of plain values, which is what
/// pins the builder's output.
pub open spec fn spec_encode_views(
    name: Seq<char>,
    encoding: Seq<char>,
    nf: int,
    rows: Seq<EntryView>,
    nr: int,
    nl: int,
    costs: Seq<int>,
) -> Seq<u8> {
    spec_magic() + seq![FORMAT_VERSION] + enc_str(name) + enc_str(encoding) + enc_u32(nf as u32)
        + enc_u32(rows.len() as u32) + enc_entries_views(rows, rows.len() as int) + enc_u32(
        nr as u32,
    ) + enc_u32(nl as u32) + enc_costs_views(costs, costs.len() as int)
}

/// Entry views and entries encode alike.
proof fn lemma_enc_entries_views(es: Seq<WordEntry>, rows: Seq<EntryView>, n: int)
    requires
        n <= es.len(),
        n <= rows.len(),
        forall|j: int| 0 <= j < n ==> entry_view(#[trigger] es[j]) == rows[j],
    ensures
        enc_entries(es, n) == enc_entries_views(rows, n),
    decreases n,
{
    if n > 0 {
        lemma_enc_entries_views(es, rows, n - 1);
        assert(enc_entry(es[n - 1]) =~= enc_entry_view(rows[n - 1]));
    }
}

/// Cost views and costs encode alike.
proof fn lemma_enc_costs_views(cs: Seq<i32>, vs: Seq<int>, n: int)
    requires
        n <= cs.len(),
        n <= vs.len(),
        forall|j: int| 0 <= j < n ==> (#[trigger] cs[j]) as int == vs[j],
    ensures
        enc_costs(cs, n) == enc_costs_views(vs, n),
    decreases n,
{
    if n > 0 {
        lemma_enc_costs_views(cs, vs, n - 1);
        assert(enc_costs(cs, n) =~= enc_costs_views(vs, n));
    }
}

/// Row views hold what the parser admitted: a non-empty surface,
/// category ids within 16 bits, and a 32-bit cost.
proof fn lemma_lexicon_rows_sound(lines: Seq<Seq<char>>, nf: int, i: int)
    ensures
        match spec_lexicon_rows(lines, nf, i) {
            Some(rows) => forall|j: int|
                0 <= j < rows.len() ==> {
                    &&& (#[trigger] rows[j]).surface.len() > 0
                    &&& 0 <= rows[j].left_id <= 0xFFFF
                    &&& 0 <= rows[j].right_id <= 0xFFFF
                    &&& -0x8000_0000 <= rows[j].word_cost <= 0x7FFF_FFFF
                },
            None => true,
        },
    decreases lines.len() - i,
{
    if 0 <= i < lines.len() {
        lemma_lexicon_rows_sound(lines, nf, i + 1);
        if lines[i].len() != 0 {
            let fields = spec_split(lines[i], ',');
            if spec_row_ok(fields, nf) {
                match spec_lexicon_rows(lines, nf, i + 1) {
                    Some(rest) => {
                        let whole = spec_lexicon_rows(lines, nf, i)->0;
                        assert(whole == seq![spec_row_entry(fields)] + rest);
                        assert forall|j: int| 0 <= j < whole.len() implies {
                            &&& (#[trigger] whole[j]).surface.len() > 0
                            &&& 0 <= whole[j].left_id <= 0xFFFF
                            &&& 0 <= whole[j].right_id <= 0xFFFF
                            &&& -0x8000_0000 <= whole[j].word_cost <= 0x7FFF_FFFF
                        } by {
                            if j == 0 {
                                assert(whole[0] == spec_row_entry(fields));
                            } else {
                                assert(whole[j] == rest[j - 1]);
                            }
                        }
                    },
                    None => {},
                }
            }
        }
    }
}

/// Whether the parsed rows fit a matrix with the given category
/// counts: the well-formedness the dictionary constructor demands.
pub open spec fn spec_rows_wf(rows: Seq<EntryView>, nr: int, nl: int) -> bool {
    forall|j: int|
        0 <= j < rows.len() ==> {
            &&& (#[trigger] rows[j]).surface.len() > 0
            &&& rows[j].left_id < nl
            &&& rows[j].right_id < nr
        }
}

/// Whether the parsed parts fit the binary layout's 32-bit cells.
pub open spec fn spec_views_fit(
    name: Seq<char>,
    encoding: Seq<char>,
    nf: int,
    rows: Seq<EntryView>,
) -> bool {
    &&& name.len() <= u32::MAX
    &&& encoding.len() <= u32::MAX
    &&& 0 <= nf <= u32::MAX
    &&& rows.len() <= u32::MAX
    &&& forall|j: int|
        0 <= j < rows.len() ==> {
            &&& (#[trigger] rows[j]).surface.len() <= u32::MAX
            &&& rows[j].details.len() <= u32::MAX
            &&& forall|k: int|
                0 <= k < rows[j].details.len() ==> (#[trigger] rows[j].details[k]).len()
                    <= u32::MAX
        }
}

/// When a build succeeds: both sources parse, the rows fit the
/// matrix, and every declared length fits the layout.
pub open spec fn spec_build_ok(
    lexicon: Seq<char>,
    matrix_def: Seq<char>,
    name: Seq<char>,
    encoding: Seq<char>,
    nf: int,
) -> bool {
    match (spec_parse_lexicon(lexicon, nf), spec_parse_matrix(matrix_def)) {
        (Some(rows), Some(t)) => spec_rows_wf(rows, t.0, t.1) && spec_views_fit(
            name,
            encoding,
            nf,
            rows,
        ),
        _ => false,
    }
}

/// Compiles a lexicon and matrix description into the binary
/// dictionary layout.  Validation failures (schema mismatches,
/// malformed numbers, inconsistent category ids) are formatting
/// errors naming the offending row; on success the bytes are the
/// canonical encoding of a well-formed dictionary, and identical
/// input always yields identical bytes.
#[verifier::rlimit(60)]
pub fn build_dictionary_data(lexicon: &str, matrix_def: &str, metadata: Metadata) -> (r: Result<
    Vec<u8>,
    LinderaError,
>)
    ensures
        r is Ok <==> spec_build_ok(
            lexicon@,
            matrix_def@,
            metadata.name@,
            metadata.encoding@,
            metadata.num_fields as int,
        ),
        match r {
            Ok(bytes) => match (
                spec_parse_lexicon(lexicon@, metadata.num_fields as int),
                spec_parse_matrix(matrix_def@),
            ) {
                (Some(rows), Some(t)) => bytes@ == spec_encode_views(
                    metadata.name@,
                    metadata.encoding@,
                    metadata.num_fields as int,
                    rows,
                    t.0,
                    t.1,
                    t.2,
                ),
                _ => false,
            },
            Err(e) => e.kind == LinderaErrorKind::Format,
        },
{
    let ghost nf = metadata.num_fields as int;
    let entries = match parse_lexicon(lexicon, metadata.num_fields) {
        Ok(es) => es,
        Err(e) => {
            return Err(e);
        },
    };
    let ghost rows = spec_parse_lexicon(lexicon@, nf)->0;
    let matrix = match parse_matrix(matrix_def) {
        Ok(m) => m,
        Err(e) => {
            return Err(e);
        },
    };
    let ghost t = spec_parse_matrix(matrix_def@)->0;
    proof {
        lemma_lexicon_rows_sound(spec_source_lines(lexicon@), nf, 0);
    }
    let ghost matrix0 = matrix;
    let d = match Dictionary::new(metadata, entries, matrix) {
        Ok(d) => d,
        Err(e) => {
            proof {
                assert(!spec_rows_wf(rows, t.0, t.1)) by {
                    if spec_rows_wf(rows, t.0, t.1) {
                        let bad = Dictionary {
                            metadata,
                            entries,
                            matrix: matrix0,
                        };
                        assert forall|k: int| 0 <= k < bad.entries@.len() implies (
                        #[trigger] bad.entries@[k]).wf(
                            bad.matrix.num_right as int,
                            bad.matrix.num_left as int,
                        ) by {
                            assert(entry_view(bad.entries@[k]) == rows[k]);
                        }
                        assert(bad.wf());
                    }
                }
            }
            return Err(e);
        },
    };
    proof {
        assert forall|k: int| 0 <= k < rows.len() implies {
            &&& (#[trigger] rows[k]).surface.len() > 0
            &&& rows[k].left_id < t.1
            &&& rows[k].right_id < t.0
        } by {
            assert(entry_view(d.entries@[k]) == rows[k]);
            assert(d.entries@[k].wf(d.matrix.num_right as int, d.matrix.num_left as int));
        }
        assert(spec_rows_wf(rows, t.0, t.1));
    }
    match encode_dictionary(&d) {
        Ok(bytes) => {
            proof {
                assert(dict_fits_layout(d));
                assert forall|j: int| 0 <= j < rows.len() implies {
                    &&& (#[trigger] rows[j]).surface.len() <= u32::MAX
                    &&& rows[j].details.len() <= u32::MAX
                    &&& forall|k: int|
                        0 <= k < rows[j].details.len() ==> (#[trigger] rows[j].details[k]).len()
                            <= u32::MAX
                } by {
                    assert(entry_view(d.entries@[j]) == rows[j]);
                }
                assert(spec_views_fit(metadata.name@, metadata.encoding@, nf, rows));
                assert forall|j: int| 0 <= j < d.entries@.len() implies entry_view(
                    #[trigger] d.entries@[j],
                ) == rows[j] by {}
                lemma_enc_entries_views(d.entries@, rows, rows.len() as int);
                lemma_enc_costs_views(d.matrix.costs@, t.2, t.2.len() as int);
                assert(bytes@ =~= spec_encode_views(
                    metadata.name@,
                    metadata.encoding@,
                    nf,
                    rows,
                    t.0,
                    t.1,
                    t.2,
                ));
            }
            Ok(bytes)
        },
        Err(e) => {
            proof {
                assert(!spec_views_fit(metadata.name@, metadata.encoding@, nf, rows)) by {
                    if spec_views_fit(metadata.name@, metadata.encoding@, nf, rows) {
                        assert forall|k: int| 0 <= k < d.entries@.len() implies {
                            &&& (#[trigger] d.entries@[k]).surface@.len() <= u32::MAX
                            &&& d.entries@[k].details@.len() <= u32::MAX
                            &&& forall|j: int|
                                0 <= j < d.entries@[k].details@.len() ==> (
                                #[trigger] d.entries@[k].details@[j])@.len() <= u32::MAX
                        } by {
                            assert(entry_view(d.entries@[k]) == rows[k]);
                            assert(rows[k].details.len() <= u32::MAX);
                            assert forall|j: int| 0 <= j < d.entries@[k].details@.len() implies (
                            #[trigger] d.entries@[k].details@[j])@.len() <= u32::MAX by {
                                assert(rows[k].details[j] == d.entries@[k].details@[j]@);
                            }
                        }
                        assert(d.matrix.num_right * d.matrix.num_left <= 0xFFFF * 0xFFFF)
                            by (nonlinear_arith)
                            requires
                                d.matrix.num_right <= 0xFFFF,
                                d.matrix.num_left <= 0xFFFF,
                        ;
                        assert(dict_fits_layout(d));
                    }
                }
            }
            Err(e)
        },
    }
}

/// Compiles a user dictionary lexicon (the same tabular shape as
/// the main lexicon) into its entry table, validated against the
/// main dictionary it will overlay.
pub fn build_user_dictionary_data(lexicon: &str, metadata: &Metadata, main: &Dictionary) -> (r:
    Result<UserDictionary, LinderaError>)
    ensures
        r is Ok <==> (match spec_parse_lexicon(lexicon@, metadata.num_fields as int) {
            Some(rows) => spec_rows_wf(
                rows,
                main.matrix.num_right as int,
                main.matrix.num_left as int,
            ),
            None => false,
        }),
        match r {
            Ok(u) => {
                &&& u.wf(main.matrix.num_right as int, main.matrix.num_left as int)
                &&& spec_parse_lexicon(lexicon@, metadata.num_fields as int) == Some(
                    u.entries@.map_values(|e: WordEntry| entry_view(e)),
                )
            },
            Err(e) => e.kind == LinderaErrorKind::Format,
        },
{
    let ghost nf = metadata.num_fields as int;
    let entries = match parse_lexicon(lexicon, metadata.num_fields) {
        Ok(es) => es,
        Err(e) => {
            return Err(e);
        },
    };
    let ghost rows = spec_parse_lexicon(lexicon@, nf)->0;
    proof {
        lemma_lexicon_rows_sound(spec_source_lines(lexicon@), nf, 0);
    }
    let ghost entries0 = entries;
    match UserDictionary::new(entries, main) {
        Ok(u) => {
            proof {
                assert forall|k: int| 0 <= k < rows.len() implies {
                    &&& (#[trigger] rows[k]).surface.len() > 0
                    &&& rows[k].left_id < main.matrix.num_left as int
                    &&& rows[k].right_id < main.matrix.num_right as int
                } by {
                    assert(entry_view(u.entries@[k]) == rows[k]);
                    assert(u.entries@[k].wf(
                        main.matrix.num_right as int,
                        main.matrix.num_left as int,
                    ));
                }
            }
            Ok(u)
        },
        Err(e) => {
            proof {
                assert(!spec_rows_wf(
                    rows,
                    main.matrix.num_right as int,
                    main.matrix.num_left as int,
                )) by {
                    if spec_rows_wf(
                        rows,
                        main.matrix.num_right as int,
                        main.matrix.num_left as int,
                    ) {
                        let bad = UserDictionary { entries: entries0 };
                        assert forall|k: int| 0 <= k < bad.entries@.len() implies (
                        #[trigger] bad.entries@[k]).wf(
                            main.matrix.num_right as int,
                            main.matrix.num_left as int,
                        ) by {
                            assert(entry_view(bad.entries@[k]) == rows[k]);
                        }
                        assert(bad.wf(
                            main.matrix.num_right as int,
                            main.matrix.num_left as int,
                        ));
                    }
                }
            }
            Err(e)
        },
    }
}

/// Relies on `char::from_u32`: `Some` exactly on Unicode scalar
/// values (not a surrogate, at most 0x10FFFF), returning the
/// character with that value.
pub assume_specification[ char::from_u32 ](i: u32) -> (r: Option<char>)
    ensures
        r matches Some(c) ==> c as u32 == i,
        (r is Some) <==> (i <= 0x10FFFF && !(0xD800 <= i <= 0xDFFF)),
;

/// The character encoding only reads the first `n` characters.
proof fn lemma_enc_chars_prefix(s1: Seq<char>, s2: Seq<char>, n: int)
    requires
        0 <= n <= s1.len(),
        n <= s2.len(),
        s1.take(n) == s2.take(n),
    ensures
        enc_chars(s1, n) == enc_chars(s2, n),
    decreases n,
{
    if n > 0 {
        assert(s1.take(n)[n - 1] == s1[n - 1]);
        assert(s2.take(n)[n - 1] == s2[n - 1]);
        assert(s1.take(n - 1) =~= s1.take(n).take(n - 1));
        assert(s2.take(n - 1) =~= s2.take(n).take(n - 1));
        lemma_enc_chars_prefix(s1, s2, n - 1);
    }
}

/// The entry-table encoding only reads the first `n` entries.
proof fn lemma_enc_entries_prefix(s1: Seq<WordEntry>, s2: Seq<WordEntry>, n: int)
    requires
        0 <= n <= s1.len(),
        n <= s2.len(),
        forall|k: int| 0 <= k < n ==> s1[k] == s2[k],
    ensures
        enc_entries(s1, n) == enc_entries(s2, n),
    decreases n,
{
    if n > 0 {
        lemma_enc_entries_prefix(s1, s2, n - 1);
    }
}

/// The cost-table encoding only reads the first `n` costs.
proof fn lemma_enc_costs_prefix(s1: Seq<i32>, s2: Seq<i32>, n: int)
    requires
        0 <= n <= s1.len(),
        n <= s2.len(),
        forall|k: int| 0 <= k < n ==> s1[k] == s2[k],
    ensures
        enc_costs(s1, n) == enc_costs(s2, n),
    decreases n,
{
    if n > 0 {
        lemma_enc_costs_prefix(s1, s2, n - 1);
    }
}

/// Reads four little-endian bytes as a 32-bit value; the bytes
/// read are exactly the encoding of the value.
fn read_u32(bytes: &[u8], pos: usize) -> (r: Option<(u32, usize)>)
    ensures
        match r {
            Some(p) => {
                &&& pos + 4 <= bytes@.len()
                &&& p.1 == pos + 4
                &&& bytes@.subrange(pos as int, pos + 4) == enc_u32(p.0)
            },
            None => pos + 4 > bytes@.len(),
        },
{
    let n = bytes.len();
    if pos >= n || n - pos < 4 {
        return None;
    }
    let b0 = bytes[pos] as u32;
    let b1 = bytes[pos + 1] as u32;
    let b2 = bytes[pos + 2] as u32;
    let b3 = bytes[pos + 3] as u32;
    let v = b0 + b1 * 0x100 + b2 * 0x10000 + b3 * 0x1000000;
    proof {
        assert(v % 0x100 == b0 && (v / 0x100) % 0x100 == b1 && (v / 0x10000) % 0x100 == b2 && (v
            / 0x1000000) % 0x100 == b3) by (nonlinear_arith)
            requires
                b0 < 0x100,
                b1 < 0x100,
                b2 < 0x100,
                b3 < 0x100,
                v == b0 + b1 * 0x100 + b2 * 0x10000 + b3 * 0x1000000,
        ;
        assert(bytes@.subrange(pos as int, pos + 4) =~= enc_u32(v));
    }
    Some((v, pos + 4))
}

/// Reads a length-prefixed string; the bytes read are exactly its
/// encoding.
#[verifier::loop_isolation(false)]
fn read_str(bytes: &[u8], pos: usize) -> (r: Option<(String, usize)>)
    ensures
        match r {
            Some(p) => {
                &&& pos <= p.1 <= bytes@.len()
                &&& bytes@.subrange(pos as int, p.1 as int) == enc_str(p.0@)
            },
            None => true,
        },
{
    let (count, mut cur) = match read_u32(bytes, pos) {
        Some(p) => p,
        None => {
            return None;
        },
    };
    let mut acc: Vec<char> = Vec::new();
    let mut k: u32 = 0;
    while k < count
        invariant
            k <= count,
            acc@.len() == k,
            pos + 4 <= cur <= bytes@.len(),
            cur == pos + 4 + 4 * (k as int),
            bytes@.subrange(pos + 4, cur as int) == enc_chars(acc@, k as int),
        decreases count - k,
    {
        let (v, next) = match read_u32(bytes, cur) {
            Some(p) => p,
            None => {
                return None;
            },
        };
        let c = match char::from_u32(v) {
            Some(c) => c,
            None => {
                return None;
            },
        };
        let ghost old_acc = acc@;
        acc.push(c);
        proof {
            assert(old_acc.take(k as int) =~= acc@.take(k as int));
            lemma_enc_chars_prefix(old_acc, acc@, k as int);
            assert(acc@[k as int] == c);
            assert(bytes@.subrange(pos + 4, next as int) =~= bytes@.subrange(pos + 4, cur as int)
                + bytes@.subrange(cur as int, cur + 4));
            assert(enc_chars(acc@, k as int) + enc_u32(c as u32) =~= enc_chars(acc@, k + 1));
        }
        cur = next;
        k = k + 1;
    }
    let s = crate::text::chars_to_string(acc.as_slice());
    proof {
        assert(acc@.len() == count);
        assert(bytes@.subrange(pos as int, cur as int) =~= bytes@.subrange(pos as int, pos + 4)
            + bytes@.subrange(pos + 4, cur as int));
        assert(bytes@.subrange(pos as int, cur as int) =~= enc_str(s@));
    }
    Some((s, cur))
}

/// Reads one entry; the bytes read are exactly its encoding.
#[verifier::loop_isolation(false)]
#[verifier::rlimit(60)]
fn read_entry(bytes: &[u8], pos: usize) -> (r: Option<(WordEntry, usize)>)
    ensures
        match r {
            Some(p) => {
                &&& pos <= p.1 <= bytes@.len()
                &&& bytes@.subrange(pos as int, p.1 as int) == enc_entry(p.0)
            },
            None => true,
        },
{
    let (surface_str, p1) = match read_str(bytes, pos) {
        Some(p) => p,
        None => {
            return None;
        },
    };
    let surface = crate::text::to_chars(surface_str.as_str());
    let (left_raw, p2) = match read_u32(bytes, p1) {
        Some(p) => p,
        None => {
            return None;
        },
    };
    if left_raw > 0xFFFF {
        return None;
    }
    let (right_raw, p3) = match read_u32(bytes, p2) {
        Some(p) => p,
        None => {
            return None;
        },
    };
    if right_raw > 0xFFFF {
        return None;
    }
    let (cost_raw, p4) = match read_u32(bytes, p3) {
        Some(p) => p,
        None => {
            return None;
        },
    };
    let (dcount, p5) = match read_u32(bytes, p4) {
        Some(p) => p,
        None => {
            return None;
        },
    };
    let mut details: Vec<String> = Vec::new();
    let mut cur = p5;
    let mut k: u32 = 0;
    while k < dcount
        invariant
            k <= dcount,
            details@.len() == k,
            p5 <= cur <= bytes@.len(),
            bytes@.subrange(p5 as int, cur as int) == enc_details(details.deep_view(), k as int),
        decreases dcount - k,
    {
        let (s, next) = match read_str(bytes, cur) {
            Some(p) => p,
            None => {
                return None;
            },
        };
        let ghost old_details = details.deep_view();
        details.push(s);
        proof {
            assert(forall|j: int|
                0 <= j < k ==> old_details[j] == #[trigger] details.deep_view()[j]);
            lemma_enc_details_prefix(old_details, details.deep_view(), k as int);
            assert(details.deep_view()[k as int] == details@[k as int]@);
            assert(bytes@.subrange(p5 as int, next as int) =~= bytes@.subrange(
                p5 as int,
                cur as int,
            ) + bytes@.subrange(cur as int, next as int));
            assert(enc_details(details.deep_view(), k as int) + enc_str(
                details.deep_view()[k as int],
            ) =~= enc_details(details.deep_view(), k + 1));
        }
        cur = next;
        k = k + 1;
    }
    let e = WordEntry {
        surface,
        left_id: left_raw as u16,
        right_id: right_raw as u16,
        word_cost: cost_raw as i32,
        details,
    };
    proof {
        assert(e.left_id as u32 == left_raw);
        assert(e.right_id as u32 == right_raw);
        assert((cost_raw as i32) as u32 == cost_raw) by (bit_vector);
        assert(e.details@.len() == dcount);
        assert(bytes@.subrange(pos as int, cur as int) =~= bytes@.subrange(pos as int, p1 as int)
            + bytes@.subrange(p1 as int, p2 as int) + bytes@.subrange(p2 as int, p3 as int)
            + bytes@.subrange(p3 as int, p4 as int) + bytes@.subrange(p4 as int, p5 as int)
            + bytes@.subrange(p5 as int, cur as int));
        assert(bytes@.subrange(pos as int, cur as int) =~= enc_entry(e));
    }
    Some((e, cur))
}

/// The detail encoding only reads the first `n` fields.
proof fn lemma_enc_details_prefix(s1: Seq<Seq<char>>, s2: Seq<Seq<char>>, n: int)
    requires
        0 <= n <= s1.len(),
        n <= s2.len(),
        forall|k: int| 0 <= k < n ==> s1[k] == s2[k],
    ensures
        enc_details(s1, n) == enc_details(s2, n),
    decreases n,
{
    if n > 0 {
        lemma_enc_details_prefix(s1, s2, n - 1);
    }
}

/// Reads magic, version, metadata fields and the entry count.
#[verifier::rlimit(60)]
fn read_header(bytes: &[u8]) -> (r: Option<(String, String, u32, u32, usize)>)
    ensures
        match r {
            Some(p) => {
                &&& 5 <= p.4 <= bytes@.len()
                &&& bytes@.take(p.4 as int) == spec_magic() + seq![FORMAT_VERSION] + enc_str(
                    p.0@,
                ) + enc_str(p.1@) + enc_u32(p.2) + enc_u32(p.3)
            },
            None => true,
        },
{
    let n = bytes.len();
    if n < 5 {
        return None;
    }
    if bytes[0] != 0x4C || bytes[1] != 0x44 || bytes[2] != 0x43 || bytes[3] != 0x31 {
        return None;
    }
    if bytes[4] != FORMAT_VERSION {
        return None;
    }
    proof {
        assert(bytes@.take(5) =~= spec_magic() + seq![FORMAT_VERSION]);
    }
    let (name, p1) = match read_str(bytes, 5) {
        Some(p) => p,
        None => {
            return None;
        },
    };
    let (encoding, p2) = match read_str(bytes, p1) {
        Some(p) => p,
        None => {
            return None;
        },
    };
    let (num_fields_raw, p3) = match read_u32(bytes, p2) {
        Some(p) => p,
        None => {
            return None;
        },
    };
    let (entry_count, p4) = match read_u32(bytes, p3) {
        Some(p) => p,
        None => {
            return None;
        },
    };
    proof {
        assert(bytes@.take(p1 as int) =~= bytes@.take(5) + bytes@.subrange(5, p1 as int));
        assert(bytes@.take(p2 as int) =~= bytes@.take(p1 as int) + bytes@.subrange(
            p1 as int,
            p2 as int,
        ));
        assert(bytes@.take(p3 as int) =~= bytes@.take(p2 as int) + bytes@.subrange(
            p2 as int,
            p3 as int,
        ));
        assert(bytes@.take(p4 as int) =~= bytes@.take(p3 as int) + bytes@.subrange(
            p3 as int,
            p4 as int,
        ));
        assert(bytes@.take(p4 as int) =~= spec_magic() + seq![FORMAT_VERSION] + enc_str(name@)
            + enc_str(encoding@) + enc_u32(num_fields_raw) + enc_u32(entry_count));
    }
    Some((name, encoding, num_fields_raw, entry_count, p4))
}

/// Reads the entry table.
#[verifier::loop_isolation(false)]
#[verifier::rlimit(60)]
fn read_entries(bytes: &[u8], pos: usize, count: u32) -> (r: Option<(Vec<WordEntry>, usize)>)
    requires
        pos <= bytes@.len(),
    ensures
        match r {
            Some(p) => {
                &&& pos <= p.1 <= bytes@.len()
                &&& p.0@.len() == count
                &&& bytes@.subrange(pos as int, p.1 as int) == enc_entries(
                    p.0@,
                    p.0@.len() as int,
                )
            },
            None => true,
        },
{
    let mut entries: Vec<WordEntry> = Vec::new();
    let mut cur = pos;
    let mut k: u32 = 0;
    while k < count
        invariant
            k <= count,
            entries@.len() == k,
            pos <= cur <= bytes@.len(),
            bytes@.subrange(pos as int, cur as int) == enc_entries(entries@, k as int),
        decreases count - k,
    {
        let (e, next) = match read_entry(bytes, cur) {
            Some(p) => p,
            None => {
                return None;
            },
        };
        let ghost old_entries = entries@;
        entries.push(e);
        proof {
            lemma_enc_entries_prefix(old_entries, entries@, k as int);
            assert(bytes@.subrange(pos as int, next as int) =~= bytes@.subrange(
                pos as int,
                cur as int,
            ) + bytes@.subrange(cur as int, next as int));
            assert(enc_entries(entries@, k as int) + enc_entry(entries@[k as int]) =~= enc_entries(
                entries@,
                k + 1,
            ));
        }
        cur = next;
        k = k + 1;
    }
    Some((entries, cur))
}

/// Reads the matrix dimensions and the cost table, which must run
/// to the end of the bytes.
#[verifier::loop_isolation(false)]
fn read_matrix_tail(bytes: &[u8], pos: usize) -> (r: Option<(u32, u32, Vec<i32>)>)
    requires
        pos <= bytes@.len(),
    ensures
        match r {
            Some(p) => bytes@.subrange(pos as int, bytes@.len() as int) == enc_u32(p.0) + enc_u32(
                p.1,
            ) + enc_costs(p.2@, p.2@.len() as int),
            None => true,
        },
{
    let n = bytes.len();
    let (num_right_raw, q1) = match read_u32(bytes, pos) {
        Some(p) => p,
        None => {
            return None;
        },
    };
    let (num_left_raw, q2) = match read_u32(bytes, q1) {
        Some(p) => p,
        None => {
            return None;
        },
    };
    let mut costs: Vec<i32> = Vec::new();
    let mut qcur = q2;
    while qcur < n
        invariant
            q2 <= qcur <= bytes@.len(),
            n == bytes@.len(),
            bytes@.subrange(q2 as int, qcur as int) == enc_costs(costs@, costs@.len() as int),
        decreases n - qcur,
    {
        let (v, next) = match read_u32(bytes, qcur) {
            Some(p) => p,
            None => {
                return None;
            },
        };
        let ghost old_costs = costs@;
        costs.push(v as i32);
        proof {
            lemma_enc_costs_prefix(old_costs, costs@, old_costs.len() as int);
            assert((v as i32) as u32 == v) by (bit_vector);
            assert(bytes@.subrange(q2 as int, next as int) =~= bytes@.subrange(
                q2 as int,
                qcur as int,
            ) + bytes@.subrange(qcur as int, next as int));
            assert(enc_costs(costs@, costs@.len() - 1) + enc_u32(v) =~= enc_costs(
                costs@,
                costs@.len() as int,
            ));
        }
        qcur = next;
    }
    proof {
        assert(bytes@.subrange(pos as int, n as int) =~= bytes@.subrange(pos as int, q1 as int)
            + bytes@.subrange(q1 as int, q2 as int) + bytes@.subrange(q2 as int, n as int));
    }
    Some((num_right_raw, num_left_raw, costs))
}

/// Loads a compiled dictionary from its binary bytes.
///
/// Only canonical encodings are accepted: on success the result is
/// well-formed and re-encodes to exactly the input bytes.  A
/// foreign magic number, truncated or trailing data, or entries
/// that do not fit the matrix are rejected as corrupt; a different
/// format version behind the right magic number is rejected as a
/// version mismatch, told apart by its message.  Both are
/// formatting errors.
#[verifier::rlimit(60)]
pub fn load_dictionary_bytes(bytes: &[u8]) -> (r: Result<Dictionary, LinderaError>)
    ensures
        match r {
            Ok(d) => {
                &&& d.wf()
                &&& bytes@ == spec_encode_dictionary(d)
            },
            Err(e) => e.kind == LinderaErrorKind::Format && (e.message@
                == "dictionary format version mismatch"@ || e.message@ == "corrupt dictionary"@),
        },
        (bytes@.len() >= 5 && bytes@.subrange(0, 4) == spec_magic() && bytes@[4] != FORMAT_VERSION)
            ==> (r matches Err(e) && e.message@ == "dictionary format version mismatch"@),
        (r matches Err(e) && e.message@ == "dictionary format version mismatch"@) ==> (bytes@.len()
            >= 5 && bytes@[4] != FORMAT_VERSION),
{
    proof {
        reveal_strlit("dictionary format version mismatch");
        reveal_strlit("corrupt dictionary");
        assert("dictionary format version mismatch"@.len() == 34);
        assert("corrupt dictionary"@.len() == 18);
    }
    let n = bytes.len();
    if n >= 5 && bytes[4] != FORMAT_VERSION && bytes[0] == 0x4C && bytes[1] == 0x44 && bytes[2]
        == 0x43 && bytes[3] == 0x31 {
        return Err(
            LinderaError::new(
                LinderaErrorKind::Format,
                String::from_str("dictionary format version mismatch"),
            ),
        );
    }
    proof {
        assert(!(bytes@.len() >= 5 && bytes@.subrange(0, 4) == spec_magic() && bytes@[4]
            != FORMAT_VERSION)) by {
            if bytes@.len() >= 5 && bytes@.subrange(0, 4) == spec_magic() && bytes@[4]
                != FORMAT_VERSION {
                assert(bytes@.subrange(0, 4)[0] == bytes@[0]);
                assert(bytes@.subrange(0, 4)[1] == bytes@[1]);
                assert(bytes@.subrange(0, 4)[2] == bytes@[2]);
                assert(bytes@.subrange(0, 4)[3] == bytes@[3]);
            }
        }
    }
    let (name, encoding, num_fields_raw, entry_count, p4) = match read_header(bytes) {
        Some(p) => p,
        None => {
            return Err(
                LinderaError::new(
                    LinderaErrorKind::Format,
                    String::from_str("corrupt dictionary"),
                ),
            );
        },
    };
    let (entries, cur) = match read_entries(bytes, p4, entry_count) {
        Some(p) => p,
        None => {
            return Err(
                LinderaError::new(
                    LinderaErrorKind::Format,
                    String::from_str("corrupt dictionary"),
                ),
            );
        },
    };
    let (num_right_raw, num_left_raw, costs) = match read_matrix_tail(bytes, cur) {
        Some(p) => p,
        None => {
            return Err(
                LinderaError::new(
                    LinderaErrorKind::Format,
                    String::from_str("corrupt dictionary"),
                ),
            );
        },
    };
    let metadata = Metadata { name, encoding, num_fields: num_fields_raw as usize };
    let matrix = ConnectionMatrix {
        num_right: num_right_raw as usize,
        num_left: num_left_raw as usize,
        costs,
    };
    let d = Dictionary { metadata, entries, matrix };
    if !d.validate() {
        return Err(
            LinderaError::new(LinderaErrorKind::Format, String::from_str("corrupt dictionary")),
        );
    }
    proof {
        assert(d.metadata.num_fields as u32 == num_fields_raw);
        assert(d.matrix.num_right as u32 == num_right_raw);
        assert(d.matrix.num_left as u32 == num_left_raw);
        assert(bytes@ =~= bytes@.take(p4 as int) + bytes@.subrange(p4 as int, cur as int)
            + bytes@.subrange(cur as int, bytes@.len() as int));
        assert(bytes@ =~= spec_encode_dictionary(d));
    }
    Ok(d)
}

/// The four magic bytes that begin every compiled user
/// dictionary.
pub open spec fn spec_user_magic() -> Seq<u8> {
    seq![0x4Cu8, 0x44u8, 0x55u8, 0x31u8]
}

/// Whether a user dictionary's declared lengths fit the 32-bit
/// cells of the binary layout.
pub open spec fn user_fits_layout(u: UserDictionary) -> bool {
    &&& u.entries@.len() <= u32::MAX
    &&& forall|i: int| 0 <= i < u.entries@.len() ==> entry_fits_layout(#[trigger] u.entries@[i])
}

/// The encoding of a whole user dictionary: magic, version, the
/// entry table.
pub open spec fn spec_encode_user_dictionary(u: UserDictionary) -> Seq<u8> {
    spec_user_magic() + seq![FORMAT_VERSION] + enc_u32(u.entries@.len() as u32) + enc_entries(
        u.entries@,
        u.entries@.len() as int,
    )
}

/// Serializes a user dictionary; as for the main dictionary, the
/// bytes are a pure function of its value, and serialization
/// succeeds exactly when every declared length fits the layout.
#[verifier::loop_isolation(false)]
#[verifier::rlimit(60)]
pub fn encode_user_dictionary(u: &UserDictionary) -> (r: Result<Vec<u8>, LinderaError>)
    ensures
        r is Ok <==> user_fits_layout(*u),
        match r {
            Ok(bytes) => bytes@ == spec_encode_user_dictionary(*u),
            Err(e) => e.kind == LinderaErrorKind::Format,
        },
{
    if u.entries.len() > (u32::MAX as usize) {
        return Err(
            LinderaError::new(
                LinderaErrorKind::Format,
                String::from_str("user dictionary too large for the binary layout"),
            ),
        );
    }
    let mut out: Vec<u8> = Vec::new();
    out.push(0x4C);
    out.push(0x44);
    out.push(0x55);
    out.push(0x31);
    out.push(FORMAT_VERSION);
    proof {
        assert(out@ =~= spec_user_magic() + seq![FORMAT_VERSION]);
    }
    push_u32(&mut out, u.entries.len() as u32);
    let ghost base = out@;
    let n = u.entries.len();
    let mut i: usize = 0;
    while i < n
        invariant
            i <= n,
            out@ == base + enc_entries(u.entries@, i as int),
            forall|k: int| 0 <= k < i ==> entry_fits_layout(#[trigger] u.entries@[k]),
        decreases n - i,
    {
        let ghost ebase = out@;
        if !push_entry(&mut out, &u.entries[i]) {
            return Err(
                LinderaError::new(
                    LinderaErrorKind::Format,
                    String::from_str("user dictionary entry too large for the binary layout"),
                ),
            );
        }
        proof {
            assert(out@ =~= ebase + enc_entry(u.entries@[i as int]));
            assert(ebase + enc_entry(u.entries@[i as int]) =~= base + enc_entries(
                u.entries@,
                i + 1,
            ));
        }
        i = i + 1;
    }
    proof {
        assert(out@ =~= spec_encode_user_dictionary(*u));
    }
    Ok(out)
}

/// Loads a compiled user dictionary and validates it against the
/// main dictionary it will overlay.  Only canonical encodings with
/// fitting category ids are accepted: on success the result is
/// well-formed for that dictionary's matrix and re-encodes to
/// exactly the input bytes.  A changed format version behind the
/// right magic number is a version mismatch, told apart by its
/// message; anything else malformed is corrupt.
#[verifier::loop_isolation(false)]
#[verifier::rlimit(60)]
pub fn load_user_dictionary_bytes(bytes: &[u8], main: &Dictionary) -> (r: Result<
    UserDictionary,
    LinderaError,
>)
    ensures
        match r {
            Ok(u) => {
                &&& u.wf(main.matrix.num_right as int, main.matrix.num_left as int)
                &&& bytes@ == spec_encode_user_dictionary(u)
            },
            Err(e) => e.kind == LinderaErrorKind::Format,
        },
        (bytes@.len() >= 5 && bytes@.subrange(0, 4) == spec_user_magic() && bytes@[4]
            != FORMAT_VERSION) ==> (r matches Err(e) && e.message@
            == "user dictionary format version mismatch"@),
{
    proof {
        reveal_strlit("user dictionary format version mismatch");
    }
    let n = bytes.len();
    if n >= 5 && bytes[4] != FORMAT_VERSION && bytes[0] == 0x4C && bytes[1] == 0x44 && bytes[2]
        == 0x55 && bytes[3] == 0x31 {
        return Err(
            LinderaError::new(
                LinderaErrorKind::Format,
                String::from_str("user dictionary format version mismatch"),
            ),
        );
    }
    proof {
        assert(!(bytes@.len() >= 5 && bytes@.subrange(0, 4) == spec_user_magic() && bytes@[4]
            != FORMAT_VERSION)) by {
            if bytes@.len() >= 5 && bytes@.subrange(0, 4) == spec_user_magic() && bytes@[4]
                != FORMAT_VERSION {
                assert(bytes@.subrange(0, 4)[0] == bytes@[0]);
                assert(bytes@.subrange(0, 4)[1] == bytes@[1]);
                assert(bytes@.subrange(0, 4)[2] == bytes@[2]);
                assert(bytes@.subrange(0, 4)[3] == bytes@[3]);
            }
        }
    }
    if n < 5 {
        return Err(
            LinderaError::new(
                LinderaErrorKind::Format,
                String::from_str("corrupt user dictionary"),
            ),
        );
    }
    if bytes[0] != 0x4C || bytes[1] != 0x44 || bytes[2] != 0x55 || bytes[3] != 0x31 {
        return Err(
            LinderaError::new(
                LinderaErrorKind::Format,
                String::from_str("corrupt user dictionary"),
            ),
        );
    }
    if bytes[4] != FORMAT_VERSION {
        return Err(
            LinderaError::new(
                LinderaErrorKind::Format,
                String::from_str("user dictionary format version mismatch"),
            ),
        );
    }
    proof {
        assert(bytes@.take(5) =~= spec_user_magic() + seq![FORMAT_VERSION]);
    }
    let (count, p1) = match read_u32(bytes, 5) {
        Some(p) => p,
        None => {
            return Err(
                LinderaError::new(
                    LinderaErrorKind::Format,
                    String::from_str("corrupt user dictionary"),
                ),
            );
        },
    };
    let (entries, cur) = match read_entries(bytes, p1, count) {
        Some(p) => p,
        None => {
            return Err(
                LinderaError::new(
                    LinderaErrorKind::Format,
                    String::from_str("corrupt user dictionary"),
                ),
            );
        },
    };
    if cur != n {
        return Err(
            LinderaError::new(
                LinderaErrorKind::Format,
                String::from_str("corrupt user dictionary"),
            ),
        );
    }
    match UserDictionary::new(entries, main) {
        Ok(u) => {
            proof {
                assert(bytes@.take(p1 as int) =~= bytes@.take(5) + bytes@.subrange(5, p1 as int));
                assert(bytes@ =~= bytes@.take(p1 as int) + bytes@.subrange(p1 as int, n as int));
                assert(bytes@ =~= spec_encode_user_dictionary(u));
            }
            Ok(u)
        },
        Err(_) => Err(
            LinderaError::new(
                LinderaErrorKind::Format,
                String::from_str("user dictionary does not fit the dictionary's matrix"),
            ),
        ),
    }
}

} // verus!
