//! Identifiers taken from FASTA header lines.

use vstd::prelude::*;

use crate::error::FastaError;
use crate::text::{is_whitespace, skip_non_ws, skip_ws};

verus! {

/// The character that opens a header line.
pub const MARKER: char = '>';

/// Going up from `i`, the first position that does not hold a marker.
pub open spec fn skip_markers(s: Seq<char>, i: int) -> int
    decreases s.len() - i,
{
    if 0 <= i < s.len() && s[i] == MARKER {
        skip_markers(s, i + 1)
    } else {
        i
    }
}

/// The identifier named by a header line: its first whitespace-delimited
/// token with all leading markers removed; `None` when the line holds no
/// token at all.
pub open spec fn defline_id(line: Seq<char>) -> Option<Seq<char>> {
    let b = skip_ws(line, 0);
    if b < line.len() {
        Some(line.subrange(skip_markers(line, b), skip_non_ws(line, b)))
    } else {
        None
    }
}

/// A line that opens with the marker always names an identifier.
pub proof fn lemma_header_has_id(line: Seq<char>)
    requires
        line.len() > 0,
        line[0] == MARKER,
    ensures
        defline_id(line) is Some,
{
    assert(skip_ws(line, 0) == 0);
}

/// Takes a header line (e.g. `">seq1 some description"`) and returns the
/// identifier of its entry (`"seq1"`): the first whitespace-delimited token
/// with its leading markers removed.
pub fn get_id_from_defline(defline: &str) -> (r: Result<&str, FastaError>)
    ensures
        match r {
            Ok(id) => defline_id(defline@) == Some(id@),
            Err(e) => defline_id(defline@) is None && e is Parse,
        },
{
    let n = defline.unicode_len();
    let mut b: usize = 0;
    while b < n && is_whitespace(defline.get_char(b))
        invariant
            b <= n,
            n == defline@.len(),
            skip_ws(defline@, b as int) == skip_ws(defline@, 0),
        decreases n - b,
    {
        b += 1;
    }
    if b == n {
        let mut msg = String::from_str("Can't parse defline: ");
        msg.append(defline);
        return Err(FastaError::Parse(msg));
    }
    let mut m: usize = b;
    while m < n && defline.get_char(m) == MARKER
        invariant
            b <= m <= n,
            n == defline@.len(),
            skip_markers(defline@, m as int) == skip_markers(defline@, b as int),
            skip_non_ws(defline@, m as int) == skip_non_ws(defline@, b as int),
        decreases n - m,
    {
        m += 1;
    }
    let mut e: usize = m;
    while e < n && !is_whitespace(defline.get_char(e))
        invariant
            m <= e <= n,
            n == defline@.len(),
            skip_non_ws(defline@, e as int) == skip_non_ws(defline@, b as int),
        decreases n - e,
    {
        e += 1;
    }
    Ok(defline.substring_char(m, e))
}

} // verus!
