//! FASTA records, and making one from a complete entry string.

use vstd::prelude::*;

use crate::defline::{defline_id, get_id_from_defline};
use crate::error::FastaError;
use crate::text::{chars_of, string_of};
use vstd::slice::slice_subrange;

verus! {

/// What a record holds, as sequences of characters.
pub struct RecordView {
    pub id: Seq<char>,
    pub seq: Seq<char>,
    pub entry: Seq<char>,
}

/// One FASTA entry: its identifier, its sequence and the raw text it was
/// read from. A record with an empty raw text stands for "no record".
#[derive(Clone)]
pub struct Record {
    id: String,
    seq: String,
    entry_string: String,
}

impl View for Record {
    type V = RecordView;

    closed spec fn view(&self) -> RecordView {
        RecordView { id: self.id@, seq: self.seq@, entry: self.entry_string@ }
    }
}

/// The position of the first line break at or after `i` (or the end).
pub open spec fn line_end(s: Seq<char>, i: int) -> int
    decreases s.len() - i,
{
    if 0 <= i < s.len() && s[i] != '\n' {
        line_end(s, i + 1)
    } else {
        i
    }
}

/// The end of a line lies between its start and the end of the text.
pub proof fn lemma_line_end_bounds(s: Seq<char>, i: int)
    requires
        0 <= i <= s.len(),
    ensures
        i <= line_end(s, i) <= s.len(),
    decreases s.len() - i,
{
    if i < s.len() && s[i] != '\n' {
        lemma_line_end_bounds(s, i + 1);
    }
}

/// Any character but `'\n'`.
pub open spec fn not_line_break(c: char) -> bool {
    c != '\n'
}

/// The record that a complete entry string stands for: the identifier of
/// its first line, and the remaining lines joined with nothing between them.
/// `None` when no identifier can be taken from the first line.
pub open spec fn entry_record(s: Seq<char>) -> Option<RecordView> {
    let k = line_end(s, 0);
    match defline_id(s.take(k)) {
        Some(id) => Some(
            RecordView { id, seq: s.skip(k).filter(|c: char| not_line_break(c)), entry: s },
        ),
        None => None,
    }
}

proof fn lemma_filter_extend(s: Seq<char>, lo: int, j: int)
    requires
        0 <= lo <= j < s.len(),
    ensures
        s.subrange(lo, j + 1).filter(|c: char| not_line_break(c)) == if s[j] == '\n' {
            s.subrange(lo, j).filter(|c: char| not_line_break(c))
        } else {
            s.subrange(lo, j).filter(|c: char| not_line_break(c)).push(s[j])
        },
{
    reveal(Seq::filter);
    assert(s.subrange(lo, j + 1).drop_last() =~= s.subrange(lo, j));
}

impl Record {
    pub(crate) fn from_parts(id: String, seq: String, entry_string: String) -> (r: Record)
        ensures
            r@ == (RecordView { id: id@, seq: seq@, entry: entry_string@ }),
    {
        Record { id, seq, entry_string }
    }

    /// The record that stands for nothing read yet.
    pub(crate) fn empty() -> (r: Record)
        ensures
            r@ == empty_record(),
    {
        Record { id: String::new(), seq: String::new(), entry_string: String::new() }
    }

    /// Adds a sequence line: the raw line to the entry text, the line
    /// without surrounding whitespace to the sequence.
    pub(crate) fn push_body_line(&mut self, line: &str)
        ensures
            final(self)@ == (RecordView {
                id: old(self)@.id,
                seq: old(self)@.seq + crate::text::trimmed(line@),
                entry: old(self)@.entry + line@,
            }),
    {
        self.entry_string.append(line);
        self.seq.append(crate::text::trim(line));
    }

    pub(crate) fn has_entry(&self) -> (r: bool)
        ensures
            r == (self@.entry.len() > 0),
    {
        !self.entry_string.as_str().is_empty()
    }

    /// Makes a record from one complete entry: a header line, then the
    /// sequence lines, separated by `'\n'`. The sequence lines are joined
    /// as they are.
    ///
    /// # Errors
    /// `Parse` when the first line names no identifier (it is empty or
    /// only whitespace).
    pub fn new(entry_string: &String) -> (r: Result<Record, FastaError>)
        ensures
            match r {
                Ok(rec) => entry_record(entry_string@) == Some(rec@),
                Err(e) => entry_record(entry_string@) is None && e is Parse,
            },
    {
        let cs = chars_of(entry_string.as_str());
        let n = cs.len();
        let ghost s = entry_string@;
        let mut k: usize = 0;
        while k < n && cs[k] != '\n'
            invariant
                k <= n,
                cs@ == s,
                n == cs.len(),
                line_end(s, k as int) == line_end(s, 0),
            decreases n - k,
        {
            k += 1;
        }
        let first = string_of(slice_subrange(cs.as_slice(), 0, k));
        let id = match get_id_from_defline(first.as_str()) {
            Ok(id) => String::from_str(id),
            Err(e) => {
                return Err(e);
            },
        };
        let mut body: Vec<char> = Vec::new();
        let mut j: usize = k;
        while j < n
            invariant
                k <= j <= n,
                cs@ == s,
                n == cs.len(),
                body@ == s.subrange(k as int, j as int).filter(|c: char| not_line_break(c)),
            decreases n - j,
        {
            proof {
                lemma_filter_extend(s, k as int, j as int);
            }
            if cs[j] != '\n' {
                body.push(cs[j]);
            }
            j += 1;
        }
        proof {
            assert(s.subrange(k as int, n as int) =~= s.skip(k as int));
            assert(s.subrange(0, k as int) =~= s.take(k as int));
        }
        Ok(Record { id, seq: string_of(body.as_slice()), entry_string: entry_string.clone() })
    }

    /// The identifier of the entry.
    pub fn id(&self) -> (r: &str)
        ensures
            r@ == self@.id,
    {
        self.id.as_str()
    }

    /// The sequence of the entry.
    pub fn seq(&self) -> (r: &str)
        ensures
            r@ == self@.seq,
    {
        self.seq.as_str()
    }

    /// The raw text the entry was read from.
    pub fn to_string(&self) -> (r: &str)
        ensures
            r@ == self@.entry,
    {
        self.entry_string.as_str()
    }
}

/// Making a record again from a record's own raw text gives the same
/// record; in particular the identifier taken again from its first line is
/// the one it holds.
pub proof fn lemma_entry_record_idempotent(s: Seq<char>)
    requires
        entry_record(s) is Some,
    ensures
        entry_record(entry_record(s).unwrap().entry) == entry_record(s),
        defline_id(s.take(line_end(s, 0))) == Some(entry_record(s).unwrap().id),
{
}

/// The view of the record that stands for nothing read yet.
pub open spec fn empty_record() -> RecordView {
    RecordView { id: Seq::empty(), seq: Seq::empty(), entry: Seq::empty() }
}

} // verus!
