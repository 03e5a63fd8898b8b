//! The streaming reader: a state machine fed one line at a time.

use vstd::prelude::*;

use crate::defline::{defline_id, get_id_from_defline, lemma_header_has_id, MARKER};
use crate::error::FastaError;
use crate::record::{empty_record, lemma_line_end_bounds, line_end, Record, RecordView};
use crate::text::{chars_of, string_of, trimmed};
use vstd::slice::slice_subrange;

verus! {

/// A line that opens a new entry.
pub open spec fn is_header(line: Seq<char>) -> bool {
    line.len() > 0 && line[0] == MARKER
}

/// The entry that a header line opens, before any sequence line.
pub open spec fn header_record(line: Seq<char>) -> RecordView {
    RecordView { id: defline_id(line).unwrap(), seq: Seq::empty(), entry: line }
}

/// The entry in progress after one more line. A header line starts a new
/// entry; a sequence line extends the entry in progress; a sequence line
/// before any header is dropped.
pub open spec fn next_state(acc: RecordView, line: Seq<char>) -> RecordView {
    if is_header(line) {
        header_record(line)
    } else if acc.entry.len() > 0 {
        RecordView { id: acc.id, seq: acc.seq + trimmed(line), entry: acc.entry + line }
    } else {
        acc
    }
}

/// The record completed by one more line: the entry in progress, when the
/// line is a header and an entry is in progress.
pub open spec fn emitted(acc: RecordView, line: Seq<char>) -> Option<RecordView> {
    if is_header(line) && acc.entry.len() > 0 {
        Some(acc)
    } else {
        None
    }
}

/// The entry in progress and the records completed after the given lines.
pub open spec fn feed(lines: Seq<Seq<char>>) -> (RecordView, Seq<RecordView>)
    decreases lines.len(),
{
    if lines.len() == 0 {
        (empty_record(), Seq::empty())
    } else {
        let (acc, out) = feed(lines.drop_last());
        let line = lines.last();
        (
            next_state(acc, line),
            match emitted(acc, line) {
                Some(rec) => out.push(rec),
                None => out,
            },
        )
    }
}

/// Every record that a stream of the given lines yields, in order.
pub open spec fn parse_lines(lines: Seq<Seq<char>>) -> Seq<RecordView> {
    let (acc, out) = feed(lines);
    if acc.entry.len() > 0 {
        out.push(acc)
    } else {
        out
    }
}

/// The items are successes that hold exactly the given records.
pub open spec fn yields_records(items: Seq<Result<Record, FastaError>>, recs: Seq<RecordView>) -> bool {
    &&& items.len() == recs.len()
    &&& forall|i: int| 0 <= i < items.len() ==> (#[trigger] items[i] matches Ok(x) && x@ == recs[i])
}

/// A pull-driven FASTA reader: it is handed one line at a time and holds
/// only the entry in progress.
pub struct Reader {
    current_entry: Record,
}

impl View for Reader {
    type V = RecordView;

    closed spec fn view(&self) -> RecordView {
        self.current_entry@
    }
}

impl Reader {
    /// A reader with no entry in progress.
    pub fn new() -> (r: Reader)
        ensures
            r@ == empty_record(),
    {
        Reader { current_entry: Record::empty() }
    }

    /// Hands the reader the next line (without its terminator). Yields the
    /// entry that was in progress when `line` is a header that ends it.
    pub fn push_line(&mut self, line: &str) -> (r: Option<Result<Record, FastaError>>)
        ensures
            final(self)@ == next_state(old(self)@, line@),
            match emitted(old(self)@, line@) {
                Some(rec) => r matches Some(Ok(x)) && x@ == rec,
                None => r is None,
            },
    {
        if !line.is_empty() && line.get_char(0) == MARKER {
            proof {
                lemma_header_has_id(line@);
            }
            let id = match get_id_from_defline(line) {
                Ok(id) => String::from_str(id),
                Err(e) => {
                    return Some(Err(e));
                },
            };
            let mut entry = Record::from_parts(id, String::new(), String::from_str(line));
            let in_progress = self.current_entry.has_entry();
            core::mem::swap(&mut self.current_entry, &mut entry);
            if in_progress {
                Some(Ok(entry))
            } else {
                None
            }
        } else {
            if self.current_entry.has_entry() {
                self.current_entry.push_body_line(line);
            }
            None
        }
    }

    /// Signals the end of the stream: yields the entry in progress, if any,
    /// and leaves the reader with none.
    pub fn finish(&mut self) -> (r: Option<Result<Record, FastaError>>)
        ensures
            final(self)@ == empty_record(),
            if old(self)@.entry.len() > 0 {
                r matches Some(Ok(x)) && x@ == old(self)@
            } else {
                r is None
            },
    {
        let mut entry = Record::empty();
        core::mem::swap(&mut self.current_entry, &mut entry);
        if entry.has_entry() {
            Some(Ok(entry))
        } else {
            None
        }
    }
}

/// Reads every record from the given lines, in order.
pub fn read_lines(lines: &Vec<String>) -> (r: Vec<Result<Record, FastaError>>)
    ensures
        yields_records(r@, parse_lines(lines.deep_view())),
{
    let ghost all = lines.deep_view();
    let mut reader = Reader::new();
    let mut out: Vec<Result<Record, FastaError>> = Vec::new();
    let mut i: usize = 0;
    while i < lines.len()
        invariant
            i <= lines.len(),
            all == lines.deep_view(),
            reader@ == feed(all.take(i as int)).0,
            yields_records(out@, feed(all.take(i as int)).1),
        decreases lines.len() - i,
    {
        let item = reader.push_line(lines[i].as_str());
        proof {
            assert(all.take(i + 1).drop_last() =~= all.take(i as int));
        }
        match item {
            Some(x) => out.push(x),
            None => {},
        }
        i += 1;
    }
    let last = reader.finish();
    match last {
        Some(x) => out.push(x),
        None => {},
    }
    proof {
        assert(all.take(lines.len() as int) =~= all);
    }
    out
}

/// A line without the carriage return that may end it.
pub open spec fn without_cr(line: Seq<char>) -> Seq<char> {
    if line.len() > 0 && line.last() == '\r' {
        line.drop_last()
    } else {
        line
    }
}

/// The lines of `s` from position `i` on, as `BufRead::lines` gives them:
/// split at each `'\n'`, each without its terminator (`"\n"` or
/// `"\r\n"`), and no empty line after a final line break.
pub open spec fn lines_from(s: Seq<char>, i: int) -> Seq<Seq<char>>
    decreases s.len() + 1 - i,
    via lines_from_decreases
{
    if 0 <= i < s.len() {
        let e = line_end(s, i);
        seq![without_cr(s.subrange(i, e))] + lines_from(s, e + 1)
    } else {
        Seq::empty()
    }
}

#[via_fn]
proof fn lines_from_decreases(s: Seq<char>, i: int) {
    if 0 <= i < s.len() {
        lemma_line_end_bounds(s, i);
    }
}

/// The lines of a text.
pub open spec fn split_lines(s: Seq<char>) -> Seq<Seq<char>> {
    lines_from(s, 0)
}

/// Splits a text into its lines, without their terminators.
pub fn lines_of(input: &str) -> (r: Vec<String>)
    ensures
        r.deep_view() == split_lines(input@),
{
    let cs = chars_of(input);
    let n = cs.len();
    let mut out: Vec<String> = Vec::new();
    let mut i: usize = 0;
    while i < n
        invariant
            i <= n,
            n == input@.len(),
            cs@ == input@,
            out.deep_view() + lines_from(input@, i as int) == split_lines(input@),
        decreases n - i,
    {
        let mut e: usize = i;
        while e < n && cs[e] != '\n'
            invariant
                i <= e <= n,
                n == input@.len(),
                cs@ == input@,
                line_end(input@, e as int) == line_end(input@, i as int),
            decreases n - e,
        {
            e += 1;
        }
        let stop = if e > i && cs[e - 1] == '\r' {
            e - 1
        } else {
            e
        };
        let line = string_of(slice_subrange(cs.as_slice(), i, stop));
        proof {
            let whole = input@.subrange(i as int, e as int);
            assert(without_cr(whole) =~= line@);
            let ghost before = out.deep_view();
            assert(before.push(line@) + lines_from(input@, e + 1) =~= before + lines_from(
                input@,
                i as int,
            ));
        }
        out.push(line);
        proof {
            if e + 1 > n {
                assert(lines_from(input@, e + 1) =~= Seq::<Seq<char>>::empty());
                assert(lines_from(input@, n as int) =~= Seq::<Seq<char>>::empty());
            }
        }
        i = if e < n {
            e + 1
        } else {
            n
        };
    }
    proof {
        assert(out.deep_view() + lines_from(input@, i as int) =~= out.deep_view());
    }
    out
}

/// Reads every record from a whole text, in order.
pub fn read_str(input: &str) -> (r: Vec<Result<Record, FastaError>>)
    ensures
        yields_records(r@, parse_lines(split_lines(input@))),
{
    let lines = lines_of(input);
    read_lines(&lines)
}

} // verus!
