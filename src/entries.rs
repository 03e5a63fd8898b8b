//! The records of a stream described directly, as groups of its lines,
//! and what follows for the reader.

use vstd::prelude::*;

use crate::defline::defline_id;
use crate::reader::{feed, is_header, parse_lines};
use crate::record::{empty_record, RecordView};
use crate::text::trimmed;

verus! {

/// The number of header lines.
pub open spec fn count_headers(lines: Seq<Seq<char>>) -> nat
    decreases lines.len(),
{
    if lines.len() == 0 {
        0
    } else {
        count_headers(lines.drop_last()) + if is_header(lines.last()) {
            1nat
        } else {
            0nat
        }
    }
}

/// The position of the first header line (or the end).
pub open spec fn first_header(lines: Seq<Seq<char>>) -> int
    decreases lines.len(),
{
    if lines.len() == 0 || is_header(lines[0]) {
        0
    } else {
        1 + first_header(lines.drop_first())
    }
}

/// The lines grouped into entries: each group is a header line and the
/// sequence lines after it, up to the next header. Lines before the first
/// header belong to no group.
pub open spec fn entry_groups(lines: Seq<Seq<char>>) -> Seq<Seq<Seq<char>>>
    decreases lines.len(),
{
    if lines.len() == 0 {
        Seq::empty()
    } else {
        let groups = entry_groups(lines.drop_last());
        let line = lines.last();
        if is_header(line) {
            groups.push(seq![line])
        } else if groups.len() > 0 {
            groups.update(groups.len() - 1, groups.last().push(line))
        } else {
            groups
        }
    }
}

/// A group opens with a header line and holds no other.
pub open spec fn is_entry_group(group: Seq<Seq<char>>) -> bool {
    &&& group.len() > 0
    &&& is_header(group[0])
    &&& forall|k: int| 1 <= k < group.len() ==> !is_header(#[trigger] group[k])
}

/// The record that a group of lines stands for: the identifier of its
/// header, its other lines trimmed and joined, and all its lines joined.
pub open spec fn group_record(group: Seq<Seq<char>>) -> RecordView {
    RecordView {
        id: defline_id(group[0]).unwrap(),
        seq: group.drop_first().map_values(|l: Seq<char>| trimmed(l)).flatten(),
        entry: group.flatten(),
    }
}

proof fn lemma_groups_well_formed(lines: Seq<Seq<char>>)
    ensures
        forall|j: int|
            0 <= j < entry_groups(lines).len() ==> is_entry_group(#[trigger] entry_groups(lines)[j]),
    decreases lines.len(),
{
    if lines.len() > 0 {
        let prev = lines.drop_last();
        lemma_groups_well_formed(prev);
        let groups = entry_groups(prev);
        let line = lines.last();
        if is_header(line) {
            assert(is_entry_group(groups.push(seq![line]).last()));
        } else if groups.len() > 0 {
            let grown = groups.last().push(line);
            assert(is_entry_group(groups.last()));
            assert forall|k: int| 1 <= k < grown.len() implies !is_header(#[trigger] grown[k]) by {
                if k < grown.len() - 1 {
                    assert(grown[k] == groups.last()[k]);
                }
            }
            assert(is_entry_group(grown));
        }
    }
}

proof fn lemma_group_entry_nonempty(group: Seq<Seq<char>>)
    requires
        is_entry_group(group),
    ensures
        group_record(group).entry.len() > 0,
{
    assert(group.flatten() == group.first() + group.drop_first().flatten());
}

/// The reader's state after some lines, in terms of the groups.
proof fn lemma_feed_groups(lines: Seq<Seq<char>>)
    ensures
        ({
            let (acc, out) = feed(lines);
            let groups = entry_groups(lines);
            if groups.len() == 0 {
                acc == empty_record() && out.len() == 0
            } else {
                acc == group_record(groups.last()) && out == groups.drop_last().map_values(
                    |g: Seq<Seq<char>>| group_record(g),
                )
            }
        }),
    decreases lines.len(),
{
    if lines.len() > 0 {
        let prev = lines.drop_last();
        let line = lines.last();
        lemma_feed_groups(prev);
        lemma_groups_well_formed(prev);
        let (acc, out) = feed(prev);
        let groups = entry_groups(prev);
        let f = |g: Seq<Seq<char>>| group_record(g);
        let tr = |l: Seq<char>| trimmed(l);
        if groups.len() > 0 {
            lemma_group_entry_nonempty(groups.last());
        }
        if is_header(line) {
            let single = seq![line];
            assert(single.drop_first() =~= Seq::<Seq<char>>::empty());
            assert(single.drop_first().map_values(tr) =~= Seq::<Seq<char>>::empty());
            assert(single.flatten() =~= line) by {
                assert(single.drop_first().flatten() =~= Seq::<char>::empty());
            }
            assert(groups.push(single).drop_last() =~= groups);
            if groups.len() > 0 {
                assert(groups.map_values(f) =~= groups.drop_last().map_values(f).push(
                    f(groups.last()),
                ));
            } else {
                assert(groups.map_values(f) =~= Seq::<RecordView>::empty());
            }
        } else if groups.len() > 0 {
            let last = groups.last();
            let grown = last.push(line);
            let updated = groups.update(groups.len() - 1, grown);
            assert(updated.drop_last() =~= groups.drop_last());
            assert(grown.drop_first() =~= last.drop_first().push(line));
            assert(grown.drop_first().map_values(tr) =~= last.drop_first().map_values(tr).push(
                trimmed(line),
            ));
            last.drop_first().map_values(tr).lemma_flatten_push(trimmed(line));
            last.lemma_flatten_push(line);
        }
    }
}

/// The records that a stream of lines yields are those of its entry groups,
/// in order.
pub proof fn lemma_records_are_groups(lines: Seq<Seq<char>>)
    ensures
        parse_lines(lines) == entry_groups(lines).map_values(|g: Seq<Seq<char>>| group_record(g)),
{
    lemma_feed_groups(lines);
    lemma_groups_well_formed(lines);
    let groups = entry_groups(lines);
    let f = |g: Seq<Seq<char>>| group_record(g);
    if groups.len() > 0 {
        lemma_group_entry_nonempty(groups.last());
        assert(groups.map_values(f) =~= groups.drop_last().map_values(f).push(f(groups.last())));
    } else {
        assert(groups.map_values(f) =~= Seq::<RecordView>::empty());
    }
}

proof fn lemma_first_header_push(lines: Seq<Seq<char>>)
    requires
        lines.len() > 0,
    ensures
        0 <= first_header(lines.drop_last()) <= lines.len() - 1,
        first_header(lines) == if first_header(lines.drop_last()) < lines.len() - 1 {
            first_header(lines.drop_last())
        } else if is_header(lines.last()) {
            lines.len() - 1
        } else {
            lines.len() as int
        },
    decreases lines.len(),
{
    let prev = lines.drop_last();
    if lines.len() > 1 {
        let rest = lines.drop_first();
        assert(rest.drop_last() =~= prev.drop_first());
        assert(prev[0] == lines[0]);
        if !is_header(lines[0]) {
            lemma_first_header_push(rest);
            assert(rest.last() == lines.last());
            assert(first_header(lines) == 1 + first_header(rest));
            assert(first_header(prev) == 1 + first_header(prev.drop_first()));
        }
    } else {
        assert(prev.len() == 0);
        assert(first_header(prev) == 0);
        if !is_header(lines[0]) {
            assert(lines.drop_first().len() == 0);
            assert(first_header(lines) == 1 + first_header(lines.drop_first()));
        }
    }
}

proof fn lemma_groups_exist_iff_header(lines: Seq<Seq<char>>)
    ensures
        0 <= first_header(lines) <= lines.len(),
        entry_groups(lines).len() > 0 <==> first_header(lines) < lines.len(),
        entry_groups(lines).len() == count_headers(lines),
    decreases lines.len(),
{
    if lines.len() > 0 {
        lemma_groups_exist_iff_header(lines.drop_last());
        lemma_first_header_push(lines);
    }
}

proof fn lemma_groups_join_to_input(lines: Seq<Seq<char>>)
    ensures
        entry_groups(lines).map_values(|g: Seq<Seq<char>>| g.flatten()).flatten() == lines.skip(
            first_header(lines),
        ).flatten(),
    decreases lines.len(),
{
    let fl = |g: Seq<Seq<char>>| g.flatten();
    lemma_groups_exist_iff_header(lines);
    if lines.len() == 0 {
        assert(entry_groups(lines).map_values(fl) =~= Seq::<Seq<char>>::empty());
        assert(lines.skip(0) =~= lines);
    } else {
        let prev = lines.drop_last();
        let line = lines.last();
        lemma_groups_join_to_input(prev);
        lemma_groups_exist_iff_header(prev);
        lemma_first_header_push(lines);
        let groups = entry_groups(prev);
        let joined = groups.map_values(fl);
        let f = first_header(prev);
        if is_header(line) {
            let single = seq![line];
            assert(single.flatten() =~= line) by {
                assert(single.drop_first().flatten() =~= Seq::<char>::empty());
            }
            assert(groups.push(single).map_values(fl) =~= joined.push(line));
            joined.lemma_flatten_push(line);
            if f < prev.len() {
                assert(lines.skip(f) =~= prev.skip(f).push(line));
                prev.skip(f).lemma_flatten_push(line);
            } else {
                assert(joined =~= Seq::<Seq<char>>::empty());
                assert(lines.skip(prev.len() as int) =~= single);
            }
        } else if groups.len() > 0 {
            let last = groups.last();
            let updated = groups.update(groups.len() - 1, last.push(line));
            last.lemma_flatten_push(line);
            assert(updated.map_values(fl) =~= joined.drop_last().push(last.flatten() + line));
            assert(joined =~= joined.drop_last().push(last.flatten()));
            joined.drop_last().lemma_flatten_push(last.flatten() + line);
            joined.drop_last().lemma_flatten_push(last.flatten());
            assert(lines.skip(f) =~= prev.skip(f).push(line));
            prev.skip(f).lemma_flatten_push(line);
        } else {
            assert(lines.skip(lines.len() as int) =~= Seq::<Seq<char>>::empty());
            assert(joined =~= Seq::<Seq<char>>::empty());
        }
    }
}

/// A stream yields one record for each header line it holds.
pub proof fn lemma_one_record_per_header(lines: Seq<Seq<char>>)
    ensures
        parse_lines(lines).len() == count_headers(lines),
{
    lemma_records_are_groups(lines);
    lemma_groups_exist_iff_header(lines);
}

/// Joining the raw texts of all records a stream yields, in order, gives
/// back its lines from the first header on, without their line breaks.
pub proof fn lemma_entries_rebuild_input(lines: Seq<Seq<char>>)
    ensures
        parse_lines(lines).map_values(|r: RecordView| r.entry).flatten() == lines.skip(
            first_header(lines),
        ).flatten(),
{
    lemma_records_are_groups(lines);
    lemma_groups_join_to_input(lines);
    let groups = entry_groups(lines);
    assert(parse_lines(lines).map_values(|r: RecordView| r.entry) =~= groups.map_values(
        |g: Seq<Seq<char>>| g.flatten(),
    ));
}

/// Each record a stream yields starts with its header line, and the
/// identifier taken again from that line is the record's own.
pub proof fn lemma_id_from_own_header(lines: Seq<Seq<char>>, j: int)
    requires
        0 <= j < parse_lines(lines).len(),
    ensures
        ({
            let rec = parse_lines(lines)[j];
            let header = entry_groups(lines)[j][0];
            &&& is_header(header)
            &&& rec.entry.take(header.len() as int) == header
            &&& defline_id(header) == Some(rec.id)
        }),
{
    lemma_records_are_groups(lines);
    lemma_groups_well_formed(lines);
    let group = entry_groups(lines)[j];
    assert(group.flatten() == group.first() + group.drop_first().flatten());
    assert(group.flatten().take(group[0].len() as int) =~= group[0]);
    crate::defline::lemma_header_has_id(group[0]);
}

} // verus!
