//! The result aggregator: scans every line of a file's bytes with the line
//! scanner and collects the lines with at least one match into an
//! insertion-ordered mapping from 1-based line number to the original line
//! text and its match offsets.  Reading the file itself is the caller's
//! business; the aggregation is pure.

use vstd::prelude::*;
use vstd::pervasive::unreached;
use indexmap::IndexMap;
use crate::config::GrepConfig;
use crate::index_map::has_key;
use crate::index_map::line_map_entries;
use crate::index_map::line_map_get;
use crate::index_map::line_map_get_index;
use crate::index_map::line_map_insert;
use crate::index_map::line_map_len;
use crate::index_map::line_map_new;
use crate::lines::lemma_split_lines_count;
use crate::lines::lines_view;
use crate::lines::split_lines;
use crate::lines::split_lines_spec;
use crate::render::concatenated_indexes;
use crate::render::render_indexes;
use crate::scanner::copy_bytes;
use crate::scanner::find_all_occurrences;
use crate::scanner::find_all_spec;

verus! {

/// Spec-level view of one stored entry, offsets widened to `int`.
pub open spec fn entry_view(e: (i32, (Seq<u8>, Seq<usize>))) -> (i32, (Seq<u8>, Seq<int>)) {
    (e.0, (e.1.0, e.1.1.map_values(|x: usize| x as int)))
}

/// Spec-level view of the stored entries, in insertion order.
pub open spec fn entries_view(raw: Seq<(i32, (Seq<u8>, Seq<usize>))>) -> Seq<
    (i32, (Seq<u8>, Seq<int>)),
> {
    raw.map_values(|e: (i32, (Seq<u8>, Seq<usize>))| entry_view(e))
}

/// The expected search results over the given lines, numbered from
/// `next_no`: one entry per line with at least one match, in line order,
/// holding the original line text and all match offsets.
pub open spec fn grep_lines_spec(
    lines: Seq<Seq<u8>>,
    needle: Seq<u8>,
    ignore_case: bool,
    next_no: int,
) -> Seq<(i32, (Seq<u8>, Seq<int>))>
    decreases lines.len(),
{
    if lines.len() == 0 {
        Seq::empty()
    } else {
        let offs = find_all_spec(lines[0], needle, ignore_case);
        let rest = grep_lines_spec(lines.drop_first(), needle, ignore_case, next_no + 1);
        if offs.len() > 0 {
            seq![(next_no as i32, (lines[0], offs))] + rest
        } else {
            rest
        }
    }
}

/// One scan step: the results over the lines from position `i` on are the
/// results for line `i` followed by the results over the later lines.
proof fn lemma_grep_lines_step(lines: Seq<Seq<u8>>, needle: Seq<u8>, ignore_case: bool, i: int)
    requires
        0 <= i < lines.len(),
    ensures
        grep_lines_spec(lines.skip(i), needle, ignore_case, i + 1) == (if find_all_spec(
            lines[i],
            needle,
            ignore_case,
        ).len() > 0 {
            seq![(((i + 1) as i32), (lines[i], find_all_spec(lines[i], needle, ignore_case)))]
                + grep_lines_spec(lines.skip(i + 1), needle, ignore_case, i + 2)
        } else {
            grep_lines_spec(lines.skip(i + 1), needle, ignore_case, i + 2)
        }),
{
    assert(lines.skip(i).len() > 0);
    assert(lines.skip(i)[0] == lines[i]);
    assert(lines.skip(i).drop_first() =~= lines.skip(i + 1));
}

pub struct SearchResults {
    results: IndexMap<i32, (Vec<u8>, Vec<usize>)>,
}

impl SearchResults {
    /// The collected entries, in insertion order: for each matching line its
    /// 1-based number, its original text and its match offsets.
    pub closed spec fn entries(&self) -> Seq<(i32, (Seq<u8>, Seq<int>))> {
        entries_view(line_map_entries(self.results))
    }

    /// Scan every line of `file_data` for the configured search string and
    /// collect the lines with at least one match, in line order.
    pub fn grep(config: &GrepConfig, file_data: &Vec<u8>) -> (r: SearchResults)
        requires
            file_data@.len() < i32::MAX,
        ensures
            r.entries() == grep_lines_spec(
                split_lines_spec(file_data@),
                config.spec_search_string(),
                config.spec_ignore_case(),
                1,
            ),
    {
        let needle = config.get_search_string();
        let icase = config.is_ignore_case();
        let lines_vec = split_lines(file_data);
        let ghost full = split_lines_spec(file_data@);
        proof {
            lemma_split_lines_count(file_data@);
        }
        let n_lines: usize = lines_vec.len();
        let mut map = line_map_new();
        let mut i: usize = 0;
        proof {
            assert(full.skip(0) =~= full);
            assert(entries_view(line_map_entries(map)) + grep_lines_spec(full, needle@, icase, 1)
                =~= grep_lines_spec(full, needle@, icase, 1));
        }
        while i < n_lines
            invariant
                n_lines == lines_vec@.len(),
                lines_view(lines_vec@) == full,
                full.len() < i32::MAX,
                i <= n_lines,
                grep_lines_spec(full, needle@, icase, 1) == entries_view(line_map_entries(map))
                    + grep_lines_spec(full.skip(i as int), needle@, icase, i + 1),
                forall|j: int|
                    0 <= j < line_map_entries(map).len() ==> 1 <= (#[trigger] line_map_entries(
                        map,
                    )[j]).0 <= i,
            decreases n_lines - i,
        {
            let ghost i0 = i as int;
            proof {
                assert(lines_view(lines_vec@)[i0] == lines_vec@[i0]@);
            }
            let offs = find_all_occurrences(&lines_vec[i], needle, icase);
            let ghost raw0 = line_map_entries(map);
            if offs.len() > 0 {
                let key: i32 = (i as i32) + 1;
                let text = copy_bytes(&lines_vec[i]);
                proof {
                    if has_key(raw0, key) {
                        let j = choose|j: int|
                            0 <= j < raw0.len() && (#[trigger] raw0[j]).0 == key;
                        assert(raw0[j].0 <= i0);
                    }
                }
                line_map_insert(&mut map, key, (text, offs));
                proof {
                    let e = (key, (full[i0], find_all_spec(full[i0], needle@, icase)));
                    assert(entry_view((key, (text@, offs@))) == e);
                    assert(entries_view(line_map_entries(map)) =~= entries_view(raw0).push(e));
                }
            }
            i = i + 1;
            proof {
                lemma_grep_lines_step(full, needle@, icase, i0);
                if find_all_spec(full[i0], needle@, icase).len() > 0 {
                    let e = (
                        ((i0 + 1) as i32),
                        (full[i0], find_all_spec(full[i0], needle@, icase)),
                    );
                    assert(entries_view(raw0) + (seq![e] + grep_lines_spec(
                        full.skip(i as int),
                        needle@,
                        icase,
                        i0 + 2,
                    )) =~= entries_view(line_map_entries(map)) + grep_lines_spec(
                        full.skip(i as int),
                        needle@,
                        icase,
                        i0 + 2,
                    ));
                } else {
                    assert(offs@.len() == 0);
                }
                assert forall|j: int|
                    0 <= j < line_map_entries(map).len() implies 1 <= (
                #[trigger] line_map_entries(map)[j]).0 <= i by {
                    if j < raw0.len() {
                        assert(line_map_entries(map)[j] == raw0[j]);
                    }
                }
            }
        }
        proof {
            assert(full.skip(i as int).len() == 0);
            assert(grep_lines_spec(full.skip(i as int), needle@, icase, i + 1) == Seq::<
                (i32, (Seq<u8>, Seq<int>)),
            >::empty());
            assert(entries_view(line_map_entries(map)) + grep_lines_spec(
                full.skip(i as int),
                needle@,
                icase,
                i + 1,
            ) =~= entries_view(line_map_entries(map)));
        }
        SearchResults { results: map }
    }

    /// How many lines matched.
    pub fn len(&self) -> (n: usize)
        ensures
            n == self.entries().len(),
    {
        line_map_len(&self.results)
    }

    /// The line number of the entry at a position of the insertion order.
    pub fn line_number_at(&self, i: usize) -> (k: i32)
        requires
            i < self.entries().len(),
        ensures
            k == self.entries()[i as int].0,
    {
        match line_map_get_index(&self.results, i) {
            Some(p) => *p.0,
            None => unreached(),
        }
    }

    /// The original text of the entry at a position of the insertion order.
    pub fn line_text_at(&self, i: usize) -> (t: &Vec<u8>)
        requires
            i < self.entries().len(),
        ensures
            t@ == self.entries()[i as int].1.0,
    {
        match line_map_get_index(&self.results, i) {
            Some(p) => &p.1.0,
            None => unreached(),
        }
    }

    /// The match offsets of the entry at a position of the insertion order.
    pub fn offsets_at(&self, i: usize) -> (o: &Vec<usize>)
        requires
            i < self.entries().len(),
        ensures
            o@.map_values(|x: usize| x as int) == self.entries()[i as int].1.1,
    {
        match line_map_get_index(&self.results, i) {
            Some(p) => &p.1.1,
            None => unreached(),
        }
    }

    /// The text and offsets recorded for a line number, if that line matched.
    pub fn get(&self, line_number: i32) -> (r: Option<&(Vec<u8>, Vec<usize>)>)
        ensures
            r is Some <==> (exists|j: int|
                0 <= j < self.entries().len() && (#[trigger] self.entries()[j]).0 == line_number),
            r matches Some(v) ==> (exists|j: int|
                0 <= j < self.entries().len() && #[trigger] self.entries()[j] == (
                    line_number,
                    (v.0@, v.1@.map_values(|x: usize| x as int)),
                )),
    {
        let ghost raw = line_map_entries(self.results);
        let r = line_map_get(&self.results, line_number);
        proof {
            if has_key(raw, line_number) {
                let j = choose|j: int| 0 <= j < raw.len() && (#[trigger] raw[j]).0 == line_number;
                assert(self.entries()[j].0 == line_number);
            }
            if exists|j: int|
                0 <= j < self.entries().len() && (#[trigger] self.entries()[j]).0 == line_number {
                let j = choose|j: int|
                    0 <= j < self.entries().len() && (#[trigger] self.entries()[j]).0
                        == line_number;
                assert((raw[j]).0 == line_number);
                assert(has_key(raw, line_number));
            }
            if r is Some {
                let v = r.unwrap();
                let j = choose|j: int|
                    0 <= j < raw.len() && #[trigger] raw[j] == (line_number, (v.0@, v.1@));
                assert(self.entries()[j] == (
                    line_number,
                    (v.0@, v.1@.map_values(|x: usize| x as int)),
                ));
            }
        }
        r
    }

    /// The offsets of one entry rendered in decimal, separated by `, `.
    pub fn concatenate_indexes(&self, indexes_vector: &Vec<usize>) -> (r: Vec<u8>)
        ensures
            r@ == concatenated_indexes(indexes_vector@),
    {
        render_indexes(indexes_vector)
    }
}

/// The aggregation-order law: entry keys are the 1-based numbers of the
/// matching lines, in strictly ascending order, so the results iterate in
/// exactly the physical order of the matching lines.
pub proof fn lemma_grep_lines_keys_ordered(
    lines: Seq<Seq<u8>>,
    needle: Seq<u8>,
    ignore_case: bool,
    next_no: int,
)
    requires
        1 <= next_no,
        next_no + lines.len() <= i32::MAX,
    ensures
        forall|j: int|
            0 <= j < grep_lines_spec(lines, needle, ignore_case, next_no).len() ==> next_no <= ((
            #[trigger] grep_lines_spec(lines, needle, ignore_case, next_no)[j]).0 as int)
                && ((grep_lines_spec(lines, needle, ignore_case, next_no)[j]).0 as int) < next_no
                + lines.len(),
        forall|j: int, k: int|
            0 <= j < k < grep_lines_spec(lines, needle, ignore_case, next_no).len() ==> (
            #[trigger] grep_lines_spec(lines, needle, ignore_case, next_no)[j]).0 < (
            #[trigger] grep_lines_spec(lines, needle, ignore_case, next_no)[k]).0,
    decreases lines.len(),
{
    if lines.len() == 0 {
    } else {
        let res = grep_lines_spec(lines, needle, ignore_case, next_no);
        let rest = grep_lines_spec(lines.drop_first(), needle, ignore_case, next_no + 1);
        let offs = find_all_spec(lines[0], needle, ignore_case);
        lemma_grep_lines_keys_ordered(lines.drop_first(), needle, ignore_case, next_no + 1);
        if offs.len() > 0 {
            assert forall|j: int|
                0 <= j < res.len() implies next_no <= ((#[trigger] res[j]).0 as int) && (((
            res[j]).0 as int) < next_no + lines.len()) by {
                if j > 0 {
                    assert(res[j] == rest[j - 1]);
                }
            }
            assert forall|j: int, k: int|
                0 <= j < k < res.len() implies (#[trigger] res[j]).0 < (#[trigger] res[k]).0 by {
                assert(res[k] == rest[k - 1]);
                if j > 0 {
                    assert(res[j] == rest[j - 1]);
                }
            }
        } else {
            assert forall|j: int|
                0 <= j < res.len() implies next_no <= ((#[trigger] res[j]).0 as int) && (((
            res[j]).0 as int) < next_no + lines.len()) by {
                assert(res[j] == rest[j]);
            }
            assert forall|j: int, k: int|
                0 <= j < k < res.len() implies (#[trigger] res[j]).0 < (#[trigger] res[k]).0 by {
                assert(res[j] == rest[j]);
                assert(res[k] == rest[k]);
            }
        }
    }
}

/// The entry-correspondence law: every collected entry belongs to a line
/// with at least one match and records that line's text and offsets under
/// its 1-based number; and every line with a match contributes an entry.
/// In particular a line in which the needle does not occur is absent from
/// the results.
pub proof fn lemma_grep_lines_entries(
    lines: Seq<Seq<u8>>,
    needle: Seq<u8>,
    ignore_case: bool,
    next_no: int,
)
    requires
        1 <= next_no,
        next_no + lines.len() <= i32::MAX,
    ensures
        forall|j: int|
            0 <= j < grep_lines_spec(lines, needle, ignore_case, next_no).len() ==> (exists|k: int|
                0 <= k < lines.len() && #[trigger] grep_lines_spec(
                    lines,
                    needle,
                    ignore_case,
                    next_no,
                )[j] == (
                    ((next_no + k) as i32),
                    (lines[k], find_all_spec(lines[k], needle, ignore_case)),
                ) && find_all_spec(lines[k], needle, ignore_case).len() > 0),
        forall|k: int|
            0 <= k < lines.len() && find_all_spec(#[trigger] lines[k], needle, ignore_case).len()
                > 0 ==> (exists|j: int|
                0 <= j < grep_lines_spec(lines, needle, ignore_case, next_no).len() && ((
                #[trigger] grep_lines_spec(lines, needle, ignore_case, next_no)[j]).0 as int)
                    == next_no + k),
    decreases lines.len(),
{
    if lines.len() == 0 {
    } else {
        let res = grep_lines_spec(lines, needle, ignore_case, next_no);
        let tail = lines.drop_first();
        let rest = grep_lines_spec(tail, needle, ignore_case, next_no + 1);
        let offs = find_all_spec(lines[0], needle, ignore_case);
        let shift: int = if offs.len() > 0 {
            1
        } else {
            0
        };
        lemma_grep_lines_entries(tail, needle, ignore_case, next_no + 1);
        assert forall|j: int|
            0 <= j < res.len() implies (exists|k: int|
            0 <= k < lines.len() && #[trigger] res[j] == (
                ((next_no + k) as i32),
                (lines[k], find_all_spec(lines[k], needle, ignore_case)),
            ) && find_all_spec(lines[k], needle, ignore_case).len() > 0) by {
            if offs.len() > 0 && j == 0 {
                assert(res[0] == ((next_no as i32), (lines[0], offs)));
                assert(0 <= 0 < lines.len() && res[0] == (
                    ((next_no + 0) as i32),
                    (lines[0], find_all_spec(lines[0], needle, ignore_case)),
                ) && find_all_spec(lines[0], needle, ignore_case).len() > 0);
            } else {
                assert(res[j] == rest[j - shift]);
                let k0 = choose|k: int|
                    0 <= k < tail.len() && #[trigger] rest[j - shift] == (
                        ((next_no + 1 + k) as i32),
                        (tail[k], find_all_spec(tail[k], needle, ignore_case)),
                    ) && find_all_spec(tail[k], needle, ignore_case).len() > 0;
                assert(tail[k0] == lines[k0 + 1]);
                assert(0 <= k0 + 1 < lines.len() && res[j] == (
                    ((next_no + (k0 + 1)) as i32),
                    (lines[k0 + 1], find_all_spec(lines[k0 + 1], needle, ignore_case)),
                ) && find_all_spec(lines[k0 + 1], needle, ignore_case).len() > 0);
            }
        }
        assert forall|k: int|
            0 <= k < lines.len() && find_all_spec(#[trigger] lines[k], needle, ignore_case).len()
                > 0 implies (exists|j: int|
            0 <= j < res.len() && ((#[trigger] res[j]).0 as int) == next_no + k) by {
            if k == 0 {
                assert(res[0] == ((next_no as i32), (lines[0], offs)));
                assert(0 <= 0 < res.len() && ((res[0]).0 as int) == next_no + 0);
            } else {
                assert(tail[k - 1] == lines[k]);
                let j0 = choose|j: int|
                    0 <= j < rest.len() && ((#[trigger] rest[j]).0 as int) == next_no + 1 + (k - 1);
                assert(res[j0 + shift] == rest[j0]);
                assert(0 <= j0 + shift < res.len() && ((res[j0 + shift]).0 as int) == next_no + k);
            }
        }
    }
}

/// The no-match law at file level: a line in which the needle does not
/// occur contributes no entry under its line number.
pub proof fn lemma_no_match_line_absent(
    lines: Seq<Seq<u8>>,
    needle: Seq<u8>,
    ignore_case: bool,
    next_no: int,
    k: int,
)
    requires
        1 <= next_no,
        next_no + lines.len() <= i32::MAX,
        0 <= k < lines.len(),
        find_all_spec(lines[k], needle, ignore_case).len() == 0,
    ensures
        forall|j: int|
            0 <= j < grep_lines_spec(lines, needle, ignore_case, next_no).len() ==> ((
            #[trigger] grep_lines_spec(lines, needle, ignore_case, next_no)[j]).0 as int)
                != next_no + k,
{
    let res = grep_lines_spec(lines, needle, ignore_case, next_no);
    lemma_grep_lines_entries(lines, needle, ignore_case, next_no);
    assert forall|j: int|
        0 <= j < res.len() implies (((#[trigger] res[j]).0 as int) != next_no + k) by {
        let k0 = choose|k0: int|
            0 <= k0 < lines.len() && #[trigger] res[j] == (
                ((next_no + k0) as i32),
                (lines[k0], find_all_spec(lines[k0], needle, ignore_case)),
            ) && find_all_spec(lines[k0], needle, ignore_case).len() > 0;
        if ((res[j]).0 as int) == next_no + k {
            assert(k0 == k);
        }
    }
}

} // verus!
