//! The line scanner: finds every non-overlapping occurrence of a search
//! string (the needle) within a single line, scanning greedily from left to
//! right.  After a match at offset `i`, the scan resumes at `i + needle.len()`,
//! so occurrences never overlap.  An empty needle never matches.
//!
//! Case folding is ASCII-only: folding a byte never changes the length of the
//! line, so offsets found in the folded text are valid in the original text.

use vstd::prelude::*;

verus! {

/// ASCII lowercase folding of a single byte; bytes outside `A..=Z` are kept.
pub open spec fn fold_byte(b: u8) -> u8 {
    if 65 <= b && b <= 90 {
        (b + 32) as u8
    } else {
        b
    }
}

/// ASCII lowercase folding of a whole text, byte for byte.
pub open spec fn fold_text(s: Seq<u8>) -> Seq<u8> {
    s.map_values(|b: u8| fold_byte(b))
}

/// The needle occurs in `line` starting at position `i`.
pub open spec fn is_match_at(line: Seq<u8>, needle: Seq<u8>, i: int) -> bool {
    &&& 0 <= i
    &&& i + needle.len() <= line.len()
    &&& line.subrange(i, i + needle.len() as int) == needle
}

/// Offsets of the greedy non-overlapping occurrences of `needle` in `line`,
/// scanning left to right from position `start`.
pub open spec fn occurrences_from(line: Seq<u8>, needle: Seq<u8>, start: int) -> Seq<int>
    decreases line.len() - start,
{
    if needle.len() == 0 || start < 0 || start + needle.len() > line.len() {
        Seq::empty()
    } else if is_match_at(line, needle, start) {
        seq![start] + occurrences_from(line, needle, start + needle.len() as int)
    } else {
        occurrences_from(line, needle, start + 1)
    }
}

/// All match offsets for one line.  When `ignore_case` is set, both texts are
/// folded before matching; the offsets still index the original line, which
/// is sound because folding preserves the length.
pub open spec fn find_all_spec(line: Seq<u8>, needle: Seq<u8>, ignore_case: bool) -> Seq<int> {
    if ignore_case {
        occurrences_from(fold_text(line), fold_text(needle), 0)
    } else {
        occurrences_from(line, needle, 0)
    }
}

/// Every offset reported from `start` on is a real occurrence at or after
/// `start`, and consecutive offsets are at least a needle length apart.
proof fn lemma_occurrences_from_props(line: Seq<u8>, needle: Seq<u8>, start: int)
    requires
        needle.len() > 0,
    ensures
        forall|j: int|
            0 <= j < occurrences_from(line, needle, start).len() ==> start <= #[trigger] occurrences_from(line, needle, start)[j]
                && is_match_at(line, needle, occurrences_from(line, needle, start)[j]),
        forall|j: int, k: int|
            0 <= j < k < occurrences_from(line, needle, start).len()
                ==> #[trigger] occurrences_from(line, needle, start)[j] + needle.len()
                <= #[trigger] occurrences_from(line, needle, start)[k],
    decreases line.len() - start,
{
    if start < 0 || start + needle.len() > line.len() {
        assert(occurrences_from(line, needle, start) == Seq::<int>::empty());
    } else if is_match_at(line, needle, start) {
        let next = start + needle.len() as int;
        lemma_occurrences_from_props(line, needle, next);
        assert(occurrences_from(line, needle, start) == seq![start] + occurrences_from(
            line,
            needle,
            next,
        ));
        assert forall|j: int|
            0 <= j < occurrences_from(line, needle, start).len() implies start
            <= #[trigger] occurrences_from(line, needle, start)[j] && is_match_at(
            line,
            needle,
            occurrences_from(line, needle, start)[j],
        ) by {
            if j > 0 {
                assert(occurrences_from(line, needle, start)[j] == occurrences_from(
                    line,
                    needle,
                    next,
                )[j - 1]);
            }
        }
        assert forall|j: int, k: int|
            0 <= j < k < occurrences_from(line, needle, start).len() implies occurrences_from(
            line,
            needle,
            start,
        )[j] + needle.len() <= occurrences_from(line, needle, start)[k] by {
            assert(occurrences_from(line, needle, start)[k] == occurrences_from(
                line,
                needle,
                next,
            )[k - 1]);
            if j == 0 {
                assert(next <= occurrences_from(line, needle, next)[k - 1]);
            } else {
                assert(occurrences_from(line, needle, start)[j] == occurrences_from(
                    line,
                    needle,
                    next,
                )[j - 1]);
            }
        }
    } else {
        lemma_occurrences_from_props(line, needle, start + 1);
        assert(occurrences_from(line, needle, start) == occurrences_from(line, needle, start + 1));
        assert forall|j: int|
            0 <= j < occurrences_from(line, needle, start).len() implies start
            <= #[trigger] occurrences_from(line, needle, start)[j] && is_match_at(
            line,
            needle,
            occurrences_from(line, needle, start)[j],
        ) by {
            assert(occurrences_from(line, needle, start)[j] == occurrences_from(
                line,
                needle,
                start + 1,
            )[j]);
        }
        assert forall|j: int, k: int|
            0 <= j < k < occurrences_from(line, needle, start).len() implies occurrences_from(
            line,
            needle,
            start,
        )[j] + needle.len() <= occurrences_from(line, needle, start)[k] by {
            assert(occurrences_from(line, needle, start)[j] == occurrences_from(
                line,
                needle,
                start + 1,
            )[j]);
            assert(occurrences_from(line, needle, start)[k] == occurrences_from(
                line,
                needle,
                start + 1,
            )[k]);
        }
    }
}

/// Soundness of the case-sensitive scan: every reported offset marks a slice
/// of the line equal to the needle, and consecutive offsets are at least a
/// needle length apart, so the offsets are strictly increasing and the
/// occurrences never overlap.
pub proof fn lemma_find_all_sound(line: Seq<u8>, needle: Seq<u8>)
    requires
        needle.len() > 0,
    ensures
        forall|j: int|
            0 <= j < find_all_spec(line, needle, false).len() ==> is_match_at(
                line,
                needle,
                #[trigger] find_all_spec(line, needle, false)[j],
            ),
        forall|j: int, k: int|
            0 <= j < k < find_all_spec(line, needle, false).len()
                ==> #[trigger] find_all_spec(line, needle, false)[j] + needle.len()
                <= #[trigger] find_all_spec(line, needle, false)[k],
        forall|j: int, k: int|
            0 <= j < k < find_all_spec(line, needle, false).len()
                ==> #[trigger] find_all_spec(line, needle, false)[j] < #[trigger] find_all_spec(
                line,
                needle,
                false,
            )[k],
{
    lemma_occurrences_from_props(line, needle, 0);
}

/// An empty needle never matches: the offset list is empty for every line,
/// in both case modes.
pub proof fn lemma_empty_needle(line: Seq<u8>, needle: Seq<u8>, ignore_case: bool)
    requires
        needle.len() == 0,
    ensures
        find_all_spec(line, needle, ignore_case) == Seq::<int>::empty(),
{
    assert(fold_text(needle).len() == 0);
}

/// Helper for the no-match law: if the needle occurs nowhere, the scan from
/// any position reports nothing.
proof fn lemma_no_match_from(line: Seq<u8>, needle: Seq<u8>, start: int)
    requires
        forall|i: int| !is_match_at(line, needle, i),
    ensures
        occurrences_from(line, needle, start) == Seq::<int>::empty(),
    decreases line.len() - start,
{
    if needle.len() == 0 || start < 0 || start + needle.len() > line.len() {
    } else if is_match_at(line, needle, start) {
    } else {
        lemma_no_match_from(line, needle, start + 1);
    }
}

/// The no-match law for one line: a needle that occurs nowhere in the line
/// yields an empty offset list.
pub proof fn lemma_no_match_no_offsets(line: Seq<u8>, needle: Seq<u8>)
    requires
        forall|i: int| !is_match_at(line, needle, i),
    ensures
        find_all_spec(line, needle, false) == Seq::<int>::empty(),
{
    lemma_no_match_from(line, needle, 0);
}

/// The case-insensitivity law: searching with `ignore_case` returns exactly
/// the offsets of the case-sensitive search over the folded texts — in
/// particular the same count of matches — and each offset indexes the
/// original line, whose length folding preserves.
pub proof fn lemma_ignore_case_folds(line: Seq<u8>, needle: Seq<u8>)
    ensures
        find_all_spec(line, needle, true) == find_all_spec(fold_text(line), fold_text(needle), false),
        find_all_spec(line, needle, true).len() == find_all_spec(
            fold_text(line),
            fold_text(needle),
            false,
        ).len(),
        fold_text(line).len() == line.len(),
        forall|j: int|
            0 <= j < find_all_spec(line, needle, true).len() ==> 0 <= #[trigger] find_all_spec(
                line,
                needle,
                true,
            )[j] && find_all_spec(line, needle, true)[j] + needle.len() <= line.len(),
{
    if needle.len() > 0 {
        lemma_occurrences_from_props(fold_text(line), fold_text(needle), 0);
    }
}

/// ASCII lowercase folding of a single byte.
fn lowercase_byte(b: u8) -> (r: u8)
    ensures
        r == fold_byte(b),
{
    if 65 <= b && b <= 90 {
        b + 32
    } else {
        b
    }
}

/// ASCII lowercase folding of a whole text.
fn lowercase_bytes(v: &Vec<u8>) -> (r: Vec<u8>)
    ensures
        r@ == fold_text(v@),
{
    let mut r: Vec<u8> = Vec::new();
    let mut i: usize = 0;
    while i < v.len()
        invariant
            i <= v@.len(),
            r@ == fold_text(v@.take(i as int)),
        decreases v@.len() - i,
    {
        r.push(lowercase_byte(v[i]));
        i = i + 1;
        proof {
            assert(fold_text(v@.take(i as int)) =~= fold_text(v@.take(i - 1)).push(
                fold_byte(v@[i - 1]),
            ));
        }
    }
    proof {
        assert(v@.take(v@.len() as int) =~= v@);
    }
    r
}

/// A plain copy of a byte vector.
pub(crate) fn copy_bytes(v: &Vec<u8>) -> (r: Vec<u8>)
    ensures
        r@ == v@,
{
    let mut r: Vec<u8> = Vec::new();
    let mut i: usize = 0;
    while i < v.len()
        invariant
            i <= v@.len(),
            r@ == v@.take(i as int),
        decreases v@.len() - i,
    {
        r.push(v[i]);
        i = i + 1;
        proof {
            assert(v@.take(i as int) =~= v@.take(i - 1).push(v@[i - 1]));
        }
    }
    proof {
        assert(v@.take(v@.len() as int) =~= v@);
    }
    r
}

/// Does the needle occur in `line` at position `i`?
fn bytes_match_at(line: &Vec<u8>, needle: &Vec<u8>, i: usize) -> (b: bool)
    requires
        i + needle@.len() <= line@.len(),
    ensures
        b == is_match_at(line@, needle@, i as int),
{
    let needle_len: usize = needle.len();
    let line_len: usize = line.len();
    let mut j: usize = 0;
    while j < needle_len
        invariant
            j <= needle_len,
            needle_len == needle@.len(),
            line_len == line@.len(),
            i + needle_len <= line_len,
            forall|k: int| 0 <= k < j ==> line@[i + k] == needle@[k],
        decreases needle_len - j,
    {
        if line[i + j] != needle[j] {
            proof {
                if is_match_at(line@, needle@, i as int) {
                    assert(line@.subrange(i as int, i + needle@.len())[j as int] == needle@[
                        j as int
                    ]);
                }
            }
            return false;
        }
        j = j + 1;
    }
    proof {
        assert(line@.subrange(i as int, i + needle@.len()) =~= needle@);
    }
    true
}

/// The line scanner: the ordered offsets of all non-overlapping occurrences
/// of `needle` in `line`.  With `ignore_case` both texts are folded to ASCII
/// lowercase for matching only; the offsets index the original line.
pub fn find_all_occurrences(line: &Vec<u8>, needle: &Vec<u8>, ignore_case: bool) -> (r: Vec<usize>)
    ensures
        r@.map_values(|x: usize| x as int) == find_all_spec(line@, needle@, ignore_case),
{
    let scan_line: Vec<u8> = if ignore_case {
        lowercase_bytes(line)
    } else {
        copy_bytes(line)
    };
    let scan_needle: Vec<u8> = if ignore_case {
        lowercase_bytes(needle)
    } else {
        copy_bytes(needle)
    };
    let mut r: Vec<usize> = Vec::new();
    if scan_needle.len() == 0 || scan_needle.len() > scan_line.len() {
        proof {
            assert(r@.map_values(|x: usize| x as int) =~= occurrences_from(
                scan_line@,
                scan_needle@,
                0,
            ));
        }
        return r;
    }
    let needle_len: usize = scan_needle.len();
    let line_len: usize = scan_line.len();
    let bound: usize = line_len - needle_len;
    let mut i: usize = 0;
    while i <= bound
        invariant
            needle_len == scan_needle@.len(),
            line_len == scan_line@.len(),
            needle_len > 0,
            needle_len <= line_len,
            bound == line_len - needle_len,
            i <= line_len,
            occurrences_from(scan_line@, scan_needle@, 0) == r@.map_values(|x: usize| x as int)
                + occurrences_from(scan_line@, scan_needle@, i as int),
        decreases line_len - i,
    {
        let ghost r0 = r@;
        let ghost i0 = i as int;
        if bytes_match_at(&scan_line, &scan_needle, i) {
            r.push(i);
            i = i + needle_len;
            proof {
                assert(occurrences_from(scan_line@, scan_needle@, i0) == seq![i0]
                    + occurrences_from(scan_line@, scan_needle@, i as int));
                assert(r@.map_values(|x: usize| x as int) =~= r0.map_values(|x: usize| x as int)
                    + seq![i0]);
                assert(occurrences_from(scan_line@, scan_needle@, 0) =~= r@.map_values(
                    |x: usize| x as int,
                ) + occurrences_from(scan_line@, scan_needle@, i as int));
            }
        } else {
            i = i + 1;
            proof {
                assert(occurrences_from(scan_line@, scan_needle@, i0) == occurrences_from(
                    scan_line@,
                    scan_needle@,
                    i as int,
                ));
            }
        }
    }
    proof {
        assert(occurrences_from(scan_line@, scan_needle@, i as int) == Seq::<int>::empty());
        assert(r@.map_values(|x: usize| x as int) =~= r@.map_values(|x: usize| x as int)
            + Seq::<int>::empty());
    }
    r
}

} // verus!
