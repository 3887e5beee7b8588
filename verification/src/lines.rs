//! Splitting a file's bytes into lines, the way a line-oriented scan reads
//! them: lines are separated by `\n`, a `\r` immediately before a `\n` is
//! stripped, and a final newline does not produce a trailing empty line.

use vstd::prelude::*;

verus! {

/// Position of the first `\n` in `s`, or `s.len()` when there is none.
pub open spec fn first_newline(s: Seq<u8>) -> nat
    decreases s.len(),
{
    if s.len() == 0 {
        0
    } else if s[0] == 10 {
        0
    } else {
        1 + first_newline(s.drop_first())
    }
}

/// A line with its trailing `\r` removed, if it carries one.
pub open spec fn strip_trailing_cr(line: Seq<u8>) -> Seq<u8> {
    if line.len() > 0 && line[line.len() - 1] == 13 {
        line.drop_last()
    } else {
        line
    }
}

/// The lines of `content`: split at each `\n`, drop the `\r` of a `\r\n`
/// ending, and produce no trailing empty line for a final newline.  A final
/// line without a newline is kept whole.
pub open spec fn split_lines_spec(content: Seq<u8>) -> Seq<Seq<u8>>
    decreases content.len(),
{
    if content.len() == 0 {
        Seq::empty()
    } else {
        let n = first_newline(content);
        if n >= content.len() {
            seq![content]
        } else {
            seq![strip_trailing_cr(content.take(n as int))] + split_lines_spec(
                content.skip(n + 1 as int),
            )
        }
    }
}

/// `first_newline` points at the first `\n`: nothing before it is a `\n`,
/// and it stays within the text.
pub proof fn lemma_first_newline_bounds(s: Seq<u8>)
    ensures
        first_newline(s) <= s.len(),
        forall|k: int| 0 <= k < first_newline(s) ==> s[k] != 10,
        first_newline(s) < s.len() ==> s[first_newline(s) as int] == 10,
    decreases s.len(),
{
    if s.len() == 0 {
    } else if s[0] == 10 {
    } else {
        lemma_first_newline_bounds(s.drop_first());
        assert forall|k: int| 0 <= k < first_newline(s) implies s[k] != 10 by {
            if k > 0 {
                assert(s.drop_first()[k - 1] == s[k]);
            }
        }
        if first_newline(s) < s.len() {
            assert(s.drop_first()[first_newline(s.drop_first()) as int] == s[
                first_newline(s) as int
            ]);
        }
    }
}

/// A position with no `\n` before it, holding a `\n` or ending the text,
/// is exactly `first_newline`.
proof fn lemma_first_newline_is(s: Seq<u8>, d: int)
    requires
        0 <= d <= s.len(),
        forall|k: int| 0 <= k < d ==> s[k] != 10,
        d < s.len() ==> s[d] == 10,
    ensures
        first_newline(s) == d,
    decreases s.len(),
{
    if s.len() == 0 {
    } else if s[0] == 10 {
        assert(d == 0);
    } else {
        assert(d >= 1);
        assert forall|k: int| 0 <= k < d - 1 implies s.drop_first()[k] != 10 by {
            assert(s.drop_first()[k] == s[k + 1]);
        }
        if d - 1 < s.drop_first().len() {
            assert(s.drop_first()[d - 1] == s[d]);
        }
        lemma_first_newline_is(s.drop_first(), d - 1);
    }
}

/// A file never holds more lines than bytes.
pub proof fn lemma_split_lines_count(content: Seq<u8>)
    ensures
        split_lines_spec(content).len() <= content.len(),
    decreases content.len(),
{
    if content.len() == 0 {
    } else {
        let n = first_newline(content);
        lemma_first_newline_bounds(content);
        if n < content.len() {
            lemma_split_lines_count(content.skip(n + 1 as int));
        }
    }
}

/// Helper view: the byte sequences held by a vector of lines.
pub open spec fn lines_view(ls: Seq<Vec<u8>>) -> Seq<Seq<u8>> {
    ls.map_values(|l: Vec<u8>| l@)
}

/// Split a file's bytes into its lines.
pub fn split_lines(content: &Vec<u8>) -> (r: Vec<Vec<u8>>)
    ensures
        lines_view(r@) == split_lines_spec(content@),
{
    let mut r: Vec<Vec<u8>> = Vec::new();
    let len: usize = content.len();
    let mut from: usize = 0;
    proof {
        assert(content@.skip(0) =~= content@);
        assert(lines_view(r@) + split_lines_spec(content@) =~= split_lines_spec(content@));
    }
    while from < len
        invariant
            len == content@.len(),
            from <= len,
            split_lines_spec(content@) == lines_view(r@) + split_lines_spec(
                content@.skip(from as int),
            ),
        decreases len - from,
    {
        let ghost from0 = from as int;
        let ghost s = content@.skip(from0);
        let mut j: usize = from;
        while j < len && content[j] != 10
            invariant
                len == content@.len(),
                from <= j <= len,
                forall|k: int| from <= k < j ==> content@[k] != 10,
            decreases len - j,
        {
            j = j + 1;
        }
        proof {
            assert forall|k: int| 0 <= k < j - from0 implies s[k] != 10 by {
                assert(s[k] == content@[from0 + k]);
            }
            if j < len {
                assert(s[j - from0] == content@[j as int]);
            }
            lemma_first_newline_is(s, j - from0);
        }
        let end: usize = if j < len && j > from && content[j - 1] == 13 {
            j - 1
        } else {
            j
        };
        let mut line: Vec<u8> = Vec::new();
        let mut k: usize = from;
        while k < end
            invariant
                from <= k <= end <= len,
                len == content@.len(),
                line@ == content@.subrange(from as int, k as int),
            decreases end - k,
        {
            line.push(content[k]);
            k = k + 1;
            proof {
                assert(content@.subrange(from as int, k as int) =~= content@.subrange(
                    from as int,
                    k - 1,
                ).push(content@[k - 1]));
            }
        }
        let ghost r_before = r@;
        r.push(line);
        proof {
            assert(lines_view(r@) =~= lines_view(r_before).push(line@));
        }
        if j < len {
            proof {
                assert(s.take(j - from0) =~= content@.subrange(from0, j as int));
                assert(line@ =~= strip_trailing_cr(s.take(j - from0)));
                assert(s.skip(j - from0 + 1) =~= content@.skip(j + 1));
                assert(split_lines_spec(s) == seq![line@] + split_lines_spec(
                    content@.skip(j + 1),
                ));
                assert(lines_view(r_before) + split_lines_spec(s) =~= lines_view(r@)
                    + split_lines_spec(content@.skip(j + 1)));
            }
            from = j + 1;
        } else {
            proof {
                assert(s =~= content@.subrange(from0, j as int));
                assert(line@ =~= s);
                assert(split_lines_spec(s) == seq![line@]);
                assert(split_lines_spec(content@.skip(j as int)) == Seq::<Seq<u8>>::empty());
                assert(lines_view(r_before) + split_lines_spec(s) =~= lines_view(r@)
                    + split_lines_spec(content@.skip(j as int)));
            }
            from = j;
        }
    }
    proof {
        assert(split_lines_spec(content@.skip(from as int)) == Seq::<Seq<u8>>::empty());
        assert(lines_view(r@) + split_lines_spec(content@.skip(from as int)) =~= lines_view(r@));
    }
    r
}

} // verus!
