//! Dot-delimited paths: splitting a key string into segments, and reading
//! a segment as a base-10 sequence index.

use vstd::prelude::*;

verus! {

/// The position of the first `.` at or after `i`, or the string's length
/// if there is none.
pub open spec fn seg_end(s: Seq<char>, i: int) -> int
    decreases s.len() - i,
{
    if i < 0 || i >= s.len() {
        s.len() as int
    } else if s[i] == '.' {
        i
    } else {
        seg_end(s, i + 1)
    }
}

pub proof fn lemma_seg_end(s: Seq<char>, i: int)
    requires
        0 <= i <= s.len(),
    ensures
        i <= seg_end(s, i) <= s.len(),
        forall|k: int| i <= k < seg_end(s, i) ==> s[k] != '.',
        seg_end(s, i) < s.len() ==> s[seg_end(s, i)] == '.',
    decreases s.len() - i,
{
    if i < s.len() && s[i] != '.' {
        lemma_seg_end(s, i + 1);
    }
}

/// `seg_end` is the only boundary: a dot-free run ending at the length or
/// at a dot pins it down.
pub proof fn lemma_seg_end_at(s: Seq<char>, i: int, j: int)
    requires
        0 <= i <= j <= s.len(),
        forall|k: int| i <= k < j ==> s[k] != '.',
        j == s.len() || s[j] == '.',
    ensures
        seg_end(s, i) == j,
    decreases j - i,
{
    if i < j {
        lemma_seg_end_at(s, i + 1, j);
    }
}

/// The segments of `s` from position `i` on: the dot-free runs between
/// the remaining dots, in order.
pub open spec fn split_from(s: Seq<char>, i: int) -> Seq<Seq<char>>
    decreases s.len() - i,
    when 0 <= i <= s.len()
    via split_from_decreases
{
    let j = seg_end(s, i);
    if j >= s.len() {
        seq![s.subrange(i, j)]
    } else {
        seq![s.subrange(i, j)] + split_from(s, j + 1)
    }
}

#[via_fn]
proof fn split_from_decreases(s: Seq<char>, i: int) {
    lemma_seg_end(s, i);
}

/// The segments of a path: empty for the empty path, else the dot-free
/// runs between its dots.
pub open spec fn spec_split(s: Seq<char>) -> Seq<Seq<char>> {
    if s.len() == 0 {
        Seq::empty()
    } else {
        split_from(s, 0)
    }
}

/// Splits a path on `.` into its segments; the empty path has none.
pub fn split_path(path: &str) -> (segs: Vec<String>)
    ensures
        segs.deep_view() == spec_split(path@),
{
    let n = path.unicode_len();
    let mut segs: Vec<String> = Vec::new();
    if n == 0 {
        assert(segs.deep_view() =~= spec_split(path@));
        return segs;
    }
    let mut start: usize = 0;
    let mut i: usize = 0;
    while i < n
        invariant
            n == path@.len(),
            0 <= start <= i <= n,
            forall|k: int| start <= k < i ==> path@[k] != '.',
            split_from(path@, 0) =~= segs.deep_view() + split_from(path@, start as int),
        decreases n - i,
    {
        let c = path.get_char(i);
        if c == '.' {
            proof {
                lemma_seg_end_at(path@, start as int, i as int);
            }
            let seg = path.substring_char(start, i).to_owned();
            let ghost old_dv = segs.deep_view();
            segs.push(seg);
            assert(segs.deep_view() =~= old_dv.push(seg@));
            assert(split_from(path@, 0) =~= segs.deep_view() + split_from(
                path@,
                i + 1 as int,
            ));
            start = i + 1;
        }
        i += 1;
    }
    proof {
        lemma_seg_end_at(path@, start as int, n as int);
    }
    let seg = path.substring_char(start, n).to_owned();
    let ghost old_dv = segs.deep_view();
    segs.push(seg);
    assert(segs.deep_view() =~= old_dv.push(seg@));
    assert(segs.deep_view() =~= spec_split(path@));
    segs
}

/// Whether `c` is a decimal digit.
pub open spec fn is_digit(c: char) -> bool {
    '0' <= c <= '9'
}

/// Whether every character of `s` is a decimal digit.
pub open spec fn all_digits(s: Seq<char>) -> bool {
    forall|k: int| 0 <= k < s.len() ==> is_digit(#[trigger] s[k])
}

/// The number the digit string `s` denotes in base 10.
pub open spec fn digits_val(s: Seq<char>) -> int
    decreases s.len(),
{
    if s.len() == 0 {
        0
    } else {
        digits_val(s.drop_last()) * 10 + (s.last() as int - '0' as int)
    }
}

/// The sequence index a segment denotes: defined exactly for a non-empty
/// all-digit segment whose value fits the machine's index type.
pub open spec fn spec_index_of(s: Seq<char>) -> Option<int> {
    if s.len() > 0 && all_digits(s) && digits_val(s) <= usize::MAX {
        Some(digits_val(s))
    } else {
        None
    }
}

pub proof fn lemma_digits_nonneg(s: Seq<char>)
    requires
        all_digits(s),
    ensures
        digits_val(s) >= 0,
    decreases s.len(),
{
    if s.len() > 0 {
        assert(all_digits(s.drop_last()));
        lemma_digits_nonneg(s.drop_last());
    }
}

/// A digit string is worth at least any of its prefixes.
pub proof fn lemma_digits_prefix_le(s: Seq<char>, i: int)
    requires
        all_digits(s),
        0 <= i <= s.len(),
    ensures
        digits_val(s.take(i)) <= digits_val(s),
    decreases s.len() - i,
{
    if i == s.len() {
        assert(s.take(i) =~= s);
    } else {
        assert(s.take(i + 1).drop_last() =~= s.take(i));
        assert(all_digits(s.take(i)));
        lemma_digits_nonneg(s.take(i));
        lemma_digits_prefix_le(s, i + 1);
    }
}

/// Reads a segment as a base-10 sequence index; `None` where the segment
/// is empty, holds a non-digit, or denotes a number too large to index by.
pub fn seg_to_index(seg: &str) -> (r: Option<usize>)
    ensures
        match r {
            Some(u) => spec_index_of(seg@) == Some(u as int),
            None => spec_index_of(seg@) is None,
        },
{
    let n = seg.unicode_len();
    if n == 0 {
        return None;
    }
    let mut acc: usize = 0;
    let mut i: usize = 0;
    while i < n
        invariant
            n == seg@.len(),
            0 <= i <= n,
            all_digits(seg@.take(i as int)),
            acc == digits_val(seg@.take(i as int)),
        decreases n - i,
    {
        let c = seg.get_char(i);
        if c < '0' || c > '9' {
            assert(!all_digits(seg@));
            return None;
        }
        let d: usize = (c as usize) - 48;
        assert(seg@.take(i + 1 as int).drop_last() =~= seg@.take(i as int));
        if acc > (usize::MAX - d) / 10 {
            proof {
                assert(acc * 10 + d > usize::MAX) by (nonlinear_arith)
                    requires
                        acc > (usize::MAX - d) / 10,
                        0 <= d <= 9,
                        acc >= 0,
                ;
                if all_digits(seg@) {
                    lemma_digits_prefix_le(seg@, i + 1 as int);
                }
            }
            return None;
        }
        acc = acc * 10 + d;
        i += 1;
    }
    assert(seg@.take(n as int) =~= seg@);
    Some(acc)
}

} // verus!
