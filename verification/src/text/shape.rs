//! What trimmed, numbered and merged texts look like.
//!
//! SPDX-License-Identifier: MIT OR Apache-2.0

use crate::text;
use vstd::prelude::*;

verus! {

/// Every character of a text is a space.
pub open spec fn is_blank(s: Seq<char>) -> bool {
    forall|i: int| 0 <= i < s.len() ==> text::is_space(#[trigger] s[i])
}

proof fn lemma_left(s: Seq<char>) -> (cut: int)
    ensures
        0 <= cut <= s.len(),
        text::left_trimmed(s) == s.skip(cut),
        is_blank(s.take(cut)),
        cut < s.len() ==> !text::is_space(s[cut]),
    decreases s.len(),
{
    if s.len() > 0 && text::is_space(s[0]) {
        let rest = s.skip(1);
        let cut = lemma_left(rest);
        assert(rest.skip(cut) =~= s.skip(cut + 1));
        assert forall|i: int| 0 <= i < cut + 1 implies text::is_space(
            #[trigger] s.take(cut + 1)[i],
        ) by {
            if i > 0 {
                assert(rest.take(cut)[i - 1] == s[i]);
            }
        }
        if cut < rest.len() {
            assert(rest[cut] == s[cut + 1]);
        }
        cut + 1
    } else {
        assert(s.skip(0) =~= s);
        0
    }
}

proof fn lemma_right(s: Seq<char>) -> (cut: int)
    ensures
        0 <= cut <= s.len(),
        text::right_trimmed(s) == s.take(cut),
        is_blank(s.skip(cut)),
        cut > 0 ==> !text::is_space(s[cut - 1]),
    decreases s.len(),
{
    if s.len() > 0 && text::is_space(s.last()) {
        let rest = s.drop_last();
        let cut = lemma_right(rest);
        assert(rest.take(cut) =~= s.take(cut));
        assert forall|i: int| 0 <= i < s.skip(cut).len() implies text::is_space(
            #[trigger] s.skip(cut)[i],
        ) by {
            if i < rest.skip(cut).len() {
                assert(rest.skip(cut)[i] == s[cut + i]);
            }
        }
        cut
    } else {
        assert(s.take(s.len() as int) =~= s);
        s.len() as int
    }
}

/// Trimming takes spaces off both ends and nothing else: a text is some spaces, its trimmed form
/// and some spaces, and its trimmed form neither starts nor ends with a space.
pub proof fn law_trimming_takes_spaces_off_the_ends(s: Seq<char>)
    ensures
        exists|from: int, to: int|
            {
                &&& 0 <= from <= to <= s.len()
                &&& text::trimmed(s) == #[trigger] s.subrange(from, to)
                &&& is_blank(s.take(from))
                &&& is_blank(s.skip(to))
            },
        text::trimmed(s).len() > 0 ==> !text::is_space(text::trimmed(s)[0]) && !text::is_space(
            text::trimmed(s).last(),
        ),
        text::trimmed(s).len() == 0 <==> is_blank(s),
{
    let from = lemma_left(s);
    let middle = s.skip(from);
    let size = lemma_right(middle);
    let to = from + size;
    assert(text::trimmed(s) == middle.take(size));
    assert(middle.take(size) =~= s.subrange(from, to));
    assert(middle.skip(size) =~= s.skip(to));
    if size > 0 {
        assert(text::trimmed(s)[0] == s[from]);
        assert(text::trimmed(s).last() == middle[size - 1]);
        assert(!is_blank(s));
    } else {
        assert forall|i: int| 0 <= i < s.len() implies text::is_space(#[trigger] s[i]) by {
            if i < from {
                assert(s.take(from)[i] == s[i]);
            } else {
                assert(middle.skip(0)[i - from] == s[i]);
            }
        }
    }
}

/// Number that decimal digits stand for.
pub open spec fn number(digits: Seq<char>) -> int
    decreases digits.len(),
{
    if digits.len() == 0 {
        0
    } else {
        10 * number(digits.drop_last()) + (digits.last() as u32 - 48)
    }
}

/// The decimal text of a number is made of digits, does not start with a zero unless the number
/// is zero, and stands for the number.
pub proof fn law_decimals_read_back(n: nat)
    ensures
        number(text::decimal(n)) == n,
        text::decimal(n).len() > 0,
        forall|i: int|
            0 <= i < text::decimal(n).len() ==> '0' <= #[trigger] text::decimal(n)[i] <= '9',
        n > 0 ==> text::decimal(n)[0] != '0',
    decreases n,
{
    let own = text::decimal(n);
    let last = text::digit_char(n as int % 10);
    if n < 10 {
        assert(own.drop_last() =~= Seq::empty());
        assert(number(own.drop_last()) == 0);
        assert(own.last() as u32 == n + 48);
    } else {
        let before = text::decimal(n / 10);
        law_decimals_read_back(n / 10);
        assert(own.drop_last() =~= before);
        assert(own.last() == last);
        assert(last as u32 == n % 10 + 48);
        assert(own[0] == before[0]);
        assert forall|i: int| 0 <= i < own.len() implies '0' <= #[trigger] own[i] <= '9' by {
            if i < before.len() {
                assert(own[i] == before[i]);
            }
        }
    }
}

/// A merged list starts with the first list, goes on with what only the second has, and repeats
/// nothing of the second.
pub proof fn law_merging_adds_what_is_new(left: Seq<Seq<char>>, right: Seq<Seq<char>>)
    ensures
        left.is_prefix_of(text::merged_unique(left, right)),
        forall|t: Seq<char>| #[trigger]
            text::merged_unique(left, right).contains(t) <==> left.contains(t) || right.contains(
                t,
            ),
        forall|i: int, j: int|
            #![trigger text::merged_unique(left, right)[i], text::merged_unique(left, right)[j]]
            left.len() <= j < text::merged_unique(left, right).len() && 0 <= i < j
                ==> text::merged_unique(left, right)[i] != text::merged_unique(left, right)[j],
    decreases right.len(),
{
    let merged = text::merged_unique(left, right);
    if right.len() > 0 {
        let rest = right.drop_last();
        law_merging_adds_what_is_new(left, rest);
        let before = text::merged_unique(left, rest);
        let last = right.last();
        assert forall|t: Seq<char>| #[trigger] right.contains(t) <==> rest.contains(t) || t
            == last by {
            if rest.contains(t) {
                let i = choose|i: int| 0 <= i < rest.len() && rest[i] == t;
                assert(right[i] == t);
            }
            if right.contains(t) && t != last {
                let i = choose|i: int| 0 <= i < right.len() && right[i] == t;
                assert(rest[i] == t);
            }
            assert(right[right.len() - 1] == last);
        }
        if !before.contains(last) {
            let n = before.len() as int;
            assert(merged == before.push(last));
            assert forall|t: Seq<char>| #[trigger] merged.contains(t) <==> before.contains(t) || t
                == last by {
                if before.contains(t) {
                    let i = choose|i: int| 0 <= i < n && before[i] == t;
                    assert(merged[i] == t);
                }
                assert(merged[n] == last);
                if merged.contains(t) && t != last {
                    let i = choose|i: int| 0 <= i < merged.len() && merged[i] == t;
                    assert(before[i] == t);
                }
            }
            assert forall|i: int, j: int|
                #![trigger merged[i], merged[j]]
                left.len() <= j < merged.len() && 0 <= i < j implies merged[i] != merged[j] by {
                if j < n {
                    assert(before[i] != before[j]);
                } else {
                    assert(before.contains(before[i]));
                }
            }
        }
    }
}

/// Two texts part at a place: they agree before it, and there the first ends or is smaller.
pub open spec fn part_at(a: Seq<u8>, b: Seq<u8>, k: int) -> bool {
    &&& 0 <= k < b.len()
    &&& k <= a.len()
    &&& a.take(k) == b.take(k)
    &&& k == a.len() || a[k] < b[k]
}

/// Texts are ordered by the first byte in which they differ, and a text comes before its
/// extensions.
pub proof fn law_the_first_difference_decides(a: Seq<u8>, b: Seq<u8>)
    ensures
        text::bytes_lt(a, b) <==> exists|k: int| part_at(a, b, k),
    decreases a.len(),
{
    if b.len() > 0 && a.len() == 0 {
        assert(a.take(0) =~= b.take(0));
        assert(part_at(a, b, 0));
    } else if b.len() > 0 && a[0] != b[0] {
        if a[0] < b[0] {
            assert(a.take(0) =~= b.take(0));
            assert(part_at(a, b, 0));
        } else {
            assert forall|k: int| !part_at(a, b, k) by {
                if part_at(a, b, k) && k > 0 {
                    assert(a.take(k)[0] == b.take(k)[0]);
                }
            }
        }
    } else if b.len() > 0 {
        let x = a.drop_first();
        let y = b.drop_first();
        law_the_first_difference_decides(x, y);
        if text::bytes_lt(x, y) {
            let k = choose|k: int| part_at(x, y, k);
            assert forall|j: int| 0 <= j < k + 1 implies #[trigger] a[j] == b[j] by {
                if j > 0 {
                    assert(x.take(k)[j - 1] == y.take(k)[j - 1]);
                }
            }
            assert(a.take(k + 1) =~= b.take(k + 1));
            assert(part_at(a, b, k + 1));
        } else {
            assert forall|k: int| !part_at(a, b, k) by {
                if part_at(a, b, k) {
                    assert(k > 0);
                    assert forall|j: int| 0 <= j < k - 1 implies #[trigger] x[j] == y[j] by {
                        assert(a.take(k)[j + 1] == b.take(k)[j + 1]);
                    }
                    assert(x.take(k - 1) =~= y.take(k - 1));
                    assert(part_at(x, y, k - 1));
                }
            }
        }
    }
}

} // verus!
