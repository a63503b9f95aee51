//! Text comparison, ordering and membership.
//!
//! Identifiers are ordered by their UTF-8 bytes, the order in which the rest of
//! the crate keeps its canonical lists.
//!
//! SPDX-License-Identifier: MIT OR Apache-2.0

use vstd::prelude::*;
use vstd::utf8::*;

pub mod shape;

verus! {

/// Lexicographic order on byte sequences.
pub open spec fn bytes_lt(a: Seq<u8>, b: Seq<u8>) -> bool
    decreases a.len(),
{
    if b.len() == 0 {
        false
    } else if a.len() == 0 {
        true
    } else if a[0] != b[0] {
        a[0] < b[0]
    } else {
        bytes_lt(a.drop_first(), b.drop_first())
    }
}

/// Order of two texts: the lexicographic order of their UTF-8 encodings.
pub open spec fn text_lt(a: Seq<char>, b: Seq<char>) -> bool {
    bytes_lt(encode_utf8(a), encode_utf8(b))
}

/// The texts held by a list of strings.
pub open spec fn texts(list: Seq<String>) -> Seq<Seq<char>> {
    list.map_values(|s: String| s@)
}

/// Strictly increasing texts: sorted, with nothing twice.
pub open spec fn texts_ascending(list: Seq<Seq<char>>) -> bool {
    forall|i: int, j: int| 0 <= i < j < list.len() ==> text_lt(#[trigger] list[i], #[trigger] list[j])
}

/// Two texts with one encoding are one text.
pub proof fn lemma_encoding_injective(a: Seq<char>, b: Seq<char>)
    requires
        encode_utf8(a) == encode_utf8(b),
    ensures
        a == b,
{
    encode_utf8_decode_utf8(a);
    encode_utf8_decode_utf8(b);
}

/// No byte sequence is below itself.
pub proof fn lemma_bytes_lt_irreflexive(a: Seq<u8>)
    ensures
        !bytes_lt(a, a),
    decreases a.len(),
{
    if a.len() > 0 {
        lemma_bytes_lt_irreflexive(a.drop_first());
    }
}

/// The byte order is transitive.
pub proof fn lemma_bytes_lt_transitive(a: Seq<u8>, b: Seq<u8>, c: Seq<u8>)
    requires
        bytes_lt(a, b),
        bytes_lt(b, c),
    ensures
        bytes_lt(a, c),
    decreases a.len(),
{
    if a.len() > 0 && b.len() > 0 && c.len() > 0 && a[0] == b[0] && b[0] == c[0] {
        lemma_bytes_lt_transitive(a.drop_first(), b.drop_first(), c.drop_first());
    }
}

/// Of two different byte sequences one is below the other.
pub proof fn lemma_bytes_lt_total(a: Seq<u8>, b: Seq<u8>)
    ensures
        a == b || bytes_lt(a, b) || bytes_lt(b, a),
    decreases a.len(),
{
    if a.len() == 0 && b.len() == 0 {
        assert(a =~= b);
    } else if a.len() > 0 && b.len() > 0 && a[0] == b[0] {
        lemma_bytes_lt_total(a.drop_first(), b.drop_first());
        if a.drop_first() == b.drop_first() {
            assert(a =~= seq![a[0]] + a.drop_first());
            assert(b =~= seq![b[0]] + b.drop_first());
        }
    }
}

/// The text order is a strict total order: irreflexive, transitive, and of two
/// different texts one is below the other.
pub proof fn law_text_order_is_strict_and_total(a: Seq<char>, b: Seq<char>, c: Seq<char>)
    ensures
        !text_lt(a, a),
        text_lt(a, b) && text_lt(b, c) ==> text_lt(a, c),
        a == b || text_lt(a, b) || text_lt(b, a),
{
    lemma_bytes_lt_irreflexive(encode_utf8(a));
    if text_lt(a, b) && text_lt(b, c) {
        lemma_bytes_lt_transitive(encode_utf8(a), encode_utf8(b), encode_utf8(c));
    }
    lemma_bytes_lt_total(encode_utf8(a), encode_utf8(b));
    if encode_utf8(a) == encode_utf8(b) {
        lemma_encoding_injective(a, b);
    }
}

/// Whether two texts are the same.
pub fn str_eq(a: &str, b: &str) -> (same: bool)
    ensures
        same == (a@ == b@),
{
    let left = a.as_bytes();
    let right = b.as_bytes();
    if left.len() != right.len() {
        return false;
    }
    let mut i: usize = 0;
    while i < left.len()
        invariant
            0 <= i <= left.len(),
            left.len() == right.len(),
            left@ == encode_utf8(a@),
            right@ == encode_utf8(b@),
            forall|k: int| 0 <= k < i ==> left@[k] == right@[k],
        decreases left.len() - i,
    {
        if left[i] != right[i] {
            return false;
        }
        i = i + 1;
    }
    proof {
        assert(left@ =~= right@);
        lemma_encoding_injective(a@, b@);
    }
    true
}

/// Whether `a` is ordered before `b`.
pub fn str_less(a: &str, b: &str) -> (less: bool)
    ensures
        less == text_lt(a@, b@),
{
    let left = a.as_bytes();
    let right = b.as_bytes();
    let mut i: usize = 0;
    assert(left@.skip(0) =~= left@);
    assert(right@.skip(0) =~= right@);
    while i < left.len() && i < right.len()
        invariant
            0 <= i <= left.len(),
            0 <= i <= right.len(),
            left@ == encode_utf8(a@),
            right@ == encode_utf8(b@),
            bytes_lt(left@.skip(i as int), right@.skip(i as int)) == text_lt(a@, b@),
        decreases left.len() - i,
    {
        assert(left@.skip(i as int).drop_first() =~= left@.skip(i + 1));
        assert(right@.skip(i as int).drop_first() =~= right@.skip(i + 1));
        if left[i] != right[i] {
            return left[i] < right[i];
        }
        i = i + 1;
    }
    i < right.len()
}

/// Whether `text` is one of `list`.
pub fn contains_text(list: &Vec<String>, text: &str) -> (found: bool)
    ensures
        found == texts(list@).contains(text@),
{
    let mut i: usize = 0;
    while i < list.len()
        invariant
            0 <= i <= list.len(),
            forall|k: int| 0 <= k < i ==> list@[k]@ != text@,
        decreases list.len() - i,
    {
        if str_eq(list[i].as_str(), text) {
            proof {
                assert(texts(list@)[i as int] == text@);
            }
            return true;
        }
        i = i + 1;
    }
    proof {
        assert(!texts(list@).contains(text@));
    }
    false
}

/// Insert `text` into an ascending list, unless it is there already.
pub fn insert_text(list: &mut Vec<String>, text: &String)
    requires
        texts_ascending(texts(old(list)@)),
    ensures
        texts_ascending(texts(final(list)@)),
        forall|t: Seq<char>|
            #[trigger] texts(final(list)@).contains(t) <==> (t == text@ || texts(
                old(list)@,
            ).contains(t)),
{
    let mut at: usize = 0;
    while at < list.len() && str_less(list[at].as_str(), text.as_str())
        invariant
            0 <= at <= list.len(),
            list@ == old(list)@,
            forall|k: int| 0 <= k < at ==> text_lt(#[trigger] texts(list@)[k], text@),
        decreases list.len() - at,
    {
        assert(texts(list@)[at as int] == list@[at as int]@);
        at = at + 1;
    }
    let ghost before = texts(list@);
    if at < list.len() && str_eq(list[at].as_str(), text.as_str()) {
        proof {
            assert(before[at as int] == text@);
        }
        return ;
    }
    proof {
        if at < list.len() {
            law_text_order_is_strict_and_total(before[at as int], text@, text@);
            assert(before[at as int] == list@[at as int]@);
            assert(text_lt(text@, before[at as int]));
        }
    }
    list.insert(at, text.clone());
    proof {
        let after = texts(list@);
        assert(after =~= before.insert(at as int, text@));
        assert forall|i: int, j: int| 0 <= i < j < after.len() implies text_lt(
            #[trigger] after[i],
            #[trigger] after[j],
        ) by {
            if j == at {
                assert(after[i] == before[i]);
            } else if i == at {
                assert(after[j] == before[j - 1]);
                if j - 1 > at {
                    assert(text_lt(before[at as int], before[j - 1]));
                    law_text_order_is_strict_and_total(text@, before[at as int], before[j - 1]);
                }
            } else {
                let p = if i < at { i } else { i - 1 };
                let q = if j < at { j } else { j - 1 };
                assert(text_lt(before[p], before[q]));
            }
        }
        assert forall|t: Seq<char>|
            #[trigger] after.contains(t) <==> (t == text@ || before.contains(t)) by {
            if after.contains(t) {
                let k = choose|k: int| 0 <= k < after.len() && after[k] == t;
                if k < at {
                    assert(before[k] == t);
                } else if k > at {
                    assert(before[k - 1] == t);
                }
            }
            if before.contains(t) {
                let k = choose|k: int| 0 <= k < before.len() && before[k] == t;
                if k < at {
                    assert(after[k] == t);
                } else {
                    assert(after[k + 1] == t);
                }
            }
            if t == text@ {
                assert(after[at as int] == t);
            }
        }
    }
}

/// Decimal digit of a value below 10.
pub open spec fn digit_char(n: int) -> char {
    (n + 48) as char
}

/// Decimal text of a natural number, without leading zeros.
pub open spec fn decimal(n: nat) -> Seq<char>
    decreases n,
{
    if n < 10 {
        seq![digit_char(n as int)]
    } else {
        decimal(n / 10).push(digit_char(n as int % 10))
    }
}

/// Different numbers have different decimal texts.
pub proof fn law_decimals_are_distinct(a: nat, b: nat)
    requires
        decimal(a) == decimal(b),
    ensures
        a == b,
    decreases a,
{
    let (x, y) = (decimal(a), decimal(b));
    assert(x.last() == digit_char(a as int % 10)) by {
        if a < 10 {
            assert(a as int % 10 == a);
        }
    }
    assert(y.last() == digit_char(b as int % 10)) by {
        if b < 10 {
            assert(b as int % 10 == b);
        }
    }
    assert(a as int % 10 == b as int % 10);
    if a >= 10 {
        lemma_decimal_is_not_empty(a / 10);
        if b >= 10 {
            assert(x.drop_last() =~= decimal(a / 10));
            assert(y.drop_last() =~= decimal(b / 10));
            law_decimals_are_distinct(a / 10, b / 10);
        }
    } else if b >= 10 {
        lemma_decimal_is_not_empty(b / 10);
    }
}

proof fn lemma_decimal_is_not_empty(n: nat)
    ensures
        decimal(n).len() > 0,
{
}

/// Decimal text of an integer, with a minus sign where it is negative.
pub open spec fn signed_decimal(n: int) -> Seq<char> {
    if n < 0 {
        "-"@ + decimal((-n) as nat)
    } else {
        decimal(n as nat)
    }
}

/// One decimal digit as text.
fn digit_text(n: u64) -> (out: &'static str)
    requires
        n < 10,
    ensures
        out@ == seq![digit_char(n as int)],
{
    proof {
        reveal_strlit("0");
        reveal_strlit("1");
        reveal_strlit("2");
        reveal_strlit("3");
        reveal_strlit("4");
        reveal_strlit("5");
        reveal_strlit("6");
        reveal_strlit("7");
        reveal_strlit("8");
        reveal_strlit("9");
    }
    match n {
        0 => "0",
        1 => "1",
        2 => "2",
        3 => "3",
        4 => "4",
        5 => "5",
        6 => "6",
        7 => "7",
        8 => "8",
        _ => "9",
    }
}

/// Decimal text of an unsigned integer.
pub fn decimal_text(n: u64) -> (out: String)
    ensures
        out@ == decimal(n as nat),
    decreases n,
{
    if n < 10 {
        digit_text(n).to_owned()
    } else {
        let head = decimal_text(n / 10);
        let out = head.concat(digit_text(n % 10));
        proof {
            assert(out@ =~= decimal((n / 10) as nat).push(digit_char(n as int % 10)));
        }
        out
    }
}

/// Decimal text of a signed integer.
pub fn signed_decimal_text(n: i64) -> (out: String)
    ensures
        out@ == signed_decimal(n as int),
{
    if n < 0 {
        let size: u64 = if n == i64::MIN {
            0x8000_0000_0000_0000
        } else {
            (-n) as u64
        };
        "-".to_owned().concat(decimal_text(size).as_str())
    } else {
        decimal_text(n as u64)
    }
}

/// Unicode white space.
pub open spec fn is_space(c: char) -> bool {
    let u = c as u32;
    ||| 0x9 <= u <= 0xd
    ||| u == 0x20
    ||| u == 0x85
    ||| u == 0xa0
    ||| u == 0x1680
    ||| 0x2000 <= u <= 0x200a
    ||| u == 0x2028
    ||| u == 0x2029
    ||| u == 0x202f
    ||| u == 0x205f
    ||| u == 0x3000
}

/// A text without its leading white space.
pub open spec fn left_trimmed(s: Seq<char>) -> Seq<char>
    decreases s.len(),
{
    if s.len() > 0 && is_space(s[0]) {
        left_trimmed(s.skip(1))
    } else {
        s
    }
}

/// A text without its trailing white space.
pub open spec fn right_trimmed(s: Seq<char>) -> Seq<char>
    decreases s.len(),
{
    if s.len() > 0 && is_space(s.last()) {
        right_trimmed(s.drop_last())
    } else {
        s
    }
}

/// A text without white space at either end.
pub open spec fn trimmed(s: Seq<char>) -> Seq<char> {
    right_trimmed(left_trimmed(s))
}

fn space(c: char) -> (yes: bool)
    ensures
        yes == is_space(c),
{
    let u: u32 = c as u32;
    (0x9 <= u && u <= 0xd) || u == 0x20 || u == 0x85 || u == 0xa0 || u == 0x1680 || (0x2000 <= u
        && u <= 0x200a) || u == 0x2028 || u == 0x2029 || u == 0x202f || u == 0x205f || u == 0x3000
}

/// Remove leading white space.
pub fn trim_start(s: &str) -> (out: &str)
    ensures
        out@ == left_trimmed(s@),
{
    let n: usize = s.unicode_len();
    let mut from: usize = 0;
    assert(s@.skip(0) =~= s@);
    while from < n && space(s.get_char(from))
        invariant
            0 <= from <= n,
            n == s@.len(),
            left_trimmed(s@.skip(from as int)) == left_trimmed(s@),
        decreases n - from,
    {
        assert(s@.skip(from as int).skip(1) =~= s@.skip(from + 1));
        from = from + 1;
    }
    let out = s.substring_char(from, n);
    assert(out@ =~= s@.skip(from as int));
    out
}

/// Remove white space at both ends.
pub fn trim(s: &str) -> (out: &str)
    ensures
        out@ == trimmed(s@),
{
    let left = trim_start(s);
    let n: usize = left.unicode_len();
    let mut to: usize = n;
    assert(left@.take(n as int) =~= left@);
    while to > 0 && space(left.get_char(to - 1))
        invariant
            0 <= to <= n,
            n == left@.len(),
            right_trimmed(left@.take(to as int)) == right_trimmed(left@),
        decreases to,
    {
        assert(left@.take(to as int).drop_last() =~= left@.take(to - 1));
        to = to - 1;
    }
    let out = left.substring_char(0, to);
    assert(out@ =~= left@.take(to as int));
    out
}

/// Position of the first `c` in `s`.
pub fn find_char(s: &str, c: char) -> (at: Option<usize>)
    ensures
        match at {
            Some(p) => p < s@.len() && s@[p as int] == c && forall|k: int|
                0 <= k < p ==> s@[k] != c,
            None => !s@.contains(c),
        },
{
    let n: usize = s.unicode_len();
    let mut i: usize = 0;
    while i < n
        invariant
            0 <= i <= n,
            n == s@.len(),
            forall|k: int| 0 <= k < i ==> s@[k] != c,
        decreases n - i,
    {
        if s.get_char(i) == c {
            return Some(i);
        }
        i = i + 1;
    }
    None
}

/// Owned copies of a list of texts.
pub fn owned(items: Vec<&str>) -> (list: Vec<String>)
    ensures
        list@.len() == items@.len(),
        texts(list@) == items@.map_values(|s: &str| s@),
{
    let mut list: Vec<String> = Vec::new();
    let mut i: usize = 0;
    while i < items.len()
        invariant
            0 <= i <= items.len(),
            list@.len() == i,
            forall|k: int| 0 <= k < i ==> (#[trigger] list@[k])@ == items@[k]@,
        decreases items.len() - i,
    {
        list.push(items[i].to_owned());
        i = i + 1;
    }
    assert(texts(list@) =~= items@.map_values(|s: &str| s@));
    list
}

/// Copy of a list of strings.
pub fn copied(items: &Vec<String>) -> (list: Vec<String>)
    ensures
        list@ == items@,
{
    let mut list: Vec<String> = Vec::new();
    let mut i: usize = 0;
    while i < items.len()
        invariant
            0 <= i <= items.len(),
            list@ == items@.take(i as int),
        decreases items.len() - i,
    {
        list.push(items[i].clone());
        assert(list@ =~= items@.take(i + 1));
        i = i + 1;
    }
    assert(list@ =~= items@);
    list
}

/// Copy of an optional string.
pub fn copied_option(item: &Option<String>) -> (copy: Option<String>)
    ensures
        copy == *item,
{
    match item {
        Some(s) => Some(s.clone()),
        None => None,
    }
}

/// The text of an optional string.
pub open spec fn text_of(item: Option<String>) -> Option<Seq<char>> {
    match item {
        Some(s) => Some(s@),
        None => None,
    }
}

/// Whether two optional strings hold the same text, or neither holds one.
pub fn same_option(a: &Option<String>, b: &Option<String>) -> (same: bool)
    ensures
        same == (text_of(*a) == text_of(*b)),
{
    match (a, b) {
        (Some(x), Some(y)) => str_eq(x.as_str(), y.as_str()),
        (None, None) => true,
        _ => false,
    }
}

/// Whether `s` starts with `prefix`.
pub fn starts_with(s: &str, prefix: &str) -> (yes: bool)
    ensures
        yes == prefix@.is_prefix_of(s@),
{
    let n: usize = s.unicode_len();
    let m: usize = prefix.unicode_len();
    if n < m {
        return false;
    }
    let head = s.substring_char(0, m);
    let yes = str_eq(head, prefix);
    proof {
        if prefix@.is_prefix_of(s@) {
            assert(head@ =~= prefix@);
        }
    }
    yes
}

/// The first list, then those items of the second that are not there yet.
pub open spec fn merged_unique(left: Seq<Seq<char>>, right: Seq<Seq<char>>) -> Seq<Seq<char>>
    decreases right.len(),
{
    if right.len() == 0 {
        left
    } else {
        let merged = merged_unique(left, right.drop_last());
        if merged.contains(right.last()) {
            merged
        } else {
            merged.push(right.last())
        }
    }
}

/// Concatenate two lists, keeping each item of the second once.
pub fn merge_unique(left: &Vec<String>, right: &Vec<String>) -> (merged: Vec<String>)
    ensures
        texts(merged@) == merged_unique(texts(left@), texts(right@)),
{
    let mut merged = copied(left);
    let mut i: usize = 0;
    assert(texts(right@).take(0) =~= Seq::<Seq<char>>::empty());
    while i < right.len()
        invariant
            0 <= i <= right.len(),
            texts(merged@) == merged_unique(texts(left@), texts(right@).take(i as int)),
        decreases right.len() - i,
    {
        let ghost before = texts(merged@);
        proof {
            assert(texts(right@).take(i + 1).drop_last() =~= texts(right@).take(i as int));
            assert(texts(right@).take(i + 1).last() == right@[i as int]@);
        }
        if !contains_text(&merged, right[i].as_str()) {
            merged.push(right[i].clone());
            assert(texts(merged@) =~= before.push(right@[i as int]@));
        }
        i = i + 1;
    }
    assert(texts(right@).take(i as int) =~= texts(right@));
    merged
}

/// Merging keeps every item of both lists.
pub proof fn lemma_merged_unique_keeps(left: Seq<Seq<char>>, right: Seq<Seq<char>>)
    ensures
        left.len() <= merged_unique(left, right).len(),
        forall|k: int| 0 <= k < left.len() ==> #[trigger] merged_unique(left, right)[k] == left[k],
        forall|t: Seq<char>| #[trigger]
            merged_unique(left, right).contains(t) <==> left.contains(t) || right.contains(t),
    decreases right.len(),
{
    if right.len() > 0 {
        let rest = right.drop_last();
        lemma_merged_unique_keeps(left, rest);
        let merged = merged_unique(left, rest);
        let all = merged_unique(left, right);
        assert forall|t: Seq<char>| #[trigger]
            all.contains(t) <==> left.contains(t) || right.contains(t) by {
            if rest.contains(t) {
                let k = choose|k: int| 0 <= k < rest.len() && rest[k] == t;
                assert(right[k] == t);
            }
            if right.contains(t) && !rest.contains(t) {
                let k = choose|k: int| 0 <= k < right.len() && right[k] == t;
                if k < rest.len() {
                    assert(rest[k] == t);
                }
                assert(t == right.last());
            }
            if t == right.last() {
                assert(right[right.len() - 1] == t);
            }
            if merged.contains(t) {
                let k = choose|k: int| 0 <= k < merged.len() && merged[k] == t;
                assert(all[k] == t);
            }
            if all.contains(t) && !merged.contains(t) {
                let k = choose|k: int| 0 <= k < all.len() && all[k] == t;
                if k < merged.len() {
                    assert(merged[k] == t);
                }
            }
            if !merged.contains(right.last()) {
                assert(all[merged.len() as int] == right.last());
            }
        }
    }
}

/// Whether a text holds nothing but white space.
pub fn blank(s: &str) -> (yes: bool)
    ensures
        yes == (trimmed(s@).len() == 0),
{
    trim(s).unicode_len() == 0
}

/// Whether no text occurs twice.
pub fn distinct_texts(list: &Vec<String>) -> (yes: bool)
    ensures
        yes == texts(list@).no_duplicates(),
{
    let mut i: usize = 0;
    while i < list.len()
        invariant
            0 <= i <= list.len(),
            forall|j: int, k: int|
                0 <= j < k < i ==> #[trigger] texts(list@)[j] != #[trigger] texts(list@)[k],
        decreases list.len() - i,
    {
        let mut k: usize = 0;
        while k < i
            invariant
                0 <= k <= i < list.len(),
                forall|j: int| 0 <= j < k ==> #[trigger] texts(list@)[j] != texts(list@)[i as int],
            decreases i - k,
        {
            if str_eq(list[k].as_str(), list[i].as_str()) {
                assert(texts(list@)[k as int] == texts(list@)[i as int]);
                return false;
            }
            k = k + 1;
        }
        i = i + 1;
    }
    true
}

/// Whether some text of a list holds nothing but white space.
pub fn any_blank(list: &Vec<String>) -> (yes: bool)
    ensures
        yes == exists|i: int|
            0 <= i < list@.len() && trimmed(#[trigger] texts(list@)[i]).len() == 0,
{
    let mut i: usize = 0;
    while i < list.len()
        invariant
            0 <= i <= list.len(),
            forall|k: int| 0 <= k < i ==> trimmed(#[trigger] texts(list@)[k]).len() != 0,
        decreases list.len() - i,
    {
        if blank(list[i].as_str()) {
            assert(trimmed(texts(list@)[i as int]).len() == 0);
            return true;
        }
        i = i + 1;
    }
    false
}

} // verus!
