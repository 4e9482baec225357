//! Byte-level text handling for the atlas manifest: line splitting, `key: value`
//! splitting, comma separated items and integer / boolean items.
use vstd::prelude::*;

verus! {

// ---------------------------------------------------------------------------
// Line splitting (the behaviour of `str::lines`)
// ---------------------------------------------------------------------------

/// Index of the first `\n` at or after `i`, or `s.len()` when there is none.
pub open spec fn next_newline(s: Seq<u8>, i: int) -> int
    decreases s.len() - i,
{
    if i >= s.len() {
        s.len() as int
    } else if s[i] == 10u8 {
        i
    } else {
        next_newline(s, i + 1)
    }
}

/// A line without the `\r` of a `\r\n` ending.
pub open spec fn strip_cr(l: Seq<u8>) -> Seq<u8> {
    if l.len() > 0 && l.last() == 13u8 {
        l.drop_last()
    } else {
        l
    }
}

pub proof fn lemma_next_newline_bounds(s: Seq<u8>, i: int)
    requires
        0 <= i,
    ensures
        i <= next_newline(s, i) || i > s.len(),
        next_newline(s, i) <= s.len(),
        next_newline(s, i) < s.len() ==> s[next_newline(s, i)] == 10u8,
        forall|k: int| i <= k < next_newline(s, i) ==> s[k] != 10u8,
    decreases s.len() - i,
{
    if i < s.len() && s[i] != 10u8 {
        lemma_next_newline_bounds(s, i + 1);
    }
}

/// The lines of `s` from byte `i` on: split at `\n`, a `\r` before the `\n` dropped,
/// no empty last line after a final `\n`.
pub open spec fn lines_from(s: Seq<u8>, i: int) -> Seq<Seq<u8>>
    decreases s.len() - i,
{
    if i < 0 || i >= s.len() {
        Seq::empty()
    } else {
        let j = next_newline(s, i);
        if j < s.len() {
            proof {
                lemma_next_newline_bounds(s, i);
            }
            seq![strip_cr(s.subrange(i, j))] + lines_from(s, j + 1)
        } else {
            seq![s.subrange(i, s.len() as int)]
        }
    }
}

/// The lines of a text, as `str::lines` yields them.
pub open spec fn text_lines(s: Seq<u8>) -> Seq<Seq<u8>> {
    lines_from(s, 0)
}

/// The byte contents of a list of owned lines.
pub open spec fn lines_view(v: Seq<Vec<u8>>) -> Seq<Seq<u8>> {
    v.map_values(|l: Vec<u8>| l@)
}

fn copy_range(s: &[u8], start: usize, end: usize) -> (r: Vec<u8>)
    requires
        start <= end <= s@.len(),
    ensures
        r@ == s@.subrange(start as int, end as int),
{
    let mut r: Vec<u8> = Vec::new();
    let mut k = start;
    while k < end
        invariant
            start <= k <= end <= s@.len(),
            r@ == s@.subrange(start as int, k as int),
        decreases end - k,
    {
        r.push(s[k]);
        k = k + 1;
        assert(r@ =~= s@.subrange(start as int, k as int));
    }
    r
}

/// Split a text into its lines, as `str::lines` does.
pub fn split_lines(s: &[u8]) -> (lines: Vec<Vec<u8>>)
    ensures
        lines_view(lines@) == text_lines(s@),
{
    let mut lines: Vec<Vec<u8>> = Vec::new();
    let mut i: usize = 0;
    let len = s.len();
    while i < len
        invariant
            len == s@.len(),
            i <= len,
            text_lines(s@) == lines_view(lines@) + lines_from(s@, i as int),
        decreases len - i,
    {
        let mut j = i;
        while j < len && s[j] != 10u8
            invariant
                i <= j <= len,
                len == s@.len(),
                next_newline(s@, i as int) == next_newline(s@, j as int),
            decreases len - j,
        {
            j = j + 1;
        }
        assert(next_newline(s@, j as int) == j);
        let ghost before = lines_view(lines@);
        if j < len {
            let mut end = j;
            if j > i && s[j - 1] == 13u8 {
                end = j - 1;
            }
            let line = copy_range(s, i, end);
            assert(line@ == strip_cr(s@.subrange(i as int, j as int)));
            lines.push(line);
            assert(lines_view(lines@) =~= before.push(line@));
            assert(lines_from(s@, i as int) == seq![line@] + lines_from(s@, j + 1));
            assert(text_lines(s@) =~= lines_view(lines@) + lines_from(s@, j + 1));
            i = j + 1;
        } else {
            let line = copy_range(s, i, len);
            lines.push(line);
            assert(lines_view(lines@) =~= before.push(line@));
            assert(lines_from(s@, len as int) =~= Seq::<Seq<u8>>::empty());
            assert(text_lines(s@) =~= lines_view(lines@) + lines_from(s@, len as int));
            i = len;
        }
    }
    assert(lines_from(s@, i as int) =~= Seq::<Seq<u8>>::empty());
    assert(text_lines(s@) =~= lines_view(lines@));
    lines
}

// ---------------------------------------------------------------------------
// Two-byte separators (`": "` and `", "`)
// ---------------------------------------------------------------------------

/// The first index `k >= i` at which `a` is followed by `b`, or `-1`.
pub open spec fn find_pair_from(s: Seq<u8>, a: u8, b: u8, i: int) -> int
    decreases s.len() - i,
{
    if i < 0 || i + 1 >= s.len() {
        -1
    } else if s[i] == a && s[i + 1] == b {
        i
    } else {
        find_pair_from(s, a, b, i + 1)
    }
}

pub proof fn lemma_find_pair_bounds(s: Seq<u8>, a: u8, b: u8, i: int)
    ensures
        find_pair_from(s, a, b, i) == -1 || (i <= find_pair_from(s, a, b, i)
            && find_pair_from(s, a, b, i) + 1 < s.len()),
    decreases s.len() - i,
{
    if !(i < 0 || i + 1 >= s.len()) && !(s[i] == a && s[i + 1] == b) {
        lemma_find_pair_bounds(s, a, b, i + 1);
    }
}

fn find_pair(s: &Vec<u8>, a: u8, b: u8, start: usize) -> (r: Option<usize>)
    requires
        start <= s@.len(),
    ensures
        match r {
            Some(k) => find_pair_from(s@, a, b, start as int) == k as int,
            None => find_pair_from(s@, a, b, start as int) == -1,
        },
{
    let mut i = start;
    while s.len() - i >= 2
        invariant
            start <= i <= s@.len(),
            find_pair_from(s@, a, b, start as int) == find_pair_from(s@, a, b, i as int),
        decreases s@.len() - i,
    {
        if s[i] == a && s[i + 1] == b {
            return Some(i);
        }
        i = i + 1;
    }
    None
}

/// The text after the first `": "` of a line, up to the next `": "` if there is one.
pub open spec fn value_part(line: Seq<u8>) -> Option<Seq<u8>> {
    let i = find_pair_from(line, 58u8, 32u8, 0);
    if i < 0 {
        None
    } else {
        let rest = line.subrange(i + 2, line.len() as int);
        let j = find_pair_from(rest, 58u8, 32u8, 0);
        if j < 0 {
            Some(rest)
        } else {
            Some(rest.subrange(0, j))
        }
    }
}

/// The right-hand side of a `name: values` line, or `None` when it has no `": "`.
pub fn line_value(line: &Vec<u8>) -> (r: Option<Vec<u8>>)
    ensures
        match r {
            Some(v) => value_part(line@) == Some(v@),
            None => value_part(line@).is_none(),
        },
{
    match find_pair(line, 58u8, 32u8, 0) {
        None => None,
        Some(i) => {
            proof {
                lemma_find_pair_bounds(line@, 58u8, 32u8, 0);
            }
            assert(i + 1 < line@.len());
            assert(line@.len() == line.len());
            let rest = copy_range(line.as_slice(), i + 2, line.len());
            match find_pair(&rest, 58u8, 32u8, 0) {
                None => Some(rest),
                Some(j) => {
                    proof {
                        lemma_find_pair_bounds(rest@, 58u8, 32u8, 0);
                    }
                    assert(j + 1 < rest@.len());
                    Some(copy_range(rest.as_slice(), 0, j))
                },
            }
        },
    }
}

/// The items of a value, split at `", "` (there is always at least one).
pub open spec fn items_from(v: Seq<u8>, i: int) -> Seq<Seq<u8>>
    decreases v.len() - i,
{
    let j = find_pair_from(v, 44u8, 32u8, i);
    if i < 0 || i > v.len() || j < 0 {
        seq![v.subrange(i, v.len() as int)]
    } else {
        proof {
            lemma_find_pair_bounds(v, 44u8, 32u8, i);
        }
        seq![v.subrange(i, j)] + items_from(v, j + 2)
    }
}

/// The comma separated items of a value.
pub open spec fn items(v: Seq<u8>) -> Seq<Seq<u8>> {
    items_from(v, 0)
}

pub proof fn lemma_items_nonempty(v: Seq<u8>, i: int)
    ensures
        items_from(v, i).len() >= 1,
    decreases v.len() - i,
{
    let j = find_pair_from(v, 44u8, 32u8, i);
    if !(i < 0 || i > v.len() || j < 0) {
        lemma_find_pair_bounds(v, 44u8, 32u8, i);
        lemma_items_nonempty(v, j + 2);
    }
}

/// The `k`-th comma separated item of a value, if there are that many.
pub fn nth_item(v: &Vec<u8>, k: usize) -> (r: Option<Vec<u8>>)
    ensures
        match r {
            Some(x) => k < items(v@).len() && x@ == items(v@)[k as int],
            None => k >= items(v@).len(),
        },
{
    let mut start: usize = 0;
    let mut n: usize = 0;
    while n < k
        invariant
            n <= k,
            start <= v@.len(),
            items(v@).len() >= n,
            items(v@).skip(n as int) == items_from(v@, start as int),
        decreases k - n,
    {
        match find_pair(v, 44u8, 32u8, start) {
            None => {
                assert(items_from(v@, start as int) == seq![v@.subrange(start as int, v@.len() as int)]);
                assert(items(v@).len() == n + 1);
                return None;
            },
            Some(j) => {
                proof {
                    lemma_find_pair_bounds(v@, 44u8, 32u8, start as int);
                    assert(items_from(v@, start as int) == seq![v@.subrange(start as int, j as int)]
                        + items_from(v@, j + 2));
                    assert(items(v@).skip(n + 1) =~= items(v@).skip(n as int).drop_first());
                }
                assert(j + 1 < v@.len());
                assert(v@.len() == v.len());
                start = j + 2;
                n = n + 1;
            },
        }
    }
    proof {
        lemma_items_nonempty(v@, start as int);
        assert(items(v@).skip(n as int).len() >= 1);
        assert(items(v@)[k as int] == items(v@).skip(n as int)[0]);
    }
    match find_pair(v, 44u8, 32u8, start) {
        None => {
            assert(items_from(v@, start as int) == seq![v@.subrange(start as int, v@.len() as int)]);
            Some(copy_range(v.as_slice(), start, v.len()))
        },
        Some(j) => {
            proof {
                lemma_find_pair_bounds(v@, 44u8, 32u8, start as int);
                assert(items_from(v@, start as int) == seq![v@.subrange(start as int, j as int)]
                    + items_from(v@, j + 2));
            }
            Some(copy_range(v.as_slice(), start, j))
        },
    }
}

// ---------------------------------------------------------------------------
// Integer and boolean items (the behaviour of `str::parse::<i32>` / `<bool>`)
// ---------------------------------------------------------------------------

pub open spec fn is_digit(c: u8) -> bool {
    48u8 <= c <= 57u8
}

pub open spec fn all_digits(d: Seq<u8>) -> bool {
    forall|k: int| 0 <= k < d.len() ==> is_digit(#[trigger] d[k])
}

/// The value of a string of decimal digits.
pub open spec fn digits_value(d: Seq<u8>) -> nat
    decreases d.len(),
{
    if d.len() == 0 {
        0
    } else {
        digits_value(d.drop_last()) * 10 + (d.last() - 48) as nat
    }
}

/// A decimal `i32` with an optional `+` or `-` sign, as `str::parse::<i32>` reads it.
pub open spec fn parse_i32_spec(s: Seq<u8>) -> Option<i32> {
    if s.len() == 0 {
        None
    } else {
        let signed = s[0] == 43u8 || s[0] == 45u8;
        let digits = if signed {
            s.drop_first()
        } else {
            s
        };
        let v: int = if s[0] == 45u8 {
            -(digits_value(digits) as int)
        } else {
            digits_value(digits) as int
        };
        if digits.len() == 0 || !all_digits(digits) || v < i32::MIN || v > i32::MAX {
            None
        } else {
            Some(v as i32)
        }
    }
}

proof fn lemma_digits_value_step(d: Seq<u8>, i: int)
    requires
        0 <= i < d.len(),
    ensures
        digits_value(d.take(i + 1)) == digits_value(d.take(i)) * 10 + (d[i] - 48) as nat,
{
    assert(d.take(i + 1).drop_last() =~= d.take(i));
}

/// Parse a decimal `i32` item.
pub fn parse_i32(s: &Vec<u8>) -> (r: Option<i32>)
    ensures
        r == parse_i32_spec(s@),
{
    let len = s.len();
    if len == 0 {
        return None;
    }
    let neg = s[0] == 45u8;
    let signed = s[0] == 43u8 || neg;
    let start: usize = if signed {
        1
    } else {
        0
    };
    let ghost digits = if signed {
        s@.drop_first()
    } else {
        s@
    };
    assert(digits =~= s@.subrange(start as int, len as int));
    if start == len {
        return None;
    }
    // Large enough to tell every value that fits in an i32 from one that does not.
    let limit: u64 = 2147483648;
    let mut acc: u64 = 0;
    let mut over = false;
    let mut i = start;
    assert(digits.take(0) =~= Seq::<u8>::empty());
    while i < len
        invariant
            start <= i <= len,
            len == s@.len(),
            start < len,
            neg == (s@[0] == 45u8),
            signed == (s@[0] == 43u8 || s@[0] == 45u8),
            start == (if signed { 1usize } else { 0usize }),
            digits == (if signed { s@.drop_first() } else { s@ }),
            limit == 2147483648u64,
            digits =~= s@.subrange(start as int, len as int),
            forall|k: int| 0 <= k < i - start ==> is_digit(#[trigger] digits[k]),
            !over ==> acc == digits_value(digits.take(i - start)) && acc <= limit,
            over ==> digits_value(digits.take(i - start)) > limit,
        decreases len - i,
    {
        let c = s[i];
        if c < 48u8 || c > 57u8 {
            assert(digits[i - start] == c);
            assert(!is_digit(digits[i - start]));
            assert(!all_digits(digits));
            return None;
        }
        proof {
            lemma_digits_value_step(digits, i - start);
        }
        if !over {
            let next = acc * 10 + (c - 48u8) as u64;
            if next > limit {
                over = true;
            } else {
                acc = next;
            }
        }
        i = i + 1;
    }
    assert(digits.take(len - start) =~= digits);
    assert(all_digits(digits));
    if over {
        return None;
    }
    if neg {
        let v: i64 = -(acc as i64);
        Some(v as i32)
    } else {
        if acc > 2147483647 {
            None
        } else {
            Some(acc as i32)
        }
    }
}

/// `true` or `false`, as `str::parse::<bool>` reads them.
pub open spec fn parse_bool_spec(s: Seq<u8>) -> Option<bool> {
    if s == seq![116u8, 114u8, 117u8, 101u8] {
        Some(true)
    } else if s == seq![102u8, 97u8, 108u8, 115u8, 101u8] {
        Some(false)
    } else {
        None
    }
}

/// Parse a boolean item.
pub fn parse_bool(s: &Vec<u8>) -> (r: Option<bool>)
    ensures
        r == parse_bool_spec(s@),
{
    if s.len() == 4 && s[0] == 116u8 && s[1] == 114u8 && s[2] == 117u8 && s[3] == 101u8 {
        assert(s@ =~= seq![116u8, 114u8, 117u8, 101u8]);
        Some(true)
    } else if s.len() == 5 && s[0] == 102u8 && s[1] == 97u8 && s[2] == 108u8 && s[3] == 115u8
        && s[4] == 101u8 {
        assert(s@ =~= seq![102u8, 97u8, 108u8, 115u8, 101u8]);
        Some(false)
    } else {
        proof {
            if s@ == seq![116u8, 114u8, 117u8, 101u8] {
                assert(s@.len() == 4 && s@[0] == 116u8 && s@[1] == 114u8 && s@[2] == 117u8 && s@[3] == 101u8);
            }
            if s@ == seq![102u8, 97u8, 108u8, 115u8, 101u8] {
                assert(s@.len() == 5 && s@[0] == 102u8 && s@[4] == 101u8 && s@[1] == 97u8
                    && s@[2] == 108u8 && s@[3] == 115u8);
            }
        }
        None
    }
}

/// Whether `pat` occurs in `s`.
pub open spec fn contains_seq(s: Seq<u8>, pat: Seq<u8>) -> bool {
    exists|i: int| 0 <= i && i + pat.len() <= s.len() && #[trigger] s.subrange(i, i + pat.len()) == pat
}

/// Whether a line contains the word `orig`.
pub fn contains_orig(line: &Vec<u8>) -> (b: bool)
    ensures
        b == contains_seq(line@, seq![111u8, 114u8, 105u8, 103u8]),
{
    let ghost pat = seq![111u8, 114u8, 105u8, 103u8];
    let len = line.len();
    if len < 4 {
        assert(!contains_seq(line@, pat));
        return false;
    }
    let mut i: usize = 0;
    while i <= len - 4
        invariant
            len == line@.len(),
            len >= 4,
            i <= len - 3,
            pat == seq![111u8, 114u8, 105u8, 103u8],
            forall|k: int| 0 <= k < i ==> #[trigger] line@.subrange(k, k + 4) != pat,
        decreases len - i,
    {
        if line[i] == 111u8 && line[i + 1] == 114u8 && line[i + 2] == 105u8 && line[i + 3] == 103u8 {
            assert(line@.subrange(i as int, i + 4) =~= pat);
            return true;
        }
        assert(line@.subrange(i as int, i + 4)[0] == line@[i as int]);
        assert(line@.subrange(i as int, i + 4)[1] == line@[i + 1]);
        assert(line@.subrange(i as int, i + 4)[2] == line@[i + 2]);
        assert(line@.subrange(i as int, i + 4)[3] == line@[i + 3]);
        i = i + 1;
    }
    false
}

} // verus!
