use vstd::prelude::*;
use vstd::utf8::*;

verus! {

/// Whether `b` is an ASCII decimal digit.
pub open spec fn is_digit(b: u8) -> bool {
    0x30 <= b <= 0x39
}

pub open spec fn all_digits(s: Seq<u8>) -> bool {
    forall|i: int| 0 <= i < s.len() ==> is_digit(#[trigger] s[i])
}

/// The number that a run of decimal digits spells.
pub open spec fn digits_value(s: Seq<u8>) -> nat
    decreases s.len(),
{
    if s.len() == 0 {
        0
    } else {
        digits_value(s.drop_last()) * 10 + (s.last() - 0x30) as nat
    }
}

/// The value of a field written as `s`: a non-empty run of digits whose number
/// is at most `max`. Anything else (empty, a sign, another byte, too large) has none.
pub open spec fn field_value(s: Seq<u8>, max: nat) -> Option<nat> {
    if s.len() > 0 && all_digits(s) && digits_value(s) <= max {
        Some(digits_value(s))
    } else {
        None
    }
}

/// The first index at or after `from` that holds `c`, or `s.len()` when there is none.
pub open spec fn find_from(s: Seq<u8>, from: int, c: u8) -> int
    decreases s.len() - from,
{
    if from >= s.len() {
        s.len() as int
    } else if s[from] == c {
        from
    } else {
        find_from(s, from + 1, c)
    }
}

pub proof fn lemma_find_from_bounds(s: Seq<u8>, from: int, c: u8)
    requires
        0 <= from <= s.len(),
    ensures
        from <= find_from(s, from, c) <= s.len(),
        find_from(s, from, c) < s.len() ==> s[find_from(s, from, c)] == c,
    decreases s.len() - from,
{
    if from < s.len() && s[from] != c {
        lemma_find_from_bounds(s, from + 1, c);
    }
}

/// A prefix of a run of digits spells no larger a number than the whole run.
proof fn lemma_digits_prefix_le(s: Seq<u8>, k: int)
    requires
        all_digits(s),
        0 <= k <= s.len(),
    ensures
        digits_value(s.subrange(0, k)) <= digits_value(s),
    decreases s.len(),
{
    if k < s.len() {
        let d = s.drop_last();
        assert(d.subrange(0, k) =~= s.subrange(0, k));
        assert(all_digits(d)) by {
            assert forall|i: int| 0 <= i < d.len() implies is_digit(#[trigger] d[i]) by {
                assert(d[i] == s[i]);
            }
        }
        lemma_digits_prefix_le(d, k);
    } else {
        assert(s.subrange(0, k) =~= s);
    }
}

/// In valid UTF-8, the byte after an ASCII byte starts a character.
pub proof fn lemma_boundary_after_ascii(bytes: Seq<u8>, p: int)
    requires
        valid_utf8(bytes),
        0 <= p < bytes.len(),
        bytes[p] < 0x80,
    ensures
        is_char_boundary(bytes, p + 1),
    decreases bytes.len(),
{
    let n = length_of_first_scalar(bytes);
    let rest = pop_first_scalar(bytes);
    assert(valid_first_scalar(bytes) && valid_utf8(rest));
    assert(1 <= n <= 4 && n <= bytes.len());
    assert(rest.len() == bytes.len() - n);
    if p < n {
        // Every byte of a character after its first is a continuation byte.
        assert(p == 0);
        assert(n == 1);
        assert(is_char_boundary(rest, 0));
    } else {
        lemma_boundary_after_ascii(rest, p - n);
        assert(rest[p - n] == bytes[p]);
    }
}

/// Find byte `c` at or after `from`: its index, or `b.len()` when it is absent.
pub fn find_byte(b: &[u8], from: usize, c: u8) -> (r: usize)
    requires
        from <= b@.len(),
    ensures
        r == find_from(b@, from as int, c),
{
    let mut i: usize = from;
    while i < b.len()
        invariant
            from <= i <= b@.len(),
            find_from(b@, i as int, c) == find_from(b@, from as int, c),
        decreases b@.len() - i,
    {
        if b[i] == c {
            return i;
        }
        i = i + 1;
    }
    i
}

/// Read bytes `start..end` of `b` as a field bounded by `max`.
pub fn parse_field(b: &[u8], start: usize, end: usize, max: u32) -> (r: Option<u32>)
    requires
        start <= end <= b@.len(),
    ensures
        match r {
            Some(n) => field_value(b@.subrange(start as int, end as int), max as nat) == Some(
                n as nat,
            ),
            None => field_value(b@.subrange(start as int, end as int), max as nat) is None,
        },
{
    let ghost whole = b@.subrange(start as int, end as int);
    if start == end {
        return None;
    }
    let mut value: u64 = 0;
    let mut i: usize = start;
    while i < end
        invariant
            start <= i <= end <= b@.len(),
            whole == b@.subrange(start as int, end as int),
            all_digits(whole.subrange(0, i - start)),
            value == digits_value(whole.subrange(0, i - start)),
            value <= max,
        decreases end - i,
    {
        let d = b[i];
        if d < 0x30 || d > 0x39 {
            assert(whole[i - start] == d);
            return None;
        }
        let ghost before = whole.subrange(0, i - start);
        let ghost after = whole.subrange(0, i + 1 - start);
        assert(after.drop_last() =~= before);
        assert(all_digits(after)) by {
            assert forall|j: int| 0 <= j < after.len() implies is_digit(#[trigger] after[j]) by {
                if j < before.len() {
                    assert(after[j] == before[j]);
                }
            }
        }
        let next: u64 = value * 10 + (d - 0x30) as u64;
        if next > max as u64 {
            proof {
                if all_digits(whole) {
                    lemma_digits_prefix_le(whole, i + 1 - start);
                }
            }
            return None;
        }
        value = next;
        i = i + 1;
    }
    assert(whole.subrange(0, end - start) =~= whole);
    Some(value as u32)
}

} // verus!
