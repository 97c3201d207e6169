//! The 32-bit limit of the punycode encoder, stated of a label.
//!
//! `punycode::encode` takes the code points of the label that are above
//! ASCII in ascending order, and keeps one 32-bit counter. For a code point
//! `m` it first adds `(m - n) * (h + 1)` to the counter, where `n` is one
//! more than the code point before `m` (128 for the first) and `h` is the
//! number of characters below `m`; where that sum would pass `u32::MAX` it
//! gives up. Then it goes through the label and adds one for each
//! character below `m`, until it meets `m`, writes the counter out and sets
//! it to zero. What the counter holds behind the last `m`, and one more,
//! goes on to the next code point. So the most that the counter holds for
//! `m` is `weight`, and the encoder returns an encoding exactly if no weight
//! passes `u32::MAX` and the length of the label fits in 32 bits. On every
//! other label it gives up, or its counter would run over.

use vstd::prelude::*;

verus! {

/// The first code point above ASCII.
pub const FIRST_ABOVE_ASCII: u32 = 128;

/// How many characters of `s` have a code point below `m`.
pub open spec fn count_below(s: Seq<char>, m: u32) -> nat
    decreases s.len(),
{
    if s.len() == 0 {
        0
    } else {
        count_below(s.drop_last(), m) + if (s.last() as u32) < m {
            1nat
        } else {
            0nat
        }
    }
}

/// How many characters with a code point below `p` stand behind the last
/// `p` of `s`; all of them where `s` holds no `p`.
pub open spec fn tail_below(s: Seq<char>, p: u32) -> nat
    decreases s.len(),
{
    if s.len() == 0 || s.last() as u32 == p {
        0
    } else {
        tail_below(s.drop_last(), p) + if (s.last() as u32) < p {
            1nat
        } else {
            0nat
        }
    }
}

/// The greatest code point of `s` that is above ASCII and below `m`; 127
/// where there is none.
pub open spec fn prev_of(s: Seq<char>, m: u32) -> u32
    decreases s.len(),
{
    if s.len() == 0 {
        127
    } else {
        let before = prev_of(s.drop_last(), m);
        let c = s.last() as u32;
        if FIRST_ABOVE_ASCII <= c && c < m && c > before {
            c
        } else {
            before
        }
    }
}

/// Where the code point `m` first stands in `s`; the length of `s` where
/// it does not.
pub open spec fn first_at(s: Seq<char>, m: u32) -> int
    decreases s.len(),
{
    if s.len() == 0 || s.first() as u32 == m {
        0
    } else {
        1 + first_at(s.drop_first(), m)
    }
}

/// What the encoder's counter holds before the first digit for the code
/// point `m` is written: what is left from the code point before it, the
/// step from that code point to `m` for every character below `m` and one
/// more, and one for every character below `m` that stands before the
/// first `m`.
pub open spec fn weight(s: Seq<char>, m: u32) -> int {
    let p = prev_of(s, m);
    let left = if p == 127 {
        0
    } else {
        1 + tail_below(s, p)
    };
    left + (m - p - 1) * (count_below(s, m) + 1) + count_below(s.take(first_at(s, m)), m)
}

/// Whether the encoder can encode the label within its 32 bits.
pub open spec fn can_encode(s: Seq<char>) -> bool {
    &&& s.len() < u32::MAX
    &&& forall|i: int|
        0 <= i < s.len() && (#[trigger] s[i]) as u32 >= FIRST_ABOVE_ASCII ==> weight(
            s,
            s[i] as u32,
        ) <= u32::MAX
}

fn below(s: &Vec<char>, m: u32) -> (r: u64)
    requires
        s.len() < u32::MAX,
    ensures
        r == count_below(s@, m),
        r <= s.len(),
{
    let mut count: u64 = 0;
    let mut i: usize = 0;
    while i < s.len()
        invariant
            i <= s.len(),
            s.len() < u32::MAX,
            count == count_below(s@.take(i as int), m),
            count <= i,
        decreases s.len() - i,
    {
        proof {
            assert(s@.take(i + 1).drop_last() == s@.take(i as int));
        }
        if (s[i] as u32) < m {
            count += 1;
        }
        i += 1;
    }
    assert(s@.take(s@.len() as int) == s@);
    count
}

fn tail(s: &Vec<char>, p: u32) -> (r: u64)
    requires
        s.len() < u32::MAX,
    ensures
        r == tail_below(s@, p),
        r <= s.len(),
{
    let mut count: u64 = 0;
    let mut i: usize = 0;
    while i < s.len()
        invariant
            i <= s.len(),
            s.len() < u32::MAX,
            count == tail_below(s@.take(i as int), p),
            count <= i,
        decreases s.len() - i,
    {
        proof {
            assert(s@.take(i + 1).drop_last() == s@.take(i as int));
        }
        let c = s[i] as u32;
        if c == p {
            count = 0;
        } else if c < p {
            count += 1;
        }
        i += 1;
    }
    assert(s@.take(s@.len() as int) == s@);
    count
}

fn prev(s: &Vec<char>, m: u32) -> (r: u32)
    requires
        m >= FIRST_ABOVE_ASCII,
    ensures
        r == prev_of(s@, m),
        127 <= r < m,
{
    let mut best: u32 = 127;
    let mut i: usize = 0;
    while i < s.len()
        invariant
            i <= s.len(),
            m >= FIRST_ABOVE_ASCII,
            best == prev_of(s@.take(i as int), m),
            127 <= best < m,
        decreases s.len() - i,
    {
        proof {
            assert(s@.take(i + 1).drop_last() == s@.take(i as int));
        }
        let c = s[i] as u32;
        if FIRST_ABOVE_ASCII <= c && c < m && c > best {
            best = c;
        }
        i += 1;
    }
    assert(s@.take(s@.len() as int) == s@);
    best
}

/// Where a code point first stands: `n` is that place if it does not stand
/// before `n` and stands at `n`, if anything does.
pub proof fn lemma_first_at(s: Seq<char>, m: u32, n: int)
    requires
        0 <= n <= s.len(),
        forall|j: int| 0 <= j < n ==> (#[trigger] s[j]) as u32 != m,
        n < s.len() ==> s[n] as u32 == m,
    ensures
        first_at(s, m) == n,
    decreases n,
{
    if n > 0 {
        let rest = s.drop_first();
        assert forall|j: int| 0 <= j < n - 1 implies (#[trigger] rest[j]) as u32 != m by {
            assert(rest[j] == s[j + 1]);
        }
        if n - 1 < rest.len() {
            assert(rest[n - 1] == s[n]);
        }
        lemma_first_at(rest, m, n - 1);
    }
}

/// Where `m` first stands in `s`, and how many characters below `m` stand
/// before that place.
fn lead(s: &Vec<char>, m: u32) -> (r: (usize, u64))
    requires
        s.len() < u32::MAX,
    ensures
        r.0 == first_at(s@, m),
        r.0 <= s.len(),
        r.0 < s.len() ==> s@[r.0 as int] as u32 == m,
        forall|j: int| 0 <= j < r.0 ==> (#[trigger] s@[j]) as u32 != m,
        r.1 == count_below(s@.take(r.0 as int), m),
        r.1 <= s.len(),
{
    let mut count: u64 = 0;
    let mut i: usize = 0;
    while i < s.len() && s[i] as u32 != m
        invariant
            i <= s.len(),
            s.len() < u32::MAX,
            forall|j: int| 0 <= j < i ==> (#[trigger] s@[j]) as u32 != m,
            count == count_below(s@.take(i as int), m),
            count <= i,
        decreases s.len() - i,
    {
        proof {
            assert(s@.take(i + 1).drop_last() == s@.take(i as int));
        }
        if (s[i] as u32) < m {
            count += 1;
        }
        i += 1;
    }
    proof {
        lemma_first_at(s@, m, i as int);
    }
    (i, count)
}

/// What the encoder's counter holds before the first digit for `m`.
fn weigh(s: &Vec<char>, m: u32, before_first: u64) -> (r: u128)
    requires
        s.len() < u32::MAX,
        FIRST_ABOVE_ASCII <= m,
        before_first == count_below(s@.take(first_at(s@, m)), m),
        before_first <= s.len(),
    ensures
        r == weight(s@, m),
{
    let p = prev(s, m);
    let left: u64 = if p == 127 {
        0
    } else {
        1 + tail(s, p)
    };
    let step: u128 = (m - p - 1) as u128;
    let many: u128 = (below(s, m) + 1) as u128;
    assert(step * many <= 0x1_0000_0000 * 0x1_0000_0000) by (nonlinear_arith)
        requires
            0 <= step <= 0x1_0000_0000,
            0 <= many <= 0x1_0000_0000,
    ;
    left as u128 + step * many + before_first as u128
}

/// Whether the encoder can encode the label within its 32 bits.
pub fn encodable(label: &Vec<char>) -> (r: bool)
    ensures
        r == can_encode(label@),
{
    if label.len() >= u32::MAX as usize {
        return false;
    }
    let mut i: usize = 0;
    while i < label.len()
        invariant
            i <= label.len(),
            label.len() < u32::MAX,
            forall|j: int|
                0 <= j < i && (#[trigger] label@[j]) as u32 >= FIRST_ABOVE_ASCII ==> weight(
                    label@,
                    label@[j] as u32,
                ) <= u32::MAX,
        decreases label.len() - i,
    {
        let m = label[i] as u32;
        if m >= FIRST_ABOVE_ASCII {
            let (first, before_first) = lead(label, m);
            if first == i {
                if weigh(label, m, before_first) > u32::MAX as u128 {
                    return false;
                }
            } else {
                assert(first < i);
            }
        }
        i += 1;
    }
    true
}

} // verus!
