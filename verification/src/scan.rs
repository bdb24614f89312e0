//! A completeness check for bencoded input.
//!
//! The external parser behind [`crate::Torrent::from_buffer`] returns a
//! defined result only on input that holds one complete bencode value: when
//! the input ends between tokens inside an unclosed list or dictionary it
//! aborts instead of returning, an integer token of nineteen or more digits
//! overflows its accumulator, and a byte-string length prefix far beyond the
//! input provokes an allocation of that size.  [`spec_scan`] states, and
//! [`scan_complete`] decides, that a byte sequence is exactly one complete
//! value whose digit runs hold at most eighteen digits and whose length
//! prefixes are satisfied inside the input; only such input is handed to the
//! parser.  Everything the check rejects is invalid bencode (or an integer
//! beyond the signed 64-bit range, which the wire format's consumers cannot
//! represent), so rejecting it and parsing it agree.

use vstd::prelude::*;

verus! {

/// The ASCII decimal digits.
pub open spec fn is_digit(b: u8) -> bool {
    48 <= b && b <= 57
}

/// The first position at or after `i` that does not hold a digit.
pub open spec fn digits_end(s: Seq<u8>, i: int) -> int
    decreases s.len() - i,
{
    if i < 0 || i >= s.len() {
        i
    } else if is_digit(s[i]) {
        digits_end(s, i + 1)
    } else {
        i
    }
}

/// The value of the decimal digits in `s[i .. j)`, most significant first.
pub open spec fn digits_value(s: Seq<u8>, i: int, j: int) -> int
    decreases j - i,
{
    if i >= j {
        0
    } else {
        digits_value(s, i, j - 1) * 10 + (s[j - 1] - 48)
    }
}

spec fn pow10(n: nat) -> int
    decreases n,
{
    if n == 0 {
        1
    } else {
        10 * pow10((n - 1) as nat)
    }
}

proof fn lemma_pow10_pos(n: nat)
    ensures
        pow10(n) >= 1,
    decreases n,
{
    if n > 0 {
        lemma_pow10_pos((n - 1) as nat);
    }
}

proof fn lemma_pow10_mono(a: nat, b: nat)
    requires
        a <= b,
    ensures
        pow10(a) <= pow10(b),
    decreases b,
{
    if a < b {
        lemma_pow10_mono(a, (b - 1) as nat);
        lemma_pow10_pos((b - 1) as nat);
    }
}

proof fn lemma_digits_value_pow(s: Seq<u8>, i: int, j: int)
    requires
        0 <= i <= j <= s.len(),
        forall|t: int| i <= t < j ==> is_digit(#[trigger] s[t]),
    ensures
        0 <= digits_value(s, i, j) < pow10((j - i) as nat),
    decreases j - i,
{
    if i < j {
        lemma_digits_value_pow(s, i, j - 1);
        assert(is_digit(s[j - 1]));
        assert(pow10((j - i) as nat) == 10 * pow10((j - i - 1) as nat));
    }
}

/// A run of at most eighteen digits has a value below `10^18`.
proof fn lemma_digits_value_18(s: Seq<u8>, i: int, j: int)
    requires
        0 <= i <= j <= s.len(),
        j - i <= 18,
        forall|t: int| i <= t < j ==> is_digit(#[trigger] s[t]),
    ensures
        0 <= digits_value(s, i, j) < 1000000000000000000,
{
    lemma_digits_value_pow(s, i, j);
    lemma_pow10_mono((j - i) as nat, 18);
    assert(pow10(18) == 1000000000000000000) by {
        reveal_with_fuel(pow10, 19);
    }
}

/// A byte-string token at `i`: a run of at most eighteen digits, a colon,
/// and as many bytes as the digits say, all inside the input.  Yields the
/// position just past the token.
pub open spec fn scan_string(s: Seq<u8>, i: int) -> Option<int> {
    if i < 0 || i >= s.len() || !is_digit(s[i]) {
        None
    } else {
        let j = digits_end(s, i);
        if j - i > 18 {
            None
        } else if j < s.len() && s[j] == 58 {  // ':'
            let end = j + 1 + digits_value(s, i, j);
            if end <= s.len() {
                Some(end)
            } else {
                None
            }
        } else {
            None
        }
    }
}

/// One bencode value starting at `i`: an integer token, a byte string, a
/// list or a dictionary.  Yields the position just past it.
pub open spec fn scan_value(s: Seq<u8>, i: int) -> Option<int>
    decreases s.len() - i, 0int,
{
    if i < 0 || i >= s.len() {
        None
    } else if s[i] == 105 {  // 'i'
        let k = if i + 1 < s.len() && s[i + 1] == 45 {  // '-'
            i + 2
        } else {
            i + 1
        };
        let j = digits_end(s, k);
        if j == k || j - k > 18 {
            None
        } else if j < s.len() && s[j] == 101 {  // 'e'
            Some(j + 1)
        } else {
            None
        }
    } else if is_digit(s[i]) {
        scan_string(s, i)
    } else if s[i] == 108 {  // 'l'
        scan_items(s, i + 1)
    } else if s[i] == 100 {  // 'd'
        scan_pairs(s, i + 1)
    } else {
        None
    }
}

/// List elements from `i` up to and including the closing marker.
pub open spec fn scan_items(s: Seq<u8>, i: int) -> Option<int>
    decreases s.len() - i, 1int,
{
    if i < 0 || i >= s.len() {
        None
    } else if s[i] == 101 {  // 'e'
        Some(i + 1)
    } else {
        match scan_value(s, i) {
            Some(j) => if i < j && j <= s.len() {
                scan_items(s, j)
            } else {
                None
            },
            None => None,
        }
    }
}

/// Dictionary entries from `i` up to and including the closing marker: a
/// byte-string key, then a value, repeated.
pub open spec fn scan_pairs(s: Seq<u8>, i: int) -> Option<int>
    decreases s.len() - i, 1int,
{
    if i < 0 || i >= s.len() {
        None
    } else if s[i] == 101 {  // 'e'
        Some(i + 1)
    } else {
        match scan_string(s, i) {
            Some(k) => if i < k && k <= s.len() {
                match scan_value(s, k) {
                    Some(j) => if k < j && j <= s.len() {
                        scan_pairs(s, j)
                    } else {
                        None
                    },
                    None => None,
                }
            } else {
                None
            },
            None => None,
        }
    }
}

/// The whole input is exactly one complete bencode value: nothing missing,
/// nothing trailing, every digit run at most eighteen digits.
pub open spec fn spec_scan(s: Seq<u8>) -> bool {
    scan_value(s, 0) == Some(s.len() as int)
}

fn scan_digits(s: &[u8], i: usize) -> (r: usize)
    requires
        i <= s@.len(),
    ensures
        r as int == digits_end(s@, i as int),
        i <= r <= s@.len(),
        forall|t: int| i <= t < r ==> is_digit(#[trigger] s@[t]),
{
    let mut j = i;
    while j < s.len() && 48 <= s[j] && s[j] <= 57
        invariant
            i <= j <= s@.len(),
            digits_end(s@, i as int) == digits_end(s@, j as int),
            forall|t: int| i <= t < j ==> is_digit(#[trigger] s@[t]),
        decreases s@.len() - j,
    {
        j += 1;
    }
    j
}

fn digits_to_u64(s: &[u8], i: usize, j: usize) -> (v: u64)
    requires
        i <= j <= s@.len(),
        j - i <= 18,
        forall|t: int| i <= t < j ==> is_digit(#[trigger] s@[t]),
    ensures
        v as int == digits_value(s@, i as int, j as int),
{
    let mut v: u64 = 0;
    let mut t = i;
    while t < j
        invariant
            i <= t <= j <= s@.len(),
            j - i <= 18,
            forall|tt: int| i <= tt < j ==> is_digit(#[trigger] s@[tt]),
            v as int == digits_value(s@, i as int, t as int),
        decreases j - t,
    {
        proof {
            lemma_digits_value_18(s@, i as int, t + 1);
        }
        v = v * 10 + ((s[t] - 48) as u64);
        t += 1;
    }
    v
}

fn scan_string_at(s: &[u8], i: usize) -> (r: Option<usize>)
    requires
        i <= s@.len(),
    ensures
        (match scan_string(s@, i as int) {
            Some(j) => r matches Some(u) && u as int == j && i < j && j <= s@.len(),
            None => r is None,
        }),
{
    if i >= s.len() {
        return None;
    }
    if s[i] < 48 || s[i] > 57 {
        return None;
    }
    let j = scan_digits(s, i);
    if j - i > 18 {
        return None;
    }
    if j >= s.len() {
        return None;
    }
    if s[j] != 58 {
        return None;
    }
    let v = digits_to_u64(s, i, j);
    let rem = (s.len() - j - 1) as u64;
    if v <= rem {
        Some(j + 1 + (v as usize))
    } else {
        None
    }
}

fn scan_value_at(s: &[u8], i: usize) -> (r: Option<usize>)
    requires
        i <= s@.len(),
    ensures
        (match scan_value(s@, i as int) {
            Some(j) => r matches Some(u) && u as int == j && i < j && j <= s@.len(),
            None => r is None,
        }),
    decreases s@.len() - i,
{
    if i >= s.len() {
        return None;
    }
    let b = s[i];
    if b == 105 {  // 'i'
        let k = if i + 1 < s.len() && s[i + 1] == 45 {  // '-'
            i + 2
        } else {
            i + 1
        };
        let j = scan_digits(s, k);
        if j == k {
            None
        } else if j - k > 18 {
            None
        } else if j < s.len() && s[j] == 101 {  // 'e'
            Some(j + 1)
        } else {
            None
        }
    } else if 48 <= b && b <= 57 {
        scan_string_at(s, i)
    } else if b == 108 {  // 'l'
        let mut j = i + 1;
        while j < s.len()
            invariant
                i < j <= s@.len(),
                scan_value(s@, i as int) == scan_items(s@, j as int),
            decreases s@.len() - j,
        {
            if s[j] == 101 {  // 'e'
                return Some(j + 1);
            }
            match scan_value_at(s, j) {
                Some(j2) => {
                    j = j2;
                },
                None => {
                    return None;
                },
            }
        }
        None
    } else if b == 100 {  // 'd'
        let mut j = i + 1;
        while j < s.len()
            invariant
                i < j <= s@.len(),
                scan_value(s@, i as int) == scan_pairs(s@, j as int),
            decreases s@.len() - j,
        {
            if s[j] == 101 {  // 'e'
                return Some(j + 1);
            }
            match scan_string_at(s, j) {
                Some(k) => match scan_value_at(s, k) {
                    Some(j2) => {
                        j = j2;
                    },
                    None => {
                        return None;
                    },
                },
                None => {
                    return None;
                },
            }
        }
        None
    } else {
        None
    }
}

/// Decides [`spec_scan`]: whether the whole input is one complete bencode
/// value that the external parser can be given.
pub fn scan_complete(s: &[u8]) -> (r: bool)
    ensures
        r == spec_scan(s@),
{
    match scan_value_at(s, 0) {
        Some(end) => end == s.len(),
        None => false,
    }
}

} // verus!
