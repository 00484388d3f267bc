//! Character-level text utilities shared by the quantity parser and the
//! recipe codec: whitespace trimming, digit-run scanning, and conversion
//! between strings and character vectors.

use vstd::prelude::*;
use vstd::string::StrSliceExecFns;
use crate::decimal::{is_digit_char, spec_char_digit, char_to_digit, all_digits};

verus! {

/// Unicode whitespace, the set that string trimming removes.
pub open spec fn is_space_char(c: char) -> bool {
    let u = c as u32;
    u == 0x9 || u == 0xA || u == 0xB || u == 0xC || u == 0xD || u == 0x20 || u == 0x85 || u
        == 0xA0 || u == 0x1680 || (0x2000 <= u && u <= 0x200A) || u == 0x2028 || u == 0x2029 || u
        == 0x202F || u == 0x205F || u == 0x3000
}

/// Whether a character is whitespace for trimming purposes.
pub fn is_space(c: char) -> (r: bool)
    ensures
        r == is_space_char(c),
{
    let u = c as u32;
    u == 0x9 || u == 0xA || u == 0xB || u == 0xC || u == 0xD || u == 0x20 || u == 0x85 || u
        == 0xA0 || u == 0x1680 || (0x2000 <= u && u <= 0x200A) || u == 0x2028 || u == 0x2029 || u
        == 0x202F || u == 0x205F || u == 0x3000
}

/// Index of the first non-space character at or after `i`.
pub open spec fn trim_start_idx(s: Seq<char>, i: int) -> int
    decreases s.len() - i,
    when 0 <= i <= s.len()
{
    if i < s.len() && is_space_char(s[i]) {
        trim_start_idx(s, i + 1)
    } else {
        i
    }
}

/// Exclusive end of the text once trailing spaces before `j` are dropped.
pub open spec fn trim_end_idx(s: Seq<char>, j: int) -> int
    decreases j,
    when 0 <= j <= s.len()
{
    if j > 0 && is_space_char(s[j - 1]) {
        trim_end_idx(s, j - 1)
    } else {
        j
    }
}

/// The text with leading and trailing whitespace removed.
pub open spec fn spec_trimmed(s: Seq<char>) -> Seq<char> {
    let a = trim_start_idx(s, 0);
    let b = trim_end_idx(s, s.len() as int);
    if b <= a {
        Seq::empty()
    } else {
        s.subrange(a, b)
    }
}

/// The characters of a string, in order.
pub fn str_to_chars(s: &str) -> (v: Vec<char>)
    ensures
        v@ == s@,
{
    let n = s.unicode_len();
    let mut v: Vec<char> = Vec::new();
    let mut i: usize = 0;
    while i < n
        invariant
            n == s@.len(),
            i <= n,
            v@ == s@.take(i as int),
        decreases n - i,
    {
        let c = s.get_char(i);
        v.push(c);
        proof {
            assert(s@.take(i + 1) =~= s@.take(i as int).push(s@[i as int]));
        }
        i = i + 1;
    }
    proof {
        assert(s@.take(n as int) =~= s@);
    }
    v
}

/// Relies on `String`'s `FromIterator` implementation: collecting a vector
/// of characters yields the string of exactly those characters.
#[verifier::external_body]
pub fn chars_to_string(v: &Vec<char>) -> (s: String)
    ensures
        s@ == v@,
{
    v.iter().collect()
}

/// A copy of the text with leading and trailing whitespace removed.
pub fn trimmed_chars(t: &Vec<char>) -> (r: Vec<char>)
    ensures
        r@ == spec_trimmed(t@),
{
    let n = t.len();
    let mut a: usize = 0;
    while a < n && is_space(t[a])
        invariant
            n == t@.len(),
            0 <= a <= n,
            trim_start_idx(t@, 0) == trim_start_idx(t@, a as int),
        decreases n - a,
    {
        a = a + 1;
    }
    let mut b: usize = n;
    while b > 0 && is_space(t[b - 1])
        invariant
            n == t@.len(),
            0 <= b <= n,
            trim_end_idx(t@, n as int) == trim_end_idx(t@, b as int),
        decreases b,
    {
        b = b - 1;
    }
    let mut r: Vec<char> = Vec::new();
    if a >= b {
        proof {
            assert(r@ =~= spec_trimmed(t@));
        }
        return r;
    }
    let mut i: usize = a;
    while i < b
        invariant
            n == t@.len(),
            a <= i <= b <= n,
            r@ == t@.subrange(a as int, i as int),
        decreases b - i,
    {
        r.push(t[i]);
        proof {
            assert(t@.subrange(a as int, i + 1) =~= t@.subrange(a as int, i as int).push(
                t@[i as int],
            ));
        }
        i = i + 1;
    }
    proof {
        assert(r@ =~= spec_trimmed(t@));
    }
    r
}

/// Text without whitespace trims to itself.
pub proof fn lemma_trimmed_identity(s: Seq<char>)
    requires
        forall|i: int| 0 <= i < s.len() ==> !is_space_char(#[trigger] s[i]),
    ensures
        spec_trimmed(s) == s,
{
    assert(trim_start_idx(s, 0) == 0);
    assert(trim_end_idx(s, s.len() as int) == s.len());
    if s.len() == 0 {
        assert(spec_trimmed(s) =~= s);
    } else {
        assert(s.subrange(0, s.len() as int) =~= s);
    }
}

/// Index of the first non-digit character at or after `i`.
pub open spec fn digit_run_end(s: Seq<char>, i: int) -> int
    decreases s.len() - i,
    when 0 <= i <= s.len()
{
    if i < s.len() && is_digit_char(s[i]) {
        digit_run_end(s, i + 1)
    } else {
        i
    }
}

pub proof fn lemma_digit_run_bounds(s: Seq<char>, i: int)
    requires
        0 <= i <= s.len(),
    ensures
        i <= digit_run_end(s, i) <= s.len(),
        digit_run_end(s, i) < s.len() ==> !is_digit_char(s[digit_run_end(s, i)]),
        forall|j: int| i <= j < digit_run_end(s, i) ==> is_digit_char(s[j]),
    decreases s.len() - i,
{
    if i < s.len() && is_digit_char(s[i]) {
        lemma_digit_run_bounds(s, i + 1);
    }
}

/// The digit values of the characters in `[i, j)`.
pub open spec fn digit_vals(s: Seq<char>, i: int, j: int) -> Seq<u8> {
    Seq::new(if j >= i { (j - i) as nat } else { 0 }, |m: int| spec_char_digit(s[i + m]))
}

/// Scan the digit run starting at `i`, appending its digit values.
pub fn scan_digit_run(t: &Vec<char>, i: usize, out: &mut Vec<u8>) -> (r: usize)
    requires
        i <= t@.len(),
    ensures
        r == digit_run_end(t@, i as int),
        i <= r <= t@.len(),
        final(out)@ == old(out)@ + digit_vals(t@, i as int, r as int),
        all_digits(digit_vals(t@, i as int, r as int)),
{
    proof {
        lemma_digit_run_bounds(t@, i as int);
    }
    let ghost end: int = digit_run_end(t@, i as int);
    let mut j: usize = i;
    loop
        invariant
            i <= j <= t@.len(),
            end == digit_run_end(t@, i as int),
            i <= end <= t@.len(),
            forall|m: int| i <= m < end ==> is_digit_char(t@[m]),
            end < t@.len() ==> !is_digit_char(t@[end]),
            forall|m: int| i <= m < j ==> is_digit_char(t@[m]),
            out@ == old(out)@ + digit_vals(t@, i as int, j as int),
        ensures
            j as int == end,
            out@ == old(out)@ + digit_vals(t@, i as int, j as int),
        decreases t@.len() - j,
    {
        if j == t.len() {
            proof {
                if end < j as int {
                    assert(is_digit_char(t@[end]));
                }
            }
            break;
        }
        let d_opt = char_to_digit(t[j]);
        match d_opt {
            None => {
                proof {
                    if end > j as int {
                        assert(is_digit_char(t@[j as int]));
                    }
                    if end < j as int {
                        assert(is_digit_char(t@[end]));
                    }
                }
                break;
            },
            Some(d) => {
                out.push(d);
                proof {
                    assert(digit_vals(t@, i as int, j + 1) =~= digit_vals(
                        t@,
                        i as int,
                        j as int,
                    ).push(spec_char_digit(t@[j as int])));
                }
                j = j + 1;
            },
        }
    }
    j
}

} // verus!
