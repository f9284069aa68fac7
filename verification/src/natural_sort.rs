//! A "natural" total comparator on strings: maximal runs of ASCII decimal
//! digits are compared by their numeric value, other characters by code
//! point; a digit run sorts below any non-digit character. When the walk
//! finds no difference (including when one string is exhausted), plain
//! lexicographic comparison of the full strings decides.

use vstd::prelude::*;

verus! {

use core::cmp::Ordering;
use crate::util::{str_to_chars, subchars};

/// An ASCII decimal digit.
pub open spec fn is_digit_char(c: char) -> bool {
    ('0' as u32) <= (c as u32) && (c as u32) <= ('9' as u32)
}

/// The numeric value of one digit.
pub open spec fn digit_val(c: char) -> nat
    recommends
        is_digit_char(c),
{
    ((c as u32) - ('0' as u32)) as nat
}

/// The number written by a run of decimal digits, most significant first.
pub open spec fn digits_to_nat(s: Seq<char>) -> nat
    decreases s.len(),
{
    if s.len() == 0 {
        0
    } else {
        digits_to_nat(s.drop_last()) * 10 + digit_val(s.last())
    }
}

/// The first index at or after `i` that does not hold a digit.
pub open spec fn digit_run_end(s: Seq<char>, i: int) -> int
    decreases s.len() - i,
{
    if i >= s.len() {
        i
    } else if is_digit_char(s[i]) {
        digit_run_end(s, i + 1)
    } else {
        i
    }
}

pub proof fn lemma_digit_run_end(s: Seq<char>, i: int)
    ensures
        digit_run_end(s, i) >= i,
        i < s.len() && is_digit_char(s[i]) ==> digit_run_end(s, i) >= i + 1,
        i <= s.len() ==> digit_run_end(s, i) <= s.len(),
        forall|k: int| i <= k < digit_run_end(s, i) ==> is_digit_char(s[k]),
        digit_run_end(s, i) < s.len() ==> !is_digit_char(s[digit_run_end(s, i)]),
    decreases s.len() - i,
{
    if i >= s.len() {
    } else if is_digit_char(s[i]) {
        lemma_digit_run_end(s, i + 1);
    }
}

/// One step of the lock-step walk, starting at positions `i` in `a` and `j`
/// in `b`. `None` means the walk found no difference before one side ended.
pub open spec fn cmp_chars_spec(a: Seq<char>, b: Seq<char>, i: int, j: int) -> Option<Ordering>
    decreases a.len() - i,
        via cmp_chars_spec_dec
{
    if i >= a.len() || j >= b.len() {
        None
    } else if is_digit_char(a[i]) && is_digit_char(b[j]) {
        let na = digits_to_nat(a.subrange(i, digit_run_end(a, i)));
        let nb = digits_to_nat(b.subrange(j, digit_run_end(b, j)));
        if na < nb {
            Some(Ordering::Less)
        } else if na > nb {
            Some(Ordering::Greater)
        } else {
            cmp_chars_spec(a, b, digit_run_end(a, i), digit_run_end(b, j))
        }
    } else if is_digit_char(a[i]) {
        Some(Ordering::Less)
    } else if is_digit_char(b[j]) {
        Some(Ordering::Greater)
    } else if a[i] != b[j] {
        if (a[i] as u32) < (b[j] as u32) {
            Some(Ordering::Less)
        } else {
            Some(Ordering::Greater)
        }
    } else {
        cmp_chars_spec(a, b, i + 1, j + 1)
    }
}

#[via_fn]
proof fn cmp_chars_spec_dec(a: Seq<char>, b: Seq<char>, i: int, j: int) {
    lemma_digit_run_end(a, i);
}

/// Plain lexicographic order by code point, the shorter string first when one
/// is a prefix of the other.
pub open spec fn lex_cmp(a: Seq<char>, b: Seq<char>, i: int) -> Ordering
    decreases a.len() - i,
{
    if i >= a.len() && i >= b.len() {
        Ordering::Equal
    } else if i >= a.len() {
        Ordering::Less
    } else if i >= b.len() {
        Ordering::Greater
    } else if (a[i] as u32) < (b[i] as u32) {
        Ordering::Less
    } else if (a[i] as u32) > (b[i] as u32) {
        Ordering::Greater
    } else {
        lex_cmp(a, b, i + 1)
    }
}

/// The natural order: the lock-step walk decides where it finds a
/// difference; otherwise plain lexicographic order decides.
pub open spec fn spec_compare(a: Seq<char>, b: Seq<char>) -> Ordering {
    match cmp_chars_spec(a, b, 0, 0) {
        Some(o) => o,
        None => lex_cmp(a, b, 0),
    }
}

/// The opposite of an ordering.
pub open spec fn reverse_ord(o: Ordering) -> Ordering {
    match o {
        Ordering::Less => Ordering::Greater,
        Ordering::Equal => Ordering::Equal,
        Ordering::Greater => Ordering::Less,
    }
}

proof fn lemma_cmp_chars_self(a: Seq<char>, i: int)
    ensures
        cmp_chars_spec(a, a, i, i) == None::<Ordering>,
    decreases a.len() - i,
{
    if i >= a.len() {
    } else if is_digit_char(a[i]) {
        lemma_digit_run_end(a, i);
        lemma_cmp_chars_self(a, digit_run_end(a, i));
    } else {
        lemma_cmp_chars_self(a, i + 1);
    }
}

pub proof fn lemma_lex_self(a: Seq<char>, i: int)
    ensures
        lex_cmp(a, a, i) == Ordering::Equal,
    decreases a.len() - i,
{
    if i < a.len() {
        lemma_lex_self(a, i + 1);
    }
}

/// The comparator never distinguishes a string from itself.
pub proof fn lemma_natural_compare_reflexive(a: Seq<char>)
    ensures
        spec_compare(a, a) == Ordering::Equal,
{
    lemma_cmp_chars_self(a, 0);
    lemma_lex_self(a, 0);
}

proof fn lemma_cmp_chars_antisym(a: Seq<char>, b: Seq<char>, i: int, j: int)
    requires
        0 <= i,
        0 <= j,
    ensures
        cmp_chars_spec(b, a, j, i) == match cmp_chars_spec(a, b, i, j) {
            Some(o) => Some(reverse_ord(o)),
            None => None::<Ordering>,
        },
    decreases a.len() - i,
{
    if i >= a.len() || j >= b.len() {
    } else if is_digit_char(a[i]) && is_digit_char(b[j]) {
        lemma_digit_run_end(a, i);
        lemma_digit_run_end(b, j);
        let na = digits_to_nat(a.subrange(i, digit_run_end(a, i)));
        let nb = digits_to_nat(b.subrange(j, digit_run_end(b, j)));
        if na == nb {
            lemma_cmp_chars_antisym(a, b, digit_run_end(a, i), digit_run_end(b, j));
        }
    } else if !is_digit_char(a[i]) && !is_digit_char(b[j]) {
        vstd::utf8::char_u32_cast(a[i], a[i] as u32);
        vstd::utf8::char_u32_cast(b[j], b[j] as u32);
        if a[i] == b[j] {
            lemma_cmp_chars_antisym(a, b, i + 1, j + 1);
        }
    }
}

pub proof fn lemma_lex_antisym(a: Seq<char>, b: Seq<char>, i: int)
    requires
        0 <= i,
    ensures
        lex_cmp(b, a, i) == reverse_ord(lex_cmp(a, b, i)),
    decreases a.len() - i,
{
    if i < a.len() && i < b.len() {
        vstd::utf8::char_u32_cast(a[i], a[i] as u32);
        vstd::utf8::char_u32_cast(b[i], b[i] as u32);
        if (a[i] as u32) == (b[i] as u32) {
            lemma_lex_antisym(a, b, i + 1);
        }
    }
}

/// The plain lexicographic order is transitive.
pub proof fn lemma_lex_trans(a: Seq<char>, b: Seq<char>, c: Seq<char>, i: int)
    requires
        0 <= i,
        lex_cmp(a, b, i) == Ordering::Less,
        lex_cmp(b, c, i) == Ordering::Less,
    ensures
        lex_cmp(a, c, i) == Ordering::Less,
    decreases a.len() - i,
{
    if i < a.len() && i < b.len() && i < c.len() && (a[i] as u32) == (b[i] as u32) && (b[i] as u32)
        == (c[i] as u32) {
        lemma_lex_trans(a, b, c, i + 1);
    }
}

/// Two strings that the plain lexicographic order ties are equal.
pub proof fn lemma_lex_equal_is_identity(a: Seq<char>, b: Seq<char>)
    requires
        lex_cmp(a, b, 0) == Ordering::Equal,
    ensures
        a == b,
{
    lemma_lex_equal(a, b, 0);
    assert(a =~= b);
}

/// Swapping the arguments reverses the comparison.
pub proof fn lemma_natural_compare_antisymmetric(a: Seq<char>, b: Seq<char>)
    ensures
        spec_compare(b, a) == reverse_ord(spec_compare(a, b)),
{
    lemma_cmp_chars_antisym(a, b, 0, 0);
    lemma_lex_antisym(a, b, 0);
}

proof fn lemma_cmp_chars_no_equal(a: Seq<char>, b: Seq<char>, i: int, j: int)
    requires
        0 <= i,
        0 <= j,
    ensures
        cmp_chars_spec(a, b, i, j) != Some(Ordering::Equal),
    decreases a.len() - i,
{
    if i >= a.len() || j >= b.len() {
    } else if is_digit_char(a[i]) && is_digit_char(b[j]) {
        lemma_digit_run_end(a, i);
        lemma_digit_run_end(b, j);
        let na = digits_to_nat(a.subrange(i, digit_run_end(a, i)));
        let nb = digits_to_nat(b.subrange(j, digit_run_end(b, j)));
        if na == nb {
            lemma_cmp_chars_no_equal(a, b, digit_run_end(a, i), digit_run_end(b, j));
        }
    } else if !is_digit_char(a[i]) && !is_digit_char(b[j]) && a[i] == b[j] {
        lemma_cmp_chars_no_equal(a, b, i + 1, j + 1);
    }
}

proof fn lemma_lex_equal(a: Seq<char>, b: Seq<char>, i: int)
    requires
        0 <= i <= a.len(),
        0 <= i <= b.len(),
        lex_cmp(a, b, i) == Ordering::Equal,
    ensures
        a.len() == b.len(),
        forall|k: int| i <= k < a.len() ==> a[k] == b[k],
    decreases a.len() - i,
{
    if i < a.len() && i < b.len() {
        vstd::utf8::char_u32_cast(a[i], a[i] as u32);
        vstd::utf8::char_u32_cast(b[i], b[i] as u32);
        if (a[i] as u32) == (b[i] as u32) {
            lemma_lex_equal(a, b, i + 1);
        }
    }
}

/// Only a string and itself compare as equal: the comparator is
/// antisymmetric in the order-theoretic sense.
pub proof fn lemma_natural_compare_equal_is_identity(a: Seq<char>, b: Seq<char>)
    requires
        spec_compare(a, b) == Ordering::Equal,
    ensures
        a == b,
{
    lemma_cmp_chars_no_equal(a, b, 0, 0);
    lemma_lex_equal(a, b, 0);
    assert(a =~= b);
}

/// A string without any ASCII decimal digit.
pub open spec fn digit_free(s: Seq<char>) -> bool {
    forall|i: int| 0 <= i < s.len() ==> !is_digit_char(#[trigger] s[i])
}

proof fn lemma_lex_skip_from(a: Seq<char>, b: Seq<char>, j: int, i: int)
    requires
        0 <= j <= i <= a.len(),
        i <= b.len(),
        forall|k: int| 0 <= k < i ==> a[k] == b[k],
    ensures
        lex_cmp(a, b, j) == lex_cmp(a, b, i),
    decreases i - j,
{
    if j < i {
        lemma_lex_skip_from(a, b, j + 1, i);
    }
}

proof fn lemma_cmp_chars_digit_free(a: Seq<char>, b: Seq<char>, i: int)
    requires
        digit_free(a),
        digit_free(b),
        0 <= i <= a.len(),
        i <= b.len(),
        forall|k: int| 0 <= k < i ==> a[k] == b[k],
    ensures
        match cmp_chars_spec(a, b, i, i) {
            Some(o) => o == lex_cmp(a, b, 0),
            None => true,
        },
    decreases a.len() - i,
{
    if i >= a.len() || i >= b.len() {
    } else {
        vstd::utf8::char_u32_cast(a[i], a[i] as u32);
        vstd::utf8::char_u32_cast(b[i], b[i] as u32);
        if a[i] != b[i] {
            lemma_lex_skip_from(a, b, 0, i);
        } else {
            lemma_cmp_chars_digit_free(a, b, i + 1);
        }
    }
}

/// Law (the comparator on digit-free strings): where neither string holds
/// a digit, the natural order is exactly the plain lexicographic order.
/// On such strings it is therefore a total order. With digit runs it is
/// not: leading zeros make two distinct runs carry one number, and the
/// lexicographic tie-break then disagrees with the numeric walk.
pub proof fn lemma_compare_digit_free(a: Seq<char>, b: Seq<char>)
    requires
        digit_free(a),
        digit_free(b),
    ensures
        spec_compare(a, b) == lex_cmp(a, b, 0),
{
    lemma_cmp_chars_digit_free(a, b, 0);
}

/// Law (transitivity on digit-free strings): on strings without digits
/// the comparator is transitive.
pub proof fn lemma_compare_trans_digit_free(a: Seq<char>, b: Seq<char>, c: Seq<char>)
    requires
        digit_free(a),
        digit_free(b),
        digit_free(c),
        spec_compare(a, b) == Ordering::Less,
        spec_compare(b, c) == Ordering::Less,
    ensures
        spec_compare(a, c) == Ordering::Less,
{
    lemma_compare_digit_free(a, b);
    lemma_compare_digit_free(b, c);
    lemma_compare_digit_free(a, c);
    lemma_lex_trans(a, b, c, 0);
}

/// Relies on num_bigint::BigUint::parse_bytes (radix 10) and on
/// BigUint's Ord::cmp: a non-empty run of ASCII decimal digits parses to
/// the number it writes, and cmp orders the parsed numbers numerically.
#[verifier::external_body]
fn cmp_digits(a: &Vec<char>, b: &Vec<char>) -> (r: Ordering)
    requires
        a@.len() > 0,
        b@.len() > 0,
        forall|k: int| 0 <= k < a@.len() ==> is_digit_char(a@[k]),
        forall|k: int| 0 <= k < b@.len() ==> is_digit_char(b@[k]),
    ensures
        r == Ordering::Less <==> digits_to_nat(a@) < digits_to_nat(b@),
        r == Ordering::Greater <==> digits_to_nat(a@) > digits_to_nat(b@),
{
    let sa: String = a.iter().collect();
    let sb: String = b.iter().collect();
    let na = num_bigint::BigUint::parse_bytes(sa.as_bytes(), 10).unwrap();
    let nb = num_bigint::BigUint::parse_bytes(sb.as_bytes(), 10).unwrap();
    na.cmp(&nb)
}

fn is_digit_exec(c: char) -> (r: bool)
    ensures
        r == is_digit_char(c),
{
    ('0' as u32) <= (c as u32) && (c as u32) <= ('9' as u32)
}

/// Tell whether a character is an ASCII decimal digit.
pub fn is_digit(c: &char) -> (r: bool)
    ensures
        r == is_digit_char(*c),
{
    is_digit_exec(*c)
}

/// Map a digit character to its value; any other character is refused.
pub fn char_to_digit(c: &char) -> (r: Result<u32, ()>)
    ensures
        is_digit_char(*c) ==> r == Ok::<u32, ()>(digit_val(*c) as u32),
        !is_digit_char(*c) ==> r == Err::<u32, ()>(()),
{
    match *c {
        '0' => Ok(0),
        '1' => Ok(1),
        '2' => Ok(2),
        '3' => Ok(3),
        '4' => Ok(4),
        '5' => Ok(5),
        '6' => Ok(6),
        '7' => Ok(7),
        '8' => Ok(8),
        '9' => Ok(9),
        _ => Err(()),
    }
}

/// The lock-step walk over two character vectors; `Err` means it found no
/// difference before one side was exhausted.
pub fn compare_chars(a: &Vec<char>, b: &Vec<char>) -> (r: Result<Ordering, ()>)
    ensures
        match cmp_chars_spec(a@, b@, 0, 0) {
            Some(o) => r == Ok::<Ordering, ()>(o),
            None => r == Err::<Ordering, ()>(()),
        },
{
    let mut i: usize = 0;
    let mut j: usize = 0;
    loop
        invariant
            i <= a@.len(),
            j <= b@.len(),
            cmp_chars_spec(a@, b@, 0, 0) == cmp_chars_spec(a@, b@, i as int, j as int),
        decreases a@.len() - i,
    {
        if i >= a.len() || j >= b.len() {
            return Err(());
        }
        let x = a[i];
        let y = b[j];
        if is_digit(&x) && is_digit(&y) {
            proof {
                lemma_digit_run_end(a@, i as int);
                lemma_digit_run_end(b@, j as int);
            }
            let ie = scan_digits(a, i);
            let je = scan_digits(b, j);
            let ra = subchars(a, i, ie);
            let rb = subchars(b, j, je);
            match cmp_digits(&ra, &rb) {
                Ordering::Less => {
                    return Ok(Ordering::Less);
                },
                Ordering::Greater => {
                    return Ok(Ordering::Greater);
                },
                Ordering::Equal => {
                    i = ie;
                    j = je;
                },
            }
        } else if is_digit(&x) {
            return Ok(Ordering::Less);
        } else if is_digit(&y) {
            return Ok(Ordering::Greater);
        } else if x != y {
            if (x as u32) < (y as u32) {
                return Ok(Ordering::Less);
            } else {
                return Ok(Ordering::Greater);
            }
        } else {
            i = i + 1;
            j = j + 1;
        }
    }
}

/// Find the end of the digit run that starts at `i`.
fn scan_digits(v: &Vec<char>, i: usize) -> (r: usize)
    requires
        i <= v@.len(),
    ensures
        r == digit_run_end(v@, i as int),
        i <= r <= v@.len(),
{
    let mut k: usize = i;
    while k < v.len() && is_digit_exec(v[k])
        invariant
            i <= k <= v@.len(),
            digit_run_end(v@, i as int) == digit_run_end(v@, k as int),
        decreases v@.len() - k,
    {
        k = k + 1;
    }
    proof {
        lemma_digit_run_end(v@, k as int);
    }
    k
}

fn lex_compare(a: &Vec<char>, b: &Vec<char>) -> (r: Ordering)
    ensures
        r == lex_cmp(a@, b@, 0),
{
    let mut i: usize = 0;
    loop
        invariant
            i <= a@.len(),
            i <= b@.len(),
            lex_cmp(a@, b@, 0) == lex_cmp(a@, b@, i as int),
        decreases a@.len() - i,
    {
        if i >= a.len() && i >= b.len() {
            return Ordering::Equal;
        } else if i >= a.len() {
            return Ordering::Less;
        } else if i >= b.len() {
            return Ordering::Greater;
        } else if (a[i] as u32) < (b[i] as u32) {
            return Ordering::Less;
        } else if (a[i] as u32) > (b[i] as u32) {
            return Ordering::Greater;
        } else {
            i = i + 1;
        }
    }
}

/// Compare two strings in plain lexicographic order by code point.
pub fn compare_lex(s1: &str, s2: &str) -> (r: Ordering)
    ensures
        r == lex_cmp(s1@, s2@, 0),
{
    let a = str_to_chars(s1);
    let b = str_to_chars(s2);
    lex_compare(&a, &b)
}

/// Compare two strings in the natural order.
pub fn compare(s1: &str, s2: &str) -> (r: Ordering)
    ensures
        r == spec_compare(s1@, s2@),
{
    let a = str_to_chars(s1);
    let b = str_to_chars(s2);
    match compare_chars(&a, &b) {
        Ok(o) => o,
        Err(_) => lex_compare(&a, &b),
    }
}

} // verus!
