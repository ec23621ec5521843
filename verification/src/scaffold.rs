//! Names of the folders that hold a day's work: `day01`, `day02`, and so on.

use crate::text::{all_digits, parse_usize, unsigned_of, value_of};
use regex::Regex;
use vstd::prelude::*;

verus! {

/// Whether the regex crate accepts `pattern` as a regular expression within its
/// default size limit.
pub uninterp spec fn regex_compiles(pattern: Seq<char>) -> bool;

/// Whether the regular expression `pattern`, as the regex crate reads it, matches
/// anywhere in `haystack`.
pub uninterp spec fn regex_finds(pattern: Seq<char>, haystack: Seq<char>) -> bool;

/// Compiles `pattern` with `regex::Regex::new` and asks `regex::Regex::is_match`
/// whether it matches anywhere in `haystack`. Nothing is proved of either: the result
/// is `None` exactly where the crate refuses the pattern, and otherwise what the crate
/// finds, which depends on the pattern and the haystack alone.
#[verifier::external_body]
fn find_pattern(pattern: &str, haystack: &str) -> (found: Option<bool>)
    ensures
        found is Some <==> regex_compiles(pattern@),
        found matches Some(b) ==> b == regex_finds(pattern@, haystack@),
{
    match Regex::new(pattern) {
        Ok(re) => Some(re.is_match(haystack)),
        Err(_) => None,
    }
}

/// Whether `folder_name` looks like a day's folder: somewhere in it stand the letters
/// `day` and two digits.
pub fn is_day_folder(folder_name: &str) -> (found: bool)
    ensures
        found == (regex_compiles("day\\d\\d"@) && regex_finds("day\\d\\d"@, folder_name@)),
{
    match find_pattern("day\\d\\d", folder_name) {
        Some(found) => found,
        None => false,
    }
}

/// `s` without the letters `day` at its front, however often they stand there.
pub open spec fn without_day(s: Seq<u8>) -> Seq<u8>
    decreases s.len(),
{
    if s.len() >= 3 && s[0] == 100 && s[1] == 97 && s[2] == 121 {
        without_day(s.skip(3))
    } else {
        s
    }
}

/// The decimal digits of `n`, without leading zeros.
pub open spec fn decimal(n: nat) -> Seq<u8>
    decreases n,
{
    if n < 10 {
        seq![(48 + n) as u8]
    } else {
        decimal(n / 10).push((48 + n % 10) as u8)
    }
}

/// The name of the folder for day `n`: `day` and the number, with a leading zero
/// below ten.
pub open spec fn day_name(n: nat) -> Seq<u8> {
    if n < 10 {
        seq![100u8, 97u8, 121u8, 48u8] + decimal(n)
    } else {
        seq![100u8, 97u8, 121u8] + decimal(n)
    }
}

/// The digits of a number write that number.
pub proof fn lemma_decimal_reads_back(n: nat)
    ensures
        decimal(n).len() >= 1,
        all_digits(decimal(n)),
        value_of(decimal(n)) == n,
    decreases n,
{
    if n < 10 {
        assert(decimal(n).drop_last() =~= Seq::<u8>::empty());
        assert(value_of(decimal(n).drop_last()) == 0);
    } else {
        lemma_decimal_reads_back(n / 10);
        assert(decimal(n).drop_last() =~= decimal(n / 10));
    }
}

/// The number in a folder's name: what follows the letters `day`, read as a number.
/// There is none where something else follows.
pub fn day_number(name: &[u8]) -> (number: Option<usize>)
    ensures
        number == (match unsigned_of(without_day(name@)) {
            Some(v) => if v <= usize::MAX {
                Some(v as usize)
            } else {
                None
            },
            None => None,
        }),
{
    let mut from: usize = 0;
    assert(name@.skip(0) =~= name@);
    while name.len() - from >= 3 && name[from] == 100 && name[from + 1] == 97 && name[from + 2]
        == 121
        invariant
            from <= name@.len(),
            without_day(name@) == without_day(name@.skip(from as int)),
        decreases name.len() - from,
    {
        assert(name@.skip(from as int).skip(3) =~= name@.skip(from + 3));
        from += 3;
    }
    let rest = vstd::slice::slice_subrange(name, from, name.len());
    assert(rest@ =~= name@.skip(from as int));
    parse_usize(rest)
}

/// Adds the decimal digits of `n` to `out`.
pub fn push_decimal(out: &mut Vec<u8>, n: usize)
    ensures
        final(out)@ == old(out)@ + decimal(n as nat),
    decreases n,
{
    if n >= 10 {
        push_decimal(out, n / 10);
    }
    out.push(48 + (n % 10) as u8);
    assert(out@ =~= old(out)@ + decimal(n as nat));
}

/// The name of the folder for the day after day `last_day`.
pub fn new_day_name(last_day: usize) -> (name: Vec<u8>)
    requires
        last_day < usize::MAX,
    ensures
        name@ == day_name((last_day + 1) as nat),
{
    let n = last_day + 1;
    let mut name: Vec<u8> = Vec::new();
    name.push(100);
    name.push(97);
    name.push(121);
    if n < 10 {
        name.push(48);
    }
    push_decimal(&mut name, n);
    assert(name@ =~= day_name(n as nat));
    name
}

} // verus!
