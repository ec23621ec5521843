//! Reading decimal numbers and separated fields from bytes of text.

use vstd::prelude::*;

verus! {

/// Whether `b` is one of the characters `0` to `9`.
pub open spec fn is_digit(b: u8) -> bool {
    48 <= b <= 57
}

/// Whether `s` holds decimal digits only.
pub open spec fn all_digits(s: Seq<u8>) -> bool {
    forall|i: int| 0 <= i < s.len() ==> is_digit(#[trigger] s[i])
}

/// The number that the decimal digits `s` write.
pub open spec fn value_of(s: Seq<u8>) -> nat
    decreases s.len(),
{
    if s.len() == 0 {
        0
    } else {
        value_of(s.drop_last()) * 10 + (s.last() - 48) as nat
    }
}

/// The number that `s` writes without a sign or with `+`, if it writes one: at least
/// one digit, and nothing else.
pub open spec fn unsigned_of(s: Seq<u8>) -> Option<nat> {
    let digits = if s.len() > 0 && s[0] == 43 {
        s.skip(1)
    } else {
        s
    };
    if digits.len() > 0 && all_digits(digits) {
        Some(value_of(digits))
    } else {
        None
    }
}

/// The number that `s` writes with `-`, with `+` or without a sign, if it writes one.
pub open spec fn signed_of(s: Seq<u8>) -> Option<int> {
    if s.len() > 0 && s[0] == 45 {
        if s.len() > 1 && all_digits(s.skip(1)) {
            Some(-(value_of(s.skip(1)) as int))
        } else {
            None
        }
    } else {
        match unsigned_of(s) {
            Some(v) => Some(v as int),
            None => None,
        }
    }
}

/// The fields of `s` between the separators `sep`: one more than there are
/// separators, each possibly empty.
pub open spec fn fields(s: Seq<u8>, sep: u8) -> Seq<Seq<u8>>
    decreases s.len(),
{
    if s.len() == 0 {
        seq![Seq::empty()]
    } else {
        let before = fields(s.drop_last(), sep);
        if s.last() == sep {
            before.push(Seq::empty())
        } else {
            before.drop_last().push(before.last().push(s.last()))
        }
    }
}

/// What each vector of `v` holds.
pub open spec fn views(v: Seq<Vec<u8>>) -> Seq<Seq<u8>> {
    Seq::new(v.len(), |i: int| v[i]@)
}

/// There is always at least one field.
pub proof fn lemma_fields_nonempty(s: Seq<u8>, sep: u8)
    ensures
        fields(s, sep).len() >= 1,
    decreases s.len(),
{
    if s.len() > 0 {
        lemma_fields_nonempty(s.drop_last(), sep);
    }
}

/// The digits read so far write no more than all the digits do.
pub proof fn lemma_value_of_take(s: Seq<u8>, i: int)
    requires
        0 <= i <= s.len(),
    ensures
        value_of(s.take(i)) <= value_of(s),
        i < s.len() ==> value_of(s.take(i + 1)) == value_of(s.take(i)) * 10 + (s[i] - 48) as nat,
    decreases s.len() - i,
{
    if i < s.len() {
        assert(s.take(i + 1).drop_last() =~= s.take(i));
        lemma_value_of_take(s, i + 1);
    } else {
        assert(s.take(i) =~= s);
    }
}

/// Whether `b` is one of the characters `0` to `9`.
pub fn digit(b: u8) -> (yes: bool)
    ensures
        yes == is_digit(b),
{
    48 <= b && b <= 57
}

/// Reads the digits of `s` from index `from` on as a number, or as its negative if
/// `negative`. There is none where `s` has nothing from `from` on, holds anything but
/// digits there, or writes a number that does not fit the machine's word.
fn read_digits(s: &[u8], from: usize, negative: bool) -> (out: Option<isize>)
    requires
        from <= s@.len(),
    ensures
        out == (if s@.len() > from && all_digits(s@.skip(from as int)) {
            let v = if negative {
                -(value_of(s@.skip(from as int)) as int)
            } else {
                value_of(s@.skip(from as int)) as int
            };
            if isize::MIN <= v <= isize::MAX {
                Some(v as isize)
            } else {
                None
            }
        } else {
            None
        }),
{
    if from >= s.len() {
        return None;
    }
    let ghost digits = s@.skip(from as int);
    let mut acc: isize = 0;
    let mut i: usize = from;
    while i < s.len()
        invariant
            from <= i <= s@.len(),
            digits == s@.skip(from as int),
            all_digits(digits.take(i - from)),
            acc == (if negative {
                -(value_of(digits.take(i - from)) as int)
            } else {
                value_of(digits.take(i - from)) as int
            }),
        decreases s.len() - i,
    {
        let b = s[i];
        assert(digits[i - from] == b);
        if !digit(b) {
            return None;
        }
        proof {
            lemma_value_of_take(digits, i - from);
            lemma_value_of_take(digits, i - from + 1);
            assert forall|k: int| 0 <= k < i - from + 1 implies is_digit(
                #[trigger] digits.take(i - from + 1)[k],
            ) by {
                if k < i - from {
                    assert(is_digit(digits.take(i - from)[k]));
                }
            }
        }
        let d: isize = (b - 48) as isize;
        let next = match acc.checked_mul(10) {
            Some(t) => if negative {
                t.checked_sub(d)
            } else {
                t.checked_add(d)
            },
            None => None,
        };
        match next {
            Some(n) => {
                acc = n;
            },
            None => {
                proof {
                    lemma_value_of_take(digits, i - from + 1);
                }
                return None;
            },
        }
        i += 1;
    }
    assert(digits.take(s@.len() - from) =~= digits);
    Some(acc)
}

/// Reads `s` as a number without a sign or with `+`, as the machine's unsigned word
/// holds it. There is none where `s` does not write a number, or one too large.
pub fn parse_usize(s: &[u8]) -> (out: Option<usize>)
    ensures
        out == (match unsigned_of(s@) {
            Some(v) => if v <= usize::MAX {
                Some(v as usize)
            } else {
                None
            },
            None => None,
        }),
{
    let from: usize = if s.len() > 0 && s[0] == 43 {
        1
    } else {
        0
    };
    if from >= s.len() {
        return None;
    }
    let ghost digits = s@.skip(from as int);
    assert(digits == (if s@.len() > 0 && s@[0] == 43 {
        s@.skip(1)
    } else {
        s@
    })) by {
        assert(s@.skip(0) =~= s@);
    }
    let mut acc: usize = 0;
    let mut i: usize = from;
    while i < s.len()
        invariant
            from <= i <= s@.len(),
            digits == s@.skip(from as int),
            digits == (if s@.len() > 0 && s@[0] == 43 {
                s@.skip(1)
            } else {
                s@
            }),
            all_digits(digits.take(i - from)),
            acc == value_of(digits.take(i - from)),
        decreases s.len() - i,
    {
        let b = s[i];
        assert(digits[i - from] == b);
        if !digit(b) {
            return None;
        }
        proof {
            lemma_value_of_take(digits, i - from);
            lemma_value_of_take(digits, i - from + 1);
            assert forall|k: int| 0 <= k < i - from + 1 implies is_digit(
                #[trigger] digits.take(i - from + 1)[k],
            ) by {
                if k < i - from {
                    assert(is_digit(digits.take(i - from)[k]));
                }
            }
        }
        let d: usize = (b - 48) as usize;
        let next = match acc.checked_mul(10) {
            Some(t) => t.checked_add(d),
            None => None,
        };
        match next {
            Some(n) => {
                acc = n;
            },
            None => {
                return None;
            },
        }
        i += 1;
    }
    assert(digits.take(s@.len() - from) =~= digits);
    Some(acc)
}

/// Reads `s` as a number with `-`, with `+` or without a sign, as the machine's
/// signed word holds it. There is none where `s` does not write a number, or one too
/// large or too small.
pub fn parse_isize(s: &[u8]) -> (out: Option<isize>)
    ensures
        out == (match signed_of(s@) {
            Some(v) => if isize::MIN <= v <= isize::MAX {
                Some(v as isize)
            } else {
                None
            },
            None => None,
        }),
{
    if s.len() > 0 && s[0] == 45 {
        read_digits(s, 1, true)
    } else if s.len() > 0 && s[0] == 43 {
        read_digits(s, 1, false)
    } else {
        assert(s@.skip(0) =~= s@);
        read_digits(s, 0, false)
    }
}

/// The fields of `s` between the separators `sep`.
pub fn split_fields(s: &[u8], sep: u8) -> (out: Vec<Vec<u8>>)
    ensures
        views(out@) == fields(s@, sep),
        out@.len() >= 1,
{
    let mut done: Vec<Vec<u8>> = Vec::new();
    let mut current: Vec<u8> = Vec::new();
    let mut i: usize = 0;
    assert(s@.take(0) =~= Seq::<u8>::empty());
    assert(views(done@).push(current@) =~= seq![Seq::<u8>::empty()]);
    while i < s.len()
        invariant
            i <= s@.len(),
            views(done@).push(current@) == fields(s@.take(i as int), sep),
        decreases s.len() - i,
    {
        let b = s[i];
        let ghost before = fields(s@.take(i as int), sep);
        let ghost old_done = done@;
        let ghost old_current = current@;
        proof {
            assert(s@.take(i + 1).drop_last() =~= s@.take(i as int));
            assert(before.drop_last() =~= views(old_done));
            assert(before.last() == old_current);
        }
        if b == sep {
            done.push(current);
            current = Vec::new();
            proof {
                assert(views(done@) =~= views(old_done).push(old_current));
            }
        } else {
            current.push(b);
        }
        i += 1;
    }
    assert(s@.take(s.len() as int) =~= s@);
    let ghost all = views(done@).push(current@);
    let ghost kept = done@;
    done.push(current);
    assert(views(done@) =~= all);
    done
}

/// Whether every field writes a number that the machine's unsigned word holds.
pub open spec fn all_unsigned(fs: Seq<Seq<u8>>) -> bool {
    forall|i: int|
        0 <= i < fs.len() ==> (#[trigger] unsigned_of(fs[i])) is Some && unsigned_of(fs[i])->0
            <= usize::MAX
}

/// The numbers that the fields write.
pub open spec fn unsigned_values(fs: Seq<Seq<u8>>) -> Seq<usize> {
    Seq::new(fs.len(), |i: int| unsigned_of(fs[i])->0 as usize)
}

/// Whether every field writes a number that the machine's signed word holds.
pub open spec fn all_signed(fs: Seq<Seq<u8>>) -> bool {
    forall|i: int|
        0 <= i < fs.len() ==> (#[trigger] signed_of(fs[i])) is Some && isize::MIN <= signed_of(
            fs[i],
        )->0 <= isize::MAX
}

/// The numbers that the fields write.
pub open spec fn signed_values(fs: Seq<Seq<u8>>) -> Seq<isize> {
    Seq::new(fs.len(), |i: int| signed_of(fs[i])->0 as isize)
}

/// Reads the fields of `s` between the separators `sep` as unsigned numbers. There is
/// no list where a field does not write such a number.
pub fn parse_usize_list(s: &[u8], sep: u8) -> (out: Option<Vec<usize>>)
    ensures
        out is Some <==> all_unsigned(fields(s@, sep)),
        out matches Some(v) ==> v@ == unsigned_values(fields(s@, sep)),
{
    let parts = split_fields(s, sep);
    let ghost fs = fields(s@, sep);
    let mut out: Vec<usize> = Vec::new();
    let mut i: usize = 0;
    while i < parts.len()
        invariant
            i <= parts@.len(),
            views(parts@) == fs,
            fs == fields(s@, sep),
            out@.len() == i,
            forall|k: int|
                0 <= k < i ==> (#[trigger] unsigned_of(fs[k])) is Some && unsigned_of(fs[k])->0
                    <= usize::MAX && out@[k] == unsigned_of(fs[k])->0,
        decreases parts.len() - i,
    {
        assert(views(parts@).len() == parts@.len());
        assert(views(parts@)[i as int] == parts@[i as int]@);
        match parse_usize(parts[i].as_slice()) {
            Some(v) => {
                out.push(v);
            },
            None => {
                assert(!((unsigned_of(fs[i as int])) is Some && unsigned_of(fs[i as int])->0
                    <= usize::MAX));
                return None;
            },
        }
        i += 1;
    }
    assert(views(parts@).len() == parts@.len());
    assert(out@ =~= unsigned_values(fs));
    Some(out)
}

/// Reads the fields of `s` between the separators `sep` as signed numbers. There is
/// no list where a field does not write such a number.
pub fn parse_isize_list(s: &[u8], sep: u8) -> (out: Option<Vec<isize>>)
    ensures
        out is Some <==> all_signed(fields(s@, sep)),
        out matches Some(v) ==> v@ == signed_values(fields(s@, sep)),
{
    let parts = split_fields(s, sep);
    let ghost fs = fields(s@, sep);
    let mut out: Vec<isize> = Vec::new();
    let mut i: usize = 0;
    while i < parts.len()
        invariant
            i <= parts@.len(),
            views(parts@) == fs,
            fs == fields(s@, sep),
            out@.len() == i,
            forall|k: int|
                0 <= k < i ==> (#[trigger] signed_of(fs[k])) is Some && isize::MIN <= signed_of(
                    fs[k],
                )->0 <= isize::MAX && out@[k] == signed_of(fs[k])->0,
        decreases parts.len() - i,
    {
        assert(views(parts@).len() == parts@.len());
        assert(views(parts@)[i as int] == parts@[i as int]@);
        match parse_isize(parts[i].as_slice()) {
            Some(v) => {
                out.push(v);
            },
            None => {
                assert(!((signed_of(fs[i as int])) is Some && isize::MIN <= signed_of(
                    fs[i as int],
                )->0 <= isize::MAX));
                return None;
            },
        }
        i += 1;
    }
    assert(views(parts@).len() == parts@.len());
    assert(out@ =~= signed_values(fs));
    Some(out)
}

} // verus!
