//! Finding words in bytes of text: where a word stands, the pieces between the places
//! where it stands, lines, and text without the blanks around it.

use vstd::prelude::*;

verus! {

/// Whether `word` stands in `text` at index `i`.
pub open spec fn stands_at(text: Seq<u8>, word: Seq<u8>, i: int) -> bool {
    0 <= i && i + word.len() <= text.len() && text.subrange(i, i + word.len()) == word
}

/// The first index from `from` on at which `word` stands in `text`, or the length of
/// `text` if it stands nowhere from there on.
pub open spec fn first_at(text: Seq<u8>, word: Seq<u8>, from: int) -> int
    decreases text.len() - from,
{
    if from >= text.len() {
        text.len() as int
    } else if stands_at(text, word, from) {
        from
    } else {
        first_at(text, word, from + 1)
    }
}

/// Whether `word`, which is not empty, stands somewhere in `text`.
pub open spec fn holds_word(text: Seq<u8>, word: Seq<u8>) -> bool {
    first_at(text, word, 0) < text.len()
}

/// The pieces of `text` between the places where `word` stands, found from the
/// left without overlap: one more than there are such places.
pub open spec fn pieces(text: Seq<u8>, word: Seq<u8>) -> Seq<Seq<u8>>
    decreases text.len(),
{
    let i = first_at(text, word, 0);
    if word.len() == 0 || i >= text.len() {
        seq![text]
    } else {
        proof {
            lemma_first_at(text, word, 0);
        }
        seq![text.subrange(0, i)] + pieces(text.skip(i + word.len()), word)
    }
}

/// Whether `b` is a blank: a space, a tab, a line feed, a vertical tab, a form feed or
/// a carriage return.
pub open spec fn is_blank(b: u8) -> bool {
    b == 32 || (9 <= b <= 13)
}

/// The number of blanks at the front of `s`.
pub open spec fn blanks_front(s: Seq<u8>) -> int
    decreases s.len(),
{
    if s.len() > 0 && is_blank(s[0]) {
        1 + blanks_front(s.skip(1))
    } else {
        0
    }
}

/// The number of blanks at the back of `s`.
pub open spec fn blanks_back(s: Seq<u8>) -> int
    decreases s.len(),
{
    if s.len() > 0 && is_blank(s.last()) {
        1 + blanks_back(s.drop_last())
    } else {
        0
    }
}

/// `s` without the blanks at its front and at its back.
pub open spec fn trimmed(s: Seq<u8>) -> Seq<u8> {
    let front = blanks_front(s);
    let rest = s.skip(front);
    rest.take(rest.len() - blanks_back(rest))
}

/// `first_at` finds a place where the word stands, and none before it.
pub proof fn lemma_first_at(text: Seq<u8>, word: Seq<u8>, from: int)
    requires
        0 <= from <= text.len(),
    ensures
        from <= first_at(text, word, from) <= text.len(),
        first_at(text, word, from) < text.len() ==> stands_at(
            text,
            word,
            first_at(text, word, from),
        ),
        forall|k: int| from <= k < first_at(text, word, from) ==> !stands_at(text, word, k),
    decreases text.len() - from,
{
    if from < text.len() && !stands_at(text, word, from) {
        lemma_first_at(text, word, from + 1);
    }
}

/// Whether `word` stands in `text` at index `i`.
pub fn word_at(text: &[u8], word: &[u8], i: usize) -> (yes: bool)
    ensures
        yes == stands_at(text@, word@, i as int),
{
    if i > text.len() || word.len() > text.len() - i {
        return false;
    }
    let mut k: usize = 0;
    while k < word.len()
        invariant
            k <= word@.len(),
            i + word@.len() <= text@.len(),
            text@.len() <= usize::MAX,
            forall|j: int| 0 <= j < k ==> text@[i + j] == word@[j],
        decreases word.len() - k,
    {
        if text[i + k] != word[k] {
            assert(text@.subrange(i as int, i + word@.len())[k as int] != word@[k as int]);
            return false;
        }
        k += 1;
    }
    assert(text@.subrange(i as int, i + word@.len()) =~= word@);
    true
}

/// The first index from `from` on at which `word` stands in `text`, or the length of
/// `text` if it stands nowhere from there on.
pub fn find_word(text: &[u8], word: &[u8], from: usize) -> (at: usize)
    requires
        from <= text@.len(),
    ensures
        at == first_at(text@, word@, from as int),
{
    let mut i: usize = from;
    while i < text.len()
        invariant
            from <= i <= text@.len(),
            first_at(text@, word@, from as int) == first_at(text@, word@, i as int),
        decreases text.len() - i,
    {
        if word_at(text, word, i) {
            return i;
        }
        i += 1;
    }
    i
}

/// Whether `word` stands somewhere in `text`.
pub fn has_word(text: &[u8], word: &[u8]) -> (yes: bool)
    ensures
        yes == holds_word(text@, word@),
{
    find_word(text, word, 0) < text.len()
}

/// The pieces of `text` between the places where `word` stands.
pub fn split_on_word(text: &[u8], word: &[u8]) -> (out: Vec<Vec<u8>>)
    ensures
        crate::text::views(out@) == pieces(text@, word@),
        out@.len() >= 1,
{
    let mut out: Vec<Vec<u8>> = Vec::new();
    let mut from: usize = 0;
    assert(text@.skip(0) =~= text@);
    assert(crate::text::views(out@) =~= Seq::<Seq<u8>>::empty());
    loop
        invariant_except_break
            from <= text@.len(),
            pieces(text@, word@) == crate::text::views(out@) + pieces(
                text@.skip(from as int),
                word@,
            ),
        ensures
            crate::text::views(out@) == pieces(text@, word@),
            out@.len() >= 1,
        decreases text@.len() - from,
    {
        let rest = vstd::slice::slice_subrange(text, from, text.len());
        assert(rest@ =~= text@.skip(from as int));
        let at = find_word(rest, word, 0);
        let ghost before = out@;
        proof {
            lemma_first_at(rest@, word@, 0);
        }
        if word.len() == 0 || at >= rest.len() {
            out.push(vstd::slice::slice_to_vec(rest));
            assert(crate::text::views(out@) =~= crate::text::views(before) + seq![rest@]);
            break ;
        }
        let piece = vstd::slice::slice_subrange(rest, 0, at);
        out.push(vstd::slice::slice_to_vec(piece));
        proof {
            assert(crate::text::views(out@) =~= crate::text::views(before) + seq![
                rest@.subrange(0, at as int),
            ]);
            assert(rest@.skip(at + word@.len()) =~= text@.skip(from + at + word@.len()));
            assert(crate::text::views(before) + (seq![rest@.subrange(0, at as int)] + pieces(
                rest@.skip(at + word@.len()),
                word@,
            )) =~= crate::text::views(out@) + pieces(rest@.skip(at + word@.len()), word@));
        }
        from = from + at + word.len();
    }
    out
}

/// Whether `b` is a blank.
pub fn blank(b: u8) -> (yes: bool)
    ensures
        yes == is_blank(b),
{
    b == 32 || (9 <= b && b <= 13)
}

/// `s` without the blanks at its front and at its back.
pub fn trim(s: &[u8]) -> (out: &[u8])
    ensures
        out@ == trimmed(s@),
{
    let mut front: usize = 0;
    assert(s@.skip(0) =~= s@);
    while front < s.len() && blank(s[front])
        invariant
            front <= s@.len(),
            blanks_front(s@) == front + blanks_front(s@.skip(front as int)),
        decreases s.len() - front,
    {
        assert(s@.skip(front as int).skip(1) =~= s@.skip(front + 1));
        front += 1;
    }
    let rest = vstd::slice::slice_subrange(s, front, s.len());
    assert(rest@ =~= s@.skip(front as int));
    let mut back: usize = rest.len();
    assert(rest@.take(rest@.len() as int) =~= rest@);
    while back > 0 && blank(rest[back - 1])
        invariant
            back <= rest@.len(),
            blanks_back(rest@) == (rest@.len() - back) + blanks_back(rest@.take(back as int)),
        decreases back,
    {
        assert(rest@.take(back as int).drop_last() =~= rest@.take(back - 1));
        back -= 1;
    }
    vstd::slice::slice_subrange(rest, 0, back)
}

} // verus!
