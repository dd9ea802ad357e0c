//! Cutting text into pieces: fields between separators, words between
//! blanks, and chunks of two characters. The serialized state is read with
//! these.

use crate::notation::{digits_value, is_digit, is_number, lemma_digits_value_push, number_digits};
use vstd::prelude::*;
use vstd::string::*;

verus! {

/// The characters that count as blank: Unicode's white space.
pub open spec fn is_space(c: char) -> bool {
    let u = c as u32;
    ||| (0x09 <= u && u <= 0x0d)
    ||| u == 0x20
    ||| u == 0x85
    ||| u == 0xa0
    ||| u == 0x1680
    ||| (0x2000 <= u && u <= 0x200a)
    ||| u == 0x2028
    ||| u == 0x2029
    ||| u == 0x202f
    ||| u == 0x205f
    ||| u == 0x3000
}

/// The view of each text in a list.
pub open spec fn texts(list: Seq<String>) -> Seq<Seq<char>> {
    Seq::new(list.len(), |i: int| list[i]@)
}

/// The pieces of `s` between occurrences of `sep`. There is always one piece
/// more than there are separators.
pub open spec fn split(s: Seq<char>, sep: char) -> Seq<Seq<char>>
    decreases s.len(),
{
    if s.len() == 0 {
        seq![Seq::empty()]
    } else {
        let before = split(s.drop_last(), sep);
        if s.last() == sep {
            before.push(Seq::empty())
        } else {
            before.update(before.len() - 1, before.last().push(s.last()))
        }
    }
}

/// The words of `s`: its longest runs of characters that are not blank.
pub open spec fn words(s: Seq<char>) -> Seq<Seq<char>>
    decreases s.len(),
{
    if s.len() == 0 {
        Seq::empty()
    } else {
        let before = words(s.drop_last());
        if is_space(s.last()) {
            before
        } else if s.len() >= 2 && !is_space(s[s.len() - 2]) {
            before.update(before.len() - 1, before.last().push(s.last()))
        } else {
            before.push(seq![s.last()])
        }
    }
}

/// `s` without the blanks at its end.
pub open spec fn trim_end(s: Seq<char>) -> Seq<char>
    decreases s.len(),
{
    if s.len() > 0 && is_space(s.last()) {
        trim_end(s.drop_last())
    } else {
        s
    }
}

/// `s` without the blanks at its start.
pub open spec fn trim_start(s: Seq<char>) -> Seq<char>
    decreases s.len(),
{
    if s.len() > 0 && is_space(s[0]) {
        trim_start(s.drop_first())
    } else {
        s
    }
}

/// `s` without the blanks at its start and at its end.
pub open spec fn trimmed(s: Seq<char>) -> Seq<char> {
    trim_start(trim_end(s))
}

/// `s` cut into chunks of two characters; an odd last character is left out.
pub open spec fn pairs(s: Seq<char>) -> Seq<Seq<char>> {
    Seq::new(s.len() / 2, |i: int| s.subrange(2 * i, 2 * i + 2))
}

/// The number that `s` spells if it spells one that fits the machine's word,
/// and `fallback` otherwise.
pub open spec fn number_or(s: Seq<char>, fallback: usize) -> usize {
    if is_number(s) && digits_value(number_digits(s)) <= usize::MAX {
        digits_value(number_digits(s)) as usize
    } else {
        fallback
    }
}

/// Whether `s` begins with `prefix`.
pub open spec fn has_prefix(s: Seq<char>, prefix: Seq<char>) -> bool {
    prefix.len() <= s.len() && s.subrange(0, prefix.len() as int) == prefix
}

/// What follows the first `n` characters of `s`; nothing where `s` has no
/// more than `n`.
pub open spec fn rest(s: Seq<char>, n: nat) -> Seq<char> {
    if n <= s.len() {
        s.subrange(n as int, s.len() as int)
    } else {
        Seq::empty()
    }
}

/// `s` with every `k` written out as three zeros, so that `60k` reads
/// `60000`.
pub open spec fn thousands(s: Seq<char>) -> Seq<char>
    decreases s.len(),
{
    if s.len() == 0 {
        s
    } else if s.last() == 'k' {
        thousands(s.drop_last()).push('0').push('0').push('0')
    } else {
        thousands(s.drop_last()).push(s.last())
    }
}

/// Whether `c` is blank.
pub fn blank(c: char) -> (b: bool)
    ensures
        b == is_space(c),
{
    let u = c as u32;
    (0x09 <= u && u <= 0x0d) || u == 0x20 || u == 0x85 || u == 0xa0 || u == 0x1680 || (0x2000 <= u && u <= 0x200a)
        || u == 0x2028 || u == 0x2029 || u == 0x202f || u == 0x205f || u == 0x3000
}

/// Cuts `text` at every occurrence of `sep`.
pub fn split_text(text: &str, sep: char) -> (pieces: Vec<String>)
    ensures
        texts(pieces@) == split(text@, sep),
{
    let n = text.unicode_len();
    let mut done: Vec<String> = Vec::new();
    let mut current = String::new();
    let mut i: usize = 0;
    assert(text@.subrange(0, 0) =~= Seq::<char>::empty());
    assert(texts(done@).push(current@) =~= split(text@.subrange(0, 0), sep));
    while i < n
        invariant
            i <= n,
            n == text@.len(),
            texts(done@).push(current@) == split(text@.subrange(0, i as int), sep),
        decreases n - i,
    {
        let c = text.get_char(i);
        let ghost prefix = text@.subrange(0, i as int);
        let ghost next = text@.subrange(0, i + 1);
        let ghost before = texts(done@).push(current@);
        assert(next.drop_last() =~= prefix);
        if c == sep {
            done.push(current);
            current = String::new();
            assert(texts(done@).push(current@) =~= before.push(Seq::empty()));
        } else {
            current.push(c);
            assert(texts(done@).push(current@) =~= before.update(before.len() - 1, before.last().push(c)));
        }
        i = i + 1;
    }
    assert(text@.subrange(0, n as int) =~= text@);
    let ghost all = texts(done@).push(current@);
    done.push(current);
    assert(texts(done@) =~= all);
    done
}

/// Text that ends in a character that is not blank has a word.
proof fn lemma_words_nonempty(s: Seq<char>)
    requires
        s.len() > 0,
        !is_space(s.last()),
    ensures
        words(s).len() > 0,
    decreases s.len(),
{
    if s.len() >= 2 && !is_space(s[s.len() - 2]) {
        let t = s.drop_last();
        assert(t.last() == s[s.len() - 2]);
        lemma_words_nonempty(t);
    }
}

/// The words of `text`.
pub fn split_words(text: &str) -> (pieces: Vec<String>)
    ensures
        texts(pieces@) == words(text@),
{
    let n = text.unicode_len();
    let mut done: Vec<String> = Vec::new();
    let mut current = String::new();
    let mut i: usize = 0;
    assert(text@.subrange(0, 0) =~= Seq::<char>::empty());
    assert(texts(done@) =~= words(text@.subrange(0, 0)));
    while i < n
        invariant
            i <= n,
            n == text@.len(),
            current@.len() > 0 <==> (i > 0 && !is_space(text@[i - 1])),
            current@.len() > 0 ==> texts(done@).push(current@) == words(text@.subrange(0, i as int)),
            current@.len() == 0 ==> texts(done@) == words(text@.subrange(0, i as int)),
        decreases n - i,
    {
        let c = text.get_char(i);
        let ghost prefix = text@.subrange(0, i as int);
        let ghost next = text@.subrange(0, i + 1);
        let ghost before = words(prefix);
        assert(next.drop_last() =~= prefix);
        assert(next.last() == c);
        if i > 0 {
            assert(next[next.len() - 2] == text@[i - 1]);
        }
        if blank(c) {
            if current.unicode_len() > 0 {
                done.push(current);
                current = String::new();
                assert(texts(done@) =~= before);
            }
        } else {
            let ghost word = current@;
            current.push(c);
            proof {
                if word.len() > 0 {
                    lemma_words_nonempty(prefix);
                    assert(texts(done@).push(current@) =~= before.update(before.len() - 1, before.last().push(c)));
                } else {
                    assert(current@ =~= seq![c]);
                    assert(texts(done@).push(current@) =~= before.push(seq![c]));
                }
            }
        }
        i = i + 1;
    }
    assert(text@.subrange(0, n as int) =~= text@);
    if current.unicode_len() > 0 {
        let ghost all = texts(done@).push(current@);
        done.push(current);
        assert(texts(done@) =~= all);
    }
    done
}

/// Trimming the end cuts the text off behind its last character that is not
/// blank.
pub proof fn lemma_trim_end(s: Seq<char>, hi: int)
    requires
        0 <= hi <= s.len(),
        forall|j: int| hi <= j < s.len() ==> is_space(s[j]),
        hi > 0 ==> !is_space(s[hi - 1]),
    ensures
        trim_end(s) == s.subrange(0, hi),
    decreases s.len(),
{
    if s.len() > 0 && is_space(s.last()) {
        let t = s.drop_last();
        lemma_trim_end(t, hi);
        assert(t.subrange(0, hi) =~= s.subrange(0, hi));
    } else {
        assert(s.subrange(0, hi) =~= s);
    }
}

/// Trimming the start cuts the text off before its first character that is
/// not blank.
pub proof fn lemma_trim_start(s: Seq<char>, lo: int)
    requires
        0 <= lo <= s.len(),
        forall|j: int| 0 <= j < lo ==> is_space(s[j]),
        lo < s.len() ==> !is_space(s[lo]),
    ensures
        trim_start(s) == s.subrange(lo, s.len() as int),
    decreases s.len(),
{
    if s.len() > 0 && is_space(s[0]) {
        let t = s.drop_first();
        assert forall|j: int| 0 <= j < lo - 1 implies is_space(t[j]) by {
            assert(t[j] == s[j + 1]);
        }
        lemma_trim_start(t, lo - 1);
        assert(t.subrange(lo - 1, t.len() as int) =~= s.subrange(lo, s.len() as int));
    } else {
        assert(s.subrange(lo, s.len() as int) =~= s);
    }
}

/// `text` without the blanks at its start and at its end.
pub fn trim_text(text: &str) -> (inner: String)
    ensures
        inner@ == trimmed(text@),
{
    let n = text.unicode_len();
    let mut hi: usize = n;
    while hi > 0 && blank(text.get_char(hi - 1))
        invariant
            hi <= n,
            n == text@.len(),
            forall|j: int| hi <= j < n ==> is_space(text@[j]),
        decreases hi,
    {
        hi = hi - 1;
    }
    let mut lo: usize = 0;
    while lo < hi && blank(text.get_char(lo))
        invariant
            lo <= hi <= n,
            n == text@.len(),
            forall|j: int| 0 <= j < lo ==> is_space(text@[j]),
        decreases hi - lo,
    {
        lo = lo + 1;
    }
    proof {
        lemma_trim_end(text@, hi as int);
        let cut = text@.subrange(0, hi as int);
        assert forall|j: int| 0 <= j < lo implies is_space(cut[j]) by {
            assert(cut[j] == text@[j]);
        }
        lemma_trim_start(cut, lo as int);
        assert(cut.subrange(lo as int, hi as int) =~= text@.subrange(lo as int, hi as int));
    }
    let inner = text.substring_char(lo, hi);
    inner.to_owned()
}

/// `text` cut into chunks of two characters.
pub fn split_pairs(text: &str) -> (pieces: Vec<String>)
    ensures
        texts(pieces@) == pairs(text@),
{
    let n = text.unicode_len();
    let mut pieces: Vec<String> = Vec::new();
    let mut i: usize = 0;
    while n - i >= 2
        invariant
            n == text@.len(),
            i == 2 * pieces.len(),
            i <= n,
            forall|j: int| 0 <= j < pieces.len() ==> (#[trigger] pieces[j])@ == text@.subrange(2 * j, 2 * j + 2),
        decreases n - i,
    {
        let piece = text.substring_char(i, i + 2);
        pieces.push(piece.to_owned());
        i = i + 2;
    }
    assert(texts(pieces@) =~= pairs(text@));
    pieces
}

/// Reads a number: digits after an optional plus sign. Gives `fallback` when
/// `text` spells no number or one too large for the machine's word.
pub fn read_number_or(text: &str, fallback: usize) -> (value: usize)
    ensures
        value == number_or(text@, fallback),
{
    let n = text.unicode_len();
    let start: usize = if n > 0 && text.get_char(0) == '+' { 1 } else { 0 };
    let ghost digits = number_digits(text@);
    assert(digits =~= text@.subrange(start as int, n as int));
    if start >= n {
        return fallback;
    }
    let mut acc: usize = 0;
    let mut i: usize = start;
    assert(text@.subrange(start as int, start as int) =~= Seq::<char>::empty());
    while i < n
        invariant
            start <= i <= n,
            n == text@.len(),
            digits == text@.subrange(start as int, n as int),
            digits == number_digits(text@),
            forall|j: int| start <= j < i ==> is_digit(#[trigger] text@[j]),
            acc == digits_value(text@.subrange(start as int, i as int)),
        decreases n - i,
    {
        let c = text.get_char(i);
        if !('0' <= c && c <= '9') {
            assert(digits[i - start] == c);
            return fallback;
        }
        let d: usize = (c as u8 - 48u8) as usize;
        proof {
            lemma_digits_value_push(text@.subrange(start as int, i as int), c);
            assert(text@.subrange(start as int, i as int).push(c) =~= text@.subrange(start as int, i + 1));
        }
        if acc > (usize::MAX - d) / 10 {
            proof {
                lemma_digits_grow(text@, start as int, i + 1, n as int);
                assert(text@.subrange(start as int, n as int) =~= digits);
            }
            return fallback;
        }
        acc = acc * 10 + d;
        i = i + 1;
    }
    assert forall|j: int| 0 <= j < digits.len() implies is_digit(#[trigger] digits[j]) by {
        assert(digits[j] == text@[j + start]);
    }
    acc
}

/// Whether `text` begins with `prefix`.
pub fn starts_with(text: &str, prefix: &str) -> (found: bool)
    ensures
        found == has_prefix(text@, prefix@),
{
    let n = prefix.unicode_len();
    if text.unicode_len() < n {
        return false;
    }
    let mut i: usize = 0;
    while i < n
        invariant
            i <= n,
            n == prefix@.len(),
            n <= text@.len(),
            forall|j: int| 0 <= j < i ==> text@[j] == prefix@[j],
        decreases n - i,
    {
        if text.get_char(i) != prefix.get_char(i) {
            assert(text@.subrange(0, n as int)[i as int] != prefix@[i as int]);
            return false;
        }
        i = i + 1;
    }
    assert(text@.subrange(0, n as int) =~= prefix@);
    true
}

/// What follows the first `n` characters of `text`.
pub fn rest_of(text: &str, n: usize) -> (tail: String)
    ensures
        tail@ == rest(text@, n as nat),
{
    let len = text.unicode_len();
    let mut tail = String::new();
    if n > len {
        return tail;
    }
    let mut i: usize = n;
    while i < len
        invariant
            n <= i <= len,
            len == text@.len(),
            tail@ == text@.subrange(n as int, i as int),
        decreases len - i,
    {
        tail.push(text.get_char(i));
        assert(tail@ =~= text@.subrange(n as int, i + 1));
        i = i + 1;
    }
    tail
}

/// `text` with every `k` written out as three zeros.
pub fn write_thousands(text: &str) -> (written: String)
    ensures
        written@ == thousands(text@),
{
    let n = text.unicode_len();
    let mut written = String::new();
    let mut i: usize = 0;
    assert(text@.subrange(0, 0) =~= Seq::<char>::empty());
    while i < n
        invariant
            i <= n,
            n == text@.len(),
            written@ == thousands(text@.subrange(0, i as int)),
        decreases n - i,
    {
        let c = text.get_char(i);
        assert(text@.subrange(0, i + 1).drop_last() =~= text@.subrange(0, i as int));
        if c == 'k' {
            written.push('0');
            written.push('0');
            written.push('0');
        } else {
            written.push(c);
        }
        i = i + 1;
    }
    assert(text@.subrange(0, n as int) =~= text@);
    written
}

/// More digits never spell a smaller number.
proof fn lemma_digits_grow(s: Seq<char>, from: int, mid: int, to: int)
    requires
        0 <= from <= mid <= to <= s.len(),
    ensures
        digits_value(s.subrange(from, mid)) <= digits_value(s.subrange(from, to)),
    decreases to - mid,
{
    if mid < to {
        lemma_digits_grow(s, from, mid, to - 1);
        lemma_digits_value_push(s.subrange(from, to - 1), s[to - 1]);
        assert(s.subrange(from, to - 1).push(s[to - 1]) =~= s.subrange(from, to));
    }
}

} // verus!
