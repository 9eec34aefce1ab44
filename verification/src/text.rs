//! Character-level scanning shared by the number parser and the line
//! classifier.

use vstd::prelude::*;

verus! {

/// Whether `c` is one of the five ASCII whitespace characters: space, tab,
/// line feed, form feed or carriage return.
pub open spec fn is_blank(c: char) -> bool {
    c == ' ' || c == '\t' || c == '\n' || c == '\x0C' || c == '\r'
}

/// Whether `c` is one of the ten ASCII decimal digits.
pub open spec fn is_digit(c: char) -> bool {
    '0' <= c && c <= '9'
}

/// A set of characters that a scan can run over.
#[derive(Clone, Copy, Debug)]
pub enum Class {
    /// ASCII whitespace.
    Blank,
    /// Everything but ASCII whitespace.
    Solid,
    /// ASCII decimal digits.
    Digit,
    /// Everything but the given character.
    Except(char),
}

impl Class {
    /// Whether `c` belongs to the class.
    pub open spec fn has(self, c: char) -> bool {
        match self {
            Class::Blank => is_blank(c),
            Class::Solid => !is_blank(c),
            Class::Digit => is_digit(c),
            Class::Except(stop) => c != stop,
        }
    }

    /// Whether `c` belongs to the class.
    pub fn admits(self, c: char) -> (b: bool)
        ensures
            b == self.has(c),
    {
        match self {
            Class::Blank => c == ' ' || c == '\t' || c == '\n' || c == '\x0C' || c == '\r',
            Class::Solid => !(c == ' ' || c == '\t' || c == '\n' || c == '\x0C' || c == '\r'),
            Class::Digit => '0' <= c && c <= '9',
            Class::Except(stop) => c != stop,
        }
    }
}

/// The length of the longest prefix of `s` made of characters of `class`.
pub open spec fn run(s: Seq<char>, class: Class) -> int
    decreases s.len(),
{
    if s.len() > 0 && class.has(s[0]) {
        1 + run(s.skip(1), class)
    } else {
        0
    }
}

/// A run ends where the sequence ends or at the first character outside the
/// class, and everything before that point is inside the class.
pub proof fn lemma_run_bounds(s: Seq<char>, class: Class)
    ensures
        0 <= run(s, class) <= s.len(),
        forall|i: int| 0 <= i < run(s, class) ==> class.has(#[trigger] s[i]),
        run(s, class) < s.len() ==> !class.has(s[run(s, class)]),
    decreases s.len(),
{
    if s.len() > 0 && class.has(s[0]) {
        let rest = s.skip(1);
        lemma_run_bounds(rest, class);
        assert forall|i: int| 0 <= i < run(s, class) implies class.has(#[trigger] s[i]) by {
            if i > 0 {
                assert(s[i] == rest[i - 1]);
            }
        }
        if run(s, class) < s.len() {
            assert(s[run(s, class)] == rest[run(rest, class)]);
        }
    }
}

/// A position `k` is the run's length as soon as everything before `k` is in
/// the class and `k` is the end of `s` or holds a character outside it.
pub proof fn lemma_run_is(s: Seq<char>, class: Class, k: int)
    requires
        0 <= k <= s.len(),
        forall|i: int| 0 <= i < k ==> class.has(#[trigger] s[i]),
        k < s.len() ==> !class.has(s[k]),
    ensures
        run(s, class) == k,
    decreases k,
{
    if k > 0 {
        let rest = s.skip(1);
        assert(class.has(s[0]));
        assert forall|i: int| 0 <= i < k - 1 implies class.has(#[trigger] rest[i]) by {
            assert(rest[i] == s[i + 1]);
        }
        if k < s.len() {
            assert(rest[k - 1] == s[k]);
        }
        lemma_run_is(rest, class, k - 1);
    }
}

/// The characters of `text`, in order.
pub fn chars_of(text: &str) -> (chars: Vec<char>)
    ensures
        chars@ == text@,
{
    let mut chars: Vec<char> = Vec::new();
    for c in it: text.chars()
        invariant
            it.seq() == text@,
            chars@ == it.seq().take(it.index()),
    {
        chars.push(c);
    }
    chars
}

/// Where the run of `class` that starts at `from` ends, looking no further
/// than `to`.
pub fn scan(chars: &Vec<char>, from: usize, to: usize, class: Class) -> (stop: usize)
    requires
        from <= to <= chars@.len(),
    ensures
        stop == from + run(chars@.subrange(from as int, to as int), class),
        from <= stop <= to,
{
    let mut i: usize = from;
    while i < to && class.admits(chars[i])
        invariant
            from <= i <= to <= chars@.len(),
            forall|j: int| from <= j < i ==> class.has(#[trigger] chars@[j]),
        decreases to - i,
    {
        i += 1;
    }
    proof {
        let part = chars@.subrange(from as int, to as int);
        assert forall|j: int| 0 <= j < i - from implies class.has(#[trigger] part[j]) by {
            assert(part[j] == chars@[from + j]);
        }
        lemma_run_is(part, class, i - from);
    }
    i
}

/// Whether the characters from `from` up to `to` spell `word`.
pub fn spells(chars: &Vec<char>, from: usize, to: usize, word: &Vec<char>) -> (same: bool)
    requires
        from <= to <= chars@.len(),
    ensures
        same == (chars@.subrange(from as int, to as int) == word@),
{
    if to - from != word.len() {
        return false;
    }
    let ghost part = chars@.subrange(from as int, to as int);
    let mut i: usize = 0;
    while i < word.len()
        invariant
            from <= to <= chars@.len(),
            to - from == word@.len(),
            part == chars@.subrange(from as int, to as int),
            i <= word@.len(),
            forall|j: int| 0 <= j < i ==> part[j] == word@[j],
        decreases word@.len() - i,
    {
        if chars[from + i] != word[i] {
            assert(part[i as int] != word@[i as int]);
            return false;
        }
        i += 1;
    }
    assert(part =~= word@);
    true
}

} // verus!
