//! The character cursor over the input, and the character-level helpers that
//! the tag reader and the node builder share.
use vstd::prelude::*;
use vstd::std_specs::iter::IteratorSpec;

verus! {

/// The whitespace of the markup grammar: space, tab, line feed, carriage return.
pub open spec fn is_ws(c: char) -> bool {
    c == ' ' || c == '\t' || c == '\n' || c == '\r'
}

/// The least index `i >= from` with `s[i] == c`, or `s.len()` if there is none.
pub open spec fn find_char(s: Seq<char>, from: int, c: char) -> int
    decreases s.len() - from,
{
    if from < 0 || from >= s.len() {
        s.len() as int
    } else if s[from] == c {
        from
    } else {
        find_char(s, from + 1, c)
    }
}

/// The least index `i >= from` whose character is not whitespace, or `s.len()`.
pub open spec fn skip_ws(s: Seq<char>, from: int) -> int
    decreases s.len() - from,
{
    if from < 0 || from >= s.len() {
        s.len() as int
    } else if !is_ws(s[from]) {
        from
    } else {
        skip_ws(s, from + 1)
    }
}

/// The least index `i >= from` whose character is whitespace, or `s.len()`.
pub open spec fn find_ws(s: Seq<char>, from: int) -> int
    decreases s.len() - from,
{
    if from < 0 || from >= s.len() {
        s.len() as int
    } else if is_ws(s[from]) {
        from
    } else {
        find_ws(s, from + 1)
    }
}

/// The greatest `j <= to` with `j == 0` or `s[j - 1]` not whitespace.
pub open spec fn trim_end_at(s: Seq<char>, to: int) -> int
    decreases to,
{
    if to <= 0 {
        0
    } else if !is_ws(s[to - 1]) {
        to
    } else {
        trim_end_at(s, to - 1)
    }
}

/// `s` without leading and trailing whitespace.
pub open spec fn trim(s: Seq<char>) -> Seq<char> {
    let a = skip_ws(s, 0);
    let b = trim_end_at(s, s.len() as int);
    if a < b {
        s.subrange(a, b)
    } else {
        Seq::empty()
    }
}

pub proof fn lemma_find_char(s: Seq<char>, from: int, c: char)
    requires
        0 <= from <= s.len(),
    ensures
        from <= find_char(s, from, c) <= s.len(),
        find_char(s, from, c) < s.len() ==> s[find_char(s, from, c)] == c,
        forall|k: int| from <= k < find_char(s, from, c) ==> s[k] != c,
    decreases s.len() - from,
{
    if from < s.len() && s[from] != c {
        lemma_find_char(s, from + 1, c);
    }
}

pub proof fn lemma_skip_ws(s: Seq<char>, from: int)
    requires
        0 <= from <= s.len(),
    ensures
        from <= skip_ws(s, from) <= s.len(),
        skip_ws(s, from) < s.len() ==> !is_ws(s[skip_ws(s, from)]),
        forall|k: int| from <= k < skip_ws(s, from) ==> is_ws(s[k]),
    decreases s.len() - from,
{
    if from < s.len() && is_ws(s[from]) {
        lemma_skip_ws(s, from + 1);
    }
}

pub proof fn lemma_find_ws(s: Seq<char>, from: int)
    requires
        0 <= from <= s.len(),
    ensures
        from <= find_ws(s, from) <= s.len(),
        find_ws(s, from) < s.len() ==> is_ws(s[find_ws(s, from)]),
        forall|k: int| from <= k < find_ws(s, from) ==> !is_ws(s[k]),
    decreases s.len() - from,
{
    if from < s.len() && !is_ws(s[from]) {
        lemma_find_ws(s, from + 1);
    }
}

pub proof fn lemma_trim_end_at(s: Seq<char>, to: int)
    requires
        0 <= to <= s.len(),
    ensures
        0 <= trim_end_at(s, to) <= to,
        trim_end_at(s, to) > 0 ==> !is_ws(s[trim_end_at(s, to) - 1]),
        forall|k: int| trim_end_at(s, to) <= k < to ==> is_ws(s[k]),
    decreases to,
{
    if to > 0 && is_ws(s[to - 1]) {
        lemma_trim_end_at(s, to - 1);
    }
}

/// Whether `c` is whitespace of the markup grammar.
pub fn is_space(c: char) -> (r: bool)
    ensures
        r == is_ws(c),
{
    c == ' ' || c == '\t' || c == '\n' || c == '\r'
}

/// The characters of `s` in order.
pub(crate) fn chars_of(s: &str) -> (r: Vec<char>)
    ensures
        r@ == s@,
{
    broadcast use vstd::string::axiom_spec_iter, vstd::string::next_postcondition;

    let mut it = s.chars();
    let mut r: Vec<char> = Vec::new();
    loop
        invariant
            r@ + it.remaining() == s@,
            it.decrease() is Some,
        decreases it.decrease()->0,
    {
        match it.next() {
            Some(c) => {
                r.push(c);
                assert(r@ + it.remaining() =~= s@);
            },
            None => {
                assert(r@ =~= s@);
                return r;
            },
        }
    }
}

/// Relies on `String::push`: appends one character.
#[verifier::external_body]
pub(crate) fn push_char(s: &mut String, c: char)
    ensures
        final(s)@ == old(s)@.push(c),
{
    s.push(c)
}

/// The characters `v[from..to]` as a `String`.
pub fn string_of(v: &Vec<char>, from: usize, to: usize) -> (r: String)
    requires
        from <= to <= v@.len(),
    ensures
        r@ == v@.subrange(from as int, to as int),
{
    let mut r = String::new();
    let mut i: usize = from;
    while i < to
        invariant
            from <= i <= to <= v@.len(),
            r@ == v@.subrange(from as int, i as int),
        decreases to - i,
    {
        push_char(&mut r, v[i]);
        i = i + 1;
        assert(r@ =~= v@.subrange(from as int, i as int));
    }
    r
}

/// A cursor over the characters of a document. Its position only moves
/// forward; peeking or advancing at the end yields `None`.
pub struct Scanner {
    pub(crate) chars: Vec<char>,
    pub(crate) pos: usize,
}

impl Scanner {
    /// The characters the scanner runs over.
    pub closed spec fn input(&self) -> Seq<char> {
        self.chars@
    }

    /// The index of the next character.
    pub closed spec fn position(&self) -> int {
        self.pos as int
    }

    pub open spec fn wf(&self) -> bool {
        self.position() <= self.input().len()
    }

    /// A scanner at the start of `text`.
    pub fn new(text: &str) -> (r: Scanner)
        ensures
            r.wf(),
            r.input() == text@,
            r.position() == 0,
    {
        Scanner { chars: chars_of(text), pos: 0 }
    }

    /// Whether every character has been consumed.
    pub fn at_end(&self) -> (r: bool)
        requires
            self.wf(),
        ensures
            r == (self.position() >= self.input().len()),
    {
        self.pos >= self.chars.len()
    }

    /// The next character, not consumed; `None` at the end of input.
    pub fn peek(&self) -> (r: Option<char>)
        requires
            self.wf(),
        ensures
            self.position() < self.input().len() ==> r == Some(self.input()[self.position()]),
            self.position() >= self.input().len() ==> r is None,
    {
        if self.pos < self.chars.len() {
            Some(self.chars[self.pos])
        } else {
            None
        }
    }

    /// The index of the next character.
    pub fn offset(&self) -> (r: usize)
        ensures
            r as int == self.position(),
    {
        self.pos
    }

    /// The characters the scanner runs over.
    pub fn chars(&self) -> (r: &Vec<char>)
        ensures
            r@ == self.input(),
    {
        &self.chars
    }

    /// Moves forward to index `to`.
    pub fn skip_to(&mut self, to: usize)
        requires
            old(self).position() <= to <= old(self).input().len(),
        ensures
            final(self).wf(),
            final(self).input() == old(self).input(),
            final(self).position() == to,
    {
        self.pos = to;
    }

    /// Consumes and returns the next character; `None` at the end of input.
    pub fn advance(&mut self) -> (r: Option<char>)
        requires
            old(self).wf(),
        ensures
            final(self).wf(),
            final(self).input() == old(self).input(),
            old(self).position() < old(self).input().len() ==> r == Some(
                old(self).input()[old(self).position()],
            ) && final(self).position() == old(self).position() + 1,
            old(self).position() >= old(self).input().len() ==> r is None && final(self).position()
                == old(self).position(),
    {
        if self.pos < self.chars.len() {
            let c = self.chars[self.pos];
            self.pos = self.pos + 1;
            Some(c)
        } else {
            None
        }
    }
}

} // verus!
