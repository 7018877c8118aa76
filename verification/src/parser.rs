//! The character-scanning primitive shared by the grammar parsers: position
//! tracking, character classification, and consume-while scanning over a
//! vector of characters.

use vstd::prelude::*;
use crate::chars::push_char;

verus! {

/// A class of characters that a scan can consume.
#[derive(Clone, Copy, Debug)]
pub enum CharClass {
    /// Unicode whitespace characters.
    Space,
    /// Identifier characters of the style grammar: ASCII letters, digits,
    /// `-` and `_`.
    Ident,
    /// Characters of a numeric literal: ASCII digits and `.`.
    Number,
    /// ASCII digits.
    Digit,
    /// Characters of a markup tag name: ASCII letters and digits.
    TagName,
    /// Every character that is not Unicode whitespace.
    NotSpace,
    /// Every character except the given one.
    NotChar(char),
}

/// The Unicode `White_Space` characters, the set recognized by
/// `char::is_whitespace`.
pub open spec fn is_space_char(c: char) -> bool {
    let u = c as u32;
    u == 0x09 || u == 0x0A || u == 0x0B || u == 0x0C || u == 0x0D || u == 0x20 || u == 0x85
        || u == 0xA0 || u == 0x1680 || (0x2000 <= u && u <= 0x200A) || u == 0x2028 || u == 0x2029
        || u == 0x202F || u == 0x205F || u == 0x3000
}

/// ASCII letters, digits, `-` and `_`.
pub open spec fn is_ident_char(c: char) -> bool {
    let u = c as u32;
    (0x61 <= u && u <= 0x7A) || (0x41 <= u && u <= 0x5A) || (0x30 <= u && u <= 0x39) || u == 0x2D
        || u == 0x5F
}

/// ASCII digits.
pub open spec fn is_digit_char(c: char) -> bool {
    let u = c as u32;
    0x30 <= u && u <= 0x39
}

/// ASCII letters and digits.
pub open spec fn is_tag_name_char(c: char) -> bool {
    let u = c as u32;
    (0x61 <= u && u <= 0x7A) || (0x41 <= u && u <= 0x5A) || (0x30 <= u && u <= 0x39)
}

/// Membership of a character in a character class.
pub open spec fn char_in_class(cls: CharClass, c: char) -> bool {
    match cls {
        CharClass::Space => is_space_char(c),
        CharClass::Ident => is_ident_char(c),
        CharClass::Number => is_digit_char(c) || c == '.',
        CharClass::Digit => is_digit_char(c),
        CharClass::TagName => is_tag_name_char(c),
        CharClass::NotSpace => !is_space_char(c),
        CharClass::NotChar(stop) => c != stop,
    }
}

/// Executable membership test, equal to [`char_in_class`].
pub fn class_check(cls: CharClass, c: char) -> (r: bool)
    ensures
        r == char_in_class(cls, c),
{
    let u = c as u32;
    match cls {
        CharClass::Space => u == 0x09 || u == 0x0A || u == 0x0B || u == 0x0C || u == 0x0D || u
            == 0x20 || u == 0x85 || u == 0xA0 || u == 0x1680 || (0x2000 <= u && u <= 0x200A) || u
            == 0x2028 || u == 0x2029 || u == 0x202F || u == 0x205F || u == 0x3000,
        CharClass::Ident => (0x61 <= u && u <= 0x7A) || (0x41 <= u && u <= 0x5A) || (0x30 <= u && u
            <= 0x39) || u == 0x2D || u == 0x5F,
        CharClass::Number => (0x30 <= u && u <= 0x39) || c == '.',
        CharClass::Digit => 0x30 <= u && u <= 0x39,
        CharClass::TagName => (0x61 <= u && u <= 0x7A) || (0x41 <= u && u <= 0x5A) || (0x30 <= u
            && u <= 0x39),
        CharClass::NotSpace => !(u == 0x09 || u == 0x0A || u == 0x0B || u == 0x0C || u == 0x0D || u
            == 0x20 || u == 0x85 || u == 0xA0 || u == 0x1680 || (0x2000 <= u && u <= 0x200A) || u
            == 0x2028 || u == 0x2029 || u == 0x202F || u == 0x205F || u == 0x3000),
        CharClass::NotChar(stop) => c != stop,
    }
}

/// The position where a scan for the given class ends, starting at `from`
/// inside the given characters.
pub fn scan_class(v: &Vec<char>, from: usize, cls: CharClass) -> (e: usize)
    requires
        from <= v@.len(),
    ensures
        e as int == scan_end(v@, from as int, cls),
        from <= e <= v@.len(),
{
    proof {
        lemma_scan_end(v@, from as int, cls);
    }
    let mut i: usize = from;
    loop
        invariant
            from <= i <= v@.len(),
            scan_end(v@, i as int, cls) == scan_end(v@, from as int, cls),
        ensures
            i as int == scan_end(v@, from as int, cls),
            from <= i <= v@.len(),
        decreases v@.len() - i,
    {
        if i >= v.len() {
            break;
        }
        if !class_check(cls, v[i]) {
            break;
        }
        i = i + 1;
    }
    i
}

/// The first position at or after `p` whose character falls outside `cls`
/// (or the end of the sequence).
pub open spec fn scan_end(s: Seq<char>, p: int, cls: CharClass) -> int
    decreases s.len() - p,
{
    if p < 0 || p >= s.len() {
        p
    } else if char_in_class(cls, s[p]) {
        scan_end(s, p + 1, cls)
    } else {
        p
    }
}

/// Bounds and characterization of [`scan_end`]: the scan stays within the
/// sequence, every character it passes over is in the class, and it stops
/// either at the end or at the first character outside the class.
pub proof fn lemma_scan_end(s: Seq<char>, p: int, cls: CharClass)
    requires
        0 <= p <= s.len(),
    ensures
        p <= scan_end(s, p, cls) <= s.len(),
        forall|j: int| p <= j < scan_end(s, p, cls) ==> char_in_class(cls, s[j]),
        scan_end(s, p, cls) < s.len() ==> !char_in_class(cls, s[scan_end(s, p, cls)]),
    decreases s.len() - p,
{
    if p < s.len() && char_in_class(cls, s[p]) {
        lemma_scan_end(s, p + 1, cls);
    }
}

/// `s` starts at position `p` with the pattern `pat`.
pub open spec fn seq_starts_with(s: Seq<char>, p: int, pat: Seq<char>) -> bool {
    p + pat.len() <= s.len() && s.subrange(p, p + pat.len()) == pat
}

/// A character scanner: a current position inside an immutable sequence of
/// input characters. The scanning operations are provided for every
/// implementor in terms of the three position accessors.
pub trait Parser: Sized {
    /// The input characters being scanned.
    spec fn spec_input(&self) -> Seq<char>;

    /// The current position, as an index into the input characters.
    spec fn spec_pos(&self) -> int;

    /// Returns the current position of the parser.
    fn current_position(&self) -> (p: usize)
        ensures
            p as int == self.spec_pos(),
    ;

    /// Returns the input being parsed.
    fn input(&self) -> (s: &Vec<char>)
        ensures
            s@ == self.spec_input(),
    ;

    /// Sets the current position of the parser.
    fn set_current_position(&mut self, position: usize)
        ensures
            final(self).spec_pos() == position as int,
            final(self).spec_input() == old(self).spec_input(),
    ;

    /// Returns true if the current position is at or past the end of the
    /// input.
    fn eof(&self) -> (r: bool)
        ensures
            r == (self.spec_pos() >= self.spec_input().len()),
    {
        self.current_position() >= self.input().len()
    }

    /// Returns the character at the current position without consuming it,
    /// or an error at the end of the input.
    fn next_char(&self) -> (r: Result<char, &'static str>)
        ensures
            ({
                let s = self.spec_input();
                let p = self.spec_pos();
                if 0 <= p < s.len() {
                    r == Ok::<char, &'static str>(s[p])
                } else {
                    r matches Err(m) && m@ == "No more characters in input string"@
                }
            }),
    {
        if self.eof() {
            return Err("No more characters in input string");
        }
        let p = self.current_position();
        let c = self.input()[p];
        Ok(c)
    }

    /// Checks whether the input at the current position starts with the
    /// given characters; errors at the end of the input.
    fn starts_with(&self, pat: &[char]) -> (r: Result<bool, &'static str>)
        ensures
            ({
                let s = self.spec_input();
                let p = self.spec_pos();
                if 0 <= p < s.len() {
                    r == Ok::<bool, &'static str>(seq_starts_with(s, p, pat@))
                } else {
                    r matches Err(m) && m@ == "No more characters in input string"@
                }
            }),
    {
        if self.eof() {
            return Err("No more characters in input string");
        }
        let p = self.current_position();
        let v = self.input();
        let n = v.len();
        let m = pat.len();
        if m > n - p {
            proof {
                assert(!seq_starts_with(self.spec_input(), p as int, pat@));
            }
            return Ok(false);
        }
        let mut i: usize = 0;
        while i < m
            invariant
                p + m <= n,
                n == self.spec_input().len(),
                p as int == self.spec_pos(),
                m == pat@.len(),
                i <= m,
                forall|j: int| 0 <= j < i ==> self.spec_input()[p + j] == pat@[j],
            decreases m - i,
        {
            let v2 = self.input();
            if v2[p + i] != pat[i] {
                proof {
                    let s = self.spec_input();
                    assert(s.subrange(p as int, p + pat@.len())[i as int] != pat@[i as int]);
                }
                return Ok(false);
            }
            i = i + 1;
        }
        proof {
            let s = self.spec_input();
            assert(s.subrange(p as int, p + pat@.len()) =~= pat@);
        }
        Ok(true)
    }

    /// Consumes the character at the current position and returns it, or
    /// errors at the end of the input, leaving the position unchanged.
    fn consume_char(&mut self) -> (r: Result<char, &'static str>)
        ensures
            final(self).spec_input() == old(self).spec_input(),
            ({
                let s = old(self).spec_input();
                let p = old(self).spec_pos();
                if 0 <= p < s.len() {
                    r == Ok::<char, &'static str>(s[p]) && final(self).spec_pos() == p + 1
                } else {
                    (r matches Err(m) && m@ == "No more characters in the input string"@)
                        && final(self).spec_pos() == p
                }
            }),
    {
        let p = self.current_position();
        let n = self.input().len();
        if p >= n {
            return Err("No more characters in the input string");
        }
        let c = self.input()[p];
        self.set_current_position(p + 1);
        Ok(c)
    }

    /// Consumes characters while they fall in the given class, returning
    /// the consumed characters as a string. Never fails: at the end of the
    /// input it returns what was consumed so far.
    fn consume_while(&mut self, condition: CharClass) -> (r: Result<String, &'static str>)
        ensures
            final(self).spec_input() == old(self).spec_input(),
            ({
                let s = old(self).spec_input();
                let p = old(self).spec_pos();
                if 0 <= p <= s.len() {
                    &&& final(self).spec_pos() == scan_end(s, p, condition)
                    &&& (r matches Ok(out) && out@ == s.subrange(p, scan_end(s, p, condition)))
                } else {
                    &&& final(self).spec_pos() == p
                    &&& (r matches Ok(out) && out@ == Seq::<char>::empty())
                }
            }),
    {
        let ghost s = self.spec_input();
        let ghost p0 = self.spec_pos();
        let mut out = String::new();
        let p = self.current_position();
        let n = self.input().len();
        if p > n {
            proof {
                assert(out@ =~= Seq::<char>::empty());
            }
            return Ok(out);
        }
        proof {
            lemma_scan_end(s, p0, condition);
        }
        loop
            invariant
                self.spec_input() == s,
                0 <= p0 <= self.spec_pos() <= s.len(),
                scan_end(s, self.spec_pos(), condition) == scan_end(s, p0, condition),
                out@ == s.subrange(p0, self.spec_pos()),
            ensures
                self.spec_input() == s,
                0 <= p0 <= self.spec_pos() <= s.len(),
                scan_end(s, self.spec_pos(), condition) == scan_end(s, p0, condition),
                out@ == s.subrange(p0, self.spec_pos()),
                scan_end(s, self.spec_pos(), condition) == self.spec_pos(),
            decreases s.len() - self.spec_pos(),
        {
            let q = self.current_position();
            let nn = self.input().len();
            if q >= nn {
                break;
            }
            let c = self.input()[q];
            if !class_check(condition, c) {
                break;
            }
            self.set_current_position(q + 1);
            push_char(&mut out, c);
            proof {
                assert(out@ =~= s.subrange(p0, q + 1));
            }
        }
        proof {
            let q = self.spec_pos();
            assert(scan_end(s, q, condition) == q);
        }
        Ok(out)
    }

    /// Consumes whitespace characters until a non-whitespace character or
    /// the end of the input. Never fails.
    fn consume_whitespace(&mut self) -> (r: Result<(), &'static str>)
        ensures
            final(self).spec_input() == old(self).spec_input(),
            r is Ok,
            ({
                let s = old(self).spec_input();
                let p = old(self).spec_pos();
                if 0 <= p <= s.len() {
                    final(self).spec_pos() == scan_end(s, p, CharClass::Space)
                } else {
                    final(self).spec_pos() == p
                }
            }),
    {
        let r = self.consume_while(CharClass::Space);
        match r {
            Ok(_) => Ok(()),
            Err(_) => Err("Failed to get next character"),
        }
    }
}

} // verus!
