//! The reader: the functions that read a file, held to the grammar in `json`.

use vstd::prelude::*;
use vstd::utf8::*;
use crate::json::{
    Flaw, Node, Part, Value, digits_end, escape, escaped_code_point, four_hex_digits, hex_value,
    is_hex, lemma_digits_end, lemma_skip_space, line_of, named, number, parse, skip_space, stop,
    string, string_rest, value,
};
use crate::text::{count_byte_exec, push_all, starts_with};
use crate::unicode::push_scalar;

verus! {

/// Why a file has no canonical form.
///
/// Each variant is a separate refusal with its own sentence, because a curator
/// told only that a file was refused reads the rule and guesses.
#[derive(Debug, PartialEq, Eq)]
pub enum Fault {
    /// The bytes are not UTF-8, so there is nothing to read.
    NotText,
    /// A byte order mark, which the form excludes and which a text editor adds
    /// without being asked.
    ByteOrderMark,
    /// The bytes are not JSON. The line is where the reading stopped.
    Unreadable { line: usize, why: &'static str },
    /// One object carries two members with one name. Refused rather than
    /// resolved: this is the case where two parsers legitimately disagree, and
    /// no ordering rule saves it.
    TwoMembersWithOneName { line: usize, name: Vec<u8> },
}

impl Fault {
    /// The fault as the grammar states it.
    pub open spec fn flaw(self) -> Flaw {
        match self {
            Fault::NotText => Flaw::NotText,
            Fault::ByteOrderMark => Flaw::ByteOrderMark,
            Fault::Unreadable { line, why } => Flaw::Unreadable { line: line as nat, why },
            Fault::TwoMembersWithOneName { line, name } => Flaw::TwoMembersWithOneName {
                line: line as nat,
                name: name@,
            },
        }
    }
}

/// The members of an object node, as the grammar states them.
pub open spec fn members_value(ms: Seq<(Vec<u8>, Node)>) -> Seq<(Seq<u8>, Value)> {
    Seq::new(ms.len(), |i: int| (ms[i].0@, ms[i].1.value()))
}

/// The elements of an array node, as the grammar states them.
pub open spec fn elements_value(es: Seq<Node>) -> Seq<Value> {
    Seq::new(es.len(), |i: int| es[i].value())
}

pub proof fn lemma_object_value(ms: Vec<(Vec<u8>, Node)>)
    ensures
        Node::Object(ms).value() == Value::Object(members_value(ms@)),
{
    assert(Node::Object(ms).value()->Object_0 =~= members_value(ms@));
}

pub proof fn lemma_array_value(es: Vec<Node>)
    ensures
        Node::Array(es).value() == Value::Array(elements_value(es@)),
{
    assert(Node::Array(es).value()->Array_0 =~= elements_value(es@));
}

/// A reader over the bytes of one file.
pub struct Scan<'a> {
    pub text: &'a [u8],
    pub at: usize,
}

impl<'a> Scan<'a> {
    /// The reader is inside its text, and a line number fits.
    pub open spec fn wf(self) -> bool {
        &&& self.at <= self.text@.len()
        &&& self.text@.len() < usize::MAX
    }

    /// The line the reading has reached, counting from one.
    pub fn line(&self) -> (r: usize)
        requires
            self.wf(),
        ensures
            r == line_of(self.text@, self.at as int),
    {
        let c = count_byte_exec(self.text, self.at, 10);
        c + 1
    }

    /// A fault at the position the reading stopped.
    pub fn stop(&self, why: &'static str) -> (f: Fault)
        requires
            self.wf(),
        ensures
            f.flaw() == stop(self.text@, self.at as int, why),
    {
        Fault::Unreadable { line: self.line(), why }
    }

    /// The byte at the reading position, if the text has not run out.
    pub fn peek(&self) -> (r: Option<u8>)
        requires
            self.wf(),
        ensures
            r == (if self.at < self.text@.len() {
                Some(self.text@[self.at as int])
            } else {
                None::<u8>
            }),
    {
        if self.at < self.text.len() {
            Some(self.text[self.at])
        } else {
            None
        }
    }

    /// Steps over the whitespace JSON allows between tokens.
    pub fn space(&mut self)
        requires
            old(self).wf(),
        ensures
            final(self).wf(),
            final(self).text == old(self).text,
            final(self).at == skip_space(old(self).text@, old(self).at as int),
            final(self).at >= old(self).at,
    {
        proof {
            lemma_skip_space(self.text@, self.at as int);
        }
        while self.at < self.text.len() && (self.text[self.at] == 32 || self.text[self.at] == 9
            || self.text[self.at] == 10 || self.text[self.at] == 13)
            invariant
                self.wf(),
                self.text == old(self).text,
                self.at >= old(self).at,
                skip_space(self.text@, self.at as int) == skip_space(
                    old(self).text@,
                    old(self).at as int,
                ),
            decreases self.text@.len() - self.at,
        {
            self.at = self.at + 1;
        }
    }

    /// Steps over a run of digits.
    pub fn digits(&mut self)
        requires
            old(self).wf(),
        ensures
            final(self).wf(),
            final(self).text == old(self).text,
            final(self).at == digits_end(old(self).text@, old(self).at as int),
            final(self).at >= old(self).at,
    {
        while self.at < self.text.len() && 48 <= self.text[self.at] && self.text[self.at] <= 57
            invariant
                self.wf(),
                self.text == old(self).text,
                self.at >= old(self).at,
                digits_end(self.text@, self.at as int) == digits_end(
                    old(self).text@,
                    old(self).at as int,
                ),
            decreases self.text@.len() - self.at,
        {
            self.at = self.at + 1;
        }
    }
}

} // verus!

verus! {

impl<'a> Scan<'a> {
    /// Reads the four hexadecimal digits of a `\u` escape.
    ///
    /// Every one of the four is checked to be a hexadecimal digit before the
    /// number is read, because the ordinary way of reading one accepts a
    /// leading sign and would take a spelling this grammar does not have.
    pub fn four_hex_digits(&mut self) -> (r: Result<u32, Fault>)
        requires
            old(self).wf(),
        ensures
            final(self).wf(),
            final(self).text == old(self).text,
            match four_hex_digits(old(self).text@, old(self).at as int) {
                Ok((v, p)) => r == Ok::<u32, Fault>(v) && final(self).at == p,
                Err(e) => r matches Err(f) && f.flaw() == e,
            },
    {
        reveal(four_hex_digits);
        let s = self.text;
        let at = self.at;
        let left = s.len() - at;
        if left < 4 || (left > 4 && 0x80 <= s[at + 4] && s[at + 4] <= 0xbf) {
            return Err(self.stop("an escape with fewer than four digits"));
        }
        if !(hex(s[at]) && hex(s[at + 1]) && hex(s[at + 2]) && hex(s[at + 3])) {
            return Err(self.stop("an escape whose digits are not hexadecimal"));
        }
        let v = digit_value(s[at]) * 4096 + digit_value(s[at + 1]) * 256 + digit_value(s[at + 2])
            * 16 + digit_value(s[at + 3]);
        self.at = at + 4;
        Ok(v)
    }

    /// Reads a `\u` escape, after its `u`, and the low half of a surrogate
    /// pair where one follows, which is the only way a JSON file can carry a
    /// character above the basic plane.
    pub fn escaped_code_point(&mut self) -> (r: Result<Vec<u8>, Fault>)
        requires
            old(self).wf(),
        ensures
            final(self).wf(),
            final(self).text == old(self).text,
            match escaped_code_point(old(self).text@, old(self).at as int) {
                Ok((bytes, p)) => r matches Ok(got) && got@ == bytes && final(self).at == p,
                Err(e) => r matches Err(f) && f.flaw() == e,
            },
    {
        reveal(escaped_code_point);
        let first = match self.four_hex_digits() {
            Ok(v) => v,
            Err(f) => return Err(f),
        };
        let mut out: Vec<u8> = Vec::new();
        if !(0xD800 <= first && first < 0xDC00) {
            if first <= 0x10FFFF && !(0xD800 <= first && first <= 0xDFFF) {
                push_scalar(&mut out, first);
                assert(out@ =~= encode_scalar(first));
                return Ok(out);
            }
            return Err(self.stop("not a character"));
        }
        if !(self.text.len() - self.at >= 2 && self.text[self.at] == 92 && self.text[self.at + 1]
            == 117) {
            return Err(self.stop("half of a surrogate pair with no other half"));
        }
        self.at = self.at + 2;
        let second = match self.four_hex_digits() {
            Ok(v) => v,
            Err(f) => return Err(f),
        };
        if !(0xDC00 <= second && second < 0xE000) {
            return Err(self.stop("half of a surrogate pair with no other half"));
        }
        let joined: u32 = 0x10000 + (first - 0xD800) * 1024 + (second - 0xDC00);
        push_scalar(&mut out, joined);
        assert(out@ =~= encode_scalar(joined));
        Ok(out)
    }

    /// Reads one escape, after its backslash.
    ///
    /// An escape that cannot be read leaves the reading where the escape
    /// began, after its backslash, so it never stops inside a character.
    pub fn escape(&mut self) -> (r: Result<Vec<u8>, Fault>)
        requires
            old(self).wf(),
        ensures
            final(self).wf(),
            final(self).text == old(self).text,
            match escape(old(self).text@, old(self).at as int) {
                Ok((bytes, p)) => r matches Ok(got) && got@ == bytes && final(self).at == p,
                Err(e) => r matches Err(f) && f.flaw() == e && final(self).at == old(self).at,
            },
    {
        reveal(escape);
        let start = self.at;
        let byte = match self.peek() {
            Some(b) => b,
            None => return Err(self.stop("the file ends inside an escape")),
        };
        self.at = self.at + 1;
        let mut out: Vec<u8> = Vec::new();
        if byte == 34 {
            out.push(34);
        } else if byte == 92 {
            out.push(92);
        } else if byte == 47 {
            out.push(47);
        } else if byte == 98 {
            out.push(8);
        } else if byte == 102 {
            out.push(12);
        } else if byte == 110 {
            out.push(10);
        } else if byte == 114 {
            out.push(13);
        } else if byte == 116 {
            out.push(9);
        } else if byte == 117 {
            let read = self.escaped_code_point();
            if read.is_err() {
                self.at = start;
            }
            return read;
        } else {
            let fault = self.stop("an escape this grammar does not have");
            self.at = start;
            return Err(fault);
        }
        assert(out@.len() == 1);
        proof {
            let s = self.text@;
            let b = byte;
            assert(out@ =~= seq![out@[0]]);
        }
        Ok(out)
    }

    /// Reads a string, decoding its escapes.
    pub fn string(&mut self) -> (r: Result<Vec<u8>, Fault>)
        requires
            old(self).wf(),
        ensures
            final(self).wf(),
            final(self).text == old(self).text,
            match string(old(self).text@, old(self).at as int) {
                Ok((t, p)) => r matches Ok(got) && got@ == t && final(self).at == p,
                Err(e) => r matches Err(f) && f.flaw() == e,
            },
            r is Ok ==> final(self).at > old(self).at,
    {
        reveal(string);
        if self.peek() != Some(34u8) {
            return Err(self.stop("expected \""));
        }
        self.at = self.at + 1;
        let ghost s = self.text@;
        let ghost whole = string(s, old(self).at as int);
        let mut out: Vec<u8> = Vec::new();
        loop
            invariant
                self.wf(),
                self.text == old(self).text,
                s == self.text@,
                self.at > old(self).at,
                whole == string(s, old(self).at as int),
                whole == string_rest(s, self.at as int, out@),
            decreases self.text@.len() - self.at,
        {
            proof {
                reveal_with_fuel(string_rest, 1);
            }
            let byte = match self.peek() {
                Some(b) => b,
                None => return Err(self.stop("the file ends inside a string")),
            };
            if byte == 34 {
                self.at = self.at + 1;
                return Ok(out);
            } else if byte == 92 {
                let ghost here = self.at as int;
                self.at = self.at + 1;
                let bytes = match self.escape() {
                    Ok(b) => b,
                    Err(f) => return Err(f),
                };
                push_all(&mut out, &bytes);
                proof {
                    crate::json::lemma_escape_advances(s, here + 1);
                }
            } else if byte < 32 {
                return Err(self.stop("a control character inside a string is not escaped"));
            } else {
                out.push(byte);
                self.at = self.at + 1;
            }
        }
    }

    /// Reads a number and keeps its token.
    ///
    /// The token is taken as it stands. Nothing here turns it into a number, so
    /// there is no representation for it to lose figures to and no platform
    /// difference for it to pick up.
    #[verifier::rlimit(40)]
    pub fn number(&mut self) -> (r: Result<Node, Fault>)
        requires
            old(self).wf(),
        ensures
            final(self).wf(),
            final(self).text == old(self).text,
            match number(old(self).text@, old(self).at as int) {
                Ok((v, p)) => r matches Ok(n) && n.value() == v && final(self).at == p,
                Err(e) => r matches Err(f) && f.flaw() == e,
            },
            r is Ok ==> final(self).at > old(self).at,
    {
        reveal(number);
        let ghost s = self.text@;
        let from = self.at;
        if self.peek() == Some(45u8) {
            self.at = self.at + 1;
        }
        match self.peek() {
            Some(48u8) => {
                self.at = self.at + 1;
            },
            Some(b) => {
                if 49 <= b && b <= 57 {
                    self.digits();
                } else {
                    return Err(self.stop("a number with no digits"));
                }
            },
            None => {
                return Err(self.stop("a number with no digits"));
            },
        }
        proof {
            lemma_digits_end(s, from as int);
        }
        let p1 = self.at;
        let point = self.peek() == Some(46u8);
        if point {
            self.at = self.at + 1;
            match self.peek() {
                Some(b) => {
                    if !(48 <= b && b <= 57) {
                        return Err(self.stop("a number with no digits after its point"));
                    }
                },
                None => {
                    return Err(self.stop("a number with no digits after its point"));
                },
            }
            proof {
                lemma_digits_end(s, p1 + 1);
            }
            self.digits();
        }
        let p2 = self.at;
        match self.peek() {
            Some(b) => {
                if b == 101 || b == 69 {
                    self.at = self.at + 1;
                    match self.peek() {
                        Some(c) => {
                            if c == 43 || c == 45 {
                                self.at = self.at + 1;
                            }
                        },
                        None => {},
                    }
                    match self.peek() {
                        Some(c) => {
                            if !(48 <= c && c <= 57) {
                                return Err(self.stop("a number with no digits in its exponent"));
                            }
                        },
                        None => {
                            return Err(self.stop("a number with no digits in its exponent"));
                        },
                    }
                    proof {
                        lemma_digits_end(s, self.at as int);
                    }
                    self.digits();
                }
            },
            None => {},
        }
        let token = crate::text::copy_range(self.text, from, self.at);
        Ok(Node::Number(token))
    }

    /// Steps over one of the three bare words.
    pub fn word(&mut self, want: &[u8], why: &'static str) -> (r: Result<(), Fault>)
        requires
            old(self).wf(),
        ensures
            final(self).wf(),
            final(self).text == old(self).text,
            starts_with(old(self).text@.skip(old(self).at as int), want@) ==> r is Ok
                && final(self).at == old(self).at + want@.len(),
            !starts_with(old(self).text@.skip(old(self).at as int), want@) ==> (r matches Err(
                f,
            ) && f.flaw() == stop(old(self).text@, old(self).at as int, why)),
    {
        if crate::text::starts_with_at(self.text, self.at, want) {
            self.at = self.at + want.len();
            Ok(())
        } else {
            Err(self.stop(why))
        }
    }
}

/// The bytes of the bare word that opens with `first`: true, false or null.
pub open spec fn keyword_bytes(first: u8) -> Seq<u8> {
    if first == 116 {
        seq![116u8, 114u8, 117u8, 101u8]
    } else if first == 102 {
        seq![102u8, 97u8, 108u8, 115u8, 101u8]
    } else {
        seq![110u8, 117u8, 108u8, 108u8]
    }
}

/// The bytes of the bare word that opens with `first`: true, false or null.
pub fn keyword(first: u8) -> (r: Vec<u8>)
    ensures
        r@ == keyword_bytes(first),
{
    let mut r: Vec<u8> = Vec::new();
    if first == 116 {
        r.push(116);
        r.push(114);
        r.push(117);
        r.push(101);
    } else if first == 102 {
        r.push(102);
        r.push(97);
        r.push(108);
        r.push(115);
        r.push(101);
    } else {
        r.push(110);
        r.push(117);
        r.push(108);
        r.push(108);
    }
    assert(r@ =~= keyword_bytes(first));
    r
}

/// Whether a byte is a hexadecimal digit.
pub fn hex(b: u8) -> (r: bool)
    ensures
        r == is_hex(b),
{
    (48 <= b && b <= 57) || (97 <= b && b <= 102) || (65 <= b && b <= 70)
}

/// The value of a hexadecimal digit.
pub fn digit_value(b: u8) -> (r: u32)
    requires
        is_hex(b),
    ensures
        r == hex_value(b),
        r < 16,
{
    if 48 <= b && b <= 57 {
        (b - 48) as u32
    } else if 97 <= b && b <= 102 {
        (b - 87) as u32
    } else {
        (b - 55) as u32
    }
}


/// `named` finds the first member with the name.
pub proof fn lemma_named(got: Seq<(Seq<u8>, Value)>, name: Seq<u8>, i: int)
    requires
        0 <= i <= got.len(),
        forall|j: int| 0 <= j < i ==> got[j].0 != name,
        i == got.len() || got[i].0 == name,
    ensures
        named(got, name) == (if i == got.len() {
            None::<int>
        } else {
            Some(i)
        }),
    decreases got.len(),
{
    if got.len() > 0 {
        if i == got.len() {
            lemma_named(got.drop_last(), name, i - 1);
        } else if i < got.len() - 1 {
            lemma_named(got.drop_last(), name, i);
        } else {
            lemma_named(got.drop_last(), name, i);
        }
    }
}

/// The first member of `members` named `name`.
pub fn position(members: &Vec<(Vec<u8>, Node)>, name: &Vec<u8>) -> (r: Option<usize>)
    ensures
        r matches Some(i) ==> named(members_value(members@), name@) == Some(i as int) && i
            < members@.len(),
        r is None ==> named(members_value(members@), name@) is None,
{
    let ghost got = members_value(members@);
    let mut i: usize = 0;
    while i < members.len()
        invariant
            0 <= i <= members@.len(),
            got == members_value(members@),
            forall|j: int| 0 <= j < i ==> got[j].0 != name@,
        decreases members@.len() - i,
    {
        if crate::text::same(members[i].0.as_slice(), name.as_slice()) {
            proof {
                lemma_named(got, name@, i as int);
            }
            return Some(i);
        }
        i = i + 1;
    }
    proof {
        lemma_named(got, name@, i as int);
    }
    None
}

impl<'a> Scan<'a> {
    /// Reads one value.
    #[verifier::rlimit(60)]
    pub fn value(&mut self) -> (r: Result<Node, Fault>)
        requires
            old(self).wf(),
        ensures
            final(self).wf(),
            final(self).text == old(self).text,
            match value(old(self).text@, old(self).at as int) {
                Ok((v, p)) => r matches Ok(n) && n.value() == v && final(self).at == p,
                Err(e) => r matches Err(f) && f.flaw() == e,
            },
            r is Ok ==> final(self).at > old(self).at,
        decreases old(self).text@.len() - old(self).at, 1int,
    {
        reveal_with_fuel(parse, 1);
        self.space();
        match self.peek() {
            Some(b) => {
                if b == 123 {
                    self.object()
                } else if b == 91 {
                    self.array()
                } else if b == 34 {
                    match self.string() {
                        Ok(t) => Ok(Node::Text(t)),
                        Err(f) => Err(f),
                    }
                } else if b == 116 {
                    match self.word(keyword(116).as_slice(), "expected true") {
                        Ok(()) => Ok(Node::Truth(true)),
                        Err(f) => Err(f),
                    }
                } else if b == 102 {
                    match self.word(keyword(102).as_slice(), "expected false") {
                        Ok(()) => Ok(Node::Truth(false)),
                        Err(f) => Err(f),
                    }
                } else if b == 110 {
                    match self.word(keyword(110).as_slice(), "expected null") {
                        Ok(()) => Ok(Node::Nothing),
                        Err(f) => Err(f),
                    }
                } else if b == 45 || (48 <= b && b <= 57) {
                    self.number()
                } else {
                    Err(self.stop("expected a value"))
                }
            },
            None => Err(self.stop("the file ends before its value does")),
        }
    }

    /// Reads an array, from its opening bracket.
    #[verifier::rlimit(60)]
    pub fn array(&mut self) -> (r: Result<Node, Fault>)
        requires
            old(self).wf(),
            old(self).at < old(self).text@.len(),
            old(self).text@[old(self).at as int] == 91,
        ensures
            final(self).wf(),
            final(self).text == old(self).text,
            match parse(old(self).text@, old(self).at as int, Part::Array) {
                Ok((v, p)) => r matches Ok(n) && n.value() == v && final(self).at == p,
                Err(e) => r matches Err(f) && f.flaw() == e,
            },
            r is Ok ==> final(self).at > old(self).at,
        decreases old(self).text@.len() - old(self).at, 0int,
    {
        reveal_with_fuel(parse, 1);
        let ghost s = self.text@;
        let ghost start = self.at as int;
        self.at = self.at + 1;
        let mut elements: Vec<Node> = Vec::new();
        self.space();
        if self.peek() == Some(93u8) {
            self.at = self.at + 1;
            proof {
                lemma_array_value(elements);
                assert(elements_value(elements@) =~= Seq::<Value>::empty());
            }
            return Ok(Node::Array(elements));
        }
        proof {
            assert(elements_value(elements@) =~= Seq::<Value>::empty());
        }
        loop
            invariant
                self.wf(),
                self.text == old(self).text,
                s == self.text@,
                start == old(self).at,
                self.at > start,
                parse(s, start, Part::Array) == parse(s, self.at as int, Part::Elements(elements_value(elements@))),
            decreases self.text@.len() - self.at,
        {
            proof {
                reveal_with_fuel(parse, 1);
            }
            let ghost here = self.at as int;
            let element = match self.value() {
                Ok(n) => n,
                Err(f) => return Err(f),
            };
            let ghost got = elements_value(elements@);
            let ghost v = element.value();
            elements.push(element);
            proof {
                assert(elements_value(elements@) =~= got.push(v));
            }
            self.space();
            match self.peek() {
                Some(b) => {
                    if b == 44 {
                        self.at = self.at + 1;
                    } else if b == 93 {
                        self.at = self.at + 1;
                        proof {
                            lemma_array_value(elements);
                        }
                        return Ok(Node::Array(elements));
                    } else {
                        return Err(self.stop("expected , or ] after an element"));
                    }
                },
                None => {
                    return Err(self.stop("expected , or ] after an element"));
                },
            }
        }
    }

    /// Reads an object, from its opening brace, keeping the line each member
    /// was written on.
    #[verifier::rlimit(60)]
    pub fn object(&mut self) -> (r: Result<Node, Fault>)
        requires
            old(self).wf(),
            old(self).at < old(self).text@.len(),
            old(self).text@[old(self).at as int] == 123,
        ensures
            final(self).wf(),
            final(self).text == old(self).text,
            match parse(old(self).text@, old(self).at as int, Part::Object) {
                Ok((v, p)) => r matches Ok(n) && n.value() == v && final(self).at == p,
                Err(e) => r matches Err(f) && f.flaw() == e,
            },
            r is Ok ==> final(self).at > old(self).at,
        decreases old(self).text@.len() - old(self).at, 0int,
    {
        reveal_with_fuel(parse, 1);
        let ghost s = self.text@;
        let ghost start = self.at as int;
        self.at = self.at + 1;
        let mut members: Vec<(Vec<u8>, Node)> = Vec::new();
        let mut lines: Vec<usize> = Vec::new();
        let after = self.at;
        self.space();
        if self.peek() == Some(125u8) {
            self.at = self.at + 1;
            proof {
                lemma_object_value(members);
                assert(members_value(members@) =~= Seq::<(Seq<u8>, Value)>::empty());
            }
            return Ok(Node::Object(members));
        }
        let ghost lines_seen: Seq<nat> = seq![];
        proof {
            assert(members_value(members@) =~= Seq::<(Seq<u8>, Value)>::empty());
        }
        self.at = after;
        loop
            invariant
                self.wf(),
                self.text == old(self).text,
                s == self.text@,
                start == old(self).at,
                self.at > start,
                lines@.len() == lines_seen.len(),
                forall|j: int| 0 <= j < lines@.len() ==> lines@[j] as nat == #[trigger] lines_seen[j],
                members@.len() == lines@.len(),
                parse(s, start, Part::Object) == parse(s, self.at as int, Part::Members(members_value(members@), lines_seen)),
            decreases self.text@.len() - self.at,
        {
            proof {
                reveal_with_fuel(parse, 1);
            }
            self.space();
            let line = self.line();
            let name = match self.string() {
                Ok(t) => t,
                Err(f) => return Err(f),
            };
            self.space();
            if self.peek() != Some(58u8) {
                return Err(self.stop("expected :"));
            }
            self.at = self.at + 1;
            let element = match self.value() {
                Ok(n) => n,
                Err(f) => return Err(f),
            };
            let ghost got = members_value(members@);
            match position(&members, &name) {
                Some(i) => {
                    let earlier = lines[i];
                    let at_line = if earlier >= line {
                        earlier
                    } else {
                        line
                    };
                    return Err(Fault::TwoMembersWithOneName { line: at_line, name });
                },
                None => {},
            }
            let ghost v = element.value();
            let ghost nm = name@;
            members.push((name, element));
            lines.push(line);
            proof {
                assert(members_value(members@) =~= got.push((nm, v)));
                lines_seen = lines_seen.push(line as nat);
            }
            self.space();
            match self.peek() {
                Some(b) => {
                    if b == 44 {
                        self.at = self.at + 1;
                    } else if b == 125 {
                        self.at = self.at + 1;
                        proof {
                            lemma_object_value(members);
                        }
                        return Ok(Node::Object(members));
                    } else {
                        return Err(self.stop("expected , or } after a member"));
                    }
                },
                None => {
                    return Err(self.stop("expected , or } after a member"));
                },
            }
        }
    }
}

} // verus!
