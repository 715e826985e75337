//! What a record file says, read the way the canonical form reads it.
//!
//! This is the grammar written as definitions over the bytes of a file: where
//! a value begins and ends, what it holds, and the fault the reading stops at
//! where it is not JSON. A number is the token as it stood, and a string is
//! its decoded bytes, because those are the two things the form preserves.
//! The functions that read a file are held to these definitions.

use vstd::prelude::*;
use vstd::utf8::*;
use vstd::string::StringSliceAdditionalSpecFns;
use crate::text::{count_byte, starts_with};

verus! {

/// A JSON value as the canonical form holds it.
pub enum Value {
    Object(Seq<(Seq<u8>, Value)>),
    Array(Seq<Value>),
    Text(Seq<u8>),
    Number(Seq<u8>),
    Truth(bool),
    Nothing,
}

/// Why a file has no canonical form.
pub enum Flaw {
    /// The bytes are not UTF-8.
    NotText,
    /// The bytes open with a byte order mark.
    ByteOrderMark,
    /// The bytes are not JSON; the line is where the reading stopped.
    Unreadable { line: nat, why: &'static str },
    /// One object carries two members with one name.
    TwoMembersWithOneName { line: nat, name: Seq<u8> },
}

/// The line, counting from one, that byte `at` of `s` is on.
pub open spec fn line_of(s: Seq<u8>, at: int) -> nat {
    count_byte(s.take(at), 10) + 1
}

/// The fault of a reading that stopped at byte `at`.
pub open spec fn stop(s: Seq<u8>, at: int, why: &'static str) -> Flaw {
    Flaw::Unreadable { line: line_of(s, at), why }
}

/// Whether a byte is whitespace JSON allows between tokens.
pub open spec fn is_json_space(b: u8) -> bool {
    b == 32 || b == 9 || b == 10 || b == 13
}

/// Whether a byte is an ASCII digit.
pub open spec fn is_digit(b: u8) -> bool {
    48 <= b <= 57
}

/// Where the whitespace that begins at `at` ends.
pub open spec fn skip_space(s: Seq<u8>, at: int) -> int
    decreases s.len() - at,
{
    if 0 <= at < s.len() && is_json_space(s[at]) {
        skip_space(s, at + 1)
    } else {
        at
    }
}

/// Where the run of digits that begins at `at` ends.
pub open spec fn digits_end(s: Seq<u8>, at: int) -> int
    decreases s.len() - at,
{
    if 0 <= at < s.len() && is_digit(s[at]) {
        digits_end(s, at + 1)
    } else {
        at
    }
}

pub proof fn lemma_skip_space(s: Seq<u8>, at: int)
    requires
        0 <= at <= s.len(),
    ensures
        at <= skip_space(s, at) <= s.len(),
        forall|j: int| at <= j < skip_space(s, at) ==> is_json_space(#[trigger] s[j]),
        skip_space(s, at) < s.len() ==> !is_json_space(s[skip_space(s, at)]),
    decreases s.len() - at,
{
    if at < s.len() && is_json_space(s[at]) {
        lemma_skip_space(s, at + 1);
    }
}

pub proof fn lemma_digits_end(s: Seq<u8>, at: int)
    requires
        0 <= at <= s.len(),
    ensures
        at <= digits_end(s, at) <= s.len(),
        forall|j: int| at <= j < digits_end(s, at) ==> is_digit(#[trigger] s[j]),
        digits_end(s, at) < s.len() ==> !is_digit(s[digits_end(s, at)]),
    decreases s.len() - at,
{
    if at < s.len() && is_digit(s[at]) {
        lemma_digits_end(s, at + 1);
    }
}

/// Whether a byte is a hexadecimal digit, in either case.
pub open spec fn is_hex(b: u8) -> bool {
    (48 <= b <= 57) || (97 <= b <= 102) || (65 <= b <= 70)
}

/// The value of a hexadecimal digit.
pub open spec fn hex_value(b: u8) -> u32 {
    if 48 <= b <= 57 {
        (b - 48) as u32
    } else if 97 <= b <= 102 {
        (b - 87) as u32
    } else {
        (b - 55) as u32
    }
}

/// The four hexadecimal digits of a `\u` escape that begin at `at`, and
/// where they end. Four bytes that do not end on a character boundary are
/// fewer than four digits, as a slice of the text would have it.
#[verifier::opaque]
pub open spec fn four_hex_digits(s: Seq<u8>, at: int) -> Result<(u32, int), Flaw> {
    if at + 4 > s.len() || (at + 4 < s.len() && is_continuation_byte(s[at + 4])) {
        Err(stop(s, at, "an escape with fewer than four digits"))
    } else if !(is_hex(s[at]) && is_hex(s[at + 1]) && is_hex(s[at + 2]) && is_hex(s[at + 3])) {
        Err(stop(s, at, "an escape whose digits are not hexadecimal"))
    } else {
        Ok(
            (
                (hex_value(s[at]) * 4096 + hex_value(s[at + 1]) * 256 + hex_value(s[at + 2]) * 16
                    + hex_value(s[at + 3])) as u32,
                at + 4,
            ),
        )
    }
}

/// A `\u` escape after its `u`, with the low half of a surrogate pair where
/// the first four digits are a high half: the bytes of the character it
/// stands for, and where it ends.
#[verifier::opaque]
pub open spec fn escaped_code_point(s: Seq<u8>, at: int) -> Result<(Seq<u8>, int), Flaw> {
    match four_hex_digits(s, at) {
        Err(e) => Err(e),
        Ok((first, p)) => {
            if !(0xD800 <= first && first < 0xDC00) {
                if is_scalar(first) {
                    Ok((encode_scalar(first), p))
                } else {
                    Err(stop(s, p, "not a character"))
                }
            } else if !(p + 2 <= s.len() && s[p] == 92 && s[p + 1] == 117) {
                Err(stop(s, p, "half of a surrogate pair with no other half"))
            } else {
                match four_hex_digits(s, p + 2) {
                    Err(e) => Err(e),
                    Ok((second, q)) => {
                        if !(0xDC00 <= second && second < 0xE000) {
                            Err(stop(s, q, "half of a surrogate pair with no other half"))
                        } else {
                            let joined = (0x10000 + (first - 0xD800) * 1024 + (second
                                - 0xDC00)) as u32;
                            Ok((encode_scalar(joined), q))
                        }
                    },
                }
            }
        },
    }
}

/// One escape after its backslash: the bytes it stands for, and where it ends.
#[verifier::opaque]
pub open spec fn escape(s: Seq<u8>, at: int) -> Result<(Seq<u8>, int), Flaw> {
    if !(0 <= at < s.len()) {
        Err(stop(s, at, "the file ends inside an escape"))
    } else {
        let b = s[at];
        let p = at + 1;
        if b == 34 {
            Ok((seq![34u8], p))
        } else if b == 92 {
            Ok((seq![92u8], p))
        } else if b == 47 {
            Ok((seq![47u8], p))
        } else if b == 98 {
            Ok((seq![8u8], p))
        } else if b == 102 {
            Ok((seq![12u8], p))
        } else if b == 110 {
            Ok((seq![10u8], p))
        } else if b == 114 {
            Ok((seq![13u8], p))
        } else if b == 116 {
            Ok((seq![9u8], p))
        } else if b == 117 {
            escaped_code_point(s, p)
        } else {
            Err(stop(s, p, "an escape this grammar does not have"))
        }
    }
}

/// Where an escape ends is past where it begins.
pub proof fn lemma_escape_advances(s: Seq<u8>, at: int)
    ensures
        escape(s, at) matches Ok((_, p)) ==> at < p <= s.len(),
{
    reveal(escape);
    reveal(escaped_code_point);
    reveal(four_hex_digits);
}

/// The rest of a string whose opening quote is behind `at`, decoded and added
/// to `got`, and where its closing quote ends.
///
/// A byte that is neither a quote, a backslash nor a control character is
/// kept as it stands, so a character outside ASCII is kept byte for byte.
#[verifier::opaque]
pub open spec fn string_rest(s: Seq<u8>, at: int, got: Seq<u8>) -> Result<(Seq<u8>, int), Flaw>
    decreases s.len() - at,
{
    if !(0 <= at < s.len()) {
        Err(stop(s, at, "the file ends inside a string"))
    } else if s[at] == 34 {
        Ok((got, at + 1))
    } else if s[at] == 92 {
        match escape(s, at + 1) {
            Err(e) => Err(e),
            Ok((bytes, p)) => if p <= at || p > s.len() {
                Err(stop(s, at, "the file ends inside an escape"))
            } else {
                string_rest(s, p, got + bytes)
            },
        }
    } else if s[at] < 32 {
        Err(stop(s, at, "a control character inside a string is not escaped"))
    } else {
        string_rest(s, at + 1, got.push(s[at]))
    }
}

/// A string that begins at `at`: its decoded bytes, and where it ends.
#[verifier::opaque]
pub open spec fn string(s: Seq<u8>, at: int) -> Result<(Seq<u8>, int), Flaw> {
    if 0 <= at < s.len() && s[at] == 34 {
        string_rest(s, at + 1, seq![])
    } else {
        Err(stop(s, at, "expected \""))
    }
}

/// Where a string ends is past where it begins.
pub proof fn lemma_string_rest_advances(s: Seq<u8>, at: int, got: Seq<u8>)
    ensures
        string_rest(s, at, got) matches Ok((_, p)) ==> at < p <= s.len(),
    decreases s.len() - at,
{
    reveal_with_fuel(string_rest, 1);
    if 0 <= at < s.len() && s[at] != 34 {
        if s[at] == 92 {
            lemma_escape_advances(s, at + 1);
            if let Ok((bytes, p)) = escape(s, at + 1) {
                if p > at && p <= s.len() {
                    lemma_string_rest_advances(s, p, got + bytes);
                }
            }
        } else if s[at] >= 32 {
            lemma_string_rest_advances(s, at + 1, got.push(s[at]));
        }
    }
}

/// A number that begins at `at`, kept as the token it is, and where it ends.
#[verifier::opaque]
pub open spec fn number(s: Seq<u8>, at: int) -> Result<(Value, int), Flaw> {
    let p0 = if 0 <= at < s.len() && s[at] == 45 {
        at + 1
    } else {
        at
    };
    if !(0 <= p0 < s.len() && is_digit(s[p0])) {
        Err(stop(s, p0, "a number with no digits"))
    } else {
        let p1 = if s[p0] == 48 {
            p0 + 1
        } else {
            digits_end(s, p0)
        };
        let point = p1 < s.len() && s[p1] == 46;
        if point && !(p1 + 1 < s.len() && is_digit(s[p1 + 1])) {
            Err(stop(s, p1 + 1, "a number with no digits after its point"))
        } else {
            let p2 = if point {
                digits_end(s, p1 + 1)
            } else {
                p1
            };
            if p2 < s.len() && (s[p2] == 101 || s[p2] == 69) {
                let p3 = if p2 + 1 < s.len() && (s[p2 + 1] == 43 || s[p2 + 1] == 45) {
                    p2 + 2
                } else {
                    p2 + 1
                };
                if !(p3 < s.len() && is_digit(s[p3])) {
                    Err(stop(s, p3, "a number with no digits in its exponent"))
                } else {
                    let p4 = digits_end(s, p3);
                    Ok((Value::Number(s.subrange(at, p4)), p4))
                }
            } else {
                Ok((Value::Number(s.subrange(at, p2)), p2))
            }
        }
    }
}

/// One of the three bare words at `at`, and where it ends.
pub open spec fn word(s: Seq<u8>, at: int, want: Seq<u8>, why: &'static str, is: Value) -> Result<
    (Value, int),
    Flaw,
> {
    if starts_with(s.skip(at), want) {
        Ok((is, at + want.len()))
    } else {
        Err(stop(s, at, why))
    }
}

/// The first member of `members` named `name`.
pub open spec fn named(members: Seq<(Seq<u8>, Value)>, name: Seq<u8>) -> Option<int>
    decreases members.len(),
{
    if members.len() == 0 {
        None
    } else {
        match named(members.drop_last(), name) {
            Some(i) => Some(i),
            None => if members.last().0 == name {
                Some(members.len() - 1)
            } else {
                None
            },
        }
    }
}

/// The larger of two numbers.
pub open spec fn larger(a: nat, b: nat) -> nat {
    if a >= b {
        a
    } else {
        b
    }
}

/// Which part of the grammar a reading is in: a value, an array or an
/// object from its opening bracket, or the elements or members of one from
/// where the reading has got to, with those already read.
pub enum Part {
    Value,
    Array,
    Elements(Seq<Value>),
    Object,
    Members(Seq<(Seq<u8>, Value)>, Seq<nat>),
}

/// Orders the parts that can begin at one byte: the elements or members
/// after a separator come first, then a value, then the bracket it opens.
pub open spec fn rank(part: Part) -> int {
    match part {
        Part::Value => 1,
        Part::Array => 0,
        Part::Object => 0,
        Part::Elements(_) => 2,
        Part::Members(_, _) => 2,
    }
}

/// The grammar, read from byte `at` in the given part of it: what is read,
/// and where it ends.
///
/// A value is read after any whitespace. An array and an object are read
/// from their opening bracket. The elements of an array are read from a
/// value on, each followed by a comma or the closing bracket; the members of
/// an object from a name on, each name a string followed by a colon and a
/// value, and a name that an earlier member has is refused at the later of
/// the two lines.
#[verifier::opaque]
pub open spec fn parse(s: Seq<u8>, at: int, part: Part) -> Result<(Value, int), Flaw>
    decreases s.len() - at, rank(part),
{
    if !(0 <= at <= s.len()) {
        Err(stop(s, at, "the file ends before its value does"))
    } else {
        match part {
            Part::Value => {
                let p = skip_space(s, at);
                proof {
                    lemma_skip_space(s, at);
                }
                if p >= s.len() {
                    Err(stop(s, p, "the file ends before its value does"))
                } else {
                    let b = s[p];
                    if b == 123 {
                        parse(s, p, Part::Object)
                    } else if b == 91 {
                        parse(s, p, Part::Array)
                    } else if b == 34 {
                        match string(s, p) {
                            Err(e) => Err(e),
                            Ok((t, q)) => Ok((Value::Text(t), q)),
                        }
                    } else if b == 116 {
                        word(s, p, seq![116u8, 114u8, 117u8, 101u8], "expected true", Value::Truth(true))
                    } else if b == 102 {
                        word(s, p, seq![102u8, 97u8, 108u8, 115u8, 101u8], "expected false", Value::Truth(false))
                    } else if b == 110 {
                        word(s, p, seq![110u8, 117u8, 108u8, 108u8], "expected null", Value::Nothing)
                    } else if b == 45 || is_digit(b) {
                        number(s, p)
                    } else {
                        Err(stop(s, p, "expected a value"))
                    }
                }
            },
            Part::Array => {
                if at >= s.len() {
                    Err(stop(s, at, "expected ["))
                } else {
                    let p = skip_space(s, at + 1);
                    proof {
                        lemma_skip_space(s, at + 1);
                    }
                    if p < s.len() && s[p] == 93 {
                        Ok((Value::Array(seq![]), p + 1))
                    } else {
                        parse(s, p, Part::Elements(seq![]))
                    }
                }
            },
            Part::Elements(got) => {
                match parse(s, at, Part::Value) {
                    Err(e) => Err(e),
                    Ok((v, r)) => if !(at < r <= s.len()) {
                        Err(stop(s, at, "expected a value"))
                    } else {
                        let q = skip_space(s, r);
                        proof {
                            lemma_skip_space(s, r);
                        }
                        if q < s.len() && s[q] == 44 {
                            parse(s, q + 1, Part::Elements(got.push(v)))
                        } else if q < s.len() && s[q] == 93 {
                            Ok((Value::Array(got.push(v)), q + 1))
                        } else {
                            Err(stop(s, q, "expected , or ] after an element"))
                        }
                    },
                }
            },
            Part::Object => {
                if at >= s.len() {
                    Err(stop(s, at, "expected {"))
                } else {
                    let p = skip_space(s, at + 1);
                    proof {
                        lemma_skip_space(s, at + 1);
                    }
                    if p < s.len() && s[p] == 125 {
                        Ok((Value::Object(seq![]), p + 1))
                    } else {
                        parse(s, at + 1, Part::Members(seq![], seq![]))
                    }
                }
            },
            Part::Members(got, lines) => {
                let p = skip_space(s, at);
                proof {
                    lemma_skip_space(s, at);
                }
                let line = line_of(s, p);
                match string(s, p) {
                    Err(e) => Err(e),
                    Ok((name, q)) => {
                        proof {
                            reveal(string);
                            lemma_string_rest_advances(s, p + 1, seq![]);
                        }
                        let c = skip_space(s, q);
                        proof {
                            lemma_skip_space(s, q);
                        }
                        if !(c < s.len() && s[c] == 58) {
                            Err(stop(s, c, "expected :"))
                        } else {
                            match parse(s, c + 1, Part::Value) {
                                Err(e) => Err(e),
                                Ok((v, r)) => if !(c + 1 < r <= s.len()) {
                                    Err(stop(s, c + 1, "expected a value"))
                                } else {
                                    match named(got, name) {
                                        Some(i) => Err(
                                            Flaw::TwoMembersWithOneName {
                                                line: larger(lines[i], line),
                                                name,
                                            },
                                        ),
                                        None => {
                                            let t = skip_space(s, r);
                                            proof {
                                                lemma_skip_space(s, r);
                                            }
                                            if t < s.len() && s[t] == 44 {
                                                parse(
                                                    s,
                                                    t + 1,
                                                    Part::Members(
                                                        got.push((name, v)),
                                                        lines.push(line),
                                                    ),
                                                )
                                            } else if t < s.len() && s[t] == 125 {
                                                Ok((Value::Object(got.push((name, v))), t + 1))
                                            } else {
                                                Err(stop(s, t, "expected , or } after a member"))
                                            }
                                        },
                                    }
                                },
                            }
                        }
                    },
                }
            },
        }
    }
}

/// The value that begins at `at`, after any whitespace, and where it ends.
pub open spec fn value(s: Seq<u8>, at: int) -> Result<(Value, int), Flaw> {
    parse(s, at, Part::Value)
}

/// What a whole file holds: one value, with nothing but whitespace after it.
pub open spec fn document(s: Seq<u8>) -> Result<Value, Flaw> {
    match value(s, 0) {
        Err(e) => Err(e),
        Ok((v, r)) => {
            let end = skip_space(s, r);
            if end < s.len() {
                Err(stop(s, end, "something follows the value the file holds"))
            } else {
                Ok(v)
            }
        },
    }
}

} // verus!

verus! {

/// A JSON value read from a file.
#[derive(Debug)]
pub enum Node {
    Object(Vec<(Vec<u8>, Node)>),
    Array(Vec<Node>),
    Text(Vec<u8>),
    Number(Vec<u8>),
    Truth(bool),
    Nothing,
}

impl Node {
    /// What the node holds, as a `Value`.
    pub open spec fn value(self) -> Value
        decreases self,
    {
        match self {
            Node::Object(members) => Value::Object(
                Seq::new(
                    members@.len(),
                    |i: int|
                        if 0 <= i < members@.len() {
                            proof {
                                assert(decreases_to!(members => members@));
                                assert(decreases_to!(members@ => members@[i]));
                                assert(decreases_to!(members@[i] => members@[i].1));
                            }
                            (members@[i].0@, members@[i].1.value())
                        } else {
                            (Seq::empty(), Value::Nothing)
                        },
                ),
            ),
            Node::Array(elements) => Value::Array(
                Seq::new(
                    elements@.len(),
                    |i: int|
                        if 0 <= i < elements@.len() {
                            proof {
                                assert(decreases_to!(elements => elements@));
                                assert(decreases_to!(elements@ => elements@[i]));
                            }
                            elements@[i].value()
                        } else {
                            Value::Nothing
                        },
                ),
            ),
            Node::Text(t) => Value::Text(t@),
            Node::Number(t) => Value::Number(t@),
            Node::Truth(b) => Value::Truth(b),
            Node::Nothing => Value::Nothing,
        }
    }
}

} // verus!
