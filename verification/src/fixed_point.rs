//! The form of a form is itself.
//!
//! A record has one spelling. Whatever the reader takes, the form it writes
//! is read back to a value that writes the same bytes, so a record written
//! in the form is left exactly as it stands, and the check never refuses
//! what the formatter wrote.
//!
//! The proof goes through a value in which every object keeps its members
//! in the order their names sort in. Writing a value and writing that
//! sorted value give the same bytes, and reading those bytes gives the
//! sorted value back.

use vstd::prelude::*;
use vstd::utf8::*;
use crate::form::{
    escape_byte, escaped, hex_digit, indent, lines_of, lines_upto, order, render, render_list,
    render_members, sorts_before, text_form,
};
use crate::json::{
    Flaw, Part, Value, digits_end, document, escape, escaped_code_point, four_hex_digits, hex_value,
    is_digit, is_hex, is_json_space, lemma_digits_end, lemma_skip_space, line_of, named, number,
    parse, rank, skip_space, string, string_rest,
};
use crate::canonical::{
    byte_order_mark, canonical_form, lemma_a_record_is_refused_exactly_when_it_is_not_its_form,
    reading, record_says,
};
use crate::sorting::{
    distinct_names, lemma_order_alike, lemma_order_keeps, lemma_order_of_sorted, lemma_order_sorts,
    lemma_sorts_irreflexive, strictly_sorted,
};
use crate::text::{occurs_at, starts_with};

verus! {

// ---------------------------------------------------------------------------
// A string written in the form is read back to its bytes.
proof fn lemma_escaped_concat(a: Seq<u8>, b: Seq<u8>)
    ensures
        escaped(a + b) == escaped(a) + escaped(b),
    decreases b.len(),
{
    if b.len() == 0 {
        assert(a + b =~= a);
        assert(escaped(b) =~= Seq::<u8>::empty());
        assert(escaped(a) + escaped(b) =~= escaped(a));
    } else {
        assert((a + b).drop_last() =~= a + b.drop_last());
        assert((a + b).last() == b.last());
        lemma_escaped_concat(a, b.drop_last());
        assert(escaped(a + b) == escaped(a + b.drop_last()) + escape_byte(b.last()));
        assert(escaped(a) + escaped(b) =~= escaped(a) + escaped(b.drop_last()) + escape_byte(
            b.last(),
        ));
    }
}

/// A string of one byte is written as that byte's piece.
proof fn lemma_escaped_one(b: u8)
    ensures
        escaped(seq![b]) == escape_byte(b),
{
    let one = seq![b];
    assert(one.drop_last() =~= Seq::<u8>::empty());
    assert(one.last() == b);
    assert(escaped(one) == escaped(one.drop_last()) + escape_byte(b));
    assert(escaped(Seq::<u8>::empty()) =~= Seq::<u8>::empty());
    assert(escaped(one) =~= escape_byte(b));
}

/// Every byte of a string is written as a nonempty piece.
proof fn lemma_escape_byte_nonempty(b: u8)
    ensures
        escape_byte(b).len() >= 1,
        escape_byte(b)[0] == 92 || escape_byte(b) == seq![b],
        escape_byte(b)[0] == 92 <==> (b == 34 || b == 92 || b < 32),
{
}

/// Where a string's bytes are valid UTF-8, a byte after one in ASCII is not
/// the continuation of a character.
proof fn lemma_continuation_follows(t: Seq<u8>, j: int)
    requires
        valid_utf8(t),
        0 <= j < t.len(),
        is_continuation_byte(t[j]),
    ensures
        j > 0 && t[j - 1] >= 0x80,
    decreases t.len(),
{
    reveal_with_fuel(valid_utf8, 2);
    let n = length_of_first_scalar(t);
    if j >= n {
        let rest = pop_first_scalar(t);
        assert(rest.len() == t.len() - n);
        assert(rest[j - n] == t[j]);
        if j - n == 0 {
            assert(valid_first_scalar(rest));
        } else {
            lemma_continuation_follows(rest, j - n);
            assert(rest[j - n - 1] == t[j - 1]);
        }
    }
}

/// The bytes of the form of a string at one of its bytes: the piece that
/// byte is written as, and the first byte after it.
proof fn lemma_form_at(s: Seq<u8>, at: int, t: Seq<u8>, i: int)
    requires
        0 <= i < t.len(),
        occurs_at(s, text_form(t), at),
    ensures
        ({
            let pos = at + 1 + escaped(t.take(i)).len();
            let e = escape_byte(t[i]);
            &&& forall|m: int| 0 <= m < e.len() ==> s[pos + m] == #[trigger] e[m]
            &&& pos + e.len() < s.len()
            &&& s[pos + e.len()] == (if i + 1 < t.len() {
                escape_byte(t[i + 1])[0]
            } else {
                34u8
            })
            &&& escaped(t.take(i + 1)).len() == escaped(t.take(i)).len() + e.len()
        }),
{
    let pos = at + 1 + escaped(t.take(i)).len();
    let e = escape_byte(t[i]);
    let rest = t.skip(i + 1);
    lemma_escaped_concat(t.take(i), seq![t[i]] + rest);
    assert(t.take(i) + (seq![t[i]] + rest) =~= t);
    lemma_escaped_concat(seq![t[i]], rest);
    assert(escaped(seq![t[i]]) == escaped(seq![t[i]].drop_last()) + escape_byte(t[i]));
    assert(seq![t[i]].drop_last() =~= Seq::<u8>::empty());
    assert(escaped(seq![t[i]]) =~= e);
    lemma_escaped_concat(t.take(i), seq![t[i]]);
    assert(t.take(i) + seq![t[i]] =~= t.take(i + 1));
    let f = text_form(t);
    assert(f == seq![34u8] + escaped(t.take(i)) + e + escaped(rest) + seq![34u8]);
    assert(s.subrange(at, at + f.len()) == f);
    assert forall|m: int| 0 <= m < e.len() implies s[pos + m] == #[trigger] e[m] by {
        assert(f[1 + escaped(t.take(i)).len() + m] == e[m]);
        assert(s.subrange(at, at + f.len())[1 + escaped(t.take(i)).len() + m] == s[pos + m]);
    }
    let k: int = 1int + escaped(t.take(i)).len() + e.len();
    assert(s.subrange(at, at + f.len())[k] == s[pos + e.len()]);
    if i + 1 < t.len() {
        assert(rest.len() > 0);
        lemma_escaped_concat(seq![rest[0]], rest.drop_first());
        assert(seq![rest[0]] + rest.drop_first() =~= rest);
        lemma_escaped_one(rest[0]);
        lemma_escape_byte_nonempty(rest[0]);
        assert(escaped(rest)[0] == escape_byte(rest[0])[0]);
        assert(f[k] == escaped(rest)[0]);
    } else {
        assert(rest =~= Seq::<u8>::empty());
        assert(escaped(rest) =~= Seq::<u8>::empty());
        assert(f[k] == 34u8);
    }
}

/// A lower case hexadecimal digit is one, and has the value it stands for.
proof fn lemma_hex_digit(d: u8)
    requires
        d < 16,
    ensures
        is_hex(hex_digit(d)),
        hex_value(hex_digit(d)) == d,
{
}

/// Reading the rest of the form of a string from its `i`th byte on gives
/// the whole string, and ends after the closing quote.
proof fn lemma_string_rest_reads(s: Seq<u8>, at: int, t: Seq<u8>, i: int)
    requires
        valid_utf8(t),
        0 <= i <= t.len(),
        0 <= at,
        occurs_at(s, text_form(t), at),
    ensures
        string_rest(s, at + 1 + escaped(t.take(i)).len(), t.take(i)) == Ok::<(Seq<u8>, int), Flaw>(
            (t, at + text_form(t).len()),
        ),
    decreases t.len() - i,
{
    reveal_with_fuel(string_rest, 1);
    let pos = at + 1 + escaped(t.take(i)).len();
    let f = text_form(t);
    if i == t.len() {
        assert(t.take(i) =~= t);
        assert(f.len() == escaped(t).len() + 2);
        assert(s.subrange(at, at + f.len())[f.len() - 1] == s[pos]);
        assert(f[f.len() - 1] == 34u8);
    } else {
        lemma_form_at(s, at, t, i);
        let b = t[i];
        let e = escape_byte(b);
        let next = pos + e.len();
        assert(t.take(i + 1) =~= t.take(i).push(b));
        lemma_string_rest_reads(s, at, t, i + 1);
        assert(string_rest(s, next, t.take(i + 1)) == Ok::<(Seq<u8>, int), Flaw>(
            (t, at + f.len()),
        ));
        assert(s[pos] == e[0]);
        if b == 34 || b == 92 || b == 8 || b == 12 || b == 10 || b == 13 || b == 9 {
            reveal(escape);
            assert(s[pos + 1] == e[1]);
            assert(escape(s, pos + 1) == Ok::<(Seq<u8>, int), Flaw>((seq![b], pos + 2)));
            assert(t.take(i) + seq![b] =~= t.take(i + 1));
        } else if b < 32 {
            reveal(escape);
            reveal(escaped_code_point);
            reveal(four_hex_digits);
            assert(s[pos + 1] == 117u8);
            assert(s[pos + 2] == 48u8 && s[pos + 3] == 48u8);
            assert(s[pos + 4] == hex_digit(b / 16) && s[pos + 5] == hex_digit(b % 16));
            lemma_hex_digit(b / 16);
            lemma_hex_digit(b % 16);
            lemma_hex_digit(0);
            assert(hex_digit(0) == 48u8);
            if i + 1 < t.len() {
                lemma_escape_byte_nonempty(t[i + 1]);
                if is_continuation_byte(s[pos + 6]) {
                    assert(escape_byte(t[i + 1]) == seq![t[i + 1]]);
                    lemma_continuation_follows(t, i + 1);
                }
            }
            let v = (hex_value(s[pos + 2]) * 4096 + hex_value(s[pos + 3]) * 256 + hex_value(
                s[pos + 4],
            ) * 16 + hex_value(s[pos + 5])) as u32;
            assert(v == b as u32);
            assert(four_hex_digits(s, pos + 2) == Ok::<(u32, int), Flaw>((b as u32, pos + 6)));
            assert(is_scalar(b as u32));
            assert(((b as u32) & 0x7F) as u8 == b) by (bit_vector)
                requires
                    b < 32,
            ;
            assert(encode_scalar(b as u32) =~= seq![b]);
            assert(escape(s, pos + 1) == Ok::<(Seq<u8>, int), Flaw>((seq![b], pos + 6)));
            assert(t.take(i) + seq![b] =~= t.take(i + 1));
        } else {
            assert(e == seq![b]);
        }
    }
}

/// A string written in the form is read back to its bytes, and the reading
/// ends after its closing quote.
pub proof fn lemma_string_reads_its_form(s: Seq<u8>, at: int, t: Seq<u8>)
    requires
        valid_utf8(t),
        0 <= at,
        occurs_at(s, text_form(t), at),
    ensures
        string(s, at) == Ok::<(Seq<u8>, int), Flaw>((t, at + text_form(t).len())),
{
    reveal(string);
    lemma_string_rest_reads(s, at, t, 0);
    assert(t.take(0) =~= Seq::<u8>::empty());
    assert(escaped(Seq::<u8>::empty()) =~= Seq::<u8>::empty());
    let f = text_form(t);
    assert(s.subrange(at, at + f.len())[0] == s[at]);
}


// ---------------------------------------------------------------------------
// What the form writes is text.
/// Whether every byte of `t` is in ASCII.
pub open spec fn ascii(t: Seq<u8>) -> bool {
    forall|j: int| 0 <= j < t.len() ==> #[trigger] t[j] < 128
}

/// Bytes all in ASCII are valid UTF-8.
proof fn lemma_ascii_is_text(t: Seq<u8>)
    requires
        ascii(t),
    ensures
        valid_utf8(t),
    decreases t.len(),
{
    if t.len() > 0 {
        let rest = t.subrange(1, t.len() as int);
        assert(ascii(rest)) by {
            assert forall|j: int| 0 <= j < rest.len() implies #[trigger] rest[j] < 128 by {
                assert(rest[j] == t[j + 1]);
            }
        }
        lemma_ascii_is_text(rest);
        assert(t[0] < 128);
        assert(valid_first_scalar(t));
        assert(pop_first_scalar(t) =~= rest);
    }
}

/// A scalar is written as valid UTF-8.
proof fn lemma_scalar_is_text(x: u32)
    requires
        is_scalar(x),
    ensures
        valid_utf8(encode_scalar(x)),
{
    let c = x as char;
    assert(c as u32 == x);
    encode_utf8_valid_utf8(seq![c]);
    assert(seq![c].drop_first() =~= Seq::<char>::empty());
    assert(encode_utf8(seq![c]) =~= encode_scalar(x) + encode_utf8(Seq::<char>::empty()));
    assert(encode_utf8(seq![c]) =~= encode_scalar(x));
}


/// Bytes that need no escape are written as they are.
proof fn lemma_escaped_plain(x: Seq<u8>)
    requires
        forall|j: int| 0 <= j < x.len() ==> #[trigger] x[j] >= 32 && x[j] != 34 && x[j] != 92,
    ensures
        escaped(x) == x,
    decreases x.len(),
{
    if x.len() > 0 {
        let init = x.drop_last();
        assert forall|j: int| 0 <= j < init.len() implies #[trigger] init[j] >= 32 && init[j]
            != 34 && init[j] != 92 by {
            assert(init[j] == x[j]);
        }
        lemma_escaped_plain(init);
        assert(escape_byte(x.last()) =~= seq![x.last()]);
        assert(init.push(x.last()) =~= x);
        assert(escaped(x) =~= x);
    }
}

/// The escapes of a string are text where the string is.
pub proof fn lemma_escaped_is_text(t: Seq<u8>)
    requires
        valid_utf8(t),
    ensures
        valid_utf8(escaped(t)),
    decreases t.len(),
{
    if t.len() > 0 {
        let w = length_of_first_scalar(t);
        let head = t.subrange(0, w);
        let rest = pop_first_scalar(t);
        assert(head + rest =~= t);
        lemma_escaped_concat(head, rest);
        lemma_escaped_is_text(rest);
        if w == 1 {
            assert(head =~= seq![t[0]]);
            lemma_escaped_one(t[0]);
            let e = escape_byte(t[0]);
            assert(ascii(e)) by {
                assert forall|j: int| 0 <= j < e.len() implies #[trigger] e[j] < 128 by {
                    if t[0] < 32 && !(t[0] == 8 || t[0] == 12 || t[0] == 10 || t[0] == 13 || t[0]
                        == 9) {
                        assert(t[0] / 16 < 16 && t[0] % 16 < 16);
                    }
                }
            }
            lemma_ascii_is_text(e);
        } else {
            assert forall|j: int| 0 <= j < head.len() implies #[trigger] head[j] >= 32 && head[j]
                != 34 && head[j] != 92 by {
                assert(head[j] == t[j]);
            }
            lemma_escaped_plain(head);
            reveal_with_fuel(valid_utf8, 2);
            assert(valid_first_scalar(head));
            assert(pop_first_scalar(head) =~= Seq::<u8>::empty());
        }
        valid_utf8_concat(escaped(head), escaped(rest));
    }
}

/// A string written in the form is text where the string is.
pub proof fn lemma_text_form_is_text(t: Seq<u8>)
    requires
        valid_utf8(t),
    ensures
        valid_utf8(text_form(t)),
{
    lemma_escaped_is_text(t);
    let q = seq![34u8];
    assert(ascii(q));
    lemma_ascii_is_text(q);
    valid_utf8_concat(q, escaped(t));
    valid_utf8_concat(q + escaped(t), q);
}


// ---------------------------------------------------------------------------
// The values the form reads back.
/// Whether a token is one number, read whole.
pub open spec fn number_token(t: Seq<u8>) -> bool {
    number(t, 0) == Ok::<(Value, int), Flaw>((Value::Number(t), t.len() as int))
}

/// Whether the form reads a value back: every string and name is text,
/// every number is one number token in ASCII, and no object carries two
/// members with one name.
pub open spec fn readable(v: Value) -> bool
    decreases v,
{
    match v {
        Value::Object(ms) => distinct_names(ms) && readable_members(ms),
        Value::Array(es) => readable_list(es),
        Value::Text(t) => valid_utf8(t),
        Value::Number(t) => number_token(t) && ascii(t),
        Value::Truth(_) => true,
        Value::Nothing => true,
    }
}

/// Whether the form reads each of `es` back.
pub open spec fn readable_list(es: Seq<Value>) -> bool
    decreases es,
{
    if es.len() == 0 {
        true
    } else {
        readable_list(es.drop_last()) && readable(es.last())
    }
}

/// Whether each name of `ms` is text and the form reads each value back.
pub open spec fn readable_members(ms: Seq<(Seq<u8>, Value)>) -> bool
    decreases ms,
{
    if ms.len() == 0 {
        true
    } else {
        readable_members(ms.drop_last()) && valid_utf8(ms.last().0) && readable(ms.last().1)
    }
}

/// Whether every object in a value keeps its members in the order their
/// names sort in, each name before the next.
pub open spec fn in_order(v: Value) -> bool
    decreases v,
{
    match v {
        Value::Object(ms) => strictly_sorted(ms) && in_order_members(ms),
        Value::Array(es) => in_order_list(es),
        _ => true,
    }
}

/// Whether each of `es` is in order.
pub open spec fn in_order_list(es: Seq<Value>) -> bool
    decreases es,
{
    if es.len() == 0 {
        true
    } else {
        in_order_list(es.drop_last()) && in_order(es.last())
    }
}

/// Whether each value of `ms` is in order.
pub open spec fn in_order_members(ms: Seq<(Seq<u8>, Value)>) -> bool
    decreases ms,
{
    if ms.len() == 0 {
        true
    } else {
        in_order_members(ms.drop_last()) && in_order(ms.last().1)
    }
}

/// A value with the members of every object in the order their names sort
/// in.
pub open spec fn canon(v: Value) -> Value
    decreases v,
{
    match v {
        Value::Object(ms) => Value::Object(order(canon_members(ms))),
        Value::Array(es) => Value::Array(canon_list(es)),
        _ => v,
    }
}

/// Each of `es` with its objects ordered.
pub open spec fn canon_list(es: Seq<Value>) -> Seq<Value>
    decreases es,
{
    if es.len() == 0 {
        seq![]
    } else {
        canon_list(es.drop_last()).push(canon(es.last()))
    }
}

/// Each of `ms` with the objects in its value ordered.
pub open spec fn canon_members(ms: Seq<(Seq<u8>, Value)>) -> Seq<(Seq<u8>, Value)>
    decreases ms,
{
    if ms.len() == 0 {
        seq![]
    } else {
        canon_members(ms.drop_last()).push((ms.last().0, canon(ms.last().1)))
    }
}

// ---------------------------------------------------------------------------
// The lists the definitions build, item by item.
proof fn lemma_readable_list_at(es: Seq<Value>)
    ensures
        readable_list(es) <==> forall|i: int| 0 <= i < es.len() ==> readable(#[trigger] es[i]),
    decreases es.len(),
{
    if es.len() > 0 {
        let init = es.drop_last();
        lemma_readable_list_at(init);
        assert forall|i: int| 0 <= i < init.len() implies init[i] == es[i] by {}
        if forall|i: int| 0 <= i < es.len() ==> readable(#[trigger] es[i]) {
            assert(readable(es[es.len() - 1]));
            assert forall|i: int| 0 <= i < init.len() implies readable(#[trigger] init[i]) by {
                assert(readable(es[i]));
            }
        }
    }
}

proof fn lemma_readable_members_at(ms: Seq<(Seq<u8>, Value)>)
    ensures
        readable_members(ms) <==> forall|i: int|
            0 <= i < ms.len() ==> valid_utf8(#[trigger] ms[i].0) && readable(ms[i].1),
    decreases ms.len(),
{
    if ms.len() > 0 {
        let init = ms.drop_last();
        lemma_readable_members_at(init);
        assert forall|i: int| 0 <= i < init.len() implies init[i] == ms[i] by {}
        if forall|i: int| 0 <= i < ms.len() ==> valid_utf8(#[trigger] ms[i].0) && readable(ms[i].1) {
            assert(valid_utf8(ms[ms.len() - 1].0));
            assert forall|i: int| 0 <= i < init.len() implies valid_utf8(#[trigger] init[i].0)
                && readable(init[i].1) by {
                assert(valid_utf8(ms[i].0));
            }
        }
    }
}

proof fn lemma_in_order_list_at(es: Seq<Value>)
    ensures
        in_order_list(es) <==> forall|i: int| 0 <= i < es.len() ==> in_order(#[trigger] es[i]),
    decreases es.len(),
{
    if es.len() > 0 {
        let init = es.drop_last();
        lemma_in_order_list_at(init);
        assert forall|i: int| 0 <= i < init.len() implies init[i] == es[i] by {}
        if forall|i: int| 0 <= i < es.len() ==> in_order(#[trigger] es[i]) {
            assert(in_order(es[es.len() - 1]));
            assert forall|i: int| 0 <= i < init.len() implies in_order(#[trigger] init[i]) by {
                assert(in_order(es[i]));
            }
        }
    }
}

proof fn lemma_in_order_members_at(ms: Seq<(Seq<u8>, Value)>)
    ensures
        in_order_members(ms) <==> forall|i: int| 0 <= i < ms.len() ==> in_order(#[trigger] ms[i].1),
    decreases ms.len(),
{
    if ms.len() > 0 {
        let init = ms.drop_last();
        lemma_in_order_members_at(init);
        assert forall|i: int| 0 <= i < init.len() implies init[i] == ms[i] by {}
        if forall|i: int| 0 <= i < ms.len() ==> in_order(#[trigger] ms[i].1) {
            assert(in_order(ms[ms.len() - 1].1));
            assert forall|i: int| 0 <= i < init.len() implies in_order(#[trigger] init[i].1) by {
                assert(in_order(ms[i].1));
            }
        }
    }
}

proof fn lemma_render_list_at(es: Seq<Value>, d: nat)
    ensures
        render_list(es, d).len() == es.len(),
        forall|i: int| 0 <= i < es.len() ==> #[trigger] render_list(es, d)[i] == render(es[i], d),
    decreases es.len(),
{
    if es.len() > 0 {
        lemma_render_list_at(es.drop_last(), d);
        assert forall|i: int| 0 <= i < es.len() implies #[trigger] render_list(es, d)[i] == render(
            es[i],
            d,
        ) by {
            if i < es.len() - 1 {
                assert(es.drop_last()[i] == es[i]);
            }
        }
    }
}

/// The line of a member: its name, a colon, a space and its value.
pub open spec fn member_line(m: (Seq<u8>, Value), d: nat) -> Seq<u8> {
    text_form(m.0) + seq![58u8, 32u8] + render(m.1, d)
}

proof fn lemma_render_members_at(ms: Seq<(Seq<u8>, Value)>, d: nat)
    ensures
        render_members(ms, d).len() == ms.len(),
        forall|i: int|
            0 <= i < ms.len() ==> #[trigger] render_members(ms, d)[i] == (
                ms[i].0,
                member_line(ms[i], d),
            ),
    decreases ms.len(),
{
    if ms.len() > 0 {
        lemma_render_members_at(ms.drop_last(), d);
        assert forall|i: int| 0 <= i < ms.len() implies #[trigger] render_members(ms, d)[i] == (
            ms[i].0,
            member_line(ms[i], d),
        ) by {
            if i < ms.len() - 1 {
                assert(ms.drop_last()[i] == ms[i]);
            }
        }
    }
}

proof fn lemma_canon_list_at(es: Seq<Value>)
    ensures
        canon_list(es).len() == es.len(),
        forall|i: int| 0 <= i < es.len() ==> #[trigger] canon_list(es)[i] == canon(es[i]),
    decreases es.len(),
{
    if es.len() > 0 {
        lemma_canon_list_at(es.drop_last());
        assert forall|i: int| 0 <= i < es.len() implies #[trigger] canon_list(es)[i] == canon(
            es[i],
        ) by {
            if i < es.len() - 1 {
                assert(es.drop_last()[i] == es[i]);
            }
        }
    }
}

proof fn lemma_canon_members_at(ms: Seq<(Seq<u8>, Value)>)
    ensures
        canon_members(ms).len() == ms.len(),
        forall|i: int|
            0 <= i < ms.len() ==> #[trigger] canon_members(ms)[i] == (ms[i].0, canon(ms[i].1)),
    decreases ms.len(),
{
    if ms.len() > 0 {
        lemma_canon_members_at(ms.drop_last());
        assert forall|i: int| 0 <= i < ms.len() implies #[trigger] canon_members(ms)[i] == (
            ms[i].0,
            canon(ms[i].1),
        ) by {
            if i < ms.len() - 1 {
                assert(ms.drop_last()[i] == ms[i]);
            }
        }
    }
}


// ---------------------------------------------------------------------------
// Where the reading goes over the bytes of the form.
/// Whitespace up to a byte that is not whitespace is skipped to that byte.
proof fn lemma_skip_to(s: Seq<u8>, x: int, y: int)
    requires
        0 <= x <= y <= s.len(),
        forall|j: int| x <= j < y ==> is_json_space(#[trigger] s[j]),
        y == s.len() || !is_json_space(s[y]),
    ensures
        skip_space(s, x) == y,
    decreases y - x,
{
    if x < y {
        lemma_skip_to(s, x + 1, y);
    }
}

/// A value is read the same from before the whitespace in front of it.
proof fn lemma_value_after_space(s: Seq<u8>, x: int)
    requires
        0 <= x <= s.len(),
    ensures
        parse(s, x, Part::Value) == parse(s, skip_space(s, x), Part::Value),
{
    lemma_skip_space(s, x);
    let y = skip_space(s, x);
    lemma_skip_to(s, y, y);
    reveal_with_fuel(parse, 1);
}

/// Where `a + b` stands at `at`, `a` stands at `at` and `b` after it.
proof fn lemma_occurs_split(s: Seq<u8>, a: Seq<u8>, b: Seq<u8>, at: int)
    requires
        occurs_at(s, a + b, at),
    ensures
        occurs_at(s, a, at),
        occurs_at(s, b, at + a.len()),
{
    let w = s.subrange(at, at + (a + b).len());
    assert(w == a + b);
    assert forall|j: int| 0 <= j < a.len() implies s.subrange(at, at + a.len())[j] == a[j] by {
        assert(w[j] == (a + b)[j]);
    }
    assert(s.subrange(at, at + a.len()) =~= a);
    assert forall|j: int| 0 <= j < b.len() implies s.subrange(
        at + a.len(),
        at + a.len() + b.len(),
    )[j] == b[j] by {
        assert(w[a.len() + j] == (a + b)[a.len() + j]);
    }
    assert(s.subrange(at + a.len(), at + a.len() + b.len()) =~= b);
}

/// The bytes of `p` where it stands in `s`.
proof fn lemma_occurs_bytes(s: Seq<u8>, p: Seq<u8>, at: int)
    requires
        occurs_at(s, p, at),
    ensures
        forall|j: int| 0 <= j < p.len() ==> s[at + j] == #[trigger] p[j],
{
    assert forall|j: int| 0 <= j < p.len() implies s[at + j] == #[trigger] p[j] by {
        assert(s.subrange(at, at + p.len())[j] == s[at + j]);
    }
}

/// Where `p` stands in `s` and `q` in `p`, `q` stands in `s`.
proof fn lemma_occurs_within(s: Seq<u8>, p: Seq<u8>, at: int, q: Seq<u8>, i: int)
    requires
        occurs_at(s, p, at),
        occurs_at(p, q, i),
    ensures
        occurs_at(s, q, at + i),
{
    assert(s.subrange(at + i, at + i + q.len()) =~= p.subrange(i, i + q.len()));
}

/// The first lines are the start of all of them.
proof fn lemma_lines_prefix(pieces: Seq<Seq<u8>>, k: int, m: int, depth: nat)
    requires
        0 <= k <= m,
    ensures
        lines_upto(pieces, k, depth).len() <= lines_upto(pieces, m, depth).len(),
        occurs_at(lines_upto(pieces, m, depth), lines_upto(pieces, k, depth), 0),
    decreases m - k,
{
    if k < m {
        lemma_lines_prefix(pieces, k, m - 1, depth);
        let a = lines_upto(pieces, m - 1, depth);
        let b = lines_upto(pieces, m, depth);
        let c = lines_upto(pieces, k, depth);
        assert(b == a + indent(depth) + pieces[m - 1] + (if m < pieces.len() {
            seq![44u8]
        } else {
            seq![]
        }) + seq![10u8]);
        assert(b.subrange(0, c.len() as int) =~= a.subrange(0, c.len() as int));
    } else {
        assert(lines_upto(pieces, k, depth).subrange(0, lines_upto(pieces, k, depth).len() as int)
            =~= lines_upto(pieces, k, depth));
    }
}

/// Where the lines of `pieces` stand in `s`, the bytes of the `k`th line:
/// its indent, its piece, and the comma and line feed after it.
proof fn lemma_line_at(s: Seq<u8>, base: int, pieces: Seq<Seq<u8>>, depth: nat, k: int)
    requires
        occurs_at(s, lines_of(pieces, depth), base),
        0 <= k < pieces.len(),
    ensures
        ({
            let o = base + lines_upto(pieces, k, depth).len();
            let e = o + 2 * depth + pieces[k].len();
            &&& forall|m: int| o <= m < o + 2 * depth ==> #[trigger] s[m] == 32u8
            &&& occurs_at(s, pieces[k], o + 2 * depth)
            &&& k + 1 < pieces.len() ==> s[e] == 44u8 && s[e + 1] == 10u8 && base + lines_upto(
                pieces,
                k + 1,
                depth,
            ).len() == e + 2
            &&& k + 1 == pieces.len() ==> s[e] == 10u8 && base + lines_of(pieces, depth).len()
                == e + 1
            &&& e < base + lines_of(pieces, depth).len()
        }),
{
    let all = lines_of(pieces, depth);
    lemma_lines_prefix(pieces, k + 1, pieces.len() as int, depth);
    let upto = lines_upto(pieces, k + 1, depth);
    lemma_occurs_within(s, all, base, upto, 0);
    let before = lines_upto(pieces, k, depth);
    let comma: Seq<u8> = if k + 1 < pieces.len() {
        seq![44u8]
    } else {
        seq![]
    };
    assert(upto == before + indent(depth) + pieces[k] + comma + seq![10u8]);
    lemma_occurs_bytes(s, upto, base);
    let o = base + before.len();
    assert forall|m: int| o <= m < o + 2 * depth implies #[trigger] s[m] == 32u8 by {
        assert(upto[m - base] == indent(depth)[m - o]);
    }
    let start: int = before.len() + 2int * depth;
    assert(upto.subrange(start, start + pieces[k].len()) =~= pieces[k]);
    lemma_occurs_within(s, upto, base, pieces[k], start);
    let e = o + 2 * depth + pieces[k].len();
    if k + 1 < pieces.len() {
        assert(upto[e - base] == 44u8);
        assert(upto[e + 1 - base] == 10u8);
        assert(upto.len() <= all.len());
    } else {
        assert(upto[e - base] == 10u8);
    }
}


// ---------------------------------------------------------------------------
// A number token read where it stands.
/// A number token opens with a minus sign or a digit.
proof fn lemma_token_opens(t: Seq<u8>)
    requires
        number_token(t),
    ensures
        t.len() > 0,
        t[0] == 45 || is_digit(t[0]),
{
    reveal(number);
}

/// The run of digits in a token, where the byte after the token is not a
/// digit, ends where it ends in the token.
proof fn lemma_digits_within(s: Seq<u8>, a: int, t: Seq<u8>, i: int)
    requires
        occurs_at(s, t, a),
        0 <= i <= t.len(),
        a + t.len() == s.len() || !is_digit(s[a + t.len()]),
    ensures
        digits_end(s, a + i) == a + digits_end(t, i),
    decreases t.len() - i,
{
    lemma_occurs_bytes(s, t, a);
    if i < t.len() {
        assert(s[a + i] == t[i]);
        if is_digit(t[i]) {
            lemma_digits_within(s, a, t, i + 1);
        }
    }
}

/// A number token is read as itself where the byte after it could not go
/// on the number.
proof fn lemma_number_within(s: Seq<u8>, a: int, t: Seq<u8>)
    requires
        number_token(t),
        occurs_at(s, t, a),
        a + t.len() < s.len(),
        !is_digit(s[a + t.len()]),
        s[a + t.len()] != 46,
        s[a + t.len()] != 101,
        s[a + t.len()] != 69,
    ensures
        number(s, a) == Ok::<(Value, int), Flaw>((Value::Number(t), a + t.len())),
{
    lemma_occurs_bytes(s, t, a);
    assert forall|i: int| 0 <= i <= t.len() implies digits_end(s, a + i) == a + #[trigger] digits_end(
        t,
        i,
    ) by {
        lemma_digits_within(s, a, t, i);
    }
    assert forall|i: int| 0 <= i <= t.len() implies i <= #[trigger] digits_end(t, i) <= t.len() by {
        lemma_digits_end(t, i);
    }
    assert(s.subrange(a, a + t.len()) == t);
    reveal(number);
}


// ---------------------------------------------------------------------------
// What the form writes is read back.
/// What the form writes for a value opens with a byte that is not
/// whitespace, not a closing bracket and not the first byte of a byte order
/// mark.
proof fn lemma_render_opens(v: Value, d: nat)
    requires
        readable(v),
    ensures
        render(v, d).len() > 0,
        !is_json_space(render(v, d)[0]),
        render(v, d)[0] != 93,
        render(v, d)[0] != 125,
        render(v, d)[0] != 0xEF,
{
    match v {
        Value::Number(t) => {
            lemma_token_opens(t);
        },
        _ => {},
    }
}

/// No member of `got` is named `name` where none carries that name.
proof fn lemma_not_named(got: Seq<(Seq<u8>, Value)>, name: Seq<u8>)
    requires
        forall|i: int| 0 <= i < got.len() ==> #[trigger] got[i].0 != name,
    ensures
        named(got, name) == None::<int>,
    decreases got.len(),
{
    if got.len() > 0 {
        let init = got.drop_last();
        assert forall|i: int| 0 <= i < init.len() implies #[trigger] init[i].0 != name by {
            assert(init[i] == got[i]);
        }
        lemma_not_named(init, name);
        assert(got.last() == got[got.len() - 1]);
    }
}

/// The whitespace before a closing bracket at `depth`, and the bracket.
pub open spec fn closes(s: Seq<u8>, at: int, depth: nat, bracket: u8) -> bool {
    &&& at + 2 * depth < s.len()
    &&& forall|m: int| at <= m < at + 2 * depth ==> #[trigger] s[m] == 32u8
    &&& s[at + 2 * depth] == bracket
}

/// The lines of an object's members, in the order they are written.
pub open spec fn member_lines(ms: Seq<(Seq<u8>, Value)>, d: nat) -> Seq<Seq<u8>> {
    render_members(ms, d).map_values(|p: (Seq<u8>, Seq<u8>)| p.1)
}

/// Members already in order are written in the order they stand.
proof fn lemma_sorted_members_written(ms: Seq<(Seq<u8>, Value)>, d: nat)
    requires
        strictly_sorted(ms),
    ensures
        order(render_members(ms, d)) == render_members(ms, d),
        member_lines(ms, d).len() == ms.len(),
        forall|k: int| 0 <= k < ms.len() ==> #[trigger] member_lines(ms, d)[k] == member_line(ms[k], d),
{
    lemma_render_members_at(ms, d);
    let rm = render_members(ms, d);
    assert(strictly_sorted(rm)) by {
        assert forall|i: int, j: int| 0 <= i < j < rm.len() implies sorts_before(
            #[trigger] rm[i].0,
            #[trigger] rm[j].0,
        ) by {
            assert(sorts_before(ms[i].0, ms[j].0));
        }
    }
    lemma_order_of_sorted(rm);
}


/// A value the form writes, standing in `s` with a comma or a line feed
/// after it, is read back as itself where it is in order.
pub proof fn lemma_reads_back(s: Seq<u8>, at: int, v: Value, d: nat)
    requires
        readable(v),
        in_order(v),
        occurs_at(s, render(v, d), at),
        at + render(v, d).len() < s.len(),
        s[at + render(v, d).len()] == 44 || s[at + render(v, d).len()] == 10,
    ensures
        parse(s, at, Part::Value) == Ok::<(Value, int), Flaw>((v, at + render(v, d).len())),
    decreases v, 0int,
{
    let r = render(v, d);
    lemma_occurs_bytes(s, r, at);
    lemma_render_opens(v, d);
    lemma_skip_to(s, at, at);
    reveal_with_fuel(parse, 1);
    match v {
        Value::Object(ms) => {
            assert(parse(s, at, Part::Value) == parse(s, at, Part::Object));
            lemma_reads_object(s, at, ms, d);
        },
        Value::Array(es) => {
            assert(parse(s, at, Part::Value) == parse(s, at, Part::Array));
            lemma_reads_array(s, at, es, d);
        },
        Value::Text(t) => {
            lemma_string_reads_its_form(s, at, t);
        },
        Value::Number(t) => {
            lemma_token_opens(t);
            lemma_number_within(s, at, t);
        },
        Value::Truth(b) => {
            assert(s.skip(at).subrange(0, r.len() as int) =~= r);
        },
        Value::Nothing => {
            assert(s.skip(at).subrange(0, r.len() as int) =~= r);
        },
    }
}

proof fn lemma_reads_array(s: Seq<u8>, at: int, es: Seq<Value>, d: nat)
    requires
        readable(Value::Array(es)),
        in_order(Value::Array(es)),
        occurs_at(s, render(Value::Array(es), d), at),
        at + render(Value::Array(es), d).len() < s.len(),
    ensures
        parse(s, at, Part::Array) == Ok::<(Value, int), Flaw>(
            (Value::Array(es), at + render(Value::Array(es), d).len()),
        ),
    decreases es, es.len() + 1,
{
    let r = render(Value::Array(es), d);
    lemma_occurs_bytes(s, r, at);
    if es.len() == 0 {
        lemma_skip_to(s, at + 1, at + 1);
        assert(es =~= Seq::<Value>::empty());
        reveal_with_fuel(parse, 1);
    } else {
        let pieces = render_list(es, d + 1);
        let body = lines_of(pieces, d + 1);
        let open = seq![91u8, 10u8];
        assert(r == open + body + indent(d) + seq![93u8]);
        lemma_occurs_split(s, open + body + indent(d), seq![93u8], at);
        lemma_occurs_split(s, open + body, indent(d), at);
        lemma_occurs_split(s, open, body, at);
        lemma_occurs_bytes(s, indent(d), at + 2 + body.len());
        lemma_occurs_bytes(s, seq![93u8], at + 2 + body.len() + 2 * d);
        assert(seq![93u8][0] == 93u8);
        assert(closes(s, at + 2 + body.len(), d, 93)) by {
            assert forall|m: int| at + 2 + body.len() <= m < at + 2 + body.len() + 2 * d implies #[trigger] s[m]
                == 32u8 by {
                assert(indent(d)[m - (at + 2 + body.len())] == 32u8);
            }
        }
        lemma_render_list_at(es, d + 1);
        lemma_readable_list_at(es);
        lemma_in_order_list_at(es);
        lemma_line_at(s, at + 2, pieces, d + 1, 0);
        assert(lines_upto(pieces, 0, d + 1).len() == 0);
        let first: int = at + 2 + 2 * (d + 1);
        lemma_render_opens(es[0], d + 1);
        lemma_occurs_bytes(s, pieces[0], first);
        assert(s[at + 1] == 10u8);
        lemma_skip_to(s, at + 1, first);
        reveal_with_fuel(parse, 1);
        assert(parse(s, at, Part::Array) == parse(s, first, Part::Elements(seq![])));
        assert(es.take(0) =~= Seq::<Value>::empty());
        lemma_elements_read_back(s, at, es, d, 0, first);
    }
}

proof fn lemma_elements_read_back(s: Seq<u8>, at: int, es: Seq<Value>, d: nat, k: int, x: int)
    requires
        0 <= k < es.len(),
        forall|i: int| 0 <= i < es.len() ==> readable(#[trigger] es[i]) && in_order(es[i]),
        occurs_at(s, lines_of(render_list(es, d + 1), d + 1), at + 2),
        closes(s, at + 2 + lines_of(render_list(es, d + 1), d + 1).len(), d, 93),
        0 <= x,
        x <= at + 2 + lines_upto(render_list(es, d + 1), k, d + 1).len() + 2 * (d + 1),
        skip_space(s, x) == at + 2 + lines_upto(render_list(es, d + 1), k, d + 1).len() + 2 * (d
            + 1),
    ensures
        parse(s, x, Part::Elements(es.take(k))) == Ok::<(Value, int), Flaw>(
            (
                Value::Array(es),
                at + 2 + lines_of(render_list(es, d + 1), d + 1).len() + 2 * d + 1,
            ),
        ),
    decreases es, es.len() - k,
{
    let pieces = render_list(es, d + 1);
    lemma_render_list_at(es, d + 1);
    let o = at + 2 + lines_upto(pieces, k, d + 1).len();
    let st = o + 2 * (d + 1);
    lemma_line_at(s, at + 2, pieces, d + 1, k);
    let e = st + pieces[k].len();
    assert(pieces[k] == render(es[k], d + 1));
    assert(decreases_to!(es => es[k]));
    lemma_reads_back(s, st, es[k], d + 1);
    lemma_value_after_space(s, x);
    assert(es.take(k).push(es[k]) =~= es.take(k + 1));
    reveal_with_fuel(parse, 1);
    if k + 1 < es.len() {
        lemma_skip_to(s, e, e);
        lemma_line_at(s, at + 2, pieces, d + 1, k + 1);
        let st2 = e + 2 + 2 * (d + 1);
        lemma_render_opens(es[k + 1], d + 1);
        lemma_occurs_bytes(s, pieces[k + 1], st2);
        lemma_skip_to(s, e + 1, st2);
        lemma_elements_read_back(s, at, es, d, k + 1, e + 1);
    } else {
        lemma_skip_to(s, e, e + 1 + 2 * d);
        assert(es.take(k + 1) =~= es);
    }
}

proof fn lemma_reads_object(s: Seq<u8>, at: int, ms: Seq<(Seq<u8>, Value)>, d: nat)
    requires
        readable(Value::Object(ms)),
        in_order(Value::Object(ms)),
        occurs_at(s, render(Value::Object(ms), d), at),
        at + render(Value::Object(ms), d).len() < s.len(),
    ensures
        parse(s, at, Part::Object) == Ok::<(Value, int), Flaw>(
            (Value::Object(ms), at + render(Value::Object(ms), d).len()),
        ),
    decreases ms, ms.len() + 2,
{
    let r = render(Value::Object(ms), d);
    lemma_occurs_bytes(s, r, at);
    if ms.len() == 0 {
        lemma_skip_to(s, at + 1, at + 1);
        assert(ms =~= Seq::<(Seq<u8>, Value)>::empty());
        reveal_with_fuel(parse, 1);
    } else {
        lemma_sorted_members_written(ms, d + 1);
        let pieces = member_lines(ms, d + 1);
        assert(order(render_members(ms, d + 1)).map_values(|p: (Seq<u8>, Seq<u8>)| p.1)
            =~= pieces);
        let body = lines_of(pieces, d + 1);
        let open = seq![123u8, 10u8];
        assert(r == open + body + indent(d) + seq![125u8]);
        lemma_occurs_split(s, open + body + indent(d), seq![125u8], at);
        lemma_occurs_split(s, open + body, indent(d), at);
        lemma_occurs_split(s, open, body, at);
        lemma_occurs_bytes(s, indent(d), at + 2 + body.len());
        lemma_occurs_bytes(s, seq![125u8], at + 2 + body.len() + 2 * d);
        assert(seq![125u8][0] == 125u8);
        assert(closes(s, at + 2 + body.len(), d, 125)) by {
            assert forall|m: int| at + 2 + body.len() <= m < at + 2 + body.len() + 2 * d implies #[trigger] s[m]
                == 32u8 by {
                assert(indent(d)[m - (at + 2 + body.len())] == 32u8);
            }
        }
        lemma_readable_members_at(ms);
        lemma_in_order_members_at(ms);
        lemma_line_at(s, at + 2, pieces, d + 1, 0);
        assert(lines_upto(pieces, 0, d + 1).len() == 0);
        let first: int = at + 2 + 2 * (d + 1);
        lemma_occurs_bytes(s, pieces[0], first);
        assert(pieces[0][0] == 34u8);
        assert(s[at + 1] == 10u8);
        lemma_skip_to(s, at + 1, first);
        reveal_with_fuel(parse, 1);
        assert(parse(s, at, Part::Object) == parse(
            s,
            at + 1,
            Part::Members(seq![], seq![]),
        ));
        assert(ms.take(0) =~= Seq::<(Seq<u8>, Value)>::empty());
        lemma_members_read_back(s, at, ms, d, 0, at + 1, seq![]);
    }
}

/// The name, the colon and the value of the `k`th member, read where its
/// line stands.
proof fn lemma_member_reads_back(s: Seq<u8>, ms: Seq<(Seq<u8>, Value)>, k: int, d: nat, st: int)
    requires
        0 <= k < ms.len(),
        valid_utf8(ms[k].0),
        readable(ms[k].1),
        in_order(ms[k].1),
        occurs_at(s, member_line(ms[k], d), st),
        st + member_line(ms[k], d).len() < s.len(),
        s[st + member_line(ms[k], d).len()] == 44 || s[st + member_line(ms[k], d).len()] == 10,
    ensures
        ({
            let q = st + text_form(ms[k].0).len();
            &&& string(s, st) == Ok::<(Seq<u8>, int), Flaw>((ms[k].0, q))
            &&& skip_space(s, q) == q
            &&& q < s.len() && s[q] == 58
            &&& parse(s, q + 1, Part::Value) == Ok::<(Value, int), Flaw>(
                (ms[k].1, st + member_line(ms[k], d).len()),
            )
            &&& q + 1 < st + member_line(ms[k], d).len()
        }),
    decreases ms, ms.len() - k,
{
    let name = ms[k].0;
    let val = ms[k].1;
    let tf = text_form(name);
    lemma_occurs_split(s, tf + seq![58u8, 32u8], render(val, d), st);
    lemma_occurs_split(s, tf, seq![58u8, 32u8], st);
    let q = st + tf.len();
    lemma_occurs_bytes(s, seq![58u8, 32u8], q);
    assert(seq![58u8, 32u8][0] == 58u8 && seq![58u8, 32u8][1] == 32u8);
    lemma_string_reads_its_form(s, st, name);
    lemma_skip_to(s, q, q);
    lemma_render_opens(val, d);
    lemma_occurs_bytes(s, render(val, d), q + 2);
    lemma_skip_to(s, q + 1, q + 2);
    lemma_value_after_space(s, q + 1);
    assert(decreases_to!(ms => ms[k]));
    assert(decreases_to!(ms[k] => ms[k].1));
    lemma_reads_back(s, q + 2, val, d);
}

proof fn lemma_members_read_back(
    s: Seq<u8>,
    at: int,
    ms: Seq<(Seq<u8>, Value)>,
    d: nat,
    k: int,
    x: int,
    lines: Seq<nat>,
)
    requires
        0 <= k < ms.len(),
        strictly_sorted(ms),
        forall|i: int|
            0 <= i < ms.len() ==> valid_utf8(#[trigger] ms[i].0) && readable(ms[i].1) && in_order(
                ms[i].1,
            ),
        occurs_at(s, lines_of(member_lines(ms, d + 1), d + 1), at + 2),
        closes(s, at + 2 + lines_of(member_lines(ms, d + 1), d + 1).len(), d, 125),
        0 <= x,
        x <= at + 2 + lines_upto(member_lines(ms, d + 1), k, d + 1).len() + 2 * (d + 1),
        skip_space(s, x) == at + 2 + lines_upto(member_lines(ms, d + 1), k, d + 1).len() + 2 * (d
            + 1),
    ensures
        parse(s, x, Part::Members(ms.take(k), lines)) == Ok::<(Value, int), Flaw>(
            (
                Value::Object(ms),
                at + 2 + lines_of(member_lines(ms, d + 1), d + 1).len() + 2 * d + 1,
            ),
        ),
    decreases ms, ms.len() - k + 1,
{
    let pieces = member_lines(ms, d + 1);
    lemma_sorted_members_written(ms, d + 1);
    let o = at + 2 + lines_upto(pieces, k, d + 1).len();
    let st = o + 2 * (d + 1);
    lemma_line_at(s, at + 2, pieces, d + 1, k);
    let e = st + pieces[k].len();
    let name = ms[k].0;
    let val = ms[k].1;
    lemma_member_reads_back(s, ms, k, d + 1, st);
    let got = ms.take(k);
    assert forall|i: int| 0 <= i < got.len() implies #[trigger] got[i].0 != name by {
        assert(got[i] == ms[i]);
        assert(sorts_before(ms[i].0, ms[k].0));
        lemma_sorts_irreflexive(name);
    }
    lemma_not_named(got, name);
    assert(got.push((name, val)) =~= ms.take(k + 1));
    reveal_with_fuel(parse, 1);
    if k + 1 < ms.len() {
        lemma_skip_to(s, e, e);
        lemma_line_at(s, at + 2, pieces, d + 1, k + 1);
        let st2 = e + 2 + 2 * (d + 1);
        lemma_occurs_bytes(s, pieces[k + 1], st2);
        assert(pieces[k + 1][0] == 34u8);
        lemma_skip_to(s, e + 1, st2);
        lemma_members_read_back(s, at, ms, d, k + 1, e + 1, lines.push(line_of(s, st)));
    } else {
        lemma_skip_to(s, e, e + 1 + 2 * d);
        assert(ms.take(k + 1) =~= ms);
    }
}


// ---------------------------------------------------------------------------
// Ordering the members of every object changes nothing the form writes.
/// A value and the same value with its objects ordered are written alike,
/// and the ordered value is one the form reads back, in order.
pub proof fn lemma_canon(v: Value)
    requires
        readable(v),
    ensures
        readable(canon(v)),
        in_order(canon(v)),
        forall|d: nat| #[trigger] render(canon(v), d) == render(v, d),
    decreases v,
{
    match v {
        Value::Object(ms) => {
            let cm = canon_members(ms);
            let oc = order(cm);
            lemma_canon_members_at(ms);
            lemma_readable_members_at(ms);
            assert forall|i: int| 0 <= i < ms.len() implies readable(canon(#[trigger] ms[i].1))
                && in_order(canon(ms[i].1)) && forall|d: nat| #[trigger] render(canon(ms[i].1), d)
                == render(ms[i].1, d) by {
                assert(decreases_to!(ms => ms[i]));
                assert(decreases_to!(ms[i] => ms[i].1));
                assert(valid_utf8(ms[i].0));
                lemma_canon(ms[i].1);
            }
            assert(distinct_names(cm)) by {
                assert forall|i: int, j: int| 0 <= i < j < cm.len() implies #[trigger] cm[i].0
                    != #[trigger] cm[j].0 by {
                    assert(ms[i].0 != ms[j].0);
                }
            }
            lemma_order_sorts(cm);
            lemma_order_keeps(cm);
            assert(distinct_names(oc)) by {
                assert forall|i: int, j: int| 0 <= i < j < oc.len() implies #[trigger] oc[i].0
                    != #[trigger] oc[j].0 by {
                    assert(sorts_before(oc[i].0, oc[j].0));
                    lemma_sorts_irreflexive(oc[i].0);
                }
            }
            assert forall|i: int| 0 <= i < oc.len() implies valid_utf8(#[trigger] oc[i].0)
                && readable(oc[i].1) && in_order(oc[i].1) by {
                let j = choose|j: int| 0 <= j < cm.len() && oc[i] == cm[j];
                assert(cm[j] == (ms[j].0, canon(ms[j].1)));
            }
            lemma_readable_members_at(oc);
            lemma_in_order_members_at(oc);
            assert forall|d: nat| #[trigger] render(canon(v), d) == render(v, d) by {
                if ms.len() > 0 {
                    let rm = render_members(ms, d + 1);
                    lemma_render_members_at(ms, d + 1);
                    lemma_sorted_members_written(oc, d + 1);
                    lemma_order_alike(cm, rm);
                    let mine = order(render_members(oc, d + 1)).map_values(
                        |p: (Seq<u8>, Seq<u8>)| p.1,
                    );
                    let theirs = order(rm).map_values(|p: (Seq<u8>, Seq<u8>)| p.1);
                    assert(mine.len() == theirs.len());
                    assert forall|i: int| 0 <= i < mine.len() implies mine[i] == theirs[i] by {
                        let j = choose|j: int|
                            0 <= j < cm.len() && #[trigger] order(cm)[i] == cm[j] && order(rm)[i]
                                == rm[j];
                        assert(member_lines(oc, d + 1)[i] == member_line(oc[i], d + 1));
                        assert(render(canon(ms[j].1), d + 1) == render(ms[j].1, d + 1));
                    }
                    assert(mine =~= theirs);
                }
            }
        },
        Value::Array(es) => {
            let cl = canon_list(es);
            lemma_canon_list_at(es);
            lemma_readable_list_at(es);
            assert forall|i: int| 0 <= i < es.len() implies readable(canon(#[trigger] es[i]))
                && in_order(canon(es[i])) && forall|d: nat| #[trigger] render(canon(es[i]), d)
                == render(es[i], d) by {
                assert(decreases_to!(es => es[i]));
                lemma_canon(es[i]);
            }
            lemma_readable_list_at(cl);
            lemma_in_order_list_at(cl);
            assert forall|d: nat| #[trigger] render(canon(v), d) == render(v, d) by {
                lemma_render_list_at(es, d + 1);
                lemma_render_list_at(cl, d + 1);
                assert(render_list(cl, d + 1) =~= render_list(es, d + 1));
            }
        },
        _ => {},
    }
}


// ---------------------------------------------------------------------------
// What the form writes for a value it reads back is text.
proof fn lemma_text_join(a: Seq<u8>, b: Seq<u8>)
    requires
        valid_utf8(a),
        valid_utf8(b),
    ensures
        valid_utf8(a + b),
{
    valid_utf8_concat(a, b);
}

proof fn lemma_ascii_text(a: Seq<u8>)
    requires
        forall|j: int| 0 <= j < a.len() ==> #[trigger] a[j] < 128,
    ensures
        valid_utf8(a),
{
    lemma_ascii_is_text(a);
}

/// Lines made of text are text.
proof fn lemma_lines_are_text(pieces: Seq<Seq<u8>>, k: int, depth: nat)
    requires
        0 <= k <= pieces.len(),
        forall|i: int| 0 <= i < pieces.len() ==> valid_utf8(#[trigger] pieces[i]),
    ensures
        valid_utf8(lines_upto(pieces, k, depth)),
    decreases k,
{
    if k > 0 {
        lemma_lines_are_text(pieces, k - 1, depth);
        let comma: Seq<u8> = if k < pieces.len() {
            seq![44u8]
        } else {
            seq![]
        };
        lemma_ascii_text(indent(depth));
        lemma_ascii_text(comma);
        lemma_ascii_text(seq![10u8]);
        let a = lines_upto(pieces, k - 1, depth);
        lemma_text_join(a, indent(depth));
        lemma_text_join(a + indent(depth), pieces[k - 1]);
        lemma_text_join(a + indent(depth) + pieces[k - 1], comma);
        lemma_text_join(a + indent(depth) + pieces[k - 1] + comma, seq![10u8]);
    } else {
        lemma_ascii_text(lines_upto(pieces, k, depth));
    }
}

/// What the form writes for a value it reads back, in order, is text.
pub proof fn lemma_render_is_text(v: Value, d: nat)
    requires
        readable(v),
        in_order(v),
    ensures
        valid_utf8(render(v, d)),
    decreases v,
{
    let r = render(v, d);
    match v {
        Value::Object(ms) => {
            if ms.len() == 0 {
                lemma_ascii_text(r);
            } else {
                lemma_sorted_members_written(ms, d + 1);
                lemma_readable_members_at(ms);
                lemma_in_order_members_at(ms);
                let pieces = member_lines(ms, d + 1);
                assert(order(render_members(ms, d + 1)).map_values(|p: (Seq<u8>, Seq<u8>)| p.1)
                    =~= pieces);
                assert forall|i: int| 0 <= i < pieces.len() implies valid_utf8(#[trigger] pieces[i]) by {
                    assert(pieces[i] == member_line(ms[i], d + 1));
                    assert(valid_utf8(ms[i].0));
                    assert(decreases_to!(ms => ms[i]));
                    assert(decreases_to!(ms[i] => ms[i].1));
                    lemma_render_is_text(ms[i].1, d + 1);
                    lemma_text_form_is_text(ms[i].0);
                    lemma_ascii_text(seq![58u8, 32u8]);
                    lemma_text_join(text_form(ms[i].0), seq![58u8, 32u8]);
                    lemma_text_join(text_form(ms[i].0) + seq![58u8, 32u8], render(ms[i].1, d + 1));
                }
                lemma_lines_are_text(pieces, pieces.len() as int, d + 1);
                let open = seq![123u8, 10u8];
                let body = lines_of(pieces, d + 1);
                lemma_ascii_text(open);
                lemma_ascii_text(indent(d));
                lemma_ascii_text(seq![125u8]);
                lemma_text_join(open, body);
                lemma_text_join(open + body, indent(d));
                lemma_text_join(open + body + indent(d), seq![125u8]);
            }
        },
        Value::Array(es) => {
            if es.len() == 0 {
                lemma_ascii_text(r);
            } else {
                lemma_render_list_at(es, d + 1);
                lemma_readable_list_at(es);
                lemma_in_order_list_at(es);
                let pieces = render_list(es, d + 1);
                assert forall|i: int| 0 <= i < pieces.len() implies valid_utf8(#[trigger] pieces[i]) by {
                    assert(decreases_to!(es => es[i]));
                    lemma_render_is_text(es[i], d + 1);
                }
                lemma_lines_are_text(pieces, pieces.len() as int, d + 1);
                let open = seq![91u8, 10u8];
                let body = lines_of(pieces, d + 1);
                lemma_ascii_text(open);
                lemma_ascii_text(indent(d));
                lemma_ascii_text(seq![93u8]);
                lemma_text_join(open, body);
                lemma_text_join(open + body, indent(d));
                lemma_text_join(open + body + indent(d), seq![93u8]);
            }
        },
        Value::Text(t) => {
            lemma_text_form_is_text(t);
        },
        Value::Number(t) => {
            lemma_ascii_is_text(t);
        },
        _ => {
            lemma_ascii_text(r);
        },
    }
}


// ---------------------------------------------------------------------------
// What the reader takes from text is text.
/// A run of bytes that need no escape is read as it stands.
proof fn lemma_plain_run(s: Seq<u8>, at: int, e: int, got: Seq<u8>)
    requires
        0 <= at <= e <= s.len(),
        forall|j: int| at <= j < e ==> #[trigger] s[j] >= 32 && s[j] != 34 && s[j] != 92,
    ensures
        string_rest(s, at, got) == string_rest(s, e, got + s.subrange(at, e)),
    decreases e - at,
{
    if at == e {
        assert(got + s.subrange(at, e) =~= got);
    } else {
        reveal_with_fuel(string_rest, 1);
        lemma_plain_run(s, at + 1, e, got.push(s[at]));
        assert(got.push(s[at]) + s.subrange(at + 1, e) =~= got + s.subrange(at, e));
    }
}

/// Whether `at` is the end of `s` or a byte that begins a character.
pub open spec fn at_boundary(s: Seq<u8>, at: int) -> bool {
    at == s.len() || !is_continuation_byte(s[at])
}

/// The byte after one in ASCII begins a character.
proof fn lemma_after_ascii(s: Seq<u8>, at: int)
    requires
        valid_utf8(s),
        0 <= at < s.len(),
        s[at] < 128,
    ensures
        at_boundary(s, at + 1),
{
    if at + 1 < s.len() && is_continuation_byte(s[at + 1]) {
        lemma_continuation_follows(s, at + 1);
    }
}

/// An escape in text stands for text, and ends where a character begins.
proof fn lemma_escape_is_text(s: Seq<u8>, x: int)
    requires
        valid_utf8(s),
        0 <= x,
    ensures
        escape(s, x) matches Ok((bytes, p)) ==> valid_utf8(bytes) && at_boundary(s, p) && p
            <= s.len(),
{
    reveal(escape);
    reveal(escaped_code_point);
    reveal(four_hex_digits);
    if 0 <= x < s.len() {
        let b = s[x];
        if b == 34 || b == 92 || b == 47 || b == 98 || b == 102 || b == 110 || b == 114 || b
            == 116 {
            lemma_after_ascii(s, x);
            if let Ok((bytes, p)) = escape(s, x) {
                lemma_ascii_text(bytes);
            }
        } else if b == 117 {
            if let Ok((bytes, p)) = escape(s, x) {
                if let Ok((first, p1)) = four_hex_digits(s, x + 1) {
                    if !(0xD800 <= first && first < 0xDC00) {
                        lemma_scalar_is_text(first);
                    } else if let Ok((second, q)) = four_hex_digits(s, p1 + 2) {
                        let joined = (0x10000 + (first - 0xD800) * 1024 + (second - 0xDC00)) as u32;
                        assert(0x10000 <= joined <= 0x10FFFF);
                        lemma_scalar_is_text(joined);
                    }
                }
            }
        }
    }
}

/// The rest of a string read from where a character begins, after text, is
/// text.
proof fn lemma_string_rest_is_text(s: Seq<u8>, at: int, got: Seq<u8>)
    requires
        valid_utf8(s),
        valid_utf8(got),
        0 <= at <= s.len(),
        at_boundary(s, at),
    ensures
        string_rest(s, at, got) matches Ok((t, _)) ==> valid_utf8(t),
    decreases s.len() - at,
{
    reveal_with_fuel(string_rest, 1);
    if at < s.len() && s[at] != 34 {
        let b = s[at];
        if b == 92 {
            lemma_escape_is_text(s, at + 1);
            if let Ok((bytes, p)) = escape(s, at + 1) {
                if p > at && p <= s.len() {
                    lemma_text_join(got, bytes);
                    lemma_string_rest_is_text(s, p, got + bytes);
                }
            }
        } else if b >= 32 {
            if b < 128 {
                lemma_after_ascii(s, at);
                lemma_ascii_text(seq![b]);
                lemma_text_join(got, seq![b]);
                assert(got + seq![b] =~= got.push(b));
                lemma_string_rest_is_text(s, at + 1, got.push(b));
            } else {
                is_char_boundary_iff_not_is_continuation_byte(s, at);
                valid_utf8_split(s, at);
                let rest = s.subrange(at, s.len() as int);
                assert(rest[0] == b);
                let w = length_of_first_scalar(rest);
                assert(2 <= w <= 4);
                let piece = s.subrange(at, at + w);
                assert forall|j: int| 0 <= j < w implies #[trigger] piece[j] == rest[j] by {}
                assert forall|j: int| at <= j < at + w implies #[trigger] s[j] >= 32 && s[j] != 34
                    && s[j] != 92 by {
                    assert(s[j] == rest[j - at]);
                }
                lemma_plain_run(s, at, at + w, got);
                reveal_with_fuel(valid_utf8, 2);
                assert(valid_first_scalar(piece));
                assert(pop_first_scalar(piece) =~= Seq::<u8>::empty());
                assert(valid_utf8(piece));
                lemma_text_join(got, piece);
                let after = pop_first_scalar(rest);
                assert(valid_utf8(after));
                if at + w < s.len() {
                    assert(after[0] == s[at + w]);
                    assert(valid_first_scalar(after));
                }
                lemma_string_rest_is_text(s, at + w, got + piece);
            }
        }
    }
}

/// A string read from text is text.
pub proof fn lemma_string_is_text(s: Seq<u8>, at: int)
    requires
        valid_utf8(s),
        0 <= at,
    ensures
        string(s, at) matches Ok((t, q)) ==> valid_utf8(t) && at < q <= s.len(),
{
    reveal(string);
    if 0 <= at < s.len() && s[at] == 34 {
        lemma_after_ascii(s, at);
        lemma_ascii_text(Seq::<u8>::empty());
        lemma_string_rest_is_text(s, at + 1, seq![]);
        crate::json::lemma_string_rest_advances(s, at + 1, seq![]);
    }
}


// ---------------------------------------------------------------------------
// What the reader takes for a number is one number token.
/// A run of digits that ends inside a token ends at the same place in it.
proof fn lemma_digits_inside(s: Seq<u8>, a: int, t: Seq<u8>, i: int)
    requires
        occurs_at(s, t, a),
        0 <= i <= t.len(),
        digits_end(s, a + i) <= a + t.len(),
    ensures
        digits_end(t, i) == digits_end(s, a + i) - a,
    decreases t.len() - i,
{
    lemma_occurs_bytes(s, t, a);
    lemma_digits_end(s, a + i);
    if i < t.len() {
        assert(s[a + i] == t[i]);
        if is_digit(t[i]) {
            lemma_digits_inside(s, a, t, i + 1);
        }
    }
}

/// The number the reader takes is the token it stood as, one number token
/// in ASCII.
pub proof fn lemma_number_is_token(s: Seq<u8>, a: int)
    requires
        0 <= a,
    ensures
        number(s, a) matches Ok((v, e)) ==> a < e <= s.len() && v == Value::Number(
            s.subrange(a, e),
        ) && number_token(s.subrange(a, e)) && ascii(s.subrange(a, e)),
{
    if let Ok((v, e)) = number(s, a) {
        assert forall|i: int| a <= i <= s.len() implies i <= #[trigger] digits_end(s, i) <= s.len()
            && (forall|j: int| i <= j < digits_end(s, i) ==> is_digit(#[trigger] s[j])) && (i
            < s.len() && is_digit(s[i]) ==> digits_end(s, i) > i) by {
            lemma_digits_end(s, i);
            if i < s.len() && is_digit(s[i]) {
                lemma_digits_end(s, i + 1);
            }
        }
        let p0 = if 0 <= a < s.len() && s[a] == 45 {
            a + 1
        } else {
            a
        };
        let p1 = if s[p0] == 48 {
            p0 + 1
        } else {
            digits_end(s, p0)
        };
        let point = p1 < s.len() && s[p1] == 46;
        let p2 = if point {
            digits_end(s, p1 + 1)
        } else {
            p1
        };
        let exp = p2 < s.len() && (s[p2] == 101 || s[p2] == 69);
        let p3 = if p2 + 1 < s.len() && (s[p2 + 1] == 43 || s[p2 + 1] == 45) {
            p2 + 2
        } else {
            p2 + 1
        };
        assert(p0 < s.len() && is_digit(s[p0]) && (point ==> p1 + 1 < s.len() && is_digit(
            s[p1 + 1],
        )) && (exp ==> p3 < s.len() && is_digit(s[p3]) && e == digits_end(s, p3)) && (!exp ==> e
            == p2) && v == Value::Number(s.subrange(a, e))) by {
            reveal(number);
        }
        assert(p0 < p1 <= p2);
        if exp {
            assert(p2 < p3 < e);
        }
        assert(a < e <= s.len());
        let t = s.subrange(a, e);
        assert(occurs_at(s, t, a));
        lemma_occurs_bytes(s, t, a);
        assert forall|j: int| 0 <= j < t.len() implies #[trigger] t[j] < 128 by {
            assert(t[j] == s[a + j]);
            let k = a + j;
            if k < p0 {
            } else if k < p1 {
                assert(is_digit(s[k]));
            } else if k < p2 {
                if k > p1 {
                    assert(is_digit(s[k]));
                }
            } else if exp && k > p2 + 1 {
                assert(k >= p3);
                assert(is_digit(s[k]));
            }
        }
        let q0 = p0 - a;
        assert(t[0] == s[a]);
        assert(t[q0] == s[p0]);
        if s[p0] != 48 {
            lemma_digits_inside(s, a, t, q0);
        }
        let q1 = p1 - a;
        if p1 < e {
            assert(t[q1] == s[p1]);
        }
        if point {
            assert(t[q1 + 1] == s[p1 + 1]);
            lemma_digits_inside(s, a, t, q1 + 1);
        }
        let q2 = p2 - a;
        if exp {
            assert(t[q2] == s[p2]);
            assert(t[q2 + 1] == s[p2 + 1]);
            assert(t[p3 - a] == s[p3]);
            lemma_digits_inside(s, a, t, p3 - a);
        } else if q2 < t.len() {
            assert(false);
        }
        assert(t.subrange(0, t.len() as int) =~= t);
        assert(number_token(t)) by {
            reveal(number);
        }
    }
}


// ---------------------------------------------------------------------------
// What the reader takes from text is a value the form reads back.
proof fn lemma_named_none(got: Seq<(Seq<u8>, Value)>, name: Seq<u8>)
    ensures
        named(got, name) == None::<int> ==> forall|i: int|
            0 <= i < got.len() ==> #[trigger] got[i].0 != name,
    decreases got.len(),
{
    if got.len() > 0 {
        let init = got.drop_last();
        lemma_named_none(init, name);
        assert forall|i: int| 0 <= i < init.len() implies init[i] == got[i] by {}
    }
}

/// Whether what a part of the reading has read so far is read back.
pub open spec fn part_readable(part: Part) -> bool {
    match part {
        Part::Elements(got) => readable_list(got),
        Part::Members(got, _) => distinct_names(got) && readable_members(got),
        _ => true,
    }
}

/// What the reader takes from text, in any part of the grammar, is a value
/// the form reads back.
pub proof fn lemma_parse_readable(s: Seq<u8>, at: int, part: Part)
    requires
        valid_utf8(s),
        part_readable(part),
    ensures
        parse(s, at, part) matches Ok((v, _)) ==> readable(v),
    decreases s.len() - at, rank(part),
{
    reveal_with_fuel(parse, 1);
    if 0 <= at <= s.len() {
        match part {
            Part::Value => {
                let p = skip_space(s, at);
                lemma_skip_space(s, at);
                if p < s.len() {
                    let b = s[p];
                    if b == 123 {
                        lemma_parse_readable(s, p, Part::Object);
                    } else if b == 91 {
                        lemma_parse_readable(s, p, Part::Array);
                    } else if b == 34 {
                        lemma_string_is_text(s, p);
                    } else if b == 45 || is_digit(b) {
                        lemma_number_is_token(s, p);
                    }
                }
            },
            Part::Array => {
                if at < s.len() {
                    let p = skip_space(s, at + 1);
                    lemma_skip_space(s, at + 1);
                    if !(p < s.len() && s[p] == 93) {
                        lemma_parse_readable(s, p, Part::Elements(seq![]));
                    }
                }
            },
            Part::Elements(got) => {
                lemma_parse_readable(s, at, Part::Value);
                if let Ok((v, r)) = parse(s, at, Part::Value) {
                    if at < r <= s.len() {
                        let q = skip_space(s, r);
                        lemma_skip_space(s, r);
                        let more = got.push(v);
                        assert(more.drop_last() =~= got);
                        assert(readable_list(more));
                        if q < s.len() && s[q] == 44 {
                            lemma_parse_readable(s, q + 1, Part::Elements(more));
                        }
                    }
                }
            },
            Part::Object => {
                if at < s.len() {
                    let p = skip_space(s, at + 1);
                    lemma_skip_space(s, at + 1);
                    if !(p < s.len() && s[p] == 125) {
                        lemma_parse_readable(s, at + 1, Part::Members(seq![], seq![]));
                    }
                }
            },
            Part::Members(got, lines) => {
                let p = skip_space(s, at);
                lemma_skip_space(s, at);
                lemma_string_is_text(s, p);
                if let Ok((name, q)) = string(s, p) {
                    let c = skip_space(s, q);
                    lemma_skip_space(s, q);
                    if c < s.len() && s[c] == 58 {
                        lemma_parse_readable(s, c + 1, Part::Value);
                        if let Ok((v, r)) = parse(s, c + 1, Part::Value) {
                            if c + 1 < r <= s.len() {
                                lemma_named_none(got, name);
                                if named(got, name) is None {
                                    let more = got.push((name, v));
                                    assert(more.drop_last() =~= got);
                                    assert(readable_members(more));
                                    assert(distinct_names(more)) by {
                                        assert forall|i: int, j: int|
                                            0 <= i < j < more.len() implies #[trigger] more[i].0
                                            != #[trigger] more[j].0 by {
                                            assert(more[i] == got[i]);
                                            if j < got.len() {
                                                assert(more[j] == got[j]);
                                            }
                                        }
                                    }
                                    let t = skip_space(s, r);
                                    lemma_skip_space(s, r);
                                    if t < s.len() && s[t] == 44 {
                                        lemma_parse_readable(
                                            s,
                                            t + 1,
                                            Part::Members(more, lines.push(line_of(s, p))),
                                        );
                                    }
                                }
                            }
                        }
                    }
                }
            },
        }
    }
}


// ---------------------------------------------------------------------------
/// The form of a form is itself: where a file has a canonical form, that
/// form has a canonical form, and it is the same bytes. So a record the
/// formatter wrote is left exactly as it stands, and the check never refuses
/// what the formatter wrote. The form reads back to a value in which every
/// object has its members in the order their names sort in.
pub proof fn lemma_the_form_of_a_form_is_itself(s: Seq<u8>)
    requires
        canonical_form(s) is Ok,
    ensures
        canonical_form(canonical_form(s)->Ok_0) == canonical_form(s),
        reading(canonical_form(s)->Ok_0) matches Ok(c) && in_order(c),
{
    let v = reading(s)->Ok_0;
    assert(valid_utf8(s));
    assert(document(s) == Ok::<Value, Flaw>(v));
    lemma_parse_readable(s, 0, Part::Value);
    assert(readable(v));
    lemma_canon(v);
    let c = canon(v);
    let r = render(v, 0);
    assert(render(c, 0) == r);
    let f = r.push(10u8);
    assert(canonical_form(s) == Ok::<Seq<u8>, Flaw>(f));
    lemma_render_opens(c, 0);
    assert(!starts_with(f, byte_order_mark())) by {
        if f.len() >= 3 {
            assert(f.subrange(0, 3)[0] == f[0]);
        }
    }
    lemma_render_is_text(c, 0);
    lemma_ascii_text(seq![10u8]);
    lemma_text_join(r, seq![10u8]);
    assert(r + seq![10u8] =~= f);
    assert(occurs_at(f, r, 0)) by {
        assert(f.subrange(0, r.len() as int) =~= r);
    }
    lemma_reads_back(f, 0, c, 0);
    lemma_skip_to(f, r.len() as int, f.len() as int);
    assert(document(f) == Ok::<Value, Flaw>(c));
    assert(reading(f) == Ok::<Value, Flaw>(c));
}

/// A record holding what the formatter wrote for any file is never refused
/// for its form, whatever it is named.
pub proof fn lemma_what_the_formatter_wrote_is_never_refused(name: Seq<u8>, s: Seq<u8>)
    requires
        canonical_form(s) is Ok,
    ensures
        record_says(name, canonical_form(s)->Ok_0) is None,
{
    lemma_the_form_of_a_form_is_itself(s);
    lemma_a_record_is_refused_exactly_when_it_is_not_its_form(name, canonical_form(s)->Ok_0);
}

} // verus!
