//! The canonical form: how a value is written back.
//!
//! Two spaces per level of nesting, one member or element to a line, object
//! members in the order their names sort in by bytes, strings with the
//! escapes the grammar requires and no others, and a number written back
//! exactly as its token stood. An object or an array with nothing in it is
//! written on one line.

use vstd::prelude::*;
use crate::json::{Node, Value};
use crate::scan::{elements_value, lemma_array_value, lemma_object_value, members_value};
use crate::text::push_all;

verus! {

/// Two spaces per level of nesting.
pub open spec fn indent(depth: nat) -> Seq<u8> {
    Seq::new(2 * depth, |i: int| 32u8)
}

/// A lower case hexadecimal digit.
pub open spec fn hex_digit(d: u8) -> u8 {
    if d < 10 {
        (48 + d) as u8
    } else {
        (87 + d) as u8
    }
}

/// How one byte of a string is written: a quote, a backslash and the control
/// characters are escaped, with the short escape where the grammar has one
/// and `\u` with lower case digits where it has none, and every other byte is
/// written as it is.
pub open spec fn escape_byte(b: u8) -> Seq<u8> {
    if b == 34 {
        seq![92u8, 34u8]
    } else if b == 92 {
        seq![92u8, 92u8]
    } else if b == 8 {
        seq![92u8, 98u8]
    } else if b == 12 {
        seq![92u8, 102u8]
    } else if b == 10 {
        seq![92u8, 110u8]
    } else if b == 13 {
        seq![92u8, 114u8]
    } else if b == 9 {
        seq![92u8, 116u8]
    } else if b < 32 {
        seq![92u8, 117u8, 48u8, 48u8, hex_digit(b / 16), hex_digit(b % 16)]
    } else {
        seq![b]
    }
}

/// The bytes of a string, escaped.
pub open spec fn escaped(t: Seq<u8>) -> Seq<u8>
    decreases t.len(),
{
    if t.len() == 0 {
        seq![]
    } else {
        escaped(t.drop_last()) + escape_byte(t.last())
    }
}

/// A string as the form writes it, in quotes.
pub open spec fn text_form(t: Seq<u8>) -> Seq<u8> {
    seq![34u8] + escaped(t) + seq![34u8]
}

/// The first `k` of `pieces`, each on a line of its own at `depth`, each but
/// the last of all of them followed by a comma.
pub open spec fn lines_upto(pieces: Seq<Seq<u8>>, k: int, depth: nat) -> Seq<u8>
    decreases k,
{
    if k <= 0 {
        seq![]
    } else {
        lines_upto(pieces, k - 1, depth) + indent(depth) + pieces[k - 1] + (if k < pieces.len() {
            seq![44u8]
        } else {
            seq![]
        }) + seq![10u8]
    }
}

/// Every one of `pieces` on a line of its own at `depth`.
pub open spec fn lines_of(pieces: Seq<Seq<u8>>, depth: nat) -> Seq<u8> {
    lines_upto(pieces, pieces.len() as int, depth)
}

/// Whether the bytes of `a` sort before those of `b`.
pub open spec fn sorts_before(a: Seq<u8>, b: Seq<u8>) -> bool
    decreases a.len(),
{
    if a.len() == 0 {
        b.len() > 0
    } else if b.len() == 0 {
        false
    } else if a[0] != b[0] {
        a[0] < b[0]
    } else {
        sorts_before(a.drop_first(), b.drop_first())
    }
}

/// The first of `ps` whose name no other name sorts before.
pub open spec fn least<T>(ps: Seq<(Seq<u8>, T)>) -> int
    decreases ps.len(),
{
    if ps.len() <= 1 {
        0
    } else {
        let k = least(ps.drop_last());
        if sorts_before(ps.last().0, ps[k].0) {
            ps.len() - 1
        } else {
            k
        }
    }
}

/// `ps` in the order their names sort in, and where two names are equal, in
/// the order they came in.
pub open spec fn order<T>(ps: Seq<(Seq<u8>, T)>) -> Seq<(Seq<u8>, T)>
    decreases ps.len(),
{
    if ps.len() == 0 {
        seq![]
    } else {
        proof {
            lemma_least(ps);
        }
        seq![ps[least(ps)]] + order(ps.remove(least(ps)))
    }
}

pub proof fn lemma_least<T>(ps: Seq<(Seq<u8>, T)>)
    ensures
        ps.len() > 0 ==> 0 <= least(ps) < ps.len(),
    decreases ps.len(),
{
    if ps.len() > 1 {
        lemma_least(ps.drop_last());
    }
}

/// A value written in the form at `depth`.
pub open spec fn render(v: Value, depth: nat) -> Seq<u8>
    decreases v,
{
    match v {
        Value::Object(ms) => if ms.len() == 0 {
            seq![123u8, 125u8]
        } else {
            seq![123u8, 10u8] + lines_of(
                order(render_members(ms, depth + 1)).map_values(|p: (Seq<u8>, Seq<u8>)| p.1),
                depth + 1,
            ) + indent(depth) + seq![125u8]
        },
        Value::Array(es) => if es.len() == 0 {
            seq![91u8, 93u8]
        } else {
            seq![91u8, 10u8] + lines_of(render_list(es, depth + 1), depth + 1) + indent(depth)
                + seq![93u8]
        },
        Value::Text(t) => text_form(t),
        Value::Number(t) => t,
        Value::Truth(b) => if b {
            seq![116u8, 114u8, 117u8, 101u8]
        } else {
            seq![102u8, 97u8, 108u8, 115u8, 101u8]
        },
        Value::Nothing => seq![110u8, 117u8, 108u8, 108u8],
    }
}

/// Each of `es` written in the form at `depth`.
pub open spec fn render_list(es: Seq<Value>, depth: nat) -> Seq<Seq<u8>>
    decreases es,
{
    if es.len() == 0 {
        seq![]
    } else {
        render_list(es.drop_last(), depth).push(render(es.last(), depth))
    }
}

/// Each of `ms` with its name, and the line that writes it at `depth`:
/// the name, a colon, a space and the value.
pub open spec fn render_members(ms: Seq<(Seq<u8>, Value)>, depth: nat) -> Seq<(Seq<u8>, Seq<u8>)>
    decreases ms,
{
    if ms.len() == 0 {
        seq![]
    } else {
        render_members(ms.drop_last(), depth).push(
            (
                ms.last().0,
                text_form(ms.last().0) + seq![58u8, 32u8] + render(ms.last().1, depth),
            ),
        )
    }
}

// ---------------------------------------------------------------------------
/// Writes a string with the escapes the grammar requires and no others.
pub fn write_text(text: &[u8], out: &mut Vec<u8>)
    ensures
        final(out)@ == old(out)@ + text_form(text@),
{
    let ghost start = out@;
    out.push(34);
    let mut i: usize = 0;
    while i < text.len()
        invariant
            0 <= i <= text@.len(),
            out@ == start + seq![34u8] + escaped(text@.take(i as int)),
        decreases text@.len() - i,
    {
        let b = text[i];
        let ghost before = out@;
        if b == 34 {
            out.push(92);
            out.push(34);
        } else if b == 92 {
            out.push(92);
            out.push(92);
        } else if b == 8 {
            out.push(92);
            out.push(98);
        } else if b == 12 {
            out.push(92);
            out.push(102);
        } else if b == 10 {
            out.push(92);
            out.push(110);
        } else if b == 13 {
            out.push(92);
            out.push(114);
        } else if b == 9 {
            out.push(92);
            out.push(116);
        } else if b < 32 {
            out.push(92);
            out.push(117);
            out.push(48);
            out.push(48);
            out.push(hex_digit_exec(b / 16));
            out.push(hex_digit_exec(b % 16));
        } else {
            out.push(b);
        }
        assert(out@ =~= before + escape_byte(b));
        assert(text@.take(i + 1).drop_last() =~= text@.take(i as int));
        i = i + 1;
    }
    assert(text@.take(text@.len() as int) =~= text@);
    out.push(34);
}

fn hex_digit_exec(d: u8) -> (r: u8)
    requires
        d < 16,
    ensures
        r == hex_digit(d),
{
    if d < 10 {
        48 + d
    } else {
        87 + d
    }
}

/// Whether the bytes of `a` sort before those of `b`.
pub fn sorts_before_exec(a: &[u8], b: &[u8]) -> (r: bool)
    ensures
        r == sorts_before(a@, b@),
{
    let mut i: usize = 0;
    assert(a@.skip(0) =~= a@);
    assert(b@.skip(0) =~= b@);
    while i < a.len() && i < b.len() && a[i] == b[i]
        invariant
            0 <= i <= a@.len(),
            i <= b@.len(),
            sorts_before(a@, b@) == sorts_before(a@.skip(i as int), b@.skip(i as int)),
        decreases a@.len() - i,
    {
        assert(a@.skip(i as int).drop_first() =~= a@.skip(i + 1));
        assert(b@.skip(i as int).drop_first() =~= b@.skip(i + 1));
        i = i + 1;
    }
    if i == a.len() {
        i < b.len()
    } else if i == b.len() {
        false
    } else {
        a[i] < b[i]
    }
}

/// The byte strings a list holds.
pub open spec fn seqs_of(v: Seq<Vec<u8>>) -> Seq<Seq<u8>> {
    Seq::new(v.len(), |i: int| v[i]@)
}

/// The pairs a list of name and text holds, as the form states them.
pub open spec fn pairs_of(v: Seq<(Vec<u8>, Vec<u8>)>) -> Seq<(Seq<u8>, Seq<u8>)> {
    Seq::new(v.len(), |i: int| (v[i].0@, v[i].1@))
}

/// The first of `ps` whose name no other name sorts before.
fn least_exec(ps: &Vec<(Vec<u8>, Vec<u8>)>) -> (k: usize)
    requires
        ps@.len() > 0,
    ensures
        k == least(pairs_of(ps@)),
        k < ps@.len(),
{
    let ghost all = pairs_of(ps@);
    let mut k: usize = 0;
    let mut i: usize = 1;
    while i < ps.len()
        invariant
            1 <= i <= ps@.len(),
            all == pairs_of(ps@),
            k < i,
            k == least(all.take(i as int)),
        decreases ps@.len() - i,
    {
        let ghost prefix = all.take(i + 1);
        assert(prefix.drop_last() =~= all.take(i as int));
        if sorts_before_exec(ps[i].0.as_slice(), ps[k].0.as_slice()) {
            k = i;
        }
        i = i + 1;
    }
    assert(all.take(ps@.len() as int) =~= all);
    k
}

/// `ps` in the order their names sort in.
pub fn order_exec(ps: Vec<(Vec<u8>, Vec<u8>)>) -> (r: Vec<(Vec<u8>, Vec<u8>)>)
    ensures
        pairs_of(r@) == order(pairs_of(ps@)),
{
    let mut rest = ps;
    let mut r: Vec<(Vec<u8>, Vec<u8>)> = Vec::new();
    let ghost goal = order(pairs_of(ps@));
    loop
        invariant
            goal == order(pairs_of(ps@)),
            goal == pairs_of(r@) + order(pairs_of(rest@)),
        decreases rest@.len(),
    {
        if rest.len() == 0 {
            assert(pairs_of(rest@) =~= Seq::<(Seq<u8>, Seq<u8>)>::empty());
            assert(goal =~= pairs_of(r@));
            return r;
        }
        let k = least_exec(&rest);
        let ghost before = pairs_of(rest@);
        let ghost done = pairs_of(r@);
        let p = rest.remove(k);
        proof {
            assert(pairs_of(rest@) =~= before.remove(k as int));
        }
        r.push(p);
        proof {
            assert(pairs_of(r@) =~= done.push(before[k as int]));
            assert(order(before) == seq![before[least(before)]] + order(before.remove(least(before))));
            assert(goal =~= pairs_of(r@) + order(pairs_of(rest@)));
        }
    }
}

/// Writes `pieces`, each on a line of its own after `pad`, each but the last
/// followed by a comma.
pub fn write_lines(pieces: &Vec<Vec<u8>>, pad: &Vec<u8>, out: &mut Vec<u8>, Ghost(depth): Ghost<nat>)
    requires
        pad@ == indent(depth),
    ensures
        final(out)@ == old(out)@ + lines_of(seqs_of(pieces@), depth),
{
    let ghost start = out@;
    let ghost ps = seqs_of(pieces@);
    let mut i: usize = 0;
    while i < pieces.len()
        invariant
            0 <= i <= pieces@.len(),
            ps == seqs_of(pieces@),
            ps.len() == pieces@.len(),
            pad@ == indent(depth),
            out@ == start + lines_upto(ps, i as int, depth),
        decreases pieces@.len() - i,
    {
        let ghost before = out@;
        push_all(out, pad.as_slice());
        push_all(out, pieces[i].as_slice());
        if i + 1 < pieces.len() {
            out.push(44);
        }
        out.push(10);
        proof {
            assert(ps[i as int] == pieces@[i as int]@);
            let comma: Seq<u8> = if i + 1 < ps.len() {
                seq![44u8]
            } else {
                seq![]
            };
            assert(out@ =~= before + indent(depth) + ps[i as int] + comma + seq![10u8]);
        }
        i = i + 1;
    }
}

/// Two more spaces than `pad`.
fn deeper(pad: &Vec<u8>, Ghost(depth): Ghost<nat>) -> (r: Vec<u8>)
    requires
        pad@ == indent(depth),
    ensures
        r@ == indent(depth + 1),
{
    let mut r: Vec<u8> = Vec::new();
    push_all(&mut r, pad.as_slice());
    r.push(32);
    r.push(32);
    assert(r@ =~= indent(depth + 1));
    r
}

/// Writes one value in the form, at the depth `pad` indents to.
///
/// An object or an array with nothing in it is written on one line, because
/// the rule puts one member or element on a line and such a value has none.
pub fn write_node(node: &Node, pad: &Vec<u8>, out: &mut Vec<u8>, Ghost(depth): Ghost<nat>)
    requires
        pad@ == indent(depth),
    ensures
        final(out)@ == old(out)@ + render(node.value(), depth),
    decreases node,
{
    match node {
        Node::Object(members) => {
            proof {
                lemma_object_value(*members);
            }
            write_object(members, pad, out, Ghost(depth));
        },
        Node::Array(elements) => {
            proof {
                lemma_array_value(*elements);
            }
            write_array(elements, pad, out, Ghost(depth));
        },
        Node::Text(t) => {
            write_text(t.as_slice(), out);
        },
        Node::Number(t) => {
            push_all(out, t.as_slice());
        },
        Node::Truth(b) => {
            let ghost before = out@;
            if *b {
                out.push(116);
                out.push(114);
                out.push(117);
                out.push(101);
            } else {
                out.push(102);
                out.push(97);
                out.push(108);
                out.push(115);
                out.push(101);
            }
            assert(out@ =~= before + render(node.value(), depth));
        },
        Node::Nothing => {
            let ghost before = out@;
            out.push(110);
            out.push(117);
            out.push(108);
            out.push(108);
            assert(out@ =~= before + render(node.value(), depth));
        },
    }
}

/// Writes an object with its members in the order their names sort in.
pub fn write_object(
    members: &Vec<(Vec<u8>, Node)>,
    pad: &Vec<u8>,
    out: &mut Vec<u8>,
    Ghost(depth): Ghost<nat>,
)
    requires
        pad@ == indent(depth),
    ensures
        final(out)@ == old(out)@ + render(Value::Object(members_value(members@)), depth),
    decreases members, 1int,
{
    let ghost ms = members_value(members@);
    let ghost start = out@;
    if members.len() == 0 {
        out.push(123);
        out.push(125);
        assert(out@ =~= start + render(Value::Object(ms), depth));
        return;
    }
    let inner = deeper(pad, Ghost(depth));
    let mut pairs: Vec<(Vec<u8>, Vec<u8>)> = Vec::new();
    let mut i: usize = 0;
    assert(ms.take(0) =~= Seq::<(Seq<u8>, Value)>::empty());
    assert(pairs_of(pairs@) =~= Seq::<(Seq<u8>, Seq<u8>)>::empty());
    while i < members.len()
        invariant
            0 <= i <= members@.len(),
            ms == members_value(members@),
            inner@ == indent(depth + 1),
            pairs_of(pairs@) == render_members(ms.take(i as int), depth + 1),
        decreases members@.len() - i,
    {
        let mut piece: Vec<u8> = Vec::new();
        write_text(members[i].0.as_slice(), &mut piece);
        piece.push(58);
        piece.push(32);
        let ghost head = piece@;
        assert(head =~= text_form(members@[i as int].0@) + seq![58u8, 32u8]);
        proof {
            assert(decreases_to!(members => members@));
            assert(decreases_to!(members@ => members@[i as int]));
            assert(decreases_to!(members@[i as int] => members@[i as int].1));
        }
        write_node(&members[i].1, &inner, &mut piece, Ghost(depth + 1));
        let name = crate::text::copy_range(members[i].0.as_slice(), 0, members[i].0.len());
        proof {
            assert(members[i as int].0@.subrange(0, members[i as int].0@.len() as int)
                =~= members[i as int].0@);
        }
        let ghost old_pairs = pairs@;
        let ghost name_v = name@;
        let ghost piece_v = piece@;
        pairs.push((name, piece));
        proof {
            reveal_with_fuel(render_members, 2);
            let t = ms.take(i + 1);
            assert(t.drop_last() =~= ms.take(i as int));
            assert(t.last() == (members@[i as int].0@, members@[i as int].1.value()));
            assert(pairs_of(pairs@) =~= pairs_of(old_pairs).push((name_v, piece_v)));
        }
        i = i + 1;
    }
    assert(ms.take(members@.len() as int) =~= ms);
    let sorted = order_exec(pairs);
    let ghost target = order(render_members(ms, depth + 1)).map_values(
        |p: (Seq<u8>, Seq<u8>)| p.1,
    );
    let mut lines: Vec<Vec<u8>> = Vec::new();
    let mut k: usize = 0;
    while k < sorted.len()
        invariant
            0 <= k <= sorted@.len(),
            pairs_of(sorted@) == order(render_members(ms, depth + 1)),
            target == order(render_members(ms, depth + 1)).map_values(
                |p: (Seq<u8>, Seq<u8>)| p.1,
            ),
            lines@.len() == k,
            forall|j: int| 0 <= j < k ==> #[trigger] lines@[j]@ == target[j],
        decreases sorted@.len() - k,
    {
        let line = crate::text::copy_range(sorted[k].1.as_slice(), 0, sorted[k].1.len());
        proof {
            assert(sorted[k as int].1@.subrange(0, sorted[k as int].1@.len() as int)
                =~= sorted[k as int].1@);
            assert(pairs_of(sorted@)[k as int].1 == sorted@[k as int].1@);
        }
        let ghost old_lines = lines@;
        lines.push(line);
        proof {
            assert forall|j: int| 0 <= j < k + 1 implies #[trigger] lines@[j]@ == target[j] by {
                if j < k {
                    assert(lines@[j] == old_lines[j]);
                }
            }
        }
        k = k + 1;
    }
    assert(seqs_of(lines@) =~= target);
    out.push(123);
    out.push(10);
    write_lines(&lines, &inner, out, Ghost(depth + 1));
    push_all(out, pad.as_slice());
    out.push(125);
    proof {
        reveal_with_fuel(render, 2);
        reveal_with_fuel(render_members, 2);
        assert(render(Value::Object(ms), depth) == seq![123u8, 10u8] + lines_of(target, depth + 1)
            + indent(depth) + seq![125u8]);
    }
    assert(out@ =~= start + render(Value::Object(ms), depth));
}

/// Writes an array, keeping the order it was written in.
pub fn write_array(elements: &Vec<Node>, pad: &Vec<u8>, out: &mut Vec<u8>, Ghost(depth): Ghost<nat>)
    requires
        pad@ == indent(depth),
    ensures
        final(out)@ == old(out)@ + render(Value::Array(elements_value(elements@)), depth),
    decreases elements, 1int,
{
    let ghost es = elements_value(elements@);
    let ghost start = out@;
    if elements.len() == 0 {
        out.push(91);
        out.push(93);
        assert(out@ =~= start + render(Value::Array(es), depth));
        return;
    }
    let inner = deeper(pad, Ghost(depth));
    let mut lines: Vec<Vec<u8>> = Vec::new();
    let mut i: usize = 0;
    assert(es.take(0) =~= Seq::<Value>::empty());
    assert(seqs_of(lines@) =~= Seq::<Seq<u8>>::empty());
    while i < elements.len()
        invariant
            0 <= i <= elements@.len(),
            es == elements_value(elements@),
            inner@ == indent(depth + 1),
            seqs_of(lines@) == render_list(es.take(i as int), depth + 1),
        decreases elements@.len() - i,
    {
        let mut piece: Vec<u8> = Vec::new();
        proof {
            assert(decreases_to!(elements => elements@));
            assert(decreases_to!(elements@ => elements@[i as int]));
        }
        write_node(&elements[i], &inner, &mut piece, Ghost(depth + 1));
        let ghost old_lines = lines@;
        let ghost piece_v = piece@;
        lines.push(piece);
        proof {
            reveal_with_fuel(render_list, 2);
            let t = es.take(i + 1);
            assert(t.drop_last() =~= es.take(i as int));
            assert(t.last() == elements@[i as int].value());
            assert(seqs_of(lines@) =~= seqs_of(old_lines).push(piece_v));
        }
        i = i + 1;
    }
    assert(es.take(elements@.len() as int) =~= es);
    out.push(91);
    out.push(10);
    write_lines(&lines, &inner, out, Ghost(depth + 1));
    push_all(out, pad.as_slice());
    out.push(93);
    proof {
        reveal_with_fuel(render, 2);
        reveal_with_fuel(render_list, 2);
        assert(render(Value::Array(es), depth) == seq![91u8, 10u8] + lines_of(
            render_list(es, depth + 1),
            depth + 1,
        ) + indent(depth) + seq![93u8]);
    }
    assert(out@ =~= start + render(Value::Array(es), depth));
}

} // verus!
