//! Reading what was written: the text of a program reads back as the
//! program.

use crate::color::{lemma_color_eq, Color};
use crate::op::OpView;
use crate::readings::{
    finished, first_digit, id_of, is_space, last_digit, mid_int, parse_one, parse_text,
    parse_tokens, tokens, tokens_after, ParseError,
};
use crate::rect_id::{
    all_digits, decimal, decimal_value, is_digit, lemma_decimal_digits, lemma_decimal_value,
};
use crate::savings::{
    bracketed, int_text, line_of, op_tokens, program_text, word_color, word_cut, word_merge,
    word_swap, AXIS_X, AXIS_Y, CLOSE, COMMA, NEWLINE, OPEN, SPACE,
};
use vstd::prelude::*;

verus! {

/// No byte of `t` is a space.
pub open spec fn no_space(t: Seq<u8>) -> bool {
    forall|i: int| 0 <= i < t.len() ==> !is_space(#[trigger] t[i])
}

/// The operation can be written and read back: no name of it holds a
/// space, and none of its coordinates is negative.
pub open spec fn writable(op: OpView) -> bool {
    match op {
        OpView::CutPoint(id, p) => no_space(id) && p.x >= 0 && p.y >= 0,
        OpView::Color(id, _) => no_space(id),
        OpView::CutY(id, y) => no_space(id) && y >= 0,
        OpView::CutX(id, x) => no_space(id) && x >= 0,
        OpView::Merge(a, b) => no_space(a) && no_space(b),
        OpView::Swap(a, b) => no_space(a) && no_space(b),
    }
}

/// The words of all lines of a program, in order.
pub open spec fn all_tokens(ops: Seq<OpView>) -> Seq<Seq<u8>>
    decreases ops.len(),
{
    if ops.len() == 0 {
        Seq::empty()
    } else {
        op_tokens(ops[0]) + all_tokens(ops.drop_first())
    }
}

/// A word without spaces, a space and more text split into the word and the
/// words of the rest.
pub proof fn lemma_tokens_word(t: Seq<u8>, sep: u8, rest: Seq<u8>, cur: Seq<u8>)
    requires
        no_space(t),
        is_space(sep),
    ensures
        tokens_after(t + seq![sep] + rest, cur) == finished(cur + t) + tokens_after(
            rest,
            Seq::empty(),
        ),
    decreases t.len(),
{
    let s = t + seq![sep] + rest;
    if t.len() == 0 {
        assert(s[0] == sep);
        assert(s.drop_first() =~= rest);
        assert(cur + t =~= cur);
    } else {
        assert(s[0] == t[0]);
        assert(!is_space(t[0]));
        assert(s.drop_first() =~= t.drop_first() + seq![sep] + rest);
        assert forall|i: int| 0 <= i < t.drop_first().len() implies !is_space(
            #[trigger] t.drop_first()[i],
        ) by {
            assert(t.drop_first()[i] == t[i + 1]);
        }
        lemma_tokens_word(t.drop_first(), sep, rest, cur.push(t[0]));
        assert(cur.push(t[0]) + t.drop_first() =~= cur + t);
    }
}

/// A line of words without spaces, and more text, split into the words of
/// the line and the words of the rest.
pub proof fn lemma_tokens_line(ts: Seq<Seq<u8>>, rest: Seq<u8>)
    requires
        forall|i: int| 0 <= i < ts.len() ==> (#[trigger] ts[i]).len() >= 1 && no_space(ts[i]),
    ensures
        tokens(line_of(ts) + rest) == ts + tokens(rest),
    decreases ts.len(),
{
    let e = Seq::<u8>::empty();
    if ts.len() == 0 {
        assert(line_of(ts) + rest =~= rest);
        assert(ts + tokens(rest) =~= tokens(rest));
    } else if ts.len() == 1 {
        lemma_tokens_word(ts[0], NEWLINE, rest, e);
        assert(e + ts[0] =~= ts[0]);
        assert(line_of(ts) + rest =~= ts[0] + seq![NEWLINE] + rest);
        assert(finished(ts[0]) + tokens(rest) =~= ts + tokens(rest));
    } else {
        let tail = ts.drop_first();
        assert forall|i: int| 0 <= i < tail.len() implies (#[trigger] tail[i]).len() >= 1
            && no_space(tail[i]) by {
            assert(tail[i] == ts[i + 1]);
        }
        lemma_tokens_line(tail, rest);
        lemma_tokens_word(ts[0], SPACE, line_of(tail) + rest, e);
        assert(e + ts[0] =~= ts[0]);
        assert(line_of(ts) + rest =~= ts[0] + seq![SPACE] + (line_of(tail) + rest));
        assert(finished(ts[0]) + (tail + tokens(rest)) =~= ts + tokens(rest));
    }
}

/// The text of a number that is not negative is made of digits.
pub proof fn lemma_int_text(v: int)
    requires
        v >= 0,
    ensures
        all_digits(int_text(v)),
        no_space(int_text(v)),
        decimal_value(int_text(v)) == v,
{
    lemma_decimal_digits(v as nat);
    lemma_decimal_value(v as nat);
    let t = int_text(v);
    assert forall|i: int| 0 <= i < t.len() implies !is_space(#[trigger] t[i]) by {
        assert(is_digit(t[i]));
    }
}

/// The text of a number holds no space.
pub proof fn lemma_int_text_no_space(v: int)
    ensures
        no_space(int_text(v)),
        int_text(v).len() >= 1,
{
    let t = int_text(v);
    if v >= 0 {
        lemma_int_text(v);
    } else {
        lemma_decimal_digits((-v) as nat);
        let d = decimal((-v) as nat);
        assert forall|i: int| 0 <= i < t.len() implies !is_space(#[trigger] t[i]) by {
            if i > 0 {
                assert(t[i] == d[i - 1]);
                assert(is_digit(d[i - 1]));
            }
        }
    }
}

/// The words that write an operation without spaces in its names hold no
/// space, and each holds a byte.
pub proof fn lemma_op_tokens_spaceless(op: OpView)
    requires
        writable(op),
    ensures
        forall|i: int|
            0 <= i < op_tokens(op).len() ==> (#[trigger] op_tokens(op)[i]).len() >= 1 && no_space(
                op_tokens(op)[i],
            ),
{
    let ts = op_tokens(op);
    match op {
        OpView::CutPoint(id, p) => {
            lemma_int_text_no_space(p.x as int);
            lemma_int_text_no_space(p.y as int);
            lemma_joined_no_space(seq![OPEN], id, seq![CLOSE]);
            lemma_joined_no_space(seq![OPEN], int_text(p.x as int), seq![COMMA]);
            lemma_joined_no_space(Seq::empty(), int_text(p.y as int), seq![CLOSE]);
            assert(Seq::<u8>::empty() + int_text(p.y as int) + seq![CLOSE] =~= int_text(
                p.y as int,
            ) + seq![CLOSE]);
        },
        OpView::Color(id, c) => {
            lemma_int_text_no_space(c.0[0] as int);
            lemma_int_text_no_space(c.0[1] as int);
            lemma_int_text_no_space(c.0[2] as int);
            lemma_int_text_no_space(c.0[3] as int);
            lemma_joined_no_space(seq![OPEN], id, seq![CLOSE]);
            lemma_joined_no_space(seq![OPEN], int_text(c.0[0] as int), seq![COMMA]);
            lemma_joined_no_space(Seq::empty(), int_text(c.0[1] as int), seq![COMMA]);
            lemma_joined_no_space(Seq::empty(), int_text(c.0[2] as int), seq![COMMA]);
            lemma_joined_no_space(Seq::empty(), int_text(c.0[3] as int), seq![CLOSE]);
            assert(Seq::<u8>::empty() + int_text(c.0[1] as int) + seq![COMMA] =~= int_text(
                c.0[1] as int,
            ) + seq![COMMA]);
            assert(Seq::<u8>::empty() + int_text(c.0[2] as int) + seq![COMMA] =~= int_text(
                c.0[2] as int,
            ) + seq![COMMA]);
            assert(Seq::<u8>::empty() + int_text(c.0[3] as int) + seq![CLOSE] =~= int_text(
                c.0[3] as int,
            ) + seq![CLOSE]);
        },
        OpView::CutY(id, y) => {
            lemma_int_text_no_space(y as int);
            lemma_joined_no_space(seq![OPEN], id, seq![CLOSE]);
            lemma_joined_no_space(seq![OPEN], int_text(y as int), seq![CLOSE]);
        },
        OpView::CutX(id, x) => {
            lemma_int_text_no_space(x as int);
            lemma_joined_no_space(seq![OPEN], id, seq![CLOSE]);
            lemma_joined_no_space(seq![OPEN], int_text(x as int), seq![CLOSE]);
        },
        OpView::Merge(a, b) => {
            lemma_joined_no_space(seq![OPEN], a, seq![CLOSE]);
            lemma_joined_no_space(seq![OPEN], b, seq![CLOSE]);
        },
        OpView::Swap(a, b) => {
            lemma_joined_no_space(seq![OPEN], a, seq![CLOSE]);
            lemma_joined_no_space(seq![OPEN], b, seq![CLOSE]);
        },
    }
}

/// Three runs of bytes without spaces make a run without spaces.
pub proof fn lemma_joined_no_space(a: Seq<u8>, b: Seq<u8>, c: Seq<u8>)
    requires
        no_space(a),
        no_space(b),
        no_space(c),
    ensures
        no_space(a + b + c),
{
    let t = a + b + c;
    assert forall|i: int| 0 <= i < t.len() implies !is_space(#[trigger] t[i]) by {
        if i < a.len() {
            assert(t[i] == a[i]);
        } else if i < a.len() + b.len() {
            assert(t[i] == b[i - a.len()]);
        } else {
            assert(t[i] == c[i - a.len() - b.len()]);
        }
    }
}

/// The words of the text of a program are the words of its lines.
pub proof fn lemma_tokens_program(ops: Seq<OpView>)
    requires
        forall|i: int| 0 <= i < ops.len() ==> writable(#[trigger] ops[i]),
    ensures
        tokens(program_text(ops)) == all_tokens(ops),
    decreases ops.len(),
{
    if ops.len() == 0 {
    } else {
        let tail = ops.drop_first();
        assert forall|i: int| 0 <= i < tail.len() implies writable(#[trigger] tail[i]) by {
            assert(tail[i] == ops[i + 1]);
        }
        lemma_tokens_program(tail);
        assert(writable(ops[0]));
        lemma_op_tokens_spaceless(ops[0]);
        lemma_tokens_line(op_tokens(ops[0]), program_text(tail));
    }
}

/// The first digit of a word that starts with bytes which are no digits
/// comes after them.
pub proof fn lemma_first_digit(pre: Seq<u8>, d: Seq<u8>, post: Seq<u8>, i: int)
    requires
        0 <= i <= pre.len(),
        forall|k: int| 0 <= k < pre.len() ==> !is_digit(#[trigger] pre[k]),
        all_digits(d),
    ensures
        first_digit(pre + d + post, i) == pre.len(),
    decreases pre.len() - i,
{
    let t = pre + d + post;
    if i < pre.len() {
        assert(t[i] == pre[i]);
        lemma_first_digit(pre, d, post, i + 1);
    } else {
        assert(t[i] == d[0]);
    }
}

/// The last digit of a word that ends with bytes which are no digits comes
/// before them.
pub proof fn lemma_last_digit(pre: Seq<u8>, d: Seq<u8>, post: Seq<u8>, i: int)
    requires
        pre.len() + d.len() <= i <= pre.len() + d.len() + post.len(),
        forall|k: int| 0 <= k < post.len() ==> !is_digit(#[trigger] post[k]),
        all_digits(d),
    ensures
        last_digit(pre + d + post, i) == pre.len() + d.len() - 1,
    decreases i,
{
    let t = pre + d + post;
    if i > pre.len() + d.len() {
        assert(t[i - 1] == post[i - 1 - pre.len() - d.len()]);
        lemma_last_digit(pre, d, post, i - 1);
    } else {
        assert(t[i - 1] == d[d.len() - 1]);
    }
}

/// A word that holds the text of a number between bytes which are no
/// digits reads as the number.
pub proof fn lemma_mid_int(pre: Seq<u8>, v: int, post: Seq<u8>)
    requires
        0 <= v <= i32::MAX,
        forall|k: int| 0 <= k < pre.len() ==> !is_digit(#[trigger] pre[k]),
        forall|k: int| 0 <= k < post.len() ==> !is_digit(#[trigger] post[k]),
    ensures
        mid_int(pre + int_text(v) + post) == Ok::<i32, ParseError>(v as i32),
{
    let d = int_text(v);
    lemma_int_text(v);
    let t = pre + d + post;
    lemma_first_digit(pre, d, post, 0);
    lemma_last_digit(pre, d, post, t.len() as int);
    assert(t.subrange(pre.len() as int, (pre.len() + d.len()) as int) =~= d);
}

/// A word that holds a name between brackets reads as the name.
pub proof fn lemma_id_of(id: Seq<u8>)
    ensures
        id_of(bracketed(id)) == Ok::<Seq<u8>, ParseError>(id),
{
    let t = bracketed(id);
    assert(t.subrange(1, t.len() - 1) =~= id);
}

/// The words that write an operation, with more words after them, read as
/// the operation.
pub proof fn lemma_parse_one(op: OpView, rest: Seq<Seq<u8>>)
    requires
        writable(op),
    ensures
        parse_one(op_tokens(op) + rest) == Ok::<(OpView, int), ParseError>(
            (op, op_tokens(op).len() as int),
        ),
{
    let ts = op_tokens(op) + rest;
    let e = Seq::<u8>::empty();
    assert(word_cut() != word_color());
    assert(word_cut().len() != word_merge().len());
    assert(word_cut().len() != word_swap().len());
    assert(word_color().len() != word_swap().len());
    assert(word_color()[0] != word_merge()[0]);
    assert(word_merge().len() != word_swap().len());
    match op {
        OpView::CutPoint(id, p) => {
            assert(ts[0] == word_cut() && ts[1] == bracketed(id));
            lemma_id_of(id);
            lemma_int_text(p.x as int);
            lemma_mid_int(seq![OPEN], p.x as int, seq![COMMA]);
            lemma_mid_int(e, p.y as int, seq![CLOSE]);
            assert(e + int_text(p.y as int) + seq![CLOSE] =~= int_text(p.y as int) + seq![CLOSE]);
            assert(ts[2] == seq![OPEN] + int_text(p.x as int) + seq![COMMA]);
            assert(ts[3] == int_text(p.y as int) + seq![CLOSE]);
            assert(ts[2][1] == int_text(p.x as int)[0]);
            assert(is_digit(int_text(p.x as int)[0]));
        },
        OpView::Color(id, c) => {
            assert(ts[0] == word_color() && ts[1] == bracketed(id));
            lemma_id_of(id);
            lemma_mid_int(seq![OPEN], c.0[0] as int, seq![COMMA]);
            lemma_mid_int(e, c.0[1] as int, seq![COMMA]);
            lemma_mid_int(e, c.0[2] as int, seq![COMMA]);
            lemma_mid_int(e, c.0[3] as int, seq![CLOSE]);
            assert(e + int_text(c.0[1] as int) + seq![COMMA] =~= int_text(c.0[1] as int)
                + seq![COMMA]);
            assert(e + int_text(c.0[2] as int) + seq![COMMA] =~= int_text(c.0[2] as int)
                + seq![COMMA]);
            assert(e + int_text(c.0[3] as int) + seq![CLOSE] =~= int_text(c.0[3] as int)
                + seq![CLOSE]);
            assert(ts[2] == seq![OPEN] + int_text(c.0[0] as int) + seq![COMMA]);
            assert(ts[3] == int_text(c.0[1] as int) + seq![COMMA]);
            assert(ts[4] == int_text(c.0[2] as int) + seq![COMMA]);
            assert(ts[5] == int_text(c.0[3] as int) + seq![CLOSE]);
            let r = c.0[0] as i32;
            let g = c.0[1] as i32;
            let b = c.0[2] as i32;
            let a = c.0[3] as i32;
            let back = Color([(r % 256) as u8, (g % 256) as u8, (b % 256) as u8, (a % 256) as u8]);
            lemma_color_eq(back, c);
        },
        OpView::CutY(id, y) => {
            assert(ts[0] == word_cut() && ts[1] == bracketed(id));
            lemma_id_of(id);
            lemma_mid_int(seq![OPEN], y as int, seq![CLOSE]);
            assert(ts[2] == seq![OPEN, AXIS_Y, CLOSE]);
            assert(ts[3] == seq![OPEN] + int_text(y as int) + seq![CLOSE]);
        },
        OpView::CutX(id, x) => {
            assert(ts[0] == word_cut() && ts[1] == bracketed(id));
            lemma_id_of(id);
            lemma_mid_int(seq![OPEN], x as int, seq![CLOSE]);
            assert(ts[2] == seq![OPEN, AXIS_X, CLOSE]);
            assert(ts[3] == seq![OPEN] + int_text(x as int) + seq![CLOSE]);
        },
        OpView::Merge(a, b) => {
            assert(ts[0] == word_merge() && ts[1] == bracketed(a) && ts[2] == bracketed(b));
            lemma_id_of(a);
            lemma_id_of(b);
        },
        OpView::Swap(a, b) => {
            assert(ts[0] == word_swap() && ts[1] == bracketed(a) && ts[2] == bracketed(b));
            lemma_id_of(a);
            lemma_id_of(b);
        },
    }
}

/// The words of the lines of a program read as the program.
pub proof fn lemma_parse_program(ops: Seq<OpView>)
    requires
        forall|i: int| 0 <= i < ops.len() ==> writable(#[trigger] ops[i]),
    ensures
        parse_tokens(all_tokens(ops)) == Ok::<Seq<OpView>, ParseError>(ops),
    decreases ops.len(),
{
    if ops.len() == 0 {
        assert(ops =~= Seq::<OpView>::empty());
    } else {
        let tail = ops.drop_first();
        assert forall|i: int| 0 <= i < tail.len() implies writable(#[trigger] tail[i]) by {
            assert(tail[i] == ops[i + 1]);
        }
        lemma_parse_program(tail);
        assert(writable(ops[0]));
        lemma_parse_one(ops[0], all_tokens(tail));
        let ts = all_tokens(ops);
        let used = op_tokens(ops[0]).len() as int;
        assert(ts.skip(used) =~= all_tokens(tail));
        assert(seq![ops[0]] + tail =~= ops);
    }
}

/// Round trip: the text of a program reads back as the program, if no name
/// in the program holds a space and no coordinate is negative.
pub proof fn lemma_round_trip(ops: Seq<OpView>)
    requires
        forall|i: int| 0 <= i < ops.len() ==> writable(#[trigger] ops[i]),
    ensures
        parse_text(program_text(ops)) == Ok::<Seq<OpView>, ParseError>(ops),
{
    lemma_tokens_program(ops);
    lemma_parse_program(ops);
}

} // verus!
