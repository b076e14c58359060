//! What is written out: programs as text, pictures as bytes, and the rule
//! by which a score replaces a saved one.

use crate::color::Color;
use crate::op::{ops_view, Op, OpView};
use crate::rect_id::{decimal, rect_id_from_usize};
use crate::test_case::is_grid;
use vstd::prelude::*;

verus! {

/// The byte ` `.
pub const SPACE: u8 = 32;

/// The byte that ends a line.
pub const NEWLINE: u8 = 10;

/// The byte `[`.
pub const OPEN: u8 = 91;

/// The byte `]`.
pub const CLOSE: u8 = 93;

/// The byte `,`.
pub const COMMA: u8 = 44;

/// The byte `-`.
pub const MINUS: u8 = 45;

/// The byte `X`.
pub const AXIS_X: u8 = 88;

/// The byte `Y`.
pub const AXIS_Y: u8 = 89;

/// The word `cut`.
pub open spec fn word_cut() -> Seq<u8> {
    seq![99u8, 117u8, 116u8]
}

/// The word `color`.
pub open spec fn word_color() -> Seq<u8> {
    seq![99u8, 111u8, 108u8, 111u8, 114u8]
}

/// The word `merge`.
pub open spec fn word_merge() -> Seq<u8> {
    seq![109u8, 101u8, 114u8, 103u8, 101u8]
}

/// The word `swap`.
pub open spec fn word_swap() -> Seq<u8> {
    seq![115u8, 119u8, 97u8, 112u8]
}

/// The decimal notation of `v`, with a minus sign before it if `v` is
/// negative.
pub open spec fn int_text(v: int) -> Seq<u8> {
    if v < 0 {
        seq![MINUS] + decimal((-v) as nat)
    } else {
        decimal(v as nat)
    }
}

/// The name `id` between brackets.
pub open spec fn bracketed(id: Seq<u8>) -> Seq<u8> {
    seq![OPEN] + id + seq![CLOSE]
}

/// The words of the line that writes the operation `op`.
pub open spec fn op_tokens(op: OpView) -> Seq<Seq<u8>> {
    match op {
        OpView::CutPoint(id, p) => seq![
            word_cut(),
            bracketed(id),
            seq![OPEN] + int_text(p.x as int) + seq![COMMA],
            int_text(p.y as int) + seq![CLOSE],
        ],
        OpView::Color(id, c) => seq![
            word_color(),
            bracketed(id),
            seq![OPEN] + int_text(c.0[0] as int) + seq![COMMA],
            int_text(c.0[1] as int) + seq![COMMA],
            int_text(c.0[2] as int) + seq![COMMA],
            int_text(c.0[3] as int) + seq![CLOSE],
        ],
        OpView::CutY(id, y) => seq![
            word_cut(),
            bracketed(id),
            seq![OPEN, AXIS_Y, CLOSE],
            bracketed(int_text(y as int)),
        ],
        OpView::CutX(id, x) => seq![
            word_cut(),
            bracketed(id),
            seq![OPEN, AXIS_X, CLOSE],
            bracketed(int_text(x as int)),
        ],
        OpView::Merge(a, b) => seq![word_merge(), bracketed(a), bracketed(b)],
        OpView::Swap(a, b) => seq![word_swap(), bracketed(a), bracketed(b)],
    }
}

/// The words `ts`, a space after each but the last, which a line end
/// follows.
pub open spec fn line_of(ts: Seq<Seq<u8>>) -> Seq<u8>
    decreases ts.len(),
{
    if ts.len() == 0 {
        Seq::empty()
    } else if ts.len() == 1 {
        ts[0] + seq![NEWLINE]
    } else {
        ts[0] + seq![SPACE] + line_of(ts.drop_first())
    }
}

/// The text of a program: a line for each operation.
pub open spec fn program_text(ops: Seq<OpView>) -> Seq<u8>
    decreases ops.len(),
{
    if ops.len() == 0 {
        Seq::empty()
    } else {
        line_of(op_tokens(ops[0])) + program_text(ops.drop_first())
    }
}

/// Appends the text of the number `v` to `out`.
fn push_int(out: &mut Vec<u8>, v: i32)
    ensures
        final(out)@ == old(out)@ + int_text(v as int),
{
    if v < 0 {
        out.push(MINUS);
        let magnitude: i64 = -(v as i64);
        let mut digits = rect_id_from_usize(magnitude as usize);
        let ghost before = out@;
        out.append(&mut digits);
        assert(out@ =~= old(out)@ + int_text(v as int));
    } else {
        let mut digits = rect_id_from_usize(v as usize);
        out.append(&mut digits);
    }
}

/// Appends the bytes of `word` to `out`, and `end` after them.
fn push_bytes(out: &mut Vec<u8>, word: &Vec<u8>, end: u8)
    ensures
        final(out)@ == old(out)@ + word@ + seq![end],
{
    let mut i: usize = 0;
    assert(old(out)@ + word@.take(0) =~= old(out)@);
    while i < word.len()
        invariant
            i <= word@.len(),
            out@ == old(out)@ + word@.take(i as int),
        decreases word@.len() - i,
    {
        out.push(word[i]);
        assert(old(out)@ + word@.take(i + 1) =~= (old(out)@ + word@.take(i as int)).push(
            word@[i as int],
        ));
        i = i + 1;
    }
    assert(word@.take(i as int) =~= word@);
    out.push(end);
    assert(out@ =~= old(out)@ + word@ + seq![end]);
}

/// The name `id` between brackets.
fn bracket(id: &Vec<u8>) -> (t: Vec<u8>)
    ensures
        t@ == bracketed(id@),
{
    let mut t: Vec<u8> = Vec::new();
    t.push(OPEN);
    push_bytes(&mut t, id, CLOSE);
    assert(t@ =~= bracketed(id@));
    t
}

/// The text of the number `v` after `open`, if it is given, and before
/// `close`.
fn number_token(open: Option<u8>, v: i32, close: u8) -> (t: Vec<u8>)
    ensures
        t@ == (match open {
            Some(b) => seq![b] + int_text(v as int) + seq![close],
            None => int_text(v as int) + seq![close],
        }),
{
    let mut t: Vec<u8> = Vec::new();
    match open {
        Some(b) => {
            t.push(b);
        },
        None => {},
    }
    push_int(&mut t, v);
    t.push(close);
    proof {
        match open {
            Some(b) => {
                assert(t@ =~= seq![b] + int_text(v as int) + seq![close]);
            },
            None => {
                assert(t@ =~= int_text(v as int) + seq![close]);
            },
        }
    }
    t
}

/// The views of the words `ts`.
pub open spec fn token_views(ts: Seq<Vec<u8>>) -> Seq<Seq<u8>> {
    Seq::new(ts.len(), |i: int| ts[i]@)
}

/// A word from its bytes.
fn word(bytes: &[u8]) -> (t: Vec<u8>)
    ensures
        t@ == bytes@,
{
    let mut t: Vec<u8> = Vec::new();
    let mut i: usize = 0;
    while i < bytes.len()
        invariant
            i <= bytes@.len(),
            t@ == bytes@.take(i as int),
        decreases bytes@.len() - i,
    {
        t.push(bytes[i]);
        assert(bytes@.take(i + 1) =~= bytes@.take(i as int).push(bytes@[i as int]));
        i = i + 1;
    }
    assert(bytes@.take(i as int) =~= bytes@);
    t
}

/// The words of the line that writes the operation `op`.
pub fn tokens_of_op(op: &Op) -> (ts: Vec<Vec<u8>>)
    ensures
        token_views(ts@) == op_tokens(op@),
{
    let mut ts: Vec<Vec<u8>> = Vec::new();
    match op {
        Op::CutPoint(id, p) => {
            ts.push(word(&[99, 117, 116]));
            ts.push(bracket(id));
            ts.push(number_token(Some(OPEN), p.x, COMMA));
            ts.push(number_token(None, p.y, CLOSE));
        },
        Op::Color(id, c) => {
            ts.push(word(&[99, 111, 108, 111, 114]));
            ts.push(bracket(id));
            ts.push(number_token(Some(OPEN), c.0[0] as i32, COMMA));
            ts.push(number_token(None, c.0[1] as i32, COMMA));
            ts.push(number_token(None, c.0[2] as i32, COMMA));
            ts.push(number_token(None, c.0[3] as i32, CLOSE));
        },
        Op::CutY(id, y) => {
            ts.push(word(&[99, 117, 116]));
            ts.push(bracket(id));
            ts.push(word(&[OPEN, AXIS_Y, CLOSE]));
            let t = number_token(Some(OPEN), *y, CLOSE);
            assert(t@ =~= bracketed(int_text(*y as int)));
            ts.push(t);
        },
        Op::CutX(id, x) => {
            ts.push(word(&[99, 117, 116]));
            ts.push(bracket(id));
            ts.push(word(&[OPEN, AXIS_X, CLOSE]));
            let t = number_token(Some(OPEN), *x, CLOSE);
            assert(t@ =~= bracketed(int_text(*x as int)));
            ts.push(t);
        },
        Op::Merge(a, b) => {
            ts.push(word(&[109, 101, 114, 103, 101]));
            ts.push(bracket(a));
            ts.push(bracket(b));
        },
        Op::Swap(a, b) => {
            ts.push(word(&[115, 119, 97, 112]));
            ts.push(bracket(a));
            ts.push(bracket(b));
        },
    }
    assert(token_views(ts@) =~= op_tokens(op@));
    ts
}

/// The line that writes the operation `op`.
pub fn render_op(op: &Op) -> (line: Vec<u8>)
    ensures
        line@ == line_of(op_tokens(op@)),
{
    let ts = tokens_of_op(op);
    let ghost all = token_views(ts@);
    let mut line: Vec<u8> = Vec::new();
    let mut i: usize = 0;
    assert(all.skip(0) =~= all);
    assert(line@ + line_of(all) =~= line_of(all));
    while i < ts.len()
        invariant
            i <= ts@.len(),
            all == token_views(ts@),
            line@ + line_of(all.skip(i as int)) == line_of(all),
        decreases ts@.len() - i,
    {
        let end = if i + 1 == ts.len() {
            NEWLINE
        } else {
            SPACE
        };
        let ghost before = line@;
        let ghost rest = all.skip(i as int);
        push_bytes(&mut line, &ts[i], end);
        proof {
            assert(rest[0] == ts@[i as int]@);
            assert(rest.drop_first() =~= all.skip(i + 1));
            if i + 1 == ts@.len() {
                assert(rest.len() == 1);
                assert(line_of(all.skip(i + 1)) =~= Seq::<u8>::empty());
                assert(line@ + line_of(all.skip(i + 1)) =~= before + line_of(rest));
            } else {
                assert(line@ + line_of(all.skip(i + 1)) =~= before + line_of(rest));
            }
        }
        i = i + 1;
    }
    assert(line_of(all.skip(i as int)) =~= Seq::<u8>::empty());
    assert(line@ + Seq::<u8>::empty() =~= line@);
    line
}

/// The text of the program `ops`: a line for each operation.
pub fn render_ops(ops: &[Op]) -> (text: Vec<u8>)
    ensures
        text@ == program_text(ops_view(ops@)),
{
    let ghost all = ops_view(ops@);
    let mut text: Vec<u8> = Vec::new();
    let mut i: usize = 0;
    assert(all.skip(0) =~= all);
    assert(text@ + program_text(all) =~= program_text(all));
    while i < ops.len()
        invariant
            i <= ops@.len(),
            all == ops_view(ops@),
            text@ + program_text(all.skip(i as int)) == program_text(all),
        decreases ops@.len() - i,
    {
        let mut line = render_op(&ops[i]);
        let ghost before = text@;
        let ghost rest = all.skip(i as int);
        text.append(&mut line);
        proof {
            assert(rest[0] == ops@[i as int]@);
            assert(rest.drop_first() =~= all.skip(i + 1));
            assert(text@ + program_text(all.skip(i + 1)) =~= before + program_text(rest));
        }
        i = i + 1;
    }
    assert(program_text(all.skip(i as int)) =~= Seq::<u8>::empty());
    assert(text@ + Seq::<u8>::empty() =~= text@);
    text
}

/// Tells whether `score` is to take the place of the score `saved` before,
/// if there is one: it is only if it is strictly better, which is lower.
pub fn replaces_saved(saved: Option<u128>, score: u128) -> (r: bool)
    ensures
        r == (match saved {
            Some(prev) => score < prev,
            None => true,
        }),
{
    match saved {
        Some(prev) => score < prev,
        None => true,
    }
}

/// The bytes of a square picture, row by row from the top row on, each row
/// from the left, four bytes for each pixel.
pub fn image_buffer(a: &Vec<Vec<Color>>) -> (buffer: Vec<u8>)
    requires
        a@.len() >= 1,
        is_grid(a@, a@.len() as int, a@.len() as int),
        a@.len() * a@.len() * 4 <= usize::MAX,
    ensures
        buffer@.len() == a@.len() * a@.len() * 4,
        forall|row: int, col: int, k: int|
            0 <= row < a@.len() && 0 <= col < a@.len() && 0 <= k < 4 ==> buffer@[(row * a@.len()
                + col) * 4 + k] == (#[trigger] a@[col]@[a@.len() - 1 - row].0[k]),
{
    let width = a[0].len();
    let height = a.len();
    let mut buffer: Vec<u8> = Vec::new();
    let mut x: usize = 0;
    while x < height
        invariant
            x <= height,
            width == height,
            height == a@.len(),
            is_grid(a@, height as int, height as int),
            buffer@.len() == x * width * 4,
            forall|row: int, col: int, k: int|
                0 <= row < x && 0 <= col < width && 0 <= k < 4 ==> buffer@[(row * width + col) * 4
                    + k] == (#[trigger] a@[col]@[height - 1 - row].0[k]),
        decreases height - x,
    {
        let mut y: usize = 0;
        while y < width
            invariant
                x < height,
                y <= width,
                width == height,
                height == a@.len(),
                is_grid(a@, height as int, height as int),
                buffer@.len() == (x * width + y) * 4,
                forall|row: int, col: int, k: int|
                    0 <= row < height && 0 <= col < width && 0 <= k < 4 && (row < x || (row == x
                        && col < y)) ==> buffer@[(row * width + col) * 4 + k] == (
                    #[trigger] a@[col]@[height - 1 - row].0[k]),
            decreases width - y,
        {
            assert(a@[y as int].len() == height);
            let c = a[y][height - 1 - x];
            let ghost before = buffer@;
            buffer.push(c.0[0]);
            buffer.push(c.0[1]);
            buffer.push(c.0[2]);
            buffer.push(c.0[3]);
            proof {
                assert((x * width + y + 1) * 4 == (x * width + y) * 4 + 4) by (nonlinear_arith);
                assert forall|row: int, col: int, k: int|
                    0 <= row < height && 0 <= col < width && 0 <= k < 4 && (row < x || (row == x
                        && col < y + 1)) implies buffer@[(row * width + col) * 4 + k] == (
                #[trigger] a@[col]@[height - 1 - row].0[k]) by {
                    if row == x && col == y {
                    } else {
                        assert(row * width + col < x * width + y) by (nonlinear_arith)
                            requires
                                0 <= row,
                                0 <= col < width,
                                row < x || (row == x && col < y),
                        ;
                        assert(before[(row * width + col) * 4 + k] == a@[col]@[height - 1
                            - row].0[k]);
                    }
                }
            }
            y = y + 1;
        }
        proof {
            assert((x + 1) * width * 4 == (x * width + width) * 4) by (nonlinear_arith);
        }
        x = x + 1;
    }
    buffer
}

} // verus!
