//! What is read in: the text of a program and the text of an instance.

use crate::color::Color;
use crate::op::{ops_view, Op, OpView};
use crate::rect_id::{all_digits, decimal_value, is_digit, RectId, ZERO_DIGIT};
use crate::savings::{
    token_views, word_color, word_cut, word_merge, word_swap, AXIS_X, AXIS_Y, CLOSE, OPEN,
};
use crate::picture::{cells, fill, filled, new_picture, uniform};
use crate::test_case::{is_grid, Rect, Region, TestCase};
use crate::utils::Point;
use vstd::prelude::*;

verus! {

/// Why a text cannot be read.
#[derive(Clone, Copy, Debug, PartialEq, Eq, Structural)]
pub enum ParseError {
    /// A line starts with a word that names no operation.
    UnknownCommand,
    /// The text ends in the middle of an operation or of an instance.
    UnexpectedEnd,
    /// A name does not stand between brackets.
    BadId,
    /// A word holds no number, or one that is too large.
    BadNumber,
    /// The numbers of an instance describe no canvas.
    BadCase,
}

/// `b` is a blank, a tab or the end of a line.
pub open spec fn is_space(b: u8) -> bool {
    b == 32 || b == 9 || b == 10 || b == 13
}

/// The word `cur`, if it holds a byte.
pub open spec fn finished(cur: Seq<u8>) -> Seq<Seq<u8>> {
    if cur.len() > 0 {
        seq![cur]
    } else {
        Seq::empty()
    }
}

/// The words of `s`, after the bytes `cur` of a word that has begun: the
/// runs of bytes between spaces.
pub open spec fn tokens_after(s: Seq<u8>, cur: Seq<u8>) -> Seq<Seq<u8>>
    decreases s.len(),
{
    if s.len() == 0 {
        finished(cur)
    } else if is_space(s[0]) {
        finished(cur) + tokens_after(s.drop_first(), Seq::empty())
    } else {
        tokens_after(s.drop_first(), cur.push(s[0]))
    }
}

/// The words of the text `s`.
pub open spec fn tokens(s: Seq<u8>) -> Seq<Seq<u8>> {
    tokens_after(s, Seq::empty())
}

/// The position of the first digit of `t` from `i` on, or the length of `t`
/// if there is none.
pub open spec fn first_digit(t: Seq<u8>, i: int) -> int
    decreases t.len() - i,
{
    if i >= t.len() {
        t.len() as int
    } else if is_digit(t[i]) {
        i
    } else {
        first_digit(t, i + 1)
    }
}

/// The position of the last digit of `t` before `i`, or `-1` if there is
/// none.
pub open spec fn last_digit(t: Seq<u8>, i: int) -> int
    decreases i,
{
    if i <= 0 {
        -1
    } else if is_digit(t[i - 1]) {
        i - 1
    } else {
        last_digit(t, i - 1)
    }
}

/// The number that the word `t` holds between its first and its last
/// digit.
pub open spec fn mid_int(t: Seq<u8>) -> Result<i32, ParseError> {
    let f = first_digit(t, 0);
    let l = last_digit(t, t.len() as int);
    if f > l {
        Err(ParseError::BadNumber)
    } else {
        let middle = t.subrange(f, l + 1);
        if !all_digits(middle) || decimal_value(middle) > i32::MAX {
            Err(ParseError::BadNumber)
        } else {
            Ok(decimal_value(middle) as i32)
        }
    }
}

/// The name that the word `t` holds between brackets.
pub open spec fn id_of(t: Seq<u8>) -> Result<Seq<u8>, ParseError> {
    if t.len() >= 2 && t[0] == OPEN && t.last() == CLOSE {
        Ok(t.subrange(1, t.len() - 1))
    } else {
        Err(ParseError::BadId)
    }
}

/// The operation that the words `ts` start with, and the number of words
/// that write it.
pub open spec fn parse_one(ts: Seq<Seq<u8>>) -> Result<(OpView, int), ParseError> {
    if ts.len() == 0 {
        Err(ParseError::UnexpectedEnd)
    } else if ts[0] == word_cut() {
        if ts.len() < 4 {
            Err(ParseError::UnexpectedEnd)
        } else {
            match id_of(ts[1]) {
                Err(e) => Err(e),
                Ok(id) => if ts[2].len() >= 2 && (ts[2][1] == AXIS_Y || ts[2][1] == AXIS_X) {
                    match mid_int(ts[3]) {
                        Err(e) => Err(e),
                        Ok(v) => if ts[2][1] == AXIS_Y {
                            Ok((OpView::CutY(id, v), 4))
                        } else {
                            Ok((OpView::CutX(id, v), 4))
                        },
                    }
                } else {
                    match (mid_int(ts[2]), mid_int(ts[3])) {
                        (Ok(x), Ok(y)) => Ok((OpView::CutPoint(id, Point { x, y }), 4)),
                        (Err(e), _) => Err(e),
                        (_, Err(e)) => Err(e),
                    }
                },
            }
        }
    } else if ts[0] == word_color() {
        if ts.len() < 6 {
            Err(ParseError::UnexpectedEnd)
        } else {
            match id_of(ts[1]) {
                Err(e) => Err(e),
                Ok(id) => match (mid_int(ts[2]), mid_int(ts[3]), mid_int(ts[4]), mid_int(ts[5])) {
                    (Ok(r), Ok(g), Ok(b), Ok(a)) => Ok(
                        (
                            OpView::Color(
                                id,
                                Color([(r % 256) as u8, (g % 256) as u8, (b % 256) as u8, (a % 256) as u8]),
                            ),
                            6,
                        ),
                    ),
                    _ => Err(ParseError::BadNumber),
                },
            }
        }
    } else if ts[0] == word_merge() || ts[0] == word_swap() {
        if ts.len() < 3 {
            Err(ParseError::UnexpectedEnd)
        } else {
            match (id_of(ts[1]), id_of(ts[2])) {
                (Ok(a), Ok(b)) => if ts[0] == word_merge() {
                    Ok((OpView::Merge(a, b), 3))
                } else {
                    Ok((OpView::Swap(a, b), 3))
                },
                _ => Err(ParseError::BadId),
            }
        }
    } else {
        Err(ParseError::UnknownCommand)
    }
}

/// The program that the words `ts` write, or why the first operation that
/// cannot be read fails.
pub open spec fn parse_tokens(ts: Seq<Seq<u8>>) -> Result<Seq<OpView>, ParseError>
    decreases ts.len(),
{
    if ts.len() == 0 {
        Ok(Seq::empty())
    } else {
        match parse_one(ts) {
            Err(e) => Err(e),
            Ok((op, used)) => if 0 < used <= ts.len() {
                match parse_tokens(ts.skip(used)) {
                    Err(e) => Err(e),
                    Ok(rest) => Ok(seq![op] + rest),
                }
            } else {
                Err(ParseError::UnexpectedEnd)
            },
        }
    }
}

/// The program that the text `s` writes.
pub open spec fn parse_text(s: Seq<u8>) -> Result<Seq<OpView>, ParseError> {
    parse_tokens(tokens(s))
}

/// The bytes of `s` after the first, which is `c`.
pub fn remove_prefix(s: Vec<u8>, c: char) -> (res: Vec<u8>)
    requires
        s@.len() >= 1,
        s@[0] == c as u8,
    ensures
        res@ == s@.subrange(1, s@.len() as int),
{
    let mut res: Vec<u8> = Vec::new();
    let mut i: usize = 1;
    while i < s.len()
        invariant
            1 <= i <= s@.len(),
            res@ == s@.subrange(1, i as int),
        decreases s@.len() - i,
    {
        res.push(s[i]);
        assert(s@.subrange(1, i + 1) =~= s@.subrange(1, i as int).push(s@[i as int]));
        i = i + 1;
    }
    res
}

/// The bytes of `s` before the last, which is `c`.
pub fn remove_suffix(s: Vec<u8>, c: char) -> (res: Vec<u8>)
    requires
        s@.len() >= 1,
        s@.last() == c as u8,
    ensures
        res@ == s@.subrange(0, s@.len() - 1),
{
    let n = s.len() - 1;
    let mut res: Vec<u8> = Vec::new();
    let mut i: usize = 0;
    while i < n
        invariant
            i <= n,
            n == s@.len() - 1,
            res@ == s@.subrange(0, i as int),
        decreases n - i,
    {
        res.push(s[i]);
        assert(s@.subrange(0, i + 1) =~= s@.subrange(0, i as int).push(s@[i as int]));
        i = i + 1;
    }
    res
}

/// The name that the word `t` holds between brackets.
pub fn read_id(t: &Vec<u8>) -> (res: Result<RectId, ParseError>)
    ensures
        match id_of(t@) {
            Ok(id) => res is Ok && res->Ok_0@ == id,
            Err(e) => res == Err::<RectId, ParseError>(e),
        },
{
    if t.len() < 2 || t[0] != OPEN || t[t.len() - 1] != CLOSE {
        return Err(ParseError::BadId);
    }
    let mut copy: Vec<u8> = Vec::new();
    let mut i: usize = 0;
    while i < t.len()
        invariant
            i <= t@.len(),
            copy@ == t@.take(i as int),
        decreases t@.len() - i,
    {
        copy.push(t[i]);
        assert(t@.take(i + 1) =~= t@.take(i as int).push(t@[i as int]));
        i = i + 1;
    }
    assert(t@.take(i as int) =~= t@);
    let inner = remove_suffix(remove_prefix(copy, '['), ']');
    assert(inner@ =~= t@.subrange(1, t@.len() - 1));
    Ok(inner)
}

/// Tells whether `b` writes a decimal digit.
pub fn digit(b: u8) -> (r: bool)
    ensures
        r == is_digit(b),
{
    b >= 48 && b <= 57
}

/// The number that the word `s` holds between its first and its last
/// digit.
pub fn parse_mid_int(s: &Vec<u8>) -> (res: Result<i32, ParseError>)
    ensures
        res == mid_int(s@),
{
    let mut start: usize = 0;
    while start < s.len() && !digit(s[start])
        invariant
            start <= s@.len(),
            first_digit(s@, start as int) == first_digit(s@, 0),
        decreases s@.len() - start,
    {
        start = start + 1;
    }
    let mut end: usize = s.len();
    while end > 0 && !digit(s[end - 1])
        invariant
            end <= s@.len(),
            last_digit(s@, end as int) == last_digit(s@, s@.len() as int),
        decreases end,
    {
        end = end - 1;
    }
    if start >= end {
        proof {
            if start < s@.len() {
                assert(first_digit(s@, 0) == start);
            }
            if end > 0 {
                assert(last_digit(s@, s@.len() as int) == end - 1);
            }
        }
        return Err(ParseError::BadNumber);
    }
    let ghost middle = s@.subrange(start as int, end as int);
    assert(first_digit(s@, 0) == start);
    assert(last_digit(s@, s@.len() as int) == end - 1);
    let mut value: i64 = 0;
    let mut i: usize = start;
    assert(middle.take(0) =~= Seq::<u8>::empty());
    while i < end
        invariant
            start <= i <= end <= s@.len(),
            middle == s@.subrange(start as int, end as int),
            first_digit(s@, 0) == start,
            last_digit(s@, s@.len() as int) == end - 1,
            forall|k: int| 0 <= k < i - start ==> is_digit(#[trigger] middle[k]),
            value == decimal_value(middle.take(i - start)),
            0 <= value <= i32::MAX,
        decreases end - i,
    {
        if !digit(s[i]) {
            assert(!is_digit(middle[i - start]));
            return Err(ParseError::BadNumber);
        }
        let d = (s[i] - ZERO_DIGIT) as i64;
        proof {
            assert(middle.take(i - start + 1).drop_last() =~= middle.take(i - start));
            assert(middle.take(i - start + 1).last() == s@[i as int]);
        }
        value = value * 10 + d;
        if value > i32::MAX as i64 {
            proof {
                lemma_value_grows(middle, i - start + 1);
            }
            return Err(ParseError::BadNumber);
        }
        i = i + 1;
    }
    assert(middle.take(i - start) =~= middle);
    Ok(value as i32)
}

/// The value of digits is at least the value of any digits they start
/// with.
pub proof fn lemma_value_grows(s: Seq<u8>, i: int)
    requires
        0 <= i <= s.len(),
    ensures
        decimal_value(s.take(i)) <= decimal_value(s) || !all_digits(s),
    decreases s.len() - i,
{
    if i == s.len() {
        assert(s.take(i) =~= s);
    } else if all_digits(s) {
        lemma_value_grows(s, i + 1);
        let t = s.take(i + 1);
        assert(t.drop_last() =~= s.take(i));
        assert(is_digit(s[i]));
    }
}

/// Splits the text into its words.
pub fn split_tokens(bytes: &[u8]) -> (res: Vec<Vec<u8>>)
    ensures
        token_views(res@) == tokens(bytes@),
{
    let mut res: Vec<Vec<u8>> = Vec::new();
    let mut cur: Vec<u8> = Vec::new();
    let mut i: usize = 0;
    assert(bytes@.skip(0) =~= bytes@);
    assert(token_views(res@) + tokens_after(bytes@, Seq::empty()) =~= tokens(bytes@));
    while i < bytes.len()
        invariant
            i <= bytes@.len(),
            token_views(res@) + tokens_after(bytes@.skip(i as int), cur@) == tokens(bytes@),
        decreases bytes@.len() - i,
    {
        let b = bytes[i];
        let ghost rest = bytes@.skip(i as int);
        let ghost before = token_views(res@);
        proof {
            assert(rest[0] == b);
            assert(rest.drop_first() =~= bytes@.skip(i + 1));
        }
        if b == 32 || b == 9 || b == 10 || b == 13 {
            if cur.len() > 0 {
                let ghost done = cur@;
                res.push(cur);
                cur = Vec::new();
                proof {
                    assert(cur@ =~= Seq::<u8>::empty());
                    assert(token_views(res@) =~= before + seq![done]);
                    assert(token_views(res@) + tokens_after(bytes@.skip(i + 1), Seq::empty())
                        =~= before + (finished(done) + tokens_after(
                        rest.drop_first(),
                        Seq::empty(),
                    )));
                }
            } else {
                proof {
                    assert(cur@ =~= Seq::<u8>::empty());
                    assert(before + (finished(cur@) + tokens_after(
                        rest.drop_first(),
                        Seq::empty(),
                    )) =~= before + tokens_after(bytes@.skip(i + 1), Seq::empty()));
                }
            }
        } else {
            let ghost was = cur@;
            cur.push(b);
            proof {
                assert(!is_space(b));
                assert(tokens_after(rest, was) == tokens_after(rest.drop_first(), was.push(b)));
            }
        }
        i = i + 1;
    }
    if cur.len() > 0 {
        let ghost before = token_views(res@);
        let ghost done = cur@;
        res.push(cur);
        assert(token_views(res@) =~= before + finished(done));
    } else {
        assert(token_views(res@) + finished(cur@) =~= token_views(res@));
    }
    res
}

/// Tells whether the word `t` is the word made of `bytes`.
fn is_word(t: &Vec<u8>, bytes: &[u8]) -> (r: bool)
    ensures
        r == (t@ == bytes@),
{
    if t.len() != bytes.len() {
        return false;
    }
    let mut i: usize = 0;
    while i < t.len()
        invariant
            i <= t@.len(),
            t@.len() == bytes@.len(),
            forall|k: int| 0 <= k < i ==> t@[k] == bytes@[k],
        decreases t@.len() - i,
    {
        if t[i] != bytes[i] {
            return false;
        }
        i = i + 1;
    }
    assert(t@ =~= bytes@);
    true
}

/// The colour channel that the number `v` stands for.
fn channel(v: i32) -> (c: u8)
    requires
        v >= 0,
    ensures
        c == (v % 256) as u8,
{
    (v % 256) as u8
}

/// Reads the operation that the words from position `pos` on start with,
/// and tells how many words write it.
pub fn read_op(ts: &Vec<Vec<u8>>, pos: usize) -> (res: Result<(Op, usize), ParseError>)
    requires
        pos <= ts@.len(),
    ensures
        match parse_one(token_views(ts@).skip(pos as int)) {
            Ok((op, used)) => res is Ok && res->Ok_0.0@ == op && res->Ok_0.1 == used && 0 < used
                && pos + used <= ts@.len(),
            Err(e) => res is Err && res->Err_0 == e,
        },
{
    let ghost all = token_views(ts@);
    let ghost rest = all.skip(pos as int);
    let left = ts.len() - pos;
    if left == 0 {
        return Err(ParseError::UnexpectedEnd);
    }
    assert(rest[0] == ts@[pos as int]@);
    let is_cut = is_word(&ts[pos], &[99, 117, 116]);
    let is_color = is_word(&ts[pos], &[99, 111, 108, 111, 114]);
    let is_merge = is_word(&ts[pos], &[109, 101, 114, 103, 101]);
    let is_swap = is_word(&ts[pos], &[115, 119, 97, 112]);
    proof {
        assert(word_cut() =~= seq![99u8, 117u8, 116u8]);
        assert(word_cut() != word_color());
        assert(word_cut().len() != word_merge().len());
        assert(word_cut().len() != word_swap().len());
        assert(word_color().len() != word_swap().len());
        assert(word_color()[0] != word_merge()[0]);
        assert(word_merge().len() != word_swap().len());
    }
    if is_cut {
        if left < 4 {
            return Err(ParseError::UnexpectedEnd);
        }
        assert(rest[1] == ts@[pos + 1]@ && rest[2] == ts@[pos + 2]@ && rest[3] == ts@[pos + 3]@);
        let id = match read_id(&ts[pos + 1]) {
            Ok(id) => id,
            Err(e) => {
                return Err(e);
            },
        };
        let token = &ts[pos + 2];
        if token.len() >= 2 && (token[1] == AXIS_Y || token[1] == AXIS_X) {
            let v = match parse_mid_int(&ts[pos + 3]) {
                Ok(v) => v,
                Err(e) => {
                    return Err(e);
                },
            };
            if token[1] == AXIS_Y {
                Ok((Op::CutY(id, v), 4))
            } else {
                Ok((Op::CutX(id, v), 4))
            }
        } else {
            let x = match parse_mid_int(token) {
                Ok(v) => v,
                Err(e) => {
                    return Err(e);
                },
            };
            let y = match parse_mid_int(&ts[pos + 3]) {
                Ok(v) => v,
                Err(e) => {
                    return Err(e);
                },
            };
            Ok((Op::CutPoint(id, Point::new(x, y)), 4))
        }
    } else if is_color {
        if left < 6 {
            return Err(ParseError::UnexpectedEnd);
        }
        assert(rest[1] == ts@[pos + 1]@ && rest[2] == ts@[pos + 2]@ && rest[3] == ts@[pos + 3]@
            && rest[4] == ts@[pos + 4]@ && rest[5] == ts@[pos + 5]@);
        let id = match read_id(&ts[pos + 1]) {
            Ok(id) => id,
            Err(e) => {
                return Err(e);
            },
        };
        let r = parse_mid_int(&ts[pos + 2]);
        let g = parse_mid_int(&ts[pos + 3]);
        let b = parse_mid_int(&ts[pos + 4]);
        let a = parse_mid_int(&ts[pos + 5]);
        match (r, g, b, a) {
            (Ok(r), Ok(g), Ok(b), Ok(a)) => {
                let c = Color([channel(r), channel(g), channel(b), channel(a)]);
                proof {
                    crate::color::lemma_color_eq(
                        c,
                        Color([(r % 256) as u8, (g % 256) as u8, (b % 256) as u8, (a % 256) as u8]),
                    );
                }
                Ok((Op::Color(id, c), 6))
            },
            _ => Err(ParseError::BadNumber),
        }
    } else if is_merge || is_swap {
        if left < 3 {
            return Err(ParseError::UnexpectedEnd);
        }
        assert(rest[1] == ts@[pos + 1]@ && rest[2] == ts@[pos + 2]@);
        let a = read_id(&ts[pos + 1]);
        let b = read_id(&ts[pos + 2]);
        match (a, b) {
            (Ok(a), Ok(b)) => {
                if is_merge {
                    Ok((Op::Merge(a, b), 3))
                } else {
                    Ok((Op::Swap(a, b), 3))
                }
            },
            _ => Err(ParseError::BadId),
        }
    } else {
        Err(ParseError::UnknownCommand)
    }
}

/// Reads the program that the text `bytes` writes: an operation after the
/// other, each a word that names it, the names of its regions between
/// brackets, and its numbers.
pub fn parse_submit(bytes: &[u8]) -> (res: Result<Vec<Op>, ParseError>)
    ensures
        match parse_text(bytes@) {
            Ok(ops) => res is Ok && ops_view(res->Ok_0@) == ops,
            Err(e) => res is Err && res->Err_0 == e,
        },
{
    let ts = split_tokens(bytes);
    let ghost all = token_views(ts@);
    let mut res: Vec<Op> = Vec::new();
    let mut pos: usize = 0;
    assert(all.skip(0) =~= all);
    assert(ops_view(res@) =~= Seq::<OpView>::empty());
    while pos < ts.len()
        invariant
            pos <= ts@.len(),
            all == token_views(ts@),
            all == tokens(bytes@),
            parse_tokens(all) == (match parse_tokens(all.skip(pos as int)) {
                Ok(rest) => Ok::<Seq<OpView>, ParseError>(ops_view(res@) + rest),
                Err(e) => Err(e),
            }),
        decreases ts@.len() - pos,
    {
        let ghost rest = all.skip(pos as int);
        let ghost before = ops_view(res@);
        match read_op(&ts, pos) {
            Ok((op, used)) => {
                proof {
                    assert(rest.skip(used as int) =~= all.skip(pos + used));
                    match parse_tokens(all.skip(pos + used)) {
                        Ok(tail) => {
                            assert(before + (seq![op@] + tail) =~= before.push(op@) + tail);
                        },
                        Err(e) => {},
                    }
                }
                res.push(op);
                proof {
                    assert(ops_view(res@) =~= before.push(op@));
                }
                pos = pos + used;
            },
            Err(e) => {
                return Err(e);
            },
        }
    }
    proof {
        assert(all.skip(pos as int) =~= Seq::<Seq<u8>>::empty());
        assert(ops_view(res@) + Seq::<OpView>::empty() =~= ops_view(res@));
    }
    Ok(res)
}

/// The number that word `i` of `ts` writes.
pub open spec fn number_at(ts: Seq<Seq<u8>>, i: int) -> nat {
    decimal_value(ts[i])
}

/// The colour that the four words of `ts` from `i` on write, each number
/// cut down to a byte.
pub open spec fn color_at(ts: Seq<Seq<u8>>, i: int) -> Color {
    Color(
        [
            (number_at(ts, i) % 256) as u8,
            (number_at(ts, i + 1) % 256) as u8,
            (number_at(ts, i + 2) % 256) as u8,
            (number_at(ts, i + 3) % 256) as u8,
        ],
    )
}

/// The picture with the rectangles of the regions filled in their
/// colours, in order.
pub open spec fn seeded(start: Seq<Seq<Color>>, regions: Seq<Region>) -> Seq<Seq<Color>>
    decreases regions.len(),
{
    if regions.len() == 0 {
        start
    } else {
        filled(seeded(start, regions.drop_last()), regions.last().rect, regions.last().color)
    }
}

/// The region that word `base` of `ts` and the eight words after it write:
/// the number that names it, the corners of its rectangle and its colour.
pub open spec fn writes_region(ts: Seq<Seq<u8>>, base: int, r: Region) -> bool {
    &&& r.name@ == crate::rect_id::decimal(number_at(ts, base))
    &&& r.rect.from.x == number_at(ts, base + 1)
    &&& r.rect.from.y == number_at(ts, base + 2)
    &&& r.rect.to.x == number_at(ts, base + 3)
    &&& r.rect.to.y == number_at(ts, base + 4)
    &&& r.color == color_at(ts, base + 5)
}

/// The word `t` writes a number that a `usize` holds.
pub open spec fn is_number(t: Seq<u8>) -> bool {
    all_digits(t) && decimal_value(t) <= usize::MAX
}

/// The rectangle that the words of `ts` from `base + 1` on write holds a
/// pixel and lies on a canvas of `n` columns and `m` rows.
pub open spec fn region_fits(ts: Seq<Seq<u8>>, base: int, n: int, m: int) -> bool {
    number_at(ts, base + 1) < number_at(ts, base + 3) <= n && number_at(ts, base + 2) < number_at(
        ts,
        base + 4,
    ) <= m
}

/// The place among the words of an instance of the first word of seed
/// region `r`, on a canvas of `n` columns and `m` rows.
pub open spec fn region_base(n: int, m: int, r: int) -> int {
    3 + 4 * (n * m) + 9 * r
}

/// The rectangle of seed region `r` holds a pixel and lies on the canvas.
pub open spec fn nth_region_fits(ts: Seq<Seq<u8>>, n: int, m: int, r: int) -> bool {
    region_fits(ts, region_base(n, m, r), n, m)
}

/// Why the words `ts` write no instance, if they write none: a word that
/// is no number; fewer than two words; a side of the canvas that is zero
/// or above `MAX_SIDE`; fewer colours than the canvas has pixels; a number
/// of seed regions that is zero; fewer numbers than the seed regions take;
/// or a seed region that does not lie on the canvas.
pub open spec fn case_error(ts: Seq<Seq<u8>>) -> Option<ParseError> {
    if exists|i: int| 0 <= i < ts.len() && !is_number(#[trigger] ts[i]) {
        Some(ParseError::BadNumber)
    } else if ts.len() < 2 {
        Some(ParseError::UnexpectedEnd)
    } else {
        let m = number_at(ts, 0) as int;
        let n = number_at(ts, 1) as int;
        let base = 2 + 4 * (n * m);
        if n < 1 || m < 1 || n > crate::consts::MAX_SIDE || m > crate::consts::MAX_SIDE {
            Some(ParseError::BadCase)
        } else if ts.len() < base {
            Some(ParseError::UnexpectedEnd)
        } else if ts.len() == base {
            None
        } else {
            let k = number_at(ts, base) as int;
            if k < 1 {
                Some(ParseError::BadCase)
            } else if ts.len() - base - 1 < 9 * k {
                Some(ParseError::UnexpectedEnd)
            } else if exists|r: int| 0 <= r < k && !#[trigger] nth_region_fits(ts, n, m, r) {
                Some(ParseError::BadCase)
            } else {
                None
            }
        }
    }
}

/// Reads the numbers that the words write.
fn read_numbers(ts: &Vec<Vec<u8>>) -> (res: Result<Vec<usize>, ParseError>)
    ensures
        match res {
            Ok(v) => v@.len() == ts@.len() && forall|i: int|
                0 <= i < ts@.len() ==> is_number(#[trigger] ts@[i]@) && v@[i] == decimal_value(
                    ts@[i]@,
                ),
            Err(e) => e == ParseError::BadNumber && exists|i: int|
                0 <= i < ts@.len() && !is_number(#[trigger] ts@[i]@),
        },
{
    let mut v: Vec<usize> = Vec::new();
    let mut i: usize = 0;
    while i < ts.len()
        invariant
            i <= ts@.len(),
            v@.len() == i,
            forall|k: int|
                0 <= k < i ==> is_number(#[trigger] ts@[k]@) && v@[k] == decimal_value(ts@[k]@),
        decreases ts@.len() - i,
    {
        match crate::rect_id::read_number(&ts[i]) {
            Some(x) => {
                v.push(x);
            },
            None => {
                return Err(ParseError::BadNumber);
            },
        }
        i = i + 1;
    }
    Ok(v)
}

/// The colour that four numbers write, each cut down to a byte.
fn color_of(a: usize, b: usize, c: usize, d: usize) -> (res: Color)
    ensures
        res == Color([(a % 256) as u8, (b % 256) as u8, (c % 256) as u8, (d % 256) as u8]),
{
    let res = Color([(a % 256) as u8, (b % 256) as u8, (c % 256) as u8, (d % 256) as u8]);
    proof {
        crate::color::lemma_color_eq(
            res,
            Color([(a % 256) as u8, (b % 256) as u8, (c % 256) as u8, (d % 256) as u8]),
        );
    }
    res
}

/// Reads the instance `test_id` that the text `bytes` writes: the number of
/// rows and the number of columns of the canvas, the colours of the picture
/// row by row, and, if the text goes on, the number of seed regions and for
/// each its number, the corners of its rectangle and its colour.  A canvas
/// without seed regions is one white region named `0`; the canvas starts
/// white, with the seed regions filled in their colours.
pub fn parse_case(bytes: &[u8], test_id: usize) -> (res: Result<TestCase, ParseError>)
    ensures
        match res {
            Ok(tc) => {
                let ts = tokens(bytes@);
                &&& case_error(ts) is None
                &&& tc.wf()
                &&& tc.test_id == test_id
                &&& ts.len() >= 2 + 4 * tc.n() * tc.m()
                &&& tc.m() == number_at(ts, 0)
                &&& tc.n() == number_at(ts, 1)
                &&& forall|i: int, j: int|
                    0 <= i < tc.m() && 0 <= j < tc.n() ==> (#[trigger] tc.expected@[j]@[i])
                        == color_at(ts, 2 + (i * tc.n() + j) * 4)
                &&& cells(tc.start_field@) == seeded(
                    uniform(crate::color::start_color(), tc.n(), tc.m()),
                    tc.regions@,
                )
                &&& if ts.len() == 2 + 4 * tc.n() * tc.m() {
                    tc.regions@.len() == 1 && tc.regions@[0].name@ == crate::rect_id::decimal(0)
                        && tc.regions@[0].rect == crate::corner_replay::canvas_rect(tc.n(), tc.m())
                        && tc.regions@[0].color == crate::color::start_color()
                } else {
                    tc.regions@.len() == number_at(ts, 2 + 4 * tc.n() * tc.m()) && forall|r: int|
                        0 <= r < tc.regions@.len() ==> writes_region(
                            ts,
                            3 + 4 * tc.n() * tc.m() + 9 * r,
                            #[trigger] tc.regions@[r],
                        )
                }
            },
            Err(e) => case_error(tokens(bytes@)) == Some(e),
        },
{
    let ts = split_tokens(bytes);
    let ghost all = tokens(bytes@);
    let nums = match read_numbers(&ts) {
        Ok(v) => v,
        Err(e) => {
            proof {
                let i = choose|i: int| 0 <= i < ts@.len() && !is_number(#[trigger] ts@[i]@);
                assert(all[i] == ts@[i]@);
            }
            return Err(e);
        },
    };
    proof {
        assert forall|i: int| 0 <= i < nums@.len() implies nums@[i] == number_at(all, i)
            && is_number(#[trigger] all[i]) by {
            assert(all[i] == ts@[i]@);
        }
    }
    if nums.len() < 2 {
        return Err(ParseError::UnexpectedEnd);
    }
    let m = nums[0];
    let n = nums[1];
    if n < 1 || m < 1 || n > crate::consts::MAX_SIDE || m > crate::consts::MAX_SIDE {
        return Err(ParseError::BadCase);
    }
    assert(n * m <= 65535 * 65535) by (nonlinear_arith)
        requires
            n <= 65535,
            m <= 65535,
    ;
    let pixels: u64 = (n as u64) * (m as u64);
    let body: u64 = 2 + 4 * pixels;
    if (nums.len() as u64) < body {
        return Err(ParseError::UnexpectedEnd);
    }
    assert(case_error(all) != Some(ParseError::BadNumber));
    let mut expected = new_picture(Color::start(), n, m);
    let total = nums.len();
    let mut i: usize = 0;
    while i < m
        invariant
            i <= m,
            1 <= n <= 65535,
            1 <= m <= 65535,
            total == nums@.len(),
            nums@.len() >= 2 + 4 * (n * m),
            forall|k: int| 0 <= k < nums@.len() ==> nums@[k] == number_at(all, k),
            is_grid(expected@, n as int, m as int),
            forall|r: int, c: int|
                0 <= r < i && 0 <= c < n ==> (#[trigger] expected@[c]@[r]) == color_at(
                    all,
                    2 + (r * n + c) * 4,
                ),
        decreases m - i,
    {
        let mut j: usize = 0;
        while j < n
            invariant
                i < m,
                j <= n,
                1 <= n <= 65535,
                1 <= m <= 65535,
                total == nums@.len(),
                nums@.len() >= 2 + 4 * (n * m),
                forall|k: int| 0 <= k < nums@.len() ==> nums@[k] == number_at(all, k),
                is_grid(expected@, n as int, m as int),
                forall|r: int, c: int|
                    0 <= r < m && 0 <= c < n && (r < i || (r == i && c < j)) ==> (
                    #[trigger] expected@[c]@[r]) == color_at(all, 2 + (r * n + c) * 4),
            decreases n - j,
        {
            assert(i * n + j < n * m && 0 <= i * n <= n * m) by (nonlinear_arith)
                requires
                    0 <= i < m,
                    0 <= j < n,
            ;
            assert(2 + (i * n + j) * 4 + 3 < total);
            let at: usize = 2 + (i * n + j) * 4;
            let c = color_of(nums[at], nums[at + 1], nums[at + 2], nums[at + 3]);
            let ghost prev = expected@;
            assert(expected@[j as int].len() == m);
            expected[j][i] = c;
            proof {
                assert forall|r: int| 0 <= r < n implies (#[trigger] expected@[r]).len() == m by {
                    assert(prev[r].len() == m);
                }
                assert forall|r: int, c2: int|
                    0 <= r < m && 0 <= c2 < n && (r < i || (r == i && c2 < j + 1)) implies (
                #[trigger] expected@[c2]@[r]) == color_at(all, 2 + (r * n + c2) * 4) by {
                    assert(prev[c2].len() == m);
                    if r == i && c2 == j {
                    } else {
                        assert(prev[c2]@[r] == color_at(all, 2 + (r * n + c2) * 4));
                    }
                }
            }
            j = j + 1;
        }
        i = i + 1;
    }
    let mut regions: Vec<Region> = Vec::new();
    let mut start_field = new_picture(Color::start(), n, m);
    let ghost white = cells(start_field@);
    if nums.len() as u64 == body {
        let whole = Rect::new(Point::new(0, 0), Point::new(n as i32, m as i32));
        let ghost before = cells(start_field@);
        regions.push(Region { name: crate::rect_id::rect_id_get_start(), rect: whole, color: Color::start() });
        fill(&mut start_field, whole, Color::start(), n, m);
        proof {
            assert(regions@.drop_last() =~= Seq::<Region>::empty());
            assert(4 * (n * m) == 4 * n * m) by (nonlinear_arith);
            assert(expected@[0].len() == m);
            assert(all.len() == nums@.len());
            assert(regions@.len() == 1);
            assert(seeded(white, regions@.drop_last()) == white);
            assert(regions@.last().rect == whole);
            assert(seeded(white, regions@) == filled(white, whole, crate::color::start_color()));
            assert(whole == crate::corner_replay::canvas_rect(n as int, m as int));
            assert(whole.inside(n as int, m as int));
        }
        let tc = TestCase { expected, start_field, regions, test_id };
        assert(tc.n() == n && tc.m() == m);
        assert(tc.wf());
        return Ok(tc);
    }
    let base: usize = body as usize;
    let n_regions = nums[base];
    if n_regions < 1 {
        return Err(ParseError::BadCase);
    }
    if n_regions > (total - base - 1) / 9 {
        return Err(ParseError::UnexpectedEnd);
    }
    let mut r: usize = 0;
    assert(regions@ =~= Seq::<Region>::empty());
    while r < n_regions
        invariant
            r <= n_regions,
            1 <= n <= 65535,
            1 <= m <= 65535,
            base == 2 + 4 * (n * m),
            total == nums@.len(),
            base + 1 + 9 * n_regions <= nums@.len(),
            forall|k: int| 0 <= k < nums@.len() ==> nums@[k] == number_at(all, k),
            regions@.len() == r,
            is_grid(start_field@, n as int, m as int),
            cells(start_field@) == seeded(white, regions@),
            forall|k: int|
                0 <= k < r ==> writes_region(all, base + 1 + 9 * k, #[trigger] regions@[k])
                    && regions@[k].rect.inside(n as int, m as int),
            forall|k: int| 0 <= k < r ==> #[trigger] nth_region_fits(all, n as int, m as int, k),
            number_at(all, 0) == m,
            number_at(all, 1) == n,
            number_at(all, base as int) == n_regions,
            all.len() == total,
            all == tokens(bytes@),
            n_regions >= 1,
            case_error(all) != Some(ParseError::BadNumber),
        decreases n_regions - r,
    {
        let at: usize = base + 1 + 9 * r;
        let id = nums[at];
        let fx = nums[at + 1];
        let fy = nums[at + 2];
        let tx = nums[at + 3];
        let ty = nums[at + 4];
        if !(fx < tx && tx <= n && fy < ty && ty <= m) {
            assert(!nth_region_fits(all, n as int, m as int, r as int));
            return Err(ParseError::BadCase);
        }
        assert(nth_region_fits(all, n as int, m as int, r as int));
        let color = color_of(nums[at + 5], nums[at + 6], nums[at + 7], nums[at + 8]);
        let rect = Rect::new(Point::new(fx as i32, fy as i32), Point::new(tx as i32, ty as i32));
        let ghost before = regions@;
        regions.push(Region { name: crate::rect_id::rect_id_from_usize(id), rect, color });
        fill(&mut start_field, rect, color, n, m);
        proof {
            assert(regions@.drop_last() =~= before);
            assert forall|k: int| 0 <= k < r + 1 implies writes_region(
                all,
                base + 1 + 9 * k,
                #[trigger] regions@[k],
            ) && regions@[k].rect.inside(n as int, m as int) by {
                if k < r {
                    assert(regions@[k] == before[k]);
                }
            }
        }
        r = r + 1;
    }
    proof {
        assert(4 * (n * m) == 4 * n * m) by (nonlinear_arith);
        assert(expected@[0].len() == m);
    }
    Ok(TestCase { expected, start_field, regions, test_id })
}

} // verus!
