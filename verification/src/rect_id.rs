//! Names of regions: byte strings of decimal numbers joined by dots.
//!
//! A region that a merge creates is named by a decimal number; a region that
//! a cut creates is named after its parent, with a dot and the index of the
//! part appended.

use vstd::prelude::*;

verus! {

/// The name of a region.
pub type RectId = Vec<u8>;

/// The byte `.` that separates the parts of a name.
pub const DOT: u8 = 46;

/// The byte `0`.
pub const ZERO_DIGIT: u8 = 48;

/// The byte that writes the digit `d`; for `d` above nine, the byte that
/// many places above the byte `0`.
pub open spec fn digit_byte(d: nat) -> u8
    recommends
        d <= 207,
{
    (48 + d) as u8
}

/// `b` writes a decimal digit.
pub open spec fn is_digit(b: u8) -> bool {
    48 <= b <= 57
}

/// The decimal notation of `n`, without leading zeros.
pub open spec fn decimal(n: nat) -> Seq<u8>
    decreases n,
{
    if n < 10 {
        seq![digit_byte(n)]
    } else {
        decimal(n / 10).push(digit_byte(n % 10))
    }
}

/// The number that the digits `s` write; leading zeros count for nothing.
pub open spec fn decimal_value(s: Seq<u8>) -> nat
    decreases s.len(),
{
    if s.len() == 0 {
        0
    } else {
        decimal_value(s.drop_last()) * 10 + (s.last() - 48) as nat
    }
}

/// `s` is a non-empty string of decimal digits.
pub open spec fn all_digits(s: Seq<u8>) -> bool {
    s.len() >= 1 && forall|i: int| 0 <= i < s.len() ==> is_digit(#[trigger] s[i])
}

/// The name of part `sub_id` of the region named `id`.
pub open spec fn sub_key(id: Seq<u8>, sub_id: nat) -> Seq<u8>
    recommends
        sub_id <= 207,
{
    id.push(DOT).push(digit_byte(sub_id))
}

/// The decimal notations of the numbers `a`, joined by dots.
pub open spec fn dotted(a: Seq<usize>) -> Seq<u8>
    decreases a.len(),
{
    if a.len() == 0 {
        Seq::empty()
    } else if a.len() == 1 {
        decimal(a[0] as nat)
    } else {
        dotted(a.drop_last()).push(DOT) + decimal(a.last() as nat)
    }
}

/// A decimal notation is a non-empty string of digits.
pub proof fn lemma_decimal_digits(n: nat)
    ensures
        all_digits(decimal(n)),
    decreases n,
{
    if n >= 10 {
        lemma_decimal_digits(n / 10);
    }
}

/// Reading a decimal notation gives the number back.
pub proof fn lemma_decimal_value(n: nat)
    ensures
        decimal_value(decimal(n)) == n,
    decreases n,
{
    if n < 10 {
        let s = decimal(n);
        assert(s.drop_last() =~= Seq::<u8>::empty());
        assert(decimal_value(s.drop_last()) == 0);
    } else {
        lemma_decimal_value(n / 10);
        let s = decimal(n);
        assert(s.drop_last() =~= decimal(n / 10));
    }
}

/// Different numbers have different decimal notations.
pub proof fn lemma_decimal_injective(a: nat, b: nat)
    requires
        decimal(a) == decimal(b),
    ensures
        a == b,
{
    lemma_decimal_value(a);
    lemma_decimal_value(b);
}

/// No decimal notation is the name of a part of a region, and the parts of
/// one region have different names.
pub proof fn lemma_sub_key_distinct(id: Seq<u8>, i: nat, j: nat, n: nat)
    requires
        i < 10,
        j < 10,
    ensures
        sub_key(id, i) != decimal(n),
        sub_key(id, i) != id,
        i != j ==> sub_key(id, i) != sub_key(id, j),
        sub_key(id, i) == sub_key(id, j) ==> i == j,
{
    let s = sub_key(id, i);
    lemma_decimal_digits(n);
    assert(s[s.len() - 2] == DOT);
    if s == decimal(n) {
        assert(is_digit(decimal(n)[s.len() - 2]));
    }
    assert(s.len() == id.len() + 2);
    if i != j {
        let t = sub_key(id, j);
        assert(s[s.len() - 1] == digit_byte(i));
        assert(t[t.len() - 1] == digit_byte(j));
    }
}

/// The name that writes the number `x`.
pub fn rect_id_from_usize(x: usize) -> (r: RectId)
    ensures
        r@ == decimal(x as nat),
    decreases x,
{
    if x < 10 {
        let mut r: Vec<u8> = Vec::new();
        r.push(ZERO_DIGIT + x as u8);
        assert(r@ =~= decimal(x as nat));
        r
    } else {
        let mut r = rect_id_from_usize(x / 10);
        r.push(ZERO_DIGIT + (x % 10) as u8);
        r
    }
}

/// The value of a prefix of a digit string is at most a tenth of the value
/// of a longer prefix.
proof fn lemma_decimal_value_prefix(s: Seq<u8>, i: int)
    requires
        all_digits(s),
        0 <= i <= s.len(),
    ensures
        decimal_value(s.take(i)) <= decimal_value(s),
    decreases s.len() - i,
{
    if i == s.len() {
        assert(s.take(i) =~= s);
    } else {
        lemma_decimal_value_prefix(s, i + 1);
        let t = s.take(i + 1);
        assert(t.drop_last() =~= s.take(i));
        assert(is_digit(s[i]));
    }
}

/// The number that a name of digits writes.
pub fn rect_id_to_usize(s: &RectId) -> (r: usize)
    requires
        all_digits(s@),
        decimal_value(s@) <= usize::MAX,
    ensures
        r == decimal_value(s@),
{
    let mut r: usize = 0;
    let mut i: usize = 0;
    assert(s@.take(0) =~= Seq::<u8>::empty());
    while i < s.len()
        invariant
            i <= s.len(),
            all_digits(s@),
            decimal_value(s@) <= usize::MAX,
            r == decimal_value(s@.take(i as int)),
        decreases s.len() - i,
    {
        proof {
            lemma_decimal_value_prefix(s@, i + 1);
            assert(s@.take(i + 1).drop_last() =~= s@.take(i as int));
            assert(is_digit(s@[i as int]));
        }
        r = r * 10 + (s[i] - ZERO_DIGIT) as usize;
        i = i + 1;
    }
    assert(s@.take(i as int) =~= s@);
    r
}

/// The name of part `sub_id` of the region named `id`: the name, a dot and
/// the byte that is `sub_id`, cut down to a byte, above the byte `0`.
pub fn rect_id_sub_key(id: &RectId, sub_id: usize) -> (r: Vec<u8>)
    requires
        sub_id % 256 <= 207,
    ensures
        r@ == sub_key(id@, (sub_id % 256) as nat),
{
    let mut res = id.clone();
    res.push(DOT);
    res.push((sub_id % 256) as u8 + ZERO_DIGIT);
    res
}

/// The name of the one region of a canvas that starts undivided.
pub fn rect_id_get_start() -> (r: RectId)
    ensures
        r@ == decimal(0),
{
    let mut r: Vec<u8> = Vec::new();
    r.push(ZERO_DIGIT);
    assert(r@ =~= decimal(0));
    r
}

/// The name made of the numbers `a`, joined by dots.
pub fn rect_id_from_vec(a: &[usize]) -> (r: RectId)
    ensures
        r@ == dotted(a@),
{
    let mut r: Vec<u8> = Vec::new();
    let mut i: usize = 0;
    assert(a@.take(0) =~= Seq::<usize>::empty());
    while i < a.len()
        invariant
            i <= a.len(),
            r@ == dotted(a@.take(i as int)),
        decreases a.len() - i,
    {
        if i > 0 {
            r.push(DOT);
        }
        let mut part = rect_id_from_usize(a[i]);
        proof {
            let t = a@.take(i + 1);
            assert(t.drop_last() =~= a@.take(i as int));
            assert(t.last() == a@[i as int]);
            if i == 0 {
                assert(r@ + part@ =~= part@);
            }
        }
        r.append(&mut part);
        i = i + 1;
    }
    assert(a@.take(i as int) =~= a@);
    r
}

/// The parts of `s` between its dots, after the bytes `cur` of a part that
/// has begun.
pub open spec fn parts_after(s: Seq<u8>, cur: Seq<u8>) -> Seq<Seq<u8>>
    decreases s.len(),
{
    if s.len() == 0 {
        seq![cur]
    } else if s[0] == DOT {
        seq![cur] + parts_after(s.drop_first(), Seq::empty())
    } else {
        parts_after(s.drop_first(), cur.push(s[0]))
    }
}

/// The parts of the name `s` between its dots.
pub open spec fn parts(s: Seq<u8>) -> Seq<Seq<u8>> {
    parts_after(s, Seq::empty())
}

/// Every part of the name `s` writes a number that a `usize` holds.
pub open spec fn is_dotted(s: Seq<u8>) -> bool {
    forall|i: int|
        0 <= i < parts(s).len() ==> all_digits(#[trigger] parts(s)[i]) && decimal_value(parts(s)[i])
            <= usize::MAX
}

/// The numbers that the parts `ps` write.
pub open spec fn part_values(ps: Seq<Seq<u8>>) -> Seq<usize> {
    Seq::new(ps.len(), |i: int| decimal_value(ps[i]) as usize)
}

/// The number that the digits `s` write, if `s` is a string of digits and
/// a `usize` holds the number.
pub fn read_number(s: &Vec<u8>) -> (r: Option<usize>)
    ensures
        r == (if all_digits(s@) && decimal_value(s@) <= usize::MAX {
            Some(decimal_value(s@) as usize)
        } else {
            None
        }),
{
    if s.len() == 0 {
        return None;
    }
    let mut r: usize = 0;
    let mut i: usize = 0;
    assert(s@.take(0) =~= Seq::<u8>::empty());
    while i < s.len()
        invariant
            i <= s@.len(),
            forall|k: int| 0 <= k < i ==> is_digit(#[trigger] s@[k]),
            r == decimal_value(s@.take(i as int)),
        decreases s@.len() - i,
    {
        let b = s[i];
        if b < 48 || b > 57 {
            assert(!is_digit(s@[i as int]));
            return None;
        }
        proof {
            assert(s@.take(i + 1).drop_last() =~= s@.take(i as int));
            assert(s@.take(i + 1).last() == b);
        }
        let d = (b - ZERO_DIGIT) as usize;
        if r > (usize::MAX - d) / 10 {
            proof {
                if all_digits(s@) {
                    lemma_decimal_value_prefix(s@, i + 1);
                }
            }
            return None;
        }
        r = r * 10 + d;
        i = i + 1;
    }
    assert(s@.take(i as int) =~= s@);
    Some(r)
}

/// The numbers that the parts of the name `id` write, if every part writes
/// one.
pub fn rect_id_parts(id: &RectId) -> (r: Option<Vec<usize>>)
    ensures
        match r {
            Some(v) => is_dotted(id@) && v@ == part_values(parts(id@)),
            None => !is_dotted(id@),
        },
{
    let mut res: Vec<usize> = Vec::new();
    let mut cur: Vec<u8> = Vec::new();
    let mut i: usize = 0;
    let ghost all = parts(id@);
    let ghost done: Seq<Seq<u8>> = Seq::empty();
    assert(id@.skip(0) =~= id@);
    assert(done + parts_after(id@, Seq::empty()) =~= all);
    while i < id.len()
        invariant
            i <= id@.len(),
            all == parts(id@),
            done + parts_after(id@.skip(i as int), cur@) == all,
            res@ == part_values(done),
            forall|k: int|
                0 <= k < done.len() ==> all_digits(#[trigger] done[k]) && decimal_value(done[k])
                    <= usize::MAX,
        decreases id@.len() - i,
    {
        let b = id[i];
        let ghost rest = id@.skip(i as int);
        proof {
            assert(rest[0] == b);
            assert(rest.drop_first() =~= id@.skip(i + 1));
        }
        if b == DOT {
            let ghost part = cur@;
            proof {
                assert(parts_after(rest, part) == seq![part] + parts_after(
                    rest.drop_first(),
                    Seq::empty(),
                ));
                assert(all[done.len() as int] == part);
            }
            match read_number(&cur) {
                Some(v) => {
                    res.push(v);
                    proof {
                        let before = done;
                        done = done.push(part);
                        assert(res@ =~= part_values(done));
                        assert(done + parts_after(id@.skip(i + 1), Seq::empty()) =~= before + (
                        seq![part] + parts_after(rest.drop_first(), Seq::empty())));
                    }
                },
                None => {
                    return None;
                },
            }
            cur = Vec::new();
            assert(cur@ =~= Seq::<u8>::empty());
        } else {
            let ghost was = cur@;
            cur.push(b);
            assert(parts_after(rest, was) == parts_after(rest.drop_first(), was.push(b)));
        }
        i = i + 1;
    }
    let ghost part = cur@;
    proof {
        assert(parts_after(id@.skip(i as int), part) == seq![part]);
        assert(all[done.len() as int] == part);
    }
    match read_number(&cur) {
        Some(v) => {
            res.push(v);
            proof {
                assert(done.push(part) =~= all);
                assert(res@ =~= part_values(all));
                assert forall|k: int| 0 <= k < all.len() implies all_digits(#[trigger] all[k])
                    && decimal_value(all[k]) <= usize::MAX by {
                    if k < done.len() {
                        assert(all[k] == done[k]);
                    }
                }
            }
            Some(res)
        },
        None => None,
    }
}

/// The numbers that the parts of the name `id` write.
pub fn rect_id_to_vec(id: &RectId) -> (r: Vec<usize>)
    requires
        is_dotted(id@),
    ensures
        r@ == part_values(parts(id@)),
{
    match rect_id_parts(id) {
        Some(v) => v,
        None => Vec::new(),
    }
}

} // verus!
