//! The tabular export of a cluster: a header line, then one line
//! `id,parent,x,y,z` per point, coordinates written with four decimals.

use crate::aggregation::Record;
use vstd::arithmetic::div_mod::{
    lemma_div_denominator, lemma_div_pos_is_pos, lemma_fundamental_div_mod, lemma_mod_pos_bound,
};
use vstd::prelude::*;

verus! {

pub const COMMA: u8 = 44;

pub const MINUS: u8 = 45;

pub const DOT: u8 = 46;

pub const NEWLINE: u8 = 10;

pub open spec fn digit(d: int) -> u8 {
    (48 + d) as u8
}

pub open spec fn is_digit(b: u8) -> bool {
    48 <= b <= 57
}

/// The decimal digits of `n`, without leading zeros.
pub open spec fn dec(n: nat) -> Seq<u8>
    decreases n,
{
    if n < 10 {
        seq![digit(n as int)]
    } else {
        dec(n / 10).push(digit((n % 10) as int))
    }
}

/// Four digits of a fraction `0 <= f < 10000`.
pub open spec fn frac4(f: int) -> Seq<u8> {
    seq![digit(f / 1000), digit(f / 100 % 10), digit(f / 10 % 10), digit(f % 10)]
}

/// A coordinate of `t` ticks, as units with four decimals.
pub open spec fn fixed(t: int) -> Seq<u8> {
    sign_of(t) + dec((magnitude(t) / 10000) as nat) + seq![DOT] + frac4(magnitude(t) % 10000)
}

pub open spec fn row(r: Record) -> Seq<u8> {
    (dec(r.id as nat) + seq![COMMA]) + (dec(r.parent as nat) + seq![COMMA]) + (fixed(r.x as int)
        + seq![COMMA]) + (fixed(r.y as int) + seq![COMMA]) + (fixed(r.z as int) + seq![NEWLINE])
}

pub open spec fn rows(rs: Seq<Record>) -> Seq<u8>
    decreases rs.len(),
{
    if rs.len() == 0 {
        Seq::empty()
    } else {
        rows(rs.drop_last()) + row(rs.last())
    }
}

/// `index,parent,x,y,z` and a line break.
pub open spec fn header() -> Seq<u8> {
    seq![105u8, 110, 100, 101, 120, 44, 112, 97, 114, 101, 110, 116, 44, 120, 44, 121, 44, 122, 10]
}

/// The whole table of `rs`.
pub open spec fn table(rs: Seq<Record>) -> Seq<u8> {
    header() + rows(rs)
}

/// `s` stands in `b` from position `pos` on.
#[verifier::opaque]
pub open spec fn starts_at(b: Seq<u8>, pos: int, s: Seq<u8>) -> bool {
    &&& 0 <= pos
    &&& pos + s.len() <= b.len()
    &&& forall|k: int| 0 <= k < s.len() ==> b[pos + k] == #[trigger] s[k]
}

proof fn lemma_starts_at_split(b: Seq<u8>, pos: int, s1: Seq<u8>, s2: Seq<u8>)
    ensures
        starts_at(b, pos, s1 + s2) <==> (starts_at(b, pos, s1) && starts_at(
            b,
            pos + s1.len(),
            s2,
        )),
{
    reveal(starts_at);
    if starts_at(b, pos, s1 + s2) {
        assert forall|k: int| 0 <= k < s1.len() implies b[pos + k] == #[trigger] s1[k] by {
            assert((s1 + s2)[k] == s1[k]);
        }
        assert forall|k: int| 0 <= k < s2.len() implies b[pos + s1.len() + k] == #[trigger] s2[k] by {
            assert((s1 + s2)[s1.len() + k] == s2[k]);
        }
    }
    if starts_at(b, pos, s1) && starts_at(b, pos + s1.len(), s2) {
        assert forall|k: int| 0 <= k < (s1 + s2).len() implies b[pos + k] == #[trigger] (s1
            + s2)[k] by {
            if k < s1.len() {
                assert(s1[k] == (s1 + s2)[k]);
            } else {
                assert(s2[k - s1.len()] == (s1 + s2)[k]);
            }
        }
    }
}

/// The number that the decimal digits `ds` spell.
pub open spec fn value_of(ds: Seq<u8>) -> int
    decreases ds.len(),
{
    if ds.len() == 0 {
        0
    } else {
        value_of(ds.drop_last()) * 10 + (ds.last() - 48)
    }
}

pub open spec fn all_digits(ds: Seq<u8>) -> bool {
    forall|i: int| 0 <= i < ds.len() ==> is_digit(#[trigger] ds[i])
}

/// Digits as `dec` writes them: at least one, and no leading zero.
pub open spec fn canonical(ds: Seq<u8>) -> bool {
    &&& ds.len() >= 1
    &&& all_digits(ds)
    &&& (ds.len() == 1 || ds[0] != 48)
}

proof fn lemma_dec(n: nat)
    ensures
        canonical(dec(n)),
        value_of(dec(n)) == n,
        n >= 1 ==> dec(n)[0] != 48,
    decreases n,
{
    if n >= 10 {
        lemma_dec(n / 10);
        let pre = dec(n / 10);
        assert(dec(n).drop_last() =~= pre);
        assert(dec(n)[0] == pre[0]);
    } else {
        assert(dec(n).drop_last() =~= Seq::<u8>::empty());
        assert(value_of(dec(n).drop_last()) == 0);
        assert(dec(n).last() == digit(n as int));
    }
}

proof fn lemma_value_nonneg(ds: Seq<u8>)
    requires
        all_digits(ds),
    ensures
        value_of(ds) >= 0,
        ds.len() >= 1 && ds[0] != 48 ==> value_of(ds) >= 1,
    decreases ds.len(),
{
    if ds.len() > 0 {
        let pre = ds.drop_last();
        assert(is_digit(ds[ds.len() - 1]));
        lemma_value_nonneg(pre);
        if ds.len() > 1 {
            assert(pre[0] == ds[0]);
        }
    }
}

proof fn lemma_canonical_dec(ds: Seq<u8>)
    requires
        canonical(ds),
    ensures
        value_of(ds) >= 0,
        dec(value_of(ds) as nat) == ds,
    decreases ds.len(),
{
    lemma_value_nonneg(ds);
    assert(is_digit(ds[ds.len() - 1]));
    if ds.len() == 1 {
        assert(ds.drop_last() =~= Seq::<u8>::empty());
        assert(value_of(ds.drop_last()) == 0);
        assert(ds.last() == ds[0]);
        assert(value_of(ds) == ds[0] - 48);
        assert(dec(value_of(ds) as nat) =~= ds);
    } else {
        let pre = ds.drop_last();
        assert(pre[0] == ds[0]);
        assert(canonical(pre));
        lemma_canonical_dec(pre);
        lemma_value_nonneg(pre);
        let v = value_of(ds);
        assert(v / 10 == value_of(pre) && v % 10 == ds.last() - 48);
        assert(dec(v as nat) =~= pre.push(ds.last()));
        assert(pre.push(ds.last()) =~= ds);
    }
}

proof fn lemma_prefix_value(ds: Seq<u8>, j: int)
    requires
        all_digits(ds),
        0 <= j <= ds.len(),
    ensures
        value_of(ds.take(j)) <= value_of(ds),
    decreases ds.len(),
{
    if j < ds.len() {
        let pre = ds.drop_last();
        assert(pre.take(j) =~= ds.take(j));
        lemma_prefix_value(pre, j);
        lemma_value_nonneg(pre);
        assert(is_digit(ds[ds.len() - 1]));
    } else {
        assert(ds.take(j) =~= ds);
    }
}

/// Reads the run of digits at `pos`: its value when the run is canonical
/// and the value at most `max`, with the position after it.
fn parse_dec(bytes: &Vec<u8>, pos: usize, max: u64) -> (r: Option<(u64, usize)>)
    requires
        pos <= bytes@.len(),
    ensures
        r matches Some((v, e)) ==> {
            &&& e == pos + dec(v as nat).len()
            &&& starts_at(bytes@, pos as int, dec(v as nat))
            &&& v <= max
        },
        forall|n: nat|
            n <= max && starts_at(bytes@, pos as int, #[trigger] dec(n)) && (pos + dec(n).len()
                == bytes@.len() || !is_digit(bytes@[pos + dec(n).len()])) ==> r == Some(
                (n as u64, (pos + dec(n).len()) as usize),
            ),
{
    reveal(starts_at);
    let mut i = pos;
    let mut acc: u64 = 0;
    while i < bytes.len() && 48 <= bytes[i] && bytes[i] <= 57
        invariant
            pos <= i <= bytes@.len(),
            all_digits(bytes@.subrange(pos as int, i as int)),
            acc == value_of(bytes@.subrange(pos as int, i as int)),
            acc <= max,
            forall|n: nat|
                n <= max && starts_at(bytes@, pos as int, #[trigger] dec(n)) && (pos + dec(n).len()
                    == bytes@.len() || !is_digit(bytes@[pos + dec(n).len()])) ==> {
                    &&& i <= pos + dec(n).len()
                    &&& bytes@.subrange(pos as int, i as int) == dec(n).take(i - pos)
                },
        decreases bytes@.len() - i,
    {
        proof {
            reveal(starts_at);
        }
        let d = (bytes[i] - 48) as u64;
        let ghost next = bytes@.subrange(pos as int, i + 1);
        assert(next.drop_last() =~= bytes@.subrange(pos as int, i as int));
        assert forall|n: nat|
            n <= max && starts_at(bytes@, pos as int, #[trigger] dec(n)) && (pos + dec(n).len()
                == bytes@.len() || !is_digit(bytes@[pos + dec(n).len()])) implies {
            &&& i + 1 <= pos + dec(n).len()
            &&& next == dec(n).take(i + 1 - pos)
            &&& value_of(next) <= n
        } by {
            lemma_dec(n);
            assert(next =~= dec(n).take(i + 1 - pos));
            lemma_prefix_value(dec(n), i + 1 - pos);
        }
        if d > max || acc > (max - d) / 10 {
            return None;
        }
        acc = acc * 10 + d;
        i = i + 1;
    }
    proof {
        reveal(starts_at);
    }
    if i == pos || (i - pos > 1 && bytes[pos] == 48) {
        proof {
            assert forall|n: nat|
                n <= max && starts_at(bytes@, pos as int, #[trigger] dec(n)) && (pos + dec(
                    n,
                ).len() == bytes@.len() || !is_digit(bytes@[pos + dec(n).len()])) implies false by {
                lemma_dec(n);
                if i < pos + dec(n).len() {
                    assert(dec(n)[i - pos] == bytes@[i as int]);
                }
                assert(bytes@.subrange(pos as int, i as int) =~= dec(n));
            }
        }
        return None;
    }
    let ghost run = bytes@.subrange(pos as int, i as int);
    proof {
        assert(run[0] == bytes@[pos as int]);
        lemma_canonical_dec(run);
        assert forall|n: nat|
            n <= max && starts_at(bytes@, pos as int, #[trigger] dec(n)) && (pos + dec(n).len()
                == bytes@.len() || !is_digit(bytes@[pos + dec(n).len()])) implies n == acc && i
            == pos + dec(n).len() by {
            lemma_dec(n);
            if i < pos + dec(n).len() {
                assert(dec(n)[i - pos] == bytes@[i as int]);
            }
            assert(run =~= dec(n));
        }
    }
    Some((acc, i))
}

proof fn lemma_frac4_of_digits(a: int, b: int, c: int, d: int)
    requires
        0 <= a <= 9,
        0 <= b <= 9,
        0 <= c <= 9,
        0 <= d <= 9,
    ensures
        ({
            let f = 1000 * a + 100 * b + 10 * c + d;
            &&& 0 <= f < 10000
            &&& f / 1000 == a
            &&& f / 100 % 10 == b
            &&& f / 10 % 10 == c
            &&& f % 10 == d
        }),
{
    let f = 1000 * a + 100 * b + 10 * c + d;
    assert(f / 1000 == a) by (nonlinear_arith)
        requires
            f == 1000 * a + 100 * b + 10 * c + d,
            0 <= a <= 9,
            0 <= b <= 9,
            0 <= c <= 9,
            0 <= d <= 9,
    ;
    assert(f / 100 == 10 * a + b) by (nonlinear_arith)
        requires
            f == 1000 * a + 100 * b + 10 * c + d,
            0 <= b <= 9,
            0 <= c <= 9,
            0 <= d <= 9,
    ;
    assert(f / 10 == 100 * a + 10 * b + c) by (nonlinear_arith)
        requires
            f == 1000 * a + 100 * b + 10 * c + d,
            0 <= c <= 9,
            0 <= d <= 9,
    ;
}

proof fn lemma_frac4_digits(f: int)
    requires
        0 <= f < 10000,
    ensures
        0 <= f / 1000 <= 9,
        0 <= f / 100 % 10 <= 9,
        0 <= f / 10 % 10 <= 9,
        0 <= f % 10 <= 9,
        1000 * (f / 1000) + 100 * (f / 100 % 10) + 10 * (f / 10 % 10) + f % 10 == f,
{
    let t = f / 10;
    let h = f / 100;
    let a = f / 1000;
    lemma_div_denominator(f, 10, 10);
    lemma_div_denominator(f, 100, 10);
    lemma_div_pos_is_pos(f, 10);
    lemma_div_pos_is_pos(f, 100);
    lemma_div_pos_is_pos(f, 1000);
    lemma_fundamental_div_mod(f, 10);
    lemma_fundamental_div_mod(t, 10);
    lemma_fundamental_div_mod(h, 10);
    lemma_fundamental_div_mod(f, 1000);
    lemma_mod_pos_bound(f, 10);
    lemma_mod_pos_bound(t, 10);
    lemma_mod_pos_bound(h, 10);
    lemma_mod_pos_bound(f, 1000);
    assert(a <= 9) by (nonlinear_arith)
        requires
            f == 1000 * a + f % 1000,
            0 <= f % 1000,
            f < 10000,
    ;
}

/// Largest whole part of a coordinate that fits `i64` ticks.
pub const WHOLE_LIMIT: u64 = 922_337_203_685_477;

pub open spec fn magnitude(t: int) -> int {
    if t < 0 {
        -t
    } else {
        t
    }
}

pub open spec fn sign_of(t: int) -> Seq<u8> {
    if t < 0 {
        seq![MINUS]
    } else {
        Seq::empty()
    }
}

/// Where the parts of `fixed(t)` stand, when it stands in `b` at `pos`.
proof fn lemma_fixed_parts(b: Seq<u8>, pos: int, t: i64)
    requires
        starts_at(b, pos, fixed(t as int)),
    ensures
        ({
            let m = magnitude(t as int);
            let w = dec((m / 10000) as nat);
            let start = pos + sign_of(t as int).len();
            &&& (t < 0) == (pos < b.len() && b[pos] == MINUS)
            &&& starts_at(b, start, w)
            &&& m / 10000 <= WHOLE_LIMIT
            &&& start + w.len() < b.len()
            &&& b[start + w.len()] == DOT
            &&& starts_at(b, start + w.len() + 1, frac4(m % 10000))
            &&& fixed(t as int).len() == sign_of(t as int).len() + w.len() + 5
        }),
{
    reveal(starts_at);
    let m = magnitude(t as int);
    let sign = sign_of(t as int);
    let w = dec((m / 10000) as nat);
    lemma_dec((m / 10000) as nat);
    assert(fixed(t as int) == sign + w + seq![DOT] + frac4(m % 10000));
    lemma_starts_at_split(b, pos, sign + w + seq![DOT], frac4(m % 10000));
    lemma_starts_at_split(b, pos, sign + w, seq![DOT]);
    lemma_starts_at_split(b, pos, sign, w);
    assert(seq![DOT][0] == DOT);
    if t >= 0 {
        assert(w[0] == b[pos]);
        assert(is_digit(w[0]));
    } else {
        assert(sign[0] == MINUS);
    }
}

/// Reads a coordinate written as `fixed` writes it.
#[verifier::rlimit(30)]
fn parse_fixed(bytes: &Vec<u8>, pos: usize) -> (r: Option<(i64, usize)>)
    requires
        pos <= bytes@.len(),
    ensures
        r matches Some((t, e)) ==> {
            &&& e == pos + fixed(t as int).len()
            &&& starts_at(bytes@, pos as int, fixed(t as int))
        },
        forall|t: i64|
            starts_at(bytes@, pos as int, #[trigger] fixed(t as int)) ==> r == Some(
                (t, (pos + fixed(t as int).len()) as usize),
            ),
{
    reveal(starts_at);
    let neg = pos < bytes.len() && bytes[pos] == MINUS;
    let start = if neg {
        pos + 1
    } else {
        pos
    };
    let (whole, j) = match parse_dec(bytes, start, WHOLE_LIMIT) {
        Some(found) => found,
        None => {
            proof {
                assert forall|t: i64| #[trigger]
                    starts_at(bytes@, pos as int, fixed(t as int)) implies false by {
                    lemma_fixed_parts(bytes@, pos as int, t);
                }
            }
            return None;
        },
    };
    if bytes.len() - j < 5 || bytes[j] != DOT {
        proof {
            assert forall|t: i64| #[trigger]
                starts_at(bytes@, pos as int, fixed(t as int)) implies false by {
                lemma_fixed_parts(bytes@, pos as int, t);
            }
        }
        return None;
    }
    let b1 = bytes[j + 1];
    let b2 = bytes[j + 2];
    let b3 = bytes[j + 3];
    let b4 = bytes[j + 4];
    if !(48 <= b1 && b1 <= 57 && 48 <= b2 && b2 <= 57 && 48 <= b3 && b3 <= 57 && 48 <= b4 && b4
        <= 57) {
        proof {
            assert forall|t: i64| #[trigger]
                starts_at(bytes@, pos as int, fixed(t as int)) implies false by {
                lemma_fixed_parts(bytes@, pos as int, t);
                let m = magnitude(t as int);
                lemma_frac4_digits(m % 10000);
                assert(frac4(m % 10000)[0] == b1);
                assert(frac4(m % 10000)[1] == b2);
                assert(frac4(m % 10000)[2] == b3);
                assert(frac4(m % 10000)[3] == b4);
            }
        }
        return None;
    }
    let f = 1000 * (b1 - 48) as u64 + 100 * (b2 - 48) as u64 + 10 * (b3 - 48) as u64 + (b4 - 48) as u64;
    let m = whole * 10000 + f;
    proof {
        lemma_frac4_of_digits((b1 - 48) as int, (b2 - 48) as int, (b3 - 48) as int, (b4 - 48) as int);
        assert(m / 10000 == whole && m % 10000 == f) by (nonlinear_arith)
            requires
                m == whole * 10000 + f,
                0 <= f < 10000,
                0 <= whole,
        ;
    }
    proof {
        assert forall|t: i64| #[trigger]
            starts_at(bytes@, pos as int, fixed(t as int)) implies magnitude(t as int) == m && (t
            < 0) == neg by {
            lemma_fixed_parts(bytes@, pos as int, t);
            let m2 = magnitude(t as int);
            lemma_frac4_digits(m2 % 10000);
            assert(frac4(m2 % 10000)[0] == b1);
            assert(frac4(m2 % 10000)[1] == b2);
            assert(frac4(m2 % 10000)[2] == b3);
            assert(frac4(m2 % 10000)[3] == b4);
            assert(m2 == (m2 / 10000) * 10000 + m2 % 10000);
        }
    }
    let t: i64 = if neg {
        if m == 0 || m > 9_223_372_036_854_775_808 {
            return None;
        }
        (-(m as i128)) as i64
    } else {
        if m > 9_223_372_036_854_775_807 {
            return None;
        }
        m as i64
    };
    proof {
        lemma_fixed_layout(bytes@, pos as int, t as int, whole as int, j as int, f as int);
    }
    Some((t, j + 5))
}

/// Puts the parts that `parse_fixed` checked back together.
proof fn lemma_fixed_layout(b: Seq<u8>, pos: int, t: int, whole: int, j: int, f: int)
    requires
        0 <= whole,
        0 <= f < 10000,
        magnitude(t) == whole * 10000 + f,
        0 <= pos,
        t < 0 ==> pos < b.len() && b[pos] == MINUS,
        starts_at(b, pos + sign_of(t).len(), dec(whole as nat)),
        j == pos + sign_of(t).len() + dec(whole as nat).len(),
        j + 5 <= b.len(),
        b[j] == DOT,
        frac4(f) =~= seq![b[j + 1], b[j + 2], b[j + 3], b[j + 4]],
    ensures
        starts_at(b, pos, fixed(t)),
        fixed(t).len() == j + 5 - pos,
{
    reveal(starts_at);
    let sign = sign_of(t);
    let w = dec(whole as nat);
    assert(magnitude(t) / 10000 == whole && magnitude(t) % 10000 == f) by (nonlinear_arith)
        requires
            magnitude(t) == whole * 10000 + f,
            0 <= f < 10000,
            0 <= whole,
    ;
    assert(fixed(t) == sign + w + seq![DOT] + frac4(f));
    assert(starts_at(b, pos, sign)) by {
        if t < 0 {
            assert(sign[0] == b[pos]);
        }
    }
    assert(starts_at(b, j, seq![DOT])) by {
        assert(seq![DOT][0] == DOT);
    }
    assert(starts_at(b, j + 1, frac4(f))) by {
        assert(frac4(f)[0] == b[j + 1]);
        assert(frac4(f)[1] == b[j + 2]);
        assert(frac4(f)[2] == b[j + 3]);
        assert(frac4(f)[3] == b[j + 4]);
    }
    lemma_starts_at_split(b, pos, sign, w);
    lemma_starts_at_split(b, pos, sign + w, seq![DOT]);
    lemma_starts_at_split(b, pos, sign + w + seq![DOT], frac4(f));
}

proof fn lemma_starts_at_byte(b: Seq<u8>, pos: int, c: u8)
    ensures
        starts_at(b, pos, seq![c]) <==> (0 <= pos < b.len() && b[pos] == c),
{
    reveal(starts_at);
    assert(seq![c][0] == c);
}

proof fn lemma_starts_at_len(b: Seq<u8>, pos: int, s: Seq<u8>)
    ensures
        starts_at(b, pos, s) ==> 0 <= pos && pos + s.len() <= b.len(),
{
    reveal(starts_at);
}

/// A whole number followed by the separator `sep`.
fn parse_dec_then(bytes: &Vec<u8>, pos: usize, max: u64, sep: u8) -> (r: Option<(u64, usize)>)
    requires
        pos <= bytes@.len(),
        !is_digit(sep),
    ensures
        r matches Some((v, e)) ==> {
            &&& e == pos + (dec(v as nat) + seq![sep]).len()
            &&& e <= bytes@.len()
            &&& starts_at(bytes@, pos as int, dec(v as nat) + seq![sep])
            &&& v <= max
        },
        forall|n: nat|
            n <= max && starts_at(bytes@, pos as int, #[trigger] dec(n) + seq![sep]) ==> r == Some(
                (n as u64, (pos + dec(n).len() + 1) as usize),
            ),
{
    proof {
        assert(seq![sep][0] == sep);
        assert forall|n: nat| starts_at(bytes@, pos as int, #[trigger] dec(n) + seq![sep]) implies {
            &&& starts_at(bytes@, pos as int, dec(n))
            &&& starts_at(bytes@, pos + dec(n).len(), seq![sep])
            &&& bytes@[pos + dec(n).len()] == sep
        } by {
            lemma_starts_at_split(bytes@, pos as int, dec(n), seq![sep]);
            lemma_starts_at_byte(bytes@, pos + dec(n).len(), sep);
        }
    }
    let (v, e) = match parse_dec(bytes, pos, max) {
        Some(found) => found,
        None => return None,
    };
    if !expect_byte(bytes, e, sep) {
        return None;
    }
    proof {
        lemma_starts_at_split(bytes@, pos as int, dec(v as nat), seq![sep]);
        lemma_starts_at_len(bytes@, pos as int, dec(v as nat) + seq![sep]);
    }
    Some((v, e + 1))
}

/// A coordinate followed by the separator `sep`.
fn parse_fixed_then(bytes: &Vec<u8>, pos: usize, sep: u8) -> (r: Option<(i64, usize)>)
    requires
        pos <= bytes@.len(),
    ensures
        r matches Some((t, e)) ==> {
            &&& e == pos + (fixed(t as int) + seq![sep]).len()
            &&& e <= bytes@.len()
            &&& starts_at(bytes@, pos as int, fixed(t as int) + seq![sep])
        },
        forall|t: i64|
            starts_at(bytes@, pos as int, #[trigger] fixed(t as int) + seq![sep]) ==> r == Some(
                (t, (pos + fixed(t as int).len() + 1) as usize),
            ),
{
    proof {
        assert forall|t: i64| starts_at(bytes@, pos as int, #[trigger] fixed(t as int) + seq![sep]) implies {
            &&& starts_at(bytes@, pos as int, fixed(t as int))
            &&& starts_at(bytes@, pos + fixed(t as int).len(), seq![sep])
        } by {
            lemma_starts_at_split(bytes@, pos as int, fixed(t as int), seq![sep]);
        }
    }
    let (t, e) = match parse_fixed(bytes, pos) {
        Some(found) => found,
        None => return None,
    };
    if !expect_byte(bytes, e, sep) {
        return None;
    }
    proof {
        lemma_starts_at_split(bytes@, pos as int, fixed(t as int), seq![sep]);
        lemma_starts_at_len(bytes@, pos as int, fixed(t as int) + seq![sep]);
    }
    Some((t, e + 1))
}

/// A single byte `c` stands at `pos`.
fn expect_byte(bytes: &Vec<u8>, pos: usize, c: u8) -> (r: bool)
    ensures
        r == starts_at(bytes@, pos as int, seq![c]),
        r ==> pos < bytes@.len() <= usize::MAX,
{
    reveal(starts_at);
    proof {
        assert(seq![c][0] == c);
    }
    let n = bytes.len();
    pos < n && bytes[pos] == c
}

/// Reads one line of the table.
#[verifier::rlimit(50)]
fn parse_row(bytes: &Vec<u8>, pos: usize) -> (r: Option<(Record, usize)>)
    requires
        pos <= bytes@.len(),
    ensures
        r matches Some((rec, e)) ==> {
            &&& e == pos + row(rec).len()
            &&& e <= bytes@.len()
            &&& starts_at(bytes@, pos as int, row(rec))
        },
        forall|rec: Record|
            starts_at(bytes@, pos as int, #[trigger] row(rec)) ==> r == Some(
                (rec, (pos + row(rec).len()) as usize),
            ),
{
    let ghost b = bytes@;
    proof {
        assert forall|rec: Record| #[trigger] starts_at(b, pos as int, row(rec)) implies {
            let f1 = dec(rec.id as nat) + seq![COMMA];
            let f2 = dec(rec.parent as nat) + seq![COMMA];
            let f3 = fixed(rec.x as int) + seq![COMMA];
            let f4 = fixed(rec.y as int) + seq![COMMA];
            let f5 = fixed(rec.z as int) + seq![NEWLINE];
            &&& starts_at(b, pos as int, f1)
            &&& starts_at(b, pos + f1.len(), f2)
            &&& starts_at(b, pos + f1.len() + f2.len(), f3)
            &&& starts_at(b, pos + f1.len() + f2.len() + f3.len(), f4)
            &&& starts_at(b, pos + f1.len() + f2.len() + f3.len() + f4.len(), f5)
        } by {
            let f1 = dec(rec.id as nat) + seq![COMMA];
            let f2 = dec(rec.parent as nat) + seq![COMMA];
            let f3 = fixed(rec.x as int) + seq![COMMA];
            let f4 = fixed(rec.y as int) + seq![COMMA];
            let f5 = fixed(rec.z as int) + seq![NEWLINE];
            lemma_starts_at_split(b, pos as int, f1 + f2 + f3 + f4, f5);
            lemma_starts_at_split(b, pos as int, f1 + f2 + f3, f4);
            lemma_starts_at_split(b, pos as int, f1 + f2, f3);
            lemma_starts_at_split(b, pos as int, f1, f2);
        }
    }
    let (id, p1) = match parse_dec_then(bytes, pos, usize::MAX as u64, COMMA) {
        Some(found) => found,
        None => return None,
    };
    let (parent, p2) = match parse_dec_then(bytes, p1, usize::MAX as u64, COMMA) {
        Some(found) => found,
        None => return None,
    };
    let (x, p3) = match parse_fixed_then(bytes, p2, COMMA) {
        Some(found) => found,
        None => return None,
    };
    let (y, p4) = match parse_fixed_then(bytes, p3, COMMA) {
        Some(found) => found,
        None => return None,
    };
    let (z, p5) = match parse_fixed_then(bytes, p4, NEWLINE) {
        Some(found) => found,
        None => return None,
    };
    let rec = Record { id: id as usize, parent: parent as usize, x, y, z };
    proof {
        let f1 = dec(rec.id as nat) + seq![COMMA];
        let f2 = dec(rec.parent as nat) + seq![COMMA];
        let f3 = fixed(rec.x as int) + seq![COMMA];
        let f4 = fixed(rec.y as int) + seq![COMMA];
        let f5 = fixed(rec.z as int) + seq![NEWLINE];
        lemma_starts_at_split(b, pos as int, f1, f2);
        lemma_starts_at_split(b, pos as int, f1 + f2, f3);
        lemma_starts_at_split(b, pos as int, f1 + f2 + f3, f4);
        lemma_starts_at_split(b, pos as int, f1 + f2 + f3 + f4, f5);
    }
    Some((rec, p5))
}

proof fn lemma_rows_concat(a: Seq<Record>, b: Seq<Record>)
    ensures
        rows(a + b) == rows(a) + rows(b),
    decreases b.len(),
{
    if b.len() == 0 {
        assert(a + b =~= a);
        assert(rows(a) + rows(b) =~= rows(a));
    } else {
        let b0 = b.drop_last();
        lemma_rows_concat(a, b0);
        assert((a + b).drop_last() =~= a + b0);
        assert((a + b).last() == b.last());
        assert(rows(a + b) =~= rows(a) + rows(b));
    }
}

proof fn lemma_rows_len(rs: Seq<Record>)
    ensures
        rows(rs).len() >= rs.len(),
    decreases rs.len(),
{
    if rs.len() > 0 {
        lemma_rows_len(rs.drop_last());
    }
}

proof fn lemma_starts_at_whole(b: Seq<u8>)
    ensures
        starts_at(b, 0, b),
{
    reveal(starts_at);
}

proof fn lemma_starts_at_equal(b: Seq<u8>, s: Seq<u8>)
    requires
        starts_at(b, 0, s),
        s.len() == b.len(),
    ensures
        b == s,
{
    reveal(starts_at);
    assert(b =~= s);
}

/// Where the next row of `rs` stands, once `out` has been read.
proof fn lemma_table_next(bytes: Seq<u8>, out: Seq<Record>, rs: Seq<Record>)
    requires
        table(rs) == bytes,
        out.len() <= rs.len(),
        out == rs.take(out.len() as int),
        19 + rows(out).len() < bytes.len(),
    ensures
        out.len() < rs.len(),
        starts_at(bytes, (19 + rows(out).len()) as int, row(rs[out.len() as int])),
{
    let k = out.len() as int;
    if k == rs.len() {
        assert(rs.take(k) =~= rs);
    }
    lemma_rows_concat(rs.take(k + 1), rs.skip(k + 1));
    assert(rs.take(k + 1) + rs.skip(k + 1) =~= rs);
    assert(rs.take(k + 1).drop_last() =~= rs.take(k));
    assert(rows(rs.take(k + 1)) == rows(out) + row(rs[k]));
    lemma_starts_at_whole(bytes);
    assert(bytes == (header() + rows(out)) + row(rs[k]) + rows(rs.skip(k + 1)));
    lemma_starts_at_split(bytes, 0, (header() + rows(out)) + row(rs[k]), rows(rs.skip(k + 1)));
    lemma_starts_at_split(bytes, 0, header() + rows(out), row(rs[k]));
}

/// A row read after `out` extends the prefix that stands in `bytes`.
proof fn lemma_table_step(bytes: Seq<u8>, out: Seq<Record>, rec: Record)
    requires
        starts_at(bytes, 0, header() + rows(out)),
        starts_at(bytes, (19 + rows(out).len()) as int, row(rec)),
    ensures
        starts_at(bytes, 0, header() + rows(out.push(rec))),
        rows(out.push(rec)).len() == rows(out).len() + row(rec).len(),
{
    lemma_starts_at_split(bytes, 0, header() + rows(out), row(rec));
    assert(out.push(rec).drop_last() =~= out);
    assert(header() + rows(out.push(rec)) =~= header() + rows(out) + row(rec));
}

/// Reads a table back into its records. It succeeds exactly on the tables
/// that `table` writes, and gives back the records they were written from.
pub fn parse_table(bytes: &Vec<u8>) -> (r: Option<Vec<Record>>)
    ensures
        r matches Some(v) ==> table(v@) == bytes@,
        forall|rs: Seq<Record>| #[trigger] table(rs) == bytes@ ==> (r matches Some(v) && v@ == rs),
{
    let head: Vec<u8> = vec![105u8, 110, 100, 101, 120, 44, 112, 97, 114, 101, 110, 116, 44, 120, 44, 121, 44, 122, 10];
    assert(head@ =~= header());
    if bytes.len() < 19 {
        return None;
    }
    let mut i: usize = 0;
    while i < 19
        invariant
            i <= 19 <= bytes@.len(),
            head@ == header(),
            forall|k: int| 0 <= k < i ==> bytes@[k] == header()[k],
        decreases 19 - i,
    {
        if bytes[i] != head[i] {
            proof {
                assert forall|rs: Seq<Record>| #[trigger] table(rs) == bytes@ implies false by {
                    assert(table(rs)[i as int] == header()[i as int]);
                }
            }
            return None;
        }
        i = i + 1;
    }
    proof {
        reveal(starts_at);
        assert(header() + rows(Seq::<Record>::empty()) =~= header());
    }
    let mut out: Vec<Record> = Vec::new();
    let mut pos: usize = 19;
    while pos < bytes.len()
        invariant
            19 <= pos <= bytes@.len(),
            starts_at(bytes@, 0, header() + rows(out@)),
            pos == 19 + rows(out@).len(),
            forall|rs: Seq<Record>| #[trigger]
                table(rs) == bytes@ ==> out@.len() <= rs.len() && out@ == rs.take(
                    out@.len() as int,
                ),
        decreases bytes@.len() - pos,
    {
        proof {
            assert forall|rs: Seq<Record>| #[trigger] table(rs) == bytes@ implies out@.len()
                < rs.len() && starts_at(bytes@, pos as int, row(rs[out@.len() as int])) by {
                lemma_table_next(bytes@, out@, rs);
            }
        }
        let (rec, e) = match parse_row(bytes, pos) {
            Some(found) => found,
            None => return None,
        };
        proof {
            lemma_table_step(bytes@, out@, rec);
            assert forall|rs: Seq<Record>| #[trigger] table(rs) == bytes@ implies out@.push(rec)
                == rs.take(out@.len() as int + 1) by {
                assert(rs.take(out@.len() as int + 1) =~= rs.take(out@.len() as int).push(
                    rs[out@.len() as int],
                ));
            }
        }
        out.push(rec);
        pos = e;
    }
    proof {
        lemma_starts_at_equal(bytes@, header() + rows(out@));
        assert forall|rs: Seq<Record>| #[trigger] table(rs) == bytes@ implies out@ == rs by {
            let k = out@.len() as int;
            lemma_rows_concat(rs.take(k), rs.skip(k));
            assert(rs.take(k) + rs.skip(k) =~= rs);
            lemma_rows_len(rs.skip(k));
            assert(rs.take(k) =~= rs);
        }
    }
    Some(out)
}

fn write_dec(out: &mut Vec<u8>, n: u64)
    ensures
        final(out)@ == old(out)@ + dec(n as nat),
    decreases n,
{
    if n >= 10 {
        write_dec(out, n / 10);
    }
    out.push((48 + n % 10) as u8);
    proof {
        if n >= 10 {
            assert(old(out)@ + dec(n as nat) =~= old(out)@ + dec((n / 10) as nat) + seq![
                digit((n % 10) as int),
            ]);
        }
    }
    assert(out@ =~= old(out)@ + dec(n as nat));
}

fn write_fixed(out: &mut Vec<u8>, t: i64)
    ensures
        final(out)@ == old(out)@ + fixed(t as int),
{
    let m: u64 = if t < 0 {
        (-(t as i128)) as u64
    } else {
        t as u64
    };
    if t < 0 {
        out.push(MINUS);
    }
    write_dec(out, m / 10000);
    out.push(DOT);
    let f = m % 10000;
    out.push((48 + f / 1000) as u8);
    out.push((48 + f / 100 % 10) as u8);
    out.push((48 + f / 10 % 10) as u8);
    out.push((48 + f % 10) as u8);
    assert(out@ =~= old(out)@ + fixed(t as int));
}

fn write_row(out: &mut Vec<u8>, r: &Record)
    ensures
        final(out)@ == old(out)@ + row(*r),
{
    write_dec(out, r.id as u64);
    out.push(COMMA);
    write_dec(out, r.parent as u64);
    out.push(COMMA);
    write_fixed(out, r.x);
    out.push(COMMA);
    write_fixed(out, r.y);
    out.push(COMMA);
    write_fixed(out, r.z);
    out.push(NEWLINE);
    assert(out@ =~= old(out)@ + row(*r));
}

/// The table of `records`, as bytes.
pub fn encode_table(records: &Vec<Record>) -> (r: Vec<u8>)
    ensures
        r@ == table(records@),
{
    let mut out: Vec<u8> = vec![105u8, 110, 100, 101, 120, 44, 112, 97, 114, 101, 110, 116, 44, 120, 44, 121, 44, 122, 10];
    assert(out@ =~= header());
    let mut i: usize = 0;
    while i < records.len()
        invariant
            i <= records@.len(),
            out@ == header() + rows(records@.take(i as int)),
        decreases records@.len() - i,
    {
        write_row(&mut out, &records[i]);
        proof {
            let next = records@.take(i + 1);
            assert(next.drop_last() =~= records@.take(i as int));
            assert(out@ =~= header() + rows(next));
        }
        i = i + 1;
    }
    assert(records@.take(records@.len() as int) =~= records@);
    out
}

} // verus!
