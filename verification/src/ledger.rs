//! The persisted form of the ledger: one JSON object mapping each day's
//! `YYYY-MM-DD` key to its record. The renderer is exact to the byte, and
//! the reader accepts exactly the renderings of well-formed ledgers — each
//! loading back to precisely the ledger that wrote it, so a save followed
//! by a load always restores the stored days unchanged.

use vstd::prelude::*;
use vstd::arithmetic::div_mod::{
    lemma_div_denominator, lemma_div_is_ordered, lemma_div_is_ordered_by_denominator,
    lemma_div_multiples_vanish, lemma_div_multiples_vanish_fancy, lemma_fundamental_div_mod,
    lemma_small_mod,
};
use crate::date::{Date, current_date};
use crate::stats::{DayEntry, StatsManager, entries_wf};

verus! {

pub open spec fn digit8(k: int) -> u8 {
    (48 + k) as u8
}

/// The ten bytes of the fixed-width `YYYY-MM-DD` rendering of a date.
pub open spec fn date_ascii(d: Date) -> Seq<u8> {
    seq![
        digit8(d.year as int / 1000 % 10),
        digit8(d.year as int / 100 % 10),
        digit8(d.year as int / 10 % 10),
        digit8(d.year as int % 10),
        45,
        digit8(d.month as int / 10),
        digit8(d.month as int % 10),
        45,
        digit8(d.day as int / 10),
        digit8(d.day as int % 10),
    ]
}

/// The shortest decimal rendering of a number, most significant digit first.
pub open spec fn dec_bytes(n: nat) -> Seq<u8>
    decreases n,
{
    if n < 10 {
        seq![digit8(n as int)]
    } else {
        dec_bytes(n / 10).push(digit8((n % 10) as int))
    }
}

pub open spec fn pow10(k: nat) -> nat
    decreases k,
{
    if k == 0 {
        1
    } else {
        10 * pow10((k - 1) as nat)
    }
}

/// The shape of a decimal rendering: at least one byte, no more bytes than
/// the number has digits, and byte `i` is the `i`-th most significant digit.
proof fn lemma_pow10_pos(k: nat)
    ensures
        pow10(k) >= 1,
    decreases k,
{
    if k > 0 {
        lemma_pow10_pos((k - 1) as nat);
    }
}

proof fn lemma_dec_bytes_shape(n: nat)
    ensures
        dec_bytes(n).len() >= 1,
        n < pow10(dec_bytes(n).len()),
        n > 0 ==> pow10((dec_bytes(n).len() - 1) as nat) <= n,
        forall|i: int|
            0 <= i < dec_bytes(n).len() ==> #[trigger] dec_bytes(n)[i] == digit8(
                (n / pow10((dec_bytes(n).len() - 1 - i) as nat) % 10) as int,
            ),
    decreases n,
{
    if n < 10 {
        assert(dec_bytes(n) == seq![digit8(n as int)]);
        assert(pow10(1) == 10 * pow10(0));
        assert(n / pow10(0) == n) by {
            lemma_div_multiples_vanish(n as int, 1);
        }
        lemma_small_mod(n, 10);
    } else {
        assert(n / 10 < n) by (nonlinear_arith)
            requires
                n >= 10,
        {
        }
        lemma_dec_bytes_shape(n / 10);
        let t = dec_bytes(n / 10);
        let l = t.len();
        assert(dec_bytes(n) == t.push(digit8((n % 10) as int)));
        assert(dec_bytes(n).len() == l + 1);
        lemma_fundamental_div_mod(n as int, 10);
        assert(n < pow10(l + 1)) by {
            assert(n / 10 < pow10(l));
            assert(n as int == 10 * ((n as int) / 10) + (n as int) % 10);
            assert(pow10(l + 1) == 10 * pow10(l));
        }
        assert(pow10(l) <= n) by {
            assert(n / 10 >= 1);
            assert(pow10((l - 1) as nat) <= n / 10);
            assert(pow10(l) == 10 * pow10((l - 1) as nat));
        }
        assert forall|i: int| 0 <= i < l + 1 implies #[trigger] dec_bytes(n)[i] == digit8(
            (n / pow10((l - i) as nat) % 10) as int,
        ) by {
            if i == l {
                assert(dec_bytes(n)[i] == digit8((n % 10) as int));
                assert(n / pow10(0) == n) by {
                    lemma_div_multiples_vanish(n as int, 1);
                }
            } else {
                assert(dec_bytes(n)[i] == t[i]);
                assert(t[i] == digit8(((n / 10) / pow10((l - 1 - i) as nat) % 10) as int));
                lemma_pow10_pos((l - 1 - i) as nat);
                lemma_div_denominator(n as int, 10, pow10((l - 1 - i) as nat) as int);
                assert(pow10((l - i) as nat) == 10 * pow10((l - 1 - i) as nat));
            }
        }
    }
}

pub open spec fn is_digit(b: u8) -> bool {
    48 <= b <= 57
}

/// `n`'s decimal rendering sits in `c` at `pos`, followed by the end of the
/// input or by something other than a digit.
pub open spec fn num_at(c: Seq<u8>, pos: int, n: u32) -> bool {
    &&& pos + dec_bytes(n as nat).len() <= c.len()
    &&& c.subrange(pos, pos + dec_bytes(n as nat).len() as int) == dec_bytes(n as nat)
    &&& (pos + dec_bytes(n as nat).len() == c.len() || !is_digit(
        c[pos + dec_bytes(n as nat).len() as int],
    ))
}

pub open spec fn key_head() -> Seq<u8> {
    seq![34]
}

pub open spec fn date_field_head() -> Seq<u8> {
    seq![34, 58, 123, 34, 100, 97, 116, 101, 34, 58, 34]
}

pub open spec fn count_field_head() -> Seq<u8> {
    seq![
        34, 44, 34, 116, 114, 105, 103, 103, 101, 114, 95, 99, 111, 117,
        110, 116, 34, 58,
    ]
}

/// One stored day as it stands in the persisted file: the date key, then an
/// object repeating the date and giving the trigger count.
pub open spec fn ser_entry(e: DayEntry) -> Seq<u8> {
    key_head() + date_ascii(e.date) + date_field_head() + date_ascii(e.date) + count_field_head()
        + dec_bytes(e.count as nat) + seq![125]
}

/// The first `i` entries rendered in order, separated by commas.
pub open spec fn ser_upto(s: Seq<DayEntry>, i: int) -> Seq<u8>
    decreases i,
{
    if i <= 0 {
        Seq::<u8>::empty()
    } else if i == 1 {
        ser_entry(s[0])
    } else {
        ser_upto(s, i - 1) + seq![44] + ser_entry(s[i - 1])
    }
}

/// The whole persisted ledger: one JSON object mapping each stored day's
/// `YYYY-MM-DD` key to its record, in ledger order.
pub open spec fn spec_ser_ledger(s: Seq<DayEntry>) -> Seq<u8> {
    seq![123] + ser_upto(s, s.len() as int) + seq![125]
}

fn push_date_ascii(out: &mut Vec<u8>, d: Date)
    requires
        d.valid(),
    ensures
        final(out)@ == old(out)@ + date_ascii(d),
{
    out.push(48 + (d.year / 1000 % 10) as u8);
    out.push(48 + (d.year / 100 % 10) as u8);
    out.push(48 + (d.year / 10 % 10) as u8);
    out.push(48 + (d.year % 10) as u8);
    out.push(45);
    out.push(48 + (d.month / 10) as u8);
    out.push(48 + (d.month % 10) as u8);
    out.push(45);
    out.push(48 + (d.day / 10) as u8);
    out.push(48 + (d.day % 10) as u8);
    proof {
        assert(out@ =~= old(out)@ + date_ascii(d));
    }
}

fn push_dec(out: &mut Vec<u8>, n: u32)
    ensures
        final(out)@ == old(out)@ + dec_bytes(n as nat),
    decreases n,
{
    if n < 10 {
        out.push(48 + n as u8);
        proof {
            assert(out@ =~= old(out)@ + dec_bytes(n as nat));
        }
    } else {
        push_dec(out, n / 10);
        out.push(48 + (n % 10) as u8);
        proof {
            assert(out@ =~= old(out)@ + dec_bytes(n as nat));
        }
    }
}

#[verifier::rlimit(100)]
#[verifier::spinoff_prover]
fn push_entry(out: &mut Vec<u8>, e: DayEntry)
    requires
        e.date.valid(),
    ensures
        final(out)@ == old(out)@ + ser_entry(e),
{
    out.push(34);
    push_date_ascii(out, e.date);
    out.push(34);
    out.push(58);
    out.push(123);
    out.push(34);
    out.push(100);
    out.push(97);
    out.push(116);
    out.push(101);
    out.push(34);
    out.push(58);
    out.push(34);
    push_date_ascii(out, e.date);
    out.push(34);
    out.push(44);
    out.push(34);
    out.push(116);
    out.push(114);
    out.push(105);
    out.push(103);
    out.push(103);
    out.push(101);
    out.push(114);
    out.push(95);
    out.push(99);
    out.push(111);
    out.push(117);
    out.push(110);
    out.push(116);
    out.push(34);
    out.push(58);
    push_dec(out, e.count);
    out.push(125);
    proof {
        assert(out@ =~= old(out)@ + ser_entry(e));
    }
}

/// Render a ledger for persistence.
pub fn ser_ledger(entries: &Vec<DayEntry>) -> (out: Vec<u8>)
    requires
        forall|i: int| 0 <= i < entries@.len() ==> (#[trigger] entries@[i]).date.valid(),
    ensures
        out@ == spec_ser_ledger(entries@),
{
    let mut out: Vec<u8> = Vec::new();
    out.push(123);
    let mut i: usize = 0;
    while i < entries.len()
        invariant
            i <= entries@.len(),
            forall|j: int| 0 <= j < entries@.len() ==> (#[trigger] entries@[j]).date.valid(),
            out@ == seq![123] + ser_upto(entries@, i as int),
        decreases entries@.len() - i,
    {
        if i > 0 {
            out.push(44);
        }
        push_entry(&mut out, entries[i]);
        proof {
            assert(out@ =~= seq![123] + ser_upto(entries@, i + 1));
        }
        i = i + 1;
    }
    out.push(125);
    proof {
        assert(out@ =~= spec_ser_ledger(entries@));
    }
    out
}

fn eat(c: &Vec<u8>, pos: usize, b: u8) -> (r: Option<usize>)
    ensures
        r matches Some(p) ==> pos < p == pos + 1 <= c@.len() && c@[pos as int] == b,
        r is None ==> !(pos < c@.len() && c@[pos as int] == b),
{
    if pos < c.len() && c[pos] == b {
        Some(pos + 1)
    } else {
        None
    }
}

proof fn lemma_year_digits(y: int)
    requires
        0 <= y <= 9999,
    ensures
        (y / 1000 % 10) * 1000 + (y / 100 % 10) * 100 + (y / 10 % 10) * 10 + y % 10 == y,
{
    lemma_fundamental_div_mod(y, 10);
    lemma_div_denominator(y, 10, 10);
    lemma_fundamental_div_mod(y / 10, 10);
    lemma_div_denominator(y, 100, 10);
    lemma_fundamental_div_mod(y / 100, 10);
    lemma_div_is_ordered(y, 9999, 1000);
    lemma_small_mod((y / 1000) as nat, 10);
}

#[verifier::rlimit(100)]
#[verifier::spinoff_prover]
fn parse_date_fix(c: &Vec<u8>, pos: usize) -> (r: Option<(Date, usize)>)
    ensures
        r matches Some(t) ==> t.0.valid() && pos < t.1 == pos + 10 <= c@.len(),
        forall|dd: Date|
            (dd.valid() && pos + 10 <= c@.len() && c@.subrange(pos as int, pos as int + 10)
                == #[trigger] date_ascii(dd)) ==> (r matches Some(t) && t.0 == dd && t.1 == pos
                + 10),
{
    if pos > c.len() || c.len() - pos < 10 {
        return None;
    }
    proof {
        if exists|dd: Date|
            dd.valid() && c@.subrange(pos as int, pos as int + 10) == #[trigger] date_ascii(dd) {
            let dd = choose|dd: Date|
                dd.valid() && c@.subrange(pos as int, pos as int + 10) == #[trigger] date_ascii(
                    dd,
                );
            let sub = c@.subrange(pos as int, pos as int + 10);
            assert(sub[0] == c@[pos + 0]);
            assert(sub[1] == c@[pos + 1]);
            assert(sub[2] == c@[pos + 2]);
            assert(sub[3] == c@[pos + 3]);
            assert(sub[4] == c@[pos + 4]);
            assert(sub[5] == c@[pos + 5]);
            assert(sub[6] == c@[pos + 6]);
            assert(sub[7] == c@[pos + 7]);
            assert(sub[8] == c@[pos + 8]);
            assert(sub[9] == c@[pos + 9]);
            lemma_year_digits(dd.year as int);
            assert((dd.month as int / 10) * 10 + dd.month as int % 10 == dd.month as int) by {
                lemma_fundamental_div_mod(dd.month as int, 10);
            }
            assert((dd.day as int / 10) * 10 + dd.day as int % 10 == dd.day as int) by {
                lemma_fundamental_div_mod(dd.day as int, 10);
            }
        }
    }
    let b0 = c[pos];
    let b1 = c[pos + 1];
    let b2 = c[pos + 2];
    let b3 = c[pos + 3];
    let b5 = c[pos + 5];
    let b6 = c[pos + 6];
    let b8 = c[pos + 8];
    let b9 = c[pos + 9];
    if c[pos + 4] != 45 || c[pos + 7] != 45 {
        return None;
    }
    if !(48 <= b0 && b0 <= 57) || !(48 <= b1 && b1 <= 57) || !(48 <= b2 && b2 <= 57) || !(48 <= b3
        && b3 <= 57) {
        return None;
    }
    if !(48 <= b5 && b5 <= 57) || !(48 <= b6 && b6 <= 57) || !(48 <= b8 && b8 <= 57) || !(48 <= b9
        && b9 <= 57) {
        return None;
    }
    let y: u32 = (b0 - 48) as u32 * 1000 + (b1 - 48) as u32 * 100 + (b2 - 48) as u32 * 10 + (b3
        - 48) as u32;
    let m: u32 = (b5 - 48) as u32 * 10 + (b6 - 48) as u32;
    let d: u32 = (b8 - 48) as u32 * 10 + (b9 - 48) as u32;
    if y < 1 || m < 1 || m > 12 || d < 1 {
        return None;
    }
    if d > crate::date::days_in_month_of(y, m) {
        return None;
    }
    Some((Date { year: y, month: m, day: d }, pos + 10))
}

proof fn lemma_top_digit(n: nat)
    requires
        n >= 1,
    ensures
        ({
            let l = dec_bytes(n).len();
            &&& 1 <= n / pow10((l - 1) as nat) <= 9
            &&& n / pow10((l - 1) as nat) % 10 == n / pow10((l - 1) as nat)
        }),
{
    lemma_dec_bytes_shape(n);
    let l = dec_bytes(n).len();
    let p = pow10((l - 1) as nat) as int;
    lemma_pow10_pos((l - 1) as nat);
    lemma_div_is_ordered(p, n as int, p);
    assert(p == p * 1);
    lemma_div_multiples_vanish(1, p);
    assert(pow10(l) == 10 * pow10((l - 1) as nat));
    lemma_div_is_ordered(n as int, 10 * p - 1, p);
    lemma_div_multiples_vanish_fancy(9, p - 1, p);
    assert(10 * p - 1 == p * 9 + (p - 1));
    lemma_small_mod((n / (p as nat)) as nat, 10);
}

#[verifier::rlimit(100)]
#[verifier::spinoff_prover]
fn parse_num(c: &Vec<u8>, pos: usize) -> (r: Option<(u32, usize)>)
    ensures
        r matches Some(t) ==> pos < t.1 <= c@.len(),
        forall|n: u32| #![trigger dec_bytes(n as nat)]
            num_at(c@, pos as int, n) ==> (r matches Some(t) && t.0 == n && t.1 == pos
                + dec_bytes(n as nat).len()),
{
    let n_len = c.len();
    if pos >= n_len {
        proof {
            assert forall|n: u32| !num_at(c@, pos as int, n) by {
                lemma_dec_bytes_shape(n as nat);
            }
        }
        return None;
    }
    let b0 = c[pos];
    if !(48 <= b0 && b0 <= 57) {
        proof {
            assert forall|n: u32| !num_at(c@, pos as int, n) by {
                if num_at(c@, pos as int, n) {
                    lemma_dec_bytes_shape(n as nat);
                    let l = dec_bytes(n as nat).len() as int;
                    assert(c@.subrange(pos as int, pos as int + l)[0] == c@[pos as int]);
                }
            }
        }
        return None;
    }
    if b0 == 48 {
        proof {
            assert forall|n: u32| num_at(c@, pos as int, n) implies n == 0 by {
                lemma_dec_bytes_shape(n as nat);
                let l = dec_bytes(n as nat).len() as int;
                assert(c@.subrange(pos as int, pos as int + l)[0] == c@[pos as int]);
                if n > 0 {
                    lemma_top_digit(n as nat);
                }
            }
            assert(dec_bytes(0).len() == 1);
        }
        return Some((0, pos + 1));
    }
    let mut acc: u32 = (b0 - 48) as u32;
    let mut p = pos + 1;
    proof {
        assert forall|n: u32|
            num_at(c@, pos as int, n) implies (1 <= dec_bytes(n as nat).len() && acc == n as nat
            / pow10((dec_bytes(n as nat).len() - 1) as nat)) by {
            lemma_dec_bytes_shape(n as nat);
            let l = dec_bytes(n as nat).len() as int;
            assert(c@.subrange(pos as int, pos as int + l)[0] == c@[pos as int]);
            if n == 0 {
                assert(c@[pos as int] == 48);
            }
            lemma_top_digit(n as nat);
        }
    }
    loop
        invariant
            pos < p <= n_len,
            n_len == c@.len(),
            forall|n: u32|
                num_at(c@, pos as int, n) ==> (p - pos <= dec_bytes(n as nat).len() && acc
                    == n as nat / pow10((dec_bytes(n as nat).len() - (p - pos)) as nat)),
        decreases n_len - p,
    {
        if p < n_len {
            let b = c[p];
            if 48 <= b && b <= 57 {
                let d = (b - 48) as u32;
                proof {
                    assert forall|n: u32|
                        num_at(c@, pos as int, n) implies (p - pos
                        < dec_bytes(n as nat).len() && acc * 10 + d <= u32::MAX && acc * 10 + d
                        == n as nat / pow10(
                        (dec_bytes(n as nat).len() - (p - pos) - 1) as nat,
                    )) by {
                        lemma_dec_bytes_shape(n as nat);
                        let l = dec_bytes(n as nat).len() as int;
                        let k = p - pos;
                        if k == l {
                            assert(pos + l < c@.len());
                            assert(is_digit(c@[pos + l]));
                        }
                        assert(k < l);
                        assert(c@.subrange(pos as int, pos as int + l)[k] == c@[p as int]);
                        assert(dec_bytes(n as nat)[k] == digit8(
                            (n as nat / pow10((l - 1 - k) as nat) % 10) as int,
                        ));
                        let x = n as nat / pow10((l - 1 - k) as nat);
                        assert(x % 10 == d);
                        lemma_pow10_pos((l - 1 - k) as nat);
                        lemma_div_denominator(n as int, pow10((l - 1 - k) as nat) as int, 10);
                        assert(pow10((l - k) as nat) == 10 * pow10((l - 1 - k) as nat)) by {
                            assert((l - k) as nat == ((l - 1 - k) as nat + 1) as nat);
                        }
                        assert(x / 10 == n as nat / pow10((l - k) as nat)) by {
                            assert(pow10((l - 1 - k) as nat) as int * 10 == 10 * pow10(
                                (l - 1 - k) as nat,
                            ) as int);
                        }
                        lemma_fundamental_div_mod(x as int, 10);
                        assert(x == acc * 10 + d);
                        assert(x <= n) by {
                            lemma_div_is_ordered_by_denominator(
                                n as int,
                                1,
                                pow10((l - 1 - k) as nat) as int,
                            );
                            assert(n as int / 1 == n as int) by {
                                assert(n as int == 1 * (n as int));
                                lemma_div_multiples_vanish(n as int, 1);
                            }
                        }
                    }
                }
                if acc > (u32::MAX - d) / 10 {
                    proof {
                        assert forall|n: u32| !num_at(c@, pos as int, n) by {
                            if num_at(c@, pos as int, n) {
                                assert(acc * 10 <= u32::MAX - d);
                                lemma_div_is_ordered(acc as int * 10, u32::MAX - d, 10);
                                assert((acc as int * 10) / 10 == acc as int) by {
                                    assert(acc as int * 10 == 10 * (acc as int));
                                    lemma_div_multiples_vanish(acc as int, 10);
                                }
                            }
                        }
                    }
                    return None;
                }
                acc = acc * 10 + d;
                p = p + 1;
            } else {
                proof {
                    assert forall|n: u32|
                        num_at(c@, pos as int, n) implies (p - pos == dec_bytes(
                        n as nat,
                    ).len() && acc == n) by {
                        lemma_dec_bytes_shape(n as nat);
                        let l = dec_bytes(n as nat).len() as int;
                        let k = p - pos;
                        if k < l {
                            assert(c@.subrange(pos as int, pos as int + l)[k] == c@[p as int]);
                        }
                        assert(k == l);
                        assert(acc == n as nat / pow10(0));
                        assert(n as int == 1 * (n as int));
                        lemma_div_multiples_vanish(n as int, 1);
                    }
                }
                return Some((acc, p));
            }
        } else {
            proof {
                assert forall|n: u32|
                    num_at(c@, pos as int, n) implies (p - pos == dec_bytes(n as nat).len()
                    && acc == n) by {
                    lemma_dec_bytes_shape(n as nat);
                    let l = dec_bytes(n as nat).len() as int;
                    let k = p - pos;
                    assert(k == l);
                    assert(acc == n as nat / pow10(0));
                    assert(n as int == 1 * (n as int));
                    lemma_div_multiples_vanish(n as int, 1);
                }
            }
            return Some((acc, p));
        }
    }
}

/// Entry `e` sits rendered in `c` at `pos`.
pub open spec fn entry_at(c: Seq<u8>, pos: int, e: DayEntry) -> bool {
    &&& e.date.valid()
    &&& pos >= 0
    &&& pos + ser_entry(e).len() <= c.len()
    &&& c.subrange(pos, pos + ser_entry(e).len() as int) == ser_entry(e)
}

#[verifier::rlimit(100)]
#[verifier::spinoff_prover]
proof fn lemma_entry_at_bytes(c: Seq<u8>, pos: int, e: DayEntry)
    requires
        entry_at(c, pos, e),
    ensures
        c[pos + 0] == 34,
        c[pos + 11] == 34,
        c[pos + 12] == 58,
        c[pos + 13] == 123,
        c[pos + 14] == 34,
        c[pos + 15] == 100,
        c[pos + 16] == 97,
        c[pos + 17] == 116,
        c[pos + 18] == 101,
        c[pos + 19] == 34,
        c[pos + 20] == 58,
        c[pos + 21] == 34,
        c[pos + 32] == 34,
        c[pos + 33] == 44,
        c[pos + 34] == 34,
        c[pos + 35] == 116,
        c[pos + 36] == 114,
        c[pos + 37] == 105,
        c[pos + 38] == 103,
        c[pos + 39] == 103,
        c[pos + 40] == 101,
        c[pos + 41] == 114,
        c[pos + 42] == 95,
        c[pos + 43] == 99,
        c[pos + 44] == 111,
        c[pos + 45] == 117,
        c[pos + 46] == 110,
        c[pos + 47] == 116,
        c[pos + 48] == 34,
        c[pos + 49] == 58,
        ser_entry(e).len() == 51 + dec_bytes(e.count as nat).len(),
{
    let s = ser_entry(e);
    let dec = dec_bytes(e.count as nat);
    let ll = dec.len() as int;
    lemma_dec_bytes_shape(e.count as nat);
    assert(key_head().len() == 1);
    assert(date_ascii(e.date).len() == 10);
    assert(date_field_head().len() == 11);
    assert(count_field_head().len() == 18);
    assert(s.len() == 51 + ll);
    let sub = c.subrange(pos, pos + s.len() as int);
    assert(sub == s);
    assert(sub[0] == s.index(0));
    assert(s.index(0) == 34);
    assert(c[pos + 0] == sub[0]);
    assert(sub[11] == s.index(11));
    assert(s.index(11) == 34);
    assert(c[pos + 11] == sub[11]);
    assert(sub[12] == s.index(12));
    assert(s.index(12) == 58);
    assert(c[pos + 12] == sub[12]);
    assert(sub[13] == s.index(13));
    assert(s.index(13) == 123);
    assert(c[pos + 13] == sub[13]);
    assert(sub[14] == s.index(14));
    assert(s.index(14) == 34);
    assert(c[pos + 14] == sub[14]);
    assert(sub[15] == s.index(15));
    assert(s.index(15) == 100);
    assert(c[pos + 15] == sub[15]);
    assert(sub[16] == s.index(16));
    assert(s.index(16) == 97);
    assert(c[pos + 16] == sub[16]);
    assert(sub[17] == s.index(17));
    assert(s.index(17) == 116);
    assert(c[pos + 17] == sub[17]);
    assert(sub[18] == s.index(18));
    assert(s.index(18) == 101);
    assert(c[pos + 18] == sub[18]);
    assert(sub[19] == s.index(19));
    assert(s.index(19) == 34);
    assert(c[pos + 19] == sub[19]);
    assert(sub[20] == s.index(20));
    assert(s.index(20) == 58);
    assert(c[pos + 20] == sub[20]);
    assert(sub[21] == s.index(21));
    assert(s.index(21) == 34);
    assert(c[pos + 21] == sub[21]);
    assert(sub[32] == s.index(32));
    assert(s.index(32) == 34);
    assert(c[pos + 32] == sub[32]);
    assert(sub[33] == s.index(33));
    assert(s.index(33) == 44);
    assert(c[pos + 33] == sub[33]);
    assert(sub[34] == s.index(34));
    assert(s.index(34) == 34);
    assert(c[pos + 34] == sub[34]);
    assert(sub[35] == s.index(35));
    assert(s.index(35) == 116);
    assert(c[pos + 35] == sub[35]);
    assert(sub[36] == s.index(36));
    assert(s.index(36) == 114);
    assert(c[pos + 36] == sub[36]);
    assert(sub[37] == s.index(37));
    assert(s.index(37) == 105);
    assert(c[pos + 37] == sub[37]);
    assert(sub[38] == s.index(38));
    assert(s.index(38) == 103);
    assert(c[pos + 38] == sub[38]);
    assert(sub[39] == s.index(39));
    assert(s.index(39) == 103);
    assert(c[pos + 39] == sub[39]);
    assert(sub[40] == s.index(40));
    assert(s.index(40) == 101);
    assert(c[pos + 40] == sub[40]);
    assert(sub[41] == s.index(41));
    assert(s.index(41) == 114);
    assert(c[pos + 41] == sub[41]);
    assert(sub[42] == s.index(42));
    assert(s.index(42) == 95);
    assert(c[pos + 42] == sub[42]);
    assert(sub[43] == s.index(43));
    assert(s.index(43) == 99);
    assert(c[pos + 43] == sub[43]);
    assert(sub[44] == s.index(44));
    assert(s.index(44) == 111);
    assert(c[pos + 44] == sub[44]);
    assert(sub[45] == s.index(45));
    assert(s.index(45) == 117);
    assert(c[pos + 45] == sub[45]);
    assert(sub[46] == s.index(46));
    assert(s.index(46) == 110);
    assert(c[pos + 46] == sub[46]);
    assert(sub[47] == s.index(47));
    assert(s.index(47) == 116);
    assert(c[pos + 47] == sub[47]);
    assert(sub[48] == s.index(48));
    assert(s.index(48) == 34);
    assert(c[pos + 48] == sub[48]);
    assert(sub[49] == s.index(49));
    assert(s.index(49) == 58);
    assert(c[pos + 49] == sub[49]);
}

#[verifier::rlimit(100)]
#[verifier::spinoff_prover]
proof fn lemma_entry_at_pieces(c: Seq<u8>, pos: int, e: DayEntry)
    requires
        entry_at(c, pos, e),
    ensures
        c.subrange(pos + 1, pos + 11) == date_ascii(e.date),
        c.subrange(pos + 22, pos + 32) == date_ascii(e.date),
        num_at(c, pos + 50, e.count),
        c[pos + 50 + dec_bytes(e.count as nat).len()] == 125,
        ser_entry(e).len() == 51 + dec_bytes(e.count as nat).len(),
        dec_bytes(e.count as nat).len() >= 1,
{
    let s = ser_entry(e);
    let dec = dec_bytes(e.count as nat);
    let ll = dec.len() as int;
    lemma_dec_bytes_shape(e.count as nat);
    assert(key_head().len() == 1);
    assert(date_ascii(e.date).len() == 10);
    assert(date_field_head().len() == 11);
    assert(count_field_head().len() == 18);
    assert(s.len() == 51 + ll);
    let sub = c.subrange(pos, pos + s.len() as int);
    assert(sub == s);
    assert(c.subrange(pos + 1, pos + 11) =~= date_ascii(e.date)) by {
        assert forall|i: int| 0 <= i < 10 implies c.subrange(pos + 1, pos + 11)[i]
            == date_ascii(e.date)[i] by {
            assert(sub[1 + i] == s.index(1 + i));
            assert(s.index(1 + i) == date_ascii(e.date)[i]);
            assert(sub[1 + i] == c[pos + (1 + i)]);
            assert(c.subrange(pos + 1, pos + 11)[i] == c[pos + 1 + i]);
        }
    }
    assert(c.subrange(pos + 22, pos + 32) =~= date_ascii(e.date)) by {
        assert forall|i: int| 0 <= i < 10 implies c.subrange(pos + 22, pos + 32)[i]
            == date_ascii(e.date)[i] by {
            assert(sub[22 + i] == s.index(22 + i));
            assert(s.index(22 + i) == date_ascii(e.date)[i]);
            assert(sub[22 + i] == c[pos + (22 + i)]);
            assert(c.subrange(pos + 22, pos + 32)[i] == c[pos + 22 + i]);
        }
    }
    assert(sub[50 + ll] == s.index(50 + ll));
    assert(s.index(50 + ll) == 125);
    assert(sub[50 + ll] == c[pos + (50 + ll)]);
    assert(num_at(c, pos + 50, e.count)) by {
        assert(c.subrange(pos + 50, pos + 50 + ll) =~= dec) by {
            assert forall|i: int| 0 <= i < ll implies c.subrange(pos + 50, pos + 50 + ll)[i]
                == dec[i] by {
                assert(sub[50 + i] == s.index(50 + i));
                assert(s.index(50 + i) == dec[i]);
                assert(sub[50 + i] == c[pos + (50 + i)]);
                assert(c.subrange(pos + 50, pos + 50 + ll)[i] == c[pos + 50 + i]);
            }
        }
        assert(!is_digit(c[pos + 50 + ll]));
    }
}

#[verifier::rlimit(100)]
#[verifier::spinoff_prover]
fn scan_one_entry(c: &Vec<u8>, pos: usize) -> (r: Option<(DayEntry, usize)>)
    ensures
        r matches Some(t) ==> t.0.date.valid() && pos < t.1 <= c@.len(),
        forall|e: DayEntry| #![trigger entry_at(c@, pos as int, e)]
            entry_at(c@, pos as int, e) ==> (r matches Some(t) && t.0 == e && t.1 == pos
                + ser_entry(e).len()),
{
    proof {
        if exists|e: DayEntry| #[trigger] entry_at(c@, pos as int, e) {
            let e = choose|e: DayEntry| #[trigger] entry_at(c@, pos as int, e);
            lemma_entry_at_bytes(c@, pos as int, e);
            lemma_entry_at_pieces(c@, pos as int, e);
        }
    }
    let p = eat(c, pos, 34)?;
    let (key_date, p) = parse_date_fix(c, p)?;
    let p = eat(c, p, 34)?;
    let p = eat(c, p, 58)?;
    let p = eat(c, p, 123)?;
    let p = eat(c, p, 34)?;
    let p = eat(c, p, 100)?;
    let p = eat(c, p, 97)?;
    let p = eat(c, p, 116)?;
    let p = eat(c, p, 101)?;
    let p = eat(c, p, 34)?;
    let p = eat(c, p, 58)?;
    let p = eat(c, p, 34)?;
    let (value_date, p) = parse_date_fix(c, p)?;
    if !(value_date == key_date) {
        return None;
    }
    let p = eat(c, p, 34)?;
    let p = eat(c, p, 44)?;
    let p = eat(c, p, 34)?;
    let p = eat(c, p, 116)?;
    let p = eat(c, p, 114)?;
    let p = eat(c, p, 105)?;
    let p = eat(c, p, 103)?;
    let p = eat(c, p, 103)?;
    let p = eat(c, p, 101)?;
    let p = eat(c, p, 114)?;
    let p = eat(c, p, 95)?;
    let p = eat(c, p, 99)?;
    let p = eat(c, p, 111)?;
    let p = eat(c, p, 117)?;
    let p = eat(c, p, 110)?;
    let p = eat(c, p, 116)?;
    let p = eat(c, p, 34)?;
    let p = eat(c, p, 58)?;
    let (count, p) = parse_num(c, p)?;
    let p = eat(c, p, 125)?;
    proof {
        assert forall|e: DayEntry|
            entry_at(c@, pos as int, e) implies (key_date == e.date && count == e.count && p
            == pos + ser_entry(e).len()) by {
            lemma_entry_at_bytes(c@, pos as int, e);
            lemma_entry_at_pieces(c@, pos as int, e);
            assert(c@.subrange(pos as int + 1, pos as int + 11) == date_ascii(e.date));
            assert(key_date == e.date);
            assert(c@.subrange(pos as int + 22, pos as int + 32) == date_ascii(e.date));
            assert(num_at(c@, pos as int + 50, e.count));
            assert(count == e.count);
            assert(p == pos + 51 + dec_bytes(e.count as nat).len());
            assert(ser_entry(e).len() == 51 + dec_bytes(e.count as nat).len());
        }
    }
    Some((DayEntry { date: key_date, count }, p))
}

pub open spec fn entries_valid(v: Seq<DayEntry>) -> bool {
    forall|i: int| 0 <= i < v.len() ==> (#[trigger] v[i]).date.valid()
}

/// Where entry `k` begins inside the rendered entry list: past the earlier
/// entries and, from the second entry on, past its separating comma.
pub open spec fn upto_off(v: Seq<DayEntry>, k: int) -> int {
    ser_upto(v, k).len() + if k == 0 {
        0int
    } else {
        1int
    }
}

proof fn lemma_entry_window(v: Seq<DayEntry>, k: int, n: int)
    requires
        0 <= k < n <= v.len(),
    ensures
        upto_off(v, k) + ser_entry(v[k]).len() as int == ser_upto(v, k + 1).len() as int,
        ser_upto(v, k + 1).len() as int <= ser_upto(v, n).len() as int,
        ser_upto(v, n).subrange(upto_off(v, k), upto_off(v, k) + ser_entry(v[k]).len() as int)
            == ser_entry(v[k]),
        k > 0 ==> ser_upto(v, n)[ser_upto(v, k).len() as int] == 44,
    decreases n,
{
    let u_n = ser_upto(v, n);
    let le = ser_entry(v[k]).len() as int;
    if n == k + 1 {
        if k == 0 {
            assert(ser_upto(v, 1) == ser_entry(v[0]));
            assert(u_n.subrange(0, le) =~= ser_entry(v[0]));
        } else {
            assert(u_n == ser_upto(v, k) + seq![44u8] + ser_entry(v[k]));
            assert(u_n.subrange(upto_off(v, k), upto_off(v, k) + le) =~= ser_entry(v[k]));
            assert(u_n[ser_upto(v, k).len() as int] == 44);
        }
    } else {
        lemma_entry_window(v, k, n - 1);
        let u_p = ser_upto(v, n - 1);
        assert(u_n == u_p + seq![44u8] + ser_entry(v[n - 1]));
        assert(u_n.subrange(upto_off(v, k), upto_off(v, k) + le) =~= ser_entry(v[k])) by {
            assert forall|i: int| 0 <= i < le implies u_n[upto_off(v, k) + i] == ser_entry(
                v[k],
            )[i] by {
                assert(u_n[upto_off(v, k) + i] == u_p[upto_off(v, k) + i]);
                assert(u_p.subrange(upto_off(v, k), upto_off(v, k) + le)[i] == u_p[upto_off(
                    v,
                    k,
                ) + i]);
            }
        }
        if k > 0 {
            assert(u_n[ser_upto(v, k).len() as int] == u_p[ser_upto(v, k).len() as int]);
        }
    }
}

proof fn lemma_ledger_window(v: Seq<DayEntry>, k: int)
    requires
        entries_valid(v),
        0 <= k < v.len(),
    ensures
        spec_ser_ledger(v).len() == 2 + ser_upto(v, v.len() as int).len(),
        entry_at(spec_ser_ledger(v), 1 + upto_off(v, k), v[k]),
        1 + upto_off(v, k) + ser_entry(v[k]).len() as int == 1 + ser_upto(v, k + 1).len() as int,
        k + 1 < v.len() ==> spec_ser_ledger(v)[1 + ser_upto(v, k + 1).len() as int] == 44,
        k + 1 == v.len() ==> 1 + ser_upto(v, k + 1).len() as int + 1 == spec_ser_ledger(v).len() as int,
        k + 1 == v.len() ==> spec_ser_ledger(v)[1 + ser_upto(v, k + 1).len() as int] == 125,
{
    let c = spec_ser_ledger(v);
    let nv = v.len() as int;
    let u = ser_upto(v, nv);
    let le = ser_entry(v[k]).len() as int;
    lemma_entry_window(v, k, nv);
    assert(c == seq![123u8] + u + seq![125u8]);
    assert(c.len() == 2 + u.len());
    let off = upto_off(v, k);
    assert(c.subrange(1 + off, 1 + off + le) =~= ser_entry(v[k])) by {
        assert forall|i: int| 0 <= i < le implies c[1 + off + i] == ser_entry(v[k])[i] by {
            assert(c[1 + off + i] == u[off + i]);
            assert(u.subrange(off, off + le)[i] == u[off + i]);
        }
    }
    if k + 1 < v.len() {
        lemma_entry_window(v, k + 1, nv);
        assert(c[1 + ser_upto(v, k + 1).len() as int] == u[ser_upto(v, k + 1).len() as int]);
    }
    if k + 1 == v.len() {
        assert(c[1 + u.len() as int] == 125);
    }
}

#[verifier::rlimit(100)]
#[verifier::spinoff_prover]
fn scan_entries(c: &Vec<u8>) -> (r: Option<Vec<DayEntry>>)
    ensures
        r matches Some(v) ==> forall|i: int|
            0 <= i < v@.len() ==> (#[trigger] v@[i]).date.valid(),
        forall|v: Seq<DayEntry>| #![trigger spec_ser_ledger(v)]
            (entries_valid(v) && c@ == spec_ser_ledger(v)) ==> (r matches Some(out) && out@
                == v),
{
    let n = c.len();
    if n < 2 {
        proof {
            assert forall|v: Seq<DayEntry>|
                entries_valid(v) implies c@ != spec_ser_ledger(v) by {
                assert(spec_ser_ledger(v).len() >= 2);
            }
        }
        return None;
    }
    if c[0] != 123 {
        proof {
            assert forall|v: Seq<DayEntry>|
                entries_valid(v) implies c@ != spec_ser_ledger(v) by {
                assert(spec_ser_ledger(v)[0] == 123);
            }
        }
        return None;
    }
    if c[1] == 125 {
        if n == 2 {
            let out: Vec<DayEntry> = Vec::new();
            proof {
                assert forall|v: Seq<DayEntry>|
                    (entries_valid(v) && c@ == spec_ser_ledger(v)) implies out@ == v by {
                    if v.len() > 0 {
                        lemma_ledger_window(v, 0);
                        lemma_entry_at_bytes(spec_ser_ledger(v), 1, v[0]);
                        assert(spec_ser_ledger(v)[1] == 34);
                    }
                    assert(out@ =~= v);
                }
            }
            return Some(out);
        } else {
            proof {
                assert forall|v: Seq<DayEntry>|
                    entries_valid(v) implies c@ != spec_ser_ledger(v) by {
                    if c@ == spec_ser_ledger(v) {
                        if v.len() > 0 {
                            lemma_ledger_window(v, 0);
                            lemma_entry_at_bytes(spec_ser_ledger(v), 1, v[0]);
                            assert(spec_ser_ledger(v)[1] == 34);
                        } else {
                            assert(spec_ser_ledger(v).len() == 2);
                        }
                    }
                }
            }
            return None;
        }
    }
    let mut pos: usize = 1;
    let mut out: Vec<DayEntry> = Vec::new();
    proof {
        assert forall|v: Seq<DayEntry>|
            (entries_valid(v) && c@ == spec_ser_ledger(v)) implies (out@.len() < v.len()
            && out@ == v.take(out@.len() as int) && pos == 1 + upto_off(
            v,
            out@.len() as int,
        )) by {
            if v.len() == 0 {
                assert(spec_ser_ledger(v).len() == 2);
                assert(c@[1] == 125);
            }
            assert(out@ =~= v.take(0));
            assert(ser_upto(v, 0).len() == 0);
        }
    }
    loop
        invariant
            1 <= pos <= n,
            n == c@.len(),
            forall|i: int| 0 <= i < out@.len() ==> (#[trigger] out@[i]).date.valid(),
            forall|v: Seq<DayEntry>| #![trigger spec_ser_ledger(v)]
                (entries_valid(v) && c@ == spec_ser_ledger(v)) ==> (out@.len() < v.len()
                    && out@ == v.take(out@.len() as int) && pos == 1 + upto_off(
                    v,
                    out@.len() as int,
                )),
        decreases n - pos,
    {
        let ghost out0 = out@;
        let step = scan_one_entry(c, pos);
        proof {
            assert forall|v: Seq<DayEntry>|
                (entries_valid(v) && c@ == spec_ser_ledger(v)) implies (step matches Some(t)
                && t.0 == v[out0.len() as int] && t.1 == 1 + ser_upto(
                v,
                out0.len() as int + 1,
            ).len() as int && t.1 < n) by {
                let k = out0.len() as int;
                assert(0 <= k < v.len());
                assert(pos as int == 1 + upto_off(v, k));
                lemma_ledger_window(v, k);
                assert(entry_at(spec_ser_ledger(v), 1 + upto_off(v, k), v[k]));
                assert(entry_at(c@, pos as int, v[k]));
                assert(step matches Some(t) && t.0 == v[k] && t.1 == pos
                    + ser_entry(v[k]).len());
                assert(1 + upto_off(v, k) + ser_entry(v[k]).len() as int == 1 + ser_upto(
                    v,
                    k + 1,
                ).len() as int);
                if k + 1 < v.len() {
                    lemma_entry_window(v, k + 1, v.len() as int);
                    assert(ser_upto(v, k + 2).len() as int <= ser_upto(
                        v,
                        v.len() as int,
                    ).len() as int);
                    assert(1 + (ser_upto(v, k + 1).len() as int) < n);
                } else {
                    assert(1 + ser_upto(v, k + 1).len() as int + 1 == c@.len() as int);
                }
            }
        }
        match step {
            Some((e, p)) => {
                out.push(e);
                if p < n && c[p] == 44 {
                    proof {
                        assert forall|v: Seq<DayEntry>|
                            (entries_valid(v) && c@ == spec_ser_ledger(v)) implies (out@.len()
                            < v.len() && out@ == v.take(out@.len() as int) && p + 1 == 1
                            + upto_off(v, out@.len() as int)) by {
                            let k = out0.len() as int;
                            lemma_ledger_window(v, k);
                            assert(e == v[k]);
                            assert(out@ =~= v.take(k + 1));
                            if k + 1 == v.len() {
                                assert(c@[p as int] == 125);
                            }
                        }
                    }
                    pos = p + 1;
                } else if p < n && c[p] == 125 {
                    if p + 1 == n {
                        proof {
                            assert forall|v: Seq<DayEntry>|
                                (entries_valid(v) && c@ == spec_ser_ledger(v)) implies out@
                                == v by {
                                let k = out0.len() as int;
                                lemma_ledger_window(v, k);
                                assert(e == v[k]);
                                if k + 1 < v.len() {
                                    assert(c@[p as int] == 44);
                                }
                                assert(out@ =~= v.take(k + 1));
                                assert(v.take(k + 1) =~= v);
                            }
                        }
                        return Some(out);
                    } else {
                        proof {
                            assert forall|v: Seq<DayEntry>|
                                entries_valid(v) implies c@ != spec_ser_ledger(v) by {
                                if c@ == spec_ser_ledger(v) {
                                    let k = out0.len() as int;
                                    lemma_ledger_window(v, k);
                                    if k + 1 < v.len() {
                                        assert(c@[p as int] == 44);
                                    } else {
                                        assert(p + 1 == c@.len());
                                    }
                                }
                            }
                        }
                        return None;
                    }
                } else {
                    proof {
                        assert forall|v: Seq<DayEntry>|
                            entries_valid(v) implies c@ != spec_ser_ledger(v) by {
                            if c@ == spec_ser_ledger(v) {
                                let k = out0.len() as int;
                                lemma_ledger_window(v, k);
                            }
                        }
                    }
                    return None;
                }
            }
            None => {
                proof {
                    assert forall|v: Seq<DayEntry>|
                        entries_valid(v) implies c@ != spec_ser_ledger(v) by {
                        if c@ == spec_ser_ledger(v) {
                            let k = out0.len() as int;
                            lemma_ledger_window(v, k);
                            assert(entry_at(c@, pos as int, v[k]));
                        }
                    }
                }
                return None;
            }
        }
    }
}

fn entries_unique(v: &Vec<DayEntry>) -> (r: bool)
    ensures
        r == (forall|i: int, j: int|
            0 <= i < j < v@.len() ==> (#[trigger] v@[i]).date != (#[trigger] v@[j]).date),
{
    let n = v.len();
    let mut i: usize = 0;
    while i < n
        invariant
            i <= n,
            n == v@.len(),
            forall|a: int, b: int|
                0 <= a < b < v@.len() && a < i ==> (#[trigger] v@[a]).date != (#[trigger] v@[b]).date,
        decreases n - i,
    {
        let mut j: usize = i + 1;
        while j < n
            invariant
                i < j <= n,
                i < n,
                n == v@.len(),
                forall|b: int| i < b < j ==> (#[trigger] v@[b]).date != v@[i as int].date,
            decreases n - j,
        {
            if v[j].date == v[i].date {
                return false;
            }
            j = j + 1;
        }
        i = i + 1;
    }
    true
}

fn bytes_eq(a: &Vec<u8>, b: &Vec<u8>) -> (r: bool)
    ensures
        r == (a@ == b@),
{
    if a.len() != b.len() {
        return false;
    }
    let n = a.len();
    let mut i: usize = 0;
    while i < n
        invariant
            i <= n,
            n == a@.len(),
            n == b@.len(),
            forall|k: int| 0 <= k < i ==> a@[k] == b@[k],
        decreases n - i,
    {
        if a[i] != b[i] {
            return false;
        }
        i = i + 1;
    }
    proof {
        assert(a@ =~= b@);
    }
    true
}

/// Read a persisted ledger back: exactly the renderings that `ser_ledger`
/// produces are accepted, and each yields exactly the well-formed ledger it
/// renders. A candidate scan is re-rendered and must reproduce the input
/// byte for byte, and every rendering of a well-formed ledger passes that
/// test.
pub fn parse_ledger(content: &Vec<u8>) -> (r: Option<Vec<DayEntry>>)
    ensures
        r matches Some(v) ==> entries_wf(v@) && spec_ser_ledger(v@) == content@,
        forall|v: Seq<DayEntry>| #![trigger spec_ser_ledger(v)]
            (entries_wf(v) && content@ == spec_ser_ledger(v)) ==> (r matches Some(out)
                && out@ == v),
{
    proof {
        assert forall|v: Seq<DayEntry>|
            entries_wf(v) implies entries_valid(v) by {
        }
    }
    let scanned = match scan_entries(content) {
        Some(v) => v,
        None => {
            return None;
        }
    };
    if !entries_unique(&scanned) {
        return None;
    }
    let rendered = ser_ledger(&scanned);
    if bytes_eq(&rendered, content) {
        Some(scanned)
    } else {
        proof {
            assert forall|v: Seq<DayEntry>|
                !(entries_wf(v) && content@ == spec_ser_ledger(v)) by {
                if entries_wf(v) && content@ == spec_ser_ledger(v) {
                    assert(scanned@ == v);
                }
            }
        }
        None
    }
}

impl StatsManager {
    /// Render the ledger for persistence: the surrounding application
    /// writes these bytes to the stats file, whole, after every mutation.
    pub fn save_data(&self) -> (out: Vec<u8>)
        requires
            self.wf(),
        ensures
            out@ == spec_ser_ledger(self.data@),
    {
        ser_ledger(&self.data)
    }

    /// Rebuild a manager from a persisted rendering, with today's date from
    /// the clock as the cached current day. Nothing but a rendering that
    /// `save_data` produces is accepted — and every such rendering is: what
    /// `save_data` wrote, `load_data` reads back unchanged.
    pub fn load_data(content: &Vec<u8>) -> (r: Option<StatsManager>)
        ensures
            r matches Some(m) ==> {
                &&& m.wf()
                &&& spec_ser_ledger(m.data@) == content@
                &&& 2 <= m.current_date.year <= 9998
            },
            forall|v: Seq<DayEntry>| #![trigger spec_ser_ledger(v)]
                (entries_wf(v) && content@ == spec_ser_ledger(v)) ==> (r matches Some(m)
                    && m.data@ == v),
    {
        match parse_ledger(content) {
            Some(v) => Some(StatsManager { data: v, current_date: current_date() }),
            None => None,
        }
    }
}

} // verus!
