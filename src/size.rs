use vstd::prelude::*;
use vstd::arithmetic::div_mod::{
    lemma_div_is_ordered,
    lemma_div_is_ordered_by_denominator,
    lemma_fundamental_div_mod,
    lemma_fundamental_div_mod_converse,
};
use vstd::string::StringExecFns;
use crate::digits::{
    all_digits,
    dec_text,
    digit_text,
    fixed_digits,
    lemma_dec_text_val,
    lemma_fixed_digits_val,
    lemma_pow10_positive,
    lemma_strip_all_zeros,
    lemma_val_bound,
    lemma_val_nines,
    lemma_val_split,
    lemma_val_zeros,
    nat_digits,
    pow10,
    push_digits,
    strip_zeros,
    val,
};
use crate::error::TreeError;

verus! {

/// Index of the last unit, `pb`; larger sizes stay expressed in it.
pub const LAST_UNIT: usize = 5;

pub open spec fn pow1024(e: nat) -> nat
    decreases e,
{
    if e == 0 {
        1
    } else {
        1024 * pow1024((e - 1) as nat)
    }
}

/// The unit reached from unit `k` by dividing by 1024 while the value is at
/// least 1024 and a larger unit remains.
pub open spec fn unit_from(b: nat, k: nat) -> nat
    decreases LAST_UNIT - k,
{
    if k >= LAST_UNIT || b < pow1024(k + 1) {
        k
    } else {
        unit_from(b, k + 1)
    }
}

/// The unit in which `b` bytes are expressed: 0 for `b`, 1 for `kb`, ... 5 for `pb`.
pub open spec fn unit_of(b: nat) -> nat {
    unit_from(b, 0)
}

pub open spec fn unit_name(k: nat) -> Seq<char> {
    if k == 0 {
        seq!['b']
    } else if k == 1 {
        seq!['k', 'b']
    } else if k == 2 {
        seq!['m', 'b']
    } else if k == 3 {
        seq!['g', 'b']
    } else if k == 4 {
        seq!['t', 'b']
    } else {
        seq!['p', 'b']
    }
}

/// The number of decimal places kept when rounding `b / 1024^k` to `p` places.
/// That quotient has at most `10 * k` decimal places, so rounding to more
/// places than that changes nothing.
pub open spec fn frac_places(k: nat, p: nat) -> nat {
    if p < 10 * k {
        p
    } else {
        10 * k
    }
}

/// `b / 1024^k` rounded half away from zero to `places` decimal places, times
/// `10^places`.
pub open spec fn scaled_rounded(b: nat, k: nat, places: nat) -> nat {
    (b * pow10(places) + pow1024(k) / 2) / pow1024(k)
}

/// The text of `n / 10^places`, with no trailing zeros after the point and no
/// point when nothing follows it.
pub open spec fn decimal_text(n: nat, places: nat) -> Seq<char> {
    let frac = strip_zeros(fixed_digits(n % pow10(places), places));
    if frac.len() == 0 {
        dec_text(n / pow10(places))
    } else {
        dec_text(n / pow10(places)) + seq!['.'] + frac
    }
}

/// The rounded number that the label of `b` bytes shows, at precision `p`,
/// times `10^frac_places(unit_of(b), p)`.
pub open spec fn label_value(b: nat, p: nat) -> nat {
    scaled_rounded(b, unit_of(b), frac_places(unit_of(b), p))
}

/// The human-readable label of `b` bytes at precision `p`: `"1kb"`, `"1.5mb"`.
pub open spec fn size_label(b: nat, p: nat) -> Seq<char> {
    decimal_text(label_value(b, p), frac_places(unit_of(b), p)) + unit_name(unit_of(b))
}

proof fn lemma_pow1024_small(k: nat)
    requires
        k <= LAST_UNIT,
    ensures
        1 <= pow1024(k) <= 1125899906842624,
        k < LAST_UNIT ==> pow1024(k) <= 1099511627776,
{
    reveal_with_fuel(pow1024, 6);
    if k == 0 {
    } else if k == 1 {
    } else if k == 2 {
    } else if k == 3 {
    } else if k == 4 {
    } else {
    }
}

proof fn lemma_unit_from_bound(b: nat, k: nat)
    requires
        k <= LAST_UNIT,
    ensures
        k <= unit_from(b, k) <= LAST_UNIT,
    decreases LAST_UNIT - k,
{
    if k < LAST_UNIT && b >= pow1024(k + 1) {
        lemma_unit_from_bound(b, k + 1);
    }
}


/// The unit of `b` bytes and its divisor `1024^unit`.
fn select_unit(b: u64) -> (res: (usize, u64))
    ensures
        res.0 as nat == unit_of(b as nat),
        res.0 <= LAST_UNIT,
        res.1 as nat == pow1024(res.0 as nat),
        1 <= res.1 <= 1125899906842624,
{
    let mut k: usize = 0;
    let mut d: u64 = 1;
    while k < LAST_UNIT && b >= d * 1024
        invariant
            k <= LAST_UNIT,
            d as nat == pow1024(k as nat),
            k < LAST_UNIT ==> d <= 1099511627776,
            unit_of(b as nat) == unit_from(b as nat, k as nat),
        decreases LAST_UNIT - k,
    {
        proof {
            lemma_pow1024_small((k + 1) as nat);
        }
        d = d * 1024;
        k = k + 1;
    }
    proof {
        lemma_pow1024_small(k as nat);
    }
    (k, d)
}

proof fn lemma_division_step(x: nat, dd: nat)
    requires
        dd > 0,
    ensures
        (10 * x) / dd == 10 * (x / dd) + (10 * (x % dd)) / dd,
        (10 * x) % dd == (10 * (x % dd)) % dd,
        (10 * (x % dd)) / dd < 10,
{
    let a = x / dd;
    let m = x % dd;
    let t = 10 * m;
    lemma_fundamental_div_mod(x as int, dd as int);
    lemma_fundamental_div_mod(t as int, dd as int);
    let tq = t / dd;
    let tr = t % dd;
    assert(10 * x == (10 * a + tq) * dd + tr) by (nonlinear_arith)
        requires
            x == a * dd + m,
            t == 10 * m,
            t == dd * tq + tr,
    ;
    lemma_fundamental_div_mod_converse((10 * x) as int, dd as int, (10 * a + tq) as int, tr as int);
    assert(tq < 10) by (nonlinear_arith)
        requires
            t == dd * tq + tr,
            tr >= 0,
            m < dd,
            t == 10 * m,
            dd > 0,
            tq >= 0,
    ;
}

/// The first `places` decimal digits of `r / d` (a fraction below one), and
/// the remainder left after them.
fn fraction_digits(r: u64, d: u64, places: usize) -> (res: (Vec<u8>, u64))
    requires
        0 < d <= 1125899906842624,
        r < d,
    ensures
        res.0@.len() == places,
        all_digits(res.0@),
        val(res.0@) == ((r as nat) * pow10(places as nat)) / (d as nat),
        res.1 as nat == ((r as nat) * pow10(places as nat)) % (d as nat),
        res.1 < d,
{
    let mut digits: Vec<u8> = Vec::new();
    let mut rem: u64 = r;
    let mut i: usize = 0;
    proof {
        assert(pow10(0) == 1);
        lemma_fundamental_div_mod_converse(r as int, d as int, 0, r as int);
    }
    while i < places
        invariant
            i <= places,
            0 < d <= 1125899906842624,
            rem < d,
            digits@.len() == i,
            all_digits(digits@),
            val(digits@) == ((r as nat) * pow10(i as nat)) / (d as nat),
            rem as nat == ((r as nat) * pow10(i as nat)) % (d as nat),
        decreases places - i,
    {
        let t: u64 = rem * 10;
        let digit: u64 = t / d;
        let ghost x: nat = (r as nat) * pow10(i as nat);
        proof {
            lemma_division_step(x, d as nat);
            assert((r as nat) * pow10((i + 1) as nat) == 10 * x) by (nonlinear_arith)
                requires
                    pow10((i + 1) as nat) == 10 * pow10(i as nat),
                    x == (r as nat) * pow10(i as nat),
            ;
        }
        let ghost old_digits = digits@;
        digits.push(digit as u8);
        proof {
            assert(digits@.drop_last() =~= old_digits);
        }
        rem = t % d;
        i += 1;
    }
    (digits, rem)
}

/// Adds one in the last place of the number `q.digits`, carrying into `q`
/// when every digit is a nine. Returns the new integer part.
fn round_up_digits(q: u64, digits: &mut Vec<u8>) -> (res: u64)
    requires
        q < u64::MAX,
        all_digits(old(digits)@),
    ensures
        final(digits)@.len() == old(digits)@.len(),
        all_digits(final(digits)@),
        res * pow10(final(digits)@.len()) + val(final(digits)@) == q * pow10(old(digits)@.len())
            + val(old(digits)@) + 1,
{
    let ghost start = digits@;
    let n: usize = digits.len();
    let mut j: usize = n;
    while j > 0 && digits[j - 1] == 9
        invariant
            j <= n,
            n == start.len(),
            digits@.len() == n,
            all_digits(digits@),
            digits@.subrange(0, j as int) == start.subrange(0, j as int),
            forall|m: int| j <= m < n ==> start[m] == 9,
            forall|m: int| j <= m < n ==> digits@[m] == 0,
        decreases j,
    {
        proof {
            assert(start[j - 1] == digits@.subrange(0, j as int)[j - 1]);
        }
        let ghost prev = digits@;
        digits.set(j - 1, 0);
        proof {
            assert(digits@ == prev.update(j - 1, 0u8));
            assert(digits@.subrange(0, j - 1) =~= start.subrange(0, j - 1)) by {
                assert(forall|m: int|
                    0 <= m < j - 1 ==> digits@[m] == start.subrange(0, j as int)[m]);
            }
        }
        j -= 1;
    }
    let ghost tail_len: nat = (n - j) as nat;
    proof {
        lemma_val_split(start, j as int);
        assert(forall|m: int|
            0 <= m < n - j ==> start.subrange(j as int, n as int)[m] == 9) by {
            assert(forall|m: int| 0 <= m < n - j ==> start.subrange(j as int, n as int)[m]
                == start[m + j]);
        }
        lemma_val_nines(start.subrange(j as int, n as int));
    }
    if j == 0 {
        proof {
            assert(forall|m: int| 0 <= m < digits@.len() ==> digits@[m] == 0);
            lemma_val_zeros(digits@);
            assert(start.subrange(0, 0) =~= Seq::<u8>::empty());
            assert(val(Seq::<u8>::empty()) == 0);
            assert(start.subrange(0, n as int) =~= start);
            assert(val(start) + 1 == pow10(n as nat));
            assert((q + 1) * pow10(n as nat) == q * pow10(n as nat) + pow10(n as nat))
                by (nonlinear_arith);
        }
        q + 1
    } else {
        let v: u8 = digits[j - 1];
        let ghost before = digits@;
        digits.set(j - 1, v + 1);
        proof {
            let head = start.subrange(0, j as int);
            let new_head = digits@.subrange(0, j as int);
            assert(before.subrange(0, j as int)[j - 1] == head[j - 1]);
            assert(head.drop_last() =~= new_head.drop_last()) by {
                assert(forall|m: int|
                    0 <= m < j - 1 ==> before.subrange(0, j as int)[m] == head[m]);
            }
            assert(val(new_head) == val(head) + 1);
            lemma_val_split(digits@, j as int);
            assert(forall|m: int|
                0 <= m < n - j ==> digits@.subrange(j as int, n as int)[m] == 0) by {
                assert(forall|m: int| 0 <= m < n - j ==> digits@.subrange(j as int, n as int)[m]
                    == digits@[m + j]);
            }
            lemma_val_zeros(digits@.subrange(j as int, n as int));
            let p = pow10(tail_len);
            assert((val(head) + 1) * p == val(head) * p + (p - 1) + 1) by (nonlinear_arith)
                requires
                    p >= 1,
            ;
            lemma_pow10_positive(tail_len);
            assert(val(start) + 1 == (val(head) + 1) * p);
            assert(val(digits@) == val(new_head) * p);
        }
        q
    }
}

/// The end of `ds` once its trailing zeros are dropped.
fn trimmed_len(ds: &Vec<u8>) -> (e: usize)
    requires
        all_digits(ds@),
    ensures
        e <= ds@.len(),
        strip_zeros(digit_text(ds@)) == digit_text(ds@.subrange(0, e as int)),
        e == 0 || ds@[e - 1] != 0,
{
    let mut e: usize = ds.len();
    proof {
        assert(ds@.subrange(0, e as int) =~= ds@);
    }
    while e > 0 && ds[e - 1] == 0
        invariant
            e <= ds@.len(),
            all_digits(ds@),
            strip_zeros(digit_text(ds@)) == strip_zeros(digit_text(ds@.subrange(0, e as int))),
        decreases e,
    {
        proof {
            let t = digit_text(ds@.subrange(0, e as int));
            assert(t.last() == '0');
            assert(t.drop_last() =~= digit_text(ds@.subrange(0, e - 1)));
        }
        e -= 1;
    }
    proof {
        let t = digit_text(ds@.subrange(0, e as int));
        if e > 0 {
            let l = ds@[e - 1];
            assert(l < 10);
            assert(t.last() == crate::digits::digit_char(l as nat));
            assert(t.last() != '0');
        }
    }
    e
}

/// `b * 10^places + d / 2` split over the divisor `d = 1024^k`, from the
/// integer part `q`, the fraction digits' value `t` and the remainder `rem`.
proof fn lemma_rounded_parts(b: nat, d: nat, places: nat, q: nat, r: nat, t: nat, rem: nat)
    requires
        d > 0,
        b == q * d + r,
        r * pow10(places) == t * d + rem,
        rem < d,
    ensures
        rem + d / 2 >= d ==> (b * pow10(places) + d / 2) / d == q * pow10(places) + t + 1,
        rem + d / 2 < d ==> (b * pow10(places) + d / 2) / d == q * pow10(places) + t,
{
    let p = pow10(places);
    let x = b * p + d / 2;
    assert(x == (q * p + t) * d + rem + d / 2) by (nonlinear_arith)
        requires
            b == q * d + r,
            r * p == t * d + rem,
            x == b * p + d / 2,
    ;
    lemma_fundamental_div_mod(d as int, 2);
    if rem + d / 2 >= d {
        assert(x == (q * p + t + 1) * d + (rem + d / 2 - d)) by (nonlinear_arith)
            requires
                x == (q * p + t) * d + rem + d / 2,
        ;
        lemma_fundamental_div_mod_converse(
            x as int,
            d as int,
            (q * p + t + 1) as int,
            (rem + d / 2 - d) as int,
        );
    } else {
        lemma_fundamental_div_mod_converse(x as int, d as int, (q * p + t) as int, (rem + d / 2) as int);
    }
}

/// Formats a byte count as a label: the count divided by 1024 while it is at
/// least 1024 and a larger unit remains (`b`, `kb`, `mb`, `gb`, `tb`, `pb`),
/// rounded half away from zero to `file_size_round` decimal places, written
/// without trailing zeros, followed by the unit. A negative precision is
/// refused.
pub fn file_size_to_string(file_size: u64, file_size_round: i32) -> (r: Result<String, TreeError>)
    ensures
        file_size_round < 0 <==> r is Err,
        r is Err ==> r->Err_0 is InvalidArgument,
        r is Ok ==> r->Ok_0@ == size_label(file_size as nat, file_size_round as nat),
{
    if file_size_round < 0 {
        return Err(TreeError::InvalidArgument);
    }
    let (k, d) = select_unit(file_size);
    let places: usize = if (file_size_round as u64) < 10 * (k as u64) {
        file_size_round as usize
    } else {
        10 * k
    };
    let q: u64 = file_size / d;
    let r: u64 = file_size % d;
    let (mut digits, rem) = fraction_digits(r, d, places);
    let ghost start = digits@;
    let ghost pw = pow10(places as nat);
    proof {
        lemma_fundamental_div_mod(file_size as int, d as int);
        lemma_fundamental_div_mod(((r as nat) * pw) as int, d as int);
        lemma_rounded_parts(
            file_size as nat,
            d as nat,
            places as nat,
            q as nat,
            r as nat,
            val(start),
            rem as nat,
        );
    }
    let mut int_part: u64 = q;
    if rem + d / 2 >= d {
        proof {
            lemma_div_is_ordered_by_denominator(file_size as int, 2, d as int);
        }
        int_part = round_up_digits(q, &mut digits);
    }
    let ghost n = label_value(file_size as nat, file_size_round as nat);
    proof {
        assert(places as nat == frac_places(k as nat, file_size_round as nat));
        assert(n == int_part * pw + val(digits@));
        lemma_val_bound(digits@);
        lemma_fundamental_div_mod_converse(n as int, pw as int, int_part as int, val(digits@) as int);
        lemma_fixed_digits_val(digits@);
    }
    let e = trimmed_len(&digits);
    let int_digits = nat_digits(int_part);
    let mut out = String::new();
    push_digits(&mut out, &int_digits, int_digits.len());
    proof {
        assert(int_digits@.subrange(0, int_digits@.len() as int) =~= int_digits@);
        lemma_dec_text_val(int_digits@);
    }
    if e > 0 {
        proof {
            reveal_strlit(".");
        }
        out.append(".");
        push_digits(&mut out, &digits, e);
    }
    out.append(unit_str(k));
    Ok(out)
}

/// Whether `s` ends with `t`.
pub open spec fn ends_with(s: Seq<char>, t: Seq<char>) -> bool {
    t.len() <= s.len() && s.subrange(s.len() - t.len(), s.len() as int) == t
}

/// A label never uses a unit beyond `pb`: it ends with one of the six unit
/// names `b`, `kb`, `mb`, `gb`, `tb`, `pb`.
pub proof fn lemma_unit_never_beyond_pb(b: nat, p: nat)
    ensures
        exists|k: nat| k <= LAST_UNIT && #[trigger] ends_with(size_label(b, p), unit_name(k)),
{
    let k = unit_of(b);
    lemma_unit_from_bound(b, 0);
    let s = size_label(b, p);
    assert(s.subrange(s.len() - unit_name(k).len(), s.len() as int) =~= unit_name(k));
    assert(ends_with(s, unit_name(k)));
}

/// Zero bytes read `"0b"` at every precision.
pub proof fn lemma_zero_bytes_label(p: nat)
    ensures
        size_label(0, p) == seq!['0', 'b'],
{
    reveal_with_fuel(pow1024, 2);
    assert(unit_of(0) == 0);
    assert(frac_places(0, p) == 0);
    assert(pow10(0) == 1);
    assert(label_value(0, p) == 0);
    assert(fixed_digits(0, 0) =~= Seq::<char>::empty());
    assert(dec_text(0) == seq!['0']);
    assert(size_label(0, p) =~= seq!['0', 'b']);
}

/// 1024 bytes read `"1kb"` at every precision.
pub proof fn lemma_one_kb_label(p: nat)
    ensures
        size_label(1024, p) == seq!['1', 'k', 'b'],
{
    reveal_with_fuel(pow1024, 3);
    assert(unit_from(1024, 1) == 1);
    assert(unit_of(1024) == 1);
    let places = frac_places(1, p);
    let pw = pow10(places);
    lemma_pow10_positive(places);
    assert(1024 * pw + 512 == pw * 1024 + 512) by (nonlinear_arith);
    lemma_fundamental_div_mod_converse((1024 * pw + 512) as int, 1024, pw as int, 512);
    assert(label_value(1024, p) == pw);
    lemma_fundamental_div_mod_converse(pw as int, pw as int, 1, 0);
    lemma_strip_all_zeros(places);
    assert(dec_text(1) == seq!['1']);
    assert(size_label(1024, p) =~= seq!['1', 'k', 'b']);
}

/// Within one unit, at a fixed precision, a larger byte count never shows a
/// smaller rounded number.
pub proof fn lemma_label_monotone(b1: nat, b2: nat, p: nat)
    requires
        b1 <= b2,
        unit_of(b1) == unit_of(b2),
    ensures
        label_value(b1, p) <= label_value(b2, p),
{
    let k = unit_of(b1);
    let places = frac_places(k, p);
    let pw = pow10(places);
    let d = pow1024(k);
    lemma_unit_from_bound(b1, 0);
    lemma_pow1024_small(k);
    assert(b1 * pw + d / 2 <= b2 * pw + d / 2) by (nonlinear_arith)
        requires
            b1 <= b2,
    ;
    lemma_div_is_ordered((b1 * pw + d / 2) as int, (b2 * pw + d / 2) as int, d as int);
}

fn unit_str(k: usize) -> (r: &'static str)
    requires
        k <= LAST_UNIT,
    ensures
        r@ == unit_name(k as nat),
{
    proof {
        reveal_strlit("b");
        reveal_strlit("kb");
        reveal_strlit("mb");
        reveal_strlit("gb");
        reveal_strlit("tb");
        reveal_strlit("pb");
    }
    if k == 0 {
        "b"
    } else if k == 1 {
        "kb"
    } else if k == 2 {
        "mb"
    } else if k == 3 {
        "gb"
    } else if k == 4 {
        "tb"
    } else {
        "pb"
    }
}

} // verus!
