use vstd::prelude::*;
use vstd::arithmetic::div_mod::{lemma_fundamental_div_mod, lemma_fundamental_div_mod_converse};
use vstd::string::StringExecFns;

verus! {

pub open spec fn pow10(e: nat) -> nat
    decreases e,
{
    if e == 0 {
        1
    } else {
        10 * pow10((e - 1) as nat)
    }
}

/// The character of a decimal digit `d < 10`.
pub open spec fn digit_char(d: nat) -> char {
    seq!['0', '1', '2', '3', '4', '5', '6', '7', '8', '9'][d as int]
}

/// The decimal text of `n`, without leading zeros.
pub open spec fn dec_text(n: nat) -> Seq<char>
    decreases n,
{
    if n < 10 {
        seq![digit_char(n)]
    } else {
        dec_text(n / 10).push(digit_char(n % 10))
    }
}

/// The last `w` decimal digits of `n`, padded with leading zeros.
pub open spec fn fixed_digits(n: nat, w: nat) -> Seq<char>
    decreases w,
{
    if w == 0 {
        Seq::empty()
    } else {
        fixed_digits(n / 10, (w - 1) as nat).push(digit_char(n % 10))
    }
}

/// `s` without its trailing `'0'` characters.
pub open spec fn strip_zeros(s: Seq<char>) -> Seq<char>
    decreases s.len(),
{
    if s.len() > 0 && s.last() == '0' {
        strip_zeros(s.drop_last())
    } else {
        s
    }
}

/// The number that a sequence of decimal digits spells, most significant first.
pub open spec fn val(s: Seq<u8>) -> nat
    decreases s.len(),
{
    if s.len() == 0 {
        0
    } else {
        10 * val(s.drop_last()) + s.last() as nat
    }
}

pub open spec fn all_digits(s: Seq<u8>) -> bool {
    forall|i: int| 0 <= i < s.len() ==> s[i] < 10
}

pub open spec fn digit_text(s: Seq<u8>) -> Seq<char> {
    s.map_values(|d: u8| digit_char(d as nat))
}

pub proof fn lemma_val_concat(a: Seq<u8>, b: Seq<u8>)
    ensures
        val(a + b) == val(a) * pow10(b.len()) + val(b),
    decreases b.len(),
{
    if b.len() == 0 {
        assert(a + b =~= a);
        assert(val(b) == 0);
        assert(pow10(0) == 1);
        assert(val(a) * 1 == val(a));
    } else {
        let b1 = b.drop_last();
        assert((a + b).drop_last() =~= a + b1);
        assert((a + b).last() == b.last());
        lemma_val_concat(a, b1);
        let p = pow10(b1.len());
        let va = val(a);
        let vb1 = val(b1);
        let l = b.last() as nat;
        assert(pow10(b.len()) == 10 * p);
        assert(val(a + b) == 10 * val(a + b1) + l);
        assert(val(b) == 10 * vb1 + l);
        assert(10 * (va * p + vb1) + l == va * (10 * p) + (10 * vb1 + l)) by (nonlinear_arith);
    }
}

pub proof fn lemma_val_single(d: u8)
    ensures
        val(seq![d]) == d,
{
    assert(seq![d].drop_last() =~= Seq::<u8>::empty());
    assert(val(Seq::<u8>::empty()) == 0);
}

pub proof fn lemma_val_split(s: Seq<u8>, j: int)
    requires
        0 <= j <= s.len(),
    ensures
        val(s) == val(s.subrange(0, j)) * pow10((s.len() - j) as nat) + val(s.subrange(j, s.len() as int)),
{
    assert(s =~= s.subrange(0, j) + s.subrange(j, s.len() as int));
    lemma_val_concat(s.subrange(0, j), s.subrange(j, s.len() as int));
}

pub proof fn lemma_pow10_positive(e: nat)
    ensures
        pow10(e) >= 1,
    decreases e,
{
    if e > 0 {
        lemma_pow10_positive((e - 1) as nat);
    }
}

pub proof fn lemma_val_bound(s: Seq<u8>)
    requires
        all_digits(s),
    ensures
        val(s) < pow10(s.len()),
    decreases s.len(),
{
    if s.len() > 0 {
        let s1 = s.drop_last();
        lemma_val_bound(s1);
        let v = val(s1);
        let p = pow10(s1.len());
        let l = s.last() as nat;
        assert(l < 10);
        assert(10 * v + l < 10 * p) by (nonlinear_arith)
            requires
                v < p,
                l < 10,
        ;
    }
}

/// All nines spell one less than a power of ten.
pub proof fn lemma_val_nines(s: Seq<u8>)
    requires
        forall|i: int| 0 <= i < s.len() ==> s[i] == 9,
    ensures
        val(s) + 1 == pow10(s.len()),
    decreases s.len(),
{
    if s.len() > 0 {
        lemma_val_nines(s.drop_last());
    }
}

pub proof fn lemma_val_zeros(s: Seq<u8>)
    requires
        forall|i: int| 0 <= i < s.len() ==> s[i] == 0,
    ensures
        val(s) == 0,
    decreases s.len(),
{
    if s.len() > 0 {
        lemma_val_zeros(s.drop_last());
    }
}

pub proof fn lemma_fixed_digits_val(s: Seq<u8>)
    requires
        all_digits(s),
    ensures
        fixed_digits(val(s), s.len()) == digit_text(s),
    decreases s.len(),
{
    if s.len() > 0 {
        let s1 = s.drop_last();
        lemma_fixed_digits_val(s1);
        let v = val(s);
        lemma_fundamental_div_mod_converse(v as int, 10, val(s1) as int, s.last() as int);
        assert(digit_text(s) =~= digit_text(s1).push(digit_char(s.last() as nat)));
    }
}

pub proof fn lemma_val_at_least_first(s: Seq<u8>)
    requires
        s.len() >= 1,
    ensures
        val(s) >= s[0],
    decreases s.len(),
{
    if s.len() > 1 {
        lemma_val_at_least_first(s.drop_last());
    }
}

pub proof fn lemma_dec_text_val(s: Seq<u8>)
    requires
        all_digits(s),
        s.len() >= 1,
        s.len() == 1 || s[0] != 0,
    ensures
        dec_text(val(s)) == digit_text(s),
    decreases s.len(),
{
    let s1 = s.drop_last();
    if s.len() == 1 {
        assert(s =~= seq![s[0]]);
        lemma_val_single(s[0]);
        assert(digit_text(s) =~= seq![digit_char(s[0] as nat)]);
    } else {
        lemma_val_at_least_first(s1);
        lemma_dec_text_val(s1);
        let v = val(s);
        lemma_fundamental_div_mod_converse(v as int, 10, val(s1) as int, s.last() as int);
        assert(digit_text(s) =~= digit_text(s1).push(digit_char(s.last() as nat)));
    }
}

pub proof fn lemma_strip_all_zeros(w: nat)
    ensures
        strip_zeros(fixed_digits(0, w)) == Seq::<char>::empty(),
    decreases w,
{
    if w > 0 {
        lemma_strip_all_zeros((w - 1) as nat);
        assert(fixed_digits(0, w).drop_last() == fixed_digits(0, (w - 1) as nat));
    }
}

/// The decimal digits of `n`, most significant first, without leading zeros.
pub fn nat_digits(n: u64) -> (ds: Vec<u8>)
    ensures
        all_digits(ds@),
        ds@.len() >= 1,
        ds@.len() == 1 || ds@[0] != 0,
        val(ds@) == n,
{
    let mut ds: Vec<u8> = Vec::new();
    ds.push((n % 10) as u8);
    let mut v: u64 = n / 10;
    proof {
        lemma_fundamental_div_mod(n as int, 10);
        assert(ds@ =~= seq![(n % 10) as u8]);
        lemma_val_single((n % 10) as u8);
        reveal_with_fuel(pow10, 2);
        assert(pow10(1) == 10);
    }
    while v > 0
        invariant
            all_digits(ds@),
            ds@.len() >= 1,
            val(ds@) + v * pow10(ds@.len()) == n,
            v == 0 ==> (ds@.len() == 1 || ds@[0] != 0),
        decreases v,
    {
        let d: u64 = v % 10;
        let ghost old_ds = ds@;
        ds.insert(0, d as u8);
        proof {
            assert(ds@ =~= seq![d as u8] + old_ds);
            lemma_val_concat(seq![d as u8], old_ds);
            lemma_val_single(d as u8);
            lemma_fundamental_div_mod(v as int, 10);
            let p = pow10(old_ds.len());
            assert(pow10(ds@.len()) == 10 * p);
            assert(d * p + val(old_ds) + (v / 10) * (10 * p) == val(old_ds) + v * p)
                by (nonlinear_arith)
                requires
                    v == 10 * (v / 10) + d,
            ;
        }
        v = v / 10;
    }
    ds
}

/// The one-character text of a decimal digit.
fn digit_str(d: u8) -> (r: &'static str)
    requires
        d < 10,
    ensures
        r@ == seq![digit_char(d as nat)],
{
    proof {
        reveal_strlit("0");
        reveal_strlit("1");
        reveal_strlit("2");
        reveal_strlit("3");
        reveal_strlit("4");
        reveal_strlit("5");
        reveal_strlit("6");
        reveal_strlit("7");
        reveal_strlit("8");
        reveal_strlit("9");
    }
    if d == 0 {
        "0"
    } else if d == 1 {
        "1"
    } else if d == 2 {
        "2"
    } else if d == 3 {
        "3"
    } else if d == 4 {
        "4"
    } else if d == 5 {
        "5"
    } else if d == 6 {
        "6"
    } else if d == 7 {
        "7"
    } else if d == 8 {
        "8"
    } else {
        "9"
    }
}

/// Appends the text of the first `end` digits of `ds` to `s`.
pub fn push_digits(s: &mut String, ds: &Vec<u8>, end: usize)
    requires
        all_digits(ds@),
        end <= ds@.len(),
    ensures
        final(s)@ == old(s)@ + digit_text(ds@.subrange(0, end as int)),
{
    let mut i: usize = 0;
    while i < end
        invariant
            i <= end,
            end <= ds@.len(),
            all_digits(ds@),
            s@ == old(s)@ + digit_text(ds@.subrange(0, i as int)),
        decreases end - i,
    {
        s.append(digit_str(ds[i]));
        proof {
            assert(digit_text(ds@.subrange(0, i + 1)) =~= digit_text(ds@.subrange(0, i as int)).push(
                digit_char(ds@[i as int] as nat),
            ));
        }
        i += 1;
    }
}

} // verus!
