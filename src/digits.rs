use vstd::prelude::*;

verus! {

/// Ten to the power `n`.
pub open spec fn pow10(n: nat) -> nat
    decreases n,
{
    if n == 0 {
        1
    } else {
        10 * pow10((n - 1) as nat)
    }
}

/// An ASCII decimal digit.
pub open spec fn is_digit(b: u8) -> bool {
    48 <= b && b <= 57
}

pub open spec fn all_digits(s: Seq<u8>) -> bool {
    forall|i: int| 0 <= i < s.len() ==> is_digit(#[trigger] s[i])
}

/// The number that a string of decimal digits spells, most significant first.
pub open spec fn digits_value(s: Seq<u8>) -> nat
    decreases s.len(),
{
    if s.len() == 0 {
        0
    } else {
        digits_value(s.drop_last()) * 10 + (s.last() - 48) as nat
    }
}

/// The lowest `width` decimal digits of `v`, zero-padded on the left.
pub open spec fn fixed_digits(v: nat, width: nat) -> Seq<u8>
    decreases width,
{
    if width == 0 {
        seq![]
    } else {
        fixed_digits(v / 10, (width - 1) as nat).push((48 + v % 10) as u8)
    }
}

pub proof fn lemma_pow10_mono(a: nat, b: nat)
    requires
        a <= b,
    ensures
        1 <= pow10(a) <= pow10(b),
    decreases b,
{
    if b > a {
        lemma_pow10_mono(a, (b - 1) as nat);
    } else if a > 0 {
        lemma_pow10_mono((a - 1) as nat, (b - 1) as nat);
    }
}

pub proof fn lemma_pow10_small()
    ensures
        pow10(0) == 1,
        pow10(1) == 10,
        pow10(2) == 100,
        pow10(3) == 1000,
        pow10(4) == 10000,
        pow10(5) == 100000,
        pow10(6) == 1000000,
        pow10(8) == 100000000,
{
    reveal_with_fuel(pow10, 9);
}

pub proof fn lemma_fixed_digits(v: nat, width: nat)
    ensures
        fixed_digits(v, width).len() == width,
        all_digits(fixed_digits(v, width)),
        v < pow10(width) ==> digits_value(fixed_digits(v, width)) == v,
    decreases width,
{
    if width > 0 {
        let w1 = (width - 1) as nat;
        lemma_fixed_digits(v / 10, w1);
        let s = fixed_digits(v, width);
        assert(s.drop_last() =~= fixed_digits(v / 10, w1));
        if v < pow10(width) {
            assert(v / 10 < pow10(w1)) by (nonlinear_arith)
                requires
                    v < 10 * pow10(w1),
            ;
        }
        assert forall|i: int| 0 <= i < s.len() implies is_digit(#[trigger] s[i]) by {
            if i < w1 {
                assert(s[i] == fixed_digits(v / 10, w1)[i]);
            }
        }
    }
}

pub proof fn lemma_digits_bound(s: Seq<u8>)
    requires
        all_digits(s),
    ensures
        digits_value(s) < pow10(s.len()),
    decreases s.len(),
{
    if s.len() > 0 {
        let p = s.drop_last();
        assert(all_digits(p)) by {
            assert forall|i: int| 0 <= i < p.len() implies is_digit(#[trigger] p[i]) by {
                assert(p[i] == s[i]);
            }
        }
        lemma_digits_bound(p);
        let a = digits_value(p);
        assert(is_digit(s[s.len() - 1]));
        let d = (s.last() - 48) as nat;
        assert(a * 10 + d < 10 * pow10(p.len())) by (nonlinear_arith)
            requires
                a < pow10(p.len()),
                d < 10,
        ;
    }
}

/// Appends the lowest `width` decimal digits of `v`, zero-padded.
pub fn push_fixed_digits(dest: &mut Vec<u8>, v: u32, width: usize)
    ensures
        final(dest)@ == old(dest)@ + fixed_digits(v as nat, width as nat),
    decreases width,
{
    if width > 0 {
        push_fixed_digits(dest, v / 10, width - 1);
        dest.push(48 + (v % 10) as u8);
    }
    proof {
        if width > 0 {
            assert(fixed_digits(v as nat, width as nat) == fixed_digits(
                (v / 10) as nat,
                (width - 1) as nat,
            ).push((48 + v % 10) as u8));
        }
    }
}

/// Reads `s[start..end]` as a decimal number; `None` where a byte there is no digit.
pub fn parse_digits(s: &[u8], start: usize, end: usize) -> (r: Option<u32>)
    requires
        start <= end <= s@.len(),
        end - start <= 9,
    ensures
        r == (if all_digits(s@.subrange(start as int, end as int)) {
            Some(digits_value(s@.subrange(start as int, end as int)) as u32)
        } else {
            None::<u32>
        }),
        r is Some ==> digits_value(s@.subrange(start as int, end as int)) < pow10(
            (end - start) as nat,
        ),
{
    let mut v: u32 = 0;
    let mut i: usize = start;
    proof {
        lemma_pow10_small();
    }
    while i < end
        invariant
            start <= i <= end,
            end <= s@.len(),
            end - start <= 9,
            all_digits(s@.subrange(start as int, i as int)),
            v as nat == digits_value(s@.subrange(start as int, i as int)),
            pow10(8) == 100000000,
        decreases end - i,
    {
        let b = s[i];
        if b < 48 || b > 57 {
            proof {
                assert(s@.subrange(start as int, end as int)[i - start] == b);
            }
            return None;
        }
        proof {
            lemma_digits_bound(s@.subrange(start as int, i as int));
            lemma_pow10_mono((i - start) as nat, 8);
        }
        v = v * 10 + (b - 48) as u32;
        i = i + 1;
        proof {
            let sub = s@.subrange(start as int, i as int);
            assert(sub.drop_last() =~= s@.subrange(start as int, i - 1));
            assert forall|k: int| 0 <= k < sub.len() implies is_digit(#[trigger] sub[k]) by {
                if k < sub.len() - 1 {
                    assert(sub[k] == s@.subrange(start as int, i - 1)[k]);
                }
            }
        }
    }
    proof {
        lemma_digits_bound(s@.subrange(start as int, end as int));
    }
    Some(v)
}

} // verus!
