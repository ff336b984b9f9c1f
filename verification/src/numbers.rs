use vstd::prelude::*;

verus! {

/// An ASCII decimal digit.
pub open spec fn is_digit(c: char) -> bool {
    '0' <= c <= '9'
}

/// An ASCII hexadecimal digit, in either case.
pub open spec fn is_hex_digit(c: char) -> bool {
    ||| '0' <= c <= '9'
    ||| 'a' <= c <= 'f'
    ||| 'A' <= c <= 'F'
}

/// The value of a digit in base 10 or 16.
pub open spec fn digit_value(c: char) -> nat {
    if '0' <= c <= '9' {
        (c as u32 - '0' as u32) as nat
    } else if 'a' <= c <= 'f' {
        (c as u32 - 'a' as u32 + 10) as nat
    } else if 'A' <= c <= 'F' {
        (c as u32 - 'A' as u32 + 10) as nat
    } else {
        0
    }
}

/// Whether every character of `s` is a digit in `radix` (10 or 16).
pub open spec fn all_digits(s: Seq<char>, radix: nat) -> bool {
    forall|i: int|
        0 <= i < s.len() ==> if radix == 16 {
            is_hex_digit(#[trigger] s[i])
        } else {
            is_digit(s[i])
        }
}

/// The number that the digits `s` write in `radix`.
pub open spec fn digits_value(s: Seq<char>, radix: nat) -> nat
    decreases s.len(),
{
    if s.len() == 0 {
        0
    } else {
        digits_value(s.drop_last(), radix) * radix + digit_value(s.last())
    }
}

/// `s` without one leading `+`.
pub open spec fn drop_plus(s: Seq<char>) -> Seq<char> {
    if s.len() > 0 && s[0] == '+' {
        s.drop_first()
    } else {
        s
    }
}

/// What `from_str_radix` of an unsigned integer type whose largest value is `max` gives:
/// an optional `+`, then at least one digit, and a value no larger than `max`.
pub open spec fn parse_unsigned(s: Seq<char>, radix: nat, max: nat) -> Option<nat> {
    let d = drop_plus(s);
    if d.len() > 0 && all_digits(d, radix) && digits_value(d, radix) <= max {
        Some(digits_value(d, radix))
    } else {
        None
    }
}

proof fn lemma_digits_value_prefix(s: Seq<char>, radix: nat, k: int)
    requires
        radix >= 1,
        0 <= k <= s.len(),
    ensures
        digits_value(s.subrange(0, k), radix) <= digits_value(s, radix),
    decreases s.len(),
{
    if k < s.len() {
        assert(s.drop_last().subrange(0, k) =~= s.subrange(0, k));
        lemma_digits_value_prefix(s.drop_last(), radix, k);
        let a = digits_value(s.drop_last(), radix);
        assert(a <= a * radix) by (nonlinear_arith)
            requires
                radix >= 1,
        ;
    } else {
        assert(s.subrange(0, k) =~= s);
    }
}

/// Reads an unsigned number written in `radix` (10 or 16), as `from_str_radix` of an unsigned
/// integer type whose largest value is `max` does.
pub fn parse_unsigned_exec(s: &[char], radix: u64, max: u64) -> (r: Option<u64>)
    requires
        radix == 10 || radix == 16,
    ensures
        match r {
            Some(v) => parse_unsigned(s@, radix as nat, max as nat) == Some(v as nat),
            None => parse_unsigned(s@, radix as nat, max as nat) is None,
        },
{
    let start: usize = if s.len() > 0 && s[0] == '+' {
        1
    } else {
        0
    };
    let ghost d = drop_plus(s@);
    assert(d =~= s@.subrange(start as int, s@.len() as int));
    if start >= s.len() {
        return None;
    }
    let mut v: u64 = 0;
    let mut i: usize = start;
    while i < s.len()
        invariant
            start <= i <= s@.len(),
            d =~= s@.subrange(start as int, s@.len() as int),
            d == drop_plus(s@),
            radix == 10 || radix == 16,
            all_digits(s@.subrange(start as int, i as int), radix as nat),
            v as nat == digits_value(s@.subrange(start as int, i as int), radix as nat),
            v <= max,
        decreases s@.len() - i,
    {
        let c = s[i];
        let dv: u64;
        if '0' <= c && c <= '9' {
            dv = (c as u32 - '0' as u32) as u64;
        } else if radix == 16 && 'a' <= c && c <= 'f' {
            dv = (c as u32 - 'a' as u32 + 10) as u64;
        } else if radix == 16 && 'A' <= c && c <= 'F' {
            dv = (c as u32 - 'A' as u32 + 10) as u64;
        } else {
            assert(!all_digits(d, radix as nat)) by {
                assert(d[i - start] == c);
            }
            return None;
        }
        assert(dv as nat == digit_value(c));
        let ghost pre = s@.subrange(start as int, i as int);
        let ghost next = s@.subrange(start as int, i + 1);
        assert(next.drop_last() =~= pre);
        assert(next.last() == c);
        assert(digits_value(next, radix as nat) == digits_value(pre, radix as nat) * radix
            + dv);
        if dv > max {
            proof {
                assert(v * radix + dv > max) by (nonlinear_arith)
                    requires
                        dv > max,
                        radix > 0,
                ;
                lemma_digits_value_prefix(d, radix as nat, i + 1 - start);
                assert(d.subrange(0, i + 1 - start) =~= next);
            }
            return None;
        }
        let lim: u64 = (max - dv) / radix;
        if v > lim {
            proof {
                assert(v * radix + dv > max) by (nonlinear_arith)
                    requires
                        v > lim,
                        lim == (max - dv) as int / radix as int,
                        radix > 0,
                        dv <= max,
                ;
                lemma_digits_value_prefix(d, radix as nat, i + 1 - start);
                assert(d.subrange(0, i + 1 - start) =~= next);
            }
            return None;
        }
        assert(v * radix + dv <= max) by (nonlinear_arith)
            requires
                v <= lim,
                lim == (max - dv) as int / radix as int,
                dv <= max,
                radix > 0,
        ;
        v = v * radix + dv;
        i = i + 1;
        assert(all_digits(next, radix as nat)) by {
            assert forall|k: int| 0 <= k < next.len() implies (if radix == 16 {
                is_hex_digit(#[trigger] next[k])
            } else {
                is_digit(next[k])
            }) by {
                if k < next.len() - 1 {
                    assert(next[k] == pre[k]);
                }
            }
        }
    }
    assert(s@.subrange(start as int, i as int) =~= d);
    Some(v)
}

/// The decimal digit for a value below ten.
pub open spec fn digit_char(n: nat) -> char {
    (n + '0' as nat) as char
}

/// The decimal writing of `n`, without leading zeros.
pub open spec fn decimal(n: nat) -> Seq<char>
    decreases n,
{
    if n < 10 {
        seq![digit_char(n)]
    } else {
        decimal(n / 10).push(digit_char(n % 10))
    }
}

proof fn lemma_digit_char(k: nat)
    requires
        k < 10,
    ensures
        digit_value(digit_char(k)) == k,
        is_digit(digit_char(k)),
        digit_char(k) != '+',
{
    assert((k + 48) as char as u32 == k + 48);
}

/// Reading back the decimal writing of `n` gives `n`.
pub proof fn lemma_decimal_roundtrip(n: nat)
    ensures
        decimal(n).len() > 0,
        all_digits(decimal(n), 10),
        digits_value(decimal(n), 10) == n,
        decimal(n)[0] != '+',
    decreases n,
{
    lemma_digit_char(n % 10);
    if n < 10 {
        let s = decimal(n);
        assert(s.drop_last() =~= Seq::<char>::empty());
        assert(digits_value(s.drop_last(), 10) == 0);
    } else {
        lemma_decimal_roundtrip(n / 10);
        let s = decimal(n);
        assert(s.drop_last() =~= decimal(n / 10));
        assert(s.last() == digit_char(n % 10));
        assert(all_digits(s, 10)) by {
            assert forall|k: int| 0 <= k < s.len() implies is_digit(#[trigger] s[k]) by {
                if k < s.len() - 1 {
                    assert(s[k] == decimal(n / 10)[k]);
                }
            }
        }
    }
}

/// The decimal writing of `n`.
pub fn decimal_exec(n: u64) -> (r: Vec<char>)
    ensures
        r@ == decimal(n as nat),
    decreases n,
{
    if n < 10 {
        let c = ((n as u8) + 48) as char;
        let mut r: Vec<char> = Vec::new();
        r.push(c);
        assert(r@ =~= seq![digit_char(n as nat)]);
        r
    } else {
        let mut r = decimal_exec(n / 10);
        let c = (((n % 10) as u8) + 48) as char;
        r.push(c);
        r
    }
}

} // verus!
