use vstd::prelude::*;

verus! {

pub open spec fn is_digit(c: u8) -> bool {
    48 <= c <= 57
}

/// The shortest decimal spelling of `n` in ASCII digits.
pub open spec fn decimal(n: nat) -> Seq<u8>
    decreases n,
{
    if n < 10 {
        seq![(48 + n) as u8]
    } else {
        decimal(n / 10).push((48 + n % 10) as u8)
    }
}

/// The number that a string of ASCII digits spells.
pub open spec fn digits_value(s: Seq<u8>) -> nat
    decreases s.len(),
{
    if s.len() == 0 {
        0
    } else {
        digits_value(s.drop_last()) * 10 + (s.last() - 48) as nat
    }
}

pub open spec fn all_digits(s: Seq<u8>) -> bool {
    forall|i: int| 0 <= i < s.len() ==> is_digit(#[trigger] s[i])
}

/// A digit string with no superfluous leading zero.
pub open spec fn canonical(s: Seq<u8>) -> bool {
    &&& s.len() >= 1
    &&& all_digits(s)
    &&& (s.len() == 1 || s[0] != 48u8)
}

pub open spec fn pow10(k: nat) -> nat
    decreases k,
{
    if k == 0 {
        1
    } else {
        10 * pow10((k - 1) as nat)
    }
}

/// `b` holds the decimal spelling of `n` from `pos` on, followed by a byte
/// that is no digit.
pub open spec fn starts_with_decimal(b: Seq<u8>, pos: int, n: nat) -> bool {
    let e = pos + decimal(n).len();
    &&& 0 <= pos
    &&& e < b.len()
    &&& b.subrange(pos, e) == decimal(n)
    &&& !is_digit(b[e])
}

pub proof fn lemma_decimal_shape(n: nat)
    ensures
        canonical(decimal(n)),
        digits_value(decimal(n)) == n,
    decreases n,
{
    let x = decimal(n);
    if n >= 10 {
        lemma_decimal_shape(n / 10);
        let s = decimal(n / 10);
        let d = (48 + n % 10) as u8;
        assert(x == s.push(d));
        assert(x.drop_last() =~= s);
        assert(n == (n / 10) * 10 + n % 10);
        assert(digits_value(x) == digits_value(s) * 10 + (d - 48) as nat);
        assert forall|i: int| 0 <= i < x.len() implies is_digit(#[trigger] x[i]) by {
            if i < s.len() {
                assert(x[i] == s[i]);
            }
        }
        if s.len() == 1 {
            assert(s.drop_last() =~= Seq::<u8>::empty());
            assert(digits_value(Seq::<u8>::empty()) == 0);
            assert(n / 10 >= 1);
        }
        assert(x[0] == s[0]);
        assert(canonical(x));
        assert(digits_value(x) == n);
    } else {
        assert(x.len() == 1);
        assert(x[0] == 48 + n);
        assert(x.drop_last() =~= Seq::<u8>::empty());
        assert(digits_value(Seq::<u8>::empty()) == 0);
        assert(digits_value(x) == n);
        assert(canonical(x));
    }
}

proof fn lemma_digits_value_positive(s: Seq<u8>)
    requires
        canonical(s),
        s[0] != 48u8,
    ensures
        digits_value(s) > 0,
    decreases s.len(),
{
    if s.len() > 1 {
        let t = s.drop_last();
        assert(t[0] == s[0]);
        lemma_digits_value_positive(t);
    }
}

pub proof fn lemma_decimal_of_digits(s: Seq<u8>)
    requires
        canonical(s),
    ensures
        decimal(digits_value(s)) == s,
    decreases s.len(),
{
    let v = digits_value(s);
    if s.len() == 1 {
        assert(s.drop_last() =~= Seq::<u8>::empty());
        assert(digits_value(Seq::<u8>::empty()) == 0);
        assert(is_digit(s[0]));
        assert(decimal(v) =~= s);
    } else {
        let t = s.drop_last();
        assert(t[0] == s[0]);
        assert(canonical(t));
        lemma_digits_value_positive(t);
        lemma_decimal_of_digits(t);
        let vt = digits_value(t);
        let d = (s.last() - 48) as nat;
        assert(is_digit(s[s.len() - 1]));
        assert(v == vt * 10 + d);
        assert(v / 10 == vt && v % 10 == d && v >= 10) by (nonlinear_arith)
            requires
                v == vt * 10 + d,
                d < 10,
                vt >= 1,
        ;
        assert(decimal(v) == decimal(vt).push((48 + d) as u8));
        assert(s.last() == (48 + d) as u8);
        assert(decimal(v) =~= s);
    }
}

pub proof fn lemma_decimal_len(n: nat, k: nat)
    requires
        n < pow10(k),
        k >= 1,
    ensures
        decimal(n).len() <= k,
    decreases n,
{
    if n >= 10 {
        if k == 1 {
            reveal_with_fuel(pow10, 2);
        } else {
            assert(pow10(k) == 10 * pow10((k - 1) as nat));
            lemma_decimal_len(n / 10, (k - 1) as nat);
        }
    }
}

/// Two decimals, each followed by a byte that is no digit, are equal when
/// the two byte strings are, and so are what follows them.
pub proof fn lemma_decimal_unique(a: nat, b: nat, s: Seq<u8>, t: Seq<u8>)
    requires
        decimal(a) + s == decimal(b) + t,
        s.len() > 0,
        t.len() > 0,
        !is_digit(s[0]),
        !is_digit(t[0]),
    ensures
        a == b,
        s == t,
{
    lemma_decimal_shape(a);
    lemma_decimal_shape(b);
    let x = decimal(a) + s;
    let la = decimal(a).len() as int;
    let lb = decimal(b).len() as int;
    if la < lb {
        assert(x[la] == s[0]);
        assert(x[la] == decimal(b)[la]);
    }
    if lb < la {
        assert(x[lb] == t[0]);
        assert(x[lb] == decimal(a)[lb]);
    }
    assert(decimal(a) =~= x.subrange(0, la));
    assert(decimal(b) =~= x.subrange(0, lb));
    assert(s =~= x.subrange(la, x.len() as int));
    assert(t =~= x.subrange(lb, x.len() as int));
}

/// A scan of digits from `pos` that stops at `i` reads exactly the decimal
/// that `b` starts with there.
pub proof fn lemma_scan_end(b: Seq<u8>, pos: int, i: int, n: nat)
    requires
        starts_with_decimal(b, pos, n),
        pos <= i <= b.len(),
        forall|j: int| pos <= j < i ==> is_digit(#[trigger] b[j]),
        i == b.len() || !is_digit(b[i]),
    ensures
        i == pos + decimal(n).len(),
        b.subrange(pos, i) == decimal(n),
{
    lemma_decimal_shape(n);
    let e = pos + decimal(n).len();
    if i < e {
        assert(b[i] == b.subrange(pos, e)[i - pos]);
    }
    if i > e {
        assert(is_digit(b[e]));
    }
}

/// Appends the decimal spelling of `n`.
pub fn push_decimal(out: &mut Vec<u8>, n: u32)
    ensures
        final(out)@ == old(out)@ + decimal(n as nat),
    decreases n,
{
    if n >= 10 {
        push_decimal(out, n / 10);
    }
    out.push((48 + n % 10) as u8);
    proof {
        if n < 10 {
            assert(old(out)@ + decimal(n as nat) =~= old(out)@.push((48 + n) as u8));
        } else {
            assert(decimal(n as nat) == decimal((n / 10) as nat).push((48 + n % 10) as u8));
            assert(out@ =~= old(out)@ + decimal(n as nat));
        }
    }
}

/// Reads the decimal at `pos` of `b`: the run of digits there, with no
/// superfluous leading zero and a value of at most `max`. Gives the value
/// and the position after the run.
pub fn parse_decimal(b: &[u8], pos: usize, max: u32) -> (r: Option<(u32, usize)>)
    requires
        pos <= b.len(),
    ensures
        r matches Some((v, e)) ==> {
            &&& v <= max
            &&& pos < e <= b.len()
            &&& b@.subrange(pos as int, e as int) == decimal(v as nat)
        },
        forall|n: nat|
            #[trigger] starts_with_decimal(b@, pos as int, n) && n <= max ==> r == Some(
                (n as u32, (pos + decimal(n).len()) as usize),
            ),
{
    let mut i: usize = pos;
    let mut v: u64 = 0;
    while i < b.len() && 48 <= b[i] && b[i] <= 57
        invariant
            pos <= i <= b.len(),
            i - pos <= 10,
            v == digits_value(b@.subrange(pos as int, i as int)),
            v < pow10((i - pos) as nat),
            forall|j: int| pos <= j < i ==> is_digit(#[trigger] b@[j]),
        decreases b.len() - i,
    {
        if i - pos == 10 {
            proof {
                assert forall|n: nat|
                    #[trigger] starts_with_decimal(b@, pos as int, n) && n <= max implies false by {
                    reveal_with_fuel(pow10, 11);
                    lemma_decimal_len(n, 10);
                    let e = pos + decimal(n).len();
                    assert(is_digit(b@[e]));
                }
            }
            return None;
        }
        proof {
            let s = b@.subrange(pos as int, i + 1);
            assert(s.drop_last() =~= b@.subrange(pos as int, i as int));
            let k = (i - pos) as nat;
            assert(pow10(k + 1) == 10 * pow10(k));
            assert(v * 10 + (b[i as int] - 48) < pow10(k + 1)) by (nonlinear_arith)
                requires
                    v < pow10(k),
                    b[i as int] - 48 < 10,
                    pow10(k + 1) == 10 * pow10(k),
            ;
            reveal_with_fuel(pow10, 11);
            assert(pow10(k + 1) <= 10000000000) by {
                lemma_pow10_monotone(k + 1, 10);
            }
        }
        v = v * 10 + (b[i] - 48) as u64;
        i = i + 1;
    }
    let ghost s = b@.subrange(pos as int, i as int);
    proof {
        assert forall|n: nat| #[trigger] starts_with_decimal(b@, pos as int, n) implies i == pos
            + decimal(n).len() && s == decimal(n) && v == n by {
            lemma_scan_end(b@, pos as int, i as int, n);
            lemma_decimal_shape(n);
        }
    }
    if i == pos {
        proof {
            assert forall|n: nat|
                #[trigger] starts_with_decimal(b@, pos as int, n) && n <= max implies false by {
                lemma_decimal_shape(n);
            }
        }
        return None;
    }
    if i - pos > 1 && b[pos] == 48 {
        proof {
            assert forall|n: nat|
                #[trigger] starts_with_decimal(b@, pos as int, n) && n <= max implies false by {
                lemma_decimal_shape(n);
                assert(s[0] == b@[pos as int]);
            }
        }
        return None;
    }
    if v > max as u64 {
        return None;
    }
    proof {
        assert(canonical(s)) by {
            assert forall|j: int| 0 <= j < s.len() implies is_digit(#[trigger] s[j]) by {
                assert(s[j] == b@[pos + j]);
            }
            assert(s[0] == b@[pos as int]);
        }
        lemma_decimal_of_digits(s);
    }
    Some((v as u32, i))
}

proof fn lemma_pow10_monotone(a: nat, b: nat)
    requires
        a <= b,
    ensures
        pow10(a) <= pow10(b),
    decreases b,
{
    if a < b {
        lemma_pow10_monotone(a, (b - 1) as nat);
    }
}

} // verus!
