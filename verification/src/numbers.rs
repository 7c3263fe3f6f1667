//! Exact decimal arithmetic. Prices and volumes arrive on the wire as decimal
//! text; the library keeps them as integer fractions (`num / den`, with `den`
//! a power of ten) so that every later computation is exact integer work.
use vstd::prelude::*;

verus! {

/// Largest numerator a parsed decimal may have.
pub const NUM_CAP: u64 = 1_000_000_000_000_000;

/// Fraction digits kept when a quote carries more precision than the graph
/// arithmetic can use; later digits are discarded.
pub const FRAC_CAP: usize = 8;

/// Scale of the fixed-point volume proxy: four decimal places.
pub const VOL_SCALE: u64 = 10_000;

pub open spec fn is_digit(c: char) -> bool {
    '0' <= c && c <= '9'
}

pub open spec fn digit_val(c: char) -> int {
    c as int - 48
}

pub open spec fn all_digits(s: Seq<char>) -> bool {
    forall|i: int| 0 <= i < s.len() ==> is_digit(s[i])
}

/// The integer denoted by a sequence of decimal digits (0 for the empty
/// sequence).
pub open spec fn digits_val(s: Seq<char>) -> int
    decreases s.len(),
{
    if s.len() == 0 {
        0
    } else {
        digits_val(s.drop_last()) * 10 + digit_val(s.last())
    }
}

pub open spec fn pow10(k: nat) -> int
    decreases k,
{
    if k == 0 {
        1
    } else {
        10 * pow10((k - 1) as nat)
    }
}

/// Index of the first `.` in `s`, or -1 if there is none.
pub open spec fn first_dot(s: Seq<char>) -> int
    decreases s.len(),
{
    if s.len() == 0 {
        -1
    } else if s[0] == '.' {
        0
    } else if first_dot(s.drop_first()) < 0 {
        -1
    } else {
        1 + first_dot(s.drop_first())
    }
}

/// The integer part of a decimal literal: everything before the first dot.
pub open spec fn int_part(s: Seq<char>) -> Seq<char> {
    if first_dot(s) < 0 {
        s
    } else {
        s.take(first_dot(s))
    }
}

/// The fraction part of a decimal literal: everything after the first dot.
pub open spec fn frac_part(s: Seq<char>) -> Seq<char> {
    if first_dot(s) < 0 {
        Seq::empty()
    } else {
        s.skip(first_dot(s) + 1)
    }
}

/// Trailing zeros carry no value; they are dropped before sizing the
/// denominator.
pub open spec fn strip_zeros(s: Seq<char>) -> Seq<char>
    decreases s.len(),
{
    if s.len() > 0 && s.last() == '0' {
        strip_zeros(s.drop_last())
    } else {
        s
    }
}

/// The fraction digits actually kept: at most `FRAC_CAP`, without trailing
/// zeros.
pub open spec fn kept_frac(s: Seq<char>) -> Seq<char> {
    if frac_part(s).len() > FRAC_CAP {
        strip_zeros(frac_part(s).take(FRAC_CAP as int))
    } else {
        strip_zeros(frac_part(s))
    }
}

/// A decimal literal this parser accepts: digits with at most one dot,
/// at least one digit in all, and a value small enough for the graph
/// arithmetic.
pub open spec fn dec_valid(s: Seq<char>) -> bool {
    &&& all_digits(int_part(s))
    &&& all_digits(frac_part(s))
    &&& int_part(s).len() + frac_part(s).len() >= 1
    &&& digits_val(int_part(s) + kept_frac(s)) <= NUM_CAP
}

/// The numerator a valid literal parses to.
pub open spec fn dec_num(s: Seq<char>) -> int {
    digits_val(int_part(s) + kept_frac(s))
}

/// The denominator a valid literal parses to: ten to the number of kept
/// fraction digits.
pub open spec fn dec_den(s: Seq<char>) -> int {
    pow10(kept_frac(s).len())
}

pub proof fn lemma_digits_val_push(s: Seq<char>, c: char)
    ensures
        digits_val(s.push(c)) == digits_val(s) * 10 + digit_val(c),
{
    assert(s.push(c).drop_last() =~= s);
    assert(s.push(c).last() == c);
}

pub proof fn lemma_digits_val_nonneg(s: Seq<char>)
    requires
        all_digits(s),
    ensures
        digits_val(s) >= 0,
    decreases s.len(),
{
    if s.len() > 0 {
        assert(all_digits(s.drop_last()));
        lemma_digits_val_nonneg(s.drop_last());
    }
}

pub proof fn lemma_pow10_pos(k: nat)
    ensures
        pow10(k) >= 1,
    decreases k,
{
    if k > 0 {
        lemma_pow10_pos((k - 1) as nat);
    }
}

pub proof fn lemma_pow10_add(a: nat, b: nat)
    ensures
        pow10(a + b) == pow10(a) * pow10(b),
    decreases b,
{
    if b == 0 {
        assert(pow10(a + 0) == pow10(a) * 1);
    } else {
        lemma_pow10_add(a, (b - 1) as nat);
        assert(a + b == (a + (b - 1) as nat) + 1);
        assert(pow10(a + b) == 10 * pow10((a + b - 1) as nat));
        assert(pow10(b) == 10 * pow10((b - 1) as nat));
        assert(10 * (pow10(a) * pow10((b - 1) as nat)) == pow10(a) * (10 * pow10(
            (b - 1) as nat,
        ))) by (nonlinear_arith);
    }
}

/// `digits_val` splits over concatenation: the left digits are shifted by
/// ten to the length of the right part.
pub proof fn lemma_digits_val_concat(x: Seq<char>, y: Seq<char>)
    ensures
        digits_val(x + y) == digits_val(x) * pow10(y.len()) + digits_val(y),
    decreases y.len(),
{
    if y.len() == 0 {
        assert(x + y =~= x);
    } else {
        lemma_digits_val_concat(x, y.drop_last());
        assert((x + y).drop_last() =~= x + y.drop_last());
        assert((x + y).last() == y.last());
        assert(digits_val(x + y) == (digits_val(x) * pow10((y.len() - 1) as nat) + digits_val(
            y.drop_last(),
        )) * 10 + digit_val(y.last()));
        assert(digits_val(x) * pow10((y.len() - 1) as nat) * 10 == digits_val(x) * pow10(y.len()))
            by (nonlinear_arith)
            requires
                pow10(y.len()) == 10 * pow10((y.len() - 1) as nat),
        ;
    }
}

/// Unfolds `first_dot` one step at position `i`, along a dot-free prefix.
proof fn lemma_first_dot_at(s: Seq<char>, i: int)
    requires
        0 <= i < s.len(),
        forall|j: int| 0 <= j < i ==> s[j] != '.',
    ensures
        s[i] == '.' ==> first_dot(s) == i,
        s[i] != '.' && (forall|j: int| i < j < s.len() ==> s[j] != '.') ==> first_dot(s) < 0,
    decreases i,
{
    if i == 0 {
        if s[0] != '.' {
            if forall|j: int| 0 < j < s.len() ==> s[j] != '.' {
                lemma_no_dot(s.drop_first());
            }
        }
    } else {
        assert(s[0] != '.');
        assert(forall|j: int| 0 <= j < i - 1 ==> s.drop_first()[j] != '.');
        assert(s.drop_first()[i - 1] == s[i]);
        if s[i] == '.' {
            lemma_first_dot_at(s.drop_first(), i - 1);
        } else if forall|j: int| i < j < s.len() ==> s[j] != '.' {
            assert(forall|j: int| i - 1 < j < s.drop_first().len() ==> s.drop_first()[j] != '.');
            lemma_first_dot_at(s.drop_first(), i - 1);
        }
    }
}

proof fn lemma_no_dot(s: Seq<char>)
    requires
        forall|j: int| 0 <= j < s.len() ==> s[j] != '.',
    ensures
        first_dot(s) < 0,
    decreases s.len(),
{
    if s.len() > 0 {
        lemma_no_dot(s.drop_first());
    }
}

/// Scans the decimal digits `v[from..to]`, extending accumulator `acc0`,
/// failing exactly when the combined value would pass `NUM_CAP`.
fn scan_digits(v: &Vec<char>, from: usize, to: usize, acc0: u64) -> (r: Option<u64>)
    requires
        from <= to <= v@.len(),
        acc0 <= NUM_CAP,
        all_digits(v@.subrange(from as int, to as int)),
    ensures
        ({
            let d = v@.subrange(from as int, to as int);
            let total = acc0 * pow10(d.len()) + digits_val(d);
            match r {
                Some(n) => total <= NUM_CAP && n == total,
                None => total > NUM_CAP,
            }
        }),
{
    let ghost full = v@.subrange(from as int, to as int);
    let mut i: usize = from;
    let mut a: u64 = acc0;
    proof {
        assert(v@.subrange(from as int, from as int) =~= Seq::<char>::empty());
    }
    while i < to
        invariant
            from <= i <= to <= v@.len(),
            full == v@.subrange(from as int, to as int),
            all_digits(full),
            a <= NUM_CAP,
            a == acc0 * pow10((i - from) as nat) + digits_val(
                v@.subrange(from as int, i as int),
            ),
        decreases to - i,
    {
        let ghost p = v@.subrange(from as int, i as int);
        let c = v[i];
        proof {
            assert(full[i - from] == v@[i as int]);
        }
        let d: u64 = (c as u32 - 48) as u64;
        let next: u64 = a * 10 + d;
        proof {
            lemma_digits_val_push(p, c);
            assert(p.push(c) =~= v@.subrange(from as int, i + 1));
            lemma_pow10_pos(((i - from) + 1) as nat);
            assert(acc0 * pow10(((i - from) + 1) as nat) == (acc0 * pow10((i - from) as nat))
                * 10) by (nonlinear_arith)
                requires
                    pow10(((i - from) + 1) as nat) == 10 * pow10((i - from) as nat),
            ;
        }
        if next > NUM_CAP {
            proof {
                let pre1 = v@.subrange(from as int, i + 1);
                let rest = v@.subrange(i + 1, to as int);
                let k1 = ((i - from) + 1) as nat;
                assert(pre1 + rest =~= full);
                lemma_digits_val_concat(pre1, rest);
                assert(forall|j: int| 0 <= j < rest.len() ==> rest[j] == full[(i - from) + 1 + j]);
                assert(all_digits(rest));
                lemma_digits_val_nonneg(rest);
                lemma_pow10_pos(rest.len());
                lemma_pow10_add(k1, rest.len());
                assert(full.len() == k1 + rest.len());
                assert(acc0 * pow10(full.len()) + digits_val(full) >= next) by (nonlinear_arith)
                    requires
                        digits_val(full) == digits_val(pre1) * pow10(rest.len()) + digits_val(rest),
                        pow10((k1 + rest.len()) as nat) == pow10(k1) * pow10(rest.len()),
                        full.len() == k1 + rest.len(),
                        acc0 * pow10(k1) + digits_val(pre1) == next,
                        next >= 0,
                        pow10(rest.len()) >= 1,
                        digits_val(rest) >= 0,
                ;
            }
            return None;
        }
        a = next;
        i += 1;
    }
    Some(a)
}

fn find_dot(v: &Vec<char>) -> (r: Option<usize>)
    ensures
        match r {
            Some(i) => i < v@.len() && first_dot(v@) == i && v@[i as int] == '.',
            None => first_dot(v@) < 0,
        },
{
    let mut i: usize = 0;
    while i < v.len()
        invariant
            i <= v@.len(),
            forall|j: int| 0 <= j < i ==> v@[j] != '.',
        decreases v@.len() - i,
    {
        if v[i] == '.' {
            proof {
                lemma_first_dot_at(v@, i as int);
            }
            return Some(i);
        }
        i += 1;
    }
    proof {
        lemma_no_dot(v@);
    }
    None
}

fn digits_in_range(v: &Vec<char>, from: usize, to: usize) -> (r: bool)
    requires
        from <= to <= v@.len(),
    ensures
        r == all_digits(v@.subrange(from as int, to as int)),
{
    let ghost d = v@.subrange(from as int, to as int);
    let mut i: usize = from;
    while i < to
        invariant
            from <= i <= to <= v@.len(),
            d == v@.subrange(from as int, to as int),
            forall|j: int| 0 <= j < i - from ==> is_digit(d[j]),
        decreases to - i,
    {
        let c = v[i];
        proof {
            assert(d[i - from] == v@[i as int]);
        }
        if c < '0' || c > '9' {
            return false;
        }
        i += 1;
    }
    true
}

fn pow10_exec(k: usize) -> (r: u64)
    requires
        k <= FRAC_CAP,
    ensures
        r == pow10(k as nat),
        1 <= r <= 100_000_000,
{
    proof {
        reveal_with_fuel(pow10, 10);
    }
    if k == 0 {
        1
    } else if k == 1 {
        10
    } else if k == 2 {
        100
    } else if k == 3 {
        1_000
    } else if k == 4 {
        10_000
    } else if k == 5 {
        100_000
    } else if k == 6 {
        1_000_000
    } else if k == 7 {
        10_000_000
    } else {
        100_000_000
    }
}

/// Parses a decimal literal into an exact fraction.
///
/// Succeeds exactly on the literals `dec_valid` accepts, and then returns the
/// numerator and power-of-ten denominator that `dec_num` and `dec_den`
/// denote.
pub fn parse_decimal(v: &Vec<char>) -> (r: Option<(u64, u64)>)
    ensures
        match r {
            Some(p) => dec_valid(v@) && p.0 == dec_num(v@) && p.1 == dec_den(v@) && p.0 <= NUM_CAP
                && 1 <= p.1 <= 100_000_000,
            None => !dec_valid(v@),
        },
{
    let n = v.len();
    let dot = find_dot(v);
    let (ip_end, fstart): (usize, usize) = match dot {
        Some(d) => (d, d + 1),
        None => (n, n),
    };
    proof {
        match dot {
            Some(d) => {
                assert(int_part(v@) =~= v@.subrange(0, d as int));
                assert(frac_part(v@) =~= v@.subrange(d + 1, n as int));
            },
            None => {
                assert(int_part(v@) =~= v@.subrange(0, n as int));
                assert(frac_part(v@) =~= v@.subrange(n as int, n as int));
            },
        }
    }
    let ghost ip = v@.subrange(0, ip_end as int);
    let ghost fp = v@.subrange(fstart as int, n as int);
    if !digits_in_range(v, 0, ip_end) {
        return None;
    }
    if !digits_in_range(v, fstart, n) {
        return None;
    }
    if ip_end == 0 && fstart >= n {
        return None;
    }
    // the kept fraction: at most FRAC_CAP digits, trailing zeros dropped
    let mut fk_end: usize = if n - fstart > FRAC_CAP {
        fstart + FRAC_CAP
    } else {
        n
    };
    let ghost trunc = v@.subrange(fstart as int, fk_end as int);
    proof {
        if fp.len() > FRAC_CAP {
            assert(trunc =~= fp.take(FRAC_CAP as int));
        }
    }
    while fk_end > fstart && v[fk_end - 1] == '0'
        invariant
            fstart <= fk_end <= n <= v@.len(),
            fk_end - fstart <= FRAC_CAP,
            strip_zeros(trunc) == strip_zeros(v@.subrange(fstart as int, fk_end as int)),
        decreases fk_end,
    {
        proof {
            let cur = v@.subrange(fstart as int, fk_end as int);
            assert(cur.last() == v@[fk_end - 1]);
            assert(cur.drop_last() =~= v@.subrange(fstart as int, fk_end - 1));
        }
        fk_end -= 1;
    }
    let ghost kept = v@.subrange(fstart as int, fk_end as int);
    proof {
        if kept.len() > 0 {
            assert(kept.last() == v@[fk_end - 1]);
        }
        assert(strip_zeros(kept) == kept);
        assert(kept_frac(v@) == kept);
        assert(forall|j: int| 0 <= j < kept.len() ==> kept[j] == fp[j]);
        assert(all_digits(kept));
    }
    let a1 = match scan_digits(v, 0, ip_end, 0) {
        Some(a) => a,
        None => {
            proof {
                assert(ip + kept =~= ip + kept);
                lemma_digits_val_concat(ip, kept);
                lemma_digits_val_nonneg(kept);
                lemma_pow10_pos(kept.len());
                assert(digits_val(ip + kept) > NUM_CAP) by (nonlinear_arith)
                    requires
                        digits_val(ip + kept) == digits_val(ip) * pow10(kept.len()) + digits_val(
                            kept,
                        ),
                        digits_val(ip) > NUM_CAP,
                        pow10(kept.len()) >= 1,
                        digits_val(kept) >= 0,
                ;
            }
            return None;
        },
    };
    let num = match scan_digits(v, fstart, fk_end, a1) {
        Some(x) => x,
        None => {
            proof {
                lemma_digits_val_concat(ip, kept);
            }
            return None;
        },
    };
    let den = pow10_exec(fk_end - fstart);
    proof {
        lemma_digits_val_concat(ip, kept);
        lemma_pow10_pos(kept.len());
    }
    Some((num, den))
}

/// The fixed-point volume a decimal literal denotes: the value scaled by
/// `VOL_SCALE` and rounded down; 0 where the literal is not accepted
/// (an unknown liquidity).
pub open spec fn vol_fp_spec(s: Seq<char>) -> int {
    if dec_valid(s) {
        dec_num(s) * VOL_SCALE / dec_den(s)
    } else {
        0
    }
}

pub fn parse_volume_fp(v: &Vec<char>) -> (r: u64)
    ensures
        r == vol_fp_spec(v@),
{
    match parse_decimal(v) {
        Some((n, d)) => {
            let scaled: u64 = n * VOL_SCALE;
            scaled / d
        },
        None => 0,
    }
}

} // verus!
