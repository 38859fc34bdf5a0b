//! What the user programs print: `squares`, the table of squares and their
//! differences, and `primecheck`, the trial-division prime counter.
use vstd::prelude::*;

use crate::cstr::lemma_c_str;
use crate::printf::vprintf;
use crate::printf_spec::{
    arg_kinds, arg_kinds_from, args_supply, kind_of, lemma_plain_run, render, ArgKind, PrintfArg,
};

verus! {

/// `"%d\t%d\t%d\r\n"`: one row of the squares table.
pub open spec fn squares_format() -> Seq<u8> {
    seq![0x25u8, 0x64, 0x09, 0x25, 0x64, 0x09, 0x25, 0x64, 0x0d, 0x0a]
}

/// The row `squares` prints for `i`: `i`, its square, and the difference
/// between its square and the previous one.
pub open spec fn square_row(i: int) -> Seq<u8> {
    render(
        squares_format(),
        seq![
            PrintfArg::Int(i as i32),
            PrintfArg::Int((i * i) as i32),
            PrintfArg::Int((i * i - (i - 1) * (i - 1)) as i32),
        ],
    )
}

/// The rows for `1..=n`, in order.
pub open spec fn squares_output(n: int) -> Seq<u8>
    decreases n,
{
    if n <= 0 {
        Seq::empty()
    } else {
        squares_output(n - 1) + square_row(n)
    }
}

/// Each difference `squares` prints is the next odd number: `2i - 1`.
pub proof fn lemma_square_difference(i: int)
    ensures
        i * i - (i - 1) * (i - 1) == 2 * i - 1,
{
    assert(i * i - (i - 1) * (i - 1) == 2 * i - 1) by (nonlinear_arith);
}

proof fn lemma_three_ints(fmt: Seq<u8>, args: Seq<PrintfArg>)
    requires
        fmt == squares_format(),
        args.len() == 3,
        forall|j: int| 0 <= j < 3 ==> kind_of(#[trigger] args[j]) == ArgKind::Int,
    ensures
        args_supply(args, 0, arg_kinds(fmt)),
{
    assert forall|j: int| 0 <= j < fmt.len() implies #[trigger] fmt[j] != 0 by {}
    lemma_c_str(fmt);
    lemma_plain_run(fmt, args, 2, 3, 1);
    lemma_plain_run(fmt, args, 5, 6, 2);
    lemma_plain_run(fmt, args, 8, 10, 3);
    assert(arg_kinds_from(fmt, 10) =~= Seq::<ArgKind>::empty());
    assert(arg_kinds(fmt) =~= seq![ArgKind::Int, ArgKind::Int, ArgKind::Int]);
}

/// Appends the table `squares` prints for `1..=n`: each row holds `i`, `i*i`
/// and the difference from the previous square.
pub fn squares(n: i32, out: &mut Vec<u8>)
    requires
        n <= 46340,
    ensures
        final(out)@ == old(out)@ + squares_output(n as int),
{
    let ghost out0 = out@;
    let fmt: Vec<u8> = vec![0x25, 0x64, 0x09, 0x25, 0x64, 0x09, 0x25, 0x64, 0x0d, 0x0a];
    assert(fmt@ == squares_format());
    let mut p: i32 = 0;
    let mut i: i32 = 1;
    while i <= n
        invariant
            fmt@ == squares_format(),
            1 <= i,
            i <= n + 1 || n < 1,
            n < 1 ==> i == 1,
            n <= 46340,
            p == (i - 1) * (i - 1),
            out@ == out0 + squares_output(i - 1),
        decreases n + 1 - i,
    {
        assert(i * i <= 46340 * 46340) by (nonlinear_arith)
            requires
                1 <= i <= 46340,
        ;
        assert(p <= i * i) by (nonlinear_arith)
            requires
                p == (i - 1) * (i - 1),
                1 <= i,
        ;
        let s = i * i;
        let difference = s - p;
        let args = vec![PrintfArg::Int(i), PrintfArg::Int(s), PrintfArg::Int(difference)];
        proof {
            lemma_three_ints(fmt@, args@);
        }
        let _ = vprintf(Some(fmt.as_slice()), args.as_slice(), out);
        assert(args@ == seq![
            PrintfArg::Int(i as i32),
            PrintfArg::Int((i * i) as i32),
            PrintfArg::Int((i * i - (i - 1) * (i - 1)) as i32),
        ]);
        assert(out@ =~= out0 + squares_output(i as int));
        p = s;
        i = i + 1;
    }
    if n < 1 {
        assert(squares_output(0) =~= Seq::<u8>::empty());
        assert(squares_output(n as int) =~= Seq::<u8>::empty());
        assert(out@ =~= out0 + squares_output(n as int));
    }
}

/// `"primecheck: Found another 1000 primes; last one was %d!\r\n"`.
pub open spec fn primecheck_format() -> Seq<u8> {
    seq![
        0x70u8, 0x72, 0x69, 0x6d, 0x65, 0x63, 0x68, 0x65, 0x63, 0x6b, 0x3a, 0x20, 0x46, 0x6f,
        0x75, 0x6e, 0x64, 0x20, 0x61, 0x6e, 0x6f, 0x74, 0x68, 0x65, 0x72, 0x20, 0x31, 0x30, 0x30,
        0x30, 0x20, 0x70, 0x72, 0x69, 0x6d, 0x65, 0x73, 0x3b, 0x20, 0x6c, 0x61, 0x73, 0x74, 0x20,
        0x6f, 0x6e, 0x65, 0x20, 0x77, 0x61, 0x73, 0x20, 0x25, 0x64, 0x21, 0x0d, 0x0a,
    ]
}

/// `n` is prime: at least 2, and no number from 2 up to `n - 1` divides it.
pub open spec fn is_prime(n: int) -> bool {
    n >= 2 && forall|j: int| 2 <= j < n ==> #[trigger] (n % j) != 0
}

/// The number of primes below `n`.
pub open spec fn primes_below(n: int) -> nat
    decreases n,
{
    if n <= 2 {
        0
    } else {
        primes_below(n - 1) + if is_prime(n - 1) {
            1nat
        } else {
            0nat
        }
    }
}

/// The line `primecheck` prints when it finds the prime `p`.
pub open spec fn milestone_line(p: int) -> Seq<u8> {
    render(primecheck_format(), seq![PrintfArg::Int(p as i32)])
}

/// What `primecheck` prints while testing the numbers from 2 up to
/// `limit - 1`: a line for every prime that brings the count of primes
/// found to a multiple of 1000.
pub open spec fn primecheck_output(limit: int) -> Seq<u8>
    decreases limit,
{
    if limit <= 2 {
        Seq::empty()
    } else {
        primecheck_output(limit - 1) + if is_prime(limit - 1) && primes_below(limit) % 1000 == 0 {
            milestone_line(limit - 1)
        } else {
            Seq::empty()
        }
    }
}

/// What `primecheck` prints for a smaller limit is the start of what it
/// prints for a larger one.
pub proof fn lemma_primecheck_output_grows(a: int, b: int)
    requires
        a <= b,
    ensures
        primecheck_output(a).len() <= primecheck_output(b).len(),
        primecheck_output(b).subrange(0, primecheck_output(a).len() as int) == primecheck_output(a),
    decreases b - a,
{
    if a < b {
        lemma_primecheck_output_grows(a, b - 1);
        if b > 2 {
            let lo = primecheck_output(a);
            let mid = primecheck_output(b - 1);
            assert(primecheck_output(b).subrange(0, mid.len() as int) =~= mid);
            assert(primecheck_output(b).subrange(0, lo.len() as int) =~= mid.subrange(
                0,
                lo.len() as int,
            ));
        } else {
            assert(primecheck_output(b) =~= Seq::<u8>::empty());
            assert(primecheck_output(b - 1) =~= Seq::<u8>::empty());
        }
    } else {
        assert(primecheck_output(b).subrange(0, primecheck_output(a).len() as int)
            =~= primecheck_output(a));
    }
}

/// Every prime `p` below `limit` that brings the number of primes up to and
/// including it to a multiple of 1000 gets its line: what `primecheck` prints
/// for `limit` starts with what it prints for `p`, followed by the milestone
/// line for `p`.
pub proof fn lemma_primecheck_prints_every_thousandth(limit: int, p: int)
    requires
        2 <= p < limit,
        is_prime(p),
        primes_below(p + 1) % 1000 == 0,
    ensures
        (primecheck_output(p) + milestone_line(p)).len() <= primecheck_output(limit).len(),
        primecheck_output(limit).subrange(0, (primecheck_output(p) + milestone_line(p)).len() as int)
            == primecheck_output(p) + milestone_line(p),
{
    assert(primecheck_output(p + 1) == primecheck_output(p) + milestone_line(p));
    lemma_primecheck_output_grows(p + 1, limit);
}

/// Testing a number that is not prime, or a prime that does not bring the
/// number of primes up to and including it to a multiple of 1000, prints
/// nothing.
pub proof fn lemma_primecheck_silent_step(p: int)
    requires
        p >= 2,
        !is_prime(p) || primes_below(p + 1) % 1000 != 0,
    ensures
        primecheck_output(p + 1) == primecheck_output(p),
{
    assert(primecheck_output(p + 1) =~= primecheck_output(p));
}

/// There are never more primes below `n` than numbers from 2 to `n - 1`.
proof fn lemma_primes_below_bound(n: int)
    ensures
        primes_below(n) <= if n >= 2 {
            n - 2
        } else {
            0
        },
    decreases n,
{
    if n > 2 {
        lemma_primes_below_bound(n - 1);
    }
}

proof fn lemma_one_int(fmt: Seq<u8>, args: Seq<PrintfArg>)
    requires
        fmt == primecheck_format(),
        args.len() == 1,
        kind_of(args[0]) == ArgKind::Int,
    ensures
        args_supply(args, 0, arg_kinds(fmt)),
{
    assert forall|j: int| 0 <= j < fmt.len() implies #[trigger] fmt[j] != 0 by {}
    lemma_c_str(fmt);
    lemma_plain_run(fmt, args, 0, 52, 0);
    lemma_plain_run(fmt, args, 54, 57, 1);
    assert(arg_kinds_from(fmt, 57) =~= Seq::<ArgKind>::empty());
    assert(arg_kinds(fmt) =~= seq![ArgKind::Int]);
}

/// `n` is a product of two whole numbers that are both at least 2.
pub open spec fn is_product(n: int) -> bool {
    exists|a: int, b: int| 2 <= a && 2 <= b && #[trigger] (a * b) == n
}

/// A product of two factors that are both at least 2 is not prime.
pub proof fn lemma_product_not_prime(a: int, b: int)
    requires
        2 <= a,
        2 <= b,
    ensures
        !is_prime(a * b),
{
    let n = a * b;
    assert(a < n && n % a == 0) by (nonlinear_arith)
        requires
            2 <= a,
            2 <= b,
            n == a * b,
    ;
    assert(n % a != 0 ==> !is_prime(n));
}

/// A number of at least 2 is prime exactly when it is not a product of two
/// factors that are both at least 2.
pub proof fn lemma_prime_iff_no_factors(n: int)
    requires
        n >= 2,
    ensures
        is_prime(n) <==> !is_product(n),
{
    if is_product(n) {
        let (a, b) = choose|a: int, b: int| 2 <= a && 2 <= b && #[trigger] (a * b) == n;
        lemma_product_not_prime(a, b);
    }
    if !is_prime(n) {
        let j = choose|j: int| 2 <= j < n && #[trigger] (n % j) == 0;
        let q = n / j;
        assert(q * j == n && 2 <= q) by (nonlinear_arith)
            requires
                2 <= j < n,
                n % j == 0,
                q == n / j,
        ;
        assert(j * q == n) by (nonlinear_arith)
            requires
                q * j == n,
        ;
        assert(is_product(n));
    }
}

/// Whether `n` is prime, by trial division: true exactly when `n` is not a
/// product of two factors that are both at least 2.
pub fn prime_by_trial_division(n: u32) -> (r: bool)
    requires
        n >= 2,
    ensures
        r == is_prime(n as int),
        r <==> !is_product(n as int),
{
    let mut j: u32 = 2;
    while j < n
        invariant
            2 <= j <= n,
            forall|k: int| 2 <= k < j ==> #[trigger] (n as int % k) != 0,
        decreases n - j,
    {
        if n % j == 0 {
            proof {
                assert((n as int % j as int) == 0);
                lemma_prime_iff_no_factors(n as int);
            }
            return false;
        }
        j = j + 1;
    }
    proof {
        lemma_prime_iff_no_factors(n as int);
    }
    true
}

/// Appends what `primecheck` prints while it tests the numbers from 2 up to
/// `limit - 1` for primality, counting the primes it finds.
pub fn primecheck(limit: u32, out: &mut Vec<u8>)
    ensures
        final(out)@ == old(out)@ + primecheck_output(limit as int),
{
    let ghost out0 = out@;
    let fmt: Vec<u8> = vec![
        0x70, 0x72, 0x69, 0x6d, 0x65, 0x63, 0x68, 0x65, 0x63, 0x6b, 0x3a, 0x20, 0x46, 0x6f, 0x75,
        0x6e, 0x64, 0x20, 0x61, 0x6e, 0x6f, 0x74, 0x68, 0x65, 0x72, 0x20, 0x31, 0x30, 0x30, 0x30,
        0x20, 0x70, 0x72, 0x69, 0x6d, 0x65, 0x73, 0x3b, 0x20, 0x6c, 0x61, 0x73, 0x74, 0x20, 0x6f,
        0x6e, 0x65, 0x20, 0x77, 0x61, 0x73, 0x20, 0x25, 0x64, 0x21, 0x0d, 0x0a,
    ];
    assert(fmt@ == primecheck_format());
    let mut prime_count: u32 = 0;
    let mut i: u32 = 2;
    if limit <= 2 {
        assert(out@ =~= out0 + primecheck_output(limit as int));
        return;
    }
    assert(out@ =~= out0 + primecheck_output(2));
    while i < limit
        invariant
            fmt@ == primecheck_format(),
            2 <= i <= limit,
            prime_count == primes_below(i as int),
            out@ == out0 + primecheck_output(i as int),
        decreases limit - i,
    {
        proof {
            lemma_primes_below_bound(i as int);
        }
        let ghost before = out@;
        let prime = prime_by_trial_division(i);
        if prime {
            prime_count = prime_count + 1;
        }
        assert(prime_count == primes_below(i + 1));
        if prime && prime_count % 1000 == 0 {
            let args = vec![PrintfArg::Int(i as i32)];
            proof {
                lemma_one_int(fmt@, args@);
            }
            let _ = vprintf(Some(fmt.as_slice()), args.as_slice(), out);
            assert(args@ == seq![PrintfArg::Int(i as i32)]);
            assert(out@ == before + milestone_line(i as int));
        }
        assert(out@ =~= out0 + primecheck_output(i + 1));
        i = i + 1;
    }
}

} // verus!
