//! Properties of what `printf` prints: the text each conversion produces,
//! the verbatim printing of unknown directives, the order in which
//! arguments are read, and printing a format in two parts.
use vstd::prelude::*;

use crate::cstr::{c_str, lemma_c_str};
use crate::printf_spec::{
    arg_kind_of, arg_kinds, arg_kinds_from, conversion_of, digit_char, digit_value, digits,
    digits_value, is_percent, kind_of, lemma_digit_roundtrip, lemma_digits_roundtrip, long_at,
    null_text, padded_digits, padded_len, pointer_width, render, render_arg, render_from,
    saturated_count, signed_decimal, spec_pos, ArgKind, Conversion, PrintfArg,
};

verus! {

/// `c` is an ASCII decimal digit.
pub open spec fn is_decimal_digit(c: u8) -> bool {
    0x30 <= c <= 0x39
}

/// `c` is a lower-case ASCII hexadecimal digit.
pub open spec fn is_lower_hex_digit(c: u8) -> bool {
    is_decimal_digit(c) || 0x61 <= c <= 0x66
}

/// `s` is `n` in decimal without padding: decimal digits only, no leading
/// zero unless `n` is 0 (printed as `0`).
pub open spec fn plain_decimal(s: Seq<u8>, n: nat) -> bool {
    &&& s.len() >= 1
    &&& forall|j: int| 0 <= j < s.len() ==> is_decimal_digit(#[trigger] s[j])
    &&& digits_value(s, 10) == n
    &&& s.len() > 1 ==> s[0] != 0x30
}

/// `s` is `n` in exactly `width` lower-case hexadecimal digits.
pub open spec fn hex_field(s: Seq<u8>, n: nat, width: nat) -> bool {
    &&& s.len() == width
    &&& forall|j: int| 0 <= j < s.len() ==> is_lower_hex_digit(#[trigger] s[j])
    &&& digits_value(s, 16) == n
}

/// `r^k`.
pub open spec fn power(r: nat, k: nat) -> nat
    decreases k,
{
    if k == 0 {
        1
    } else {
        r * power(r, (k - 1) as nat)
    }
}

// ---- Digits -------------------------------------------------------------------------
proof fn lemma_digits_chars(n: nat, radix: nat)
    requires
        2 <= radix <= 16,
    ensures
        forall|j: int|
            0 <= j < digits(n, radix).len() ==> is_lower_hex_digit(#[trigger] digits(n, radix)[j]),
        radix <= 10 ==> forall|j: int|
            0 <= j < digits(n, radix).len() ==> is_decimal_digit(#[trigger] digits(n, radix)[j]),
        digits(n, radix).len() >= 1,
        n > 0 ==> digits(n, radix)[0] != 0x30,
    decreases n,
{
    if n >= radix {
        assert(n / radix < n && n / radix > 0 && n % radix < radix) by (nonlinear_arith)
            requires
                radix >= 2,
                n >= radix,
        ;
        lemma_digits_chars(n / radix, radix);
        let ds = digits(n, radix);
        let prev = digits(n / radix, radix);
        assert(ds == prev.push(digit_char(n % radix)));
        assert(ds[0] == prev[0]);
    }
}

proof fn lemma_digits_fit(n: nat, radix: nat, k: nat)
    requires
        2 <= radix,
        1 <= k,
        n < power(radix, k),
    ensures
        digits(n, radix).len() <= k,
    decreases n,
{
    if n >= radix {
        let p = power(radix, (k - 1) as nat);
        assert(k >= 2) by {
            if k == 1 {
                assert(power(radix, 1) == radix * power(radix, 0));
                assert(radix * 1 == radix) by (nonlinear_arith);
            }
        }
        assert(n / radix < p && n / radix < n) by (nonlinear_arith)
            requires
                n < radix * p,
                radix >= 2,
                n >= radix,
        ;
        lemma_digits_fit(n / radix, radix, (k - 1) as nat);
    }
}

proof fn lemma_zeros_value(z: nat, radix: nat)
    ensures
        digits_value(Seq::new(z, |i: int| 0x30u8), radix) == 0,
    decreases z,
{
    if z > 0 {
        let zs = Seq::new(z, |i: int| 0x30u8);
        assert(zs.drop_last() =~= Seq::new((z - 1) as nat, |i: int| 0x30u8));
        lemma_zeros_value((z - 1) as nat, radix);
        assert(0 * radix == 0) by (nonlinear_arith);
    }
}

proof fn lemma_leading_zeros_value(z: nat, ds: Seq<u8>, radix: nat)
    ensures
        digits_value(Seq::new(z, |i: int| 0x30u8) + ds, radix) == digits_value(ds, radix),
    decreases ds.len(),
{
    let zs = Seq::new(z, |i: int| 0x30u8);
    if ds.len() == 0 {
        assert(zs + ds =~= zs);
        lemma_zeros_value(z, radix);
    } else {
        assert((zs + ds).drop_last() =~= zs + ds.drop_last());
        assert((zs + ds).last() == ds.last());
        lemma_leading_zeros_value(z, ds.drop_last(), radix);
    }
}

/// What `send_number` appends: `n` in base `radix`, zero-padded on the left
/// to `width`, is `padded_len` lower-case digits that read back as `n`.
pub proof fn lemma_padded_digits(n: nat, radix: nat, width: nat)
    requires
        2 <= radix <= 16,
    ensures
        padded_digits(n, radix, width).len() == padded_len(n, radix, width),
        forall|j: int|
            0 <= j < padded_digits(n, radix, width).len() ==> is_lower_hex_digit(
                #[trigger] padded_digits(n, radix, width)[j],
            ),
        digits_value(padded_digits(n, radix, width), radix) == n,
{
    let ds = digits(n, radix);
    let pad: nat = if width > ds.len() {
        (width - ds.len()) as nat
    } else {
        0
    };
    let p = padded_digits(n, radix, width);
    lemma_digits_chars(n, radix);
    lemma_digits_roundtrip(n, radix);
    lemma_leading_zeros_value(pad, ds, radix);
    assert forall|j: int| 0 <= j < p.len() implies is_lower_hex_digit(#[trigger] p[j]) by {
        if j >= pad {
            assert(p[j] == ds[j - pad]);
        }
    }
}

proof fn lemma_plain_decimal(n: nat)
    ensures
        plain_decimal(digits(n, 10), n),
{
    lemma_digits_chars(n, 10);
    lemma_digits_roundtrip(n, 10);
    if n == 0 {
        assert(digits(n, 10).len() == 1);
    }
}

proof fn lemma_hex_field(n: nat, width: nat)
    requires
        width >= 1,
        n < power(16, width),
    ensures
        hex_field(padded_digits(n, 16, width), n, width),
{
    lemma_digits_fit(n, 16, width);
    lemma_padded_digits(n, 16, width);
}

/// The text each conversion prints for its argument: `%d` and `%ld` the
/// number in decimal with a `-` exactly when it is negative and no padding;
/// `%u` and `%lu` the number in decimal without padding; `%x` exactly 8 and
/// `%lx` exactly 16 lower-case hex digits; `%p` `0x` and two hex digits per
/// byte of an address; `%c` the low byte of its `int`; `%s` the string's
/// bytes, or `(null)` for a null pointer.
pub proof fn lemma_conversion_text(c: Conversion, a: PrintfArg)
    requires
        arg_kind_of(c) == Some(kind_of(a)),
    ensures
        ({
            let r = render_arg(c, a);
            match (c, a) {
                (Conversion::Char, PrintfArg::Int(v)) => r == seq![v as u8],
                (Conversion::Str, PrintfArg::Str(s)) => r == match s {
                    Some(bytes) => c_str(bytes@),
                    None => null_text(),
                },
                (Conversion::Int, PrintfArg::Int(v)) => {
                    &&& (v < 0 ==> r[0] == 0x2d && plain_decimal(r.drop_first(), (-v) as nat))
                    &&& (v >= 0 ==> plain_decimal(r, v as nat))
                },
                (Conversion::Long, PrintfArg::Long(v)) => {
                    &&& (v < 0 ==> r[0] == 0x2d && plain_decimal(r.drop_first(), (-v) as nat))
                    &&& (v >= 0 ==> plain_decimal(r, v as nat))
                },
                (Conversion::UInt, PrintfArg::UInt(v)) => plain_decimal(r, v as nat),
                (Conversion::ULong, PrintfArg::ULong(v)) => plain_decimal(r, v as nat),
                (Conversion::Hex, PrintfArg::UInt(v)) => hex_field(r, v as nat, 8),
                (Conversion::LongHex, PrintfArg::ULong(v)) => hex_field(r, v as nat, 16),
                (Conversion::Pointer, PrintfArg::Pointer(p)) => {
                    &&& r.len() >= 2
                    &&& r[0] == 0x30
                    &&& r[1] == 0x78
                    &&& hex_field(r.skip(2), p as nat, pointer_width())
                },
                _ => false,
            }
        }),
{
    reveal_with_fuel(power, 17);
    assert(power(16, 8) == 0x1_0000_0000);
    assert(power(16, 16) == 0x1_0000_0000_0000_0000);
    match (c, a) {
        (Conversion::Int, PrintfArg::Int(v)) => {
            let r = render_arg(c, a);
            if v < 0 {
                lemma_plain_decimal((-v) as nat);
                assert(r.drop_first() =~= digits((-v) as nat, 10));
            } else {
                lemma_plain_decimal(v as nat);
            }
        },
        (Conversion::Long, PrintfArg::Long(v)) => {
            let r = render_arg(c, a);
            if v < 0 {
                lemma_plain_decimal((-v) as nat);
                assert(r.drop_first() =~= digits((-v) as nat, 10));
            } else {
                lemma_plain_decimal(v as nat);
            }
        },
        (Conversion::UInt, PrintfArg::UInt(v)) => lemma_plain_decimal(v as nat),
        (Conversion::ULong, PrintfArg::ULong(v)) => lemma_plain_decimal(v as nat),
        (Conversion::Hex, PrintfArg::UInt(v)) => lemma_hex_field(v as nat, 8),
        (Conversion::LongHex, PrintfArg::ULong(v)) => lemma_hex_field(v as nat, 16),
        (Conversion::Pointer, PrintfArg::Pointer(p)) => {
            let r = render_arg(c, a);
            if usize::BITS == 32 {
                assert(p < 0x1_0000_0000);
                lemma_hex_field(p as nat, 8);
            } else {
                lemma_hex_field(p as nat, 16);
            }
            assert(r.skip(2) =~= padded_digits(p as nat, 16, pointer_width()));
        },
        _ => {},
    }
}

// ---- Directives and arguments -------------------------------------------------------
/// A `%` (with an optional `l`) that the format ends with, or that is
/// followed by a byte naming no conversion (such as `%q`, `%ls`, `%ll` or
/// `%l%`), prints as it stands, reads no argument, and printing goes on
/// after it.
pub proof fn lemma_unknown_directive_verbatim(fmt: Seq<u8>, args: Seq<PrintfArg>, i: int, k: int)
    requires
        0 <= i < fmt.len(),
        is_percent(fmt[i]),
        spec_pos(fmt, i) >= fmt.len() || conversion_of(long_at(fmt, i), fmt[spec_pos(fmt, i)])
            is None,
    ensures
        ({
            let e = if spec_pos(fmt, i) >= fmt.len() {
                fmt.len() as int
            } else {
                spec_pos(fmt, i) + 1
            };
            &&& render_from(fmt, args, i, k) == fmt.subrange(i, e) + render_from(fmt, args, e, k)
            &&& arg_kinds_from(fmt, i) == arg_kinds_from(fmt, e)
        }),
{
    let s = spec_pos(fmt, i);
    if s >= fmt.len() {
        assert(render_from(fmt, args, fmt.len() as int, k) =~= Seq::<u8>::empty());
        assert(fmt.subrange(i, fmt.len() as int) + Seq::<u8>::empty() =~= fmt.subrange(
            i,
            fmt.len() as int,
        ));
    }
}

/// Printing from position `i` reads only the arguments `args[k..]` that
/// `arg_kinds_from` counts, in order: two argument lists that agree on them
/// print the same.
pub proof fn lemma_render_reads_listed_args(
    fmt: Seq<u8>,
    a1: Seq<PrintfArg>,
    a2: Seq<PrintfArg>,
    i: int,
    k: int,
)
    requires
        0 <= i,
        forall|j: int| 0 <= j < arg_kinds_from(fmt, i).len() ==> #[trigger] a1[k + j] == a2[k + j],
    ensures
        render_from(fmt, a1, i, k) == render_from(fmt, a2, i, k),
    decreases fmt.len() - i,
{
    if i < fmt.len() {
        if !is_percent(fmt[i]) {
            lemma_render_reads_listed_args(fmt, a1, a2, i + 1, k);
        } else {
            let s = spec_pos(fmt, i);
            if s < fmt.len() {
                match conversion_of(long_at(fmt, i), fmt[s]) {
                    None => lemma_render_reads_listed_args(fmt, a1, a2, s + 1, k),
                    Some(Conversion::Percent) => lemma_render_reads_listed_args(
                        fmt,
                        a1,
                        a2,
                        s + 1,
                        k,
                    ),
                    Some(c) => {
                        assert(a1[k + 0] == a2[k + 0]);
                        assert forall|j: int|
                            0 <= j < arg_kinds_from(fmt, s + 1).len() implies #[trigger] a1[k + 1
                            + j] == a2[k + 1 + j] by {
                            assert(a1[k + (j + 1)] == a2[k + (j + 1)]);
                        }
                        lemma_render_reads_listed_args(fmt, a1, a2, s + 1, k + 1);
                    },
                }
            }
        }
    }
}

/// `printf` reads exactly the arguments `arg_kinds` lists, in order, one per
/// conversion: two argument lists that agree on those print the same.
pub proof fn lemma_printf_reads_listed_args(fmt: Seq<u8>, a1: Seq<PrintfArg>, a2: Seq<PrintfArg>)
    requires
        forall|j: int| 0 <= j < arg_kinds(fmt).len() ==> #[trigger] a1[j] == a2[j],
    ensures
        render(fmt, a1) == render(fmt, a2),
{
    assert forall|j: int| 0 <= j < arg_kinds_from(c_str(fmt), 0).len() implies #[trigger] a1[0 + j]
        == a2[0 + j] by {
        assert(a1[j] == a2[j]);
    }
    lemma_render_reads_listed_args(c_str(fmt), a1, a2, 0, 0);
}

// ---- Printing a format in two parts --------------------------------------------------
/// No directive of `fmt` from position `i` on is cut off by the end of the
/// format (a final `%` or `%l` still waiting for its conversion byte).
pub open spec fn directives_complete_from(fmt: Seq<u8>, i: int) -> bool
    decreases fmt.len() - i,
{
    if i >= fmt.len() || i < 0 {
        true
    } else if !is_percent(fmt[i]) {
        directives_complete_from(fmt, i + 1)
    } else {
        spec_pos(fmt, i) < fmt.len() && directives_complete_from(fmt, spec_pos(fmt, i) + 1)
    }
}

proof fn lemma_render_shift(
    f1: Seq<u8>,
    f2: Seq<u8>,
    a1: Seq<PrintfArg>,
    a2: Seq<PrintfArg>,
    j: int,
    m: int,
)
    requires
        0 <= j,
        0 <= m,
        m + arg_kinds_from(f2, j).len() <= a2.len(),
    ensures
        render_from(f1 + f2, a1 + a2, f1.len() + j, a1.len() + m) == render_from(f2, a2, j, m),
        arg_kinds_from(f1 + f2, f1.len() + j) == arg_kinds_from(f2, j),
    decreases f2.len() - j,
{
    let f = f1 + f2;
    let a = a1 + a2;
    let i = f1.len() + j;
    if j < f2.len() {
        assert(f[i] == f2[j]);
        if !is_percent(f2[j]) {
            lemma_render_shift(f1, f2, a1, a2, j + 1, m);
        } else {
            if j + 1 < f2.len() {
                assert(f[i + 1] == f2[j + 1]);
            }
            assert(long_at(f, i) == long_at(f2, j));
            let s = spec_pos(f2, j);
            assert(spec_pos(f, i) == f1.len() + s);
            if s >= f2.len() {
                assert(f.subrange(i, f.len() as int) =~= f2.subrange(j, f2.len() as int));
            } else {
                assert(f[f1.len() + s] == f2[s]);
                assert(f.subrange(i, f1.len() + s + 1) =~= f2.subrange(j, s + 1));
                match conversion_of(long_at(f2, j), f2[s]) {
                    Some(c) => match arg_kind_of(c) {
                        Some(kd) => {
                            assert(arg_kinds_from(f2, j) == seq![kd] + arg_kinds_from(f2, s + 1));
                            lemma_render_shift(f1, f2, a1, a2, s + 1, m + 1);
                            assert(a[a1.len() + m] == a2[m]);
                            assert(a1.len() + m + 1 == a1.len() + (m + 1));
                        },
                        None => lemma_render_shift(f1, f2, a1, a2, s + 1, m),
                    },
                    None => lemma_render_shift(f1, f2, a1, a2, s + 1, m),
                }
            }
        }
    }
}

proof fn lemma_render_prefix(
    f1: Seq<u8>,
    f2: Seq<u8>,
    a1: Seq<PrintfArg>,
    a2: Seq<PrintfArg>,
    i: int,
    k: int,
)
    requires
        0 <= i <= f1.len(),
        0 <= k,
        directives_complete_from(f1, i),
        k + arg_kinds_from(f1, i).len() == a1.len(),
    ensures
        render_from(f1 + f2, a1 + a2, i, k) == render_from(f1, a1, i, k) + render_from(
            f1 + f2,
            a1 + a2,
            f1.len() as int,
            a1.len() as int,
        ),
        arg_kinds_from(f1 + f2, i) == arg_kinds_from(f1, i) + arg_kinds_from(
            f1 + f2,
            f1.len() as int,
        ),
    decreases f1.len() - i,
{
    let f = f1 + f2;
    let a = a1 + a2;
    if i == f1.len() {
        assert(render_from(f1, a1, i, k) =~= Seq::<u8>::empty());
        assert(arg_kinds_from(f1, i) =~= Seq::<ArgKind>::empty());
        assert(render_from(f, a, i, k) =~= Seq::<u8>::empty() + render_from(f, a, i, k));
        assert(arg_kinds_from(f, i) =~= Seq::<ArgKind>::empty() + arg_kinds_from(f, i));
    } else {
        assert(f[i] == f1[i]);
        if !is_percent(f1[i]) {
            lemma_render_prefix(f1, f2, a1, a2, i + 1, k);
            assert(render_from(f, a, i, k) =~= seq![f1[i]] + render_from(f, a, i + 1, k));
        } else {
            let s = spec_pos(f1, i);
            if i + 1 < f1.len() {
                assert(f[i + 1] == f1[i + 1]);
            }
            assert(long_at(f, i) == long_at(f1, i));
            assert(spec_pos(f, i) == s);
            assert(f[s] == f1[s]);
            assert(f.subrange(i, s + 1) =~= f1.subrange(i, s + 1));
            match conversion_of(long_at(f1, i), f1[s]) {
                Some(c) => {
                    match arg_kind_of(c) {
                        Some(kd) => {
                            assert(arg_kinds_from(f1, i) == seq![kd] + arg_kinds_from(f1, s + 1));
                            assert(a[k] == a1[k]);
                            lemma_render_prefix(f1, f2, a1, a2, s + 1, k + 1);
                            assert(render_from(f, a, i, k) =~= render_arg(c, a1[k]) + render_from(
                                f,
                                a,
                                s + 1,
                                k + 1,
                            ));
                        },
                        None => {
                            lemma_render_prefix(f1, f2, a1, a2, s + 1, k);
                        },
                    }
                },
                None => {
                    lemma_render_prefix(f1, f2, a1, a2, s + 1, k);
                },
            }
        }
    }
}

/// Printing two formats joined, with the arguments of each in turn, prints
/// what the two print one after the other, and returns their counts added
/// with saturation; this holds when the formats hold no NUL, the first ends
/// with no cut-off directive, and it gets exactly the arguments it reads.
pub proof fn lemma_printf_concatenation(
    f1: Seq<u8>,
    f2: Seq<u8>,
    a1: Seq<PrintfArg>,
    a2: Seq<PrintfArg>,
)
    requires
        forall|j: int| 0 <= j < f1.len() ==> #[trigger] f1[j] != 0,
        forall|j: int| 0 <= j < f2.len() ==> #[trigger] f2[j] != 0,
        directives_complete_from(f1, 0),
        a1.len() == arg_kinds(f1).len(),
        a2.len() == arg_kinds(f2).len(),
    ensures
        render(f1 + f2, a1 + a2) == render(f1, a1) + render(f2, a2),
        arg_kinds(f1 + f2) == arg_kinds(f1) + arg_kinds(f2),
        saturated_count(render(f1 + f2, a1 + a2).len()) == saturated_count(
            (saturated_count(render(f1, a1).len()) + saturated_count(render(f2, a2).len())) as nat,
        ),
{
    let f = f1 + f2;
    assert forall|j: int| 0 <= j < f.len() implies #[trigger] f[j] != 0 by {
        if j < f1.len() {
            assert(f[j] == f1[j]);
        } else {
            assert(f[j] == f2[j - f1.len()]);
        }
    }
    lemma_c_str(f);
    lemma_c_str(f1);
    lemma_c_str(f2);
    lemma_render_prefix(f1, f2, a1, a2, 0, 0);
    lemma_render_shift(f1, f2, a1, a2, 0, 0);
}

} // verus!
