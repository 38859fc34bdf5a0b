//! What the kernel's `printf` prints: the bytes a format string and its
//! arguments turn into, and the kinds of argument each conversion takes.
use vstd::prelude::*;

use crate::cstr::c_str;

verus! {

/// One variadic argument, as the conversion that consumes it reads it.
#[derive(Debug)]
pub enum PrintfArg {
    /// A `c_int`: `%d` and `%c`.
    Int(i32),
    /// A `c_uint`: `%u` and `%x`.
    UInt(u32),
    /// A `c_long`: `%ld`.
    Long(i64),
    /// A `c_ulong`: `%lu` and `%lx`.
    ULong(u64),
    /// A C string (its bytes up to the first NUL count), or `None` for a
    /// null pointer. `%s`.
    Str(Option<Vec<u8>>),
    /// A pointer's address: `%p`.
    Pointer(usize),
}

/// The kind of argument a conversion consumes.
#[derive(Debug, Clone, Copy, PartialEq, Eq, Structural)]
pub enum ArgKind {
    Int,
    UInt,
    Long,
    ULong,
    Str,
    Pointer,
}

/// A recognised conversion specification.
#[derive(Debug, Clone, Copy, PartialEq, Eq, Structural)]
pub enum Conversion {
    /// `%%`
    Percent,
    /// `%c`
    Char,
    /// `%s`
    Str,
    /// `%d`
    Int,
    /// `%ld`
    Long,
    /// `%u`
    UInt,
    /// `%lu`
    ULong,
    /// `%x`, zero-padded to 8 digits
    Hex,
    /// `%lx`, zero-padded to 16 digits
    LongHex,
    /// `%p`, `0x` and the address zero-padded to two digits per byte
    Pointer,
}

/// The conversion that `%` (with `l` when `long`) and `spec_byte` name.
pub open spec fn conversion_of(long: bool, spec_byte: u8) -> Option<Conversion> {
    if !long {
        if spec_byte == 0x25 {
            Some(Conversion::Percent)
        } else if spec_byte == 0x63 {
            Some(Conversion::Char)
        } else if spec_byte == 0x73 {
            Some(Conversion::Str)
        } else if spec_byte == 0x64 {
            Some(Conversion::Int)
        } else if spec_byte == 0x75 {
            Some(Conversion::UInt)
        } else if spec_byte == 0x78 {
            Some(Conversion::Hex)
        } else if spec_byte == 0x70 {
            Some(Conversion::Pointer)
        } else {
            None
        }
    } else {
        if spec_byte == 0x64 {
            Some(Conversion::Long)
        } else if spec_byte == 0x75 {
            Some(Conversion::ULong)
        } else if spec_byte == 0x78 {
            Some(Conversion::LongHex)
        } else {
            None
        }
    }
}

/// The argument a conversion consumes; `%%` consumes none.
pub open spec fn arg_kind_of(c: Conversion) -> Option<ArgKind> {
    match c {
        Conversion::Percent => None,
        Conversion::Char => Some(ArgKind::Int),
        Conversion::Str => Some(ArgKind::Str),
        Conversion::Int => Some(ArgKind::Int),
        Conversion::Long => Some(ArgKind::Long),
        Conversion::UInt => Some(ArgKind::UInt),
        Conversion::ULong => Some(ArgKind::ULong),
        Conversion::Hex => Some(ArgKind::UInt),
        Conversion::LongHex => Some(ArgKind::ULong),
        Conversion::Pointer => Some(ArgKind::Pointer),
    }
}

pub open spec fn kind_of(a: PrintfArg) -> ArgKind {
    match a {
        PrintfArg::Int(_) => ArgKind::Int,
        PrintfArg::UInt(_) => ArgKind::UInt,
        PrintfArg::Long(_) => ArgKind::Long,
        PrintfArg::ULong(_) => ArgKind::ULong,
        PrintfArg::Str(_) => ArgKind::Str,
        PrintfArg::Pointer(_) => ArgKind::Pointer,
    }
}

pub open spec fn is_percent(b: u8) -> bool {
    b == 0x25
}

/// `%` at `i` is followed by `l`.
pub open spec fn long_at(fmt: Seq<u8>, i: int) -> bool {
    i + 1 < fmt.len() && fmt[i + 1] == 0x6c
}

/// The position of the conversion byte of the directive starting at `i`.
pub open spec fn spec_pos(fmt: Seq<u8>, i: int) -> int {
    if long_at(fmt, i) {
        i + 2
    } else {
        i + 1
    }
}

/// The argument kinds consumed by the format `fmt` from position `i` on, in
/// order.
pub open spec fn arg_kinds_from(fmt: Seq<u8>, i: int) -> Seq<ArgKind>
    decreases fmt.len() - i,
{
    if i >= fmt.len() || i < 0 {
        Seq::empty()
    } else if !is_percent(fmt[i]) {
        arg_kinds_from(fmt, i + 1)
    } else {
        let s = spec_pos(fmt, i);
        if s >= fmt.len() {
            Seq::empty()
        } else {
            match conversion_of(long_at(fmt, i), fmt[s]) {
                Some(c) => match arg_kind_of(c) {
                    Some(k) => seq![k] + arg_kinds_from(fmt, s + 1),
                    None => arg_kinds_from(fmt, s + 1),
                },
                None => arg_kinds_from(fmt, s + 1),
            }
        }
    }
}

/// The argument kinds the C string format in `fmt` reads, in order.
pub open spec fn arg_kinds(fmt: Seq<u8>) -> Seq<ArgKind> {
    arg_kinds_from(c_str(fmt), 0)
}

/// `args`, from index `k` on, supply the kinds `kinds` in order (further
/// arguments are ignored).
pub open spec fn args_supply(args: Seq<PrintfArg>, k: int, kinds: Seq<ArgKind>) -> bool {
    &&& 0 <= k
    &&& k + kinds.len() <= args.len()
    &&& forall|j: int| 0 <= j < kinds.len() ==> #[trigger] kind_of(args[k + j]) == kinds[j]
}

// ---- Numbers ----------------------------------------------------------------------
/// The ASCII digit for `d` (lower-case letters above 9).
pub open spec fn digit_char(d: nat) -> u8 {
    if d < 10 {
        (0x30 + d) as u8
    } else {
        (0x61 + (d - 10)) as u8
    }
}

/// The digits of `n` in base `radix`, most significant first, without
/// leading zeros (`0` is one digit).
pub open spec fn digits(n: nat, radix: nat) -> Seq<u8>
    decreases n,
{
    if radix < 2 || n < radix {
        seq![digit_char(n)]
    } else {
        proof {
            assert(n / radix < n) by (nonlinear_arith)
                requires
                    radix >= 2,
                    n >= radix,
            ;
        }
        digits(n / radix, radix).push(digit_char(n % radix))
    }
}

/// The value the digit string `s` denotes in base `radix`.
pub open spec fn digits_value(s: Seq<u8>, radix: nat) -> nat
    decreases s.len(),
{
    if s.len() == 0 {
        0
    } else {
        digits_value(s.drop_last(), radix) * radix + digit_value(s.last())
    }
}

/// The value of one ASCII digit.
pub open spec fn digit_value(c: u8) -> nat {
    if 0x30 <= c <= 0x39 {
        (c - 0x30) as nat
    } else if 0x61 <= c <= 0x66 {
        (c - 0x61 + 10) as nat
    } else {
        0
    }
}

/// `n` in base `radix`, with leading zeros up to `width` digits.
pub open spec fn padded_digits(n: nat, radix: nat, width: nat) -> Seq<u8> {
    let ds = digits(n, radix);
    let pad: nat = if width > ds.len() {
        (width - ds.len()) as nat
    } else {
        0
    };
    Seq::new(pad, |i: int| 0x30u8) + ds
}

/// The length of `padded_digits`.
pub open spec fn padded_len(n: nat, radix: nat, width: nat) -> nat {
    if digits(n, radix).len() >= width {
        digits(n, radix).len()
    } else {
        width
    }
}

/// `v` in decimal, with a leading `-` when negative.
pub open spec fn signed_decimal(v: int) -> Seq<u8> {
    if v < 0 {
        seq![0x2du8] + digits((-v) as nat, 10)
    } else {
        digits(v as nat, 10)
    }
}

/// Two hex digits per byte of an address.
pub open spec fn pointer_width() -> nat {
    (usize::BITS / 4) as nat
}

pub open spec fn null_text() -> Seq<u8> {
    seq![0x28u8, 0x6e, 0x75, 0x6c, 0x6c, 0x29]
}

/// What conversion `c` prints for argument `a` of the matching kind.
pub open spec fn render_arg(c: Conversion, a: PrintfArg) -> Seq<u8> {
    match (c, a) {
        (Conversion::Char, PrintfArg::Int(v)) => seq![v as u8],
        (Conversion::Str, PrintfArg::Str(s)) => match s {
            Some(bytes) => c_str(bytes@),
            None => null_text(),
        },
        (Conversion::Int, PrintfArg::Int(v)) => signed_decimal(v as int),
        (Conversion::Long, PrintfArg::Long(v)) => signed_decimal(v as int),
        (Conversion::UInt, PrintfArg::UInt(v)) => digits(v as nat, 10),
        (Conversion::ULong, PrintfArg::ULong(v)) => digits(v as nat, 10),
        (Conversion::Hex, PrintfArg::UInt(v)) => padded_digits(v as nat, 16, 8),
        (Conversion::LongHex, PrintfArg::ULong(v)) => padded_digits(v as nat, 16, 16),
        (Conversion::Pointer, PrintfArg::Pointer(p)) => seq![0x30u8, 0x78] + padded_digits(
            p as nat,
            16,
            pointer_width(),
        ),
        _ => Seq::empty(),
    }
}

/// The bytes the format `fmt` prints from position `i` on, its arguments
/// being taken from `args[k..]`: ordinary bytes as they are, each recognised
/// conversion as its argument renders, `%%` as `%`, an unknown directive
/// (`%` with an optional `l` and the byte after it) as it stands, and a `%`
/// or `%l` that ends the format as it stands.
pub open spec fn render_from(fmt: Seq<u8>, args: Seq<PrintfArg>, i: int, k: int) -> Seq<u8>
    decreases fmt.len() - i,
{
    if i >= fmt.len() || i < 0 {
        Seq::empty()
    } else if !is_percent(fmt[i]) {
        seq![fmt[i]] + render_from(fmt, args, i + 1, k)
    } else {
        let s = spec_pos(fmt, i);
        if s >= fmt.len() {
            fmt.subrange(i, fmt.len() as int)
        } else {
            match conversion_of(long_at(fmt, i), fmt[s]) {
                None => fmt.subrange(i, s + 1) + render_from(fmt, args, s + 1, k),
                Some(Conversion::Percent) => seq![0x25u8] + render_from(fmt, args, s + 1, k),
                Some(c) => render_arg(c, args[k]) + render_from(fmt, args, s + 1, k + 1),
            }
        }
    }
}

/// What `printf(fmt, args...)` prints for the C string format in `fmt`.
pub open spec fn render(fmt: Seq<u8>, args: Seq<PrintfArg>) -> Seq<u8> {
    render_from(c_str(fmt), args, 0, 0)
}

/// The count `printf` returns for `n` printed bytes: `n`, saturating at
/// `i32::MAX`.
pub open spec fn saturated_count(n: nat) -> i32 {
    if n > i32::MAX {
        i32::MAX
    } else {
        n as i32
    }
}

/// One step of `render_from` and `arg_kinds_from` at an ordinary byte.
pub proof fn lemma_render_plain(fmt: Seq<u8>, args: Seq<PrintfArg>, i: int, k: int)
    requires
        0 <= i < fmt.len(),
        !is_percent(fmt[i]),
    ensures
        render_from(fmt, args, i, k) == seq![fmt[i]] + render_from(fmt, args, i + 1, k),
        arg_kinds_from(fmt, i) == arg_kinds_from(fmt, i + 1),
{
}

/// One step of `render_from` and `arg_kinds_from` at a `%` directive.
pub proof fn lemma_render_directive(fmt: Seq<u8>, args: Seq<PrintfArg>, i: int, k: int)
    requires
        0 <= i < fmt.len(),
        is_percent(fmt[i]),
    ensures
        ({
            let s = spec_pos(fmt, i);
            if s >= fmt.len() {
                &&& render_from(fmt, args, i, k) == fmt.subrange(i, fmt.len() as int)
                &&& arg_kinds_from(fmt, i) == Seq::<ArgKind>::empty()
            } else {
                match conversion_of(long_at(fmt, i), fmt[s]) {
                    None => {
                        &&& render_from(fmt, args, i, k) == fmt.subrange(i, s + 1) + render_from(
                            fmt,
                            args,
                            s + 1,
                            k,
                        )
                        &&& arg_kinds_from(fmt, i) == arg_kinds_from(fmt, s + 1)
                    },
                    Some(Conversion::Percent) => {
                        &&& render_from(fmt, args, i, k) == seq![0x25u8] + render_from(
                            fmt,
                            args,
                            s + 1,
                            k,
                        )
                        &&& arg_kinds_from(fmt, i) == arg_kinds_from(fmt, s + 1)
                    },
                    Some(c) => {
                        &&& render_from(fmt, args, i, k) == render_arg(c, args[k]) + render_from(
                            fmt,
                            args,
                            s + 1,
                            k + 1,
                        )
                        &&& arg_kind_of(c) is Some
                        &&& arg_kinds_from(fmt, i) == seq![arg_kind_of(c)->0] + arg_kinds_from(
                            fmt,
                            s + 1,
                        )
                    },
                }
            }
        }),
{
}

/// Arguments that supply `kind` followed by `rest` from `k` on: `args[k]` is
/// of `kind`, and the arguments from `k + 1` on supply `rest`.
pub proof fn lemma_args_supply_advance(
    args: Seq<PrintfArg>,
    k: int,
    kind: ArgKind,
    rest: Seq<ArgKind>,
)
    requires
        args_supply(args, k, seq![kind] + rest),
    ensures
        kind_of(args[k]) == kind,
        args_supply(args, k + 1, rest),
{
    let all = seq![kind] + rest;
    assert(kind_of(args[k + 0]) == all[0]);
    assert forall|j: int| 0 <= j < rest.len() implies #[trigger] kind_of(args[k + 1 + j])
        == rest[j] by {
        assert(kind_of(args[k + (j + 1)]) == all[j + 1]);
        assert(k + (j + 1) == k + 1 + j);
    }
}

/// Reading a digit back gives the digit's value.
pub proof fn lemma_digit_roundtrip(d: nat)
    requires
        d < 16,
    ensures
        digit_value(digit_char(d)) == d,
{
}

/// The digits `printf` prints for a number read back, in the same base, as
/// that number.
pub proof fn lemma_digits_roundtrip(n: nat, radix: nat)
    requires
        2 <= radix <= 16,
    ensures
        digits_value(digits(n, radix), radix) == n,
    decreases n,
{
    if n < radix {
        lemma_digit_roundtrip(n);
        assert(digits(n, radix).drop_last() =~= Seq::<u8>::empty());
        assert(digits_value(Seq::<u8>::empty(), radix) == 0);
        assert(digits(n, radix) == seq![digit_char(n)]);
        assert(digits_value(digits(n, radix), radix) == 0 * radix + digit_value(digit_char(n)));
        assert(0 * radix == 0);
    } else {
        assert(n / radix < n) by (nonlinear_arith)
            requires
                radix >= 2,
                n >= radix,
        ;
        lemma_digits_roundtrip(n / radix, radix);
        assert(n % radix < radix) by (nonlinear_arith)
            requires
                radix >= 2,
        ;
        lemma_digit_roundtrip(n % radix);
        let ds = digits(n, radix);
        assert(ds.drop_last() =~= digits(n / radix, radix));
        assert(ds.last() == digit_char(n % radix));
        assert(digits_value(ds, radix) == digits_value(digits(n / radix, radix), radix) * radix
            + digit_value(digit_char(n % radix)));
        assert(n == (n / radix) * radix + n % radix) by (nonlinear_arith)
            requires
                radix >= 2,
        ;
        assert(digits_value(ds, radix) == (n / radix) * radix + n % radix);
    }
}

/// A format without `%` prints itself, byte for byte, and reads no
/// argument, whatever the arguments.
pub proof fn lemma_plain_format(fmt: Seq<u8>, args: Seq<PrintfArg>, i: int, k: int)
    requires
        0 <= i <= fmt.len(),
        forall|j: int| 0 <= j < fmt.len() ==> !is_percent(#[trigger] fmt[j]),
    ensures
        render_from(fmt, args, i, k) == fmt.subrange(i, fmt.len() as int),
        arg_kinds_from(fmt, i) == Seq::<ArgKind>::empty(),
    decreases fmt.len() - i,
{
    if i < fmt.len() {
        lemma_plain_format(fmt, args, i + 1, k);
        assert(fmt.subrange(i, fmt.len() as int) =~= seq![fmt[i]] + fmt.subrange(
            i + 1,
            fmt.len() as int,
        ));
    } else {
        assert(fmt.subrange(i, fmt.len() as int) =~= Seq::<u8>::empty());
    }
}

/// `%%` prints a single `%` and reads no argument.
pub proof fn lemma_percent_escape(fmt: Seq<u8>, args: Seq<PrintfArg>, i: int, k: int)
    requires
        0 <= i,
        i + 1 < fmt.len(),
        is_percent(fmt[i]),
        is_percent(fmt[i + 1]),
    ensures
        render_from(fmt, args, i, k) == seq![0x25u8] + render_from(fmt, args, i + 2, k),
        arg_kinds_from(fmt, i) == arg_kinds_from(fmt, i + 2),
{
}

/// A run of ordinary bytes `fmt[i..m)` prints itself and reads no argument.
pub proof fn lemma_plain_run(fmt: Seq<u8>, args: Seq<PrintfArg>, i: int, m: int, k: int)
    requires
        0 <= i <= m <= fmt.len(),
        forall|j: int| i <= j < m ==> !is_percent(#[trigger] fmt[j]),
    ensures
        render_from(fmt, args, i, k) == fmt.subrange(i, m) + render_from(fmt, args, m, k),
        arg_kinds_from(fmt, i) == arg_kinds_from(fmt, m),
    decreases m - i,
{
    if i < m {
        lemma_plain_run(fmt, args, i + 1, m, k);
        assert(fmt.subrange(i, m) =~= seq![fmt[i]] + fmt.subrange(i + 1, m));
    } else {
        assert(fmt.subrange(i, m) =~= Seq::<u8>::empty());
    }
}

/// The count `printf` reports is the number of bytes it printed, up to
/// `i32::MAX`, and `i32::MAX` beyond: saturation happens only there.
pub proof fn lemma_count_is_length(n: nat)
    ensures
        n <= i32::MAX ==> saturated_count(n) == n,
        n > i32::MAX ==> saturated_count(n) == i32::MAX,
        0 <= saturated_count(n),
{
}

} // verus!
