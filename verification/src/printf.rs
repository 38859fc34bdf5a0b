//! The kernel's `printf` formatter: turns a format string and its arguments
//! into the bytes the UART transmits, appended to `out`, and returns the
//! count `printf` reports.
use vstd::prelude::*;

use crate::cstr::{c_str, c_string_bytes};

use crate::printf_spec::{
    lemma_args_supply_advance, lemma_render_directive, lemma_render_plain,
    arg_kind_of, arg_kinds, arg_kinds_from, args_supply, conversion_of, digit_char, digits, kind_of,
    long_at, padded_len, render, render_arg, render_from, saturated_count, signed_decimal,
    spec_pos, ArgKind, Conversion, PrintfArg,
};

verus! {

/// `10^k`.
pub open spec fn pow10(k: nat) -> nat
    decreases k,
{
    if k == 0 {
        1
    } else {
        10 * pow10((k - 1) as nat)
    }
}

/// A number below `10^k` has at most `k` digits in any base from 10 up.
pub proof fn lemma_digits_len_bound(n: nat, radix: nat, k: nat)
    requires
        radix >= 10,
        k >= 1,
        n < pow10(k),
    ensures
        digits(n, radix).len() <= k,
    decreases n,
{
    if n >= radix {
        let p = pow10((k - 1) as nat);
        assert(k >= 2) by {
            if k == 1 {
                assert(pow10(1) == 10) by {
                    reveal_with_fuel(pow10, 2);
                }
            }
        }
        assert(n / radix < p) by (nonlinear_arith)
            requires
                n < 10 * p,
                radix >= 10,
        {
            assert(n / radix * radix <= n);
            assert(n / radix * 10 <= n / radix * radix);
        }
        assert(n / radix < n) by (nonlinear_arith)
            requires
                radix >= 2,
                n >= radix,
        ;
        lemma_digits_len_bound(n / radix, radix, (k - 1) as nat);
    }
}

/// A `u64` has at most 20 digits in any base from 10 up.
pub proof fn lemma_u64_digits_len(n: u64, radix: nat)
    requires
        radix >= 10,
    ensures
        digits(n as nat, radix).len() <= 20,
{
    assert(pow10(20) == 100_000_000_000_000_000_000) by {
        reveal_with_fuel(pow10, 21);
    }
    lemma_digits_len_bound(n as nat, radix, 20);
}

/// Appends `bytes`; returns their count, saturating at `i32::MAX`.
pub fn send_bytes(bytes: &[u8], out: &mut Vec<u8>) -> (n: i32)
    ensures
        final(out)@ == old(out)@ + bytes@,
        n == saturated_count(bytes@.len()),
        bytes@.len() <= i32::MAX ==> n == bytes@.len(),
        bytes@.len() > i32::MAX ==> n == i32::MAX,
{
    let ghost out0 = out@;
    let len = bytes.len();
    let mut i: usize = 0;
    while i < len
        invariant
            len == bytes@.len(),
            i <= len,
            out@ == out0 + bytes@.take(i as int),
        decreases len - i,
    {
        out.push(bytes[i]);
        assert(bytes@.take(i + 1) =~= bytes@.take(i as int).push(bytes@[i as int]));
        i = i + 1;
    }
    assert(bytes@.take(len as int) =~= bytes@);
    if len > i32::MAX as usize {
        i32::MAX
    } else {
        len as i32
    }
}

/// The ASCII digit for `d`.
fn digit_byte(d: u64) -> (c: u8)
    requires
        d < 16,
    ensures
        c == digit_char(d as nat),
{
    if d < 10 {
        0x30 + d as u8
    } else {
        0x61 + (d - 10) as u8
    }
}

/// Appends `number` in base `radix`, zero-padded on the left to `width`
/// digits; returns the number of bytes appended, cast to `i32` (which
/// truncates a count above `i32::MAX`).
pub fn send_number(number: u64, radix: u64, width: usize, out: &mut Vec<u8>) -> (n: i32)
    requires
        2 <= radix <= 16,
        digits(number as nat, radix as nat).len() <= 20,
    ensures
        final(out)@ == old(out)@ + crate::printf_spec::padded_digits(
            number as nat,
            radix as nat,
            width as nat,
        ),
        n == padded_len(number as nat, radix as nat, width as nat) as i32,
{
    let ghost out0 = out@;
    let ghost ds = digits(number as nat, radix as nat);
    let mut rev: Vec<u8> = Vec::new();
    let mut x = number;
    loop
        invariant_except_break
            ds == digits(x as nat, radix as nat) + rev@.reverse(),
        invariant
            2 <= radix <= 16,
            ds == digits(number as nat, radix as nat),
        ensures
            ds == rev@.reverse(),
        decreases x,
    {
        let ghost old_rev = rev@;
        let d = digit_byte(x % radix);
        rev.push(d);
        assert(rev@.reverse() =~= seq![d] + old_rev.reverse());
        if x < radix {
            assert(x % radix == x) by (nonlinear_arith)
                requires
                    x < radix,
            ;
            break;
        }
        x = x / radix;
    }
    let count = rev.len();
    let length = if count > width {
        count
    } else {
        width
    };
    let mut p = count;
    while p < length
        invariant
            count <= p <= length,
            length == if count > width {
                count
            } else {
                width
            },
            out@ == out0 + Seq::new((p - count) as nat, |i: int| 0x30u8),
        decreases length - p,
    {
        out.push(0x30);
        assert(out@ =~= out0 + Seq::new((p + 1 - count) as nat, |i: int| 0x30u8));
        p = p + 1;
    }
    let ghost padded = out@;
    let mut c = count;
    while c > 0
        invariant
            c <= count,
            count == rev@.len(),
            out@ == padded + rev@.reverse().take((count - c) as int),
        decreases c,
    {
        c = c - 1;
        out.push(rev[c]);
        assert(rev@.reverse().take((count - c) as int) =~= rev@.reverse().take(
            (count - c - 1) as int,
        ).push(rev@[c as int]));
    }
    assert(rev@.reverse().take(count as int) =~= rev@.reverse());
    assert(out@ =~= out0 + crate::printf_spec::padded_digits(
        number as nat,
        radix as nat,
        width as nat,
    ));
    #[verifier::truncate]
    (length as i32)
}

/// Appends `number` in decimal, with a leading `-` when negative; returns the
/// number of bytes appended.
pub fn send_signed(number: i64, out: &mut Vec<u8>) -> (n: i32)
    ensures
        final(out)@ == old(out)@ + signed_decimal(number as int),
        n == signed_decimal(number as int).len(),
{
    let magnitude: u64 = if number < 0 {
        (-(number + 1)) as u64 + 1
    } else {
        number as u64
    };
    proof {
        lemma_u64_digits_len(magnitude, 10);
    }
    let ghost out0 = out@;
    let sign = if number < 0 {
        out.push(0x2d);
        1
    } else {
        0
    };
    let digits_sent = send_number(magnitude, 10, 0, out);
    assert(out@ =~= out0 + signed_decimal(number as int));
    sign + digits_sent
}

/// The conversion that `%` (with `l` when `long`) and `spec_byte` name.
fn conversion(long: bool, spec_byte: u8) -> (r: Option<Conversion>)
    ensures
        r == conversion_of(long, spec_byte),
{
    if !long {
        if spec_byte == 0x25 {
            Some(Conversion::Percent)
        } else if spec_byte == 0x63 {
            Some(Conversion::Char)
        } else if spec_byte == 0x73 {
            Some(Conversion::Str)
        } else if spec_byte == 0x64 {
            Some(Conversion::Int)
        } else if spec_byte == 0x75 {
            Some(Conversion::UInt)
        } else if spec_byte == 0x78 {
            Some(Conversion::Hex)
        } else if spec_byte == 0x70 {
            Some(Conversion::Pointer)
        } else {
            None
        }
    } else {
        if spec_byte == 0x64 {
            Some(Conversion::Long)
        } else if spec_byte == 0x75 {
            Some(Conversion::ULong)
        } else if spec_byte == 0x78 {
            Some(Conversion::LongHex)
        } else {
            None
        }
    }
}

/// `a + b` for counts `a` and `b` that saturate at `i32::MAX`.
fn add_counts(a: i32, b: i32) -> (r: i32)
    requires
        0 <= a,
        0 <= b,
    ensures
        r == saturated_count((a + b) as nat),
        a + b <= i32::MAX ==> r == a + b,
        a + b > i32::MAX ==> r == i32::MAX,
{
    match a.checked_add(b) {
        Some(v) => v,
        None => i32::MAX,
    }
}

/// Appends `fmt[start..end]` as it stands; returns its length, saturating.
fn send_range(fmt: &[u8], start: usize, end: usize, out: &mut Vec<u8>) -> (n: i32)
    requires
        start <= end <= fmt@.len(),
    ensures
        final(out)@ == old(out)@ + fmt@.subrange(start as int, end as int),
        n == saturated_count((end - start) as nat),
        end - start <= i32::MAX ==> n == end - start,
        end - start > i32::MAX ==> n == i32::MAX,
{
    let ghost out0 = out@;
    let mut i = start;
    while i < end
        invariant
            start <= i <= end,
            end <= fmt@.len(),
            out@ == out0 + fmt@.subrange(start as int, i as int),
        decreases end - i,
    {
        out.push(fmt[i]);
        assert(fmt@.subrange(start as int, i + 1) =~= fmt@.subrange(start as int, i as int).push(
            fmt@[i as int],
        ));
        i = i + 1;
    }
    if end - start > i32::MAX as usize {
        i32::MAX
    } else {
        (end - start) as i32
    }
}

/// Appends what conversion `c` prints for `arg`; returns the number of bytes
/// appended, saturating.
fn send_conversion(c: Conversion, arg: &PrintfArg, out: &mut Vec<u8>) -> (n: i32)
    requires
        arg_kind_of(c) == Some(kind_of(*arg)),
    ensures
        final(out)@ == old(out)@ + render_arg(c, *arg),
        n == saturated_count(render_arg(c, *arg).len()),
{
    let ghost out0 = out@;
    match (c, arg) {
        (Conversion::Char, PrintfArg::Int(v)) => {
            out.push(*v as u8);
            assert(out@ =~= out0 + render_arg(c, *arg));
            1
        },
        (Conversion::Str, PrintfArg::Str(Some(bytes))) => send_bytes(
            c_string_bytes(bytes.as_slice()),
            out,
        ),
        (Conversion::Str, PrintfArg::Str(None)) => {
            out.push(0x28);
            out.push(0x6e);
            out.push(0x75);
            out.push(0x6c);
            out.push(0x6c);
            out.push(0x29);
            assert(out@ =~= out0 + render_arg(c, *arg));
            6
        },
        (Conversion::Int, PrintfArg::Int(v)) => send_signed(*v as i64, out),
        (Conversion::Long, PrintfArg::Long(v)) => send_signed(*v, out),
        (Conversion::UInt, PrintfArg::UInt(v)) => {
            proof {
                lemma_u64_digits_len(*v as u64, 10);
            }
            send_number(*v as u64, 10, 0, out)
        },
        (Conversion::ULong, PrintfArg::ULong(v)) => {
            proof {
                lemma_u64_digits_len(*v, 10);
            }
            send_number(*v, 10, 0, out)
        },
        (Conversion::Hex, PrintfArg::UInt(v)) => {
            proof {
                lemma_u64_digits_len(*v as u64, 16);
            }
            send_number(*v as u64, 16, 8, out)
        },
        (Conversion::LongHex, PrintfArg::ULong(v)) => {
            proof {
                lemma_u64_digits_len(*v, 16);
            }
            send_number(*v, 16, 16, out)
        },
        (Conversion::Pointer, PrintfArg::Pointer(p)) => {
            proof {
                lemma_u64_digits_len(*p as u64, 16);
            }
            out.push(0x30);
            out.push(0x78);
            let n = send_number(*p as u64, 16, (usize::BITS / 4) as usize, out);
            assert(out@ =~= out0 + render_arg(c, *arg));
            2 + n
        },
        _ => {
            proof {
                assert(false);
            }
            0
        },
    }
}

/// Formats `fmt` with `args` the way the kernel's `printf` does, appending
/// the transmitted bytes to `out`, and returns how many were transmitted
/// (saturating at `i32::MAX`). A null format (`None`) prints nothing and
/// returns 0. `fmt` holds the format as a C string, which ends at its first
/// NUL byte (or at the end of `fmt`); `args` must supply, in order, the kinds of argument its conversions read
/// (as a C caller must), further arguments being ignored.
pub fn vprintf(fmt: Option<&[u8]>, args: &[PrintfArg], out: &mut Vec<u8>) -> (n: i32)
    requires
        fmt matches Some(f) ==> args_supply(args@, 0, arg_kinds(f@)),
    ensures
        match fmt {
            None => final(out)@ == old(out)@ && n == 0,
            Some(f) => final(out)@ == old(out)@ + render(f@, args@) && n == saturated_count(
                render(f@, args@).len(),
            ),
        },
        fmt matches Some(f) ==> (render(f@, args@).len() <= i32::MAX ==> n == render(
            f@,
            args@,
        ).len()),
        fmt matches Some(f) ==> (render(f@, args@).len() > i32::MAX ==> n == i32::MAX),
{
    let f = match fmt {
        None => return 0,
        Some(f) => f,
    };
    let bytes = c_string_bytes(f);
    let ghost out0 = out@;
    let ghost fmt_bytes = bytes@;
    let ghost emitted: Seq<u8> = Seq::empty();
    let len = bytes.len();
    let mut written: i32 = 0;
    let mut index: usize = 0;
    let mut k: usize = 0;
    assert(out@ =~= out0 + emitted);
    while index < len
        invariant
            fmt_bytes == bytes@,
            len == fmt_bytes.len(),
            index <= len,
            out@ == out0 + emitted,
            render(f@, args@) == emitted + render_from(fmt_bytes, args@, index as int, k as int),
            written == saturated_count(emitted.len()),
            args_supply(args@, k as int, arg_kinds_from(fmt_bytes, index as int)),
        decreases len - index,
    {
        let ghost k0 = k as int;
        let ghost i0 = index as int;
        let ghost piece: Seq<u8>;
        if bytes[index] != 0x25 {
            proof {
                lemma_render_plain(fmt_bytes, args@, i0, k0);
                piece = seq![fmt_bytes[i0]];
            }
            out.push(bytes[index]);
            written = add_counts(written, 1);
            index = index + 1;
        } else {
            proof {
                lemma_render_directive(fmt_bytes, args@, i0, k0);
            }
            let start = index;
            index = index + 1;
            let long = index < len && bytes[index] == 0x6c;
            if long {
                index = index + 1;
            }
            assert(long == long_at(fmt_bytes, i0));
            assert(index == spec_pos(fmt_bytes, i0));
            if index >= len {
                proof {
                    piece = fmt_bytes.subrange(i0, index as int);
                }
                let e = send_range(bytes, start, index, out);
                written = add_counts(written, e);
            } else {
                let specifier = bytes[index];
                index = index + 1;
                let e = match conversion(long, specifier) {
                    None => {
                        proof {
                            piece = fmt_bytes.subrange(i0, index as int);
                        }
                        send_range(bytes, start, index, out)
                    },
                    Some(Conversion::Percent) => {
                        proof {
                            piece = seq![0x25u8];
                        }
                        out.push(0x25);
                        1
                    },
                    Some(c) => {
                        proof {
                            piece = render_arg(c, args@[k0]);
                            lemma_args_supply_advance(
                                args@,
                                k0,
                                arg_kind_of(c)->0,
                                arg_kinds_from(fmt_bytes, index as int),
                            );
                        }
                        let e = send_conversion(c, &args[k], out);
                        k = k + 1;
                        e
                    },
                };
                written = add_counts(written, e);
            }
        }
        proof {
            assert(render(f@, args@) =~= (emitted + piece) + render_from(
                fmt_bytes,
                args@,
                index as int,
                k as int,
            ));
            emitted = emitted + piece;
            assert(out@ =~= out0 + emitted);
        }
    }
    assert(render_from(fmt_bytes, args@, len as int, k as int) =~= Seq::<u8>::empty());
    assert(emitted =~= render(f@, args@));
    written
}

/// The kinds of argument the conversions of `fmt` read, in order: what a
/// caller holding a C variadic list must take from it before formatting.
pub fn printf_arg_kinds(format: &[u8]) -> (r: Vec<ArgKind>)
    ensures
        r@ == arg_kinds(format@),
{
    let fmt = c_string_bytes(format);
    let ghost args = Seq::<PrintfArg>::empty();
    let len = fmt.len();
    let mut kinds: Vec<ArgKind> = Vec::new();
    let mut index: usize = 0;
    while index < len
        invariant
            len == fmt@.len(),
            index <= len,
            fmt@ == c_str(format@),
            arg_kinds(format@) == kinds@ + arg_kinds_from(fmt@, index as int),
        decreases len - index,
    {
        let ghost i0 = index as int;
        let ghost before = kinds@;
        if fmt[index] != 0x25 {
            proof {
                lemma_render_plain(fmt@, args, i0, 0);
            }
            index = index + 1;
        } else {
            proof {
                lemma_render_directive(fmt@, args, i0, 0);
            }
            index = index + 1;
            let long = index < len && fmt[index] == 0x6c;
            if long {
                index = index + 1;
            }
            assert(long == long_at(fmt@, i0));
            if index < len {
                let specifier = fmt[index];
                index = index + 1;
                match conversion(long, specifier) {
                    Some(Conversion::Percent) | None => {},
                    Some(c) => {
                        let kind = conversion_arg_kind(c);
                        kinds.push(kind);
                    },
                }
            }
        }
        assert(arg_kinds(format@) =~= kinds@ + arg_kinds_from(fmt@, index as int));
    }
    assert(kinds@ + arg_kinds_from(fmt@, len as int) =~= kinds@);
    kinds
}

/// The argument kind a conversion other than `%%` reads.
fn conversion_arg_kind(c: Conversion) -> (k: ArgKind)
    requires
        c != Conversion::Percent,
    ensures
        arg_kind_of(c) == Some(k),
{
    match c {
        Conversion::Char | Conversion::Int => ArgKind::Int,
        Conversion::Str => ArgKind::Str,
        Conversion::Long => ArgKind::Long,
        Conversion::UInt | Conversion::Hex => ArgKind::UInt,
        Conversion::ULong | Conversion::LongHex => ArgKind::ULong,
        Conversion::Pointer => ArgKind::Pointer,
        Conversion::Percent => ArgKind::Int,
    }
}

} // verus!
