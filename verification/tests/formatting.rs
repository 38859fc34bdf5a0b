// Tests of the kernel printf formatter: what the UART transmits for a format
// and its arguments, and the count printf returns.

use ferros::printf::{printf_arg_kinds, send_number, send_signed, vprintf};
use ferros::printf_spec::{ArgKind, PrintfArg};

fn run(fmt: &[u8], args: &[PrintfArg]) -> (Vec<u8>, i32) {
    let mut out = Vec::new();
    let count = vprintf(Some(fmt), args, &mut out);
    (out, count)
}

fn check(expected: &[u8], fmt: &[u8], args: &[PrintfArg]) {
    let (out, count) = run(fmt, args);
    assert_eq!(out.as_slice(), expected);
    assert_eq!(count as usize, out.len());
}

fn s(text: &[u8]) -> PrintfArg {
    PrintfArg::Str(Some(text.to_vec()))
}

#[test]
fn printf_formatting() {
    assert_eq!(run(b"plain %% text\r\n", &[]).0, b"plain % text\r\n");

    assert_eq!(
        run(
            b"%d %d %d %u",
            &[
                PrintfArg::Int(0),
                PrintfArg::Int(-1),
                PrintfArg::Int(i32::MIN),
                PrintfArg::UInt(u32::MAX)
            ]
        )
        .0,
        b"0 -1 -2147483648 4294967295"
    );

    assert_eq!(
        String::from_utf8(
            run(
                b"%ld %ld %lu",
                &[
                    PrintfArg::Long(i64::MIN),
                    PrintfArg::Long(i64::MAX),
                    PrintfArg::ULong(u64::MAX)
                ]
            )
            .0
        )
        .unwrap(),
        format!("{} {} {}", i64::MIN, i64::MAX, u64::MAX)
    );

    assert_eq!(
        run(b"%c %s", &[PrintfArg::Int(b'A' as i32), s(b"hello")]).0,
        b"A hello"
    );

    assert_eq!(
        run(b"%x %lx", &[PrintfArg::UInt(0x12), PrintfArg::ULong(0x34)]).0,
        b"00000012 0000000000000034"
    );

    let bytes = run(b"%p", &[PrintfArg::Pointer(0x1234)]).0;
    let text = std::str::from_utf8(&bytes).unwrap();
    let digits = text
        .strip_prefix("0x")
        .or_else(|| text.strip_prefix("0X"))
        .unwrap_or(text);
    assert_eq!(u64::from_str_radix(digits, 16).unwrap(), 0x1234);

    let ten: Vec<PrintfArg> = (1..=10).map(PrintfArg::Int).collect();
    assert_eq!(
        run(b"%d,%d,%d,%d,%d,%d,%d,%d,%d,%d", &ten).0,
        b"1,2,3,4,5,6,7,8,9,10"
    );

    // vprintf bridge: arguments forward as given.
    assert_eq!(
        run(b"%d %s", &[PrintfArg::Int(-42), s(b"forwarded")]).0,
        b"-42 forwarded"
    );

    // Malformed formats: only require that the call returns.
    for fmt in [&b"%"[..], b"%l", b"%q"] {
        run(fmt, &[]);
    }

    check(b"", b"", &[]);
    let mut out = Vec::new();
    assert_eq!(vprintf(None, &[], &mut out), 0);
    assert!(out.is_empty());
    check(b"plain % text\r\n", b"plain %% text\r\n", &[]);
    check(b"\n\r\n", b"\n\r\n", &[]);
    check(b"A\0B", b"A%cB", &[PrintfArg::Int(0)]);
    check(
        b"[] hello (null)",
        b"[%s] %s %s",
        &[s(b""), s(b"hello"), PrintfArg::Str(None)],
    );
    check(b"100% %d\n", b"%s", &[s(b"100% %d\n")]);
    check(
        b"0 9 10 123 4294967295",
        b"%u %u %u %u %u",
        &[
            PrintfArg::UInt(0),
            PrintfArg::UInt(9),
            PrintfArg::UInt(10),
            PrintfArg::UInt(123),
            PrintfArg::UInt(u32::MAX),
        ],
    );
    check(
        b"-2147483648 -1 0 2147483647",
        b"%d %d %d %d",
        &[
            PrintfArg::Int(i32::MIN),
            PrintfArg::Int(-1),
            PrintfArg::Int(0),
            PrintfArg::Int(i32::MAX),
        ],
    );
    let long_expected = format!("{} {} 0 0 {}", i64::MIN, i64::MAX, u64::MAX);
    check(
        long_expected.as_bytes(),
        b"%ld %ld %ld %lu %lu",
        &[
            PrintfArg::Long(i64::MIN),
            PrintfArg::Long(i64::MAX),
            PrintfArg::Long(0),
            PrintfArg::ULong(0),
            PrintfArg::ULong(u64::MAX),
        ],
    );
    check(
        b"00000000 000000ab ffffffff 0000000000000000",
        b"%x %x %x %lx",
        &[
            PrintfArg::UInt(0),
            PrintfArg::UInt(0xab),
            PrintfArg::UInt(u32::MAX),
            PrintfArg::ULong(0),
        ],
    );
    let hex_expected = format!("{:016x}", u64::MAX);
    check(hex_expected.as_bytes(), b"%lx", &[PrintfArg::ULong(u64::MAX)]);
    let pointer_expected = format!(
        "0x{:0width$x} 0x{:0width$x}",
        0usize,
        usize::MAX,
        width = core::mem::size_of::<usize>() * 2
    );
    check(
        pointer_expected.as_bytes(),
        b"%p %p",
        &[PrintfArg::Pointer(0), PrintfArg::Pointer(usize::MAX)],
    );
    for fmt in [
        &b"%"[..],
        b"%l",
        b"%q",
        b"%ls",
        b"%ll",
        b"%l%",
        b"abc%",
        b"abc%l",
    ] {
        check(fmt, fmt, &[]);
    }
    check(
        b"%q:7 %ls:8 %ll:9",
        b"%q:%u %ls:%u %ll:%u",
        &[PrintfArg::UInt(7), PrintfArg::UInt(8), PrintfArg::UInt(9)],
    );
    check(b"%A%", b"%%%c%%", &[PrintfArg::Int(b'A' as i32)]);
    check(
        b"-42 forwarded",
        b"%d %s",
        &[PrintfArg::Int(-42), s(b"forwarded")],
    );
    let mixed_expected = format!(
        "-1 2 -3 4 000000ab 00000000000000cd Z ok 0x{:0width$x} % 9",
        0x1234usize,
        width = core::mem::size_of::<usize>() * 2
    );
    check(
        mixed_expected.as_bytes(),
        b"%d %u %ld %lu %x %lx %c %s %p %% %d",
        &[
            PrintfArg::Int(-1),
            PrintfArg::UInt(2),
            PrintfArg::Long(-3),
            PrintfArg::ULong(4),
            PrintfArg::UInt(0xab),
            PrintfArg::ULong(0xcd),
            PrintfArg::Int(b'Z' as i32),
            s(b"ok"),
            PrintfArg::Pointer(0x1234),
            PrintfArg::Int(9),
        ],
    );
}

#[test]
fn arg_kinds_follow_the_conversions() {
    assert_eq!(
        printf_arg_kinds(b"%d %u %ld %lu %x %lx %c %s %p %% %q %ls"),
        vec![
            ArgKind::Int,
            ArgKind::UInt,
            ArgKind::Long,
            ArgKind::ULong,
            ArgKind::UInt,
            ArgKind::ULong,
            ArgKind::Int,
            ArgKind::Str,
            ArgKind::Pointer,
        ]
    );
    assert_eq!(printf_arg_kinds(b"no conversions here %"), vec![]);
}

#[test]
fn plain_text_prints_itself() {
    let text = b"squares:\t1\t1\t1\r\n";
    check(text, text, &[PrintfArg::Int(5)]);
}

#[test]
fn numbers_pad_to_width() {
    let mut out = Vec::new();
    assert_eq!(send_number(0xbeef, 16, 8, &mut out), 8);
    assert_eq!(out, b"0000beef");
    let mut out = Vec::new();
    assert_eq!(send_number(123456, 10, 3, &mut out), 6);
    assert_eq!(out, b"123456");
    let mut out = Vec::new();
    assert_eq!(send_number(0, 10, 0, &mut out), 1);
    assert_eq!(out, b"0");
    let mut out = Vec::new();
    assert_eq!(send_number(u64::MAX, 10, 0, &mut out), 20);
    assert_eq!(out, b"18446744073709551615");
}

#[test]
fn signed_numbers_carry_their_sign() {
    let mut out = b"x=".to_vec();
    assert_eq!(send_signed(i64::MIN, &mut out), 20);
    assert_eq!(out, b"x=-9223372036854775808");
    let mut out = Vec::new();
    assert_eq!(send_signed(7, &mut out), 1);
    assert_eq!(out, b"7");
}

#[test]
fn output_appends_to_what_was_sent() {
    let mut out = b"boot: ".to_vec();
    let count = vprintf(Some(b"%u%%\r\n"), &[PrintfArg::UInt(42)], &mut out);
    assert_eq!(out, b"boot: 42%\r\n");
    assert_eq!(count, 5);
}

#[test]
fn printed_numbers_read_back() {
    for &n in &[0u64, 7, 10, 255, 4096, 0xdead_beef, u64::MAX] {
        let mut dec = Vec::new();
        send_number(n, 10, 0, &mut dec);
        assert_eq!(std::str::from_utf8(&dec).unwrap().parse::<u64>().unwrap(), n);
        let mut hex = Vec::new();
        send_number(n, 16, 16, &mut hex);
        assert_eq!(u64::from_str_radix(std::str::from_utf8(&hex).unwrap(), 16).unwrap(), n);
    }
}

#[test]
fn strings_end_at_their_nul() {
    check(b"ab", b"ab\0%d", &[]);
    check(b"[x]", b"[%s]", &[s(b"x\0yz")]);
    assert_eq!(printf_arg_kinds(b"%d\0%s"), vec![ArgKind::Int]);
}

#[test]
fn wide_padding_counts_every_byte() {
    let mut out = Vec::new();
    assert_eq!(send_number(5, 10, 100, &mut out), 100);
    assert_eq!(out.len(), 100);
    assert!(out[..99].iter().all(|&b| b == b'0'));
    assert_eq!(out[99], b'5');
}

#[test]
fn joined_formats_print_in_turn() {
    let (whole, n) = run(b"%d-%s|%x", &[PrintfArg::Int(-7), s(b"ab"), PrintfArg::UInt(255)]);
    let (first, n1) = run(b"%d-%s", &[PrintfArg::Int(-7), s(b"ab")]);
    let (second, n2) = run(b"|%x", &[PrintfArg::UInt(255)]);
    assert_eq!(whole, [first, second].concat());
    assert_eq!(n, n1 + n2);
    assert_eq!(whole, b"-7-ab|000000ff");
}
