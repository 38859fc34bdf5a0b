// Tests of what the UART is told: string transmission and the GPIO
// function-select word for the UART pins.

use ferros::uart::{uart_pin_functions, uart_send_string};

#[test]
fn sends_string_bytes_in_order() {
    let mut out = b">".to_vec();
    uart_send_string(b"Hello world from FerrOS!\r\n", &mut out);
    assert_eq!(out, b">Hello world from FerrOS!\r\n");
    uart_send_string(b"", &mut out);
    assert_eq!(out, b">Hello world from FerrOS!\r\n");
    uart_send_string(b"ok\0ignored", &mut out);
    assert_eq!(out, b">Hello world from FerrOS!\r\nok");
}

#[test]
fn routes_uart_pins_and_keeps_other_fields() {
    // All-zero register: pins 14 and 15 to ALT0, pin 16 to ALT3.
    assert_eq!(uart_pin_functions(0), (0b100 << 12) | (0b100 << 15) | (0b111 << 18));
    // All-ones register: only the three fields change.
    let word = uart_pin_functions(u32::MAX);
    assert_eq!((word >> 12) & 7, 0b100);
    assert_eq!((word >> 15) & 7, 0b100);
    assert_eq!((word >> 18) & 7, 0b111);
    assert_eq!(word & !0x1ff000, u32::MAX & !0x1ff000);
    // Other pins' settings survive.
    let other = 0b001 << 3 | 0b010 << 27;
    assert_eq!(uart_pin_functions(other) & !0x1ff000, other);
}
