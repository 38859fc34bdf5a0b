//! What the PL011 UART and its GPIO pins are told: the bytes a string sends,
//! and the GPIO function-select word that routes the UART to pins 14–16.
use vstd::prelude::*;

use crate::cstr::{c_str, c_string_bytes};

verus! {

/// Appends to `out`, the transmitted bytes, each byte of the C string held
/// in `s` (its bytes before the first NUL), in order.
pub fn uart_send_string(s: &[u8], out: &mut Vec<u8>)
    ensures
        final(out)@ == old(out)@ + c_str(s@),
{
    let ghost out0 = out@;
    let bytes = c_string_bytes(s);
    let len = bytes.len();
    let mut i: usize = 0;
    while i < len
        invariant
            len == bytes@.len(),
            i <= len,
            out@ == out0 + bytes@.take(i as int),
        decreases len - i,
    {
        out.push(bytes[i]);
        assert(bytes@.take(i + 1) =~= bytes@.take(i as int).push(bytes@[i as int]));
        i = i + 1;
    }
    assert(bytes@.take(len as int) =~= bytes@);
}

/// The 3-bit function-select field of GPIO pin `pin` (0–9 within its
/// GPFSELn register) in `word`.
pub open spec fn pin_function(word: u32, pin: u32) -> u32 {
    (word >> (3 * pin)) & 7
}

/// ALT0 in a function-select field.
pub const GPIO_ALT0: u32 = 0b100;

/// ALT3 in a function-select field.
pub const GPIO_ALT3: u32 = 0b111;

/// The GPFSEL1 word that routes the PL011 UART to its pins, from the word
/// `selector` read from the register: pin 14 to ALT0 (TXD0), pin 15 to ALT0
/// (RXD0), pin 16 to ALT3 (CTS0); the fields of the other pins of GPFSEL1
/// (10–13, 17–19) and the reserved bits keep their value.
pub fn uart_pin_functions(selector: u32) -> (word: u32)
    ensures
        pin_function(word, 4) == GPIO_ALT0,
        pin_function(word, 5) == GPIO_ALT0,
        pin_function(word, 6) == GPIO_ALT3,
        word & !0x1ff000u32 == selector & !0x1ff000u32,
{
    let mut word = selector;
    word = word & !(0b111u32 << 12);
    word = word | (GPIO_ALT0 << 12);
    word = word & !(0b111u32 << 15);
    word = word | (GPIO_ALT0 << 15);
    word = word & !(0b111u32 << 18);
    word = word | (GPIO_ALT3 << 18);
    assert(((((((selector & !(0b111u32 << 12)) | (4u32 << 12)) & !(0b111u32 << 15)) | (4u32 << 15))
        & !(0b111u32 << 18)) | (7u32 << 18)) == (selector & !0x1ff000u32) | 0x1e4000u32)
        by (bit_vector);
    assert(((((selector & !0x1ff000u32) | 0x1e4000u32) >> 12u32) & 7u32) == 4u32) by (bit_vector);
    assert(((((selector & !0x1ff000u32) | 0x1e4000u32) >> 15u32) & 7u32) == 4u32) by (bit_vector);
    assert(((((selector & !0x1ff000u32) | 0x1e4000u32) >> 18u32) & 7u32) == 7u32) by (bit_vector);
    assert((((selector & !0x1ff000u32) | 0x1e4000u32) & !0x1ff000u32) == selector & !0x1ff000u32)
        by (bit_vector);
    word
}

} // verus!
