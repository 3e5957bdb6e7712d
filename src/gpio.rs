//! The board's header pins 1 to 16 and the GPIO lines behind them.
//!
//! The pins are wired to the GPIO lines in the order of the vendor's
//! definitions, not in pin order; this module maps between the two and turns
//! pin masks into GPIO masks. Driving the lines is left to the caller.

use vstd::prelude::*;

verus! {

/// The GPIO line wired to header pin `pin` (1 to 16), or -1.
pub open spec fn pin_gpio(pin: int) -> int {
    if pin == 1 {
        9
    } else if pin == 2 {
        5
    } else if pin == 3 {
        8
    } else if pin == 4 {
        0
    } else if pin == 5 {
        7
    } else if pin == 6 {
        1
    } else if pin == 7 {
        6
    } else if pin == 8 {
        10
    } else if pin == 9 {
        11
    } else if pin == 10 {
        12
    } else if pin == 11 {
        13
    } else if pin == 12 {
        14
    } else if pin == 13 {
        15
    } else if pin == 14 {
        2
    } else if pin == 15 {
        3
    } else if pin == 16 {
        4
    } else {
        -1
    }
}

/// The header pin wired to GPIO line `gpio` (0 to 15), or -1.
pub open spec fn gpio_pin(gpio: int) -> int {
    if gpio == 0 {
        4
    } else if gpio == 1 {
        14
    } else if gpio == 2 {
        15
    } else if gpio == 3 {
        16
    } else if gpio == 4 {
        2
    } else if gpio == 5 {
        6
    } else if gpio == 6 {
        5
    } else if gpio == 7 {
        3
    } else if gpio == 8 {
        1
    } else if gpio == 9 {
        8
    } else if gpio == 10 {
        9
    } else if gpio == 11 {
        10
    } else if gpio == 12 {
        11
    } else if gpio == 13 {
        12
    } else if gpio == 14 {
        13
    } else if gpio == 15 {
        7
    } else {
        -1
    }
}

/// Bit `k` of `x` is set.
pub open spec fn bit_set(x: u64, k: u64) -> bool {
    (x >> k) & 1 == 1
}

/// Bit `k` of `x` is set.
pub open spec fn bit16_set(x: u16, k: u16) -> bool {
    (x >> k) & 1 == 1
}

/// Header pin `p` (1 to 16) is selected in `pin_mask`: bit `p - 1` is set.
pub open spec fn pin_selected(pin_mask: u16, p: int) -> bool {
    bit16_set(pin_mask, (p - 1) as u16)
}

/// The header pin whose GPIO line is `gpio`, as `pin_gpio` gives it.
spec fn pin_on_line(gpio: int) -> int {
    if gpio == 0 {
        4
    } else if gpio == 1 {
        6
    } else if gpio == 2 {
        14
    } else if gpio == 3 {
        15
    } else if gpio == 4 {
        16
    } else if gpio == 5 {
        2
    } else if gpio == 6 {
        7
    } else if gpio == 7 {
        5
    } else if gpio == 8 {
        3
    } else if gpio == 9 {
        1
    } else if gpio == 10 {
        8
    } else if gpio == 11 {
        9
    } else if gpio == 12 {
        10
    } else if gpio == 13 {
        11
    } else if gpio == 14 {
        12
    } else if gpio == 15 {
        13
    } else {
        -1
    }
}

/// `pin_gpio` maps pins 1 to 16 one to one onto lines 0 to 15.
proof fn lemma_pin_lines()
    ensures
        forall|p: int| 1 <= p <= 16 ==> 0 <= #[trigger] pin_gpio(p) < 16 && pin_on_line(pin_gpio(p)) == p,
        forall|g: int| 0 <= g < 16 ==> 1 <= #[trigger] pin_on_line(g) <= 16 && pin_gpio(pin_on_line(g)) == g,
{
    assert forall|p: int| 1 <= p <= 16 implies 0 <= #[trigger] pin_gpio(p) < 16 && pin_on_line(pin_gpio(p)) == p by {
        if p == 1 {
            assert(pin_gpio(p) == 9);
        } else if p == 2 {
            assert(pin_gpio(p) == 5);
        } else if p == 3 {
            assert(pin_gpio(p) == 8);
        } else if p == 4 {
            assert(pin_gpio(p) == 0);
        } else if p == 5 {
            assert(pin_gpio(p) == 7);
        } else if p == 6 {
            assert(pin_gpio(p) == 1);
        } else if p == 7 {
            assert(pin_gpio(p) == 6);
        } else if p == 8 {
            assert(pin_gpio(p) == 10);
        } else if p == 9 {
            assert(pin_gpio(p) == 11);
        } else if p == 10 {
            assert(pin_gpio(p) == 12);
        } else if p == 11 {
            assert(pin_gpio(p) == 13);
        } else if p == 12 {
            assert(pin_gpio(p) == 14);
        } else if p == 13 {
            assert(pin_gpio(p) == 15);
        } else if p == 14 {
            assert(pin_gpio(p) == 2);
        } else if p == 15 {
            assert(pin_gpio(p) == 3);
        } else {
            assert(pin_gpio(p) == 4);
        }
    }
    assert forall|g: int| 0 <= g < 16 implies 1 <= #[trigger] pin_on_line(g) <= 16 && pin_gpio(pin_on_line(g)) == g by {
        if g == 0 {} else if g == 1 {} else if g == 2 {} else if g == 3 {} else if g == 4 {} else if g == 5 {} else if g == 6 {} else if g == 7 {} else if g == 8 {} else if g == 9 {} else if g == 10 {} else if g == 11 {} else if g == 12 {} else if g == 13 {} else if g == 14 {} else {}
    }
}

proof fn lemma_bit_or(m: u64, a: u64, g: u64)
    requires
        a < 64,
        g < 64,
    ensures
        bit_set(m | (1u64 << a), g) == (bit_set(m, g) || g == a),
        !bit_set(0u64, g),
{
    assert((((m | (1u64 << a)) >> g) & 1 == 1) == (((m >> g) & 1 == 1) || g == a)) by (bit_vector)
        requires
            a < 64,
            g < 64,
    ;
    assert(((0u64 >> g) & 1) != 1) by (bit_vector);
}

proof fn lemma_bit16_or(m: u16, a: u16, g: u16)
    requires
        a < 16,
        g < 16,
    ensures
        bit16_set(m | (1u16 << a), g) == (bit16_set(m, g) || g == a),
        !bit16_set(0u16, g),
        ((m >> g) & 1 != 0) == bit16_set(m, g),
{
    assert(((m >> g) & 1 != 0) == ((m >> g) & 1 == 1)) by (bit_vector);
    assert((((m | (1u16 << a)) >> g) & 1 == 1) == (((m >> g) & 1 == 1) || g == a)) by (bit_vector)
        requires
            a < 16,
            g < 16,
    ;
    assert(((0u16 >> g) & 1) != 1) by (bit_vector);
}

/// A GPIO configuration request: the lines to configure, and their mode.
#[derive(Clone, Copy, Debug, PartialEq, Eq)]
pub struct GpioConfig {
    pub pin_bit_mask: u64,
    pub mode: u32,
}

/// Header pins 1 to 16.
pub struct GpioPin;

impl GpioPin {
    pub fn pin_to_gpio(pin: u32) -> (r: Option<u32>)
        ensures
            r == if 1 <= pin <= 16 {
                Some(pin_gpio(pin as int) as u32)
            } else {
                None
            },
    {
        match pin {
            1 => Some(9),
            2 => Some(5),
            3 => Some(8),
            4 => Some(0),
            5 => Some(7),
            6 => Some(1),
            7 => Some(6),
            8 => Some(10),
            9 => Some(11),
            10 => Some(12),
            11 => Some(13),
            12 => Some(14),
            13 => Some(15),
            14 => Some(2),
            15 => Some(3),
            16 => Some(4),
            _ => None,
        }
    }

    pub fn gpio_to_pin(gpio: u32) -> (r: Option<u32>)
        ensures
            r == if gpio <= 15 {
                Some(gpio_pin(gpio as int) as u32)
            } else {
                None
            },
    {
        match gpio {
            0 => Some(4),
            1 => Some(14),
            2 => Some(15),
            3 => Some(16),
            4 => Some(2),
            5 => Some(6),
            6 => Some(5),
            7 => Some(3),
            8 => Some(1),
            9 => Some(8),
            10 => Some(9),
            11 => Some(10),
            12 => Some(11),
            13 => Some(12),
            14 => Some(13),
            15 => Some(7),
            _ => None,
        }
    }

    /// The configuration that puts the selected header pins (bit `p - 1` of
    /// `pin_mask` for pin `p`) into `mode`: it names their GPIO lines.
    pub fn config_pins(pin_mask: u16, mode: u32) -> (r: GpioConfig)
        ensures
            r.mode == mode,
            forall|p: int|
                1 <= p <= 16 ==> bit_set(r.pin_bit_mask, #[trigger] pin_gpio(p) as u64) == pin_selected(
                    pin_mask,
                    p,
                ),
            forall|g: u64| 16 <= g < 64 ==> !#[trigger] bit_set(r.pin_bit_mask, g),
    {
        let mut gpio_mask: u64 = 0;
        let mut pin: u32 = 1;
        proof {
            lemma_pin_lines();
            assert forall|g: u64| g < 64 implies !#[trigger] bit_set(gpio_mask, g) by {
                lemma_bit_or(0, 0, g);
            }
        }
        while pin <= 16
            invariant
                1 <= pin <= 17,
                forall|g: u64|
                    g < 64 ==> (#[trigger] bit_set(gpio_mask, g) <==> (g < 16 && 1 <= pin_on_line(g as int) < pin
                        && pin_selected(pin_mask, pin_on_line(g as int)))),
                forall|p: int| 1 <= p <= 16 ==> 0 <= #[trigger] pin_gpio(p) < 16 && pin_on_line(pin_gpio(p)) == p,
                forall|g: int| 0 <= g < 16 ==> 1 <= #[trigger] pin_on_line(g) <= 16 && pin_gpio(pin_on_line(g)) == g,
            decreases 17 - pin,
        {
            let ghost before = gpio_mask;
            proof {
                lemma_bit16_or(pin_mask, 0, (pin - 1) as u16);
            }
            if (pin_mask >> ((pin - 1) as u16)) & 1 != 0 {
                if let Some(gpio) = Self::pin_to_gpio(pin) {
                    gpio_mask = gpio_mask | (1u64 << (gpio as u64));
                    proof {
                        assert forall|g: u64| g < 64 implies #[trigger] bit_set(gpio_mask, g) == (bit_set(before, g)
                            || g == gpio) by {
                            lemma_bit_or(before, gpio as u64, g);
                        }
                    }
                }
            }
            pin += 1;
        }
        GpioConfig { pin_bit_mask: gpio_mask, mode }
    }

    /// The levels of header pins 1 to 16 as bits 0 to 15, given the levels
    /// of GPIO lines 0 to 15 as bits 0 to 15 of `gpio_levels`.
    pub fn get_all_pins(gpio_levels: u16) -> (r: u16)
        ensures
            forall|p: int|
                1 <= p <= 16 ==> #[trigger] pin_selected(r, p) == bit16_set(gpio_levels, pin_gpio(p) as u16),
    {
        let mut result: u16 = 0;
        let mut pin: u32 = 1;
        proof {
            assert forall|k: u16| k < 16 implies !#[trigger] bit16_set(result, k) by {
                lemma_bit16_or(0, 0, k);
            }
        }
        while pin <= 16
            invariant
                1 <= pin <= 17,
                forall|k: u16|
                    k < 16 ==> (#[trigger] bit16_set(result, k) <==> (k + 1 < pin && bit16_set(
                        gpio_levels,
                        pin_gpio(k + 1) as u16,
                    ))),
            decreases 17 - pin,
        {
            let ghost before = result;
            proof {
                lemma_pin_lines();
            }
            if let Some(gpio) = Self::pin_to_gpio(pin) {
                proof {
                    lemma_bit16_or(gpio_levels, 0, gpio as u16);
                }
                let level = (gpio_levels >> (gpio as u16)) & 1 != 0;
                if level {
                    result = result | (1u16 << ((pin - 1) as u16));
                    proof {
                        assert forall|k: u16| k < 16 implies #[trigger] bit16_set(result, k) == (bit16_set(before, k)
                            || k == pin - 1) by {
                            lemma_bit16_or(before, (pin - 1) as u16, k);
                        }
                    }
                }
            }
            pin += 1;
        }
        result
    }
}

} // verus!
