use ecos_ssc1::gpio::GpioPin;

const PIN_TO_GPIO: [u32; 16] = [9, 5, 8, 0, 7, 1, 6, 10, 11, 12, 13, 14, 15, 2, 3, 4];

#[test]
fn pin_to_gpio_table() {
    for pin in 1..=16u32 {
        assert_eq!(GpioPin::pin_to_gpio(pin), Some(PIN_TO_GPIO[(pin - 1) as usize]));
    }
    assert_eq!(GpioPin::pin_to_gpio(0), None);
    assert_eq!(GpioPin::pin_to_gpio(17), None);
}

#[test]
fn gpio_to_pin_table() {
    assert_eq!(GpioPin::gpio_to_pin(0), Some(4));
    assert_eq!(GpioPin::gpio_to_pin(9), Some(8));
    assert_eq!(GpioPin::gpio_to_pin(15), Some(7));
    assert_eq!(GpioPin::gpio_to_pin(16), None);
}

#[test]
fn config_pins_maps_pin_bits_to_gpio_bits() {
    let c = GpioPin::config_pins(0b1, 3);
    assert_eq!(c.pin_bit_mask, 1 << 9);
    assert_eq!(c.mode, 3);
    let c = GpioPin::config_pins(0b1000_0000_0000_1010, 1);
    assert_eq!(c.pin_bit_mask, (1 << 5) | (1 << 0) | (1 << 4));
    assert_eq!(GpioPin::config_pins(0xFFFF, 0).pin_bit_mask, 0xFFFF);
    assert_eq!(GpioPin::config_pins(0, 0).pin_bit_mask, 0);
}

#[test]
fn get_all_pins_maps_gpio_levels_to_pin_bits() {
    assert_eq!(GpioPin::get_all_pins(1 << 9), 0b1);
    assert_eq!(GpioPin::get_all_pins(1 << 4), 1 << 15);
    assert_eq!(GpioPin::get_all_pins((1 << 0) | (1 << 2)), (1 << 3) | (1 << 13));
    assert_eq!(GpioPin::get_all_pins(0xFFFF), 0xFFFF);
    assert_eq!(GpioPin::get_all_pins(0), 0);
}
