use sayit::overlay::background_rgb;

#[test]
fn six_digit_colour_is_split_into_channels() {
    assert_eq!(background_rgb("#112233"), (0x11, 0x22, 0x33));
    assert_eq!(background_rgb("#0f172a"), (15, 23, 42));
}

#[test]
fn three_digit_colour_doubles_each_digit() {
    assert_eq!(background_rgb("#abc"), (0xaa, 0xbb, 0xcc));
    assert_eq!(background_rgb("fff"), (255, 255, 255));
}

#[test]
fn leading_hashes_are_all_dropped() {
    assert_eq!(background_rgb("##102030"), (0x10, 0x20, 0x30));
}

#[test]
fn short_colour_is_padded_with_zeros_on_the_right() {
    assert_eq!(background_rgb("#12"), (0x12, 0, 0));
    assert_eq!(background_rgb("#1234"), (0x12, 0x34, 0));
}

#[test]
fn long_colour_keeps_its_first_six_digits() {
    assert_eq!(background_rgb("#11223344"), (0x11, 0x22, 0x33));
}

#[test]
fn unreadable_colour_is_black() {
    assert_eq!(background_rgb("#zzzzzz"), (0, 0, 0));
    assert_eq!(background_rgb(""), (0, 0, 0));
    assert_eq!(background_rgb("#"), (0, 0, 0));
}

#[test]
fn plus_sign_is_read_as_in_radix_parsing() {
    assert_eq!(background_rgb("+12345"), (0x01, 0x23, 0x45));
}
