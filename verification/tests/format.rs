use find_duplicates::format_number::human_num_binary;
use find_duplicates::format_number::human_num_decimal;
use find_duplicates::format_number::u64_to_string;

#[test]
fn numbers_render_as_decimal_digits() {
    assert_eq!(u64_to_string(0), "0");
    assert_eq!(u64_to_string(7), "7");
    assert_eq!(u64_to_string(10), "10");
    assert_eq!(u64_to_string(1234), "1234");
    assert_eq!(u64_to_string(18446744073709551615), "18446744073709551615");
}

#[test]
fn human_decimal_keeps_small_numbers_plain() {
    assert_eq!(human_num_decimal(0), "0.0");
    assert_eq!(human_num_decimal(5), "5.0");
    assert_eq!(human_num_decimal(999), "999.0");
}

#[test]
fn human_decimal_scales_by_thousands() {
    assert_eq!(human_num_decimal(1000), "1.0K");
    assert_eq!(human_num_decimal(1240), "1.2K");
    assert_eq!(human_num_decimal(1250), "1.3K");
    assert_eq!(human_num_decimal(1350), "1.4K");
    assert_eq!(human_num_decimal(999949), "999.9K");
    assert_eq!(human_num_decimal(1000000), "1.0M");
    assert_eq!(human_num_decimal(2500000000), "2.5G");
    assert_eq!(human_num_decimal(7100000000000), "7.1T");
    assert_eq!(human_num_decimal(3000000000000000), "3.0P");
}

#[test]
fn human_binary_keeps_small_numbers_plain() {
    assert_eq!(human_num_binary(0), "0.0");
    assert_eq!(human_num_binary(1023), "1023.0");
}

#[test]
fn human_binary_scales_by_1024() {
    assert_eq!(human_num_binary(1024), "1.0Ki");
    assert_eq!(human_num_binary(1536), "1.5Ki");
    assert_eq!(human_num_binary(1048576), "1.0Mi");
    assert_eq!(human_num_binary(1073741824), "1.0Gi");
    assert_eq!(human_num_binary(1099511627776), "1.0Ti");
    assert_eq!(human_num_binary(1125899906842624), "1.0Pi");
}
