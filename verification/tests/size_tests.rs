use file_tree::size::u64_to_string;
use file_tree::Size;

#[test]
fn add_test() {
    let file_1 = Size::new(1500);
    let file_2 = Size::new(1500);
    let total = file_1.add(file_2);
    assert_eq!(total, Size::new(3000))
}

#[test]
fn add_test_empty() {
    let file_1 = Size::new(1500);
    let file_2 = Size::new(0);
    let total = file_1.add(file_2);
    assert_eq!(total, Size::new(1500))
}

#[test]
fn add_test_une_variable() {
    let file_1 = Size::new(1500);
    let mut file_2 = Size::new(0);
    file_2 = file_2.add(file_1);
    assert_eq!(file_2, Size::new(1500))
}

#[test]
fn display_kb_test() {
    let ftd = Size::new(1024);
    assert_eq!(ftd.display_string(), "1 KB")
}

#[test]
fn display_mb_test() {
    let ftd = Size::new(2411724);
    assert_eq!(ftd.display_string(), "2.3 MB")
}

#[test]
fn display_gb_test() {
    let ftd = Size::new(1073741824);
    assert_eq!(ftd.display_string(), "1 GB")
}

#[test]
fn display_zero_bytes() {
    assert_eq!(Size::new(0).display_string(), "0 B");
}

#[test]
fn display_bytes_stay_unscaled() {
    assert_eq!(Size::new(1023).display_string(), "1023 B");
}

#[test]
fn display_two_decimals() {
    // 1536 bytes scale to exactly 1.5 KB; 1550 to 1.51 KB (rounded).
    assert_eq!(Size::new(1536).display_string(), "1.5 KB");
    assert_eq!(Size::new(1550).display_string(), "1.51 KB");
}

#[test]
fn display_largest_count() {
    assert_eq!(Size::new(u64::MAX).display_string(), "16 EB");
}

#[test]
fn value_returns_byte_count() {
    assert_eq!(Size::new(42).value(), 42);
}

#[test]
fn decimal_rendering() {
    assert_eq!(u64_to_string(0), "0");
    assert_eq!(u64_to_string(9), "9");
    assert_eq!(u64_to_string(1234567890), "1234567890");
}
