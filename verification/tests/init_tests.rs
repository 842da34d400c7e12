use my_hvm::init::parse_init_values;
use my_hvm::machine::{Fault, Machine};

#[test]
fn parse_plain_list() {
    assert_eq!(parse_init_values(b"1,2,3"), Ok(vec![1, 2, 3]));
}

#[test]
fn parse_strips_whitespace() {
    assert_eq!(parse_init_values(b" 1 ,\n2 ,\t3 \r"), Ok(vec![1, 2, 3]));
    assert_eq!(parse_init_values(b"4 2"), Ok(vec![42]));
}

#[test]
fn parse_drops_empty_tokens() {
    assert_eq!(parse_init_values(b""), Ok(vec![]));
    assert_eq!(parse_init_values(b",,,"), Ok(vec![]));
    assert_eq!(parse_init_values(b"1,,2,"), Ok(vec![1, 2]));
}

#[test]
fn parse_signs_and_leading_zeros() {
    assert_eq!(parse_init_values(b"-5,+7,007"), Ok(vec![-5, 7, 7]));
}

#[test]
fn parse_word_range_bounds() {
    assert_eq!(parse_init_values(b"2147483647"), Ok(vec![i32::MAX]));
    assert_eq!(parse_init_values(b"-2147483648"), Ok(vec![i32::MIN]));
    assert_eq!(parse_init_values(b"2147483648"), Err(Fault::LoadError));
    assert_eq!(parse_init_values(b"-2147483649"), Err(Fault::LoadError));
}

#[test]
fn parse_rejects_malformed_tokens() {
    assert_eq!(parse_init_values(b"12x"), Err(Fault::LoadError));
    assert_eq!(parse_init_values(b"1,two"), Err(Fault::LoadError));
    assert_eq!(parse_init_values(b"-"), Err(Fault::LoadError));
    assert_eq!(parse_init_values(b"+"), Err(Fault::LoadError));
    assert_eq!(parse_init_values(b"1.5"), Err(Fault::LoadError));
}

#[test]
fn mem_init_applies_values_in_order() {
    let mut m = Machine::new();
    assert_eq!(m.mem_init(b"10, -20 ,30"), Ok(()));
    assert_eq!(m.mem[0], 10);
    assert_eq!(m.mem[1], -20);
    assert_eq!(m.mem[2], 30);
    assert_eq!(m.mem[3], 0);
}

#[test]
fn mem_init_error_leaves_memory_unchanged() {
    let mut m = Machine::new();
    assert_eq!(m.mem_init(b"1,oops"), Err(Fault::LoadError));
    assert!(m.mem.iter().all(|&w| w == 0));
}
