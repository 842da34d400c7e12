use my_hvm::machine::{BinOp, Fault, Machine, MEM_SIZE};
use my_hvm::text::i32_to_string;
use my_hvm::vm::{render_output, run};

const FUEL: u64 = 1_000_000;

fn exec(prog: &str) -> (Machine, Result<Option<(i64, bool)>, Fault>) {
    let mut m = Machine::new();
    let bytes: Vec<u8> = prog.as_bytes().to_vec();
    let r = run(&bytes, &mut m, 0, false, FUEL);
    (m, r)
}

fn exec_with_init(init: &[u8], prog: &str) -> (Machine, Result<Option<(i64, bool)>, Fault>) {
    let mut m = Machine::new();
    m.mem_init(init).expect("init text must parse");
    let bytes: Vec<u8> = prog.as_bytes().to_vec();
    let r = run(&bytes, &mut m, 0, false, FUEL);
    (m, r)
}

#[test]
fn digits_push_their_value() {
    for d in 0..10u8 {
        let prog = ((b'0' + d) as char).to_string();
        let (m, r) = exec(&prog);
        assert_eq!(r, Ok(None));
        assert_eq!(m.stack, vec![d as i32]);
        assert!(m.output.is_empty());
    }
}

#[test]
fn add_program_emits_sum() {
    let (m, r) = exec("12+p!");
    assert_eq!(r, Ok(None));
    assert_eq!(m.output, vec!["3".to_string()]);
    assert!(m.stack.is_empty());
    assert_eq!(render_output(&m), "3\n");
}

#[test]
fn sub_program_emits_difference() {
    let (m, r) = exec("12-p!");
    assert_eq!(r, Ok(None));
    assert_eq!(m.output, vec!["-1".to_string()]);
}

#[test]
fn mul_program_emits_product() {
    let (m, r) = exec("34*p!");
    assert_eq!(r, Ok(None));
    assert_eq!(m.output, vec!["12".to_string()]);
}

#[test]
fn div_truncates_toward_zero() {
    let (m, r) = exec("94/p!");
    assert_eq!(r, Ok(None));
    assert_eq!(m.output, vec!["2".to_string()]);
    let (m2, r2) = exec("09-4/p!");
    assert_eq!(r2, Ok(None));
    assert_eq!(m2.output, vec!["-2".to_string()]);
}

#[test]
fn div_by_zero_faults() {
    let (m, r) = exec("10/p!");
    assert_eq!(r, Err(Fault::DivideByZero));
    assert!(m.output.is_empty());
}

#[test]
fn cmp_is_three_way() {
    let (m, _) = exec("12:p!");
    assert_eq!(m.output, vec!["-1".to_string()]);
    let (m, _) = exec("22:p!");
    assert_eq!(m.output, vec!["0".to_string()]);
    let (m, _) = exec("21:p!");
    assert_eq!(m.output, vec!["1".to_string()]);
}

#[test]
fn copy_then_drop_restores_stack() {
    let (m, r) = exec("1231^d");
    assert_eq!(r, Ok(None));
    assert_eq!(m.stack, vec![1, 2, 3]);
}

#[test]
fn copy_pushes_element_at_depth() {
    let (m, r) = exec("1231^");
    assert_eq!(r, Ok(None));
    assert_eq!(m.stack, vec![1, 2, 3, 2]);
}

#[test]
fn remove_moves_element_to_top() {
    let (m, r) = exec("1232v");
    assert_eq!(r, Ok(None));
    assert_eq!(m.stack, vec![2, 3, 1]);
}

#[test]
fn copy_depth_out_of_range_faults() {
    let (m, r) = exec("1^");
    assert_eq!(r, Err(Fault::StackUnderflow));
    assert!(m.output.is_empty());
}

#[test]
fn halt_alone_terminates_with_empty_output() {
    let (m, r) = exec("!");
    assert_eq!(r, Ok(None));
    assert!(m.output.is_empty());
    assert!(m.stack.is_empty());
    assert_eq!(render_output(&m), "\n");
}

#[test]
fn unrecognized_byte_faults_illegal_opcode() {
    let (m, r) = exec("z");
    assert_eq!(r, Err(Fault::IllegalOpcode));
    assert!(m.output.is_empty());
}

#[test]
fn push_pop_round_trip_matches_decimal() {
    let (m, _) = exec("5p!");
    assert_eq!(m.output, vec!["5".to_string()]);
    let (m, _) = exec("57*p!");
    assert_eq!(m.output, vec!["35".to_string()]);
    let (m, _) = exec("05-p!");
    assert_eq!(m.output, vec!["-5".to_string()]);
}

#[test]
fn end_to_end_add_example() {
    let (m, r) = exec("12+p!");
    assert_eq!(r, Ok(None));
    assert_eq!(render_output(&m), "3\n");
}

#[test]
fn jump_skips_second_print() {
    // 'g' sets the instruction pointer to ip + offset; offset 3 from the
    // jump at index 3 lands on the halt at index 6, skipping "0p".
    let (m, r) = exec("9p3g0p!");
    assert_eq!(r, Ok(None));
    assert_eq!(m.output, vec!["9".to_string()]);
    assert_eq!(render_output(&m), "9\n");
}

#[test]
fn cond_jump_taken_on_zero() {
    let (m, r) = exec("03?9p!");
    assert_eq!(r, Ok(None));
    assert!(m.output.is_empty());
}

#[test]
fn cond_jump_not_taken_on_nonzero() {
    let (m, r) = exec("13?9p!");
    assert_eq!(r, Ok(None));
    assert_eq!(m.output, vec!["9".to_string()]);
}

#[test]
fn call_returns_to_instruction_after_call() {
    // index:  0 '6'  1 'c'  2 '2'  3 'p'  4 '!'  5 'x'  6 '7'  7 'p'  8 '$'
    // call jumps to 6, the subroutine prints 7 and returns to index 2,
    // which prints 2: the output order shows the return address.
    let (m, r) = exec("6c2p!x7p$");
    assert_eq!(r, Ok(None));
    assert_eq!(m.output, vec!["7".to_string(), "2".to_string()]);
    assert_eq!(render_output(&m), "72\n");
}

#[test]
fn store_then_load_round_trips() {
    let (m, r) = exec("52>2<p!");
    assert_eq!(r, Ok(None));
    assert_eq!(m.output, vec!["5".to_string()]);
    assert_eq!(m.mem[2], 5);
}

#[test]
fn store_negative_address_faults() {
    let (m, r) = exec("501->");
    assert_eq!(r, Err(Fault::OutOfRange));
    assert!(m.output.is_empty());
}

#[test]
fn load_negative_address_faults() {
    let (_, r) = exec("01-<");
    assert_eq!(r, Err(Fault::OutOfRange));
}

#[test]
fn pop_on_empty_stack_faults() {
    let (_, r) = exec("p");
    assert_eq!(r, Err(Fault::StackUnderflow));
    let (_, r) = exec("1+");
    assert_eq!(r, Err(Fault::StackUnderflow));
    let (_, r) = exec("d");
    assert_eq!(r, Err(Fault::StackUnderflow));
}

#[test]
fn return_on_empty_call_stack_faults() {
    let (_, r) = exec("$");
    assert_eq!(r, Err(Fault::CallStackUnderflow));
}

#[test]
fn print_char_emits_character() {
    // 8 * 8 + 1 = 65 = 'A'
    let (m, r) = exec("88*1+P!");
    assert_eq!(r, Ok(None));
    assert_eq!(m.output, vec!["A".to_string()]);
    assert_eq!(render_output(&m), "A\n");
}

#[test]
fn print_char_negative_faults_invalid_codepoint() {
    let (m, r) = exec("01-P");
    assert_eq!(r, Err(Fault::InvalidCodepoint));
    assert!(m.output.is_empty());
}

#[test]
fn falling_off_the_end_is_clean() {
    let (m, r) = exec("12");
    assert_eq!(r, Ok(None));
    assert_eq!(m.stack, vec![1, 2]);
}

#[test]
fn fuel_exhaustion_reports_progress_and_resumes() {
    // mem[0] holds -2, so "0<g" jumps from index 2 back to index 0 forever.
    let mut m = Machine::new();
    m.mem_init(b"-2").unwrap();
    let bytes: Vec<u8> = b"0<g".to_vec();
    let r = run(&bytes, &mut m, 0, false, 1000);
    let (ip, halted) = r.unwrap().expect("the loop must still be running");
    assert!(!halted);
    let r2 = run(&bytes, &mut m, ip, halted, 1000);
    assert!(r2.unwrap().is_some());
}

#[test]
fn wrapping_addition() {
    let mut m = Machine::new();
    m.stack_push(i32::MAX);
    m.stack_push(1);
    m.do_op(BinOp::Add).unwrap();
    assert_eq!(m.stack, vec![i32::MIN]);
}

#[test]
fn wrapping_division_min_by_minus_one() {
    let mut m = Machine::new();
    m.stack_push(i32::MIN);
    m.stack_push(-1);
    m.do_op(BinOp::Div).unwrap();
    assert_eq!(m.stack, vec![i32::MIN]);
}

#[test]
fn decimal_rendering_exact_values() {
    assert_eq!(i32_to_string(0), "0");
    assert_eq!(i32_to_string(7), "7");
    assert_eq!(i32_to_string(-1), "-1");
    assert_eq!(i32_to_string(1000), "1000");
    assert_eq!(i32_to_string(i32::MAX), "2147483647");
    assert_eq!(i32_to_string(i32::MIN), "-2147483648");
}

#[test]
fn machine_starts_zeroed() {
    let m = Machine::new();
    assert_eq!(m.mem.len(), MEM_SIZE);
    assert!(m.mem.iter().all(|&w| w == 0));
    assert!(m.stack.is_empty());
    assert!(m.call_stack.is_empty());
    assert!(m.output.is_empty());
}

#[test]
fn init_file_example_loads_cells() {
    let (m, r) = exec_with_init(b"1, 2,3", "2<p!");
    assert_eq!(r, Ok(None));
    assert_eq!(m.output, vec!["3".to_string()]);
    assert_eq!(m.mem[0], 1);
    assert_eq!(m.mem[1], 2);
    assert_eq!(m.mem[2], 3);
    assert_eq!(m.mem[3], 0);
}

#[test]
fn stack_read_peeks_by_depth() {
    let mut m = Machine::new();
    m.stack_push(10);
    m.stack_push(20);
    m.stack_push(30);
    assert_eq!(m.stack_read(0), Ok(30));
    assert_eq!(m.stack_read(2), Ok(10));
    assert_eq!(m.stack_read(3), Err(Fault::StackUnderflow));
    assert_eq!(m.stack, vec![10, 20, 30]);
}

#[test]
fn stack_remove_closes_gap() {
    let mut m = Machine::new();
    m.stack_push(10);
    m.stack_push(20);
    m.stack_push(30);
    assert_eq!(m.stack_remove(1), Ok(20));
    assert_eq!(m.stack, vec![10, 30]);
}
