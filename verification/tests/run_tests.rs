use bfjit::error::RuntimeError;
use bfjit::vm::RunStatus;
use bfjit::vm::MEMORY_SIZE;
use bfjit::vm::VM;

const FUEL: u64 = 1_000_000;

fn run_program(src: &str, input: &[u8]) -> (Result<RunStatus, RuntimeError>, Vec<u8>) {
    let mut vm = VM::new(src, input.to_vec()).unwrap();
    let r = vm.run(FUEL);
    (r, vm.output)
}

#[test]
fn three_increments_print_three() {
    let (r, out) = run_program("+++.", b"");
    assert_eq!(r, Ok(RunStatus::Halted));
    assert_eq!(out, vec![0x03]);
}

#[test]
fn echo_one_byte() {
    let (r, out) = run_program(",.", b"A");
    assert_eq!(r, Ok(RunStatus::Halted));
    assert_eq!(out, b"A".to_vec());
}

#[test]
fn pointer_returns_before_output() {
    let (r, out) = run_program("++>+++<.", b"");
    assert_eq!(r, Ok(RunStatus::Halted));
    assert_eq!(out, vec![0x02]);
}

#[test]
fn loop_zeroes_cell_then_prints() {
    let (r, out) = run_program("+[-].", b"");
    assert_eq!(r, Ok(RunStatus::Halted));
    assert_eq!(out, vec![0x00]);
}

#[test]
fn increment_read_byte() {
    let (r, out) = run_program(",+.", b"A");
    assert_eq!(r, Ok(RunStatus::Halted));
    assert_eq!(out, b"B".to_vec());
}

#[test]
fn move_left_from_zero_overflows_without_output() {
    let (r, out) = run_program("<", b"");
    assert_eq!(r, Err(RuntimeError::PointerOverflow));
    assert_eq!(out, Vec::<u8>::new());
}

#[test]
fn move_to_tape_end_overflows_keeping_prior_output() {
    let src = ".".to_string() + &">".repeat(MEMORY_SIZE);
    let (r, out) = run_program(&src, b"");
    assert_eq!(r, Err(RuntimeError::PointerOverflow));
    assert_eq!(out, vec![0x00]);
}

#[test]
fn move_to_last_cell_is_allowed() {
    let src = ">".repeat(MEMORY_SIZE - 1) + ".";
    let (r, out) = run_program(&src, b"");
    assert_eq!(r, Ok(RunStatus::Halted));
    assert_eq!(out, vec![0x00]);
}

#[test]
fn read_at_end_of_input_leaves_cell_unchanged() {
    let (r, out) = run_program("+,.", b"");
    assert_eq!(r, Ok(RunStatus::Halted));
    assert_eq!(out, vec![0x01]);
}

#[test]
fn zero_cell_skips_loop_body() {
    let (r, out) = run_program("[.]", b"");
    assert_eq!(r, Ok(RunStatus::Halted));
    assert_eq!(out, Vec::<u8>::new());
}

#[test]
fn wrapping_addition_fuses_runs() {
    // 130 + 130 = 260, which wraps to 4 in a byte cell.
    let src = "+".repeat(130) + " " + &"+".repeat(130) + ".";
    let (r, out) = run_program(&src, b"");
    assert_eq!(r, Ok(RunStatus::Halted));
    assert_eq!(out, vec![0x04]);
}

#[test]
fn wrapping_subtraction_below_zero() {
    let (r, out) = run_program("-.", b"");
    assert_eq!(r, Ok(RunStatus::Halted));
    assert_eq!(out, vec![0xFF]);
}

#[test]
fn empty_program_halts_silently() {
    let (r, out) = run_program("", b"");
    assert_eq!(r, Ok(RunStatus::Halted));
    assert_eq!(out, Vec::<u8>::new());
}

#[test]
fn endless_loop_runs_out_of_steps() {
    let (r, out) = run_program("+[]", b"");
    assert_eq!(r, Ok(RunStatus::OutOfSteps));
    assert_eq!(out, Vec::<u8>::new());
}

#[test]
fn fused_add_pair_behaves_like_the_original_pair() {
    let (r1, out1) = run_program("++ ++.", b"");
    // The same program with the two additions fused into one plus a no-op.
    let mut vm = VM::new(".", Vec::new()).unwrap();
    vm.code = vec![
        bfjit::ir::BrainfuckIR::AddVal(4),
        bfjit::ir::BrainfuckIR::AddVal(0),
        bfjit::ir::BrainfuckIR::PutByte,
    ];
    let r2 = vm.run(FUEL);
    assert_eq!(r1, r2);
    assert_eq!(out1, vm.output);
    assert_eq!(vm.output, vec![0x04]);
}

#[test]
fn pair_index_is_symmetric_and_covers_all_jumps() {
    let vm = VM::new("+[>[,.]<]", Vec::new()).unwrap();
    let map = vm.mark_left_right();
    let jumps = vm
        .code
        .iter()
        .filter(|x| **x == bfjit::ir::BrainfuckIR::Jz || **x == bfjit::ir::BrainfuckIR::Jnz)
        .count();
    assert_eq!(map.len(), jumps);
    assert_eq!(map.len(), 4);
    for (l, r) in map.iter() {
        assert_eq!(map[r], *l);
    }
}
