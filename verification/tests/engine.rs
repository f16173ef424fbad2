//! End-to-end tests of the tape-language engine: decoding, filtering,
//! jump-table construction, and full runs with their wraparound semantics.

use tapevm::machine::{Interpreter, RunOutcome, StepOut};
use tapevm::ops::{filter_program, Operator};
use tapevm::{EngineError, TAPE_LEN};

fn completed_output(program: &[u8], inputs: &[u8], budget: u64) -> Vec<u8> {
    let mut it = Interpreter::new(program.to_vec());
    match it.run_steps(&inputs.to_vec(), budget) {
        Ok(RunOutcome::Completed { output }) => output,
        other => panic!("program did not complete: {:?}", other),
    }
}

#[test]
fn decode_each_instruction_byte() {
    assert_eq!(Operator::try_from(b'+'), Ok(Operator::Increase));
    assert_eq!(Operator::try_from(b'-'), Ok(Operator::Decrease));
    assert_eq!(Operator::try_from(b'>'), Ok(Operator::MoveRight));
    assert_eq!(Operator::try_from(b'<'), Ok(Operator::MoveLeft));
    assert_eq!(Operator::try_from(b'.'), Ok(Operator::Output));
    assert_eq!(Operator::try_from(b','), Ok(Operator::Input));
    assert_eq!(Operator::try_from(b'['), Ok(Operator::JumpRight));
    assert_eq!(Operator::try_from(b']'), Ok(Operator::JumpLeft));
}

#[test]
fn decode_rejects_every_other_byte() {
    for b in 0u8..=255u8 {
        let is_instruction = b"+-><.,[]".contains(&b);
        assert_eq!(Operator::try_from(b).is_ok(), is_instruction, "byte {}", b);
    }
}

#[test]
fn filter_keeps_instructions_in_order() {
    let text = b"say + twice: ++ then loop [->.<]\n".to_vec();
    assert_eq!(filter_program(&text), b"+++[->.<]".to_vec());
}

#[test]
fn filter_of_comment_only_text_is_empty() {
    let text = b"no instructions here at all\n".to_vec();
    assert_eq!(filter_program(&text), Vec::<u8>::new());
}

#[test]
fn jump_table_accepts_balanced_nesting() {
    let mut it = Interpreter::new(b"[[][[]]]".to_vec());
    assert_eq!(it.record_condition_location(), Ok(()));
}

#[test]
fn stray_close_bracket_fails_at_its_position() {
    let mut it = Interpreter::new(b"]".to_vec());
    assert_eq!(
        it.record_condition_location(),
        Err(EngineError::MalformedProgram { position: 0 })
    );
    let mut it = Interpreter::new(b"[]]".to_vec());
    assert_eq!(
        it.record_condition_location(),
        Err(EngineError::MalformedProgram { position: 2 })
    );
}

#[test]
fn unmatched_open_bracket_fails_after_the_scan() {
    let mut it = Interpreter::new(b"[".to_vec());
    assert_eq!(
        it.record_condition_location(),
        Err(EngineError::MalformedProgram { position: 0 })
    );
    let mut it = Interpreter::new(b"+[+[]".to_vec());
    assert_eq!(
        it.record_condition_location(),
        Err(EngineError::MalformedProgram { position: 1 })
    );
}

#[test]
fn unknown_byte_fails_where_it_stands() {
    // An unfiltered source reaches the decoder, which must reject it.
    let mut it = Interpreter::new(b"+x".to_vec());
    assert_eq!(
        it.run_steps(&Vec::new(), 10),
        Err(EngineError::UnknownInstruction { position: 1, byte: b'x' })
    );
}

#[test]
fn increment_then_decrement_returns_cell_to_zero() {
    let mut it = Interpreter::new(b"+-".to_vec());
    assert!(matches!(
        it.run_steps(&Vec::new(), 10),
        Ok(RunOutcome::Completed { .. })
    ));
    assert_eq!(it.current_cell(), 0);
}

#[test]
fn decrement_of_zero_wraps_to_255_and_back() {
    let mut it = Interpreter::new(b"-".to_vec());
    assert!(matches!(
        it.run_steps(&Vec::new(), 10),
        Ok(RunOutcome::Completed { .. })
    ));
    assert_eq!(it.current_cell(), 255);

    let mut it = Interpreter::new(b"-+".to_vec());
    assert!(matches!(
        it.run_steps(&Vec::new(), 10),
        Ok(RunOutcome::Completed { .. })
    ));
    assert_eq!(it.current_cell(), 0);
}

#[test]
fn increment_from_255_wraps_to_zero_and_back() {
    let mut program = vec![b'+'; 256];
    let mut it = Interpreter::new(program.clone());
    assert!(matches!(
        it.run_steps(&Vec::new(), 1000),
        Ok(RunOutcome::Completed { .. })
    ));
    assert_eq!(it.current_cell(), 0);

    program.push(b'+');
    let mut it = Interpreter::new(program);
    assert!(matches!(
        it.run_steps(&Vec::new(), 1000),
        Ok(RunOutcome::Completed { .. })
    ));
    assert_eq!(it.current_cell(), 1);
}

#[test]
fn moving_right_a_full_tape_returns_pointer_to_start() {
    let program = vec![b'>'; TAPE_LEN];
    let mut it = Interpreter::new(program);
    assert!(matches!(
        it.run_steps(&Vec::new(), TAPE_LEN as u64 + 10),
        Ok(RunOutcome::Completed { .. })
    ));
    assert_eq!(it.tape_pointer(), 0);
}

#[test]
fn moving_left_a_full_tape_returns_pointer_to_start() {
    let program = vec![b'<'; TAPE_LEN];
    let mut it = Interpreter::new(program);
    assert!(matches!(
        it.run_steps(&Vec::new(), TAPE_LEN as u64 + 10),
        Ok(RunOutcome::Completed { .. })
    ));
    assert_eq!(it.tape_pointer(), 0);
}

#[test]
fn moving_left_from_start_wraps_to_last_cell() {
    let mut it = Interpreter::new(b"<".to_vec());
    assert!(matches!(
        it.run_steps(&Vec::new(), 10),
        Ok(RunOutcome::Completed { .. })
    ));
    assert_eq!(it.tape_pointer(), TAPE_LEN as u64 - 1);
}

#[test]
fn prints_capital_a() {
    // 8 * 8 + 1 = 65, the code of 'A'.
    let output = completed_output(b"++++++++[>++++++++<-]>+.", &[], 10_000);
    assert_eq!(output, vec![65u8]);
}

#[test]
fn echoes_one_input_byte() {
    // The driver hands over the first byte of the line "Q\n".
    let output = completed_output(b",.", &[b'Q'], 10);
    assert_eq!(output, vec![b'Q']);
}

#[test]
fn empty_loop_on_zero_cell_terminates() {
    let mut it = Interpreter::new(b"[]".to_vec());
    match it.run_steps(&Vec::new(), 100) {
        Ok(RunOutcome::Completed { output }) => assert_eq!(output, Vec::<u8>::new()),
        other => panic!("empty loop did not terminate: {:?}", other),
    }
    // The open bracket jumped to its close, and the uniform advance carried
    // the program counter past it.
    assert_eq!(it.program_counter(), 2);
}

#[test]
fn infinite_loop_never_completes_within_budget() {
    let mut it = Interpreter::new(b"+[]".to_vec());
    assert!(matches!(
        it.run_steps(&Vec::new(), 100_000),
        Ok(RunOutcome::StillRunning { .. })
    ));
}

#[test]
fn input_instruction_without_input_is_exhaustion() {
    let mut it = Interpreter::new(b",".to_vec());
    assert_eq!(
        it.run_steps(&Vec::new(), 10),
        Err(EngineError::InputExhausted { position: 0 })
    );
}

#[test]
fn stepwise_driving_matches_the_run() {
    let mut it = Interpreter::new(b"+.,.".to_vec());
    assert_eq!(it.record_condition_location(), Ok(()));
    assert!(!it.finished());
    assert_eq!(it.step_io(None), Ok(StepOut::Stepped));
    assert_eq!(it.step_io(None), Ok(StepOut::Emitted(1)));
    // The input instruction waits until a byte is on offer.
    assert_eq!(it.step_io(None), Ok(StepOut::NeedInput));
    assert_eq!(it.step_io(Some(b'Z')), Ok(StepOut::ConsumedInput));
    assert_eq!(it.current_cell(), b'Z');
    assert_eq!(it.step_io(None), Ok(StepOut::Emitted(b'Z')));
    assert!(it.finished());
}

#[test]
fn fresh_engine_starts_zeroed() {
    let it = Interpreter::new(b"+".to_vec());
    assert_eq!(it.program_counter(), 0);
    assert_eq!(it.tape_pointer(), 0);
    assert_eq!(it.current_cell(), 0);
    assert!(!it.finished());
}

#[test]
fn empty_program_completes_at_once() {
    let mut it = Interpreter::new(Vec::new());
    match it.run_steps(&Vec::new(), 0) {
        Ok(RunOutcome::Completed { output }) => assert_eq!(output, Vec::<u8>::new()),
        other => panic!("empty program did not complete: {:?}", other),
    }
    assert!(it.finished());
}

#[test]
fn output_order_is_preserved() {
    let output = completed_output(b"+.+.+.", &[], 100);
    assert_eq!(output, vec![1u8, 2, 3]);
}
