use g2bf::grid::{Direction, Vec2};
use g2bf::interpreter::{Effect, Program, Step, MEM_HEIGHT, MEM_WIDTH};

fn grid(lines: &[&str]) -> Vec<Vec<char>> {
    lines.iter().map(|l| l.chars().collect()).collect()
}

/// Runs a program that reads nothing until it leaves the grid, collecting
/// what it prints.
fn run(lines: &[&str]) -> Vec<u8> {
    let mut p = Program::new(grid(lines));
    let mut out = Vec::new();
    while let Some(c) = p.fetch() {
        assert!(!p.would_fault(c));
        match p.execute_instruction(&c) {
            Effect::Print(b) => out.push(b),
            Effect::Read => panic!("unexpected read"),
            Effect::Continue => {}
        }
        assert!(p.can_advance());
        p.advance();
    }
    out
}

#[test]
fn new_machine_state() {
    let p = Program::new(grid(&["+"]));
    assert_eq!(p.memory.len(), MEM_WIDTH * MEM_HEIGHT);
    assert!(p.memory.iter().all(|b| *b == 0));
    assert_eq!(p.ptr, 0);
    assert_eq!(p.ip, Vec2::new(0, 0));
    assert_eq!(p.cflow, Direction::Right);
    assert_eq!(p.delta, 1);
    assert!(p.stored_closers.is_empty());
    assert!(p.stored_openers.is_empty());
}

#[test]
fn cell_changes_and_output() {
    let mut p = Program::new(grid(&["+"]));
    assert_eq!(p.execute_instruction(&'+'), Effect::Continue);
    assert_eq!(p.execute_instruction(&'+'), Effect::Continue);
    assert_eq!(p.memory[0], 2);
    assert_eq!(p.execute_instruction(&'-'), Effect::Continue);
    assert_eq!(p.execute_instruction(&'.'), Effect::Print(1));
}

#[test]
fn input_is_stored_by_the_caller() {
    let mut p = Program::new(grid(&[","]));
    assert_eq!(p.execute_instruction(&','), Effect::Read);
    assert_eq!(p.memory[0], 0);
    p.store_input(65);
    assert_eq!(p.memory[0], 65);
}

#[test]
fn pointer_moves() {
    let mut p = Program::new(grid(&[""]));
    p.execute_instruction(&'>');
    assert_eq!(p.ptr, 1);
    p.execute_instruction(&'^');
    assert_eq!(p.ptr, 1 + MEM_WIDTH);
    p.execute_instruction(&'v');
    assert_eq!(p.ptr, 1);
    p.execute_instruction(&'<');
    assert_eq!(p.ptr, 0);
}

#[test]
fn turns_change_direction() {
    let mut p = Program::new(grid(&[""]));
    for (c, d) in [('u', Direction::Up), ('l', Direction::Left), ('d', Direction::Down), ('r', Direction::Right)] {
        assert_eq!(p.execute_instruction(&c), Effect::Continue);
        assert_eq!(p.cflow, d);
    }
    p.execute_instruction(&' ');
    assert_eq!(p.cflow, Direction::Right);
}

#[test]
fn faults_are_detected() {
    let mut p = Program::new(grid(&[""]));
    assert!(p.would_fault('<'));
    assert!(p.would_fault('v'));
    assert!(p.would_fault('-'));
    assert!(!p.would_fault('+'));
    assert!(!p.would_fault('>'));
    assert!(!p.would_fault('x'));
    p.memory[0] = 255;
    assert!(p.would_fault('+'));
    p.ptr = MEM_WIDTH * MEM_HEIGHT;
    assert!(p.would_fault('.'));
    assert!(p.would_fault(','));
    assert!(!p.would_fault('<'));
    p.ptr = usize::MAX;
    assert!(p.would_fault('>'));
    assert!(p.would_fault('^'));
}

#[test]
fn open_bracket_on_zero_jumps_to_closer() {
    // The search reads the grid with x as the row index.
    let mut p = Program::new(grid(&["[", "x", "]"]));
    assert!(!p.would_fault('['));
    assert_eq!(p.execute_instruction(&'['), Effect::Continue);
    assert_eq!(p.ip, Vec2::new(2, 0));
}

#[test]
fn open_bracket_on_nonzero_stays() {
    let mut p = Program::new(grid(&["[", "x", "]"]));
    p.memory[0] = 1;
    p.execute_instruction(&'[');
    assert_eq!(p.ip, Vec2::new(0, 0));
}

#[test]
fn close_bracket_on_nonzero_jumps_to_opener() {
    let mut p = Program::new(grid(&["]", "a", "["]));
    p.memory[0] = 1;
    assert_eq!(p.execute_instruction(&']'), Effect::Continue);
    assert_eq!(p.ip, Vec2::new(2, 0));
}

#[test]
fn unmatched_bracket_faults() {
    let p = Program::new(grid(&["["]));
    assert!(p.would_fault('['));
    let mut q = Program::new(grid(&["]"]));
    q.memory[0] = 1;
    assert!(q.would_fault(']'));
}

#[test]
fn closer_search_is_remembered() {
    let mut p = Program::new(grid(&["[", "[", "]", "]"]));
    let first = p.get_closer();
    assert_eq!(first, Vec2::new(3, 0));
    assert_eq!(p.stored_closers.len(), 1);
    assert_eq!(p.stored_closers[0].1, Vec2::new(0, 0));
    assert_eq!(p.stored_closers[0].2, first);
    let after_first = p.stored_closers.clone();
    let second = p.get_closer();
    assert_eq!(second, first);
    assert_eq!(p.stored_closers, after_first);
    assert!(p.stored_openers.is_empty());
}

#[test]
fn other_instructions_keep_remembered_searches() {
    let mut p = Program::new(grid(&["[", "[", "]", "]"]));
    p.get_closer();
    let closers = p.stored_closers.clone();
    for c in ['+', '-', '>', '<', '.', 'x', 'r'] {
        p.execute_instruction(&c);
        assert_eq!(p.stored_closers, closers);
        assert!(p.stored_openers.is_empty());
    }
}

#[test]
fn opener_search_is_remembered() {
    let mut p = Program::new(grid(&["]", "[", "]", "["]));
    p.memory[0] = 1;
    let first = p.get_opener();
    assert_eq!(first, Vec2::new(1, 0));
    let second = p.get_opener();
    assert_eq!(second, first);
    assert_eq!(p.stored_openers.len(), 1);
    assert!(p.stored_closers.is_empty());
}

#[test]
fn fetch_reads_row_then_column() {
    let mut p = Program::new(grid(&["ab", "cd"]));
    assert_eq!(p.fetch(), Some('a'));
    p.ip = Vec2::new(1, 0);
    assert_eq!(p.fetch(), Some('b'));
    p.ip = Vec2::new(0, 1);
    assert_eq!(p.fetch(), Some('c'));
    p.ip = Vec2::new(2, 1);
    assert_eq!(p.fetch(), None);
    p.ip = Vec2::new(-1, 0);
    assert_eq!(p.fetch(), None);
}

#[test]
fn advance_steps_in_current_direction() {
    let mut p = Program::new(grid(&["ab"]));
    p.advance();
    assert_eq!(p.ip, Vec2::new(1, 0));
    p.cflow = Direction::Down;
    p.advance();
    assert_eq!(p.ip, Vec2::new(1, 1));
    p.ip = Vec2::new(isize::MAX, 0);
    p.cflow = Direction::Right;
    assert!(!p.can_advance());
}

#[test]
fn runs_a_small_program() {
    let out = run(&["+++.+.d", "      ."]);
    assert_eq!(out, vec![3, 4, 4]);
}

#[test]
fn runs_a_turning_program() {
    // right along row 0, down column 2, printing the cell each time
    let out = run(&["++d", "  .", "  +", "  ."]);
    assert_eq!(out, vec![2, 3]);
}

#[test]
fn inverse_instructions_restore_state() {
    let mut p = Program::new(grid(&[""]));
    p.ptr = 200;
    p.memory[200] = 7;
    let before = (p.memory.clone(), p.ptr);
    for (a, b) in [('+', '-'), ('-', '+'), ('>', '<'), ('<', '>'), ('^', 'v'), ('v', '^')] {
        assert!(!p.would_fault(a));
        p.execute_instruction(&a);
        assert!(!p.would_fault(b));
        p.execute_instruction(&b);
        assert_eq!((p.memory.clone(), p.ptr), before);
    }
}

#[test]
fn other_characters_do_nothing() {
    let mut p = Program::new(grid(&["x"]));
    for c in [' ', 'x', '#', '7', 'R'] {
        assert!(!p.would_fault(c));
        assert_eq!(p.execute_instruction(&c), Effect::Continue);
        assert_eq!(p.ptr, 0);
        assert_eq!(p.ip, Vec2::new(0, 0));
        assert_eq!(p.cflow, Direction::Right);
        assert!(p.memory.iter().all(|b| *b == 0));
    }
}

#[test]
fn closer_search_from_another_direction_is_separate() {
    let mut p = Program::new(grid(&["[]"]));
    p.cflow = Direction::Down;
    let down = p.get_closer();
    assert_eq!(down, Vec2::new(0, 1));
    assert_eq!(p.stored_closers.len(), 1);
    p.cflow = Direction::Right;
    assert!(p.would_fault('['));
}

#[test]
fn step_runs_and_moves_on() {
    let mut p = Program::new(grid(&["+.,"]));
    assert_eq!(p.step(), Step::Continue);
    assert_eq!(p.ip, Vec2::new(1, 0));
    assert_eq!(p.step(), Step::Print(1));
    assert_eq!(p.ip, Vec2::new(2, 0));
    assert_eq!(p.step(), Step::NeedInput);
    assert_eq!(p.ip, Vec2::new(2, 0));
    assert!(p.provide_input(b'x'));
    assert_eq!(p.memory[0], b'x');
    assert_eq!(p.ip, Vec2::new(3, 0));
    assert_eq!(p.step(), Step::Halted);
    assert_eq!(p.ip, Vec2::new(3, 0));
}

#[test]
fn step_reports_faults() {
    let mut p = Program::new(grid(&["<"]));
    assert_eq!(p.step(), Step::Fault('<'));
    assert_eq!(p.ip, Vec2::new(0, 0));
    assert_eq!(p.ptr, 0);
}

#[test]
fn provide_input_refuses_off_tape() {
    let mut p = Program::new(grid(&[","]));
    p.ptr = MEM_WIDTH * MEM_HEIGHT;
    assert!(!p.provide_input(1));
    assert_eq!(p.ip, Vec2::new(0, 0));
}

#[test]
fn step_jumps_over_a_loop() {
    // '[' at (0,0) with a zero cell jumps to the ']' the search finds at
    // (2,0), then moves on to (3,0).
    let mut p = Program::new(grid(&["[", "x", "]"]));
    assert_eq!(p.step(), Step::Continue);
    assert_eq!(p.ip, Vec2::new(3, 0));
}

fn run_steps(lines: &[&str]) -> Vec<u8> {
    let mut p = Program::new(grid(lines));
    let mut out = Vec::new();
    loop {
        match p.step() {
            Step::Continue => {}
            Step::Print(b) => out.push(b),
            Step::Halted => return out,
            other => panic!("unexpected {:?}", other),
        }
    }
}

#[test]
fn step_loop_matches_manual_loop() {
    assert_eq!(run_steps(&["+++.+.d", "      ."]), run(&["+++.+.d", "      ."]));
    assert_eq!(run_steps(&["++d", "  .", "  +", "  ."]), vec![2, 3]);
}
