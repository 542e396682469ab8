use g2bf::compiler::{CompileError, Program};
use g2bf::grid::{Direction, Vec2};
use g2bf::nodes::{CompilableNode, NodeType};

fn grid(lines: &[&str]) -> Vec<Vec<char>> {
    lines.iter().map(|l| l.chars().collect()).collect()
}

fn kinds(node: &CompilableNode) -> Vec<String> {
    node.children.iter().map(|c| format!("{:?}", c.kind)).collect()
}

fn name(node: &CompilableNode) -> String {
    match &node.kind {
        NodeType::Function(s) => s.clone(),
        _ => panic!("not a function"),
    }
}

fn built(lines: &[&str]) -> Program {
    let mut p = Program::new(128, 12, grid(lines));
    p.build_root().unwrap();
    p
}

const WRITE: &str = "push eax\nmov ecx,eax\nmov ebx, 1\nmov eax, 4\nint 0x80\npop eax";
const EXIT: &str = "mov ebx, [eax]\nmov eax, 1\nint 0x80";

#[test]
fn new_program_is_empty() {
    let p = Program::new(128, 12, grid(&["+"]));
    assert_eq!(name(p.root()), "_root");
    assert!(p.root().children.is_empty());
    assert_eq!(p.tape_width, 128);
    assert_eq!(p.tape_height, 12);
    assert!(p.branch_names.is_empty());
    assert!(p.inline_branches.is_empty());
    assert!(p.unused_branches.is_empty());
    assert_eq!(p.instructions(), &grid(&["+"]));
}

#[test]
fn read_char_maps_instructions() {
    let p = Program::new(1, 1, vec![]);
    let got: Vec<String> = "+-><^v.,"
        .chars()
        .map(|c| format!("{:?}", p.read_char(&c).unwrap().kind))
        .collect();
    assert_eq!(
        got,
        vec![
            "AlterCell(1)",
            "AlterCell(-1)",
            "MovePtr(Vec2 { x: 1, y: 0 })",
            "MovePtr(Vec2 { x: -1, y: 0 })",
            "MovePtr(Vec2 { x: 0, y: -1 })",
            "MovePtr(Vec2 { x: 0, y: 1 })",
            "WriteChar",
            "ReadChar",
        ]
    );
    for c in ['[', ']', 'l', 'r', 'u', 'd', ' ', 'x'] {
        assert!(p.read_char(&c).is_none());
    }
}

#[test]
fn branch_token_format() {
    let p = Program::new(1, 1, vec![]);
    assert_eq!(p.branch_token(Vec2::new(1, 0), Direction::Down), "_fD1_0");
    assert_eq!(p.branch_token(Vec2::new(12, 3), Direction::Right), "_fR12_3");
    assert_eq!(p.branch_token(Vec2::new(0, 7), Direction::Left), "_fL0_7");
    assert_eq!(p.branch_token(Vec2::new(-2, 4), Direction::Up), "_fU-2_4");
}

#[test]
fn branch_tokens_are_distinct() {
    let p = Program::new(1, 1, vec![]);
    let a = p.branch_token(Vec2::new(1, 23), Direction::Right);
    let b = p.branch_token(Vec2::new(12, 3), Direction::Right);
    let c = p.branch_token(Vec2::new(1, 23), Direction::Left);
    assert_ne!(a, b);
    assert_ne!(a, c);
    assert_ne!(b, c);
}

#[test]
fn build_straight_line() {
    let p = built(&["+++."]);
    assert_eq!(p.root().children.len(), 1);
    let start = &p.root().children[0];
    assert_eq!(name(start), "_start");
    assert_eq!(kinds(start), vec!["AlterCell(3)", "WriteChar", "ExitNode"]);
    assert!(p.branch_names.is_empty());
}

#[test]
fn build_bracket_loop() {
    let p = built(&["[-]"]);
    let start = &p.root().children[0];
    assert_eq!(
        kinds(start),
        vec!["JmpZero(\"_fR2_0\")", "Function(\"_fR0_0\")", "JmpNonZero(\"_fR0_0\")", "ExitNode"]
    );
    assert_eq!(kinds(&start.children[1]), vec!["AlterCell(-1)", "JmpNonZero(\"_fR0_0\")", "ExitNode"]);
    assert_eq!(p.branch_names, vec!["_fR0_0".to_string()]);
}

#[test]
fn build_turn_hoists_function() {
    let p = built(&["+d", " ."]);
    assert_eq!(p.root().children.len(), 2);
    assert_eq!(kinds(&p.root().children[0]), vec!["AlterCell(1)", "Jump(\"_fD1_0\")"]);
    assert_eq!(name(&p.root().children[1]), "_fD1_0");
    assert_eq!(kinds(&p.root().children[1]), vec!["WriteChar", "ExitNode"]);
    assert_eq!(p.branch_names, vec!["_fD1_0".to_string()]);
}

#[test]
fn build_turn_same_direction_stays_inline() {
    let p = built(&["+r+"]);
    assert_eq!(p.root().children.len(), 1);
    let start = &p.root().children[0];
    assert_eq!(kinds(start), vec!["AlterCell(1)", "Function(\"_fR1_0\")", "ExitNode"]);
    assert_eq!(kinds(&start.children[1]), vec!["AlterCell(1)", "ExitNode"]);
}

#[test]
fn build_cycle_jumps_to_known_branch() {
    let p = built(&["dl", "ru"]);
    let names: Vec<String> = p.root().children.iter().map(name).collect();
    assert_eq!(names, vec!["_start", "_fL1_0", "_fU1_1", "_fR0_1", "_fD0_0"]);
    assert_eq!(kinds(&p.root().children[0]), vec!["Jump(\"_fD0_0\")"]);
    assert_eq!(kinds(&p.root().children[1]), vec!["Jump(\"_fD0_0\")"]);
    assert_eq!(kinds(&p.root().children[2]), vec!["Jump(\"_fL1_0\")"]);
    assert_eq!(kinds(&p.root().children[3]), vec!["Jump(\"_fU1_1\")"]);
    assert_eq!(kinds(&p.root().children[4]), vec!["Jump(\"_fR0_1\")"]);
    let mut taken = p.branch_names.clone();
    taken.sort();
    assert_eq!(taken, vec!["_fD0_0", "_fL1_0", "_fR0_1", "_fU1_1"]);
}

#[test]
fn build_keeps_names_taken_before() {
    let mut p = Program::new(128, 12, grid(&["+d", " ."]));
    p.branch_names.push("_other".to_string());
    p.build_root().unwrap();
    assert!(p.branch_names.contains(&"_other".to_string()));
    assert!(p.branch_names.contains(&"_fD1_0".to_string()));
}

#[test]
fn build_jumps_to_a_name_taken_before() {
    let mut p = Program::new(128, 12, grid(&["+d", " ."]));
    p.branch_names.push("_fD1_0".to_string());
    p.build_root().unwrap();
    assert_eq!(p.root().children.len(), 1);
    assert_eq!(kinds(&p.root().children[0]), vec!["AlterCell(1)", "Jump(\"_fD1_0\")"]);
}

#[test]
fn build_empty_grid() {
    let p = built(&[]);
    assert_eq!(kinds(&p.root().children[0]), vec!["ExitNode"]);
}

#[test]
fn unclosed_bracket_is_reported() {
    let mut p = Program::new(128, 12, grid(&["["]));
    match p.build_root() {
        Err(e) => {
            assert!(matches!(&e, CompileError::UnclosedBracket(t) if t == "_fR0_0"));
            assert_eq!(e.message(), "couldn't find close bracket for _fR0_0");
        }
        Ok(()) => panic!("expected an error"),
    }
}

#[test]
fn unopened_bracket_is_reported() {
    let mut p = Program::new(128, 12, grid(&["+]"]));
    match p.build_root() {
        Err(e) => {
            assert!(matches!(&e, CompileError::UnopenedBracket(t) if t == "_fR1_0"));
            assert_eq!(e.message(), "wild closer _fR1_0 has no opener");
        }
        Ok(()) => panic!("expected an error"),
    }
}

#[test]
fn find_function_searches_functions() {
    let p = built(&["dl", "ru"]);
    let found = p.find_function(&"_fU1_1".to_string(), p.root()).unwrap();
    assert_eq!(kinds(found), vec!["Jump(\"_fL1_0\")"]);
    assert!(p.find_function(&"_fX9_9".to_string(), p.root()).is_none());
    let root_itself = p.find_function(&"_root".to_string(), p.root()).unwrap();
    assert_eq!(root_itself.children.len(), 5);
    let leaf = CompilableNode::new(NodeType::ExitNode);
    assert!(p.find_function(&"_root".to_string(), &leaf).is_none());
}

#[test]
fn compile_whole_program() {
    let mut p = built(&["+++."]);
    let text = p.compile();
    let expected = format!(
        "section .text\nglobal _root\n_root:\nmov edx,1\nmov eax, tape\n_start:\nadd [eax], 3\n{}\n{}\n\n\nmov eax,1\nint 0x80\n\nsection .data\ntape: times 1536 db 0\n",
        WRITE, EXIT
    );
    assert_eq!(text, expected);
}

#[test]
fn compile_program_with_moves() {
    let mut p = built(&[">>^v<"]);
    let text = p.compile();
    assert!(text.contains("_start:\nadd eax, 1\nmov ebx"));
}

#[test]
fn compile_within_matches_compile() {
    let mut p = built(&["+d", " ."]);
    let a = p.compile_within(0).unwrap();
    let b = p.compile_within(5).unwrap();
    let c = p.compile();
    assert_eq!(a, c);
    assert_eq!(b, c);
}

#[test]
fn compile_within_refuses_oversized_tape() {
    let mut p = Program::new(isize::MAX, 2, grid(&["+"]));
    p.build_root().unwrap();
    assert!(p.compile_within(3).is_none());
}

#[test]
fn build_nested_brackets() {
    let p = built(&["[[-]]"]);
    let start = &p.root().children[0];
    assert_eq!(
        kinds(start),
        vec!["JmpZero(\"_fR4_0\")", "Function(\"_fR0_0\")", "JmpNonZero(\"_fR0_0\")", "ExitNode"]
    );
    let outer = &start.children[1];
    assert_eq!(
        kinds(outer),
        vec![
            "JmpZero(\"_fR3_0\")",
            "Function(\"_fR1_0\")",
            "JmpNonZero(\"_fR1_0\")",
            "JmpNonZero(\"_fR0_0\")",
            "ExitNode",
        ]
    );
    assert_eq!(
        kinds(&outer.children[1]),
        vec!["AlterCell(-1)", "JmpNonZero(\"_fR1_0\")", "JmpNonZero(\"_fR0_0\")", "ExitNode"]
    );
    let mut taken = p.branch_names.clone();
    taken.sort();
    assert_eq!(taken, vec!["_fR0_0", "_fR1_0"]);
}

fn mergeable(a: &NodeType, b: &NodeType) -> bool {
    matches!(
        (a, b),
        (NodeType::AlterCell(_), NodeType::AlterCell(_))
            | (NodeType::MovePtr(_), NodeType::MovePtr(_))
            | (NodeType::Jump(_), NodeType::ExitNode)
    )
}

fn fully_merged(node: &CompilableNode) -> bool {
    node.children.windows(2).all(|w| !mergeable(&w[0].kind, &w[1].kind))
        && node.children.iter().all(fully_merged)
}

#[test]
fn built_tree_is_fully_merged() {
    for lines in [&["++--<>>^^"][..], &["+[++-->>]d", "  +     .", " ", "          "][..], &["dl", "ru"][..]] {
        let p = built(lines);
        assert!(fully_merged(&p.root().children[0]));
    }
    let p = built(&["++--<>>^^"]);
    assert_eq!(
        kinds(&p.root().children[0]),
        vec!["AlterCell(0)", "MovePtr(Vec2 { x: 1, y: -2 })", "ExitNode"]
    );
}

#[test]
fn built_names_are_distinct() {
    for lines in [&["dl", "ru"][..], &["[[-]]"][..], &["+d", "r+u"][..]] {
        let p = built(lines);
        let mut names = p.branch_names.clone();
        let n = names.len();
        names.sort();
        names.dedup();
        assert_eq!(names.len(), n);
    }
}
