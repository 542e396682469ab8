use g2bf::compiler::Program;
use g2bf::grid::{Direction, Vec2};
use g2bf::nodes::{CompilableNode, NodeType};

fn kinds(node: &CompilableNode) -> Vec<String> {
    node.children.iter().map(|c| format!("{:?}", c.kind)).collect()
}

fn leaf(kind: NodeType) -> CompilableNode {
    CompilableNode::new(kind)
}

fn alter_total(node: &CompilableNode) -> isize {
    node.children
        .iter()
        .map(|c| match c.kind {
            NodeType::AlterCell(a) => a,
            _ => 0,
        })
        .sum()
}

fn move_total(node: &CompilableNode) -> (isize, isize) {
    node.children.iter().fold((0, 0), |(x, y), c| match c.kind {
        NodeType::MovePtr(v) => (x + v.x, y + v.y),
        _ => (x, y),
    })
}

fn sample() -> CompilableNode {
    let mut f = CompilableNode::empty_function("f".to_string());
    f.children.push(leaf(NodeType::AlterCell(1)));
    f.children.push(leaf(NodeType::AlterCell(2)));
    f.children.push(leaf(NodeType::MovePtr(Vec2::new(1, 0))));
    f.children.push(leaf(NodeType::MovePtr(Vec2::new(0, 1))));
    f.children.push(leaf(NodeType::Jump("a".to_string())));
    f.children.push(leaf(NodeType::ExitNode));
    f.children.push(leaf(NodeType::ExitNode));
    f.children.push(leaf(NodeType::WriteChar));
    f.children.push(leaf(NodeType::AlterCell(-1)));
    f
}

#[test]
fn constructors_make_leaves() {
    let n = CompilableNode::inc_cell(-3);
    assert!(matches!(n.kind, NodeType::AlterCell(-3)));
    assert!(n.children.is_empty());
    let f = CompilableNode::empty_function("_x".to_string());
    assert!(matches!(&f.kind, NodeType::Function(s) if s == "_x"));
    assert!(f.children.is_empty());
    let m = CompilableNode::move_ptr(Direction::Up);
    assert!(matches!(m.kind, NodeType::MovePtr(v) if v == Vec2::new(0, -1)));
}

#[test]
fn smash_function_merges_neighbours() {
    let mut f = sample();
    CompilableNode::smash_function(&mut f);
    assert_eq!(
        kinds(&f),
        vec![
            "AlterCell(3)",
            "MovePtr(Vec2 { x: 1, y: 1 })",
            "Jump(\"a\")",
            "WriteChar",
            "AlterCell(-1)",
        ]
    );
    assert!(matches!(&f.kind, NodeType::Function(s) if s == "f"));
}

#[test]
fn smash_function_is_idempotent() {
    let mut once = sample();
    CompilableNode::smash_function(&mut once);
    let first = kinds(&once);
    CompilableNode::smash_function(&mut once);
    assert_eq!(kinds(&once), first);
}

#[test]
fn smash_function_keeps_totals() {
    let before = sample();
    let mut after = sample();
    CompilableNode::smash_function(&mut after);
    assert_eq!(alter_total(&before), alter_total(&after));
    assert_eq!(move_total(&before), move_total(&after));
}

#[test]
fn smash_function_leaves_unmergeable_alone() {
    let mut f = CompilableNode::empty_function("g".to_string());
    f.children.push(leaf(NodeType::ExitNode));
    f.children.push(leaf(NodeType::Jump("b".to_string())));
    f.children.push(leaf(NodeType::JmpZero("c".to_string())));
    f.children.push(leaf(NodeType::ExitNode));
    CompilableNode::smash_function(&mut f);
    assert_eq!(kinds(&f), vec!["ExitNode", "Jump(\"b\")", "JmpZero(\"c\")", "ExitNode"]);
}

#[test]
fn smash_function_on_no_children() {
    let mut f = CompilableNode::empty_function("h".to_string());
    CompilableNode::smash_function(&mut f);
    assert!(f.children.is_empty());
}

#[test]
fn smash_deep_merges_nested_children() {
    let mut outer = CompilableNode::empty_function("o".to_string());
    outer.children.push(sample());
    outer.children.push(leaf(NodeType::AlterCell(5)));
    outer.children.push(leaf(NodeType::AlterCell(5)));
    let r = CompilableNode::smash_deep(outer);
    assert_eq!(kinds(&r), vec!["Function(\"f\")", "AlterCell(10)"]);
    assert_eq!(r.children[0].children.len(), 5);
}

#[test]
fn duplicate_copies_kind() {
    let k = NodeType::JmpNonZero("z".to_string());
    assert_eq!(format!("{:?}", k.duplicate()), "JmpNonZero(\"z\")");
}

fn program() -> Program {
    Program::new(128, 12, vec![vec!['+', 'd'], vec![' ', '.']])
}

#[test]
fn compile_leaf_texts() {
    let p = program();
    assert_eq!(leaf(NodeType::AlterCell(-3)).compile(&p), "add [eax], -3");
    assert_eq!(leaf(NodeType::MovePtr(Vec2::new(0, -1))).compile(&p), "add eax, -128");
    assert_eq!(leaf(NodeType::MovePtr(Vec2::new(2, 1))).compile(&p), "add eax, 130");
    assert_eq!(leaf(NodeType::JmpZero("x".to_string())).compile(&p), "cmp [eax], 0\nje x");
    assert_eq!(leaf(NodeType::JmpNonZero("x".to_string())).compile(&p), "cmp [eax], 0\njne x");
    assert_eq!(leaf(NodeType::Jump("x".to_string())).compile(&p), "jmp x\n");
    assert_eq!(
        leaf(NodeType::WriteChar).compile(&p),
        "push eax\nmov ecx,eax\nmov ebx, 1\nmov eax, 4\nint 0x80\npop eax"
    );
    assert_eq!(
        leaf(NodeType::ReadChar).compile(&p),
        "push eax\nmov eax, 3\nmov ebx, 0\nmov ecx, eax\nint 0x80\npop eax"
    );
    assert_eq!(leaf(NodeType::ExitNode).compile(&p), "mov ebx, [eax]\nmov eax, 1\nint 0x80");
}

#[test]
fn compile_function_text() {
    let p = program();
    let mut f = CompilableNode::empty_function("_g".to_string());
    f.children.push(leaf(NodeType::AlterCell(2)));
    f.children.push(leaf(NodeType::Jump("_h".to_string())));
    assert_eq!(f.compile(&p), "_g:\nadd [eax], 2\njmp _h\n\n");
}

#[test]
fn compile_inlines_listed_functions() {
    let mut p = program();
    p.build_root().unwrap();
    p.inline_branches.push("_fD1_0".to_string());
    let jump = leaf(NodeType::Jump("_fD1_0".to_string()));
    let inlined = jump.compile(&p);
    assert_eq!(
        inlined,
        "_fD1_0:\npush eax\nmov ecx,eax\nmov ebx, 1\nmov eax, 4\nint 0x80\npop eax\nmov ebx, [eax]\nmov eax, 1\nint 0x80\n"
    );
    let missing = leaf(NodeType::Jump("_nowhere".to_string()));
    p.inline_branches.push("_nowhere".to_string());
    assert_eq!(missing.compile(&p), "");
}

#[test]
fn compile_bounded_stops_at_depth() {
    let mut p = program();
    p.build_root().unwrap();
    p.inline_branches.push("_fD1_0".to_string());
    let jump = leaf(NodeType::Jump("_fD1_0".to_string()));
    assert!(jump.compile_bounded(&p, 0).is_none());
    assert_eq!(jump.compile_bounded(&p, 1).unwrap(), jump.compile(&p));
    assert_eq!(jump.compile_bounded(&p, 9).unwrap(), jump.compile(&p));
}

#[test]
fn compile_bounded_reports_overflow() {
    let p = Program::new(isize::MAX, 1, vec![vec!['+']]);
    let m = leaf(NodeType::MovePtr(Vec2::new(0, 2)));
    assert!(m.compile_bounded(&p, 3).is_none());
    let ok = leaf(NodeType::MovePtr(Vec2::new(-1, 1)));
    assert_eq!(ok.compile_bounded(&p, 3).unwrap(), format!("add eax, {}", isize::MAX - 1));
}

#[test]
fn smash_deep_is_idempotent() {
    let mut outer = CompilableNode::empty_function("o".to_string());
    outer.children.push(sample());
    outer.children.push(leaf(NodeType::MovePtr(Vec2::new(1, 1))));
    outer.children.push(leaf(NodeType::MovePtr(Vec2::new(-1, 2))));
    let once = CompilableNode::smash_deep(outer);
    let first: Vec<String> = kinds(&once);
    let inner_first = kinds(&once.children[0]);
    let twice = CompilableNode::smash_deep(once);
    assert_eq!(kinds(&twice), first);
    assert_eq!(kinds(&twice.children[0]), inner_first);
    assert_eq!(first, vec!["Function(\"f\")", "MovePtr(Vec2 { x: 0, y: 3 })"]);
}
