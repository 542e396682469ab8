//! The tree of compilable nodes that the compiler builds from the grid,
//! the peephole merging of neighbouring nodes, and the assembly text that
//! each node compiles to.

use vstd::prelude::*;
use crate::grid::{Vec2, Direction, dx, dy, fits_isize};
use crate::text::{decimal, push_decimal};
use crate::compiler::{Program, list_contains};

verus! {

/// What a node does.
#[derive(Debug)]
pub enum NodeType {
    Function(String),
    Jump(String),
    JmpZero(String),
    JmpNonZero(String),
    ReadChar,
    WriteChar,
    ExitNode,
    AlterCell(isize),
    MovePtr(Vec2),
}

/// A node together with the nodes nested inside it.
pub struct CompilableNode {
    pub kind: NodeType,
    pub children: Vec<CompilableNode>,
}

/// The mathematical content of a `NodeType`: names as character sequences,
/// amounts and offsets as integers.
pub enum Kind {
    Function(Seq<char>),
    Jump(Seq<char>),
    JmpZero(Seq<char>),
    JmpNonZero(Seq<char>),
    ReadChar,
    WriteChar,
    ExitNode,
    AlterCell(int),
    MovePtr(int, int),
}

/// The mathematical content of a `CompilableNode`.
pub struct Tree {
    pub kind: Kind,
    pub children: Seq<Tree>,
}

impl View for NodeType {
    type V = Kind;

    open spec fn view(&self) -> Kind {
        match self {
            NodeType::Function(s) => Kind::Function(s@),
            NodeType::Jump(s) => Kind::Jump(s@),
            NodeType::JmpZero(s) => Kind::JmpZero(s@),
            NodeType::JmpNonZero(s) => Kind::JmpNonZero(s@),
            NodeType::ReadChar => Kind::ReadChar,
            NodeType::WriteChar => Kind::WriteChar,
            NodeType::ExitNode => Kind::ExitNode,
            NodeType::AlterCell(a) => Kind::AlterCell(*a as int),
            NodeType::MovePtr(v) => Kind::MovePtr(v.x as int, v.y as int),
        }
    }
}

impl CompilableNode {
    /// The tree that this node denotes.
    pub open spec fn tree(self) -> Tree
        decreases self,
    {
        Tree {
            kind: self.kind@,
            children: Seq::new(
                self.children@.len(),
                |i: int|
                    if 0 <= i < self.children@.len() {
                        proof {
                            assert(decreases_to!(self => self.children@[i])) by {
                                broadcast use vstd::std_specs::vec::axiom_vec_decreases_to_view;
                            }
                        }
                        self.children@[i].tree()
                    } else {
                        leaf(Kind::ExitNode)
                    },
            ),
        }
    }
}

/// The trees of a sequence of nodes.
pub open spec fn trees(s: Seq<CompilableNode>) -> Seq<Tree> {
    Seq::new(s.len(), |i: int| s[i].tree())
}

/// A node of kind `k` with nothing nested inside it.
pub open spec fn leaf(k: Kind) -> Tree {
    Tree { kind: k, children: Seq::empty() }
}

/// Whether a kind's integers fit the machine integers that hold them.
pub open spec fn kind_fits(k: Kind) -> bool {
    match k {
        Kind::AlterCell(a) => fits_isize(a),
        Kind::MovePtr(x, y) => fits_isize(x) && fits_isize(y),
        _ => true,
    }
}

// ----------------------------------------------------------------------
// Merging neighbours
// ----------------------------------------------------------------------

/// Whether a node of kind `a` followed by one of kind `b` merge into one:
/// two cell changes, two pointer moves, or a jump followed by an exit
/// (which the jump never reaches).
pub open spec fn mergeable(a: Kind, b: Kind) -> bool {
    match a {
        Kind::AlterCell(_) => b is AlterCell,
        Kind::MovePtr(_, _) => b is MovePtr,
        Kind::Jump(_) => b is ExitNode,
        _ => false,
    }
}

/// The kind of the node that replaces two mergeable neighbours.
pub open spec fn merged_kind(a: Kind, b: Kind) -> Kind {
    match a {
        Kind::AlterCell(x) => match b {
            Kind::AlterCell(y) => Kind::AlterCell(x + y),
            _ => a,
        },
        Kind::MovePtr(x1, y1) => match b {
            Kind::MovePtr(x2, y2) => Kind::MovePtr(x1 + x2, y1 + y2),
            _ => a,
        },
        _ => a,
    }
}

/// The children after merging, read left to right: each node is merged
/// into the node before it whenever the two are mergeable.
pub open spec fn smash_seq(s: Seq<Tree>) -> Seq<Tree>
    decreases s.len(),
{
    if s.len() == 0 {
        s
    } else {
        let acc = smash_seq(s.drop_last());
        let x = s.last();
        if acc.len() > 0 && mergeable(acc.last().kind, x.kind) {
            acc.update(acc.len() - 1, leaf(merged_kind(acc.last().kind, x.kind)))
        } else {
            acc.push(x)
        }
    }
}

/// Every merge made by `smash_seq(s)` yields amounts and offsets that fit
/// in an `isize`.
pub open spec fn smash_fits(s: Seq<Tree>) -> bool
    decreases s.len(),
{
    if s.len() == 0 {
        true
    } else {
        let acc = smash_seq(s.drop_last());
        &&& smash_fits(s.drop_last())
        &&& (acc.len() > 0 && mergeable(acc.last().kind, s.last().kind)) ==> kind_fits(
            merged_kind(acc.last().kind, s.last().kind),
        )
    }
}

/// No two neighbours of `s` are mergeable.
pub open spec fn normal_seq(s: Seq<Tree>) -> bool {
    forall|i: int| 0 <= i < s.len() - 1 ==> !mergeable(#[trigger] s[i].kind, s[i + 1].kind)
}

pub proof fn lemma_smash_fits_prefix(s: Seq<Tree>, k: int)
    requires
        smash_fits(s),
        0 <= k <= s.len(),
    ensures
        smash_fits(s.take(k)),
    decreases s.len(),
{
    if k < s.len() {
        assert(s.drop_last().take(k) =~= s.take(k));
        lemma_smash_fits_prefix(s.drop_last(), k);
    } else {
        assert(s.take(k) =~= s);
    }
}

/// The merged kind of two mergeable neighbours is of the same sort as the
/// first of them, so it merges with what the first would merge with.
pub proof fn lemma_merged_same_sort(x: Kind, a: Kind, b: Kind)
    requires
        mergeable(a, b),
    ensures
        mergeable(x, merged_kind(a, b)) == mergeable(x, a),
        mergeable(merged_kind(a, b), b) == mergeable(a, b),
{
}

/// After merging, no two neighbours are mergeable any more.
pub proof fn lemma_smash_normal(s: Seq<Tree>)
    ensures
        normal_seq(smash_seq(s)),
    decreases s.len(),
{
    if s.len() > 0 {
        let acc = smash_seq(s.drop_last());
        lemma_smash_normal(s.drop_last());
        let x = s.last();
        if acc.len() > 0 && mergeable(acc.last().kind, x.kind) {
            let r = smash_seq(s);
            assert forall|i: int| 0 <= i < r.len() - 1 implies !mergeable(#[trigger] r[i].kind, r[i + 1].kind) by {
                if i == r.len() - 2 {
                    lemma_merged_same_sort(acc[i].kind, acc.last().kind, x.kind);
                } else {
                    assert(r[i] == acc[i] && r[i + 1] == acc[i + 1]);
                }
            }
        } else {
            let r = smash_seq(s);
            assert forall|i: int| 0 <= i < r.len() - 1 implies !mergeable(#[trigger] r[i].kind, r[i + 1].kind) by {
                if i < r.len() - 2 {
                    assert(r[i] == acc[i] && r[i + 1] == acc[i + 1]);
                }
            }
        }
    }
}

/// A sequence without mergeable neighbours is left as it is, and merging it
/// makes no merge at all.
pub proof fn lemma_normal_fixed(s: Seq<Tree>)
    requires
        normal_seq(s),
    ensures
        smash_seq(s) == s,
        smash_fits(s),
    decreases s.len(),
{
    if s.len() > 0 {
        let p = s.drop_last();
        assert(normal_seq(p)) by {
            assert forall|i: int| 0 <= i < p.len() - 1 implies !mergeable(#[trigger] p[i].kind, p[i + 1].kind) by {
                assert(p[i] == s[i] && p[i + 1] == s[i + 1]);
            }
        }
        lemma_normal_fixed(p);
        if p.len() > 0 {
            assert(p.last() == s[s.len() - 2]);
        }
        assert(p.push(s.last()) =~= s);
    }
}

/// Merging is idempotent: merging the merged children changes nothing.
pub proof fn lemma_smash_idempotent(s: Seq<Tree>)
    ensures
        smash_seq(smash_seq(s)) == smash_seq(s),
        smash_fits(smash_seq(s)),
{
    lemma_smash_normal(s);
    lemma_normal_fixed(smash_seq(s));
}

/// Each node left after merging is either one of the given nodes or a
/// freshly merged node with nothing nested in it.
pub proof fn lemma_smash_elements(s: Seq<Tree>)
    ensures
        forall|i: int| 0 <= i < smash_seq(s).len() ==> s.contains(#[trigger] smash_seq(s)[i])
            || smash_seq(s)[i].children.len() == 0,
        smash_seq(s).len() <= s.len(),
    decreases s.len(),
{
    if s.len() > 0 {
        let p = s.drop_last();
        lemma_smash_elements(p);
        let r = smash_seq(s);
        let acc = smash_seq(p);
        assert forall|i: int| 0 <= i < r.len() implies s.contains(#[trigger] r[i]) || r[i].children.len() == 0 by {
            if i < acc.len() && r[i] == acc[i] {
                if p.contains(acc[i]) {
                    let j = choose|j: int| 0 <= j < p.len() && p[j] == acc[i];
                    assert(s[j] == acc[i]);
                }
            } else if i == acc.len() {
                assert(r[i] == s.last());
                assert(s[s.len() - 1] == r[i]);
            }
        }
    }
}

/// The absolute value of an integer.
pub open spec fn abs(v: int) -> nat {
    if v < 0 { (-v) as nat } else { v as nat }
}

/// How far a kind moves the cell value or the pointer, in absolute terms.
pub open spec fn kind_weight(k: Kind) -> nat {
    match k {
        Kind::AlterCell(a) => abs(a),
        Kind::MovePtr(x, y) => abs(x) + abs(y),
        _ => 0,
    }
}

/// The summed weight of a sequence of nodes (nested nodes not counted).
pub open spec fn weight(s: Seq<Tree>) -> nat
    decreases s.len(),
{
    if s.len() == 0 {
        0
    } else {
        weight(s.drop_last()) + kind_weight(s.last().kind)
    }
}

/// Merging never adds weight, and when the total weight fits in an `isize`
/// every merge fits too.
pub proof fn lemma_smash_weight(s: Seq<Tree>)
    ensures
        weight(smash_seq(s)) <= weight(s),
        weight(s) <= isize::MAX ==> smash_fits(s),
    decreases s.len(),
{
    if s.len() > 0 {
        let p = s.drop_last();
        lemma_smash_weight(p);
        let acc = smash_seq(p);
        let x = s.last();
        if acc.len() > 0 && mergeable(acc.last().kind, x.kind) {
            let m = leaf(merged_kind(acc.last().kind, x.kind));
            assert(acc.update(acc.len() - 1, m).drop_last() =~= acc.drop_last());
            assert(kind_weight(m.kind) <= kind_weight(acc.last().kind) + kind_weight(x.kind));
        } else {
            assert(acc.push(x).drop_last() =~= acc);
        }
    }
}

pub proof fn lemma_weight_push(s: Seq<Tree>, t: Tree)
    ensures
        weight(s.push(t)) == weight(s) + kind_weight(t.kind),
{
    assert(s.push(t).drop_last() =~= s);
}

/// The sum of all cell changes in a sequence.
pub open spec fn alter_total(s: Seq<Tree>) -> int
    decreases s.len(),
{
    if s.len() == 0 {
        0
    } else {
        alter_total(s.drop_last()) + match s.last().kind {
            Kind::AlterCell(a) => a,
            _ => 0,
        }
    }
}

/// The sum of all pointer moves in a sequence, as a horizontal and a
/// vertical total.
pub open spec fn move_total(s: Seq<Tree>) -> (int, int)
    decreases s.len(),
{
    if s.len() == 0 {
        (0, 0)
    } else {
        let (x, y) = move_total(s.drop_last());
        match s.last().kind {
            Kind::MovePtr(a, b) => (x + a, y + b),
            _ => (x, y),
        }
    }
}

/// Merging keeps the total change to cells and the total pointer movement.
pub proof fn lemma_smash_preserves_totals(s: Seq<Tree>)
    ensures
        alter_total(smash_seq(s)) == alter_total(s),
        move_total(smash_seq(s)) == move_total(s),
    decreases s.len(),
{
    if s.len() > 0 {
        let p = s.drop_last();
        lemma_smash_preserves_totals(p);
        let acc = smash_seq(p);
        let x = s.last();
        if acc.len() > 0 && mergeable(acc.last().kind, x.kind) {
            let m = leaf(merged_kind(acc.last().kind, x.kind));
            assert(acc.update(acc.len() - 1, m).drop_last() =~= acc.drop_last());
        } else {
            assert(acc.push(x).drop_last() =~= acc);
        }
    }
}

/// Whether the last node of `s` that is not an exit is a jump, with only
/// exits after it: an exit that came next would never be reached.
pub open spec fn after_jump(s: Seq<Tree>) -> bool
    decreases s.len(),
{
    if s.len() == 0 {
        false
    } else {
        match s.last().kind {
            Kind::Jump(_) => true,
            Kind::ExitNode => after_jump(s.drop_last()),
            _ => false,
        }
    }
}

/// Whether a node of kind `k`, coming after `s`, stands on its own: it is
/// neither a cell change nor a pointer move, and not an exit that follows a
/// jump.
pub open spec fn stands_alone(s: Seq<Tree>, k: Kind) -> bool {
    &&& !(k is AlterCell)
    &&& !(k is MovePtr)
    &&& (k is ExitNode ==> !after_jump(s))
}

/// The kinds of the nodes of `s` that stand on their own, in order: every
/// read, print, function, jump and conditional jump, and every exit that no
/// jump comes right before.
pub open spec fn alone_kinds(s: Seq<Tree>) -> Seq<Kind>
    decreases s.len(),
{
    if s.len() == 0 {
        Seq::empty()
    } else if stands_alone(s.drop_last(), s.last().kind) {
        alone_kinds(s.drop_last()).push(s.last().kind)
    } else {
        alone_kinds(s.drop_last())
    }
}

/// Merging only folds cell changes into cell changes, pointer moves into
/// pointer moves and unreachable exits into the jump before them: every
/// other node (each read and each print among them) is kept, in order, and
/// whether an exit would be reachable does not change.
pub proof fn lemma_smash_keeps_alone(s: Seq<Tree>)
    ensures
        alone_kinds(smash_seq(s)) == alone_kinds(s),
        after_jump(smash_seq(s)) == after_jump(s),
    decreases s.len(),
{
    if s.len() > 0 {
        let p = s.drop_last();
        lemma_smash_keeps_alone(p);
        let acc = smash_seq(p);
        let x = s.last();
        if acc.len() > 0 && mergeable(acc.last().kind, x.kind) {
            let m = leaf(merged_kind(acc.last().kind, x.kind));
            let r = acc.update(acc.len() - 1, m);
            assert(r.drop_last() =~= acc.drop_last());
            assert(r.last() == m);
        } else {
            assert(acc.push(x).drop_last() =~= acc);
        }
    }
}

/// After merging, no cell change is followed by another, no pointer move by
/// another, and no jump by an exit.
pub proof fn lemma_smash_leaves_no_pair(s: Seq<Tree>)
    ensures
        forall|i: int|
            0 <= i < smash_seq(s).len() - 1 ==> {
                let (a, b) = (#[trigger] smash_seq(s)[i].kind, smash_seq(s)[i + 1].kind);
                &&& !(a is AlterCell && b is AlterCell)
                &&& !(a is MovePtr && b is MovePtr)
                &&& !(a is Jump && b is ExitNode)
            },
{
    lemma_smash_normal(s);
}

// ----------------------------------------------------------------------
// Merging at every depth
// ----------------------------------------------------------------------

/// The tree with neighbours merged at every depth: nested nodes first, then
/// the children of the node itself.
pub open spec fn smash_deep(t: Tree) -> Tree
    decreases t, 1nat,
{
    Tree { kind: t.kind, children: smash_seq(deep_children(t)) }
}

/// The children of `t`, each merged at every depth.
pub open spec fn deep_children(t: Tree) -> Seq<Tree>
    decreases t, 0nat,
{
    Seq::new(
        t.children.len(),
        |i: int|
            if 0 <= i < t.children.len() {
                smash_deep(t.children[i])
            } else {
                t
            },
    )
}

pub proof fn lemma_deep_children_index(t: Tree, i: int)
    requires
        0 <= i < t.children.len(),
    ensures
        deep_children(t)[i] == smash_deep(t.children[i]),
        deep_children(t).len() == t.children.len(),
{
}

/// Every merge made while merging `t` at every depth fits in an `isize`.
pub open spec fn deep_fits(t: Tree) -> bool
    decreases t,
{
    &&& forall|i: int| 0 <= i < t.children.len() ==> deep_fits(#[trigger] t.children[i])
    &&& smash_fits(deep_children(t))
}

/// No two neighbours are mergeable anywhere in the tree.
pub open spec fn deep_normal(t: Tree) -> bool
    decreases t,
{
    &&& normal_seq(t.children)
    &&& forall|i: int| 0 <= i < t.children.len() ==> deep_normal(#[trigger] t.children[i])
}

/// A tree with nothing left to merge is its own merged form, and merging it
/// makes no merge.
pub proof fn lemma_deep_normal_fixed(t: Tree)
    requires
        deep_normal(t),
    ensures
        smash_deep(t) == t,
        deep_fits(t),
    decreases t,
{
    assert forall|i: int| 0 <= i < t.children.len() implies smash_deep(#[trigger] t.children[i])
        == t.children[i] && deep_fits(t.children[i]) by {
        lemma_deep_normal_fixed(t.children[i]);
    }
    assert(deep_children(t) =~= t.children);
    lemma_normal_fixed(t.children);
}

/// Merging at every depth leaves nothing to merge.
pub proof fn lemma_smash_deep_normal(t: Tree)
    ensures
        deep_normal(smash_deep(t)),
    decreases t,
{
    let d = deep_children(t);
    assert forall|i: int| 0 <= i < d.len() implies deep_normal(#[trigger] d[i]) by {
        lemma_smash_deep_normal(t.children[i]);
    }
    lemma_smash_normal(d);
    lemma_smash_elements(d);
    let r = smash_seq(d);
    assert forall|i: int| 0 <= i < r.len() implies deep_normal(#[trigger] r[i]) by {
        if d.contains(r[i]) {
            let j = choose|j: int| 0 <= j < d.len() && d[j] == r[i];
            assert(deep_normal(d[j]));
        } else {
            assert(r[i].children.len() == 0);
            assert(r[i].children =~= Seq::<Tree>::empty());
        }
    }
}

/// A node whose children have nothing left to merge inside them, and whose
/// children's total weight fits in an `isize`, merges without overflow, and
/// merging it only merges its own children.
pub proof fn lemma_fits_by_weight(t: Tree)
    requires
        forall|i: int| 0 <= i < t.children.len() ==> deep_normal(#[trigger] t.children[i]),
        weight(t.children) <= isize::MAX,
    ensures
        deep_fits(t),
        smash_deep(t) == (Tree { kind: t.kind, children: smash_seq(t.children) }),
{
    assert forall|i: int| 0 <= i < t.children.len() implies smash_deep(#[trigger] t.children[i])
        == t.children[i] && deep_fits(t.children[i]) by {
        lemma_deep_normal_fixed(t.children[i]);
    }
    assert(deep_children(t) =~= t.children);
    lemma_smash_weight(t.children);
}

/// Merging at every depth is idempotent.
pub proof fn lemma_smash_deep_idempotent(t: Tree)
    ensures
        smash_deep(smash_deep(t)) == smash_deep(t),
{
    lemma_smash_deep_normal(t);
    lemma_deep_normal_fixed(smash_deep(t));
}

/// Each node of `s` merged at every depth.
pub open spec fn smash_each(s: Seq<Tree>) -> Seq<Tree> {
    Seq::new(s.len(), |i: int| smash_deep(s[i]))
}

/// A node with nothing nested in it is its own merged form.
pub proof fn lemma_smash_deep_leaf(k: Kind)
    ensures
        smash_deep(leaf(k)) == leaf(k),
{
    assert(deep_children(leaf(k)) =~= Seq::<Tree>::empty());
    assert(smash_seq(Seq::<Tree>::empty()) =~= Seq::<Tree>::empty());
}

/// Merging the children of a node commutes with merging each child at every
/// depth, since merging at depth keeps each node's kind.
pub proof fn lemma_smash_seq_each(s: Seq<Tree>)
    ensures
        smash_seq(smash_each(s)) == smash_each(smash_seq(s)),
    decreases s.len(),
{
    if s.len() > 0 {
        let p = s.drop_last();
        let x = s.last();
        assert(smash_each(s).drop_last() =~= smash_each(p));
        lemma_smash_seq_each(p);
        let acc = smash_seq(p);
        let a = smash_each(acc);
        if acc.len() > 0 && mergeable(acc.last().kind, x.kind) {
            let m = merged_kind(acc.last().kind, x.kind);
            lemma_smash_deep_leaf(m);
            assert(smash_each(acc.update(acc.len() - 1, leaf(m))) =~= a.update(a.len() - 1, leaf(m)));
        } else {
            assert(smash_each(acc.push(x)) =~= a.push(smash_deep(x)));
        }
    }
}

/// Merging at every depth is what merging a node's own children first, and
/// then each resulting child at every depth, gives.
pub proof fn lemma_smash_deep_top_down(t: Tree)
    ensures
        smash_deep(t) == (Tree { kind: t.kind, children: smash_each(smash_seq(t.children)) }),
{
    assert(deep_children(t) =~= smash_each(t.children));
    lemma_smash_seq_each(t.children);
}

/// Allowing inlining to nest deeper never changes a text that was already
/// produced.
pub proof fn lemma_compile_fuel_mono(t: Tree, env: CompileEnv, f1: nat, f2: nat)
    requires
        f1 <= f2,
        compile_tree(t, env, f1) is Some,
    ensures
        compile_tree(t, env, f2) == compile_tree(t, env, f1),
    decreases f1, t, 1nat,
{
    match t.kind {
        Kind::Function(name) => {
            lemma_children_fuel_mono(t.children, env, f1, f2, 0);
        },
        Kind::Jump(to) => {
            if env.inline.contains(to) {
                if let Some(f) = find_fn(to, env.root) {
                    lemma_compile_fuel_mono(f, env, (f1 - 1) as nat, (f2 - 1) as nat);
                }
            }
        },
        _ => {},
    }
}

pub proof fn lemma_children_fuel_mono(cs: Seq<Tree>, env: CompileEnv, f1: nat, f2: nat, i: int)
    requires
        f1 <= f2,
        0 <= i,
        compile_children(cs, env, f1, i) is Some,
    ensures
        compile_children(cs, env, f2, i) == compile_children(cs, env, f1, i),
    decreases f1, cs, (cs.len() - i) as nat,
{
    if i < cs.len() {
        lemma_compile_fuel_mono(cs[i], env, f1, f2);
        lemma_children_fuel_mono(cs, env, f1, f2, i + 1);
    }
}

/// The compiled text of a node does not depend on how deep inlining was
/// allowed to nest: any depth that suffices gives the same text.
pub proof fn lemma_compiled_any_fuel(t: Tree, env: CompileEnv, fuel: nat)
    requires
        compile_tree(t, env, fuel) is Some,
    ensures
        compilable(t, env),
        compiled(t, env) == compile_tree(t, env, fuel).unwrap(),
{
    let f0 = choose|f: nat| (#[trigger] compile_tree(t, env, f)).is_some();
    if f0 <= fuel {
        lemma_compile_fuel_mono(t, env, f0, fuel);
    } else {
        lemma_compile_fuel_mono(t, env, fuel, f0);
    }
}

impl NodeType {
    /// A copy of this kind.
    pub fn duplicate(&self) -> (r: NodeType)
        ensures
            r@ == self@,
    {
        match self {
            NodeType::Function(s) => NodeType::Function(s.clone()),
            NodeType::Jump(s) => NodeType::Jump(s.clone()),
            NodeType::JmpZero(s) => NodeType::JmpZero(s.clone()),
            NodeType::JmpNonZero(s) => NodeType::JmpNonZero(s.clone()),
            NodeType::ReadChar => NodeType::ReadChar,
            NodeType::WriteChar => NodeType::WriteChar,
            NodeType::ExitNode => NodeType::ExitNode,
            NodeType::AlterCell(a) => NodeType::AlterCell(*a),
            NodeType::MovePtr(v) => NodeType::MovePtr(*v),
        }
    }
}

impl CompilableNode {
    pub fn new(kind: NodeType) -> (r: Self)
        ensures
            r.tree() == leaf(kind@),
            r.children@.len() == 0,
    {
        let r = CompilableNode { kind, children: Vec::new() };
        assert(r.tree().children =~= Seq::<Tree>::empty());
        r
    }

    pub fn empty_function(id: String) -> (r: Self)
        ensures
            r.tree() == leaf(Kind::Function(id@)),
            r.children@.len() == 0,
    {
        Self::new(NodeType::Function(id))
    }

    pub fn inc_cell(amount: isize) -> (r: Self)
        ensures
            r.tree() == leaf(Kind::AlterCell(amount as int)),
    {
        Self::new(NodeType::AlterCell(amount))
    }

    pub fn move_ptr(dir: Direction) -> (r: Self)
        ensures
            r.tree() == leaf(Kind::MovePtr(dx(dir), dy(dir))),
    {
        Self::new(NodeType::MovePtr(Vec2::new(0, 0).add_dir(dir)))
    }

    /// The node that replaces `a` followed by `b`, if the two merge.
    fn smash_nodes(a: &CompilableNode, b: &CompilableNode) -> (r: Option<CompilableNode>)
        requires
            mergeable(a.tree().kind, b.tree().kind) ==> kind_fits(
                merged_kind(a.tree().kind, b.tree().kind),
            ),
        ensures
            r.is_some() == mergeable(a.tree().kind, b.tree().kind),
            r matches Some(m) ==> m.tree() == leaf(merged_kind(a.tree().kind, b.tree().kind)),
    {
        match &a.kind {
            NodeType::AlterCell(d_1) => match &b.kind {
                NodeType::AlterCell(d_2) => Some(CompilableNode::new(NodeType::AlterCell(*d_1 + *d_2))),
                _ => None,
            },
            NodeType::MovePtr(d_1) => match &b.kind {
                NodeType::MovePtr(d_2) => Some(CompilableNode::new(NodeType::MovePtr(d_1.add_vec(*d_2)))),
                _ => None,
            },
            NodeType::Jump(to) => match &b.kind {
                NodeType::ExitNode => Some(CompilableNode::new(NodeType::Jump(to.clone()))),
                _ => None,
            },
            _ => None,
        }
    }

    /// Merges neighbouring children wherever they merge (see `smash_seq`).
    pub fn smash_function(node: &mut CompilableNode)
        requires
            smash_fits(old(node).tree().children),
        ensures
            final(node).kind == old(node).kind,
            final(node).tree() == (Tree {
                kind: old(node).tree().kind,
                children: smash_seq(old(node).tree().children),
            }),
    {
        let ghost orig = old(node).tree().children;
        let mut rest: Vec<CompilableNode> = Vec::new();
        std::mem::swap(&mut rest, &mut node.children);
        assert(forall|j: int| 0 <= j < rest@.len() ==> #[trigger] rest@[j].tree() == orig[j]);
        let mut acc: Vec<CompilableNode> = Vec::new();
        let ghost mut k: int = 0;
        proof {
            assert(orig.take(0) =~= Seq::<Tree>::empty());
        }
        while rest.len() > 0
            invariant
                0 <= k <= orig.len(),
                rest@.len() == orig.len() - k,
                forall|j: int| 0 <= j < rest@.len() ==> #[trigger] rest@[j].tree() == orig[k + j],
                trees(acc@) =~= smash_seq(orig.take(k)),
                smash_fits(orig),
            decreases rest.len(),
        {
            let ghost rest_before = rest@;
            let x = rest.remove(0);
            proof {
                assert(rest_before[0].tree() == orig[k + 0]);
                assert(x.tree() == orig[k]);
                assert(orig.take(k + 1).drop_last() =~= orig.take(k));
                lemma_smash_fits_prefix(orig, k + 1);
            }
            if acc.len() > 0 {
                let last = acc.len() - 1;
                assert(acc@[last as int].tree() == smash_seq(orig.take(k)).last());
                match Self::smash_nodes(&acc[last], &x) {
                    Some(m) => {
                        acc.set(last, m);
                    },
                    None => {
                        acc.push(x);
                    },
                }
            } else {
                acc.push(x);
            }
            proof {
                k = k + 1;
            }
            assert forall|j: int| 0 <= j < rest@.len() implies #[trigger] rest@[j].tree() == orig[k + j] by {
                assert(rest@[j] == rest_before[j + 1]);
            }
            assert(trees(acc@) =~= smash_seq(orig.take(k)));
        }
        assert(orig.take(k) =~= orig);
        node.children = acc;
        assert(node.tree().children =~= smash_seq(orig));
    }
}

impl CompilableNode {
    /// Merges neighbours at every depth of the tree.
    pub fn smash_deep(node: CompilableNode) -> (r: CompilableNode)
        requires
            deep_fits(node.tree()),
        ensures
            r.tree() == smash_deep(node.tree()),
        decreases node,
    {
        let ghost orig = node.children@;
        let ghost n0 = node;
        let CompilableNode { kind, children } = node;
        let mut out: Vec<CompilableNode> = Vec::new();
        let mut rest = children;
        while rest.len() > 0
            invariant
                out@.len() + rest@.len() == orig.len(),
                forall|j: int| 0 <= j < rest@.len() ==> #[trigger] rest@[j] == orig[out@.len() + j],
                forall|j: int| 0 <= j < out@.len() ==> #[trigger] out@[j].tree() == smash_deep(orig[j].tree()),
                orig == n0.children@,
                n0 == node,
                forall|i: int| 0 <= i < orig.len() ==> deep_fits(#[trigger] n0.tree().children[i]),
            decreases rest.len(),
        {
            let ghost k = out@.len() as int;
            let ghost rest_before = rest@;
            let c = rest.remove(0);
            assert(c == rest_before[0]);
            assert(c == orig[k]);
            assert(n0.tree().children[k] == c.tree());
            proof {
                assert(decreases_to!(n0 => c)) by {
                    broadcast use vstd::std_specs::vec::axiom_vec_decreases_to_view;
                    assert(decreases_to!(n0 => n0.children@[k]));
                }
            }
            let d = Self::smash_deep(c);
            out.push(d);
            assert forall|j: int| 0 <= j < rest@.len() implies #[trigger] rest@[j] == orig[out@.len() + j] by {
                assert(rest@[j] == rest_before[j + 1]);
            }
        }
        let mut r = CompilableNode { kind, children: out };
        assert forall|j: int| 0 <= j < orig.len() implies r.tree().children[j] == deep_children(n0.tree())[j] by {
            lemma_deep_children_index(n0.tree(), j);
            assert(n0.tree().children[j] == orig[j].tree());
            assert(r.children@[j] == out@[j]);
            assert(r.tree().children[j] == r.children@[j].tree());
            assert(out@[j].tree() == smash_deep(orig[j].tree()));
        }
        assert(r.tree().children =~= deep_children(n0.tree()));
        Self::smash_function(&mut r);
        r
    }
}

// ----------------------------------------------------------------------
// Finding a function by name
// ----------------------------------------------------------------------

/// The first function node named `name` met in a depth-first walk of `t`
/// that only descends through function nodes.
pub open spec fn find_fn(name: Seq<char>, t: Tree) -> Option<Tree>
    decreases t, 1nat,
{
    match t.kind {
        Kind::Function(n) => if n == name {
            Some(t)
        } else {
            find_in(name, t.children, 0)
        },
        _ => None,
    }
}

/// The first match of `find_fn` among `cs[i..]`.
pub open spec fn find_in(name: Seq<char>, cs: Seq<Tree>, i: int) -> Option<Tree>
    decreases cs, (cs.len() - i) as nat,
    when 0 <= i
{
    if i >= cs.len() {
        None
    } else {
        match find_fn(name, cs[i]) {
            Some(f) => Some(f),
            None => find_in(name, cs, i + 1),
        }
    }
}

// ----------------------------------------------------------------------
// Compiling to assembly text
// ----------------------------------------------------------------------

/// What compiling a node depends on besides the node: the tree of the whole
/// program (searched for inlined functions), the names of the functions
/// to inline, and the width of the tape.
pub struct CompileEnv {
    pub root: Tree,
    pub inline: Set<Seq<char>>,
    pub width: int,
}

/// The assembly text of `t`; `None` when a computed offset does not fit in an
/// `isize` or when inlining nests deeper than `fuel`.
pub open spec fn compile_tree(t: Tree, env: CompileEnv, fuel: nat) -> Option<Seq<char>>
    decreases fuel, t, 1nat,
{
    match t.kind {
        Kind::Function(name) => match compile_children(t.children, env, fuel, 0) {
            Some(body) => Some(name + ":\n"@ + body),
            None => None,
        },
        Kind::Jump(to) => if env.inline.contains(to) {
            match find_fn(to, env.root) {
                Some(f) => if fuel == 0 {
                    None
                } else {
                    compile_tree(f, env, (fuel - 1) as nat)
                },
                None => Some(Seq::empty()),
            }
        } else {
            Some("jmp "@ + to + "\n"@)
        },
        Kind::JmpZero(to) => Some("cmp [eax], 0\nje "@ + to),
        Kind::JmpNonZero(to) => Some("cmp [eax], 0\njne "@ + to),
        Kind::AlterCell(a) => Some("add [eax], "@ + decimal(a)),
        Kind::MovePtr(x, y) => if fits_isize(y * env.width) && fits_isize(x + y * env.width) {
            Some("add eax, "@ + decimal(x + y * env.width))
        } else {
            None
        },
        Kind::WriteChar => Some(write_char_text()),
        Kind::ReadChar => Some(read_char_text()),
        Kind::ExitNode => Some(exit_text()),
    }
}

/// The texts of `cs[i..]`, each followed by a line break.
pub open spec fn compile_children(cs: Seq<Tree>, env: CompileEnv, fuel: nat, i: int) -> Option<Seq<char>>
    decreases fuel, cs, (cs.len() - i) as nat,
    when 0 <= i
{
    if i >= cs.len() {
        Some(Seq::empty())
    } else {
        match compile_tree(cs[i], env, fuel) {
            Some(a) => match compile_children(cs, env, fuel, i + 1) {
                Some(rest) => Some(a + "\n"@ + rest),
                None => None,
            },
            None => None,
        }
    }
}

pub open spec fn write_char_text() -> Seq<char> {
    "push eax\nmov ecx,eax\nmov ebx, 1\nmov eax, 4\nint 0x80\npop eax"@
}

pub open spec fn read_char_text() -> Seq<char> {
    "push eax\nmov eax, 3\nmov ebx, 0\nmov ecx, eax\nint 0x80\npop eax"@
}

pub open spec fn exit_text() -> Seq<char> {
    "mov ebx, [eax]\nmov eax, 1\nint 0x80"@
}

/// `t` compiles with inlining allowed to nest to some finite depth.
pub open spec fn compilable(t: Tree, env: CompileEnv) -> bool {
    exists|fuel: nat| (#[trigger] compile_tree(t, env, fuel)).is_some()
}

/// The assembly text of `t` (see `compile_tree`), when `compilable(t, env)`.
pub open spec fn compiled(t: Tree, env: CompileEnv) -> Seq<char> {
    compile_tree(t, env, choose|fuel: nat| (#[trigger] compile_tree(t, env, fuel)).is_some()).unwrap()
}

impl CompilableNode {
    /// The assembly text of this node within `program`.
    pub fn compile(&self, program: &Program) -> (r: String)
        requires
            compilable(self.tree(), program.env()),
        ensures
            r@ == compiled(self.tree(), program.env()),
    {
        let ghost fuel = choose|fuel: nat| (#[trigger] compile_tree(self.tree(), program.env(), fuel)).is_some();
        self.compile_with(program, Ghost(fuel))
    }

    fn compile_with(&self, program: &Program, fuel: Ghost<nat>) -> (r: String)
        requires
            compile_tree(self.tree(), program.env(), fuel@) is Some,
        ensures
            r@ == compile_tree(self.tree(), program.env(), fuel@).unwrap(),
        decreases fuel@, self,
    {
        let ghost env = program.env();
        match &self.kind {
            NodeType::Function(name) => {
                let ghost cs = self.tree().children;
                let mut ret = name.clone();
                ret.append(":\n");
                let mut i: usize = 0;
                while i < self.children.len()
                    invariant
                        i <= self.children@.len(),
                        cs == self.tree().children,
                        cs.len() == self.children@.len(),
                        env == program.env(),
                        compile_children(cs, env, fuel@, i as int) is Some,
                        ret@ + compile_children(cs, env, fuel@, i as int).unwrap()
                            == compile_tree(self.tree(), env, fuel@).unwrap(),
                    decreases self.children@.len() - i,
                {
                    proof {
                        assert(decreases_to!(self => self.children@[i as int])) by {
                            broadcast use vstd::std_specs::vec::axiom_vec_decreases_to_view;
                        }
                        assert(cs[i as int] == self.children@[i as int].tree());
                    }
                    let ghost before = ret@;
                    let part = self.children[i].compile_with(program, fuel);
                    ret.append(part.as_str());
                    ret.append("\n");
                    proof {
                        let a = compile_tree(cs[i as int], env, fuel@).unwrap();
                        let rest = compile_children(cs, env, fuel@, i + 1).unwrap();
                        assert(compile_children(cs, env, fuel@, i as int).unwrap() == a + "\n"@ + rest);
                        assert(ret@ + rest =~= before + (a + "\n"@ + rest));
                    }
                    i = i + 1;
                }
                proof {
                    assert(ret@ + Seq::<char>::empty() =~= ret@);
                }
                ret
            },
            NodeType::Jump(to) => {
                if list_contains(&program.inline_branches, to) {
                    if let Some(func) = program.find_function(to, &program.root) {
                        return func.compile_with(program, Ghost((fuel@ - 1) as nat));
                    }
                    String::new()
                } else {
                    let mut ret = String::new();
                    ret.append("jmp ");
                    ret.append(to.as_str());
                    ret.append("\n");
                    ret
                }
            },
            NodeType::JmpZero(to) => {
                let mut ret = String::new();
                ret.append("cmp [eax], 0\nje ");
                ret.append(to.as_str());
                ret
            },
            NodeType::JmpNonZero(to) => {
                let mut ret = String::new();
                ret.append("cmp [eax], 0\njne ");
                ret.append(to.as_str());
                ret
            },
            NodeType::AlterCell(amount) => {
                let mut ret = String::new();
                ret.append("add [eax], ");
                push_decimal(&mut ret, *amount);
                ret
            },
            NodeType::MovePtr(dir) => {
                let offset = dir.x + dir.y * program.tape_width;
                let mut ret = String::new();
                ret.append("add eax, ");
                push_decimal(&mut ret, offset);
                ret
            },
            NodeType::WriteChar => {
                String::from_str("push eax\nmov ecx,eax\nmov ebx, 1\nmov eax, 4\nint 0x80\npop eax")
            },
            NodeType::ReadChar => {
                String::from_str("push eax\nmov eax, 3\nmov ebx, 0\nmov ecx, eax\nint 0x80\npop eax")
            },
            NodeType::ExitNode => {
                String::from_str("mov ebx, [eax]\nmov eax, 1\nint 0x80")
            },
        }
    }
}

impl CompilableNode {
    /// The assembly text of this node within `program`, with inlining allowed
    /// to nest `depth` deep; `None` when that does not suffice or when an
    /// offset does not fit in an `isize`.
    pub fn compile_bounded(&self, program: &Program, depth: usize) -> (r: Option<String>)
        ensures
            r is Some == compile_tree(self.tree(), program.env(), depth as nat) is Some,
            r matches Some(s) ==> s@ == compile_tree(self.tree(), program.env(), depth as nat).unwrap(),
        decreases depth, self,
    {
        let ghost env = program.env();
        let ghost fuel = depth as nat;
        match &self.kind {
            NodeType::Function(name) => {
                let ghost cs = self.tree().children;
                let mut ret = name.clone();
                ret.append(":\n");
                let mut i: usize = 0;
                while i < self.children.len()
                    invariant
                        i <= self.children@.len(),
                        cs == self.tree().children,
                        cs.len() == self.children@.len(),
                        env == program.env(),
                        fuel == depth as nat,
                        compile_tree(self.tree(), env, fuel) is Some <==> compile_children(cs, env, fuel, i as int) is Some,
                        compile_children(cs, env, fuel, i as int) is Some ==> ret@ + compile_children(cs, env, fuel, i as int).unwrap()
                            == compile_tree(self.tree(), env, fuel).unwrap(),
                    decreases self.children@.len() - i,
                {
                    proof {
                        assert(decreases_to!(self => self.children@[i as int])) by {
                            broadcast use vstd::std_specs::vec::axiom_vec_decreases_to_view;
                        }
                        assert(cs[i as int] == self.children@[i as int].tree());
                    }
                    let ghost before = ret@;
                    let part = self.children[i].compile_bounded(program, depth);
                    match part {
                        None => {
                            return None;
                        },
                        Some(part) => {
                            ret.append(part.as_str());
                            ret.append("\n");
                            proof {
                                let a = compile_tree(cs[i as int], env, fuel).unwrap();
                                let rest = compile_children(cs, env, fuel, i + 1);
                                if rest is Some {
                                    assert(compile_children(cs, env, fuel, i as int).unwrap() == a + "\n"@ + rest.unwrap());
                                    assert(ret@ + rest.unwrap() =~= before + (a + "\n"@ + rest.unwrap()));
                                }
                            }
                        },
                    }
                    i = i + 1;
                }
                proof {
                    assert(ret@ + Seq::<char>::empty() =~= ret@);
                }
                Some(ret)
            },
            NodeType::Jump(to) => {
                if list_contains(&program.inline_branches, to) {
                    if let Some(func) = program.find_function(to, &program.root) {
                        if depth == 0 {
                            return None;
                        }
                        return func.compile_bounded(program, depth - 1);
                    }
                    Some(String::new())
                } else {
                    let mut ret = String::new();
                    ret.append("jmp ");
                    ret.append(to.as_str());
                    ret.append("\n");
                    Some(ret)
                }
            },
            NodeType::MovePtr(dir) => {
                match dir.y.checked_mul(program.tape_width) {
                    None => None,
                    Some(v) => match dir.x.checked_add(v) {
                        None => None,
                        Some(offset) => {
                            let mut ret = String::new();
                            ret.append("add eax, ");
                            push_decimal(&mut ret, offset);
                            Some(ret)
                        },
                    },
                }
            },
            _ => {
                proof {
                    assert(compile_tree(self.tree(), env, fuel) is Some);
                }
                Some(self.compile_with(program, Ghost(fuel)))
            },
        }
    }
}

} // verus!
