//! The compiler: reads the grid from the top-left corner, following the
//! flow of control, into a tree of nodes, and turns that tree into
//! 32-bit x86 assembly text.

use vstd::prelude::*;
use crate::grid::{
    Vec2, Direction, dx, dy, opposite, fits_isize, grid_view, in_grid, cell, dist, ahead,
    lemma_dist_step, lemma_ahead_shift,
};
use crate::nodes::{
    NodeType, CompilableNode, Kind, Tree, CompileEnv, leaf, find_fn, find_in, compilable,
    compiled, smash_deep, deep_normal, deep_fits, weight, lemma_fits_by_weight,
    lemma_smash_deep_normal, lemma_weight_push, compile_tree,
    lemma_compiled_any_fuel, lemma_compile_fuel_mono, lemma_children_fuel_mono, compile_children,
};
use crate::text::{decimal, push_decimal, lemma_decimal_injective, lemma_decimal_no_underscore};

verus! {

/// The longest a row, or the list of rows, can be: a `Vec` never holds more
/// than `isize::MAX` bytes, and a `char` (or a row) takes at least four.
pub open spec fn max_dim() -> int {
    isize::MAX / 4
}

/// Every row, and the list of rows, is no longer than `max_dim()`.
pub open spec fn grid_bounded(g: Seq<Seq<char>>) -> bool {
    &&& g.len() <= max_dim()
    &&& forall|y: int| 0 <= y < g.len() ==> #[trigger] g[y].len() <= max_dim()
}

/// The names held by a list of strings.
pub open spec fn name_set(v: Seq<String>) -> Set<Seq<char>> {
    Set::new(|s: Seq<char>| exists|i: int| 0 <= i < v.len() && v[i]@ == s)
}

/// No name occurs twice in the list.
pub open spec fn distinct_names(v: Seq<String>) -> bool {
    forall|i: int, j: int| 0 <= i < j < v.len() ==> #[trigger] v[i]@ != #[trigger] v[j]@
}

/// The letter that names a direction in branch labels.
pub open spec fn dir_letter(d: Direction) -> Seq<char> {
    match d {
        Direction::Down => "D"@,
        Direction::Left => "L"@,
        Direction::Right => "R"@,
        Direction::Up => "U"@,
    }
}

/// The label of the branch that starts at `(x, y)` flowing in direction `d`:
/// `_f`, the direction's letter, `x`, `_`, `y`.
pub open spec fn token(x: int, y: int, d: Direction) -> Seq<char> {
    "_f"@ + dir_letter(d) + decimal(x) + "_"@ + decimal(y)
}

/// Different branches get different labels: the label determines the cell
/// and the direction.
pub proof fn lemma_token_injective(x1: int, y1: int, d1: Direction, x2: int, y2: int, d2: Direction)
    requires
        token(x1, y1, d1) == token(x2, y2, d2),
    ensures
        x1 == x2,
        y1 == y2,
        d1 == d2,
{
    reveal_strlit("_f");
    reveal_strlit("D");
    reveal_strlit("L");
    reveal_strlit("R");
    reveal_strlit("U");
    reveal_strlit("_");
    let t = token(x1, y1, d1);
    let a1 = decimal(x1);
    let a2 = decimal(x2);
    let b1 = decimal(y1);
    let b2 = decimal(y2);
    assert(t[2] == dir_letter(d1)[0]);
    assert(token(x2, y2, d2)[2] == dir_letter(d2)[0]);
    let r1 = a1 + "_"@ + b1;
    let r2 = a2 + "_"@ + b2;
    assert(t.skip(3) =~= r1);
    assert(token(x2, y2, d2).skip(3) =~= r2);
    assert(r1 == r2);
    lemma_decimal_no_underscore(x1);
    lemma_decimal_no_underscore(x2);
    if a1.len() < a2.len() {
        assert(r1[a1.len() as int] == '_');
        assert(r2[a1.len() as int] == a2[a1.len() as int]);
        assert(a2.contains('_'));
    } else if a2.len() < a1.len() {
        assert(r2[a2.len() as int] == '_');
        assert(r1[a2.len() as int] == a1[a2.len() as int]);
        assert(a1.contains('_'));
    }
    assert(a1 =~= r1.take(a1.len() as int));
    assert(a2 =~= r2.take(a2.len() as int));
    lemma_decimal_injective(x1, x2);
    assert(b1 =~= r1.skip(a1.len() + 1int));
    assert(b2 =~= r2.skip(a2.len() + 1int));
    lemma_decimal_injective(y1, y2);
}

/// The node that an instruction character stands for on its own, if any.
pub open spec fn char_node(c: char) -> Option<Tree> {
    if c == '+' {
        Some(leaf(Kind::AlterCell(1)))
    } else if c == '-' {
        Some(leaf(Kind::AlterCell(-1)))
    } else if c == '>' {
        Some(leaf(Kind::MovePtr(1, 0)))
    } else if c == '<' {
        Some(leaf(Kind::MovePtr(-1, 0)))
    } else if c == '^' {
        Some(leaf(Kind::MovePtr(0, -1)))
    } else if c == 'v' {
        Some(leaf(Kind::MovePtr(0, 1)))
    } else if c == '.' {
        Some(leaf(Kind::WriteChar))
    } else if c == ',' {
        Some(leaf(Kind::ReadChar))
    } else {
        None
    }
}

/// Walking from `(x, y)` in direction `d` with `count` brackets open, the
/// first cell holding `close` that brings the count to zero, where `open`
/// raises the count and `close` lowers it; `None` when the walk leaves the
/// grid first.
pub open spec fn match_scan(
    g: Seq<Seq<char>>,
    x: int,
    y: int,
    d: Direction,
    open: char,
    close: char,
    count: int,
) -> Option<(int, int)>
    decreases dist(g, x, y, d),
{
    match cell(g, x, y) {
        None => None,
        Some(c) => {
            proof {
                lemma_dist_step(g, x, y, d);
            }
            if c == open {
                match_scan(g, x + dx(d), y + dy(d), d, open, close, count + 1)
            } else if c == close {
                if count - 1 == 0 {
                    Some((x, y))
                } else {
                    match_scan(g, x + dx(d), y + dy(d), d, open, close, count - 1)
                }
            } else {
                match_scan(g, x + dx(d), y + dy(d), d, open, close, count)
            }
        },
    }
}

/// The scan for a matching bracket walks past every cell that holds neither
/// bracket, turn letters included.
pub proof fn lemma_match_scan_skips(
    g: Seq<Seq<char>>,
    x: int,
    y: int,
    d: Direction,
    open: char,
    close: char,
    count: int,
)
    requires
        cell(g, x, y) matches Some(c) && c != open && c != close,
    ensures
        match_scan(g, x, y, d, open, close, count) == match_scan(g, x + dx(d), y + dy(d), d, open, close, count),
{
}

/// A match found by `match_scan` is a cell holding `close`, `k >= 0` steps
/// ahead of the start.
pub proof fn lemma_match_scan_ahead(
    g: Seq<Seq<char>>,
    x: int,
    y: int,
    d: Direction,
    open: char,
    close: char,
    count: int,
)
    requires
        match_scan(g, x, y, d, open, close, count) is Some,
    ensures
        ({
            let (cx, cy) = match_scan(g, x, y, d, open, close, count).unwrap();
            &&& in_grid(g, cx, cy)
            &&& cell(g, cx, cy) == Some(close)
            &&& exists|k: int| k >= 0 && (cx, cy) == #[trigger] ahead(x, y, d, k)
            &&& dist(g, cx, cy, d) <= dist(g, x, y, d)
        }),
    decreases dist(g, x, y, d),
{
    let c = cell(g, x, y).unwrap();
    lemma_dist_step(g, x, y, d);
    let (cx, cy) = match_scan(g, x, y, d, open, close, count).unwrap();
    if c != open && c == close && count - 1 == 0 {
        assert(0 * dx(d) == 0 && 0 * dy(d) == 0);
        assert((cx, cy) == ahead(x, y, d, 0));
    } else {
        let nc = if c == open { count + 1 } else if c == close { count - 1 } else { count };
        lemma_match_scan_ahead(g, x + dx(d), y + dy(d), d, open, close, nc);
        let k = choose|k: int| k >= 0 && (cx, cy) == #[trigger] ahead(x + dx(d), y + dy(d), d, k);
        assert(cx == x + (k + 1) * dx(d) && cy == y + (k + 1) * dy(d)) by (nonlinear_arith)
            requires
                cx == x + dx(d) + k * dx(d),
                cy == y + dy(d) + k * dy(d),
        ;
        assert((cx, cy) == ahead(x, y, d, k + 1));
    }
}

/// What a cell counts for in a scan between `open` and `close`: one more
/// bracket open, one less, or neither.
pub open spec fn bracket_weight(c: Option<char>, open: char, close: char) -> int {
    if c == Some(open) {
        1
    } else if c == Some(close) {
        -1
    } else {
        0
    }
}

/// The brackets opened minus those closed over the first `n` cells walked
/// from `(x, y)` in direction `d`.
pub open spec fn bracket_balance(
    g: Seq<Seq<char>>,
    x: int,
    y: int,
    d: Direction,
    open: char,
    close: char,
    n: nat,
) -> int
    decreases n,
{
    if n == 0 {
        0
    } else {
        bracket_weight(cell(g, x, y), open, close) + bracket_balance(
            g,
            x + dx(d),
            y + dy(d),
            d,
            open,
            close,
            (n - 1) as nat,
        )
    }
}

/// Whether a walk from `(x, y)` in direction `d`, with `count` brackets
/// open, closes the last of them `j` steps ahead: every cell up to there
/// lies in the grid, that cell holds `close`, and the brackets up to and
/// including it bring the count to zero.
pub open spec fn closes_at(
    g: Seq<Seq<char>>,
    x: int,
    y: int,
    d: Direction,
    open: char,
    close: char,
    count: int,
    j: nat,
) -> bool {
    &&& forall|i: int| 0 <= i <= j ==> in_grid(g, (#[trigger] ahead(x, y, d, i)).0, ahead(x, y, d, i).1)
    &&& cell(g, ahead(x, y, d, j as int).0, ahead(x, y, d, j as int).1) == Some(close)
    &&& count + bracket_balance(g, x, y, d, open, close, j + 1) == 0
}

/// Closing `j + 1` steps ahead of a cell in the grid is closing `j` steps
/// ahead of the next cell, with that cell counted.
proof fn lemma_closes_at_shift(
    g: Seq<Seq<char>>,
    x: int,
    y: int,
    d: Direction,
    open: char,
    close: char,
    count: int,
    j: nat,
)
    requires
        in_grid(g, x, y),
    ensures
        closes_at(g, x, y, d, open, close, count, j + 1) == closes_at(
            g,
            x + dx(d),
            y + dy(d),
            d,
            open,
            close,
            count + bracket_weight(cell(g, x, y), open, close),
            j,
        ),
{
    let nx = x + dx(d);
    let ny = y + dy(d);
    assert forall|i: int| #[trigger] ahead(x, y, d, i + 1) == ahead(nx, ny, d, i) by {
        lemma_ahead_shift(x, y, d, i);
    }
    lemma_ahead_shift(x, y, d, 0);
    let a = forall|i: int| 0 <= i <= j + 1 ==> in_grid(g, (#[trigger] ahead(x, y, d, i)).0, ahead(x, y, d, i).1);
    let b = forall|i: int| 0 <= i <= j ==> in_grid(g, (#[trigger] ahead(nx, ny, d, i)).0, ahead(nx, ny, d, i).1);
    if a {
        assert forall|i: int| 0 <= i <= j implies in_grid(g, (#[trigger] ahead(nx, ny, d, i)).0, ahead(nx, ny, d, i).1) by {
            assert(ahead(x, y, d, i + 1) == ahead(nx, ny, d, i));
        }
    }
    if b {
        assert forall|i: int| 0 <= i <= j + 1 implies in_grid(g, (#[trigger] ahead(x, y, d, i)).0, ahead(x, y, d, i).1) by {
            if i > 0 {
                assert(ahead(x, y, d, (i - 1) + 1) == ahead(nx, ny, d, i - 1));
            }
        }
    }
    assert(ahead(x, y, d, (j + 1) as int) == ahead(nx, ny, d, j as int)) by {
        assert(ahead(x, y, d, j as int + 1) == ahead(nx, ny, d, j as int));
    }
    assert(bracket_balance(g, x, y, d, open, close, j + 2) == bracket_weight(cell(g, x, y), open, close)
        + bracket_balance(g, nx, ny, d, open, close, j + 1));
}

/// The scan for the bracket that closes `count` open ones finds exactly the
/// first cell ahead where the brackets walked over, that cell included,
/// bring the count to zero on a `close`; it finds nothing when no such cell
/// comes before the walk leaves the grid.
pub proof fn lemma_match_scan_first_close(
    g: Seq<Seq<char>>,
    x: int,
    y: int,
    d: Direction,
    open: char,
    close: char,
    count: int,
)
    requires
        open != close,
    ensures
        match_scan(g, x, y, d, open, close, count) matches Some(p) ==> exists|j: nat|
            #[trigger] closes_at(g, x, y, d, open, close, count, j) && p == ahead(x, y, d, j as int) && forall|i: nat|
                i < j ==> !#[trigger] closes_at(g, x, y, d, open, close, count, i),
        match_scan(g, x, y, d, open, close, count) is None ==> forall|j: nat|
            !#[trigger] closes_at(g, x, y, d, open, close, count, j),
    decreases dist(g, x, y, d),
{
    lemma_ahead_shift(x, y, d, 0);
    match cell(g, x, y) {
        None => {
            assert forall|j: nat| !#[trigger] closes_at(g, x, y, d, open, close, count, j) by {
                assert(ahead(x, y, d, 0) == (x, y));
            }
        },
        Some(ch) => {
            lemma_dist_step(g, x, y, d);
            let nx = x + dx(d);
            let ny = y + dy(d);
            let w = bracket_weight(Some(ch), open, close);
            assert(bracket_balance(g, x, y, d, open, close, 1) == w + bracket_balance(g, nx, ny, d, open, close, 0));
            if ch == close && count - 1 == 0 {
                assert(closes_at(g, x, y, d, open, close, count, 0));
            } else {
                assert(!closes_at(g, x, y, d, open, close, count, 0));
                lemma_match_scan_first_close(g, nx, ny, d, open, close, count + w);
                assert(match_scan(g, x, y, d, open, close, count) == match_scan(g, nx, ny, d, open, close, count + w));
                assert forall|j: nat| closes_at(g, x, y, d, open, close, count, j + 1) == #[trigger] closes_at(
                    g, nx, ny, d, open, close, count + w, j) by {
                    lemma_closes_at_shift(g, x, y, d, open, close, count, j);
                }
                match match_scan(g, nx, ny, d, open, close, count + w) {
                    Some(p) => {
                        let j = choose|j: nat| #[trigger] closes_at(g, nx, ny, d, open, close, count + w, j) && p
                            == ahead(nx, ny, d, j as int) && forall|i: nat|
                            i < j ==> !#[trigger] closes_at(g, nx, ny, d, open, close, count + w, i);
                        lemma_ahead_shift(x, y, d, j as int);
                        assert(closes_at(g, x, y, d, open, close, count, j + 1));
                        assert forall|i: nat| i < j + 1 implies !#[trigger] closes_at(g, x, y, d, open, close, count, i) by {
                            if i > 0 {
                                assert(closes_at(g, x, y, d, open, close, count, ((i - 1) as nat) + 1) == closes_at(
                                    g, nx, ny, d, open, close, count + w, (i - 1) as nat));
                            }
                        }
                    },
                    None => {
                        assert forall|j: nat| !#[trigger] closes_at(g, x, y, d, open, close, count, j) by {
                            if j > 0 {
                                assert(closes_at(g, x, y, d, open, close, count, ((j - 1) as nat) + 1) == closes_at(
                                    g, nx, ny, d, open, close, count + w, (j - 1) as nat));
                            }
                        }
                    },
                }
            }
        },
    }
}

/// The texts of the functions `cs[i..]`, each followed by a line break.
pub open spec fn compiled_list(cs: Seq<Tree>, env: CompileEnv, i: int) -> Seq<char>
    decreases cs.len() - i,
{
    if i >= cs.len() || i < 0 {
        Seq::empty()
    } else {
        compiled(cs[i], env) + "\n"@ + compiled_list(cs, env, i + 1)
    }
}

/// Where `cs[i..]` compile together, each of them compiles, and the text is
/// their list.
proof fn lemma_children_list(cs: Seq<Tree>, env: CompileEnv, fuel: nat, i: int)
    requires
        0 <= i,
        compile_children(cs, env, fuel, i) is Some,
    ensures
        forall|j: int| i <= j < cs.len() ==> compilable(#[trigger] cs[j], env),
        compile_children(cs, env, fuel, i).unwrap() == compiled_list(cs, env, i),
    decreases cs.len() - i,
{
    if i < cs.len() {
        lemma_compiled_any_fuel(cs[i], env, fuel);
        lemma_children_list(cs, env, fuel, i + 1);
    }
}

/// Where each of `cs[i..]` compiles, they compile together within some
/// depth of inlining.
proof fn lemma_children_some_fuel(cs: Seq<Tree>, env: CompileEnv, i: int) -> (fuel: nat)
    requires
        0 <= i,
        forall|j: int| i <= j < cs.len() ==> compilable(#[trigger] cs[j], env),
    ensures
        compile_children(cs, env, fuel, i) is Some,
    decreases cs.len() - i,
{
    if i >= cs.len() {
        0
    } else {
        let rest = lemma_children_some_fuel(cs, env, i + 1);
        assert(compilable(cs[i], env));
        let own = choose|f: nat| (#[trigger] compile_tree(cs[i], env, f)).is_some();
        let fuel = if own <= rest { rest } else { own };
        lemma_compile_fuel_mono(cs[i], env, own, fuel);
        lemma_children_fuel_mono(cs, env, rest, fuel, i + 1);
        fuel
    }
}

/// A function node compiles exactly when each of its children does, and its
/// text is its name, a colon and a line break, then the text of each child
/// followed by a line break.
pub proof fn lemma_function_text(t: Tree, env: CompileEnv)
    requires
        t.kind is Function,
    ensures
        compilable(t, env) <==> (forall|i: int| 0 <= i < t.children.len() ==> compilable(#[trigger] t.children[i], env)),
        compilable(t, env) ==> compiled(t, env) == t.kind->Function_0 + ":\n"@ + compiled_list(t.children, env, 0),
{
    if compilable(t, env) {
        let fuel = choose|f: nat| (#[trigger] compile_tree(t, env, f)).is_some();
        lemma_children_list(t.children, env, fuel, 0);
    }
    if forall|i: int| 0 <= i < t.children.len() ==> compilable(#[trigger] t.children[i], env) {
        let fuel = lemma_children_some_fuel(t.children, env, 0);
        assert(compile_tree(t, env, fuel) is Some);
    }
}

/// A jump to a function that is not inlined is a `jmp` to its name. A jump
/// to an inlined function is replaced by that function's text, and compiles
/// exactly when the function does; where no function of that name is found
/// it is replaced by nothing.
pub proof fn lemma_jump_text(t: Tree, env: CompileEnv)
    requires
        t.kind is Jump,
    ensures
        !env.inline.contains(t.kind->Jump_0) ==> compilable(t, env) && compiled(t, env) == "jmp "@
            + t.kind->Jump_0 + "\n"@,
        env.inline.contains(t.kind->Jump_0) ==> match find_fn(t.kind->Jump_0, env.root) {
            Some(f) => (compilable(t, env) <==> compilable(f, env)) && (compilable(f, env) ==> compiled(t, env)
                == compiled(f, env)),
            None => compilable(t, env) && compiled(t, env) == Seq::<char>::empty(),
        },
{
    let to = t.kind->Jump_0;
    if !env.inline.contains(to) || find_fn(to, env.root) is None {
        lemma_compiled_any_fuel(t, env, 0);
    } else {
        let f = find_fn(to, env.root).unwrap();
        if compilable(t, env) {
            let fuel = choose|g: nat| (#[trigger] compile_tree(t, env, g)).is_some();
            lemma_compiled_any_fuel(f, env, (fuel - 1) as nat);
            lemma_compiled_any_fuel(t, env, fuel);
        }
        if compilable(f, env) {
            let fuel = choose|g: nat| (#[trigger] compile_tree(f, env, g)).is_some();
            assert(compile_tree(t, env, fuel + 1) == compile_tree(f, env, fuel));
            lemma_compiled_any_fuel(f, env, fuel);
            lemma_compiled_any_fuel(t, env, fuel + 1);
        }
    }
}

/// The whole assembly file around the compiled functions `body`, with a
/// tape of `cells` zeroed bytes.
pub open spec fn program_text(body: Seq<char>, cells: int) -> Seq<char> {
    "section .text\nglobal _root\n_root:\nmov edx,1\nmov eax, tape\n"@ + body
        + "\nmov eax,1\nint 0x80\n\nsection .data\ntape: times "@ + decimal(cells) + " db 0\n"@
}

/// Every function held by the root compiles, and the tape's size fits in an
/// `isize`.
pub open spec fn program_compilable(p: Program) -> bool {
    &&& forall|i: int| 0 <= i < p.root_tree().children.len() ==> compilable(
        #[trigger] p.root_tree().children[i],
        p.env(),
    )
    &&& fits_isize(p.tape_width * p.tape_height)
}

/// Whether `list` holds a string equal to `name`.
pub fn list_contains(list: &Vec<String>, name: &String) -> (r: bool)
    ensures
        r == name_set(list@).contains(name@),
{
    let mut i: usize = 0;
    while i < list.len()
        invariant
            i <= list@.len(),
            forall|j: int| 0 <= j < i ==> list@[j]@ != name@,
        decreases list@.len() - i,
    {
        if list[i] == *name {
            assert(name_set(list@).contains(name@)) by {
                assert(list@[i as int]@ == name@);
            }
            return true;
        }
        i = i + 1;
    }
    false
}

// ----------------------------------------------------------------------
// Labels not yet taken: the measure that bounds the reading of branches
// ----------------------------------------------------------------------

/// 1 when `t` is not among `names`, else 0.
pub open spec fn free(names: Set<Seq<char>>, t: Seq<char>) -> nat {
    if names.contains(t) { 0 } else { 1 }
}

/// How many of the four branch labels of cell `(x, y)` are not in `names`.
pub open spec fn unreg_cell(names: Set<Seq<char>>, x: int, y: int) -> nat {
    free(names, token(x, y, Direction::Left)) + free(names, token(x, y, Direction::Right))
        + free(names, token(x, y, Direction::Up)) + free(names, token(x, y, Direction::Down))
}

/// `unreg_cell` summed over the first `n` cells of row `y`.
pub open spec fn unreg_row(names: Set<Seq<char>>, y: int, n: int) -> nat
    decreases n,
{
    if n <= 0 {
        0
    } else {
        unreg_row(names, y, n - 1) + unreg_cell(names, n - 1, y)
    }
}

/// `unreg_cell` summed over the first `m` rows of `g`.
pub open spec fn unreg_rows(g: Seq<Seq<char>>, names: Set<Seq<char>>, m: int) -> nat
    decreases m,
{
    if m <= 0 {
        0
    } else {
        unreg_rows(g, names, m - 1) + unreg_row(names, m - 1, g[m - 1].len() as int)
    }
}

/// How many branch labels of cells of `g` are not in `names`.
pub open spec fn unreg(g: Seq<Seq<char>>, names: Set<Seq<char>>) -> nat {
    unreg_rows(g, names, g.len() as int)
}

proof fn lemma_unreg_row_mono(a: Set<Seq<char>>, b: Set<Seq<char>>, y: int, n: int)
    requires
        a.subset_of(b),
    ensures
        unreg_row(b, y, n) <= unreg_row(a, y, n),
    decreases n,
{
    if n > 0 {
        lemma_unreg_row_mono(a, b, y, n - 1);
    }
}

proof fn lemma_unreg_rows_mono(g: Seq<Seq<char>>, a: Set<Seq<char>>, b: Set<Seq<char>>, m: int)
    requires
        a.subset_of(b),
    ensures
        unreg_rows(g, b, m) <= unreg_rows(g, a, m),
    decreases m,
{
    if m > 0 {
        lemma_unreg_rows_mono(g, a, b, m - 1);
        lemma_unreg_row_mono(a, b, m - 1, g[m - 1].len() as int);
    }
}

/// Taking more labels never frees one.
pub proof fn lemma_unreg_mono(g: Seq<Seq<char>>, a: Set<Seq<char>>, b: Set<Seq<char>>)
    requires
        a.subset_of(b),
    ensures
        unreg(g, b) <= unreg(g, a),
{
    lemma_unreg_rows_mono(g, a, b, g.len() as int);
}

proof fn lemma_unreg_row_strict(a: Set<Seq<char>>, b: Set<Seq<char>>, y: int, n: int, x: int, d: Direction)
    requires
        a.subset_of(b),
        0 <= x < n,
        !a.contains(token(x, y, d)),
        b.contains(token(x, y, d)),
    ensures
        unreg_row(b, y, n) < unreg_row(a, y, n),
    decreases n,
{
    if x < n - 1 {
        lemma_unreg_row_strict(a, b, y, n - 1, x, d);
    } else {
        lemma_unreg_row_mono(a, b, y, n - 1);
    }
}

proof fn lemma_unreg_rows_strict(
    g: Seq<Seq<char>>,
    a: Set<Seq<char>>,
    b: Set<Seq<char>>,
    m: int,
    x: int,
    y: int,
    d: Direction,
)
    requires
        a.subset_of(b),
        0 <= y < m <= g.len(),
        0 <= x < g[y].len(),
        !a.contains(token(x, y, d)),
        b.contains(token(x, y, d)),
    ensures
        unreg_rows(g, b, m) < unreg_rows(g, a, m),
    decreases m,
{
    if y < m - 1 {
        lemma_unreg_rows_strict(g, a, b, m - 1, x, y, d);
        lemma_unreg_row_mono(a, b, m - 1, g[m - 1].len() as int);
    } else {
        lemma_unreg_rows_mono(g, a, b, m - 1);
        lemma_unreg_row_strict(a, b, y, g[y].len() as int, x, d);
    }
}

/// Taking a label of a cell of the grid that was free strictly lowers the
/// count of free labels.
pub proof fn lemma_unreg_strict(g: Seq<Seq<char>>, a: Set<Seq<char>>, b: Set<Seq<char>>, x: int, y: int, d: Direction)
    requires
        a.subset_of(b),
        in_grid(g, x, y),
        !a.contains(token(x, y, d)),
        b.contains(token(x, y, d)),
    ensures
        unreg(g, b) < unreg(g, a),
{
    lemma_unreg_rows_strict(g, a, b, g.len() as int, x, y, d);
}

// ----------------------------------------------------------------------
// Reading branches
// ----------------------------------------------------------------------

/// Why a grid does not compile.
pub enum Fault {
    /// The `[` labelled so has no matching `]` ahead of it.
    Unclosed(Seq<char>),
    /// The `]` labelled so has no matching `[` behind it.
    Unopened(Seq<char>),
}

/// What reading a branch changes besides the branch's own node: the labels
/// taken, and the functions that were moved up to sit directly in the root.
pub struct ReadState {
    pub names: Set<Seq<char>>,
    pub hoisted: Seq<Tree>,
}

/// The direction that a turning instruction turns to, if `c` is one.
pub open spec fn turn_of(c: char) -> Option<Direction> {
    if c == 'u' {
        Some(Direction::Up)
    } else if c == 'r' {
        Some(Direction::Right)
    } else if c == 'l' {
        Some(Direction::Left)
    } else if c == 'd' {
        Some(Direction::Down)
    } else {
        None
    }
}

/// Reads the branch onwards from cell `(x, y)` flowing in direction `d`, with
/// `body` read so far: the state afterwards, the branch's nodes (without the
/// final exit), and the fault met, if any.
pub open spec fn read_loop(
    g: Seq<Seq<char>>,
    st: ReadState,
    body: Seq<Tree>,
    x: int,
    y: int,
    d: Direction,
) -> (ReadState, Seq<Tree>, Option<Fault>)
    decreases unreg(g, st.names), dist(g, x, y, d), 0nat,
{
    match cell(g, x, y) {
        None => (st, body, None),
        Some(c) => {
            proof {
                lemma_dist_step(g, x, y, d);
            }
            let nx = x + dx(d);
            let ny = y + dy(d);
            match char_node(c) {
                Some(t) => read_loop(g, st, body.push(t), nx, ny, d),
                None => if c == '[' {
                    let opener = token(x, y, d);
                    let st1 = ReadState { names: st.names.insert(opener), hoisted: st.hoisted };
                    proof {
                        lemma_unreg_mono(g, st.names, st1.names);
                    }
                    let (st2, inner, err) = read_branch_spec(g, st1, leaf(Kind::Function(opener)), nx, ny, d);
                    if err is Some {
                        (st2, body, err)
                    } else {
                        match match_scan(g, x, y, d, '[', ']', 0) {
                            None => (st2, body, Some(Fault::Unclosed(opener))),
                            Some((cx, cy)) => if st.names.subset_of(st2.names) {
                                proof {
                                    lemma_match_scan_ahead(g, x, y, d, '[', ']', 0);
                                    lemma_dist_step(g, cx, cy, d);
                                    lemma_unreg_mono(g, st.names, st2.names);
                                }
                                read_loop(
                                    g,
                                    st2,
                                    body + seq![
                                        leaf(Kind::JmpZero(token(cx, cy, d))),
                                        inner,
                                        leaf(Kind::JmpNonZero(opener)),
                                    ],
                                    cx + dx(d),
                                    cy + dy(d),
                                    d,
                                )
                            } else {
                                // Never taken: reading only adds labels
                                // (`lemma_read_branch_grows`).
                                (st2, body, None)
                            },
                        }
                    }
                } else if c == ']' {
                    match match_scan(g, x, y, opposite(d), ']', '[', 0) {
                        None => (st, body, Some(Fault::Unopened(token(x, y, d)))),
                        Some((ox, oy)) => read_loop(
                            g,
                            st,
                            body.push(leaf(Kind::JmpNonZero(token(ox, oy, d)))),
                            nx,
                            ny,
                            d,
                        ),
                    }
                } else if let Some(nd) = turn_of(c) {
                    let fname = token(x, y, nd);
                    if st.names.contains(fname) {
                        (st, body.push(leaf(Kind::Jump(fname))), None)
                    } else {
                        let st1 = ReadState { names: st.names.insert(fname), hoisted: st.hoisted };
                        proof {
                            lemma_unreg_strict(g, st.names, st1.names, x, y, nd);
                        }
                        let (st2, f, err) = read_branch_spec(
                            g,
                            st1,
                            leaf(Kind::Function(fname)),
                            x + dx(nd),
                            y + dy(nd),
                            nd,
                        );
                        if err is Some {
                            (st2, body, err)
                        } else if nd == d {
                            (st2, body.push(f), None)
                        } else {
                            (
                                ReadState { names: st2.names, hoisted: st2.hoisted.push(f) },
                                body.push(leaf(Kind::Jump(fname))),
                                None,
                            )
                        }
                    }
                } else {
                    read_loop(g, st, body, nx, ny, d)
                },
            }
        },
    }
}

/// Reads the branch that starts at `(x, y)` flowing in direction `d` into
/// `node`: on success the node gets the branch's nodes and a final exit, and
/// is merged at every depth; on a fault it keeps what was read before it.
pub open spec fn read_branch_spec(
    g: Seq<Seq<char>>,
    st: ReadState,
    node: Tree,
    x: int,
    y: int,
    d: Direction,
) -> (ReadState, Tree, Option<Fault>)
    decreases unreg(g, st.names), dist(g, x, y, d), 1nat,
{
    let (st1, body, err) = read_loop(g, st, node.children, x, y, d);
    if err is None {
        (st1, smash_deep(Tree { kind: node.kind, children: body.push(leaf(Kind::ExitNode)) }), None)
    } else {
        (st1, Tree { kind: node.kind, children: body }, err)
    }
}

/// The compiler's state.
pub struct Program {
    pub root: CompilableNode,
    pub instructions: Vec<Vec<char>>,
    pub tape_width: isize,
    pub tape_height: isize,
    pub branch_names: Vec<String>,
    pub inline_branches: Vec<String>,
    pub unused_branches: Vec<String>,
}

impl Program {
    /// The grid of instructions.
    pub open spec fn grid(&self) -> Seq<Seq<char>> {
        grid_view(self.instructions@)
    }

    /// The tree of the root function, which holds every compiled function.
    pub open spec fn root_tree(&self) -> Tree {
        self.root.tree()
    }

    /// The names of the branches read so far.
    pub open spec fn names(&self) -> Set<Seq<char>> {
        name_set(self.branch_names@)
    }

    /// What compiling a node of this program depends on.
    pub open spec fn env(&self) -> CompileEnv {
        CompileEnv { root: self.root_tree(), inline: name_set(self.inline_branches@), width: self.tape_width as int }
    }

    /// The grid respects the machine's limits on lengths, and no branch name
    /// is held twice.
    pub open spec fn wf(&self) -> bool {
        &&& grid_bounded(self.grid())
        &&& distinct_names(self.branch_names@)
    }

    pub fn new(tape_width: isize, tape_height: isize, instructions: Vec<Vec<char>>) -> (r: Self)
        requires
            grid_bounded(grid_view(instructions@)),
        ensures
            r.wf(),
            r.grid() == grid_view(instructions@),
            r.root_tree() == leaf(Kind::Function("_root"@)),
            r.tape_width == tape_width,
            r.tape_height == tape_height,
            r.branch_names@.len() == 0,
            r.inline_branches@.len() == 0,
            r.unused_branches@.len() == 0,
    {
        Program {
            root: CompilableNode::empty_function(String::from_str("_root")),
            tape_width,
            tape_height,
            instructions,
            branch_names: Vec::new(),
            inline_branches: Vec::new(),
            unused_branches: Vec::new(),
        }
    }

    /// The root function node.
    pub fn root(&self) -> (r: &CompilableNode)
        ensures
            r.tree() == self.root_tree(),
    {
        &self.root
    }

    /// The grid of instructions.
    pub fn instructions(&self) -> (r: &Vec<Vec<char>>)
        ensures
            grid_view(r@) == self.grid(),
    {
        &self.instructions
    }

    /// The node that the instruction `c` stands for on its own, if any.
    pub fn read_char(&self, c: &char) -> (r: Option<CompilableNode>)
        ensures
            r is Some == char_node(*c) is Some,
            r matches Some(n) ==> Some(n.tree()) == char_node(*c),
    {
        match c {
            '+' => Some(CompilableNode::inc_cell(1)),
            '-' => Some(CompilableNode::inc_cell(-1)),
            '>' => Some(CompilableNode::move_ptr(Direction::Right)),
            '<' => Some(CompilableNode::move_ptr(Direction::Left)),
            '^' => Some(CompilableNode::move_ptr(Direction::Up)),
            'v' => Some(CompilableNode::move_ptr(Direction::Down)),
            '.' => Some(CompilableNode::new(NodeType::WriteChar)),
            ',' => Some(CompilableNode::new(NodeType::ReadChar)),
            _ => None,
        }
    }

    fn has_instruction(&self, pos: &Vec2) -> (r: bool)
        ensures
            r == in_grid(self.grid(), pos.x as int, pos.y as int),
    {
        if pos.x < 0 || pos.y < 0 || pos.y as usize >= self.instructions.len() {
            return false;
        }
        let instr = &self.instructions[pos.y as usize];
        (pos.x as usize) < instr.len()
    }

    fn get_instruction(&self, pos: Vec2) -> (r: Option<char>)
        ensures
            r == cell(self.grid(), pos.x as int, pos.y as int),
    {
        if !self.has_instruction(&pos) {
            return None;
        }
        Some(self.instructions[pos.y as usize][pos.x as usize])
    }

    /// The label of the branch that starts at `pos` flowing in direction `dir`.
    pub fn branch_token(&self, pos: Vec2, dir: Direction) -> (r: String)
        ensures
            r@ == token(pos.x as int, pos.y as int, dir),
    {
        let mut s = String::new();
        s.append("_f");
        let dstr = match dir {
            Direction::Down => "D",
            Direction::Left => "L",
            Direction::Right => "R",
            Direction::Up => "U",
        };
        s.append(dstr);
        push_decimal(&mut s, pos.x);
        s.append("_");
        push_decimal(&mut s, pos.y);
        assert(s@ =~= token(pos.x as int, pos.y as int, dir));
        s
    }

    fn register_branch(&mut self, name: String)
        ensures
            final(self).names() == old(self).names().insert(name@),
            distinct_names(old(self).branch_names@) ==> distinct_names(final(self).branch_names@),
            final(self).root == old(self).root,
            final(self).instructions == old(self).instructions,
            final(self).tape_width == old(self).tape_width,
            final(self).tape_height == old(self).tape_height,
            final(self).inline_branches == old(self).inline_branches,
            final(self).unused_branches == old(self).unused_branches,
    {
        if !self.branch_exists(&name) {
            let ghost old_names = self.branch_names@;
            let ghost nv = name@;
            self.branch_names.push(name);
            assert forall|i: int, j: int| 0 <= i < j < self.branch_names@.len() && distinct_names(old_names)
                implies #[trigger] self.branch_names@[i]@ != #[trigger] self.branch_names@[j]@ by {
                if j == old_names.len() {
                    assert(self.branch_names@[i] == old_names[i]);
                    assert(!name_set(old_names).contains(nv));
                } else {
                    assert(self.branch_names@[i] == old_names[i]);
                    assert(self.branch_names@[j] == old_names[j]);
                }
            }
            assert(self.names() =~= name_set(old_names).insert(self.branch_names@.last()@)) by {
                assert forall|s: Seq<char>| #[trigger] self.names().contains(s) implies name_set(old_names).insert(self.branch_names@.last()@).contains(s) by {
                    let i = choose|i: int| 0 <= i < self.branch_names@.len() && self.branch_names@[i]@ == s;
                    if i < old_names.len() {
                        assert(old_names[i]@ == s);
                    }
                }
                assert forall|s: Seq<char>| #[trigger] name_set(old_names).insert(self.branch_names@.last()@).contains(s) implies self.names().contains(s) by {
                    if s != self.branch_names@.last()@ {
                        let i = choose|i: int| 0 <= i < old_names.len() && old_names[i]@ == s;
                        assert(self.branch_names@[i]@ == s);
                    } else {
                        assert(self.branch_names@[self.branch_names@.len() - 1]@ == s);
                    }
                }
            }
        } else {
            assert(self.names() =~= self.names().insert(name@));
        }
    }

    fn branch_exists(&self, name: &String) -> (r: bool)
        ensures
            r == self.names().contains(name@),
    {
        list_contains(&self.branch_names, name)
    }

    /// Walking from `pos` in direction `cflow`, the bracket `closer` that
    /// matches the count of `opener`s and `closer`s met on the way.
    fn find_closer(&self, pos: Vec2, cflow: Direction, opener: char, closer: char) -> (r: Option<Vec2>)
        requires
            self.wf(),
        ensures
            r matches Some(p) ==> match_scan(self.grid(), pos.x as int, pos.y as int, cflow, opener, closer, 0)
                == Some((p.x as int, p.y as int)),
            r is None ==> match_scan(self.grid(), pos.x as int, pos.y as int, cflow, opener, closer, 0) is None,
    {
        let ghost g = self.grid();
        let ghost start = dist(g, pos.x as int, pos.y as int, cflow);
        let mut cur = pos;
        let mut count: isize = 0;
        proof {
            if in_grid(g, cur.x as int, cur.y as int) {
                assert(g[cur.y as int].len() <= max_dim());
            }
        }
        loop
            invariant
                self.wf(),
                g == self.grid(),
                start <= max_dim(),
                dist(g, cur.x as int, cur.y as int, cflow) <= start,
                -(start - dist(g, cur.x as int, cur.y as int, cflow)) <= count <= start - dist(g, cur.x as int, cur.y as int, cflow),
                match_scan(g, cur.x as int, cur.y as int, cflow, opener, closer, count as int)
                    == match_scan(g, pos.x as int, pos.y as int, cflow, opener, closer, 0),
            ensures
                match_scan(g, pos.x as int, pos.y as int, cflow, opener, closer, 0) is None,
            decreases dist(g, cur.x as int, cur.y as int, cflow),
        {
            let instr = self.get_instruction(cur);
            if instr.is_none() {
                break;
            }
            let instr = instr.unwrap();
            proof {
                lemma_dist_step(g, cur.x as int, cur.y as int, cflow);
            }
            if instr == opener {
                count = count + 1;
            } else if instr == closer {
                count = count - 1;
                if count == 0 {
                    return Some(cur);
                }
            }
            cur.add_assign(cflow);
        }
        None
    }
}

impl Program {
    /// The first function named `name` in a depth-first walk of `node` that
    /// only descends through function nodes.
    pub fn find_function<'a>(&self, name: &String, node: &'a CompilableNode) -> (r: Option<&'a CompilableNode>)
        ensures
            r is Some == find_fn(name@, node.tree()) is Some,
            r matches Some(n) ==> find_fn(name@, node.tree()) == Some(n.tree()),
        decreases node,
    {
        match &node.kind {
            NodeType::Function(func_name) => {
                if *func_name == *name {
                    return Some(node);
                }
                let ghost cs = node.tree().children;
                let mut i: usize = 0;
                while i < node.children.len()
                    invariant
                        i <= node.children@.len(),
                        cs == node.tree().children,
                        cs.len() == node.children@.len(),
                        find_in(name@, cs, 0) == find_in(name@, cs, i as int),
                        node.tree().kind == Kind::Function(func_name@),
                        func_name@ != name@,
                    decreases node.children@.len() - i,
                {
                    proof {
                        assert(decreases_to!(node => node.children@[i as int])) by {
                            broadcast use vstd::std_specs::vec::axiom_vec_decreases_to_view;
                        }
                        assert(cs[i as int] == node.children@[i as int].tree());
                    }
                    if let Some(c) = self.find_function(name, &node.children[i]) {
                        return Some(c);
                    }
                    i = i + 1;
                }
                None
            },
            _ => None,
        }
    }
}

impl Program {
    /// The assembly file for every function held by the root.
    pub fn compile(&mut self) -> (r: String)
        requires
            program_compilable(*old(self)),
        ensures
            *final(self) == *old(self),
            r@ == program_text(
                compiled_list(old(self).root_tree().children, old(self).env(), 0),
                old(self).tape_width * old(self).tape_height,
            ),
    {
        let ghost cs = self.root_tree().children;
        let ghost env = self.env();
        let mut compiled_text = String::new();
        let mut i: usize = 0;
        while i < self.root.children.len()
            invariant
                i <= self.root.children@.len(),
                cs == self.root_tree().children,
                cs.len() == self.root.children@.len(),
                env == self.env(),
                program_compilable(*self),
                compiled_text@ + compiled_list(cs, env, i as int) == compiled_list(cs, env, 0),
            decreases self.root.children@.len() - i,
        {
            assert(cs[i as int] == self.root.children@[i as int].tree());
            assert(compilable(cs[i as int], env));
            let ghost before = compiled_text@;
            let part = self.root.children[i].compile(self);
            compiled_text.append(part.as_str());
            compiled_text.append("\n");
            proof {
                let rest = compiled_list(cs, env, i + 1);
                assert(compiled_text@ + rest =~= before + compiled_list(cs, env, i as int));
            }
            i = i + 1;
        }
        let mut out = String::from_str("section .text\nglobal _root\n_root:\nmov edx,1\nmov eax, tape\n");
        out.append(compiled_text.as_str());
        out.append("\nmov eax,1\nint 0x80\n\nsection .data\ntape: times ");
        push_decimal(&mut out, self.tape_width * self.tape_height);
        out.append(" db 0\n");
        proof {
            assert(compiled_text@ =~= compiled_list(cs, env, 0));
        }
        out
    }
}

/// Reading never gives a label back and never removes a function from the
/// root: the labels taken before are still taken afterwards, and the root's
/// earlier children come first, unchanged.
#[verifier::spinoff_prover]
#[verifier::rlimit(50)]
pub proof fn lemma_read_loop_grows(g: Seq<Seq<char>>, st: ReadState, body: Seq<Tree>, x: int, y: int, d: Direction)
    ensures
        st.names.subset_of(read_loop(g, st, body, x, y, d).0.names),
        st.hoisted.is_prefix_of(read_loop(g, st, body, x, y, d).0.hoisted),
    decreases unreg(g, st.names), dist(g, x, y, d), 0nat,
{
    match cell(g, x, y) {
        None => {},
        Some(c) => {
            lemma_dist_step(g, x, y, d);
            let nx = x + dx(d);
            let ny = y + dy(d);
            match char_node(c) {
                Some(t) => {
                    lemma_read_loop_grows(g, st, body.push(t), nx, ny, d);
                },
                None => if c == '[' {
                    let opener = token(x, y, d);
                    let st1 = ReadState { names: st.names.insert(opener), hoisted: st.hoisted };
                    lemma_unreg_mono(g, st.names, st1.names);
                    lemma_read_branch_grows(g, st1, leaf(Kind::Function(opener)), nx, ny, d);
                    let (st2, inner, err) = read_branch_spec(g, st1, leaf(Kind::Function(opener)), nx, ny, d);
                    if err is None {
                        if let Some((cx, cy)) = match_scan(g, x, y, d, '[', ']', 0) {
                            lemma_match_scan_ahead(g, x, y, d, '[', ']', 0);
                            lemma_dist_step(g, cx, cy, d);
                            lemma_unreg_mono(g, st.names, st2.names);
                            let nb = body + seq![
                                leaf(Kind::JmpZero(token(cx, cy, d))),
                                inner,
                                leaf(Kind::JmpNonZero(opener)),
                            ];
                            lemma_read_loop_grows(g, st2, nb, cx + dx(d), cy + dy(d), d);
                        }
                    }
                } else if c == ']' {
                    if let Some((ox, oy)) = match_scan(g, x, y, opposite(d), ']', '[', 0) {
                        lemma_read_loop_grows(g, st, body.push(leaf(Kind::JmpNonZero(token(ox, oy, d)))), nx, ny, d);
                    }
                } else if let Some(nd) = turn_of(c) {
                    let fname = token(x, y, nd);
                    if !st.names.contains(fname) {
                        let st1 = ReadState { names: st.names.insert(fname), hoisted: st.hoisted };
                        lemma_unreg_strict(g, st.names, st1.names, x, y, nd);
                        lemma_read_branch_grows(g, st1, leaf(Kind::Function(fname)), x + dx(nd), y + dy(nd), nd);
                        let (st2, f, err) = read_branch_spec(g, st1, leaf(Kind::Function(fname)), x + dx(nd), y + dy(nd), nd);
                        assert(st2.hoisted.is_prefix_of(st2.hoisted.push(f)));
                    }
                } else {
                    lemma_read_loop_grows(g, st, body, nx, ny, d);
                },
            }
        },
    }
}

pub proof fn lemma_read_branch_grows(g: Seq<Seq<char>>, st: ReadState, node: Tree, x: int, y: int, d: Direction)
    ensures
        st.names.subset_of(read_branch_spec(g, st, node, x, y, d).0.names),
        st.hoisted.is_prefix_of(read_branch_spec(g, st, node, x, y, d).0.hoisted),
    decreases unreg(g, st.names), dist(g, x, y, d), 1nat,
{
    lemma_read_loop_grows(g, st, node.children, x, y, d);
}

/// Why reading the grid failed, with the label of the offending bracket.
#[derive(Debug)]
pub enum CompileError {
    /// A `[` without a matching `]`.
    UnclosedBracket(String),
    /// A `]` without a matching `[`.
    UnopenedBracket(String),
}

impl View for CompileError {
    type V = Fault;

    open spec fn view(&self) -> Fault {
        match self {
            CompileError::UnclosedBracket(s) => Fault::Unclosed(s@),
            CompileError::UnopenedBracket(s) => Fault::Unopened(s@),
        }
    }
}

/// The text that reports a fault.
pub open spec fn fault_message(f: Fault) -> Seq<char> {
    match f {
        Fault::Unclosed(t) => "couldn't find close bracket for "@ + t,
        Fault::Unopened(t) => "wild closer "@ + t + " has no opener"@,
    }
}

impl CompileError {
    /// The text that reports this error.
    pub fn message(&self) -> (r: String)
        ensures
            r@ == fault_message(self@),
    {
        match self {
            CompileError::UnclosedBracket(t) => {
                let mut r = String::from_str("couldn't find close bracket for ");
                r.append(t.as_str());
                r
            },
            CompileError::UnopenedBracket(t) => {
                let mut r = String::from_str("wild closer ");
                r.append(t.as_str());
                r.append(" has no opener");
                r
            },
        }
    }
}

impl Program {
    /// The part of the state that reading branches changes.
    pub open spec fn read_state(&self) -> ReadState {
        ReadState { names: self.names(), hoisted: self.root_tree().children }
    }

    /// Everything but the taken labels and the root's children is the same.
    pub open spec fn same_setup(&self, other: Program) -> bool {
        &&& self.instructions == other.instructions
        &&& self.tape_width == other.tape_width
        &&& self.tape_height == other.tape_height
        &&& self.inline_branches == other.inline_branches
        &&& self.unused_branches == other.unused_branches
        &&& self.root_tree().kind == other.root_tree().kind
    }

    fn smash_node(&self, node: &mut CompilableNode)
        requires
            deep_fits(old(node).tree()),
        ensures
            final(node).tree() == smash_deep(old(node).tree()),
    {
        let mut owned = CompilableNode::new(NodeType::ExitNode);
        std::mem::swap(&mut owned, node);
        let smashed = CompilableNode::smash_deep(owned);
        *node = smashed;
    }

    /// Appends `child` to the root's children.
    fn hoist(&mut self, child: CompilableNode)
        ensures
            distinct_names(old(self).branch_names@) ==> distinct_names(final(self).branch_names@),
            final(self).same_setup(*old(self)),
            final(self).names() == old(self).names(),
            final(self).root_tree().children == old(self).root_tree().children.push(child.tree()),
    {
        let ghost before = self.root_tree();
        self.root.children.push(child);
        assert(self.root_tree().children =~= before.children.push(child.tree()));
    }

    /// Reads the `[` at `cur`: the bracketed branch that follows it, then its
    /// matching `]`. On success `node` gets a jump past the loop, the loop's
    /// body and a jump back, and the result is the position of the `]`.
    fn read_bracket(&mut self, node: &mut CompilableNode, cur: Vec2, cflow: Direction) -> (r: Result<Vec2, CompileError>)
        requires
            old(self).wf(),
            cell(old(self).grid(), cur.x as int, cur.y as int) == Some('['),
        ensures
            final(self).wf(),
            final(self).same_setup(*old(self)),
            old(self).names().subset_of(final(self).names()),
            final(node).kind == old(node).kind,
            ({
                let g = old(self).grid();
                let st = old(self).read_state();
                let body = old(node).tree().children;
                let opener = token(cur.x as int, cur.y as int, cflow);
                let st1 = ReadState { names: st.names.insert(opener), hoisted: st.hoisted };
                let (st2, inner, err) = read_branch_spec(
                    g,
                    st1,
                    leaf(Kind::Function(opener)),
                    cur.x + dx(cflow),
                    cur.y + dy(cflow),
                    cflow,
                );
                &&& final(self).read_state() == st2
                &&& err matches Some(f) ==> r matches Err(e) && e@ == f && final(node).tree().children == body
                &&& err is None ==> match match_scan(g, cur.x as int, cur.y as int, cflow, '[', ']', 0) {
                    None => r matches Err(e) && e@ == Fault::Unclosed(opener) && final(node).tree().children == body,
                    Some((cx, cy)) => r matches Ok(p) && p.x == cx && p.y == cy
                        && final(node).tree().children == body + seq![
                            leaf(Kind::JmpZero(token(cx, cy, cflow))),
                            inner,
                            leaf(Kind::JmpNonZero(opener)),
                        ]
                        && deep_normal(inner),
                }
            }),
        decreases unreg(old(self).grid(), old(self).names()), dist(old(self).grid(), cur.x as int, cur.y as int, cflow), 0nat,
    {
        let ghost g = self.grid();
        let ghost st = self.read_state();
        let ghost body = node.tree().children;
        proof {
            lemma_dist_step(g, cur.x as int, cur.y as int, cflow);
            assert(g[cur.y as int].len() <= max_dim());
        }
        let opener = self.branch_token(cur, cflow);
        let mut n_node = CompilableNode::empty_function(opener.clone());
        self.register_branch(opener.clone());
        proof {
            lemma_unreg_mono(g, st.names, self.names());
        }
        let next = cur.add_dir(cflow);
        let ghost st1 = self.read_state();
        assert(st1 == ReadState { names: st.names.insert(opener@), hoisted: st.hoisted });
        let res = self.read_branch(&mut n_node, next, cflow);
        if let Err(e) = res {
            return Err(e);
        }
        let closer = self.find_closer(cur, cflow, '[', ']');
        match closer {
            None => Err(CompileError::UnclosedBracket(opener)),
            Some(cl) => {
                proof {
                    let body1 = read_loop(g, st1, Seq::empty(), next.x as int, next.y as int, cflow).1;
                    lemma_smash_deep_normal(
                        Tree { kind: Kind::Function(opener@), children: body1.push(leaf(Kind::ExitNode)) },
                    );
                    assert(leaf(Kind::Function(opener@)).children =~= Seq::<Tree>::empty());
                }
                let jz = CompilableNode::new(NodeType::JmpZero(self.branch_token(cl, cflow)));
                let ghost t1 = jz.tree();
                let ghost t2 = n_node.tree();
                node.children.push(jz);
                node.children.push(n_node);
                let jnz = CompilableNode::new(NodeType::JmpNonZero(opener));
                let ghost t3 = jnz.tree();
                node.children.push(jnz);
                assert(node.tree().children =~= body + seq![t1, t2, t3]);
                Ok(cl)
            },
        }
    }

    /// Reads the turn to `new_dir` at `cur`: a jump to the branch that starts
    /// there if it was read before, else that branch, read now, either in
    /// place (when the turn keeps the direction) or moved up to the root
    /// behind a jump to it.
    fn read_turn(&mut self, node: &mut CompilableNode, cur: Vec2, new_dir: Direction, cflow: Direction) -> (r: Result<(), CompileError>)
        requires
            old(self).wf(),
            in_grid(old(self).grid(), cur.x as int, cur.y as int),
        ensures
            final(self).wf(),
            final(self).same_setup(*old(self)),
            old(self).names().subset_of(final(self).names()),
            final(node).kind == old(node).kind,
            ({
                let g = old(self).grid();
                let st = old(self).read_state();
                let body = old(node).tree().children;
                let fname = token(cur.x as int, cur.y as int, new_dir);
                if st.names.contains(fname) {
                    &&& r is Ok
                    &&& final(self).read_state() == st
                    &&& final(node).tree().children == body.push(leaf(Kind::Jump(fname)))
                } else {
                    let st1 = ReadState { names: st.names.insert(fname), hoisted: st.hoisted };
                    let (st2, f, err) = read_branch_spec(
                        g,
                        st1,
                        leaf(Kind::Function(fname)),
                        cur.x + dx(new_dir),
                        cur.y + dy(new_dir),
                        new_dir,
                    );
                    &&& err matches Some(ft) ==> r matches Err(e) && e@ == ft && final(self).read_state() == st2
                        && final(node).tree().children == body
                    &&& err is None && new_dir == cflow ==> r is Ok && final(self).read_state() == st2
                        && final(node).tree().children == body.push(f)
                    &&& err is None && new_dir != cflow ==> r is Ok && final(self).read_state() == (ReadState {
                        names: st2.names,
                        hoisted: st2.hoisted.push(f),
                    }) && final(node).tree().children == body.push(leaf(Kind::Jump(fname)))
                    &&& err is None ==> deep_normal(f)
                }
            }),
        decreases unreg(old(self).grid(), old(self).names()), dist(old(self).grid(), cur.x as int, cur.y as int, cflow), 0nat,
    {
        let ghost g = self.grid();
        let ghost st = self.read_state();
        let ghost body = node.tree().children;
        proof {
            assert(g[cur.y as int].len() <= max_dim());
        }
        let func_name = self.branch_token(cur, new_dir);
        if self.branch_exists(&func_name) {
            let jump = CompilableNode::new(NodeType::Jump(func_name));
            let ghost jt = jump.tree();
            node.children.push(jump);
            assert(node.tree().children =~= body.push(jt));
            return Ok(());
        }
        self.register_branch(func_name.clone());
        proof {
            lemma_unreg_strict(g, st.names, self.names(), cur.x as int, cur.y as int, new_dir);
        }
        let mut func_node = CompilableNode::empty_function(func_name.clone());
        let next = cur.add_dir(new_dir);
        let ghost st1 = self.read_state();
        assert(st1 == ReadState { names: st.names.insert(func_name@), hoisted: st.hoisted });
        let res = self.read_branch(&mut func_node, next, new_dir);
        if let Err(e) = res {
            return Err(e);
        }
        proof {
            let body1 = read_loop(g, st1, Seq::empty(), next.x as int, next.y as int, new_dir).1;
            lemma_smash_deep_normal(
                Tree { kind: Kind::Function(func_name@), children: body1.push(leaf(Kind::ExitNode)) },
            );
            assert(leaf(Kind::Function(func_name@)).children =~= Seq::<Tree>::empty());
        }
        if new_dir == cflow {
            let ghost ft = func_node.tree();
            node.children.push(func_node);
            assert(node.tree().children =~= body.push(ft));
        } else {
            self.hoist(func_node);
            let jump = CompilableNode::new(NodeType::Jump(func_name));
            let ghost jt = jump.tree();
            node.children.push(jump);
            assert(node.tree().children =~= body.push(jt));
        }
        Ok(())
    }

    /// Reads the branch that starts at `pos` flowing in direction `cflow`
    /// into `node`, which starts without children.
    #[verifier::spinoff_prover]
    #[verifier::rlimit(60)]
    fn read_branch(&mut self, node: &mut CompilableNode, pos: Vec2, cflow: Direction) -> (r: Result<(), CompileError>)
        requires
            old(self).wf(),
            old(node).children@.len() == 0,
        ensures
            final(self).wf(),
            final(self).same_setup(*old(self)),
            old(self).names().subset_of(final(self).names()),
            ({
                let (st, t, err) = read_branch_spec(
                    old(self).grid(),
                    old(self).read_state(),
                    old(node).tree(),
                    pos.x as int,
                    pos.y as int,
                    cflow,
                );
                &&& final(self).read_state() == st
                &&& final(node).tree() == t
                &&& r is Ok == err is None
                &&& r matches Err(e) ==> err == Some(e@)
            }),
        decreases unreg(old(self).grid(), old(self).names()), dist(old(self).grid(), pos.x as int, pos.y as int, cflow), 1nat,
    {
        let ghost g = self.grid();
        let ghost s0 = *self;
        let ghost n0 = node.tree();
        let ghost total = read_loop(g, self.read_state(), n0.children, pos.x as int, pos.y as int, cflow);
        let ghost d0 = dist(g, pos.x as int, pos.y as int, cflow);
        proof {
            assert(n0.children =~= Seq::<Tree>::empty());
            if in_grid(g, pos.x as int, pos.y as int) {
                assert(g[pos.y as int].len() <= max_dim());
            }
        }
        let mut cur = pos;
        loop
            invariant_except_break
                read_loop(g, self.read_state(), node.tree().children, cur.x as int, cur.y as int, cflow) == total,
                weight(node.tree().children) + dist(g, cur.x as int, cur.y as int, cflow) <= d0,
            invariant
                s0 == *old(self),
                n0 == old(node).tree(),
                total == read_loop(g, s0.read_state(), n0.children, pos.x as int, pos.y as int, cflow),
                g == old(self).grid(),
                self.wf(),
                g == self.grid(),
                self.same_setup(s0),
                s0.names().subset_of(self.names()),
                node.tree().kind == n0.kind,
                d0 <= max_dim(),
                d0 == dist(g, pos.x as int, pos.y as int, cflow),
                dist(g, cur.x as int, cur.y as int, cflow) <= d0,
                forall|i: int| 0 <= i < node.tree().children.len() ==> deep_normal(#[trigger] node.tree().children[i]),
                unreg(g, self.names()) <= unreg(g, s0.names()),
                distinct_names(s0.branch_names@) ==> distinct_names(self.branch_names@),
            ensures
                total == (self.read_state(), node.tree().children, None::<Fault>),
                weight(node.tree().children) <= d0,
            decreases dist(g, cur.x as int, cur.y as int, cflow),
        {
            let instr = self.get_instruction(cur);
            if instr.is_none() {
                break;
            }
            let instr = instr.unwrap();
            proof {
                lemma_dist_step(g, cur.x as int, cur.y as int, cflow);
                assert(g[cur.y as int].len() <= max_dim());
            }
            let ghost body = node.tree().children;
            let ghost st = self.read_state();
            if let Some(read) = self.read_char(&instr) {
                let ghost rt = read.tree();
                node.children.push(read);
                proof {
                    assert(node.tree().children =~= body.push(rt));
                    lemma_weight_push(body, rt);
                }
            } else if instr == '[' {
                let res = self.read_bracket(node, cur, cflow);
                match res {
                    Err(e) => {
                        return Err(e);
                    },
                    Ok(cl) => {
                        proof {
                            lemma_match_scan_ahead(g, cur.x as int, cur.y as int, cflow, '[', ']', 0);
                            lemma_dist_step(g, cl.x as int, cl.y as int, cflow);
                            lemma_unreg_mono(g, st.names, self.names());
                            assert(g[cl.y as int].len() <= max_dim());
                            let t3 = node.tree().children;
                            assert(t3.drop_last().drop_last().drop_last() =~= body);
                            lemma_weight_push(body, t3[body.len() as int]);
                            lemma_weight_push(body.push(t3[body.len() as int]), t3[body.len() + 1int]);
                            assert(body.push(t3[body.len() as int]).push(t3[body.len() + 1int]) =~= t3.drop_last());
                            lemma_weight_push(t3.drop_last(), t3.last());
                            assert(t3.drop_last().push(t3.last()) =~= t3);
                        }
                        cur = cl;
                    },
                }
            } else if instr == ']' {
                let rflow = cflow.mirror();
                match self.find_closer(cur, rflow, ']', '[') {
                    None => {
                        return Err(CompileError::UnopenedBracket(self.branch_token(cur, cflow)));
                    },
                    Some(op) => {
                        let jnz = CompilableNode::new(NodeType::JmpNonZero(self.branch_token(op, cflow)));
                        let ghost jt = jnz.tree();
                        node.children.push(jnz);
                        proof {
                            assert(node.tree().children =~= body.push(jt));
                            lemma_weight_push(body, jt);
                        }
                    },
                }
            } else if instr == 'l' || instr == 'r' || instr == 'u' || instr == 'd' {
                let new_dir = if instr == 'u' {
                    Direction::Up
                } else if instr == 'r' {
                    Direction::Right
                } else if instr == 'l' {
                    Direction::Left
                } else {
                    Direction::Down
                };
                let res = self.read_turn(node, cur, new_dir, cflow);
                if let Err(e) = res {
                    return Err(e);
                }
                proof {
                    let fname = token(cur.x as int, cur.y as int, new_dir);
                    if !st.names.contains(fname) {
                        lemma_unreg_mono(g, st.names, self.names());
                    }
                    let t2 = node.tree().children;
                    assert(t2.drop_last() =~= body);
                    lemma_weight_push(body, t2.last());
                    assert(body.push(t2.last()) =~= t2);
                }
                break;
            }
            cur.add_assign(cflow);
        }
        let ghost body = node.tree().children;
        node.children.push(CompilableNode::new(NodeType::ExitNode));
        proof {
            assert(node.tree().children =~= body.push(leaf(Kind::ExitNode)));
            assert(node.tree().children.drop_last() =~= body);
            lemma_fits_by_weight(node.tree());
        }
        self.smash_node(node);
        Ok(())
    }
}

/// Reading the whole grid: the branch `_start` from the top-left cell,
/// flowing right.
pub open spec fn start_read(g: Seq<Seq<char>>, st: ReadState) -> (ReadState, Tree, Option<Fault>) {
    read_branch_spec(g, st, leaf(Kind::Function("_start"@)), 0, 0, Direction::Right)
}

impl Program {
    /// Reads the grid into the function `_start`, which becomes the first
    /// function of the root; the functions moved up while reading follow the
    /// ones the root held before.
    pub fn build_root(&mut self) -> (r: Result<(), CompileError>)
        requires
            old(self).wf(),
        ensures
            final(self).wf(),
            final(self).same_setup(*old(self)),
            ({
                let (st, t, err) = start_read(old(self).grid(), old(self).read_state());
                &&& final(self).names() == st.names
                &&& r is Ok == err is None
                &&& r matches Err(e) ==> err == Some(e@) && final(self).root_tree().children == st.hoisted
                &&& r is Ok ==> final(self).root_tree().children == seq![t] + st.hoisted
            }),
    {
        let mut nroot = CompilableNode::empty_function(String::from_str("_start"));
        let res = self.read_branch(&mut nroot, Vec2::new(0, 0), Direction::Right);
        if let Err(e) = res {
            return Err(e);
        }
        let ghost before = self.root_tree();
        let ghost t = nroot.tree();
        self.root.children.insert(0, nroot);
        assert(self.root_tree().children =~= seq![t] + before.children);
        Ok(())
    }
}

impl Program {
    /// The assembly file, as `compile` gives it, when every function held by
    /// the root compiles with inlining nested at most `depth` deep and the
    /// tape's size fits in an `isize`; `None` otherwise.
    pub fn compile_within(&mut self, depth: usize) -> (r: Option<String>)
        ensures
            *final(self) == *old(self),
            r is Some == ((forall|i: int| 0 <= i < old(self).root_tree().children.len()
                ==> (#[trigger] compile_tree(old(self).root_tree().children[i], old(self).env(), depth as nat)) is Some)
                && fits_isize(old(self).tape_width * old(self).tape_height)),
            r matches Some(s) ==> program_compilable(*old(self)) && s@ == program_text(
                compiled_list(old(self).root_tree().children, old(self).env(), 0),
                old(self).tape_width * old(self).tape_height,
            ),
    {
        let ghost cs = self.root_tree().children;
        let ghost env = self.env();
        let mut i: usize = 0;
        while i < self.root.children.len()
            invariant
                i <= self.root.children@.len(),
                cs == self.root_tree().children,
                cs.len() == self.root.children@.len(),
                env == self.env(),
                forall|j: int| 0 <= j < i ==> (#[trigger] compile_tree(cs[j], env, depth as nat)) is Some,
            decreases self.root.children@.len() - i,
        {
            assert(cs[i as int] == self.root.children@[i as int].tree());
            let part = self.root.children[i].compile_bounded(self, depth);
            if part.is_none() {
                return None;
            }
            i = i + 1;
        }
        if self.tape_width.checked_mul(self.tape_height).is_none() {
            return None;
        }
        proof {
            assert forall|j: int| 0 <= j < cs.len() implies compilable(#[trigger] cs[j], env) by {
                lemma_compiled_any_fuel(cs[j], env, depth as nat);
            }
        }
        Some(self.compile())
    }
}

/// When reading the grid succeeds, `_start` and everything nested in it are
/// fully merged: no two neighbouring nodes anywhere in it could be merged.
pub proof fn lemma_start_read_merged(g: Seq<Seq<char>>, st: ReadState)
    ensures
        start_read(g, st).2 is None ==> deep_normal(start_read(g, st).1),
{
    let node = leaf(Kind::Function("_start"@));
    let (st1, body, err) = read_loop(g, st, node.children, 0, 0, Direction::Right);
    if err is None {
        lemma_smash_deep_normal(Tree { kind: node.kind, children: body.push(leaf(Kind::ExitNode)) });
    }
}

} // verus!
