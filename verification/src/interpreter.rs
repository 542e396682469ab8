//! The interpreter: runs the grid directly over a 128 by 128 byte tape,
//! one instruction at a time. Reading and printing characters are left to
//! the caller: an instruction that needs them reports an `Effect`.

use vstd::prelude::*;
use crate::grid::{Vec2, Direction, dx, dy, fits_isize, grid_view, cell, direction_index, ahead,
    lemma_ahead_shift};
use crate::compiler::{grid_bounded, max_dim, bracket_weight};

verus! {

pub const MEM_WIDTH: usize = 128;

pub const MEM_HEIGHT: usize = 128;

/// The number of cells of the tape.
pub open spec fn mem_size() -> nat {
    (MEM_WIDTH * MEM_HEIGHT) as nat
}

/// What the caller has to do after an instruction ran.
#[derive(PartialEq, Eq, Structural, Clone, Copy, Debug)]
pub enum Effect {
    /// Nothing.
    Continue,
    /// Print this byte as a character.
    Print(u8),
    /// Read one byte from the keyboard and hand it to `store_input`.
    Read,
}

/// The direction at position `i` in the order left, right, up, down.
pub open spec fn direction_at(i: nat) -> Direction {
    if i == 0 {
        Direction::Left
    } else if i == 1 {
        Direction::Right
    } else if i == 2 {
        Direction::Up
    } else {
        Direction::Down
    }
}

/// The cell that the bracket search reads at `(x, y)`: the search indexes
/// the grid with `x` as the row and `y` as the column.
pub open spec fn scan_cell(g: Seq<Seq<char>>, x: int, y: int) -> Option<char> {
    if 0 <= x < g.len() && 0 <= y < g[x].len() {
        Some(g[x][y])
    } else {
        None
    }
}

/// Steps left for the bracket search from `(x, y)` in direction `d` before
/// it reads outside the grid.
pub open spec fn scan_dist(g: Seq<Seq<char>>, x: int, y: int, d: Direction) -> nat {
    if scan_cell(g, x, y) is Some {
        match d {
            Direction::Right => (g.len() - x) as nat,
            Direction::Left => (x + 1) as nat,
            Direction::Down => (g[x].len() - y) as nat,
            Direction::Up => (y + 1) as nat,
        }
    } else {
        0
    }
}

/// The bracket search: from `(x, y)`, stepping in direction `d` with `count`
/// brackets open, the first position where a `close` brings the count to
/// zero; `open` raises the count. `None` when the search reads outside
/// the grid first.
pub open spec fn bracket_scan(
    g: Seq<Seq<char>>,
    x: int,
    y: int,
    d: Direction,
    open: char,
    close: char,
    count: int,
) -> Option<(int, int)>
    decreases scan_dist(g, x, y, d),
{
    match scan_cell(g, x, y) {
        None => None,
        Some(c) => {
            if c == open {
                bracket_scan(g, x + dx(d), y + dy(d), d, open, close, count + 1)
            } else if c == close {
                if count - 1 == 0 {
                    Some((x, y))
                } else {
                    bracket_scan(g, x + dx(d), y + dy(d), d, open, close, count - 1)
                }
            } else {
                bracket_scan(g, x + dx(d), y + dy(d), d, open, close, count)
            }
        },
    }
}

/// A position found by the bracket search is a cell that the search reads,
/// so it lies inside the grid.
pub proof fn lemma_bracket_scan_inside(
    g: Seq<Seq<char>>,
    x: int,
    y: int,
    d: Direction,
    open: char,
    close: char,
    count: int,
)
    requires
        bracket_scan(g, x, y, d, open, close, count) is Some,
    ensures
        scan_cell(g, bracket_scan(g, x, y, d, open, close, count).unwrap().0, bracket_scan(g, x, y, d, open, close, count).unwrap().1) == Some(close),
    decreases scan_dist(g, x, y, d),
{
    let c = scan_cell(g, x, y).unwrap();
    let nx = x + dx(d);
    let ny = y + dy(d);
    if c == open {
        assert(scan_dist(g, nx, ny, d) < scan_dist(g, x, y, d));
        lemma_bracket_scan_inside(g, nx, ny, d, open, close, count + 1);
    } else if c == close && count - 1 != 0 {
        assert(scan_dist(g, nx, ny, d) < scan_dist(g, x, y, d));
        lemma_bracket_scan_inside(g, nx, ny, d, open, close, count - 1);
    } else if c != close {
        assert(scan_dist(g, nx, ny, d) < scan_dist(g, x, y, d));
        lemma_bracket_scan_inside(g, nx, ny, d, open, close, count);
    }
}

/// The brackets opened minus those closed over the first `n` cells that
/// the bracket search reads from `(x, y)` in direction `d`.
pub open spec fn scan_balance(
    g: Seq<Seq<char>>,
    x: int,
    y: int,
    d: Direction,
    open: char,
    close: char,
    n: nat,
) -> int
    decreases n,
{
    if n == 0 {
        0
    } else {
        bracket_weight(scan_cell(g, x, y), open, close) + scan_balance(
            g,
            x + dx(d),
            y + dy(d),
            d,
            open,
            close,
            (n - 1) as nat,
        )
    }
}

/// Whether the bracket search from `(x, y)` in direction `d`, with `count`
/// brackets open, could stop `j` steps ahead: every cell up to there can be
/// read, that cell holds `close`, and the brackets up to and including it
/// bring the count to zero.
pub open spec fn scan_closes_at(
    g: Seq<Seq<char>>,
    x: int,
    y: int,
    d: Direction,
    open: char,
    close: char,
    count: int,
    j: nat,
) -> bool {
    &&& forall|i: int| 0 <= i <= j ==> (scan_cell(g, (#[trigger] ahead(x, y, d, i)).0, ahead(x, y, d, i).1) is Some)
    &&& scan_cell(g, ahead(x, y, d, j as int).0, ahead(x, y, d, j as int).1) == Some(close)
    &&& count + scan_balance(g, x, y, d, open, close, j + 1) == 0
}

/// Stopping `j + 1` steps ahead of a readable cell is stopping `j` steps
/// ahead of the next cell, with that cell counted.
proof fn lemma_scan_closes_at_shift(
    g: Seq<Seq<char>>,
    x: int,
    y: int,
    d: Direction,
    open: char,
    close: char,
    count: int,
    j: nat,
)
    requires
        scan_cell(g, x, y) is Some,
    ensures
        scan_closes_at(g, x, y, d, open, close, count, j + 1) == scan_closes_at(
            g,
            x + dx(d),
            y + dy(d),
            d,
            open,
            close,
            count + bracket_weight(scan_cell(g, x, y), open, close),
            j,
        ),
{
    let nx = x + dx(d);
    let ny = y + dy(d);
    assert forall|i: int| #[trigger] ahead(x, y, d, i + 1) == ahead(nx, ny, d, i) by {
        lemma_ahead_shift(x, y, d, i);
    }
    lemma_ahead_shift(x, y, d, 0);
    let a = forall|i: int| 0 <= i <= j + 1 ==> (scan_cell(g, (#[trigger] ahead(x, y, d, i)).0, ahead(x, y, d, i).1) is Some);
    let b = forall|i: int| 0 <= i <= j ==> (scan_cell(g, (#[trigger] ahead(nx, ny, d, i)).0, ahead(nx, ny, d, i).1) is Some);
    if a {
        assert forall|i: int| 0 <= i <= j implies (scan_cell(g, (#[trigger] ahead(nx, ny, d, i)).0, ahead(nx, ny, d, i).1) is Some) by {
            assert(ahead(x, y, d, i + 1) == ahead(nx, ny, d, i));
        }
    }
    if b {
        assert forall|i: int| 0 <= i <= j + 1 implies (scan_cell(g, (#[trigger] ahead(x, y, d, i)).0, ahead(x, y, d, i).1) is Some) by {
            if i > 0 {
                assert(ahead(x, y, d, (i - 1) + 1) == ahead(nx, ny, d, i - 1));
            }
        }
    }
    assert(ahead(x, y, d, (j + 1) as int) == ahead(nx, ny, d, j as int)) by {
        assert(ahead(x, y, d, j as int + 1) == ahead(nx, ny, d, j as int));
    }
    assert(scan_balance(g, x, y, d, open, close, j + 2) == bracket_weight(scan_cell(g, x, y), open, close)
        + scan_balance(g, nx, ny, d, open, close, j + 1));
}

/// The bracket search finds exactly the first cell ahead where the brackets
/// read, that cell included, bring the count to zero on a `close`; it finds
/// nothing when no such cell comes before the search reads outside the grid.
pub proof fn lemma_bracket_scan_first_close(
    g: Seq<Seq<char>>,
    x: int,
    y: int,
    d: Direction,
    open: char,
    close: char,
    count: int,
)
    requires
        open != close,
    ensures
        bracket_scan(g, x, y, d, open, close, count) matches Some(p) ==> exists|j: nat|
            #[trigger] scan_closes_at(g, x, y, d, open, close, count, j) && p == ahead(x, y, d, j as int)
                && forall|i: nat| i < j ==> !#[trigger] scan_closes_at(g, x, y, d, open, close, count, i),
        bracket_scan(g, x, y, d, open, close, count) is None ==> forall|j: nat|
            !#[trigger] scan_closes_at(g, x, y, d, open, close, count, j),
    decreases scan_dist(g, x, y, d),
{
    lemma_ahead_shift(x, y, d, 0);
    match scan_cell(g, x, y) {
        None => {
            assert forall|j: nat| !#[trigger] scan_closes_at(g, x, y, d, open, close, count, j) by {
                assert(ahead(x, y, d, 0) == (x, y));
            }
        },
        Some(ch) => {
            let nx = x + dx(d);
            let ny = y + dy(d);
            assert(scan_dist(g, nx, ny, d) < scan_dist(g, x, y, d));
            let w = bracket_weight(Some(ch), open, close);
            assert(scan_balance(g, x, y, d, open, close, 1) == w + scan_balance(g, nx, ny, d, open, close, 0));
            if ch == close && count - 1 == 0 {
                assert(scan_closes_at(g, x, y, d, open, close, count, 0));
            } else {
                assert(!scan_closes_at(g, x, y, d, open, close, count, 0));
                lemma_bracket_scan_first_close(g, nx, ny, d, open, close, count + w);
                assert(bracket_scan(g, x, y, d, open, close, count) == bracket_scan(g, nx, ny, d, open, close, count + w));
                assert forall|j: nat| scan_closes_at(g, x, y, d, open, close, count, j + 1) == #[trigger] scan_closes_at(
                    g, nx, ny, d, open, close, count + w, j) by {
                    lemma_scan_closes_at_shift(g, x, y, d, open, close, count, j);
                }
                match bracket_scan(g, nx, ny, d, open, close, count + w) {
                    Some(p) => {
                        let j = choose|j: nat| #[trigger] scan_closes_at(g, nx, ny, d, open, close, count + w, j) && p
                            == ahead(nx, ny, d, j as int) && forall|i: nat|
                            i < j ==> !#[trigger] scan_closes_at(g, nx, ny, d, open, close, count + w, i);
                        lemma_ahead_shift(x, y, d, j as int);
                        assert(scan_closes_at(g, x, y, d, open, close, count, j + 1));
                        assert forall|i: nat| i < j + 1 implies !#[trigger] scan_closes_at(g, x, y, d, open, close, count, i) by {
                            if i > 0 {
                                assert(scan_closes_at(g, x, y, d, open, close, count, ((i - 1) as nat) + 1) == scan_closes_at(
                                    g, nx, ny, d, open, close, count + w, (i - 1) as nat));
                            }
                        }
                    },
                    None => {
                        assert forall|j: nat| !#[trigger] scan_closes_at(g, x, y, d, open, close, count, j) by {
                            if j > 0 {
                                assert(scan_closes_at(g, x, y, d, open, close, count, ((j - 1) as nat) + 1) == scan_closes_at(
                                    g, nx, ny, d, open, close, count + w, (j - 1) as nat));
                            }
                        }
                    },
                }
            }
        },
    }
}

/// The interpreter's state.
pub struct Program {
    pub memory: Vec<u8>,
    pub program: Vec<Vec<char>>,
    pub ip: Vec2,
    pub cflow: Direction,
    pub ptr: usize,
    pub delta: isize,
    /// Remembered searches for the `]` that matches a `[`: direction index,
    /// start, result.
    pub stored_closers: Vec<(usize, Vec2, Vec2)>,
    /// Remembered searches for the `[` that matches a `]`.
    pub stored_openers: Vec<(usize, Vec2, Vec2)>,
}

/// The observable state of the interpreter.
pub struct Machine {
    pub memory: Seq<u8>,
    pub grid: Seq<Seq<char>>,
    pub ip: (int, int),
    pub cflow: Direction,
    pub ptr: int,
}

/// Every remembered search in `cache` is what the search from its start in
/// its direction, between `open` and `close`, finds.
pub open spec fn cache_sound(g: Seq<Seq<char>>, cache: Seq<(usize, Vec2, Vec2)>, open: char, close: char) -> bool {
    forall|i: int|
        0 <= i < cache.len() ==> {
            let (di, from, to) = #[trigger] cache[i];
            &&& di < 4
            &&& bracket_scan(g, from.x as int, from.y as int, direction_at(di as nat), open, close, 0)
                == Some((to.x as int, to.y as int))
        }
}

impl Program {
    pub open spec fn machine(&self) -> Machine {
        Machine {
            memory: self.memory@,
            grid: grid_view(self.program@),
            ip: (self.ip.x as int, self.ip.y as int),
            cflow: self.cflow,
            ptr: self.ptr as int,
        }
    }

    /// The tape has its fixed size, the grid respects the machine's limits on
    /// lengths, and the remembered searches are sound.
    pub open spec fn wf(&self) -> bool {
        &&& self.memory@.len() == mem_size()
        &&& grid_bounded(grid_view(self.program@))
        &&& cache_sound(grid_view(self.program@), self.stored_closers@, '[', ']')
        &&& cache_sound(grid_view(self.program@), self.stored_openers@, ']', '[')
        &&& cache_keys_unique(self.stored_closers@)
        &&& cache_keys_unique(self.stored_openers@)
    }

    /// The remembered searches for `]` after running instruction `c`: the
    /// search for the `]` matching the `[` under the instruction pointer is
    /// remembered when `c` is a `[` on a zero cell; nothing changes otherwise.
    pub open spec fn closers_after(&self, c: char) -> Seq<(usize, Vec2, Vec2)> {
        if c == '[' && self.memory@[self.ptr as int] == 0 {
            remember(
                self.stored_closers@,
                direction_index(self.cflow) as usize,
                self.ip,
                at(closer_of(self.machine()).unwrap()),
            )
        } else {
            self.stored_closers@
        }
    }

    /// The remembered searches for `[` after running instruction `c`: the
    /// search for the `[` matching the `]` under the instruction pointer is
    /// remembered when `c` is a `]` on a nonzero cell; nothing changes
    /// otherwise.
    pub open spec fn openers_after(&self, c: char) -> Seq<(usize, Vec2, Vec2)> {
        if c == ']' && self.memory@[self.ptr as int] != 0 {
            remember(
                self.stored_openers@,
                direction_index(self.cflow) as usize,
                self.ip,
                at(opener_of(self.machine()).unwrap()),
            )
        } else {
            self.stored_openers@
        }
    }

    /// The instruction that `step` runs, if it runs one.
    pub open spec fn stepped_instruction(&self) -> Option<char> {
        match cell(self.machine().grid, self.ip.x as int, self.ip.y as int) {
            Some(c) => if faults(self.machine(), c) {
                None
            } else {
                Some(c)
            },
            None => None,
        }
    }
}

/// The position `p` as a `Vec2`.
pub open spec fn at(p: (int, int)) -> Vec2 {
    Vec2 { x: p.0 as isize, y: p.1 as isize }
}

/// Whether the remembered search `e` starts at `from` in the direction with
/// index `di`.
pub open spec fn entry_matches(e: (usize, Vec2, Vec2), di: usize, from: Vec2) -> bool {
    e.0 == di && e.1 == from
}

/// No two remembered searches share a direction and a start.
pub open spec fn cache_keys_unique(cache: Seq<(usize, Vec2, Vec2)>) -> bool {
    forall|i: int, j: int|
        0 <= i < j < cache.len() ==> !entry_matches(#[trigger] cache[i], (#[trigger] cache[j]).0, cache[j].1)
}

/// The remembered searches after asking for the search from `from` in the
/// direction with index `di`, whose answer is `to`: unchanged when a search
/// with that direction and start is remembered, else with `(di, from, to)`
/// added at the end.
pub open spec fn remember(cache: Seq<(usize, Vec2, Vec2)>, di: usize, from: Vec2, to: Vec2) -> Seq<
    (usize, Vec2, Vec2),
> {
    if exists|i: int| 0 <= i < cache.len() && entry_matches(#[trigger] cache[i], di, from) {
        cache
    } else {
        cache.push((di, from, to))
    }
}

/// Where the `]` matching the `[` at the instruction pointer is, as the
/// interpreter searches for it.
pub open spec fn closer_of(m: Machine) -> Option<(int, int)> {
    bracket_scan(m.grid, m.ip.0, m.ip.1, m.cflow, '[', ']', 0)
}

/// Where the `[` matching the `]` at the instruction pointer is, as the
/// interpreter searches for it (stepping in the current direction).
pub open spec fn opener_of(m: Machine) -> Option<(int, int)> {
    bracket_scan(m.grid, m.ip.0, m.ip.1, m.cflow, ']', '[', 0)
}

/// Whether running instruction `c` in state `m` fails: the pointer leaves
/// the range of `usize` or of the tape where the tape is read, a cell
/// overflows, or a bracket search reads outside the grid.
pub open spec fn faults(m: Machine, c: char) -> bool {
    let on_tape = 0 <= m.ptr < m.memory.len();
    if c == '>' {
        m.ptr + 1 > usize::MAX
    } else if c == '<' {
        m.ptr < 1
    } else if c == '^' {
        m.ptr + MEM_WIDTH > usize::MAX
    } else if c == 'v' {
        m.ptr < MEM_WIDTH
    } else if c == '+' {
        !on_tape || m.memory[m.ptr] == 255
    } else if c == '-' {
        !on_tape || m.memory[m.ptr] == 0
    } else if c == '.' || c == ',' {
        !on_tape
    } else if c == '[' {
        !on_tape || (m.memory[m.ptr] == 0 && closer_of(m) is None)
    } else if c == ']' {
        !on_tape || (m.memory[m.ptr] != 0 && opener_of(m) is None)
    } else {
        false
    }
}

/// The state after running instruction `c` in state `m`, and what the
/// caller has to do, when `c` does not fault.
pub open spec fn run_spec(m: Machine, c: char) -> (Machine, Effect) {
    if c == '>' {
        (Machine { ptr: m.ptr + 1, ..m }, Effect::Continue)
    } else if c == '<' {
        (Machine { ptr: m.ptr - 1, ..m }, Effect::Continue)
    } else if c == '^' {
        (Machine { ptr: m.ptr + MEM_WIDTH, ..m }, Effect::Continue)
    } else if c == 'v' {
        (Machine { ptr: m.ptr - MEM_WIDTH, ..m }, Effect::Continue)
    } else if c == 'u' {
        (Machine { cflow: Direction::Up, ..m }, Effect::Continue)
    } else if c == 'd' {
        (Machine { cflow: Direction::Down, ..m }, Effect::Continue)
    } else if c == 'l' {
        (Machine { cflow: Direction::Left, ..m }, Effect::Continue)
    } else if c == 'r' {
        (Machine { cflow: Direction::Right, ..m }, Effect::Continue)
    } else if c == '+' {
        (Machine { memory: m.memory.update(m.ptr, (m.memory[m.ptr] + 1) as u8), ..m }, Effect::Continue)
    } else if c == '-' {
        (Machine { memory: m.memory.update(m.ptr, (m.memory[m.ptr] - 1) as u8), ..m }, Effect::Continue)
    } else if c == '.' {
        (m, Effect::Print(m.memory[m.ptr]))
    } else if c == ',' {
        (m, Effect::Read)
    } else if c == '[' {
        if m.memory[m.ptr] == 0 {
            (Machine { ip: closer_of(m).unwrap(), ..m }, Effect::Continue)
        } else {
            (m, Effect::Continue)
        }
    } else if c == ']' {
        if m.memory[m.ptr] != 0 {
            (Machine { ip: opener_of(m).unwrap(), ..m }, Effect::Continue)
        } else {
            (m, Effect::Continue)
        }
    } else {
        (m, Effect::Continue)
    }
}

/// What one step of the interpreter came to.
#[derive(PartialEq, Eq, Structural, Clone, Copy, Debug)]
pub enum Step {
    /// The instruction ran.
    Continue,
    /// The instruction ran; print this byte as a character.
    Print(u8),
    /// A `,` ran; hand a byte read from the keyboard to `provide_input`.
    NeedInput,
    /// The instruction pointer is outside the grid: the program is over.
    Halted,
    /// This instruction cannot run in the current state (see `faults`).
    Fault(char),
}

/// The state with the instruction pointer one step further in the current
/// direction.
pub open spec fn advanced(m: Machine) -> Machine {
    Machine { ip: (m.ip.0 + dx(m.cflow), m.ip.1 + dy(m.cflow)), ..m }
}

/// One step of the interpreter: run the instruction under the instruction
/// pointer and move on, unless the pointer is off the grid, the instruction
/// faults, or it waits for input.
pub open spec fn step_spec(m: Machine) -> (Machine, Step) {
    match cell(m.grid, m.ip.0, m.ip.1) {
        None => (m, Step::Halted),
        Some(c) => if faults(m, c) {
            (m, Step::Fault(c))
        } else {
            let (m1, e) = run_spec(m, c);
            match e {
                Effect::Read => (m1, Step::NeedInput),
                Effect::Print(b) => (advanced(m1), Step::Print(b)),
                Effect::Continue => (advanced(m1), Step::Continue),
            }
        },
    }
}

/// Changing the cell up and then down, or moving the tape pointer and
/// moving it back, restores the state.
pub proof fn lemma_inverse_instructions(m: Machine)
    requires
        0 <= m.ptr <= usize::MAX,
    ensures
        !faults(m, '+') ==> !faults(run_spec(m, '+').0, '-') && run_spec(run_spec(m, '+').0, '-').0 == m,
        !faults(m, '-') ==> !faults(run_spec(m, '-').0, '+') && run_spec(run_spec(m, '-').0, '+').0 == m,
        !faults(m, '>') ==> !faults(run_spec(m, '>').0, '<') && run_spec(run_spec(m, '>').0, '<').0 == m,
        !faults(m, '<') ==> !faults(run_spec(m, '<').0, '>') && run_spec(run_spec(m, '<').0, '>').0 == m,
        !faults(m, '^') ==> !faults(run_spec(m, '^').0, 'v') && run_spec(run_spec(m, '^').0, 'v').0 == m,
        !faults(m, 'v') ==> !faults(run_spec(m, 'v').0, '^') && run_spec(run_spec(m, 'v').0, '^').0 == m,
{
    if !faults(m, '+') {
        assert(run_spec(run_spec(m, '+').0, '-').0.memory =~= m.memory);
    }
    if !faults(m, '-') {
        assert(run_spec(run_spec(m, '-').0, '+').0.memory =~= m.memory);
    }
}

/// With the tape pointer on the tape, an instruction fails only when a cell
/// would leave the range of a byte, the pointer would leave the range of
/// `usize`, or a bracket that acts finds no matching bracket.
pub proof fn lemma_fault_reasons(m: Machine, c: char)
    requires
        0 <= m.ptr < m.memory.len(),
        faults(m, c),
    ensures
        (c == '+' && m.memory[m.ptr] == 255) || (c == '-' && m.memory[m.ptr] == 0) || (c == '>' && m.ptr
            + 1 > usize::MAX) || (c == '<' && m.ptr == 0) || (c == '^' && m.ptr + MEM_WIDTH > usize::MAX) || (c
            == 'v' && m.ptr < MEM_WIDTH) || (c == '[' && m.memory[m.ptr] == 0 && closer_of(m) is None) || (c
            == ']' && m.memory[m.ptr] != 0 && opener_of(m) is None),
{
}

/// What each instruction may touch. The grid never changes; only `+` and
/// `-` change the tape, and only the current cell, by one up or down
/// without wrapping; only `<`, `>`, `^` and `v` move the tape pointer, by
/// one cell or one row; only `u`, `d`, `l` and `r` turn, to the direction
/// they name; only brackets move the instruction pointer; only `.` prints,
/// and what it prints is the current cell; only `,` asks for input.
pub proof fn lemma_instruction_frame(m: Machine, c: char)
    requires
        !faults(m, c),
        0 <= m.ptr,
    ensures
        ({
            let (m1, e) = run_spec(m, c);
            &&& m1.grid == m.grid
            &&& (c != '+' && c != '-') ==> m1.memory == m.memory
            &&& (c == '+' || c == '-') ==> {
                &&& m1.memory.len() == m.memory.len()
                &&& forall|i: int| 0 <= i < m.memory.len() && i != m.ptr ==> m1.memory[i] == #[trigger] m.memory[i]
                &&& m1.memory[m.ptr] == m.memory[m.ptr] + (if c == '+' { 1int } else { -1int })
            }
            &&& !"<>^v"@.contains(c) ==> m1.ptr == m.ptr
            &&& c == '>' ==> m1.ptr == m.ptr + 1
            &&& c == '<' ==> m1.ptr == m.ptr - 1
            &&& c == '^' ==> m1.ptr == m.ptr + MEM_WIDTH
            &&& c == 'v' ==> m1.ptr == m.ptr - MEM_WIDTH
            &&& !"udlr"@.contains(c) ==> m1.cflow == m.cflow
            &&& c == 'u' ==> m1.cflow == Direction::Up
            &&& c == 'd' ==> m1.cflow == Direction::Down
            &&& c == 'l' ==> m1.cflow == Direction::Left
            &&& c == 'r' ==> m1.cflow == Direction::Right
            &&& (c != '[' && c != ']') ==> m1.ip == m.ip
            &&& (e is Print) == (c == '.')
            &&& c == '.' ==> e == Effect::Print(m.memory[m.ptr])
            &&& (e is Read) == (c == ',')
        }),
{
    reveal_strlit("<>^v");
    reveal_strlit("udlr");
    let (m1, e) = run_spec(m, c);
    if "<>^v"@.contains(c) {
        let i = choose|i: int| 0 <= i < 4 && "<>^v"@[i] == c;
        assert(c == '<' || c == '>' || c == '^' || c == 'v');
    } else {
        assert("<>^v"@[0] == '<' && "<>^v"@[1] == '>' && "<>^v"@[2] == '^' && "<>^v"@[3] == 'v');
        assert(c != '<' && c != '>' && c != '^' && c != 'v');
    }
    if "udlr"@.contains(c) {
        let i = choose|i: int| 0 <= i < 4 && "udlr"@[i] == c;
        assert(c == 'u' || c == 'd' || c == 'l' || c == 'r');
    } else {
        assert("udlr"@[0] == 'u' && "udlr"@[1] == 'd' && "udlr"@[2] == 'l' && "udlr"@[3] == 'r');
        assert(c != 'u' && c != 'd' && c != 'l' && c != 'r');
    }
}

/// A `[` only acts on a zero cell, where it skips its loop, and a `]` only
/// on a nonzero cell, where it repeats its loop; on the other cells either
/// does nothing and cannot fail. Where a bracket acts and does not fail, it
/// moves the instruction pointer alone, onto the matching bracket.
pub proof fn lemma_brackets(m: Machine)
    requires
        0 <= m.ptr < m.memory.len(),
    ensures
        m.memory[m.ptr] != 0 ==> !faults(m, '[') && run_spec(m, '[') == (m, Effect::Continue),
        m.memory[m.ptr] == 0 ==> !faults(m, ']') && run_spec(m, ']') == (m, Effect::Continue),
        m.memory[m.ptr] == 0 && !faults(m, '[') ==> {
            let (m1, e) = run_spec(m, '[');
            &&& e == Effect::Continue
            &&& m1 == (Machine { ip: m1.ip, ..m })
            &&& scan_cell(m.grid, m1.ip.0, m1.ip.1) == Some(']')
        },
        m.memory[m.ptr] != 0 && !faults(m, ']') ==> {
            let (m1, e) = run_spec(m, ']');
            &&& e == Effect::Continue
            &&& m1 == (Machine { ip: m1.ip, ..m })
            &&& scan_cell(m.grid, m1.ip.0, m1.ip.1) == Some('[')
        },
{
    if m.memory[m.ptr] == 0 && !faults(m, '[') {
        lemma_bracket_scan_inside(m.grid, m.ip.0, m.ip.1, m.cflow, '[', ']', 0);
    }
    if m.memory[m.ptr] != 0 && !faults(m, ']') {
        lemma_bracket_scan_inside(m.grid, m.ip.0, m.ip.1, m.cflow, ']', '[', 0);
    }
}

/// The bracket search walks past every cell that holds neither bracket.
pub proof fn lemma_bracket_scan_skips(
    g: Seq<Seq<char>>,
    x: int,
    y: int,
    d: Direction,
    open: char,
    close: char,
    count: int,
)
    requires
        scan_cell(g, x, y) matches Some(c) && c != open && c != close,
    ensures
        bracket_scan(g, x, y, d, open, close, count) == bracket_scan(g, x + dx(d), y + dy(d), d, open, close, count),
{
}

/// Only instruction characters can fault or have an effect; any other
/// character leaves the state as it is.
pub proof fn lemma_other_chars_inert(m: Machine, c: char)
    requires
        !"<>^v+-.,[]udlr"@.contains(c),
    ensures
        !faults(m, c),
        run_spec(m, c) == (m, Effect::Continue),
{
    reveal_strlit("<>^v+-.,[]udlr");
    assert("<>^v+-.,[]udlr"@[0] == '<');
    assert("<>^v+-.,[]udlr"@[1] == '>');
    assert("<>^v+-.,[]udlr"@[2] == '^');
    assert("<>^v+-.,[]udlr"@[3] == 'v');
    assert("<>^v+-.,[]udlr"@[4] == '+');
    assert("<>^v+-.,[]udlr"@[5] == '-');
    assert("<>^v+-.,[]udlr"@[6] == '.');
    assert("<>^v+-.,[]udlr"@[7] == ',');
    assert("<>^v+-.,[]udlr"@[8] == '[');
    assert("<>^v+-.,[]udlr"@[9] == ']');
    assert("<>^v+-.,[]udlr"@[10] == 'u');
    assert("<>^v+-.,[]udlr"@[11] == 'd');
    assert("<>^v+-.,[]udlr"@[12] == 'l');
    assert("<>^v+-.,[]udlr"@[13] == 'r');
}

impl Program {
    pub fn new(program: Vec<Vec<char>>) -> (r: Self)
        requires
            grid_bounded(grid_view(program@)),
        ensures
            r.wf(),
            r.machine() == (Machine {
                memory: Seq::new(mem_size(), |i: int| 0u8),
                grid: grid_view(program@),
                ip: (0, 0),
                cflow: Direction::Right,
                ptr: 0,
            }),
            r.delta == 1,
            r.stored_closers@.len() == 0,
            r.stored_openers@.len() == 0,
    {
        let mut memory: Vec<u8> = Vec::new();
        let mut i: usize = 0;
        while i < MEM_HEIGHT * MEM_WIDTH
            invariant
                i <= mem_size(),
                memory@ == Seq::new(i as nat, |j: int| 0u8),
            decreases mem_size() - i,
        {
            memory.push(0);
            i = i + 1;
            assert(memory@ =~= Seq::new(i as nat, |j: int| 0u8));
        }
        Program {
            memory,
            ptr: 0,
            delta: 1,
            ip: Vec2::new(0, 0),
            cflow: Direction::Right,
            program,
            stored_closers: Vec::new(),
            stored_openers: Vec::new(),
        }
    }

    /// The instruction under the instruction pointer, if it is on the grid.
    pub fn fetch(&self) -> (r: Option<char>)
        ensures
            r == cell(self.machine().grid, self.ip.x as int, self.ip.y as int),
    {
        if self.ip.x < 0 || self.ip.y < 0 || self.ip.y as usize >= self.program.len() {
            return None;
        }
        let row = &self.program[self.ip.y as usize];
        if self.ip.x as usize >= row.len() {
            return None;
        }
        Some(row[self.ip.x as usize])
    }

    /// Whether the instruction pointer can take its next step without
    /// leaving the range of `isize`.
    pub fn can_advance(&self) -> (r: bool)
        ensures
            r == (fits_isize(self.ip.x + dx(self.cflow)) && fits_isize(self.ip.y + dy(self.cflow))),
    {
        match self.cflow {
            Direction::Right => self.ip.x < isize::MAX,
            Direction::Left => self.ip.x > isize::MIN,
            Direction::Up => self.ip.y > isize::MIN,
            Direction::Down => self.ip.y < isize::MAX,
        }
    }

    /// Moves the instruction pointer one step in the current direction.
    pub fn advance(&mut self)
        requires
            fits_isize(old(self).ip.x + dx(old(self).cflow)),
            fits_isize(old(self).ip.y + dy(old(self).cflow)),
        ensures
            final(self).program == old(self).program,
            final(self).machine() == (Machine {
                ip: (old(self).ip.x + dx(old(self).cflow), old(self).ip.y + dy(old(self).cflow)),
                ..old(self).machine()
            }),
            final(self).stored_closers == old(self).stored_closers,
            final(self).stored_openers == old(self).stored_openers,
            final(self).delta == old(self).delta,
    {
        let d = self.cflow;
        self.ip.add_assign(d);
    }

    /// Whether running `c` now would fail (see `faults`).
    pub fn would_fault(&self, c: char) -> (r: bool)
        requires
            self.wf(),
        ensures
            r == faults(self.machine(), c),
    {
        let on_tape = self.ptr < self.memory.len();
        if c == '>' {
            self.ptr == usize::MAX
        } else if c == '<' {
            self.ptr < 1
        } else if c == '^' {
            self.ptr > usize::MAX - MEM_WIDTH
        } else if c == 'v' {
            self.ptr < MEM_WIDTH
        } else if c == '+' {
            !on_tape || self.memory[self.ptr] == 255
        } else if c == '-' {
            !on_tape || self.memory[self.ptr] == 0
        } else if c == '.' || c == ',' {
            !on_tape
        } else if c == '[' {
            !on_tape || (self.memory[self.ptr] == 0 && self.search_bracket('[', ']').is_none())
        } else if c == ']' {
            !on_tape || (self.memory[self.ptr] != 0 && self.search_bracket(']', '[').is_none())
        } else {
            false
        }
    }

    /// Stores a byte read from the keyboard in the current cell.
    pub fn store_input(&mut self, b: u8)
        requires
            old(self).ptr < old(self).memory@.len(),
        ensures
            final(self).program == old(self).program,
            final(self).machine() == (Machine {
                memory: old(self).machine().memory.update(old(self).ptr as int, b),
                ..old(self).machine()
            }),
            final(self).stored_closers == old(self).stored_closers,
            final(self).stored_openers == old(self).stored_openers,
            final(self).delta == old(self).delta,
    {
        let p = self.ptr;
        self.memory.set(p, b);
    }

    /// The bracket search from the instruction pointer, where it finds a
    /// match. The search always steps in the current direction; `_dir` does
    /// not steer it.
    fn scan_bracket(&self, opener: char, closer: char, _dir: Direction) -> (r: Vec2)
        requires
            self.wf(),
            bracket_scan(self.machine().grid, self.ip.x as int, self.ip.y as int, self.cflow, opener, closer, 0) is Some,
        ensures
            bracket_scan(self.machine().grid, self.ip.x as int, self.ip.y as int, self.cflow, opener, closer, 0)
                == Some((r.x as int, r.y as int)),
    {
        self.search_bracket(opener, closer).unwrap()
    }

    /// Tells in advance whether running a bracket would fault: the position
    /// where the search from the instruction pointer, stepping in the current
    /// direction, finds its match, or `None` where it reads outside the grid
    /// first (the case that running the bracket cannot survive).
    fn search_bracket(&self, opener: char, closer: char) -> (r: Option<Vec2>)
        requires
            self.wf(),
        ensures
            r matches Some(p) ==> bracket_scan(self.machine().grid, self.ip.x as int, self.ip.y as int, self.cflow, opener, closer, 0)
                == Some((p.x as int, p.y as int)),
            r is None ==> bracket_scan(self.machine().grid, self.ip.x as int, self.ip.y as int, self.cflow, opener, closer, 0) is None,
    {
        let ghost g = self.machine().grid;
        let ghost start = scan_dist(g, self.ip.x as int, self.ip.y as int, self.cflow);
        proof {
            if scan_cell(g, self.ip.x as int, self.ip.y as int) is Some {
                assert(g[self.ip.x as int].len() <= max_dim());
            }
        }
        let mut pos = self.ip;
        let mut count: isize = 0;
        loop
            invariant
                self.wf(),
                g == self.machine().grid,
                start <= max_dim(),
                scan_dist(g, pos.x as int, pos.y as int, self.cflow) <= start,
                -(start - scan_dist(g, pos.x as int, pos.y as int, self.cflow)) <= count
                    <= start - scan_dist(g, pos.x as int, pos.y as int, self.cflow),
                bracket_scan(g, pos.x as int, pos.y as int, self.cflow, opener, closer, count as int)
                    == bracket_scan(g, self.ip.x as int, self.ip.y as int, self.cflow, opener, closer, 0),
            ensures
                bracket_scan(g, self.ip.x as int, self.ip.y as int, self.cflow, opener, closer, 0) is None,
            decreases scan_dist(g, pos.x as int, pos.y as int, self.cflow),
        {
            if pos.x < 0 || pos.y < 0 || pos.x as usize >= self.program.len() {
                break;
            }
            let row = &self.program[pos.x as usize];
            if pos.y as usize >= row.len() {
                break;
            }
            let instr = row[pos.y as usize];
            proof {
                assert(g[pos.x as int].len() <= max_dim());
            }
            if instr == opener {
                count = count + 1;
            } else if instr == closer {
                count = count - 1;
                if count == 0 {
                    return Some(pos);
                }
            }
            pos.add_assign(self.cflow);
        }
        None
    }
}

/// Remembering a search a second time changes nothing: asking again for a
/// search already asked for leaves the remembered searches as the first
/// asking left them.
pub proof fn lemma_remember_idempotent(cache: Seq<(usize, Vec2, Vec2)>, di: usize, from: Vec2, to: Vec2)
    ensures
        remember(remember(cache, di, from, to), di, from, to) == remember(cache, di, from, to),
{
    let once = remember(cache, di, from, to);
    if !(exists|i: int| 0 <= i < cache.len() && entry_matches(#[trigger] cache[i], di, from)) {
        assert(entry_matches(once[cache.len() as int], di, from));
    }
}

/// Looks up a remembered search from `from` in the direction with index
/// `di`: the result of the first such entry, `None` when there is none.
fn cache_lookup(cache: &Vec<(usize, Vec2, Vec2)>, di: usize, from: Vec2) -> (r: Option<Vec2>)
    ensures
        r is None <==> forall|i: int| 0 <= i < cache@.len() ==> !entry_matches(#[trigger] cache@[i], di, from),
        r matches Some(to) ==> exists|i: int|
            0 <= i < cache@.len() && #[trigger] cache@[i] == (di, from, to)
                && forall|j: int| 0 <= j < i ==> !entry_matches(#[trigger] cache@[j], di, from),
{
    let mut i: usize = 0;
    while i < cache.len()
        invariant
            i <= cache@.len(),
            forall|j: int| 0 <= j < i ==> !entry_matches(#[trigger] cache@[j], di, from),
        decreases cache@.len() - i,
    {
        let (d, f, t) = cache[i];
        if d == di && f.x == from.x && f.y == from.y {
            assert(cache@[i as int] == (di, from, t));
            return Some(t);
        }
        i = i + 1;
    }
    None
}

impl Program {
    /// The position of the `]` that matches the `[` under the instruction
    /// pointer, remembering the answer for the next time.
    pub fn get_closer(&mut self) -> (r: Vec2)
        requires
            old(self).wf(),
            closer_of(old(self).machine()) is Some,
        ensures
            final(self).wf(),
            final(self).machine() == old(self).machine(),
            final(self).stored_openers == old(self).stored_openers,
            final(self).delta == old(self).delta,
            final(self).program == old(self).program,
            closer_of(old(self).machine()) == Some((r.x as int, r.y as int)),
            final(self).stored_closers@ == remember(
                old(self).stored_closers@,
                direction_index(old(self).cflow) as usize,
                old(self).ip,
                r,
            ),
    {
        let di = self.cflow.index();
        if let Some(stored) = cache_lookup(&self.stored_closers, di, self.ip) {
            proof {
                let i = choose|i: int| 0 <= i < self.stored_closers@.len() && #[trigger] self.stored_closers@[i] == (di, self.ip, stored);
                assert(direction_at(di as nat) == self.cflow);
            }
            return stored;
        }
        let end = self.scan_bracket('[', ']', self.cflow);
        let ghost g = self.machine().grid;
        let ghost before = self.stored_closers@;
        self.stored_closers.push((di, self.ip, end));
        proof {
            assert(direction_at(di as nat) == self.cflow);
            assert forall|i: int| 0 <= i < self.stored_closers@.len() implies {
                let (d, from, to) = #[trigger] self.stored_closers@[i];
                &&& d < 4
                &&& bracket_scan(g, from.x as int, from.y as int, direction_at(d as nat), '[', ']', 0)
                    == Some((to.x as int, to.y as int))
            } by {
                if i < before.len() {
                    assert(self.stored_closers@[i] == before[i]);
                }
            }
        }
        end
    }

    /// The position of the `[` that matches the `]` under the instruction
    /// pointer, remembering the answer for the next time.
    pub fn get_opener(&mut self) -> (r: Vec2)
        requires
            old(self).wf(),
            opener_of(old(self).machine()) is Some,
        ensures
            final(self).wf(),
            final(self).machine() == old(self).machine(),
            final(self).stored_closers == old(self).stored_closers,
            final(self).delta == old(self).delta,
            final(self).program == old(self).program,
            opener_of(old(self).machine()) == Some((r.x as int, r.y as int)),
            final(self).stored_openers@ == remember(
                old(self).stored_openers@,
                direction_index(old(self).cflow) as usize,
                old(self).ip,
                r,
            ),
    {
        let di = self.cflow.index();
        if let Some(stored) = cache_lookup(&self.stored_openers, di, self.ip) {
            proof {
                let i = choose|i: int| 0 <= i < self.stored_openers@.len() && #[trigger] self.stored_openers@[i] == (di, self.ip, stored);
                assert(direction_at(di as nat) == self.cflow);
            }
            return stored;
        }
        let end = self.scan_bracket(']', '[', self.cflow.mirror());
        let ghost g = self.machine().grid;
        let ghost before = self.stored_openers@;
        self.stored_openers.push((di, self.ip, end));
        proof {
            assert(direction_at(di as nat) == self.cflow);
            assert forall|i: int| 0 <= i < self.stored_openers@.len() implies {
                let (d, from, to) = #[trigger] self.stored_openers@[i];
                &&& d < 4
                &&& bracket_scan(g, from.x as int, from.y as int, direction_at(d as nat), ']', '[', 0)
                    == Some((to.x as int, to.y as int))
            } by {
                if i < before.len() {
                    assert(self.stored_openers@[i] == before[i]);
                }
            }
        }
        end
    }

    /// Runs the instruction `c`: moves the tape pointer, turns, changes the
    /// current cell or jumps over a bracketed loop; printing and reading
    /// are reported to the caller as an `Effect`.
    pub fn execute_instruction(&mut self, c: &char) -> (r: Effect)
        requires
            old(self).wf(),
            !faults(old(self).machine(), *c),
        ensures
            final(self).wf(),
            (final(self).machine(), r) == run_spec(old(self).machine(), *c),
            final(self).delta == old(self).delta,
            final(self).program == old(self).program,
            final(self).stored_closers@ == old(self).closers_after(*c),
            final(self).stored_openers@ == old(self).openers_after(*c),
    {
        let ghost m = self.machine();
        match *c {
            '>' => {
                self.ptr = self.ptr + 1;
            },
            '<' => {
                self.ptr = self.ptr - 1;
            },
            '^' => {
                self.ptr = self.ptr + MEM_WIDTH;
            },
            'v' => {
                self.ptr = self.ptr - MEM_WIDTH;
            },
            'u' => {
                self.cflow = Direction::Up;
            },
            'd' => {
                self.cflow = Direction::Down;
            },
            'l' => {
                self.cflow = Direction::Left;
            },
            'r' => {
                self.cflow = Direction::Right;
            },
            '+' => {
                let p = self.ptr;
                let v = self.memory[p] + 1;
                self.memory.set(p, v);
            },
            '-' => {
                let p = self.ptr;
                let v = self.memory[p] - 1;
                self.memory.set(p, v);
            },
            '.' => {
                return Effect::Print(self.memory[self.ptr]);
            },
            ',' => {
                return Effect::Read;
            },
            '[' => {
                if self.memory[self.ptr] == 0 {
                    self.ip = self.get_closer();
                }
            },
            ']' => {
                if self.memory[self.ptr] != 0 {
                    self.ip = self.get_opener();
                }
            },
            _ => {},
        }
        Effect::Continue
    }
}

impl Program {
    /// Runs the instruction under the instruction pointer and moves on (see
    /// `step_spec`).
    pub fn step(&mut self) -> (r: Step)
        requires
            old(self).wf(),
        ensures
            final(self).wf(),
            (final(self).machine(), r) == step_spec(old(self).machine()),
            final(self).delta == old(self).delta,
            final(self).program == old(self).program,
            final(self).stored_closers@ == match old(self).stepped_instruction() {
                Some(c) => old(self).closers_after(c),
                None => old(self).stored_closers@,
            },
            final(self).stored_openers@ == match old(self).stepped_instruction() {
                Some(c) => old(self).openers_after(c),
                None => old(self).stored_openers@,
            },
    {
        let c = match self.fetch() {
            None => {
                return Step::Halted;
            },
            Some(c) => c,
        };
        if self.would_fault(c) {
            return Step::Fault(c);
        }
        let ghost m = self.machine();
        proof {
            assert(m.grid[self.ip.y as int].len() <= max_dim());
        }
        let e = self.execute_instruction(&c);
        proof {
            if c == '[' && m.memory[m.ptr] == 0 {
                lemma_bracket_scan_inside(m.grid, m.ip.0, m.ip.1, m.cflow, '[', ']', 0);
                assert(m.grid[self.ip.x as int].len() <= max_dim());
            } else if c == ']' && m.memory[m.ptr] != 0 {
                lemma_bracket_scan_inside(m.grid, m.ip.0, m.ip.1, m.cflow, ']', '[', 0);
                assert(m.grid[self.ip.x as int].len() <= max_dim());
            }
        }
        match e {
            Effect::Read => Step::NeedInput,
            Effect::Print(b) => {
                self.advance();
                Step::Print(b)
            },
            Effect::Continue => {
                self.advance();
                Step::Continue
            },
        }
    }

    /// Stores a byte read from the keyboard in the current cell and moves
    /// on; `false`, changing nothing, when the tape pointer is off the tape
    /// or the instruction pointer cannot move on.
    pub fn provide_input(&mut self, b: u8) -> (r: bool)
        ensures
            final(self).program == old(self).program,
            r == (old(self).ptr < old(self).memory@.len() && fits_isize(old(self).ip.x + dx(old(self).cflow))
                && fits_isize(old(self).ip.y + dy(old(self).cflow))),
            r ==> final(self).machine() == advanced(
                Machine { memory: old(self).machine().memory.update(old(self).ptr as int, b), ..old(self).machine() },
            ),
            !r ==> final(self).machine() == old(self).machine(),
            old(self).wf() ==> final(self).wf(),
            final(self).stored_closers == old(self).stored_closers,
            final(self).stored_openers == old(self).stored_openers,
            final(self).delta == old(self).delta,
    {
        if self.ptr >= self.memory.len() || !self.can_advance() {
            return false;
        }
        self.store_input(b);
        self.advance();
        true
    }
}

} // verus!
