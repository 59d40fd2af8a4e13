//! Sokoban board rules: walking, pushing single boxes, undo and reset.

use vstd::prelude::*;
use vstd::string::*;

use crate::sokoban::campaign::{
    is_box_tile, is_goal_tile, is_player_tile, level_valid, level_check, rows_chars, Level,
    dimensions_ok, rows_error_from, unsupported_from, is_board_tile, players_of, rows_count, Piece,
    count_where, is_piece,
};
use crate::text::{ascii_lower, chars_are, lowercase_chars, push_char};

verus! {

#[derive(Clone, Copy, Debug, PartialEq, Eq, Structural)]
pub enum Direction {
    Up,
    Down,
    Left,
    Right,
}

/// The direction a (lowercased) name stands for.
pub open spec fn direction_named(name: Seq<char>) -> Option<Direction> {
    if name == "up"@ || name == "u"@ || name == "w"@ {
        Some(Direction::Up)
    } else if name == "down"@ || name == "d"@ || name == "s"@ {
        Some(Direction::Down)
    } else if name == "left"@ || name == "l"@ || name == "a"@ {
        Some(Direction::Left)
    } else if name == "right"@ || name == "r"@ {
        Some(Direction::Right)
    } else {
        None
    }
}

pub open spec fn direction_name(d: Direction) -> Seq<char> {
    match d {
        Direction::Up => "up"@,
        Direction::Down => "down"@,
        Direction::Left => "left"@,
        Direction::Right => "right"@,
    }
}

/// Row and column change of one step.
pub open spec fn delta(d: Direction) -> (int, int) {
    match d {
        Direction::Up => (-1, 0),
        Direction::Down => (1, 0),
        Direction::Left => (0, -1),
        Direction::Right => (0, 1),
    }
}

impl Direction {
    /// Reads a direction name, ignoring ASCII case: `up`/`u`/`w`,
    /// `down`/`d`/`s`, `left`/`l`/`a`, `right`/`r`.
    pub fn parse(value: &str) -> (r: Result<Self, String>)
        ensures
            match r {
                Ok(d) => direction_named(ascii_lower(value@)) == Some(d),
                Err(message) => direction_named(ascii_lower(value@)) is None && message@
                    == "unknown direction: "@ + value@,
            },
    {
        let lower = lowercase_chars(value);
        let s = lower.as_slice();
        if chars_are(s, "up") || chars_are(s, "u") || chars_are(s, "w") {
            Ok(Direction::Up)
        } else if chars_are(s, "down") || chars_are(s, "d") || chars_are(s, "s") {
            Ok(Direction::Down)
        } else if chars_are(s, "left") || chars_are(s, "l") || chars_are(s, "a") {
            Ok(Direction::Left)
        } else if chars_are(s, "right") || chars_are(s, "r") {
            Ok(Direction::Right)
        } else {
            let mut message = String::from_str("unknown direction: ");
            message.append(value);
            Err(message)
        }
    }

    pub fn as_str(self) -> (r: &'static str)
        ensures
            r@ == direction_name(self),
    {
        match self {
            Direction::Up => "up",
            Direction::Down => "down",
            Direction::Left => "left",
            Direction::Right => "right",
        }
    }
}

/// Every direction reads back from its name, in whatever ASCII case the
/// name is written.
pub proof fn law_direction_names_read_back(d: Direction, written: Seq<char>)
    requires
        ascii_lower(written) == ascii_lower(direction_name(d)),
    ensures
        direction_named(ascii_lower(written)) == Some(d),
{
    reveal_strlit("up");
    reveal_strlit("u");
    reveal_strlit("w");
    reveal_strlit("down");
    reveal_strlit("d");
    reveal_strlit("s");
    reveal_strlit("left");
    reveal_strlit("l");
    reveal_strlit("a");
    reveal_strlit("right");
    reveal_strlit("r");
    let n = direction_name(d);
    assert(ascii_lower(n) =~= n);
    assert(ascii_lower(written) == n);
    match d {
        Direction::Up => {
            assert(n == "up"@);
        },
        Direction::Down => {
            assert(n.len() == 4 && n[0] == 'd');
            assert(n != "up"@ && n != "u"@ && n != "w"@);
            assert(n == "down"@);
        },
        Direction::Left => {
            assert(n.len() == 4 && n[0] == 'l');
            assert(n != "up"@ && n != "u"@ && n != "w"@);
            assert(n != "down"@ && n != "d"@ && n != "s"@);
            assert(n == "left"@);
        },
        Direction::Right => {
            assert(n.len() == 5);
            assert(n != "up"@ && n != "u"@ && n != "w"@);
            assert(n != "down"@ && n != "d"@ && n != "s"@);
            assert(n != "left"@ && n != "l"@ && n != "a"@);
            assert(n == "right"@);
        },
    }
}

proof fn lemma_count_pieces(s: Seq<char>, f: Piece, i: int, j: int)
    requires
        0 <= i < s.len(),
        is_piece(s[i], f),
        0 <= j < s.len() && j != i ==> is_piece(s[j], f),
    ensures
        count_where(s, f) >= 1,
        0 <= j < s.len() && j != i ==> count_where(s, f) >= 2,
    decreases s.len(),
{
    let last = s.len() - 1;
    if i == last {
        if 0 <= j < last {
            lemma_count_pieces(s.drop_last(), f, j, j);
        }
    } else if 0 <= j < s.len() && j != i && j == last {
        lemma_count_pieces(s.drop_last(), f, i, i);
    } else {
        lemma_count_pieces(s.drop_last(), f, i, j);
    }
}

proof fn lemma_rows_count_rows(rows: Seq<String>, f: Piece, a: int, b: int)
    requires
        0 <= a < rows.len(),
        0 <= b < rows.len(),
    ensures
        rows_count(rows, f) >= count_where(rows[a]@, f),
        a != b ==> rows_count(rows, f) >= count_where(rows[a]@, f) + count_where(rows[b]@, f),
    decreases rows.len(),
{
    let last = rows.len() - 1;
    let rest = rows.drop_last();
    if a == last && b == last {
    } else if a == last {
        lemma_rows_count_rows(rest, f, b, b);
    } else if b == last {
        lemma_rows_count_rows(rest, f, a, a);
    } else {
        lemma_rows_count_rows(rest, f, a, b);
    }
}

/// A level has one player: no cell but the player's shows one.
proof fn lemma_one_player(level: &Level, pr: int, pc: int, r: int, c: int)
    requires
        level_valid(level),
        0 <= pr < level.height && 0 <= pc < level.width,
        0 <= r < level.height && 0 <= c < level.width,
        is_player_tile(level.rows@[pr]@[pc]),
        (r, c) != (pr, pc),
    ensures
        !is_player_tile(level.rows@[r]@[c]),
{
    lemma_valid_level_rows(level, pr, pc);
    lemma_valid_level_rows(level, r, c);
    if is_player_tile(level.rows@[r]@[c]) {
        if r == pr {
            lemma_count_pieces(level.rows@[r]@, Piece::Player, pc, c);
            lemma_rows_count_rows(level.rows@, Piece::Player, r, r);
        } else {
            lemma_count_pieces(level.rows@[r]@, Piece::Player, c, c);
            lemma_count_pieces(level.rows@[pr]@, Piece::Player, pc, pc);
            lemma_rows_count_rows(level.rows@, Piece::Player, r, pr);
        }
        assert(players_of(level.rows@) == 1);
    }
}

/// The cell one step from `p`, if it lies on a `height` x `width` board.
pub open spec fn offset_spec(p: (int, int), d: Direction, height: int, width: int) -> Option<
    (int, int),
> {
    let q = (p.0 + delta(d).0, p.1 + delta(d).1);
    if 0 <= q.0 < height && 0 <= q.1 < width {
        Some(q)
    } else {
        None
    }
}

fn offset(p: (usize, usize), d: Direction, height: usize, width: usize) -> (r: Option<
    (usize, usize),
>)
    ensures
        match offset_spec((p.0 as int, p.1 as int), d, height as int, width as int) {
            Some(q) => r == Some((q.0 as usize, q.1 as usize)),
            None => r is None,
        },
{
    let (row, column) = p;
    let (nr, nc) = match d {
        Direction::Up => {
            if row == 0 {
                return None;
            }
            (row - 1, column)
        },
        Direction::Down => {
            if row == usize::MAX {
                return None;
            }
            (row + 1, column)
        },
        Direction::Left => {
            if column == 0 {
                return None;
            }
            (row, column - 1)
        },
        Direction::Right => {
            if column == usize::MAX {
                return None;
            }
            (row, column + 1)
        },
    };
    if nr < height && nc < width {
        Some((nr, nc))
    } else {
        None
    }
}

/// A player position and box layout on the board grid (row-major).
pub struct PositionModel {
    pub player: (int, int),
    pub boxes: Seq<bool>,
    pub pushes: nat,
}

/// The abstract board: fixed walls and goals, the current position, the
/// position the level started from, and the positions before each move.
pub struct BoardModel {
    pub width: nat,
    pub height: nat,
    pub walls: Seq<bool>,
    pub goals: Seq<bool>,
    pub position: PositionModel,
    pub initial: PositionModel,
    pub history: Seq<PositionModel>,
}

pub open spec fn cell(width: nat, p: (int, int)) -> int {
    p.0 * width + p.1
}

pub open spec fn in_bounds(m: BoardModel, p: (int, int)) -> bool {
    0 <= p.0 < m.height && 0 <= p.1 < m.width
}

pub open spec fn wall_at(m: BoardModel, p: (int, int)) -> bool {
    m.walls[cell(m.width, p)]
}

pub open spec fn box_at(m: BoardModel, pos: PositionModel, p: (int, int)) -> bool {
    pos.boxes[cell(m.width, p)]
}

/// Solved: boxes stand on exactly the goal cells.
pub open spec fn solved_model(m: BoardModel) -> bool {
    m.position.boxes == m.goals
}

/// One attempted step: (board after, moved, pushed). A step is blocked by
/// the board edge, a wall, or a box that cannot move on (edge, wall or a
/// second box); a blocked step changes nothing.
pub open spec fn step_model(m: BoardModel, d: Direction) -> (BoardModel, bool, bool) {
    let pos = m.position;
    match offset_spec(pos.player, d, m.height as int, m.width as int) {
        None => (m, false, false),
        Some(next) => {
            if wall_at(m, next) {
                (m, false, false)
            } else {
                let pushed = box_at(m, pos, next);
                let target = offset_spec(next, d, m.height as int, m.width as int);
                if pushed && (target is None || wall_at(m, target->0) || box_at(
                    m,
                    pos,
                    target->0,
                )) {
                    (m, false, false)
                } else {
                    let boxes = if pushed {
                        pos.boxes.update(cell(m.width, next), false).update(
                            cell(m.width, target->0),
                            true,
                        )
                    } else {
                        pos.boxes
                    };
                    let after = PositionModel {
                        player: next,
                        boxes,
                        pushes: pos.pushes + if pushed {
                            1nat
                        } else {
                            0nat
                        },
                    };
                    (BoardModel { position: after, history: m.history.push(pos), ..m }, true, pushed)
                }
            }
        },
    }
}

/// Undoing up to `steps` moves: (board after, moves undone).
pub open spec fn undo_model(m: BoardModel, steps: nat) -> (BoardModel, nat) {
    let n = m.history.len();
    let k = if steps <= n {
        steps
    } else {
        n
    };
    if k == 0 {
        (m, 0)
    } else {
        (
            BoardModel {
                position: m.history[n - k],
                history: m.history.take(n - k),
                ..m
            },
            k,
        )
    }
}

pub open spec fn reset_model(m: BoardModel) -> BoardModel {
    BoardModel { position: m.initial, history: Seq::empty(), ..m }
}

pub open spec fn position_wf(width: nat, height: nat, p: PositionModel) -> bool {
    &&& 0 <= p.player.0 < height
    &&& 0 <= p.player.1 < width
    &&& p.boxes.len() == width * height
}

pub open spec fn model_wf(m: BoardModel) -> bool {
    &&& m.width * m.height <= usize::MAX
    &&& m.walls.len() == m.width * m.height
    &&& m.goals.len() == m.width * m.height
    &&& position_wf(m.width, m.height, m.position)
    &&& position_wf(m.width, m.height, m.initial)
    &&& m.initial.pushes == 0
    &&& m.position.pushes <= m.history.len()
    &&& forall|i: int|
        0 <= i < m.history.len() ==> position_wf(m.width, m.height, #[trigger] m.history[i])
            && m.history[i].pushes <= i
}

pub proof fn lemma_cell_in_range(width: nat, height: nat, p: (int, int))
    requires
        0 <= p.0 < height,
        0 <= p.1 < width,
    ensures
        0 <= cell(width, p) < width * height,
{
    assert(0 <= p.0 * width <= (height - 1) * width) by (nonlinear_arith)
        requires
            0 <= p.0 < height,
    ;
    assert((height - 1) * width + width == width * height) by (nonlinear_arith);
}

struct Position {
    player: (usize, usize),
    boxes: Vec<bool>,
    pushes: usize,
}

impl View for Position {
    type V = PositionModel;

    closed spec fn view(&self) -> PositionModel {
        PositionModel {
            player: (self.player.0 as int, self.player.1 as int),
            boxes: self.boxes@,
            pushes: self.pushes as nat,
        }
    }
}

impl Position {
    fn duplicate(&self) -> (r: Position)
        ensures
            r@ == self@,
    {
        let mut boxes: Vec<bool> = Vec::new();
        let mut i: usize = 0;
        while i < self.boxes.len()
            invariant
                i <= self.boxes@.len(),
                boxes@ == self.boxes@.take(i as int),
            decreases self.boxes@.len() - i,
        {
            boxes.push(self.boxes[i]);
            assert(self.boxes@.take(i + 1) =~= self.boxes@.take(i as int).push(self.boxes@[i as int]));
            i += 1;
        }
        assert(self.boxes@.take(i as int) =~= self.boxes@);
        Position { player: self.player, boxes, pushes: self.pushes }
    }
}

/// A Sokoban board in play.
pub struct Board {
    width: usize,
    height: usize,
    walls: Vec<bool>,
    goals: Vec<bool>,
    position: Position,
    initial: Position,
    history: Vec<Position>,
}

/// What one step did.
pub struct StepResult {
    pub direction: &'static str,
    pub moved: bool,
    pub pushed: bool,
    pub solved: bool,
}

pub struct Coordinate {
    pub row: usize,
    pub column: usize,
}

pub struct BoardSnapshot {
    pub width: usize,
    pub height: usize,
    pub map: Vec<String>,
    pub player: Coordinate,
    pub boxes: Vec<Coordinate>,
    pub goals: Vec<Coordinate>,
    pub boxes_on_goals: usize,
    pub moves: usize,
    pub pushes: usize,
    pub solved: bool,
}

impl View for Board {
    type V = BoardModel;

    closed spec fn view(&self) -> BoardModel {
        BoardModel {
            width: self.width as nat,
            height: self.height as nat,
            walls: self.walls@,
            goals: self.goals@,
            position: self.position@,
            initial: self.initial@,
            history: self.history@.map_values(|p: Position| p@),
        }
    }
}

impl Board {
    /// Every board keeps a well-formed model.
    pub open spec fn wf(&self) -> bool {
        model_wf(self@)
    }

    fn blocked(&self, direction: Direction) -> (r: StepResult)
        requires
            self.wf(),
        ensures
            r.direction@ == direction_name(direction),
            !r.moved,
            !r.pushed,
            r.solved == solved_model(self@),
    {
        StepResult {
            direction: direction.as_str(),
            moved: false,
            pushed: false,
            solved: self.solved(),
        }
    }

    /// Whether every box stands on a goal and every goal holds a box.
    pub fn solved(&self) -> (r: bool)
        requires
            self.wf(),
        ensures
            r == solved_model(self@),
    {
        let n = self.goals.len();
        let mut i: usize = 0;
        while i < n
            invariant
                self.wf(),
                n == self.goals@.len(),
                n == self.position.boxes@.len(),
                i <= n,
                forall|j: int| 0 <= j < i ==> self.position.boxes@[j] == self.goals@[j],
            decreases n - i,
        {
            if self.position.boxes[i] != self.goals[i] {
                assert(self@.position.boxes[i as int] != self@.goals[i as int]);
                return false;
            }
            i += 1;
        }
        assert(self@.position.boxes =~= self@.goals);
        true
    }

    /// Tries one step. A move that walks into the edge or a wall, or pushes
    /// a box into the edge, a wall or another box, is blocked and changes
    /// nothing; otherwise the position before the move is remembered for
    /// undo, the player moves and a pushed box moves ahead of the player.
    pub fn step(&mut self, direction: Direction) -> (r: StepResult)
        requires
            old(self).wf(),
        ensures
            final(self).wf(),
            final(self)@ == step_model(old(self)@, direction).0,
            r.moved == step_model(old(self)@, direction).1,
            r.pushed == step_model(old(self)@, direction).2,
            r.solved == solved_model(final(self)@),
            r.direction@ == direction_name(direction),
    {
        let ghost m = self@;
        let next = match offset(self.position.player, direction, self.height, self.width) {
            Some(next) => next,
            None => {
                return self.blocked(direction);
            },
        };
        let ghost nextg = (next.0 as int, next.1 as int);
        proof {
            lemma_cell_in_range(m.width, m.height, nextg);
        }
        let next_cell = next.0 * self.width + next.1;
        if self.walls[next_cell] {
            return self.blocked(direction);
        }
        let pushed = self.position.boxes[next_cell];
        let mut target_cell: usize = 0;
        if pushed {
            match offset(next, direction, self.height, self.width) {
                None => {
                    return self.blocked(direction);
                },
                Some(target) => {
                    proof {
                        lemma_cell_in_range(m.width, m.height, (target.0 as int, target.1 as int));
                    }
                    target_cell = target.0 * self.width + target.1;
                    if self.walls[target_cell] || self.position.boxes[target_cell] {
                        return self.blocked(direction);
                    }
                },
            }
        }
        let saved = self.position.duplicate();
        self.history.push(saved);
        self.position.player = next;
        let history_len = self.history.len();
        assert(self.position.pushes < history_len) by {
            assert(self@.history.len() == self.history@.len());
        }
        if pushed {
            self.position.boxes.set(next_cell, false);
            self.position.boxes.set(target_cell, true);
            self.position.pushes = self.position.pushes + 1;
        }
        proof {
            assert(self@.history =~= m.history.push(m.position));
            assert(self@ == step_model(m, direction).0);
        }
        StepResult {
            direction: direction.as_str(),
            moved: true,
            pushed,
            solved: self.solved(),
        }
    }

    /// Takes back up to `steps` moves, most recent first, and returns how
    /// many were taken back (fewer when the history runs out).
    pub fn undo(&mut self, steps: usize) -> (r: usize)
        requires
            old(self).wf(),
        ensures
            final(self).wf(),
            final(self)@ == undo_model(old(self)@, steps as nat).0,
            r == undo_model(old(self)@, steps as nat).1,
    {
        let ghost m = self@;
        let mut undone: usize = 0;
        while undone < steps && self.history.len() > 0
            invariant
                self.wf(),
                model_wf(m),
                undone <= steps,
                undone <= m.history.len(),
                self@ == undo_model(m, undone as nat).0,
                undone == undo_model(m, undone as nat).1,
                self.history@.len() == m.history.len() - undone,
            decreases steps - undone,
        {
            let ghost before = self.history@;
            let ghost hv = self@.history;
            proof {
                if undone == 0 {
                    assert(hv =~= m.history.take(m.history.len() as int));
                }
                assert(hv =~= m.history.take(m.history.len() - undone));
                assert(hv[hv.len() - 1] == before[before.len() - 1]@);
            }
            let position = self.history.pop().unwrap();
            proof {
                assert(self.history@ =~= before.subrange(0, before.len() - 1));
                assert(position@ == m.history[m.history.len() - undone - 1]);
            }
            self.position = position;
            undone += 1;
            proof {
                assert(self@.history =~= m.history.take(m.history.len() - undone));
                assert(self@ == undo_model(m, undone as nat).0);
            }
        }
        undone
    }

    /// Returns to the level's starting position and forgets the history.
    pub fn reset(&mut self)
        requires
            old(self).wf(),
        ensures
            final(self).wf(),
            final(self)@ == reset_model(old(self)@),
    {
        self.position = self.initial.duplicate();
        self.history = Vec::new();
        assert(self@.history =~= Seq::<PositionModel>::empty());
    }
}


/// The board that a level's map describes.
pub open spec fn board_of_level(level: &Level, m: BoardModel) -> bool {
    &&& m.width == level.width
    &&& m.height == level.height
    &&& forall|r: int, c: int|
        0 <= r < level.height && 0 <= c < level.width ==> {
            let t = #[trigger] level.rows@[r]@[c];
            &&& m.walls[cell(m.width, (r, c))] == (t == '#')
            &&& m.goals[cell(m.width, (r, c))] == is_goal_tile(t)
            &&& m.initial.boxes[cell(m.width, (r, c))] == is_box_tile(t)
        }
    &&& is_player_tile(level.rows@[m.initial.player.0]@[m.initial.player.1])
    &&& m.initial.pushes == 0
    &&& m.position == m.initial
    &&& m.history.len() == 0
}

/// The character a snapshot shows for a cell.
pub open spec fn tile_char(m: BoardModel, p: (int, int)) -> char {
    if wall_at(m, p) {
        '#'
    } else if m.position.player == p {
        if m.goals[cell(m.width, p)] {
            '+'
        } else {
            '@'
        }
    } else if box_at(m, m.position, p) {
        if m.goals[cell(m.width, p)] {
            '*'
        } else {
            '$'
        }
    } else if m.goals[cell(m.width, p)] {
        '.'
    } else {
        ' '
    }
}

/// The (row, column) of every set cell among the first `n`, in row-major order.
pub open spec fn cells_of(grid: Seq<bool>, width: nat, n: int) -> Seq<(int, int)>
    decreases n,
{
    if n <= 0 {
        Seq::empty()
    } else if grid[n - 1] {
        cells_of(grid, width, n - 1).push(((n - 1) / (width as int), (n - 1) % (width as int)))
    } else {
        cells_of(grid, width, n - 1)
    }
}

/// How many of the first `n` cells are set in both grids.
pub open spec fn count_both(a: Seq<bool>, b: Seq<bool>, n: int) -> nat
    decreases n,
{
    if n <= 0 {
        0
    } else {
        count_both(a, b, n - 1) + if a[n - 1] && b[n - 1] {
            1nat
        } else {
            0nat
        }
    }
}

pub open spec fn coordinates(v: Seq<Coordinate>) -> Seq<(int, int)> {
    v.map_values(|c: Coordinate| (c.row as int, c.column as int))
}

proof fn lemma_rows_ok_from(rows: Seq<String>, width: int, r: int, q: int)
    requires
        0 <= r <= q < rows.len(),
        rows_error_from(rows, width, r) is None,
    ensures
        rows[q]@.len() == width,
        unsupported_from(rows[q]@, 0) is None,
    decreases q - r,
{
    if r < q {
        lemma_rows_ok_from(rows, width, r + 1, q);
    }
}

proof fn lemma_tiles_ok_from(row: Seq<char>, i: int, j: int)
    requires
        0 <= i <= j < row.len(),
        unsupported_from(row, i) is None,
    ensures
        is_board_tile(row[j]),
    decreases j - i,
{
    if i < j {
        lemma_tiles_ok_from(row, i + 1, j);
    }
}

/// In a valid level every row has the level's width and only board tiles.
pub proof fn lemma_valid_level_rows(level: &Level, r: int, c: int)
    requires
        level_valid(level),
        0 <= r < level.height,
    ensures
        level.rows@[r]@.len() == level.width,
        0 <= c < level.width ==> is_board_tile(level.rows@[r]@[c]),
{
    lemma_rows_ok_from(level.rows@, level.width as int, 0, r);
    if 0 <= c < level.width {
        lemma_tiles_ok_from(level.rows@[r]@, 0, c);
    }
}

proof fn lemma_count_positive(s: Seq<char>, f: Piece)
    requires
        count_where(s, f) > 0,
    ensures
        exists|i: int| 0 <= i < s.len() && crate::sokoban::campaign::is_piece(#[trigger] s[i], f),
    decreases s.len(),
{
    if !crate::sokoban::campaign::is_piece(s.last(), f) {
        lemma_count_positive(s.drop_last(), f);
        let i = choose|i: int| 0 <= i < s.drop_last().len() && crate::sokoban::campaign::is_piece(
            #[trigger] s.drop_last()[i],
            f,
        );
        assert(s[i] == s.drop_last()[i]);
    } else {
        assert(crate::sokoban::campaign::is_piece(s[s.len() - 1], f));
    }
}

proof fn lemma_rows_count_positive(rows: Seq<String>, f: Piece)
    requires
        rows_count(rows, f) > 0,
    ensures
        exists|r: int, c: int|
            0 <= r < rows.len() && 0 <= c < rows[r]@.len()
                && crate::sokoban::campaign::is_piece(#[trigger] rows[r]@[c], f),
    decreases rows.len(),
{
    if count_where(rows.last()@, f) > 0 {
        lemma_count_positive(rows.last()@, f);
        let c = choose|i: int| 0 <= i < rows.last()@.len() && crate::sokoban::campaign::is_piece(
            #[trigger] rows.last()@[i],
            f,
        );
        assert(crate::sokoban::campaign::is_piece(rows[rows.len() - 1]@[c], f));
    } else {
        lemma_rows_count_positive(rows.drop_last(), f);
        let (r, c) = choose|r: int, c: int|
            0 <= r < rows.drop_last().len() && 0 <= c < rows.drop_last()[r]@.len()
                && crate::sokoban::campaign::is_piece(#[trigger] rows.drop_last()[r]@[c], f);
        assert(rows[r] == rows.drop_last()[r]);
    }
}

proof fn lemma_rows_chars_uniform(rows: Seq<String>, width: nat)
    requires
        forall|r: int| 0 <= r < rows.len() ==> (#[trigger] rows[r])@.len() == width,
    ensures
        rows_chars(rows) == rows.len() * width,
    decreases rows.len(),
{
    if rows.len() > 0 {
        lemma_rows_chars_uniform(rows.drop_last(), width);
        assert(rows_chars(rows) == (rows.len() - 1) * width + width);
        assert((rows.len() - 1) * width + width == rows.len() * width) by (nonlinear_arith);
    }
}

fn bool_grid(n: usize) -> (r: Vec<bool>)
    ensures
        r@.len() == n,
        forall|i: int| 0 <= i < n ==> !r@[i],
{
    let mut v: Vec<bool> = Vec::new();
    let mut i: usize = 0;
    while i < n
        invariant
            i <= n,
            v@.len() == i,
            forall|j: int| 0 <= j < i ==> !v@[j],
        decreases n - i,
    {
        v.push(false);
        i += 1;
    }
    v
}

impl Board {
    /// The board a validated level describes, at its starting position.
    pub fn from_level(level: &Level) -> (r: Board)
        requires
            level_valid(level),
            rows_chars(level.rows@) <= usize::MAX,
        ensures
            r.wf(),
            board_of_level(level, r@),
    {
        let width = level.width;
        let height = level.height;
        proof {
            assert forall|r: int| 0 <= r < level.rows@.len() implies (#[trigger] level.rows@[r])@.len()
                == width by {
                lemma_valid_level_rows(level, r, 0);
            }
            lemma_rows_chars_uniform(level.rows@, width as nat);
            assert(height * width == width * height) by (nonlinear_arith);
            lemma_rows_count_positive(level.rows@, Piece::Player);
        }
        let total = width * height;
        let mut walls = bool_grid(total);
        let mut goals = bool_grid(total);
        let mut boxes = bool_grid(total);
        let mut player: (usize, usize) = (0, 0);
        let mut found = false;
        let mut r: usize = 0;
        while r < height
            invariant
                level_valid(level),
                dimensions_ok(level),
                width == level.width,
                height == level.height,
                total == width * height,
                r <= height,
                walls@.len() == total,
                goals@.len() == total,
                boxes@.len() == total,
                forall|q: int, c: int|
                    0 <= q < r && 0 <= c < width ==> {
                        let t = #[trigger] level.rows@[q]@[c];
                        &&& walls@[cell(width as nat, (q, c))] == (t == '#')
                        &&& goals@[cell(width as nat, (q, c))] == is_goal_tile(t)
                        &&& boxes@[cell(width as nat, (q, c))] == is_box_tile(t)
                    },
                forall|i: int| r * width <= i < total ==> !walls@[i] && !goals@[i] && !boxes@[i],
                found ==> player.0 < r && player.1 < width && is_player_tile(
                    level.rows@[player.0 as int]@[player.1 as int],
                ),
                !found ==> forall|q: int, c: int|
                    0 <= q < r && 0 <= c < width ==> !is_player_tile(
                        #[trigger] level.rows@[q]@[c],
                    ),
            decreases height - r,
        {
            proof {
                lemma_valid_level_rows(level, r as int, 0);
            }
            let row = crate::text::to_chars(level.rows[r].as_str());
            let mut c: usize = 0;
            while c < width
                invariant
                    level_valid(level),
                    dimensions_ok(level),
                    width == level.width,
                    height == level.height,
                    total == width * height,
                    r < height,
                    row@ == level.rows@[r as int]@,
                    row@.len() == width,
                    c <= width,
                    walls@.len() == total,
                    goals@.len() == total,
                    boxes@.len() == total,
                    forall|q: int, k: int|
                        ((0 <= q < r && 0 <= k < width) || (q == r && 0 <= k < c)) ==> {
                            let t = #[trigger] level.rows@[q]@[k];
                            &&& walls@[cell(width as nat, (q, k))] == (t == '#')
                            &&& goals@[cell(width as nat, (q, k))] == is_goal_tile(t)
                            &&& boxes@[cell(width as nat, (q, k))] == is_box_tile(t)
                        },
                    forall|i: int|
                        r * width + c <= i < total ==> !walls@[i] && !goals@[i] && !boxes@[i],
                    found ==> player.0 <= r && player.1 < width && is_player_tile(
                        level.rows@[player.0 as int]@[player.1 as int],
                    ),
                    !found ==> forall|q: int, k: int|
                        ((0 <= q < r && 0 <= k < width) || (q == r && 0 <= k < c))
                            ==> !is_player_tile(#[trigger] level.rows@[q]@[k]),
                decreases width - c,
            {
                proof {
                    lemma_cell_in_range(width as nat, height as nat, (r as int, c as int));
                    lemma_valid_level_rows(level, r as int, c as int);
                    assert forall|q: int, k: int|
                        (0 <= q < r && 0 <= k < width) implies cell(width as nat, (q, k)) < cell(
                        width as nat,
                        (r as int, c as int),
                    ) by {
                        assert(q * width + k < r * width) by (nonlinear_arith)
                            requires
                                0 <= q < r,
                                0 <= k < width,
                        ;
                    }
                }
                let i = r * width + c;
                let t = row[c];
                if t == '#' {
                    walls.set(i, true);
                } else if t == '.' {
                    goals.set(i, true);
                } else if t == '$' {
                    boxes.set(i, true);
                } else if t == '*' {
                    boxes.set(i, true);
                    goals.set(i, true);
                } else if t == '@' {
                    player = (r, c);
                    found = true;
                } else if t == '+' {
                    player = (r, c);
                    found = true;
                    goals.set(i, true);
                }
                c += 1;
            }
            proof {
                assert((r + 1) * width == r * width + width) by (nonlinear_arith);
            }
            r += 1;
        }
        assert(found);
        let initial = Position { player, boxes, pushes: 0 };
        let position = initial.duplicate();
        let b = Board { width, height, walls, goals, position, initial, history: Vec::new() };
        proof {
            assert(b@.history =~= Seq::<PositionModel>::empty());
        }
        b
    }
}

fn cells_list(grid: &Vec<bool>, width: usize) -> (r: Vec<Coordinate>)
    requires
        width > 0,
    ensures
        coordinates(r@) == cells_of(grid@, width as nat, grid@.len() as int),
{
    let mut out: Vec<Coordinate> = Vec::new();
    let mut i: usize = 0;
    while i < grid.len()
        invariant
            width > 0,
            i <= grid@.len(),
            coordinates(out@) == cells_of(grid@, width as nat, i as int),
        decreases grid@.len() - i,
    {
        if grid[i] {
            out.push(Coordinate { row: i / width, column: i % width });
            assert(coordinates(out@) =~= cells_of(grid@, width as nat, i as int).push(
                ((i as int) / (width as int), (i as int) % (width as int)),
            ));
        }
        i += 1;
    }
    out
}

/// What a snapshot of a board shows: the map rows in Sokoban characters,
/// the player, the boxes and goals in row-major order, and the counters.
pub open spec fn snapshot_of(m: BoardModel, r: BoardSnapshot) -> bool {
    &&& r.width == m.width
    &&& r.height == m.height
    &&& r.map@.len() == m.height
    &&& forall|row: int|
        0 <= row < m.height ==> (#[trigger] r.map@[row])@ == Seq::new(
            m.width,
            |c: int| tile_char(m, (row, c)),
        )
    &&& (r.player.row as int, r.player.column as int) == m.position.player
    &&& coordinates(r.boxes@) == cells_of(m.position.boxes, m.width, (m.width * m.height) as int)
    &&& coordinates(r.goals@) == cells_of(m.goals, m.width, (m.width * m.height) as int)
    &&& r.boxes_on_goals == count_both(m.position.boxes, m.goals, (m.width * m.height) as int)
    &&& r.moves == m.history.len()
    &&& r.pushes == m.position.pushes
    &&& r.solved == solved_model(m)
}

impl Board {
    /// A picture of the board: the map rows in Sokoban characters, the
    /// player, boxes and goals in row-major order, and the counters.
    pub fn snapshot(&self) -> (r: BoardSnapshot)
        requires
            self.wf(),
        ensures
            snapshot_of(self@, r),
    {
        let ghost m = self@;
        let mut map: Vec<String> = Vec::new();
        let mut row: usize = 0;
        while row < self.height
            invariant
                self.wf(),
                m == self@,
                row <= self.height,
                map@.len() == row,
                forall|q: int|
                    0 <= q < row ==> (#[trigger] map@[q])@ == Seq::new(
                        m.width,
                        |c: int| tile_char(m, (q, c)),
                    ),
            decreases self.height - row,
        {
            let mut line = String::new();
            let mut column: usize = 0;
            while column < self.width
                invariant
                    self.wf(),
                    m == self@,
                    row < self.height,
                    column <= self.width,
                    line@ == Seq::new(column as nat, |c: int| tile_char(m, (row as int, c))),
                decreases self.width - column,
            {
                proof {
                    lemma_cell_in_range(m.width, m.height, (row as int, column as int));
                }
                let i = row * self.width + column;
                let goal = self.goals[i];
                let tile = if self.walls[i] {
                    '#'
                } else if self.position.player.0 == row && self.position.player.1 == column {
                    if goal {
                        '+'
                    } else {
                        '@'
                    }
                } else if self.position.boxes[i] {
                    if goal {
                        '*'
                    } else {
                        '$'
                    }
                } else if goal {
                    '.'
                } else {
                    ' '
                };
                push_char(&mut line, tile);
                assert(line@ =~= Seq::new(
                    (column + 1) as nat,
                    |c: int| tile_char(m, (row as int, c)),
                ));
                column += 1;
            }
            map.push(line);
            row += 1;
        }
        let total = self.width * self.height;
        let mut both: usize = 0;
        let mut i: usize = 0;
        while i < total
            invariant
                self.wf(),
                m == self@,
                total == m.width * m.height,
                i <= total,
                both == count_both(m.position.boxes, m.goals, i as int),
                both <= i,
            decreases total - i,
        {
            if self.position.boxes[i] && self.goals[i] {
                both += 1;
            }
            i += 1;
        }
        let boxes = cells_list(&self.position.boxes, self.width);
        let goals = cells_list(&self.goals, self.width);
        proof {
            assert(self.history@.len() == m.history.len());
        }
        BoardSnapshot {
            width: self.width,
            height: self.height,
            map,
            player: Coordinate { row: self.position.player.0, column: self.position.player.1 },
            boxes,
            goals,
            boxes_on_goals: both,
            moves: self.history.len(),
            pushes: self.position.pushes,
            solved: self.solved(),
        }
    }
}

/// The number of set cells.
pub open spec fn count_set(s: Seq<bool>) -> nat
    decreases s.len(),
{
    if s.len() == 0 {
        0
    } else {
        count_set(s.drop_last()) + if s.last() {
            1nat
        } else {
            0nat
        }
    }
}

proof fn lemma_count_set_update(s: Seq<bool>, i: int, v: bool)
    requires
        0 <= i < s.len(),
    ensures
        count_set(s.update(i, v)) + (if s[i] {
            1nat
        } else {
            0nat
        }) == count_set(s) + (if v {
            1nat
        } else {
            0nat
        }),
    decreases s.len(),
{
    if i == s.len() - 1 {
        assert(s.update(i, v).drop_last() =~= s.drop_last());
    } else {
        lemma_count_set_update(s.drop_last(), i, v);
        assert(s.update(i, v).drop_last() =~= s.drop_last().update(i, v));
    }
}

/// Undoing right after a step that moved gives back the board from before
/// the step, exactly.
pub proof fn law_undo_reverts_step(m: BoardModel, d: Direction)
    requires
        model_wf(m),
        step_model(m, d).1,
    ensures
        undo_model(step_model(m, d).0, 1) == (m, 1nat),
{
    let after = step_model(m, d).0;
    assert(after.history.take(after.history.len() - 1) =~= m.history);
}

/// A step that does not move changes nothing at all.
pub proof fn law_blocked_step_changes_nothing(m: BoardModel, d: Direction)
    requires
        !step_model(m, d).1,
    ensures
        step_model(m, d).0 == m,
        !step_model(m, d).2,
{
}

/// Steps, undo and reset never change the walls, the goals, the board's
/// size or its starting position.
pub proof fn law_fixed_parts_never_change(m: BoardModel, d: Direction, steps: nat)
    ensures
        ({
            let a = step_model(m, d).0;
            let b = undo_model(m, steps).0;
            let c = reset_model(m);
            &&& a.walls == m.walls && a.goals == m.goals && a.width == m.width && a.height
                == m.height && a.initial == m.initial
            &&& b.walls == m.walls && b.goals == m.goals && b.width == m.width && b.height
                == m.height && b.initial == m.initial
            &&& c.walls == m.walls && c.goals == m.goals && c.width == m.width && c.height
                == m.height && c.initial == m.initial
        }),
{
}

/// A step that moves takes the player exactly one cell in its direction,
/// adds one entry to the history and counts a push exactly when it pushed.
pub proof fn law_step_moves_one_cell(m: BoardModel, d: Direction)
    requires
        step_model(m, d).1,
    ensures
        step_model(m, d).0.position.player == (m.position.player.0 + delta(d).0,
        m.position.player.1 + delta(d).1),
        step_model(m, d).0.history.len() == m.history.len() + 1,
        step_model(m, d).0.position.pushes == m.position.pushes + if step_model(m, d).2 {
            1nat
        } else {
            0nat
        },
{
}

/// Boxes are never created or destroyed: a step keeps the number of boxes.
/// A fresh board shows its level: the snapshot's map is the level's rows,
/// with its size, and no move or push counted yet.
pub proof fn law_fresh_board_shows_its_level(level: &Level, m: BoardModel, s: BoardSnapshot)
    requires
        level_valid(level),
        model_wf(m),
        board_of_level(level, m),
        snapshot_of(m, s),
    ensures
        s.width == level.width && s.height == level.height,
        s.moves == 0 && s.pushes == 0,
        s.map@.len() == level.rows@.len(),
        forall|r: int| 0 <= r < level.rows@.len() ==> (#[trigger] s.map@[r])@ == level.rows@[r]@,
{
    assert forall|r: int| 0 <= r < level.rows@.len() implies (#[trigger] s.map@[r])@ == level.rows@[r]@ by {
        lemma_valid_level_rows(level, r, 0);
        assert forall|c: int| 0 <= c < level.width implies tile_char(m, (r, c)) == level.rows@[r]@[c] by {
            let t = level.rows@[r]@[c];
            lemma_valid_level_rows(level, r, c);
            let (pr, pc) = m.position.player;
            if (r, c) != (pr, pc) && t != '#' {
                lemma_one_player(level, pr, pc, r, c);
            }
        }
        assert(s.map@[r]@ =~= level.rows@[r]@);
    }
}

proof fn lemma_cells_count(grid: Seq<bool>, width: nat, n: int)
    requires
        0 <= n <= grid.len(),
    ensures
        cells_of(grid, width, n).len() == count_set(grid.take(n)),
    decreases n,
{
    if n > 0 {
        lemma_cells_count(grid, width, n - 1);
        assert(grid.take(n).drop_last() =~= grid.take(n - 1));
    }
}

/// A step as the board's snapshots show it: a blocked step changes no
/// count, the player's cell or the boxes; a step that moves counts one move
/// more and one push more when it pushed, and puts the player one cell on
/// in its direction; either way the number of boxes stays.
pub proof fn law_step_as_snapshots(m: BoardModel, d: Direction, s0: BoardSnapshot, s1: BoardSnapshot)
    requires
        model_wf(m),
        snapshot_of(m, s0),
        snapshot_of(step_model(m, d).0, s1),
    ensures
        s1.boxes@.len() == s0.boxes@.len(),
        !step_model(m, d).1 ==> s1.moves == s0.moves && s1.pushes == s0.pushes && s1.player == s0.player && coordinates(s1.boxes@)
            == coordinates(s0.boxes@) && s1.solved == s0.solved,
        step_model(m, d).1 ==> s1.moves == s0.moves + 1 && s1.pushes == s0.pushes + (if step_model(m, d).2 {
            1int
        } else {
            0int
        }) && (s1.player.row as int, s1.player.column as int) == (s0.player.row + delta(d).0, s0.player.column + delta(d).1),
{
    let m1 = step_model(m, d).0;
    let n = (m.width * m.height) as int;
    law_step_keeps_box_count(m, d);
    lemma_step_moves_if_moved(m, d);
    assert(m1.width == m.width && m1.height == m.height);
    assert(m1.position.boxes.len() == m.position.boxes.len()) by {
        let pos = m.position;
        if step_model(m, d).1 && step_model(m, d).2 {
            let next = offset_spec(pos.player, d, m.height as int, m.width as int)->0;
            let target = offset_spec(next, d, m.height as int, m.width as int)->0;
            lemma_cell_in_range(m.width, m.height, next);
            lemma_cell_in_range(m.width, m.height, target);
            assert(m1.position.boxes == pos.boxes.update(cell(m.width, next), false).update(cell(m.width, target), true));
        } else if step_model(m, d).1 {
            assert(m1.position.boxes == pos.boxes);
        }
    }
    lemma_cells_count(m.position.boxes, m.width, n);
    lemma_cells_count(m1.position.boxes, m1.width, n);
    assert(m.position.boxes.take(n) =~= m.position.boxes);
    assert(m1.position.boxes.take(n) =~= m1.position.boxes);
    assert(coordinates(s0.boxes@).len() == s0.boxes@.len());
    assert(coordinates(s1.boxes@).len() == s1.boxes@.len());
}

proof fn lemma_step_moves_if_moved(m: BoardModel, d: Direction)
    ensures
        step_model(m, d).1 ==> step_model(m, d).0.position.player == (m.position.player.0 + delta(d).0, m.position.player.1
            + delta(d).1) && step_model(m, d).0.history.len() == m.history.len() + 1,
{
    if step_model(m, d).1 {
        law_step_moves_one_cell(m, d);
    }
}

pub proof fn law_step_keeps_box_count(m: BoardModel, d: Direction)
    requires
        model_wf(m),
    ensures
        count_set(step_model(m, d).0.position.boxes) == count_set(m.position.boxes),
{
    let pos = m.position;
    if step_model(m, d).1 && step_model(m, d).2 {
        let next = offset_spec(pos.player, d, m.height as int, m.width as int)->0;
        let target = offset_spec(next, d, m.height as int, m.width as int)->0;
        lemma_cell_in_range(m.width, m.height, next);
        lemma_cell_in_range(m.width, m.height, target);
        let i = cell(m.width, next);
        let j = cell(m.width, target);
        assert(i != j) by {
            if i == j {
                assert(next.0 * m.width + next.1 == target.0 * m.width + target.1);
                if next.0 == target.0 {
                } else {
                    assert(next.1 == target.1);
                    assert(next.0 * m.width == target.0 * m.width);
                    assert((next.0 - target.0) * m.width == 0) by (nonlinear_arith)
                        requires
                            next.0 * m.width == target.0 * m.width,
                    ;
                    assert(m.width > 0);
                    assert(next.0 - target.0 == 0) by (nonlinear_arith)
                        requires
                            (next.0 - target.0) * m.width == 0,
                            m.width > 0,
                    ;
                }
            }
        }
        lemma_count_set_update(pos.boxes, i, false);
        lemma_count_set_update(pos.boxes.update(i, false), j, true);
    }
}

/// Reset returns to the starting position with an empty history, whatever
/// happened before.
pub proof fn law_reset_returns_to_start(m: BoardModel, d: Direction)
    ensures
        reset_model(m).position == m.initial,
        reset_model(m).history.len() == 0,
        reset_model(step_model(m, d).0) == reset_model(m),
{
    assert(reset_model(step_model(m, d).0).history =~= reset_model(m).history);
}
} // verus!
