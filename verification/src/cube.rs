//! A cube of grids whose faces absorb and turn.

use vstd::prelude::*;
use vstd::string::StringSliceAdditionalSpecFns;
use grid::Grid;
use crate::text::{
    lines, lines_spec, parse_unsigned, parse_unsigned_spec, same_bytes, split_once, split_once_spec, trim, trim_spec,
};

verus! {

/// The side of each face.
pub const SIDE: usize = 80;

/// The number of faces.
pub const NUM_FACES: usize = 6;

/// `grid::Grid`, a grid of cells in rows and columns. Verus sees nothing
/// inside it; what it holds is named by `face_cells`.
#[verifier::external_type_specification]
#[verifier::external_body]
#[verifier::reject_recursive_types(T)]
pub struct ExGrid<T>(Grid<T>);

/// The cells of a face, row by row.
pub uninterp spec fn face_cells(face: Grid<u8>) -> Seq<Seq<u8>>;

/// A cell's value brought back into `1..=100`: what is above 100 starts
/// again at 1.
pub open spec fn clamp_spec(n: int) -> int {
    (n - 1) % 100 + 1
}

/// A cell's value, at least 1, brought back into `1..=100`.
pub fn clamp(n: u8) -> (r: u8)
    requires
        n >= 1,
    ensures
        r == clamp_spec(n as int),
        1 <= r <= 100,
{
    (n - 1) % 100 + 1
}

/// A face of the given size with the same value in every cell.
pub open spec fn even_face(rows: int, cols: int, value: u8) -> Seq<Seq<u8>> {
    Seq::new(rows as nat, |r: int| Seq::new(cols as nat, |c: int| value))
}

/// `Grid::init`: a grid of the given size with the same value in every
/// cell.
#[verifier::external_body]
fn face_init(rows: usize, cols: usize, value: u8) -> (r: Grid<u8>)
    requires
        rows > 0,
        cols > 0,
        rows * cols <= usize::MAX,
    ensures
        face_cells(r) == even_face(rows as int, cols as int, value),
{
    Grid::init(rows, cols, value)
}

/// `Grid::rotate_left`: a quarter turn against the clock.
#[verifier::external_body]
fn face_rotate_left(face: &mut Grid<u8>)
    ensures
        face_cells(*final(face)) == turned_left(face_cells(*old(face))),
{
    face.rotate_left()
}

/// A face after a quarter turn against the clock: its last column becomes
/// its first row.
pub open spec fn turned_left(cells: Seq<Seq<u8>>) -> Seq<Seq<u8>> {
    let rows = cells.len();
    let cols = if rows > 0 {
        cells[0].len()
    } else {
        0
    };
    Seq::new(cols, |r: int| Seq::new(rows, |c: int| cells[c][cols - 1 - r]))
}

/// A face after a quarter turn with the clock: its first column, read
/// upwards, becomes its first row.
pub open spec fn turned_right(cells: Seq<Seq<u8>>) -> Seq<Seq<u8>> {
    let rows = cells.len();
    let cols = if rows > 0 {
        cells[0].len()
    } else {
        0
    };
    Seq::new(cols, |r: int| Seq::new(rows, |c: int| cells[rows - 1 - c][r]))
}

/// A face after a half turn.
pub open spec fn turned_half(cells: Seq<Seq<u8>>) -> Seq<Seq<u8>> {
    let rows = cells.len();
    let cols = if rows > 0 {
        cells[0].len()
    } else {
        0
    };
    Seq::new(rows, |r: int| Seq::new(cols, |c: int| cells[rows - 1 - r][cols - 1 - c]))
}

/// `Grid::rotate_right`: a quarter turn with the clock.
#[verifier::external_body]
fn face_rotate_right(face: &mut Grid<u8>)
    ensures
        face_cells(*final(face)) == turned_right(face_cells(*old(face))),
{
    face.rotate_right()
}

/// `Grid::rotate_half`: a half turn.
#[verifier::external_body]
fn face_rotate_half(face: &mut Grid<u8>)
    ensures
        face_cells(*final(face)) == turned_half(face_cells(*old(face))),
{
    face.rotate_half()
}

/// Whether a face has the cell in the given row and column.
pub open spec fn has_cell(cells: Seq<Seq<u8>>, row: int, col: int) -> bool {
    0 <= row < cells.len() && 0 <= col < cells[row].len()
}

/// The value of a cell, if the face has the cell.
pub open spec fn cell_at(cells: Seq<Seq<u8>>, row: int, col: int) -> Option<u8> {
    if has_cell(cells, row, col) {
        Some(cells[row][col])
    } else {
        None
    }
}

/// A face with the value of a cell overwritten, if it has the cell.
pub open spec fn with_cell(cells: Seq<Seq<u8>>, row: int, col: int, value: u8) -> Seq<Seq<u8>> {
    if has_cell(cells, row, col) {
        cells.update(row, cells[row].update(col, value))
    } else {
        cells
    }
}

/// `Grid::get`: the value of a cell, if the grid has the cell.
#[verifier::external_body]
fn face_get(face: &Grid<u8>, row: usize, col: usize) -> (r: Option<u8>)
    ensures
        r == cell_at(face_cells(*face), row as int, col as int),
{
    face.get(row, col).copied()
}

/// `Grid::get_mut`: overwrites the value of a cell that the grid has, and
/// says whether it has the cell.
#[verifier::external_body]
fn face_set(face: &mut Grid<u8>, row: usize, col: usize, value: u8) -> (r: bool)
    ensures
        r == has_cell(face_cells(*old(face)), row as int, col as int),
        face_cells(*final(face)) == with_cell(face_cells(*old(face)), row as int, col as int, value),
{
    match face.get_mut(row, col) {
        Some(cell) => {
            *cell = value;
            true
        },
        None => false,
    }
}

/// Whether a face is a square of the cube's side.
pub open spec fn is_face(cells: Seq<Seq<u8>>) -> bool {
    &&& cells.len() == 80
    &&& forall|r: int| 0 <= r < 80 ==> (#[trigger] cells[r]).len() == 80
}

/// A new face: every cell holds one.
pub fn make_grid() -> (r: Grid<u8>)
    ensures
        face_cells(r) == even_face(80, 80, 1),
        is_face(face_cells(r)),
{
    face_init(SIDE, SIDE, 1)
}

/// The sum of the first `n` cells of a row.
pub open spec fn row_total(cells: Seq<Seq<u8>>, r: int, n: int) -> int
    decreases n,
{
    if n <= 0 {
        0
    } else {
        row_total(cells, r, n - 1) + cells[r][n - 1]
    }
}

/// The sum of the first `n` cells of a column.
pub open spec fn col_total(cells: Seq<Seq<u8>>, c: int, n: int) -> int
    decreases n,
{
    if n <= 0 {
        0
    } else {
        col_total(cells, c, n - 1) + cells[n - 1][c]
    }
}

/// The greatest sum among the first `k` rows and the first `k` columns of a
/// face.
pub open spec fn dominant(cells: Seq<Seq<u8>>, k: int) -> int
    decreases k,
{
    if k <= 0 {
        0
    } else {
        let before = dominant(cells, k - 1);
        let row = row_total(cells, k - 1, 80);
        let col = col_total(cells, k - 1, 80);
        if row >= before && row >= col {
            row
        } else if col >= before {
            col
        } else {
            before
        }
    }
}

/// The greatest sum of a row or of a column of a face.
pub fn dominant_sum(grid: &Grid<u8>) -> (r: u16)
    requires
        is_face(face_cells(*grid)),
    ensures
        r == dominant(face_cells(*grid), 80),
{
    let mut best: u16 = 0;
    let mut i: usize = 0;
    while i < SIDE
        invariant
            i <= SIDE,
            is_face(face_cells(*grid)),
            best == dominant(face_cells(*grid), i as int),
        decreases SIDE - i,
    {
        let mut row: u16 = 0;
        let mut col: u16 = 0;
        let mut j: usize = 0;
        while j < SIDE
            invariant
                i < SIDE,
                j <= SIDE,
                is_face(face_cells(*grid)),
                row == row_total(face_cells(*grid), i as int, j as int),
                col == col_total(face_cells(*grid), i as int, j as int),
                row <= 255 * j,
                col <= 255 * j,
            decreases SIDE - j,
        {
            assert(face_cells(*grid)[i as int].len() == 80);
            assert(face_cells(*grid)[j as int].len() == 80);
            let a = match face_get(grid, i, j) {
                Some(v) => v,
                None => 0,
            };
            let b = match face_get(grid, j, i) {
                Some(v) => v,
                None => 0,
            };
            row = row + a as u16;
            col = col + b as u16;
            j += 1;
        }
        if row > best {
            best = row;
        }
        if col > best {
            best = col;
        }
        i += 1;
    }
    best
}

/// The cells that an instruction changes: all of a face, or those of one
/// row or column, counted from zero.
#[derive(Clone, Copy, Debug, PartialEq, Eq, Structural)]
pub enum Part {
    Face,
    Row(usize),
    Col(usize),
}

/// Whether a cell belongs to a part of a face.
pub open spec fn in_part(part: Part, r: int, c: int) -> bool {
    match part {
        Part::Face => true,
        Part::Row(y) => r == y,
        Part::Col(x) => c == x,
    }
}

/// The value of a cell after `value` is added to it, if the sum is at least
/// one and fits a byte.
pub open spec fn bump_spec(v: u8, value: u8) -> Option<u8> {
    if 1 <= v + value <= 255 {
        Some(clamp_spec(v + value) as u8)
    } else {
        None
    }
}

/// The value of a cell after `value` is added to it.
pub fn bump(v: u8, value: u8) -> (r: Option<u8>)
    ensures
        r == bump_spec(v, value),
{
    match v.checked_add(value) {
        Some(sum) => if sum >= 1 {
            Some(clamp(sum))
        } else {
            None
        },
        None => None,
    }
}

/// Whether `value` can be added to every cell of a part of a face: the part
/// lies on the face, and no sum is too great or nothing.
pub open spec fn can_absorb(cells: Seq<Seq<u8>>, part: Part, value: u8) -> bool {
    &&& match part {
        Part::Face => true,
        Part::Row(y) => y < 80,
        Part::Col(x) => x < 80,
    }
    &&& forall|r: int, c: int|
        0 <= r < 80 && 0 <= c < 80 && in_part(part, r, c) ==> bump_spec(#[trigger] cells[r][c], value) is Some
}

/// A face after `value` is added to every cell of a part of it.
pub open spec fn absorbed(cells: Seq<Seq<u8>>, part: Part, value: u8) -> Seq<Seq<u8>> {
    Seq::new(
        80,
        |r: int|
            Seq::new(
                80,
                |c: int|
                    if in_part(part, r, c) {
                        bump_spec(cells[r][c], value)->Some_0
                    } else {
                        cells[r][c]
                    },
            ),
    )
}

/// Adds `value` to every cell of a part of a face, and says whether it
/// could.
pub fn absorb(face: &mut Grid<u8>, part: Part, value: u8) -> (r: bool)
    requires
        is_face(face_cells(*old(face))),
    ensures
        is_face(face_cells(*final(face))),
        r == can_absorb(face_cells(*old(face)), part, value),
        r ==> face_cells(*final(face)) == absorbed(face_cells(*old(face)), part, value),
{
    match part {
        Part::Face => {},
        Part::Row(y) => if y >= SIDE {
            return false;
        },
        Part::Col(x) => if x >= SIDE {
            return false;
        },
    }
    let ghost first = face_cells(*face);
    let mut row: usize = 0;
    while row < SIDE
        invariant
            row <= SIDE,
            first == face_cells(*old(face)),
            is_face(first),
            is_face(face_cells(*face)),
            match part {
                Part::Face => true,
                Part::Row(y) => y < 80,
                Part::Col(x) => x < 80,
            },
            forall|r: int, c: int|
                0 <= r < row && 0 <= c < 80 && in_part(part, r, c) ==> bump_spec(#[trigger] first[r][c], value)
                    is Some,
            forall|r: int, c: int|
                0 <= r < 80 && 0 <= c < 80 ==> #[trigger] face_cells(*face)[r][c] == if r < row && in_part(
                    part,
                    r,
                    c,
                ) {
                    bump_spec(first[r][c], value)->Some_0
                } else {
                    first[r][c]
                },
        decreases SIDE - row,
    {
        let mut col: usize = 0;
        while col < SIDE
            invariant
                row < SIDE,
                col <= SIDE,
                first == face_cells(*old(face)),
                is_face(first),
                is_face(face_cells(*face)),
                match part {
                    Part::Face => true,
                    Part::Row(y) => y < 80,
                    Part::Col(x) => x < 80,
                },
                forall|r: int, c: int|
                    0 <= r < 80 && 0 <= c < 80 && (r < row || (r == row && c < col)) && in_part(part, r, c)
                        ==> bump_spec(#[trigger] first[r][c], value) is Some,
                forall|r: int, c: int|
                    0 <= r < 80 && 0 <= c < 80 ==> #[trigger] face_cells(*face)[r][c] == if (r < row || (r == row
                        && c < col)) && in_part(part, r, c) {
                        bump_spec(first[r][c], value)->Some_0
                    } else {
                        first[r][c]
                    },
            decreases SIDE - col,
        {
            let touched = match part {
                Part::Face => true,
                Part::Row(y) => row == y,
                Part::Col(x) => col == x,
            };
            if touched {
                let ghost before = face_cells(*face);
                assert(before[row as int].len() == 80);
                let v = match face_get(face, row, col) {
                    Some(v) => v,
                    None => 0,
                };
                assert(v == first[row as int][col as int]);
                match bump(v, value) {
                    Some(next) => {
                        let done = face_set(face, row, col, next);
                        assert(done);
                        assert forall|r: int| 0 <= r < 80 implies (#[trigger] face_cells(*face)[r]).len() == 80 by {
                            assert(before[r].len() == 80);
                        }
                        assert forall|r: int, c: int| 0 <= r < 80 && 0 <= c < 80 implies #[trigger] face_cells(
                            *face,
                        )[r][c] == if (r < row || (r == row && c < col + 1)) && in_part(part, r, c) {
                            bump_spec(first[r][c], value)->Some_0
                        } else {
                            first[r][c]
                        } by {
                            assert(before[r].len() == 80);
                            if r != row || c != col {
                                assert(face_cells(*face)[r][c] == before[r][c]);
                            }
                        }
                    },
                    None => {
                        assert(bump_spec(first[row as int][col as int], value) is None);
                        return false;
                    },
                }
            }
            col += 1;
        }
        row += 1;
    }
    proof {
        let cells = face_cells(*face);
        let goal = absorbed(first, part, value);
        assert forall|r: int| 0 <= r < 80 implies #[trigger] cells[r] =~= goal[r] by {
            assert(cells[r].len() == 80);
            assert forall|c: int| 0 <= c < 80 implies cells[r][c] == goal[r][c] by {
                assert(face_cells(*face)[r][c] == goal[r][c]);
            }
        }
        assert(cells =~= goal);
    }
    true
}

/// The number of the face that lies up at first. It is also the place in
/// `vertical_loop` of the face that lies up now.
pub const UP: usize = 0;

/// The number of the face that lies in front at first, and its place in
/// `vertical_loop`.
pub const FRONT: usize = 1;

/// The number of the face that lies down at first, and its place in
/// `vertical_loop`.
pub const DOWN: usize = 2;

/// The number of the face that lies at the back at first, and its place in
/// `vertical_loop`.
pub const BACK: usize = 3;

/// The number of the face that lies to the left at first.
pub const LEFT: usize = 4;

/// The number of the face that lies to the right at first.
pub const RIGHT: usize = 5;

/// A cube. `vertical_loop` holds the numbers of the faces that now lie up,
/// in front, down and at the back; `face_left` and `face_right` those of
/// the faces at the sides. Each face has absorbed some amount, and has two
/// grids: one that instructions change where the face lies, and one that
/// they change all the way round the cube.
pub struct Cube {
    pub vertical_loop: [usize; 4],
    pub face_left: usize,
    pub face_right: usize,
    pub absorption: [u32; NUM_FACES],
    pub grids_part2: Vec<Grid<u8>>,
    pub grids_part3: Vec<Grid<u8>>,
}

/// What a cube holds.
pub struct CubeView {
    pub vertical_loop: Seq<usize>,
    pub face_left: usize,
    pub face_right: usize,
    pub absorption: Seq<u32>,
    pub part2: Seq<Seq<Seq<u8>>>,
    pub part3: Seq<Seq<Seq<u8>>>,
}

/// How a face is turned.
#[derive(Clone, Copy, Debug, PartialEq, Eq, Structural)]
pub enum Turn {
    Left,
    Right,
    Half,
}

/// A face after a turn.
pub open spec fn turned(cells: Seq<Seq<u8>>, how: Turn) -> Seq<Seq<u8>> {
    match how {
        Turn::Left => turned_left(cells),
        Turn::Right => turned_right(cells),
        Turn::Half => turned_half(cells),
    }
}

/// Faces after one of them is turned.
pub open spec fn turn_one(faces: Seq<Seq<Seq<u8>>>, i: usize, how: Turn) -> Seq<Seq<Seq<u8>>> {
    faces.update(i as int, turned(faces[i as int], how))
}

/// A square face stays a square face when it is turned.
pub proof fn lemma_turned_is_face(cells: Seq<Seq<u8>>, how: Turn)
    requires
        is_face(cells),
    ensures
        is_face(turned(cells, how)),
{
    assert(cells[0].len() == 80);
}

impl CubeView {
    /// Whether the cube has six square faces of each kind, and every face
    /// that it names is one of the six.
    pub open spec fn wf(&self) -> bool {
        &&& self.vertical_loop.len() == 4
        &&& forall|i: int| 0 <= i < 4 ==> (#[trigger] self.vertical_loop[i]) < 6
        &&& self.face_left < 6
        &&& self.face_right < 6
        &&& self.absorption.len() == 6
        &&& self.part2.len() == 6
        &&& self.part3.len() == 6
        &&& forall|i: int| 0 <= i < 6 ==> is_face(#[trigger] self.part2[i])
        &&& forall|i: int| 0 <= i < 6 ==> is_face(#[trigger] self.part3[i])
    }

    /// The cube after a tilt that brings the front face up: the faces at the
    /// sides turn where they are.
    pub open spec fn twisted_u(self) -> CubeView {
        let v = self.vertical_loop;
        CubeView {
            vertical_loop: seq![v[1], v[2], v[3], v[0]],
            face_left: self.face_left,
            face_right: self.face_right,
            absorption: self.absorption,
            part2: turn_one(turn_one(self.part2, self.face_left, Turn::Left), self.face_right, Turn::Right),
            part3: turn_one(turn_one(self.part3, self.face_left, Turn::Left), self.face_right, Turn::Right),
        }
    }

    /// The faces after a roll to the left has moved them.
    pub open spec fn rolled(faces: Seq<Seq<Seq<u8>>>, front: usize, right: usize, down: usize, back: usize) -> Seq<
        Seq<Seq<u8>>,
    > {
        turn_one(
            turn_one(turn_one(turn_one(faces, front, Turn::Left), right, Turn::Half), down, Turn::Half),
            back,
            Turn::Right,
        )
    }

    /// The cube after a roll that brings the right face up: the upper face
    /// goes to the left and the left one down.
    pub open spec fn twisted_l(self) -> CubeView {
        let v = self.vertical_loop;
        CubeView {
            vertical_loop: seq![self.face_right, v[1], self.face_left, v[3]],
            face_left: v[0],
            face_right: v[2],
            absorption: self.absorption,
            part2: Self::rolled(self.part2, v[1], v[2], self.face_left, v[3]),
            part3: Self::rolled(self.part3, v[1], v[2], self.face_left, v[3]),
        }
    }

    /// The cube after three tilts: the tilt the other way.
    pub open spec fn twisted_d(self) -> CubeView {
        self.twisted_u().twisted_u().twisted_u()
    }

    /// The cube after three rolls: the roll the other way.
    pub open spec fn twisted_r(self) -> CubeView {
        self.twisted_l().twisted_l().twisted_l()
    }

    /// A well-formed cube stays so when it is tilted or rolled.
    pub proof fn lemma_twists_keep_wf(self)
        requires
            self.wf(),
        ensures
            self.twisted_u().wf(),
            self.twisted_l().wf(),
    {
        let v = self.vertical_loop;
        assert(v[0] < 6 && v[1] < 6 && v[2] < 6 && v[3] < 6);
        let u = self.twisted_u();
        assert forall|i: int| 0 <= i < 6 implies is_face(#[trigger] u.part2[i]) by {
            lemma_turned_is_face(self.part2[i], Turn::Left);
            lemma_turned_is_face(self.part2[i], Turn::Right);
            lemma_turned_is_face(turned(self.part2[i], Turn::Left), Turn::Right);
            assert(is_face(self.part2[i]));
        }
        assert forall|i: int| 0 <= i < 6 implies is_face(#[trigger] u.part3[i]) by {
            lemma_turned_is_face(self.part3[i], Turn::Left);
            lemma_turned_is_face(self.part3[i], Turn::Right);
            lemma_turned_is_face(turned(self.part3[i], Turn::Left), Turn::Right);
            assert(is_face(self.part3[i]));
        }
        lemma_rolled_faces(self.part2, v[1], v[2], self.face_left, v[3]);
        lemma_rolled_faces(self.part3, v[1], v[2], self.face_left, v[3]);
    }
}

/// The quarter turns against the clock that a turn amounts to.
pub open spec fn quarters(how: Turn) -> int {
    match how {
        Turn::Left => 1,
        Turn::Half => 2,
        Turn::Right => 3,
    }
}

/// A face after a number of quarter turns against the clock.
pub open spec fn spun(cells: Seq<Seq<u8>>, q: int) -> Seq<Seq<u8>> {
    if q % 4 == 0 {
        cells
    } else if q % 4 == 1 {
        turned_left(cells)
    } else if q % 4 == 2 {
        turned_half(cells)
    } else {
        turned_right(cells)
    }
}

/// Every face after its own number of quarter turns.
pub open spec fn spun_all(faces: Seq<Seq<Seq<u8>>>, q: Seq<int>) -> Seq<Seq<Seq<u8>>> {
    Seq::new(faces.len(), |i: int| spun(faces[i], q[i]))
}

/// Two quarter turns of a square face are a half turn, three are a quarter
/// turn the other way, and four are none.
pub proof fn lemma_turns_of_a_square(cells: Seq<Seq<u8>>)
    requires
        is_face(cells),
    ensures
        turned_left(turned_left(cells)) == turned_half(cells),
        turned_left(turned_half(cells)) == turned_right(cells),
        turned_left(turned_right(cells)) == cells,
        turned_right(turned_left(cells)) == cells,
        turned_half(turned_left(cells)) == turned_right(cells),
        turned_half(turned_half(cells)) == cells,
        turned_half(turned_right(cells)) == turned_left(cells),
        turned_right(turned_half(cells)) == turned_left(cells),
        turned_right(turned_right(cells)) == turned_half(cells),
{
    assert(cells[0].len() == 80);
    let l = turned_left(cells);
    let h = turned_half(cells);
    let r = turned_right(cells);
    assert(l.len() == 80 && l[0].len() == 80);
    assert(h.len() == 80 && h[0].len() == 80);
    assert(r.len() == 80 && r[0].len() == 80);
    assert(turned_left(l) =~~= h);
    assert(turned_left(h) =~~= r);
    assert(turned_left(r) =~~= cells);
    assert(turned_right(l) =~~= cells);
    assert(turned_half(l) =~~= r);
    assert(turned_half(h) =~~= cells);
    assert(turned_half(r) =~~= l);
    assert(turned_right(h) =~~= l);
    assert(turned_right(r) =~~= h);
}

/// A turn of a square face adds its quarter turns to those that the face
/// has made.
pub proof fn lemma_spun_turned(cells: Seq<Seq<u8>>, q: int, how: Turn)
    requires
        is_face(cells),
    ensures
        turned(spun(cells, q), how) == spun(cells, q + quarters(how)),
{
    lemma_turns_of_a_square(cells);
}

/// A turn of one of six square faces adds its quarter turns to those that
/// the face has made.
proof fn lemma_spun_turn_one(faces: Seq<Seq<Seq<u8>>>, q: Seq<int>, i: usize, how: Turn)
    requires
        faces.len() == 6,
        q.len() == 6,
        i < 6,
        forall|k: int| 0 <= k < 6 ==> is_face(#[trigger] faces[k]),
    ensures
        turn_one(spun_all(faces, q), i, how) == spun_all(faces, q.update(i as int, q[i as int] + quarters(how))),
{
    assert(is_face(faces[i as int]));
    lemma_spun_turned(faces[i as int], q[i as int], how);
    assert(turn_one(spun_all(faces, q), i, how) =~= spun_all(
        faces,
        q.update(i as int, q[i as int] + quarters(how)),
    ));
}

/// The quarter turns that the faces have made after a roll to the left.
#[verifier::opaque]
pub open spec fn rolled_quarters(q: Seq<int>, front: usize, right: usize, down: usize, back: usize) -> Seq<int> {
    let a = q.update(front as int, q[front as int] + 1);
    let b = a.update(right as int, a[right as int] + 2);
    let c = b.update(down as int, b[down as int] + 2);
    c.update(back as int, c[back as int] + 3)
}

/// A roll to the left adds to the quarter turns of the four faces that it
/// turns.
proof fn lemma_spun_rolled(faces: Seq<Seq<Seq<u8>>>, q: Seq<int>, front: usize, right: usize, down: usize, back: usize)
    requires
        faces.len() == 6,
        q.len() == 6,
        front < 6,
        right < 6,
        down < 6,
        back < 6,
        forall|k: int| 0 <= k < 6 ==> is_face(#[trigger] faces[k]),
    ensures
        CubeView::rolled(spun_all(faces, q), front, right, down, back) == spun_all(
            faces,
            rolled_quarters(q, front, right, down, back),
        ),
        rolled_quarters(q, front, right, down, back).len() == 6,
{
    reveal(rolled_quarters);
    let a = q.update(front as int, q[front as int] + 1);
    let b = a.update(right as int, a[right as int] + 2);
    let c = b.update(down as int, b[down as int] + 2);
    lemma_spun_turn_one(faces, q, front, Turn::Left);
    lemma_spun_turn_one(faces, a, right, Turn::Half);
    lemma_spun_turn_one(faces, b, down, Turn::Half);
    lemma_spun_turn_one(faces, c, back, Turn::Right);
}

/// Six square faces after four rolls to the left are what they were.
proof fn lemma_four_rolls(faces: Seq<Seq<Seq<u8>>>, v0: usize, v1: usize, v2: usize, v3: usize, l: usize, r: usize)
    requires
        faces.len() == 6,
        v0 < 6,
        v1 < 6,
        v2 < 6,
        v3 < 6,
        l < 6,
        r < 6,
        forall|k: int| 0 <= k < 6 ==> is_face(#[trigger] faces[k]),
    ensures
        CubeView::rolled(
            CubeView::rolled(CubeView::rolled(CubeView::rolled(faces, v1, v2, l, v3), v1, l, v0, v3), v1, v0, r, v3),
            v1,
            r,
            v2,
            v3,
        ) == faces,
{
    let q0 = Seq::new(6, |i: int| 0int);
    assert(spun_all(faces, q0) =~= faces);
    let q1 = rolled_quarters(q0, v1, v2, l, v3);
    lemma_spun_rolled(faces, q0, v1, v2, l, v3);
    let q2 = rolled_quarters(q1, v1, l, v0, v3);
    lemma_spun_rolled(faces, q1, v1, l, v0, v3);
    let q3 = rolled_quarters(q2, v1, v0, r, v3);
    lemma_spun_rolled(faces, q2, v1, v0, r, v3);
    let q4 = rolled_quarters(q3, v1, r, v2, v3);
    lemma_spun_rolled(faces, q3, v1, r, v2, v3);
    assert forall|k: int| 0 <= k < 6 implies #[trigger] q4[k] % 4 == 0 by {
        lemma_four_rolls_counted(v0, v1, v2, v3, l, r, k);
    }
    assert(spun_all(faces, q4) =~= faces);
}

/// After four rolls to the left every face has made whole turns only.
proof fn lemma_four_rolls_counted(v0: usize, v1: usize, v2: usize, v3: usize, l: usize, r: usize, k: int)
    requires
        v0 < 6,
        v1 < 6,
        v2 < 6,
        v3 < 6,
        l < 6,
        r < 6,
        0 <= k < 6,
    ensures
        rolled_quarters(
            rolled_quarters(
                rolled_quarters(rolled_quarters(Seq::new(6, |i: int| 0int), v1, v2, l, v3), v1, l, v0, v3),
                v1,
                v0,
                r,
                v3,
            ),
            v1,
            r,
            v2,
            v3,
        )[k] % 4 == 0,
{
    let q0 = Seq::new(6, |i: int| 0int);
    let q1 = rolled_quarters(q0, v1, v2, l, v3);
    let q2 = rolled_quarters(q1, v1, l, v0, v3);
    let q3 = rolled_quarters(q2, v1, v0, r, v3);
    let q4 = rolled_quarters(q3, v1, r, v2, v3);
    lemma_quarters_counted(q0, v1, v2, l, v3, k);
    lemma_quarters_counted(q1, v1, l, v0, v3, k);
    lemma_quarters_counted(q2, v1, v0, r, v3, k);
    lemma_quarters_counted(q3, v1, r, v2, v3, k);
    let a = one_if(k == v1);
    let b = one_if(k == v3);
    let c = one_if(k == v2) + one_if(k == l) + one_if(k == v0) + one_if(k == r);
    assert(q4[k] == 4 * a + 12 * b + 4 * c);
}

/// The quarter turns that the faces have made after a tilt.
#[verifier::opaque]
pub open spec fn tilted_quarters(q: Seq<int>, left: usize, right: usize) -> Seq<int> {
    let a = q.update(left as int, q[left as int] + 1);
    a.update(right as int, a[right as int] + 3)
}

/// A tilt adds to the quarter turns of the two faces at the sides.
proof fn lemma_spun_tilted(faces: Seq<Seq<Seq<u8>>>, q: Seq<int>, left: usize, right: usize, k: int)
    requires
        faces.len() == 6,
        q.len() == 6,
        left < 6,
        right < 6,
        0 <= k < 6,
        forall|k: int| 0 <= k < 6 ==> is_face(#[trigger] faces[k]),
    ensures
        turn_one(turn_one(spun_all(faces, q), left, Turn::Left), right, Turn::Right) == spun_all(
            faces,
            tilted_quarters(q, left, right),
        ),
        tilted_quarters(q, left, right).len() == 6,
        tilted_quarters(q, left, right)[k] == q[k] + one_if(k == left) + 3 * one_if(k == right),
{
    reveal(tilted_quarters);
    let a = q.update(left as int, q[left as int] + 1);
    lemma_spun_turn_one(faces, q, left, Turn::Left);
    lemma_spun_turn_one(faces, a, right, Turn::Right);
}

/// Six square faces after four tilts are what they were.
proof fn lemma_four_tilts(faces: Seq<Seq<Seq<u8>>>, l: usize, r: usize)
    requires
        faces.len() == 6,
        l < 6,
        r < 6,
        forall|k: int| 0 <= k < 6 ==> is_face(#[trigger] faces[k]),
    ensures
        turn_one(
            turn_one(
                turn_one(
                    turn_one(
                        turn_one(
                            turn_one(turn_one(turn_one(faces, l, Turn::Left), r, Turn::Right), l, Turn::Left),
                            r,
                            Turn::Right,
                        ),
                        l,
                        Turn::Left,
                    ),
                    r,
                    Turn::Right,
                ),
                l,
                Turn::Left,
            ),
            r,
            Turn::Right,
        ) == faces,
{
    let q0 = Seq::new(6, |i: int| 0int);
    assert(spun_all(faces, q0) =~= faces);
    let q1 = tilted_quarters(q0, l, r);
    let q2 = tilted_quarters(q1, l, r);
    let q3 = tilted_quarters(q2, l, r);
    let q4 = tilted_quarters(q3, l, r);
    assert forall|k: int| 0 <= k < 6 implies #[trigger] q4[k] % 4 == 0 by {
        lemma_spun_tilted(faces, q0, l, r, k);
        lemma_spun_tilted(faces, q1, l, r, k);
        lemma_spun_tilted(faces, q2, l, r, k);
        lemma_spun_tilted(faces, q3, l, r, k);
        assert(q4[k] == 4 * one_if(k == l) + 12 * one_if(k == r));
    }
    lemma_spun_tilted(faces, q0, l, r, 0);
    lemma_spun_tilted(faces, q1, l, r, 0);
    lemma_spun_tilted(faces, q2, l, r, 0);
    lemma_spun_tilted(faces, q3, l, r, 0);
    assert(spun_all(faces, q4) =~= faces);
}

impl CubeView {
    /// A roll and the roll back cancel, whichever comes first: four rolls
    /// the same way leave a cube as it was.
    pub proof fn lemma_roll_and_back(self)
        requires
            self.wf(),
        ensures
            self.twisted_l().twisted_r() == self,
            self.twisted_r().twisted_l() == self,
    {
        let v = self.vertical_loop;
        assert(v[0] < 6 && v[1] < 6 && v[2] < 6 && v[3] < 6);
        lemma_four_rolls(self.part2, v[0], v[1], v[2], v[3], self.face_left, self.face_right);
        lemma_four_rolls(self.part3, v[0], v[1], v[2], v[3], self.face_left, self.face_right);
        let back = self.twisted_l().twisted_l().twisted_l().twisted_l();
        assert(back.vertical_loop =~= v);
        assert(back.part2 == self.part2);
        assert(back.part3 == self.part3);
    }

    /// A tilt and the tilt back cancel, whichever comes first: four tilts
    /// the same way leave a cube as it was.
    pub proof fn lemma_tilt_and_back(self)
        requires
            self.wf(),
        ensures
            self.twisted_u().twisted_d() == self,
            self.twisted_d().twisted_u() == self,
    {
        let v = self.vertical_loop;
        lemma_four_tilts(self.part2, self.face_left, self.face_right);
        lemma_four_tilts(self.part3, self.face_left, self.face_right);
        let back = self.twisted_u().twisted_u().twisted_u().twisted_u();
        assert(back.vertical_loop =~= v);
        assert(back.part2 == self.part2);
        assert(back.part3 == self.part3);
    }
}

/// Whether a face is the given one, as a number.
pub open spec fn one_if(same: bool) -> int {
    if same {
        1
    } else {
        0
    }
}

/// After a roll a face has made the quarter turns that it had made and
/// those of every turn of the roll that fell on it.
proof fn lemma_quarters_counted(q: Seq<int>, front: usize, right: usize, down: usize, back: usize, k: int)
    requires
        q.len() == 6,
        front < 6,
        right < 6,
        down < 6,
        back < 6,
        0 <= k < 6,
    ensures
        rolled_quarters(q, front, right, down, back)[k] == q[k] + one_if(k == front) + 2 * one_if(k == right) + 2
            * one_if(k == down) + 3 * one_if(k == back),
        rolled_quarters(q, front, right, down, back).len() == 6,
{
    reveal(rolled_quarters);
}

/// Six square faces stay six square faces when one of them is turned.
pub proof fn lemma_turn_one_faces(faces: Seq<Seq<Seq<u8>>>, i: usize, how: Turn)
    requires
        faces.len() == 6,
        i < 6,
        forall|k: int| 0 <= k < 6 ==> is_face(#[trigger] faces[k]),
    ensures
        turn_one(faces, i, how).len() == 6,
        forall|k: int| 0 <= k < 6 ==> is_face(#[trigger] turn_one(faces, i, how)[k]),
{
    assert(is_face(faces[i as int]));
    lemma_turned_is_face(faces[i as int], how);
    assert forall|k: int| 0 <= k < 6 implies is_face(#[trigger] turn_one(faces, i, how)[k]) by {
        assert(is_face(faces[k]));
    }
}

/// Six square faces stay six square faces through a roll.
pub proof fn lemma_rolled_faces(faces: Seq<Seq<Seq<u8>>>, front: usize, right: usize, down: usize, back: usize)
    requires
        faces.len() == 6,
        front < 6,
        right < 6,
        down < 6,
        back < 6,
        forall|k: int| 0 <= k < 6 ==> is_face(#[trigger] faces[k]),
    ensures
        CubeView::rolled(faces, front, right, down, back).len() == 6,
        forall|k: int| 0 <= k < 6 ==> is_face(#[trigger] CubeView::rolled(faces, front, right, down, back)[k]),
{
    let a = turn_one(faces, front, Turn::Left);
    lemma_turn_one_faces(faces, front, Turn::Left);
    let b = turn_one(a, right, Turn::Half);
    lemma_turn_one_faces(a, right, Turn::Half);
    let c = turn_one(b, down, Turn::Half);
    lemma_turn_one_faces(b, down, Turn::Half);
    lemma_turn_one_faces(c, back, Turn::Right);
}

/// What a row of grids holds.
pub open spec fn faces_of(grids: Seq<Grid<u8>>) -> Seq<Seq<Seq<u8>>> {
    Seq::new(grids.len(), |i: int| face_cells(grids[i]))
}

/// Turns one of the grids.
fn turn_grid(grids: &mut Vec<Grid<u8>>, i: usize, how: Turn)
    requires
        i < old(grids).len(),
    ensures
        faces_of(final(grids)@) == turn_one(faces_of(old(grids)@), i, how),
{
    match how {
        Turn::Left => face_rotate_left(&mut grids[i]),
        Turn::Right => face_rotate_right(&mut grids[i]),
        Turn::Half => face_rotate_half(&mut grids[i]),
    }
    assert(faces_of(grids@) =~= turn_one(faces_of(old(grids)@), i, how));
}

impl Cube {
    /// What the cube holds.
    pub open spec fn view(&self) -> CubeView {
        CubeView {
            vertical_loop: self.vertical_loop@,
            face_left: self.face_left,
            face_right: self.face_right,
            absorption: self.absorption@,
            part2: faces_of(self.grids_part2@),
            part3: faces_of(self.grids_part3@),
        }
    }

    /// A cube as it lies at first: nothing absorbed, and one in every cell.
    pub fn new() -> (r: Self)
        ensures
            r@.wf(),
            r@.vertical_loop == seq![UP, FRONT, DOWN, BACK],
            r@.face_left == LEFT,
            r@.face_right == RIGHT,
            forall|i: int| 0 <= i < 6 ==> r@.absorption[i] == 0,
            forall|i: int| 0 <= i < 6 ==> #[trigger] r@.part2[i] == even_face(80, 80, 1),
            forall|i: int| 0 <= i < 6 ==> #[trigger] r@.part3[i] == even_face(80, 80, 1),
    {
        let mut grids_part2: Vec<Grid<u8>> = Vec::new();
        let mut grids_part3: Vec<Grid<u8>> = Vec::new();
        let mut i: usize = 0;
        while i < NUM_FACES
            invariant
                i <= NUM_FACES,
                grids_part2.len() == i,
                grids_part3.len() == i,
                forall|k: int| 0 <= k < i ==> face_cells(#[trigger] grids_part2[k]) == even_face(80, 80, 1),
                forall|k: int| 0 <= k < i ==> face_cells(#[trigger] grids_part3[k]) == even_face(80, 80, 1),
            decreases NUM_FACES - i,
        {
            grids_part2.push(make_grid());
            grids_part3.push(make_grid());
            i += 1;
        }
        let cube = Cube {
            vertical_loop: [UP, FRONT, DOWN, BACK],
            face_left: LEFT,
            face_right: RIGHT,
            absorption: [0; NUM_FACES],
            grids_part2,
            grids_part3,
        };
        proof {
            assert(cube@.vertical_loop =~= seq![UP, FRONT, DOWN, BACK]);
            assert forall|k: int| 0 <= k < 6 implies is_face(#[trigger] cube@.part2[k]) by {
                assert(face_cells(cube.grids_part2[k]) == even_face(80, 80, 1));
            }
            assert forall|k: int| 0 <= k < 6 implies is_face(#[trigger] cube@.part3[k]) by {
                assert(face_cells(cube.grids_part3[k]) == even_face(80, 80, 1));
            }
            assert forall|k: int| 0 <= k < 6 implies #[trigger] cube@.part2[k] == even_face(80, 80, 1) by {
                assert(face_cells(cube.grids_part2[k]) == even_face(80, 80, 1));
            }
            assert forall|k: int| 0 <= k < 6 implies #[trigger] cube@.part3[k] == even_face(80, 80, 1) by {
                assert(face_cells(cube.grids_part3[k]) == even_face(80, 80, 1));
            }
        }
        cube
    }

    /// Tilts the cube so that the front face comes up.
    #[allow(non_snake_case)]
    pub fn twist_U(&mut self)
        requires
            old(self)@.wf(),
        ensures
            final(self)@ == old(self)@.twisted_u(),
            final(self)@.wf(),
    {
        proof {
            self@.lemma_twists_keep_wf();
        }
        let v = self.vertical_loop;
        self.vertical_loop = [v[1], v[2], v[3], v[0]];
        let left = self.face_left;
        let right = self.face_right;
        turn_grid(&mut self.grids_part2, left, Turn::Left);
        turn_grid(&mut self.grids_part2, right, Turn::Right);
        turn_grid(&mut self.grids_part3, left, Turn::Left);
        turn_grid(&mut self.grids_part3, right, Turn::Right);
        assert(self@.vertical_loop =~= old(self)@.twisted_u().vertical_loop);
    }

    /// Rolls the cube so that the right face comes up.
    #[allow(non_snake_case)]
    pub fn twist_L(&mut self)
        requires
            old(self)@.wf(),
        ensures
            final(self)@ == old(self)@.twisted_l(),
            final(self)@.wf(),
    {
        proof {
            self@.lemma_twists_keep_wf();
        }
        let old_left = self.face_left;
        let old_right = self.face_right;
        let old_up = self.vertical_loop[UP];
        let old_down = self.vertical_loop[DOWN];
        self.face_left = old_up;
        self.face_right = old_down;
        let v = self.vertical_loop;
        self.vertical_loop = [old_right, v[1], old_left, v[3]];
        let front = self.vertical_loop[FRONT];
        let down = self.vertical_loop[DOWN];
        let back = self.vertical_loop[BACK];
        let right = self.face_right;
        proof {
            let faces = old(self)@.part2;
            lemma_turn_one_faces(faces, front, Turn::Left);
            lemma_turn_one_faces(turn_one(faces, front, Turn::Left), right, Turn::Half);
            let faces3 = old(self)@.part3;
            lemma_turn_one_faces(faces3, front, Turn::Left);
            lemma_turn_one_faces(turn_one(faces3, front, Turn::Left), right, Turn::Half);
        }
        turn_grid(&mut self.grids_part2, front, Turn::Left);
        turn_grid(&mut self.grids_part2, right, Turn::Half);
        turn_grid(&mut self.grids_part2, down, Turn::Half);
        turn_grid(&mut self.grids_part2, back, Turn::Right);
        turn_grid(&mut self.grids_part3, front, Turn::Left);
        turn_grid(&mut self.grids_part3, right, Turn::Half);
        turn_grid(&mut self.grids_part3, down, Turn::Half);
        turn_grid(&mut self.grids_part3, back, Turn::Right);
        assert(self@.vertical_loop =~= old(self)@.twisted_l().vertical_loop);
    }

    /// Tilts the cube so that the back face comes up.
    #[allow(non_snake_case)]
    pub fn twist_D(&mut self)
        requires
            old(self)@.wf(),
        ensures
            final(self)@ == old(self)@.twisted_d(),
            final(self)@.wf(),
    {
        self.twist_U();
        self.twist_U();
        self.twist_U();
    }

    /// Rolls the cube so that the left face comes up.
    #[allow(non_snake_case)]
    pub fn twist_R(&mut self)
        requires
            old(self)@.wf(),
        ensures
            final(self)@ == old(self)@.twisted_r(),
            final(self)@.wf(),
    {
        self.twist_L();
        self.twist_L();
        self.twist_L();
    }

    /// The number of the face that lies up.
    pub fn current_face(&self) -> (r: usize)
        ensures
            r == self@.vertical_loop[0],
    {
        self.vertical_loop[UP]
    }
}

/// The part that the words before the hyphen of an instruction name: `FACE`,
/// or `ROW` or `COL` with a number counted from one. A number after `FACE`
/// is read and not used.
pub open spec fn part_spec(target: Seq<u8>) -> Option<Part> {
    let (kind, number) = match split_once_spec(target, seq![0x20u8]) {
        Some((kind, number)) => (kind, number),
        None => (target, seq![0x31u8]),
    };
    match parse_unsigned_spec(number, usize::MAX as nat) {
        Some(n) => if n < 1 {
            None
        } else if kind == "FACE".spec_bytes() {
            Some(Part::Face)
        } else if kind == "ROW".spec_bytes() {
            Some(Part::Row((n - 1) as usize))
        } else if kind == "COL".spec_bytes() {
            Some(Part::Col((n - 1) as usize))
        } else {
            None
        },
        None => None,
    }
}

/// What an instruction such as `ROW 5 - VALUE 23` says: a part of a face,
/// and the value that it absorbs, below 256.
pub open spec fn parse_order_spec(line: Seq<u8>) -> Option<(Part, u8)> {
    match split_once_spec(line, seq![0x20u8, 0x2du8, 0x20u8]) {
        Some((target, amount)) => match split_once_spec(amount, seq![0x20u8]) {
            Some((word, number)) => match (parse_unsigned_spec(number, 255), part_spec(target)) {
                (Some(value), Some(part)) => Some((part, value as u8)),
                _ => None,
            },
            None => None,
        },
        None => None,
    }
}

/// Reads an instruction.
pub fn parse_order(line: &[u8]) -> (r: Option<(Part, u8)>)
    ensures
        r == parse_order_spec(line@),
{
    let hyphen: [u8; 3] = [0x20, 0x2d, 0x20];
    assert(hyphen@ =~= seq![0x20u8, 0x2du8, 0x20u8]);
    let blank: [u8; 1] = [0x20];
    assert(blank@ =~= seq![0x20u8]);
    let one: [u8; 1] = [0x31];
    assert(one@ =~= seq![0x31u8]);
    let (target, amount) = match split_once(line, hyphen.as_slice()) {
        Some(parts) => parts,
        None => { return None; },
    };
    let number = match split_once(amount, blank.as_slice()) {
        Some((word, number)) => number,
        None => { return None; },
    };
    let value = match parse_unsigned(number, 255) {
        Some(v) => v as u8,
        None => { return None; },
    };
    let (kind, index) = match split_once(target, blank.as_slice()) {
        Some(parts) => parts,
        None => (target, one.as_slice()),
    };
    let n = match parse_unsigned(index, usize::MAX as u64) {
        Some(n) => n as usize,
        None => { return None; },
    };
    if n < 1 {
        return None;
    }
    if same_bytes(kind, "FACE".as_bytes()) {
        Some((Part::Face, value))
    } else if same_bytes(kind, "ROW".as_bytes()) {
        Some((Part::Row(n - 1), value))
    } else if same_bytes(kind, "COL".as_bytes()) {
        Some((Part::Col(n - 1), value))
    } else {
        None
    }
}

/// What a face gains when a part of it absorbs a value: the value for each
/// of its cells.
pub open spec fn gain(part: Part, value: u8) -> int {
    match part {
        Part::Face => value * 6400,
        _ => value * 80,
    }
}

impl CubeView {
    /// The cube after a part of the second grid of its upper face absorbs a
    /// value, if it can.
    pub open spec fn absorbed3(self, part: Part, value: u8) -> Option<CubeView> {
        let f = self.vertical_loop[0] as int;
        if can_absorb(self.part3[f], part, value) {
            Some(
                CubeView {
                    vertical_loop: self.vertical_loop,
                    face_left: self.face_left,
                    face_right: self.face_right,
                    absorption: self.absorption,
                    part2: self.part2,
                    part3: self.part3.update(f, absorbed(self.part3[f], part, value)),
                },
            )
        } else {
            None
        }
    }

    /// The cube after its upper face absorbs a value and the cube is then
    /// moved on: tilted for a column, rolled back for a row.
    pub open spec fn round(self, part: Part, value: u8) -> Option<CubeView> {
        match self.absorbed3(part, value) {
            Some(c) => Some(
                match part {
                    Part::Face => c,
                    Part::Row(_) => c.twisted_r(),
                    Part::Col(_) => c.twisted_u(),
                },
            ),
            None => None,
        }
    }

    /// The cube after `n` rounds.
    pub open spec fn rounds(self, part: Part, value: u8, n: nat) -> Option<CubeView>
        decreases n,
    {
        if n == 0 {
            Some(self)
        } else {
            match self.rounds(part, value, (n - 1) as nat) {
                Some(c) => c.round(part, value),
                None => None,
            }
        }
    }

    /// The cube after an instruction: the upper face gains what it absorbs,
    /// a part of its first grid absorbs the value, and so does the part of
    /// its second grid; but a row or column of the second grid goes all the
    /// way round the cube, over four faces. `None` where the gain does not
    /// fit 32 bits and where a grid cannot absorb the value.
    pub open spec fn applied(self, part: Part, value: u8) -> Option<CubeView> {
        let f = self.vertical_loop[0] as int;
        if self.absorption[f] + gain(part, value) > u32::MAX || !can_absorb(self.part2[f], part, value) {
            None
        } else {
            let c = CubeView {
                vertical_loop: self.vertical_loop,
                face_left: self.face_left,
                face_right: self.face_right,
                absorption: self.absorption.update(f, (self.absorption[f] + gain(part, value)) as u32),
                part2: self.part2.update(f, absorbed(self.part2[f], part, value)),
                part3: self.part3,
            };
            match part {
                Part::Face => c.absorbed3(part, value),
                _ => c.rounds(part, value, 4),
            }
        }
    }

    /// The cube after the instruction that a line writes.
    pub open spec fn instructed(self, line: Seq<u8>) -> Option<CubeView> {
        match parse_order_spec(line) {
            Some((part, value)) => self.applied(part, value),
            None => None,
        }
    }

    /// The cube after the twist that a letter names: `U`, `L`, `D` or `R`.
    pub open spec fn twisted(self, letter: u8) -> Option<CubeView> {
        if letter == 0x55 {
            Some(self.twisted_u())
        } else if letter == 0x4c {
            Some(self.twisted_l())
        } else if letter == 0x44 {
            Some(self.twisted_d())
        } else if letter == 0x52 {
            Some(self.twisted_r())
        } else {
            None
        }
    }

    /// The cube after the first `n` instructions, each followed by its
    /// twist as long as there are twists.
    pub open spec fn ran(self, rows: Seq<Seq<u8>>, twists: Seq<u8>, n: int) -> Option<CubeView>
        decreases n,
    {
        if n <= 0 {
            Some(self)
        } else {
            match self.ran(rows, twists, n - 1) {
                Some(c) => match c.instructed(rows[n - 1]) {
                    Some(d) => if n - 1 < twists.len() {
                        d.twisted(twists[n - 1])
                    } else {
                        Some(d)
                    },
                    None => None,
                },
                None => None,
            }
        }
    }

    /// Once an instruction or a twist fails, no cube comes of the rest.
    pub proof fn lemma_ran_fails(self, rows: Seq<Seq<u8>>, twists: Seq<u8>, k: int, n: int)
        requires
            0 <= k <= n,
            self.ran(rows, twists, k) is None,
        ensures
            self.ran(rows, twists, n) is None,
        decreases n - k,
    {
        if k < n {
            self.lemma_ran_fails(rows, twists, k, n - 1);
        }
    }
}

/// Adds a value to a part of one of the grids, and says whether it could.
fn absorb_grid(grids: &mut Vec<Grid<u8>>, f: usize, part: Part, value: u8) -> (r: bool)
    requires
        old(grids).len() == 6,
        f < 6,
        forall|i: int| 0 <= i < 6 ==> is_face(#[trigger] faces_of(old(grids)@)[i]),
    ensures
        final(grids).len() == 6,
        forall|i: int| 0 <= i < 6 ==> is_face(#[trigger] faces_of(final(grids)@)[i]),
        r == can_absorb(faces_of(old(grids)@)[f as int], part, value),
        r ==> faces_of(final(grids)@) == faces_of(old(grids)@).update(
            f as int,
            absorbed(faces_of(old(grids)@)[f as int], part, value),
        ),
{
    assert(is_face(faces_of(grids@)[f as int]));
    let done = absorb(&mut grids[f], part, value);
    proof {
        assert forall|i: int| 0 <= i < 6 implies is_face(#[trigger] faces_of(grids@)[i]) by {
            if i != f {
                assert(is_face(faces_of(old(grids)@)[i]));
            }
        }
        if done {
            assert(faces_of(grids@) =~= faces_of(old(grids)@).update(
                f as int,
                absorbed(faces_of(old(grids)@)[f as int], part, value),
            ));
        }
    }
    done
}

impl Cube {
    /// One round of an instruction on the second grids.
    fn round(&mut self, part: Part, value: u8) -> (r: bool)
        requires
            old(self)@.wf(),
        ensures
            match old(self)@.round(part, value) {
                Some(c) => r && final(self)@ == c && c.wf(),
                None => !r,
            },
    {
        let f = self.current_face();
        assert(self@.vertical_loop[0] < 6);
        if !absorb_grid(&mut self.grids_part3, f, part, value) {
            return false;
        }
        match part {
            Part::Face => {},
            Part::Row(_) => self.twist_R(),
            Part::Col(_) => self.twist_U(),
        }
        true
    }

    /// Carries out an instruction on a part of the upper face, and says
    /// whether it could. Where it could not, the cube is left in disorder.
    pub fn apply_order(&mut self, part: Part, value: u8) -> (r: bool)
        requires
            old(self)@.wf(),
        ensures
            match old(self)@.applied(part, value) {
                Some(c) => r && final(self)@ == c && c.wf(),
                None => !r,
            },
    {
        let f = self.current_face();
        assert(self@.vertical_loop[0] < 6);
        let unit: u32 = match part {
            Part::Face => 6400,
            _ => 80,
        };
        let total: u64 = self.absorption[f] as u64 + (value as u64) * (unit as u64);
        if total > u32::MAX as u64 {
            return false;
        }
        self.absorption[f] = total as u32;
        if !absorb_grid(&mut self.grids_part2, f, part, value) {
            return false;
        }
        let ghost mid = self@;
        match part {
            Part::Face => {
                if !absorb_grid(&mut self.grids_part3, f, part, value) {
                    return false;
                }
                true
            },
            _ => {
                let mut n: usize = 0;
                while n < 4
                    invariant
                        n <= 4,
                        part != Part::Face,
                        old(self)@.applied(part, value) == mid.rounds(part, value, 4),
                        mid.rounds(part, value, n as nat) == Some(self@),
                        self@.wf(),
                    decreases 4 - n,
                {
                    if !self.round(part, value) {
                        proof {
                            lemma_rounds_fail(mid, part, value, (n + 1) as nat, 4);
                        }
                        return false;
                    }
                    n += 1;
                }
                true
            },
        }
    }

    /// Reads an instruction and carries it out, and says whether it could.
    pub fn apply_instruction(&mut self, instruction: &str) -> (r: bool)
        requires
            old(self)@.wf(),
        ensures
            match old(self)@.instructed(instruction.spec_bytes()) {
                Some(c) => r && final(self)@ == c && c.wf(),
                None => !r,
            },
    {
        match parse_order(instruction.as_bytes()) {
            Some((part, value)) => self.apply_order(part, value),
            None => false,
        }
    }

    /// Twists the cube as a letter says, and says whether the letter names
    /// a twist.
    pub fn apply_twist(&mut self, twist: u8) -> (r: bool)
        requires
            old(self)@.wf(),
        ensures
            match old(self)@.twisted(twist) {
                Some(c) => r && final(self)@ == c && c.wf(),
                None => !r && final(self)@ == old(self)@,
            },
    {
        if twist == 0x55 {
            self.twist_U();
            true
        } else if twist == 0x4c {
            self.twist_L();
            true
        } else if twist == 0x44 {
            self.twist_D();
            true
        } else if twist == 0x52 {
            self.twist_R();
            true
        } else {
            false
        }
    }
}

/// Once a round fails, no cube comes of the rest.
proof fn lemma_rounds_fail(c: CubeView, part: Part, value: u8, k: nat, n: nat)
    requires
        k <= n,
        c.rounds(part, value, k) is None,
    ensures
        c.rounds(part, value, n) is None,
    decreases n - k,
{
    if k < n {
        lemma_rounds_fail(c, part, value, k, (n - 1) as nat);
    }
}

/// The cube after the instructions of a text, one to a line, each followed
/// by its twist as long as there are twists; the twists are the letters of
/// a second text without the white space round it. `None` where an
/// instruction or a twist cannot be carried out.
pub fn run(instructions: &[u8], twists: &[u8]) -> (r: Option<Cube>)
    ensures
        match r {
            Some(cube) => exists|first: CubeView|
                #![trigger first.ran(lines_spec(instructions@), trim_spec(twists@), lines_spec(instructions@).len() as int)]
                {
                    &&& fresh(first)
                    &&& first.ran(
                        lines_spec(instructions@),
                        trim_spec(twists@),
                        lines_spec(instructions@).len() as int,
                    ) == Some(cube@)
                    &&& cube@.wf()
                },
            None => forall|first: CubeView|
                fresh(first) ==> (#[trigger] first.ran(
                    lines_spec(instructions@),
                    trim_spec(twists@),
                    lines_spec(instructions@).len() as int,
                )) is None,
        },
{
    let rows = lines(instructions);
    let letters = trim(twists);
    let ghost spec_rows = lines_spec(instructions@);
    let mut cube = Cube::new();
    let ghost first = cube@;
    proof {
        lemma_fresh_is_one(first);
    }
    let mut i: usize = 0;
    while i < rows.len()
        invariant
            i <= rows.len(),
            spec_rows == lines_spec(instructions@),
            letters@ == trim_spec(twists@),
            rows.len() == spec_rows.len(),
            forall|k: int| 0 <= k < rows.len() ==> (#[trigger] rows[k])@ == spec_rows[k],
            fresh(first),
            forall|other: CubeView| fresh(other) ==> other == first,
            first.ran(spec_rows, letters@, i as int) == Some(cube@),
            cube@.wf(),
        decreases rows.len() - i,
    {
        let done = match parse_order(rows[i]) {
            Some((part, value)) => cube.apply_order(part, value),
            None => false,
        };
        let twisted = if done && i < letters.len() {
            cube.apply_twist(letters[i])
        } else {
            done
        };
        if !twisted {
            proof {
                first.lemma_ran_fails(spec_rows, letters@, i + 1, spec_rows.len() as int);
            }
            return None;
        }
        i += 1;
    }
    Some(cube)
}

/// Whether a cube lies as it does at first: nothing absorbed, and one in
/// every cell.
pub open spec fn fresh(c: CubeView) -> bool {
    &&& c.wf()
    &&& c.vertical_loop == seq![UP, FRONT, DOWN, BACK]
    &&& c.face_left == LEFT
    &&& c.face_right == RIGHT
    &&& forall|i: int| 0 <= i < 6 ==> c.absorption[i] == 0
    &&& forall|i: int| 0 <= i < 6 ==> #[trigger] c.part2[i] == even_face(80, 80, 1)
    &&& forall|i: int| 0 <= i < 6 ==> #[trigger] c.part3[i] == even_face(80, 80, 1)
}

/// There is one fresh cube.
pub proof fn lemma_fresh_is_one(c: CubeView)
    requires
        fresh(c),
    ensures
        forall|other: CubeView| fresh(other) ==> other == c,
{
    assert forall|other: CubeView| fresh(other) implies other == c by {
        assert(other.absorption =~= c.absorption);
        assert(other.part2 =~= c.part2);
        assert(other.part3 =~= c.part3);
        assert(other.vertical_loop =~= c.vertical_loop);
    }
}

/// The two greatest of the amounts, the greater first.
pub open spec fn two_greatest(amounts: Seq<u32>) -> (u32, u32)
    decreases amounts.len(),
{
    if amounts.len() == 0 {
        (0u32, 0u32)
    } else {
        let (a, b) = two_greatest(amounts.drop_last());
        let v = amounts.last();
        if v > a {
            (v, a)
        } else if v > b {
            (a, v)
        } else {
            (a, b)
        }
    }
}

/// The product of the two greatest amounts that faces have absorbed.
pub fn top_two_product(absorption: &[u32; NUM_FACES]) -> (r: u64)
    ensures
        r == two_greatest(absorption@).0 * two_greatest(absorption@).1,
{
    let mut a: u32 = 0;
    let mut b: u32 = 0;
    let mut i: usize = 0;
    while i < NUM_FACES
        invariant
            i <= NUM_FACES,
            absorption@.len() == NUM_FACES,
            two_greatest(absorption@.take(i as int)) == (a, b),
        decreases NUM_FACES - i,
    {
        let v = absorption[i];
        proof {
            assert(absorption@.take(i + 1).drop_last() =~= absorption@.take(i as int));
            assert(absorption@.take(i + 1).last() == v);
        }
        if v > a {
            b = a;
            a = v;
        } else if v > b {
            b = v;
        }
        i += 1;
    }
    assert(absorption@.take(NUM_FACES as int) =~= absorption@);
    assert(a * b <= 0xffff_ffff * 0xffff_ffff) by (nonlinear_arith)
        requires
            0 <= a <= 0xffff_ffff,
            0 <= b <= 0xffff_ffff,
    ;
    (a as u64) * (b as u64)
}

/// The product of the greatest sums of a row or column of the first `n`
/// faces.
pub open spec fn dominance(faces: Seq<Seq<Seq<u8>>>, n: int) -> nat
    decreases n,
{
    if n <= 0 {
        1
    } else {
        dominance(faces, n - 1) * dominant(faces[n - 1], 80) as nat
    }
}

/// The product of the greatest sums of a row or column of the six faces.
pub fn dominant_product(grids: &Vec<Grid<u8>>) -> (r: u128)
    requires
        grids.len() == 6,
        forall|i: int| 0 <= i < 6 ==> is_face(#[trigger] faces_of(grids@)[i]),
    ensures
        r == dominance(faces_of(grids@), 6),
{
    let mut product: u128 = 1;
    let mut i: usize = 0;
    while i < 6
        invariant
            i <= 6,
            grids.len() == 6,
            forall|k: int| 0 <= k < 6 ==> is_face(#[trigger] faces_of(grids@)[k]),
            product == dominance(faces_of(grids@), i as int),
            product <= pow16(i as nat),
        decreases 6 - i,
    {
        assert(is_face(faces_of(grids@)[i as int]));
        let d = dominant_sum(&grids[i]);
        assert(product * d <= pow16((i + 1) as nat)) by (nonlinear_arith)
            requires
                0 <= product <= pow16(i as nat),
                0 <= d <= 0xffff,
                pow16((i + 1) as nat) == pow16(i as nat) * 0x1_0000,
        ;
        assert(pow16((i + 1) as nat) <= pow16(6)) by {
            lemma_pow16_grows((i + 1) as nat, 6);
        }
        assert(pow16(6) == 0x1_0000_0000_0000_0000_0000_0000) by {
            reveal_with_fuel(pow16, 7);
        }
        product = product * (d as u128);
        i += 1;
    }
    product
}

/// Sixteen bits, `n` times over.
pub open spec fn pow16(n: nat) -> nat
    decreases n,
{
    if n == 0 {
        1
    } else {
        pow16((n - 1) as nat) * 0x1_0000
    }
}

/// More times over is no less.
proof fn lemma_pow16_grows(k: nat, n: nat)
    requires
        k <= n,
    ensures
        pow16(k) <= pow16(n),
    decreases n - k,
{
    if k < n {
        lemma_pow16_grows(k, (n - 1) as nat);
        assert(pow16((n - 1) as nat) <= pow16((n - 1) as nat) * 0x1_0000) by (nonlinear_arith)
            requires
                pow16((n - 1) as nat) >= 0,
        ;
    }
}

/// The cube after the instructions and twists of an input, whose first
/// empty line parts the instructions from the twists.
pub fn run_input(input: &str) -> (r: Option<Cube>)
    ensures
        match split_once_spec(input.spec_bytes(), seq![0x0au8, 0x0au8]) {
            Some((instructions, twists)) => match r {
                Some(cube) => exists|first: CubeView|
                    #![trigger first.ran(lines_spec(instructions), trim_spec(twists), lines_spec(instructions).len() as int)]
                    {
                        &&& fresh(first)
                        &&& first.ran(lines_spec(instructions), trim_spec(twists), lines_spec(instructions).len() as int)
                            == Some(cube@)
                        &&& cube@.wf()
                    },
                None => forall|first: CubeView|
                    fresh(first) ==> (#[trigger] first.ran(
                        lines_spec(instructions),
                        trim_spec(twists),
                        lines_spec(instructions).len() as int,
                    )) is None,
            },
            None => r is None,
        },
{
    let gap: [u8; 2] = [0x0a, 0x0a];
    assert(gap@ =~= seq![0x0au8, 0x0au8]);
    match split_once(input.as_bytes(), gap.as_slice()) {
        Some((instructions, twists)) => run(instructions, twists),
        None => None,
    }
}

} // verus!
