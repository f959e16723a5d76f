//! Loading a maze from text: one row per line, `' '` open, `'*'` wall, `'S'` start, `'G'` goal.
use crate::grid::{count_of, Direction, Dungeon, Field, Point, State};
use vstd::prelude::*;
use vstd::string::StrSliceExecFns;

verus! {

/// Why a maze text was refused.
#[derive(Clone, Copy, Debug, PartialEq, Eq, Structural)]
pub enum MazeError {
    /// A character that is none of the four cell glyphs nor a line break, at a zero-based
    /// line and column.
    InvalidCharacter { line: usize, column: usize, found: char },
    /// A row whose length differs from the first row's.
    RaggedRow { line: usize },
    /// Not exactly one start and exactly one goal.
    InvalidMaze { starts: usize, goals: usize },
}

pub open spec fn cell_char(c: char) -> bool {
    c == ' ' || c == '*' || c == 'S' || c == 'G'
}

/// A character that is neither a cell glyph nor a line break. It is tested on the text
/// after `line_text`, so a carriage return is bad only where it ends no line.
pub open spec fn bad_char(c: char) -> bool {
    c != '\n' && !cell_char(c)
}

pub open spec fn no_bad_char(s: Seq<char>) -> bool {
    forall|j: int| 0 <= j < s.len() ==> !bad_char(#[trigger] s[j])
}

pub open spec fn terrain_of(c: char) -> State {
    if c == ' ' {
        State::Aisle
    } else if c == '*' {
        State::Wall
    } else if c == 'S' {
        State::Start
    } else if c == 'G' {
        State::Goal
    } else {
        State::Empty
    }
}

/// Number of line breaks in `s`.
pub open spec fn newlines(s: Seq<char>) -> nat
    decreases s.len(),
{
    if s.len() == 0 {
        0
    } else {
        newlines(s.drop_last()) + if s.last() == '\n' { 1nat } else { 0nat }
    }
}

/// Number of characters after the last line break of `s`.
pub open spec fn column_of(s: Seq<char>) -> nat
    decreases s.len(),
{
    if s.len() == 0 {
        0
    } else if s.last() == '\n' {
        0
    } else {
        column_of(s.drop_last()) + 1
    }
}

pub open spec fn char_count(s: Seq<char>, c: char) -> nat
    decreases s.len(),
{
    if s.len() == 0 {
        0
    } else {
        char_count(s.drop_last(), c) + if s.last() == c { 1nat } else { 0nat }
    }
}

/// Lengths of the pieces between line breaks (one more piece than line breaks), taken
/// over the text after `line_text`.
pub open spec fn piece_lengths(s: Seq<char>) -> Seq<nat>
    decreases s.len(),
{
    if s.len() == 0 {
        seq![0nat]
    } else {
        let p = piece_lengths(s.drop_last());
        if s.last() == '\n' {
            p.push(0)
        } else {
            p.update(p.len() - 1, p.last() + 1)
        }
    }
}

/// Lengths of the rows: the pieces, less an empty one after the last line break.
pub open spec fn row_lengths(s: Seq<char>) -> Seq<nat> {
    let p = piece_lengths(s);
    if p.last() == 0 {
        p.drop_last()
    } else {
        p
    }
}

pub open spec fn rectangular(s: Seq<char>) -> bool {
    forall|r: int| 0 <= r < row_lengths(s).len() ==> #[trigger] row_lengths(s)[r] == row_lengths(s)[0]
}

/// Terrain of the cells, row after row, taken over the text after `line_text`.
pub open spec fn cells_of(s: Seq<char>) -> Seq<State>
    decreases s.len(),
{
    if s.len() == 0 {
        seq![]
    } else if s.last() == '\n' {
        cells_of(s.drop_last())
    } else {
        cells_of(s.drop_last()).push(terrain_of(s.last()))
    }
}

/// Completed pieces of a prefix are pieces of the whole text.
proof fn lemma_piece_prefix(s: Seq<char>, i: int, r: int)
    requires
        0 <= i <= s.len(),
        0 <= r < piece_lengths(s.take(i)).len() - 1,
    ensures
        r < piece_lengths(s).len() - 1,
        piece_lengths(s)[r] == piece_lengths(s.take(i))[r],
    decreases s.len() - i,
{
    if i < s.len() {
        let t = s.take(i + 1);
        assert(t.drop_last() =~= s.take(i));
        lemma_piece_prefix(s, i + 1, r);
    } else {
        assert(s.take(i) =~= s);
    }
}

proof fn lemma_cells_count(s: Seq<char>, c: char, st: State)
    requires
        c != '\n',
        forall|x: char| cell_char(x) ==> (terrain_of(x) == st <==> x == c),
        no_bad_char(s),
    ensures
        count_of(cells_of(s), st) == char_count(s, c),
    decreases s.len(),
{
    if s.len() > 0 {
        assert(no_bad_char(s.drop_last())) by {
            assert forall|j: int| 0 <= j < s.drop_last().len() implies !bad_char(#[trigger] s.drop_last()[j]) by {
                assert(s.drop_last()[j] == s[j]);
            }
        }
        lemma_cells_count(s.drop_last(), c, st);
        if s.last() != '\n' {
            assert(cells_of(s).drop_last() =~= cells_of(s.drop_last()));
            assert(!bad_char(s[s.len() - 1]));
        }
    }
}

/// What loading the line-break-normalised text `s` gives: the first character that is no
/// cell glyph or line break is reported; else every row must be as long as the first;
/// last there must be exactly one `'S'` and one `'G'`.
pub open spec fn load_result(s: Seq<char>, r: Result<Dungeon, MazeError>) -> bool {
    match r {
        Err(MazeError::InvalidCharacter { line, column, found }) => exists|k: int|
            0 <= k < s.len() && s[k] == found && bad_char(found) && no_bad_char(
                s.take(k),
            ) && line == newlines(s.take(k)) && column == column_of(s.take(k)),
        Err(MazeError::RaggedRow { line }) => {
            &&& no_bad_char(s)
            &&& 0 < line < row_lengths(s).len()
            &&& row_lengths(s)[line as int] != row_lengths(s)[0]
        },
        Err(MazeError::InvalidMaze { starts, goals }) => {
            &&& no_bad_char(s)
            &&& rectangular(s)
            &&& starts == char_count(s, 'S')
            &&& goals == char_count(s, 'G')
            &&& !(starts == 1 && goals == 1)
        },
        Ok(d) => {
            &&& no_bad_char(s)
            &&& rectangular(s)
            &&& char_count(s, 'S') == 1
            &&& char_count(s, 'G') == 1
            &&& d.valid_maze()
            &&& d.height == row_lengths(s).len()
            &&& d.width == row_lengths(s)[0]
            &&& d.states() == cells_of(s)
            &&& forall|k: int|
                0 <= k < d.cells@.len() ==> (#[trigger] d.cells@[k]).g_cost is None
                    && d.cells@[k].f_cost is None && d.cells@[k].came_from == Direction::N
        },
    }
}

/// A carriage return that ends a line (it stands before a line break or at the very end)
/// belongs to the line break and is dropped before the text is read.
pub open spec fn dropped_cr(s: Seq<char>, i: int) -> bool {
    s[i] == '\r' && (i + 1 == s.len() || s[i + 1] == '\n')
}

/// The characters of `s` from index `i` on, less the dropped carriage returns.
pub open spec fn strip_from(s: Seq<char>, i: int) -> Seq<char>
    decreases s.len() - i,
{
    if i < 0 || i >= s.len() {
        seq![]
    } else if dropped_cr(s, i) {
        strip_from(s, i + 1)
    } else {
        seq![s[i]] + strip_from(s, i + 1)
    }
}

/// The text with `"\r\n"` line ends (and a final `'\r'`) read as plain line breaks.
pub open spec fn line_text(s: Seq<char>) -> Seq<char> {
    strip_from(s, 0)
}

impl Dungeon {
    /// Loads a maze from its text. A line may end in `"\n"` or `"\r\n"`. Characters
    /// are checked first: the first one that is no cell glyph or line break is reported.
    /// Then every row must be as long as the first, and last there must be exactly one
    /// `'S'` and one `'G'`.
    pub fn new(text: &str) -> (r: Result<Dungeon, MazeError>)
        requires
            text@.len() <= usize::MAX / 4,
        ensures
            load_result(line_text(text@), r),
    {
        let n = text.unicode_len();
        let mut chars: Vec<char> = Vec::new();
        let mut i: usize = 0;
        while i < n
            invariant
                n == text@.len(),
                i <= n,
                chars@.len() <= i,
                chars@ + strip_from(text@, i as int) == line_text(text@),
            decreases n - i,
        {
            let c = text.get_char(i);
            let ghost old_chars = chars@;
            let drop = c == '\r' && (i + 1 == n || text.get_char(i + 1) == '\n');
            if !drop {
                chars.push(c);
                proof {
                    assert(chars@ + strip_from(text@, i + 1) =~= old_chars + (seq![c] + strip_from(
                        text@,
                        i + 1,
                    )));
                }
            }
            i = i + 1;
        }
        proof {
            assert(chars@ + strip_from(text@, n as int) =~= chars@);
        }
        Dungeon::from_chars(&chars)
    }

    fn from_chars(chars: &Vec<char>) -> (r: Result<Dungeon, MazeError>)
        requires
            chars@.len() <= usize::MAX / 4,
        ensures
            load_result(chars@, r),
    {
        let n = chars.len();
        let mut i: usize = 0;
        let mut line: usize = 0;
        let mut column: usize = 0;
        let mut starts: usize = 0;
        let mut goals: usize = 0;
        while i < n
            invariant
                n == chars@.len(),
                n <= usize::MAX / 4,
                i <= n,
                no_bad_char(chars@.take(i as int)),
                line == newlines(chars@.take(i as int)),
                column == column_of(chars@.take(i as int)),
                starts == char_count(chars@.take(i as int), 'S'),
                goals == char_count(chars@.take(i as int), 'G'),
                line <= i,
                column <= i,
                starts <= i,
                goals <= i,
            decreases n - i,
        {
            let c = chars[i];
            proof {
                assert(chars@.take(i + 1).drop_last() =~= chars@.take(i as int));
            }
            if c != '\n' && c != ' ' && c != '*' && c != 'S' && c != 'G' {
                return Err(MazeError::InvalidCharacter { line, column, found: c });
            }
            if c == '\n' {
                line = line + 1;
                column = 0;
            } else {
                column = column + 1;
            }
            if c == 'S' {
                starts = starts + 1;
            }
            if c == 'G' {
                goals = goals + 1;
            }
            proof {
                assert forall|j: int| 0 <= j < i + 1 implies !bad_char(#[trigger] chars@.take(i + 1)[j]) by {
                    if j < i {
                        assert(chars@.take(i + 1)[j] == chars@.take(i as int)[j]);
                    }
                }
            }
            i = i + 1;
        }
        proof {
            assert(chars@.take(n as int) =~= chars@);
        }
        let mut cells: Vec<Field> = Vec::new();
        let mut width: usize = 0;
        let mut row: usize = 0;
        let mut col: usize = 0;
        i = 0;
        while i < n
            invariant
                n == chars@.len(),
                n <= usize::MAX / 4,
                i <= n,
                no_bad_char(chars@),
                piece_lengths(chars@.take(i as int)).len() == row + 1,
                piece_lengths(chars@.take(i as int)).last() == col,
                forall|r: int| 0 <= r < row ==> #[trigger] piece_lengths(chars@.take(i as int))[r] == width,
                cells@.len() == row * width + col,
                cells@.len() + row <= i,
                row >= 1 ==> width <= cells@.len(),
                cells@.map_values(|f: Field| f.state) == cells_of(chars@.take(i as int)),
                forall|k: int|
                    0 <= k < cells@.len() ==> {
                        let f = #[trigger] cells@[k];
                        &&& f.point.y * width + f.point.x == k
                        &&& (f.point.y < row && f.point.x < width) || (f.point.y == row && f.point.x < col)
                        &&& f.g_cost is None
                        &&& f.f_cost is None
                        &&& f.came_from == Direction::N
                    },
            decreases n - i,
        {
            let c = chars[i];
            let ghost before = chars@.take(i as int);
            proof {
                assert(chars@.take(i + 1).drop_last() =~= before);
                assert(!bad_char(chars@[i as int]));
            }
            if c == '\n' {
                if row == 0 {
                    width = col;
                } else if col != width {
                    proof {
                        lemma_piece_prefix(chars@, i + 1, row as int);
                        lemma_piece_prefix(chars@, i + 1, 0);
                    }
                    return Err(MazeError::RaggedRow { line: row });
                }
                proof {
                    assert((row + 1) * width == row * width + width) by (nonlinear_arith);
                }
                row = row + 1;
                col = 0;
            } else {
                let state = if c == ' ' {
                    State::Aisle
                } else if c == '*' {
                    State::Wall
                } else if c == 'S' {
                    State::Start
                } else {
                    State::Goal
                };
                cells.push(
                    Field {
                        point: Point { x: col, y: row },
                        state,
                        came_from: Direction::N,
                        f_cost: None,
                        g_cost: None,
                    },
                );
                col = col + 1;
            }
            proof {
                assert(cells@.map_values(|f: Field| f.state) =~= cells_of(chars@.take(i + 1)));
            }
            i = i + 1;
        }
        proof {
            assert(chars@.take(n as int) =~= chars@);
        }
        let mut height: usize = row;
        let ghost loop_width = width;
        if col > 0 {
            if row == 0 {
                width = col;
            } else if col != width {
                proof {
                    lemma_piece_prefix(chars@, n as int, 0);
                }
                return Err(MazeError::RaggedRow { line: row });
            }
            proof {
                assert((row + 1) * width == row * width + width) by (nonlinear_arith);
            }
            height = row + 1;
        }
        if starts != 1 || goals != 1 {
            return Err(MazeError::InvalidMaze { starts, goals });
        }
        let d = Dungeon { cells, width, height };
        proof {
            assert(height * width == width * height) by (nonlinear_arith);
            assert forall|k: int| 0 <= k < d.cells@.len() implies {
                let p = #[trigger] d.cells@[k].point;
                &&& p.x < d.width
                &&& p.y < d.height
                &&& crate::grid::index_of(d.width as int, p.pos()) == k
            } by {
                let p = d.cells@[k].point;
                assert(p.y * loop_width + p.x == k);
                if row == 0 {
                    assert(p.y == 0);
                }
            }
            lemma_cells_count(chars@, 'S', State::Start);
            lemma_cells_count(chars@, 'G', State::Goal);
        }
        Ok(d)
    }
}

} // verus!
