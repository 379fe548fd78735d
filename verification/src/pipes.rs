//! A field of pipes: the cells around a cell, and the pipe hidden under the
//! start mark.

use vstd::prelude::*;

verus! {

/// A cell of the field: column `x` of row `y`.
#[derive(Debug, Clone, Copy, PartialEq, Eq, Structural, Hash)]
pub struct Point {
    pub x: usize,
    pub y: usize,
}

/// The rows of a field as sequences of characters.
pub open spec fn rows_of(field: Seq<Vec<char>>) -> Seq<Seq<char>> {
    Seq::new(field.len(), |y: int| field[y]@)
}

/// The cell lies in the field, and so does the same column of the rows
/// above and below it.
pub open spec fn in_field(field: Seq<Seq<char>>, p: Point) -> bool {
    &&& p.y < field.len()
    &&& 1 <= field[p.y as int].len()
    &&& p.x < field[p.y as int].len()
    &&& p.y > 0 ==> p.x < field[p.y - 1].len()
    &&& p.y + 1 < field.len() ==> p.x < field[p.y + 1].len()
}

/// What the cell at column `x` of row `y` shows, unless it was visited.
pub open spec fn shown(field: Seq<Seq<char>>, visited: Seq<Point>, x: int, y: int) -> Option<
    char,
> {
    if visited.contains(Point { x: x as usize, y: y as usize }) {
        None
    } else {
        Some(field[y][x])
    }
}

/// The cells to the left, to the right, above and below `p`, each `None`
/// when it lies outside the field or was visited.
pub open spec fn around(field: Seq<Seq<char>>, visited: Seq<Point>, p: Point) -> (
    Option<char>,
    Option<char>,
    Option<char>,
    Option<char>,
) {
    (
        if p.x > 0 {
            shown(field, visited, p.x - 1, p.y as int)
        } else {
            None
        },
        if p.x < field[p.y as int].len() - 1 {
            shown(field, visited, p.x + 1, p.y as int)
        } else {
            None
        },
        if p.y > 0 {
            shown(field, visited, p.x as int, p.y - 1)
        } else {
            None
        },
        if p.y < field.len() - 1 {
            shown(field, visited, p.x as int, p.y + 1)
        } else {
            None
        },
    )
}

/// The pipe that joins the neighbours of the start cell, for the six
/// neighbourhoods that are told apart; the first rule that fits decides.
pub open spec fn hidden_pipe(
    n: (Option<char>, Option<char>, Option<char>, Option<char>),
) -> Option<char> {
    if n.0 == Some('-') && n.1 == Some('-') {
        Some('-')
    } else if n.2 == Some('|') && n.3 == Some('|') {
        Some('|')
    } else if n.1 == Some('-') && n.3 == Some('|') {
        Some('F')
    } else if n.0 == Some('-') && n.3 == Some('|') {
        Some('J')
    } else if n.1 == Some('7') && n.2 == Some('F') {
        Some('L')
    } else if n.1 == Some('J') && n.3 == Some('|') {
        Some('F')
    } else {
        None
    }
}

fn was_visited(visited: &Vec<Point>, p: Point) -> (b: bool)
    ensures
        b == visited@.contains(p),
{
    let mut i: usize = 0;
    while i < visited.len()
        invariant
            i <= visited@.len(),
            forall|j: int| 0 <= j < i ==> visited@[j] != p,
        decreases visited@.len() - i,
    {
        if visited[i] == p {
            return true;
        }
        i += 1;
    }
    false
}

fn show(input: &[Vec<char>], visited: &Vec<Point>, x: usize, y: usize) -> (r: Option<char>)
    requires
        y < input@.len(),
        x < input@[y as int]@.len(),
    ensures
        r == shown(rows_of(input@), visited@, x as int, y as int),
{
    if was_visited(visited, Point { x, y }) {
        None
    } else {
        Some(input[y][x])
    }
}

/// The cells left of, right of, above and below `point`, in this order;
/// `None` for a cell outside the field and for a visited cell.
pub fn get_neighbours_not_visited(point: &Point, input: &[Vec<char>], visited: &Vec<Point>) -> (r: (
    Option<char>,
    Option<char>,
    Option<char>,
    Option<char>,
))
    requires
        in_field(rows_of(input@), *point),
    ensures
        r == around(rows_of(input@), visited@, *point),
{
    let left = if point.x > 0 {
        show(input, visited, point.x - 1, point.y)
    } else {
        None
    };
    let right = if point.x < input[point.y].len() - 1 {
        show(input, visited, point.x + 1, point.y)
    } else {
        None
    };
    let top = if point.y > 0 {
        show(input, visited, point.x, point.y - 1)
    } else {
        None
    };
    let bottom = if point.y < input.len() - 1 {
        show(input, visited, point.x, point.y + 1)
    } else {
        None
    };
    (left, right, top, bottom)
}

fn is_some_char(o: Option<char>, c: char) -> (b: bool)
    ensures
        b == (o == Some(c)),
{
    match o {
        Some(d) => d == c,
        None => false,
    }
}

/// The field with `c` in the cell `p`.
pub open spec fn with_cell(field: Seq<Seq<char>>, p: Point, c: char) -> Seq<Seq<char>> {
    field.update(p.y as int, field[p.y as int].update(p.x as int, c))
}

/// The field with the pipe that joins the neighbours of `point` put in its
/// place.
pub fn interpolate(point: &Point, input: &[Vec<char>]) -> (r: Vec<Vec<char>>)
    requires
        in_field(rows_of(input@), *point),
        hidden_pipe(around(rows_of(input@), Seq::empty(), *point)).is_some(),
    ensures
        rows_of(r@) == with_cell(
            rows_of(input@),
            *point,
            hidden_pipe(around(rows_of(input@), Seq::empty(), *point)).unwrap(),
        ),
{
    let none: Vec<Point> = Vec::new();
    let n = get_neighbours_not_visited(point, input, &none);
    assert(none@ =~= Seq::empty());
    let p = if is_some_char(n.0, '-') && is_some_char(n.1, '-') {
        '-'
    } else if is_some_char(n.2, '|') && is_some_char(n.3, '|') {
        '|'
    } else if is_some_char(n.1, '-') && is_some_char(n.3, '|') {
        'F'
    } else if is_some_char(n.0, '-') && is_some_char(n.3, '|') {
        'J'
    } else if is_some_char(n.1, '7') && is_some_char(n.2, 'F') {
        'L'
    } else {
        'F'
    };
    let mut result: Vec<Vec<char>> = Vec::new();
    let mut y: usize = 0;
    while y < input.len()
        invariant
            y <= input@.len(),
            in_field(rows_of(input@), *point),
            result@.len() == y,
            forall|b: int| 0 <= b < y ==> (#[trigger] result@[b])@.len() == input@[b]@.len(),
            forall|b: int, a: int|
                0 <= b < y && 0 <= a < result@[b]@.len() ==> #[trigger] result@[b]@[a] == if b
                    == point.y && a == point.x {
                    p
                } else {
                    input@[b]@[a]
                },
        decreases input@.len() - y,
    {
        let row = &input[y];
        let mut copy: Vec<char> = Vec::new();
        let mut x: usize = 0;
        while x < row.len()
            invariant
                x <= row@.len(),
                copy@.len() == x,
                forall|a: int|
                    0 <= a < x ==> #[trigger] copy@[a] == if y == point.y && a == point.x {
                        p
                    } else {
                        row@[a]
                    },
            decreases row@.len() - x,
        {
            if y == point.y && x == point.x {
                copy.push(p);
            } else {
                copy.push(row[x]);
            }
            x += 1;
        }
        result.push(copy);
        y += 1;
    }
    proof {
        let want = with_cell(rows_of(input@), *point, p);
        assert(rows_of(result@).len() == want.len());
        assert forall|b: int| 0 <= b < want.len() implies rows_of(result@)[b] == want[b] by {
            assert(result@[b]@.len() == input@[b]@.len());
            assert(rows_of(result@)[b] =~= want[b]);
        }
        assert(rows_of(result@) =~= want);
    }
    result
}

/// The field has a cell, and every row is as long as the first.
pub open spec fn even_field(field: Seq<Seq<char>>) -> bool {
    &&& field.len() >= 1
    &&& field[0].len() >= 1
    &&& forall|y: int| 0 <= y < field.len() ==> (#[trigger] field[y]).len() == field[0].len()
}

/// The cell `p` of the field holds `c`.
pub open spec fn cell_is(field: Seq<Seq<char>>, p: Point, c: char) -> bool {
    p.y < field.len() && p.x < field[p.y as int].len() && field[p.y as int][p.x as int] == c
}

/// Row-major order of cells.
pub open spec fn comes_before(p: Point, q: Point) -> bool {
    p.y < q.y || (p.y == q.y && p.x < q.x)
}

/// `p` is the first cell, in row-major order, that holds the start mark.
pub open spec fn is_start(field: Seq<Seq<char>>, p: Point) -> bool {
    cell_is(field, p, 'S') && forall|q: Point| #[trigger] cell_is(field, q, 'S') ==> !comes_before(q, p)
}

/// The start cell of a field that has one.
pub open spec fn start_of(field: Seq<Seq<char>>) -> Point {
    choose|p: Point| is_start(field, p)
}

/// The field with the start mark replaced by the pipe that it hides.
pub open spec fn piped(field: Seq<Seq<char>>) -> Seq<Seq<char>> {
    with_cell(
        field,
        start_of(field),
        hidden_pipe(around(field, Seq::empty(), start_of(field))).unwrap(),
    )
}

pub open spec fn one_of(o: Option<char>, a: char, b: char, c: char) -> bool {
    o == Some(a) || o == Some(b) || o == Some(c)
}

/// The neighbour of `cur` in direction `d` (0 left, 1 right, 2 up, 3 down)
/// if it was not visited and holds a pipe that opens towards `cur`.
pub open spec fn open_towards(
    field: Seq<Seq<char>>,
    visited: Seq<Point>,
    cur: Point,
    d: int,
) -> Option<Point> {
    let n = around(field, visited, cur);
    if d == 0 && one_of(n.0, 'F', 'L', '-') {
        Some(Point { x: (cur.x - 1) as usize, y: cur.y })
    } else if d == 1 && one_of(n.1, 'J', '-', '7') {
        Some(Point { x: (cur.x + 1) as usize, y: cur.y })
    } else if d == 2 && one_of(n.2, 'F', '7', '|') {
        Some(Point { x: cur.x, y: (cur.y - 1) as usize })
    } else if d == 3 && one_of(n.3, 'L', 'J', '|') {
        Some(Point { x: cur.x, y: (cur.y + 1) as usize })
    } else {
        None
    }
}

/// The direction that a pipe is left by first; -1 for what is no pipe.
pub open spec fn first_way(kind: char) -> int {
    if kind == '|' || kind == 'J' {
        2
    } else if kind == '-' || kind == '7' {
        0
    } else if kind == 'F' || kind == 'L' {
        1
    } else {
        -1
    }
}

/// The direction that a pipe is left by when the first one is closed.
pub open spec fn second_way(kind: char) -> int {
    if kind == '|' || kind == 'F' || kind == '7' {
        3
    } else if kind == '-' {
        1
    } else if kind == 'J' {
        0
    } else if kind == 'L' {
        2
    } else {
        -1
    }
}

/// The cell that the walk goes to from `cur`, if there is one.
pub open spec fn next_cell(field: Seq<Seq<char>>, visited: Seq<Point>, cur: Point) -> Option<Point> {
    let kind = field[cur.y as int][cur.x as int];
    if open_towards(field, visited, cur, first_way(kind)).is_some() {
        open_towards(field, visited, cur, first_way(kind))
    } else {
        open_towards(field, visited, cur, second_way(kind))
    }
}

/// The cells that the walk leaves behind, in order: from `cur` it goes on
/// while there is a next cell and it has not come back to the start, for
/// `fuel` steps at most.
pub open spec fn walk(
    field: Seq<Seq<char>>,
    visited: Seq<Point>,
    cur: Point,
    start: Point,
    fuel: nat,
) -> Seq<Point>
    decreases fuel,
{
    if fuel == 0 || (cur == start && visited.len() > 0) {
        visited
    } else {
        match next_cell(field, visited, cur) {
            None => visited,
            Some(n) => walk(field, visited.push(cur), n, start, (fuel - 1) as nat),
        }
    }
}

/// The cells of the loop that the walk from the start leaves behind. A walk
/// takes no more steps than the field has cells.
pub open spec fn loop_path(field: Seq<Seq<char>>) -> Seq<Point> {
    walk(
        piped(field),
        Seq::empty(),
        start_of(field),
        start_of(field),
        (field.len() * field[0].len()) as nat,
    )
}

/// The field with a blank in every cell that is not among `cells`.
pub open spec fn traced(field: Seq<Seq<char>>, cells: Seq<Point>) -> Seq<Seq<char>> {
    Seq::new(
        field.len(),
        |y: int|
            Seq::new(
                field[y].len(),
                |x: int|
                    if cells.contains(Point { x: x as usize, y: y as usize }) {
                        field[y][x]
                    } else {
                        ' '
                    },
            ),
    )
}

fn find_start(input: &[Vec<char>]) -> (p: Point)
    requires
        exists|q: Point| cell_is(rows_of(input@), q, 'S'),
    ensures
        is_start(rows_of(input@), p),
        p == start_of(rows_of(input@)),
{
    let ghost field = rows_of(input@);
    let mut y: usize = 0;
    while y < input.len()
        invariant
            y <= input@.len(),
            field == rows_of(input@),
            exists|q: Point| cell_is(field, q, 'S'),
            forall|q: Point| #[trigger] cell_is(field, q, 'S') ==> q.y >= y,
        decreases input@.len() - y,
    {
        let row = &input[y];
        let mut x: usize = 0;
        while x < row.len()
            invariant
                x <= row@.len(),
                y < input@.len(),
                row@ == field[y as int],
                field == rows_of(input@),
                forall|q: Point|
                    #[trigger] cell_is(field, q, 'S') ==> q.y > y || (q.y == y && q.x >= x),
            decreases row@.len() - x,
        {
            if row[x] == 'S' {
                let p = Point { x, y };
                proof {
                    assert(is_start(field, p));
                    let c = start_of(field);
                    assert(is_start(field, c));
                    assert(!comes_before(p, c));
                    assert(!comes_before(c, p));
                }
                return p;
            }
            x += 1;
        }
        y += 1;
    }
    proof {
        let q = choose|q: Point| cell_is(field, q, 'S');
        assert(cell_is(field, q, 'S'));
        assert(false);
    }
    Point { x: 0, y: 0 }
}

fn is_one_of(o: Option<char>, a: char, b: char, c: char) -> (r: bool)
    ensures
        r == one_of(o, a, b, c),
{
    match o {
        Some(x) => x == a || x == b || x == c,
        None => false,
    }
}

fn go(
    n: (Option<char>, Option<char>, Option<char>, Option<char>),
    cur: &Point,
    d: u8,
    Ghost(field): Ghost<Seq<Seq<char>>>,
    Ghost(visited): Ghost<Seq<Point>>,
) -> (r: Option<Point>)
    requires
        in_field(field, *cur),
        field.len() <= usize::MAX,
        field[cur.y as int].len() <= usize::MAX,
        n == around(field, visited, *cur),
    ensures
        r == open_towards(field, visited, *cur, d as int),
{
    if d == 0 && is_one_of(n.0, 'F', 'L', '-') {
        Some(Point { x: cur.x - 1, y: cur.y })
    } else if d == 1 && is_one_of(n.1, 'J', '-', '7') {
        Some(Point { x: cur.x + 1, y: cur.y })
    } else if d == 2 && is_one_of(n.2, 'F', '7', '|') {
        Some(Point { x: cur.x, y: cur.y - 1 })
    } else if d == 3 && is_one_of(n.3, 'L', 'J', '|') {
        Some(Point { x: cur.x, y: cur.y + 1 })
    } else {
        None
    }
}

/// The cell that the walk goes to from `cur`, if there is one.
pub fn next_of(field: &Vec<Vec<char>>, visited: &Vec<Point>, cur: &Point) -> (r: Option<Point>)
    requires
        in_field(rows_of(field@), *cur),
    ensures
        r == next_cell(rows_of(field@), visited@, *cur),
{
    let n = get_neighbours_not_visited(cur, field.as_slice(), visited);
    let height = field.len();
    let width = field[cur.y].len();
    let kind = field[cur.y][cur.x];
    let (first, second): (u8, u8) = if kind == '|' {
        (2, 3)
    } else if kind == '-' {
        (0, 1)
    } else if kind == 'F' {
        (1, 3)
    } else if kind == 'J' {
        (2, 0)
    } else if kind == '7' {
        (0, 3)
    } else if kind == 'L' {
        (1, 2)
    } else {
        return None;
    };
    let a = go(n, cur, first, Ghost(rows_of(field@)), Ghost(visited@));
    if a.is_some() {
        a
    } else {
        go(n, cur, second, Ghost(rows_of(field@)), Ghost(visited@))
    }
}

fn trace(field: &Vec<Vec<char>>, visited: &Vec<Point>) -> (r: Vec<Vec<char>>)
    ensures
        rows_of(r@) == traced(rows_of(field@), visited@),
{
    let mut result: Vec<Vec<char>> = Vec::new();
    let mut y: usize = 0;
    while y < field.len()
        invariant
            y <= field@.len(),
            result@.len() == y,
            forall|b: int|
                0 <= b < y ==> (#[trigger] result@[b])@ == traced(rows_of(field@), visited@)[b],
        decreases field@.len() - y,
    {
        let row = &field[y];
        let mut line: Vec<char> = Vec::new();
        let mut x: usize = 0;
        while x < row.len()
            invariant
                x <= row@.len(),
                y < field@.len(),
                row@ == rows_of(field@)[y as int],
                line@.len() == x,
                forall|a: int|
                    0 <= a < x ==> #[trigger] line@[a] == traced(rows_of(field@), visited@)[y as int][a],
            decreases row@.len() - x,
        {
            if was_visited(visited, Point { x, y }) {
                line.push(row[x]);
            } else {
                line.push(' ');
            }
            x += 1;
        }
        assert(line@ =~= traced(rows_of(field@), visited@)[y as int]);
        result.push(line);
        y += 1;
    }
    assert(rows_of(result@) =~= traced(rows_of(field@), visited@));
    result
}

/// Follows the loop of pipes from the start mark and returns half its
/// length, rounded up, together with the field cleared of everything that
/// the walk did not leave behind.
pub fn solve(input: &[Vec<char>]) -> (r: (i32, Vec<Vec<char>>))
    requires
        even_field(rows_of(input@)),
        exists|q: Point| cell_is(rows_of(input@), q, 'S'),
        hidden_pipe(
            around(rows_of(input@), Seq::empty(), start_of(rows_of(input@))),
        ).is_some(),
        loop_path(rows_of(input@)).len() < i32::MAX,
    ensures
        r.0 == (loop_path(rows_of(input@)).len() + 1) / 2,
        rows_of(r.1@) == traced(piped(rows_of(input@)), loop_path(rows_of(input@))),
{
    let ghost given = rows_of(input@);
    let start = find_start(input);
    assert(in_field(given, start));
    let field = interpolate(&start, input);
    let ghost f = rows_of(field@);
    assert(f == piped(given));
    assert(even_field(f)) by {
        assert forall|y: int| 0 <= y < f.len() implies (#[trigger] f[y]).len() == f[0].len() by {
            assert(given[y].len() == given[0].len());
        }
    }
    let h = input.len();
    let w = input[0].len();
    assert(w == given[0].len());
    assert(0 <= h * w <= 0xffff_ffff_ffff_ffff * 0xffff_ffff_ffff_ffff) by (nonlinear_arith)
        requires
            0 <= h <= 0xffff_ffff_ffff_ffff,
            0 <= w <= 0xffff_ffff_ffff_ffff,
    ;
    let mut fuel: u128 = (h as u128) * (w as u128);
    let ghost path = loop_path(given);
    let mut visited: Vec<Point> = Vec::new();
    let mut current = start;
    let mut going = true;
    assert(visited@ =~= Seq::empty());
    while going
        invariant
            f == rows_of(field@),
            even_field(f),
            in_field(f, current),
            going ==> walk(f, visited@, current, start, fuel as nat) == path,
            !going ==> visited@ == path,
        decreases fuel + if going { 1int } else { 0int },
    {
        if fuel == 0 || (current == start && visited.len() > 0) {
            going = false;
        } else {
            match next_of(&field, &visited, &current) {
                None => {
                    going = false;
                },
                Some(n) => {
                    assert(in_field(f, n)) by {
                        assert(f[n.y as int].len() == f[0].len());
                        assert(f[current.y as int].len() == f[0].len());
                        if n.y > 0 {
                            assert(f[n.y - 1].len() == f[0].len());
                        }
                        if n.y + 1 < f.len() {
                            assert(f[n.y + 1].len() == f[0].len());
                        }
                    }
                    visited.push(current);
                    current = n;
                    fuel = fuel - 1;
                },
            }
        }
    }
    let pipes = trace(&field, &visited);
    let half: i32 = ((visited.len() + 1) / 2) as i32;
    (half, pipes)
}

} // verus!
