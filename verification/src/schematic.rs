//! An engine schematic: a grid of digits, dots and symbols.

use crate::text::chars_of;
use vstd::prelude::*;

verus! {

/// The rows of a schematic given as strings.
pub open spec fn string_rows(lines: Seq<String>) -> Seq<Seq<char>> {
    Seq::new(lines.len(), |i: int| lines[i]@)
}

/// The rows of a schematic given as vectors of characters.
pub open spec fn char_rows(grid: Seq<Vec<char>>) -> Seq<Seq<char>> {
    Seq::new(grid.len(), |i: int| grid[i]@)
}

/// The cell `(x, y)` lies in the grid, and the rows above and below it are
/// at least as long as its own row.
pub open spec fn cell_in(grid: Seq<Seq<char>>, x: int, y: int) -> bool {
    &&& 0 <= y < grid.len()
    &&& 0 <= x < grid[y].len()
    &&& y > 0 ==> grid[y - 1].len() >= grid[y].len()
    &&& y + 1 < grid.len() ==> grid[y + 1].len() >= grid[y].len()
}

/// The cell at column `x` of row `y` if `wanted`, and nothing otherwise.
pub open spec fn cell_if(wanted: bool, grid: Seq<Seq<char>>, x: int, y: int) -> Seq<char> {
    if wanted {
        seq![grid[y][x]]
    } else {
        Seq::empty()
    }
}

/// The up to eight cells around `(x, y)`: left, right, above, below, then
/// the four corners, upper ones first and left before right.
pub open spec fn neighbours(grid: Seq<Seq<char>>, x: int, y: int) -> Seq<char> {
    let left = x > 0;
    let right = x < grid[y].len() - 1;
    let up = y > 0;
    let down = y < grid.len() - 1;
    cell_if(left, grid, x - 1, y) + cell_if(right, grid, x + 1, y) + cell_if(up, grid, x, y - 1)
        + cell_if(down, grid, x, y + 1) + cell_if(left && up, grid, x - 1, y - 1) + cell_if(
        right && up,
        grid,
        x + 1,
        y - 1,
    ) + cell_if(left && down, grid, x - 1, y + 1) + cell_if(right && down, grid, x + 1, y + 1)
}

/// The rows of the schematic as vectors of characters.
pub fn to_grid(input: &[String]) -> (grid: Vec<Vec<char>>)
    ensures
        char_rows(grid@) == string_rows(input@),
{
    let mut grid: Vec<Vec<char>> = Vec::new();
    let mut i: usize = 0;
    while i < input.len()
        invariant
            i <= input@.len(),
            grid@.len() == i,
            forall|k: int| 0 <= k < i ==> (#[trigger] grid@[k])@ == input@[k]@,
        decreases input@.len() - i,
    {
        grid.push(chars_of(input[i].as_str()));
        i += 1;
    }
    assert(char_rows(grid@) =~= string_rows(input@));
    grid
}

fn push_if(out: &mut Vec<char>, wanted: bool, grid: &Vec<Vec<char>>, x: usize, y: usize)
    requires
        wanted ==> y < grid@.len() && x < grid@[y as int]@.len(),
    ensures
        final(out)@ == old(out)@ + cell_if(wanted, char_rows(grid@), x as int, y as int),
{
    if wanted {
        out.push(grid[y][x]);
        assert(out@ =~= old(out)@ + seq![grid@[y as int]@[x as int]]);
    } else {
        assert(out@ =~= old(out)@ + Seq::<char>::empty());
    }
}

/// The cells around `(x, y)` of a grid of characters.
pub fn neighbours_in(x: usize, y: usize, grid: &Vec<Vec<char>>) -> (r: Vec<char>)
    requires
        cell_in(char_rows(grid@), x as int, y as int),
    ensures
        r@ == neighbours(char_rows(grid@), x as int, y as int),
{
    let left = x > 0;
    let right = x < grid[y].len() - 1;
    let up = y > 0;
    let down = y < grid.len() - 1;
    let mut out: Vec<char> = Vec::new();
    let xl = if left {
        x - 1
    } else {
        0
    };
    let xr = if right {
        x + 1
    } else {
        0
    };
    let yu = if up {
        y - 1
    } else {
        0
    };
    let yd = if down {
        y + 1
    } else {
        0
    };
    let ghost g = char_rows(grid@);
    assert(out@ =~= Seq::<char>::empty());
    push_if(&mut out, left, grid, xl, y);
    push_if(&mut out, right, grid, xr, y);
    push_if(&mut out, up, grid, x, yu);
    push_if(&mut out, down, grid, x, yd);
    push_if(&mut out, left && up, grid, xl, yu);
    push_if(&mut out, right && up, grid, xr, yu);
    push_if(&mut out, left && down, grid, xl, yd);
    push_if(&mut out, right && down, grid, xr, yd);
    assert(out@ =~= neighbours(g, x as int, y as int));
    out
}

/// The up to eight cells around `(x, y)`: left, right, above, below, then
/// the four corners.
pub fn get_neighbours(x: usize, y: usize, input: &[String]) -> (r: Vec<char>)
    requires
        cell_in(string_rows(input@), x as int, y as int),
    ensures
        r@ == neighbours(string_rows(input@), x as int, y as int),
{
    let grid = to_grid(input);
    neighbours_in(x, y, &grid)
}

pub open spec fn is_digit_char(c: char) -> bool {
    '0' <= c <= '9'
}

/// Number of digits that stand directly before position `x` of the row.
pub open spec fn digits_before(row: Seq<char>, x: int) -> int
    decreases x,
{
    if 0 < x <= row.len() && is_digit_char(row[x - 1]) {
        1 + digits_before(row, x - 1)
    } else {
        0
    }
}

/// Number of digits that stand at position `s` of the row and directly
/// after it.
pub open spec fn digits_from(row: Seq<char>, s: int) -> int
    decreases row.len() - s,
{
    if 0 <= s < row.len() && is_digit_char(row[s]) {
        1 + digits_from(row, s + 1)
    } else {
        0
    }
}

/// The number that the characters from `s` up to, not including, `k` write.
pub open spec fn run_value(row: Seq<char>, s: int, k: int) -> int
    decreases k - s,
{
    if k <= s {
        0
    } else {
        run_value(row, s, k - 1) * 10 + (row[k - 1] as int - 48)
    }
}

/// The number that starts at position `s`, as a list: empty when no digit
/// stands there or the number is no `i32`.
pub open spec fn number_at(row: Seq<char>, s: int) -> Seq<i32> {
    let n = digits_from(row, s);
    let v = run_value(row, s, s + n);
    if n > 0 && v <= i32::MAX {
        seq![v as i32]
    } else {
        Seq::empty()
    }
}

/// The number whose digits reach up to position `x` from the left; it goes
/// on through `x` and beyond as long as digits follow.
pub open spec fn number_left(row: Seq<char>, x: int) -> Seq<i32> {
    number_at(row, x - digits_before(row, x))
}

/// The number that starts right after position `x`.
pub open spec fn number_right(row: Seq<char>, x: int) -> Seq<i32> {
    number_at(row, x + 1)
}

/// The numbers beside position `x` in a row above or below: the one number
/// through `x` when a digit stands there, else the numbers on either side.
pub open spec fn numbers_beside(row: Seq<char>, x: int) -> Seq<i32> {
    if is_digit_char(row[x]) {
        number_left(row, x)
    } else {
        number_left(row, x) + number_right(row, x)
    }
}

/// The numbers that touch the cell `(x, y)`: those of its own row, then
/// those of the row above, then those of the row below.
pub open spec fn neighbour_numbers(grid: Seq<Seq<char>>, x: int, y: int) -> Seq<i32> {
    number_left(grid[y], x) + number_right(grid[y], x) + (if y > 0 {
        numbers_beside(grid[y - 1], x)
    } else {
        Seq::empty()
    }) + (if y < grid.len() - 1 {
        numbers_beside(grid[y + 1], x)
    } else {
        Seq::empty()
    })
}

/// The cell `(x, y)` lies in the grid or just past the end of its row, and
/// the rows above and below reach column `x`.
pub open spec fn numbers_readable(grid: Seq<Seq<char>>, x: int, y: int) -> bool {
    &&& 0 <= y < grid.len()
    &&& 0 <= x <= grid[y].len()
    &&& y > 0 ==> x < grid[y - 1].len()
    &&& y + 1 < grid.len() ==> x < grid[y + 1].len()
}

proof fn lemma_digits_from(row: Seq<char>, s: int, k: int)
    requires
        0 <= s <= k <= row.len(),
        forall|j: int| s <= j < k ==> is_digit_char(#[trigger] row[j]),
        k == row.len() || !is_digit_char(row[k]),
    ensures
        digits_from(row, s) == k - s,
    decreases k - s,
{
    if s < k {
        lemma_digits_from(row, s + 1, k);
    }
}

proof fn lemma_run_value_grows(row: Seq<char>, s: int, j: int, k: int)
    requires
        0 <= s <= j <= k <= row.len(),
        forall|i: int| s <= i < k ==> is_digit_char(#[trigger] row[i]),
    ensures
        0 <= run_value(row, s, j) <= run_value(row, s, k),
    decreases k - s,
{
    if j < k {
        lemma_run_value_grows(row, s, j, k - 1);
        assert(is_digit_char(row[k - 1]));
    } else if s < j {
        lemma_run_value_grows(row, s, j - 1, k - 1);
        assert(is_digit_char(row[j - 1]));
    }
}

fn is_digit(c: char) -> (b: bool)
    ensures
        b == is_digit_char(c),
{
    '0' <= c && c <= '9'
}

/// The number that starts at position `start` of the row, if any.
fn read_number(row: &Vec<char>, start: usize, out: &mut Vec<i32>)
    requires
        start <= row@.len(),
    ensures
        final(out)@ == old(out)@ + number_at(row@, start as int),
{
    let n = row.len();
    let mut k: usize = start;
    let mut value: i64 = 0;
    let mut fits = true;
    while k < n && is_digit(row[k])
        invariant
            start <= k <= n,
            n == row@.len(),
            forall|j: int| start <= j < k ==> is_digit_char(#[trigger] row@[j]),
            fits ==> value == run_value(row@, start as int, k as int),
            fits ==> 0 <= value <= i32::MAX,
            !fits ==> run_value(row@, start as int, k as int) > i32::MAX,
        decreases n - k,
    {
        proof {
            lemma_run_value_grows(row@, start as int, k as int, k + 1);
        }
        if fits {
            value = value * 10 + (row[k] as u32 - 48) as i64;
            if value > i32::MAX as i64 {
                fits = false;
            }
        }
        k += 1;
    }
    proof {
        lemma_digits_from(row@, start as int, k as int);
    }
    if k > start && fits {
        out.push(value as i32);
        assert(out@ =~= old(out)@ + number_at(row@, start as int));
    } else {
        assert(out@ =~= old(out)@ + number_at(row@, start as int));
    }
}

/// Where the digits that reach up to position `x` begin.
fn run_start(row: &Vec<char>, x: usize) -> (s: usize)
    requires
        x <= row@.len(),
    ensures
        s == x - digits_before(row@, x as int),
        s <= x,
{
    let mut s: usize = x;
    while s > 0 && is_digit(row[s - 1])
        invariant
            s <= x <= row@.len(),
            digits_before(row@, x as int) == (x - s) + digits_before(row@, s as int),
        decreases s,
    {
        s -= 1;
    }
    s
}

fn read_beside(row: &Vec<char>, x: usize, out: &mut Vec<i32>)
    requires
        x < row@.len(),
    ensures
        final(out)@ == old(out)@ + numbers_beside(row@, x as int),
{
    let n = row.len();
    let s = run_start(row, x);
    read_number(row, s, out);
    if !is_digit(row[x]) {
        let ghost mid = out@;
        read_number(row, x + 1, out);
        assert(out@ =~= old(out)@ + (number_left(row@, x as int) + number_right(row@, x as int)));
    }
}

/// The numbers that touch the cell `(x, y)` of a grid of characters.
pub fn neighbour_numbers_in(x: usize, y: usize, grid: &Vec<Vec<char>>) -> (r: Vec<i32>)
    requires
        numbers_readable(char_rows(grid@), x as int, y as int),
    ensures
        r@ == neighbour_numbers(char_rows(grid@), x as int, y as int),
{
    let ghost g = char_rows(grid@);
    let mut out: Vec<i32> = Vec::new();
    let row = &grid[y];
    assert(row@ == g[y as int]);
    let s = run_start(row, x);
    read_number(row, s, &mut out);
    let ghost first = out@;
    if x < row.len() {
        read_number(row, x + 1, &mut out);
    } else {
        assert(number_right(row@, x as int) =~= Seq::<i32>::empty());
    }
    let ghost own = out@;
    assert(own =~= number_left(g[y as int], x as int) + number_right(g[y as int], x as int));
    if y > 0 {
        assert(grid@[y - 1]@ == g[y - 1]);
        read_beside(&grid[y - 1], x, &mut out);
    }
    let ghost upper = out@;
    if y < grid.len() - 1 {
        assert(grid@[y + 1]@ == g[y + 1]);
        read_beside(&grid[y + 1], x, &mut out);
    }
    assert(out@ =~= neighbour_numbers(g, x as int, y as int));
    out
}

/// The numbers that touch the cell `(x, y)`: the number ending left of it,
/// the number starting right of it, and the numbers of the rows above and
/// below that reach one of the columns `x - 1`, `x` and `x + 1`.
pub fn get_neighbour_numbers(x: usize, y: usize, input: &[String]) -> (r: Vec<i32>)
    requires
        numbers_readable(string_rows(input@), x as int, y as int),
    ensures
        r@ == neighbour_numbers(string_rows(input@), x as int, y as int),
{
    let grid = to_grid(input);
    neighbour_numbers_in(x, y, &grid)
}

/// Every row is as long as the first.
pub open spec fn even_rows(grid: Seq<Seq<char>>) -> bool {
    forall|y: int| 0 <= y < grid.len() ==> (#[trigger] grid[y]).len() == grid[0].len()
}

/// What the cell `(x, y)` adds as a gear: the product of the numbers that
/// touch it when it is a `*` touched by exactly two numbers, else nothing.
pub open spec fn gear_ratio(grid: Seq<Seq<char>>, x: int, y: int) -> int {
    let numbers = neighbour_numbers(grid, x, y);
    if grid[y][x] == '*' && numbers.len() == 2 {
        numbers[0] * numbers[1]
    } else {
        0
    }
}

/// Sum of the gear ratios of the first `k` cells of row `y`.
pub open spec fn gear_row_sum(grid: Seq<Seq<char>>, y: int, k: int) -> int
    decreases k,
{
    if k <= 0 {
        0
    } else {
        gear_row_sum(grid, y, k - 1) + gear_ratio(grid, k - 1, y)
    }
}

/// Sum of the gear ratios of the first `m` rows.
pub open spec fn gear_sum(grid: Seq<Seq<char>>, m: int) -> int
    decreases m,
{
    if m <= 0 {
        0
    } else {
        gear_sum(grid, m - 1) + gear_row_sum(grid, m - 1, grid[m - 1].len() as int)
    }
}

proof fn lemma_number_at_sign(row: Seq<char>, s: int)
    requires
        0 <= s <= row.len(),
    ensures
        forall|i: int| 0 <= i < number_at(row, s).len() ==> #[trigger] number_at(row, s)[i] >= 0,
{
    let n = digits_from(row, s);
    lemma_digits_run(row, s);
    lemma_run_value_grows(row, s, s, s + n);
}

proof fn lemma_digits_run(row: Seq<char>, s: int)
    requires
        0 <= s <= row.len(),
    ensures
        0 <= digits_from(row, s),
        s + digits_from(row, s) <= row.len(),
        forall|j: int| s <= j < s + digits_from(row, s) ==> is_digit_char(#[trigger] row[j]),
    decreases row.len() - s,
{
    if s < row.len() && is_digit_char(row[s]) {
        lemma_digits_run(row, s + 1);
    }
}

proof fn lemma_digits_before(row: Seq<char>, x: int)
    requires
        0 <= x <= row.len(),
    ensures
        0 <= digits_before(row, x) <= x,
    decreases x,
{
    if 0 < x && is_digit_char(row[x - 1]) {
        lemma_digits_before(row, x - 1);
    }
}

proof fn lemma_gear_ratio_sign(grid: Seq<Seq<char>>, x: int, y: int)
    requires
        numbers_readable(grid, x, y),
    ensures
        0 <= gear_ratio(grid, x, y),
{
    let numbers = neighbour_numbers(grid, x, y);
    if grid[y][x] == '*' && numbers.len() == 2 {
        lemma_neighbour_numbers_sign(grid, x, y);
        assert(numbers[0] * numbers[1] >= 0) by (nonlinear_arith)
            requires
                numbers[0] >= 0,
                numbers[1] >= 0,
        ;
    }
}

proof fn lemma_beside_sign(row: Seq<char>, x: int)
    requires
        0 <= x < row.len(),
    ensures
        forall|i: int|
            0 <= i < numbers_beside(row, x).len() ==> #[trigger] numbers_beside(row, x)[i] >= 0,
{
    lemma_digits_before(row, x);
    lemma_number_at_sign(row, x - digits_before(row, x));
    lemma_number_at_sign(row, x + 1);
}

proof fn lemma_neighbour_numbers_sign(grid: Seq<Seq<char>>, x: int, y: int)
    requires
        numbers_readable(grid, x, y),
    ensures
        forall|i: int|
            0 <= i < neighbour_numbers(grid, x, y).len() ==> #[trigger] neighbour_numbers(
                grid,
                x,
                y,
            )[i] >= 0,
{
    lemma_digits_before(grid[y], x);
    lemma_number_at_sign(grid[y], x - digits_before(grid[y], x));
    if x < grid[y].len() {
        lemma_number_at_sign(grid[y], x + 1);
    }
    if y > 0 {
        lemma_beside_sign(grid[y - 1], x);
    }
    if y < grid.len() - 1 {
        lemma_beside_sign(grid[y + 1], x);
    }
}

proof fn lemma_gear_row_grows(grid: Seq<Seq<char>>, y: int, j: int, k: int)
    requires
        even_rows(grid),
        0 <= y < grid.len(),
        0 <= j <= k <= grid[y].len(),
    ensures
        0 <= gear_row_sum(grid, y, j) <= gear_row_sum(grid, y, k),
    decreases k,
{
    if j < k {
        lemma_gear_row_grows(grid, y, j, k - 1);
        lemma_gear_ratio_sign(grid, k - 1, y);
    } else if j > 0 {
        lemma_gear_row_grows(grid, y, j - 1, k - 1);
        lemma_gear_ratio_sign(grid, j - 1, y);
    }
}

proof fn lemma_gear_sum_grows(grid: Seq<Seq<char>>, m: int, n: int)
    requires
        even_rows(grid),
        0 <= m <= n <= grid.len(),
    ensures
        0 <= gear_sum(grid, m) <= gear_sum(grid, n),
    decreases n,
{
    if m < n {
        lemma_gear_sum_grows(grid, m, n - 1);
        lemma_gear_row_grows(grid, n - 1, 0, grid[n - 1].len() as int);
    } else if m > 0 {
        lemma_gear_sum_grows(grid, m - 1, n - 1);
        lemma_gear_row_grows(grid, m - 1, 0, grid[m - 1].len() as int);
    }
}

/// The sum of the gear ratios: for every `*` that exactly two numbers
/// touch, the product of the two.
pub fn part2(input: &[String]) -> (r: i32)
    requires
        even_rows(string_rows(input@)),
        gear_sum(string_rows(input@), input@.len() as int) <= i32::MAX,
    ensures
        r == gear_sum(string_rows(input@), input@.len() as int),
{
    let grid = to_grid(input);
    let ghost g = char_rows(grid@);
    let h = grid.len();
    let mut total: i32 = 0;
    let mut y: usize = 0;
    while y < h
        invariant
            y <= h,
            h == grid@.len(),
            h == g.len(),
            g == char_rows(grid@),
            even_rows(g),
            gear_sum(g, h as int) <= i32::MAX,
            total == gear_sum(g, y as int),
        decreases h - y,
    {
        let row = &grid[y];
        assert(row@ == g[y as int]);
        let w = row.len();
        let mut x: usize = 0;
        let ghost base = total as int;
        while x < w
            invariant
                x <= w,
                y < h,
                h == grid@.len(),
                h == g.len(),
                g == char_rows(grid@),
                row@ == g[y as int],
                w == row@.len(),
                even_rows(g),
                gear_sum(g, h as int) <= i32::MAX,
                base == gear_sum(g, y as int),
                total == base + gear_row_sum(g, y as int, x as int),
            decreases w - x,
        {
            proof {
                lemma_gear_sum_grows(g, y + 1, h as int);
                lemma_gear_sum_grows(g, y as int, y as int);
                lemma_gear_row_grows(g, y as int, x + 1, w as int);
                lemma_gear_row_grows(g, y as int, x as int, x as int);
                lemma_gear_ratio_sign(g, x as int, y as int);
                lemma_neighbour_numbers_sign(g, x as int, y as int);
            }
            if row[x] == '*' {
                let numbers = neighbour_numbers_in(x, y, &grid);
                if numbers.len() == 2 {
                    let a = numbers[0];
                    let b = numbers[1];
                    assert(a * b == gear_ratio(g, x as int, y as int));
                    total = total + a * b;
                }
            }
            x += 1;
        }
        y += 1;
    }
    total
}

/// A symbol: anything but a dot and a digit.
pub open spec fn is_symbol(c: char) -> bool {
    c != '.' && !is_digit_char(c)
}

/// One of the cells around `(x, y)` holds a symbol.
pub open spec fn symbol_near(grid: Seq<Seq<char>>, x: int, y: int) -> bool {
    exists|i: int|
        0 <= i < neighbours(grid, x, y).len() && is_symbol(#[trigger] neighbours(grid, x, y)[i])
}

/// A symbol is near one of the cells from `s` up to, not including, `e` of
/// row `y`.
pub open spec fn touched(grid: Seq<Seq<char>>, s: int, e: int, y: int) -> bool
    decreases e - s,
{
    if e <= s {
        false
    } else {
        touched(grid, s, e - 1, y) || symbol_near(grid, e - 1, y)
    }
}

/// The number written by the digits that end at position `x`.
pub open spec fn number_up_to(row: Seq<char>, x: int) -> int {
    run_value(row, x + 1 - digits_before(row, x + 1), x + 1)
}

/// The last digit of a number stands at position `x`.
pub open spec fn ends_number(row: Seq<char>, x: int) -> bool {
    is_digit_char(row[x]) && (x == row.len() - 1 || !is_digit_char(row[x + 1]))
}

/// What the cell `(x, y)` adds as a part number: the number that ends
/// there, if a symbol is near one of its digits, else nothing.
pub open spec fn part_number(grid: Seq<Seq<char>>, x: int, y: int) -> int {
    if ends_number(grid[y], x) && touched(
        grid,
        x + 1 - digits_before(grid[y], x + 1),
        x + 1,
        y,
    ) {
        number_up_to(grid[y], x)
    } else {
        0
    }
}

/// Sum of the part numbers of the first `k` cells of row `y`.
pub open spec fn part_row_sum(grid: Seq<Seq<char>>, y: int, k: int) -> int
    decreases k,
{
    if k <= 0 {
        0
    } else {
        part_row_sum(grid, y, k - 1) + part_number(grid, k - 1, y)
    }
}

/// Sum of the part numbers of the first `m` rows.
pub open spec fn part_sum(grid: Seq<Seq<char>>, m: int) -> int
    decreases m,
{
    if m <= 0 {
        0
    } else {
        part_sum(grid, m - 1) + part_row_sum(grid, m - 1, grid[m - 1].len() as int)
    }
}

/// Every number of the grid, and every beginning of one, is an `i32`.
pub open spec fn numbers_fit(grid: Seq<Seq<char>>) -> bool {
    forall|y: int, x: int|
        0 <= y < grid.len() && 0 <= x < grid[y].len() && is_digit_char(grid[y][x])
            ==> #[trigger] number_up_to(grid[y], x) <= i32::MAX
}

proof fn lemma_digits_before_run(row: Seq<char>, x: int)
    requires
        0 <= x <= row.len(),
    ensures
        0 <= digits_before(row, x) <= x,
        forall|j: int| x - digits_before(row, x) <= j < x ==> is_digit_char(#[trigger] row[j]),
    decreases x,
{
    if 0 < x && is_digit_char(row[x - 1]) {
        lemma_digits_before_run(row, x - 1);
    }
}

proof fn lemma_part_number_sign(grid: Seq<Seq<char>>, x: int, y: int)
    requires
        0 <= y < grid.len(),
        0 <= x < grid[y].len(),
    ensures
        0 <= part_number(grid, x, y),
{
    let row = grid[y];
    lemma_digits_before_run(row, x + 1);
    let s = x + 1 - digits_before(row, x + 1);
    lemma_run_value_grows(row, s, s, x + 1);
}

proof fn lemma_part_row_grows(grid: Seq<Seq<char>>, y: int, j: int, k: int)
    requires
        0 <= y < grid.len(),
        0 <= j <= k <= grid[y].len(),
    ensures
        0 <= part_row_sum(grid, y, j) <= part_row_sum(grid, y, k),
    decreases k,
{
    if j < k {
        lemma_part_row_grows(grid, y, j, k - 1);
        lemma_part_number_sign(grid, k - 1, y);
    } else if j > 0 {
        lemma_part_row_grows(grid, y, j - 1, k - 1);
        lemma_part_number_sign(grid, j - 1, y);
    }
}

proof fn lemma_part_sum_grows(grid: Seq<Seq<char>>, m: int, n: int)
    requires
        0 <= m <= n <= grid.len(),
    ensures
        0 <= part_sum(grid, m) <= part_sum(grid, n),
    decreases n,
{
    if m < n {
        lemma_part_sum_grows(grid, m, n - 1);
        lemma_part_row_grows(grid, n - 1, 0, grid[n - 1].len() as int);
    } else if m > 0 {
        lemma_part_sum_grows(grid, m - 1, n - 1);
        lemma_part_row_grows(grid, m - 1, 0, grid[m - 1].len() as int);
    }
}

fn has_symbol(cells: &Vec<char>) -> (b: bool)
    ensures
        b == (exists|i: int| 0 <= i < cells@.len() && is_symbol(#[trigger] cells@[i])),
{
    let mut i: usize = 0;
    while i < cells.len()
        invariant
            i <= cells@.len(),
            forall|k: int| 0 <= k < i ==> !is_symbol(#[trigger] cells@[k]),
        decreases cells@.len() - i,
    {
        if cells[i] != '.' && !is_digit(cells[i]) {
            return true;
        }
        i += 1;
    }
    false
}

/// The sum of the part numbers: the numbers of which a digit has a symbol
/// among the cells around it.
pub fn part1(input: &[String]) -> (r: i32)
    requires
        even_rows(string_rows(input@)),
        numbers_fit(string_rows(input@)),
        part_sum(string_rows(input@), input@.len() as int) <= i32::MAX,
    ensures
        r == part_sum(string_rows(input@), input@.len() as int),
{
    let grid = to_grid(input);
    let ghost g = char_rows(grid@);
    let h = grid.len();
    let mut total: i32 = 0;
    let mut y: usize = 0;
    while y < h
        invariant
            y <= h,
            h == grid@.len(),
            h == g.len(),
            g == char_rows(grid@),
            even_rows(g),
            numbers_fit(g),
            part_sum(g, h as int) <= i32::MAX,
            total == part_sum(g, y as int),
        decreases h - y,
    {
        let row = &grid[y];
        assert(row@ == g[y as int]);
        let w = row.len();
        let mut x: usize = 0;
        let mut number: i32 = 0;
        let mut adjacent = false;
        let ghost base = total as int;
        while x < w
            invariant
                x <= w,
                y < h,
                h == grid@.len(),
                h == g.len(),
                g == char_rows(grid@),
                row@ == g[y as int],
                w == row@.len(),
                even_rows(g),
                numbers_fit(g),
                part_sum(g, h as int) <= i32::MAX,
                base == part_sum(g, y as int),
                total == base + part_row_sum(g, y as int, x as int),
                x < w && is_digit_char(row@[x as int]) && digits_before(row@, x as int) > 0 ==> {
                    &&& number == run_value(
                        row@,
                        x - digits_before(row@, x as int),
                        x as int,
                    )
                    &&& adjacent == touched(g, x - digits_before(row@, x as int), x as int, y as int)
                },
                !(x < w && is_digit_char(row@[x as int]) && digits_before(row@, x as int) > 0)
                    ==> number == 0 && !adjacent,
            decreases w - x,
        {
            proof {
                lemma_part_sum_grows(g, y + 1, h as int);
                lemma_part_sum_grows(g, y as int, y as int);
                lemma_part_row_grows(g, y as int, x + 1, w as int);
                lemma_part_row_grows(g, y as int, x as int, x as int);
                lemma_part_number_sign(g, x as int, y as int);
                lemma_digits_before_run(row@, x as int);
                lemma_digits_before_run(row@, x + 1);
            }
            let c = row[x];
            if is_digit(c) {
                let ghost s = x - digits_before(row@, x as int);
                assert(digits_before(row@, x + 1) == 1 + digits_before(row@, x as int));
                assert(number == run_value(row@, s, x as int));
                assert(adjacent == touched(g, s, x as int, y as int));
                assert(number_up_to(row@, x as int) == run_value(row@, s, x + 1));
                assert(number_up_to(g[y as int], x as int) <= i32::MAX);
                proof {
                    lemma_run_value_grows(row@, s, x as int, x + 1);
                }
                number = number * 10 + (c as u32 - 48) as i32;
                let around = neighbours_in(x, y, &grid);
                let near = has_symbol(&around);
                assert(near == symbol_near(g, x as int, y as int));
                adjacent = adjacent || near;
                assert(adjacent == touched(g, s, x + 1, y as int));
                if x == w - 1 || !is_digit(row[x + 1]) {
                    if adjacent {
                        total = total + number;
                    }
                    adjacent = false;
                    number = 0;
                }
            }
            x += 1;
        }
        y += 1;
    }
    total
}

} // verus!
