//! A dense, rectangular, mutable grid of cells stored in row-major order.
use vstd::prelude::*;
use vstd::laws_eq::obeys_concrete_eq;
use vstd::arithmetic::div_mod::lemma_fundamental_div_mod_converse;

use crate::position::Position;

verus! {

/// Why a block of text could not be read as a grid.
#[derive(Debug, Clone, Copy, PartialEq, Eq, Structural)]
pub enum ParseError {
    /// The text is empty, or its lines differ in length.
    MalformedGrid,
    /// The cell mapping refused one of the characters.
    InvalidCell,
}

/// The mathematical content of a grid: its size and its cells, row by row.
pub struct GridView<T> {
    pub width: nat,
    pub height: nat,
    pub cells: Seq<T>,
}

impl<T> GridView<T> {
    /// The cell sequence holds exactly one value per address, and every
    /// address is a `Position`.
    pub open spec fn wf(self) -> bool {
        &&& self.cells.len() == self.width * self.height
        &&& self.width <= u32::MAX
        &&& self.height <= u32::MAX
    }

    pub open spec fn in_bounds(self, p: Position) -> bool {
        p.x < self.width && p.y < self.height
    }

    /// Where the cell at `p` sits in `cells`.
    pub open spec fn index_of(self, p: Position) -> int {
        p.x + p.y * self.width
    }

    pub open spec fn cell(self, p: Position) -> T {
        self.cells[self.index_of(p)]
    }

    /// The same grid with the cell at `p` replaced by `v`.
    pub open spec fn with_cell(self, p: Position, v: T) -> GridView<T> {
        GridView { width: self.width, height: self.height, cells: self.cells.update(self.index_of(p), v) }
    }

    /// `found` lists, in row-major order, exactly the addresses whose cell is `v`.
    pub open spec fn finds(self, v: T, found: Seq<Position>) -> bool {
        &&& forall|p: Position| #[trigger] found.contains(p) <==> (self.in_bounds(p) && self.cell(p) == v)
        &&& forall|i: int, j: int|
            0 <= i < j < found.len() ==> self.index_of(#[trigger] found[i]) < self.index_of(#[trigger] found[j])
    }
}

/// A `width` by `height` grid of cells of type `T`.
#[derive(Debug, Clone)]
pub struct Grid<T> {
    width: u32,
    height: u32,
    entities: Vec<T>,
}

impl<T> View for Grid<T> {
    type V = GridView<T>;

    closed spec fn view(&self) -> GridView<T> {
        GridView { width: self.width as nat, height: self.height as nat, cells: self.entities@ }
    }
}

/// The character at `i` is the carriage return of a `\r\n` line end.
pub open spec fn is_cr_of_crlf(text: Seq<char>, i: int) -> bool {
    text[i] == '\r' && i + 1 < text.len() && text[i + 1] == '\n'
}

/// The first `n` characters of `text`, without the carriage returns of its
/// `\r\n` line ends.
pub open spec fn kept_chars(text: Seq<char>, n: int) -> Seq<char>
    decreases n,
{
    if n <= 0 {
        Seq::empty()
    } else if is_cr_of_crlf(text, n - 1) {
        kept_chars(text, n - 1)
    } else {
        kept_chars(text, n - 1).push(text[n - 1])
    }
}

/// `text` with every line end written as a single line feed.
pub open spec fn line_text(text: Seq<char>) -> Seq<char> {
    kept_chars(text, text.len() as int)
}

/// The lines of `text`, each line end a single line feed, with one final
/// line feed taken off if there is one.
pub open spec fn text_body(text: Seq<char>) -> Seq<char> {
    let t = line_text(text);
    if t.len() > 0 && t.last() == '\n' {
        t.drop_last()
    } else {
        t
    }
}

proof fn lemma_kept_len(text: Seq<char>, n: int)
    requires
        0 <= n <= text.len(),
    ensures
        kept_chars(text, n).len() <= n,
    decreases n,
{
    if n > 0 {
        lemma_kept_len(text, n - 1);
    }
}

/// A text without carriage returns is its own line text.
proof fn lemma_kept_plain(text: Seq<char>, n: int)
    requires
        0 <= n <= text.len(),
        forall|i: int| 0 <= i < text.len() ==> text[i] != '\r',
    ensures
        kept_chars(text, n) == text.take(n),
    decreases n,
{
    if n > 0 {
        lemma_kept_plain(text, n - 1);
        assert(text.take(n) =~= text.take(n - 1).push(text[n - 1]));
    }
}

/// `body` is a non-empty block of lines of `w` characters each, with a line
/// feed between consecutive lines and none anywhere else.
pub open spec fn rectangular(body: Seq<char>, w: nat) -> bool {
    &&& w >= 1
    &&& (body.len() + 1) % (w + 1) == 0
    &&& forall|i: int| 0 <= i < body.len() ==> (#[trigger] body[i] == '\n' <==> i % (w as int + 1) == w)
}

/// The character of the `k`-th cell, in row-major order, of a rectangular
/// block whose lines are `w` characters wide.
pub open spec fn cell_char(body: Seq<char>, w: nat, k: int) -> char {
    body[(k / w as int) * (w + 1) + k % (w as int)]
}

/// `grid` is what reading `text` with `mapper` gives.
pub open spec fn parsed_from<T, F: Fn(char) -> Option<T>>(text: Seq<char>, mapper: F, grid: GridView<T>) -> bool {
    let body = text_body(text);
    &&& rectangular(body, grid.width)
    &&& grid.height == (body.len() + 1) / (grid.width + 1)
    &&& grid.wf()
    &&& forall|k: int| 0 <= k < grid.cells.len() ==>
        call_ensures(mapper, (cell_char(body, grid.width, k),), Some(#[trigger] grid.cells[k]))
}

/// `out` shows `grid` through `render`: one line per row, each ended by a line feed.
pub open spec fn rendered_as<T, F: Fn(Position, &T) -> char>(grid: GridView<T>, render: F, out: Seq<char>) -> bool {
    &&& out.len() == grid.height * (grid.width + 1)
    &&& forall|i: int| 0 <= i < out.len() && i % (grid.width as int + 1) == grid.width ==> #[trigger] out[i] == '\n'
    &&& forall|x: u32, y: u32| x < grid.width && y < grid.height ==>
        call_ensures(
            render,
            (Position { x, y }, &grid.cell(Position { x, y })),
            #[trigger] out[y * (grid.width + 1) + x],
        )
}

pub(crate) proof fn lemma_index_bounds(x: int, y: int, w: int, h: int)
    requires
        0 <= x < w,
        0 <= y < h,
    ensures
        0 <= x + y * w < w * h,
        0 <= y * (w + 1) + x < h * (w + 1),
        (y * (w + 1) + x) % (w + 1) == x,
        (x + y * w) / w == y,
        (x + y * w) % w == x,
{
    assert(0 <= x + y * w < w * h) by (nonlinear_arith)
        requires 0 <= x < w, 0 <= y < h;
    assert(0 <= y * (w + 1) + x < h * (w + 1)) by (nonlinear_arith)
        requires 0 <= x < w, 0 <= y < h;
    lemma_fundamental_div_mod_converse(y * (w + 1) + x, w + 1, y, x);
    lemma_fundamental_div_mod_converse(x + y * w, w, y, x);
}

/// A rectangular block has one width only: the length of its first line.
proof fn lemma_width_unique(body: Seq<char>, v: nat, w: nat)
    requires
        rectangular(body, v),
        w <= body.len(),
        forall|i: int| 0 <= i < w ==> body[i] != '\n',
        w == body.len() || body[w as int] == '\n',
    ensures
        v == w,
{
    assert forall|i: int| 0 <= i < v && i < body.len() implies body[i] != '\n' by {
        assert(i % (v as int + 1) == i) by {
            lemma_fundamental_div_mod_converse(i, v as int + 1, 0, i);
        }
    }
    if v < body.len() {
        assert((v as int) % (v as int + 1) == v) by {
            lemma_fundamental_div_mod_converse(v as int, v as int + 1, 0, v as int);
        }
        assert(body[v as int] == '\n');
    } else {
        assert(body.len() + 1 >= v + 1) by {
            let len1: int = body.len() as int + 1;
            let q = len1 / (v as int + 1);
            vstd::arithmetic::div_mod::lemma_fundamental_div_mod(len1, v as int + 1);
            assert(q > 0) by (nonlinear_arith)
                requires
                    len1 == (v as int + 1) * q,
                    len1 > 0,
                    v as int + 1 > 0;
            assert((v as int + 1) * q >= v as int + 1) by (nonlinear_arith)
                requires q > 0, v as int + 1 > 0;
        }
    }
}

proof fn lemma_cell_offset(x: int, y: int, w: int, h: int)
    requires
        0 <= x < w,
        0 <= y < h,
    ensures
        y * (w + 1) + x < h * (w + 1) - 1,
{
    assert(y * (w + 1) + x < h * (w + 1) - 1) by (nonlinear_arith)
        requires 0 <= x < w, 0 <= y < h;
}

/// The length of the first line of `chars[..n]`: the index of its first
/// line feed, or `n` if it has none.
fn first_line_width(chars: &Vec<char>, n: usize) -> (w: usize)
    requires
        n <= chars@.len(),
    ensures
        w <= n,
        forall|i: int| 0 <= i < w ==> chars@[i] != '\n',
        w == n || chars@[w as int] == '\n',
        forall|v: nat| #[trigger] rectangular(chars@.take(n as int), v) ==> v == w,
{
    let mut w: usize = 0;
    while w < n && chars[w] != '\n'
        invariant
            w <= n,
            n <= chars@.len(),
            forall|i: int| 0 <= i < w ==> chars@[i] != '\n',
        decreases n - w,
    {
        w = w + 1;
    }
    proof {
        let body = chars@.take(n as int);
        assert forall|v: nat| rectangular(body, v) implies v == w by {
            lemma_width_unique(body, v, w as nat);
        }
    }
    w
}

/// Whether `chars[..n]` is a block of lines of `w` characters each.
fn lines_match_width(chars: &Vec<char>, n: usize, w: usize) -> (r: bool)
    requires
        n <= chars@.len(),
        n < u32::MAX,
        1 <= w <= n,
    ensures
        r == rectangular(chars@.take(n as int), w as nat),
{
    let ghost body = chars@.take(n as int);
    let wp: usize = w + 1;
    if (n + 1) % wp != 0 {
        return false;
    }
    let mut i: usize = 0;
    while i < n
        invariant
            i <= n,
            n <= chars@.len(),
            body == chars@.take(n as int),
            wp == w + 1,
            forall|j: int| 0 <= j < i ==> (#[trigger] body[j] == '\n' <==> j % (wp as int) == w),
        decreases n - i,
    {
        if (chars[i] == '\n') != (i % wp == w) {
            assert(body[i as int] == chars@[i as int]);
            return false;
        }
        i = i + 1;
    }
    true
}

/// Maps the cells of the `w` by `h` block `chars[..n]` through `mapper`, row
/// by row; `InvalidCell` at the first cell that `mapper` refuses.
fn map_cells<T, F>(chars: &Vec<char>, n: usize, w: usize, h: usize, mapper: F) -> (r: Result<Vec<T>, ParseError>)
    where F: Fn(char) -> Option<T>,
    requires
        n <= chars@.len(),
        n < u32::MAX,
        1 <= w <= n,
        h * (w + 1) == n + 1,
        w * h <= n,
        rectangular(chars@.take(n as int), w as nat),
        forall|c: char| call_requires(mapper, (c,)),
    ensures
        match r {
            Ok(cells) => {
                &&& cells@.len() == w * h
                &&& forall|k: int| 0 <= k < cells@.len() ==>
                    call_ensures(mapper, (cell_char(chars@.take(n as int), w as nat, k),), Some(#[trigger] cells@[k]))
            },
            Err(e) => {
                &&& e == ParseError::InvalidCell
                &&& exists|k: int| 0 <= k < w * h &&
                    call_ensures(mapper, (#[trigger] cell_char(chars@.take(n as int), w as nat, k),), None)
            },
        },
{
    let ghost body = chars@.take(n as int);
    let mut entities: Vec<T> = Vec::new();
    let mut y: usize = 0;
    while y < h
        invariant
            y <= h,
            h * (w + 1) == n + 1,
            1 <= w <= n,
            n < u32::MAX,
            w * h <= n,
            n <= chars@.len(),
            body == chars@.take(n as int),
            forall|c: char| call_requires(mapper, (c,)),
            entities@.len() == y * w,
            forall|k: int| 0 <= k < entities@.len() ==>
                call_ensures(mapper, (cell_char(body, w as nat, k),), Some(#[trigger] entities@[k])),
        decreases h - y,
    {
        let mut x: usize = 0;
        while x < w
            invariant
                y < h,
                x <= w,
                h * (w + 1) == n + 1,
                1 <= w <= n,
                n < u32::MAX,
                w * h <= n,
                n <= chars@.len(),
                body == chars@.take(n as int),
                forall|c: char| call_requires(mapper, (c,)),
                entities@.len() == y * w + x,
                forall|k: int| 0 <= k < entities@.len() ==>
                    call_ensures(mapper, (cell_char(body, w as nat, k),), Some(#[trigger] entities@[k])),
            decreases w - x,
        {
            proof {
                lemma_cell_offset(x as int, y as int, w as int, h as int);
                lemma_index_bounds(x as int, y as int, w as int, h as int);
            }
            let c = chars[y * (w + 1) + x];
            let ghost k: int = y * w + x;
            assert(cell_char(body, w as nat, k) == c);
            match mapper(c) {
                Some(v) => {
                    entities.push(v);
                },
                None => {
                    assert(0 <= k < w * h);
                    return Err(ParseError::InvalidCell);
                },
            }
            x = x + 1;
        }
        proof {
            assert((y + 1) * w == y * w + w) by (nonlinear_arith);
        }
        y = y + 1;
    }
    proof {
        assert(h * w == w * h) by (nonlinear_arith);
    }
    Ok(entities)
}

/// Cells before column `x` of row `y` lie before that cell in the text.
proof fn lemma_row_offset_below(a: int, b: int, x: int, y: int, w: int)
    requires
        0 <= a < w,
        0 <= b,
        0 <= x <= w,
        (b < y) || (b == y && a < x),
    ensures
        0 <= b * (w + 1) + a < y * (w + 1) + x,
{
    assert(0 <= b * (w + 1) + a < y * (w + 1) + x) by (nonlinear_arith)
        requires 0 <= a < w, 0 <= b, 0 <= x <= w, (b < y) || (b == y && a < x);
}

/// Appends `c` to `s`.
/// Relies on `String::push`, which adds one character at the end.
#[verifier::external_body]
fn push_char(s: &mut String, c: char)
    ensures
        final(s)@ == old(s)@.push(c),
{
    s.push(c)
}

/// The characters of `text`, one by one.
fn chars_of(text: &str) -> (r: Vec<char>)
    ensures
        r@ == text@,
{
    broadcast use vstd::string::group_string_axioms;
    let mut r: Vec<char> = Vec::new();
    for c in it: text.chars()
        invariant
            r@ == it.seq().take(it.index() as int),
    {
        r.push(c);
    }
    assert(r@ =~= text@);
    r
}

/// The characters of `text`, with the carriage return of each `\r\n` line
/// end left out.
fn line_chars(text: &str) -> (r: Vec<char>)
    ensures
        r@ == line_text(text@),
        r@.len() <= text@.len(),
{
    let chars = chars_of(text);
    let mut r: Vec<char> = Vec::new();
    let mut i: usize = 0;
    while i < chars.len()
        invariant
            i <= chars@.len(),
            chars@ == text@,
            r@ == kept_chars(chars@, i as int),
        decreases chars@.len() - i,
    {
        let crlf = chars[i] == '\r' && i + 1 < chars.len() && chars[i + 1] == '\n';
        if !crlf {
            r.push(chars[i]);
        }
        i = i + 1;
    }
    proof {
        lemma_kept_len(chars@, chars@.len() as int);
    }
    r
}

impl<T> Grid<T> {
    pub fn width(&self) -> (r: u32)
        ensures
            r == self@.width,
    {
        self.width
    }

    pub fn height(&self) -> (r: u32)
        ensures
            r == self@.height,
    {
        self.height
    }

    /// How many cells the grid has: `width * height`.
    pub fn cell_count(&self) -> (r: usize)
        requires
            self@.wf(),
        ensures
            r == self@.width * self@.height,
    {
        self.entities.len()
    }

    /// A `width` by `height` grid with every cell set to `fill`.
    pub fn new(width: u32, height: u32, fill: T) -> (r: Grid<T>)
        where T: Copy,
        requires
            width * height <= usize::MAX,
        ensures
            r@.wf(),
            r@.width == width,
            r@.height == height,
            forall|i: int| 0 <= i < r@.cells.len() ==> r@.cells[i] == fill,
    {
        let n: usize = (width as usize) * (height as usize);
        let mut entities: Vec<T> = Vec::with_capacity(n);
        let mut i: usize = 0;
        while i < n
            invariant
                i <= n,
                entities@.len() == i,
                forall|j: int| 0 <= j < i ==> entities@[j] == fill,
            decreases n - i,
        {
            entities.push(fill);
            i = i + 1;
        }
        Grid { width, height, entities }
    }

    /// Reads a rectangular block of text, one cell per character, through
    /// `mapper`. Lines end in `\n` or `\r\n`, and a final line end is ignored. The block is refused as
    /// `MalformedGrid` when it is empty or its lines differ in length, and
    /// as `InvalidCell` when `mapper` refuses one of its characters.
    pub fn parse_from_string<F>(string: &str, mapper: F) -> (r: Result<Grid<T>, ParseError>)
        where F: Fn(char) -> Option<T>,
        requires
            string@.len() < u32::MAX,
            forall|c: char| call_requires(mapper, (c,)),
        ensures
            match r {
                Ok(g) => parsed_from(string@, mapper, g@),
                Err(ParseError::MalformedGrid) => !exists|w: nat| rectangular(text_body(string@), w),
                Err(ParseError::InvalidCell) => exists|w: nat, k: int| {
                    &&& rectangular(text_body(string@), w)
                    &&& 0 <= k < w * ((text_body(string@).len() + 1) / (w + 1))
                    &&& call_ensures(mapper, (cell_char(text_body(string@), w, k),), None)
                },
            },
    {
        let ghost body = text_body(string@);
        let chars = line_chars(string);
        let mut n: usize = chars.len();
        if n > 0 && chars[n - 1] == '\n' {
            n = n - 1;
        }
        assert(chars@.take(n as int) =~= body);
        let w = first_line_width(&chars, n);
        if w == 0 || !lines_match_width(&chars, n, w) {
            return Err(ParseError::MalformedGrid);
        }
        let h: usize = (n + 1) / (w + 1);
        proof {
            let wp = w + 1;
            vstd::arithmetic::div_mod::lemma_fundamental_div_mod((n + 1) as int, wp as int);
            assert(h * wp == n + 1) by (nonlinear_arith)
                requires
                    n + 1 == wp * ((n + 1) / (wp as int)),
                    h == (n + 1) / (wp as int);
            assert(h >= 1) by (nonlinear_arith)
                requires h * wp == n + 1;
            assert(h <= n + 1) by (nonlinear_arith)
                requires h * wp == n + 1, wp >= 2;
            assert(w * h <= n) by (nonlinear_arith)
                requires h * wp == n + 1, wp == w + 1, h >= 1;
            assert(h * w == w * h) by (nonlinear_arith);
        }
        match map_cells(&chars, n, w, h, mapper) {
            Ok(entities) => Ok(Grid { width: w as u32, height: h as u32, entities }),
            Err(e) => Err(e),
        }
    }

    /// The grid as text: one line per row, each ended by a line feed, with
    /// the character that `render` gives for each cell.
    pub fn pretty_print<F>(&self, render: F) -> (r: String)
        where F: Fn(Position, &T) -> char,
        requires
            self@.wf(),
            forall|p: Position, t: &T| call_requires(render, (p, t)),
        ensures
            rendered_as(self@, render, r@),
    {
        let ghost w = self.width as int;
        let mut result = String::new();
        let mut y: u32 = 0;
        while y < self.height
            invariant
                self@.wf(),
                forall|p: Position, t: &T| call_requires(render, (p, t)),
                w == self@.width,
                y <= self.height,
                result@.len() == y * (w + 1),
                forall|i: int| 0 <= i < result@.len() && i % (w + 1) == w ==> #[trigger] result@[i] == '\n',
                forall|a: u32, b: u32| a < w && b < y ==>
                    call_ensures(render, (Position { x: a, y: b }, &self@.cell(Position { x: a, y: b })),
                        #[trigger] result@[b * (w + 1) + a]),
            decreases self.height - y,
        {
            let mut x: u32 = 0;
            while x < self.width
                invariant
                    self@.wf(),
                    forall|p: Position, t: &T| call_requires(render, (p, t)),
                    w == self@.width,
                    y < self.height,
                    x <= self.width,
                    result@.len() == y * (w + 1) + x,
                    forall|i: int| 0 <= i < result@.len() && i % (w + 1) == w ==> #[trigger] result@[i] == '\n',
                    forall|a: u32, b: u32| (b < y && a < w) || (b == y && a < x) ==>
                        call_ensures(render, (Position { x: a, y: b }, &self@.cell(Position { x: a, y: b })),
                            #[trigger] result@[b * (w + 1) + a]),
                decreases self.width - x,
            {
                let pos = Position { x, y };
                let i = self.index(pos);
                let c = render(pos, &self.entities[i]);
                let ghost before = result@;
                push_char(&mut result, c);
                proof {
                    lemma_index_bounds(x as int, y as int, w, self.height as int);
                    assert forall|j: int| 0 <= j < result@.len() && j % (w + 1) == w implies #[trigger] result@[j] == '\n' by {
                        if j == before.len() {
                            assert(j % (w + 1) == x);
                        } else {
                            assert(result@[j] == before[j]);
                        }
                    }
                    assert forall|a: u32, b: u32| (b < y && a < w) || (b == y && a < x + 1) implies
                        call_ensures(render, (Position { x: a, y: b }, &self@.cell(Position { x: a, y: b })),
                            #[trigger] result@[b * (w + 1) + a]) by {
                        if b == y && a == x {
                        } else {
                            lemma_row_offset_below(a as int, b as int, x as int, y as int, w);
                            assert(result@[b * (w + 1) + a] == before[b * (w + 1) + a]);
                        }
                    }
                }
                x = x + 1;
            }
            let ghost before = result@;
            push_char(&mut result, '\n');
            proof {
                assert((y + 1) * (w + 1) == y * (w + 1) + w + 1) by (nonlinear_arith);
                assert forall|j: int| 0 <= j < result@.len() && j % (w + 1) == w implies #[trigger] result@[j] == '\n' by {
                    if j < before.len() {
                        assert(result@[j] == before[j]);
                    }
                }
                assert forall|a: u32, b: u32| a < w && b < y + 1 implies
                    call_ensures(render, (Position { x: a, y: b }, &self@.cell(Position { x: a, y: b })),
                        #[trigger] result@[b * (w + 1) + a]) by {
                    lemma_row_offset_below(a as int, b as int, w, y as int, w);
                    assert(result@[b * (w + 1) + a] == before[b * (w + 1) + a]);
                }
            }
            y = y + 1;
        }
        result
    }

    /// Where the cell at `p` sits in the storage.
    pub(crate) fn index(&self, p: Position) -> (r: usize)
        requires
            self@.wf(),
            self@.in_bounds(p),
        ensures
            r == self@.index_of(p),
            r < self@.cells.len(),
    {
        proof {
            lemma_index_bounds(p.x as int, p.y as int, self.width as int, self.height as int);
        }
        let n = self.entities.len();
        assert(n == self@.cells.len());
        (p.x as usize) + (p.y as usize) * (self.width as usize)
    }

    /// The cell at `position`, or `None` outside `[0, width) x [0, height)`.
    pub fn get(&self, position: Position) -> (r: Option<&T>)
        requires
            self@.wf(),
        ensures
            match r {
                Some(v) => self@.in_bounds(position) && *v == self@.cell(position),
                None => !self@.in_bounds(position),
            },
    {
        if position.x < self.width && position.y < self.height {
            let i = self.index(position);
            Some(&self.entities[i])
        } else {
            None
        }
    }

    /// Replaces the cell at `position`, which must lie inside the grid.
    pub fn set(&mut self, position: Position, new: T)
        requires
            old(self)@.wf(),
            old(self)@.in_bounds(position),
        ensures
            final(self)@ == old(self)@.with_cell(position, new),
            final(self)@.wf(),
    {
        let i = self.index(position);
        self.entities.set(i, new);
    }

    /// Every address whose cell equals `object`, in row-major order.
    pub fn find(&self, object: &T) -> (r: Vec<Position>)
        where T: PartialEq,
        requires
            self@.wf(),
            obeys_concrete_eq::<T>(),
        ensures
            self@.finds(*object, r@),
    {
        proof {
            reveal(obeys_concrete_eq);
        }
        let mut r: Vec<Position> = Vec::new();
        let mut y: u32 = 0;
        while y < self.height
            invariant
                self@.wf(),
                obeys_concrete_eq::<T>(),
                y <= self.height,
                forall|p: Position| #[trigger] r@.contains(p) <==> (self@.in_bounds(p) && p.y < y && self@.cell(p) == *object),
                forall|i: int, j: int|
                    0 <= i < j < r@.len() ==> self@.index_of(#[trigger] r@[i]) < self@.index_of(#[trigger] r@[j]),
                forall|i: int| 0 <= i < r@.len() ==> self@.index_of(#[trigger] r@[i]) < y * self.width,
            decreases self.height - y,
        {
            let mut x: u32 = 0;
            while x < self.width
                invariant
                    self@.wf(),
                    obeys_concrete_eq::<T>(),
                    y < self.height,
                    x <= self.width,
                    forall|p: Position| #[trigger] r@.contains(p) <==> (self@.in_bounds(p) && (p.y < y || (p.y == y && p.x < x)) && self@.cell(p) == *object),
                    forall|i: int, j: int|
                        0 <= i < j < r@.len() ==> self@.index_of(#[trigger] r@[i]) < self@.index_of(#[trigger] r@[j]),
                    forall|i: int| 0 <= i < r@.len() ==> self@.index_of(#[trigger] r@[i]) < y * self.width + x,
                decreases self.width - x,
            {
                let p = Position { x, y };
                let i = self.index(p);
                let ghost before = r@;
                proof {
                    reveal(obeys_concrete_eq);
                }
                if self.entities[i] == *object {
                    r.push(p);
                }
                proof {
                    assert forall|q: Position| #[trigger] r@.contains(q) <==> (self@.in_bounds(q) && (q.y < y || (q.y == y && q.x < x + 1)) && self@.cell(q) == *object) by {
                        if before.contains(q) {
                            let j = choose|j: int| 0 <= j < before.len() && before[j] == q;
                            assert(self@.index_of(before[j]) < y * self.width + x);
                        }
                        if r@ != before {
                            assert(r@[before.len() as int] == p);
                            if before.contains(q) {
                                let j = choose|j: int| 0 <= j < before.len() && before[j] == q;
                                assert(r@[j] == q);
                            }
                        }
                    }
                }
                x = x + 1;
            }
            proof {
                assert((y + 1) * self.width == y * self.width + self.width) by (nonlinear_arith);
            }
            y = y + 1;
        }
        r
    }
}

} // verus!

verus! {

/// Reading a block of text and showing it again with the inverse mapping
/// gives back the text, with exactly one final line feed.
pub proof fn lemma_parse_render_round_trip<T, F, G>(
    text: Seq<char>,
    mapper: F,
    grid: GridView<T>,
    render: G,
    out: Seq<char>,
)
    where F: Fn(char) -> Option<T>, G: Fn(Position, &T) -> char,
    requires
        parsed_from(text, mapper, grid),
        rendered_as(grid, render, out),
        forall|c: char, t: T, p: Position, d: char|
            #[trigger] call_ensures(mapper, (c,), Some(t)) && #[trigger] call_ensures(render, (p, &t), d) ==> d == c,
    ensures
        out == text_body(text).push('\n'),
        (forall|i: int| 0 <= i < text.len() ==> text[i] != '\r') ==> out == (if text.len() > 0 && text.last() == '\n' {
            text
        } else {
            text.push('\n')
        }),
{
    if forall|i: int| 0 <= i < text.len() ==> text[i] != '\r' {
        lemma_kept_plain(text, text.len() as int);
        assert(text.take(text.len() as int) =~= text);
        if text.len() > 0 && text.last() == '\n' {
            assert(text.drop_last().push('\n') =~= text);
        }
    }
    let body = text_body(text);
    let w = grid.width as int;
    let h = grid.height as int;
    let len1 = body.len() as int + 1;
    vstd::arithmetic::div_mod::lemma_fundamental_div_mod(len1, w + 1);
    assert(h * (w + 1) == len1) by (nonlinear_arith)
        requires
            len1 == (w + 1) * (len1 / (w + 1)),
            len1 % (w + 1) == 0,
            h == len1 / (w + 1);
    assert forall|i: int| 0 <= i < out.len() implies out[i] == body.push('\n')[i] by {
        let y = i / (w + 1);
        let x = i % (w + 1);
        vstd::arithmetic::div_mod::lemma_fundamental_div_mod(i, w + 1);
        assert(i == y * (w + 1) + x) by (nonlinear_arith)
            requires i == (w + 1) * (i / (w + 1)) + i % (w + 1), y == i / (w + 1), x == i % (w + 1);
        assert(0 <= y < h) by (nonlinear_arith)
            requires i == y * (w + 1) + x, 0 <= x < w + 1, 0 <= i < h * (w + 1);
        if i == body.len() {
            assert(x == w) by {
                assert((h - 1) * (w + 1) + w == h * (w + 1) - 1) by (nonlinear_arith);
                lemma_fundamental_div_mod_converse(i, w + 1, h - 1, w);
            }
        } else if x == w {
            assert(body[i] == '\n');
        } else {
            let k = y * w + x;
            lemma_index_bounds(x, y, w, h);
            assert(cell_char(body, grid.width, k) == body[i]);
            let p = Position { x: x as u32, y: y as u32 };
            assert(grid.index_of(p) == k);
            assert(call_ensures(mapper, (body[i],), Some(grid.cells[k])));
            assert(call_ensures(render, (p, &grid.cell(p)), out[y * (w + 1) + x]));
        }
    }
    assert(out =~= body.push('\n'));
}

/// Reading a cell just written gives the value written.
pub proof fn lemma_get_after_set<T>(grid: GridView<T>, pos: Position, v: T)
    requires
        grid.wf(),
        grid.in_bounds(pos),
    ensures
        grid.with_cell(pos, v).wf(),
        grid.with_cell(pos, v).in_bounds(pos),
        grid.with_cell(pos, v).cell(pos) == v,
{
    lemma_index_bounds(pos.x as int, pos.y as int, grid.width as int, grid.height as int);
}

/// After writing `v` at `pos`, searching for `v` finds `pos`, and finds no
/// address whose cell holds another value.
pub proof fn lemma_find_after_set<T>(grid: GridView<T>, pos: Position, v: T, found: Seq<Position>)
    requires
        grid.wf(),
        grid.in_bounds(pos),
        grid.with_cell(pos, v).finds(v, found),
    ensures
        found.contains(pos),
        forall|q: Position| grid.with_cell(pos, v).cell(q) != v ==> !found.contains(q),
{
    lemma_get_after_set(grid, pos, v);
}

} // verus!
