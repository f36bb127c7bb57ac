//! ASCII rendering of the Mapper graph: Bresenham lines for edges, a mark
//! per node, rows of the canvas as text.
use vstd::prelude::*;

verus! {

pub open spec fn abs_diff(a: int, b: int) -> int {
    if a <= b {
        b - a
    } else {
        a - b
    }
}

/// Step direction from `a` towards `b` (`-1` when equal).
pub open spec fn step_dir(a: int, b: int) -> int {
    if a < b {
        1
    } else {
        -1
    }
}

/// `c` lies between `a` and `b` (inclusive).
pub open spec fn between(a: int, c: int, b: int) -> bool {
    (a <= c <= b) || (b <= c <= a)
}

/// One step of Bresenham's algorithm from position `(cx, cy)` with error
/// term `err`, towards `(x1, y1)` from the start `(x0, y0)`.
pub open spec fn line_next(x0: int, y0: int, x1: int, y1: int, cx: int, cy: int, err: int) -> (int, int, int) {
    let dx = abs_diff(x0, x1);
    let dy = -abs_diff(y0, y1);
    let e2 = 2 * err;
    let err1 = if e2 >= dy {
        err + dy
    } else {
        err
    };
    let cx1 = if e2 >= dy {
        cx + step_dir(x0, x1)
    } else {
        cx
    };
    let err2 = if e2 <= dx {
        err1 + dx
    } else {
        err1
    };
    let cy1 = if e2 <= dx {
        cy + step_dir(y0, y1)
    } else {
        cy
    };
    (cx1, cy1, err2)
}

/// The cells visited from `(cx, cy)` until `(x1, y1)` (at most `fuel` steps).
pub open spec fn line_walk(x0: int, y0: int, x1: int, y1: int, cx: int, cy: int, err: int, fuel: nat) -> Seq<(int, int)>
    decreases fuel,
{
    if (cx == x1 && cy == y1) || fuel == 0 {
        seq![(cx, cy)]
    } else {
        let next = line_next(x0, y0, x1, y1, cx, cy, err);
        seq![(cx, cy)] + line_walk(x0, y0, x1, y1, next.0, next.1, next.2, (fuel - 1) as nat)
    }
}

/// The cells of the Bresenham line from `(x0, y0)` to `(x1, y1)`, in order.
pub open spec fn line_cells(x0: int, y0: int, x1: int, y1: int) -> Seq<(int, int)> {
    line_walk(
        x0,
        y0,
        x1,
        y1,
        x0,
        y0,
        abs_diff(x0, x1) - abs_diff(y0, y1),
        (abs_diff(x0, x1) + abs_diff(y0, y1)) as nat,
    )
}

/// The state of the line algorithm is consistent: the position lies in the
/// box spanned by the end points and the error term records the steps taken.
pub open spec fn line_inv(x0: int, y0: int, x1: int, y1: int, cx: int, cy: int, err: int) -> bool {
    let dx = abs_diff(x0, x1);
    let dd = abs_diff(y0, y1);
    let i = abs_diff(x0, cx);
    let j = abs_diff(y0, cy);
    &&& between(x0, cx, x1)
    &&& between(y0, cy, y1)
    &&& err == dx * (1 + j) - dd * (1 + i)
    &&& -2 * dd <= err <= 2 * dx
}

/// Steps left to the end point.
pub open spec fn line_rem(x0: int, y0: int, x1: int, y1: int, cx: int, cy: int) -> nat {
    ((abs_diff(x0, x1) - abs_diff(x0, cx)) + (abs_diff(y0, y1) - abs_diff(y0, cy))) as nat
}

proof fn lemma_no_x_overshoot(dx: int, dd: int, j: int)
    by (nonlinear_arith)
    requires
        dx >= 0,
        0 <= j < dd,
    ensures
        2 * (dx * (1 + j) - dd * (1 + dx)) < -dd,
{
    assert(dx * j <= dx * (dd - 1));
}

proof fn lemma_no_y_overshoot(dx: int, dd: int, i: int)
    by (nonlinear_arith)
    requires
        dd >= 0,
        0 <= i < dx,
    ensures
        2 * (dx * (1 + dd) - dd * (1 + i)) > dx,
{
    assert(dd * i <= dd * (dx - 1));
}

proof fn lemma_err_shift(dx: int, dd: int, i: int, j: int)
    by (nonlinear_arith)
    ensures
        dx * (1 + j) - dd * (1 + (i + 1)) == dx * (1 + j) - dd * (1 + i) - dd,
        dx * (1 + (j + 1)) - dd * (1 + i) == dx * (1 + j) - dd * (1 + i) + dx,
        dx * (1 + (j + 1)) - dd * (1 + (i + 1)) == dx * (1 + j) - dd * (1 + i) + dx - dd,
{
}

/// A step away from the end keeps the state consistent and gets closer.
proof fn lemma_line_step(x0: int, y0: int, x1: int, y1: int, cx: int, cy: int, err: int)
    requires
        line_inv(x0, y0, x1, y1, cx, cy, err),
        !(cx == x1 && cy == y1),
    ensures
        line_inv(
            x0,
            y0,
            x1,
            y1,
            line_next(x0, y0, x1, y1, cx, cy, err).0,
            line_next(x0, y0, x1, y1, cx, cy, err).1,
            line_next(x0, y0, x1, y1, cx, cy, err).2,
        ),
        line_rem(
            x0,
            y0,
            x1,
            y1,
            line_next(x0, y0, x1, y1, cx, cy, err).0,
            line_next(x0, y0, x1, y1, cx, cy, err).1,
        ) < line_rem(x0, y0, x1, y1, cx, cy),
        line_next(x0, y0, x1, y1, cx, cy, err).0 == cx || line_next(x0, y0, x1, y1, cx, cy, err).0
            == cx + step_dir(x0, x1),
        line_next(x0, y0, x1, y1, cx, cy, err).1 == cy || line_next(x0, y0, x1, y1, cx, cy, err).1
            == cy + step_dir(y0, y1),
        !(line_next(x0, y0, x1, y1, cx, cy, err).0 == cx && line_next(x0, y0, x1, y1, cx, cy, err).1
            == cy),
{
    let dx = abs_diff(x0, x1);
    let dd = abs_diff(y0, y1);
    let i = abs_diff(x0, cx);
    let j = abs_diff(y0, cy);
    let e2 = 2 * err;
    let xs = e2 >= -dd;
    let ys = e2 <= dx;
    assert(i <= dx && j <= dd);
    if i == dx {
        assert(cx == x1);
        assert(j < dd);
        lemma_no_x_overshoot(dx, dd, j);
    }
    if j == dd {
        assert(cy == y1);
        assert(i < dx);
        lemma_no_y_overshoot(dx, dd, i);
    }
    assert(xs || ys);
    lemma_err_shift(dx, dd, i, j);
    let next = line_next(x0, y0, x1, y1, cx, cy, err);
    if xs {
        assert(abs_diff(x0, next.0) == i + 1);
    } else {
        assert(next.0 == cx);
    }
    if ys {
        assert(abs_diff(y0, next.1) == j + 1);
    } else {
        assert(next.1 == cy);
    }
}

/// Enough fuel gives the whole walk: any fuel at least the steps left
/// yields the same cells.
proof fn lemma_line_fuel(x0: int, y0: int, x1: int, y1: int, cx: int, cy: int, err: int, fuel: nat)
    requires
        line_inv(x0, y0, x1, y1, cx, cy, err),
        fuel >= line_rem(x0, y0, x1, y1, cx, cy),
    ensures
        line_walk(x0, y0, x1, y1, cx, cy, err, fuel) == line_walk(
            x0,
            y0,
            x1,
            y1,
            cx,
            cy,
            err,
            line_rem(x0, y0, x1, y1, cx, cy),
        ),
    decreases line_rem(x0, y0, x1, y1, cx, cy),
{
    if !(cx == x1 && cy == y1) {
        lemma_line_step(x0, y0, x1, y1, cx, cy, err);
        let next = line_next(x0, y0, x1, y1, cx, cy, err);
        let rem = line_rem(x0, y0, x1, y1, cx, cy);
        assert(rem > 0);
        lemma_line_fuel(x0, y0, x1, y1, next.0, next.1, next.2, (fuel - 1) as nat);
        lemma_line_fuel(x0, y0, x1, y1, next.0, next.1, next.2, (rem - 1) as nat);
    }
}

/// The Bresenham line starts at the first end point and ends at the second.
pub proof fn lemma_line_ends(x0: int, y0: int, x1: int, y1: int)
    ensures
        line_cells(x0, y0, x1, y1).len() >= 1,
        line_cells(x0, y0, x1, y1)[0] == (x0, y0),
        line_cells(x0, y0, x1, y1)[line_cells(x0, y0, x1, y1).len() - 1] == (x1, y1),
{
    let dx = abs_diff(x0, x1);
    let dd = abs_diff(y0, y1);
    lemma_err_shift(dx, dd, -1, -1);
    assert(line_inv(x0, y0, x1, y1, x0, y0, dx - dd));
    lemma_walk_ends(x0, y0, x1, y1, x0, y0, dx - dd);
}

proof fn lemma_walk_ends(x0: int, y0: int, x1: int, y1: int, cx: int, cy: int, err: int)
    requires
        line_inv(x0, y0, x1, y1, cx, cy, err),
    ensures
        line_walk(x0, y0, x1, y1, cx, cy, err, line_rem(x0, y0, x1, y1, cx, cy)).len() >= 1,
        line_walk(x0, y0, x1, y1, cx, cy, err, line_rem(x0, y0, x1, y1, cx, cy))[0] == (cx, cy),
        line_walk(x0, y0, x1, y1, cx, cy, err, line_rem(x0, y0, x1, y1, cx, cy))[line_walk(
            x0,
            y0,
            x1,
            y1,
            cx,
            cy,
            err,
            line_rem(x0, y0, x1, y1, cx, cy),
        ).len() - 1] == (x1, y1),
    decreases line_rem(x0, y0, x1, y1, cx, cy),
{
    let rem = line_rem(x0, y0, x1, y1, cx, cy);
    if !(cx == x1 && cy == y1) {
        lemma_line_step(x0, y0, x1, y1, cx, cy, err);
        let next = line_next(x0, y0, x1, y1, cx, cy, err);
        lemma_walk_ends(x0, y0, x1, y1, next.0, next.1, next.2);
        lemma_line_fuel(x0, y0, x1, y1, next.0, next.1, next.2, (rem - 1) as nat);
    } else {
        assert(rem == 0);
    }
}

/// The contents of a canvas.
pub open spec fn canvas_view(c: Seq<Vec<char>>) -> Seq<Seq<char>> {
    c.map_values(|r: Vec<char>| r@)
}

/// All rows have `w` cells.
pub open spec fn rectangular(c: Seq<Seq<char>>, w: int) -> bool {
    forall|r: int| 0 <= r < c.len() ==> #[trigger] c[r].len() == w
}

/// The canvas after drawing the line from `(x0, y0)` to `(x1, y1)` with
/// `ch`: cells of the line inside the canvas that were blank take `ch`.
pub open spec fn drawn(c: Seq<Seq<char>>, x0: int, y0: int, x1: int, y1: int, ch: char) -> Seq<Seq<char>> {
    plotted(c, line_cells(x0, y0, x1, y1), ch)
}

/// The canvas `c0` after plotting `ch` on the blank cells among `pts`.
pub open spec fn plotted(c0: Seq<Seq<char>>, pts: Seq<(int, int)>, ch: char) -> Seq<Seq<char>> {
    Seq::new(
        c0.len(),
        |r: int|
            Seq::new(
                c0[r].len(),
                |col: int|
                    if pts.contains((col, r)) && c0[r][col] == ' ' {
                        ch
                    } else {
                        c0[r][col]
                    },
            ),
    )
}

/// Plot `ch` at `(x, y)` if that cell lies in the canvas and is blank.
fn plot_cell(canvas: &mut Vec<Vec<char>>, x: i128, y: i128, ch: char, w: usize)
    requires
        rectangular(canvas_view(old(canvas)@), w as int),
    ensures
        canvas_view(final(canvas)@) == if 0 <= y < old(canvas)@.len() && 0 <= x < w
            && canvas_view(old(canvas)@)[y as int][x as int] == ' ' {
            canvas_view(old(canvas)@).update(
                y as int,
                canvas_view(old(canvas)@)[y as int].update(x as int, ch),
            )
        } else {
            canvas_view(old(canvas)@)
        },
{
    let h = canvas.len();
    if 0 <= y && y < h as i128 && 0 <= x && x < w as i128 {
        let r = y as usize;
        let col = x as usize;
        proof {
            assert(canvas_view(canvas@)[r as int] == canvas@[r as int]@);
        }
        if canvas[r][col] == ' ' {
            let ghost before = canvas@;
            canvas[r][col] = ch;
            proof {
                assert(canvas_view(canvas@) =~= canvas_view(before).update(
                    r as int,
                    canvas_view(before)[r as int].update(col as int, ch),
                ));
            }
        }
    }
}

proof fn lemma_plot_push(c0: Seq<Seq<char>>, pts: Seq<(int, int)>, ch: char, pt: (int, int), w: int)
    requires
        rectangular(c0, w),
    ensures
        (if 0 <= pt.1 < c0.len() && 0 <= pt.0 < w && plotted(c0, pts, ch)[pt.1][pt.0] == ' ' {
            plotted(c0, pts, ch).update(pt.1, plotted(c0, pts, ch)[pt.1].update(pt.0, ch))
        } else {
            plotted(c0, pts, ch)
        }) == plotted(c0, pts.push(pt), ch),
{
    let a = plotted(c0, pts, ch);
    let b = plotted(c0, pts.push(pt), ch);
    let lhs = if 0 <= pt.1 < c0.len() && 0 <= pt.0 < w && a[pt.1][pt.0] == ' ' {
        a.update(pt.1, a[pt.1].update(pt.0, ch))
    } else {
        a
    };
    assert forall|r: int| 0 <= r < c0.len() implies #[trigger] lhs[r] =~= b[r] by {
        assert forall|col: int| 0 <= col < c0[r].len() implies #[trigger] lhs[r][col] == b[r][col] by {
            let np = pts.push(pt);
            if np.contains((col, r)) != pts.contains((col, r)) {
                if np.contains((col, r)) {
                    let t = choose|t: int| 0 <= t < np.len() && np[t] == (col, r);
                    if t < pts.len() {
                        assert(pts[t] == (col, r));
                    }
                }
                if pts.contains((col, r)) {
                    let t = choose|t: int| 0 <= t < pts.len() && pts[t] == (col, r);
                    assert(np[t] == (col, r));
                }
            }
            if (col, r) == pt {
                assert(np[pts.len() as int] == (col, r));
            }
        }
    }
    assert(lhs =~= b);
}

/// Draw a line on a canvas using Bresenham's algorithm (iterative); only
/// blank cells inside the canvas are drawn on.
#[verifier::spinoff_prover]
pub fn draw_line(canvas: &mut Vec<Vec<char>>, x0: isize, y0: isize, x1: isize, y1: isize, ch: char)
    requires
        old(canvas)@.len() > 0 ==> rectangular(canvas_view(old(canvas)@), old(canvas)@[0]@.len() as int),
    ensures
        canvas_view(final(canvas)@) == drawn(
            canvas_view(old(canvas)@),
            x0 as int,
            y0 as int,
            x1 as int,
            y1 as int,
            ch,
        ),
{
    let ghost c0 = canvas_view(canvas@);
    let ghost cells = line_cells(x0 as int, y0 as int, x1 as int, y1 as int);
    let h: usize = canvas.len();
    let w: usize = if h > 0 {
        canvas[0].len()
    } else {
        0
    };
    proof {
        if h > 0 {
            assert(c0[0] == canvas@[0]@);
        }
        assert(rectangular(c0, w as int));
    }
    let (ax, ay, bx, by): (i128, i128, i128, i128) = (x0 as i128, y0 as i128, x1 as i128, y1 as i128);
    let dx: i128 = if ax <= bx {
        bx - ax
    } else {
        ax - bx
    };
    let dy: i128 = if ay <= by {
        ay - by
    } else {
        by - ay
    };
    let sx: i128 = if ax < bx {
        1
    } else {
        -1
    };
    let sy: i128 = if ay < by {
        1
    } else {
        -1
    };
    let mut err: i128 = dx + dy;
    let mut cx: i128 = ax;
    let mut cy: i128 = ay;
    let ghost mut visited: Seq<(int, int)> = seq![];
    let mut done = false;
    proof {
        lemma_err_shift(dx as int, -dy as int, -1, -1);
        assert(line_inv(x0 as int, y0 as int, x1 as int, y1 as int, cx as int, cy as int, err as int));
        assert(plotted(c0, visited, ch) =~= c0) by {
            assert forall|r: int| 0 <= r < c0.len() implies #[trigger] plotted(c0, visited, ch)[r] =~= c0[r] by {}
        }
    }
    while !done
        invariant
            rectangular(c0, w as int),
            h == c0.len(),
            cells == line_cells(x0 as int, y0 as int, x1 as int, y1 as int),
            dx == abs_diff(x0 as int, x1 as int),
            dy == -abs_diff(y0 as int, y1 as int),
            sx == step_dir(x0 as int, x1 as int),
            sy == step_dir(y0 as int, y1 as int),
            ax == x0 && ay == y0 && bx == x1 && by == y1,
            isize::MIN <= x0 <= isize::MAX,
            isize::MIN <= x1 <= isize::MAX,
            isize::MIN <= y0 <= isize::MAX,
            isize::MIN <= y1 <= isize::MAX,
            line_inv(x0 as int, y0 as int, x1 as int, y1 as int, cx as int, cy as int, err as int),
            !done ==> cells == visited + line_walk(
                x0 as int,
                y0 as int,
                x1 as int,
                y1 as int,
                cx as int,
                cy as int,
                err as int,
                line_rem(x0 as int, y0 as int, x1 as int, y1 as int, cx as int, cy as int),
            ),
            done ==> cells == visited,
            canvas_view(canvas@) == plotted(c0, visited, ch),
        decreases line_rem(x0 as int, y0 as int, x1 as int, y1 as int, cx as int, cy as int) + if done {
            0int
        } else {
            1int
        },
    {
        let ghost rem = line_rem(x0 as int, y0 as int, x1 as int, y1 as int, cx as int, cy as int);
        let ghost pt = (cx as int, cy as int);
        proof {
            assert(rectangular(plotted(c0, visited, ch), w as int));
        }
        plot_cell(canvas, cx, cy, ch, w);
        proof {
            lemma_plot_push(c0, visited, ch, pt, w as int);
            visited = visited.push(pt);
        }
        if cx == bx && cy == by {
            done = true;
            proof {
                assert(rem == 0);
                assert(cells =~= visited);
            }
        } else {
            proof {
                lemma_line_step(x0 as int, y0 as int, x1 as int, y1 as int, cx as int, cy as int, err as int);
            }
            let ghost next = line_next(x0 as int, y0 as int, x1 as int, y1 as int, cx as int, cy as int, err as int);
            let e2 = 2 * err;
            if e2 >= dy {
                err = err + dy;
                cx = cx + sx;
            }
            if e2 <= dx {
                err = err + dx;
                cy = cy + sy;
            }
            proof {
                assert(cx == next.0 && cy == next.1 && err == next.2);
                lemma_line_fuel(x0 as int, y0 as int, x1 as int, y1 as int, cx as int, cy as int, err as int, (rem - 1) as nat);
                assert(cells =~= visited + line_walk(
                    x0 as int,
                    y0 as int,
                    x1 as int,
                    y1 as int,
                    cx as int,
                    cy as int,
                    err as int,
                    line_rem(x0 as int, y0 as int, x1 as int, y1 as int, cx as int, cy as int),
                ));
            }
        }
    }
}

} // verus!

verus! {

/// A canvas of `h` rows of `w` blanks.
pub open spec fn blank_canvas(h: nat, w: nat) -> Seq<Seq<char>> {
    Seq::new(h, |r: int| Seq::new(w, |col: int| ' '))
}

/// The canvas after drawing the first `k` edges as lines of `-` between
/// the positions of their end nodes.
pub open spec fn edges_drawn(c: Seq<Seq<char>>, positions: Seq<(isize, isize)>, edges: Seq<(usize, usize)>, k: int) -> Seq<Seq<char>>
    decreases k,
{
    if k <= 0 {
        c
    } else {
        let a = positions[edges[k - 1].0 as int];
        let b = positions[edges[k - 1].1 as int];
        drawn(edges_drawn(c, positions, edges, k - 1), a.0 as int, a.1 as int, b.0 as int, b.1 as int, '-')
    }
}

/// The mark of a node: `O` for more than five members, `o` otherwise.
pub open spec fn node_char(size: usize) -> char {
    if size > 5 {
        'O'
    } else {
        'o'
    }
}

/// The canvas after marking the first `k` nodes that lie inside the canvas
/// (`w` columns).
pub open spec fn nodes_marked(c: Seq<Seq<char>>, sizes: Seq<usize>, positions: Seq<(isize, isize)>, w: int, k: int) -> Seq<Seq<char>>
    decreases k,
{
    if k <= 0 {
        c
    } else {
        let prev = nodes_marked(c, sizes, positions, w, k - 1);
        let x = positions[k - 1].0 as int;
        let y = positions[k - 1].1 as int;
        if 0 <= y < prev.len() && 0 <= x < w {
            prev.update(y, prev[y].update(x, node_char(sizes[k - 1])))
        } else {
            prev
        }
    }
}

/// The first `k` rows, each followed by a newline.
pub open spec fn rows_text(c: Seq<Seq<char>>, k: int) -> Seq<char>
    decreases k,
{
    if k <= 0 {
        seq![]
    } else {
        rows_text(c, k - 1) + c[k - 1] + seq!['\n']
    }
}

/// The ASCII picture of a graph whose nodes (with the given sizes) stand at
/// the given positions, on a canvas of `h` rows and `w` columns.
pub open spec fn ascii_picture(sizes: Seq<usize>, positions: Seq<(isize, isize)>, edges: Seq<(usize, usize)>, w: nat, h: nat) -> Seq<char> {
    if sizes.len() == 0 {
        "(empty graph)\n"@
    } else {
        rows_text(
            nodes_marked(
                edges_drawn(blank_canvas(h, w), positions, edges, edges.len() as int),
                sizes,
                positions,
                w as int,
                sizes.len() as int,
            ),
            h as int,
        )
    }
}

/// Every cell is a blank, an edge or a node mark.
pub open spec fn picture_chars(c: Seq<Seq<char>>) -> bool {
    forall|r: int, col: int|
        0 <= r < c.len() && 0 <= col < c[r].len() ==> {
            let x = #[trigger] c[r][col];
            x == ' ' || x == '-' || x == 'o' || x == 'O'
        }
}

fn cell_text(x: char) -> (s: &'static str)
    requires
        x == ' ' || x == '-' || x == 'o' || x == 'O',
    ensures
        s@ == seq![x],
{
    if x == ' ' {
        proof {
            reveal_strlit(" ");
        }
        " "
    } else if x == '-' {
        proof {
            reveal_strlit("-");
        }
        "-"
    } else if x == 'o' {
        proof {
            reveal_strlit("o");
        }
        "o"
    } else {
        proof {
            reveal_strlit("O");
        }
        "O"
    }
}

/// Render a graph as ASCII art on a `width` × `height` canvas, given the
/// size of each node, the position of each node and the edges.
pub fn render_ascii(
    sizes: &Vec<usize>,
    positions: &Vec<(isize, isize)>,
    edge_list: &Vec<(usize, usize)>,
    width: usize,
    height: usize,
) -> (s: String)
    requires
        positions@.len() == sizes@.len(),
        sizes@.len() > 0 ==> forall|e: int|
            0 <= e < edge_list@.len() ==> #[trigger] edge_list@[e].0 < positions@.len()
                && edge_list@[e].1 < positions@.len(),
    ensures
        s@ == ascii_picture(sizes@, positions@, edge_list@, width as nat, height as nat),
        sizes@.len() > 0 ==> s@.len() == height * (width + 1),
        sizes@.len() > 0 ==> forall|y: int|
            0 <= y < height ==> #[trigger] s@[cell_index(width as nat, y, width as int)] == '\n',
        sizes@.len() > 0 ==> forall|x: int, y: int|
            0 <= y < height && 0 <= x < width && (forall|i: int|
                0 <= i < sizes@.len() ==> !#[trigger] node_at(positions@, i, x, y)) ==> #[trigger] s@[cell_index(
                width as nat,
                y,
                x,
            )] == if on_edge_line(positions@, edge_list@, edge_list@.len() as int, x, y) {
                '-'
            } else {
                ' '
            },
        sizes@.len() > 0 ==> forall|x: int, y: int, i: int|
            #![trigger s@[cell_index(width as nat, y, x)], node_at(positions@, i, x, y)]
            0 <= y < height && 0 <= x < width && 0 <= i < sizes@.len() && node_at(positions@, i, x, y) && (
            forall|j: int| i < j < sizes@.len() ==> !#[trigger] node_at(positions@, j, x, y))
                ==> s@[cell_index(width as nat, y, x)] == if sizes@[i] > 5 {
                'O'
            } else {
                'o'
            },
{
    if sizes.len() == 0 {
        let mut s = String::new();
        s.append("(empty graph)\n");
        proof {
            assert(s@ =~= ascii_picture(sizes@, positions@, edge_list@, width as nat, height as nat));
        }
        return s;
    }
    let mut canvas: Vec<Vec<char>> = Vec::new();
    let mut r: usize = 0;
    while r < height
        invariant
            r <= height,
            canvas@.len() == r,
            canvas_view(canvas@) == blank_canvas(r as nat, width as nat),
        decreases height - r,
    {
        let mut row: Vec<char> = Vec::new();
        let mut col: usize = 0;
        while col < width
            invariant
                col <= width,
                row@ == Seq::new(col as nat, |c: int| ' '),
            decreases width - col,
        {
            row.push(' ');
            proof {
                assert(row@ =~= Seq::new((col + 1) as nat, |c: int| ' '));
            }
            col = col + 1;
        }
        let ghost before = canvas@;
        canvas.push(row);
        proof {
            assert forall|q: int| 0 <= q < r + 1 implies #[trigger] canvas_view(canvas@)[q] == blank_canvas(
                (r + 1) as nat,
                width as nat,
            )[q] by {
                if q < r {
                    assert(canvas@[q] == before[q]);
                    assert(canvas_view(before)[q] == blank_canvas(r as nat, width as nat)[q]);
                }
            }
            assert(canvas_view(canvas@) =~= blank_canvas((r + 1) as nat, width as nat));
        }
        r = r + 1;
    }
    let ghost blank = blank_canvas(height as nat, width as nat);
    let mut k: usize = 0;
    while k < edge_list.len()
        invariant
            k <= edge_list@.len(),
            positions@.len() == sizes@.len(),
            forall|e: int|
                0 <= e < edge_list@.len() ==> #[trigger] edge_list@[e].0 < positions@.len()
                    && edge_list@[e].1 < positions@.len(),
            canvas_view(canvas@) == edges_drawn(blank, positions@, edge_list@, k as int),
            canvas@.len() == height,
            rectangular(canvas_view(canvas@), width as int),
            picture_chars(canvas_view(canvas@)),
        decreases edge_list@.len() - k,
    {
        let (a, b) = edge_list[k];
        let (xa, ya) = positions[a];
        let (xb, yb) = positions[b];
        proof {
            if canvas@.len() > 0 {
                assert(canvas_view(canvas@)[0] == canvas@[0]@);
            }
        }
        let ghost before = canvas_view(canvas@);
        draw_line(&mut canvas, xa, ya, xb, yb, '-');
        proof {
            let after = canvas_view(canvas@);
            assert(rectangular(after, width as int));
            assert forall|r2: int, col: int| 0 <= r2 < after.len() && 0 <= col < after[r2].len() implies {
                let x = #[trigger] after[r2][col];
                x == ' ' || x == '-' || x == 'o' || x == 'O'
            } by {
                assert(before[r2][col] == ' ' || before[r2][col] == '-' || before[r2][col] == 'o' || before[r2][col] == 'O');
            }
        }
        k = k + 1;
    }
    let mut k: usize = 0;
    let ghost lined = canvas_view(canvas@);
    while k < sizes.len()
        invariant
            k <= sizes@.len(),
            positions@.len() == sizes@.len(),
            canvas_view(canvas@) == nodes_marked(lined, sizes@, positions@, width as int, k as int),
            canvas@.len() == height,
            rectangular(canvas_view(canvas@), width as int),
            picture_chars(canvas_view(canvas@)),
        decreases sizes@.len() - k,
    {
        let (x, y) = positions[k];
        let ghost before = canvas_view(canvas@);
        if y >= 0 && (y as usize) < height && x >= 0 && (x as usize) < width {
            let ch = if sizes[k] > 5 {
                'O'
            } else {
                'o'
            };
            let yr = y as usize;
            let xc = x as usize;
            proof {
                assert(before[yr as int] == canvas@[yr as int]@);
            }
            canvas[yr][xc] = ch;
            proof {
                assert(canvas_view(canvas@) =~= before.update(yr as int, before[yr as int].update(xc as int, ch)));
            }
        }
        proof {
            let after = canvas_view(canvas@);
            assert(after == nodes_marked(lined, sizes@, positions@, width as int, k + 1));
            assert forall|r2: int| 0 <= r2 < after.len() implies #[trigger] after[r2].len() == width by {
                assert(before[r2].len() == width);
            }
            assert forall|r2: int, col: int| 0 <= r2 < after.len() && 0 <= col < after[r2].len() implies {
                let x = #[trigger] after[r2][col];
                x == ' ' || x == '-' || x == 'o' || x == 'O'
            } by {
                assert(before[r2][col] == ' ' || before[r2][col] == '-' || before[r2][col] == 'o' || before[r2][col] == 'O');
            }
        }
        k = k + 1;
    }
    let ghost fin = canvas_view(canvas@);
    let mut s = String::new();
    let mut r: usize = 0;
    while r < height
        invariant
            r <= height,
            canvas@.len() == height,
            fin == canvas_view(canvas@),
            rectangular(fin, width as int),
            picture_chars(fin),
            s@ == rows_text(fin, r as int),
        decreases height - r,
    {
        let row = &canvas[r];
        proof {
            assert(fin[r as int] == row@);
        }
        let ghost start = s@;
        let mut col: usize = 0;
        while col < row.len()
            invariant
                r < height,
                fin.len() == height,
                fin[r as int] == row@,
                picture_chars(fin),
                col <= row@.len(),
                s@ == start + row@.subrange(0, col as int),
            decreases row@.len() - col,
        {
            proof {
                assert(fin[r as int][col as int] == row@[col as int]);
            }
            s.append(cell_text(row[col]));
            proof {
                assert(s@ =~= start + row@.subrange(0, col + 1));
            }
            col = col + 1;
        }
        s.append("\n");
        proof {
            reveal_strlit("\n");
            assert(row@.subrange(0, row@.len() as int) =~= row@);
            assert(s@ =~= rows_text(fin, r + 1));
        }
        r = r + 1;
    }
    proof {
        assert(s@ == ascii_picture(sizes@, positions@, edge_list@, width as nat, height as nat));
        lemma_ascii_picture(sizes@, positions@, edge_list@, width as nat, height as nat);
    }
    s
}

} // verus!

verus! {

/// Position of cell `(x, y)` (column `x`, row `y`) in the text of a canvas
/// whose rows have `w` cells, each row followed by a newline.
pub open spec fn cell_index(w: nat, y: int, x: int) -> int {
    y * (w + 1) + x
}

/// Node `i` stands at cell `(x, y)`.
pub open spec fn node_at(positions: Seq<(isize, isize)>, i: int, x: int, y: int) -> bool {
    positions[i].0 as int == x && positions[i].1 as int == y
}

/// The cells of the Bresenham line between the positions of the ends of edge `pr`.
pub open spec fn edge_line(positions: Seq<(isize, isize)>, pr: (usize, usize)) -> Seq<(int, int)> {
    line_cells(
        positions[pr.0 as int].0 as int,
        positions[pr.0 as int].1 as int,
        positions[pr.1 as int].0 as int,
        positions[pr.1 as int].1 as int,
    )
}

/// Cell `(x, y)` lies on the line of one of the first `k` edges.
pub open spec fn on_edge_line(positions: Seq<(isize, isize)>, edges: Seq<(usize, usize)>, k: int, x: int, y: int) -> bool {
    exists|e: int| 0 <= e < k && #[trigger] edge_line(positions, edges[e]).contains((x, y))
}

proof fn lemma_edges_drawn(h: nat, w: nat, positions: Seq<(isize, isize)>, edges: Seq<(usize, usize)>, k: int)
    requires
        0 <= k <= edges.len(),
    ensures
        edges_drawn(blank_canvas(h, w), positions, edges, k).len() == h,
        forall|r: int| 0 <= r < h ==> #[trigger] edges_drawn(blank_canvas(h, w), positions, edges, k)[r].len() == w,
        forall|x: int, y: int|
            0 <= y < h && 0 <= x < w ==> #[trigger] edges_drawn(blank_canvas(h, w), positions, edges, k)[y][x]
                == if on_edge_line(positions, edges, k, x, y) {
                '-'
            } else {
                ' '
            },
    decreases k,
{
    let c0 = blank_canvas(h, w);
    if k == 0 {
        assert forall|x: int, y: int| 0 <= y < h && 0 <= x < w implies #[trigger] edges_drawn(
            c0,
            positions,
            edges,
            k,
        )[y][x] == if on_edge_line(positions, edges, k, x, y) {
            '-'
        } else {
            ' '
        } by {
            assert(!on_edge_line(positions, edges, 0, x, y));
        }
    } else {
        lemma_edges_drawn(h, w, positions, edges, k - 1);
        let prev = edges_drawn(c0, positions, edges, k - 1);
        let cur = edges_drawn(c0, positions, edges, k);
        let pts = edge_line(positions, edges[k - 1]);
        assert(cur == plotted(prev, pts, '-'));
        assert forall|x: int, y: int| 0 <= y < h && 0 <= x < w implies #[trigger] cur[y][x] == if on_edge_line(
            positions,
            edges,
            k,
            x,
            y,
        ) {
            '-'
        } else {
            ' '
        } by {
            assert(prev[y][x] == if on_edge_line(positions, edges, k - 1, x, y) {
                '-'
            } else {
                ' '
            });
            if on_edge_line(positions, edges, k - 1, x, y) {
                let e = choose|e: int| 0 <= e < k - 1 && #[trigger] edge_line(positions, edges[e]).contains((x, y));
                assert(on_edge_line(positions, edges, k, x, y));
            }
            if pts.contains((x, y)) {
                assert(edge_line(positions, edges[k - 1]).contains((x, y)));
                assert(on_edge_line(positions, edges, k, x, y));
            }
            if on_edge_line(positions, edges, k, x, y) {
                let e = choose|e: int| 0 <= e < k && #[trigger] edge_line(positions, edges[e]).contains((x, y));
                if e < k - 1 {
                    assert(on_edge_line(positions, edges, k - 1, x, y));
                }
            }
        }
    }
}

proof fn lemma_nodes_marked(c: Seq<Seq<char>>, sizes: Seq<usize>, positions: Seq<(isize, isize)>, w: int, k: int)
    requires
        0 <= k,
        rectangular(c, w),
    ensures
        nodes_marked(c, sizes, positions, w, k).len() == c.len(),
        rectangular(nodes_marked(c, sizes, positions, w, k), w),
        forall|x: int, y: int|
            0 <= y < c.len() && 0 <= x < w && (forall|i: int| 0 <= i < k ==> !#[trigger] node_at(positions, i, x, y))
                ==> #[trigger] nodes_marked(c, sizes, positions, w, k)[y][x] == c[y][x],
        forall|x: int, y: int, i: int|
            #![trigger nodes_marked(c, sizes, positions, w, k)[y][x], node_at(positions, i, x, y)]
            0 <= y < c.len() && 0 <= x < w && 0 <= i < k && node_at(positions, i, x, y) && (forall|j: int|
                i < j < k ==> !#[trigger] node_at(positions, j, x, y)) ==> nodes_marked(
                c,
                sizes,
                positions,
                w,
                k,
            )[y][x] == node_char(sizes[i]),
    decreases k,
{
    if k > 0 {
        lemma_nodes_marked(c, sizes, positions, w, k - 1);
        let prev = nodes_marked(c, sizes, positions, w, k - 1);
        let cur = nodes_marked(c, sizes, positions, w, k);
        let px = positions[k - 1].0 as int;
        let py = positions[k - 1].1 as int;
        let inside = 0 <= py < prev.len() && 0 <= px < w;
        assert forall|r: int| 0 <= r < cur.len() implies #[trigger] cur[r].len() == w by {
            assert(prev[r].len() == w);
        }
        assert forall|x: int, y: int|
            0 <= y < c.len() && 0 <= x < w && (forall|i: int| 0 <= i < k ==> !#[trigger] node_at(positions, i, x, y))
                implies #[trigger] cur[y][x] == c[y][x] by {
            assert(!node_at(positions, k - 1, x, y));
            assert forall|i: int| 0 <= i < k - 1 implies !#[trigger] node_at(positions, i, x, y) by {
                assert(!node_at(positions, i, x, y));
            }
            assert(prev[y][x] == c[y][x]);
        }
        assert forall|x: int, y: int, i: int|
            #![trigger cur[y][x], node_at(positions, i, x, y)]
            0 <= y < c.len() && 0 <= x < w && 0 <= i < k && node_at(positions, i, x, y) && (forall|j: int|
                i < j < k ==> !#[trigger] node_at(positions, j, x, y)) implies cur[y][x] == node_char(
            sizes[i],
        ) by {
            if i == k - 1 {
                assert(inside);
            } else {
                assert(!node_at(positions, k - 1, x, y));
                assert forall|j: int| i < j < k - 1 implies !#[trigger] node_at(positions, j, x, y) by {
                    assert(!node_at(positions, j, x, y));
                }
                assert(prev[y][x] == node_char(sizes[i]));
            }
        }
    }
}

proof fn lemma_row_offsets(w: nat, y: int, x: int, k: int)
    requires
        0 <= y < k,
        0 <= x <= w,
    ensures
        y < k - 1 ==> cell_index(w, y, x) < (k - 1) * (w + 1),
        y == k - 1 ==> cell_index(w, y, x) == (k - 1) * (w + 1) + x,
        0 <= cell_index(w, y, x),
        k * (w + 1) == (k - 1) * (w + 1) + w + 1,
{
    assert(k * (w + 1) == (k - 1) * (w + 1) + w + 1) by (nonlinear_arith);
    assert(0 <= y * (w + 1)) by (nonlinear_arith)
        requires
            0 <= y,
    ;
    if y < k - 1 {
        assert((y + 1) * (w + 1) <= (k - 1) * (w + 1)) by (nonlinear_arith)
            requires
                y + 1 <= k - 1,
        ;
        assert((y + 1) * (w + 1) == y * (w + 1) + w + 1) by (nonlinear_arith);
    }
}

proof fn lemma_rows_text(c: Seq<Seq<char>>, w: nat, k: int)
    requires
        0 <= k <= c.len(),
        rectangular(c, w as int),
    ensures
        rows_text(c, k).len() == k * (w + 1),
        forall|y: int, x: int|
            0 <= y < k && 0 <= x <= w ==> #[trigger] rows_text(c, k)[cell_index(w, y, x)] == if x < w {
                c[y][x]
            } else {
                '\n'
            },
    decreases k,
{
    if k == 0 {
    } else {
        lemma_rows_text(c, w, k - 1);
        let prev = rows_text(c, k - 1);
        let cur = rows_text(c, k);
        assert(cur == prev + c[k - 1] + seq!['\n']);
        lemma_row_offsets(w, k - 1, 0, k);
        assert forall|y: int, x: int| 0 <= y < k && 0 <= x <= w implies #[trigger] cur[cell_index(w, y, x)]
            == if x < w {
            c[y][x]
        } else {
            '\n'
        } by {
            lemma_row_offsets(w, y, x, k);
            if y < k - 1 {
                assert(cur[cell_index(w, y, x)] == prev[cell_index(w, y, x)]);
            }
        }
    }
}

/// The ASCII picture of a graph with nodes: `h` rows of `w` cells, each row
/// ended by a newline. A cell where some node stands holds the mark of the
/// last such node (`O` for more than five members, `o` otherwise); any other
/// cell holds `-` exactly when it lies on the Bresenham line of some edge of
/// the edge list (all of them, whatever the number of nodes), and a blank
/// otherwise.
pub proof fn lemma_ascii_picture(
    sizes: Seq<usize>,
    positions: Seq<(isize, isize)>,
    edges: Seq<(usize, usize)>,
    w: nat,
    h: nat,
)
    requires
        sizes.len() > 0,
    ensures
        ascii_picture(sizes, positions, edges, w, h).len() == h * (w + 1),
        forall|y: int|
            0 <= y < h ==> #[trigger] ascii_picture(sizes, positions, edges, w, h)[cell_index(w, y, w as int)]
                == '\n',
        forall|x: int, y: int|
            0 <= y < h && 0 <= x < w && (forall|i: int|
                0 <= i < sizes.len() ==> !#[trigger] node_at(positions, i, x, y)) ==> #[trigger] ascii_picture(
                sizes,
                positions,
                edges,
                w,
                h,
            )[cell_index(w, y, x)] == if on_edge_line(positions, edges, edges.len() as int, x, y) {
                '-'
            } else {
                ' '
            },
        forall|x: int, y: int, i: int|
            #![trigger ascii_picture(sizes, positions, edges, w, h)[cell_index(w, y, x)], node_at(positions, i, x, y)]
            0 <= y < h && 0 <= x < w && 0 <= i < sizes.len() && node_at(positions, i, x, y) && (forall|j: int|
                i < j < sizes.len() ==> !#[trigger] node_at(positions, j, x, y)) ==> ascii_picture(
                sizes,
                positions,
                edges,
                w,
                h,
            )[cell_index(w, y, x)] == if sizes[i] > 5 {
                'O'
            } else {
                'o'
            },
{
    let n = sizes.len() as int;
    let lined = edges_drawn(blank_canvas(h, w), positions, edges, edges.len() as int);
    lemma_edges_drawn(h, w, positions, edges, edges.len() as int);
    assert(rectangular(lined, w as int));
    let fin = nodes_marked(lined, sizes, positions, w as int, n);
    lemma_nodes_marked(lined, sizes, positions, w as int, n);
    lemma_rows_text(fin, w, h as int);
    let pic = ascii_picture(sizes, positions, edges, w, h);
    assert(pic == rows_text(fin, h as int));
    assert forall|y: int| 0 <= y < h implies #[trigger] pic[cell_index(w, y, w as int)] == '\n' by {
        assert(rows_text(fin, h as int)[cell_index(w, y, w as int)] == '\n');
    }
    assert forall|x: int, y: int|
        0 <= y < h && 0 <= x < w && (forall|i: int| 0 <= i < sizes.len() ==> !#[trigger] node_at(positions, i, x, y))
            implies #[trigger] pic[cell_index(w, y, x)] == if on_edge_line(positions, edges, edges.len() as int, x, y) {
            '-'
        } else {
            ' '
        } by {
        assert(rows_text(fin, h as int)[cell_index(w, y, x)] == fin[y][x]);
        assert(fin[y][x] == lined[y][x]);
    }
    assert forall|x: int, y: int, i: int|
        #![trigger pic[cell_index(w, y, x)], node_at(positions, i, x, y)]
        0 <= y < h && 0 <= x < w && 0 <= i < sizes.len() && node_at(positions, i, x, y) && (forall|j: int|
            i < j < sizes.len() ==> !#[trigger] node_at(positions, j, x, y)) implies pic[cell_index(w, y, x)]
        == node_char(sizes[i]) by {
        assert(rows_text(fin, h as int)[cell_index(w, y, x)] == fin[y][x]);
        assert(fin[y][x] == node_char(sizes[i]));
    }
}

proof fn lemma_walk_shape(x0: int, y0: int, x1: int, y1: int, cx: int, cy: int, err: int)
    requires
        line_inv(x0, y0, x1, y1, cx, cy, err),
    ensures
        forall|k: int|
            0 <= k < line_walk(x0, y0, x1, y1, cx, cy, err, line_rem(x0, y0, x1, y1, cx, cy)).len()
                ==> between(
                x0,
                #[trigger] line_walk(x0, y0, x1, y1, cx, cy, err, line_rem(x0, y0, x1, y1, cx, cy))[k].0,
                x1,
            ) && between(
                y0,
                line_walk(x0, y0, x1, y1, cx, cy, err, line_rem(x0, y0, x1, y1, cx, cy))[k].1,
                y1,
            ),
        forall|k: int|
            0 <= k < line_walk(x0, y0, x1, y1, cx, cy, err, line_rem(x0, y0, x1, y1, cx, cy)).len() - 1
                ==> king_step(
                x0,
                y0,
                x1,
                y1,
                #[trigger] line_walk(x0, y0, x1, y1, cx, cy, err, line_rem(x0, y0, x1, y1, cx, cy))[k],
                line_walk(x0, y0, x1, y1, cx, cy, err, line_rem(x0, y0, x1, y1, cx, cy))[k + 1],
            ),
    decreases line_rem(x0, y0, x1, y1, cx, cy),
{
    let rem = line_rem(x0, y0, x1, y1, cx, cy);
    let w = line_walk(x0, y0, x1, y1, cx, cy, err, rem);
    if !(cx == x1 && cy == y1) {
        lemma_line_step(x0, y0, x1, y1, cx, cy, err);
        let next = line_next(x0, y0, x1, y1, cx, cy, err);
        let nrem = line_rem(x0, y0, x1, y1, next.0, next.1);
        lemma_walk_shape(x0, y0, x1, y1, next.0, next.1, next.2);
        lemma_walk_ends(x0, y0, x1, y1, next.0, next.1, next.2);
        lemma_line_fuel(x0, y0, x1, y1, next.0, next.1, next.2, (rem - 1) as nat);
        let rest = line_walk(x0, y0, x1, y1, next.0, next.1, next.2, nrem);
        assert(w == seq![(cx, cy)] + rest);
        assert forall|k: int| 0 <= k < w.len() implies between(x0, #[trigger] w[k].0, x1) && between(
            y0,
            w[k].1,
            y1,
        ) by {
            if k > 0 {
                assert(w[k] == rest[k - 1]);
            }
        }
        assert forall|k: int| 0 <= k < w.len() - 1 implies king_step(x0, y0, x1, y1, #[trigger] w[k], w[k + 1]) by {
            if k > 0 {
                assert(w[k] == rest[k - 1]);
                assert(w[k + 1] == rest[(k - 1) + 1]);
            } else {
                assert(w[1] == rest[0]);
            }
        }
    } else {
        assert(rem == 0);
        assert(w == seq![(cx, cy)]);
    }
}

/// One step of a line from `(x0, y0)` towards `(x1, y1)`: each coordinate
/// stays or moves by one towards the end point, and the cell changes.
pub open spec fn king_step(x0: int, y0: int, x1: int, y1: int, c: (int, int), d: (int, int)) -> bool {
    &&& (d.0 == c.0 || d.0 == c.0 + step_dir(x0, x1))
    &&& (d.1 == c.1 || d.1 == c.1 + step_dir(y0, y1))
    &&& d != c
}

/// Shape of a Bresenham line: it runs from the first end point to the
/// second, stays in the box they span, and moves one cell at a time (to
/// one of the eight neighbours), never away from the end point.
pub proof fn lemma_line_shape(x0: int, y0: int, x1: int, y1: int)
    ensures
        line_cells(x0, y0, x1, y1).len() >= 1,
        line_cells(x0, y0, x1, y1)[0] == (x0, y0),
        line_cells(x0, y0, x1, y1)[line_cells(x0, y0, x1, y1).len() - 1] == (x1, y1),
        forall|k: int|
            0 <= k < line_cells(x0, y0, x1, y1).len() ==> between(x0, #[trigger] line_cells(x0, y0, x1, y1)[k].0, x1)
                && between(y0, line_cells(x0, y0, x1, y1)[k].1, y1),
        forall|k: int|
            0 <= k < line_cells(x0, y0, x1, y1).len() - 1 ==> king_step(
                x0,
                y0,
                x1,
                y1,
                #[trigger] line_cells(x0, y0, x1, y1)[k],
                line_cells(x0, y0, x1, y1)[k + 1],
            ),
{
    lemma_line_ends(x0, y0, x1, y1);
    let dx = abs_diff(x0, x1);
    let dd = abs_diff(y0, y1);
    lemma_err_shift(dx, dd, -1, -1);
    assert(line_inv(x0, y0, x1, y1, x0, y0, dx - dd));
    lemma_walk_shape(x0, y0, x1, y1, x0, y0, dx - dd);
    assert(line_rem(x0, y0, x1, y1, x0, y0) == (dx + dd) as nat);
}

} // verus!
