//! Keymap binding tables: the cells of a `bindings` property are grouped
//! into binding expressions, placed on the keyboard's grid and written as
//! rows of padded columns.
use vstd::prelude::*;
use vstd::string::StrSliceExecFns;
use vstd::string::StringExecFns;

use crate::context::Context;
use crate::layouts::{Grid, KeyboardLayout};
use crate::syntax::{first_of_kind, find_kind, lemma_first_of_kind_bounds, NodeKind, SyntaxNode};
use crate::text::{
    lemma_occurs_between, lemma_occurs_trans, lemma_occurs_within, occurs_in, padded, push_spaces,
    spaces, starts_with_reference,
};
use crate::utils::{indent_text, outer, outer_context, print_indent};

verus! {

/// The views of a sequence of strings.
pub open spec fn views(v: Seq<String>) -> Seq<Seq<char>> {
    v.map_values(|s: String| s@)
}

/// The index of the `>` that closes an integer cell list, or the number of
/// its children where there is none.
pub open spec fn cells_end(n: SyntaxNode) -> int {
    first_of_kind(n.children@, 1, NodeKind::CloseAngle)
}

/// The texts of the cells of an integer cell list: its children after the
/// opening `<` and before the closing `>`.
pub open spec fn cell_texts(n: SyntaxNode) -> Seq<Seq<char>> {
    let e = cells_end(n);
    Seq::new(if e > 1 { (e - 1) as nat } else { 0 }, |k: int| n.children@[k + 1].text@)
}

/// Whether a cell starts a new binding expression.
pub open spec fn is_reference(t: Seq<char>) -> bool {
    t.len() > 0 && t[0] == '&'
}

/// Reading the cells `ts` in order: the finished binding expressions and
/// the one still being read. A cell that starts with `&` starts a new
/// expression; any other cell joins the current one after a space.
pub open spec fn grouping(ts: Seq<Seq<char>>) -> (Seq<Seq<char>>, Seq<char>)
    decreases ts.len(),
{
    if ts.len() == 0 {
        (Seq::empty(), Seq::empty())
    } else {
        let p = grouping(ts.drop_last());
        let t = ts.last();
        if p.1.len() > 0 && is_reference(t) {
            (p.0.push(p.1), t)
        } else if p.1.len() > 0 {
            (p.0, p.1 + seq![' '] + t)
        } else {
            (p.0, t)
        }
    }
}

/// The binding expressions that the cells `ts` hold, in order.
pub open spec fn group_bindings(ts: Seq<Seq<char>>) -> Seq<Seq<char>> {
    grouping(ts).0.push(grouping(ts).1)
}

/// The number of key cells among the first `i` cells of a grid.
pub open spec fn rank(grid: Seq<usize>, i: int) -> nat
    decreases i,
{
    if i <= 0 {
        0
    } else {
        rank(grid, i - 1) + if grid[i - 1] != 0 {
            1nat
        } else {
            0nat
        }
    }
}

/// The grid filled with the expressions `g`: the `r`-th key cell holds the
/// `r`-th expression; gaps, and keys past the last expression, stay empty.
pub open spec fn placed(grid: Seq<usize>, g: Seq<Seq<char>>) -> Seq<Seq<char>> {
    Seq::new(
        grid.len(),
        |i: int|
            if grid[i] != 0 && rank(grid, i) < g.len() {
                g[rank(grid, i) as int]
            } else {
                Seq::empty()
            },
    )
}

/// The cells of the table that renders the integer cell list `n` on `lay`.
pub open spec fn binding_cells(n: SyntaxNode, lay: Grid) -> Seq<Seq<char>> {
    placed(lay.cells, group_bindings(cell_texts(n)))
}

/// The width of column `c` of the table `cells` with rows of `rs` cells:
/// the length of its longest cell.
pub open spec fn column_width(cells: Seq<Seq<char>>, rs: nat, c: nat) -> nat
    decreases cells.len(),
{
    if cells.len() == 0 {
        0
    } else {
        let w = column_width(cells.drop_last(), rs, c);
        if (cells.len() - 1) % (rs as int) == c && cells.last().len() > w {
            cells.last().len()
        } else {
            w
        }
    }
}

/// Whether cell `k` ends its row.
pub open spec fn ends_row(k: int, rs: nat) -> bool {
    (k + 1) % (rs as int) == 0
}

/// How cell `k` of a table is written: a line break and the indentation
/// `ind` where a row starts, then the cell padded to the width of its
/// column and three spaces more, except at the end of a row.
pub open spec fn piece(cells: Seq<Seq<char>>, rs: nat, ind: Seq<char>, k: int) -> Seq<char> {
    let head = if k % (rs as int) == 0 {
        seq!['\n'] + ind
    } else {
        Seq::empty()
    };
    let width = if ends_row(k, rs) {
        0
    } else {
        column_width(cells, rs, (k % (rs as int)) as nat) + 3
    };
    head + padded(cells[k], width)
}

/// The first `k` cells of a table, written.
pub open spec fn table(cells: Seq<Seq<char>>, rs: nat, ind: Seq<char>, k: int) -> Seq<char>
    decreases k,
{
    if k <= 0 {
        Seq::empty()
    } else {
        table(cells, rs, ind, k - 1) + piece(cells, rs, ind, k - 1)
    }
}

/// How the integer cell list `n` is written inside a keymap's `bindings`
/// property: a table of one row per grid row, then the closing `>` on a
/// line of its own at the enclosing level.
pub open spec fn bindings_block(n: SyntaxNode, ctx: Context, lay: Grid) -> Seq<char> {
    let cells = binding_cells(n, lay);
    "<"@ + table(cells, lay.row_size(), indent_text(ctx), cells.len() as int) + "\n"@
        + indent_text(outer(ctx)) + ">"@
}

/// Groups the cells of the integer cell list `n` into binding expressions.
fn group_cells(n: &SyntaxNode) -> (r: Vec<String>)
    ensures
        views(r@) == group_bindings(cell_texts(*n)),
{
    let ghost ts = cell_texts(*n);
    let len = n.children.len();
    let end = if len > 1 { find_kind(n, 1, NodeKind::CloseAngle) } else { len };
    proof {
        if len > 1 {
            lemma_first_of_kind_bounds(n.children@, 1, NodeKind::CloseAngle);
        }
    }
    let mut buf: Vec<String> = Vec::new();
    let mut item = String::new();
    let mut j: usize = 1;
    while j < end
        invariant
            end == cells_end(*n) || (end == len && len <= 1),
            end <= len == n.children@.len(),
            1 <= j,
            ts == cell_texts(*n),
            j <= if end > 1 {
                end
            } else {
                1
            },
            ts.len() == if end > 1 { (end - 1) as nat } else { 0 },
            grouping(ts.take(j - 1)) == (views(buf@), item@),
        decreases end - j,
    {
        let text = n.children[j].text.as_str();
        proof {
            assert(ts[j - 1] == text@);
            assert(ts.take(j as int).drop_last() =~= ts.take(j - 1));
        }
        let fresh = starts_with_reference(text);
        if item.as_str().unicode_len() > 0 && fresh {
            let done = item;
            buf.push(done);
            item = String::from_str(text);
            proof {
                assert(views(buf@) =~= grouping(ts.take(j - 1)).0.push(grouping(ts.take(j - 1)).1));
            }
        } else if item.as_str().unicode_len() > 0 {
            proof {
                reveal_strlit(" ");
                assert(" "@ =~= seq![' ']);
            }
            item.append(" ");
            item.append(text);
        } else {
            item.append(text);
        }
        j += 1;
    }
    proof {
        assert(ts.take(ts.len() as int) =~= ts);
        if end <= 1 {
            assert(ts.take(j - 1) =~= ts);
        }
    }
    buf.push(item);
    proof {
        assert(views(buf@) =~= group_bindings(ts));
    }
    buf
}

/// Places the binding expressions of the integer cell list `n` on the grid
/// of `layout`.
pub fn collect_bindings(n: &SyntaxNode, layout: &KeyboardLayout) -> (r: Vec<String>)
    ensures
        views(r@) == binding_cells(*n, layout@),
{
    let groups = group_cells(n);
    let ghost g = views(groups@);
    let ghost grid = layout.bindings@;
    let mut r: Vec<String> = Vec::new();
    let mut k: usize = 0;
    let mut i: usize = 0;
    while i < layout.bindings.len()
        invariant
            grid == layout.bindings@,
            g == views(groups@),
            i <= grid.len(),
            r@.len() == i,
            k as nat == if rank(grid, i as int) < g.len() { rank(grid, i as int) } else { g.len() },
            views(r@) == placed(grid, g).take(i as int),
        decreases grid.len() - i,
    {
        let ghost r0 = r@;
        if layout.bindings[i] != 0 && k < groups.len() {
            r.push(groups[k].clone());
            k += 1;
        } else {
            r.push(String::new());
        }
        proof {
            assert(r@ == r0.push(r@[i as int]));
            assert(views(r@)[i as int] == placed(grid, g)[i as int]);
            assert(views(r@) =~= placed(grid, g).take(i + 1));
        }
        i += 1;
    }
    proof {
        assert(placed(grid, g).take(i as int) =~= placed(grid, g));
    }
    r
}

/// A column is as wide as its longest cell: no cell of column `c` is
/// longer, and, unless it is empty, one cell of it has that length.
pub proof fn lemma_column_width(cells: Seq<Seq<char>>, rs: nat, c: nat)
    requires
        rs > 0,
    ensures
        forall|k: int|
            0 <= k < cells.len() && k % (rs as int) == c ==> #[trigger] cells[k].len()
                <= column_width(cells, rs, c),
        column_width(cells, rs, c) == 0 || exists|k: int|
            0 <= k < cells.len() && k % (rs as int) == c && #[trigger] cells[k].len()
                == column_width(cells, rs, c),
    decreases cells.len(),
{
    if cells.len() > 0 {
        let init = cells.drop_last();
        lemma_column_width(init, rs, c);
        assert forall|k: int|
            0 <= k < cells.len() && k % (rs as int) == c implies #[trigger] cells[k].len()
                <= column_width(cells, rs, c) by {
            if k < init.len() {
                assert(init[k] == cells[k]);
            }
        }
        if column_width(cells, rs, c) != column_width(init, rs, c) {
            assert(cells[cells.len() - 1].len() == column_width(cells, rs, c));
        } else if column_width(init, rs, c) != 0 {
            let k = choose|k: int|
                0 <= k < init.len() && k % (rs as int) == c && #[trigger] init[k].len()
                    == column_width(init, rs, c);
            assert(cells[k] == init[k]);
        }
    }
}

/// The width of each column of the table `buf` with rows of `row_size`
/// cells.
pub fn calculate_sizes(buf: &Vec<String>, row_size: usize) -> (r: Vec<usize>)
    ensures
        r@.len() == row_size,
        forall|c: int| 0 <= c < row_size ==> r@[c] == column_width(views(buf@), row_size as nat, c as nat),
{
    if row_size == 0 {
        return Vec::new();
    }
    let ghost cells = views(buf@);
    let ghost rs = row_size as nat;
    let mut sizes: Vec<usize> = Vec::new();
    let mut c: usize = 0;
    while c < row_size
        invariant
            c <= row_size,
            sizes@.len() == c,
            forall|d: int| 0 <= d < c ==> sizes@[d] == 0,
        decreases row_size - c,
    {
        sizes.push(0);
        c += 1;
    }
    let mut j: usize = 0;
    while j < buf.len()
        invariant
            cells == views(buf@),
            rs == row_size as nat,
            row_size > 0,
            j <= buf@.len(),
            sizes@.len() == row_size,
            forall|d: int| 0 <= d < row_size ==> sizes@[d] == column_width(cells.take(j as int), rs, d as nat),
        decreases buf@.len() - j,
    {
        let col = j % row_size;
        let len = buf[j].as_str().unicode_len();
        proof {
            assert(cells.take(j + 1).drop_last() =~= cells.take(j as int));
            assert(cells.take(j + 1).last() == buf@[j as int]@);
        }
        if len > sizes[col] {
            sizes.set(col, len);
        }
        j += 1;
    }
    proof {
        assert(cells.take(j as int) =~= cells);
    }
    sizes
}

/// Writes the integer cell list `n` as the binding table of `layout`.
pub fn print_bindings(writer: &mut String, n: &SyntaxNode, ctx: &Context, layout: &KeyboardLayout)
    requires
        layout@.wf(),
    ensures
        final(writer)@ == old(writer)@ + bindings_block(*n, *ctx, layout@),
{
    let ghost w0 = old(writer)@;
    writer.append("<");
    let buf = collect_bindings(n, layout);
    let ghost cells = views(buf@);
    let ghost ind = indent_text(*ctx);
    let ghost rs = layout@.row_size();
    if buf.len() > 0 {
        let row_size = layout.row_size();
        proof {
            let total = layout.bindings@.len() as int;
            let rows = layout.row_count as int;
            vstd::arithmetic::div_mod::lemma_fundamental_div_mod(total, rows);
            assert(row_size > 0) by (nonlinear_arith)
                requires
                    row_size == total / rows,
                    total > 0,
                    rows > 0,
                    total % rows == 0,
                    total == rows * (total / rows) + total % rows,
            ;
        }
        let sizes = calculate_sizes(&buf, row_size);
        let mut k: usize = 0;
        while k < buf.len()
            invariant
                cells == views(buf@),
                ind == indent_text(*ctx),
                rs == row_size as nat,
                row_size > 0,
                k <= buf@.len(),
                sizes@.len() == row_size,
                forall|d: int| 0 <= d < row_size ==> sizes@[d] == column_width(cells, rs, d as nat),
                writer@ == w0 + "<"@ + table(cells, rs, ind, k as int),
            decreases buf@.len() - k,
        {
            let ghost before = writer@;
            let col = k % row_size;
            if col == 0 {
                proof {
                    reveal_strlit("\n");
                    assert("\n"@ =~= seq!['\n']);
                }
                writer.append("\n");
                print_indent(writer, ctx);
            }
            let ghost head = writer@.subrange(before.len() as int, writer@.len() as int);
            let item = buf[k].as_str();
            let len = item.unicode_len();
            writer.append(item);
            if (k + 1) % row_size != 0 {
                proof {
                    lemma_column_width(cells, rs, col as nat);
                    assert(cells[k as int] == item@);
                }
                push_spaces(writer, sizes[col] - len);
                push_spaces(writer, 3);
                proof {
                    assert(spaces((sizes@[col as int] - len) as nat) + spaces(3) =~= spaces(
                        (sizes@[col as int] + 3 - len) as nat,
                    ));
                }
            }
            proof {
                assert(head =~= if k % row_size == 0 {
                    seq!['\n'] + ind
                } else {
                    Seq::empty()
                });
                assert(writer@ =~= before + piece(cells, rs, ind, k as int));
            }
            k += 1;
        }
    }
    writer.append("\n");
    let outer_ctx = outer_context(ctx);
    print_indent(writer, &outer_ctx);
    writer.append(">");
    proof {
        assert(writer@ =~= w0 + bindings_block(*n, *ctx, layout@));
    }
}

/// The number of key cells of a grid.
pub open spec fn key_count(grid: Seq<usize>) -> nat {
    rank(grid, grid.len() as int)
}

/// The number of the first `i` cells of `placed(grid, g)` that receive an
/// expression.
pub open spec fn filled_count(grid: Seq<usize>, g: Seq<Seq<char>>, i: int) -> nat
    decreases i,
{
    if i <= 0 {
        0
    } else {
        filled_count(grid, g, i - 1) + if grid[i - 1] != 0 && rank(grid, i - 1) < g.len() {
            1nat
        } else {
            0nat
        }
    }
}

proof fn lemma_filled_count(grid: Seq<usize>, g: Seq<Seq<char>>, i: int)
    requires
        0 <= i <= grid.len(),
    ensures
        filled_count(grid, g, i) == if rank(grid, i) < g.len() {
            rank(grid, i)
        } else {
            g.len()
        },
    decreases i,
{
    if i > 0 {
        lemma_filled_count(grid, g, i - 1);
    }
}

/// The number of non-empty cells among the first `i` cells of `cells`.
pub open spec fn nonempty_cells(cells: Seq<Seq<char>>, i: int) -> nat
    decreases i,
{
    if i <= 0 {
        0
    } else {
        nonempty_cells(cells, i - 1) + if cells[i - 1].len() > 0 {
            1nat
        } else {
            0nat
        }
    }
}

/// Where every cell has text, every expression read from them has text.
proof fn lemma_groups_nonempty(ts: Seq<Seq<char>>)
    requires
        forall|k: int| 0 <= k < ts.len() ==> #[trigger] ts[k].len() > 0,
    ensures
        forall|k: int| 0 <= k < grouping(ts).0.len() ==> #[trigger] grouping(ts).0[k].len() > 0,
        ts.len() > 0 ==> grouping(ts).1.len() > 0,
    decreases ts.len(),
{
    if ts.len() > 0 {
        let init = ts.drop_last();
        assert forall|k: int| 0 <= k < init.len() implies #[trigger] init[k].len() > 0 by {
            assert(init[k] == ts[k]);
        }
        lemma_groups_nonempty(init);
        assert(ts.last() == ts[ts.len() - 1]);
        let p = grouping(init);
        if p.1.len() > 0 && is_reference(ts.last()) {
            assert forall|k: int| 0 <= k < p.0.push(p.1).len() implies #[trigger] p.0.push(
                p.1,
            )[k].len() > 0 by {
                if k < p.0.len() {
                    assert(p.0.push(p.1)[k] == p.0[k]);
                }
            }
        }
    }
}

/// Cells that receive an expression with text are the non-empty ones.
proof fn lemma_nonempty_is_filled(grid: Seq<usize>, g: Seq<Seq<char>>, i: int)
    requires
        0 <= i <= grid.len(),
        forall|k: int| 0 <= k < g.len() ==> #[trigger] g[k].len() > 0,
    ensures
        nonempty_cells(placed(grid, g), i) == filled_count(grid, g, i),
    decreases i,
{
    if i > 0 {
        lemma_nonempty_is_filled(grid, g, i - 1);
    }
}

/// Binding expressions are conserved: of the expressions found in the cell
/// list `n`, a table on the grid `lay` with `k` key cells shows the first
/// `min(k, found)`, the `r`-th of them in the `r`-th key cell, and every
/// gap of the grid is an empty cell. Where the list has cells and each has
/// text, exactly `min(k, found)` cells of the table are non-empty.
pub proof fn lemma_binding_count(n: SyntaxNode, lay: Grid)
    ensures
        ({
            let g = group_bindings(cell_texts(n));
            let k = key_count(lay.cells);
            let cells = binding_cells(n, lay);
            &&& cells.len() == lay.cells.len()
            &&& filled_count(lay.cells, g, lay.cells.len() as int) == if k < g.len() {
                k
            } else {
                g.len()
            }
            &&& forall|i: int|
                0 <= i < cells.len() && lay.cells[i] != 0 && rank(lay.cells, i) < g.len()
                    ==> #[trigger] cells[i] == g[rank(lay.cells, i) as int]
            &&& forall|i: int|
                0 <= i < cells.len() && !(lay.cells[i] != 0 && rank(lay.cells, i) < g.len())
                    ==> #[trigger] cells[i] == Seq::<char>::empty()
            &&& (cell_texts(n).len() > 0 && forall|k: int|
                0 <= k < cell_texts(n).len() ==> #[trigger] cell_texts(n)[k].len() > 0)
                ==> nonempty_cells(cells, cells.len() as int) == if k < g.len() {
                k
            } else {
                g.len()
            }
        }),
{
    let ts = cell_texts(n);
    let g = group_bindings(ts);
    lemma_filled_count(lay.cells, g, lay.cells.len() as int);
    if ts.len() > 0 && forall|k: int| 0 <= k < ts.len() ==> #[trigger] ts[k].len() > 0 {
        lemma_groups_nonempty(ts);
        assert forall|k: int| 0 <= k < g.len() implies #[trigger] g[k].len() > 0 by {
            if k < grouping(ts).0.len() {
                assert(g[k] == grouping(ts).0[k]);
            }
        }
        lemma_nonempty_is_filled(lay.cells, g, lay.cells.len() as int);
    }
}

/// Columns are aligned: in the table that writes `cells` in rows of `rs`,
/// each cell that does not end its row is written as its text followed by
/// spaces up to the width of its column plus three, that width being the
/// length of the column's longest cell; the cell that ends a row is written
/// as its text alone.
pub proof fn lemma_column_alignment(cells: Seq<Seq<char>>, rs: nat, ind: Seq<char>, k: int)
    requires
        rs > 0,
        0 <= k < cells.len(),
    ensures
        ({
            let c = (k % (rs as int)) as nat;
            let w = column_width(cells, rs, c);
            let head = if k % (rs as int) == 0 {
                seq!['\n'] + ind
            } else {
                Seq::empty()
            };
            &&& cells[k].len() <= w
            &&& forall|j: int|
                0 <= j < cells.len() && j % (rs as int) == c ==> #[trigger] cells[j].len() <= w
            &&& (w == 0 || exists|j: int|
                0 <= j < cells.len() && j % (rs as int) == c && #[trigger] cells[j].len() == w)
            &&& !ends_row(k, rs) ==> piece(cells, rs, ind, k) == head + cells[k] + spaces(
                (w + 3 - cells[k].len()) as nat,
            ) && (cells[k] + spaces((w + 3 - cells[k].len()) as nat)).len() == w + 3
            &&& ends_row(k, rs) ==> piece(cells, rs, ind, k) == head + cells[k]
        }),
{
    let c = (k % (rs as int)) as nat;
    lemma_column_width(cells, rs, c);
    assert(0 <= k % (rs as int) < rs);
}

/// Whether `x` stands in one of the texts `gs`.
pub open spec fn in_some(x: Seq<char>, gs: Seq<Seq<char>>) -> bool {
    exists|r: int| 0 <= r < gs.len() && occurs_in(x, #[trigger] gs[r])
}

/// One step of reading: a cell that stood in an expression, or in the one
/// being read, still does after the next cell is read, and so does the next
/// cell itself.
proof fn lemma_grouping_step(ts: Seq<Seq<char>>, m: int)
    requires
        0 <= m < ts.len(),
        m < ts.len() - 1 ==> in_some(ts[m], grouping(ts.drop_last()).0) || occurs_in(
            ts[m],
            grouping(ts.drop_last()).1,
        ),
    ensures
        in_some(ts[m], grouping(ts).0) || occurs_in(ts[m], grouping(ts).1),
{
    let p = grouping(ts.drop_last());
    let q = grouping(ts);
    let t = ts.last();
    let x = ts[m];
    if m == ts.len() - 1 {
        if p.1.len() > 0 && !is_reference(t) {
            lemma_occurs_between(p.1 + seq![' '], t, Seq::empty());
            assert(q.1 =~= p.1 + seq![' '] + t + Seq::<char>::empty());
        } else {
            lemma_occurs_between(Seq::empty(), t, Seq::empty());
            assert(q.1 =~= Seq::<char>::empty() + t + Seq::<char>::empty());
        }
    } else if in_some(x, p.0) {
        let r = choose|r: int| 0 <= r < p.0.len() && occurs_in(x, #[trigger] p.0[r]);
        assert(q.0[r] == p.0[r]);
    } else if p.1.len() > 0 && is_reference(t) {
        assert(q.0[p.0.len() as int] == p.1);
    } else if p.1.len() > 0 {
        lemma_occurs_within(x, Seq::empty(), p.1, seq![' '] + t);
        assert(q.1 =~= Seq::<char>::empty() + p.1 + (seq![' '] + t));
    } else {
        let k = choose|k: int|
            0 <= k && k + x.len() <= p.1.len() && #[trigger] p.1.subrange(k, k + x.len()) == x;
        lemma_occurs_between(Seq::empty(), x, t);
        assert(x =~= Seq::<char>::empty());
        assert(Seq::<char>::empty() + x + t =~= t);
    }
}

/// Every cell stands in the expression it was read into.
proof fn lemma_grouping_keeps(ts: Seq<Seq<char>>)
    ensures
        forall|m: int|
            0 <= m < ts.len() ==> in_some(#[trigger] ts[m], grouping(ts).0) || occurs_in(
                ts[m],
                grouping(ts).1,
            ),
    decreases ts.len(),
{
    if ts.len() > 0 {
        let init = ts.drop_last();
        lemma_grouping_keeps(init);
        assert forall|m: int| 0 <= m < ts.len() implies in_some(#[trigger] ts[m], grouping(ts).0)
            || occurs_in(ts[m], grouping(ts).1) by {
            if m < ts.len() - 1 {
                assert(init[m] == ts[m]);
            }
            lemma_grouping_step(ts, m);
        }
    }
}

/// Every cell of the list `n` stands in one of its binding expressions.
proof fn lemma_groups_keep_cells(n: SyntaxNode, k: int)
    requires
        1 <= k < cells_end(n),
    ensures
        in_some(n.children@[k].text@, group_bindings(cell_texts(n))),
{
    let ts = cell_texts(n);
    let g = group_bindings(ts);
    lemma_grouping_keeps(ts);
    assert(ts[k - 1] == n.children@[k].text@);
    let x = ts[k - 1];
    if in_some(x, grouping(ts).0) {
        let r = choose|r: int| 0 <= r < grouping(ts).0.len() && occurs_in(x, #[trigger] grouping(ts).0[r]);
        assert(g[r] == grouping(ts).0[r]);
    } else {
        assert(g[grouping(ts).0.len() as int] == grouping(ts).1);
    }
}

/// Below `rank(grid, i)`, every number is the rank of a key among the
/// first `i` cells.
proof fn lemma_rank_hits(grid: Seq<usize>, i: int, r: int)
    requires
        0 <= i <= grid.len(),
        0 <= r < rank(grid, i),
    ensures
        exists|c: int| 0 <= c < i && grid[c] != 0 && #[trigger] rank(grid, c) == r,
    decreases i,
{
    if r < rank(grid, i - 1) {
        lemma_rank_hits(grid, i - 1, r);
        let c = choose|c: int| 0 <= c < i - 1 && grid[c] != 0 && #[trigger] rank(grid, c) == r;
        assert(0 <= c < i);
    } else {
        assert(rank(grid, i - 1) == r);
    }
}

/// A table written further keeps what it wrote so far.
proof fn lemma_table_prefix(cells: Seq<Seq<char>>, rs: nat, ind: Seq<char>, k1: int, k2: int)
    requires
        0 <= k1 <= k2,
    ensures
        table(cells, rs, ind, k1).len() <= table(cells, rs, ind, k2).len(),
        table(cells, rs, ind, k2).subrange(0, table(cells, rs, ind, k1).len() as int) == table(
            cells,
            rs,
            ind,
            k1,
        ),
    decreases k2,
{
    let a = table(cells, rs, ind, k1);
    if k1 == k2 {
        assert(a.subrange(0, a.len() as int) =~= a);
    } else {
        lemma_table_prefix(cells, rs, ind, k1, k2 - 1);
        let b = table(cells, rs, ind, k2 - 1);
        let c = table(cells, rs, ind, k2);
        assert(c.subrange(0, a.len() as int) =~= b.subrange(0, a.len() as int));
    }
}

/// Each cell of a table stands in the written table.
proof fn lemma_table_holds(cells: Seq<Seq<char>>, rs: nat, ind: Seq<char>, i: int)
    requires
        0 <= i < cells.len(),
    ensures
        occurs_in(cells[i], table(cells, rs, ind, cells.len() as int)),
{
    let pre = table(cells, rs, ind, i);
    let pc = piece(cells, rs, ind, i);
    let head = if i % (rs as int) == 0 {
        seq!['\n'] + ind
    } else {
        Seq::empty()
    };
    let width = if ends_row(i, rs) {
        0
    } else {
        column_width(cells, rs, (i % (rs as int)) as nat) + 3
    };
    let rest = padded(cells[i], width).subrange(cells[i].len() as int, padded(cells[i], width).len() as int);
    assert(padded(cells[i], width) =~= cells[i] + rest);
    assert(table(cells, rs, ind, i + 1) =~= (pre + head) + cells[i] + rest);
    lemma_occurs_between(pre + head, cells[i], rest);
    lemma_table_prefix(cells, rs, ind, i + 1, cells.len() as int);
    let all = table(cells, rs, ind, cells.len() as int);
    let part = table(cells, rs, ind, i + 1);
    let p = choose|p: int| 0 <= p && p + cells[i].len() <= part.len() && #[trigger] part.subrange(p, p + cells[i].len()) == cells[i];
    assert(all.subrange(p, p + cells[i].len()) =~= part.subrange(p, p + cells[i].len()));
}

/// Where the grid has a key for every expression, every cell of the list
/// `n` stands in its binding table.
pub proof fn lemma_table_keeps_cells(n: SyntaxNode, ctx: Context, lay: Grid, k: int)
    requires
        group_bindings(cell_texts(n)).len() <= key_count(lay.cells),
        1 <= k < cells_end(n),
    ensures
        occurs_in(n.children@[k].text@, bindings_block(n, ctx, lay)),
{
    let g = group_bindings(cell_texts(n));
    let x = n.children@[k].text@;
    let cells = binding_cells(n, lay);
    lemma_groups_keep_cells(n, k);
    let r = choose|r: int| 0 <= r < g.len() && occurs_in(x, #[trigger] g[r]);
    lemma_rank_hits(lay.cells, lay.cells.len() as int, r);
    let c = choose|c: int| 0 <= c < lay.cells.len() && lay.cells[c] != 0 && #[trigger] rank(lay.cells, c) == r;
    assert(cells[c] == g[r]);
    let tb = table(cells, lay.row_size(), indent_text(ctx), cells.len() as int);
    lemma_table_holds(cells, lay.row_size(), indent_text(ctx), c);
    lemma_occurs_trans(x, g[r], tb);
    let tail = "\n"@ + indent_text(outer(ctx)) + ">"@;
    assert(bindings_block(n, ctx, lay) =~= "<"@ + tb + tail);
    lemma_occurs_within(x, "<"@, tb, tail);
}

} // verus!
