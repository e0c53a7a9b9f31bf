//! The render surface: a queue of draw calls over a grid of cells, and the
//! frame that was last painted.

use vstd::prelude::*;
use crate::color::Color;
use crate::frame::{
    batched, blank_frame, cell_paints, cells, changes, committed_after, is_last_write,
    lemma_batched_contains, lemma_cell_origin, lemma_last_call_wins, lemma_last_write_sets_color,
    lemma_merged_batches, lemma_no_survivor_no_paint, lemma_survivors_commit,
    lemma_survivors_upto, merged, paints_of, survives, survivors, survivors_upto, DrawCall, Paint,
};

verus! {

/// The side of a cell, in pixels, of a surface that was given no other.
pub const DEFAULT_CELL_SIZE: u32 = 40;

/// A render surface as the contracts see it.
pub struct CanvasView {
    /// The draw calls queued since the last flush, oldest first.
    pub pending: Seq<DrawCall>,
    /// What was last painted in each cell, by column, then by row.
    pub committed: Seq<Seq<Option<Color>>>,
    /// The side of a cell, in pixels.
    pub cell_size: nat,
    /// The margin of a cell that is drawn in the inverted color, in pixels.
    pub border: nat,
    /// The width of the surface, in pixels.
    pub canvas_width: nat,
    /// The height of the surface, in pixels.
    pub canvas_height: nat,
    /// The height of the part of the surface that is on screen, in pixels.
    pub screen: nat,
}

impl CanvasView {
    /// The number of columns of the grid.
    pub open spec fn width(self) -> nat {
        cells(self.canvas_width, self.cell_size)
    }

    /// The number of rows of the grid.
    pub open spec fn height(self) -> nat {
        cells(self.canvas_height, self.cell_size)
    }

    /// The number of rows that are on screen.
    pub open spec fn screen_height(self) -> nat {
        cells(self.screen, self.cell_size)
    }

    /// Whether `(x, y)` is a cell of the grid.
    pub open spec fn has_cell(self, x: int, y: int) -> bool {
        0 <= x < self.width() && 0 <= y < self.height()
    }

    /// What every surface satisfies: the cells have a size, the committed
    /// frame has the shape of the grid and every queued call names a cell
    /// of it.
    pub open spec fn wf(self) -> bool {
        &&& self.cell_size > 0
        &&& self.cell_size <= u32::MAX
        &&& self.border <= u32::MAX
        &&& self.canvas_width <= u32::MAX
        &&& self.canvas_height <= u32::MAX
        &&& self.screen <= u32::MAX
        &&& self.committed.len() == self.width()
        &&& forall|x: int|
            0 <= x < self.width() ==> (#[trigger] self.committed[x]).len() == self.height()
        &&& forall|i: int|
            0 <= i < self.pending.len() ==> self.has_cell(
                (#[trigger] self.pending[i]).x as int,
                self.pending[i].y as int,
            )
    }

    /// The rectangles that a flush paints, in order.
    pub open spec fn flush_paints(self) -> Seq<Paint> {
        paints_of(batched(survivors(self.pending, self.committed)), self.cell_size, self.border)
    }

    /// The surface after a flush.
    pub open spec fn flushed(self) -> CanvasView {
        CanvasView {
            pending: Seq::empty(),
            committed: committed_after(self.committed, self.pending),
            ..self
        }
    }

    /// The rectangle of the fading pass: the whole surface in black with
    /// `retention_factor` as its alpha.
    pub open spec fn fade(self, retention_factor: u8) -> Paint {
        Paint {
            color: Color::Rgba { r: 0, g: 0, b: 0, a: retention_factor },
            x: 0,
            y: 0,
            width: self.canvas_width as i64,
            height: self.canvas_height as i64,
        }
    }

    /// The surface with cells of another size: the grid is laid out anew
    /// and nothing counts as painted.
    pub open spec fn resized(self, cell_size: nat) -> CanvasView {
        CanvasView {
            cell_size,
            committed: blank_frame(
                cells(self.canvas_width, cell_size),
                cells(self.canvas_height, cell_size),
            ),
            ..self
        }
    }
}

/// The contents of a grid that is held column by column.
pub open spec fn grid_view<T>(grid: Vec<Vec<T>>) -> Seq<Seq<T>> {
    Seq::new(grid@.len(), |x: int| grid@[x]@)
}

/// Whether the grid has `width` columns of `height` cells each.
pub open spec fn grid_fits<T>(grid: Vec<Vec<T>>, width: nat, height: nat) -> bool {
    &&& grid@.len() == width
    &&& forall|x: int| 0 <= x < width ==> (#[trigger] grid@[x])@.len() == height
}

/// A render surface: the queue of draw calls and the committed frame.
pub struct Canvas {
    /// render calls queue
    queue: Vec<DrawCall>,
    last_frame: Vec<Vec<Option<Color>>>,
    /// for each cell, the place in the queue of a call that painted it
    last_index: Vec<Vec<usize>>,
    /// in pixels
    cell_size: u32,
    /// in pixels
    cell_border_size: u32,
    /// in cells
    width: usize,
    /// in cells
    height: usize,
    /// in cells
    screen_height: usize,
    /// in pixels
    base_screen_height: u32,
    /// in pixels
    canvas_width: u32,
    /// in pixels
    canvas_height: u32,
}

impl View for Canvas {
    type V = CanvasView;

    closed spec fn view(&self) -> CanvasView {
        CanvasView {
            pending: self.queue@,
            committed: grid_view(self.last_frame),
            cell_size: self.cell_size as nat,
            border: self.cell_border_size as nat,
            canvas_width: self.canvas_width as nat,
            canvas_height: self.canvas_height as nat,
            screen: self.base_screen_height as nat,
        }
    }
}

/// The number of cells of `cell` pixels that cover `length` pixels.
fn cells_across(length: u32, cell: u32) -> (count: usize)
    requires
        cell > 0,
    ensures
        count == cells(length as nat, cell as nat),
        count <= length,
{
    let whole: u32 = length / cell;
    if length % cell == 0 {
        assert(whole <= length) by (nonlinear_arith)
            requires
                whole == length / cell,
                cell > 0,
        ;
        whole as usize
    } else {
        assert(whole < length) by (nonlinear_arith)
            requires
                whole == length / cell,
                cell > 0,
                length % cell != 0,
        ;
        (whole + 1) as usize
    }
}

/// A grid of `width` columns and `height` rows that holds `value` everywhere.
fn filled_grid<T: Copy>(width: usize, height: usize, value: T) -> (grid: Vec<Vec<T>>)
    ensures
        grid_fits(grid, width as nat, height as nat),
        forall|x: int, y: int|
            0 <= x < width && 0 <= y < height ==> #[trigger] grid@[x]@[y] == value,
{
    let mut grid: Vec<Vec<T>> = Vec::new();
    let mut x: usize = 0;
    while x < width
        invariant
            x <= width,
            grid@.len() == x,
            forall|i: int| 0 <= i < x ==> (#[trigger] grid@[i])@.len() == height,
            forall|i: int, j: int| 0 <= i < x && 0 <= j < height ==> #[trigger] grid@[i]@[j] == value,
        decreases width - x,
    {
        let mut column: Vec<T> = Vec::new();
        let mut y: usize = 0;
        while y < height
            invariant
                y <= height,
                column@.len() == y,
                forall|j: int| 0 <= j < y ==> #[trigger] column@[j] == value,
            decreases height - y,
        {
            column.push(value);
            y = y + 1;
        }
        grid.push(column);
        x = x + 1;
    }
    grid
}

/// A grid has the shape that its contents have.
proof fn lemma_grid_view_fits<T>(grid: Vec<Vec<T>>, width: nat, height: nat)
    ensures
        grid_fits(grid, width, height) <==> (grid_view(grid).len() == width && forall|x: int|
            0 <= x < width ==> (#[trigger] grid_view(grid)[x]).len() == height),
{
    if grid_fits(grid, width, height) {
        assert forall|x: int| 0 <= x < width implies (#[trigger] grid_view(grid)[x]).len()
            == height by {
            assert(grid_view(grid)[x] == grid@[x]@);
        }
    }
    if grid_view(grid).len() == width && forall|x: int|
        0 <= x < width ==> (#[trigger] grid_view(grid)[x]).len() == height {
        assert forall|x: int| 0 <= x < width implies (#[trigger] grid@[x])@.len() == height by {
            assert(grid_view(grid)[x] == grid@[x]@);
        }
    }
}

/// Whether `mark` is the place of the last call among the first `upto`
/// that paints the cell of the call at `k`.
spec fn marks_last(queue: Seq<DrawCall>, upto: int, k: int, mark: int) -> bool {
    &&& k <= mark < upto
    &&& queue[mark].same_cell(queue[k])
    &&& forall|m: int| mark < m < upto ==> !(#[trigger] queue[m]).same_cell(queue[k])
}

/// Whether every call names a cell of a grid of `width` by `height` cells.
spec fn all_within(calls: Seq<DrawCall>, width: nat, height: nat) -> bool {
    forall|i: int| 0 <= i < calls.len() ==> (#[trigger] calls[i]).x < width && calls[i].y < height
}

/// Notes for each cell that the queue paints the place of the last call
/// that does so.
fn record_last_writes(
    queue: &Vec<DrawCall>,
    last_index: &mut Vec<Vec<usize>>,
    Ghost(width): Ghost<nat>,
    Ghost(height): Ghost<nat>,
)
    requires
        grid_fits(*old(last_index), width, height),
        all_within(queue@, width, height),
    ensures
        grid_fits(*final(last_index), width, height),
        forall|k: int|
            0 <= k < queue@.len() ==> marks_last(
                queue@,
                queue@.len() as int,
                k,
                final(last_index)@[(#[trigger] queue@[k]).x as int]@[queue@[k].y as int] as int,
            ),
{
    let mut i: usize = 0;
    while i < queue.len()
        invariant
            i <= queue@.len(),
            grid_fits(*last_index, width, height),
            all_within(queue@, width, height),
            forall|k: int|
                0 <= k < i ==> marks_last(
                    queue@,
                    i as int,
                    k,
                    last_index@[(#[trigger] queue@[k]).x as int]@[queue@[k].y as int] as int,
                ),
        decreases queue@.len() - i,
    {
        let call = queue[i];
        let ghost before = *last_index;
        last_index[call.x][call.y] = i;
        proof {
            assert forall|k: int| 0 <= k < i + 1 implies marks_last(
                queue@,
                i + 1,
                k,
                last_index@[(#[trigger] queue@[k]).x as int]@[queue@[k].y as int] as int,
            ) by {
                if queue@[k].same_cell(call) {
                } else {
                    assert(last_index@[queue@[k].x as int]@[queue@[k].y as int]
                        == before@[queue@[k].x as int]@[queue@[k].y as int]);
                    assert(marks_last(
                        queue@,
                        i as int,
                        k,
                        before@[queue@[k].x as int]@[queue@[k].y as int] as int,
                    ));
                }
            }
        }
        i = i + 1;
    }
}

/// Picks the calls that have to be painted: for each cell the last one
/// queued, unless it repeats the color committed there.
fn select_survivors(
    queue: &Vec<DrawCall>,
    frame: &Vec<Vec<Option<Color>>>,
    last_index: &Vec<Vec<usize>>,
    Ghost(width): Ghost<nat>,
    Ghost(height): Ghost<nat>,
) -> (kept: Vec<DrawCall>)
    requires
        grid_fits(*frame, width, height),
        grid_fits(*last_index, width, height),
        all_within(queue@, width, height),
        forall|k: int|
            0 <= k < queue@.len() ==> marks_last(
                queue@,
                queue@.len() as int,
                k,
                last_index@[(#[trigger] queue@[k]).x as int]@[queue@[k].y as int] as int,
            ),
    ensures
        kept@ == survivors(queue@, grid_view(*frame)),
{
    let mut kept: Vec<DrawCall> = Vec::new();
    let mut i: usize = 0;
    while i < queue.len()
        invariant
            i <= queue@.len(),
            grid_fits(*frame, width, height),
            grid_fits(*last_index, width, height),
            all_within(queue@, width, height),
            forall|k: int|
                0 <= k < queue@.len() ==> marks_last(
                    queue@,
                    queue@.len() as int,
                    k,
                    last_index@[(#[trigger] queue@[k]).x as int]@[queue@[k].y as int] as int,
                ),
            kept@ == survivors_upto(queue@, grid_view(*frame), i as nat),
        decreases queue@.len() - i,
    {
        let call = queue[i];
        let is_last: bool = last_index[call.x][call.y] == i;
        let repeats: bool = match frame[call.x][call.y] {
            Some(color) => color == call.color,
            None => false,
        };
        proof {
            let mark = last_index@[call.x as int]@[call.y as int] as int;
            assert(marks_last(queue@, queue@.len() as int, i as int, mark));
            if is_last_write(queue@, i as int) && mark != i {
                assert(!queue@[mark].same_cell(queue@[i as int]));
            }
            assert(is_last == is_last_write(queue@, i as int));
            assert(grid_view(*frame)[call.x as int] == frame@[call.x as int]@);
            assert(repeats == !changes(grid_view(*frame), call));
        }
        if is_last && !repeats {
            kept.push(call);
        }
        i = i + 1;
    }
    kept
}

/// Merges two batches into one: the calls of both by rank, those of
/// `first` before those of `second` where the ranks are equal.
fn merge(first: &Vec<DrawCall>, second: &Vec<DrawCall>) -> (both: Vec<DrawCall>)
    requires
        first@.len() + second@.len() <= usize::MAX,
    ensures
        both@ == merged(first@, second@),
        both@.len() == first@.len() + second@.len(),
{
    // lay both out in a row, then settle the places from the last one down
    let mut both: Vec<DrawCall> = Vec::new();
    let mut n: usize = 0;
    while n < first.len()
        invariant
            n <= first@.len(),
            both@ == first@.take(n as int),
        decreases first@.len() - n,
    {
        both.push(first[n]);
        proof {
            assert(first@.take(n + 1) =~= first@.take(n as int).push(first@[n as int]));
        }
        n = n + 1;
    }
    n = 0;
    while n < second.len()
        invariant
            n <= second@.len(),
            first@.len() + second@.len() <= usize::MAX,
            both@.len() == first@.len() + n,
            both@.take(first@.len() as int) == first@.take(first@.len() as int),
        decreases second@.len() - n,
    {
        both.push(second[n]);
        proof {
            assert(both@.take(first@.len() as int) =~= first@.take(first@.len() as int));
        }
        n = n + 1;
    }
    let mut i: usize = first.len();
    let mut j: usize = second.len();
    proof {
        assert(first@.take(i as int) =~= first@);
        assert(second@.take(j as int) =~= second@);
        assert(both@.skip(i + j) =~= Seq::<DrawCall>::empty());
        assert(merged(first@, second@) =~= merged(first@, second@) + both@.skip(i + j));
    }
    while j > 0
        invariant
            i <= first@.len(),
            j <= second@.len(),
            first@.len() + second@.len() <= usize::MAX,
            both@.len() == first@.len() + second@.len(),
            both@.take(i as int) == first@.take(i as int),
            merged(first@, second@) == merged(first@.take(i as int), second@.take(j as int))
                + both@.skip(i + j),
        decreases i + j,
    {
        let ghost heads = first@.take(i as int);
        let ghost tails = second@.take(j as int);
        let ghost settled = both@.skip(i + j);
        let from_first: bool = i > 0 && first[i - 1].color.sort_key() > second[j
            - 1].color.sort_key();
        if from_first {
            both[i + j - 1] = first[i - 1];
            proof {
                assert(heads.drop_last() =~= first@.take(i - 1));
                assert(both@.skip(i + j - 1) =~= seq![heads.last()] + settled);
                assert(merged(heads, tails) == merged(heads.drop_last(), tails).push(heads.last()));
                assert(merged(heads.drop_last(), tails).push(heads.last()) + settled =~= merged(
                    heads.drop_last(),
                    tails,
                ) + (seq![heads.last()] + settled));
                assert(both@.take(i - 1) =~= first@.take(i - 1));
            }
            i = i - 1;
        } else {
            both[i + j - 1] = second[j - 1];
            proof {
                assert(tails.drop_last() =~= second@.take(j - 1));
                assert(both@.skip(i + j - 1) =~= seq![tails.last()] + settled);
                if i == 0 {
                    assert(tails =~= tails.drop_last().push(tails.last()));
                    assert(merged(heads, tails.drop_last()) == tails.drop_last());
                }
                assert(merged(heads, tails) == merged(heads, tails.drop_last()).push(tails.last()));
                assert(merged(heads, tails.drop_last()).push(tails.last()) + settled =~= merged(
                    heads,
                    tails.drop_last(),
                ) + (seq![tails.last()] + settled));
                assert(both@.take(i as int) =~= first@.take(i as int));
            }
            j = j - 1;
        }
    }
    proof {
        assert(second@.take(0) =~= Seq::<DrawCall>::empty());
        assert(both@ =~= both@.take(i as int) + both@.skip(i as int));
    }
    both
}

/// Batches the calls from `from` up to `to`.
fn batch_range(calls: &Vec<DrawCall>, from: usize, to: usize) -> (ordered: Vec<DrawCall>)
    requires
        from <= to <= calls@.len(),
    ensures
        ordered@ == batched(calls@.subrange(from as int, to as int)),
        ordered@.len() == to - from,
    decreases to - from,
{
    let ghost part = calls@.subrange(from as int, to as int);
    let mut ordered: Vec<DrawCall> = Vec::new();
    if to - from == 0 {
        proof {
            assert(batched(part) =~= Seq::<DrawCall>::empty());
        }
        ordered
    } else if to - from == 1 {
        ordered.push(calls[from]);
        proof {
            assert(part.drop_last() =~= Seq::<DrawCall>::empty());
            assert(batched(part.drop_last()) =~= Seq::<DrawCall>::empty());
            assert(batched(part) =~= seq![calls@[from as int]]);
        }
        ordered
    } else {
        let middle: usize = from + (to - from) / 2;
        let first = batch_range(calls, from, middle);
        let second = batch_range(calls, middle, to);
        proof {
            lemma_merged_batches(
                calls@.subrange(from as int, middle as int),
                calls@.subrange(middle as int, to as int),
            );
            assert(calls@.subrange(from as int, middle as int) + calls@.subrange(
                middle as int,
                to as int,
            ) =~= part);
        }
        merge(&first, &second)
    }
}

/// Orders the calls by the rank of their color; calls of one color keep
/// their order.
fn batch(calls: &Vec<DrawCall>) -> (ordered: Vec<DrawCall>)
    ensures
        ordered@ == batched(calls@),
{
    proof {
        assert(calls@.subrange(0, calls@.len() as int) =~= calls@);
    }
    batch_range(calls, 0, calls.len())
}

/// Paints the calls in their order and notes each color in the frame.
fn paint_and_commit(
    calls: &Vec<DrawCall>,
    frame: &mut Vec<Vec<Option<Color>>>,
    cell_size: u32,
    border: u32,
    Ghost(width): Ghost<nat>,
    Ghost(height): Ghost<nat>,
) -> (paints: Vec<Paint>)
    requires
        cell_size > 0,
        grid_fits(*old(frame), width, height),
        all_within(calls@, width, height),
        forall|i: int|
            0 <= i < calls@.len() ==> (#[trigger] calls@[i]).x * cell_size <= u32::MAX && calls@[i].y
                * cell_size <= u32::MAX,
    ensures
        grid_fits(*final(frame), width, height),
        grid_view(*final(frame)) == committed_after(grid_view(*old(frame)), calls@),
        paints@ == paints_of(calls@, cell_size as nat, border as nat),
{
    let mut paints: Vec<Paint> = Vec::new();
    let mut k: usize = 0;
    proof {
        assert forall|x: int| 0 <= x < width implies #[trigger] grid_view(*frame)[x]
            =~= committed_after(grid_view(*old(frame)), calls@.take(0))[x] by {}
        assert(grid_view(*frame) =~= committed_after(grid_view(*old(frame)), calls@.take(0)));
    }
    while k < calls.len()
        invariant
            k <= calls@.len(),
            cell_size > 0,
            grid_fits(*frame, width, height),
            grid_fits(*old(frame), width, height),
            all_within(calls@, width, height),
            forall|i: int|
                0 <= i < calls@.len() ==> (#[trigger] calls@[i]).x * cell_size <= u32::MAX
                    && calls@[i].y * cell_size <= u32::MAX,
            grid_view(*frame) == committed_after(grid_view(*old(frame)), calls@.take(k as int)),
            paints@ == paints_of(calls@.take(k as int), cell_size as nat, border as nat),
        decreases calls@.len() - k,
    {
        let call = calls[k];
        proof {
            assert(call.x <= call.x * cell_size && call.y <= call.y * cell_size)
                by (nonlinear_arith)
                requires
                    cell_size > 0,
            ;
        }
        let left: i64 = call.x as i64 * cell_size as i64;
        let top: i64 = call.y as i64 * cell_size as i64;
        let ghost painted = paints@;
        // avoid the second rectangle if there is no border
        if border != 0 {
            paints.push(
                Paint {
                    color: call.color.invert(),
                    x: left,
                    y: top,
                    width: cell_size as i64,
                    height: cell_size as i64,
                },
            );
        }
        // center
        paints.push(
            Paint {
                color: call.color,
                x: left + border as i64,
                y: top + border as i64,
                width: cell_size as i64 - 2 * border as i64,
                height: cell_size as i64 - 2 * border as i64,
            },
        );
        let ghost before = *frame;
        frame[call.x][call.y] = Some(call.color);
        proof {
            let shown = calls@.take(k as int);
            let next = calls@.take(k + 1);
            assert(next.drop_last() =~= shown);
            assert(next.last() == call);
            assert(paints@ =~= painted + cell_paints(call, cell_size as nat, border as nat));
            let start = grid_view(*old(frame));
            assert forall|x: int| 0 <= x < width implies #[trigger] grid_view(*frame)[x]
                =~= committed_after(start, next)[x] by {
                assert(grid_view(before)[x] == committed_after(start, shown)[x]);
                assert forall|y: int| 0 <= y < height implies grid_view(*frame)[x][y]
                    == committed_after(start, next)[x][y] by {
                    assert(grid_view(before)[x][y] == committed_after(start, shown)[x][y]);
                }
            }
            assert(grid_view(*frame) =~= committed_after(start, next));
        }
        k = k + 1;
    }
    proof {
        assert(calls@.take(calls@.len() as int) =~= calls@);
    }
    paints
}

impl Canvas {
    /// Whether the surface is in order: its view is, and what it holds
    /// beside the view matches the grid.
    pub open spec fn wf(&self) -> bool {
        self@.wf() && self.consistent()
    }

    /// Whether what the surface holds beside its view matches the grid.
    pub closed spec fn consistent(&self) -> bool {
        &&& self.width == self@.width()
        &&& self.height == self@.height()
        &&& self.screen_height == self@.screen_height()
        &&& grid_fits(self.last_index, self@.width(), self@.height())
    }

    /// A surface of `canvas_width` by `canvas_height` pixels, of which no
    /// more than `window_height` pixels are on screen, with cells of the
    /// default size and no border. Nothing is queued and nothing painted.
    pub fn new(canvas_width: u32, canvas_height: u32, window_height: u32) -> (canvas: Canvas)
        ensures
            canvas.wf(),
            canvas@ == (CanvasView {
                pending: Seq::empty(),
                committed: blank_frame(
                    cells(canvas_width as nat, DEFAULT_CELL_SIZE as nat),
                    cells(canvas_height as nat, DEFAULT_CELL_SIZE as nat),
                ),
                cell_size: DEFAULT_CELL_SIZE as nat,
                border: 0,
                canvas_width: canvas_width as nat,
                canvas_height: canvas_height as nat,
                screen: if canvas_height <= window_height {
                    canvas_height as nat
                } else {
                    window_height as nat
                },
            }),
    {
        let base_screen_height: u32 = if canvas_height <= window_height {
            canvas_height
        } else {
            window_height
        };
        let mut canvas = Canvas {
            queue: Vec::new(),
            last_frame: Vec::new(),
            last_index: Vec::new(),
            cell_size: DEFAULT_CELL_SIZE,
            cell_border_size: 0,
            width: 0,
            height: 0,
            screen_height: 0,
            base_screen_height,
            canvas_width,
            canvas_height,
        };
        canvas.calculate_size();
        canvas
    }

    /// The same surface with cells of `cell_size` pixels. The grid is laid
    /// out anew, and nothing counts as painted any more.
    pub fn with_cell_size(self, cell_size: u32) -> (canvas: Canvas)
        requires
            self.wf(),
            cell_size > 0,
            forall|i: int|
                0 <= i < self@.pending.len() ==> self@.resized(cell_size as nat).has_cell(
                    (#[trigger] self@.pending[i]).x as int,
                    self@.pending[i].y as int,
                ),
        ensures
            canvas.wf(),
            canvas@ == self@.resized(cell_size as nat),
    {
        let mut canvas = self;
        canvas.cell_size = cell_size;
        canvas.calculate_size();
        canvas
    }

    /// The same surface with a border of `cell_border_size` pixels in each
    /// cell; `0` leaves the border out.
    pub fn with_cell_border_size(self, cell_border_size: u32) -> (canvas: Canvas)
        requires
            self.wf(),
        ensures
            canvas.wf(),
            canvas@ == (CanvasView { border: cell_border_size as nat, ..self@ }),
    {
        let mut canvas = self;
        canvas.cell_border_size = cell_border_size;
        canvas
    }

    /// Queues a draw call for the cell `(x, y)`.
    pub fn fill_rect(&mut self, x: usize, y: usize, color: Color)
        requires
            old(self).wf(),
            old(self)@.has_cell(x as int, y as int),
        ensures
            final(self).wf(),
            final(self)@ == (CanvasView {
                pending: old(self)@.pending.push(DrawCall { x, y, color }),
                ..old(self)@
            }),
    {
        self.queue.push(DrawCall { x, y, color });
    }

    /// The number of columns of the grid.
    pub fn width(&self) -> (width: usize)
        requires
            self.wf(),
        ensures
            width == self@.width(),
    {
        self.width
    }

    /// The number of rows of the grid.
    pub fn height(&self) -> (height: usize)
        requires
            self.wf(),
        ensures
            height == self@.height(),
    {
        self.height
    }

    /// The number of rows of the grid that are on screen.
    pub fn screen_height(&self) -> (height: usize)
        requires
            self.wf(),
        ensures
            height == self@.screen_height(),
    {
        self.screen_height
    }

    /// The number of draw calls that are queued.
    pub fn queued(&self) -> (count: usize)
        ensures
            count == self@.pending.len(),
    {
        self.queue.len()
    }

    /// What was last painted in the cell `(x, y)`, if anything was.
    pub fn committed(&self, x: usize, y: usize) -> (color: Option<Color>)
        requires
            self.wf(),
            self@.has_cell(x as int, y as int),
        ensures
            color == self@.committed[x as int][y as int],
    {
        assert(self@.committed[x as int] == self.last_frame@[x as int]@);
        self.last_frame[x][y]
    }

    /// Lays the grid out for the cell size at hand and forgets what was
    /// painted.
    fn calculate_size(&mut self)
        requires
            old(self).cell_size > 0,
            forall|i: int|
                0 <= i < old(self).queue@.len() ==> old(self)@.resized(
                    old(self).cell_size as nat,
                ).has_cell((#[trigger] old(self).queue@[i]).x as int, old(self).queue@[i].y as int),
        ensures
            final(self).wf(),
            final(self)@ == old(self)@.resized(old(self).cell_size as nat),
    {
        self.width = cells_across(self.canvas_width, self.cell_size);
        self.height = cells_across(self.canvas_height, self.cell_size);
        self.screen_height = cells_across(self.base_screen_height, self.cell_size);
        self.last_frame = filled_grid(self.width, self.height, None);
        self.last_index = filled_grid(self.width, self.height, 0);
        proof {
            let expected = old(self)@.resized(old(self).cell_size as nat);
            assert(self@.committed.len() == expected.committed.len());
            assert forall|x: int| 0 <= x < self@.committed.len() implies #[trigger] self@.committed[x]
                =~= expected.committed[x] by {}
            assert(self@.committed =~= expected.committed);
        }
    }

    /// Leaves in the queue the calls that have to be painted, in the order
    /// in which they are to be: the last call of each cell, unless it
    /// repeats what is committed there, batched by color.
    fn optimise_queue(&mut self)
        requires
            old(self).wf(),
        ensures
            final(self).wf(),
            final(self)@ == (CanvasView {
                pending: batched(survivors(old(self)@.pending, old(self)@.committed)),
                ..old(self)@
            }),
    {
        let ghost width = self@.width();
        let ghost height = self@.height();
        let ghost pending = self@.pending;
        let ghost committed = self@.committed;
        proof {
            lemma_grid_view_fits(self.last_frame, width, height);
        }
        // 1. remove duplicate draw calls to the same cell on the same frame
        record_last_writes(&self.queue, &mut self.last_index, Ghost(width), Ghost(height));
        // 2. remove calls for unchanged cells since last frame
        let kept = select_survivors(
            &self.queue,
            &self.last_frame,
            &self.last_index,
            Ghost(width),
            Ghost(height),
        );
        // 3. order calls by color to avoid changing the pen color each call
        self.queue = batch(&kept);
        proof {
            lemma_survivors_upto(pending, committed, pending.len());
            assert forall|k: int| 0 <= k < self.queue@.len() implies self@.has_cell(
                (#[trigger] self.queue@[k]).x as int,
                self.queue@[k].y as int,
            ) by {
                assert(self.queue@.contains(self.queue@[k]));
                lemma_batched_contains(kept@, self.queue@[k]);
                let m = choose|m: int| 0 <= m < kept@.len() && kept@[m] == self.queue@[k];
                let i = choose|i: int|
                    0 <= i < pending.len() && survives(pending, committed, i) && #[trigger] pending[i]
                        == kept@[m];
            }
        }
    }

    /// Reconciles the queue with the committed frame: returns the
    /// rectangles to paint, in order, notes the new colors as committed
    /// and empties the queue.
    pub fn flush(&mut self) -> (paints: Vec<Paint>)
        requires
            old(self).wf(),
        ensures
            final(self).wf(),
            final(self)@ == old(self)@.flushed(),
            paints@ == old(self)@.flush_paints(),
    {
        self.optimise_queue();
        let ghost width = self@.width();
        let ghost height = self@.height();
        proof {
            lemma_grid_view_fits(self.last_frame, width, height);
            assert forall|i: int| 0 <= i < self.queue@.len() implies (#[trigger] self.queue@[i]).x
                * self.cell_size <= u32::MAX && self.queue@[i].y * self.cell_size <= u32::MAX by {
                lemma_cell_origin(
                    self.canvas_width as nat,
                    self.cell_size as nat,
                    self.queue@[i].x as nat,
                );
                lemma_cell_origin(
                    self.canvas_height as nat,
                    self.cell_size as nat,
                    self.queue@[i].y as nat,
                );
            }
        }
        let paints = paint_and_commit(
            &self.queue,
            &mut self.last_frame,
            self.cell_size,
            self.cell_border_size,
            Ghost(width),
            Ghost(height),
        );
        self.queue.clear();
        proof {
            lemma_grid_view_fits(self.last_frame, width, height);
            lemma_survivors_commit(old(self)@.pending, old(self)@.committed);
        }
        paints
    }

    /// The rectangle of the fading pass, which is to be composited over
    /// the whole surface so that what is there keeps `retention_factor`
    /// of 255 parts of its opacity. Neither the queue nor the committed
    /// frame is touched.
    pub fn fill_canvas(&self, retention_factor: u8) -> (paint: Paint)
        requires
            self.wf(),
        ensures
            paint == self@.fade(retention_factor),
    {
        Paint {
            color: Color::Rgba { r: 0, g: 0, b: 0, a: retention_factor },
            x: 0,
            y: 0,
            width: self.canvas_width as i64,
            height: self.canvas_height as i64,
        }
    }
}

/// A flush that follows a flush paints nothing and changes nothing.
pub proof fn lemma_second_flush_paints_nothing(surface: CanvasView)
    ensures
        surface.flushed().flush_paints() == Seq::<Paint>::empty(),
        surface.flushed().flushed() == surface.flushed(),
{
    let once = surface.flushed();
    lemma_no_survivor_no_paint(once.pending, once.committed, once.cell_size, once.border);
    assert forall|x: int| 0 <= x < once.committed.len() implies #[trigger] committed_after(
        once.committed,
        once.pending,
    )[x] =~= once.committed[x] by {}
    assert(committed_after(once.committed, once.pending) =~= once.committed);
}

/// Calls that were flushed paint nothing when they are queued and flushed
/// once more: the committed frame holds their colors.
pub proof fn lemma_flushed_calls_paint_nothing(surface: CanvasView)
    requires
        surface.wf(),
    ensures
        (CanvasView { pending: surface.pending, ..surface.flushed() }).flush_paints() == Seq::<
            Paint,
        >::empty(),
{
    let queue = surface.pending;
    let after = surface.flushed().committed;
    assert forall|i: int| 0 <= i < queue.len() implies !survives(queue, after, i) by {
        if is_last_write(queue, i) {
            lemma_last_write_sets_color(queue, i);
            assert(surface.has_cell(queue[i].x as int, queue[i].y as int));
            assert(after[queue[i].x as int][queue[i].y as int] == Some(queue[i].color));
        }
    }
    lemma_no_survivor_no_paint(queue, after, surface.cell_size, surface.border);
}

/// Of two calls queued for one cell the second alone is painted, and not
/// even that one if it repeats the committed color.
pub proof fn lemma_second_of_two_calls_wins(surface: CanvasView, first: DrawCall, second: DrawCall)
    requires
        first.same_cell(second),
        surface.pending == seq![first, second],
    ensures
        surface.flush_paints() == (if changes(surface.committed, second) {
            cell_paints(second, surface.cell_size, surface.border)
        } else {
            Seq::<Paint>::empty()
        }),
{
    let queue = surface.pending;
    let frame = surface.committed;
    assert(queue[1].same_cell(queue[0]));
    assert(!is_last_write(queue, 0));
    assert(is_last_write(queue, 1));
    reveal_with_fuel(survivors_upto, 3);
    if changes(frame, second) {
        assert(survivors(queue, frame) =~= seq![second]);
        reveal_with_fuel(batched, 2);
        assert(seq![second].drop_last() =~= Seq::<DrawCall>::empty());
        assert(batched(seq![second]) =~= seq![second]);
        reveal_with_fuel(paints_of, 2);
        assert(surface.flush_paints() =~= cell_paints(second, surface.cell_size, surface.border));
    } else {
        assert(survivors(queue, frame) =~= Seq::<DrawCall>::empty());
    }
}

/// Calls that repeat what is committed in their cells are not painted,
/// and flushing them leaves the committed frame as it was.
pub proof fn lemma_unchanged_calls_paint_nothing(surface: CanvasView)
    requires
        surface.wf(),
        forall|i: int|
            0 <= i < surface.pending.len() ==> !changes(
                surface.committed,
                #[trigger] surface.pending[i],
            ),
    ensures
        surface.flush_paints() == Seq::<Paint>::empty(),
        surface.flushed().committed == surface.committed,
{
    let queue = surface.pending;
    let frame = surface.committed;
    lemma_no_survivor_no_paint(queue, frame, surface.cell_size, surface.border);
    lemma_survivors_commit(queue, frame);
    assert forall|x: int| 0 <= x < frame.len() implies #[trigger] committed_after(
        frame,
        Seq::<DrawCall>::empty(),
    )[x] =~= frame[x] by {}
    assert(committed_after(frame, Seq::<DrawCall>::empty()) =~= frame);
}

/// After a flush the committed frame holds, in the cell of every call
/// that was painted, the color of that call.
pub proof fn lemma_flush_commits_what_it_paints(surface: CanvasView)
    requires
        surface.wf(),
    ensures
        forall|k: int|
            0 <= k < batched(survivors(surface.pending, surface.committed)).len() ==> ({
                let call = #[trigger] batched(survivors(surface.pending, surface.committed))[k];
                surface.flushed().committed[call.x as int][call.y as int] == Some(call.color)
            }),
{
    let queue = surface.pending;
    let frame = surface.committed;
    let painted = batched(survivors(queue, frame));
    lemma_last_call_wins(queue, frame);
    lemma_survivors_upto(queue, frame, queue.len());
    assert forall|k: int| 0 <= k < painted.len() implies {
        let call = #[trigger] painted[k];
        surface.flushed().committed[call.x as int][call.y as int] == Some(call.color)
    } by {
        let call = painted[k];
        assert(painted.contains(call));
        lemma_batched_contains(survivors(queue, frame), call);
        let m = choose|m: int|
            0 <= m < survivors(queue, frame).len() && survivors(queue, frame)[m] == call;
        let i = choose|i: int|
            0 <= i < queue.len() && survives(queue, frame, i) && #[trigger] queue[i] == survivors(
                queue,
                frame,
            )[m];
        assert(surface.has_cell(queue[i].x as int, queue[i].y as int));
    }
}

} // verus!
