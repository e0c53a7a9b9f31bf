//! The mathematics of one frame: which queued draw calls survive, in what
//! order they are painted, and what the committed frame holds afterwards.

use vstd::prelude::*;
use vstd::seq_lib::{to_multiset_build, to_multiset_contains, to_multiset_insert};
use crate::color::Color;

verus! {

/// A queued request to paint one cell.
#[derive(Clone, Copy, PartialEq, Eq, Debug, Structural)]
pub struct DrawCall {
    /// Column of the cell.
    pub x: usize,
    /// Row of the cell.
    pub y: usize,
    pub color: Color,
}

/// One rectangle to fill on the surface, in pixels, after setting the fill
/// color. A negative width or height is handed on as it is.
#[derive(Clone, Copy, PartialEq, Eq, Debug, Structural)]
pub struct Paint {
    pub color: Color,
    pub x: i64,
    pub y: i64,
    pub width: i64,
    pub height: i64,
}

impl DrawCall {
    /// Whether the call paints the cell `(x, y)`.
    pub open spec fn targets(self, x: int, y: int) -> bool {
        self.x == x && self.y == y
    }

    /// Whether two calls paint the same cell.
    pub open spec fn same_cell(self, other: DrawCall) -> bool {
        self.x == other.x && self.y == other.y
    }
}

/// The number of cells of size `cell` that it takes to cover `length`:
/// the quotient, rounded up.
pub open spec fn cells(length: nat, cell: nat) -> nat
    recommends
        cell > 0,
{
    if length % cell == 0 {
        length / cell
    } else {
        length / cell + 1
    }
}

/// The color that the queue leaves in the cell `(x, y)`: that of the last
/// call queued for it, if there is one.
pub open spec fn last_color(queue: Seq<DrawCall>, x: int, y: int) -> Option<Color>
    decreases queue.len(),
{
    if queue.len() == 0 {
        None
    } else if queue.last().targets(x, y) {
        Some(queue.last().color)
    } else {
        last_color(queue.drop_last(), x, y)
    }
}

/// Whether no later call in the queue paints the cell of the call at `i`.
pub open spec fn is_last_write(queue: Seq<DrawCall>, i: int) -> bool {
    forall|j: int| i < j < queue.len() ==> !(#[trigger] queue[j]).same_cell(queue[i])
}

/// Whether painting `call` would change what `frame` holds for its cell.
pub open spec fn changes(frame: Seq<Seq<Option<Color>>>, call: DrawCall) -> bool {
    frame[call.x as int][call.y as int] != Some(call.color)
}

/// Whether the call at `i` has to be painted: it is the last one for its
/// cell and its color is not the one committed there.
pub open spec fn survives(queue: Seq<DrawCall>, frame: Seq<Seq<Option<Color>>>, i: int) -> bool {
    is_last_write(queue, i) && changes(frame, queue[i])
}

/// The calls among the first `n` of the queue that have to be painted, in
/// queue order.
pub open spec fn survivors_upto(
    queue: Seq<DrawCall>,
    frame: Seq<Seq<Option<Color>>>,
    n: nat,
) -> Seq<DrawCall>
    decreases n,
{
    if n == 0 {
        Seq::empty()
    } else {
        let before = survivors_upto(queue, frame, (n - 1) as nat);
        if survives(queue, frame, n - 1) {
            before.push(queue[n - 1])
        } else {
            before
        }
    }
}

/// The calls of the queue that have to be painted, in queue order.
pub open spec fn survivors(queue: Seq<DrawCall>, frame: Seq<Seq<Option<Color>>>) -> Seq<DrawCall> {
    survivors_upto(queue, frame, queue.len())
}

/// Where a call of rank `rank` goes into a batched sequence: behind the
/// last call whose rank is not above it.
pub open spec fn slot(batch: Seq<DrawCall>, rank: nat) -> nat
    decreases batch.len(),
{
    if batch.len() == 0 {
        0
    } else if batch.last().color.rank() <= rank {
        batch.len()
    } else {
        slot(batch.drop_last(), rank)
    }
}

/// The calls ordered by the rank of their color; calls of one color keep
/// their order.
pub open spec fn batched(calls: Seq<DrawCall>) -> Seq<DrawCall>
    decreases calls.len(),
{
    if calls.len() == 0 {
        Seq::empty()
    } else {
        let before = batched(calls.drop_last());
        before.insert(slot(before, calls.last().color.rank()) as int, calls.last())
    }
}

/// Two batched sequences as one: the calls of both, ordered by rank, with
/// those of `first` before those of `second` where the ranks are equal.
pub open spec fn merged(first: Seq<DrawCall>, second: Seq<DrawCall>) -> Seq<DrawCall>
    decreases first.len() + second.len(),
{
    if second.len() == 0 {
        first
    } else if first.len() == 0 {
        second
    } else if first.last().color.rank() > second.last().color.rank() {
        merged(first.drop_last(), second).push(first.last())
    } else {
        merged(first, second.drop_last()).push(second.last())
    }
}

/// Whether the ranks of the colors never fall along the sequence.
pub open spec fn is_batched(calls: Seq<DrawCall>) -> bool {
    forall|i: int, j: int|
        0 <= i <= j < calls.len() ==> (#[trigger] calls[i]).color.rank() <= (
        #[trigger] calls[j]).color.rank()
}

/// The calls of the sequence that carry `color`, in their order.
pub open spec fn of_color(calls: Seq<DrawCall>, color: Color) -> Seq<DrawCall> {
    calls.filter(|call: DrawCall| call.color == color)
}

/// Whether no two calls of the sequence paint the same cell.
pub open spec fn one_call_per_cell(calls: Seq<DrawCall>) -> bool {
    forall|i: int, j: int|
        0 <= i < j < calls.len() ==> !(#[trigger] calls[i]).same_cell(#[trigger] calls[j])
}

/// The rectangles that paint one call on cells of `cell` pixels: with a
/// border, the whole cell in the inverted color first, then the inset
/// rectangle in the color itself; without one, the cell alone.
pub open spec fn cell_paints(call: DrawCall, cell: nat, border: nat) -> Seq<Paint> {
    let inset = Paint {
        color: call.color,
        x: (call.x * cell + border) as i64,
        y: (call.y * cell + border) as i64,
        width: (cell - 2 * border) as i64,
        height: (cell - 2 * border) as i64,
    };
    if border != 0 {
        seq![
            Paint {
                color: call.color.inverted(),
                x: (call.x * cell) as i64,
                y: (call.y * cell) as i64,
                width: cell as i64,
                height: cell as i64,
            },
            inset,
        ]
    } else {
        seq![inset]
    }
}

/// The rectangles that paint the calls, one call after the other.
pub open spec fn paints_of(calls: Seq<DrawCall>, cell: nat, border: nat) -> Seq<Paint>
    decreases calls.len(),
{
    if calls.len() == 0 {
        Seq::empty()
    } else {
        paints_of(calls.drop_last(), cell, border) + cell_paints(calls.last(), cell, border)
    }
}

/// The frame after every call of the queue was painted over it.
pub open spec fn committed_after(
    frame: Seq<Seq<Option<Color>>>,
    queue: Seq<DrawCall>,
) -> Seq<Seq<Option<Color>>> {
    Seq::new(
        frame.len(),
        |x: int|
            Seq::new(
                frame[x].len(),
                |y: int|
                    match last_color(queue, x, y) {
                        Some(color) => Some(color),
                        None => frame[x][y],
                    },
            ),
    )
}

/// A frame of `width` columns and `height` rows in which nothing was
/// painted yet.
pub open spec fn blank_frame(width: nat, height: nat) -> Seq<Seq<Option<Color>>> {
    Seq::new(width, |x: int| Seq::new(height, |y: int| None))
}

/// Whether the call at `i` is the last one that the queue holds for the
/// cell `(x, y)`.
pub open spec fn is_last_write_to(queue: Seq<DrawCall>, i: int, x: int, y: int) -> bool {
    0 <= i < queue.len() && queue[i].targets(x, y) && is_last_write(queue, i)
}

/// The color that the queue leaves in a cell is that of the last call
/// queued for the cell; it leaves none where no call names the cell.
pub proof fn lemma_last_color_is_last_write(queue: Seq<DrawCall>, x: int, y: int)
    ensures
        (match last_color(queue, x, y) {
            Some(color) => exists|i: int| #[trigger]
                is_last_write_to(queue, i, x, y) && queue[i].color == color,
            None => forall|i: int| 0 <= i < queue.len() ==> !(#[trigger] queue[i]).targets(x, y),
        }),
    decreases queue.len(),
{
    if queue.len() == 0 {
    } else if queue.last().targets(x, y) {
        assert(is_last_write_to(queue, queue.len() - 1, x, y));
    } else {
        let shorter = queue.drop_last();
        lemma_last_color_is_last_write(shorter, x, y);
        match last_color(shorter, x, y) {
            Some(color) => {
                let i = choose|i: int| #[trigger]
                    is_last_write_to(shorter, i, x, y) && shorter[i].color == color;
                assert forall|j: int| i < j < queue.len() implies !(#[trigger] queue[j]).same_cell(
                    queue[i],
                ) by {
                    if j < shorter.len() {
                        assert(shorter[j] == queue[j]);
                    }
                }
                assert(is_last_write_to(queue, i, x, y));
            },
            None => {
                assert forall|i: int| 0 <= i < queue.len() implies !(#[trigger] queue[i]).targets(
                    x,
                    y,
                ) by {
                    if i < shorter.len() {
                        assert(shorter[i] == queue[i]);
                    }
                }
            },
        }
    }
}

/// A call that no later call overwrites gives its cell its color.
pub proof fn lemma_last_write_sets_color(queue: Seq<DrawCall>, i: int)
    requires
        0 <= i < queue.len(),
        is_last_write(queue, i),
    ensures
        last_color(queue, queue[i].x as int, queue[i].y as int) == Some(queue[i].color),
    decreases queue.len(),
{
    if i == queue.len() - 1 {
    } else {
        let shorter = queue.drop_last();
        assert(!queue[queue.len() - 1].same_cell(queue[i]));
        assert forall|j: int| i < j < shorter.len() implies !(#[trigger] shorter[j]).same_cell(
            shorter[i],
        ) by {
            assert(shorter[j] == queue[j]);
        }
        lemma_last_write_sets_color(shorter, i);
    }
}

/// The survivors among the first `n` calls are the calls at the places
/// below `n` that survive, and no others.
pub proof fn lemma_survivors_upto(queue: Seq<DrawCall>, frame: Seq<Seq<Option<Color>>>, n: nat)
    requires
        n <= queue.len(),
    ensures
        forall|k: int|
            0 <= k < survivors_upto(queue, frame, n).len() ==> exists|i: int|
                0 <= i < n && survives(queue, frame, i) && #[trigger] queue[i] == (
                #[trigger] survivors_upto(queue, frame, n)[k]),
        forall|i: int|
            0 <= i < n && survives(queue, frame, i) ==> survivors_upto(queue, frame, n).contains(
                #[trigger] queue[i],
            ),
    decreases n,
{
    if n > 0 {
        let before = survivors_upto(queue, frame, (n - 1) as nat);
        let now = survivors_upto(queue, frame, n);
        lemma_survivors_upto(queue, frame, (n - 1) as nat);
        assert forall|k: int| 0 <= k < now.len() implies exists|i: int|
            0 <= i < n && survives(queue, frame, i) && #[trigger] queue[i] == (#[trigger] now[k]) by {
            if k < before.len() {
                assert(now[k] == before[k]);
                let i = choose|i: int|
                    0 <= i < n - 1 && survives(queue, frame, i) && #[trigger] queue[i] == before[k];
                assert(0 <= i < n && survives(queue, frame, i) && queue[i] == now[k]);
            } else {
                assert(survives(queue, frame, n - 1) && queue[n - 1] == now[k]);
            }
        }
        assert forall|i: int| 0 <= i < n && survives(queue, frame, i) implies now.contains(
            #[trigger] queue[i],
        ) by {
            if i < n - 1 {
                assert(before.contains(queue[i]));
                let k = choose|k: int| 0 <= k < before.len() && before[k] == queue[i];
                assert(now[k] == queue[i]);
            } else {
                assert(now[now.len() - 1] == queue[i]);
            }
        }
    }
}

/// Batching reorders the calls: it neither drops nor adds one.
pub proof fn lemma_batched_permutes(calls: Seq<DrawCall>)
    ensures
        batched(calls).to_multiset() == calls.to_multiset(),
        batched(calls).len() == calls.len(),
    decreases calls.len(),
{
    if calls.len() == 0 {
        assert(calls =~= Seq::<DrawCall>::empty());
    } else {
        let shorter = calls.drop_last();
        let before = batched(shorter);
        lemma_batched_permutes(shorter);
        lemma_slot_within(before, calls.last().color.rank());
        let at = slot(before, calls.last().color.rank()) as int;
        to_multiset_insert(before, at, calls.last());
        to_multiset_build(shorter, calls.last());
        assert(shorter.push(calls.last()) =~= calls);
        before.insert_ensures(at, calls.last());
        assert(batched(calls) == before.insert(at, calls.last()));
        assert(batched(calls).to_multiset() == shorter.to_multiset().insert(calls.last()));
    }
}

/// A slot lies within the batch or right behind it.
pub proof fn lemma_slot_within(batch: Seq<DrawCall>, rank: nat)
    ensures
        slot(batch, rank) <= batch.len(),
    decreases batch.len(),
{
    if batch.len() > 0 && batch.last().color.rank() > rank {
        lemma_slot_within(batch.drop_last(), rank);
    }
}

/// Putting a call into its slot in a merge is merging with the second
/// part after the call was put into its slot there.
pub proof fn lemma_merged_takes_call(first: Seq<DrawCall>, second: Seq<DrawCall>, call: DrawCall)
    ensures
        merged(first, second).insert(
            slot(merged(first, second), call.color.rank()) as int,
            call,
        ) == merged(first, second.insert(slot(second, call.color.rank()) as int, call)),
    decreases first.len() + second.len(),
{
    let rank = call.color.rank();
    let whole = merged(first, second);
    let grown = second.insert(slot(second, rank) as int, call);
    lemma_slot_within(second, rank);
    lemma_slot_within(whole, rank);
    second.insert_ensures(slot(second, rank) as int, call);
    whole.insert_ensures(slot(whole, rank) as int, call);
    if second.len() == 0 {
        assert(grown =~= seq![call]);
        assert(grown.drop_last() =~= second);
        assert(whole == first);
        if first.len() == 0 {
            assert(whole.insert(0, call) =~= grown);
        } else if first.last().color.rank() > rank {
            let shorter = first.drop_last();
            lemma_merged_takes_call(shorter, second, call);
            lemma_slot_within(shorter, rank);
            assert(merged(shorter, second) == shorter);
            assert(merged(shorter, grown) == shorter.insert(slot(shorter, rank) as int, call));
            assert(slot(first, rank) == slot(shorter, rank));
            assert(first.insert(slot(shorter, rank) as int, call) =~= shorter.insert(
                slot(shorter, rank) as int,
                call,
            ).push(first.last()));
            assert(merged(first, grown) == merged(shorter, grown).push(first.last()));
        } else {
            assert(slot(first, rank) == first.len());
            assert(first.insert(first.len() as int, call) =~= first.push(call));
            assert(merged(first, grown) == merged(first, second).push(call));
        }
    } else if first.len() == 0 {
        assert(whole == second);
        assert(merged(first, grown) == grown);
    } else if first.last().color.rank() > second.last().color.rank() {
        let shorter = first.drop_last();
        let inner = merged(shorter, second);
        assert(whole == inner.push(first.last()));
        assert(whole.drop_last() =~= inner);
        if first.last().color.rank() <= rank {
            assert(slot(whole, rank) == whole.len());
            assert(whole.insert(whole.len() as int, call) =~= whole.push(call));
            assert(slot(second, rank) == second.len());
            assert(grown =~= second.push(call));
            assert(grown.drop_last() =~= second);
            assert(merged(first, grown) == merged(first, second).push(call));
        } else {
            lemma_merged_takes_call(shorter, second, call);
            lemma_slot_within(inner, rank);
            assert(slot(whole, rank) == slot(inner, rank));
            assert(whole.insert(slot(inner, rank) as int, call) =~= inner.insert(
                slot(inner, rank) as int,
                call,
            ).push(first.last()));
            if second.last().color.rank() <= rank {
                assert(slot(second, rank) == second.len());
                assert(grown =~= second.push(call));
            } else {
                lemma_slot_within(second.drop_last(), rank);
                assert(slot(second, rank) == slot(second.drop_last(), rank));
                assert(grown =~= second.drop_last().insert(
                    slot(second.drop_last(), rank) as int,
                    call,
                ).push(second.last()));
            }
            assert(grown.last().color.rank() < first.last().color.rank());
            assert(merged(first, grown) == merged(shorter, grown).push(first.last()));
        }
    } else {
        let shorter = second.drop_last();
        let inner = merged(first, shorter);
        assert(whole == inner.push(second.last()));
        assert(whole.drop_last() =~= inner);
        if second.last().color.rank() <= rank {
            assert(slot(whole, rank) == whole.len());
            assert(whole.insert(whole.len() as int, call) =~= whole.push(call));
            assert(slot(second, rank) == second.len());
            assert(grown =~= second.push(call));
            assert(grown.drop_last() =~= second);
            assert(merged(first, grown) == merged(first, second).push(call));
        } else {
            lemma_merged_takes_call(first, shorter, call);
            lemma_slot_within(inner, rank);
            lemma_slot_within(shorter, rank);
            assert(slot(whole, rank) == slot(inner, rank));
            assert(whole.insert(slot(inner, rank) as int, call) =~= inner.insert(
                slot(inner, rank) as int,
                call,
            ).push(second.last()));
            let grown_shorter = shorter.insert(slot(shorter, rank) as int, call);
            assert(slot(second, rank) == slot(shorter, rank));
            assert(grown =~= grown_shorter.push(second.last()));
            assert(grown.drop_last() =~= grown_shorter);
            assert(merged(first, grown) == merged(first, grown_shorter).push(second.last()));
        }
    }
}

/// Batching two sequences one after the other and merging the batches is
/// batching the two as one.
pub proof fn lemma_merged_batches(first: Seq<DrawCall>, second: Seq<DrawCall>)
    ensures
        merged(batched(first), batched(second)) == batched(first + second),
    decreases second.len(),
{
    if second.len() == 0 {
        assert(first + second =~= first);
    } else {
        let shorter = second.drop_last();
        lemma_merged_batches(first, shorter);
        lemma_merged_takes_call(batched(first), batched(shorter), second.last());
        assert((first + second).drop_last() =~= first + shorter);
    }
}

/// A call is among the batched ones exactly if it was among the calls.
pub proof fn lemma_batched_contains(calls: Seq<DrawCall>, call: DrawCall)
    ensures
        batched(calls).contains(call) <==> calls.contains(call),
{
    lemma_batched_permutes(calls);
    to_multiset_contains(batched(calls), call);
    to_multiset_contains(calls, call);
}

/// Painting the batched survivors leaves the frame as painting every
/// queued call in turn would: a call that is overwritten or repeats what is
/// committed changes nothing.
pub proof fn lemma_survivors_commit(queue: Seq<DrawCall>, frame: Seq<Seq<Option<Color>>>)
    ensures
        committed_after(frame, batched(survivors(queue, frame))) == committed_after(frame, queue),
{
    let kept = survivors(queue, frame);
    let painted = batched(kept);
    assert forall|x: int, y: int|
        0 <= x < frame.len() && 0 <= y < frame[x].len() implies #[trigger] committed_after(
        frame,
        painted,
    )[x][y] == committed_after(frame, queue)[x][y] by {
        lemma_last_color_is_last_write(painted, x, y);
        lemma_last_color_is_last_write(queue, x, y);
        lemma_survivors_upto(queue, frame, queue.len());
        match last_color(painted, x, y) {
            Some(color) => {
                let k = choose|k: int| #[trigger]
                    is_last_write_to(painted, k, x, y) && painted[k].color == color;
                assert(painted.contains(painted[k]));
                lemma_batched_contains(kept, painted[k]);
                let m = choose|m: int| 0 <= m < kept.len() && kept[m] == painted[k];
                let i = choose|i: int|
                    0 <= i < queue.len() && survives(queue, frame, i) && #[trigger] queue[i]
                        == kept[m];
                lemma_last_write_sets_color(queue, i);
            },
            None => {
                match last_color(queue, x, y) {
                    Some(color) => {
                        let i = choose|i: int| #[trigger]
                            is_last_write_to(queue, i, x, y) && queue[i].color == color;
                        if frame[x][y] != Some(color) {
                            assert(survives(queue, frame, i));
                            assert(kept.contains(queue[i]));
                            lemma_batched_contains(kept, queue[i]);
                            let k = choose|k: int| 0 <= k < painted.len() && painted[k] == queue[i];
                            assert(painted[k].targets(x, y));
                        }
                    },
                    None => {},
                }
            },
        }
    }
    assert forall|x: int| 0 <= x < frame.len() implies #[trigger] committed_after(frame, painted)[x]
        =~= committed_after(frame, queue)[x] by {}
    assert(committed_after(frame, painted) =~= committed_after(frame, queue));
}

/// The first pixel of the cell at `at` lies on the surface.
pub proof fn lemma_cell_origin(length: nat, cell: nat, at: nat)
    requires
        cell > 0,
        at < cells(length, cell),
    ensures
        at * cell < length,
{
    assert(at * cell < length) by (nonlinear_arith)
        requires
            cell > 0,
            at < cells(length, cell),
            cells(length, cell) == if length % cell == 0 {
                length / cell
            } else {
                length / cell + 1
            },
    ;
}

/// The number of cells is the quotient of the two lengths, rounded up:
/// the cells cover the length, and one cell fewer would not.
pub proof fn lemma_cells_is_ceiling(length: nat, cell: nat)
    requires
        cell > 0,
    ensures
        cells(length, cell) * cell >= length,
        length > 0 ==> (cells(length, cell) - 1) * cell < length,
        length == 0 ==> cells(length, cell) == 0,
{
    assert(cells(length, cell) * cell >= length && (length > 0 ==> (cells(length, cell) - 1) * cell
        < length) && (length == 0 ==> cells(length, cell) == 0)) by (nonlinear_arith)
        requires
            cell > 0,
            cells(length, cell) == if length % cell == 0 {
                length / cell
            } else {
                length / cell + 1
            },
    ;
}

/// From its slot on, a batch holds only calls of a higher rank; right
/// before the slot stands one whose rank is not higher.
pub proof fn lemma_slot_splits(batch: Seq<DrawCall>, rank: nat)
    ensures
        slot(batch, rank) <= batch.len(),
        forall|i: int|
            slot(batch, rank) <= i < batch.len() ==> (#[trigger] batch[i]).color.rank() > rank,
        slot(batch, rank) > 0 ==> batch[slot(batch, rank) - 1].color.rank() <= rank,
    decreases batch.len(),
{
    if batch.len() > 0 && batch.last().color.rank() > rank {
        let shorter = batch.drop_last();
        lemma_slot_splits(shorter, rank);
        assert forall|i: int| slot(batch, rank) <= i < batch.len() implies (
        #[trigger] batch[i]).color.rank() > rank by {
            if i < shorter.len() {
                assert(shorter[i] == batch[i]);
            }
        }
    }
}

/// Batched calls are ordered by the rank of their color.
pub proof fn lemma_batched_is_ordered(calls: Seq<DrawCall>)
    ensures
        is_batched(batched(calls)),
    decreases calls.len(),
{
    if calls.len() > 0 {
        let before = batched(calls.drop_last());
        let call = calls.last();
        let rank = call.color.rank();
        let at = slot(before, rank) as int;
        let after = before.insert(at, call);
        lemma_batched_is_ordered(calls.drop_last());
        lemma_slot_splits(before, rank);
        before.insert_ensures(at, call);
        assert forall|i: int, j: int| 0 <= i <= j < after.len() implies (
        #[trigger] after[i]).color.rank() <= (#[trigger] after[j]).color.rank() by {
            if j < at {
                assert(after[i] == before[i] && after[j] == before[j]);
            } else if j == at {
                if i < at {
                    assert(after[i] == before[i]);
                    assert(before[i].color.rank() <= before[at - 1].color.rank());
                }
            } else {
                assert(after[j] == before[j - 1]);
                if i < at {
                    assert(after[i] == before[i]);
                } else if i == at {
                } else {
                    assert(after[i] == before[i - 1]);
                }
            }
        }
    }
}

/// Batching keeps the calls of one color in the order in which they came.
pub proof fn lemma_batched_is_stable(calls: Seq<DrawCall>, color: Color)
    ensures
        of_color(batched(calls), color) == of_color(calls, color),
    decreases calls.len(),
{
    let wanted = |call: DrawCall| call.color == color;
    if calls.len() == 0 {
        assert(calls =~= batched(calls));
    } else {
        let shorter = calls.drop_last();
        let before = batched(shorter);
        let call = calls.last();
        let rank = call.color.rank();
        let at = slot(before, rank) as int;
        let head = before.take(at);
        let tail = before.skip(at);
        lemma_batched_is_stable(shorter, color);
        lemma_slot_splits(before, rank);
        assert(before =~= head + tail);
        assert(batched(calls) =~= head.push(call) + tail);
        assert(calls =~= shorter.push(call));
        Seq::filter_distributes_over_add(head, tail, wanted);
        Seq::filter_distributes_over_add(head.push(call), tail, wanted);
        head.lemma_filter_push(call, wanted);
        shorter.lemma_filter_push(call, wanted);
        if call.color == color {
            assert forall|i: int| 0 <= i < tail.len() implies !wanted(#[trigger] tail[i]) by {
                assert(tail[i] == before[at + i]);
            }
            tail.lemma_all_neg_filter_empty(wanted);
            assert(tail.filter(wanted) =~= Seq::<DrawCall>::empty());
            assert(of_color(batched(calls), color) =~= head.filter(wanted).push(call));
            assert(of_color(before, color) =~= head.filter(wanted));
        } else {
            assert(of_color(batched(calls), color) =~= of_color(before, color));
        }
    }
}

/// Among the survivors no cell is named twice.
pub proof fn lemma_survivors_name_each_cell_once(
    queue: Seq<DrawCall>,
    frame: Seq<Seq<Option<Color>>>,
    n: nat,
)
    requires
        n <= queue.len(),
    ensures
        one_call_per_cell(survivors_upto(queue, frame, n)),
    decreases n,
{
    if n > 0 {
        let before = survivors_upto(queue, frame, (n - 1) as nat);
        let now = survivors_upto(queue, frame, n);
        lemma_survivors_name_each_cell_once(queue, frame, (n - 1) as nat);
        lemma_survivors_upto(queue, frame, (n - 1) as nat);
        assert forall|i: int, j: int| 0 <= i < j < now.len() implies !(#[trigger] now[i]).same_cell(
            #[trigger] now[j],
        ) by {
            if j < before.len() {
                assert(now[i] == before[i] && now[j] == before[j]);
            } else {
                assert(now[i] == before[i]);
                let m = choose|m: int|
                    0 <= m < n - 1 && survives(queue, frame, m) && #[trigger] queue[m] == before[i];
                assert(!queue[n - 1].same_cell(queue[m]));
            }
        }
    }
}

/// Batching calls that name each cell once leaves calls that name each
/// cell once.
pub proof fn lemma_batched_names_each_cell_once(calls: Seq<DrawCall>)
    requires
        one_call_per_cell(calls),
    ensures
        one_call_per_cell(batched(calls)),
    decreases calls.len(),
{
    if calls.len() > 0 {
        let shorter = calls.drop_last();
        let before = batched(shorter);
        let call = calls.last();
        let at = slot(before, call.color.rank()) as int;
        let after = before.insert(at, call);
        assert forall|i: int, j: int| 0 <= i < j < shorter.len() implies !(
        #[trigger] shorter[i]).same_cell(#[trigger] shorter[j]) by {
            assert(shorter[i] == calls[i] && shorter[j] == calls[j]);
        }
        lemma_batched_names_each_cell_once(shorter);
        lemma_slot_within(before, call.color.rank());
        lemma_batched_permutes(shorter);
        before.insert_ensures(at, call);
        assert forall|k: int| 0 <= k < before.len() implies !(#[trigger] before[k]).same_cell(
            call,
        ) by {
            assert(before.contains(before[k]));
            lemma_batched_contains(shorter, before[k]);
            let m = choose|m: int| 0 <= m < shorter.len() && shorter[m] == before[k];
            assert(calls[m] == shorter[m]);
            assert(!calls[m].same_cell(calls[calls.len() - 1]));
        }
        assert forall|i: int, j: int| 0 <= i < j < after.len() implies !(#[trigger] after[i]).same_cell(
            #[trigger] after[j],
        ) by {
            let from_i = if i < at {
                i
            } else {
                i - 1
            };
            let from_j = if j < at {
                j
            } else {
                j - 1
            };
            if i == at {
                assert(after[j] == before[from_j]);
            } else if j == at {
                assert(after[i] == before[from_i]);
            } else {
                assert(after[i] == before[from_i] && after[j] == before[from_j]);
            }
        }
    }
}

/// What a flush paints names each cell at most once, with the color of
/// the last call that was queued for the cell, and that color is not the
/// one committed there.
pub proof fn lemma_last_call_wins(queue: Seq<DrawCall>, frame: Seq<Seq<Option<Color>>>)
    ensures
        one_call_per_cell(batched(survivors(queue, frame))),
        forall|k: int|
            0 <= k < batched(survivors(queue, frame)).len() ==> ({
                let call = #[trigger] batched(survivors(queue, frame))[k];
                &&& last_color(queue, call.x as int, call.y as int) == Some(call.color)
                &&& changes(frame, call)
            }),
{
    let kept = survivors(queue, frame);
    let painted = batched(kept);
    lemma_survivors_name_each_cell_once(queue, frame, queue.len());
    lemma_batched_names_each_cell_once(kept);
    lemma_survivors_upto(queue, frame, queue.len());
    assert forall|k: int| 0 <= k < painted.len() implies {
        let call = #[trigger] painted[k];
        &&& last_color(queue, call.x as int, call.y as int) == Some(call.color)
        &&& changes(frame, call)
    } by {
        assert(painted.contains(painted[k]));
        lemma_batched_contains(kept, painted[k]);
        let m = choose|m: int| 0 <= m < kept.len() && kept[m] == painted[k];
        let i = choose|i: int|
            0 <= i < queue.len() && survives(queue, frame, i) && #[trigger] queue[i] == kept[m];
        lemma_last_write_sets_color(queue, i);
    }
}

/// A call that repeats the color committed in its cell is not painted.
pub proof fn lemma_unchanged_call_is_dropped(
    queue: Seq<DrawCall>,
    frame: Seq<Seq<Option<Color>>>,
    i: int,
)
    requires
        0 <= i < queue.len(),
        !changes(frame, queue[i]),
    ensures
        !batched(survivors(queue, frame)).contains(queue[i]),
{
    let kept = survivors(queue, frame);
    lemma_batched_contains(kept, queue[i]);
    lemma_survivors_upto(queue, frame, queue.len());
    if kept.contains(queue[i]) {
        let m = choose|m: int| 0 <= m < kept.len() && kept[m] == queue[i];
        let j = choose|j: int|
            0 <= j < queue.len() && survives(queue, frame, j) && #[trigger] queue[j] == kept[m];
        assert(changes(frame, queue[j]));
    }
}

/// Where no queued call survives, nothing is painted.
pub proof fn lemma_no_survivor_no_paint(
    queue: Seq<DrawCall>,
    frame: Seq<Seq<Option<Color>>>,
    cell: nat,
    border: nat,
)
    requires
        forall|i: int| 0 <= i < queue.len() ==> !survives(queue, frame, i),
    ensures
        survivors(queue, frame) == Seq::<DrawCall>::empty(),
        paints_of(batched(survivors(queue, frame)), cell, border) == Seq::<Paint>::empty(),
{
    lemma_survivors_upto(queue, frame, queue.len());
    let kept = survivors(queue, frame);
    if kept.len() > 0 {
        let i = choose|i: int|
            0 <= i < queue.len() && survives(queue, frame, i) && #[trigger] queue[i] == kept[0];
    }
    assert(kept =~= Seq::<DrawCall>::empty());
}

} // verus!
