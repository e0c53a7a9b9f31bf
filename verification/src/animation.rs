//! The frame scheduler: a step function is run once per display refresh,
//! the surface is flushed after each run, and the animation ends when the
//! step function says so.

use vstd::prelude::*;
use crate::canvas::{Canvas, CanvasView};
use crate::frame::Paint;

verus! {

/// Where an animation stands.
#[derive(Clone, Copy, PartialEq, Eq, Debug, Structural)]
pub enum Phase {
    /// A refresh callback is registered and has not fired.
    Scheduled,
    /// The callback has fired: the step function runs, the flush follows.
    Running,
    /// The step function has reported the end; nothing runs any more.
    Completed,
}

/// What the host has to do when a tick has ended.
#[derive(Clone, Copy, PartialEq, Eq, Debug, Structural)]
pub enum Next {
    /// Register a callback for the next display refresh.
    Reschedule,
    /// Release what the animation held and resolve its future.
    Resolve,
}

/// What one tick hands to the host.
pub struct Frame {
    /// The rectangles to paint, in order.
    pub paints: Vec<Paint>,
    /// What to do after painting them.
    pub next: Next,
}

/// How far an animation has come.
pub struct Progress {
    pub phase: Phase,
    /// The number of ticks that have ended; each one flushed the surface
    /// once.
    pub ticks: nat,
}

impl Progress {
    /// An animation that has been scheduled for its first tick.
    pub open spec fn start() -> Progress {
        Progress { phase: Phase::Scheduled, ticks: 0 }
    }

    /// The refresh callback fires.
    pub open spec fn fired(self) -> Progress {
        if self.phase == Phase::Scheduled {
            Progress { phase: Phase::Running, ..self }
        } else {
            self
        }
    }

    /// The step function has returned `done` and the surface was flushed.
    pub open spec fn settled(self, done: bool) -> Progress {
        if self.phase == Phase::Running {
            Progress {
                phase: if done {
                    Phase::Completed
                } else {
                    Phase::Scheduled
                },
                ticks: self.ticks + 1,
            }
        } else {
            self
        }
    }

    /// One whole tick in which the step function returns `done`. Only a
    /// scheduled animation ticks.
    pub open spec fn tick(self, done: bool) -> Progress {
        if self.phase == Phase::Scheduled {
            self.fired().settled(done)
        } else {
            self
        }
    }

    /// One tick for each result of the step function, in order.
    pub open spec fn run(self, results: Seq<bool>) -> Progress
        decreases results.len(),
    {
        if results.len() == 0 {
            self
        } else {
            self.run(results.drop_last()).tick(results.last())
        }
    }
}

/// An animation in progress: the surface it paints on and where it stands.
pub struct Animation {
    surface: Canvas,
    phase: Phase,
    ticks: Ghost<nat>,
}

impl Animation {
    /// How far the animation has come.
    pub closed spec fn progress(&self) -> Progress {
        Progress { phase: self.phase, ticks: self.ticks@ }
    }

    /// The surface of the animation.
    pub closed spec fn canvas(&self) -> Canvas {
        self.surface
    }

    /// Whether the animation is in order: its surface is.
    pub open spec fn wf(&self) -> bool {
        self.canvas().wf()
    }

    /// An animation on `surface` that is scheduled for its first tick. The
    /// host registers the first refresh callback.
    pub fn new(surface: Canvas) -> (animation: Animation)
        requires
            surface.wf(),
        ensures
            animation.wf(),
            animation.canvas() == surface,
            animation.progress() == Progress::start(),
    {
        Animation { surface, phase: Phase::Scheduled, ticks: Ghost(0) }
    }

    /// Where the animation stands.
    pub fn phase(&self) -> (phase: Phase)
        ensures
            phase == self.progress().phase,
    {
        self.phase
    }

    /// The surface of the animation.
    pub fn surface(&self) -> (surface: &Canvas)
        ensures
            *surface == self.canvas(),
    {
        &self.surface
    }

    /// Ends the animation's hold on the surface and hands it back.
    pub fn into_surface(self) -> (surface: Canvas)
        ensures
            surface == self.canvas(),
    {
        self.surface
    }

    /// Notes that the refresh callback has fired: the step function runs
    /// next.
    pub fn fire(&mut self)
        requires
            old(self).progress().phase == Phase::Scheduled,
        ensures
            final(self).progress() == old(self).progress().fired(),
            final(self).canvas() == old(self).canvas(),
    {
        self.phase = Phase::Running;
    }

    /// Ends a tick in which the step function has returned `done`: flushes
    /// the surface, whatever `done` is, and decides whether another tick
    /// follows.
    pub fn settle(&mut self, done: bool) -> (frame: Frame)
        requires
            old(self).wf(),
            old(self).progress().phase == Phase::Running,
        ensures
            final(self).wf(),
            final(self).canvas()@ == old(self).canvas()@.flushed(),
            final(self).progress() == old(self).progress().settled(done),
            frame.paints@ == old(self).canvas()@.flush_paints(),
            frame.next == (if done {
                Next::Resolve
            } else {
                Next::Reschedule
            }),
    {
        let paints = self.surface.flush();
        self.ticks = Ghost((self.ticks@ + 1) as nat);
        if done {
            self.phase = Phase::Completed;
            Frame { paints, next: Next::Resolve }
        } else {
            self.phase = Phase::Scheduled;
            Frame { paints, next: Next::Reschedule }
        }
    }

    /// Runs one tick: the step function on the surface, then the flush of
    /// the surface as the step function left it. The step function may
    /// queue what it likes as long as it leaves the surface in order; it
    /// returns `true` when the animation is over.
    pub fn tick<F: FnMut(&mut Canvas) -> bool>(&mut self, step: &mut F) -> (frame: Frame)
        requires
            old(self).wf(),
            old(self).progress().phase == Phase::Scheduled,
            forall|surface: &mut Canvas|
                surface.wf() ==> #[trigger] call_requires(*old(step), (surface,)),
            forall|surface: &mut Canvas, done: bool|
                surface.wf() && #[trigger] call_ensures(*old(step), (surface,), done)
                    ==> final(surface).wf(),
        ensures
            final(self).wf(),
            *final(step) == *old(step),
            final(self).progress() == old(self).progress().tick(frame.next == Next::Resolve),
            exists|surface: &mut Canvas, done: bool|
                *surface == old(self).canvas()
                    && #[trigger] call_ensures(*old(step), (surface,), done)
                    && done == (frame.next == Next::Resolve)
                    && final(self).canvas()@ == final(surface)@.flushed()
                    && frame.paints@ == final(surface)@.flush_paints(),
    {
        self.fire();
        let done = step(&mut self.surface);
        let ghost stepped = self.surface@;
        let frame = self.settle(done);
        assert(self.canvas()@ == stepped.flushed());
        frame
    }
}

/// An animation whose step function first returns `true` in its `n`-th
/// run stays scheduled through the ticks before, is completed by the
/// `n`-th tick, has then flushed `n` times, and never ticks again.
pub proof fn lemma_completes_at_first_true(results: Seq<bool>, n: nat)
    requires
        0 < n <= results.len(),
        forall|i: int| 0 <= i < n - 1 ==> !results[i],
        results[n - 1],
    ensures
        forall|k: int|
            0 <= k < n ==> #[trigger] Progress::start().run(results.take(k)) == (Progress {
                phase: Phase::Scheduled,
                ticks: k as nat,
            }),
        forall|k: int|
            n <= k <= results.len() ==> #[trigger] Progress::start().run(results.take(k)) == (
            Progress { phase: Phase::Completed, ticks: n }),
        Progress::start().run(results) == (Progress { phase: Phase::Completed, ticks: n }),
{
    assert forall|k: int| 0 <= k <= results.len() implies #[trigger] Progress::start().run(
        results.take(k),
    ) == (if k < n {
        Progress { phase: Phase::Scheduled, ticks: k as nat }
    } else {
        Progress { phase: Phase::Completed, ticks: n }
    }) by {
        lemma_run_of_prefix(results, n, k as nat);
    }
    assert(results.take(results.len() as int) =~= results);
}

/// Where the animation of `lemma_completes_at_first_true` stands after
/// `k` ticks.
proof fn lemma_run_of_prefix(results: Seq<bool>, n: nat, k: nat)
    requires
        0 < n <= results.len(),
        forall|i: int| 0 <= i < n - 1 ==> !results[i],
        results[n - 1],
        k <= results.len(),
    ensures
        Progress::start().run(results.take(k as int)) == (if k < n {
            Progress { phase: Phase::Scheduled, ticks: k }
        } else {
            Progress { phase: Phase::Completed, ticks: n }
        }),
    decreases k,
{
    if k > 0 {
        lemma_run_of_prefix(results, n, (k - 1) as nat);
        assert(results.take(k as int).drop_last() =~= results.take(k - 1));
        assert(results.take(k as int).last() == results[k - 1]);
    }
}

} // verus!
