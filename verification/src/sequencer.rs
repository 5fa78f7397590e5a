//! Playback of a refinement animation: a table that holds the control
//! points and each successive refinement of them, and a clock that steps
//! through the table and starts over after the last entry.

use vstd::prelude::*;
use vstd::arithmetic::div_mod::{lemma_small_mod, lemma_mod_add_multiples_vanish, lemma_add_mod_noop, lemma_mod_self_0};
use crate::chaikin::{aligned, chaikin, lemma_refined_keeps_alignment, refined};
use crate::point::{grid_unit, lemma_grid_unit_positive, Point};

verus! {

/// The control points after `n` refinement steps.
pub open spec fn generation(points: Seq<Point>, closed: bool, n: nat) -> Seq<Point>
    decreases n,
{
    if n == 0 {
        points
    } else {
        refined(generation(points, closed, (n - 1) as nat), closed)
    }
}

/// The table for `steps` refinement steps: entry `i` is the `i`-th
/// generation, entry zero the control points themselves.
pub open spec fn generation_table(points: Seq<Point>, closed: bool, steps: nat) -> Seq<Seq<Point>> {
    Seq::new(steps + 1, |i: int| generation(points, closed, i as nat))
}

/// What a sequencer holds, as mathematical values. Times are whole ticks
/// of whatever unit the caller counts in.
pub struct Playback {
    pub table: Seq<Seq<Point>>,
    pub closed: bool,
    pub index: nat,
    pub elapsed: nat,
    pub step_duration: nat,
}

/// The state in which nothing is loaded.
pub open spec fn idle() -> Playback {
    Playback { table: Seq::empty(), closed: false, index: 0, elapsed: 0, step_duration: 0 }
}

/// The state right after loading `points`: the full table, the first
/// generation selected, no time elapsed.
pub open spec fn started(points: Seq<Point>, closed: bool, steps: nat, step_duration: nat) -> Playback {
    Playback {
        table: generation_table(points, closed, steps),
        closed,
        index: 0,
        elapsed: 0,
        step_duration,
    }
}

/// The state after `delta` more ticks. A table with fewer than two
/// generations has nothing to step through and stays as it is. Otherwise
/// the ticks are added to the elapsed time; once that reaches the step
/// duration, the selection moves on by one generation, from the last back
/// to the first, and the elapsed time keeps only the remainder.
pub open spec fn advanced(s: Playback, delta: nat) -> Playback {
    if s.table.len() < 2 {
        s
    } else if s.elapsed + delta >= s.step_duration {
        Playback {
            index: (s.index + 1) % s.table.len(),
            elapsed: if s.step_duration == 0 {
                0
            } else {
                (s.elapsed + delta) % s.step_duration
            },
            ..s
        }
    } else {
        Playback { elapsed: s.elapsed + delta, ..s }
    }
}

/// The state after `count` calls of `advanced`, each with the same `delta`.
pub open spec fn advanced_times(s: Playback, delta: nat, count: nat) -> Playback
    decreases count,
{
    if count == 0 {
        s
    } else {
        advanced(advanced_times(s, delta, (count - 1) as nat), delta)
    }
}

/// What holds of every state a sequencer can be in: the selected index
/// lies in the table, each entry is the refinement of the one before it,
/// and the elapsed time is short of one step. With nothing loaded, all
/// counters are zero.
pub open spec fn valid(s: Playback) -> bool {
    &&& s.table.len() == 0 ==> s.index == 0 && s.elapsed == 0
    &&& s.table.len() > 0 ==> s.index < s.table.len()
    &&& forall|i: int| 0 <= i < s.table.len() ==> #[trigger] s.table[i] == generation(s.table[0], s.closed, i as nat)
    &&& s.step_duration == 0 ==> s.elapsed == 0
    &&& s.step_duration > 0 ==> s.elapsed < s.step_duration
}

/// A freshly built table has one entry more than it has steps, and its
/// first entry is the control points, unchanged.
pub proof fn lemma_table_seeded(points: Seq<Point>, closed: bool, steps: nat)
    ensures
        generation_table(points, closed, steps).len() == steps + 1,
        generation_table(points, closed, steps)[0] == points,
        valid(started(points, closed, steps, 0)),
{
}

/// Control points on the grid for `steps` refinement steps go through
/// that many generations without rounding: generation `n` still lies on
/// the grid for the `steps - n` steps that remain.
pub proof fn lemma_generations_stay_on_grid(points: Seq<Point>, closed: bool, steps: nat, n: nat)
    requires
        aligned(points, grid_unit(steps)),
        n <= steps,
    ensures
        aligned(generation(points, closed, n), grid_unit((steps - n) as nat)),
    decreases n,
{
    if n > 0 {
        lemma_generations_stay_on_grid(points, closed, steps, (n - 1) as nat);
        lemma_grid_unit_positive((steps - n) as nat);
        lemma_refined_keeps_alignment(
            generation(points, closed, (n - 1) as nat),
            closed,
            grid_unit((steps - n) as nat),
        );
    }
}

/// Stepping a valid state keeps it valid, and never touches the table.
pub proof fn lemma_advanced_valid(s: Playback, delta: nat)
    requires
        valid(s),
    ensures
        valid(advanced(s, delta)),
        advanced(s, delta).table == s.table,
        advanced(s, delta).closed == s.closed,
        advanced(s, delta).step_duration == s.step_duration,
{
    if s.table.len() >= 2 && s.elapsed + delta >= s.step_duration && s.step_duration > 0 {
        vstd::arithmetic::div_mod::lemma_mod_bound((s.elapsed + delta) as int, s.step_duration as int);
    }
    if s.table.len() >= 2 {
        vstd::arithmetic::div_mod::lemma_mod_bound((s.index + 1) as int, s.table.len() as int);
    }
}

/// Playback loops. From a valid state with a positive step duration,
/// `count` steps of exactly one duration each move the selection forward
/// by `count` generations, counted cyclically, and leave the elapsed time
/// as it was. So as many steps as the table has entries lead back to the
/// generation that was selected at the outset, after each other
/// generation has been selected once.
pub proof fn lemma_playback_loops(s: Playback, count: nat)
    requires
        valid(s),
        s.step_duration > 0,
        s.table.len() >= 2,
    ensures
        advanced_times(s, s.step_duration, count).index == (s.index + count) % s.table.len(),
        advanced_times(s, s.step_duration, count).elapsed == s.elapsed,
        advanced_times(s, s.step_duration, count).table == s.table,
        advanced_times(s, s.step_duration, count).step_duration == s.step_duration,
        valid(advanced_times(s, s.step_duration, count)),
        count == s.table.len() ==> advanced_times(s, s.step_duration, count).index == s.index,
    decreases count,
{
    let len = s.table.len() as int;
    let d = s.step_duration as int;
    if count == 0 {
        lemma_small_mod(s.index, s.table.len());
    } else {
        let before = advanced_times(s, s.step_duration, (count - 1) as nat);
        lemma_playback_loops(s, (count - 1) as nat);
        lemma_advanced_valid(before, s.step_duration);
        // The elapsed time plus one whole duration leaves the same remainder.
        lemma_mod_add_multiples_vanish(before.elapsed as int, d);
        lemma_small_mod(before.elapsed, s.step_duration);
        // One more step after `count - 1` is `count` steps in all.
        lemma_add_mod_noop(s.index + count - 1, 1, len);
        lemma_small_mod(1, s.table.len());
        assert(((s.index + count - 1) % len + 1) % len == (s.index + count - 1 + 1) % len);
    }
    if count == s.table.len() {
        lemma_mod_add_multiples_vanish(s.index as int, len);
        lemma_small_mod(s.index, s.table.len());
    }
}

/// Holds the generation table of one set of control points and the
/// playback clock that selects one of its entries.
pub struct Sequencer {
    table: Vec<Vec<Point>>,
    closed: bool,
    index: usize,
    elapsed: u64,
    step_duration: u64,
}

impl View for Sequencer {
    type V = Playback;

    closed spec fn view(&self) -> Playback {
        Playback {
            table: Seq::new(self.table@.len(), |i: int| self.table@[i]@),
            closed: self.closed,
            index: self.index as nat,
            elapsed: self.elapsed as nat,
            step_duration: self.step_duration as nat,
        }
    }
}

impl Sequencer {
    /// Whether the sequencer is in a state that its operations can reach.
    pub open spec fn wf(&self) -> bool {
        valid(self@)
    }

    /// A sequencer with nothing loaded.
    pub fn new() -> (s: Sequencer)
        ensures
            s.wf(),
            s@ == idle(),
    {
        let s = Sequencer { table: Vec::new(), closed: false, index: 0, elapsed: 0, step_duration: 0 };
        assert(s@.table =~= Seq::empty());
        s
    }

    /// Loads `points`, replacing whatever was loaded before: builds the
    /// table of `step_count + 1` generations, selects the first of them and
    /// resets the clock.
    pub fn start(&mut self, points: &[Point], closed: bool, step_count: u32, step_duration: u64)
        ensures
            final(self).wf(),
            final(self)@ == started(points@, closed, step_count as nat, step_duration as nat),
            final(self)@.table.len() == step_count + 1,
            final(self)@.table[0] == points@,
    {
        let mut table: Vec<Vec<Point>> = Vec::new();
        table.push(vstd::slice::slice_to_vec(points));
        let mut done: u32 = 0;
        while done < step_count
            invariant
                done <= step_count,
                table@.len() == done + 1,
                forall|i: int| 0 <= i <= done ==> (#[trigger] table@[i])@ == generation(points@, closed, i as nat),
            decreases step_count - done,
        {
            let last: usize = table.len() - 1;
            let next: Vec<Point> = chaikin(table[last].as_slice(), closed);
            table.push(next);
            done = done + 1;
        }
        self.table = table;
        self.closed = closed;
        self.index = 0;
        self.elapsed = 0;
        self.step_duration = step_duration;
        assert(self@.table =~= generation_table(points@, closed, step_count as nat));
    }

    /// Lets `delta` ticks pass, as `advanced` describes.
    pub fn advance(&mut self, delta: u64)
        requires
            old(self).wf(),
        ensures
            final(self).wf(),
            final(self)@ == advanced(old(self)@, delta as nat),
    {
        proof {
            lemma_advanced_valid(self@, delta as nat);
        }
        let count: usize = self.table.len();
        if count < 2 {
            return ;
        }
        let total: u128 = self.elapsed as u128 + delta as u128;
        if total >= self.step_duration as u128 {
            if self.step_duration == 0 {
                self.elapsed = 0;
            } else {
                let rest: u128 = total % (self.step_duration as u128);
                self.elapsed = rest as u64;
            }
            self.index = (self.index + 1) % count;
        } else {
            self.elapsed = total as u64;
        }
        assert(self@.table =~= old(self)@.table);
    }

    /// The selected generation, or `None` while nothing is loaded.
    pub fn current(&self) -> (points: Option<&Vec<Point>>)
        requires
            self.wf(),
        ensures
            self@.table.len() == 0 <==> points is None,
            points matches Some(g) ==> g@ == self@.table[self@.index as int],
    {
        if self.table.len() == 0 {
            None
        } else {
            Some(&self.table[self.index])
        }
    }

    /// Unloads everything and returns to the state of a new sequencer.
    pub fn clear(&mut self)
        ensures
            final(self).wf(),
            final(self)@ == idle(),
    {
        self.table = Vec::new();
        self.closed = false;
        self.index = 0;
        self.elapsed = 0;
        self.step_duration = 0;
        assert(self@.table =~= Seq::empty());
    }

    /// Whether a table is loaded.
    pub fn is_animating(&self) -> (b: bool)
        ensures
            b == (self@.table.len() > 0),
    {
        self.table.len() > 0
    }

    /// The index of the selected generation.
    pub fn current_index(&self) -> (i: usize)
        ensures
            i == self@.index,
    {
        self.index
    }

    /// How many generations the table holds.
    pub fn generation_count(&self) -> (n: usize)
        ensures
            n == self@.table.len(),
    {
        self.table.len()
    }

    /// The ticks that have passed within the current step.
    pub fn elapsed(&self) -> (t: u64)
        ensures
            t == self@.elapsed,
    {
        self.elapsed
    }
}

} // verus!
