use crate::diagnostic::{Diagnostic, Level, Stage};
use std::collections::VecDeque;
use vstd::prelude::*;

verus! {

/// An entry of a diagnostic queue: where it comes from, its severity, the report.
pub type Entry = (Stage, Level, Diagnostic);

/// A first-in first-out queue of diagnostics with a filter on what it takes.
pub trait Caching {
    /// Whether a diagnostic of `stage` and `level` would be taken.
    fn enabled(&self, stage: Stage, level: Level) -> bool;

    /// Offers a diagnostic to the queue; returns whether it was stored.
    fn cache(&mut self, stage: Stage, level: Level, diagnostic: Diagnostic) -> bool;

    /// Takes the oldest diagnostic out of the queue.
    fn pop(&mut self) -> Option<Entry>;
}

/// The queue after offering `item`: it is appended when it is taken and the
/// queue holds fewer than `capacity` entries, and dropped otherwise.
pub open spec fn offer<T>(queue: Seq<T>, capacity: nat, taken: bool, item: T) -> Seq<T> {
    if taken && queue.len() < capacity {
        queue.push(item)
    } else {
        queue
    }
}

/// An in-memory bounded queue that takes diagnostics of enabled stages whose
/// level is at least as severe as its threshold.
pub struct InMemoryCached {
    level: Level,
    stages: Vec<Stage>,
    max_length: usize,
    fifo: VecDeque<Entry>,
}

impl InMemoryCached {
    /// The least severe level that is taken.
    pub closed spec fn threshold(&self) -> Level {
        self.level
    }

    /// The enabled stages, in the order they were enabled.
    pub closed spec fn stage_views(&self) -> Seq<(u8, Seq<char>)> {
        self.stages@.map_values(|s: Stage| s@)
    }

    /// Whether stage `s` has been enabled.
    pub open spec fn enables(&self, s: Stage) -> bool {
        self.stage_views().contains(s@)
    }

    /// The most entries the queue holds.
    pub closed spec fn capacity(&self) -> nat {
        self.max_length as nat
    }

    /// The queued entries, oldest first.
    pub closed spec fn queue(&self) -> Seq<Entry> {
        self.fifo@
    }

    pub open spec fn takes(&self, stage: Stage, level: Level) -> bool {
        level.spec_rank() <= self.threshold().spec_rank() && self.enables(stage)
    }

    /// An empty queue of at most `max_length` entries; it takes every level
    /// but no stage until one is enabled.
    pub fn new(max_length: usize) -> (r: Self)
        ensures
            r.threshold() == Level::Help,
            r.stage_views().len() == 0,
            r.stage_views().no_duplicates(),
            r.capacity() == max_length,
            r.queue().len() == 0,
    {
        InMemoryCached {
            level: Level::Help,
            stages: Vec::new(),
            max_length,
            fifo: VecDeque::new(),
        }
    }

    /// Sets the least severe level that is taken.
    pub fn enable_level(self, level: Level) -> (r: Self)
        ensures
            r.threshold() == level,
            r.stage_views() == self.stage_views(),
            r.capacity() == self.capacity(),
            r.queue() == self.queue(),
    {
        let mut c = self;
        c.level = level;
        c
    }

    /// Enables one more stage; enabling a stage twice changes nothing.
    pub fn enable_stage(self, stage: Stage) -> (r: Self)
        ensures
            r.threshold() == self.threshold(),
            r.stage_views() == if self.stage_views().contains(stage@) {
                self.stage_views()
            } else {
                self.stage_views().push(stage@)
            },
            self.stage_views().no_duplicates() ==> r.stage_views().no_duplicates(),
            r.capacity() == self.capacity(),
            r.queue() == self.queue(),
    {
        let mut c = self;
        if !c.stage_enabled(stage) {
            c.stages.push(stage);
            assert(c.stage_views() =~= self.stage_views().push(stage@));
        }
        c
    }

    fn stage_enabled(&self, stage: Stage) -> (r: bool)
        ensures
            r == self.enables(stage),
    {
        let mut i: usize = 0;
        while i < self.stages.len()
            invariant
                i <= self.stages@.len(),
                forall|k: int| 0 <= k < i ==> #[trigger] self.stages@[k]@ != stage@,
            decreases self.stages@.len() - i,
        {
            if self.stages[i].same(&stage) {
                assert(self.stage_views()[i as int] == stage@);
                return true;
            }
            i = i + 1;
        }
        assert(!self.stage_views().contains(stage@)) by {
            if self.stage_views().contains(stage@) {
                let k = choose|k: int|
                    0 <= k < self.stage_views().len() && self.stage_views()[k] == stage@;
                assert(self.stages@[k]@ == stage@);
            }
        }
        false
    }
}

impl Caching for InMemoryCached {
    fn enabled(&self, stage: Stage, level: Level) -> (r: bool)
        ensures
            r == self.takes(stage, level),
    {
        level.rank() <= self.level.rank() && self.stage_enabled(stage)
    }

    fn cache(&mut self, stage: Stage, level: Level, diagnostic: Diagnostic) -> (r: bool)
        ensures
            final(self).queue() == offer(
                old(self).queue(),
                old(self).capacity(),
                old(self).takes(stage, level),
                (stage, level, diagnostic),
            ),
            r == (old(self).takes(stage, level) && old(self).queue().len() < old(self).capacity()),
            final(self).threshold() == old(self).threshold(),
            final(self).stage_views() == old(self).stage_views(),
            final(self).capacity() == old(self).capacity(),
    {
        if self.enabled(stage, level) && self.fifo.len() < self.max_length {
            self.fifo.push_back((stage, level, diagnostic));
            true
        } else {
            false
        }
    }

    fn pop(&mut self) -> (r: Option<Entry>)
        ensures
            old(self).queue().len() == 0 ==> r is None && final(self).queue() == old(self).queue(),
            old(self).queue().len() > 0 ==> r == Some(old(self).queue()[0]) && final(self).queue()
                == old(self).queue().drop_first(),
            final(self).threshold() == old(self).threshold(),
            final(self).stage_views() == old(self).stage_views(),
            final(self).capacity() == old(self).capacity(),
    {
        let r = self.fifo.pop_front();
        proof {
            if old(self).queue().len() > 0 {
                assert(self.queue() =~= old(self).queue().drop_first());
            }
        }
        r
    }
}

/// The queue after offering each of `items` in turn to an empty queue of
/// `capacity` entries that takes all of them.
pub open spec fn fill<T>(capacity: nat, items: Seq<T>) -> Seq<T>
    decreases items.len(),
{
    if items.len() == 0 {
        Seq::empty()
    } else {
        offer(fill(capacity, items.drop_last()), capacity, true, items.last())
    }
}

/// A queue of capacity `k` keeps the first `k` items offered to it, in the
/// order they were offered, and drops the rest.
pub proof fn lemma_fifo_keeps_first<T>(capacity: nat, items: Seq<T>)
    ensures
        fill(capacity, items) == items.take(
            if items.len() < capacity {
                items.len() as int
            } else {
                capacity as int
            },
        ),
    decreases items.len(),
{
    if items.len() > 0 {
        let pre = items.drop_last();
        lemma_fifo_keeps_first(capacity, pre);
        if pre.len() < capacity {
            assert(pre.take(pre.len() as int).push(items.last()) =~= items.take(items.len() as int));
        } else {
            assert(pre.take(capacity as int) =~= items.take(capacity as int));
        }
    }
}

/// Where diagnostics go: a queue that can be installed once.
pub struct Registry {
    caching: Option<InMemoryCached>,
}

impl Registry {
    /// The installed queue, if any.
    pub closed spec fn current(&self) -> Option<InMemoryCached> {
        self.caching
    }

    /// Whether a queue is installed.
    pub fn is_installed(&self) -> (r: bool)
        ensures
            r == self.current() is Some,
    {
        self.caching.is_some()
    }

    /// A registry with nothing installed.
    pub fn new() -> (r: Self)
        ensures
            r.current() is None,
    {
        Registry { caching: None }
    }
}

impl Default for Registry {
    fn default() -> (r: Self)
        ensures
            r.current() is None,
    {
        Registry::new()
    }
}

/// Installs the queue that diagnostics go to. Installing twice is a
/// programming error: the registry must be empty.
pub fn set_caching(registry: &mut Registry, caching: InMemoryCached)
    requires
        old(registry).current() is None,
    ensures
        final(registry).current() == Some(caching),
{
    registry.caching = Some(caching);
}

/// The installed queue.
pub fn get_caching(registry: &Registry) -> (r: &InMemoryCached)
    requires
        registry.current() is Some,
    ensures
        Some(*r) == registry.current(),
{
    match &registry.caching {
        Some(c) => c,
        None => vstd::pervasive::unreached(),
    }
}

/// Once a queue is installed the registry holds it and is no longer empty,
/// so a second installation is ruled out by the precondition of
/// [`set_caching`]; reporting keeps the registry installed.
pub proof fn lemma_install_once<B: FnOnce() -> Diagnostic>(
    r0: Registry,
    r1: Registry,
    r2: Registry,
    a: InMemoryCached,
    stage: Stage,
    level: Level,
    builder: B,
)
    requires
        r0.current() is None,
        r1.current() == Some(a),
        reported(r1, r2, stage, level, builder),
    ensures
        !(r1.current() is None),
        !(r2.current() is None),
        r2.current()->0.capacity() == a.capacity(),
{
}

/// What reporting a diagnostic of `stage` and `level` does to the installed
/// queue: built by `builder`, it is offered when the queue takes it; else the
/// queue is left as it was.
pub open spec fn reported<B: FnOnce() -> Diagnostic>(
    before: Registry,
    after: Registry,
    stage: Stage,
    level: Level,
    builder: B,
) -> bool {
    let c0 = before.current()->0;
    let c1 = after.current()->0;
    &&& after.current() is Some
    &&& c1.threshold() == c0.threshold()
    &&& c1.stage_views() == c0.stage_views()
    &&& c1.capacity() == c0.capacity()
    &&& !c0.takes(stage, level) ==> c1.queue() == c0.queue()
    &&& c0.takes(stage, level) ==> exists|d: Diagnostic|
        builder.ensures((), d) && c1.queue() == offer(
            c0.queue(),
            c0.capacity(),
            true,
            (stage, level, d),
        )
}

/// Reports a diagnostic; `builder` is called only when the installed queue
/// takes diagnostics of `stage` and `level`.
pub fn diagnostic<B: FnOnce() -> Diagnostic>(
    registry: &mut Registry,
    stage: Stage,
    level: Level,
    builder: B,
)
    requires
        old(registry).current() is Some,
        builder.requires(()),
    ensures
        reported(*old(registry), *final(registry), stage, level, builder),
{
    match &mut registry.caching {
        Some(c) => {
            if c.enabled(stage, level) {
                let d = builder();
                c.cache(stage, level, d);
            }
        },
        None => {},
    }
}

/// Reports a bug.
pub fn bug<B: FnOnce() -> Diagnostic>(registry: &mut Registry, stage: Stage, builder: B)
    requires
        old(registry).current() is Some,
        builder.requires(()),
    ensures
        reported(*old(registry), *final(registry), stage, Level::Bug, builder),
{
    diagnostic(registry, stage, Level::Bug, builder);
}

/// Reports an error.
pub fn error<B: FnOnce() -> Diagnostic>(registry: &mut Registry, stage: Stage, builder: B)
    requires
        old(registry).current() is Some,
        builder.requires(()),
    ensures
        reported(*old(registry), *final(registry), stage, Level::Error, builder),
{
    diagnostic(registry, stage, Level::Error, builder);
}

/// Reports a warning.
pub fn warn<B: FnOnce() -> Diagnostic>(registry: &mut Registry, stage: Stage, builder: B)
    requires
        old(registry).current() is Some,
        builder.requires(()),
    ensures
        reported(*old(registry), *final(registry), stage, Level::Warning, builder),
{
    diagnostic(registry, stage, Level::Warning, builder);
}

} // verus!
