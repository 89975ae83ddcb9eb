//! The chunk loader: what is needed, what is being generated, what is
//! resident, and the decisions that move a coordinate from one to the next.
//!
//! The loader owns no thread and no channel. Once per tick its owner hands it
//! the coordinates that are needed ([`ChunkLoader::request`]) and the chunks
//! that workers have finished ([`ChunkLoader::work`]), and carries out the
//! dispatches that `work` returns: with a pool of workers, by sending each
//! coordinate to the worker named; single-threaded, with room for one job in
//! flight, by generating the chunk itself and handing it in at the next tick.
//! A job that fails and a worker that is lost are reported to the loader
//! ([`ChunkLoader::job_failed`], [`ChunkLoader::worker_lost`]), which frees
//! their coordinates to be dispatched again.
//!
//! What each call does is stated over [`LoaderState`], the loader's view:
//! [`request_spec`] for a request, [`work_spec`], [`work_jobs`] and
//! [`work_report`] for a tick. The laws at the end of the module are proved
//! from those.

use vstd::prelude::*;
use crate::cache::{evict_spec, lemma_evict_spec, touch_spec, ChunkCache};
use crate::chunk::{touched, Chunk};
use crate::clock::now_ns;
use crate::coord::{spread_spec, ChunkCoord};
use crate::coord_set::CoordSet;
use crate::ratelimiter::{after_limit, fires, LimiterState, RateLimiter};

verus! {

/// How far, in chunks, the world is kept loaded around the viewer.
pub const VISIBLE_RADIUS: usize = 8;

/// The number of resident chunks that eviction restores: twice the cube that
/// encloses the visible sphere, so that the working set fits with room to
/// spare.
pub const MAX_CHUNKS: usize = (VISIBLE_RADIUS * 2) * (VISIBLE_RADIUS * 2) * (VISIBLE_RADIUS * 2) * 2;

/// The number of chunks that may be in generation at once.
pub const MAX_INFLIGHT: usize = 8;

/// The interval, in nanoseconds, between two reports of the load rate.
pub const REPORT_INTERVAL_NS: u64 = 1000 * 1000 * 1000;

/// What `request` does with the coordinates that were queued before it.
#[derive(Clone, Copy, Debug, PartialEq, Eq, Structural)]
pub enum RequestPolicy {
    /// Each request replaces the queue: the caller names everything it needs
    /// on every tick, and what it no longer names is dropped.
    FrameRefresh,
    /// The queue persists: a request only appends coordinates that are new.
    Accumulate,
}

/// The limits a loader works under.
#[derive(Clone, Copy, Debug)]
pub struct LoaderConfig {
    /// The number of workers that dispatches are spread over; at least one.
    pub worker_count: usize,
    /// The number of resident chunks that eviction restores.
    pub max_chunks: usize,
    /// The number of chunks that may be in generation at once.
    pub max_inflight: usize,
    /// What a request does with the queue it finds.
    pub policy: RequestPolicy,
    /// The interval, in nanoseconds, between two reports of the load rate.
    pub report_interval: u64,
}

/// One generation job: the coordinate to generate and the worker to send it
/// to.
#[derive(Clone, Copy, Debug, PartialEq, Eq, Structural)]
pub struct Dispatch {
    pub worker: usize,
    pub coord: ChunkCoord,
}

/// What one call of `work` asks of the caller.
#[derive(Debug)]
pub struct WorkOutcome {
    /// The jobs to send out, in the order they left the queue.
    pub dispatches: Vec<Dispatch>,
    /// The number of chunks loaded since the last report, when a report is
    /// due.
    pub loaded_report: Option<usize>,
}

/// What a loader stands for.
pub struct LoaderState<P> {
    /// The resident chunks.
    pub cache: Map<ChunkCoord, Chunk<P>>,
    /// The coordinates waiting to be dispatched, first in first out.
    pub needed: Seq<ChunkCoord>,
    /// The coordinates dispatched and not yet harvested.
    pub inflight: Set<ChunkCoord>,
    /// The chunks harvested since the last report.
    pub loaded: nat,
    /// The limiter on reports.
    pub limiter: LimiterState,
}

/// The states a loader can be in: the queue names no coordinate twice and
/// none that is in flight, and the sets are finite.
pub open spec fn state_valid<P>(s: LoaderState<P>) -> bool {
    &&& s.cache.dom().finite()
    &&& s.inflight.finite()
    &&& s.needed.no_duplicates()
    &&& forall|i: int| 0 <= i < s.needed.len() ==> !s.inflight.contains(#[trigger] s.needed[i])
    &&& s.loaded <= usize::MAX
    &&& s.limiter.interval >= 0
}

/// The worker that generates the chunk at `c`, out of `worker_count`: a
/// function of the coordinate alone, so a coordinate always goes to the same
/// worker.
pub open spec fn route_spec(c: ChunkCoord, worker_count: usize) -> usize {
    spread_spec(c, worker_count)
}

/// The worker that generates the chunk at `c`.
pub fn worker_index(c: ChunkCoord, worker_count: usize) -> (w: usize)
    requires
        worker_count > 0,
    ensures
        w == route_spec(c, worker_count),
        w < worker_count,
{
    c.spread(worker_count)
}

/// What a request does for one coordinate: a resident chunk is touched and
/// nothing else happens; a coordinate in flight is skipped; any other
/// coordinate joins the end of the queue unless it is queued already.
pub open spec fn request_one<P>(s: LoaderState<P>, c: ChunkCoord, now: u64) -> LoaderState<P> {
    if s.cache.contains_key(c) {
        LoaderState { cache: s.cache.insert(c, touched(s.cache[c], now)), ..s }
    } else if s.inflight.contains(c) || s.needed.contains(c) {
        s
    } else {
        LoaderState { needed: s.needed.push(c), ..s }
    }
}

/// `request_one` for each of `coords` in turn.
pub open spec fn request_each<P>(s: LoaderState<P>, coords: Seq<ChunkCoord>, now: u64) -> LoaderState<P>
    decreases coords.len(),
{
    if coords.len() == 0 {
        s
    } else {
        request_one(request_each(s, coords.drop_last(), now), coords.last(), now)
    }
}

/// The state after a request for `coords` at time `now`: under
/// `FrameRefresh` the queue is emptied first, under `Accumulate` it is kept.
pub open spec fn request_spec<P>(
    s: LoaderState<P>,
    coords: Seq<ChunkCoord>,
    now: u64,
    policy: RequestPolicy,
) -> LoaderState<P> {
    match policy {
        RequestPolicy::FrameRefresh => request_each(
            LoaderState { needed: Seq::empty(), ..s },
            coords,
            now,
        ),
        RequestPolicy::Accumulate => request_each(s, coords, now),
    }
}

/// A request keeps a valid state valid, changes neither which chunks are
/// resident nor what is in flight, and refreshes timestamps only.
pub proof fn lemma_request_each<P>(s: LoaderState<P>, coords: Seq<ChunkCoord>, now: u64)
    requires
        state_valid(s),
    ensures
        state_valid(request_each(s, coords, now)),
        request_each(s, coords, now).cache.dom() == s.cache.dom(),
        request_each(s, coords, now).inflight == s.inflight,
        request_each(s, coords, now).loaded == s.loaded,
        request_each(s, coords, now).limiter == s.limiter,
        forall|c: ChunkCoord| #[trigger]
            s.cache.contains_key(c) ==> request_each(s, coords, now).cache[c] == s.cache[c]
                || request_each(s, coords, now).cache[c] == touched(s.cache[c], now),
    decreases coords.len(),
{
    if coords.len() > 0 {
        let prev = request_each(s, coords.drop_last(), now);
        lemma_request_each(s, coords.drop_last(), now);
        let c = coords.last();
        let next = request_one(prev, c, now);
        if prev.cache.contains_key(c) {
            assert(next.cache.dom() =~= prev.cache.dom());
            assert forall|d: ChunkCoord| #[trigger] s.cache.contains_key(d) implies next.cache[d]
                == s.cache[d] || next.cache[d] == touched(s.cache[d], now) by {
                assert(prev.cache.contains_key(d));
            }
        } else if !(prev.inflight.contains(c) || prev.needed.contains(c)) {
            assert(next.needed.no_duplicates()) by {
                assert forall|i: int, j: int|
                    0 <= i < next.needed.len() && 0 <= j < next.needed.len() && i
                        != j implies next.needed[i] != next.needed[j] by {
                    if i < prev.needed.len() {
                        assert(prev.needed.contains(prev.needed[i]));
                    }
                    if j < prev.needed.len() {
                        assert(prev.needed.contains(prev.needed[j]));
                    }
                }
            }
        }
    }
}

/// The chunks of `cache` at the coordinates `coords`, in the order of
/// `coords`, leaving out the coordinates at which nothing is resident.
pub open spec fn resident_among<P>(cache: Map<ChunkCoord, Chunk<P>>, coords: Seq<ChunkCoord>) -> Seq<
    Chunk<P>,
>
    decreases coords.len(),
{
    if coords.len() == 0 {
        Seq::empty()
    } else if cache.contains_key(coords.last()) {
        resident_among(cache, coords.drop_last()).push(cache[coords.last()])
    } else {
        resident_among(cache, coords.drop_last())
    }
}

/// What giving up one job does: the coordinate leaves the in-flight set, so
/// that a later request can queue it again. Nothing else changes.
pub open spec fn release_one<P>(s: LoaderState<P>, c: ChunkCoord) -> LoaderState<P> {
    LoaderState { inflight: s.inflight.remove(c), ..s }
}

/// What the loss of one job's worker does: a coordinate that was in flight
/// leaves the in-flight set and joins the end of the queue, unless its chunk
/// is resident or it is queued already. A coordinate that was not in flight
/// changes nothing.
pub open spec fn requeue_one<P>(s: LoaderState<P>, c: ChunkCoord) -> LoaderState<P> {
    if !s.inflight.contains(c) {
        s
    } else if s.cache.contains_key(c) || s.needed.contains(c) {
        LoaderState { inflight: s.inflight.remove(c), ..s }
    } else {
        LoaderState { inflight: s.inflight.remove(c), needed: s.needed.push(c), ..s }
    }
}

/// `requeue_one` for each of `coords` in turn.
pub open spec fn requeue_each<P>(s: LoaderState<P>, coords: Seq<ChunkCoord>) -> LoaderState<P>
    decreases coords.len(),
{
    if coords.len() == 0 {
        s
    } else {
        requeue_one(requeue_each(s, coords.drop_last()), coords.last())
    }
}

/// Requeueing keeps a valid state valid and leaves the resident chunks, the
/// load counter and the limiter alone.
pub proof fn lemma_requeue_each<P>(s: LoaderState<P>, coords: Seq<ChunkCoord>)
    requires
        state_valid(s),
    ensures
        state_valid(requeue_each(s, coords)),
        requeue_each(s, coords).cache == s.cache,
        requeue_each(s, coords).loaded == s.loaded,
        requeue_each(s, coords).limiter == s.limiter,
        requeue_each(s, coords).inflight.subset_of(s.inflight),
    decreases coords.len(),
{
    if coords.len() > 0 {
        let prev = requeue_each(s, coords.drop_last());
        lemma_requeue_each(s, coords.drop_last());
        let c = coords.last();
        let next = requeue_one(prev, c);
        if prev.inflight.contains(c) && !(prev.cache.contains_key(c) || prev.needed.contains(c)) {
            assert(next.needed.no_duplicates()) by {
                assert forall|i: int, j: int|
                    0 <= i < next.needed.len() && 0 <= j < next.needed.len() && i
                        != j implies next.needed[i] != next.needed[j] by {
                    if i < prev.needed.len() {
                        assert(prev.needed.contains(prev.needed[i]));
                    }
                    if j < prev.needed.len() {
                        assert(prev.needed.contains(prev.needed[j]));
                    }
                }
            }
        }
    }
}

/// The load counter after one more chunk: it stops at `usize::MAX` rather
/// than wrap.
pub open spec fn bump(loaded: nat) -> nat {
    if loaded < usize::MAX {
        loaded + 1
    } else {
        loaded
    }
}

/// What harvesting one finished chunk does: the chunk, touched, becomes the
/// resident chunk at its coordinate, in place of any that was there; the
/// coordinate leaves the in-flight set; the load counter goes up by one.
pub open spec fn harvest_one<P>(s: LoaderState<P>, ch: Chunk<P>, now: u64) -> LoaderState<P> {
    LoaderState {
        cache: s.cache.insert(ch.coord, touched(ch, now)),
        inflight: s.inflight.remove(ch.coord),
        loaded: bump(s.loaded),
        ..s
    }
}

/// `harvest_one` for each of `completed` in turn: of two chunks for one
/// coordinate, the later one stays.
pub open spec fn after_harvest<P>(s: LoaderState<P>, completed: Seq<Chunk<P>>, now: u64) -> LoaderState<P>
    decreases completed.len(),
{
    if completed.len() == 0 {
        s
    } else {
        harvest_one(after_harvest(s, completed.drop_last(), now), completed.last(), now)
    }
}

/// The state after eviction has restored the bound on resident chunks.
pub open spec fn after_eviction<P>(s: LoaderState<P>, max_chunks: usize) -> LoaderState<P> {
    LoaderState { cache: evict_spec(s.cache, max_chunks as nat), ..s }
}

/// How many coordinates leave the queue: as many as the in-flight set has
/// room for under `max_inflight`, and no more than are queued.
pub open spec fn dispatch_count<P>(s: LoaderState<P>, max_inflight: usize) -> nat {
    let room = if s.inflight.len() >= max_inflight {
        0
    } else {
        max_inflight - s.inflight.len()
    };
    if s.needed.len() <= room {
        s.needed.len()
    } else {
        room as nat
    }
}

/// The coordinates that leave the queue, in queue order.
pub open spec fn dispatched<P>(s: LoaderState<P>, max_inflight: usize) -> Seq<ChunkCoord> {
    s.needed.take(dispatch_count(s, max_inflight) as int)
}

/// The state after dispatch: the front of the queue has moved to the
/// in-flight set.
pub open spec fn after_dispatch<P>(s: LoaderState<P>, max_inflight: usize) -> LoaderState<P> {
    LoaderState {
        needed: s.needed.skip(dispatch_count(s, max_inflight) as int),
        inflight: s.inflight.union(dispatched(s, max_inflight).to_set()),
        ..s
    }
}

/// The job for coordinate `c`.
pub open spec fn job(c: ChunkCoord, worker_count: usize) -> Dispatch {
    Dispatch { worker: route_spec(c, worker_count), coord: c }
}

/// The jobs that dispatch hands out, in queue order.
pub open spec fn jobs(coords: Seq<ChunkCoord>, worker_count: usize) -> Seq<Dispatch> {
    Seq::new(coords.len(), |i: int| job(coords[i], worker_count))
}

/// A report is due when at least one chunk was loaded since the last one and
/// the limiter fires.
pub open spec fn report_due<P>(s: LoaderState<P>, now: u64) -> bool {
    s.loaded > 0 && fires(s.limiter, now as int)
}

/// The state after the report, if one was due: the counter starts over and
/// the limiter is rearmed. The limiter is not asked while nothing was loaded.
pub open spec fn after_report<P>(s: LoaderState<P>, now: u64) -> LoaderState<P> {
    if report_due(s, now) {
        LoaderState { loaded: 0, limiter: after_limit(s.limiter, now as int), ..s }
    } else {
        s
    }
}

/// The state in which `work` dispatches: finished chunks harvested, then the
/// bound on resident chunks restored.
pub open spec fn before_dispatch<P>(
    s: LoaderState<P>,
    completed: Seq<Chunk<P>>,
    now: u64,
    config: LoaderConfig,
) -> LoaderState<P> {
    after_eviction(after_harvest(s, completed, now), config.max_chunks)
}

/// The state after one call of `work`: harvest, eviction, dispatch, report.
pub open spec fn work_spec<P>(
    s: LoaderState<P>,
    completed: Seq<Chunk<P>>,
    now: u64,
    config: LoaderConfig,
) -> LoaderState<P> {
    after_report(
        after_dispatch(before_dispatch(s, completed, now, config), config.max_inflight),
        now,
    )
}

/// The jobs that one call of `work` hands out.
pub open spec fn work_jobs<P>(
    s: LoaderState<P>,
    completed: Seq<Chunk<P>>,
    now: u64,
    config: LoaderConfig,
) -> Seq<Dispatch> {
    jobs(
        dispatched(before_dispatch(s, completed, now, config), config.max_inflight),
        config.worker_count,
    )
}

/// The report that one call of `work` makes.
pub open spec fn work_report<P>(
    s: LoaderState<P>,
    completed: Seq<Chunk<P>>,
    now: u64,
    config: LoaderConfig,
) -> Option<usize> {
    let d = after_dispatch(before_dispatch(s, completed, now, config), config.max_inflight);
    if report_due(d, now) {
        Some(d.loaded as usize)
    } else {
        None
    }
}

/// Harvesting keeps a valid state valid and leaves the queue alone.
pub proof fn lemma_after_harvest<P>(s: LoaderState<P>, completed: Seq<Chunk<P>>, now: u64)
    requires
        state_valid(s),
    ensures
        state_valid(after_harvest(s, completed, now)),
        after_harvest(s, completed, now).needed == s.needed,
        after_harvest(s, completed, now).limiter == s.limiter,
        after_harvest(s, completed, now).inflight.subset_of(s.inflight),
    decreases completed.len(),
{
    if completed.len() > 0 {
        lemma_after_harvest(s, completed.drop_last(), now);
    }
}

/// Dispatch keeps a valid state valid, fills the in-flight set no further
/// than `max_inflight` allows, and hands out only coordinates that were not
/// in flight, each of them once.
pub proof fn lemma_after_dispatch<P>(s: LoaderState<P>, max_inflight: usize)
    requires
        state_valid(s),
    ensures
        state_valid(after_dispatch(s, max_inflight)),
        dispatched(s, max_inflight).no_duplicates(),
        forall|i: int|
            0 <= i < dispatched(s, max_inflight).len() ==> !s.inflight.contains(
                #[trigger] dispatched(s, max_inflight)[i],
            ),
        after_dispatch(s, max_inflight).inflight.len() == s.inflight.len() + dispatch_count(
            s,
            max_inflight,
        ),
        s.inflight.len() <= max_inflight ==> after_dispatch(s, max_inflight).inflight.len()
            <= max_inflight,
{
    let k = dispatch_count(s, max_inflight) as int;
    let head = s.needed.take(k);
    let rest = s.needed.skip(k);
    assert(head.no_duplicates());
    assert(rest.no_duplicates());
    vstd::seq_lib::seq_to_set_is_finite(head);
    head.unique_seq_to_set();
    assert(s.inflight.disjoint(head.to_set())) by {
        assert forall|c: ChunkCoord| s.inflight.contains(c) implies !head.to_set().contains(c) by {
            if head.contains(c) {
                let i = choose|i: int| 0 <= i < head.len() && head[i] == c;
                assert(s.needed[i] == c);
            }
        }
    }
    vstd::set_lib::lemma_set_disjoint_lens(s.inflight, head.to_set());
    let t = after_dispatch(s, max_inflight);
    assert forall|i: int| 0 <= i < t.needed.len() implies !t.inflight.contains(
        #[trigger] t.needed[i],
    ) by {
        let c = rest[i];
        assert(c == s.needed[i + k]);
        if head.contains(c) {
            let j = choose|j: int| 0 <= j < head.len() && head[j] == c;
            assert(s.needed[j] == c);
        }
    }
}

/// Where the chunks live and what is still to be done for them.
pub struct ChunkLoader<P> {
    cache: ChunkCache<P>,
    needed_chunks: Vec<ChunkCoord>,
    inflight: CoordSet,
    worker_count: usize,
    max_inflight: usize,
    policy: RequestPolicy,
    load_rate_display_limiter: RateLimiter,
    load_rate_counter: usize,
}

impl<P> View for ChunkLoader<P> {
    type V = LoaderState<P>;

    closed spec fn view(&self) -> LoaderState<P> {
        LoaderState {
            cache: self.cache@,
            needed: self.needed_chunks@,
            inflight: self.inflight@,
            loaded: self.load_rate_counter as nat,
            limiter: self.load_rate_display_limiter@,
        }
    }
}

spec fn queue_valid(needed: Seq<ChunkCoord>, inflight: Set<ChunkCoord>) -> bool {
    &&& needed.no_duplicates()
    &&& forall|i: int| 0 <= i < needed.len() ==> !inflight.contains(#[trigger] needed[i])
}

fn queue_contains(queue: &Vec<ChunkCoord>, coord: ChunkCoord) -> (r: bool)
    ensures
        r == queue@.contains(coord),
{
    let mut i: usize = 0;
    while i < queue.len()
        invariant
            i <= queue@.len(),
            forall|j: int| 0 <= j < i ==> queue@[j] != coord,
        decreases queue@.len() - i,
    {
        if queue[i] == coord {
            return true;
        }
        i += 1;
    }
    false
}

impl<P> ChunkLoader<P> {
    #[verifier::type_invariant]
    spec fn well_formed(self) -> bool {
        &&& queue_valid(self.needed_chunks@, self.inflight@)
        &&& self.cache@.dom().finite()
        &&& self.inflight@.finite()
        &&& self.worker_count > 0
        &&& self.load_rate_display_limiter@.interval >= 0
    }

    /// The limits this loader works under.
    pub closed spec fn spec_config(&self) -> LoaderConfig {
        LoaderConfig {
            worker_count: self.worker_count,
            max_chunks: self.cache.capacity(),
            max_inflight: self.max_inflight,
            policy: self.policy,
            report_interval: self.load_rate_display_limiter@.interval as u64,
        }
    }

    /// A loader with nothing resident, queued or in flight, whose report
    /// limiter is armed at `now`.
    pub fn with_config(config: LoaderConfig, now: u64) -> (loader: ChunkLoader<P>)
        requires
            config.worker_count > 0,
        ensures
            loader.config() == config,
            loader@ == (LoaderState::<P> {
                cache: Map::empty(),
                needed: Seq::empty(),
                inflight: Set::empty(),
                loaded: 0,
                limiter: LimiterState {
                    deadline: now + config.report_interval,
                    interval: config.report_interval as int,
                },
            }),
            state_valid(loader@),
    {
        ChunkLoader {
            cache: ChunkCache::new(config.max_chunks),
            needed_chunks: Vec::new(),
            inflight: CoordSet::new(),
            worker_count: config.worker_count,
            max_inflight: config.max_inflight,
            policy: config.policy,
            load_rate_display_limiter: RateLimiter::new_at(config.report_interval, now),
            load_rate_counter: 0,
        }
    }

    /// A loader for `worker_count` workers under the default limits
    /// (`MAX_CHUNKS`, `MAX_INFLIGHT`, a queue rebuilt by every request, a
    /// report every second), with nothing resident, queued or in flight. Its
    /// report limiter is armed at the time the clock reads.
    pub fn new(worker_count: usize) -> (loader: ChunkLoader<P>)
        requires
            worker_count > 0,
        ensures
            loader.config() == (LoaderConfig {
                worker_count,
                max_chunks: MAX_CHUNKS,
                max_inflight: MAX_INFLIGHT,
                policy: RequestPolicy::FrameRefresh,
                report_interval: REPORT_INTERVAL_NS,
            }),
            loader@.cache == Map::<ChunkCoord, Chunk<P>>::empty(),
            loader@.needed == Seq::<ChunkCoord>::empty(),
            loader@.inflight == Set::<ChunkCoord>::empty(),
            loader@.loaded == 0,
            loader@.limiter.interval == REPORT_INTERVAL_NS,
            REPORT_INTERVAL_NS <= loader@.limiter.deadline <= u64::MAX + REPORT_INTERVAL_NS,
            state_valid(loader@),
    {
        let now = now_ns();
        ChunkLoader::with_config(
            LoaderConfig {
                worker_count,
                max_chunks: MAX_CHUNKS,
                max_inflight: MAX_INFLIGHT,
                policy: RequestPolicy::FrameRefresh,
                report_interval: REPORT_INTERVAL_NS,
            },
            now,
        )
    }

    /// The limits this loader works under.
    #[verifier::when_used_as_spec(spec_config)]
    pub fn config(&self) -> (config: LoaderConfig)
        ensures
            config == self.spec_config(),
    {
        LoaderConfig {
            worker_count: self.worker_count,
            max_chunks: self.cache.capacity(),
            max_inflight: self.max_inflight,
            policy: self.policy,
            report_interval: self.load_rate_display_limiter.interval(),
        }
    }

    /// The chunk resident at `c`, if there is one. A pure lookup: the
    /// timestamp is not refreshed.
    pub fn get(&self, c: ChunkCoord) -> (r: Option<&Chunk<P>>)
        ensures
            match r {
                Some(ch) => self@.cache.contains_key(c) && *ch == self@.cache[c],
                None => !self@.cache.contains_key(c),
            },
    {
        self.cache.get(c)
    }

    /// The resident chunks among `coords`, in the order of `coords`; a
    /// coordinate named twice gives its chunk twice. A pure lookup: no
    /// timestamp is refreshed.
    pub fn resident_chunks(&self, coords: &[ChunkCoord]) -> (found: Vec<&Chunk<P>>)
        ensures
            found@.len() == resident_among(self@.cache, coords@).len(),
            forall|i: int|
                0 <= i < found@.len() ==> *(#[trigger] found@[i]) == resident_among(
                    self@.cache,
                    coords@,
                )[i],
    {
        let mut found: Vec<&Chunk<P>> = Vec::new();
        assert(coords@.take(0) =~= Seq::empty());
        for i in 0..coords.len()
            invariant
                found@.len() == resident_among(self@.cache, coords@.take(i as int)).len(),
                forall|j: int|
                    0 <= j < found@.len() ==> *(#[trigger] found@[j]) == resident_among(
                        self@.cache,
                        coords@.take(i as int),
                    )[j],
        {
            proof {
                assert(coords@.take(i + 1).drop_last() =~= coords@.take(i as int));
            }
            match self.cache.get(coords[i]) {
                Some(chunk) => {
                    found.push(chunk);
                },
                None => {},
            }
        }
        proof {
            assert(coords@.take(coords@.len() as int) =~= coords@);
        }
        found
    }

    /// The number of resident chunks.
    pub fn resident_count(&self) -> (n: usize)
        ensures
            state_valid(self@),
            n == self@.cache.len(),
    {
        proof {
            use_type_invariant(self);
            vstd::seq_lib::seq_to_set_is_finite(self.needed_chunks@);
        }
        self.cache.len()
    }

    /// Takes note, at time `now`, of the coordinates that are needed. Each
    /// resident one is touched; each one in flight is skipped; the others
    /// are queued, once each, in the order given. Under `FrameRefresh` the
    /// queue holds nothing but them afterwards.
    pub fn request_at(&mut self, coords: &[ChunkCoord], now: u64)
        ensures
            final(self)@ == request_spec(old(self)@, coords@, now, old(self).config().policy),
            final(self).config() == old(self).config(),
            state_valid(final(self)@),
    {
        proof {
            use_type_invariant(&*self);
        }
        let mut cache = ChunkCache::placeholder();
        std::mem::swap(&mut cache, &mut self.cache);
        let mut needed = Vec::new();
        std::mem::swap(&mut needed, &mut self.needed_chunks);
        match self.policy {
            RequestPolicy::FrameRefresh => {
                needed.clear();
            },
            RequestPolicy::Accumulate => {},
        }
        let ghost start = LoaderState {
            cache: cache@,
            needed: needed@,
            inflight: self.inflight@,
            loaded: self.load_rate_counter as nat,
            limiter: self.load_rate_display_limiter@,
        };
        assert(coords@.take(0) =~= Seq::empty());
        for i in 0..coords.len()
            invariant
                state_valid(start),
                cache.capacity() == old(self).cache.capacity(),
                self.inflight@ == start.inflight,
                self.load_rate_counter == start.loaded,
                self.load_rate_display_limiter@ == start.limiter,
                request_each(start, coords@.take(i as int), now) == (LoaderState {
                    cache: cache@,
                    needed: needed@,
                    inflight: start.inflight,
                    loaded: start.loaded,
                    limiter: start.limiter,
                }),
        {
            let c = coords[i];
            proof {
                lemma_request_each(start, coords@.take(i as int), now);
                assert(coords@.take(i + 1).drop_last() =~= coords@.take(i as int));
            }
            if cache.touch(c, now) {
            } else if self.inflight.contains(c) {
            } else if !queue_contains(&needed, c) {
                needed.push(c);
            }
        }
        proof {
            assert(coords@.take(coords@.len() as int) =~= coords@);
            lemma_request_each(start, coords@, now);
        }
        self.cache = cache;
        self.needed_chunks = needed;
    }

    /// Takes note of the coordinates that are needed, at the time the clock
    /// reads: that of [`ChunkLoader::request_at`] for some `now`.
    pub fn request(&mut self, coords: &[ChunkCoord])
        ensures
            exists|now: u64|
                final(self)@ == #[trigger] request_spec(
                    old(self)@,
                    coords@,
                    now,
                    old(self).config().policy,
                ),
            final(self).config() == old(self).config(),
            state_valid(final(self)@),
    {
        let now = now_ns();
        self.request_at(coords, now);
    }

    /// Gives up the job for `coord`, whose generation has failed: the
    /// coordinate leaves the in-flight set and says whether it was there. It
    /// is not queued again here; the next request that names it does that.
    pub fn job_failed(&mut self, coord: ChunkCoord) -> (was_in_flight: bool)
        ensures
            was_in_flight == old(self)@.inflight.contains(coord),
            final(self)@ == release_one(old(self)@, coord),
            final(self).config() == old(self).config(),
            state_valid(final(self)@),
    {
        proof {
            use_type_invariant(&*self);
            vstd::seq_lib::seq_to_set_is_finite(self.needed_chunks@);
        }
        let mut inflight = CoordSet::new();
        std::mem::swap(&mut inflight, &mut self.inflight);
        let was_in_flight = inflight.remove(coord);
        self.inflight = inflight;
        was_in_flight
    }

    /// Takes note that a worker is gone for good: those of its `outstanding`
    /// jobs that are in flight return to the end of the queue, in the order
    /// given, and dispatches are spread over the `remaining_workers` from now
    /// on.
    pub fn worker_lost(&mut self, outstanding: &[ChunkCoord], remaining_workers: usize)
        requires
            remaining_workers > 0,
        ensures
            final(self)@ == requeue_each(old(self)@, outstanding@),
            final(self).config() == (LoaderConfig {
                worker_count: remaining_workers,
                ..old(self).config()
            }),
            state_valid(final(self)@),
    {
        proof {
            use_type_invariant(&*self);
        }
        self.worker_count = remaining_workers;
        let mut inflight = CoordSet::new();
        std::mem::swap(&mut inflight, &mut self.inflight);
        let mut needed = Vec::new();
        std::mem::swap(&mut needed, &mut self.needed_chunks);
        let ghost start = LoaderState {
            cache: self.cache@,
            needed: needed@,
            inflight: inflight@,
            loaded: self.load_rate_counter as nat,
            limiter: self.load_rate_display_limiter@,
        };
        assert(outstanding@.take(0) =~= Seq::empty());
        for i in 0..outstanding.len()
            invariant
                state_valid(start),
                self.cache@ == start.cache,
                self.cache.capacity() == old(self).cache.capacity(),
                self.needed_chunks@.len() == 0,
                self.inflight@ == Set::<ChunkCoord>::empty(),
                requeue_each(start, outstanding@.take(i as int)) == (LoaderState {
                    cache: start.cache,
                    needed: needed@,
                    inflight: inflight@,
                    loaded: start.loaded,
                    limiter: start.limiter,
                }),
        {
            let c = outstanding[i];
            proof {
                lemma_requeue_each(start, outstanding@.take(i as int));
                assert(outstanding@.take(i + 1).drop_last() =~= outstanding@.take(i as int));
            }
            if inflight.remove(c) {
                if !self.cache.contains(c) && !queue_contains(&needed, c) {
                    needed.push(c);
                }
            } else {
                assert(inflight@ =~= requeue_each(start, outstanding@.take(i as int)).inflight);
            }
        }
        proof {
            assert(outstanding@.take(outstanding@.len() as int) =~= outstanding@);
            lemma_requeue_each(start, outstanding@);
        }
        self.inflight = inflight;
        self.needed_chunks = needed;
    }

    /// One tick of the loader, at time `now`, in four steps.
    ///
    /// 1. Each chunk of `completed` (what the workers have finished since the
    ///    last tick, in the order it arrived) is touched, becomes resident,
    ///    and leaves the in-flight set.
    /// 2. Eviction restores the bound on resident chunks.
    /// 3. While the in-flight set has room and the queue is not empty, the
    ///    front of the queue moves to the in-flight set and a job for it is
    ///    handed out.
    /// 4. If chunks were loaded since the last report and the limiter fires,
    ///    their number is reported and the counter starts over.
    pub fn work_at(&mut self, completed: Vec<Chunk<P>>, now: u64) -> (out: WorkOutcome)
        ensures
            final(self)@ == work_spec(old(self)@, completed@, now, old(self).config()),
            out.dispatches@ == work_jobs(old(self)@, completed@, now, old(self).config()),
            out.loaded_report == work_report(old(self)@, completed@, now, old(self).config()),
            final(self).config() == old(self).config(),
            state_valid(final(self)@),
            final(self)@.cache.len() <= final(self).config().max_chunks,
            old(self)@.inflight.len() <= old(self).config().max_inflight
                ==> final(self)@.inflight.len() <= old(self).config().max_inflight,
            forall|i: int|
                0 <= i < out.dispatches@.len() ==> (#[trigger] out.dispatches@[i]).worker
                    < final(self).config().worker_count,
    {
        proof {
            use_type_invariant(&*self);
        }
        let ghost config = self.config();
        let mut cache = ChunkCache::placeholder();
        std::mem::swap(&mut cache, &mut self.cache);
        let mut inflight = CoordSet::new();
        std::mem::swap(&mut inflight, &mut self.inflight);
        let mut needed = Vec::new();
        std::mem::swap(&mut needed, &mut self.needed_chunks);
        let mut counter = self.load_rate_counter;
        let ghost start = LoaderState {
            cache: cache@,
            needed: needed@,
            inflight: inflight@,
            loaded: counter as nat,
            limiter: self.load_rate_display_limiter@,
        };
        assert(start == old(self)@);
        let ghost all = completed@;

        // 1. harvest
        assert(all.take(0) =~= Seq::empty());
        for ch in it: completed
            invariant
                it.seq() == all,
                state_valid(start),
                cache.capacity() == config.max_chunks,
                after_harvest(start, all.take(it.index() as int), now) == (LoaderState {
                    cache: cache@,
                    needed: start.needed,
                    inflight: inflight@,
                    loaded: counter as nat,
                    limiter: start.limiter,
                }),
        {
            proof {
                assert(all.take(it.index() + 1).drop_last() =~= all.take(it.index() as int));
            }
            let mut ch = ch;
            let coord = ch.coord;
            ch.touch_at(now);
            cache.insert(coord, ch);
            inflight.remove(coord);
            if counter < usize::MAX {
                counter += 1;
            }
        }
        proof {
            assert(all.take(all.len() as int) =~= all);
            lemma_after_harvest(start, all, now);
            vstd::set_lib::lemma_len_subset(after_harvest(start, all, now).inflight, start.inflight);
        }
        let ghost harvested = after_harvest(start, all, now);

        // 2. evict
        cache.evict_if_over_capacity();
        let ghost evicted = after_eviction(harvested, config.max_chunks);
        proof {
            lemma_evict_spec(harvested.cache, config.max_chunks as nat);
            assert(state_valid(evicted));
        }

        // 3. dispatch
        let flying = inflight.len();
        let room = if flying >= self.max_inflight {
            0
        } else {
            self.max_inflight - flying
        };
        let count = if needed.len() <= room {
            needed.len()
        } else {
            room
        };
        assert(count == dispatch_count(evicted, config.max_inflight));
        let mut dispatches: Vec<Dispatch> = Vec::new();
        assert(needed@.take(0) =~= Seq::empty());
        for i in 0..count
            invariant
                count <= needed@.len(),
                needed@ == evicted.needed,
                self.worker_count == config.worker_count,
                config.worker_count > 0,
                inflight@ == evicted.inflight.union(needed@.take(i as int).to_set()),
                dispatches@ == jobs(needed@.take(i as int), config.worker_count),
        {
            let c = needed[i];
            proof {
                let head = needed@.take(i as int);
                let next = needed@.take(i + 1);
                assert(next =~= head.push(c));
                head.lemma_push_to_set_commute(c);
                assert(evicted.inflight.union(next.to_set()) =~= evicted.inflight.union(
                    head.to_set(),
                ).insert(c));
                assert(jobs(next, config.worker_count) =~= jobs(head, config.worker_count).push(
                    job(c, config.worker_count),
                ));
            }
            inflight.insert(c);
            dispatches.push(Dispatch { worker: worker_index(c, self.worker_count), coord: c });
        }
        let rest = needed.split_off(count);
        let ghost sent = after_dispatch(evicted, config.max_inflight);
        proof {
            lemma_after_dispatch(evicted, config.max_inflight);
            assert(rest@ =~= evicted.needed.skip(count as int));
        }
        self.needed_chunks = rest;
        self.inflight = inflight;
        self.cache = cache;

        // 4. report
        let loaded_report = if counter > 0 && self.load_rate_display_limiter.limit_at(now) {
            self.load_rate_counter = 0;
            Some(counter)
        } else {
            self.load_rate_counter = counter;
            None
        };
        proof {
            assert(self@ == after_report(sent, now));
        }
        WorkOutcome { dispatches, loaded_report }
    }

    /// One tick of the loader at the time the clock reads: that of
    /// [`ChunkLoader::work_at`] for some `now`. The bound on resident chunks
    /// holds afterwards whatever the clock read.
    pub fn work(&mut self, completed: Vec<Chunk<P>>) -> (out: WorkOutcome)
        ensures
            exists|now: u64|
                {
                    &&& final(self)@ == #[trigger] work_spec(
                        old(self)@,
                        completed@,
                        now,
                        old(self).config(),
                    )
                    &&& out.dispatches@ == work_jobs(
                        old(self)@,
                        completed@,
                        now,
                        old(self).config(),
                    )
                    &&& out.loaded_report == work_report(
                        old(self)@,
                        completed@,
                        now,
                        old(self).config(),
                    )
                },
            final(self).config() == old(self).config(),
            state_valid(final(self)@),
            final(self)@.cache.len() <= final(self).config().max_chunks,
            old(self)@.inflight.len() <= old(self).config().max_inflight
                ==> final(self)@.inflight.len() <= old(self).config().max_inflight,
            forall|i: int|
                0 <= i < out.dispatches@.len() ==> (#[trigger] out.dispatches@[i]).worker
                    < final(self).config().worker_count,
    {
        let now = now_ns();
        self.work_at(completed, now)
    }
}

/// What a request leaves in the queue depends on which chunks are resident,
/// what is in flight and what was queued, not on any timestamp.
pub proof fn lemma_request_queue_ignores_time<P>(
    a: LoaderState<P>,
    b: LoaderState<P>,
    coords: Seq<ChunkCoord>,
    now_a: u64,
    now_b: u64,
)
    requires
        a.cache.dom() == b.cache.dom(),
        a.inflight == b.inflight,
        a.needed == b.needed,
    ensures
        request_each(a, coords, now_a).needed == request_each(b, coords, now_b).needed,
        request_each(a, coords, now_a).cache.dom() == request_each(b, coords, now_b).cache.dom(),
        request_each(a, coords, now_a).inflight == request_each(b, coords, now_b).inflight,
    decreases coords.len(),
{
    if coords.len() > 0 {
        lemma_request_queue_ignores_time(a, b, coords.drop_last(), now_a, now_b);
        let pa = request_each(a, coords.drop_last(), now_a);
        let pb = request_each(b, coords.drop_last(), now_b);
        let c = coords.last();
        if pa.cache.contains_key(c) {
            assert(pb.cache.contains_key(c));
            assert(request_one(pa, c, now_a).cache.dom() =~= pa.cache.dom());
            assert(request_one(pb, c, now_b).cache.dom() =~= pb.cache.dom());
        }
    }
}

/// After a request every requested coordinate is resident, in flight or
/// queued, and what was queued before is still queued.
pub proof fn lemma_request_covers<P>(s: LoaderState<P>, coords: Seq<ChunkCoord>, now: u64)
    ensures
        forall|i: int|
            0 <= i < coords.len() ==> {
                let r = request_each(s, coords, now);
                let c = #[trigger] coords[i];
                r.cache.contains_key(c) || r.inflight.contains(c) || r.needed.contains(c)
            },
        forall|c: ChunkCoord|
            s.needed.contains(c) ==> #[trigger] request_each(s, coords, now).needed.contains(c),
        request_each(s, coords, now).cache.dom() == s.cache.dom(),
        request_each(s, coords, now).inflight == s.inflight,
    decreases coords.len(),
{
    if coords.len() > 0 {
        let init = coords.drop_last();
        lemma_request_covers(s, init, now);
        let p = request_each(s, init, now);
        let last = coords.last();
        let r = request_one(p, last, now);
        assert(r.cache.dom() =~= p.cache.dom());
        assert forall|c: ChunkCoord| p.needed.contains(c) implies r.needed.contains(c) by {
            let j = choose|j: int| 0 <= j < p.needed.len() && p.needed[j] == c;
            assert(r.needed[j] == c);
        }
        assert forall|i: int| 0 <= i < coords.len() implies {
            let c = #[trigger] coords[i];
            r.cache.contains_key(c) || r.inflight.contains(c) || r.needed.contains(c)
        } by {
            let c = coords[i];
            if i < init.len() {
                assert(init[i] == c);
            } else {
                if !p.cache.contains_key(c) && !p.inflight.contains(c) && !p.needed.contains(c) {
                    assert(r.needed[p.needed.len() as int] == c);
                }
            }
        }
    }
}

/// A request for coordinates that are all resident, in flight or queued
/// leaves the queue as it was.
pub proof fn lemma_request_covered<P>(s: LoaderState<P>, coords: Seq<ChunkCoord>, now: u64)
    requires
        forall|i: int|
            0 <= i < coords.len() ==> {
                let c = #[trigger] coords[i];
                s.cache.contains_key(c) || s.inflight.contains(c) || s.needed.contains(c)
            },
    ensures
        request_each(s, coords, now).needed == s.needed,
        request_each(s, coords, now).cache.dom() == s.cache.dom(),
        request_each(s, coords, now).inflight == s.inflight,
    decreases coords.len(),
{
    if coords.len() > 0 {
        let init = coords.drop_last();
        assert forall|i: int| 0 <= i < init.len() implies {
            let c = #[trigger] init[i];
            s.cache.contains_key(c) || s.inflight.contains(c) || s.needed.contains(c)
        } by {
            assert(init[i] == coords[i]);
        }
        lemma_request_covered(s, init, now);
        let p = request_each(s, init, now);
        let c = coords.last();
        assert(c == coords[coords.len() - 1]);
        assert(request_one(p, c, now).cache.dom() =~= p.cache.dom());
    }
}

/// A request is idempotent: asking for the same coordinates twice in a row,
/// with nothing harvested, evicted or dispatched in between, leaves the queue
/// that asking once left. No coordinate is queued twice.
pub proof fn law_request_idempotent<P>(
    s: LoaderState<P>,
    coords: Seq<ChunkCoord>,
    first: u64,
    second: u64,
    policy: RequestPolicy,
)
    requires
        state_valid(s),
    ensures
        request_spec(request_spec(s, coords, first, policy), coords, second, policy).needed
            == request_spec(s, coords, first, policy).needed,
        request_spec(s, coords, first, policy).needed.no_duplicates(),
{
    let once = request_spec(s, coords, first, policy);
    match policy {
        RequestPolicy::FrameRefresh => {
            let cleared = LoaderState { needed: Seq::empty(), ..s };
            let again = LoaderState { needed: Seq::empty(), ..once };
            lemma_request_each(cleared, coords, first);
            lemma_request_queue_ignores_time(again, cleared, coords, second, first);
        },
        RequestPolicy::Accumulate => {
            lemma_request_each(s, coords, first);
            lemma_request_covers(s, coords, first);
            lemma_request_covered(once, coords, second);
        },
    }
}

/// No duplicate dispatch: while the coordinate `c` is in flight and its
/// result has not come back, a tick (a request for any coordinates, then
/// `work` with any finished chunks but that of `c`) neither queues `c` nor
/// hands out a job for it, and leaves it in flight. The state after the
/// tick meets what this law asks of the state before it, so the same holds
/// of every later tick until the result of `c` is harvested.
pub proof fn law_no_duplicate_dispatch<P>(
    s: LoaderState<P>,
    c: ChunkCoord,
    coords: Seq<ChunkCoord>,
    completed: Seq<Chunk<P>>,
    request_time: u64,
    work_time: u64,
    config: LoaderConfig,
)
    requires
        state_valid(s),
        s.inflight.contains(c),
        forall|i: int| 0 <= i < completed.len() ==> (#[trigger] completed[i]).coord != c,
    ensures
        ({
            let requested = request_spec(s, coords, request_time, config.policy);
            let worked = work_spec(requested, completed, work_time, config);
            let handed = work_jobs(requested, completed, work_time, config);
            &&& !requested.needed.contains(c)
            &&& requested.inflight.contains(c)
            &&& forall|i: int| 0 <= i < handed.len() ==> (#[trigger] handed[i]).coord != c
            &&& !worked.needed.contains(c)
            &&& worked.inflight.contains(c)
            &&& state_valid(worked)
        }),
{
    let requested = request_spec(s, coords, request_time, config.policy);
    match config.policy {
        RequestPolicy::FrameRefresh => {
            lemma_request_each(LoaderState { needed: Seq::empty(), ..s }, coords, request_time);
        },
        RequestPolicy::Accumulate => {
            lemma_request_each(s, coords, request_time);
        },
    }
    assert(!requested.needed.contains(c)) by {
        if requested.needed.contains(c) {
            let i = choose|i: int| 0 <= i < requested.needed.len() && requested.needed[i] == c;
            assert(!requested.inflight.contains(requested.needed[i]));
        }
    }
    lemma_harvest_keeps_in_flight(requested, completed, work_time, c);
    lemma_after_harvest(requested, completed, work_time);
    let harvested = after_harvest(requested, completed, work_time);
    let evicted = after_eviction(harvested, config.max_chunks);
    lemma_evict_spec(harvested.cache, config.max_chunks as nat);
    assert(state_valid(evicted));
    lemma_after_dispatch(evicted, config.max_inflight);
    let out = dispatched(evicted, config.max_inflight);
    let handed = work_jobs(requested, completed, work_time, config);
    assert forall|i: int| 0 <= i < handed.len() implies (#[trigger] handed[i]).coord != c by {
        assert(!evicted.inflight.contains(out[i]));
    }
    let worked = work_spec(requested, completed, work_time, config);
    assert(!worked.needed.contains(c)) by {
        if worked.needed.contains(c) {
            let i = choose|i: int| 0 <= i < worked.needed.len() && worked.needed[i] == c;
            assert(!after_dispatch(evicted, config.max_inflight).inflight.contains(
                worked.needed[i],
            ));
        }
    }
}

/// A coordinate in flight stays in flight through a harvest that brings no
/// chunk for it.
pub proof fn lemma_harvest_keeps_in_flight<P>(
    s: LoaderState<P>,
    completed: Seq<Chunk<P>>,
    now: u64,
    c: ChunkCoord,
)
    requires
        s.inflight.contains(c),
        forall|i: int| 0 <= i < completed.len() ==> (#[trigger] completed[i]).coord != c,
    ensures
        after_harvest(s, completed, now).inflight.contains(c),
    decreases completed.len(),
{
    if completed.len() > 0 {
        let init = completed.drop_last();
        assert forall|i: int| 0 <= i < init.len() implies (#[trigger] init[i]).coord != c by {
            assert(init[i] == completed[i]);
        }
        lemma_harvest_keeps_in_flight(s, init, now, c);
        assert(completed.last() == completed[completed.len() - 1]);
    }
}

} // verus!
