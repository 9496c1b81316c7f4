//! Verified dispatcher state: tracking which connection waits for which job
//! id, and routing parsed requests.
//!
//! The dispatcher owns the pool and a map from outstanding job id to the
//! connection that produced the job. The invariant that every drained result
//! finds its connection in the map - whose violation the runtime would have
//! to treat as fatal - is proved here, so the fatal path is unreachable as
//! long as all submissions and collections go through this state.

use vstd::prelude::*;
use std::collections::HashMap;
use crate::pool::ThreadPool;
use crate::pool::is_first_min;
use crate::pool::lemma_not_issued_not_outstanding;
use crate::pool::lemma_queued_is_outstanding;
use crate::http::HTTPUri;
use crate::http::str_eq;

verus! {

broadcast use vstd::std_specs::hash::group_hash_axioms;

/// Where a request's URI routes: the greeting page, the deliberately slow
/// greeting page, or nothing.
#[derive(Debug, Clone, Copy, PartialEq, Eq, Structural)]
pub enum Route {
    Hello,
    Wait,
    NotFound,
}

/// The routing rule: `/` serves the greeting page, `/wait` serves it after a
/// delay, anything else is not found.
pub open spec fn spec_route(uri: Seq<char>) -> Route {
    if uri == "/"@ {
        Route::Hello
    } else if uri == "/wait"@ {
        Route::Wait
    } else {
        Route::NotFound
    }
}

/// Decides which page a request's URI asks for.
pub fn route(uri: &HTTPUri) -> (r: Route)
    ensures
        r == spec_route(uri@),
{
    let s = uri.unwrap();
    if str_eq(s, "/") {
        Route::Hello
    } else if str_eq(s, "/wait") {
        Route::Wait
    } else {
        Route::NotFound
    }
}

/// The dispatcher's bookkeeping: the pool model plus the map from
/// outstanding job id to the connection (of any type `C`) awaiting that
/// job's result.
pub struct Dispatcher<C> {
    pool: ThreadPool,
    pending: HashMap<u32, C>,
}

impl<C> Dispatcher<C> {
    /// The pool model this dispatcher drives.
    pub closed spec fn pool_state(self) -> ThreadPool {
        self.pool
    }

    /// The tracked connections, by job id.
    pub closed spec fn pending_map(self) -> Map<u32, C> {
        self.pending@
    }

    /// Jobs submitted and not yet completed.
    pub open spec fn active_jobs(self) -> nat {
        self.pending_map().len()
    }

    /// The invariant: the pool is well-formed and a job id is tracked
    /// exactly as long as it is outstanding in some worker queue.
    pub closed spec fn wf(self) -> bool {
        &&& self.pool.wf()
        &&& forall|id: u32|
            self.pending@.contains_key(id) <==> #[trigger] self.pool.outstanding_count(id) >= 1
    }

    /// A dispatcher over a fresh pool of `n_workers` workers, tracking
    /// nothing.
    pub fn new(n_workers: usize) -> (d: Dispatcher<C>)
        requires
            n_workers >= 1,
        ensures
            d.wf(),
            d.pool_state().n_workers() == n_workers,
            d.pool_state().last_id() == 0,
            d.pending_map() == Map::<u32, C>::empty(),
            d.active_jobs() == 0,
    {
        let d = Dispatcher { pool: ThreadPool::new(n_workers), pending: HashMap::new() };
        proof {
            assert forall|id: u32| !(#[trigger] d.pool.outstanding_count(id) >= 1) by {
                lemma_not_issued_not_outstanding(d.pool, id);
            }
        }
        d
    }

    /// Whether the control loop should block waiting for the next
    /// connection: only when no job is in flight, so that polling never
    /// starves outstanding work.
    pub fn wants_blocking_accept(&self) -> (r: bool)
        ensures
            r == (self.active_jobs() == 0),
    {
        self.pending.len() == 0
    }

    /// Jobs submitted and not yet completed.
    pub fn active_count(&self) -> (n: usize)
        ensures
            n == self.active_jobs(),
    {
        self.pending.len()
    }

    /// The job id most recently handed out; 0 before the first submission.
    pub fn last_issued(&self) -> (id: u32)
        ensures
            id as nat == self.pool_state().last_id(),
    {
        self.pool.last_issued()
    }

    /// Accepts a parsed request's connection: assigns the next job id,
    /// routes the job to the least-loaded worker, and tracks the connection
    /// under that id. Returns the id and the worker the caller must hand
    /// the job to.
    pub fn on_new_connection(&mut self, conn: C) -> (r: (u32, usize))
        requires
            old(self).wf(),
            old(self).pool_state().last_id() < u32::MAX,
        ensures
            final(self).wf(),
            r.0 == old(self).pool_state().last_id() + 1,
            is_first_min(old(self).pool_state().loads(), r.1 as int),
            !old(self).pending_map().contains_key(r.0),
            final(self).pending_map() == old(self).pending_map().insert(r.0, conn),
            final(self).active_jobs() == old(self).active_jobs() + 1,
            final(self).pool_state().last_id() == old(self).pool_state().last_id() + 1,
            final(self).pool_state().queue(r.1 as int) =~= old(self).pool_state().queue(
                r.1 as int,
            ).push(r.0),
            forall|v: int|
                0 <= v < old(self).pool_state().n_workers() && v != r.1
                    ==> final(self).pool_state().queue(v) == old(self).pool_state().queue(v),
            final(self).pool_state().n_workers() == old(self).pool_state().n_workers(),
    {
        let (id, w) = self.pool.submit();
        self.pending.insert(id, conn);
        proof {
            assert(!old(self).pending_map().contains_key(id));
            assert(self.pending@.dom() =~= old(self).pending@.dom().insert(id));
            vstd::set::axiom_set_insert_len(old(self).pending@.dom(), id);
        }
        (id, w)
    }

    /// Completes the oldest job of worker `w`: per-worker FIFO fixes which
    /// id the worker's next result carries, so the connection tracked under
    /// that id is handed back - provably present, never a lookup failure.
    pub fn on_result(&mut self, w: usize) -> (r: (u32, C))
        requires
            old(self).wf(),
            (w as int) < old(self).pool_state().n_workers(),
            old(self).pool_state().load(w as int) > 0,
        ensures
            final(self).wf(),
            r.0 == old(self).pool_state().queue(w as int)[0],
            old(self).pending_map().contains_key(r.0),
            r.1 == old(self).pending_map()[r.0],
            final(self).pending_map() == old(self).pending_map().remove(r.0),
            final(self).active_jobs() == old(self).active_jobs() - 1,
            final(self).pool_state().queue(w as int) =~= old(self).pool_state().queue(
                w as int,
            ).drop_first(),
            forall|v: int|
                0 <= v < old(self).pool_state().n_workers() && v != w
                    ==> final(self).pool_state().queue(v) == old(self).pool_state().queue(v),
            final(self).pool_state().last_id() == old(self).pool_state().last_id(),
            final(self).pool_state().n_workers() == old(self).pool_state().n_workers(),
    {
        let id = self.pool.collect(w);
        let conn = match self.pending.remove(&id) {
            Some(c) => c,
            None => {
                proof {
                    assert(old(self).pending_map().contains_key(id));
                }
                vstd::pervasive::unreached()
            },
        };
        proof {
            assert(self.pending@.dom() =~= old(self).pending@.dom().remove(id));
            vstd::set::axiom_set_remove_len(old(self).pending@.dom(), id);
        }
        (id, conn)
    }
}

/// The dispatcher tracks exactly the outstanding jobs: an id has a pending
/// connection precisely while its job has been sent to some worker and its
/// result has not yet been collected.
pub proof fn lemma_pending_iff_outstanding<C>(d: Dispatcher<C>)
    requires
        d.wf(),
    ensures
        forall|id: u32|
            d.pending_map().contains_key(id) <==> #[trigger] d.pool_state().outstanding_count(id)
                >= 1,
{
}

/// The lookup that the control loop performs for every drained result can
/// never fail: whenever some worker has an uncollected job, the id at the
/// front of its queue - the id its next result carries - is tracked in the
/// pending map.
pub proof fn lemma_results_always_tracked<C>(d: Dispatcher<C>, w: int)
    requires
        d.wf(),
        0 <= w < d.pool_state().n_workers(),
        d.pool_state().load(w) > 0,
    ensures
        d.pending_map().contains_key(d.pool_state().queue(w)[0]),
{
    lemma_queued_is_outstanding(d.pool_state(), w, 0);
}

} // verus!
