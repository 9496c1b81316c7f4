//! The coordination core of the worker pool.
//!
//! `ThreadPool` is the dispatcher-side model of the pool: for every worker it
//! holds the queue of job ids that were sent to that worker and whose results
//! have not been collected yet, plus the pool-wide id counter. The surrounding
//! runtime owns the actual threads and channels; every scheduling decision
//! (which worker receives a job, which id a drained result must carry) is made
//! and proved here.

use vstd::prelude::*;

verus! {

/// How often `id` occurs in `s`.
pub open spec fn count_in(s: Seq<u32>, id: u32) -> nat
    decreases s.len(),
{
    if s.len() == 0 {
        0
    } else {
        (if s[0] == id {
            1nat
        } else {
            0nat
        }) + count_in(s.drop_first(), id)
    }
}

/// How often `id` occurs across all queues.
pub open spec fn count_in_queues(qs: Seq<Seq<u32>>, id: u32) -> nat
    decreases qs.len(),
{
    if qs.len() == 0 {
        0
    } else {
        count_in(qs[0], id) + count_in_queues(qs.drop_first(), id)
    }
}

/// The load of worker `w` after `k` submissions spread over `n` fresh
/// workers by least-loaded assignment: every worker carries `k / n` jobs and
/// the first `k % n` workers carry one more.
pub open spec fn bal_load(n: nat, k: nat, w: int) -> nat {
    k / n + if w < (k % n) as int {
        1nat
    } else {
        0nat
    }
}

proof fn lemma_bal_step(n: nat, k: nat)
    requires
        n >= 1,
    ensures
        (k % n) < n,
        forall|w: int|
            0 <= w < n ==> #[trigger] bal_load(n, k + 1, w) == bal_load(n, k, w) + if w == (k
                % n) as int {
                1nat
            } else {
                0nat
            },
{
    vstd::arithmetic::div_mod::lemma_mod_bound(k as int, n as int);
    vstd::arithmetic::div_mod::lemma_fundamental_div_mod(k as int, n as int);
    let q = k as int / n as int;
    let r = k as int % n as int;
    if r + 1 == n {
        assert((q + 1) * (n as int) == (n as int) * q + (n as int)) by (nonlinear_arith);
        vstd::arithmetic::div_mod::lemma_fundamental_div_mod_converse(
            k as int + 1,
            n as int,
            q + 1,
            0,
        );
    } else {
        assert(q * (n as int) == (n as int) * q) by (nonlinear_arith);
        vstd::arithmetic::div_mod::lemma_fundamental_div_mod_converse(
            k as int + 1,
            n as int,
            q,
            r + 1,
        );
    }
}

/// Two first-minimum positions of the same sequence coincide.
pub proof fn lemma_first_min_unique(l: Seq<nat>, a: int, b: int)
    requires
        is_first_min(l, a),
        is_first_min(l, b),
    ensures
        a == b,
{
    if a < b {
        assert(l[a] > l[b]);
    }
    if b < a {
        assert(l[b] > l[a]);
    }
}

/// `w` is the first index at which `loads` attains its minimum.
pub open spec fn is_first_min(loads: Seq<nat>, w: int) -> bool {
    &&& 0 <= w < loads.len()
    &&& forall|j: int| 0 <= j < loads.len() ==> loads[w] <= loads[j]
    &&& forall|j: int| 0 <= j < w ==> loads[j] > loads[w]
}

proof fn lemma_count_push(s: Seq<u32>, x: u32, id: u32)
    ensures
        count_in(s.push(x), id) == count_in(s, id) + if x == id {
            1nat
        } else {
            0nat
        },
    decreases s.len(),
{
    if s.len() == 0 {
        assert(s =~= Seq::<u32>::empty());
        assert(s.push(x).drop_first() =~= Seq::<u32>::empty());
        assert(count_in(Seq::<u32>::empty(), id) == 0);
        assert(count_in(s.push(x), id) == (if x == id {
            1nat
        } else {
            0nat
        }) + count_in(s.push(x).drop_first(), id));
    } else {
        assert(s.push(x).drop_first() =~= s.drop_first().push(x));
        lemma_count_push(s.drop_first(), x, id);
    }
}

proof fn lemma_count_absent(s: Seq<u32>, id: u32)
    requires
        forall|i: int| 0 <= i < s.len() ==> s[i] != id,
    ensures
        count_in(s, id) == 0,
    decreases s.len(),
{
    if s.len() > 0 {
        lemma_count_absent(s.drop_first(), id);
    }
}

proof fn lemma_count_first(s: Seq<u32>)
    requires
        s.len() > 0,
    ensures
        count_in(s, s[0]) >= 1,
{
}

proof fn lemma_count_at(s: Seq<u32>, i: int)
    requires
        0 <= i < s.len(),
    ensures
        count_in(s, s[i]) >= 1,
    decreases i,
{
    if i > 0 {
        lemma_count_at(s.drop_first(), i - 1);
    }
}

proof fn lemma_cq_update(qs: Seq<Seq<u32>>, w: int, q2: Seq<u32>, id: u32)
    requires
        0 <= w < qs.len(),
    ensures
        count_in_queues(qs.update(w, q2), id) + count_in(qs[w], id) == count_in_queues(qs, id)
            + count_in(q2, id),
    decreases qs.len(),
{
    if w == 0 {
        assert(qs.update(0, q2).drop_first() =~= qs.drop_first());
    } else {
        assert(qs.update(w, q2).drop_first() =~= qs.drop_first().update(w - 1, q2));
        lemma_cq_update(qs.drop_first(), w - 1, q2, id);
    }
}

proof fn lemma_cq_absent(qs: Seq<Seq<u32>>, id: u32)
    requires
        forall|w: int, i: int| 0 <= w < qs.len() && 0 <= i < qs[w].len() ==> #[trigger] qs[w][i] != id,
    ensures
        count_in_queues(qs, id) == 0,
    decreases qs.len(),
{
    if qs.len() > 0 {
        lemma_count_absent(qs[0], id);
        assert forall|w: int, i: int|
            0 <= w < qs.drop_first().len() && 0 <= i < qs.drop_first()[w].len() implies #[trigger] qs.drop_first()[w][i]
            != id by {
            assert(qs.drop_first()[w] == qs[w + 1]);
        }
        lemma_cq_absent(qs.drop_first(), id);
    }
}

proof fn lemma_cq_at_least(qs: Seq<Seq<u32>>, w: int, id: u32)
    requires
        0 <= w < qs.len(),
    ensures
        count_in_queues(qs, id) >= count_in(qs[w], id),
    decreases qs.len(),
{
    if w > 0 {
        lemma_cq_at_least(qs.drop_first(), w - 1, id);
    }
}

/// The first `counts[v]` ids of each queue `qs[v]` for `v < w`, in worker
/// order: what one draining pass returns when worker `v` has `counts[v]`
/// results ready.
pub open spec fn taken_upto(qs: Seq<Seq<u32>>, counts: Seq<usize>, w: int) -> Seq<u32>
    decreases w,
{
    if w <= 0 {
        Seq::empty()
    } else {
        taken_upto(qs, counts, w - 1) + qs[w - 1].take(counts[w - 1] as int)
    }
}

/// All ids of the first `w` queues, in worker order.
pub open spec fn concat_upto(qs: Seq<Seq<u32>>, w: int) -> Seq<u32>
    decreases w,
{
    if w <= 0 {
        Seq::empty()
    } else {
        concat_upto(qs, w - 1) + qs[w - 1]
    }
}

proof fn lemma_count_concat(a: Seq<u32>, b: Seq<u32>, id: u32)
    ensures
        count_in(a + b, id) == count_in(a, id) + count_in(b, id),
    decreases a.len(),
{
    if a.len() == 0 {
        assert(a + b =~= b);
    } else {
        assert((a + b).drop_first() =~= a.drop_first() + b);
        lemma_count_concat(a.drop_first(), b, id);
    }
}

proof fn lemma_cq_push(qs: Seq<Seq<u32>>, q: Seq<u32>, id: u32)
    ensures
        count_in_queues(qs.push(q), id) == count_in_queues(qs, id) + count_in(q, id),
    decreases qs.len(),
{
    if qs.len() == 0 {
        assert(qs.push(q).drop_first() =~= Seq::<Seq<u32>>::empty());
        assert(count_in_queues(Seq::<Seq<u32>>::empty(), id) == 0);
        assert(qs.push(q)[0] == q);
    } else {
        assert(qs.push(q).drop_first() =~= qs.drop_first().push(q));
        lemma_cq_push(qs.drop_first(), q, id);
    }
}

proof fn lemma_concat_count(qs: Seq<Seq<u32>>, w: int, id: u32)
    requires
        0 <= w <= qs.len(),
    ensures
        count_in(concat_upto(qs, w), id) == count_in_queues(qs.take(w), id),
    decreases w,
{
    if w == 0 {
        assert(qs.take(0) =~= Seq::<Seq<u32>>::empty());
        assert(count_in_queues(Seq::<Seq<u32>>::empty(), id) == 0);
    } else {
        lemma_concat_count(qs, w - 1, id);
        lemma_count_concat(concat_upto(qs, w - 1), qs[w - 1], id);
        assert(qs.take(w) =~= qs.take(w - 1).push(qs[w - 1]));
        lemma_cq_push(qs.take(w - 1), qs[w - 1], id);
    }
}

proof fn lemma_taken_upto_nothing(qs: Seq<Seq<u32>>, counts: Seq<usize>, w: int)
    requires
        forall|v: int| 0 <= v < w ==> counts[v] == 0,
    ensures
        taken_upto(qs, counts, w).len() == 0,
    decreases w,
{
    if w > 0 {
        lemma_taken_upto_nothing(qs, counts, w - 1);
        assert(qs[w - 1].take(0) =~= Seq::<u32>::empty());
    }
}

pub struct ThreadPool {
    queues: Vec<Vec<u32>>,
    next_id: u32,
    issued: Ghost<Seq<u32>>,
    collected: Ghost<Seq<u32>>,
}

impl ThreadPool {
    /// Number of workers; fixed for the pool's lifetime.
    pub closed spec fn n_workers(self) -> nat {
        self.queues@.len()
    }

    /// The ids sent to worker `w` and not yet collected, oldest first.
    pub closed spec fn queue(self, w: int) -> Seq<u32> {
        self.queues@[w]@
    }

    /// All queues, as sequences of ids.
    pub closed spec fn queues_view(self) -> Seq<Seq<u32>> {
        Seq::new(self.queues@.len(), |w: int| self.queues@[w]@)
    }

    /// Jobs assigned to worker `w` and not yet collected.
    pub open spec fn load(self, w: int) -> nat {
        self.queue(w).len()
    }

    /// The loads of all workers, in worker order.
    pub open spec fn loads(self) -> Seq<nat> {
        Seq::new(self.n_workers(), |w: int| self.load(w))
    }

    /// Every id handed out by `submit`, in submission order.
    pub closed spec fn issued_ids(self) -> Seq<u32> {
        self.issued@
    }

    /// Every id returned by `collect`, in collection order.
    pub closed spec fn collected_ids(self) -> Seq<u32> {
        self.collected@
    }

    /// The id most recently handed out; 0 before the first submission.
    pub closed spec fn last_id(self) -> nat {
        self.next_id as nat
    }

    /// How often `id` is outstanding (sent to a worker, not yet collected).
    pub open spec fn outstanding_count(self, id: u32) -> nat {
        count_in_queues(self.queues_view(), id)
    }

    /// The pool's invariant: ids are issued as 1, 2, 3, ... in order; every
    /// queue lists its ids in strictly increasing (= submission) order; and
    /// every issued id sits either in exactly one queue or in the collection
    /// history, never in both and never twice.
    pub closed spec fn wf(self) -> bool {
        &&& self.queues@.len() >= 1
        &&& self.issued@ =~= Seq::new(self.next_id as nat, |i: int| (i + 1) as u32)
        &&& forall|w: int, i: int, j: int|
            0 <= w < self.n_workers() && 0 <= i < j < self.queue(w).len()
                ==> #[trigger] self.queue(w)[i] < #[trigger] self.queue(w)[j]
        &&& forall|w: int, i: int|
            0 <= w < self.n_workers() && 0 <= i < self.queue(w).len()
                ==> 1 <= #[trigger] self.queue(w)[i] <= self.next_id
        &&& forall|i: int|
            0 <= i < self.collected@.len() ==> 1 <= #[trigger] self.collected@[i] <= self.next_id
        &&& forall|id: u32|
            1 <= id <= self.next_id
                ==> #[trigger] self.outstanding_count(id) + count_in(self.collected@, id) == 1
        &&& (self.collected@.len() == 0 ==> forall|w: int|
            0 <= w < self.n_workers() ==> #[trigger] self.load(w) == bal_load(
                self.n_workers(),
                self.next_id as nat,
                w,
            ))
    }

    /// Builds a pool of `n_workers` idle workers. A pool with zero workers is
    /// a configuration error and is ruled out here; the caller must fail fast
    /// instead.
    pub fn new(n_workers: usize) -> (p: ThreadPool)
        requires
            n_workers >= 1,
        ensures
            p.wf(),
            p.n_workers() == n_workers,
            p.last_id() == 0,
            p.issued_ids() =~= Seq::<u32>::empty(),
            p.collected_ids() =~= Seq::<u32>::empty(),
            forall|w: int| 0 <= w < n_workers ==> p.load(w) == 0,
    {
        let mut queues: Vec<Vec<u32>> = Vec::new();
        let mut i: usize = 0;
        while i < n_workers
            invariant
                i <= n_workers,
                queues@.len() == i,
                forall|w: int| 0 <= w < i ==> queues@[w]@.len() == 0,
            decreases n_workers - i,
        {
            queues.push(Vec::new());
            i += 1;
        }
        let p = ThreadPool {
            queues,
            next_id: 0,
            issued: Ghost(Seq::empty()),
            collected: Ghost(Seq::empty()),
        };
        proof {
            assert forall|id: u32| 1 <= id <= p.next_id implies #[trigger] p.outstanding_count(id)
                + count_in(p.collected@, id) == 1 by {}
            vstd::arithmetic::div_mod::lemma_basic_div(0, n_workers as int);
            vstd::arithmetic::div_mod::lemma_mod_bound(0, n_workers as int);
            vstd::arithmetic::div_mod::lemma_small_mod(0, n_workers as nat);
            assert forall|w: int| 0 <= w < p.n_workers() implies #[trigger] p.load(w) == bal_load(
                p.n_workers(),
                p.next_id as nat,
                w,
            ) by {}
        }
        p
    }

    /// Assigns the next job id and routes it to the least-loaded worker
    /// (lowest worker index on a tie). Returns the fresh id and the chosen
    /// worker; the caller sends the job itself to that worker's channel.
    pub fn submit(&mut self) -> (r: (u32, usize))
        requires
            old(self).wf(),
            old(self).last_id() < u32::MAX,
        ensures
            final(self).wf(),
            r.0 == old(self).last_id() + 1,
            is_first_min(old(self).loads(), r.1 as int),
            final(self).queue(r.1 as int) =~= old(self).queue(r.1 as int).push(r.0),
            forall|v: int|
                0 <= v < old(self).n_workers() && v != r.1
                    ==> final(self).queue(v) == old(self).queue(v),
            final(self).n_workers() == old(self).n_workers(),
            final(self).last_id() == old(self).last_id() + 1,
            final(self).issued_ids() =~= old(self).issued_ids().push(r.0),
            final(self).collected_ids() == old(self).collected_ids(),
            old(self).outstanding_count(r.0) == 0,
            forall|x: u32|
                #[trigger] final(self).outstanding_count(x) == old(self).outstanding_count(x)
                    + if x == r.0 {
                    1nat
                } else {
                    0nat
                },
    {
        let ghost old_self = *self;
        let n = self.queues.len();
        let mut best: usize = 0;
        let mut i: usize = 1;
        while i < n
            invariant
                1 <= i <= n,
                n == self.queues@.len(),
                best < i,
                *self == old_self,
                forall|j: int|
                    0 <= j < i ==> self.queues@[best as int]@.len() <= #[trigger] self.queues@[j]@.len(),
                forall|j: int|
                    0 <= j < best ==> #[trigger] self.queues@[j]@.len() > self.queues@[best as int]@.len(),
            decreases n - i,
        {
            if self.queues[i].len() < self.queues[best].len() {
                best = i;
            }
            i += 1;
        }
        let id = self.next_id + 1;
        self.next_id = id;
        let mut q = self.queues.remove(best);
        q.push(id);
        self.queues.insert(best, q);
        proof {
            self.issued@ = self.issued@.push(id);
            let oq = old_self.queues_view();
            let nq = self.queues_view();
            assert(nq =~= oq.update(best as int, oq[best as int].push(id)));
            assert forall|w3: int, i3: int|
                0 <= w3 < oq.len() && 0 <= i3 < oq[w3].len() implies #[trigger] oq[w3][i3]
                != id by {
                assert(oq[w3] == old_self.queue(w3));
            }
            lemma_cq_absent(oq, id);
            lemma_count_absent(old_self.collected@, id);
            assert forall|x: u32| #[trigger] self.outstanding_count(x)
                == old_self.outstanding_count(x) + (if x == id {
                1nat
            } else {
                0nat
            }) by {
                lemma_cq_update(oq, best as int, oq[best as int].push(id), x);
                lemma_count_push(oq[best as int], id, x);
            }
            assert forall|idx: u32| 1 <= idx <= self.next_id implies #[trigger] self.outstanding_count(
                idx,
            ) + count_in(self.collected@, idx) == 1 by {
                assert(self.outstanding_count(idx) == old_self.outstanding_count(idx) + (if idx
                    == id {
                    1nat
                } else {
                    0nat
                }));
                if idx != id {
                    assert(old_self.outstanding_count(idx) + count_in(old_self.collected@, idx)
                        == 1);
                }
            }
            assert(self.issued@ =~= Seq::new(self.next_id as nat, |k: int| (k + 1) as u32));
            assert forall|w2: int, i2: int, j2: int|
                0 <= w2 < self.n_workers() && 0 <= i2 < j2 < self.queue(w2).len() implies #[trigger] self.queue(
                w2,
            )[i2] < #[trigger] self.queue(w2)[j2] by {
                assert(self.queue(w2) == nq[w2]);
                if w2 == best {
                    assert(nq[w2] =~= oq[w2].push(id));
                    if j2 == oq[w2].len() {
                        assert(old_self.queue(w2)[i2] <= old_self.next_id);
                    } else {
                        assert(old_self.queue(w2)[i2] < old_self.queue(w2)[j2]);
                    }
                } else {
                    assert(nq[w2] == oq[w2]);
                    assert(old_self.queue(w2)[i2] < old_self.queue(w2)[j2]);
                }
            }
            assert forall|w2: int, i2: int|
                0 <= w2 < self.n_workers() && 0 <= i2 < self.queue(w2).len() implies 1
                <= #[trigger] self.queue(w2)[i2] <= self.next_id by {
                assert(self.queue(w2) == nq[w2]);
                if w2 == best {
                    assert(nq[w2] =~= oq[w2].push(id));
                    if i2 < oq[w2].len() {
                        assert(1 <= old_self.queue(w2)[i2] <= old_self.next_id);
                    }
                } else {
                    assert(nq[w2] == oq[w2]);
                    assert(1 <= old_self.queue(w2)[i2] <= old_self.next_id);
                }
            }
            if old_self.collected@.len() == 0 {
                let nw = old_self.n_workers();
                let k = old_self.next_id as nat;
                lemma_bal_step(nw, k);
                let r = (k % nw) as int;
                assert forall|j: int| 0 <= j < nw implies old_self.loads()[r]
                    <= #[trigger] old_self.loads()[j] by {
                    assert(old_self.load(j) == bal_load(nw, k, j));
                    assert(old_self.load(r) == bal_load(nw, k, r));
                }
                assert forall|j: int| 0 <= j < r implies #[trigger] old_self.loads()[j]
                    > old_self.loads()[r] by {
                    assert(old_self.load(j) == bal_load(nw, k, j));
                    assert(old_self.load(r) == bal_load(nw, k, r));
                }
                assert(is_first_min(old_self.loads(), r));
                assert forall|j: int| 0 <= j < nw implies old_self.loads()[best as int]
                    <= #[trigger] old_self.loads()[j] by {
                    assert(old_self.queues@[j]@.len() >= old_self.queues@[best as int]@.len());
                }
                assert(is_first_min(old_self.loads(), best as int));
                lemma_first_min_unique(old_self.loads(), best as int, r);
                assert forall|w2: int| 0 <= w2 < self.n_workers() implies #[trigger] self.load(w2)
                    == bal_load(self.n_workers(), self.next_id as nat, w2) by {
                    assert(self.queue(w2) == nq[w2]);
                    if w2 == best {
                        assert(nq[w2] =~= oq[w2].push(id));
                        assert(old_self.load(w2) == bal_load(nw, k, w2));
                        assert(bal_load(nw, k + 1, w2) == bal_load(nw, k, w2) + 1);
                    } else {
                        assert(nq[w2] == oq[w2]);
                        assert(old_self.load(w2) == bal_load(nw, k, w2));
                        assert(bal_load(nw, k + 1, w2) == bal_load(nw, k, w2));
                    }
                }
            }
        }
        (id, best)
    }

    /// Hands back the oldest uncollected id of worker `w`: the id whose
    /// result that worker delivers next (workers answer in FIFO order).
    pub fn collect(&mut self, w: usize) -> (id: u32)
        requires
            old(self).wf(),
            (w as int) < old(self).n_workers(),
            old(self).load(w as int) > 0,
        ensures
            final(self).wf(),
            id == old(self).queue(w as int)[0],
            1 <= id <= old(self).last_id(),
            count_in(old(self).collected_ids(), id) == 0,
            final(self).queue(w as int) =~= old(self).queue(w as int).drop_first(),
            forall|v: int|
                0 <= v < old(self).n_workers() && v != w
                    ==> final(self).queue(v) == old(self).queue(v),
            final(self).n_workers() == old(self).n_workers(),
            final(self).last_id() == old(self).last_id(),
            final(self).issued_ids() == old(self).issued_ids(),
            final(self).collected_ids() =~= old(self).collected_ids().push(id),
            old(self).outstanding_count(id) >= 1,
            final(self).outstanding_count(id) == 0,
            forall|x: u32|
                old(self).outstanding_count(x) == #[trigger] final(self).outstanding_count(x)
                    + if x == id {
                    1nat
                } else {
                    0nat
                },
    {
        let ghost old_self = *self;
        let mut q = self.queues.remove(w);
        let id = q.remove(0);
        self.queues.insert(w, q);
        proof {
            self.collected@ = self.collected@.push(id);
            let oq = old_self.queues_view();
            let nq = self.queues_view();
            assert(oq[w as int].remove(0) =~= oq[w as int].drop_first());
            assert(nq =~= oq.update(w as int, oq[w as int].drop_first()));
            lemma_cq_at_least(oq, w as int, id);
            lemma_count_first(oq[w as int]);
            assert forall|x: u32| old_self.outstanding_count(x) == #[trigger] self.outstanding_count(
                x,
            ) + (if x == id {
                1nat
            } else {
                0nat
            }) by {
                lemma_cq_update(oq, w as int, oq[w as int].drop_first(), x);
                assert(count_in(oq[w as int], x) == (if oq[w as int][0] == x {
                    1nat
                } else {
                    0nat
                }) + count_in(oq[w as int].drop_first(), x));
            }
            assert(old_self.outstanding_count(id) + count_in(old_self.collected@, id) == 1);
            assert forall|idx: u32| 1 <= idx <= self.next_id implies #[trigger] self.outstanding_count(
                idx,
            ) + count_in(self.collected@, idx) == 1 by {
                lemma_count_push(old_self.collected@, id, idx);
                assert(old_self.outstanding_count(idx) + count_in(old_self.collected@, idx) == 1);
                assert(old_self.outstanding_count(idx) == self.outstanding_count(idx) + (if idx
                    == id {
                    1nat
                } else {
                    0nat
                }));
            }
            assert forall|w2: int, i2: int, j2: int|
                0 <= w2 < self.n_workers() && 0 <= i2 < j2 < self.queue(w2).len() implies #[trigger] self.queue(
                w2,
            )[i2] < #[trigger] self.queue(w2)[j2] by {
                assert(self.queue(w2) == nq[w2]);
                if w2 == w {
                    assert(nq[w2] =~= oq[w2].drop_first());
                    assert(old_self.queue(w2)[i2 + 1] < old_self.queue(w2)[j2 + 1]);
                } else {
                    assert(nq[w2] == oq[w2]);
                    assert(old_self.queue(w2)[i2] < old_self.queue(w2)[j2]);
                }
            }
            assert forall|w2: int, i2: int|
                0 <= w2 < self.n_workers() && 0 <= i2 < self.queue(w2).len() implies 1
                <= #[trigger] self.queue(w2)[i2] <= self.next_id by {
                assert(self.queue(w2) == nq[w2]);
                if w2 == w {
                    assert(nq[w2] =~= oq[w2].drop_first());
                    assert(1 <= old_self.queue(w2)[i2 + 1] <= old_self.next_id);
                } else {
                    assert(nq[w2] == oq[w2]);
                    assert(1 <= old_self.queue(w2)[i2] <= old_self.next_id);
                }
            }
        }
        id
    }

    /// Drains every result currently ready without waiting: the caller
    /// reports, per worker, how many results are sitting in that worker's
    /// outbound channel, and gets back the ids they must belong to, in
    /// worker order and FIFO within each worker. With nothing ready the
    /// result is empty; this is not an error.
    pub fn poll(&mut self, ready: &Vec<usize>) -> (out: Vec<u32>)
        requires
            old(self).wf(),
            ready@.len() == old(self).n_workers(),
            forall|w: int| 0 <= w < old(self).n_workers() ==> #[trigger] ready@[w] <= old(self).load(w),
        ensures
            final(self).wf(),
            out@ =~= taken_upto(
                old(self).queues_view(),
                ready@,
                old(self).n_workers() as int,
            ),
            forall|w: int|
                0 <= w < old(self).n_workers() ==> final(self).queue(w) =~= old(self).queue(
                    w,
                ).skip(ready@[w] as int),
            final(self).n_workers() == old(self).n_workers(),
            final(self).last_id() == old(self).last_id(),
            final(self).issued_ids() == old(self).issued_ids(),
            final(self).collected_ids() =~= old(self).collected_ids() + out@,
            (forall|w: int| 0 <= w < old(self).n_workers() ==> #[trigger] ready@[w] == 0)
                ==> out@.len() == 0,
    {
        let ghost old_self = *self;
        let ghost oq = old_self.queues_view();
        let mut out: Vec<u32> = Vec::new();
        let n = self.queues.len();
        let mut w: usize = 0;
        while w < n
            invariant
                w <= n,
                n == old_self.n_workers(),
                oq == old_self.queues_view(),
                ready@.len() == n,
                forall|v: int| 0 <= v < n ==> #[trigger] ready@[v] <= old_self.load(v),
                self.wf(),
                self.n_workers() == n,
                self.last_id() == old_self.last_id(),
                self.issued_ids() == old_self.issued_ids(),
                forall|v: int| w <= v < n ==> self.queue(v) == old_self.queue(v),
                forall|v: int|
                    0 <= v < w ==> self.queue(v) =~= old_self.queue(v).skip(
                        ready@[v] as int,
                    ),
                out@ =~= taken_upto(oq, ready@, w as int),
                self.collected_ids() =~= old_self.collected_ids() + out@,
            decreases n - w,
        {
            let target = ready[w];
            let mut c: usize = 0;
            while c < target
                invariant
                    c <= target,
                    w < n,
                    target == ready@[w as int],
                    n == old_self.n_workers(),
                    oq == old_self.queues_view(),
                    ready@.len() == n,
                    forall|v: int| 0 <= v < n ==> #[trigger] ready@[v] <= old_self.load(v),
                    self.wf(),
                    self.n_workers() == n,
                    self.last_id() == old_self.last_id(),
                    self.issued_ids() == old_self.issued_ids(),
                    forall|v: int| w < v < n ==> self.queue(v) == old_self.queue(v),
                    forall|v: int|
                        0 <= v < w ==> self.queue(v) =~= old_self.queue(v).skip(
                            ready@[v] as int,
                        ),
                    self.queue(w as int) =~= old_self.queue(w as int).skip(c as int),
                    out@ =~= taken_upto(oq, ready@, w as int) + old_self.queue(w as int).take(
                        c as int,
                    ),
                    self.collected_ids() =~= old_self.collected_ids() + out@,
                decreases target - c,
            {
                proof {
                    assert(self.load(w as int) == old_self.load(w as int) - c);
                }
                let id = self.collect(w);
                out.push(id);
                proof {
                    assert(old_self.queue(w as int).skip(c as int).drop_first()
                        =~= old_self.queue(w as int).skip(c as int + 1));
                    assert(id == old_self.queue(w as int)[c as int]);
                    assert(old_self.queue(w as int).take(c as int).push(id) =~= old_self.queue(
                        w as int,
                    ).take(c as int + 1));
                }
                c += 1;
            }
            proof {
                assert(oq[w as int] == old_self.queue(w as int));
                assert(taken_upto(oq, ready@, w as int + 1) == taken_upto(oq, ready@, w as int)
                    + oq[w as int].take(ready@[w as int] as int));
                assert(out@ =~= taken_upto(oq, ready@, w as int + 1));
            }
            w += 1;
        }
        proof {
            if forall|v: int| 0 <= v < n ==> #[trigger] ready@[v] == 0 {
                lemma_taken_upto_nothing(oq, ready@, n as int);
            }
        }
        out
    }

    /// Shuts the pool down: hands back every id still outstanding, per worker
    /// and in FIFO order, so the caller can wait for those jobs to finish
    /// while the worker threads drain their queues and exit. The pool is
    /// consumed.
    pub fn join(self) -> (rest: Vec<u32>)
        requires
            self.wf(),
        ensures
            rest@ =~= concat_upto(self.queues_view(), self.n_workers() as int),
    {
        let ghost qv = self.queues_view();
        let mut rest: Vec<u32> = Vec::new();
        let n = self.queues.len();
        let mut w: usize = 0;
        while w < n
            invariant
                w <= n,
                n == self.queues@.len(),
                qv == self.queues_view(),
                rest@ =~= concat_upto(qv, w as int),
            decreases n - w,
        {
            let q = &self.queues[w];
            let mut j: usize = 0;
            while j < q.len()
                invariant
                    j <= q@.len(),
                    w < n,
                    n == self.queues@.len(),
                    qv == self.queues_view(),
                    q@ == qv[w as int],
                    rest@ =~= concat_upto(qv, w as int) + q@.take(j as int),
                decreases q@.len() - j,
            {
                rest.push(q[j]);
                proof {
                    assert(q@.take(j as int).push(q@[j as int]) =~= q@.take(j as int + 1));
                }
                j += 1;
            }
            proof {
                assert(q@.take(q@.len() as int) =~= q@);
            }
            w += 1;
        }
        rest
    }

    /// The number of workers.
    pub fn worker_count(&self) -> (n: usize)
        ensures
            n == self.n_workers(),
    {
        self.queues.len()
    }

    /// The current load of worker `w`.
    pub fn load_of(&self, w: usize) -> (l: usize)
        requires
            (w as int) < self.n_workers(),
        ensures
            l == self.load(w as int),
    {
        self.queues[w].len()
    }

    /// The id most recently handed out; 0 before the first submission.
    pub fn last_issued(&self) -> (id: u32)
        ensures
            id as nat == self.last_id(),
    {
        self.next_id
    }
}

/// Uniqueness of job ids: over any sequence of submissions, the returned ids
/// are strictly increasing, and therefore pairwise distinct.
pub proof fn lemma_ids_strictly_increasing(p: ThreadPool)
    requires
        p.wf(),
    ensures
        forall|i: int, j: int|
            0 <= i < j < p.issued_ids().len() ==> #[trigger] p.issued_ids()[i]
                < #[trigger] p.issued_ids()[j],
{
}

/// Load balancing: while no result has been collected, greedy least-loaded
/// assignment keeps every worker's load between the floor and the ceiling of
/// (jobs submitted) / (workers), so loads never differ by more than one, and
/// no worker holds two jobs until every worker holds one.
pub proof fn lemma_load_balancing(p: ThreadPool)
    requires
        p.wf(),
        p.collected_ids().len() == 0,
    ensures
        forall|w: int|
            0 <= w < p.n_workers() ==> p.last_id() / p.n_workers() <= #[trigger] p.load(w),
        forall|w: int|
            0 <= w < p.n_workers() ==> #[trigger] p.load(w) <= (p.last_id() + p.n_workers() - 1) as nat
                / p.n_workers(),
        forall|w: int, v: int|
            0 <= w < p.n_workers() && 0 <= v < p.n_workers() ==> #[trigger] p.load(w)
                <= #[trigger] p.load(v) + 1,
        p.last_id() <= p.n_workers() ==> forall|w: int|
            0 <= w < p.n_workers() ==> #[trigger] p.load(w) <= 1,
{
    let n = p.n_workers();
    let k = p.last_id();
    vstd::arithmetic::div_mod::lemma_mod_bound(k as int, n as int);
    vstd::arithmetic::div_mod::lemma_fundamental_div_mod(k as int, n as int);
    let q = k as int / n as int;
    let r = k as int % n as int;
    assert(q * (n as int) == (n as int) * q) by (nonlinear_arith);
    if r == 0 {
        vstd::arithmetic::div_mod::lemma_fundamental_div_mod_converse(
            k as int + n as int - 1,
            n as int,
            q,
            n as int - 1,
        );
    } else {
        assert((q + 1) * (n as int) == (n as int) * q + (n as int)) by (nonlinear_arith);
        vstd::arithmetic::div_mod::lemma_fundamental_div_mod_converse(
            k as int + n as int - 1,
            n as int,
            q + 1,
            r - 1,
        );
    }
    if k <= n {
        if k < n {
            vstd::arithmetic::div_mod::lemma_basic_div(k as int, n as int);
        } else {
            vstd::arithmetic::div_mod::lemma_fundamental_div_mod_converse(
                k as int,
                n as int,
                1,
                0,
            );
        }
    }
}

/// No loss: every id ever returned by `submit` is, at every moment, either
/// still outstanding in exactly one worker queue or recorded as collected
/// exactly once - never dropped, never duplicated.
pub proof fn lemma_no_loss(p: ThreadPool)
    requires
        p.wf(),
    ensures
        forall|id: u32|
            p.issued_ids().contains(id) ==> #[trigger] p.outstanding_count(id) + count_in(
                p.collected_ids(),
                id,
            ) == 1,
        forall|id: u32| 1 <= id <= p.last_id() ==> p.issued_ids().contains(id),
{
    assert forall|id: u32| p.issued_ids().contains(id) implies #[trigger] p.outstanding_count(id)
        + count_in(p.collected_ids(), id) == 1 by {
        let i = choose|i: int| 0 <= i < p.issued_ids().len() && p.issued_ids()[i] == id;
        assert(1 <= id <= p.last_id());
    }
    assert forall|id: u32| 1 <= id <= p.last_id() implies p.issued_ids().contains(id) by {
        assert(p.issued_ids()[id - 1] == id);
    }
}

/// Exactly-once delivery: the collection history holds no duplicates, so an
/// id handed back by one `collect` (or `poll`) can never be handed back
/// again.
pub proof fn lemma_collected_once(p: ThreadPool)
    requires
        p.wf(),
    ensures
        forall|i: int, j: int|
            0 <= i < j < p.collected_ids().len() ==> p.collected_ids()[i] != p.collected_ids()[j],
{
    assert forall|i: int, j: int|
        0 <= i < j < p.collected_ids().len() implies p.collected_ids()[i] != p.collected_ids()[j] by {
        if p.collected_ids()[i] == p.collected_ids()[j] {
            let id = p.collected_ids()[i];
            assert(1 <= id <= p.last_id());
            lemma_count_two(p.collected_ids(), i, j);
            assert(p.outstanding_count(id) + count_in(p.collected_ids(), id) == 1);
        }
    }
}

proof fn lemma_count_two(s: Seq<u32>, i: int, j: int)
    requires
        0 <= i < j < s.len(),
        s[i] == s[j],
    ensures
        count_in(s, s[i]) >= 2,
    decreases i,
{
    if i == 0 {
        lemma_count_at(s.drop_first(), j - 1);
    } else {
        lemma_count_two(s.drop_first(), i - 1, j - 1);
    }
}

/// An id that was never issued - zero, or above the current counter - is
/// outstanding nowhere.
pub proof fn lemma_not_issued_not_outstanding(p: ThreadPool, id: u32)
    requires
        p.wf(),
        id == 0 || id > p.last_id(),
    ensures
        p.outstanding_count(id) == 0,
{
    let qs = p.queues_view();
    assert forall|w: int, i: int| 0 <= w < qs.len() && 0 <= i < qs[w].len() implies #[trigger] qs[w][i]
        != id by {
        assert(qs[w] == p.queue(w));
    }
    lemma_cq_absent(qs, id);
}

/// Every id sitting in a worker queue is outstanding.
pub proof fn lemma_queued_is_outstanding(p: ThreadPool, w: int, i: int)
    requires
        p.wf(),
        0 <= w < p.n_workers(),
        0 <= i < p.queue(w).len(),
    ensures
        p.outstanding_count(p.queue(w)[i]) >= 1,
{
    lemma_count_at(p.queue(w), i);
    lemma_cq_at_least(p.queues_view(), w, p.queue(w)[i]);
}

/// Per-worker FIFO: two jobs routed to the same worker stand in that worker's
/// queue in submission order (ids strictly increase along the queue), and
/// `collect` always returns the front, so the earlier job is drained first.
pub proof fn lemma_per_worker_fifo(p: ThreadPool, w: int)
    requires
        p.wf(),
        0 <= w < p.n_workers(),
    ensures
        forall|i: int, j: int|
            0 <= i < j < p.queue(w).len() ==> #[trigger] p.queue(w)[i] < #[trigger] p.queue(w)[j],
        forall|i: int| 0 <= i < p.queue(w).len() ==> p.queue(w)[0] <= #[trigger] p.queue(w)[i],
{
}

/// Shutdown accounting: what `join` hands back, together with what was
/// already collected, covers every issued id exactly once - shutting down
/// loses no buffered job, and a pool with nothing outstanding hands back
/// nothing.
pub proof fn lemma_join_accounts_for_all(p: ThreadPool)
    requires
        p.wf(),
    ensures
        forall|id: u32|
            1 <= id <= p.last_id() ==> #[trigger] count_in(
                concat_upto(p.queues_view(), p.n_workers() as int),
                id,
            ) + count_in(p.collected_ids(), id) == 1,
{
    assert forall|id: u32| 1 <= id <= p.last_id() implies #[trigger] count_in(
        concat_upto(p.queues_view(), p.n_workers() as int),
        id,
    ) + count_in(p.collected_ids(), id) == 1 by {
        lemma_concat_count(p.queues_view(), p.n_workers() as int, id);
        assert(p.queues_view().take(p.n_workers() as int) =~= p.queues_view());
        assert(p.outstanding_count(id) + count_in(p.collected_ids(), id) == 1);
    }
}

} // verus!
