//! Chain: an ordered sequence of links with middleware and conditional
//! branches, and the engine that drives a context through them.
//!
//! A chain is generic over its context type `T` — the dynamic
//! [`crate::context::Context`], its in-place sibling, or any user-defined
//! state — over the link callable type `L`, the branch condition type `C`,
//! and the middleware type `M`. Links and conditions are ordinary callables;
//! the engine's contract speaks of them through their own contracts
//! (`call_ensures`), so a run is characterized by a trace: a sequence of
//! (link index, context) points each of which follows from the previous one
//! by one engine step.

use crate::middleware::Middleware;
use vstd::prelude::*;

verus! {

/// A conditional edge: after the link at index `source` runs, if
/// `condition` accepts the resulting context, execution continues at index
/// `target`. A target outside the links (or before `source`) is allowed:
/// past the end it stops the run, backwards it loops.
pub struct Branch<C> {
    pub source: usize,
    pub target: usize,
    pub condition: C,
}

/// What a bounded run ends with: the final context when the index left the
/// links within the step budget, or the context as it stood when the budget
/// ran out first.
pub enum RunOutcome<T> {
    Completed(T),
    Exhausted(T),
}

impl<T> RunOutcome<T> {
    /// Whether the run finished within its step budget.
    pub fn is_completed(&self) -> (r: bool)
        ensures
            r == (self matches RunOutcome::Completed(_)),
    {
        match self {
            RunOutcome::Completed(_) => true,
            RunOutcome::Exhausted(_) => false,
        }
    }

    /// The context the outcome carries, finished or not.
    pub fn into_context(self) -> (r: T)
        ensures
            self matches RunOutcome::Completed(out) ==> r == out,
            self matches RunOutcome::Exhausted(mid) ==> r == mid,
    {
        match self {
            RunOutcome::Completed(t) => t,
            RunOutcome::Exhausted(t) => t,
        }
    }
}

/// A pipeline over context type `T`: links of type `L` (total callables
/// from context to context), branches with conditions of type `C`
/// (read-only predicates over the context), and middleware of type `M`.
pub struct ChainGeneric<T, L, C, M> {
    links: Vec<L>,
    middleware: Vec<M>,
    pub branches: Vec<Branch<C>>,
    _context: core::marker::PhantomData<T>,
}

impl<T, L, C, M> ChainGeneric<T, L, C, M> where
    L: Fn(T) -> T,
    C: Fn(&T) -> bool,
    M: Middleware<T>,
{
    /// The registered links, in order.
    pub closed spec fn links_view(self) -> Seq<L> {
        self.links@
    }

    /// The registered middleware, in order.
    pub closed spec fn middleware_view(self) -> Seq<M> {
        self.middleware@
    }

    /// The registered branches, in order.
    pub closed spec fn branches_view(self) -> Seq<Branch<C>> {
        self.branches@
    }

    /// Every registered link and branch condition accepts every context:
    /// links are total over their declared context type.
    pub open spec fn wf(self) -> bool {
        &&& forall|i: int, t: T|
            0 <= i < self.links_view().len() ==> #[trigger] call_requires(
                self.links_view()[i],
                (t,),
            )
        &&& forall|i: int, t: T|
            0 <= i < self.branches_view().len() ==> #[trigger] call_requires(
                self.branches_view()[i].condition,
                (&t,),
            )
    }

    /// An empty chain: no links, no middleware, no branches.
    pub fn new() -> (c: Self)
        ensures
            c.links_view() == Seq::<L>::empty(),
            c.middleware_view() == Seq::<M>::empty(),
            c.branches_view() == Seq::<Branch<C>>::empty(),
    {
        let c = ChainGeneric {
            links: Vec::new(),
            middleware: Vec::new(),
            branches: Vec::new(),
            _context: core::marker::PhantomData,
        };
        proof {
            assert(c.links_view() =~= Seq::<L>::empty());
            assert(c.middleware_view() =~= Seq::<M>::empty());
            assert(c.branches_view() =~= Seq::<Branch<C>>::empty());
        }
        c
    }

    /// Composes a ready-to-run chain from an ordered list of links: the same
    /// chain that `new` followed by `add_link` on each link, in order, builds.
    pub fn from_links(links: Vec<L>) -> (c: Self)
        ensures
            c.links_view() == links@,
            c.middleware_view() == Seq::<M>::empty(),
            c.branches_view() == Seq::<Branch<C>>::empty(),
    {
        let c = ChainGeneric {
            links,
            middleware: Vec::new(),
            branches: Vec::new(),
            _context: core::marker::PhantomData,
        };
        proof {
            assert(c.middleware_view() =~= Seq::<M>::empty());
            assert(c.branches_view() =~= Seq::<Branch<C>>::empty());
        }
        c
    }

    /// Appends a link; it will run under the index that `link_count`
    /// returned just before this call.
    pub fn add_link(&mut self, link: L)
        ensures
            final(self).links_view() == old(self).links_view().push(link),
            final(self).middleware_view() == old(self).middleware_view(),
            final(self).branches_view() == old(self).branches_view(),
    {
        self.links.push(link);
    }

    /// Attaches middleware; every run that starts afterwards honors it for
    /// each link it executes.
    pub fn use_middleware(&mut self, mw: M)
        ensures
            final(self).middleware_view() == old(self).middleware_view().push(mw),
            final(self).links_view() == old(self).links_view(),
            final(self).branches_view() == old(self).branches_view(),
    {
        self.middleware.push(mw);
    }

    /// How many links the chain holds.
    pub fn link_count(&self) -> (n: usize)
        ensures
            n == self.links_view().len(),
    {
        self.links.len()
    }

    /// Registers a branch from `source` to `target` guarded by `condition`.
    /// Nothing is validated here: an out-of-range `target` simply ends the
    /// run when taken, and a backwards one loops.
    pub fn connect(&mut self, source: usize, target: usize, condition: C)
        ensures
            final(self).branches_view() == old(self).branches_view().push(
                (Branch { source, target, condition }),
            ),
            final(self).links_view() == old(self).links_view(),
            final(self).middleware_view() == old(self).middleware_view(),
    {
        self.branches.push(Branch { source, target, condition });
    }

    /// Branch `k` fires from link index `idx` on context `ctx`: it is the
    /// first registered branch whose source is `idx` and whose condition
    /// accepted `ctx` — every earlier branch with this source rejected `ctx`.
    pub open spec fn takes_branch(self, idx: nat, ctx: T, k: int) -> bool {
        &&& 0 <= k < self.branches_view().len()
        &&& self.branches_view()[k].source == idx
        &&& call_ensures(self.branches_view()[k].condition, (&ctx,), true)
        &&& forall|j: int|
            0 <= j < k && (#[trigger] self.branches_view()[j]).source == idx ==> call_ensures(
                self.branches_view()[j].condition,
                (&ctx,),
                false,
            )
    }

    /// After the link at `idx` produced `ctx`, execution may continue at
    /// `next`: through the first matching branch, or at `idx + 1` when every
    /// branch with source `idx` rejected `ctx`.
    pub open spec fn resolves_to(self, idx: nat, ctx: T, next: nat) -> bool {
        ||| exists|k: int|
            #[trigger] self.takes_branch(idx, ctx, k) && next == self.branches_view()[k].target
        ||| {
            &&& forall|j: int|
                0 <= j < self.branches_view().len() && (#[trigger] self.branches_view()[j]).source
                    == idx ==> call_ensures(self.branches_view()[j].condition, (&ctx,), false)
            &&& next == idx + 1
        }
    }

    /// One engine step from `(idx, ctx)` to `(next, out)`: the link at `idx`
    /// may turn `ctx` into `out`, and branch resolution on `out` may
    /// continue at `next`.
    pub open spec fn step(self, idx: nat, ctx: T, next: nat, out: T) -> bool {
        &&& idx < self.links_view().len()
        &&& call_ensures(self.links_view()[idx as int], (ctx,), out)
        &&& self.resolves_to(idx, out, next)
    }

    /// `tr` records an execution from `init`: `tr[i]` holds the link index
    /// the engine is at and the context it carries before step `i`, and each
    /// consecutive pair is one engine step.
    pub open spec fn is_trace(self, tr: Seq<(nat, T)>, init: T) -> bool {
        &&& tr.len() >= 1
        &&& tr[0] == (0nat, init)
        &&& forall|i: int|
            0 <= i < tr.len() - 1 ==> #[trigger] self.step(
                tr[i].0,
                tr[i].1,
                tr[i + 1].0,
                tr[i + 1].1,
            )
    }

    /// A finished run from `init` to `result`: a trace whose last point has
    /// left the links (index at or past their end) carrying `result`.
    pub open spec fn is_complete_trace(self, tr: Seq<(nat, T)>, init: T, result: T) -> bool {
        &&& self.is_trace(tr, init)
        &&& tr.last().0 >= self.links_view().len()
        &&& tr.last().1 == result
    }

    /// A finished run from `init` to `result` that took at most `budget`
    /// engine steps.
    pub open spec fn completes_within(self, tr: Seq<(nat, T)>, init: T, result: T, budget: nat) -> bool {
        &&& self.is_complete_trace(tr, init, result)
        &&& tr.len() <= budget + 1
    }

    /// An unfinished run from `init` that took exactly `budget` engine steps
    /// and stood at an in-range link index carrying `mid`.
    pub open spec fn exhausts_budget(self, tr: Seq<(nat, T)>, init: T, mid: T, budget: nat) -> bool {
        &&& self.is_trace(tr, init)
        &&& tr.len() == budget + 1
        &&& tr.last().0 < self.links_view().len()
        &&& tr.last().1 == mid
    }

    /// Some trace witnesses a finished run from `init` to `result` within
    /// `budget` engine steps.
    pub open spec fn can_complete_within(self, init: T, result: T, budget: nat) -> bool {
        exists|tr: Seq<(nat, T)>| self.completes_within(tr, init, result, budget)
    }

    /// Some trace witnesses an unfinished run from `init` that spent exactly
    /// `budget` engine steps and stood at `mid`.
    pub open spec fn can_exhaust_budget(self, init: T, mid: T, budget: nat) -> bool {
        exists|tr: Seq<(nat, T)>| self.exhausts_budget(tr, init, mid, budget)
    }

    /// One engine iteration at link index `idx`: every middleware's
    /// `before` hook in registration order, then the link, then every
    /// `after` hook in the same order, then branch resolution — the first
    /// registered branch with source `idx` whose condition accepts the
    /// post-link context decides the next index, and without one the index
    /// advances by one. Returns the next index and the post-link context.
    pub fn step_once(&self, idx: usize, ctx: T) -> (r: (usize, T))
        requires
            self.wf(),
            idx < self.links_view().len(),
        ensures
            self.step(idx as nat, ctx, r.0 as nat, r.1),
    {
        let n = self.links.len();
        assert(idx < n);
        let mut cur = ctx;
        {
            let mut m: usize = 0;
            while m < self.middleware.len()
                invariant
                    m <= self.middleware@.len(),
                decreases self.middleware@.len() - m,
            {
                let mw = &self.middleware[m];
                mw.before(&cur);
                m += 1;
            }
        }
        let ghost prev = cur;
        let link = &self.links[idx];
        let next_ctx = link(cur);
        cur = next_ctx;
        {
            let mut m: usize = 0;
            while m < self.middleware.len()
                invariant
                    m <= self.middleware@.len(),
                decreases self.middleware@.len() - m,
            {
                let mw = &self.middleware[m];
                mw.after(&cur);
                m += 1;
            }
        }
        let mut next_idx: usize = idx + 1;
        let mut took = false;
        let ghost mut taken_k: int = 0;
        let mut b: usize = 0;
        while b < self.branches.len() && !took
            invariant
                self.wf(),
                b <= self.branches@.len(),
                !took ==> next_idx == idx + 1,
                !took ==> forall|j: int|
                    0 <= j < b && (#[trigger] self.branches@[j]).source == idx ==> call_ensures(
                        self.branches@[j].condition,
                        (&cur,),
                        false,
                    ),
                took ==> self.takes_branch(idx as nat, cur, taken_k) && next_idx
                    == self.branches@[taken_k].target,
            decreases self.branches@.len() - b + (if took { 0int } else { 1int }),
        {
            let branch = &self.branches[b];
            if branch.source == idx {
                let cond = &branch.condition;
                proof {
                    assert(call_requires(self.branches_view()[b as int].condition, (&cur,)));
                }
                let fired = cond(&cur);
                if fired {
                    took = true;
                    next_idx = branch.target;
                    proof {
                        taken_k = b as int;
                    }
                } else {
                    b += 1;
                }
            } else {
                b += 1;
            }
        }
        proof {
            assert(self.resolves_to(idx as nat, cur, next_idx as nat));
            assert(self.step(idx as nat, prev, next_idx as nat, cur));
        }
        (next_idx, cur)
    }

    /// Drives `ctx` through the chain, taking at most `max_steps` engine
    /// steps (each step: before-hooks, one link, after-hooks, branch
    /// resolution). Returns `Completed` with the final context as soon as
    /// the link index leaves the links, or `Exhausted` with the context as
    /// it stood when the budget ran out first. The engine itself imposes no
    /// cycle detection: a chain whose branches loop forever exhausts any
    /// budget, and bounding such a run is the caller's concern, by design.
    pub fn run(&self, ctx: T, max_steps: usize) -> (r: RunOutcome<T>)
        requires
            self.wf(),
        ensures
            r matches RunOutcome::Completed(out) ==> self.can_complete_within(
                ctx,
                out,
                max_steps as nat,
            ),
            r matches RunOutcome::Exhausted(mid) ==> self.can_exhaust_budget(
                ctx,
                mid,
                max_steps as nat,
            ),
    {
        let ghost init = ctx;
        let mut cur = ctx;
        let mut idx: usize = 0;
        let mut steps: usize = 0;
        let ghost mut tr: Seq<(nat, T)> = seq![(0nat, init)];
        while idx < self.links.len() && steps < max_steps
            invariant
                self.wf(),
                self.is_trace(tr, init),
                tr.last() == (idx as nat, cur),
                tr.len() == steps + 1,
                steps <= max_steps,
            decreases max_steps - steps,
        {
            let (next_idx, next_ctx) = self.step_once(idx, cur);
            proof {
                self.lemma_trace_extend(tr, init, next_idx as nat, next_ctx);
                tr = tr.push((next_idx as nat, next_ctx));
            }
            idx = next_idx;
            cur = next_ctx;
            steps += 1;
        }
        if idx < self.links.len() {
            proof {
                assert(self.exhausts_budget(tr, init, cur, max_steps as nat));
                assert(self.can_exhaust_budget(init, cur, max_steps as nat));
            }
            return RunOutcome::Exhausted(cur);
        }
        proof {
            assert(self.completes_within(tr, init, cur, max_steps as nat));
            assert(self.can_complete_within(init, cur, max_steps as nat));
        }
        RunOutcome::Completed(cur)
    }

    /// In a chain without branches every step falls through, so the `i`-th
    /// point of a trace stands at link index `i`.
    proof fn lemma_no_branch_prefix(self, tr: Seq<(nat, T)>, init: T, i: int)
        requires
            self.branches_view().len() == 0,
            self.is_trace(tr, init),
            0 <= i < tr.len(),
        ensures
            tr[i].0 == i,
        decreases i,
    {
        if i > 0 {
            self.lemma_no_branch_prefix(tr, init, i - 1);
            let j = i - 1;
            assert(self.step(tr[j].0, tr[j].1, tr[j + 1].0, tr[j + 1].1));
            if exists|k: int|
                self.takes_branch(tr[j].0, tr[j + 1].1, k) && tr[j + 1].0
                    == self.branches_view()[k].target {
                let k = choose|k: int|
                    self.takes_branch(tr[j].0, tr[j + 1].1, k) && tr[j + 1].0
                        == self.branches_view()[k].target;
                assert(false);
            }
            assert(tr[j + 1].0 == tr[j].0 + 1);
        }
    }

    /// Idempotent completion: a completed run of a chain without branches
    /// visits every link exactly once, in ascending index order — its trace
    /// has exactly one point per link plus the final one, and the `i`-th
    /// point stands at link index `i`. Each of those points is one engine
    /// step: one before/after middleware cycle per link.
    pub proof fn lemma_no_branches_visits_in_order(self, tr: Seq<(nat, T)>, init: T, result: T)
        requires
            self.branches_view().len() == 0,
            self.is_complete_trace(tr, init, result),
        ensures
            tr.len() == self.links_view().len() + 1,
            forall|i: int| 0 <= i < tr.len() ==> (#[trigger] tr[i]).0 == i,
    {
        assert forall|i: int| 0 <= i < tr.len() implies (#[trigger] tr[i]).0 == i by {
            self.lemma_no_branch_prefix(tr, init, i);
        }
        let n = tr.len() as int;
        assert(tr[n - 1].0 == n - 1);
        if n >= 2 {
            let j = n - 2;
            assert(self.step(tr[j].0, tr[j].1, tr[j + 1].0, tr[j + 1].1));
            assert(tr[j].0 < self.links_view().len());
        }
    }

    /// Branch determinism: when two branches `k` and `m` share a source and
    /// both their conditions hold of the context, the later one never fires;
    /// and when no branch before `k` with this source can fire, resolution
    /// goes to `k`'s target exactly.
    pub proof fn lemma_branch_determinism(self, idx: nat, ctx: T, k: int, m: int, next: nat)
        requires
            0 <= k < m < self.branches_view().len(),
            self.branches_view()[k].source == idx,
            self.branches_view()[m].source == idx,
            forall|b: bool|
                call_ensures(self.branches_view()[k].condition, (&ctx,), b) ==> b,
            forall|b: bool|
                call_ensures(self.branches_view()[m].condition, (&ctx,), b) ==> b,
            forall|j: int|
                0 <= j < k && (#[trigger] self.branches_view()[j]).source == idx
                    ==> !call_ensures(self.branches_view()[j].condition, (&ctx,), true),
            self.resolves_to(idx, ctx, next),
        ensures
            !self.takes_branch(idx, ctx, m),
            next == self.branches_view()[k].target,
    {
        let bv = self.branches_view();
        if self.takes_branch(idx, ctx, m) {
            assert(call_ensures(bv[k].condition, (&ctx,), false));
            assert(false);
        }
        if !(exists|j: int|
            self.takes_branch(idx, ctx, j) && next == self.branches_view()[j].target) {
            assert(bv[k].source == idx);
            assert(call_ensures(bv[k].condition, (&ctx,), false));
            assert(false);
        }
        let j0 = choose|j: int|
            self.takes_branch(idx, ctx, j) && next == self.branches_view()[j].target;
        if j0 < k {
            assert(call_ensures(bv[j0].condition, (&ctx,), true));
            assert(false);
        }
        if j0 > k {
            assert(call_ensures(bv[k].condition, (&ctx,), false));
            assert(false);
        }
        assert(j0 == k);
    }

    /// With deterministic conditions, branch resolution routes to exactly
    /// one next index.
    proof fn lemma_resolution_deterministic(self, idx: nat, ctx: T, n1: nat, n2: nat)
        requires
            forall|k: int, a: T, b1: bool, b2: bool|
                0 <= k < self.branches_view().len() && #[trigger] call_ensures(
                    self.branches_view()[k].condition,
                    (&a,),
                    b1,
                ) && #[trigger] call_ensures(self.branches_view()[k].condition, (&a,), b2)
                    ==> b1 == b2,
            self.resolves_to(idx, ctx, n1),
            self.resolves_to(idx, ctx, n2),
        ensures
            n1 == n2,
    {
        let take1 = exists|k: int|
            self.takes_branch(idx, ctx, k) && n1 == self.branches_view()[k].target;
        let take2 = exists|k: int|
            self.takes_branch(idx, ctx, k) && n2 == self.branches_view()[k].target;
        if take1 && take2 {
            let k1 = choose|k: int|
                self.takes_branch(idx, ctx, k) && n1 == self.branches_view()[k].target;
            let k2 = choose|k: int|
                self.takes_branch(idx, ctx, k) && n2 == self.branches_view()[k].target;
            if k1 < k2 {
                assert(call_ensures(self.branches_view()[k1].condition, (&ctx,), false));
                assert(false);
            }
            if k2 < k1 {
                assert(call_ensures(self.branches_view()[k2].condition, (&ctx,), false));
                assert(false);
            }
        } else if take1 {
            let k1 = choose|k: int|
                self.takes_branch(idx, ctx, k) && n1 == self.branches_view()[k].target;
            assert(call_ensures(self.branches_view()[k1].condition, (&ctx,), false));
            assert(false);
        } else if take2 {
            let k2 = choose|k: int|
                self.takes_branch(idx, ctx, k) && n2 == self.branches_view()[k].target;
            assert(call_ensures(self.branches_view()[k2].condition, (&ctx,), false));
            assert(false);
        }
    }

    /// With deterministic links and conditions, two traces from the same
    /// context agree point for point as far as both extend.
    proof fn lemma_deterministic_prefix(
        self,
        tr1: Seq<(nat, T)>,
        tr2: Seq<(nat, T)>,
        init: T,
        i: int,
    )
        requires
            forall|l: int, a: T, b1: T, b2: T|
                0 <= l < self.links_view().len() && #[trigger] call_ensures(
                    self.links_view()[l],
                    (a,),
                    b1,
                ) && #[trigger] call_ensures(self.links_view()[l], (a,), b2) ==> b1 == b2,
            forall|k: int, a: T, b1: bool, b2: bool|
                0 <= k < self.branches_view().len() && #[trigger] call_ensures(
                    self.branches_view()[k].condition,
                    (&a,),
                    b1,
                ) && #[trigger] call_ensures(self.branches_view()[k].condition, (&a,), b2)
                    ==> b1 == b2,
            self.is_trace(tr1, init),
            self.is_trace(tr2, init),
            0 <= i < tr1.len(),
            i < tr2.len(),
        ensures
            tr1[i] == tr2[i],
        decreases i,
    {
        if i > 0 {
            self.lemma_deterministic_prefix(tr1, tr2, init, i - 1);
            let j = i - 1;
            assert(self.step(tr1[j].0, tr1[j].1, tr1[j + 1].0, tr1[j + 1].1));
            assert(self.step(tr2[j].0, tr2[j].1, tr2[j + 1].0, tr2[j + 1].1));
            assert(call_ensures(self.links_view()[tr1[j].0 as int], (tr1[j].1,), tr1[j + 1].1));
            assert(call_ensures(self.links_view()[tr2[j].0 as int], (tr2[j].1,), tr2[j + 1].1));
            assert(tr1[j + 1].1 == tr2[j + 1].1);
            self.lemma_resolution_deterministic(
                tr1[j].0,
                tr1[j + 1].1,
                tr1[j + 1].0,
                tr2[j + 1].0,
            );
        }
    }

    /// Deterministic routing: when every link and every branch condition is
    /// deterministic (equal inputs can only give equal outputs), a chain has
    /// at most one execution from a given context — any two completed runs
    /// took the same trace and returned the same result, whatever their
    /// budgets were.
    pub proof fn lemma_deterministic_execution_unique(
        self,
        tr1: Seq<(nat, T)>,
        tr2: Seq<(nat, T)>,
        init: T,
        r1: T,
        r2: T,
    )
        requires
            forall|l: int, a: T, b1: T, b2: T|
                0 <= l < self.links_view().len() && #[trigger] call_ensures(
                    self.links_view()[l],
                    (a,),
                    b1,
                ) && #[trigger] call_ensures(self.links_view()[l], (a,), b2) ==> b1 == b2,
            forall|k: int, a: T, b1: bool, b2: bool|
                0 <= k < self.branches_view().len() && #[trigger] call_ensures(
                    self.branches_view()[k].condition,
                    (&a,),
                    b1,
                ) && #[trigger] call_ensures(self.branches_view()[k].condition, (&a,), b2)
                    ==> b1 == b2,
            self.is_complete_trace(tr1, init, r1),
            self.is_complete_trace(tr2, init, r2),
        ensures
            tr1 == tr2,
            r1 == r2,
    {
        if tr1.len() < tr2.len() {
            let e = tr1.len() as int - 1;
            self.lemma_deterministic_prefix(tr1, tr2, init, e);
            assert(self.step(tr2[e].0, tr2[e].1, tr2[e + 1].0, tr2[e + 1].1));
            assert(false);
        }
        if tr2.len() < tr1.len() {
            let e = tr2.len() as int - 1;
            self.lemma_deterministic_prefix(tr1, tr2, init, e);
            assert(self.step(tr1[e].0, tr1[e].1, tr1[e + 1].0, tr1[e + 1].1));
            assert(false);
        }
        assert forall|i: int| 0 <= i < tr1.len() implies tr1[i] == tr2[i] by {
            self.lemma_deterministic_prefix(tr1, tr2, init, i);
        }
        assert(tr1 =~= tr2);
    }

    /// The points of a trace of the two-link loop chain (single branch
    /// turning link 1 back to link 0, with a condition that always holds)
    /// never leave indices 0 and 1.
    proof fn lemma_loop_prefix(self, tr: Seq<(nat, T)>, init: T, i: int)
        requires
            self.links_view().len() >= 2,
            self.branches_view().len() == 1,
            self.branches_view()[0].source == 1,
            self.branches_view()[0].target == 0,
            forall|t: T, b: bool|
                call_ensures(self.branches_view()[0].condition, (&t,), b) ==> b,
            self.is_trace(tr, init),
            0 <= i < tr.len(),
        ensures
            tr[i].0 <= 1,
        decreases i,
    {
        if i > 0 {
            self.lemma_loop_prefix(tr, init, i - 1);
            let j = i - 1;
            assert(self.step(tr[j].0, tr[j].1, tr[j + 1].0, tr[j + 1].1));
            let out = tr[j + 1].1;
            if tr[j].0 == 0 {
                if exists|k: int|
                    self.takes_branch(tr[j].0, out, k) && tr[j + 1].0
                        == self.branches_view()[k].target {
                    let k = choose|k: int|
                        self.takes_branch(tr[j].0, out, k) && tr[j + 1].0
                            == self.branches_view()[k].target;
                    assert(false);
                }
                assert(tr[j + 1].0 == 1);
            } else {
                assert(tr[j].0 == 1);
                if !(exists|k: int|
                    self.takes_branch(tr[j].0, out, k) && tr[j + 1].0
                        == self.branches_view()[k].target) {
                    assert(self.branches_view()[0].source == tr[j].0);
                    assert(call_ensures(self.branches_view()[0].condition, (&out,), false));
                    assert(false);
                }
                let k = choose|k: int|
                    self.takes_branch(tr[j].0, out, k) && tr[j + 1].0
                        == self.branches_view()[k].target;
                assert(k == 0);
                assert(tr[j + 1].0 == 0);
            }
        }
    }

    /// Loop termination is caller-owned: a chain of two (or more) links
    /// whose single branch turns link 1 back to link 0 under a condition
    /// that always holds never finishes — no trace completes a run of it.
    /// The engine performs no cycle detection, by design; a caller bounds
    /// such a run with a step budget instead.
    pub proof fn lemma_loop_never_completes(self, tr: Seq<(nat, T)>, init: T, result: T)
        requires
            self.links_view().len() >= 2,
            self.branches_view().len() == 1,
            self.branches_view()[0].source == 1,
            self.branches_view()[0].target == 0,
            forall|t: T, b: bool|
                call_ensures(self.branches_view()[0].condition, (&t,), b) ==> b,
        ensures
            !self.is_complete_trace(tr, init, result),
    {
        if self.is_complete_trace(tr, init, result) {
            let n = tr.len() as int;
            self.lemma_loop_prefix(tr, init, n - 1);
            assert(tr[n - 1].0 >= self.links_view().len());
            assert(false);
        }
    }

    /// Corollary for `run`: under the loop chain of
    /// `lemma_loop_never_completes`, no step budget ever suffices — a
    /// completed outcome is impossible, so every run of it exhausts its
    /// budget.
    pub proof fn lemma_loop_run_exhausts(self, init: T, out: T, budget: nat)
        requires
            self.links_view().len() >= 2,
            self.branches_view().len() == 1,
            self.branches_view()[0].source == 1,
            self.branches_view()[0].target == 0,
            forall|t: T, b: bool|
                call_ensures(self.branches_view()[0].condition, (&t,), b) ==> b,
        ensures
            !self.can_complete_within(init, out, budget),
    {
        if self.can_complete_within(init, out, budget) {
            let tr = choose|tr: Seq<(nat, T)>| self.completes_within(tr, init, out, budget);
            self.lemma_loop_never_completes(tr, init, out);
        }
    }

    /// Extending a trace by one engine step from its last point keeps it a
    /// trace.
    proof fn lemma_trace_extend(self, tr: Seq<(nat, T)>, init: T, next: nat, out: T)
        requires
            self.is_trace(tr, init),
            self.step(tr.last().0, tr.last().1, next, out),
        ensures
            self.is_trace(tr.push((next, out)), init),
    {
        let tr2 = tr.push((next, out));
        assert(tr2[0] == tr[0]);
        assert forall|i: int| 0 <= i < tr2.len() - 1 implies #[trigger] self.step(
            tr2[i].0,
            tr2[i].1,
            tr2[i + 1].0,
            tr2[i + 1].1,
        ) by {
            if i < tr.len() - 1 {
                assert(tr2[i] == tr[i]);
                assert(tr2[i + 1] == tr[i + 1]);
            } else {
                assert(tr2[i] == tr.last());
                assert(tr2[i + 1] == (next, out));
            }
        }
    }
}

/// The views along two branch-free executions agree point for point when
/// the chains' corresponding links agree on views.
proof fn lemma_variant_trace_views<V, T1, L1, C1, M1, T2, L2, C2, M2>(
    ch1: ChainGeneric<T1, L1, C1, M1>,
    ch2: ChainGeneric<T2, L2, C2, M2>,
    tr1: Seq<(nat, T1)>,
    tr2: Seq<(nat, T2)>,
    init1: T1,
    init2: T2,
    i: int,
) where
    T1: View<V = V>,
    T2: View<V = V>,
    L1: Fn(T1) -> T1,
    C1: Fn(&T1) -> bool,
    M1: Middleware<T1>,
    L2: Fn(T2) -> T2,
    C2: Fn(&T2) -> bool,
    M2: Middleware<T2>,

    requires
        init1@ == init2@,
        ch1.branches_view().len() == 0,
        ch2.branches_view().len() == 0,
        ch1.links_view().len() == ch2.links_view().len(),
        forall|i: int, a1: T1, b1: T1, a2: T2, b2: T2|
            0 <= i < ch1.links_view().len() && #[trigger] call_ensures(
                ch1.links_view()[i],
                (a1,),
                b1,
            ) && #[trigger] call_ensures(ch2.links_view()[i], (a2,), b2) && a1@ == a2@ ==> b1@
                == b2@,
        ch1.is_trace(tr1, init1),
        ch2.is_trace(tr2, init2),
        0 <= i < tr1.len(),
        i < tr2.len(),
    ensures
        tr1[i].1@ == tr2[i].1@,
    decreases i,
{
    if i > 0 {
        lemma_variant_trace_views(ch1, ch2, tr1, tr2, init1, init2, i - 1);
        let j = i - 1;
        assert(ch1.step(tr1[j].0, tr1[j].1, tr1[j + 1].0, tr1[j + 1].1));
        assert(ch2.step(tr2[j].0, tr2[j].1, tr2[j + 1].0, tr2[j + 1].1));
        ch1.lemma_no_branch_prefix(tr1, init1, j);
        ch2.lemma_no_branch_prefix(tr2, init2, j);
        assert(call_ensures(ch1.links_view()[j], (tr1[j].1,), tr1[j + 1].1));
        assert(call_ensures(ch2.links_view()[j], (tr2[j].1,), tr2[j + 1].1));
    }
}

/// Context-variant equivalence: run the same pipeline of links over the two
/// context ownership disciplines — or any two context types with a common
/// observable view. When each pair of corresponding links agrees on views
/// (view-equal inputs can only produce view-equal outputs) and both
/// branch-free chains complete from view-equal initial contexts, the final
/// contexts are view-equal: the observable key/value pairs are identical.
pub proof fn lemma_context_variant_equivalence<V, T1, L1, C1, M1, T2, L2, C2, M2>(
    ch1: ChainGeneric<T1, L1, C1, M1>,
    ch2: ChainGeneric<T2, L2, C2, M2>,
    tr1: Seq<(nat, T1)>,
    tr2: Seq<(nat, T2)>,
    init1: T1,
    init2: T2,
    r1: T1,
    r2: T2,
) where
    T1: View<V = V>,
    T2: View<V = V>,
    L1: Fn(T1) -> T1,
    C1: Fn(&T1) -> bool,
    M1: Middleware<T1>,
    L2: Fn(T2) -> T2,
    C2: Fn(&T2) -> bool,
    M2: Middleware<T2>,

    requires
        init1@ == init2@,
        ch1.branches_view().len() == 0,
        ch2.branches_view().len() == 0,
        ch1.links_view().len() == ch2.links_view().len(),
        forall|i: int, a1: T1, b1: T1, a2: T2, b2: T2|
            0 <= i < ch1.links_view().len() && #[trigger] call_ensures(
                ch1.links_view()[i],
                (a1,),
                b1,
            ) && #[trigger] call_ensures(ch2.links_view()[i], (a2,), b2) && a1@ == a2@ ==> b1@
                == b2@,
        ch1.is_complete_trace(tr1, init1, r1),
        ch2.is_complete_trace(tr2, init2, r2),
    ensures
        r1@ == r2@,
{
    ch1.lemma_no_branches_visits_in_order(tr1, init1, r1);
    ch2.lemma_no_branches_visits_in_order(tr2, init2, r2);
    let n = tr1.len() as int;
    assert(tr2.len() == n);
    lemma_variant_trace_views(ch1, ch2, tr1, tr2, init1, init2, n - 1);
    assert(tr1[n - 1].1 == r1);
    assert(tr2[n - 1].1 == r2);
}

/// The default chain over the dynamic [`crate::context::Context`].
pub type Chain<L, C, M> = ChainGeneric<crate::context::Context, L, C, M>;

} // verus!
