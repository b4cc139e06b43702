//! What a pool of whole pages does with requests and drops that come again.

use vstd::prelude::*;

use crate::first::lemma_first_from;
use crate::memory::align::lemma_aligned_up;
use crate::memory::handle::ManagedMemoryHandle;
use crate::memory::laws::{law_arena_repeats, same_layout, same_slot};
use crate::memory::page::{shaped, slice_count, table_owns, vacant, PageView};
use crate::memory::pool::{lemma_spot, lemma_with_grown, lemma_with_taken, PoolView};
use crate::memory::storage::StorageHandle;

verus! {

/// How many indices below `n` have a property.
pub open spec fn count(n: nat, p: spec_fn(int) -> bool) -> nat
    decreases n,
{
    if n == 0 {
        0
    } else {
        count((n - 1) as nat, p) + if p(n - 1) {
            1nat
        } else {
            0
        }
    }
}

proof fn lemma_count_same(n: nat, p: spec_fn(int) -> bool, q: spec_fn(int) -> bool)
    requires
        forall|i: int| 0 <= i < n ==> #[trigger] p(i) == q(i),
    ensures
        count(n, p) == count(n, q),
    decreases n,
{
    if n > 0 {
        assert(p(n - 1) == q(n - 1));
        lemma_count_same((n - 1) as nat, p, q);
    }
}

/// One more index has the property.
proof fn lemma_count_one(n: nat, p: spec_fn(int) -> bool, q: spec_fn(int) -> bool, at: int)
    requires
        0 <= at < n,
        !p(at),
        q(at),
        forall|i: int| 0 <= i < n && i != at ==> #[trigger] p(i) == q(i),
    ensures
        count(n, q) == count(n, p) + 1,
    decreases n,
{
    if at == n - 1 {
        lemma_count_same((n - 1) as nat, p, q);
    } else {
        assert(p(n - 1) == q(n - 1));
        lemma_count_one((n - 1) as nat, p, q, at);
    }
}

/// The count is zero exactly when no index has the property.
proof fn lemma_count_none(n: nat, p: spec_fn(int) -> bool)
    ensures
        count(n, p) == 0 <==> forall|i: int| 0 <= i < n ==> !(#[trigger] p(i)),
    decreases n,
{
    if n > 0 {
        lemma_count_none((n - 1) as nat, p);
        if count(n, p) != 0 && !p(n - 1) {
            let i = choose|i: int| 0 <= i < n - 1 && #[trigger] p(i);
            assert(p(i));
        }
    }
}

/// A request of a window, or the drop of what an earlier one got.
pub enum Step {
    /// A request, with what names and fills a page should one be needed.
    Ask {
        size: u64,
        now: u64,
        storage: StorageHandle,
        handle: ManagedMemoryHandle,
        spare: ManagedMemoryHandle,
    },
    /// What request `ask` got is dropped.
    Drop { ask: int },
}

/// A pool in the middle of a window: which of its slices are free, and of every request so
/// far its size, its page, whether it was a miss, and whether it is still held.
pub struct Window {
    pub pool: PoolView,
    pub free: Seq<Seq<bool>>,
    pub sizes: Seq<u64>,
    pub pages: Seq<int>,
    pub missed: Seq<bool>,
    pub held: Seq<bool>,
}

/// The beginning of a window.
pub open spec fn opened(pool: PoolView, free: Seq<Seq<bool>>) -> Window {
    Window {
        pool,
        free,
        sizes: Seq::empty(),
        pages: Seq::empty(),
        missed: Seq::empty(),
        held: Seq::empty(),
    }
}

/// The flags of a table whose slot `v` gets a page that is in use.
pub open spec fn with_row(free: Seq<Seq<bool>>, v: int) -> Seq<Seq<bool>> {
    if v < free.len() {
        free.update(v, seq![false])
    } else {
        free.push(seq![false])
    }
}

impl Window {
    /// After one more step.
    pub open spec fn after(self, step: Step) -> Window {
        match step {
            Step::Ask { size, now, storage, handle, spare } => match self.pool.spot(
                self.free,
                size,
            ) {
                Some(spot) => Window {
                    pool: self.pool.with_taken(spot, size, now, spare),
                    free: self.free.update(spot.page, seq![false]),
                    sizes: self.sizes.push(size),
                    pages: self.pages.push(spot.page),
                    missed: self.missed.push(false),
                    held: self.held.push(true),
                },
                None => Window {
                    pool: self.pool.with_grown(storage, size, now, handle, spare),
                    free: with_row(self.free, vacant(self.pool.table)),
                    sizes: self.sizes.push(size),
                    pages: self.pages.push(vacant(self.pool.table)),
                    missed: self.missed.push(true),
                    held: self.held.push(true),
                },
            },
            Step::Drop { ask } => Window {
                free: self.free.update(self.pages[ask], seq![true]),
                held: self.held.update(ask, false),
                ..self
            },
        }
    }

    /// After several steps.
    pub open spec fn through(self, steps: Seq<Step>) -> Window
        decreases steps.len(),
    {
        if steps.len() == 0 {
            self
        } else {
            self.through(steps.drop_last()).after(steps.last())
        }
    }

    /// Whether a step can be taken: what is asked for fits on a page, the storage gives such a
    /// page should one be needed, and what is dropped is held.
    pub open spec fn takes(self, step: Step) -> bool {
        match step {
            Step::Ask { size, storage, .. } => {
                &&& self.pool.can_hold(size)
                &&& self.pool.spot(self.free, size) is None ==> {
                    &&& storage.offset == 0
                    &&& storage.size == self.pool.page_bytes(size)
                    &&& !table_owns(self.pool.table, storage.id)
                }
            },
            Step::Drop { ask } => 0 <= ask < self.held.len() && self.held[ask],
        }
    }

    /// Whether several steps can be taken, one after another.
    pub open spec fn runs(self, steps: Seq<Step>) -> bool {
        forall|t: int|
            0 <= t < steps.len() ==> self.through(steps.take(t)).takes(#[trigger] steps[t])
    }

    /// The invariant: the pool has whole pages, the flags are its own, and what is held is in
    /// use, each on a page of its own.
    pub open spec fn wf(self) -> bool {
        &&& self.pool.wf()
        &&& self.pool.rules !is Sliced
        &&& shaped(self.pool.table, self.free)
        &&& self.pages.len() == self.sizes.len()
        &&& self.missed.len() == self.sizes.len()
        &&& self.held.len() == self.sizes.len()
        &&& forall|a: int|
            0 <= a < self.held.len() && #[trigger] self.held[a] ==> {
                &&& 0 <= self.pages[a] < self.pool.table.len()
                &&& self.pool.table[self.pages[a]] is Some
                &&& !self.free[self.pages[a]][0]
                &&& page_class(self.pool, self.pool.table[self.pages[a]]->0) == class(
                    self.pool,
                    self.sizes[a],
                )
            }
        &&& forall|a: int, b: int|
            0 <= a < b < self.held.len() && #[trigger] self.held[a] && #[trigger] self.held[b]
                ==> self.pages[a] != self.pages[b]
    }

    /// How many free pages serve requests of a class.
    pub open spec fn idle(self, c: int) -> nat {
        count(self.pool.table.len(), |p: int| serves(self.pool, self.free, c, p))
    }

    /// How many requests of a class were misses.
    pub open spec fn misses(self, c: int) -> nat {
        count(self.sizes.len(), |a: int| self.missed[a] && class(self.pool, self.sizes[a]) == c)
    }

    /// How many requests of a class are still held.
    pub open spec fn holding(self, c: int) -> nat {
        count(self.sizes.len(), |a: int| self.held[a] && class(self.pool, self.sizes[a]) == c)
    }
}

/// What requests are told apart by: in a persistent pool the bytes they need, and in an
/// exclusive one nothing, as every page serves every request.
pub open spec fn class(pool: PoolView, size: u64) -> int {
    if pool.rules is Persistent {
        pool.need(size)
    } else {
        0
    }
}

/// The class of requests that a page serves.
pub open spec fn page_class(pool: PoolView, page: PageView) -> int {
    if pool.rules is Persistent {
        page.bytes as int
    } else {
        0
    }
}

/// Whether a page is free and serves requests of a class.
pub open spec fn serves(pool: PoolView, free: Seq<Seq<bool>>, c: int, p: int) -> bool {
    pool.table[p] is Some && free[p][0] && page_class(pool, pool.table[p]->0) == c
}

/// Whether two windows make the same requests and drops, in the same order.
pub open spec fn same_steps(xs: Seq<Step>, ys: Seq<Step>) -> bool {
    &&& xs.len() == ys.len()
    &&& forall|t: int|
        #![trigger xs[t]]
        #![trigger ys[t]]
        0 <= t < xs.len() ==> match (xs[t], ys[t]) {
            (Step::Ask { size: x, .. }, Step::Ask { size: y, .. }) => x == y,
            (Step::Drop { ask: x }, Step::Drop { ask: y }) => x == y,
            _ => false,
        }
}

/// A page has room for a request exactly when it is free and of the request's class.
proof fn lemma_room(w: Window, size: u64, p: int)
    requires
        w.wf(),
        w.pool.can_hold(size),
        0 <= p < w.pool.table.len(),
    ensures
        w.pool.has_room(w.free, p, size) == serves(w.pool, w.free, class(w.pool, size), p),
{
    if w.pool.table[p] is Some {
        assert(w.pool.page_follows(w.pool.table[p]->0));
        assert(w.free[p].len() == slice_count(w.pool.table[p]));
        assert(w.pool.rules is Exclusive ==> w.pool.page_bytes(size) == w.pool.page_bytes(0));
    }
}

/// A request is no miss exactly when a free page is of its class.
proof fn lemma_hit(w: Window, size: u64)
    requires
        w.wf(),
        w.pool.can_hold(size),
    ensures
        w.pool.spot(w.free, size) is Some <==> w.idle(class(w.pool, size)) > 0,
        w.pool.spot(w.free, size) matches Some(spot) ==> {
            &&& 0 <= spot.page < w.pool.table.len()
            &&& spot.first == 0
            &&& spot.last == 0
            &&& serves(w.pool, w.free, class(w.pool, size), spot.page)
        },
{
    let c = class(w.pool, size);
    let room = |p: int| w.pool.has_room(w.free, p, size);
    let open = |p: int| serves(w.pool, w.free, c, p);
    lemma_first_from(0, w.pool.table.len() as int, room);
    lemma_count_none(w.pool.table.len(), open);
    assert forall|p: int| 0 <= p < w.pool.table.len() implies #[trigger] room(p) == open(p) by {
        lemma_room(w, size, p);
    }
    assert forall|p: int| 0 <= p < w.pool.table.len() implies #[trigger] open(p) == room(p) by {
        lemma_room(w, size, p);
    }
    lemma_spot(w.pool, w.free, size);
    if let Some(spot) = w.pool.spot(w.free, size) {
        assert(room(spot.page));
        assert(w.pool.page_follows(w.pool.table[spot.page]->0));
    }
}

/// A step keeps the invariant, and the rules of the pool.
proof fn lemma_step(w: Window, step: Step)
    requires
        w.wf(),
        w.takes(step),
    ensures
        w.after(step).wf(),
        w.after(step).pool.rules == w.pool.rules,
        w.after(step).pool.alignment == w.pool.alignment,
{
    let after = w.after(step);
    match step {
        Step::Ask { size, now, storage, handle, spare } => {
            lemma_hit(w, size);
            lemma_aligned_up(size as int, w.pool.alignment as int);
            match w.pool.spot(w.free, size) {
                Some(spot) => {
                    lemma_with_taken(w.pool, w.free, size, now, spare);
                    let q = spot.page;
                    assert(w.pool.page_follows(w.pool.table[q]->0));
                    assert(after.pool.page_follows(after.pool.table[q]->0));
                    assert(after.pool.table[q]->0.slices.len() == 1);
                    assert forall|a: int| 0 <= a < after.held.len()
                        && #[trigger] after.held[a] implies {
                        &&& 0 <= after.pages[a] < after.pool.table.len()
                        &&& after.pool.table[after.pages[a]] is Some
                        &&& !after.free[after.pages[a]][0]
                        &&& page_class(after.pool, after.pool.table[after.pages[a]]->0) == class(
                            after.pool,
                            after.sizes[a],
                        )
                    } by {
                        if a < w.held.len() {
                            assert(w.held[a]);
                            assert(w.pages[a] != q);
                        }
                    }
                    assert forall|a: int, b: int| 0 <= a < b < after.held.len()
                        && #[trigger] after.held[a] && #[trigger] after.held[b] implies after.pages[a]
                        != after.pages[b] by {
                        assert(w.held[a]);
                        if b < w.held.len() {
                            assert(w.held[b]);
                        }
                    }
                },
                None => {
                    lemma_with_grown(w.pool, storage, size, now, handle, spare);
                    let table = w.pool.table;
                    let v = vacant(table);
                    lemma_first_from(0, table.len() as int, |i: int| table[i] is None);
                    assert(after.pool.page_follows(after.pool.table[v]->0));
                    assert(shaped(after.pool.table, after.free)) by {
                        assert forall|i: int| 0 <= i < after.pool.table.len() implies (
                        #[trigger] after.free[i]).len() == slice_count(after.pool.table[i]) by {
                            if i != v {
                                assert(after.free[i] == w.free[i]);
                                assert(after.pool.table[i] == table[i]);
                            }
                        }
                    }
                    assert forall|a: int| 0 <= a < after.held.len()
                        && #[trigger] after.held[a] implies {
                        &&& 0 <= after.pages[a] < after.pool.table.len()
                        &&& after.pool.table[after.pages[a]] is Some
                        &&& !after.free[after.pages[a]][0]
                        &&& page_class(after.pool, after.pool.table[after.pages[a]]->0) == class(
                            after.pool,
                            after.sizes[a],
                        )
                    } by {
                        if a < w.held.len() {
                            assert(w.held[a]);
                            assert(w.pages[a] != v);
                        }
                    }
                    assert forall|a: int, b: int| 0 <= a < b < after.held.len()
                        && #[trigger] after.held[a] && #[trigger] after.held[b] implies after.pages[a]
                        != after.pages[b] by {
                        assert(w.held[a]);
                        if b < w.held.len() {
                            assert(w.held[b]);
                        }
                    }
                },
            }
        },
        Step::Drop { ask } => {
            let q = w.pages[ask];
            assert(w.held[ask]);
            assert(w.pool.page_follows(w.pool.table[q]->0));
            assert forall|a: int| 0 <= a < after.held.len() && #[trigger] after.held[a] implies {
                &&& 0 <= after.pages[a] < after.pool.table.len()
                &&& after.pool.table[after.pages[a]] is Some
                &&& !after.free[after.pages[a]][0]
                &&& page_class(after.pool, after.pool.table[after.pages[a]]->0) == class(
                    after.pool,
                    after.sizes[a],
                )
            } by {
                assert(a != ask && w.held[a]);
                assert(w.pages[a] != q);
            }
            assert forall|a: int, b: int| 0 <= a < b < after.held.len() && #[trigger] after.held[a]
                && #[trigger] after.held[b] implies after.pages[a] != after.pages[b] by {
                assert(w.held[a] && w.held[b]);
            }
        },
    }
}

/// How a step changes the number of free pages of a class.
proof fn lemma_step_idle(w: Window, step: Step, c: int)
    requires
        w.wf(),
        w.takes(step),
    ensures
        match step {
            Step::Ask { size, .. } => {
                let mine: int = if class(w.pool, size) == c {
                    1
                } else {
                    0
                };
                if w.pool.spot(w.free, size) is Some {
                    w.after(step).idle(c) == w.idle(c) - mine
                } else {
                    &&& w.after(step).idle(c) == w.idle(c)
                    &&& mine == 1 ==> w.idle(c) == 0
                }
            },
            Step::Drop { ask } => w.after(step).idle(c) == w.idle(c) + (if class(
                w.pool,
                w.sizes[ask],
            ) == c {
                1int
            } else {
                0
            }),
        },
{
    let after = w.after(step);
    let n = w.pool.table.len();
    let p = |i: int| serves(w.pool, w.free, c, i);
    let q = |i: int| serves(after.pool, after.free, c, i);
    lemma_step(w, step);
    match step {
        Step::Ask { size, now, storage, handle, spare } => {
            lemma_hit(w, size);
            match w.pool.spot(w.free, size) {
                Some(spot) => {
                    let at = spot.page;
                    assert(after.pool.table[at]->0.bytes == w.pool.table[at]->0.bytes);
                    assert(!q(at));
                    assert forall|i: int| 0 <= i < n && i != at implies #[trigger] q(i) == p(i) by {}
                    if class(w.pool, size) == c {
                        assert(p(at));
                        lemma_count_one(n, q, p, at);
                    } else {
                        assert(!p(at));
                        lemma_count_same(n, q, p);
                    }
                },
                None => {
                    let table = w.pool.table;
                    let v = vacant(table);
                    lemma_first_from(0, table.len() as int, |i: int| table[i] is None);
                    assert(!q(v));
                    if v < n {
                        assert(!p(v));
                    }
                    assert forall|i: int| 0 <= i < n implies #[trigger] q(i) == p(i) by {
                        if i != v {
                            assert(after.pool.table[i] == table[i]);
                            assert(after.free[i] == w.free[i]);
                        }
                    }
                    lemma_count_same(n, q, p);
                },
            }
        },
        Step::Drop { ask } => {
            assert(w.held[ask]);
            let at = w.pages[ask];
            assert forall|i: int| 0 <= i < n && i != at implies #[trigger] p(i) == q(i) by {}
            assert(!p(at));
            if class(w.pool, w.sizes[ask]) == c {
                assert(q(at));
                lemma_count_one(n, p, q, at);
            } else {
                assert(!q(at));
                lemma_count_same(n, p, q);
            }
        },
    }
}

/// How a step changes the number of misses and of held requests of a class.
proof fn lemma_step_held(w: Window, step: Step, c: int)
    requires
        w.wf(),
        w.takes(step),
    ensures
        match step {
            Step::Ask { size, .. } => {
                let mine: int = if class(w.pool, size) == c {
                    1
                } else {
                    0
                };
                &&& w.after(step).holding(c) == w.holding(c) + mine
                &&& w.after(step).misses(c) == w.misses(c) + (if w.pool.spot(
                    w.free,
                    size,
                ) is Some {
                    0
                } else {
                    mine
                })
            },
            Step::Drop { ask } => {
                &&& w.after(step).holding(c) == w.holding(c) - (if class(
                    w.pool,
                    w.sizes[ask],
                ) == c {
                    1int
                } else {
                    0
                })
                &&& w.after(step).misses(c) == w.misses(c)
            },
        },
{
    let after = w.after(step);
    lemma_step(w, step);
    let n = w.sizes.len();
    let h = |a: int| w.held[a] && class(w.pool, w.sizes[a]) == c;
    let k = |a: int| after.held[a] && class(after.pool, after.sizes[a]) == c;
    let m = |a: int| w.missed[a] && class(w.pool, w.sizes[a]) == c;
    let o = |a: int| after.missed[a] && class(after.pool, after.sizes[a]) == c;
    match step {
        Step::Ask { size, .. } => {
            assert(class(after.pool, size) == class(w.pool, size));
            assert forall|a: int| 0 <= a < n implies #[trigger] h(a) == k(a) by {}
            assert forall|a: int| 0 <= a < n implies #[trigger] m(a) == o(a) by {}
            lemma_count_same(n, h, k);
            lemma_count_same(n, m, o);
            assert(after.sizes.len() == n + 1);
            assert(k(n as int) == (class(w.pool, size) == c));
        },
        Step::Drop { ask } => {
            lemma_count_same(n, m, o);
            if class(w.pool, w.sizes[ask]) == c {
                lemma_count_one(n, k, h, ask);
            } else {
                lemma_count_same(n, h, k);
            }
        },
    }
}

/// Several steps keep the invariant.
proof fn lemma_through(w: Window, steps: Seq<Step>, t: int)
    requires
        w.wf(),
        w.runs(steps),
        0 <= t <= steps.len(),
    ensures
        w.through(steps.take(t)).wf(),
        w.through(steps.take(t)).pool.rules == w.pool.rules,
        w.through(steps.take(t)).pool.alignment == w.pool.alignment,
        t < steps.len() ==> w.through(steps.take(t + 1)) == w.through(steps.take(t)).after(steps[t]),
    decreases t,
{
    if t < steps.len() {
        assert(steps.take(t + 1).drop_last() =~= steps.take(t));
        assert(steps.take(t + 1).last() == steps[t]);
    }
    if t > 0 {
        lemma_through(w, steps, t - 1);
        lemma_step(w.through(steps.take(t - 1)), steps[t - 1]);
    }
}

/// Free pages and held requests of a class come to as many as there were free pages at first
/// and misses since.
proof fn lemma_balance(w: Window, steps: Seq<Step>, t: int, c: int)
    requires
        w.wf(),
        w.sizes.len() == 0,
        w.runs(steps),
        0 <= t <= steps.len(),
    ensures
        w.through(steps.take(t)).idle(c) + w.through(steps.take(t)).holding(c) == w.idle(c)
            + w.through(steps.take(t)).misses(c),
    decreases t,
{
    if t > 0 {
        lemma_balance(w, steps, t - 1, c);
        lemma_through(w, steps, t - 1);
        let was = w.through(steps.take(t - 1));
        assert(was.takes(steps[t - 1]));
        lemma_step_idle(was, steps[t - 1], c);
        lemma_step_held(was, steps[t - 1], c);
    } else {
        assert(steps.take(0) =~= Seq::<Step>::empty());
    }
}

/// Misses only add up.
proof fn lemma_misses_grow(w: Window, steps: Seq<Step>, t: int, n: int, c: int)
    requires
        w.wf(),
        w.runs(steps),
        0 <= t <= n <= steps.len(),
    ensures
        w.through(steps.take(t)).misses(c) <= w.through(steps.take(n)).misses(c),
    decreases n - t,
{
    if t < n {
        lemma_misses_grow(w, steps, t, n - 1, c);
        lemma_through(w, steps, n - 1);
        let was = w.through(steps.take(n - 1));
        assert(was.takes(steps[n - 1]));
        lemma_step_held(was, steps[n - 1], c);
    }
}

/// A window takes no miss when it makes the requests and drops of an earlier one and begins
/// with as many free pages of every class as that one began with and missed.
pub proof fn law_enough_free_pages_take_no_miss(
    one: Window,
    xs: Seq<Step>,
    two: Window,
    ys: Seq<Step>,
    t: int,
)
    requires
        one.wf(),
        two.wf(),
        one.sizes.len() == 0,
        two.sizes.len() == 0,
        one.pool.rules == two.pool.rules,
        one.pool.alignment == two.pool.alignment,
        one.runs(xs),
        two.runs(ys),
        same_steps(xs, ys),
        forall|c: int| #[trigger] two.idle(c) >= one.idle(c) + one.through(xs).misses(c),
        0 <= t <= ys.len(),
    ensures
        forall|a: int|
            0 <= a < two.through(ys.take(t)).missed.len() ==> !(#[trigger] two.through(
                ys.take(t),
            ).missed[a]),
        two.through(ys.take(t)).sizes == one.through(xs.take(t)).sizes,
        two.through(ys.take(t)).held == one.through(xs.take(t)).held,
        forall|c: int|
            #[trigger] two.through(ys.take(t)).idle(c) + one.through(xs.take(t)).misses(c)
                >= one.through(xs.take(t)).idle(c) + one.through(xs).misses(c),
    decreases t,
{
    assert(xs.take(xs.len() as int) =~= xs);
    if t == 0 {
        assert(xs.take(0) =~= Seq::<Step>::empty());
        assert(ys.take(0) =~= Seq::<Step>::empty());
        assert(one.sizes =~= two.sizes);
        assert(one.held =~= two.held);
        assert forall|c: int| #[trigger] two.idle(c) + one.misses(c) >= one.idle(c) + one.through(
            xs,
        ).misses(c) by {}
    } else {
        law_enough_free_pages_take_no_miss(one, xs, two, ys, t - 1);
        lemma_through(one, xs, t - 1);
        lemma_through(two, ys, t - 1);
        let a = one.through(xs.take(t - 1));
        let b = two.through(ys.take(t - 1));
        let x = xs[t - 1];
        let y = ys[t - 1];
        assert(a.takes(x) && b.takes(y));
        if let Step::Ask { size, .. } = y {
            let c = class(a.pool, size);
            assert(class(b.pool, size) == c);
            lemma_hit(a, size);
            lemma_hit(b, size);
            lemma_step_held(a, x, c);
            lemma_misses_grow(one, xs, t, xs.len() as int, c);
            assert(b.idle(c) + a.misses(c) >= a.idle(c) + one.through(xs).misses(c));
            assert(b.pool.spot(b.free, size) is Some);
        }
        let a2 = one.through(xs.take(t));
        let b2 = two.through(ys.take(t));
        assert(a2 == a.after(x) && b2 == b.after(y));
        assert forall|c: int| #[trigger] b2.idle(c) + a2.misses(c) >= a2.idle(c) + one.through(
            xs,
        ).misses(c) by {
            assert(b.idle(c) + a.misses(c) >= a.idle(c) + one.through(xs).misses(c));
            lemma_step_idle(a, x, c);
            lemma_step_idle(b, y, c);
            lemma_step_held(a, x, c);
        }
    }
}

/// A window that repeats an earlier one, whose handles are all dropped, takes no miss: it
/// needs no further storage.
pub proof fn law_repeated_window_takes_no_miss(
    pool: PoolView,
    free: Seq<Seq<bool>>,
    xs: Seq<Step>,
    ys: Seq<Step>,
    a: int,
)
    requires
        opened(pool, free).wf(),
        opened(pool, free).runs(xs),
        ({
            let end = opened(pool, free).through(xs);
            &&& forall|b: int| 0 <= b < end.held.len() ==> !(#[trigger] end.held[b])
            &&& opened(end.pool, end.free).runs(ys)
            &&& 0 <= a < opened(end.pool, end.free).through(ys).missed.len()
        }),
        same_steps(xs, ys),
    ensures
        ({
            let end = opened(pool, free).through(xs);
            !opened(end.pool, end.free).through(ys).missed[a]
        }),
{
    let one = opened(pool, free);
    let end = one.through(xs);
    let two = opened(end.pool, end.free);
    assert(xs.take(xs.len() as int) =~= xs);
    assert(ys.take(ys.len() as int) =~= ys);
    lemma_through(one, xs, xs.len() as int);
    assert forall|c: int| #[trigger] two.idle(c) >= one.idle(c) + end.misses(c) by {
        lemma_balance(one, xs, xs.len() as int, c);
        lemma_count_none(
            end.sizes.len(),
            |b: int| end.held[b] && class(end.pool, end.sizes[b]) == c,
        );
        assert(two.idle(c) == end.idle(c));
    }
    law_enough_free_pages_take_no_miss(one, xs, two, ys, ys.len() as int);
}

/// Two windows of the arena that begin with the same layout and the same free slices, and
/// make the same requests and drops, get the same addresses, request by request, as long as
/// the first takes no miss: a miss gets an allocation that no window had before.
pub proof fn law_window_repeats(one: Window, xs: Seq<Step>, two: Window, ys: Seq<Step>, t: int)
    requires
        one.wf(),
        two.wf(),
        one.pool.rules is Persistent,
        one.sizes.len() == 0,
        two.sizes.len() == 0,
        same_layout(one.pool, two.pool),
        one.free == two.free,
        one.runs(xs),
        two.runs(ys),
        same_steps(xs, ys),
        forall|a: int|
            0 <= a < one.through(xs).missed.len() ==> !(#[trigger] one.through(xs).missed[a]),
        0 <= t <= xs.len(),
    ensures
        ({
            let x = one.through(xs.take(t));
            let y = two.through(ys.take(t));
            &&& same_layout(x.pool, y.pool)
            &&& x.free == y.free
            &&& x.sizes == y.sizes
            &&& x.pages == y.pages
            &&& x.held == y.held
            &&& x.missed == y.missed
            &&& forall|a: int|
                0 <= a < x.held.len() && #[trigger] x.held[a]
                    ==> x.pool.table[x.pages[a]]->0.slices[0].storage.id
                    == y.pool.table[y.pages[a]]->0.slices[0].storage.id
                    && x.pool.table[x.pages[a]]->0.slices[0].start()
                    == y.pool.table[y.pages[a]]->0.slices[0].start()
        }),
    decreases t,
{
    lemma_through(one, xs, t);
    lemma_through(two, ys, t);
    if t == 0 {
        assert(xs.take(0) =~= Seq::<Step>::empty());
        assert(ys.take(0) =~= Seq::<Step>::empty());
        assert(one.sizes =~= two.sizes);
        assert(one.pages =~= two.pages);
        assert(one.held =~= two.held);
        assert(one.missed =~= two.missed);
    } else {
        law_window_repeats(one, xs, two, ys, t - 1);
        lemma_through(one, xs, t - 1);
        lemma_through(two, ys, t - 1);
        let a = one.through(xs.take(t - 1));
        let b = two.through(ys.take(t - 1));
        assert(a.takes(xs[t - 1]) && b.takes(ys[t - 1]));
        if let Step::Ask { size, now, spare, .. } = xs[t - 1] {
            if let Step::Ask { now: then, spare: other, .. } = ys[t - 1] {
                law_arena_repeats(a.pool, b.pool, a.free, size, now, then, spare, other);
                lemma_misses_stay(one, xs, t);
                let x = one.through(xs.take(t));
                assert(x.missed[a.missed.len() as int] == (a.pool.spot(a.free, size) is None));
            }
        }
        let x = one.through(xs.take(t));
        let y = two.through(ys.take(t));
        assert forall|k: int| 0 <= k < x.held.len() && #[trigger] x.held[k] implies {
            &&& x.pool.table[x.pages[k]]->0.slices[0].storage.id
                == y.pool.table[y.pages[k]]->0.slices[0].storage.id
            &&& x.pool.table[x.pages[k]]->0.slices[0].start()
                == y.pool.table[y.pages[k]]->0.slices[0].start()
        } by {
            let p = x.pages[k];
            assert(same_slot(x.pool.table[p], y.pool.table[p]));
            assert(x.pool.page_follows(x.pool.table[p]->0));
        }
    }
}

/// What was a miss stays one.
proof fn lemma_misses_stay(w: Window, steps: Seq<Step>, t: int)
    requires
        w.wf(),
        w.runs(steps),
        0 <= t <= steps.len(),
    ensures
        w.through(steps.take(t)).missed.len() <= w.through(steps).missed.len(),
        forall|a: int|
            0 <= a < w.through(steps.take(t)).missed.len() ==> #[trigger] w.through(
                steps.take(t),
            ).missed[a] == w.through(steps).missed[a],
    decreases steps.len() - t,
{
    if t == steps.len() {
        assert(steps.take(t) =~= steps);
    } else {
        lemma_misses_stay(w, steps, t + 1);
        lemma_through(w, steps, t);
        let x = w.through(steps.take(t));
        let y = w.through(steps.take(t + 1));
        assert forall|a: int| 0 <= a < x.missed.len() implies #[trigger] x.missed[a] == w.through(
            steps,
        ).missed[a] by {
            assert(y.missed[a] == x.missed[a]);
        }
    }
}

} // verus!
