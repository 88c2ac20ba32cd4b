use vstd::prelude::*;
use vstd::set_lib::{lemma_int_range, lemma_subset_equality, set_int_range};

verus! {

/// An output that finished ahead of its turn, tagged with the id of the
/// future that produced it.
pub struct Pending<O> {
    pub id: usize,
    pub output: O,
}

/// What a poll hands back once no more outputs can be collected right now.
pub enum Release<O> {
    /// The output whose turn it is.
    Next(O),
    /// The source is done and every output has been handed out.
    Exhausted,
    /// Nothing can be handed out yet.
    Wait,
}

/// The abstract state of the ordering bookkeeping.
///
/// Futures get consecutive ids `0, 1, 2, ...` in the order the source yields
/// them. `issued` ids have been handed out so far; the outputs of ids below
/// `released` have been handed back to the caller, in id order. `held` are
/// ids whose futures have finished but whose turn has not come yet, and
/// `outputs` records the output of every future that has finished.
pub struct OrderModel<O> {
    pub limit: Option<nat>,
    pub issued: nat,
    pub released: nat,
    pub held: Set<int>,
    pub outputs: Map<int, O>,
}

/// The concurrency limit that a requested `n` gives: `None` and `Some(0)`
/// both mean that any number of futures may run at once.
pub open spec fn limit_for(n: Option<usize>) -> Option<nat> {
    match n {
        Some(k) => if k > 0 { Some(k as nat) } else { None },
        None => None,
    }
}

impl<O> OrderModel<O> {
    /// The state before the source has yielded anything.
    pub open spec fn fresh(limit: Option<nat>) -> OrderModel<O> {
        OrderModel { limit, issued: 0, released: 0, held: Set::empty(), outputs: Map::empty() }
    }

    /// Ids of the futures that are still running.
    pub open spec fn in_flight(self) -> Set<int> {
        Set::new(|k: int| self.released <= k < self.issued && !self.held.contains(k))
    }

    /// How many futures are still running.
    pub open spec fn in_flight_count(self) -> int {
        self.issued - self.released - self.held.len()
    }

    /// Whether another future may be started.
    pub open spec fn has_capacity(self) -> bool {
        match self.limit {
            Some(m) => self.in_flight_count() < m,
            None => true,
        }
    }

    /// How many outputs are still to come from started futures: those
    /// running and those held back.
    pub open spec fn backlog(self) -> int {
        self.issued - self.released
    }

    /// The size bounds of the buffered stream given those of the source: the
    /// backlog is added to both; the lower bound saturates at `usize::MAX`,
    /// and an upper bound that would overflow becomes unknown.
    pub open spec fn hint(self, source: (usize, Option<usize>)) -> (usize, Option<usize>) {
        (
            vstd::math::min(source.0 + self.backlog(), usize::MAX as int) as usize,
            match source.1 {
                Some(x) => if x + self.backlog() <= usize::MAX {
                    Some((x + self.backlog()) as usize)
                } else {
                    None
                },
                None => None,
            },
        )
    }

    /// Everything handed out so far, in the order it was handed out.
    pub open spec fn released_seq(self) -> Seq<O> {
        Seq::new(self.released, |k: int| self.outputs[k])
    }

    /// What holds of every reachable state.
    pub open spec fn inv(self) -> bool {
        &&& self.released <= self.issued
        &&& self.held.finite()
        &&& self.held.len() <= self.issued - self.released
        &&& forall|k: int| #[trigger] self.held.contains(k) ==> self.released <= k < self.issued
        &&& forall|k: int|
            #[trigger] self.outputs.contains_key(k) <==> (0 <= k < self.released || self.held.contains(k))
        &&& match self.limit {
            Some(m) => 0 < m && self.in_flight_count() <= m,
            None => true,
        }
    }
}

impl<O> OrderModel<O> {
    /// The source yielded another future: it takes the next id.
    pub open spec fn with_next_issued(self) -> OrderModel<O> {
        OrderModel { issued: self.issued + 1, ..self }
    }

    /// Future `id` finished with `output`: the output is recorded, and it is
    /// handed out at once if `id` is due, held back otherwise.
    pub open spec fn completed(self, id: int, output: O) -> OrderModel<O> {
        if id == self.released {
            OrderModel {
                released: self.released + 1,
                outputs: self.outputs.insert(id, output),
                ..self
            }
        } else {
            OrderModel { held: self.held.insert(id), outputs: self.outputs.insert(id, output), ..self }
        }
    }

    /// The held output that is due is handed out.
    pub open spec fn with_next_released(self) -> OrderModel<O> {
        OrderModel {
            released: self.released + 1,
            held: self.held.remove(self.released as int),
            ..self
        }
    }

    /// Starting a future while there is room keeps the invariant.
    pub proof fn lemma_with_next_issued(self)
        requires
            self.inv(),
            self.has_capacity(),
        ensures
            self.with_next_issued().inv(),
            self.with_next_issued().released_seq() == self.released_seq(),
    {
        let n = self.with_next_issued();
        assert(n.released_seq() =~= self.released_seq());
    }

    /// Recording the output of a running future keeps the invariant, changes
    /// no output recorded before, and adds to the released sequence exactly
    /// that output when it is due, nothing otherwise.
    pub proof fn lemma_completed(self, id: int, output: O)
        requires
            self.inv(),
            self.in_flight().contains(id),
        ensures
            self.completed(id, output).inv(),
            self.outputs.submap_of(self.completed(id, output).outputs),
            id == self.released ==> self.completed(id, output).released_seq()
                == self.released_seq().push(output),
            id != self.released ==> self.completed(id, output).released_seq()
                == self.released_seq(),
    {
        let n = self.completed(id, output);
        assert(!self.outputs.contains_key(id));
        if id == self.released {
            let r = set_int_range(self.released + 1int, self.issued as int);
            lemma_int_range(self.released + 1int, self.issued as int);
            assert(self.held.subset_of(r));
            vstd::set_lib::lemma_len_subset(self.held, r);
            assert(n.released_seq() =~= self.released_seq().push(output));
        } else {
            let r = set_int_range(self.released as int, self.issued as int);
            lemma_int_range(self.released as int, self.issued as int);
            assert(n.held.subset_of(r));
            vstd::set_lib::lemma_len_subset(n.held, r);
            assert(n.released_seq() =~= self.released_seq());
        }
        assert(n.outputs.dom() =~= self.outputs.dom().insert(id));
    }

    /// Handing out the held output that is due keeps the invariant and adds
    /// exactly that output to the released sequence.
    pub proof fn lemma_with_next_released(self)
        requires
            self.inv(),
            self.held.contains(self.released as int),
        ensures
            self.with_next_released().inv(),
            self.with_next_released().released_seq() == self.released_seq().push(
                self.outputs[self.released as int],
            ),
    {
        let n = self.with_next_released();
        assert(n.released_seq() =~= self.released_seq().push(self.outputs[self.released as int]));
    }
}

/// The bookkeeping that keeps outputs in the order their futures were issued.
pub struct OrderState<O> {
    max: Option<usize>,
    next_id: usize,
    waiting_for: usize,
    /// Outputs held back, sorted by id from the largest down, so that the
    /// smallest id is always last.
    pending_release: Vec<Pending<O>>,
    outputs: Ghost<Map<int, O>>,
}

/// The ids of a list of held outputs, in list order.
spec fn ids_of<O>(v: Seq<Pending<O>>) -> Seq<int> {
    v.map_values(|p: Pending<O>| p.id as int)
}

/// Strictly decreasing ids, all in `[lo, hi)`, are distinct and at most `hi - lo` many.
proof fn lemma_descending_ids(ids: Seq<int>, lo: int, hi: int)
    requires
        lo <= hi,
        forall|i: int, j: int| 0 <= i < j < ids.len() ==> #[trigger] ids[i] > #[trigger] ids[j],
        forall|i: int| 0 <= i < ids.len() ==> lo <= #[trigger] ids[i] < hi,
    ensures
        ids.no_duplicates(),
        ids.to_set().len() == ids.len(),
        ids.len() <= hi - lo,
    decreases ids.len(),
{
    assert(ids.no_duplicates()) by {
        assert forall|i: int, j: int| 0 <= i < ids.len() && 0 <= j < ids.len() && i != j implies ids[i]
            != ids[j] by {
            if i < j {
                assert(ids[i] > ids[j]);
            } else {
                assert(ids[j] > ids[i]);
            }
        }
    }
    ids.unique_seq_to_set();
    if ids.len() > 0 {
        let rest = ids.drop_first();
        assert forall|i: int, j: int| 0 <= i < j < rest.len() implies #[trigger] rest[i] > #[trigger] rest[j] by {
            assert(ids[i + 1] > ids[j + 1]);
        }
        assert forall|i: int| 0 <= i < rest.len() implies lo <= #[trigger] rest[i] < ids[0] by {
            assert(ids[0] > ids[i + 1]);
        }
        lemma_descending_ids(rest, lo, ids[0]);
    }
}

impl<O> View for OrderState<O> {
    type V = OrderModel<O>;

    closed spec fn view(&self) -> OrderModel<O> {
        OrderModel {
            limit: match self.max {
                Some(m) => Some(m as nat),
                None => None,
            },
            issued: self.next_id as nat,
            released: self.waiting_for as nat,
            held: ids_of(self.pending_release@).to_set(),
            outputs: self.outputs@,
        }
    }
}

impl<O> OrderState<O> {
    /// The representation invariant.
    pub closed spec fn wf(&self) -> bool {
        let v = self.pending_release@;
        &&& self.waiting_for <= self.next_id
        &&& forall|i: int, j: int| 0 <= i < j < v.len() ==> #[trigger] v[i].id > #[trigger] v[j].id
        &&& forall|i: int| 0 <= i < v.len() ==> self.waiting_for <= #[trigger] v[i].id < self.next_id
        &&& forall|i: int|
            0 <= i < v.len() ==> self.outputs@.contains_key(#[trigger] v[i].id as int)
                && self.outputs@[v[i].id as int] == v[i].output
        &&& forall|k: int|
            #[trigger] self.outputs@.contains_key(k) <==> (0 <= k < self.waiting_for || ids_of(
                v,
            ).contains(k))
        &&& match self.max {
            Some(m) => 0 < m && self.next_id - self.waiting_for - v.len() <= m,
            None => true,
        }
    }

    /// Every state that the operations of this type produce satisfies the
    /// model invariant: ids are released in order, held ids lie between the
    /// released and the issued ones, exactly the released and held ids have
    /// recorded outputs, and no more futures run than the limit allows.
    pub proof fn lemma_reachable_inv(&self)
        requires
            self.wf(),
        ensures
            self@.inv(),
    {
        self.lemma_wf_view();
    }

    /// The held list has as many entries as the model has held ids, and the
    /// model invariant holds.
    proof fn lemma_wf_view(&self)
        requires
            self.wf(),
        ensures
            self@.inv(),
            self@.held.len() == self.pending_release@.len(),
            forall|k: int| #[trigger]
                self@.held.contains(k) <==> exists|i: int|
                    0 <= i < self.pending_release@.len() && self.pending_release@[i].id == k,
    {
        let v = self.pending_release@;
        let ids = ids_of(v);
        assert forall|i: int, j: int| 0 <= i < j < ids.len() implies #[trigger] ids[i] > #[trigger] ids[j] by {
            assert(v[i].id > v[j].id);
        }
        assert forall|i: int| 0 <= i < ids.len() implies self.waiting_for <= #[trigger] ids[i]
            < self.next_id by {
            assert(self.waiting_for <= v[i].id < self.next_id);
        }
        lemma_descending_ids(ids, self.waiting_for as int, self.next_id as int);
        broadcast use vstd::seq_lib::seq_to_set_is_finite;
        assert forall|k: int| #[trigger] self@.held.contains(k) <==> exists|i: int|
            0 <= i < v.len() && v[i].id == k by {
            if self@.held.contains(k) {
                let i = choose|i: int| 0 <= i < ids.len() && ids[i] == k;
                assert(v[i].id == k);
            }
            if exists|i: int| 0 <= i < v.len() && v[i].id == k {
                let i = choose|i: int| 0 <= i < v.len() && v[i].id == k;
                assert(ids[i] == k);
            }
        }
        assert forall|k: int| #[trigger] self@.held.contains(k) implies self@.released <= k
            < self@.issued by {
            let i = choose|i: int| 0 <= i < v.len() && v[i].id == k;
            assert(self.waiting_for <= v[i].id < self.next_id);
        }
    }

    /// A state with no futures started, and a concurrency limit of `n`
    /// (`None` or `Some(0)`: no limit).
    pub fn new(n: Option<usize>) -> (res: Self)
        ensures
            res.wf(),
            res@ == OrderModel::<O>::fresh(limit_for(n)),
    {
        let max = match n {
            Some(k) => if k > 0 { Some(k) } else { None },
            None => None,
        };
        let res = OrderState {
            max,
            next_id: 0,
            waiting_for: 0,
            pending_release: Vec::new(),
            outputs: Ghost(Map::empty()),
        };
        assert(res@.held =~= Set::<int>::empty());
        res
    }

    /// How many ids have been given out.
    pub fn issued(&self) -> (n: usize)
        ensures
            n == self@.issued,
    {
        self.next_id
    }

    /// How many outputs have been handed out; also the id whose output is
    /// due next.
    pub fn released(&self) -> (n: usize)
        ensures
            n == self@.released,
    {
        self.waiting_for
    }

    /// How many finished outputs are held back.
    pub fn held_count(&self) -> (n: usize)
        requires
            self.wf(),
        ensures
            n == self@.held.len(),
    {
        proof {
            self.lemma_wf_view();
        }
        self.pending_release.len()
    }

    /// The concurrency limit; `None` when there is none.
    pub fn limit(&self) -> (max: Option<usize>)
        ensures
            max matches Some(m) ==> self@.limit == Some(m as nat),
            max is None ==> self@.limit is None,
    {
        self.max
    }

    /// How many futures are still running: those started and neither handed
    /// out nor held back.
    pub fn in_flight(&self) -> (count: usize)
        requires
            self.wf(),
        ensures
            count == self@.in_flight_count(),
    {
        proof {
            self.lemma_wf_view();
        }
        self.next_id - self.waiting_for - self.pending_release.len()
    }

    /// Whether the future with id `id` is still running.
    pub fn is_in_flight(&self, id: usize) -> (running: bool)
        requires
            self.wf(),
        ensures
            running == self@.in_flight().contains(id as int),
    {
        proof {
            self.lemma_wf_view();
        }
        if id < self.waiting_for || id >= self.next_id {
            return false;
        }
        let pos = self.search(id);
        if pos < self.pending_release.len() && self.pending_release[pos].id == id {
            proof {
                assert(self.pending_release@[pos as int].id == id);
                assert(self@.held.contains(id as int));
            }
            false
        } else {
            proof {
                assert forall|j: int| 0 <= j < self.pending_release@.len() implies #[trigger] self.pending_release@[j].id != id by {
                    if j > pos {
                        assert(self.pending_release@[pos as int].id > self.pending_release@[j].id);
                    }
                }
            }
            true
        }
    }

    /// Where `id` stands in the held list, found by binary search: every
    /// entry before the result has a larger id, every entry from it on has
    /// an id no larger.
    fn search(&self, id: usize) -> (pos: usize)
        requires
            forall|i: int, j: int|
                0 <= i < j < self.pending_release@.len() ==> #[trigger] self.pending_release@[i].id
                    > #[trigger] self.pending_release@[j].id,
        ensures
            pos <= self.pending_release@.len(),
            forall|j: int| 0 <= j < pos ==> #[trigger] self.pending_release@[j].id > id,
            forall|j: int|
                pos <= j < self.pending_release@.len() ==> #[trigger] self.pending_release@[j].id
                    <= id,
    {
        let ghost v = self.pending_release@;
        let mut lo: usize = 0;
        let mut hi: usize = self.pending_release.len();
        while lo < hi
            invariant
                forall|i: int, j: int| 0 <= i < j < v.len() ==> #[trigger] v[i].id > #[trigger] v[j].id,
                self.pending_release@ == v,
                lo <= hi <= v.len(),
                forall|j: int| 0 <= j < lo ==> #[trigger] v[j].id > id,
                forall|j: int| hi <= j < v.len() ==> #[trigger] v[j].id <= id,
            decreases hi - lo,
        {
            let mid = lo + (hi - lo) / 2;
            if self.pending_release[mid].id > id {
                proof {
                    assert forall|j: int| 0 <= j <= mid implies #[trigger] v[j].id > id by {
                        if j < mid {
                            assert(v[j].id > v[mid as int].id);
                        }
                    }
                }
                lo = mid + 1;
            } else {
                proof {
                    assert forall|j: int| mid <= j < v.len() implies #[trigger] v[j].id <= id by {
                        if j > mid {
                            assert(v[mid as int].id > v[j].id);
                        }
                    }
                }
                hi = mid;
            }
        }
        lo
    }

    /// Whether another future may be started: there is no limit, or fewer
    /// than the limit are running.
    pub fn has_capacity(&self) -> (room: bool)
        requires
            self.wf(),
        ensures
            room == self@.has_capacity(),
    {
        let running = self.in_flight();
        match self.max {
            Some(max) => running < max,
            None => true,
        }
    }

    /// The source yielded another future: it gets the next id and counts as
    /// running.
    pub fn issue_next(&mut self) -> (id: usize)
        requires
            old(self).wf(),
            old(self)@.has_capacity(),
            old(self)@.issued < usize::MAX,
        ensures
            final(self).wf(),
            id == old(self)@.issued,
            final(self)@ == (OrderModel { issued: old(self)@.issued + 1, ..old(self)@ }),
            final(self)@.in_flight() == old(self)@.in_flight().insert(id as int),
    {
        proof {
            self.lemma_wf_view();
        }
        let id = self.next_id;
        self.next_id = self.next_id + 1;
        proof {
            assert(self@.in_flight() =~= old(self)@.in_flight().insert(id as int));
        }
        id
    }

    /// The running future `id` finished with `output`. If it is the one whose
    /// turn it is, its output is handed out at once; otherwise it is held back.
    pub fn complete(&mut self, id: usize, output: O) -> (now: Option<O>)
        requires
            old(self).wf(),
            old(self)@.in_flight().contains(id as int),
        ensures
            final(self).wf(),
            final(self)@.limit == old(self)@.limit,
            final(self)@.issued == old(self)@.issued,
            final(self)@.outputs == old(self)@.outputs.insert(id as int, output),
            id == old(self)@.released ==> {
                &&& now == Some(output)
                &&& final(self)@.released == old(self)@.released + 1
                &&& final(self)@.held == old(self)@.held
                &&& final(self)@.released_seq() == old(self)@.released_seq().push(output)
            },
            id != old(self)@.released ==> {
                &&& now is None
                &&& final(self)@.released == old(self)@.released
                &&& final(self)@.held == old(self)@.held.insert(id as int)
                &&& final(self)@.released_seq() == old(self)@.released_seq()
            },
    {
        proof {
            self.lemma_wf_view();
        }
        let ghost old_outputs = self.outputs@;
        let ghost old_seq = self@.released_seq();
        self.outputs = Ghost(self.outputs@.insert(id as int, output));
        if id == self.waiting_for {
            self.waiting_for = self.waiting_for + 1;
            proof {
                let v = self.pending_release@;
                assert forall|i: int| 0 <= i < v.len() implies self.waiting_for <= #[trigger] v[i].id
                    < self.next_id by {
                    assert(ids_of(v)[i] == v[i].id);
                    assert(old(self)@.held.contains(v[i].id as int));
                }
                assert(self@.released_seq() =~= old_seq.push(output));
            }
            Some(output)
        } else {
            let ghost v = self.pending_release@;
            let pos = self.search(id);
            proof {
                if pos < v.len() {
                    assert(ids_of(v)[pos as int] == v[pos as int].id);
                    assert(old(self)@.held.contains(v[pos as int].id as int));
                    assert(v[pos as int].id < id);
                }
            }
            self.pending_release.insert(pos, Pending { id, output });
            proof {
                let w = self.pending_release@;
                let p = pos as int;
                assert(w.len() == v.len() + 1);
                assert forall|i: int| 0 <= i < w.len() implies #[trigger] w[i] == (if i < p {
                    v[i]
                } else if i == p {
                    Pending { id, output }
                } else {
                    v[i - 1]
                }) by {}
                assert forall|i: int, j: int| 0 <= i < j < w.len() implies #[trigger] w[i].id
                    > #[trigger] w[j].id by {
                    if j < p {
                    } else if j == p {
                        assert(v[i].id > id);
                    } else if i < p {
                        assert(v[i].id > v[j - 1].id) by {
                            if i < j - 1 {
                            }
                        }
                    } else if i == p {
                        assert(v[j - 1].id <= v[p].id);
                    } else {
                    }
                }
                assert(ids_of(w) =~= ids_of(v).insert(p, id as int));
                assert forall|k: int| #[trigger] ids_of(w).contains(k) <==> (ids_of(v).contains(k)
                    || k == id) by {
                    if ids_of(w).contains(k) {
                        let i = choose|i: int| 0 <= i < ids_of(w).len() && ids_of(w)[i] == k;
                        if i < p {
                            assert(ids_of(v)[i] == k);
                        } else if i > p {
                            assert(ids_of(v)[i - 1] == k);
                        }
                    }
                    if ids_of(v).contains(k) {
                        let i = choose|i: int| 0 <= i < ids_of(v).len() && ids_of(v)[i] == k;
                        if i < p {
                            assert(ids_of(w)[i] == k);
                        } else {
                            assert(ids_of(w)[i + 1] == k);
                        }
                    }
                    if k == id {
                        assert(ids_of(w)[p] == k);
                    }
                }
                assert(self@.held =~= old(self)@.held.insert(id as int));
                assert(self@.released_seq() =~= old_seq);
                self.lemma_wf_view();
            }
            None
        }
    }

    /// No running future has anything more to report for now. Hands out the
    /// held output whose turn it is, if there is one; otherwise reports the
    /// buffer exhausted when the source is done and nothing is running, and
    /// asks to wait in every other case.
    pub fn finish_poll(&mut self, stream_done: bool) -> (step: Release<O>)
        requires
            old(self).wf(),
        ensures
            final(self).wf(),
            final(self)@.limit == old(self)@.limit,
            final(self)@.issued == old(self)@.issued,
            final(self)@.outputs == old(self)@.outputs,
            old(self)@.held.contains(old(self)@.released as int) ==> {
                &&& step == Release::Next(old(self)@.outputs[old(self)@.released as int])
                &&& final(self)@.released == old(self)@.released + 1
                &&& final(self)@.held == old(self)@.held.remove(old(self)@.released as int)
                &&& final(self)@.released_seq() == old(self)@.released_seq().push(
                    old(self)@.outputs[old(self)@.released as int],
                )
            },
            !old(self)@.held.contains(old(self)@.released as int) ==> {
                &&& final(self)@ == old(self)@
                &&& step == if stream_done && old(self)@.in_flight_count() == 0 {
                    Release::<O>::Exhausted
                } else {
                    Release::<O>::Wait
                }
            },
            step is Exhausted ==> final(self)@.released == final(self)@.issued
                && final(self)@.held.is_empty(),
    {
        proof {
            self.lemma_wf_view();
        }
        let ghost v = self.pending_release@;
        let ghost old_seq = self@.released_seq();
        let len = self.pending_release.len();
        if len > 0 && self.pending_release[len - 1].id == self.waiting_for {
            let next = self.pending_release.pop().unwrap();
            self.waiting_for = self.waiting_for + 1;
            proof {
                let w = self.pending_release@;
                let last = len - 1;
                assert(w =~= v.subrange(0, last as int));
                assert(v[last as int] == next);
                assert forall|i: int| 0 <= i < w.len() implies self.waiting_for <= #[trigger] w[i].id
                    < self.next_id by {
                    assert(v[i].id > v[last as int].id);
                }
                assert forall|k: int| #[trigger] ids_of(w).contains(k) <==> (ids_of(v).contains(k)
                    && k != old(self).waiting_for) by {
                    if ids_of(w).contains(k) {
                        let i = choose|i: int| 0 <= i < ids_of(w).len() && ids_of(w)[i] == k;
                        assert(ids_of(v)[i] == k);
                        assert(v[i].id > v[last as int].id);
                    }
                    if ids_of(v).contains(k) && k != old(self).waiting_for {
                        let i = choose|i: int| 0 <= i < ids_of(v).len() && ids_of(v)[i] == k;
                        assert(i != last);
                        assert(ids_of(w)[i] == k);
                    }
                }
                assert(self@.held =~= old(self)@.held.remove(old(self).waiting_for as int));
                assert(ids_of(v)[last as int] == old(self).waiting_for);
                assert(old(self)@.held.contains(old(self).waiting_for as int));
                assert(self@.released_seq() =~= old_seq.push(next.output));
                self.lemma_wf_view();
            }
            Release::Next(next.output)
        } else {
            proof {
                if old(self)@.held.contains(old(self).waiting_for as int) {
                    let i = choose|i: int| 0 <= i < v.len() && v[i].id == old(self).waiting_for;
                    if i < len - 1 {
                        assert(v[i].id > v[len - 1].id);
                    }
                    assert(false);
                }
            }
            if stream_done && self.in_flight() == 0 {
                proof {
                    if self@.released < self@.issued {
                        lemma_idle_means_next_is_held(self@);
                    }
                    assert(self@.held.len() == 0);
                }
                Release::Exhausted
            } else {
                Release::Wait
            }
        }
    }

    /// The size bounds of the buffered stream, given those of the source:
    /// each bound grows by the number of started futures whose outputs have
    /// not been handed out yet (running or held back). The lower bound
    /// saturates; an upper bound that would overflow becomes unknown.
    pub fn size_hint(&self, source: (usize, Option<usize>)) -> (hint: (usize, Option<usize>))
        requires
            self.wf(),
        ensures
            hint == self@.hint(source),
    {
        proof {
            self.lemma_wf_view();
        }
        let queue_len = self.in_flight() + self.pending_release.len();
        let (lower, upper) = source;
        let lower = lower.saturating_add(queue_len);
        let upper = match upper {
            Some(x) => x.checked_add(queue_len),
            None => None,
        };
        (lower, upper)
    }
}

/// When no future is running and some output has not been handed out yet,
/// the output whose turn it is has already been held back: the buffer never
/// waits on nothing.
pub proof fn lemma_idle_means_next_is_held<O>(m: OrderModel<O>)
    requires
        m.inv(),
        m.in_flight_count() == 0,
        m.released < m.issued,
    ensures
        m.held.contains(m.released as int),
{
    let r = set_int_range(m.released as int, m.issued as int);
    lemma_int_range(m.released as int, m.issued as int);
    assert(m.held.subset_of(r));
    lemma_subset_equality(m.held, r);
    assert(r.contains(m.released as int));
}

/// A requested concurrency of `k > 0` is kept as the limit `k`: a state
/// whose limit comes from `Some(k)` has room for another future exactly
/// while fewer than `k` run. A request of `0`, or none, puts no bound on how
/// many run: there is always room.
pub proof fn lemma_requested_limit<O>(n: Option<usize>, m: OrderModel<O>)
    requires
        m.limit == limit_for(n),
    ensures
        n matches Some(k) ==> (k > 0 ==> m.limit == Some(k as nat) && (m.has_capacity()
            <==> m.in_flight_count() < k)),
        n matches Some(k) ==> (k == 0 ==> m.limit is None && m.has_capacity()),
        n is None ==> m.limit is None && m.has_capacity(),
{
}

/// The lower size bound is the source's lower bound plus the outputs still
/// to come from started futures (running or held back), saturating at
/// `usize::MAX`; it does not depend on the source's upper bound.
pub proof fn lemma_hint_lower<O>(
    m: OrderModel<O>,
    lower: usize,
    upper: Option<usize>,
    other: Option<usize>,
)
    requires
        m.inv(),
    ensures
        m.hint((lower, upper)).0 == m.hint((lower, other)).0,
        m.hint((lower, upper)).0 as int == if lower + m.in_flight_count() + m.held.len()
            <= usize::MAX {
            lower + m.in_flight_count() + m.held.len()
        } else {
            usize::MAX as int
        },
        m.hint((lower, upper)).0 >= lower,
{
}

/// The upper size bound is the source's upper bound plus the outputs still
/// to come from started futures (running or held back), or unknown when the
/// source gives none or the sum does not fit in `usize`; it does not depend
/// on the source's lower bound.
pub proof fn lemma_hint_upper<O>(m: OrderModel<O>, lower: usize, other: usize, upper: Option<usize>)
    requires
        m.inv(),
    ensures
        m.hint((lower, upper)).1 == m.hint((other, upper)).1,
        upper is None ==> m.hint((lower, upper)).1 is None,
        upper matches Some(x) ==> (m.hint((lower, upper)).1 is Some <==> x + m.in_flight_count()
            + m.held.len() <= usize::MAX),
        upper matches Some(x) ==> (x + m.in_flight_count() + m.held.len() <= usize::MAX ==> m.hint(
            (lower, upper),
        ).1 == Some((x + m.in_flight_count() + m.held.len()) as usize)),
{
}

/// The number of running futures is the size of the set of running ids:
/// the ids started and neither handed out nor held back.
pub proof fn lemma_in_flight_count<O>(m: OrderModel<O>)
    requires
        m.inv(),
    ensures
        m.in_flight().finite(),
        m.in_flight().len() == m.in_flight_count(),
{
    let r = set_int_range(m.released as int, m.issued as int);
    lemma_int_range(m.released as int, m.issued as int);
    assert(m.in_flight() =~= r.difference(m.held));
    assert(r.intersect(m.held) =~= m.held);
    vstd::set_lib::lemma_set_difference_len(r, m.held);
}

/// A running future has no recorded output yet, so recording its output
/// never overwrites one recorded earlier.
pub proof fn lemma_in_flight_has_no_output<O>(m: OrderModel<O>, id: int)
    requires
        m.inv(),
        m.in_flight().contains(id),
    ensures
        !m.outputs.contains_key(id),
{
}

} // verus!
