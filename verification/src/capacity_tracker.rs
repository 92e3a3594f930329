//! Tracks, for each partition, the sizes of the batches being collected, so
//! that room for the next batch can be reserved ahead.
use std::collections::VecDeque;
use vstd::prelude::*;

verus! {

/// The size of a batch that is being collected for one partition: how many
/// rows it holds, and whatever else is needed to preallocate for it.
pub trait BatchCapacity: Copy + Sized {
    /// How many rows this capacity describes.
    spec fn rows(&self) -> nat;

    /// The capacity of an empty batch.
    spec fn spec_empty() -> Self;

    /// The capacity of the two batches together.
    spec fn sum(&self, other: Self) -> Self;

    /// Whether the two capacities can be added without overflowing a counter.
    spec fn can_add(&self, other: Self) -> bool;

    /// An empty capacity.
    fn empty() -> (r: Self)
        ensures
            r == Self::spec_empty(),
    ;

    /// The number of rows.
    fn num_rows(&self) -> (r: usize)
        ensures
            r == self.rows(),
    ;

    /// Adds `rhs` to this capacity.
    fn add_assign(&mut self, rhs: Self)
        requires
            old(self).can_add(rhs),
        ensures
            *final(self) == old(self).sum(rhs),
    ;

    /// An empty capacity holds no rows.
    proof fn lemma_empty_rows()
        ensures
            Self::spec_empty().rows() == 0,
    ;

    /// The rows of a sum are the sum of the rows.
    proof fn lemma_sum_rows(a: Self, b: Self)
        requires
            a.can_add(b),
        ensures
            a.sum(b).rows() == a.rows() + b.rows(),
    ;
}

/// The number of rows at which a batch counts as complete: `max_batch_size`,
/// but at least one (a batch with one row is complete when the limit is zero).
pub open spec fn batch_limit(max_batch_size: nat) -> nat {
    if max_batch_size == 0 {
        1
    } else {
        max_batch_size
    }
}

/// Part `j` of the parts of at most `m` entries that `rows` are cut into:
/// entries `j * m` up to `(j + 1) * m`, or up to the end for the last one.
pub open spec fn chunk<T>(rows: Seq<T>, m: nat, j: int) -> Seq<T> {
    if (j + 1) * m <= rows.len() {
        rows.subrange(j * m, (j + 1) * m)
    } else {
        rows.subrange(j * m, rows.len() as int)
    }
}

/// How many arrays of at most `m` rows `len` rows are cut into.
pub open spec fn chunk_count(len: nat, m: nat) -> nat {
    if m == 0 {
        0
    } else {
        ((len + m - 1) as nat / m) as nat
    }
}

/// Array `j` exists exactly when rows are left before it; it holds `m` rows,
/// or what is left when fewer are.
pub proof fn lemma_chunk(len: nat, m: nat, j: int)
    requires
        m >= 1,
        j >= 0,
    ensures
        j < chunk_count(len, m) <==> j * m < len,
        (j + 1) * m == j * m + m,
        j * m >= 0,
{
    let x = (len + m - 1) as int;
    let k = x / (m as int);
    let r = x % (m as int);
    vstd::arithmetic::div_mod::lemma_fundamental_div_mod(x, m as int);
    vstd::arithmetic::div_mod::lemma_mod_pos_bound(x, m as int);
    assert(chunk_count(len, m) == k);
    assert((j + 1) * m == j * m + m) by (nonlinear_arith);
    assert(j * m >= 0) by (nonlinear_arith)
        requires
            j >= 0,
    ;
    assert(j < k <==> j * m < len) by (nonlinear_arith)
        requires
            x == m * k + r,
            0 <= r < m,
            m >= 1,
            x == len + m - 1,
            j >= 0,
            (j + 1) * m == j * m + m,
    ;
}

/// Rows cut into arrays of a batch size: every array holds at least one row
/// and at most `batch_size` rows (one when `batch_size` is 0), every array
/// but the last holds exactly that many, and the arrays follow each other
/// without gap or overlap.
pub proof fn lemma_arrays_of_batch_size<T>(rows: Seq<T>, batch_size: nat, j: int)
    requires
        0 <= j < chunk_count(rows.len(), batch_limit(batch_size)),
    ensures
        ({
            let size = if batch_size == 0 { 1 } else { batch_size };
            let a = chunk(rows, batch_limit(batch_size), j);
            &&& 1 <= a.len() <= size
            &&& j + 1 < chunk_count(rows.len(), batch_limit(batch_size)) ==> a.len() == size
            &&& forall|i: int| 0 <= i < a.len() ==> #[trigger] a[i] == rows[j * size + i]
        }),
{
    let m = batch_limit(batch_size);
    lemma_chunk(rows.len(), m, j);
    lemma_chunk(rows.len(), m, j + 1);
}

/// The batch that rows are added to next in a queue: its last entry, or an
/// empty batch when the queue is empty.
pub open spec fn current_batch<T: BatchCapacity>(queue: Seq<T>) -> T {
    if queue.len() == 0 {
        T::spec_empty()
    } else {
        queue.last()
    }
}

/// A queue of pending batches as `record_row` leaves it: every batch but the
/// last is complete (holds exactly the limit), the last one holds fewer rows.
pub open spec fn queue_wf<T: BatchCapacity>(queue: Seq<T>, max_batch_size: nat) -> bool {
    &&& forall|i: int| 0 <= i < queue.len() - 1 ==> #[trigger] queue[i].rows() == batch_limit(max_batch_size)
    &&& queue.len() > 0 ==> queue.last().rows() < batch_limit(max_batch_size)
}

/// The queue after one row of capacity `size` is recorded in it.
pub open spec fn queue_after_row<T: BatchCapacity>(queue: Seq<T>, size: T, max_batch_size: nat) -> Seq<T> {
    let base = if queue.len() == 0 { seq![T::spec_empty()] } else { queue };
    let grown = current_batch(queue).sum(size);
    let updated = base.update(base.len() - 1, grown);
    if grown.rows() >= max_batch_size {
        updated.push(T::spec_empty())
    } else {
        updated
    }
}

/// The queue after rows of the given capacities are recorded in it, one by one.
pub open spec fn queue_after_rows<T: BatchCapacity>(queue: Seq<T>, sizes: Seq<T>, max_batch_size: nat) -> Seq<T>
    decreases sizes.len(),
{
    if sizes.len() == 0 {
        queue
    } else {
        queue_after_row(queue_after_rows(queue, sizes.drop_last(), max_batch_size), sizes.last(), max_batch_size)
    }
}

/// Recording at least one row leaves a queue that is not empty.
pub proof fn lemma_queue_after_rows_nonempty<T: BatchCapacity>(queue: Seq<T>, sizes: Seq<T>, max_batch_size: nat)
    requires
        sizes.len() > 0,
    ensures
        queue_after_rows(queue, sizes, max_batch_size).len() > 0,
{
}

/// The queue after `next_capacity` takes the batch to allocate next: a
/// complete front batch leaves the queue, the batch being built stays.
pub open spec fn queue_after_next<T>(queue: Seq<T>) -> Seq<T> {
    if queue.len() > 1 {
        queue.drop_first()
    } else {
        queue
    }
}

/// What `next_capacity` returns for a queue.
pub open spec fn next_of_queue<T>(queue: Seq<T>) -> Option<T> {
    if queue.len() > 0 {
        Some(queue[0])
    } else {
        None
    }
}

/// Tracks capacity requirements per partition to enable efficient preallocation.
///
/// For each partition it keeps a queue of capacities of upcoming batches: the
/// front entry is the batch that is allocated next, later entries are later
/// batches.
pub struct CapacityTracker<T> {
    max_batch_size: usize,
    pending_batches: Vec<VecDeque<T>>,
}

impl<T: BatchCapacity> CapacityTracker<T> {
    /// The queue of pending batch capacities of each partition.
    pub closed spec fn pending(&self) -> Seq<Seq<T>> {
        self.pending_batches@.map_values(|q: VecDeque<T>| q@)
    }

    /// The number of rows after which a batch is complete.
    pub closed spec fn max_batch_size(&self) -> nat {
        self.max_batch_size as nat
    }

    /// Every queue is well formed.
    pub open spec fn wf(&self) -> bool {
        forall|p: int| 0 <= p < self.pending().len() ==> #[trigger] queue_wf(self.pending()[p], self.max_batch_size())
    }

    /// A tracker for `num_partitions` partitions, with no batch pending.
    pub fn new(max_batch_size: usize, num_partitions: usize) -> (r: Self)
        ensures
            r.wf(),
            r.max_batch_size() == max_batch_size,
            r.pending() == Seq::new(num_partitions as nat, |p: int| Seq::<T>::empty()),
    {
        let mut pending_batches: Vec<VecDeque<T>> = Vec::with_capacity(num_partitions);
        let mut i: usize = 0;
        while i < num_partitions
            invariant
                i <= num_partitions,
                pending_batches@.len() == i,
                forall|p: int| 0 <= p < i ==> (#[trigger] pending_batches@[p])@ == Seq::<T>::empty(),
            decreases num_partitions - i,
        {
            pending_batches.push(VecDeque::with_capacity(2));
            i = i + 1;
        }
        let r = Self { pending_batches, max_batch_size };
        assert(r.pending() =~= Seq::new(num_partitions as nat, |p: int| Seq::<T>::empty()));
        r
    }

    /// Returns the capacity for the next batch in the given partition.
    ///
    /// If there are several pending batches, the front one is complete: it is
    /// removed and returned. If there is only one (the one being built), a
    /// copy of it is returned and it stays. With none, `None` is returned.
    pub fn next_capacity(&mut self, partition: usize) -> (r: Option<T>)
        requires
            partition < old(self).pending().len(),
        ensures
            final(self).max_batch_size() == old(self).max_batch_size(),
            old(self).wf() ==> final(self).wf(),
            ({
                let q = old(self).pending()[partition as int];
                if q.len() > 1 {
                    &&& r == Some(q[0])
                    &&& final(self).pending() == old(self).pending().update(partition as int, q.drop_first())
                } else {
                    &&& r == (if q.len() == 1 { Some(q[0]) } else { None::<T> })
                    &&& final(self).pending() == old(self).pending()
                }
            }),
    {
        let ghost old_pending = self.pending();
        let len = self.pending_batches[partition].len();
        if len > 1 {
            let r = self.pending_batches[partition].pop_front();
            proof {
                let q = old_pending[partition as int];
                assert(self.pending() =~= old_pending.update(partition as int, q.drop_first()));
                if old(self).wf() {
                    assert forall|p: int| 0 <= p < self.pending().len() implies #[trigger] queue_wf(
                        self.pending()[p],
                        self.max_batch_size(),
                    ) by {
                        assert(queue_wf(old(self).pending()[p], old(self).max_batch_size()));
                        if p == partition {
                            assert forall|i: int| 0 <= i < q.drop_first().len() - 1 implies #[trigger] q.drop_first()[i].rows()
                                == batch_limit(self.max_batch_size()) by {
                                assert(q.drop_first()[i] == q[i + 1]);
                            }
                        }
                    }
                }
            }
            r
        } else if len == 1 {
            let r = self.pending_batches[partition][0];
            proof {
                assert(self.pending() =~= old_pending);
            }
            Some(r)
        } else {
            proof {
                assert(self.pending() =~= old_pending);
            }
            None
        }
    }

    /// Records that a row of capacity `size` will be added to the partition:
    /// it is added to the batch being built, and when that batch reaches
    /// `max_batch_size` rows a new empty batch is started after it.
    pub fn record_row(&mut self, partition: u32, size: T)
        requires
            (partition as int) < old(self).pending().len(),
            size.rows() == 1,
            current_batch(old(self).pending()[partition as int]).can_add(size),
        ensures
            final(self).max_batch_size() == old(self).max_batch_size(),
            old(self).wf() ==> final(self).wf(),
            final(self).pending() == old(self).pending().update(
                partition as int,
                queue_after_row(old(self).pending()[partition as int], size, old(self).max_batch_size()),
            ),
    {
        let ghost old_pending = self.pending();
        let ghost q = old_pending[partition as int];
        let p = partition as usize;
        if self.pending_batches[p].len() == 0 {
            self.pending_batches[p].push_back(T::empty());
        }
        let ghost base = self.pending_batches[p as int]@;
        let mut current = self.pending_batches[p].pop_back().unwrap();
        current.add_assign(size);
        let full = current.num_rows() >= self.max_batch_size;
        self.pending_batches[p].push_back(current);
        if full {
            self.pending_batches[p].push_back(T::empty());
        }
        proof {
            let m = self.max_batch_size();
            let expected = queue_after_row(q, size, m);
            assert(base == if q.len() == 0 { seq![T::spec_empty()] } else { q });
            assert(self.pending_batches[p as int]@ =~= expected);
            assert(self.pending() =~= old_pending.update(partition as int, expected));
            if old(self).wf() {
                T::lemma_empty_rows();
                T::lemma_sum_rows(current_batch(q), size);
                assert forall|k: int| 0 <= k < self.pending().len() implies #[trigger] queue_wf(
                    self.pending()[k],
                    m,
                ) by {
                    assert(queue_wf(old(self).pending()[k], old(self).max_batch_size()));
                    if k == partition {
                        let updated = base.update(base.len() - 1, current);
                        assert forall|i: int| 0 <= i < expected.len() - 1 implies #[trigger] expected[i].rows()
                            == batch_limit(m) by {
                            if i < base.len() - 1 {
                                assert(expected[i] == q[i]);
                            }
                        }
                    }
                }
            }
        }
    }
}

/// The rows of all the batches of a queue.
pub open spec fn queue_rows<T: BatchCapacity>(queue: Seq<T>) -> nat
    decreases queue.len(),
{
    if queue.len() == 0 {
        0
    } else {
        queue_rows(queue.drop_last()) + queue.last().rows()
    }
}

/// The rows of a queue are those of its front batch and those of the rest.
pub proof fn lemma_queue_rows_front<T: BatchCapacity>(queue: Seq<T>)
    requires
        queue.len() > 0,
    ensures
        queue_rows(queue) == queue[0].rows() + queue_rows(queue.drop_first()),
    decreases queue.len(),
{
    if queue.len() > 1 {
        lemma_queue_rows_front(queue.drop_last());
        assert(queue.drop_last().drop_first() =~= queue.drop_first().drop_last());
        assert(queue.drop_first().last() == queue.last());
    } else {
        assert(queue.drop_last() =~= Seq::<T>::empty());
        assert(queue.drop_first() =~= Seq::<T>::empty());
    }
}

/// Recording a row adds its rows, and only those, to the pending batches of
/// the partition.
pub proof fn lemma_record_row_adds_rows<T: BatchCapacity>(queue: Seq<T>, size: T, max_batch_size: nat)
    requires
        current_batch(queue).can_add(size),
    ensures
        queue_rows(queue_after_row(queue, size, max_batch_size)) == queue_rows(queue) + size.rows(),
{
    T::lemma_empty_rows();
    T::lemma_sum_rows(current_batch(queue), size);
    let base = if queue.len() == 0 { seq![T::spec_empty()] } else { queue };
    let grown = current_batch(queue).sum(size);
    let updated = base.update(base.len() - 1, grown);
    assert(updated.drop_last() =~= base.drop_last());
    assert(updated.last() == grown);
    assert(queue_rows(updated) == queue_rows(base.drop_last()) + grown.rows());
    if queue.len() == 0 {
        assert(base.drop_last() =~= Seq::<T>::empty());
        assert(queue_rows(base.drop_last()) == 0);
    } else {
        assert(queue_rows(queue) == queue_rows(queue.drop_last()) + queue.last().rows());
    }
    if grown.rows() >= max_batch_size {
        let pushed = updated.push(T::spec_empty());
        assert(pushed.drop_last() =~= updated);
        assert(queue_rows(pushed) == queue_rows(updated) + T::spec_empty().rows());
    }
}

/// Taking the next capacity of a partition hands out the front batch, and
/// the rows that stay pending are those of the batches behind it (or all of
/// them, when only the batch being built is pending).
pub proof fn lemma_next_capacity_takes_front<T: BatchCapacity>(queue: Seq<T>)
    ensures
        queue_rows(queue) == queue_rows(queue_after_next(queue)) + if queue.len() > 1 {
            queue[0].rows()
        } else {
            0
        },
{
    if queue.len() > 1 {
        lemma_queue_rows_front(queue);
    }
}

/// The capacities among `sizes` that went to partition `p`, in order, row
/// `i` having gone to partition `parts[i]`.
pub open spec fn sizes_for<T>(parts: Seq<int>, sizes: Seq<T>, p: int) -> Seq<T>
    decreases sizes.len(),
{
    if parts.len() == 0 || sizes.len() == 0 {
        Seq::empty()
    } else {
        let before = sizes_for(parts.drop_last(), sizes.drop_last(), p);
        if parts.last() == p {
            before.push(sizes.last())
        } else {
            before
        }
    }
}

/// Rows recorded one after the other: `trackers[i + 1]` is `trackers[i]`
/// after `record_row` recorded row `i`, of capacity `sizes[i]`, for
/// partition `parts[i]`. Then the queue of each partition is its first
/// queue with the rows that went to that partition recorded in it, in
/// order, and no other.
pub proof fn lemma_record_rows<T: BatchCapacity>(trackers: Seq<CapacityTracker<T>>, parts: Seq<int>, sizes: Seq<T>)
    requires
        trackers.len() == sizes.len() + 1,
        parts.len() == sizes.len(),
        forall|i: int|
            0 <= i < sizes.len() ==> {
                &&& 0 <= #[trigger] parts[i] < trackers[i].pending().len()
                &&& trackers[i + 1].max_batch_size() == trackers[i].max_batch_size()
                &&& trackers[i + 1].pending() == trackers[i].pending().update(
                    parts[i],
                    queue_after_row(trackers[i].pending()[parts[i]], sizes[i], trackers[i].max_batch_size()),
                )
            },
    ensures
        trackers.last().max_batch_size() == trackers[0].max_batch_size(),
        trackers.last().pending().len() == trackers[0].pending().len(),
        forall|p: int|
            0 <= p < trackers[0].pending().len() ==> #[trigger] trackers.last().pending()[p] == queue_after_rows(
                trackers[0].pending()[p],
                sizes_for(parts, sizes, p),
                trackers[0].max_batch_size(),
            ),
    decreases sizes.len(),
{
    let n = sizes.len() as int;
    if n == 0 {
        assert forall|p: int| 0 <= p < trackers[0].pending().len() implies #[trigger] trackers.last().pending()[p]
            == queue_after_rows(trackers[0].pending()[p], sizes_for(parts, sizes, p), trackers[0].max_batch_size()) by {
            assert(sizes_for(parts, sizes, p) == Seq::<T>::empty());
        }
        return;
    }
    let ts = trackers.drop_last();
    let ps = parts.drop_last();
    let ss = sizes.drop_last();
    assert forall|i: int| 0 <= i < ss.len() implies {
        &&& 0 <= #[trigger] ps[i] < ts[i].pending().len()
        &&& ts[i + 1].max_batch_size() == ts[i].max_batch_size()
        &&& ts[i + 1].pending() == ts[i].pending().update(
            ps[i],
            queue_after_row(ts[i].pending()[ps[i]], ss[i], ts[i].max_batch_size()),
        )
    } by {
        assert(parts[i] == ps[i]);
        assert(ts[i] == trackers[i] && ts[i + 1] == trackers[i + 1] && ss[i] == sizes[i]);
    }
    lemma_record_rows(ts, ps, ss);
    let prev = trackers[n - 1];
    let last = trackers[n];
    assert(ts.last() == prev);
    assert(parts[n - 1] == parts.last());
    let m = trackers[0].max_batch_size();
    assert forall|p: int| 0 <= p < trackers[0].pending().len() implies #[trigger] trackers.last().pending()[p]
        == queue_after_rows(trackers[0].pending()[p], sizes_for(parts, sizes, p), m) by {
        let before = sizes_for(ps, ss, p);
        assert(prev.pending()[p] == queue_after_rows(trackers[0].pending()[p], before, m));
        if parts.last() == p {
            assert(before.push(sizes.last()).drop_last() =~= before);
            assert(last.pending()[p] == queue_after_row(prev.pending()[p], sizes[n - 1], m));
        } else {
            assert(last.pending()[p] == prev.pending()[p]);
        }
    }
}

/// The capacities added one by one to an empty one.
pub open spec fn sum_all<T: BatchCapacity>(sizes: Seq<T>) -> T
    decreases sizes.len(),
{
    if sizes.len() == 0 {
        T::spec_empty()
    } else {
        sum_all(sizes.drop_last()).sum(sizes.last())
    }
}

/// Every row of `sizes`, recorded one after the other with batches of `m`
/// rows, can be added to the batch it goes to without a counter overflowing.
pub open spec fn rows_addable<T: BatchCapacity>(sizes: Seq<T>, m: nat) -> bool {
    forall|i: int|
        0 <= i < sizes.len() ==> sum_all(sizes.subrange((i / (m as int)) * m, i)).can_add(#[trigger] sizes[i])
}

/// The rows `record_row` leaves pending for a partition, from an empty queue
/// and rows of one row each, `m >= 1` rows to a batch: one batch per `m`
/// rows (complete batches of `m` rows, then the batch being built with what
/// is left, possibly nothing), batch `j` adding up rows `j * m` up to
/// `(j + 1) * m`; nothing at all before the first row.
pub proof fn lemma_queue_after_rows_closed_form<T: BatchCapacity>(sizes: Seq<T>, m: nat)
    requires
        m >= 1,
        forall|i: int| 0 <= i < sizes.len() ==> (#[trigger] sizes[i]).rows() == 1,
        rows_addable(sizes, m),
    ensures
        ({
            let q = queue_after_rows(Seq::<T>::empty(), sizes, m);
            &&& sizes.len() == 0 ==> q.len() == 0
            &&& sizes.len() > 0 ==> {
                &&& q.len() == sizes.len() / m + 1
                &&& forall|j: int| 0 <= j < q.len() ==> #[trigger] q[j] == sum_all(chunk(sizes, m, j))
                &&& forall|j: int| 0 <= j < q.len() - 1 ==> (#[trigger] q[j]).rows() == m
                &&& q.last().rows() == sizes.len() % m
            }
        }),
    decreases sizes.len(),
{
    if sizes.len() == 0 {
        return;
    }
    let k = (sizes.len() - 1) as nat;
    let prev = sizes.drop_last();
    let x = sizes.last();
    assert forall|i: int| 0 <= i < prev.len() implies (#[trigger] prev[i]).rows() == 1 by {
        assert(prev[i] == sizes[i]);
    }
    assert forall|i: int| 0 <= i < prev.len() implies sum_all(prev.subrange((i / (m as int)) * m, i)).can_add(
        #[trigger] prev[i],
    ) by {
        assert(prev[i] == sizes[i]);
        lemma_div_mul_bounds(i, m);
        assert(prev.subrange((i / (m as int)) * m, i) =~= sizes.subrange((i / (m as int)) * m, i));
    }
    lemma_queue_after_rows_closed_form(prev, m);
    let q0 = queue_after_rows(Seq::<T>::empty(), prev, m);
    let q = queue_after_rows(Seq::<T>::empty(), sizes, m);
    assert(q == queue_after_row(q0, x, m));
    lemma_div_step(k, m);
    lemma_div_mul_bounds(k as int, m);
    let start = (k / m) * m;
    // The batch being built holds the rows since the last complete batch.
    let cur = current_batch(q0);
    assert(cur == sum_all(sizes.subrange(start as int, k as int))) by {
        if k == 0 {
            assert(sizes.subrange(0, 0) =~= Seq::<T>::empty());
        } else {
            assert(q0.last() == q0[q0.len() - 1]);
            assert(chunk(prev, m, (k / m) as int) =~= sizes.subrange(start as int, k as int));
        }
    }
    assert(sizes.subrange(start as int, (k + 1) as int).drop_last() =~= sizes.subrange(start as int, k as int));
    assert(sizes.subrange(start as int, (k + 1) as int).last() == x);
    let grown = cur.sum(x);
    assert(grown == sum_all(sizes.subrange(start as int, (k + 1) as int)));
    assert(cur.can_add(x)) by {
        assert(sizes[k as int] == x);
    }
    T::lemma_sum_rows(cur, x);
    T::lemma_empty_rows();
    assert(cur.rows() == k % m) by {
        if k > 0 {
            assert(q0.last() == q0[q0.len() - 1]);
        }
    }
    assert(x.rows() == 1) by {
        assert(sizes[k as int] == x);
    }
    assert(grown.rows() == k % m + 1);
    let base = if q0.len() == 0 { seq![T::spec_empty()] } else { q0 };
    let updated = base.update(base.len() - 1, grown);
    assert(base.len() == k / m + 1);
    assert forall|j: int| 0 <= j < k / m implies #[trigger] chunk(prev, m, j) =~= chunk(sizes, m, j) by {
        lemma_div_mul_bounds(k as int, m);
        lemma_chunk_before(j, k, m);
        let a = j * m;
        let b = (j + 1) * m;
        assert(chunk(prev, m, j) == prev.subrange(a, b));
        assert(chunk(sizes, m, j) == sizes.subrange(a, b));
        assert forall|t: int| 0 <= t < b - a implies #[trigger] prev.subrange(a, b)[t] == sizes.subrange(a, b)[t] by {
            assert(prev[a + t] == sizes[a + t]);
        }
        assert(prev.subrange(a, b) =~= sizes.subrange(a, b));
    }
    if k % m + 1 >= m {
        assert(q == updated.push(T::spec_empty()));
        assert(q.len() == sizes.len() / m + 1);
        assert forall|j: int| 0 <= j < q.len() implies #[trigger] q[j] == sum_all(chunk(sizes, m, j)) by {
            if j < k / m {
                assert(q[j] == q0[j]);
                assert(chunk(prev, m, j) =~= chunk(sizes, m, j));
            } else if j == k / m {
                assert(q[j] == grown);
                assert(chunk(sizes, m, j) =~= sizes.subrange(start as int, (k + 1) as int));
            } else {
                assert(q[j] == T::spec_empty());
                assert(j == k / m + 1);
                assert(j * m == start + m);
                assert(j * m == sizes.len());
                assert((j + 1) * m == j * m + m) by (nonlinear_arith);
                assert(chunk(sizes, m, j) =~= Seq::<T>::empty());
            }
        }
        assert forall|j: int| 0 <= j < q.len() - 1 implies (#[trigger] q[j]).rows() == m by {
            if j < k / m {
                assert(q[j] == q0[j]);
            }
        }
    } else {
        assert(q == updated);
        assert forall|j: int| 0 <= j < q.len() implies #[trigger] q[j] == sum_all(chunk(sizes, m, j)) by {
            if j < k / m {
                assert(q[j] == q0[j]);
                assert(chunk(prev, m, j) =~= chunk(sizes, m, j));
            } else {
                assert(q[j] == grown);
                assert(chunk(sizes, m, j) =~= sizes.subrange(start as int, (k + 1) as int));
            }
        }
        assert forall|j: int| 0 <= j < q.len() - 1 implies (#[trigger] q[j]).rows() == m by {
            assert(q[j] == q0[j]);
        }
    }
}

/// `(i / m) * m` is the start of the part of `m` entries that entry `i` is in.
proof fn lemma_div_mul_bounds(i: int, m: nat)
    requires
        m >= 1,
        i >= 0,
    ensures
        0 <= (i / (m as int)) * m <= i < (i / (m as int)) * m + m,
        i % (m as int) == i - (i / (m as int)) * m,
        i / (m as int) >= 0,
        (i / (m as int) + 1) * m == (i / (m as int)) * m + m,
{
    vstd::arithmetic::div_mod::lemma_fundamental_div_mod(i, m as int);
    vstd::arithmetic::div_mod::lemma_mod_pos_bound(i, m as int);
    let d = i / (m as int);
    assert(d >= 0) by (nonlinear_arith)
        requires
            i == m * d + i % (m as int),
            0 <= i % (m as int) < m,
            i >= 0,
            m >= 1,
    ;
    assert(d * m == m * d) by (nonlinear_arith);
    assert((d + 1) * m == d * m + m) by (nonlinear_arith);
    assert(d * m >= 0) by (nonlinear_arith)
        requires
            d >= 0,
    ;
}

/// One more entry moves to the next part exactly when it completes one.
proof fn lemma_div_step(k: nat, m: nat)
    requires
        m >= 1,
    ensures
        k % m + 1 >= m ==> (k + 1) / m == k / m + 1 && (k + 1) % m == 0,
        k % m + 1 < m ==> (k + 1) / m == k / m && (k + 1) % m == k % m + 1,
        k == 0 ==> k / m == 0 && k % m == 0,
{
    lemma_div_mul_bounds(k as int, m);
    let d = k / m;
    let r = k % m;
    if r + 1 >= m {
        vstd::arithmetic::div_mod::lemma_fundamental_div_mod_converse((k + 1) as int, m as int, (d + 1) as int, 0);
    } else {
        vstd::arithmetic::div_mod::lemma_fundamental_div_mod_converse((k + 1) as int, m as int, d as int, (r + 1) as int);
    }
    if k == 0 {
        vstd::arithmetic::div_mod::lemma_fundamental_div_mod_converse(0, m as int, 0, 0);
    }
}

/// A part that ends before entry `k` is the same with or without entry `k`.
proof fn lemma_chunk_before(j: int, k: nat, m: nat)
    requires
        m >= 1,
        0 <= j < k / m,
    ensures
        (j + 1) * m <= k,
        j * m >= 0,
        (j + 1) * m == j * m + m,
{
    assert((j + 1) * m == j * m + m) by (nonlinear_arith);
    lemma_div_mul_bounds(k as int, m);
    let d = (k / m) as int;
    assert((j + 1) * m <= d * m) by (nonlinear_arith)
        requires
            j + 1 <= d,
            m >= 1,
    ;
    assert(j * m >= 0) by (nonlinear_arith)
        requires
            j >= 0,
    ;
}

} // verus!
