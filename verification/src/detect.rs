use vstd::prelude::*;

verus! {

/// Abstract state of a deadlock detector: the classic Banker's matrices
/// over one class of resources, plus the registered capacity of each
/// resource. `alloc[t][r]` are units of `r` held by thread `t`, `need[t][r]`
/// its outstanding requests, `avail[r]` the unheld units; `cap[r]` is the
/// amount `r` was registered with and never changes afterwards.
#[verifier::ext_equal]
pub ghost struct DetectView {
    pub avail: Seq<u32>,
    pub alloc: Seq<Seq<u32>>,
    pub need: Seq<Seq<u32>>,
    pub cap: Seq<int>,
}

/// Every row of `m` has exactly `cols` entries.
pub open spec fn rect(m: Seq<Seq<u32>>, cols: nat) -> bool {
    forall|i: int| 0 <= i < m.len() ==> #[trigger] m[i].len() == cols
}

/// The sum of column `j` over all rows of `m`.
pub open spec fn col_sum(m: Seq<Seq<u32>>, j: int) -> int
    decreases m.len(),
{
    if m.len() == 0 {
        0
    } else {
        col_sum(m.drop_last(), j) + m.last()[j]
    }
}

impl DetectView {
    pub open spec fn threads(self) -> nat {
        self.alloc.len()
    }

    pub open spec fn resources(self) -> nat {
        self.avail.len()
    }

    /// Well-formedness: the matrices are rectangular with one row per
    /// thread and one column per resource, and for every resource the
    /// unheld units plus the held units add up to the registered
    /// capacity, which fits in a machine word.
    pub open spec fn wf(self) -> bool {
        &&& self.alloc.len() == self.need.len()
        &&& rect(self.alloc, self.resources())
        &&& rect(self.need, self.resources())
        &&& self.cap.len() == self.resources()
        &&& forall|r: int|
            0 <= r < self.resources() ==> self.avail[r] + #[trigger] col_sum(self.alloc, r)
                == self.cap[r]
        &&& forall|r: int| 0 <= r < self.resources() ==> #[trigger] self.cap[r] <= u32::MAX
    }
}

/// Held units never exceed capacity: in any well-formed detector state —
/// and every detector operation preserves well-formedness — the units of
/// resource `r` held across all threads sum to at most its registered
/// capacity.
pub proof fn lemma_allocation_bounded(v: DetectView, r: int)
    requires
        v.wf(),
        0 <= r < v.resources(),
    ensures
        col_sum(v.alloc, r) <= v.cap[r],
{
}

/// A row of zeroes, as appended for a freshly registered thread.
pub open spec fn zero_row(cols: nat) -> Seq<u32> {
    Seq::new(cols, |j: int| 0u32)
}

/// `m` with a zero appended to every row, as for a freshly registered
/// resource.
pub open spec fn grow_rows(m: Seq<Seq<u32>>) -> Seq<Seq<u32>> {
    Seq::new(m.len(), |i: int| m[i].push(0u32))
}

/// `m` with the single cell `(i, j)` replaced by `x`.
pub open spec fn cell_update(m: Seq<Seq<u32>>, i: int, j: int, x: u32) -> Seq<Seq<u32>> {
    m.update(i, m[i].update(j, x))
}

proof fn lemma_col_sum_push(m: Seq<Seq<u32>>, row: Seq<u32>, j: int)
    ensures
        col_sum(m.push(row), j) == col_sum(m, j) + row[j],
{
    assert(m.push(row).drop_last() =~= m);
    assert(m.push(row).last() =~= row);
}

proof fn lemma_col_sum_grow(m: Seq<Seq<u32>>, cols: nat, j: int)
    requires
        rect(m, cols),
    ensures
        0 <= j < cols ==> col_sum(grow_rows(m), j) == col_sum(m, j),
        j == cols ==> col_sum(grow_rows(m), j) == 0,
    decreases m.len(),
{
    if m.len() > 0 {
        lemma_col_sum_grow(m.drop_last(), cols, j);
        assert(grow_rows(m).drop_last() =~= grow_rows(m.drop_last()));
        assert(grow_rows(m).last() =~= m.last().push(0u32));
    }
}

proof fn lemma_col_sum_update(m: Seq<Seq<u32>>, i: int, j: int, x: u32, jj: int)
    requires
        0 <= i < m.len(),
        0 <= j < m[i].len(),
        0 <= jj < m[i].len(),
    ensures
        jj == j ==> col_sum(cell_update(m, i, j, x), jj) == col_sum(m, jj) + x - m[i][j],
        jj != j ==> col_sum(cell_update(m, i, j, x), jj) == col_sum(m, jj),
    decreases m.len(),
{
    let m2 = cell_update(m, i, j, x);
    if i == m.len() - 1 {
        assert(m2.drop_last() =~= m.drop_last());
        assert(m2.last() =~= m[i].update(j, x));
        assert(m.last() =~= m[i]);
    } else {
        lemma_col_sum_update(m.drop_last(), i, j, x, jj);
        assert(m2.drop_last() =~= cell_update(m.drop_last(), i, j, x));
        assert(m2.last() =~= m.last());
    }
}

/// A single cell is at most its column's sum (all cells are unsigned).
proof fn lemma_cell_le_col_sum(m: Seq<Seq<u32>>, i: int, j: int)
    requires
        0 <= i < m.len(),
    ensures
        m[i][j] <= col_sum(m, j),
        0 <= col_sum(m, j),
    decreases m.len(),
{
    lemma_col_sum_nonneg(m, j);
    if i == m.len() - 1 {
        lemma_col_sum_nonneg(m.drop_last(), j);
    } else {
        lemma_cell_le_col_sum(m.drop_last(), i, j);
    }
}

proof fn lemma_col_sum_nonneg(m: Seq<Seq<u32>>, j: int)
    ensures
        0 <= col_sum(m, j),
    decreases m.len(),
{
    if m.len() > 0 {
        lemma_col_sum_nonneg(m.drop_last(), j);
    }
}

pub open spec fn all_finished(finish: Seq<bool>) -> bool {
    forall|t: int| 0 <= t < finish.len() ==> finish[t]
}

/// Componentwise comparison of a demand row against the work vector.
pub open spec fn row_le(row: Seq<u32>, work: Seq<int>) -> bool {
    row.len() == work.len() && forall|j: int| 0 <= j < row.len() ==> row[j] <= work[j]
}

/// The work vector after a finishing thread returns its held units.
pub open spec fn add_row(work: Seq<int>, row: Seq<u32>) -> Seq<int> {
    Seq::new(work.len(), |j: int| work[j] + row[j])
}

pub open spec fn count_false(finish: Seq<bool>) -> nat
    decreases finish.len(),
{
    if finish.len() == 0 {
        0
    } else {
        count_false(finish.drop_last()) + if finish.last() {
            0nat
        } else {
            1nat
        }
    }
}

pub proof fn lemma_count_false_update(finish: Seq<bool>, t: int)
    requires
        0 <= t < finish.len(),
        !finish[t],
    ensures
        count_false(finish.update(t, true)) < count_false(finish),
    decreases finish.len(),
{
    let f2 = finish.update(t, true);
    if t == finish.len() - 1 {
        assert(f2.drop_last() =~= finish.drop_last());
    } else {
        lemma_count_false_update(finish.drop_last(), t);
        assert(f2.drop_last() =~= finish.drop_last().update(t, true));
        assert(f2.last() == finish.last());
    }
}

pub proof fn lemma_count_false_update_all(finish: Seq<bool>)
    ensures
        forall|t: int|
            0 <= t < finish.len() && !finish[t] ==> count_false(#[trigger] finish.update(t, true))
                < count_false(finish),
{
    assert forall|t: int|
        0 <= t < finish.len() && !finish[t] implies count_false(
        #[trigger] finish.update(t, true),
    ) < count_false(finish) by {
        lemma_count_false_update(finish, t);
    }
}

/// The safety relation of the Banker's algorithm: from the given work
/// vector, with `finish` marking the threads already able to complete,
/// some ordering of the remaining threads lets each collect its whole
/// outstanding need from the work vector and then return everything it
/// holds.
pub open spec fn can_finish(
    need: Seq<Seq<u32>>,
    alloc: Seq<Seq<u32>>,
    work: Seq<int>,
    finish: Seq<bool>,
) -> bool
    decreases count_false(finish),
{
    if all_finished(finish) {
        true
    } else {
        proof {
            lemma_count_false_update_all(finish);
        }
        exists|t: int|
            0 <= t < finish.len() && !finish[t] && #[trigger] row_le(need[t], work) && can_finish(
                need,
                alloc,
                add_row(work, alloc[t]),
                finish.update(t, true),
            )
    }
}

pub open spec fn ints_of(v: Seq<u32>) -> Seq<int> {
    Seq::new(v.len(), |j: int| v[j] as int)
}

pub open spec fn falses(n: nat) -> Seq<bool> {
    Seq::new(n, |t: int| false)
}

/// A detector state is safe when some completion order exists for all
/// threads starting from the currently available units.
pub open spec fn safe_state(v: DetectView) -> bool {
    can_finish(v.need, v.alloc, ints_of(v.avail), falses(v.threads()))
}

pub open spec fn work_le(w1: Seq<int>, w2: Seq<int>) -> bool {
    w1.len() == w2.len() && forall|j: int| 0 <= j < w1.len() ==> w1[j] <= w2[j]
}

/// Monotonicity of the safety relation in the work vector: more available
/// units can only help.
proof fn lemma_can_finish_monotone(
    need: Seq<Seq<u32>>,
    alloc: Seq<Seq<u32>>,
    w1: Seq<int>,
    w2: Seq<int>,
    finish: Seq<bool>,
)
    requires
        work_le(w1, w2),
        can_finish(need, alloc, w1, finish),
    ensures
        can_finish(need, alloc, w2, finish),
    decreases count_false(finish),
{
    if !all_finished(finish) {
        let t = choose|t: int|
            0 <= t < finish.len() && !finish[t] && #[trigger] row_le(need[t], w1) && can_finish(
                need,
                alloc,
                add_row(w1, alloc[t]),
                finish.update(t, true),
            );
        lemma_count_false_update(finish, t);
        lemma_can_finish_monotone(
            need,
            alloc,
            add_row(w1, alloc[t]),
            add_row(w2, alloc[t]),
            finish.update(t, true),
        );
        assert(row_le(need[t], w2));
    }
}

/// Banker's safety is monotone in `available`: a state safe with some
/// available vector stays safe with any componentwise larger one.
pub proof fn lemma_safe_monotone(v1: DetectView, v2: DetectView)
    requires
        v1.need == v2.need,
        v1.alloc == v2.alloc,
        v1.avail.len() == v2.avail.len(),
        forall|r: int| 0 <= r < v1.avail.len() ==> v1.avail[r] <= v2.avail[r],
        safe_state(v1),
    ensures
        safe_state(v2),
{
    assert(work_le(ints_of(v1.avail), ints_of(v2.avail)));
    lemma_can_finish_monotone(
        v1.need,
        v1.alloc,
        ints_of(v1.avail),
        ints_of(v2.avail),
        falses(v1.threads()),
    );
}

/// The exchange property behind the greedy Banker's search: finishing any
/// currently eligible thread first never destroys safety.
proof fn lemma_can_finish_exchange(
    need: Seq<Seq<u32>>,
    alloc: Seq<Seq<u32>>,
    work: Seq<int>,
    finish: Seq<bool>,
    t: int,
)
    requires
        rect(alloc, work.len()),
        alloc.len() == finish.len(),
        0 <= t < finish.len(),
        !finish[t],
        row_le(need[t], work),
        can_finish(need, alloc, work, finish),
    ensures
        can_finish(need, alloc, add_row(work, alloc[t]), finish.update(t, true)),
    decreases count_false(finish),
{
    let s = choose|s: int|
        0 <= s < finish.len() && !finish[s] && #[trigger] row_le(need[s], work) && can_finish(
            need,
            alloc,
            add_row(work, alloc[s]),
            finish.update(s, true),
        );
    if s == t {
    } else {
        lemma_count_false_update(finish, s);
        assert(row_le(need[t], add_row(work, alloc[s])));
        lemma_can_finish_exchange(
            need,
            alloc,
            add_row(work, alloc[s]),
            finish.update(s, true),
            t,
        );
        assert(add_row(add_row(work, alloc[s]), alloc[t]) =~= add_row(
            add_row(work, alloc[t]),
            alloc[s],
        ));
        assert(finish.update(s, true).update(t, true) =~= finish.update(t, true).update(s, true));
        assert(row_le(need[s], add_row(work, alloc[t])));
        assert(can_finish(
            need,
            alloc,
            add_row(add_row(work, alloc[t]), alloc[s]),
            finish.update(t, true).update(s, true),
        ));
        lemma_count_false_update(finish, t);
        assert(!finish.update(t, true)[s]);
        assert(can_finish(need, alloc, add_row(work, alloc[t]), finish.update(t, true)));
    }
}

/// The part of column `j` already returned to the work vector: the sum
/// over the rows whose thread is marked finished.
pub open spec fn masked_col_sum(m: Seq<Seq<u32>>, fin: Seq<bool>, j: int) -> int
    decreases m.len(),
{
    if m.len() == 0 {
        0
    } else {
        masked_col_sum(m.drop_last(), fin.drop_last(), j) + if fin.len() == m.len()
            && fin.last() {
            m.last()[j] as int
        } else {
            0
        }
    }
}

proof fn lemma_masked_le_total(m: Seq<Seq<u32>>, fin: Seq<bool>, j: int)
    requires
        fin.len() == m.len(),
    ensures
        0 <= masked_col_sum(m, fin, j) <= col_sum(m, j),
    decreases m.len(),
{
    if m.len() > 0 {
        lemma_masked_le_total(m.drop_last(), fin.drop_last(), j);
    }
}

proof fn lemma_masked_all_false(m: Seq<Seq<u32>>, j: int)
    ensures
        masked_col_sum(m, falses(m.len()), j) == 0,
    decreases m.len(),
{
    if m.len() > 0 {
        assert(falses(m.len()).drop_last() =~= falses((m.len() - 1) as nat));
        lemma_masked_all_false(m.drop_last(), j);
    }
}

proof fn lemma_masked_update(m: Seq<Seq<u32>>, fin: Seq<bool>, t: int, j: int)
    requires
        fin.len() == m.len(),
        0 <= t < fin.len(),
        !fin[t],
    ensures
        masked_col_sum(m, fin.update(t, true), j) == masked_col_sum(m, fin, j) + m[t][j],
    decreases m.len(),
{
    let f2 = fin.update(t, true);
    if t == m.len() - 1 {
        assert(f2.drop_last() =~= fin.drop_last());
        assert(m.last() =~= m[t]);
    } else {
        lemma_masked_update(m.drop_last(), fin.drop_last(), t, j);
        assert(f2.drop_last() =~= fin.drop_last().update(t, true));
        assert(f2.last() == fin.last());
        assert(m.drop_last()[t] =~= m[t]);
    }
}

fn copy_u32_vec(src: &Vec<u32>) -> (v: Vec<u32>)
    ensures
        v@ == src@,
{
    let n = src.len();
    let mut v: Vec<u32> = Vec::new();
    let mut i: usize = 0;
    while i < n
        invariant
            i <= n,
            n == src@.len(),
            v@ =~= src@.take(i as int),
        decreases n - i,
    {
        v.push(src[i]);
        i = i + 1;
    }
    proof {
        assert(v@ =~= src@);
    }
    v
}

fn false_vec(n: usize) -> (v: Vec<bool>)
    ensures
        v@ == falses(n as nat),
{
    let mut v: Vec<bool> = Vec::new();
    let mut i: usize = 0;
    while i < n
        invariant
            i <= n,
            v@.len() == i,
            forall|k: int| 0 <= k < i ==> v@[k] == false,
        decreases n - i,
    {
        v.push(false);
        i = i + 1;
    }
    proof {
        assert(v@ =~= falses(n as nat));
    }
    v
}

fn row_fits(row: &Vec<u32>, work: &Vec<u32>) -> (b: bool)
    requires
        row@.len() == work@.len(),
    ensures
        b == row_le(row@, ints_of(work@)),
{
    let n = row.len();
    let mut j: usize = 0;
    while j < n
        invariant
            j <= n,
            n == row@.len(),
            row@.len() == work@.len(),
            forall|k: int| 0 <= k < j ==> row@[k] <= work@[k],
        decreases n - j,
    {
        if row[j] > work[j] {
            return false;
        }
        j = j + 1;
    }
    true
}

fn all_true(finish: &Vec<bool>) -> (b: bool)
    ensures
        b == all_finished(finish@),
{
    let n = finish.len();
    let mut t: usize = 0;
    while t < n
        invariant
            t <= n,
            n == finish@.len(),
            forall|k: int| 0 <= k < t ==> finish@[k],
        decreases n - t,
    {
        if !finish[t] {
            return false;
        }
        t = t + 1;
    }
    true
}

/// Scan for an unfinished thread whose whole outstanding need fits in the
/// work vector.
fn find_eligible(need: &Vec<Vec<u32>>, work: &Vec<u32>, finish: &Vec<bool>) -> (r: Option<usize>)
    requires
        rect(mat_view(*need), work@.len() as nat),
        finish@.len() == need@.len(),
    ensures
        match r {
            Some(t) => t < finish@.len() && !finish@[t as int] && row_le(
                mat_view(*need)[t as int],
                ints_of(work@),
            ),
            None => forall|t: int|
                0 <= t < finish@.len() && !finish@[t] ==> !row_le(
                    mat_view(*need)[t],
                    ints_of(work@),
                ),
        },
{
    let n = need.len();
    let mut t: usize = 0;
    while t < n
        invariant
            t <= n,
            n == need@.len(),
            finish@.len() == need@.len(),
            rect(mat_view(*need), work@.len() as nat),
            forall|k: int|
                0 <= k < t && !finish@[k] ==> !row_le(mat_view(*need)[k], ints_of(work@)),
        decreases n - t,
    {
        if !finish[t] {
            proof {
                assert(mat_view(*need)[t as int].len() == work@.len());
            }
            if row_fits(&need[t], work) {
                return Some(t);
            }
        }
        t = t + 1;
    }
    None
}

/// Add a finishing thread's held units back into the work vector.
fn add_row_exec(work: &mut Vec<u32>, row: &Vec<u32>)
    requires
        old(work)@.len() == row@.len(),
        forall|j: int| 0 <= j < row@.len() ==> old(work)@[j] + row@[j] <= u32::MAX,
    ensures
        final(work)@.len() == old(work)@.len(),
        ints_of(final(work)@) == add_row(ints_of(old(work)@), row@),
{
    let n = work.len();
    let mut j: usize = 0;
    while j < n
        invariant
            j <= n,
            n == work@.len(),
            work@.len() == old(work)@.len(),
            row@.len() == n,
            forall|k: int| 0 <= k < j ==> work@[k] == old(work)@[k] + row@[k],
            forall|k: int| j <= k < n ==> work@[k] == old(work)@[k],
            forall|k: int| 0 <= k < n ==> old(work)@[k] + row@[k] <= u32::MAX,
        decreases n - j,
    {
        let w = work[j];
        let a = row[j];
        work[j] = w + a;
        j = j + 1;
    }
    proof {
        assert(ints_of(work@) =~= add_row(ints_of(old(work)@), row@));
    }
}

/// The matrix a vector of rows stands for.
pub open spec fn mat_view(m: Vec<Vec<u32>>) -> Seq<Seq<u32>> {
    Seq::new(m@.len(), |i: int| m@[i]@)
}

/// Per-class deadlock detector: Banker's matrices over dense thread ids
/// and dense resource ids, with a ghost record of each resource's
/// registered capacity.
pub struct DeadlockDetect {
    available: Vec<u32>,
    allocation: Vec<Vec<u32>>,
    need: Vec<Vec<u32>>,
    capacity: Ghost<Seq<int>>,
}

impl View for DeadlockDetect {
    type V = DetectView;

    closed spec fn view(&self) -> DetectView {
        DetectView {
            avail: self.available@,
            alloc: mat_view(self.allocation),
            need: mat_view(self.need),
            cap: self.capacity@,
        }
    }
}

fn zero_vec(n: usize) -> (v: Vec<u32>)
    ensures
        v@ == zero_row(n as nat),
{
    let mut v: Vec<u32> = Vec::new();
    let mut i: usize = 0;
    while i < n
        invariant
            i <= n,
            v@.len() == i,
            forall|k: int| 0 <= k < i ==> v@[k] == 0u32,
        decreases n - i,
    {
        v.push(0);
        i = i + 1;
    }
    proof {
        assert(v@ =~= zero_row(n as nat));
    }
    v
}

/// Append a zero to every row, as when a new resource is registered.
fn grow_matrix(m: &mut Vec<Vec<u32>>)
    ensures
        mat_view(*final(m)) == grow_rows(mat_view(*old(m))),
{
    let len = m.len();
    let mut i: usize = 0;
    while i < len
        invariant
            m@.len() == old(m)@.len(),
            len == m@.len(),
            forall|k: int| 0 <= k < i ==> m@[k]@ == old(m)@[k]@.push(0u32),
            forall|k: int| i <= k < len ==> m@[k] == old(m)@[k],
        decreases len - i,
    {
        let row = &mut m[i];
        row.push(0);
        i = i + 1;
    }
    proof {
        assert(mat_view(*m) =~= grow_rows(mat_view(*old(m))));
    }
}

impl DeadlockDetect {
    /// A detector with no threads and no resources registered yet.
    pub fn new() -> (d: DeadlockDetect)
        ensures
            d@ == (DetectView {
                avail: Seq::<u32>::empty(),
                alloc: Seq::<Seq<u32>>::empty(),
                need: Seq::<Seq<u32>>::empty(),
                cap: Seq::<int>::empty(),
            }),
            d@.wf(),
    {
        let d = DeadlockDetect {
            available: Vec::new(),
            allocation: Vec::new(),
            need: Vec::new(),
            capacity: Ghost(Seq::empty()),
        };
        proof {
            assert(mat_view(d.allocation) =~= Seq::<Seq<u32>>::empty());
            assert(mat_view(d.need) =~= Seq::<Seq<u32>>::empty());
        }
        d
    }

    pub fn threads_len(&self) -> (n: usize)
        ensures
            n == self@.threads(),
    {
        self.allocation.len()
    }

    pub fn resources_len(&self) -> (n: usize)
        ensures
            n == self@.resources(),
    {
        self.available.len()
    }

    /// Register a newly spawned thread. Thread ids are dense and arrive in
    /// creation order, so `tid` must equal the current thread count; the
    /// thread starts holding and needing nothing.
    pub fn push_thread_id(&mut self, tid: usize)
        requires
            old(self)@.wf(),
            tid == old(self)@.threads(),
        ensures
            final(self)@.wf(),
            final(self)@ == thread_added(old(self)@),
    {
        let cols = self.available.len();
        let zs = zero_vec(cols);
        self.allocation.push(zs);
        let zs2 = zero_vec(cols);
        self.need.push(zs2);
        proof {
            let pre = old(self)@;
            assert(mat_view(self.allocation) =~= pre.alloc.push(zero_row(pre.resources())));
            assert(mat_view(self.need) =~= pre.need.push(zero_row(pre.resources())));
            assert forall|r: int| 0 <= r < self@.resources() implies self@.avail[r]
                + #[trigger] col_sum(self@.alloc, r) == self@.cap[r] by {
                lemma_col_sum_push(pre.alloc, zero_row(pre.resources()), r);
            }
        }
    }

    /// Register a newly created resource with its capacity. Resource ids
    /// are dense, so `rid` must equal the current resource count; every
    /// thread starts with zero units of it held and needed.
    pub fn push_resource_id(&mut self, rid: usize, amount: u32)
        requires
            old(self)@.wf(),
            rid == old(self)@.resources(),
        ensures
            final(self)@.wf(),
            final(self)@ == resource_added(old(self)@, amount),
    {
        self.available.push(amount);
        self.capacity = Ghost(self.capacity@.push(amount as int));
        grow_matrix(&mut self.allocation);
        grow_matrix(&mut self.need);
        proof {
            let pre = old(self)@;
            assert forall|r: int| 0 <= r < self@.resources() implies self@.avail[r]
                + #[trigger] col_sum(self@.alloc, r) == self@.cap[r] by {
                lemma_col_sum_grow(pre.alloc, pre.resources(), r);
            }
        }
    }

    /// Record one more outstanding request by `tid` for `rid`. The
    /// increment stays on the books even if a later allocation attempt is
    /// refused.
    pub fn request_one(&mut self, tid: usize, rid: usize)
        requires
            old(self)@.wf(),
            tid < old(self)@.threads(),
            rid < old(self)@.resources(),
            old(self)@.need[tid as int][rid as int] < u32::MAX,
        ensures
            final(self)@.wf(),
            final(self)@ == request_spec(old(self)@, tid as int, rid as int),
    {
        let row = &mut self.need[tid];
        let cur = row[rid];
        row[rid] = cur + 1;
        proof {
            let pre = old(self)@;
            assert(mat_view(self.need) =~= cell_update(
                pre.need,
                tid as int,
                rid as int,
                (pre.need[tid as int][rid as int] + 1) as u32,
            ));
        }
    }

    /// Return one unit held by `tid` back to the available pool. Without a
    /// matching prior allocation the call changes nothing: the
    /// inconsistency is only worth a diagnostic, never a state change.
    pub fn deallocate_one(&mut self, tid: usize, rid: usize)
        requires
            old(self)@.wf(),
            tid < old(self)@.threads(),
            rid < old(self)@.resources(),
        ensures
            final(self)@.wf(),
            final(self)@ == release_spec(old(self)@, tid as int, rid as int),
    {
        proof {
            assert(mat_view(self.allocation)[tid as int].len() == old(self)@.resources());
        }
        let held = self.allocation[tid][rid];
        if held > 0 {
            proof {
                lemma_cell_le_col_sum(old(self)@.alloc, tid as int, rid as int);
            }
            let row = &mut self.allocation[tid];
            row[rid] = held - 1;
            let avail_cur = self.available[rid];
            self.available[rid] = avail_cur + 1;
            proof {
                let pre = old(self)@;
                assert(mat_view(self.allocation) =~= cell_update(
                    pre.alloc,
                    tid as int,
                    rid as int,
                    (pre.alloc[tid as int][rid as int] - 1) as u32,
                ));
                assert forall|r: int| 0 <= r < self@.resources() implies self@.avail[r]
                    + #[trigger] col_sum(self@.alloc, r) == self@.cap[r] by {
                    lemma_col_sum_update(
                        pre.alloc,
                        tid as int,
                        rid as int,
                        (pre.alloc[tid as int][rid as int] - 1) as u32,
                        r,
                    );
                }
            }
        }
    }

    /// The Banker's safety check: true exactly when, from the current
    /// available units, some ordering of all threads lets each one collect
    /// its whole outstanding need and then return everything it holds.
    /// The detector state itself is not changed.
    pub fn is_safe(&mut self) -> (safe: bool)
        requires
            old(self)@.wf(),
        ensures
            final(self)@ == old(self)@,
            safe == safe_state(old(self)@),
    {
        let rn = self.available.len();
        let tn = self.allocation.len();
        let mut work = copy_u32_vec(&self.available);
        let mut finish = false_vec(tn);
        let ghost nd = self@.need;
        let ghost al = self@.alloc;
        let ghost av = self@.avail;
        proof {
            assert forall|j: int| 0 <= j < rn implies work@[j] == av[j] + masked_col_sum(
                al,
                finish@,
                j,
            ) by {
                lemma_masked_all_false(al, j);
            }
        }
        loop
            invariant
                self@ == old(self)@,
                old(self)@.wf(),
                finish@.len() == tn,
                work@.len() == rn,
                nd == self@.need,
                al == self@.alloc,
                av == self@.avail,
                av.len() == rn,
                nd.len() == tn,
                al.len() == tn,
                tn == self@.threads(),
                rect(nd, rn as nat),
                rect(al, rn as nat),
                forall|j: int| 0 <= j < rn ==> av[j] + #[trigger] col_sum(al, j) <= u32::MAX,
                forall|j: int|
                    0 <= j < rn ==> work@[j] == av[j] + masked_col_sum(al, finish@, j),
                can_finish(nd, al, ints_of(work@), finish@) == can_finish(
                    nd,
                    al,
                    ints_of(av),
                    falses(tn as nat),
                ),
            decreases count_false(finish@),
        {
            match find_eligible(&self.need, &work, &finish) {
                None => {
                    let all = all_true(&finish);
                    proof {
                        if !all {
                            assert(!can_finish(nd, al, ints_of(work@), finish@));
                        }
                    }
                    return all;
                },
                Some(t) => {
                    let ghost w0 = work@;
                    let ghost f0 = finish@;
                    proof {
                        assert forall|j: int| 0 <= j < rn implies work@[j] + al[t as int][j]
                            <= u32::MAX by {
                            lemma_masked_update(al, f0, t as int, j);
                            lemma_masked_le_total(al, f0.update(t as int, true), j);
                        }
                        assert(al[t as int].len() == rn);
                        assert(mat_view(self.allocation)[t as int] == self.allocation@[t as int]@);
                    }
                    add_row_exec(&mut work, &self.allocation[t]);
                    finish[t] = true;
                    proof {
                        lemma_count_false_update(f0, t as int);
                        assert(finish@ == f0.update(t as int, true));
                        assert forall|j: int| 0 <= j < rn implies work@[j] == av[j]
                            + masked_col_sum(al, finish@, j) by {
                            lemma_masked_update(al, f0, t as int, j);
                            assert(ints_of(work@)[j] == add_row(ints_of(w0), al[t as int])[j]);
                        }
                        assert(add_row(ints_of(w0), al[t as int]) =~= ints_of(work@));
                        if can_finish(nd, al, ints_of(w0), f0) {
                            lemma_can_finish_exchange(nd, al, ints_of(w0), f0, t as int);
                            assert(can_finish(nd, al, ints_of(work@), finish@));
                        }
                        if can_finish(nd, al, ints_of(work@), finish@) {
                            assert(!all_finished(f0));
                            assert(0 <= t < f0.len() && !f0[t as int] && row_le(
                                nd[t as int],
                                ints_of(w0),
                            ) && can_finish(
                                nd,
                                al,
                                add_row(ints_of(w0), al[t as int]),
                                f0.update(t as int, true),
                            ));
                            assert(can_finish(nd, al, ints_of(w0), f0));
                        }
                    }
                },
            }
        }
    }

    /// Attempt to grant one unit of `rid` to `tid`. With no outstanding
    /// need the call is a no-op that reports success. Otherwise, when a
    /// unit is available, the unit is tentatively reserved (need down,
    /// available down, allocation up) and the Banker's safety check runs
    /// on the reserved state: an unsafe outcome rolls the reservation
    /// back and the call reports failure, as it also does when no unit is
    /// available at all.
    pub fn try_allocate(&mut self, tid: usize, rid: usize) -> (granted: bool)
        requires
            old(self)@.wf(),
            tid < old(self)@.threads(),
            rid < old(self)@.resources(),
        ensures
            final(self)@.wf(),
            granted == grant_ok(old(self)@, tid as int, rid as int),
            final(self)@ == grant_after(old(self)@, tid as int, rid as int),
    {
        proof {
            assert(mat_view(self.need)[tid as int].len() == old(self)@.resources());
            assert(mat_view(self.allocation)[tid as int].len() == old(self)@.resources());
        }
        let needed = self.need[tid][rid];
        if needed == 0 {
            return true;
        }
        let avail_cur = self.available[rid];
        if avail_cur == 0 {
            return false;
        }
        proof {
            lemma_cell_le_col_sum(old(self)@.alloc, tid as int, rid as int);
        }
        let held = self.allocation[tid][rid];
        let row_n = &mut self.need[tid];
        row_n[rid] = needed - 1;
        let row_a = &mut self.allocation[tid];
        row_a[rid] = held + 1;
        self.available[rid] = avail_cur - 1;
        proof {
            let pre = old(self)@;
            let reserved = reserve_spec(pre, tid as int, rid as int);
            assert(mat_view(self.need) =~= reserved.need);
            assert(mat_view(self.allocation) =~= reserved.alloc);
            assert(self.available@ =~= reserved.avail);
            assert forall|r: int| 0 <= r < self@.resources() implies self@.avail[r]
                + #[trigger] col_sum(self@.alloc, r) == self@.cap[r] by {
                lemma_col_sum_update(pre.alloc, tid as int, rid as int, (held + 1) as u32, r);
            }
        }
        let safe = self.is_safe();
        if safe {
            true
        } else {
            proof {
                let pre = old(self)@;
                let reserved = reserve_spec(pre, tid as int, rid as int);
                assert(self@ == reserved);
                assert(reserved.need[tid as int].len() == pre.resources());
                assert(reserved.alloc[tid as int].len() == pre.resources());
                assert(mat_view(self.need)[tid as int] == self.need@[tid as int]@);
                assert(mat_view(self.allocation)[tid as int] == self.allocation@[tid as int]@);
            }
            let ghost need_mid = self.need@;
            let ghost alloc_mid = self.allocation@;
            let ghost mv_need_mid = mat_view(self.need);
            let ghost mv_alloc_mid = mat_view(self.allocation);
            let row_n2 = &mut self.need[tid];
            row_n2[rid] = needed;
            let row_a2 = &mut self.allocation[tid];
            row_a2[rid] = held;
            self.available[rid] = avail_cur;
            proof {
                let pre = old(self)@;
                assert(mat_view(self.need).len() == pre.need.len());
                assert(mat_view(self.need)[tid as int] == need_mid[tid as int]@.update(
                    rid as int,
                    needed,
                ));
                assert(need_mid[tid as int]@ == mv_need_mid[tid as int]);
                assert(mat_view(self.need)[tid as int] =~= pre.need[tid as int]);
                assert forall|i: int|
                    0 <= i < pre.need.len() && i != tid implies mat_view(self.need)[i]
                    == pre.need[i] by {
                    assert(self.need@[i] == need_mid[i]);
                    assert(mv_need_mid[i] == need_mid[i]@);
                }
                assert(mat_view(self.need) =~~= pre.need);
                assert(mat_view(self.allocation)[tid as int] == alloc_mid[tid as int]@.update(
                    rid as int,
                    held,
                ));
                assert(alloc_mid[tid as int]@ == mv_alloc_mid[tid as int]);
                assert(mat_view(self.allocation)[tid as int] =~= pre.alloc[tid as int]);
                assert forall|i: int|
                    0 <= i < pre.alloc.len() && i != tid implies mat_view(self.allocation)[i]
                    == pre.alloc[i] by {
                    assert(self.allocation@[i] == alloc_mid[i]);
                    assert(mv_alloc_mid[i] == alloc_mid[i]@);
                }
                assert(mat_view(self.allocation) =~~= pre.alloc);
                assert(self.available@ =~= pre.avail);
                assert(self@ =~~= pre);
            }
            false
        }
    }
}

/// The detector state after `request_one`: one more outstanding request.
pub open spec fn request_spec(d: DetectView, tid: int, rid: int) -> DetectView {
    DetectView {
        need: cell_update(d.need, tid, rid, (d.need[tid][rid] + 1) as u32),
        ..d
    }
}

/// Whether `try_allocate` grants after the request was recorded.
pub open spec fn grant_ok(d1: DetectView, tid: int, rid: int) -> bool {
    if d1.need[tid][rid] == 0 {
        true
    } else if d1.avail[rid] == 0 {
        false
    } else {
        safe_state(reserve_spec(d1, tid, rid))
    }
}

/// The detector state `try_allocate` leaves behind: the reservation is
/// kept only when a unit was free and the reserved state is safe.
pub open spec fn grant_after(d1: DetectView, tid: int, rid: int) -> DetectView {
    if d1.need[tid][rid] == 0 {
        d1
    } else if d1.avail[rid] == 0 {
        d1
    } else if safe_state(reserve_spec(d1, tid, rid)) {
        reserve_spec(d1, tid, rid)
    } else {
        d1
    }
}

/// The detector state after `deallocate_one`: one held unit back to the
/// pool, or nothing when none was held.
pub open spec fn release_spec(d: DetectView, tid: int, rid: int) -> DetectView {
    if d.alloc[tid][rid] > 0 {
        DetectView {
            alloc: cell_update(d.alloc, tid, rid, (d.alloc[tid][rid] - 1) as u32),
            avail: d.avail.update(rid, (d.avail[rid] + 1) as u32),
            ..d
        }
    } else {
        d
    }
}

/// The state after tentatively granting one unit of `rid` to `tid`.
pub open spec fn reserve_spec(v: DetectView, tid: int, rid: int) -> DetectView {
    DetectView {
        avail: v.avail.update(rid, (v.avail[rid] - 1) as u32),
        alloc: cell_update(v.alloc, tid, rid, (v.alloc[tid][rid] + 1) as u32),
        need: cell_update(v.need, tid, rid, (v.need[tid][rid] - 1) as u32),
        cap: v.cap,
    }
}

/// The detector state after `push_thread_id`: two fresh zero rows.
pub open spec fn thread_added(d: DetectView) -> DetectView {
    DetectView {
        alloc: d.alloc.push(zero_row(d.resources())),
        need: d.need.push(zero_row(d.resources())),
        ..d
    }
}

/// The detector state after `push_resource_id`: a fresh zero column and
/// `amount` available units of the new resource.
pub open spec fn resource_added(d: DetectView, amount: u32) -> DetectView {
    DetectView {
        avail: d.avail.push(amount),
        alloc: grow_rows(d.alloc),
        need: grow_rows(d.need),
        cap: d.cap.push(amount as int),
    }
}

/// One detector operation, as a trajectory event: a thread registration,
/// a resource registration with its capacity, an acquisition (one
/// `request_one` followed by `try_allocate`, granted or not), or a
/// release (`deallocate_one`).
pub enum DetectEvent {
    AddThread,
    AddResource(u32),
    Acquire(usize, usize),
    Release(usize, usize),
}

/// The state transition of one event; an event whose ids are out of range
/// or whose request counter is saturated changes nothing.
pub open spec fn detect_step(d: DetectView, e: DetectEvent) -> DetectView {
    match e {
        DetectEvent::AddThread => thread_added(d),
        DetectEvent::AddResource(amount) => resource_added(d, amount),
        DetectEvent::Acquire(tid, rid) => if tid < d.threads() && rid < d.resources()
            && d.need[tid as int][rid as int] < u32::MAX {
            grant_after(request_spec(d, tid as int, rid as int), tid as int, rid as int)
        } else {
            d
        },
        DetectEvent::Release(tid, rid) => if tid < d.threads() && rid < d.resources() {
            release_spec(d, tid as int, rid as int)
        } else {
            d
        },
    }
}

pub open spec fn detect_init() -> DetectView {
    DetectView {
        avail: Seq::<u32>::empty(),
        alloc: Seq::<Seq<u32>>::empty(),
        need: Seq::<Seq<u32>>::empty(),
        cap: Seq::<int>::empty(),
    }
}

/// The detector state after a whole trajectory of operations, from a
/// fresh detector.
pub open spec fn detect_run(events: Seq<DetectEvent>) -> DetectView
    decreases events.len(),
{
    if events.len() == 0 {
        detect_init()
    } else {
        detect_step(detect_run(events.drop_last()), events.last())
    }
}

/// Every detector operation preserves well-formedness, capacities
/// included.
pub proof fn lemma_detect_step_wf(d: DetectView, e: DetectEvent)
    requires
        d.wf(),
    ensures
        detect_step(d, e).wf(),
{
    match e {
        DetectEvent::AddThread => {
            let d2 = thread_added(d);
            assert forall|r: int| 0 <= r < d2.resources() implies d2.avail[r] + #[trigger] col_sum(
                d2.alloc,
                r,
            ) == d2.cap[r] by {
                lemma_col_sum_push(d.alloc, zero_row(d.resources()), r);
            }
        },
        DetectEvent::AddResource(amount) => {
            let d2 = resource_added(d, amount);
            assert forall|r: int| 0 <= r < d2.resources() implies d2.avail[r] + #[trigger] col_sum(
                d2.alloc,
                r,
            ) == d2.cap[r] by {
                lemma_col_sum_grow(d.alloc, d.resources(), r);
            }
        },
        DetectEvent::Acquire(tid, rid) => {
            if tid < d.threads() && rid < d.resources() && d.need[tid as int][rid as int]
                < u32::MAX {
                let d1 = request_spec(d, tid as int, rid as int);
                assert(d1.wf());
                if d1.need[tid as int][rid as int] > 0 && d1.avail[rid as int] > 0 {
                    let d2 = reserve_spec(d1, tid as int, rid as int);
                    lemma_cell_le_col_sum(d1.alloc, tid as int, rid as int);
                    assert forall|r: int|
                        0 <= r < d2.resources() implies d2.avail[r] + #[trigger] col_sum(
                        d2.alloc,
                        r,
                    ) == d2.cap[r] by {
                        lemma_col_sum_update(
                            d1.alloc,
                            tid as int,
                            rid as int,
                            (d1.alloc[tid as int][rid as int] + 1) as u32,
                            r,
                        );
                    }
                    assert(d2.wf());
                }
            }
        },
        DetectEvent::Release(tid, rid) => {
            if tid < d.threads() && rid < d.resources() && d.alloc[tid as int][rid as int] > 0 {
                let d2 = release_spec(d, tid as int, rid as int);
                lemma_cell_le_col_sum(d.alloc, tid as int, rid as int);
                assert forall|r: int| 0 <= r < d2.resources() implies d2.avail[r]
                    + #[trigger] col_sum(d2.alloc, r) == d2.cap[r] by {
                    lemma_col_sum_update(
                        d.alloc,
                        tid as int,
                        rid as int,
                        (d.alloc[tid as int][rid as int] - 1) as u32,
                        r,
                    );
                }
            }
        },
    }
}

/// Held units never exceed capacity along any trajectory: after any
/// sequence of thread and resource registrations, requests, granted or
/// refused allocations and releases, the detector is well-formed and, for
/// every resource, the units held across all threads sum to at most the
/// capacity it was registered with.
pub proof fn lemma_detector_capacity(events: Seq<DetectEvent>)
    ensures
        detect_run(events).wf(),
        forall|r: int|
            0 <= r < detect_run(events).resources() ==> #[trigger] col_sum(
                detect_run(events).alloc,
                r,
            ) <= detect_run(events).cap[r],
    decreases events.len(),
{
    if events.len() > 0 {
        lemma_detector_capacity(events.drop_last());
        lemma_detect_step_wf(detect_run(events.drop_last()), events.last());
    }
    let v = detect_run(events);
    assert forall|r: int| 0 <= r < v.resources() implies #[trigger] col_sum(v.alloc, r)
        <= v.cap[r] by {
        lemma_allocation_bounded(v, r);
    }
}

} // verus!
