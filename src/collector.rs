//! Puts completed jobs back in job order: records that arrive before their
//! predecessors wait until every earlier job has been emitted.

use std::collections::BTreeMap;
use vstd::prelude::*;

verus! {

broadcast use {vstd::std_specs::btree::group_btree_axioms, vstd::laws_cmp::group_laws_cmp};

/// Emits, from `next` on, the run of consecutive jobs that `pending` holds:
/// the job after the run, the records of the run in order, and what stays
/// pending.
pub open spec fn drain<T>(next: usize, pending: Map<usize, T>) -> (usize, Seq<T>, Map<usize, T>)
    decreases pending.dom().len(),
{
    if pending.dom().finite() && pending.contains_key(next) && next < usize::MAX {
        let (n, out, rest) = drain((next + 1) as usize, pending.remove(next));
        (n, seq![pending[next]] + out, rest)
    } else {
        (next, Seq::empty(), pending)
    }
}

/// The collector after job `job` completed with `record`, and what it emits.
pub open spec fn collect<T>(next: usize, pending: Map<usize, T>, job: usize, record: T) -> (usize, Seq<T>, Map<usize, T>) {
    drain(next, pending.insert(job, record))
}

/// The ordered output collector: the next job number to emit, and the
/// records of later jobs that arrived early.
pub struct Collector<T> {
    next_to_emit: usize,
    pending: BTreeMap<usize, T>,
}

impl<T> Collector<T> {
    /// The next job number to emit.
    pub closed spec fn next(&self) -> usize {
        self.next_to_emit
    }

    /// The records waiting for earlier jobs, by job number.
    pub closed spec fn pending(&self) -> Map<usize, T> {
        self.pending@
    }

    /// Only a finite set of later jobs waits, and the next job is not among them.
    pub closed spec fn wf(&self) -> bool {
        &&& self.pending@.dom().finite()
        &&& forall|k: usize| #[trigger] self.pending@.contains_key(k) ==> self.next_to_emit < k < usize::MAX
    }

    /// A collector that waits for job 1.
    pub fn new() -> (r: Collector<T>)
        ensures
            r.wf(),
            r.next() == 1,
            r.pending() == Map::<usize, T>::empty(),
    {
        Collector { next_to_emit: 1, pending: BTreeMap::new() }
    }

    /// Takes the record of the completed job `job` and returns the records
    /// that can now be emitted, in job order.
    pub fn receive(&mut self, job: usize, record: T) -> (r: Vec<T>)
        requires
            old(self).wf(),
            old(self).next() <= job < usize::MAX,
            !old(self).pending().contains_key(job),
        ensures
            final(self).wf(),
            (final(self).next(), r@, final(self).pending()) == collect(
                old(self).next(),
                old(self).pending(),
                job,
                record,
            ),
    {
        let ghost goal = collect(self.next_to_emit, self.pending@, job, record);
        self.pending.insert(job, record);
        let mut out: Vec<T> = Vec::new();
        assert(Seq::<T>::empty() + goal.1 =~= goal.1);
        loop
            invariant
                self.pending@.dom().finite(),
                forall|k: usize| #[trigger] self.pending@.contains_key(k) ==> self.next_to_emit <= k < usize::MAX,
                drain(self.next_to_emit, self.pending@).0 == goal.0,
                out@ + drain(self.next_to_emit, self.pending@).1 == goal.1,
                drain(self.next_to_emit, self.pending@).2 == goal.2,
            ensures
                self.pending@.dom().finite(),
                forall|k: usize| #[trigger] self.pending@.contains_key(k) ==> self.next_to_emit < k < usize::MAX,
                self.next_to_emit == goal.0,
                out@ == goal.1,
                self.pending@ == goal.2,
            decreases self.pending@.dom().len(),
        {
            let at = self.next_to_emit;
            if at == usize::MAX || !self.pending.contains_key(&at) {
                assert(out@ + Seq::<T>::empty() =~= out@);
                break;
            }
            let ghost before = self.pending@;
            let item = self.pending.remove(&at);
            match item {
                Some(v) => {
                    let ghost rest = drain((at + 1) as usize, before.remove(at)).1;
                    assert(out@.push(v) + rest =~= out@ + (seq![v] + rest));
                    out.push(v);
                },
                None => {},
            }
            self.next_to_emit = at + 1;
        }
        out
    }
}

/// The collector from state `next`/`pending` after jobs complete in the
/// order `order`, job `j` with `records[j - 1]`: its final state, and all
/// it emitted, in emission order.
pub open spec fn run<T>(next: usize, pending: Map<usize, T>, order: Seq<usize>, records: Seq<T>) -> (usize, Seq<T>, Map<usize, T>)
    decreases order.len(),
{
    if order.len() == 0 {
        (next, Seq::empty(), pending)
    } else {
        let job = order[0];
        let (n1, out1, left1) = collect(next, pending, job, records[job - 1]);
        let (n2, out2, left2) = run(n1, left1, order.drop_first(), records);
        (n2, out1 + out2, left2)
    }
}

proof fn lemma_drain<T>(next: usize, pending: Map<usize, T>, records: Seq<T>)
    requires
        1 <= next <= records.len() + 1,
        records.len() < usize::MAX,
        pending.dom().finite(),
        forall|k: usize| #[trigger] pending.contains_key(k) ==> next <= k <= records.len() && pending[k]
            == records[k - 1],
    ensures
        ({
            let (m, out, rest) = drain(next, pending);
            &&& next <= m <= records.len() + 1
            &&& out == records.subrange(next - 1, m - 1)
            &&& !pending.contains_key(m)
            &&& forall|k: usize| next <= k < m ==> #[trigger] pending.contains_key(k)
            &&& rest.dom().finite()
            &&& forall|k: usize| #[trigger] rest.contains_key(k) <==> pending.contains_key(k) && k >= m
            &&& forall|k: usize| #[trigger] rest.contains_key(k) ==> rest[k] == pending[k]
        }),
    decreases pending.dom().len(),
{
    if pending.contains_key(next) && next < usize::MAX {
        let smaller = pending.remove(next);
        assert(smaller.dom() =~= pending.dom().remove(next));
        lemma_drain((next + 1) as usize, smaller, records);
        let (m, out, rest) = drain((next + 1) as usize, smaller);
        assert(seq![pending[next]] + out =~= records.subrange(next - 1, m - 1));
        assert(drain(next, pending) == (m, seq![pending[next]] + out, rest));
        assert forall|k: usize| next <= k < m implies #[trigger] pending.contains_key(k) by {
            if k > next {
                assert(smaller.contains_key(k));
            }
        }
        assert forall|k: usize| #[trigger] rest.contains_key(k) implies rest[k] == pending[k] by {
            assert(smaller.contains_key(k));
        }
    } else {
        if pending.contains_key(next) {
            assert(next <= records.len());
        }
        assert(records.subrange(next - 1, next - 1) =~= Seq::<T>::empty());
    }
}

proof fn lemma_run<T>(next: usize, pending: Map<usize, T>, order: Seq<usize>, records: Seq<T>)
    requires
        1 <= next <= records.len() + 1,
        records.len() < usize::MAX,
        pending.dom().finite(),
        forall|k: usize| #[trigger] pending.contains_key(k) ==> next < k <= records.len() && pending[k]
            == records[k - 1],
        forall|i: int| 0 <= i < order.len() ==> next <= #[trigger] order[i] <= records.len()
            && !pending.contains_key(order[i]),
        forall|i: int, j: int| 0 <= i < j < order.len() ==> order[i] != order[j],
        forall|k: usize|
            next <= k <= records.len() ==> #[trigger] pending.contains_key(k) || order.contains(k),
    ensures
        run(next, pending, order, records).1 == records.subrange(next - 1, records.len() as int),
    decreases order.len(),
{
    let n = records.len();
    if order.len() == 0 {
        if next <= n {
            assert(pending.contains_key(next) || order.contains(next));
        }
        assert(records.subrange(next - 1, n as int) =~= Seq::<T>::empty());
    } else {
        let job = order[0];
        let grown = pending.insert(job, records[job - 1]);
        assert(grown.dom() =~= pending.dom().insert(job));
        lemma_drain(next, grown, records);
        let (m, out1, left1) = drain(next, grown);
        let rest = order.drop_first();
        assert forall|i: int| 0 <= i < rest.len() implies m <= #[trigger] rest[i] <= records.len()
            && !left1.contains_key(rest[i]) by {
            assert(rest[i] == order[i + 1]);
            assert(order[i + 1] != order[0]);
            assert(!grown.contains_key(rest[i]));
        }
        assert forall|i: int, j: int| 0 <= i < j < rest.len() implies rest[i] != rest[j] by {
            assert(rest[i] == order[i + 1] && rest[j] == order[j + 1]);
        }
        assert forall|k: usize| m <= k <= records.len() implies #[trigger] left1.contains_key(k)
            || rest.contains(k) by {
            assert(pending.contains_key(k) || order.contains(k));
            if !pending.contains_key(k) && k != job {
                let i = choose|i: int| 0 <= i < order.len() && order[i] == k;
                assert(i != 0);
                assert(rest[i - 1] == k);
            }
        }
        lemma_run(m, left1, rest, records);
        assert(records.subrange(next - 1, m - 1) + records.subrange(m - 1, n as int) =~= records.subrange(
            next - 1,
            n as int,
        ));
    }
}

/// Whatever order jobs `1..=n` complete in, and so whatever the number of
/// workers, the collector emits their records exactly in job order: where
/// `order` lists each job number once, everything emitted is `records`.
pub proof fn lemma_output_in_job_order<T>(order: Seq<usize>, records: Seq<T>)
    requires
        records.len() < usize::MAX,
        order.len() == records.len(),
        forall|i: int| 0 <= i < order.len() ==> 1 <= #[trigger] order[i] <= records.len(),
        forall|i: int, j: int| 0 <= i < j < order.len() ==> order[i] != order[j],
    ensures
        run(1, Map::<usize, T>::empty(), order, records).1 == records,
{
    let n = records.len();
    assert forall|k: usize| 1 <= k <= n implies #[trigger] Map::<usize, T>::empty().contains_key(k)
        || order.contains(k) by {
        lemma_permutation_covers(order, k);
    }
    lemma_run(1, Map::<usize, T>::empty(), order, records);
    assert(records.subrange(0, n as int) =~= records);
}

proof fn lemma_permutation_covers(order: Seq<usize>, k: usize)
    requires
        forall|i: int| 0 <= i < order.len() ==> 1 <= #[trigger] order[i] <= order.len(),
        forall|i: int, j: int| 0 <= i < j < order.len() ==> order[i] != order[j],
        1 <= k <= order.len(),
    ensures
        order.contains(k),
{
    if !order.contains(k) {
        let n = order.len() as int;
        let s = order.map_values(|x: usize| x as int);
        assert(s.no_duplicates()) by {
            assert forall|i: int, j: int| 0 <= i < s.len() && 0 <= j < s.len() && i != j implies s[i]
                != s[j] by {
                if i < j {
                    assert(order[i] != order[j]);
                } else {
                    assert(order[j] != order[i]);
                }
            }
        }
        s.unique_seq_to_set();
        vstd::set_lib::lemma_int_range(1, n + 1);
        let range = vstd::set_lib::set_int_range(1, n + 1).remove(k as int);
        assert(vstd::set_lib::set_int_range(1, n + 1).contains(k as int));
        assert(range.len() == n - 1);
        assert(s.to_set().subset_of(range)) by {
            assert forall|v: int| s.to_set().contains(v) implies range.contains(v) by {
                let i = choose|i: int| 0 <= i < s.len() && s[i] == v;
                assert(s[i] == order[i] as int);
                if v == k as int {
                    assert(order[i] == k);
                    assert(order.contains(k));
                }
            }
        }
        vstd::set_lib::lemma_len_subset(s.to_set(), range);
    }
}

/// The exit code of a run: the number of failed jobs, kept within 1 to 101,
/// where a job failed or errors were written; 0 otherwise.
pub open spec fn exit_status(failed: nat, had_errors: bool) -> int {
    if failed == 0 && !had_errors {
        0
    } else if failed < 1 {
        1
    } else if failed > 101 {
        101
    } else {
        failed as int
    }
}

/// The process exit code after a run with `failed` failed jobs, where
/// `had_errors` tells whether the `errors` file holds anything.
pub fn exit_code(failed: usize, had_errors: bool) -> (r: i32)
    ensures
        r == exit_status(failed as nat, had_errors),
{
    if failed == 0 && !had_errors {
        0
    } else if failed < 1 {
        1
    } else if failed > 101 {
        101
    } else {
        failed as i32
    }
}

} // verus!
