//! A pool of worker threads that are bound to a set of CPUs.
//!
//! The pool says which workers there are, where they run and which of them
//! gets the next task; starting threads is left to the caller.

use vstd::prelude::*;

use crate::text;
use crate::topology;
use crate::topology::CpuSet;

verus! {

/// A pool: tasks go to its workers in turn.
#[derive(Debug)]
pub struct AffinityPool {
    name: String,
    cpus: CpuSet,
    workers: usize,
    next: usize,
}

/// The worker whose turn it is.
pub open spec fn worker_at(turn: nat, size: nat) -> int {
    turn as int % size as int
}

/// The turn that follows.
pub open spec fn turn_after(turn: nat) -> nat {
    if turn == usize::MAX {
        0
    } else {
        turn + 1
    }
}

/// The name of a worker.
pub open spec fn worker_label(name: Seq<char>, i: int) -> Seq<char> {
    name + "-"@ + text::decimal(i as nat)
}

impl AffinityPool {
    /// The name of the pool.
    pub closed spec fn label(&self) -> Seq<char> {
        self.name@
    }

    /// The CPUs that the workers are bound to.
    pub closed spec fn bound_to(&self) -> Set<int> {
        self.cpus@
    }

    /// The number of workers.
    pub closed spec fn size(&self) -> nat {
        self.workers as nat
    }

    /// The number of tasks so far, up to the size of a machine word.
    pub closed spec fn turn(&self) -> nat {
        self.next as nat
    }

    /// A pool has a worker.
    pub open spec fn wf(&self) -> bool {
        self.size() >= 1
    }

    /// A pool of `size` workers on the CPUs of a list such as `0-3`. A list
    /// that names no CPU is refused, and so is a pool without workers.
    pub fn new(name: &str, cpus: &str, size: usize) -> (r: Result<AffinityPool, String>)
        ensures
            match r {
                Ok(p) => {
                    &&& p.wf()
                    &&& p.label() == name@
                    &&& p.bound_to() == topology::range_cpus(cpus@)
                    &&& p.bound_to() != Set::<int>::empty()
                    &&& p.size() == size
                    &&& p.turn() == 0
                },
                Err(e) => if topology::range_cpus(cpus@) == Set::<int>::empty() {
                    e@ == "CPU 集为空: "@ + cpus@
                } else {
                    size == 0 && e@ == "线程池大小必须 >= 1"@
                },
            },
    {
        let set = topology::parse_cpu_ranges(cpus, None);
        if set.is_empty() {
            let mut e = "CPU 集为空: ".to_owned();
            e.append(cpus);
            return Err(e);
        }
        if size == 0 {
            return Err("线程池大小必须 >= 1".to_owned());
        }
        Ok(AffinityPool { name: name.to_owned(), cpus: set, workers: size, next: 0 })
    }

    /// The name of a worker's thread.
    pub fn worker_name(&self, i: usize) -> (r: String)
        ensures
            r@ == worker_label(self.label(), i as int),
    {
        let mut out = self.name.clone();
        out.append("-");
        text::push_decimal(&mut out, i as u64);
        out
    }

    /// The worker that gets the next task.
    pub fn next_worker(&mut self) -> (r: usize)
        requires
            old(self).wf(),
        ensures
            r == worker_at(old(self).turn(), old(self).size()),
            final(self).turn() == turn_after(old(self).turn()),
            final(self).size() == old(self).size(),
            final(self).label() == old(self).label(),
            final(self).bound_to() == old(self).bound_to(),
            final(self).wf(),
    {
        let i: usize = self.next % self.workers;
        self.next = if self.next == usize::MAX {
            0
        } else {
            self.next + 1
        };
        i
    }

    /// The number of workers.
    pub fn worker_count(&self) -> (r: usize)
        ensures
            r == self.size(),
    {
        self.workers
    }

    /// The CPUs of the workers.
    pub fn cpus(&self) -> (r: &CpuSet)
        ensures
            r@ == self.bound_to(),
    {
        &self.cpus
    }

    /// The CPUs of the workers as ranges.
    pub fn cpus_desc(&self) -> (r: String)
        ensures
            r@ == topology::range_text(self.bound_to()),
    {
        self.cpus.to_range_string()
    }

    /// The name of the pool.
    pub fn name(&self) -> (r: &str)
        ensures
            r@ == self.label(),
    {
        self.name.as_str()
    }
}

/// Of any `size` tasks in a row no two go to the same worker, as long as the
/// count of tasks does not start anew between them.
pub proof fn law_tasks_go_round(size: nat, first: nat, a: nat, b: nat)
    requires
        size >= 1,
        first <= a < b < first + size,
    ensures
        a % size != b % size,
        a % size < size,
{
    vstd::arithmetic::div_mod::lemma_fundamental_div_mod(a as int, size as int);
    vstd::arithmetic::div_mod::lemma_fundamental_div_mod(b as int, size as int);
    let qa = a as int / size as int;
    let qb = b as int / size as int;
    if a % size == b % size {
        assert(b - a == size * (qb - qa)) by (nonlinear_arith)
            requires
                a == size * qa + a % size,
                b == size * qb + b % size,
                a % size == b % size,
        ;
        assert(false) by (nonlinear_arith)
            requires
                b - a == size * (qb - qa),
                0 < b - a < size,
        ;
    }
}

} // verus!
