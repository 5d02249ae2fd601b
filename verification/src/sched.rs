//! Round-robin scheduler.
//!
//! Processes sit in a FIFO; every call rotates it left by one and
//! selects the new front element. Across `k` timer ticks over `p`
//! runnable processes each one is therefore chosen either `k / p` or
//! `k / p + 1` times — the fairness law proved at the end of this file.

use vstd::prelude::*;

use vstd::arithmetic::div_mod::lemma_fundamental_div_mod;
use vstd::arithmetic::div_mod::lemma_fundamental_div_mod_converse;

use crate::cpu::{build_satp, spec_build_satp, SatpMode, TrapFrame};
use crate::page::Pmem;
use crate::process::{Process, ProcessState};

verus! {

/// The process FIFO. The front element is the currently selected task.
pub struct Scheduler {
    procs: Vec<Process>,
}

/// One left rotation: the front moves to the back.
pub open spec fn rotl1(s: Seq<Process>) -> Seq<Process> {
    if s.len() <= 1 {
        s
    } else {
        s.subrange(1, s.len() as int).push(s[0])
    }
}

/// `t` left rotations.
pub open spec fn rotl_n(s: Seq<Process>, t: int) -> Seq<Process>
    decreases t,
{
    if t <= 0 {
        s
    } else {
        rotl1(rotl_n(s, t - 1))
    }
}

impl Scheduler {
    /// The queued processes, front first.
    pub closed spec fn spec_procs(&self) -> Seq<Process> {
        self.procs@
    }

    /// Every queued process is well formed.
    pub open spec fn wf(&self) -> bool {
        forall|i: int| 0 <= i < self.spec_procs().len() ==> (#[trigger] self.spec_procs()[i]).wf()
    }

    /// A scheduler with the single initial task: the process running the
    /// idle loop at physical address `func`, with pid 0.
    pub fn init(pmem: &mut Pmem, func: u64) -> (r: Scheduler)
        requires
            old(pmem).wf(),
            old(pmem).has_tail(12),
            func <= u64::MAX - crate::page::PAGE_SIZE,
        ensures
            r.wf(),
            final(pmem).wf(),
            final(pmem).start() == old(pmem).start(),
            final(pmem).num_pages() == old(pmem).num_pages(),
            r.spec_procs().len() == 1,
            r.spec_procs()[0].spec_pid() == 0,
            r.spec_procs()[0].spec_state() is Running,
    {
        let mut procs: Vec<Process> = Vec::new();
        procs.push(Process::new(pmem, func, 0));
        Scheduler { procs }
    }

    /// Rotate the FIFO left by one and select the new front: if it is a
    /// running process, hand back its program counter and the `satp`
    /// value (Sv39, the pid as ASID, its root table) that enters its
    /// address space, with `true` for "switch to user mode"; otherwise
    /// `(false, 0, 0)` and the kernel stays where it is.
    pub fn schedule(&mut self) -> (r: (bool, u64, u64))
        requires
            old(self).wf(),
        ensures
            final(self).wf(),
            final(self).spec_procs() == rotl1(old(self).spec_procs()),
            final(self).spec_procs().len() == old(self).spec_procs().len(),
            ({
                let q = final(self).spec_procs();
                if q.len() > 0 && q[0].spec_state() is Running {
                    r == (
                        true,
                        q[0].spec_pc(),
                        spec_build_satp(8, q[0].spec_pid(), q[0].spec_root_phys()),
                    )
                } else {
                    r == (false, 0u64, 0u64)
                }
            }),
    {
        if self.procs.len() > 1 {
            let ghost pre = self.procs@;
            let front = self.procs.remove(0);
            self.procs.push(front);
            proof {
                assert(self.procs@ =~= rotl1(pre));
            }
        } else {
            proof {
                assert(rotl1(self.procs@) == self.procs@);
            }
        }
        if self.procs.len() == 0 {
            return (false, 0, 0);
        }
        let state = self.procs[0].get_state();
        if state == ProcessState::Running {
            let pid = self.procs[0].get_pid();
            let pc = self.procs[0].get_pc();
            let satp_addr = self.procs[0].root_address();
            let satp = build_satp(SatpMode::Sv39, pid, satp_addr);
            (true, pc, satp)
        } else {
            (false, 0, 0)
        }
    }

    /// Borrow the front process's trap frame, for the trap-return path
    /// to hand to the user-mode trampoline.
    pub fn front_frame(&mut self) -> (r: &mut TrapFrame)
        requires
            old(self).spec_procs().len() > 0,
            old(self).wf(),
        ensures
            *r == old(self).spec_procs()[0].spec_frame(),
            final(self).spec_procs().len() == old(self).spec_procs().len(),
            final(self).wf() || !final(r).wf(),
            final(self).spec_procs()[0].spec_frame() == *final(r),
            forall|i: int|
                1 <= i < old(self).spec_procs().len() ==> final(self).spec_procs()[i] == old(
                    self,
                ).spec_procs()[i],
    {
        let p = &mut self.procs[0];
        p.get_frame()
    }
}

/// After `t` rotations the element at position `i` is the one that
/// started at position `(t + i) mod len`: rotation only relabels
/// positions.
pub proof fn lemma_rotl_index(s: Seq<Process>, t: int, i: int)
    requires
        s.len() >= 1,
        0 <= t,
        0 <= i < s.len(),
    ensures
        rotl_n(s, t)[i] == s[(t + i) % (s.len() as int)],
        rotl_n(s, t).len() == s.len(),
    decreases t,
{
    let len = s.len() as int;
    if t == 0 {
        lemma_fundamental_div_mod_converse(i, len, 0, i);
    } else {
        let prev = rotl_n(s, t - 1);
        assert forall|i2: int| 0 <= i2 < len implies prev[i2] == s[(t - 1 + i2) % len] by {
            lemma_rotl_index(s, t - 1, i2);
        }
        lemma_rotl_index(s, t - 1, 0);
        if len == 1 {
            lemma_fundamental_div_mod((t + i), 1);
        } else {
            if i < len - 1 {
                assert(rotl_n(s, t)[i] == prev[i + 1]);
                assert((t - 1 + (i + 1)) % len == (t + i) % len);
            } else {
                assert(rotl_n(s, t)[i] == prev[0]);
                lemma_fundamental_div_mod(t - 1, len);
                let q = (t - 1) / len;
                let r = (t - 1) % len;
                assert(t + i == (q + 1) * len + r) by (nonlinear_arith)
                    requires
                        t - 1 == len * q + r,
                        i == len - 1,
                ;
                lemma_fundamental_div_mod_converse(t + i, len, q + 1, r);
            }
        }
    }
}

/// How many of the ticks `1..=k` select residue `j` modulo `p`.
pub open spec fn count_selected(k: int, p: int, j: int) -> int
    decreases k,
{
    if k <= 0 {
        0
    } else {
        count_selected(k - 1, p, j) + if k % p == j {
            1int
        } else {
            0int
        }
    }
}

/// One division step: dividing `m` and `m - 1` by `p` differ exactly
/// when `p` divides `m`.
proof fn lemma_div_step(m: int, p: int)
    requires
        m >= 1,
        p >= 1,
    ensures
        m / p == (m - 1) / p + if m % p == 0 {
            1int
        } else {
            0int
        },
        m % p == 0 ==> (m - 1) % p == p - 1,
        m % p != 0 ==> (m - 1) % p == m % p - 1,
{
    lemma_fundamental_div_mod(m, p);
    let q = m / p;
    let r = m % p;
    if r == 0 {
        assert(m - 1 == (q - 1) * p + (p - 1)) by (nonlinear_arith)
            requires
                m == p * q + r,
                r == 0,
                p >= 1,
        ;
        lemma_fundamental_div_mod_converse(m - 1, p, q - 1, p - 1);
    } else {
        assert(m - 1 == q * p + (r - 1)) by (nonlinear_arith)
            requires
                m == p * q + r,
        ;
        lemma_fundamental_div_mod_converse(m - 1, p, q, r - 1);
    }
}

/// Scheduler fairness: across `k` ticks of a `p`-process round robin,
/// the process at original position `j` is selected either `k / p` or
/// `k / p + 1` times; when `p` divides `k`, exactly `k / p` times.
/// Together with `lemma_rotl_index` and `schedule`'s rotation contract
/// this pins the round robin down: tick `t` selects position `t mod p`.
pub proof fn lemma_round_robin_fairness(k: int, p: int, j: int)
    requires
        1 <= p,
        0 <= j < p,
        0 <= k,
    ensures
        count_selected(k, p, j) == if j == 0 {
            k / p
        } else if k >= j {
            (k - j) / p + 1
        } else {
            0
        },
        k / p <= count_selected(k, p, j) <= k / p + 1,
        k % p == 0 ==> count_selected(k, p, j) == k / p,
    decreases k,
{
    if k == 0 {
        lemma_fundamental_div_mod_converse(0, p, 0, 0);
    } else {
        lemma_round_robin_fairness(k - 1, p, j);
        lemma_div_step(k, p);
        if j == 0 {
            assert(k % p == j <==> k % p == 0);
        } else {
            lemma_fundamental_div_mod(k, p);
            if k < j {
                lemma_fundamental_div_mod_converse(k, p, 0, k);
            } else if k == j {
                lemma_fundamental_div_mod_converse(k, p, 0, k);
                lemma_fundamental_div_mod_converse(0, p, 0, 0);
            } else {
                lemma_div_step(k - j, p);
                lemma_fundamental_div_mod(k - j, p);
                let qm = (k - j) / p;
                let rm = (k - j) % p;
                if rm + j < p {
                    assert(k == qm * p + (rm + j)) by (nonlinear_arith)
                        requires
                            k - j == p * qm + rm,
                    ;
                    lemma_fundamental_div_mod_converse(k, p, qm, rm + j);
                } else {
                    assert(k == (qm + 1) * p + (rm + j - p)) by (nonlinear_arith)
                        requires
                            k - j == p * qm + rm,
                            p >= 1,
                    ;
                    lemma_fundamental_div_mod_converse(k, p, qm + 1, rm + j - p);
                }
            }
        }
        // Bounds from the closed form.
        if j != 0 && k >= j {
            lemma_fundamental_div_mod(k, p);
            lemma_fundamental_div_mod(k - j, p);
            let q = k / p;
            let r = k % p;
            let qm = (k - j) / p;
            let rm = (k - j) % p;
            assert(qm == q - 1 || qm == q) by (nonlinear_arith)
                requires
                    k == p * q + r,
                    k - j == p * qm + rm,
                    0 <= r < p,
                    0 <= rm < p,
                    0 < j < p,
            ;
            if k % p == 0 {
                assert(qm == q - 1) by (nonlinear_arith)
                    requires
                        k == p * q,
                        k - j == p * qm + rm,
                        0 <= rm < p,
                        0 < j < p,
                ;
            }
        }
        if j != 0 && k < j {
            vstd::arithmetic::div_mod::lemma_basic_div(k, p);
        }
    }
}

} // verus!
