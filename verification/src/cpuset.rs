//! Sets of CPUs.

use crate::text::{add_chars, decimal, decimal_u64, string_of};
use vstd::prelude::*;

verus! {

/// The name of the cpuset directory, unless another one is set.
pub const DEFAULT_CPUSET_NAME: &'static str = "AppOpt";

/// How many CPUs a set can hold.
pub const MAX_CPUS: u32 = 64;

/// A set of CPUs: bit `n` stands for CPU `n`.
#[derive(Clone, Copy, Debug, PartialEq, Eq, Structural)]
pub struct CpuSet {
    pub bits: u64,
}

/// Whether a CPU is in the set.
pub open spec fn has_cpu(s: CpuSet, n: int) -> bool {
    0 <= n < MAX_CPUS && (s.bits >> (n as u64)) & 1u64 == 1u64
}

/// How many of the first `n` CPUs are in the set.
pub open spec fn cpus_below(s: CpuSet, n: int) -> nat
    decreases n,
{
    if n <= 0 {
        0
    } else {
        cpus_below(s, n - 1) + (if has_cpu(s, n - 1) {
            1nat
        } else {
            0nat
        })
    }
}

/// The end of the run of CPUs that begins with CPU `n`.
pub open spec fn run_end(s: CpuSet, n: int) -> int
    decreases MAX_CPUS - n,
{
    if n >= MAX_CPUS || !has_cpu(s, n) {
        n
    } else {
        run_end(s, n + 1)
    }
}

pub proof fn lemma_run_end(s: CpuSet, n: int)
    requires
        0 <= n <= MAX_CPUS,
    ensures
        n <= run_end(s, n) <= MAX_CPUS,
        has_cpu(s, n) ==> n < run_end(s, n),
    decreases MAX_CPUS - n,
{
    if n < MAX_CPUS && has_cpu(s, n) {
        lemma_run_end(s, n + 1);
    }
}

/// A run of CPUs, such as `4` or `0-3`.
pub open spec fn run_text(first: int, end: int) -> Seq<char> {
    if end - first <= 1 {
        decimal(first as nat)
    } else {
        decimal(first as nat) + "-"@ + decimal((end - 1) as nat)
    }
}

/// The runs of CPUs from CPU `n` on, with commas between them.
pub open spec fn ranges_from(s: CpuSet, n: int) -> Seq<char>
    decreases MAX_CPUS - n,
    when 0 <= n
    via ranges_decreases
{
    if n >= MAX_CPUS {
        seq![]
    } else if !has_cpu(s, n) {
        ranges_from(s, n + 1)
    } else {
        let end = run_end(s, n);
        let rest = ranges_from(s, end);
        if rest.len() == 0 {
            run_text(n, end)
        } else {
            run_text(n, end) + ","@ + rest
        }
    }
}

#[via_fn]
proof fn ranges_decreases(s: CpuSet, n: int) {
    if n < MAX_CPUS {
        lemma_run_end(s, n);
    }
}

impl CpuSet {
    fn has(&self, n: u32) -> (r: bool)
        requires
            n < MAX_CPUS,
        ensures
            r == has_cpu(*self, n as int),
    {
        (self.bits >> (n as u64)) & 1u64 == 1u64
    }

    /// How many CPUs are in the set.
    pub fn count(&self) -> (r: u32)
        ensures
            r == cpus_below(*self, MAX_CPUS as int),
    {
        let mut total: u32 = 0;
        let mut n: u32 = 0;
        while n < MAX_CPUS
            invariant
                n <= MAX_CPUS,
                total <= n,
                total == cpus_below(*self, n as int),
            decreases MAX_CPUS - n,
        {
            if self.has(n) {
                total += 1;
            }
            n += 1;
        }
        total
    }

    /// The set as a list of CPUs and runs of CPUs, such as `0-3,6`.
    pub fn to_range_string(&self) -> (r: String)
        ensures
            r@ == ranges_from(*self, 0),
    {
        let mut out: Vec<char> = Vec::new();
        let mut n: u32 = 0;
        let ghost whole = ranges_from(*self, 0);
        assert(out@ =~= seq![]);
        while n < MAX_CPUS
            invariant
                n <= MAX_CPUS,
                whole == so_far(out@, ranges_from(*self, n as int)),
            decreases MAX_CPUS - n,
        {
            if !self.has(n) {
                n += 1;
                continue;
            }
            let first: u32 = n;
            let ghost before = out@;
            while n < MAX_CPUS && self.has(n)
                invariant
                    first <= n <= MAX_CPUS,
                    run_end(*self, first as int) == run_end(*self, n as int),
                decreases MAX_CPUS - n,
            {
                n += 1;
            }
            proof {
                lemma_run_end(*self, first as int);
                assert(run_end(*self, n as int) == n);
                lemma_decimal_some(first as nat);
            }
            if out.len() > 0 {
                out.push(',');
            }
            let a = decimal_u64(first as u64);
            add_chars(&mut out, a.as_slice());
            if n - first > 1 {
                out.push('-');
                let b = decimal_u64((n - 1) as u64);
                add_chars(&mut out, b.as_slice());
            }
            proof {
                reveal_strlit(",");
                reveal_strlit("-");
                let rest = ranges_from(*self, n as int);
                let run = run_text(first as int, n as int);
                assert(out@ =~= so_far(before, run));
                assert(so_far(before, if rest.len() == 0 {
                    run
                } else {
                    run + ","@ + rest
                }) =~= so_far(out@, rest));
            }
        }
        assert(ranges_from(*self, MAX_CPUS as int).len() == 0);
        assert(out@ =~= whole);
        string_of(out.as_slice())
    }
}

/// Two lists with a comma between them, unless one is empty.
spec fn so_far(a: Seq<char>, b: Seq<char>) -> Seq<char> {
    if a.len() == 0 {
        b
    } else if b.len() == 0 {
        a
    } else {
        a + ","@ + b
    }
}

proof fn lemma_decimal_some(n: nat)
    ensures
        decimal(n).len() > 0,
{
}

/// The CPUs of a device, and those of each kind.
pub struct CpuTopology {
    pub e_core: CpuSet,
    pub p_core: CpuSet,
    pub hp_core: CpuSet,
    pub present_cpus: CpuSet,
    pub present_str: String,
    pub mems_str: String,
    pub cpuset_enabled: bool,
}

/// The name of a set of CPUs: that of the kind of CPUs that it holds, or its list.
pub open spec fn spec_name_of(cpus: CpuSet, topo: CpuTopology) -> Seq<char> {
    if cpus_below(cpus, MAX_CPUS as int) > 0 && cpus == topo.e_core {
        "e-core"@
    } else if cpus_below(cpus, MAX_CPUS as int) > 0 && cpus == topo.p_core {
        "p-core"@
    } else if cpus_below(cpus, MAX_CPUS as int) > 0 && cpus == topo.hp_core {
        "hp-core"@
    } else if cpus_below(cpus, MAX_CPUS as int) > 0 && cpus == topo.present_cpus {
        "all-core"@
    } else {
        ranges_from(cpus, 0)
    }
}

/// The name of a set of CPUs: that of the kind of CPUs that it holds, or its list.
pub fn spec_name(cpus: &CpuSet, topo: &CpuTopology) -> (r: String)
    ensures
        r@ == spec_name_of(*cpus, *topo),
{
    if cpus.count() > 0 {
        if *cpus == topo.e_core {
            return "e-core".to_owned();
        }
        if *cpus == topo.p_core {
            return "p-core".to_owned();
        }
        if *cpus == topo.hp_core {
            return "hp-core".to_owned();
        }
        if *cpus == topo.present_cpus {
            return "all-core".to_owned();
        }
    }
    cpus.to_range_string()
}

} // verus!
