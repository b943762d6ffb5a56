//! Sets of CPUs, and the lists and names that stand for them.

use crate::cpuset::{
    cpus_below, has_cpu, lemma_run_end, ranges_from, run_end, run_text, spec_name_of, CpuSet,
    CpuTopology,
};
use crate::text::{decimal, lemma_decimal};
use vstd::prelude::*;

verus! {

/// CPU `n` is in the set exactly if bit `n` of the 64 bits is set.
pub proof fn law_bits_stand_for_cpus(s: CpuSet, n: int)
    ensures
        has_cpu(s, n) <==> 0 <= n < 64 && s.bits & (1u64 << (n as u64)) != 0,
{
    if 0 <= n < 64 {
        let bits = s.bits;
        let k = n as u64;
        assert((bits >> k) & 1u64 == 1u64 <==> bits & (1u64 << k) != 0) by (bit_vector)
            requires
                k < 64,
        ;
    }
}

/// The CPUs of a set below `n`.
pub open spec fn cpus_of(s: CpuSet, n: int) -> Set<int> {
    Set::new(|i: int| 0 <= i < n && has_cpu(s, i))
}

/// The count of a set is the number of its CPUs.
pub proof fn law_cpus_are_counted(s: CpuSet, n: int)
    requires
        0 <= n,
    ensures
        cpus_of(s, n).finite(),
        cpus_below(s, n) == cpus_of(s, n).len(),
    decreases n,
{
    if n > 0 {
        law_cpus_are_counted(s, n - 1);
        if has_cpu(s, n - 1) {
            assert(cpus_of(s, n) =~= cpus_of(s, n - 1).insert(n - 1));
        } else {
            assert(cpus_of(s, n) =~= cpus_of(s, n - 1));
        }
    } else {
        assert(cpus_of(s, n) =~= Set::empty());
    }
}

/// The text of one run of CPUs: the number of a single one, or the first and the last.
pub open spec fn one_run(run: (int, int)) -> Seq<char> {
    if run.0 == run.1 {
        decimal(run.0 as nat)
    } else {
        decimal(run.0 as nat) + "-"@ + decimal(run.1 as nat)
    }
}

/// Runs of CPUs with commas between them.
pub open spec fn listed_runs(runs: Seq<(int, int)>) -> Seq<char>
    decreases runs.len(),
{
    if runs.len() == 0 {
        seq![]
    } else if runs.len() == 1 {
        one_run(runs[0])
    } else {
        one_run(runs[0]) + ","@ + listed_runs(runs.drop_first())
    }
}

/// Whether the runs go up, each from its first to its last CPU, with a gap between any two.
pub open spec fn runs_rise(runs: Seq<(int, int)>) -> bool {
    &&& forall|k: int| 0 <= k < runs.len() ==> (#[trigger] runs[k]).0 <= runs[k].1
    &&& forall|j: int, k: int|
        0 <= j < k < runs.len() ==> (#[trigger] runs[j]).1 + 1 < (#[trigger] runs[k]).0
}

pub open spec fn in_runs(runs: Seq<(int, int)>, n: int) -> bool {
    exists|k: int| 0 <= k < runs.len() && (#[trigger] runs[k]).0 <= n <= runs[k].1
}

/// The list of a set names its CPUs and no others: it is made of rising runs with gaps between them,
/// and a CPU is in the set exactly if it is in one of the runs.
pub proof fn law_lists_name_the_cpus(s: CpuSet) -> (runs: Seq<(int, int)>)
    ensures
        ranges_from(s, 0) == listed_runs(runs),
        runs_rise(runs),
        forall|n: int| has_cpu(s, n) <==> #[trigger] in_runs(runs, n),
{
    let runs = lemma_runs(s, 0);
    assert forall|n: int| has_cpu(s, n) <==> #[trigger] in_runs(runs, n) by {
        if in_runs(runs, n) {
            let k = choose|k: int| 0 <= k < runs.len() && (#[trigger] runs[k]).0 <= n <= runs[k].1;
            assert(runs[k].0 >= 0);
        }
    }
    runs
}

#[verifier::rlimit(40)]
#[verifier::spinoff_prover]
proof fn lemma_runs(s: CpuSet, i: int) -> (runs: Seq<(int, int)>)
    requires
        0 <= i,
    ensures
        ranges_from(s, i) == listed_runs(runs),
        ranges_from(s, i).len() == 0 <==> runs.len() == 0,
        runs_rise(runs),
        forall|k: int| 0 <= k < runs.len() ==> i <= (#[trigger] runs[k]).0,
        forall|n: int| i <= n ==> (has_cpu(s, n) <==> #[trigger] in_runs(runs, n)),
    decreases 64 - i,
{
    if i >= 64 {
        let runs = Seq::<(int, int)>::empty();
        assert(ranges_from(s, i) =~= listed_runs(runs));
        runs
    } else if !has_cpu(s, i) {
        let runs = lemma_runs(s, i + 1);
        assert forall|n: int| i <= n implies (has_cpu(s, n) <==> #[trigger] in_runs(runs, n)) by {
            if n == i && in_runs(runs, n) {
                let k = choose|k: int|
                    0 <= k < runs.len() && (#[trigger] runs[k]).0 <= n <= runs[k].1;
                assert(runs[k].0 >= i + 1);
            }
        }
        runs
    } else {
        lemma_run_end(s, i);
        let end = run_end(s, i);
        lemma_run_covers(s, i);
        let rest = lemma_runs(s, end);
        let first = (i, end - 1);
        let runs = seq![first] + rest;
        assert(runs.drop_first() =~= rest);
        lemma_decimal(i as nat);
        assert(run_text(i, end) == one_run(first));
        assert forall|k: int| 0 < k < runs.len() implies end < (#[trigger] runs[k]).0 by {
            assert(runs[k] == rest[k - 1]);
            if rest[k - 1].0 == end {
                assert(in_runs(rest, end));
            }
        }
        assert forall|j: int, k: int| 0 <= j < k < runs.len() implies (#[trigger] runs[j]).1 + 1 < (
        #[trigger] runs[k]).0 by {
            assert(runs[k] == rest[k - 1]);
            if j > 0 {
                assert(runs[j] == rest[j - 1]);
            }
        }
        assert forall|k: int| 0 <= k < runs.len() implies (#[trigger] runs[k]).0 <= runs[k].1 && i
            <= runs[k].0 by {
            if k > 0 {
                assert(runs[k] == rest[k - 1]);
            }
        }
        assert forall|n: int| i <= n implies (has_cpu(s, n) <==> #[trigger] in_runs(runs, n)) by {
            if n < end {
                assert(runs[0].0 <= n <= runs[0].1);
            } else {
                assert(has_cpu(s, n) <==> in_runs(rest, n));
                if in_runs(rest, n) {
                    let k = choose|k: int|
                        0 <= k < rest.len() && (#[trigger] rest[k]).0 <= n <= rest[k].1;
                    assert(runs[k + 1] == rest[k]);
                }
                if in_runs(runs, n) {
                    let k = choose|k: int|
                        0 <= k < runs.len() && (#[trigger] runs[k]).0 <= n <= runs[k].1;
                    assert(runs[k] == rest[k - 1]);
                }
            }
        }
        runs
    }
}

proof fn lemma_run_covers(s: CpuSet, i: int)
    requires
        0 <= i < 64,
        has_cpu(s, i),
    ensures
        i < run_end(s, i) <= 64,
        !has_cpu(s, run_end(s, i)),
        forall|n: int| i <= n < run_end(s, i) ==> #[trigger] has_cpu(s, n),
    decreases 64 - i,
{
    let next = run_end(s, i + 1);
    assert(run_end(s, i) == next);
    if i + 1 < 64 && has_cpu(s, i + 1) {
        lemma_run_covers(s, i + 1);
    } else {
        assert(next == i + 1);
    }
}

/// A set that holds CPUs has the name of the first kind that it is, of the efficient, the fast, the
/// fastest and all CPUs; one that is none of them, or is empty, has its list for a name.
pub proof fn law_names_of_cpu_sets(cpus: CpuSet, topo: CpuTopology)
    ensures
        ({
            let name = spec_name_of(cpus, topo);
            let some = exists|n: int| #[trigger] has_cpu(cpus, n);
            &&& some && cpus == topo.e_core ==> name == "e-core"@
            &&& some && cpus == topo.p_core && cpus != topo.e_core ==> name == "p-core"@
            &&& some && cpus == topo.hp_core && cpus != topo.p_core && cpus != topo.e_core ==> name
                == "hp-core"@
            &&& some && cpus == topo.present_cpus && cpus != topo.hp_core && cpus != topo.p_core
                && cpus != topo.e_core ==> name == "all-core"@
            &&& !some ==> name == Seq::<char>::empty()
            &&& cpus != topo.present_cpus && cpus != topo.hp_core && cpus != topo.p_core && cpus
                != topo.e_core ==> name == ranges_from(cpus, 0)
        }),
{
    law_cpus_are_counted(cpus, 64);
    let all = cpus_of(cpus, 64);
    if exists|n: int| #[trigger] has_cpu(cpus, n) {
        let n = choose|n: int| #[trigger] has_cpu(cpus, n);
        assert(all.contains(n));
        assert(all.len() > 0) by {
            if all.len() == 0 {
                all.lemma_len0_is_empty();
            }
        }
    } else {
        assert(all =~= Set::empty());
        let runs = law_lists_name_the_cpus(cpus);
        if runs.len() > 0 {
            assert(runs[0].0 <= runs[0].1);
            assert(in_runs(runs, runs[0].0));
        }
        assert(ranges_from(cpus, 0) =~= seq![]);
    }
}

} // verus!
