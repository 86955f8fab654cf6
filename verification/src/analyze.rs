use vstd::prelude::*;
use crate::parse::chars_of;
use crate::parse::parse_i32_range;
use crate::parse::parse_i32_spec;
use crate::parse::trim_range;
use crate::parse::trimmed;
use crate::process::ProcessInfo;

verus! {

/// A process is heavy when its CPU usage is at least 20.0% (200 tenths) or
/// its resident memory is at least 500 MiB.
pub open spec fn is_heavy(p: ProcessInfo) -> bool {
    p.cpu_tenths >= 200 || p.memory_mb >= 500
}

/// The heavy subset, in input order.
pub open spec fn heavy_subset(s: Seq<ProcessInfo>) -> Seq<ProcessInfo> {
    s.filter(|p: ProcessInfo| is_heavy(p))
}

/// The heavy-subset predicate is exactly the threshold test: every record
/// in the subset meets a threshold, and every input record meeting one is
/// in the subset; order matches input order (it is a filter).
pub proof fn lemma_heavy_exact(s: Seq<ProcessInfo>)
    ensures
        forall|i: int| 0 <= i < heavy_subset(s).len() ==> is_heavy(#[trigger] heavy_subset(s)[i]),
        forall|i: int|
            0 <= i < s.len() && is_heavy(#[trigger] s[i]) ==> heavy_subset(s).contains(s[i]),
{
    broadcast use vstd::seq_lib::group_filter_ensures;

    let pred = |p: ProcessInfo| is_heavy(p);
    assert forall|i: int| 0 <= i < heavy_subset(s).len() implies is_heavy(
        #[trigger] heavy_subset(s)[i],
    ) by {
        assert(pred(s.filter(pred)[i]));
    }
    assert forall|i: int| 0 <= i < s.len() && is_heavy(#[trigger] s[i]) implies heavy_subset(
        s,
    ).contains(s[i]) by {
        assert(pred(s[i]));
        assert(s.filter(pred).contains(s[i]));
    }
}

proof fn lemma_heavy_subset_step(s: Seq<ProcessInfo>, i: int)
    requires
        0 <= i < s.len(),
    ensures
        heavy_subset(s.take(i + 1)) == if is_heavy(s[i]) {
            heavy_subset(s.take(i)).push(s[i])
        } else {
            heavy_subset(s.take(i))
        },
{
    reveal_with_fuel(Seq::filter, 2);
    assert(s.take(i + 1).drop_last() =~= s.take(i));
    assert(s.take(i + 1).last() == s[i]);
}

/// Scan the ranked records and keep the heavy ones, in input order.
pub fn heavy_processes(processes: &Vec<ProcessInfo>) -> (r: Vec<ProcessInfo>)
    ensures
        r@ == heavy_subset(processes@),
{
    let mut r: Vec<ProcessInfo> = Vec::new();
    let mut i: usize = 0;
    while i < processes.len()
        invariant
            i <= processes@.len(),
            r@ == heavy_subset(processes@.take(i as int)),
        decreases processes@.len() - i,
    {
        proof {
            lemma_heavy_subset_step(processes@, i as int);
        }
        let p = &processes[i];
        if p.cpu_tenths >= 200 || p.memory_mb >= 500 {
            r.push(p.duplicate());
        }
        i = i + 1;
    }
    proof {
        assert(processes@.take(i as int) =~= processes@);
    }
    r
}

/// What the operator flow decides, given the ranked records and the raw
/// operator answers.
#[derive(Clone, Copy, Debug, PartialEq, Eq, Structural)]
pub enum Decision {
    /// No heavy process: all clear, no interaction.
    AllClear,
    /// Heavy processes were reported, the operator declined.
    NoAction,
    /// The operator asked to terminate but gave no usable PID: the flow
    /// ends with an invalid-PID report and no side effect. A PID below 1
    /// is unusable too, since a forced signal to PID 0 or a negative PID
    /// is platform-defined and dangerous.
    InvalidPid,
    /// Request exactly one forced termination of this PID (always >= 1).
    Terminate(i32),
}

/// The operator proceeds only on an exact, case-insensitive "y" after
/// trimming.
pub open spec fn affirmative(s: Seq<char>) -> bool {
    trimmed(s) == seq!['y'] || trimmed(s) == seq!['Y']
}

/// A usable termination target: the trimmed input reads as an i32 that is
/// at least 1.
pub open spec fn parse_pid_spec(s: Seq<char>) -> Option<i32> {
    parse_i32_spec(trimmed(s))
}

/// The whole interactive flow as a function of its inputs.
pub open spec fn decision_spec(
    ps: Seq<ProcessInfo>,
    choice: Seq<char>,
    pid_input: Seq<char>,
) -> Decision {
    if heavy_subset(ps).len() == 0 {
        Decision::AllClear
    } else if !affirmative(choice) {
        Decision::NoAction
    } else {
        match parse_pid_spec(pid_input) {
            Some(p) => if p >= 1 {
                Decision::Terminate(p)
            } else {
                Decision::InvalidPid
            },
            None => Decision::InvalidPid,
        }
    }
}

/// Does this answer mean "proceed to termination"?
pub fn wants_termination(choice: &str) -> (r: bool)
    ensures
        r == affirmative(choice@),
{
    let v = chars_of(choice);
    let (lo, hi) = trim_range(&v);
    proof {
        assert(seq!['y'].len() == 1);
        assert(seq!['Y'].len() == 1);
    }
    if hi - lo == 1 {
        let c = v[lo];
        proof {
            assert(trimmed(choice@) =~= seq![c] ==> trimmed(choice@) == seq![c]);
            assert(trimmed(choice@)[0] == c);
            if c == 'y' {
                assert(trimmed(choice@) =~= seq!['y']);
            } else if c == 'Y' {
                assert(trimmed(choice@) =~= seq!['Y']);
            } else {
                assert(trimmed(choice@) != seq!['y']);
                assert(trimmed(choice@) != seq!['Y']);
            }
        }
        c == 'y' || c == 'Y'
    } else {
        false
    }
}

/// Read an operator-entered PID: the trimmed line as a decimal i32.
pub fn parse_pid(input: &str) -> (r: Option<i32>)
    ensures
        r == parse_pid_spec(input@),
{
    let v = chars_of(input);
    let (lo, hi) = trim_range(&v);
    parse_i32_range(&v, lo, hi)
}

/// The resource analyzer's decision for one pass: all clear when nothing
/// is heavy; otherwise the operator's trimmed answer decides, and an
/// affirmative answer turns the entered PID into at most one termination
/// request. The PID is not checked against the heavy list; only PIDs
/// below 1 are rejected.
pub fn analyze_processes(processes: &Vec<ProcessInfo>, choice: &str, pid_input: &str) -> (d:
    Decision)
    ensures
        d == decision_spec(processes@, choice@, pid_input@),
        forall|p: i32| d == Decision::Terminate(p) ==> p >= 1,
{
    let heavy = heavy_processes(processes);
    if heavy.len() == 0 {
        Decision::AllClear
    } else if !wants_termination(choice) {
        Decision::NoAction
    } else {
        match parse_pid(pid_input) {
            Some(p) => {
                if p >= 1 {
                    Decision::Terminate(p)
                } else {
                    Decision::InvalidPid
                }
            },
            None => Decision::InvalidPid,
        }
    }
}

} // verus!
