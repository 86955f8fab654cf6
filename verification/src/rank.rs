use vstd::prelude::*;
use crate::cpu::CpuMap;
use crate::process::ProcSample;
use crate::process::ProcessInfo;
use crate::process::bytes_to_mib;

verus! {

/// The authoritative CPU value for a PID: the secondary source when
/// present, else 0 (a missing entry never fails the merge).
pub open spec fn cpu_of(m: Map<i32, u32>, pid: i32) -> u32 {
    if m.contains_key(pid) {
        m[pid]
    } else {
        0u32
    }
}

/// The merged record for one provider sample: CPU from the secondary
/// source, memory floor-divided from bytes to mebibytes.
pub open spec fn merged_rec(s: ProcSample, m: Map<i32, u32>) -> ProcessInfo {
    ProcessInfo {
        pid: s.pid,
        name: s.name,
        cpu_tenths: cpu_of(m, s.pid),
        memory_mb: (s.memory_bytes / 1048576) as u64,
    }
}

/// All provider samples merged with the secondary CPU source, in provider
/// order.
pub open spec fn merged(samples: Seq<ProcSample>, m: Map<i32, u32>) -> Seq<ProcessInfo> {
    samples.map_values(|s: ProcSample| merged_rec(s, m))
}

/// Stable insertion into a CPU-descending sequence: the new record goes
/// after every record whose CPU is greater than or equal to its own.
pub open spec fn insert_desc(s: Seq<ProcessInfo>, p: ProcessInfo) -> Seq<ProcessInfo>
    decreases s.len(),
{
    if s.len() == 0 {
        seq![p]
    } else if s[0].cpu_tenths >= p.cpu_tenths {
        seq![s[0]] + insert_desc(s.drop_first(), p)
    } else {
        seq![p] + s
    }
}

/// Stable insertion sort, descending by CPU: records are inserted in input
/// order, so records with equal CPU keep their relative input order.
pub open spec fn sort_desc(s: Seq<ProcessInfo>) -> Seq<ProcessInfo>
    decreases s.len(),
{
    if s.len() == 0 {
        Seq::empty()
    } else {
        insert_desc(sort_desc(s.drop_last()), s.last())
    }
}

/// The full ranking step: merge, stable-sort descending by CPU, keep the
/// top 10.
pub open spec fn rank_spec(samples: Seq<ProcSample>, m: Map<i32, u32>) -> Seq<ProcessInfo> {
    let sorted = sort_desc(merged(samples, m));
    if sorted.len() <= 10 {
        sorted
    } else {
        sorted.take(10)
    }
}

/// Descending CPU order.
pub open spec fn sorted_desc(s: Seq<ProcessInfo>) -> bool {
    forall|i: int, j: int| 0 <= i <= j < s.len() ==> s[i].cpu_tenths >= s[j].cpu_tenths
}

proof fn lemma_insert_desc_len(s: Seq<ProcessInfo>, p: ProcessInfo)
    ensures
        insert_desc(s, p).len() == s.len() + 1,
    decreases s.len(),
{
    if s.len() > 0 && s[0].cpu_tenths >= p.cpu_tenths {
        lemma_insert_desc_len(s.drop_first(), p);
    }
}

proof fn lemma_sort_desc_len(s: Seq<ProcessInfo>)
    ensures
        sort_desc(s).len() == s.len(),
    decreases s.len(),
{
    if s.len() > 0 {
        lemma_sort_desc_len(s.drop_last());
        lemma_insert_desc_len(sort_desc(s.drop_last()), s.last());
    }
}

proof fn lemma_insert_desc_bound(s: Seq<ProcessInfo>, p: ProcessInfo, b: u32)
    requires
        forall|k: int| 0 <= k < s.len() ==> (#[trigger] s[k]).cpu_tenths <= b,
        p.cpu_tenths <= b,
    ensures
        forall|k: int|
            0 <= k < insert_desc(s, p).len() ==> (#[trigger] insert_desc(s, p)[k]).cpu_tenths
                <= b,
    decreases s.len(),
{
    let out = insert_desc(s, p);
    if s.len() == 0 {
        assert(out =~= seq![p]);
    } else if s[0].cpu_tenths >= p.cpu_tenths {
        let rest = s.drop_first();
        lemma_insert_desc_bound(rest, p, b);
        assert forall|k: int| 0 <= k < out.len() implies (#[trigger] out[k]).cpu_tenths <= b by {
            if k == 0 {
                assert(s[0].cpu_tenths <= b);
            } else {
                assert(out[k] == insert_desc(rest, p)[k - 1]);
            }
        }
    } else {
        assert forall|k: int| 0 <= k < out.len() implies (#[trigger] out[k]).cpu_tenths <= b by {
            if k > 0 {
                assert(out[k] == s[k - 1]);
                assert(s[k - 1].cpu_tenths <= b);
            }
        }
    }
}

proof fn lemma_insert_desc_sorted(s: Seq<ProcessInfo>, p: ProcessInfo)
    requires
        sorted_desc(s),
    ensures
        sorted_desc(insert_desc(s, p)),
    decreases s.len(),
{
    if s.len() == 0 {
    } else if s[0].cpu_tenths >= p.cpu_tenths {
        let rest = s.drop_first();
        lemma_insert_desc_sorted(rest, p);
        lemma_insert_desc_bound(rest, p, s[0].cpu_tenths);
        let out = seq![s[0]] + insert_desc(rest, p);
        assert forall|i: int, j: int| 0 <= i <= j < out.len() implies out[i].cpu_tenths
            >= out[j].cpu_tenths by {
            if i > 0 {
                assert(out[i] == insert_desc(rest, p)[i - 1]);
                assert(out[j] == insert_desc(rest, p)[j - 1]);
            }
        }
    } else {
        let out = seq![p] + s;
        assert forall|i: int, j: int| 0 <= i <= j < out.len() implies out[i].cpu_tenths
            >= out[j].cpu_tenths by {
            if i > 0 {
                assert(out[i] == s[i - 1]);
                assert(out[j] == s[j - 1]);
            } else if j > 0 {
                assert(out[j] == s[j - 1]);
                assert(s[0].cpu_tenths >= s[j - 1].cpu_tenths);
            }
        }
    }
}

proof fn lemma_sort_desc_sorted(s: Seq<ProcessInfo>)
    ensures
        sorted_desc(sort_desc(s)),
    decreases s.len(),
{
    if s.len() > 0 {
        lemma_sort_desc_sorted(s.drop_last());
        lemma_insert_desc_sorted(sort_desc(s.drop_last()), s.last());
    }
}

proof fn lemma_filter_all_false(s: Seq<ProcessInfo>, pred: spec_fn(ProcessInfo) -> bool)
    requires
        forall|k: int| 0 <= k < s.len() ==> !pred(#[trigger] s[k]),
    ensures
        s.filter(pred) == Seq::<ProcessInfo>::empty(),
    decreases s.len(),
{
    reveal(Seq::filter);
    if s.len() > 0 {
        lemma_filter_all_false(s.drop_last(), pred);
    }
}

proof fn lemma_insert_desc_filter(s: Seq<ProcessInfo>, p: ProcessInfo, c: u32)
    requires
        sorted_desc(s),
    ensures
        p.cpu_tenths == c ==> insert_desc(s, p).filter(
            |q: ProcessInfo| q.cpu_tenths == c,
        ) == s.filter(|q: ProcessInfo| q.cpu_tenths == c) + seq![p],
        p.cpu_tenths != c ==> insert_desc(s, p).filter(
            |q: ProcessInfo| q.cpu_tenths == c,
        ) == s.filter(|q: ProcessInfo| q.cpu_tenths == c),
    decreases s.len(),
{
    reveal_with_fuel(Seq::filter, 3);
    let pred = |q: ProcessInfo| q.cpu_tenths == c;
    let empty = Seq::<ProcessInfo>::empty();
    assert(seq![p].drop_last() =~= empty);
    if pred(p) {
        assert(seq![p].filter(pred) =~= empty.push(p));
    } else {
        assert(seq![p].filter(pred) =~= empty);
    }
    if s.len() == 0 {
        assert(s.filter(pred) + seq![p] =~= empty.push(p));
    } else if s[0].cpu_tenths >= p.cpu_tenths {
        let rest = s.drop_first();
        let head = seq![s[0]];
        lemma_insert_desc_filter(rest, p, c);
        Seq::filter_distributes_over_add(head, insert_desc(rest, p), pred);
        Seq::filter_distributes_over_add(head, rest, pred);
        assert(head + rest =~= s);
        assert(s.filter(pred) == head.filter(pred) + rest.filter(pred));
        assert(insert_desc(s, p) == head + insert_desc(rest, p));
        assert(insert_desc(s, p).filter(pred) == head.filter(pred) + insert_desc(rest, p).filter(
            pred,
        ));
        if p.cpu_tenths == c {
            assert((head.filter(pred) + rest.filter(pred)) + seq![p] =~= head.filter(pred) + (
            rest.filter(pred) + seq![p]));
        }
    } else {
        assert(insert_desc(s, p) == seq![p] + s);
        Seq::filter_distributes_over_add(seq![p], s, pred);
        if p.cpu_tenths == c {
            // every record in s has CPU strictly below c, so none survives
            // the filter and p alone makes up both sides
            assert forall|k: int| 0 <= k < s.len() implies !pred(#[trigger] s[k]) by {
                assert(s[0].cpu_tenths >= s[k].cpu_tenths);
            }
            lemma_filter_all_false(s, pred);
            assert(seq![p].filter(pred) + s.filter(pred) =~= s.filter(pred) + seq![p]);
        } else {
            assert(seq![p].filter(pred) + s.filter(pred) =~= s.filter(pred));
        }
    }
}

/// Ties keep their input order: for every CPU value, the subsequence of
/// records carrying exactly that value is the same before and after the
/// sort. Together with `lemma_sort_desc_sorted` this says the sort is the
/// stable descending sort.
pub proof fn lemma_sort_desc_stable(s: Seq<ProcessInfo>, c: u32)
    ensures
        sort_desc(s).filter(|q: ProcessInfo| q.cpu_tenths == c) == s.filter(
            |q: ProcessInfo| q.cpu_tenths == c,
        ),
    decreases s.len(),
{
    reveal(Seq::filter);
    let pred = |q: ProcessInfo| q.cpu_tenths == c;
    if s.len() > 0 {
        let rest = s.drop_last();
        lemma_sort_desc_stable(rest, c);
        lemma_sort_desc_sorted(rest);
        lemma_insert_desc_filter(sort_desc(rest), s.last(), c);
        if s.last().cpu_tenths == c {
            assert(rest.filter(pred) + seq![s.last()] =~= rest.filter(pred).push(s.last()));
        }
    }
}

proof fn lemma_insert_desc_multiset(s: Seq<ProcessInfo>, p: ProcessInfo)
    ensures
        insert_desc(s, p).to_multiset() == s.to_multiset().insert(p),
    decreases s.len(),
{
    broadcast use vstd::seq_lib::group_to_multiset_ensures;
    broadcast use vstd::multiset::group_multiset_axioms;

    if s.len() == 0 {
        assert(seq![p] =~= s.push(p));
    } else if s[0].cpu_tenths >= p.cpu_tenths {
        let rest = s.drop_first();
        let head = seq![s[0]];
        lemma_insert_desc_multiset(rest, p);
        vstd::seq_lib::lemma_multiset_commutative(head, insert_desc(rest, p));
        vstd::seq_lib::lemma_multiset_commutative(head, rest);
        assert(head + rest =~= s);
        assert(head.to_multiset().add(rest.to_multiset().insert(p)) =~= head.to_multiset().add(
            rest.to_multiset(),
        ).insert(p));
    } else {
        vstd::seq_lib::lemma_multiset_commutative(seq![p], s);
        vstd::seq_lib::lemma_multiset_commutative(s, seq![p]);
        assert(s + seq![p] =~= s.push(p));
        assert(seq![p].to_multiset().add(s.to_multiset()) =~= s.to_multiset().add(
            seq![p].to_multiset(),
        ));
    }
}

/// The ranking keeps exactly the input records: before the cut to the top
/// 10, the sorted sequence is a permutation of the merged input.
pub proof fn lemma_sort_desc_permutes(s: Seq<ProcessInfo>)
    ensures
        sort_desc(s).to_multiset() == s.to_multiset(),
    decreases s.len(),
{
    broadcast use vstd::seq_lib::group_to_multiset_ensures;

    if s.len() > 0 {
        let rest = s.drop_last();
        lemma_sort_desc_permutes(rest);
        lemma_insert_desc_multiset(sort_desc(rest), s.last());
        assert(rest.push(s.last()) =~= s);
    }
}

/// The ranked output is in descending CPU order.
pub proof fn lemma_rank_sorted(samples: Seq<ProcSample>, m: Map<i32, u32>)
    ensures
        sorted_desc(rank_spec(samples, m)),
{
    lemma_sort_desc_sorted(merged(samples, m));
}

/// The ranked output length is the smaller of 10 and the number of
/// provider samples.
pub proof fn lemma_rank_len(samples: Seq<ProcSample>, m: Map<i32, u32>)
    ensures
        rank_spec(samples, m).len() == if samples.len() <= 10 {
            samples.len() as int
        } else {
            10int
        },
{
    lemma_sort_desc_len(merged(samples, m));
}

/// Ranking is a pure function of the frozen snapshot inputs: two runs on
/// equal inputs yield equal output lists.
pub proof fn lemma_rank_deterministic(
    s1: Seq<ProcSample>,
    s2: Seq<ProcSample>,
    m1: Map<i32, u32>,
    m2: Map<i32, u32>,
)
    requires
        s1 == s2,
        m1 == m2,
    ensures
        rank_spec(s1, m1) == rank_spec(s2, m2),
{
}

proof fn lemma_insert_desc_at(s: Seq<ProcessInfo>, p: ProcessInfo, j: int)
    requires
        0 <= j <= s.len(),
        forall|k: int| 0 <= k < j ==> (#[trigger] s[k]).cpu_tenths >= p.cpu_tenths,
        j < s.len() ==> s[j].cpu_tenths < p.cpu_tenths,
    ensures
        insert_desc(s, p) == s.insert(j, p),
    decreases j,
{
    if j == 0 {
        assert(insert_desc(s, p) =~= s.insert(0, p));
    } else {
        lemma_insert_desc_at(s.drop_first(), p, j - 1);
        assert(seq![s[0]] + s.drop_first().insert(j - 1, p) =~= s.insert(j, p));
    }
}

fn insert_sorted(v: &mut Vec<ProcessInfo>, p: ProcessInfo)
    ensures
        final(v)@ == insert_desc(old(v)@, p),
{
    let mut j: usize = 0;
    while j < v.len() && v[j].cpu_tenths >= p.cpu_tenths
        invariant
            j <= v@.len(),
            forall|k: int| 0 <= k < j ==> (#[trigger] v@[k]).cpu_tenths >= p.cpu_tenths,
        decreases v@.len() - j,
    {
        j = j + 1;
    }
    proof {
        lemma_insert_desc_at(v@, p, j as int);
    }
    v.insert(j, p);
}

fn sort_by_cpu_desc(list: Vec<ProcessInfo>) -> (r: Vec<ProcessInfo>)
    ensures
        r@ == sort_desc(list@),
    decreases list@.len(),
{
    let mut l = list;
    match l.pop() {
        None => l,
        Some(p) => {
            let mut sorted = sort_by_cpu_desc(l);
            insert_sorted(&mut sorted, p);
            sorted
        },
    }
}

/// The process ranker: merge the provider snapshot with the secondary CPU
/// source (the secondary value is authoritative when present, else 0),
/// convert memory to mebibytes, stable-sort descending by CPU, and keep
/// the top 10.
pub fn get_top_processes(samples: Vec<ProcSample>, cpu: &CpuMap) -> (r: Vec<ProcessInfo>)
    ensures
        r@ == rank_spec(samples@, cpu@),
        r@.len() == if samples@.len() <= 10 {
            samples@.len() as int
        } else {
            10int
        },
        sorted_desc(r@),
{
    let ghost orig = samples@;
    let mut rest = samples;
    let mut mg: Vec<ProcessInfo> = Vec::new();
    let ghost mut i: int = 0;
    while rest.len() > 0
        invariant
            0 <= i <= orig.len(),
            rest@ =~= orig.skip(i),
            mg@ =~= merged(orig.take(i), cpu@),
        decreases rest@.len(),
    {
        let s = rest.remove(0);
        let ghost s0 = s;
        let c = cpu.cpu_for(s.pid);
        let mb = bytes_to_mib(s.memory_bytes);
        mg.push(ProcessInfo { pid: s.pid, name: s.name, cpu_tenths: c, memory_mb: mb });
        proof {
            assert(s0 == orig[i]);
            assert(orig.skip(i).remove(0) =~= orig.skip(i + 1));
            assert(merged(orig.take(i), cpu@).push(merged_rec(s0, cpu@)) =~= merged(
                orig.take(i + 1),
                cpu@,
            ));
            i = i + 1;
        }
    }
    proof {
        assert(orig.take(i) =~= orig);
        lemma_rank_len(orig, cpu@);
        lemma_rank_sorted(orig, cpu@);
    }
    let mut sorted = sort_by_cpu_desc(mg);
    proof {
        lemma_sort_desc_len(merged(orig, cpu@));
    }
    if sorted.len() > 10 {
        sorted.truncate(10);
    }
    sorted
}

} // verus!
