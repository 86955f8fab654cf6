use pulse::cpu::CpuMap;
use pulse::process::bytes_to_gib;
use pulse::process::bytes_to_mib;
use pulse::process::ProcSample;
use pulse::process::ProcessInfo;
use pulse::rank::get_top_processes;

fn sample(pid: i32, name: &str, memory_bytes: u64) -> ProcSample {
    ProcSample { pid, name: name.to_string(), memory_bytes }
}

fn fields(p: &ProcessInfo) -> (i32, String, u32, u64) {
    (p.pid, p.name.clone(), p.cpu_tenths, p.memory_mb)
}

#[test]
fn merges_two_sources_with_default_zero() {
    let mut cpu = CpuMap::new();
    cpu.insert(101, 452);
    let samples = vec![sample(101, "alpha", 0), sample(202, "beta", 0)];
    let top = get_top_processes(samples, &cpu);
    assert_eq!(top.len(), 2);
    assert_eq!(top[0].pid, 101);
    assert_eq!(top[0].cpu_tenths, 452);
    assert_eq!(top[1].pid, 202);
    assert_eq!(top[1].cpu_tenths, 0);
}

#[test]
fn memory_conversion_truncates() {
    assert_eq!(bytes_to_mib(1_572_864), 1);
    assert_eq!(bytes_to_mib(1_048_575), 0);
    assert_eq!(bytes_to_mib(1_048_576), 1);
    assert_eq!(bytes_to_gib(1_073_741_824), 1);
    let top = get_top_processes(vec![sample(1, "a", 1_572_864)], &CpuMap::new());
    assert_eq!(top[0].memory_mb, 1);
}

#[test]
fn output_length_is_min_of_ten_and_count() {
    let cpu = CpuMap::new();
    let many: Vec<ProcSample> = (0..12).map(|i| sample(i, "p", 0)).collect();
    assert_eq!(get_top_processes(many, &cpu).len(), 10);
    let few: Vec<ProcSample> = (0..3).map(|i| sample(i, "p", 0)).collect();
    assert_eq!(get_top_processes(few, &cpu).len(), 3);
    assert_eq!(get_top_processes(Vec::new(), &cpu).len(), 0);
}

#[test]
fn sort_is_descending_and_stable() {
    let mut cpu = CpuMap::new();
    cpu.insert(1, 100);
    cpu.insert(2, 300);
    cpu.insert(3, 100);
    cpu.insert(4, 300);
    let samples = vec![
        sample(1, "first_low", 0),
        sample(2, "first_high", 0),
        sample(3, "second_low", 0),
        sample(4, "second_high", 0),
    ];
    let top = get_top_processes(samples, &cpu);
    let pids: Vec<i32> = top.iter().map(|p| p.pid).collect();
    assert_eq!(pids, vec![2, 4, 1, 3]);
}

#[test]
fn keeps_only_the_ten_highest() {
    let mut cpu = CpuMap::new();
    for i in 0..12 {
        cpu.insert(i, (i as u32) * 10);
    }
    let samples: Vec<ProcSample> = (0..12).map(|i| sample(i, "p", 0)).collect();
    let top = get_top_processes(samples, &cpu);
    assert_eq!(top.len(), 10);
    assert_eq!(top[0].pid, 11);
    assert_eq!(top[9].pid, 2);
}

#[test]
fn ranking_is_deterministic_on_frozen_inputs() {
    let build = || {
        let mut cpu = CpuMap::new();
        cpu.insert(7, 250);
        cpu.insert(8, 250);
        cpu.insert(9, 10);
        let samples = vec![
            sample(9, "ix", 4_194_304),
            sample(7, "seven", 2_097_152),
            sample(8, "eight", 1_048_576),
        ];
        (samples, cpu)
    };
    let (s1, c1) = build();
    let (s2, c2) = build();
    let r1 = get_top_processes(s1, &c1);
    let r2 = get_top_processes(s2, &c2);
    assert_eq!(r1.len(), r2.len());
    for i in 0..r1.len() {
        assert_eq!(fields(&r1[i]), fields(&r2[i]));
    }
}

#[test]
fn cpu_map_last_insert_wins() {
    let mut cpu = CpuMap::new();
    cpu.insert(5, 10);
    cpu.insert(5, 20);
    assert_eq!(cpu.cpu_for(5), 20);
    assert_eq!(cpu.cpu_for(6), 0);
}
