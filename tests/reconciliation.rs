use container_manager::classify::{categorize, categorize_folded, classify_containers};
use container_manager::record::{Category, ContainerRecord, HostMemory, Metrics, RuntimeContainer, Snapshot};
use container_manager::reconcile::{
    collect_report, next_step, plan_removals, plan_tick, Phase, RemovalOutcome, Step,
};
use container_manager::select::{candidates, is_reserved_record, rank_by_pid, stale_in_group};

fn metrics() -> Metrics {
    Metrics {
        cpu_percent_centi: 1250,
        memory_percent_centi: 310,
        memory_mb_centi: 4096,
        disk_mb_centi: 0,
        write_kbytes: 4,
        read_kbytes: 8,
        io_read_ops: 1,
        io_write_ops: 2,
    }
}

fn rec(pid: u32, name: &str, id: &str, cmd: &str) -> ContainerRecord {
    ContainerRecord {
        pid,
        name: name.to_string(),
        container_id: id.to_string(),
        cmdline: cmd.to_string(),
        metrics: metrics(),
    }
}

fn snapshot(containers: Vec<ContainerRecord>) -> Snapshot {
    Snapshot {
        memory: HostMemory { total_mb: 16000, free_mb: 8000, used_mb: 8000, cpu_percent_centi: 2500 },
        containers,
    }
}

fn pids(plan: &[container_manager::reconcile::Removal]) -> Vec<(u32, Category)> {
    plan.iter().map(|r| (r.record.pid, r.category)).collect()
}

#[test]
fn categorize_each_marker() {
    assert_eq!(categorize("stress --cpu 2 --timeout 60s"), Category::Cpu);
    assert_eq!(categorize("stress --vm 1 --vm-bytes 256M"), Category::Ram);
    assert_eq!(categorize("stress --io 2"), Category::Io);
    assert_eq!(categorize("stress --hdd 1"), Category::Disk);
    assert_eq!(categorize("sleep 3600"), Category::Unknown);
    assert_eq!(categorize(""), Category::Unknown);
}

#[test]
fn categorize_ignores_case() {
    assert_eq!(categorize("STRESS --VM 1"), Category::Ram);
    assert_eq!(categorize("stress --Hdd 1"), Category::Disk);
    // Without folding, upper-case markers do not match.
    assert_eq!(categorize_folded("STRESS --VM 1"), Category::Unknown);
    assert_eq!(categorize_folded("stress --vm 1"), Category::Ram);
}

#[test]
fn categorize_first_marker_in_rule_order_wins() {
    assert_eq!(categorize("stress --vm 1 --cpu 1"), Category::Cpu);
    assert_eq!(categorize("stress --hdd 1 --io 1"), Category::Io);
}

#[test]
fn classify_places_every_record_once() {
    let recs = vec![
        rec(10, "a", "ida", "stress --cpu 1"),
        rec(11, "b", "idb", "stress --vm 1"),
        rec(12, "c", "idc", "sleep 10"),
        rec(13, "d", "idd", "stress --cpu 4"),
        rec(14, "e", "ide", "stress --hdd 1"),
        rec(15, "f", "idf", "stress --io 1"),
    ];
    let g = classify_containers(&recs);
    assert_eq!(g.cpu, vec![0, 3]);
    assert_eq!(g.ram, vec![1]);
    assert_eq!(g.io, vec![5]);
    assert_eq!(g.disk, vec![4]);
    assert_eq!(g.unknown, vec![2]);
    assert_eq!(g.get(Category::Cpu), &vec![0, 3]);
    let total = g.cpu.len() + g.ram.len() + g.io.len() + g.disk.len() + g.unknown.len();
    assert_eq!(total, recs.len());
    let again = classify_containers(&recs);
    assert_eq!(again.cpu, g.cpu);
    assert_eq!(again.unknown, g.unknown);
}

#[test]
fn classify_empty_list() {
    let g = classify_containers(&vec![]);
    assert!(g.cpu.is_empty() && g.ram.is_empty() && g.io.is_empty());
    assert!(g.disk.is_empty() && g.unknown.is_empty());
}

#[test]
fn rank_orders_by_pid_descending_and_keeps_ties_stable() {
    let recs = vec![
        rec(50, "a", "1", "--cpu"),
        rec(70, "b", "2", "--cpu"),
        rec(50, "c", "3", "--cpu"),
        rec(60, "d", "4", "--cpu"),
    ];
    assert_eq!(rank_by_pid(&recs, &vec![0, 1, 2, 3]), vec![1, 3, 0, 2]);
    assert_eq!(rank_by_pid(&recs, &vec![]), Vec::<usize>::new());
}

#[test]
fn stale_selection_keeps_the_highest_pid() {
    let recs = vec![
        rec(300, "a", "1", "--cpu"),
        rec(900, "b", "2", "--cpu"),
        rec(500, "c", "3", "--cpu"),
    ];
    let listing: Vec<RuntimeContainer> = vec![];
    assert_eq!(stale_in_group(&recs, &listing, &vec![0, 1, 2]), vec![2, 0]);
    assert_eq!(stale_in_group(&recs, &listing, &vec![0]), Vec::<usize>::new());
    assert_eq!(stale_in_group(&recs, &listing, &vec![]), Vec::<usize>::new());
}

#[test]
fn logs_container_is_never_stale() {
    let recs = vec![
        rec(101, "stress_a", "1", "stress --cpu 1"),
        rec(50, "logs_managerr", "2", "stress --cpu 1"),
        rec(205, "stress_b", "3", "stress --cpu 1"),
    ];
    let listing: Vec<RuntimeContainer> = vec![];
    assert!(is_reserved_record(&recs[1], &listing));
    assert!(!is_reserved_record(&recs[0], &listing));
    assert_eq!(candidates(&recs, &listing, &vec![0, 1, 2]), vec![0, 2]);
    let plan = plan_removals(&snapshot(recs), &listing);
    assert_eq!(pids(&plan), vec![(101, Category::Cpu)]);
}

#[test]
fn logs_container_recognised_through_the_listing() {
    let recs = vec![
        rec(400, "renamed", "abc123", "stress --io 1"),
        rec(100, "worker", "def456", "stress --io 1"),
    ];
    let listing = vec![
        RuntimeContainer { id: "def456".to_string(), names: vec!["/worker".to_string()] },
        RuntimeContainer { id: "abc123".to_string(), names: vec!["/logs_managerr".to_string()] },
    ];
    assert!(is_reserved_record(&recs[0], &listing));
    let plan = plan_removals(&snapshot(recs), &listing);
    assert!(plan.is_empty());
}

#[test]
fn plan_covers_all_four_categories_in_order() {
    let recs = vec![
        rec(1, "d1", "d1", "stress --hdd 1"),
        rec(2, "c1", "c1", "stress --cpu 1"),
        rec(3, "r1", "r1", "stress --vm 1"),
        rec(4, "u1", "u1", "sleep 1"),
        rec(5, "u2", "u2", "sleep 1"),
        rec(6, "c2", "c2", "stress --cpu 1"),
        rec(7, "r2", "r2", "stress --vm 1"),
        rec(8, "d2", "d2", "stress --hdd 1"),
        rec(9, "i1", "i1", "stress --io 1"),
    ];
    let plan = plan_removals(&snapshot(recs), &vec![]);
    assert_eq!(
        pids(&plan),
        vec![(2, Category::Cpu), (3, Category::Ram), (1, Category::Disk)]
    );
    assert_eq!(plan[0].record.container_id, "c1");
}

#[test]
fn report_keeps_only_successful_removals() {
    let recs = vec![
        rec(1, "a", "a", "--cpu"),
        rec(2, "b", "b", "--cpu"),
        rec(3, "c", "c", "--cpu"),
        rec(4, "d", "d", "--cpu"),
    ];
    let plan = plan_removals(&snapshot(recs), &vec![]);
    assert_eq!(plan.len(), 3);
    let outcomes: Vec<RemovalOutcome> = plan
        .iter()
        .zip([true, false, true])
        .map(|(r, ok)| RemovalOutcome { removal: r.clone(), removed: ok })
        .collect();
    let report = collect_report(&outcomes);
    assert_eq!(pids(&report), vec![(3, Category::Cpu), (1, Category::Cpu)]);
    let none: Vec<RemovalOutcome> = plan
        .iter()
        .map(|r| RemovalOutcome { removal: r.clone(), removed: false })
        .collect();
    assert!(collect_report(&none).is_empty());
    assert!(collect_report(&vec![]).is_empty());
}

#[test]
fn second_pass_removes_nothing() {
    let recs = vec![
        rec(10, "a", "a", "--cpu"),
        rec(20, "b", "b", "--cpu"),
        rec(30, "c", "c", "--vm"),
        rec(40, "d", "d", "--vm"),
        rec(5, "logs_managerr", "l", "--cpu"),
        rec(6, "u", "u", "sleep"),
        rec(7, "v", "v", "sleep"),
    ];
    let first = plan_removals(&snapshot(recs.clone()), &vec![]);
    assert_eq!(pids(&first), vec![(10, Category::Cpu), (30, Category::Ram)]);
    let left: Vec<ContainerRecord> = recs
        .into_iter()
        .filter(|r| !first.iter().any(|p| p.record.container_id == r.container_id))
        .collect();
    assert_eq!(left.len(), 5);
    let second = plan_removals(&snapshot(left), &vec![]);
    assert!(second.is_empty());
}

#[test]
fn scenario_cpu_pids_101_and_205() {
    let recs = vec![
        rec(101, "old_cpu", "aaa", "stress --cpu 1"),
        rec(205, "new_cpu", "bbb", "stress --cpu 1"),
    ];
    let listing: Vec<RuntimeContainer> = vec![];
    let ranked = rank_by_pid(&recs, &vec![0, 1]);
    assert_eq!(recs[ranked[0]].pid, 205);
    assert_eq!(stale_in_group(&recs, &listing, &vec![0, 1]), vec![0]);
    let plan = plan_removals(&snapshot(recs), &listing);
    assert_eq!(pids(&plan), vec![(101, Category::Cpu)]);
    let outcomes = vec![RemovalOutcome { removal: plan[0].clone(), removed: true }];
    let report = collect_report(&outcomes);
    assert_eq!(report.len(), 1);
    assert_eq!(report[0].record.pid, 101);
    assert_eq!(report[0].category.label(), "cpu");
}

#[test]
fn scenario_unreadable_snapshot_skips_the_tick() {
    let listing: Vec<RuntimeContainer> = vec![];
    assert!(plan_tick(&None, &listing).is_none());
    assert_eq!(next_step(Phase::Running, false), (Phase::Running, Step::Tick));
    let present = plan_tick(&Some(snapshot(vec![rec(1, "a", "a", "--io"), rec(2, "b", "b", "--io")])), &listing);
    assert_eq!(pids(&present.unwrap()), vec![(1, Category::Io)]);
}

#[test]
fn driver_shuts_down_once_then_halts() {
    assert_eq!(next_step(Phase::Running, true), (Phase::Stopped, Step::Shutdown));
    assert_eq!(next_step(Phase::Stopped, false), (Phase::Stopped, Step::Halt));
    assert_eq!(next_step(Phase::Stopped, true), (Phase::Stopped, Step::Halt));
}

#[test]
fn category_labels() {
    assert_eq!(Category::Cpu.label(), "cpu");
    assert_eq!(Category::Ram.label(), "ram");
    assert_eq!(Category::Io.label(), "io");
    assert_eq!(Category::Disk.label(), "disk");
    assert_eq!(Category::Unknown.label(), "unknown");
}
