use maramos::helpers::time::Time;
use maramos::scheduling::load_balancing::{move_tasks, rebalance_due, rebalance_plan, rebalance_queues, Transfer};
use maramos::scheduling::scheduler::Scheduler;
use maramos::scheduling::task::{Task, TaskState};

fn t(id: u64, sp: usize) -> Task {
    Task::new(id, sp)
}

#[test]
fn round_robin_switch() {
    let idle = t(0, 1);
    let mut s = Scheduler::new(&idle);
    s.add_task(t(1, 100));
    s.add_task(t(2, 200));
    assert_eq!(s.sched_logic(11, 0, &idle), 100);
    assert_eq!(s.current().id, 1);
    assert_eq!(s.sched_logic(101, 0, &idle), 200);
    assert_eq!(s.sched_logic(201, 0, &idle), 11);
    assert_eq!(s.current().id, 0);
    assert_eq!(s.sched_logic(12, 0, &idle), 101);
}

#[test]
fn lone_ready_task_keeps_running() {
    let idle = t(0, 1);
    let mut s = Scheduler::new(&t(5, 50));
    assert_eq!(s.sched_logic(55, 0, &idle), 55);
    assert_eq!(s.current().id, 5);
}

#[test]
fn stopped_task_gives_way_to_idle() {
    let idle = t(0, 1);
    let mut start = t(7, 70);
    start.state = TaskState::Terminate;
    let mut s = Scheduler::new(&start);
    assert_eq!(s.sched_logic(77, 0, &idle), 1);
    assert_eq!(s.current().id, 0);
}

#[test]
fn sleepers_stay_asleep() {
    let idle = t(0, 1);
    let mut sleeper = t(3, 30);
    sleeper.state = TaskState::Wait(Time::Seconds(1));
    let mut s = Scheduler::new(&sleeper);
    s.add_task(t(4, 40));
    assert_eq!(s.sched_logic(33, 10, &idle), 40);
    assert_eq!(s.sched_logic(44, 10, &idle), 44);
    assert_eq!(s.current().id, 4);
}

#[test]
fn task_state_order() {
    assert!(TaskState::Ready < TaskState::Wait(Time::Nanoseconds(0)));
    assert!(TaskState::Wait(Time::Days(9)) < TaskState::Terminate);
    assert!(TaskState::Ready < TaskState::Terminate);
}

fn apply(counts: &[usize], plan: &[Transfer]) -> Vec<usize> {
    let mut c = counts.to_vec();
    for p in plan {
        c[p.src] -= p.count;
        c[p.dst] += p.count;
    }
    c
}

#[test]
fn rebalance_evens_out_counts() {
    let counts = [7usize, 0, 1, 0];
    let plan = rebalance_plan(&counts);
    assert_eq!(apply(&counts, &plan), vec![2, 2, 2, 2]);
    assert_eq!(plan[0], Transfer { src: 0, dst: 1, count: 2 });

    let uneven = [0usize, 0, 5];
    assert_eq!(apply(&uneven, &rebalance_plan(&uneven)), vec![2, 2, 1]);
    assert!(rebalance_plan(&[4usize]).is_empty());
    assert!(rebalance_plan(&[0usize, 0, 0]).is_empty());
    assert!(rebalance_plan(&[2usize, 2]).is_empty());
}

#[test]
fn rebalance_rate_limit() {
    assert!(!rebalance_due(1_000, 600));
    assert!(rebalance_due(500_000_600, 600));
}

#[test]
fn moving_tasks_pops_from_the_source() {
    let mut src = vec![t(1, 0), t(2, 0), t(3, 0)];
    let mut dst = vec![t(9, 0)];
    move_tasks(&mut src, &mut dst, 2);
    assert_eq!(src.iter().map(|x| x.id).collect::<Vec<_>>(), vec![1]);
    assert_eq!(dst.iter().map(|x| x.id).collect::<Vec<_>>(), vec![9, 3, 2]);
    move_tasks(&mut src, &mut dst, 0);
    assert_eq!(src.len(), 1);
}

#[test]
fn a_plan_applied_evens_the_queues() {
    let mut queues: Vec<Vec<Task>> = vec![
        (0..7).map(|i| t(i, 0)).collect(),
        Vec::new(),
        (10..12).map(|i| t(i, 0)).collect(),
    ];
    let counts: Vec<usize> = queues.iter().map(|q| q.len()).collect();
    for m in rebalance_plan(&counts) {
        let mut s = std::mem::take(&mut queues[m.src]);
        let mut d = std::mem::take(&mut queues[m.dst]);
        move_tasks(&mut s, &mut d, m.count);
        queues[m.src] = s;
        queues[m.dst] = d;
    }
    assert_eq!(queues.iter().map(|q| q.len()).collect::<Vec<_>>(), vec![3, 3, 3]);
    let mut ids: Vec<u64> = queues.iter().flatten().map(|x| x.id).collect();
    ids.sort();
    assert_eq!(ids, vec![0, 1, 2, 3, 4, 5, 6, 10, 11]);
}

#[test]
fn a_pass_over_all_queues_evens_them_and_keeps_every_task() {
    let mut queues: Vec<Vec<Task>> = vec![
        (0..7u64).map(|i| t(i, 0x1000)).collect(),
        vec![],
        (7..9u64).map(|i| t(i, 0x1000)).collect(),
    ];
    rebalance_queues(&mut queues);
    let lens: Vec<usize> = queues.iter().map(|q| q.len()).collect();
    assert_eq!(lens, vec![3, 3, 3]);
    let mut ids: Vec<u64> = queues.iter().flatten().map(|t| t.id).collect();
    ids.sort();
    assert_eq!(ids, (0..9u64).collect::<Vec<_>>());
    let mut one = vec![vec![t(1, 0x1000), t(2, 0x1000)]];
    rebalance_queues(&mut one);
    assert_eq!(one[0].len(), 2);
}
