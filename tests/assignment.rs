use scheduler_benchmark::assign::{Assigner, Matching};
use scheduler_benchmark::error::ScheduleError;
use scheduler_benchmark::graph::TaskGraph;
use scheduler_benchmark::order::topological_order;

fn b(x: f64) -> u64 {
    x.to_bits()
}

fn f(x: u64) -> f64 {
    f64::from_bits(x)
}

fn computing_time(density: f64, size: u64, fraction: f64, cores: u32, freq: f64) -> f64 {
    density * size as f64 * (1. - fraction + fraction / cores as f64) / (freq * 100_000_000.)
}

#[test]
fn single_task_single_device() {
    let g = TaskGraph::new(1);
    let mut a = Assigner::new(&g, vec![0], 1).unwrap();
    assert_eq!(a.current_task(), Some(0));
    let (rho, size, freq) = (2.5, 400_000_u64, 1.6);
    let ready = vec![b(0.0)];
    let start = a.start_times(&ready);
    let trial = f(start[0]) + computing_time(rho, size, 0.0, 4, freq);
    assert_eq!(a.place(&vec![b(trial)]), Ok(0));
    assert_eq!(a.current_task(), None);
    let m = a.into_matchings();
    assert_eq!(m, vec![Matching { finish_time: b(rho * size as f64 / (freq * 1e8)), node: 0 }]);
}

#[test]
fn pinned_task_ignores_faster_device() {
    let mut g = TaskGraph::new(1);
    g.pin(0, 1);
    let mut a = Assigner::new(&g, vec![0], 2).unwrap();
    assert_eq!(a.place(&vec![b(1.0), b(5.0)]), Ok(1));
    assert_eq!(a.device_of(0), 1);
    assert_eq!(a.delay_of(1), b(5.0));
    assert_eq!(a.delay_of(0), b(0.0));
}

#[test]
fn unpinned_task_takes_first_earliest_device() {
    let g = TaskGraph::new(2);
    let mut a = Assigner::new(&g, vec![1, 0], 3).unwrap();
    assert_eq!(a.current_task(), Some(1));
    assert_eq!(a.place(&vec![b(4.0), b(2.0), b(2.0)]), Ok(1));
    assert_eq!(a.current_task(), Some(0));
    assert_eq!(a.place(&vec![b(3.0), b(6.0), b(3.0)]), Ok(0));
    let m = a.into_matchings();
    assert_eq!(m[0], Matching { finish_time: b(3.0), node: 0 });
    assert_eq!(m[1], Matching { finish_time: b(2.0), node: 1 });
}

#[test]
fn chain_on_disconnected_devices_is_unreachable() {
    // Three tasks in a chain; device 0 and device 1 share no link.
    let mut g = TaskGraph::new(3);
    g.add_dependency(0, 1, 100);
    g.add_dependency(1, 2, 100);
    g.pin(0, 0);
    g.pin(1, 1);
    let dist = [[0.0, f64::INFINITY], [f64::INFINITY, 0.0]];
    let order = topological_order(&g).unwrap();
    assert_eq!(order, vec![0, 1, 2]);
    let mut a = Assigner::new(&g, order, 2).unwrap();
    assert_eq!(a.place(&vec![b(0.5), b(0.25)]), Ok(0));
    let v = 0;
    let trials: Vec<u64> = (0..2)
        .map(|mu| {
            let mv = a.device_of(v);
            let arrival = f(a.delay_of(mv)) + dist[mu][mv] * 100.0;
            let start = f(a.start_times(&vec![b(arrival), b(arrival)])[mu]);
            b(start + 0.1)
        })
        .collect();
    let before = a.delay_of(1);
    assert_eq!(a.place(&trials), Err(ScheduleError::Unreachable));
    assert_eq!(a.current_task(), Some(1));
    assert_eq!(a.delay_of(1), before);
}

#[test]
fn empty_topology_is_refused() {
    let g = TaskGraph::new(2);
    assert!(matches!(Assigner::new(&g, vec![0, 1], 0), Err(ScheduleError::EmptyTopology)));
}

#[test]
fn pin_out_of_range_is_refused() {
    let mut g = TaskGraph::new(2);
    g.pin(1, 3);
    assert!(matches!(Assigner::new(&g, vec![0, 1], 3), Err(ScheduleError::PinOutOfRange)));
    assert!(Assigner::new(&g, vec![0, 1], 4).is_ok());
}

#[test]
fn finish_before_device_is_free_is_refused() {
    let g = TaskGraph::new(2);
    let mut a = Assigner::new(&g, vec![0, 1], 1).unwrap();
    assert_eq!(a.place(&vec![b(2.0)]), Ok(0));
    assert_eq!(a.place(&vec![b(1.0)]), Err(ScheduleError::FinishBeforeAvailable));
    assert_eq!(a.current_task(), Some(1));
    assert_eq!(a.place(&vec![b(2.0)]), Ok(0));
}

#[test]
fn every_task_placed_once_and_device_times_grow() {
    let n = 6;
    let g = TaskGraph::new(n);
    let order = vec![3, 0, 5, 1, 4, 2];
    let mut a = Assigner::new(&g, order.clone(), 2).unwrap();
    let mut placed = Vec::new();
    while let Some(t) = a.current_task() {
        let trials: Vec<u64> = (0..2).map(|d| b(f(a.delay_of(d)) + 1.0 + d as f64 * 0.5)).collect();
        let d = a.place(&trials).unwrap();
        placed.push((t, d, trials[d]));
    }
    assert_eq!(placed.iter().map(|p| p.0).collect::<Vec<_>>(), order);
    let m = a.into_matchings();
    assert_eq!(m.len(), n);
    for (t, d, fin) in placed.iter() {
        assert_eq!(m[*t], Matching { finish_time: *fin, node: *d });
    }
    for d in 0..2 {
        let times: Vec<f64> = placed.iter().filter(|p| p.1 == d).map(|p| f(p.2)).collect();
        assert!(times.windows(2).all(|w| w[0] <= w[1]));
    }
}

#[test]
fn scheduling_twice_gives_identical_matchings() {
    let run = || {
        let g = TaskGraph::new(3);
        let mut a = Assigner::new(&g, vec![2, 1, 0], 2).unwrap();
        while a.current_task().is_some() {
            let trials: Vec<u64> = (0..2).map(|d| b(f(a.delay_of(d)) + 0.3 * (d + 1) as f64)).collect();
            a.place(&trials).unwrap();
        }
        a.into_matchings()
    };
    assert_eq!(run(), run());
}
