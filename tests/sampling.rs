use sysdash::sampler::{
    cpu_average, get_stats, network_delta, top_processes, top_ranking, InterfaceReading,
    ProbeReading, ProcessReading, Sampler, FULL_LOAD,
};

fn iface(name: &str, received: u64, transmitted: u64) -> InterfaceReading {
    InterfaceReading { name: name.to_string(), received, transmitted }
}

fn procs(mems_mb: &[u64]) -> Vec<ProcessReading> {
    mems_mb
        .iter()
        .enumerate()
        .map(|(i, m)| ProcessReading { name: format!("p{}", i), memory_bytes: m * 1048576 })
        .collect()
}

fn reading(rx: u64, tx: u64) -> ProbeReading {
    ProbeReading {
        core_usage: vec![1000, 2000, 3000, 4000],
        mem_used: 8_000_000_000,
        mem_total: 16_000_000_000,
        processes: procs(&[3, 1, 2]),
        interfaces: vec![iface("eth0", rx, tx)],
    }
}

#[test]
fn cpu_mean_of_four_cores() {
    assert_eq!(cpu_average(&vec![1000, 2000, 3000, 4000]), 2500);
}

#[test]
fn cpu_no_cores_is_zero() {
    assert_eq!(cpu_average(&vec![]), 0);
}

#[test]
fn cpu_stays_within_full_load() {
    assert_eq!(cpu_average(&vec![u32::MAX, u32::MAX]), FULL_LOAD);
    assert_eq!(cpu_average(&vec![20000, 0]), 5000);
    assert_eq!(cpu_average(&vec![10000]), 10000);
}

#[test]
fn cpu_mean_rounds_down() {
    assert_eq!(cpu_average(&vec![1, 2]), 1);
}

#[test]
fn top_seven_processes_keep_five_in_order() {
    let p = procs(&[50, 50, 30, 20, 10, 5, 1]);
    let top = top_processes(&p);
    let mbs: Vec<u64> = top.iter().map(|e| e.1).collect();
    assert_eq!(mbs, vec![50, 50, 30, 20, 10]);
    let names: Vec<&str> = top.iter().map(|e| e.0.as_str()).collect();
    assert_eq!(names, vec!["p0", "p1", "p2", "p3", "p4"]);
}

#[test]
fn top_processes_sorts_and_keeps_ties_in_probe_order() {
    let p = procs(&[1, 7, 3, 7, 9, 3, 0]);
    let top = top_processes(&p);
    let names: Vec<&str> = top.iter().map(|e| e.0.as_str()).collect();
    assert_eq!(names, vec!["p4", "p1", "p3", "p2", "p5"]);
    for w in top.windows(2) {
        assert!(w[0].1 >= w[1].1);
    }
}

#[test]
fn top_processes_fewer_than_five() {
    let top = top_processes(&procs(&[2, 4]));
    assert_eq!(top, vec![("p1".to_string(), 4), ("p0".to_string(), 2)]);
    assert!(top_processes(&vec![]).is_empty());
}

#[test]
fn process_memory_is_floored_to_megabytes() {
    let p = vec![ProcessReading { name: "a".to_string(), memory_bytes: 2 * 1048576 - 1 }];
    assert_eq!(top_processes(&p), vec![("a".to_string(), 1)]);
}

#[test]
fn top_ranking_indices() {
    assert_eq!(top_ranking(&vec![5, 9, 5, 1], 3), vec![1, 0, 2]);
    assert_eq!(top_ranking(&vec![5, 9], 0), Vec::<usize>::new());
    assert_eq!(top_ranking(&vec![4, 4, 4], 5), vec![0, 1, 2]);
}

#[test]
fn network_delta_sums_interfaces() {
    let prev = vec![iface("eth0", 10, 1), iface("wlan0", 20, 2)];
    let cur = vec![iface("wlan0", 30, 2), iface("eth0", 15, 4)];
    assert_eq!(network_delta(&Some(prev), &cur), (15, 3));
}

#[test]
fn network_delta_first_tick_is_zero() {
    assert_eq!(network_delta(&None, &vec![iface("eth0", 123456, 789)]), (0, 0));
}

#[test]
fn network_delta_after_a_tick_without_interfaces() {
    assert_eq!(network_delta(&Some(vec![]), &vec![iface("eth0", 123456, 789)]), (123456, 789));
}

#[test]
fn network_delta_counter_reset_is_zero() {
    let prev = vec![iface("eth0", 1000, 500)];
    let cur = vec![iface("eth0", 10, 800)];
    assert_eq!(network_delta(&Some(prev), &cur), (0, 300));
}

#[test]
fn network_delta_caps_at_u64_max() {
    let prev = vec![iface("eth0", 0, 0), iface("wlan0", 0, 0)];
    let cur = vec![iface("eth0", u64::MAX, 1), iface("wlan0", 5, 0)];
    assert_eq!(network_delta(&Some(prev), &cur), (u64::MAX, 1));
}

#[test]
fn new_interface_adds_its_whole_counter() {
    let prev = vec![iface("eth0", 1000, 100)];
    let cur = vec![iface("eth0", 1100, 150), iface("tun0", 9999, 9999)];
    assert_eq!(network_delta(&Some(prev), &cur), (10099, 10049));
}

#[test]
fn two_ticks_of_network_counters() {
    let mut s = Sampler::new();
    let first = get_stats(&mut s, &reading(1000, 500));
    assert_eq!((first.net_in, first.net_out), (0, 0));
    let second = get_stats(&mut s, &reading(1500, 800));
    assert_eq!((second.net_in, second.net_out), (500, 300));
    let prior = s.prior.as_ref().unwrap();
    assert_eq!(prior.len(), 1);
    assert_eq!((prior[0].name.as_str(), prior[0].received, prior[0].transmitted), ("eth0", 1500, 800));
}

#[test]
fn get_stats_fills_every_field() {
    let mut s = Sampler::new();
    let st = get_stats(&mut s, &reading(7, 7));
    assert_eq!(st.cpu_usage, 2500);
    assert_eq!(st.mem_used, 8_000_000_000);
    assert_eq!(st.mem_total, 16_000_000_000);
    let mbs: Vec<u64> = st.processes.iter().map(|e| e.1).collect();
    assert_eq!(mbs, vec![3, 2, 1]);
}

#[test]
fn interface_that_disappears_leaves_the_base() {
    let mut s = Sampler::new();
    let mut r = reading(1000, 100);
    r.interfaces.push(iface("tun0", 5000, 5000));
    get_stats(&mut s, &r);
    let st = get_stats(&mut s, &reading(1200, 150));
    assert_eq!((st.net_in, st.net_out), (200, 50));
}
