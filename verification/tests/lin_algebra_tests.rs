use std::collections::BTreeSet;

use scan_code_sync::data::data_entry::{DeviceId, DeviceTime};
use scan_code_sync::data::lin_algebra::{
    clock_order, connections_among, earliest_reading, first_reading_after, last_reading_before, last_reading_until, reachable_devices,
    reference_device, solvable_chains,
};

fn at(clock: u64, id: u16) -> DeviceTime {
    DeviceTime { internal_clock: clock, device_id: DeviceId::ClientId(id) }
}

fn set(v: &[u64]) -> BTreeSet<u64> {
    v.iter().copied().collect()
}

#[test]
fn reachability_follows_chains_of_connections() {
    let conns = vec![(at(1, 1), at(2, 2)), (at(3, 3), at(4, 2)), (at(5, 4), at(6, 5))];
    let mut r: Vec<u16> = reachable_devices(&DeviceId::ClientId(1), &conns)
        .iter()
        .map(|d| match d {
            DeviceId::ClientId(n) => *n,
            DeviceId::CameraId(_) => 0,
        })
        .collect();
    r.sort();
    assert_eq!(r, vec![1, 2, 3]);
}

#[test]
fn lone_reference_reaches_itself() {
    assert_eq!(reachable_devices(&DeviceId::ClientId(9), &vec![]), vec![DeviceId::ClientId(9)]);
    let self_loop = vec![(at(1, 9), at(2, 9))];
    assert_eq!(reachable_devices(&DeviceId::ClientId(9), &self_loop), vec![DeviceId::ClientId(9)]);
}

#[test]
fn reference_has_most_readings() {
    let chains = vec![
        (DeviceId::ClientId(1), set(&[1, 2])),
        (DeviceId::ClientId(2), set(&[1, 2, 3])),
        (DeviceId::ClientId(3), set(&[7])),
    ];
    assert_eq!(reference_device(&chains), DeviceId::ClientId(2));
}

#[test]
fn only_reachable_spread_chains_are_solved() {
    let chains = vec![
        (DeviceId::ClientId(1), set(&[1, 2])),
        (DeviceId::ClientId(2), set(&[5])),
        (DeviceId::ClientId(3), set(&[1, 9])),
        (DeviceId::ClientId(4), set(&[3, 4])),
    ];
    let reached = vec![DeviceId::ClientId(1), DeviceId::ClientId(2), DeviceId::ClientId(4)];
    let kept: Vec<DeviceId> = solvable_chains(&chains, &reached).into_iter().map(|c| c.0).collect();
    assert_eq!(kept, vec![DeviceId::ClientId(1), DeviceId::ClientId(4)]);

    let conns = vec![(at(1, 1), at(2, 4)), (at(1, 1), at(2, 3)), (at(1, 2), at(2, 2))];
    let among = connections_among(&conns, &reached);
    assert_eq!(among, vec![(at(1, 1), at(2, 4)), (at(1, 2), at(2, 2))]);
}

#[test]
fn neighbouring_readings() {
    let raws = vec![10, 20, 20, 30];
    assert_eq!(first_reading_after(&raws, 20), Some(3));
    assert_eq!(first_reading_after(&raws, 5), Some(0));
    assert_eq!(first_reading_after(&raws, 30), None);
    assert_eq!(last_reading_until(&raws, 20), Some(2));
    assert_eq!(last_reading_until(&raws, 25), Some(2));
    assert_eq!(last_reading_until(&raws, 9), None);
    assert_eq!(last_reading_before(&raws, 20), Some(0));
    assert_eq!(last_reading_before(&raws, 31), Some(3));
    assert_eq!(last_reading_before(&raws, 10), None);
    assert_eq!(first_reading_after(&vec![], 0), None);
}

#[test]
fn earliest_reading_of_all_chains() {
    let chains = vec![(DeviceId::ClientId(1), set(&[40, 12, 90])), (DeviceId::ClientId(2), set(&[])), (DeviceId::ClientId(3), set(&[15, 7]))];
    assert_eq!(earliest_reading(&chains), 7);
    assert_eq!(earliest_reading(&vec![(DeviceId::ClientId(2), set(&[]))]), 0);
    assert_eq!(earliest_reading(&vec![]), 0);
}

#[test]
fn reference_clock_comes_first() {
    let solvable = vec![(DeviceId::ClientId(4), set(&[1, 2])), (DeviceId::ClientId(1), set(&[3, 4, 5])), (DeviceId::ClientId(9), set(&[6, 7]))];
    let order: Vec<u16> = clock_order(&DeviceId::ClientId(1), &solvable)
        .iter()
        .map(|d| match d {
            DeviceId::ClientId(n) => *n,
            DeviceId::CameraId(_) => 0,
        })
        .collect();
    assert_eq!(order, vec![1, 4, 9]);
}
