use vstd::prelude::*;
use crate::data::data_entry::{DeviceId, DeviceIdView, DeviceTime, DeviceTimeView};
use std::collections::BTreeSet;
use crate::data::timeline::{distinct_views, view_set};

verus! {

broadcast use vstd::seq_lib::seq_to_set_is_finite, vstd::laws_cmp::group_laws_cmp, vstd::std_specs::btree::group_btree_axioms;

/// The readings of a list of connections.
pub open spec fn conn_views(conns: Seq<(DeviceTime, DeviceTime)>) -> Seq<(DeviceTimeView, DeviceTimeView)> {
    conns.map_values(|c: (DeviceTime, DeviceTime)| (c.0@, c.1@))
}

/// Connection `i` links devices `a` and `b`, in either direction.
pub open spec fn link_at(conns: Seq<(DeviceTimeView, DeviceTimeView)>, i: int, a: DeviceIdView, b: DeviceIdView) -> bool {
    ||| conns[i].0.device_id == a && conns[i].1.device_id == b
    ||| conns[i].1.device_id == a && conns[i].0.device_id == b
}

/// Some connection links devices `a` and `b`.
pub open spec fn linked(conns: Seq<(DeviceTimeView, DeviceTimeView)>, a: DeviceIdView, b: DeviceIdView) -> bool {
    exists|i: int| 0 <= i < conns.len() && #[trigger] link_at(conns, i, a, b)
}

/// A chain of devices from `r`, each linked to the next by some connection.
pub open spec fn is_chain(conns: Seq<(DeviceTimeView, DeviceTimeView)>, r: DeviceIdView, path: Seq<DeviceIdView>) -> bool {
    &&& path.len() > 0
    &&& path[0] == r
    &&& forall|k: int| 0 <= k < path.len() - 1 ==> #[trigger] linked(conns, path[k], path[k + 1])
}

/// Device `d` can be reached from device `r` over connections.
pub open spec fn reachable(conns: Seq<(DeviceTimeView, DeviceTimeView)>, r: DeviceIdView, d: DeviceIdView) -> bool {
    exists|path: Seq<DeviceIdView>| #[trigger] is_chain(conns, r, path) && path.last() == d
}

/// Every device that takes part in a connection, and `r`.
pub open spec fn known_devices(conns: Seq<(DeviceTimeView, DeviceTimeView)>, r: DeviceIdView) -> Set<DeviceIdView> {
    Seq::new(2 * conns.len(), |i: int| if i % 2 == 0 { conns[i / 2].0.device_id } else { conns[i / 2].1.device_id }).push(r).to_set()
}

proof fn lemma_reachable_start(conns: Seq<(DeviceTimeView, DeviceTimeView)>, r: DeviceIdView)
    ensures
        reachable(conns, r, r),
{
    let path = seq![r];
    assert(is_chain(conns, r, path));
    assert(path.last() == r);
}

proof fn lemma_reachable_step(conns: Seq<(DeviceTimeView, DeviceTimeView)>, r: DeviceIdView, m: DeviceIdView, d: DeviceIdView, i: int)
    requires
        reachable(conns, r, m),
        0 <= i < conns.len(),
        link_at(conns, i, m, d),
    ensures
        reachable(conns, r, d),
{
    let path = choose|path: Seq<DeviceIdView>| #[trigger] is_chain(conns, r, path) && path.last() == m;
    let longer = path.push(d);
    assert(linked(conns, m, d));
    assert forall|k: int| 0 <= k < longer.len() - 1 implies #[trigger] linked(conns, longer[k], longer[k + 1]) by {
        if k < path.len() - 1 {
            assert(longer[k] == path[k] && longer[k + 1] == path[k + 1]);
        } else {
            assert(longer[k] == m && longer[k + 1] == d);
        }
    }
    assert(is_chain(conns, r, longer));
    assert(longer.last() == d);
}

proof fn lemma_endpoints_known(conns: Seq<(DeviceTimeView, DeviceTimeView)>, r: DeviceIdView, i: int)
    requires
        0 <= i < conns.len(),
    ensures
        known_devices(conns, r).contains(conns[i].0.device_id),
        known_devices(conns, r).contains(conns[i].1.device_id),
{
    let s = Seq::new(2 * conns.len(), |j: int| if j % 2 == 0 { conns[j / 2].0.device_id } else { conns[j / 2].1.device_id }).push(r);
    assert(s[2 * i] == conns[i].0.device_id);
    assert(s[2 * i + 1] == conns[i].1.device_id);
}

proof fn lemma_closed_complete(
    conns: Seq<(DeviceTimeView, DeviceTimeView)>,
    r: DeviceIdView,
    found: Set<DeviceIdView>,
    path: Seq<DeviceIdView>,
    k: int,
)
    requires
        found.contains(r),
        forall|i: int, x: DeviceIdView, y: DeviceIdView|
            0 <= i < conns.len() && found.contains(x) && #[trigger] link_at(conns, i, x, y) ==> found.contains(y),
        is_chain(conns, r, path),
        0 <= k < path.len(),
    ensures
        found.contains(path[k]),
    decreases k,
{
    if k > 0 {
        lemma_closed_complete(conns, r, found, path, k - 1);
        let j = k - 1;
        assert(linked(conns, path[j], path[j + 1]));
        assert(path[j + 1] == path[k]);
        let i = choose|i: int| 0 <= i < conns.len() && #[trigger] link_at(conns, i, path[k - 1], path[k]);
    }
}

proof fn lemma_view_set_push(before: Seq<DeviceId>, after: Seq<DeviceId>, x: DeviceIdView)
    requires
        after.len() == before.len() + 1,
        forall|k: int| 0 <= k < before.len() ==> after[k] == before[k],
        after[before.len() as int]@ == x,
    ensures
        view_set(after) == view_set(before).insert(x),
{
    assert forall|y: DeviceIdView| #[trigger] view_set(after).contains(y) <==> view_set(before).insert(x).contains(y) by {
        if view_set(after).contains(y) {
            let k = choose|k: int| 0 <= k < after.len() && #[trigger] after[k]@ == y;
            if k < before.len() {
                assert(before[k]@ == y);
            }
        }
        if view_set(before).contains(y) {
            let k = choose|k: int| 0 <= k < before.len() && #[trigger] before[k]@ == y;
            assert(after[k]@ == y);
        }
        if y == x {
            assert(after[before.len() as int]@ == y);
        }
    }
    assert(view_set(after) =~= view_set(before).insert(x));
}

fn contains_device(v: &Vec<DeviceId>, d: &DeviceId) -> (r: bool)
    ensures
        r == view_set(v@).contains(d@),
{
    let mut i: usize = 0;
    while i < v.len()
        invariant
            i <= v@.len(),
            forall|j: int| 0 <= j < i ==> v@[j]@ != d@,
        decreases v@.len() - i,
    {
        if v[i].eq(d) {
            return true;
        }
        i += 1;
    }
    false
}

/// The devices whose clocks can be related to the reference device's clock through chains of
/// connections, each once; the reference device is always among them.
pub fn reachable_devices(reference: &DeviceId, connections: &Vec<(DeviceTime, DeviceTime)>) -> (r: Vec<DeviceId>)
    ensures
        distinct_views(r@),
        forall|d: DeviceIdView| #[trigger] view_set(r@).contains(d) <==> reachable(conn_views(connections@), reference@, d),
{
    let ghost cv = conn_views(connections@);
    let ghost u = known_devices(cv, reference@);
    let mut reached: Vec<DeviceId> = Vec::new();
    let mut queue: Vec<DeviceId> = Vec::new();
    queue.push(reference.clone());
    proof {
        lemma_reachable_start(cv, reference@);
        let s = Seq::new(2 * cv.len(), |j: int| if j % 2 == 0 { cv[j / 2].0.device_id } else { cv[j / 2].1.device_id }).push(reference@);
        assert(s[2 * cv.len() as int] == reference@);
        assert(u.contains(reference@));
        assert(queue@[0]@ == reference@);
    }
    while queue.len() > 0
        invariant
            cv == conn_views(connections@),
            u == known_devices(cv, reference@),
            u.finite(),
            distinct_views(reached@),
            forall|k: int| 0 <= k < reached@.len() ==> reachable(cv, reference@, #[trigger] reached@[k]@) && u.contains(reached@[k]@),
            forall|k: int| 0 <= k < queue@.len() ==> reachable(cv, reference@, #[trigger] queue@[k]@) && u.contains(queue@[k]@),
            view_set(reached@).contains(reference@) || view_set(queue@).contains(reference@),
            forall|i: int, x: DeviceIdView, y: DeviceIdView|
                0 <= i < cv.len() && view_set(reached@).contains(x) && #[trigger] link_at(cv, i, x, y) ==> view_set(reached@).contains(y)
                    || view_set(queue@).contains(y),
        decreases u.difference(view_set(reached@)).len(), queue@.len(),
    {
        let ghost old_queue = queue@;
        let cur = queue.pop().unwrap();
        let ghost popped = queue@;
        proof {
            assert(old_queue =~= popped.push(cur));
            assert(cur@ == old_queue[old_queue.len() - 1]@);
            assert forall|y: DeviceIdView| #[trigger] view_set(old_queue).contains(y) implies view_set(popped).contains(y) || y == cur@ by {
                let k = choose|k: int| 0 <= k < old_queue.len() && #[trigger] old_queue[k]@ == y;
                if k < popped.len() {
                    assert(popped[k] == old_queue[k]);
                }
            }
        }
        if contains_device(&reached, &cur) {
            continue;
        }
        let ghost before = reached@;
        let ghost unreached_before = u.difference(view_set(before));
        reached.push(cur.clone());
        proof {
            lemma_view_set_push(before, reached@, cur@);
            assert(u.difference(view_set(reached@)) =~= unreached_before.remove(cur@));
            assert(unreached_before.contains(cur@));
        }
        let mut i: usize = 0;
        while i < connections.len()
            invariant
                cv == conn_views(connections@),
                u == known_devices(cv, reference@),
                u.finite(),
                reached@.len() == before.len() + 1,
                reached@ == before.push(reached@[before.len() as int]),
                reached@[before.len() as int]@ == cur@,
                view_set(reached@) == view_set(before).insert(cur@),
                distinct_views(reached@),
                forall|k: int| 0 <= k < reached@.len() ==> reachable(cv, reference@, #[trigger] reached@[k]@) && u.contains(reached@[k]@),
                forall|k: int| 0 <= k < queue@.len() ==> reachable(cv, reference@, #[trigger] queue@[k]@) && u.contains(queue@[k]@),
                reachable(cv, reference@, cur@),
                forall|y: DeviceIdView| #[trigger] view_set(popped).contains(y) ==> view_set(queue@).contains(y),
                view_set(reached@).contains(reference@) || view_set(queue@).contains(reference@),
                forall|j: int, x: DeviceIdView, y: DeviceIdView|
                    0 <= j < cv.len() && view_set(before).contains(x) && #[trigger] link_at(cv, j, x, y) ==> view_set(reached@).contains(y)
                        || view_set(queue@).contains(y),
                forall|j: int, y: DeviceIdView|
                    0 <= j < i && #[trigger] link_at(cv, j, cur@, y) ==> view_set(reached@).contains(y) || view_set(queue@).contains(y),
                i <= cv.len(),
            decreases cv.len() - i,
        {
            let a = &connections[i].0;
            let b = &connections[i].1;
            let ghost q0 = queue@;
            proof {
                assert(cv[i as int] == (a@, b@));
                lemma_endpoints_known(cv, reference@, i as int);
            }
            if a.device_id.eq(&cur) && !contains_device(&reached, &b.device_id) {
                proof {
                    lemma_reachable_step(cv, reference@, cur@, b.device_id@, i as int);
                }
                queue.push(b.device_id.clone());
                proof {
                    lemma_view_set_push(q0, queue@, b.device_id@);
                }
            }
            let ghost q1 = queue@;
            if b.device_id.eq(&cur) && !contains_device(&reached, &a.device_id) {
                proof {
                    lemma_reachable_step(cv, reference@, cur@, a.device_id@, i as int);
                }
                queue.push(a.device_id.clone());
                proof {
                    lemma_view_set_push(q1, queue@, a.device_id@);
                }
            }
            proof {
                assert forall|y: DeviceIdView| #[trigger] view_set(q0).contains(y) implies view_set(queue@).contains(y) by {
                    let k = choose|k: int| 0 <= k < q0.len() && #[trigger] q0[k]@ == y;
                    assert(queue@[k] == q0[k]);
                }
            }
            i += 1;
        }
        proof {
            assert forall|j: int, x: DeviceIdView, y: DeviceIdView|
                0 <= j < cv.len() && view_set(reached@).contains(x) && #[trigger] link_at(cv, j, x, y) implies view_set(reached@).contains(y)
                    || view_set(queue@).contains(y) by {
                if x != cur@ {
                    assert(view_set(before).contains(x));
                }
            }
        }
    }
    proof {
        assert forall|d: DeviceIdView| #[trigger] view_set(reached@).contains(d) <==> reachable(cv, reference@, d) by {
            if reachable(cv, reference@, d) {
                let path = choose|path: Seq<DeviceIdView>| #[trigger] is_chain(cv, reference@, path) && path.last() == d;
                lemma_closed_complete(cv, reference@, view_set(reached@), path, path.len() - 1);
            }
            if view_set(reached@).contains(d) {
                let k = choose|k: int| 0 <= k < reached@.len() && #[trigger] reached@[k]@ == d;
            }
        }
    }
    reached
}

/// A device with the most readings, taken as the reference clock.
pub fn reference_device(chains: &Vec<(DeviceId, BTreeSet<u64>)>) -> (r: DeviceId)
    requires
        chains@.len() > 0,
    ensures
        exists|k: int| 0 <= k < chains@.len() && r@ == chains@[k].0@ && forall|j: int| 0 <= j < chains@.len() ==> (#[trigger] chains@[j].1@).len() <= chains@[k].1@.len(),
{
    let mut best: usize = 0;
    let mut i: usize = 1;
    while i < chains.len()
        invariant
            chains@.len() > 0,
            best < i <= chains@.len(),
            forall|j: int| 0 <= j < i ==> (#[trigger] chains@[j].1@).len() <= chains@[best as int].1@.len(),
        decreases chains@.len() - i,
    {
        if chains[i].1.len() >= chains[best].1.len() {
            best = i;
        }
        i += 1;
    }
    chains[best].0.clone()
}

/// Whether the chain of a device is used to estimate clock rates: the device is reachable and
/// has at least two different readings.
pub open spec fn solvable(c: (DeviceIdView, Set<u64>), reach: Set<DeviceIdView>) -> bool {
    reach.contains(c.0) && c.1.len() >= 2
}

/// The view of a list of chains.
pub open spec fn chain_views(chains: Seq<(DeviceId, BTreeSet<u64>)>) -> Seq<(DeviceIdView, Set<u64>)> {
    chains.map_values(|c: (DeviceId, BTreeSet<u64>)| (c.0@, c.1@))
}

/// The chains used to estimate clock rates, in order (see [`solvable`]).
pub fn solvable_chains(chains: &Vec<(DeviceId, BTreeSet<u64>)>, reached: &Vec<DeviceId>) -> (r: Vec<(DeviceId, BTreeSet<u64>)>)
    ensures
        chain_views(r@) == chain_views(chains@).filter(|c: (DeviceIdView, Set<u64>)| solvable(c, view_set(reached@))),
{
    let ghost cv = chain_views(chains@);
    let ghost reach = view_set(reached@);
    let mut r: Vec<(DeviceId, BTreeSet<u64>)> = Vec::new();
    let mut i: usize = 0;
    while i < chains.len()
        invariant
            cv == chain_views(chains@),
            reach == view_set(reached@),
            i <= chains@.len(),
            chain_views(r@) == cv.take(i as int).filter(|c: (DeviceIdView, Set<u64>)| solvable(c, reach)),
        decreases chains@.len() - i,
    {
        proof {
            reveal_with_fuel(Seq::filter, 1);
            assert(cv.take(i + 1).drop_last() =~= cv.take(i as int));
            assert(cv[i as int] == (chains@[i as int].0@, chains@[i as int].1@));
        }
        let keep = contains_device(reached, &chains[i].0) && chains[i].1.len() >= 2;
        if keep {
            let ghost before = chain_views(r@);
            r.push((chains[i].0.clone(), chains[i].1.clone()));
            assert(chain_views(r@) =~= before.push(cv[i as int]));
        }
        i += 1;
    }
    assert(cv.take(chains@.len() as int) =~= cv);
    r
}

/// Whether both readings of a connection belong to reachable devices.
pub open spec fn among(c: (DeviceTimeView, DeviceTimeView), reach: Set<DeviceIdView>) -> bool {
    reach.contains(c.0.device_id) && reach.contains(c.1.device_id)
}

/// The connections between reachable devices, in order.
pub fn connections_among(connections: &Vec<(DeviceTime, DeviceTime)>, reached: &Vec<DeviceId>) -> (r: Vec<(DeviceTime, DeviceTime)>)
    ensures
        conn_views(r@) == conn_views(connections@).filter(|c: (DeviceTimeView, DeviceTimeView)| among(c, view_set(reached@))),
{
    let ghost cv = conn_views(connections@);
    let ghost reach = view_set(reached@);
    let mut r: Vec<(DeviceTime, DeviceTime)> = Vec::new();
    let mut i: usize = 0;
    while i < connections.len()
        invariant
            cv == conn_views(connections@),
            reach == view_set(reached@),
            i <= connections@.len(),
            conn_views(r@) == cv.take(i as int).filter(|c: (DeviceTimeView, DeviceTimeView)| among(c, reach)),
        decreases connections@.len() - i,
    {
        proof {
            reveal_with_fuel(Seq::filter, 1);
            assert(cv.take(i + 1).drop_last() =~= cv.take(i as int));
            assert(cv[i as int] == (connections@[i as int].0@, connections@[i as int].1@));
        }
        let keep = contains_device(reached, &connections[i].0.device_id) && contains_device(reached, &connections[i].1.device_id);
        if keep {
            let ghost before = conn_views(r@);
            r.push((connections[i].0.clone(), connections[i].1.clone()));
            assert(conn_views(r@) =~= before.push(cv[i as int]));
        }
        i += 1;
    }
    assert(cv.take(connections@.len() as int) =~= cv);
    r
}

/// The first reading later than `t`: its index, with every earlier reading at or before `t`;
/// `None` when no reading is later than `t`.
pub fn first_reading_after(raws: &Vec<u64>, t: u64) -> (r: Option<usize>)
    ensures
        match r {
            Some(i) => i < raws@.len() && raws@[i as int] > t && forall|j: int| 0 <= j < i ==> #[trigger] raws@[j] <= t,
            None => forall|j: int| 0 <= j < raws@.len() ==> #[trigger] raws@[j] <= t,
        },
{
    let mut i: usize = 0;
    while i < raws.len()
        invariant
            i <= raws@.len(),
            forall|j: int| 0 <= j < i ==> #[trigger] raws@[j] <= t,
        decreases raws@.len() - i,
    {
        if raws[i] > t {
            return Some(i);
        }
        i += 1;
    }
    None
}

/// The last reading at or before `t`: its index, with every later reading after `t`; `None`
/// when every reading is after `t`.
pub fn last_reading_until(raws: &Vec<u64>, t: u64) -> (r: Option<usize>)
    ensures
        match r {
            Some(i) => i < raws@.len() && raws@[i as int] <= t && forall|j: int| i < j < raws@.len() ==> #[trigger] raws@[j] > t,
            None => forall|j: int| 0 <= j < raws@.len() ==> #[trigger] raws@[j] > t,
        },
{
    let mut i: usize = raws.len();
    while i > 0
        invariant
            i <= raws@.len(),
            forall|j: int| i <= j < raws@.len() ==> #[trigger] raws@[j] > t,
        decreases i,
    {
        if raws[i - 1] <= t {
            return Some(i - 1);
        }
        i -= 1;
    }
    None
}

/// The last reading strictly before `t`: its index, with every later reading at or after `t`;
/// `None` when no reading is before `t`.
pub fn last_reading_before(raws: &Vec<u64>, t: u64) -> (r: Option<usize>)
    ensures
        match r {
            Some(i) => i < raws@.len() && raws@[i as int] < t && forall|j: int| i < j < raws@.len() ==> #[trigger] raws@[j] >= t,
            None => forall|j: int| 0 <= j < raws@.len() ==> #[trigger] raws@[j] >= t,
        },
{
    let mut i: usize = raws.len();
    while i > 0
        invariant
            i <= raws@.len(),
            forall|j: int| i <= j < raws@.len() ==> #[trigger] raws@[j] >= t,
        decreases i,
    {
        if raws[i - 1] < t {
            return Some(i - 1);
        }
        i -= 1;
    }
    None
}

/// The earliest reading of any chain, from which global times are counted; 0 when there is no
/// reading at all.
pub fn earliest_reading(chains: &Vec<(DeviceId, BTreeSet<u64>)>) -> (r: u64)
    ensures
        forall|k: int, x: u64| 0 <= k < chains@.len() && #[trigger] chains@[k].1@.contains(x) ==> r <= x,
        (exists|k: int, x: u64| 0 <= k < chains@.len() && #[trigger] chains@[k].1@.contains(x)) ==> exists|k: int|
            0 <= k < chains@.len() && #[trigger] chains@[k].1@.contains(r),
        (forall|k: int, x: u64| 0 <= k < chains@.len() ==> !#[trigger] chains@[k].1@.contains(x)) ==> r == 0,
{
    let mut best: Option<u64> = None;
    let mut i: usize = 0;
    while i < chains.len()
        invariant
            i <= chains@.len(),
            forall|k: int, x: u64| 0 <= k < i && #[trigger] chains@[k].1@.contains(x) ==> (best matches Some(b) && b <= x),
            best matches Some(b) ==> exists|k: int| 0 <= k < i && #[trigger] chains@[k].1@.contains(b),
            best is None ==> forall|k: int, x: u64| 0 <= k < i ==> !#[trigger] chains@[k].1@.contains(x),
        decreases chains@.len() - i,
    {
        let set = &chains[i].1;
        for x in it: set.iter()
            invariant
                i < chains@.len(),
                *set == chains@[i as int].1,
                forall|k: int, y: u64| 0 <= k < i && #[trigger] chains@[k].1@.contains(y) ==> (best matches Some(b) && b <= y),
                forall|j: int| 0 <= j < it.index() ==> (best matches Some(b) && b <= *#[trigger] it.seq()[j]),
                best matches Some(b) ==> (exists|k: int| 0 <= k < i && #[trigger] chains@[k].1@.contains(b)) || set@.contains(b),
                best is None ==> forall|k: int, y: u64| 0 <= k < i ==> !#[trigger] chains@[k].1@.contains(y),
                best is None ==> it.index() == 0,
        {
            best = match best {
                Some(b) if b <= *x => Some(b),
                _ => Some(*x),
            };
        }
        i += 1;
    }
    match best {
        Some(b) => b,
        None => 0,
    }
}

/// The devices whose clocks are solved for, in the order of their unknowns: the reference
/// first, then every solvable device other than the reference, in order.
pub fn clock_order(reference: &DeviceId, solvable: &Vec<(DeviceId, BTreeSet<u64>)>) -> (r: Vec<DeviceId>)
    ensures
        r@.map_values(|d: DeviceId| d@) == seq![reference@] + chain_views(solvable@).map_values(
            |c: (DeviceIdView, Set<u64>)| c.0,
        ).filter(|d: DeviceIdView| d != reference@),
{
    let ghost ids = chain_views(solvable@).map_values(|c: (DeviceIdView, Set<u64>)| c.0);
    let mut r: Vec<DeviceId> = Vec::new();
    r.push(reference.clone());
    let mut i: usize = 0;
    while i < solvable.len()
        invariant
            ids == chain_views(solvable@).map_values(|c: (DeviceIdView, Set<u64>)| c.0),
            i <= solvable@.len(),
            r@.map_values(|d: DeviceId| d@) == seq![reference@] + ids.take(i as int).filter(|d: DeviceIdView| d != reference@),
        decreases solvable@.len() - i,
    {
        let ghost prev = ids.take(i as int).filter(|d: DeviceIdView| d != reference@);
        proof {
            reveal_with_fuel(Seq::filter, 1);
            assert(ids.take(i + 1).drop_last() =~= ids.take(i as int));
            assert(ids.take(i + 1).last() == ids[i as int]);
            assert(ids[i as int] == solvable@[i as int].0@);
            if ids[i as int] != reference@ {
                assert(ids.take(i + 1).filter(|d: DeviceIdView| d != reference@) == prev.push(ids[i as int]));
            } else {
                assert(ids.take(i + 1).filter(|d: DeviceIdView| d != reference@) == prev);
            }
        }
        let same = solvable[i].0.eq(reference);
        assert(same == (ids[i as int] == reference@));
        if !same {
            let ghost before = r@.map_values(|d: DeviceId| d@);
            r.push(solvable[i].0.clone());
            assert(r@.map_values(|d: DeviceId| d@) =~= before.push(ids[i as int]));
            assert(seq![reference@] + prev.push(ids[i as int]) =~= before.push(ids[i as int]));
        }
        assert(r@.map_values(|d: DeviceId| d@) == seq![reference@] + ids.take(i + 1).filter(|d: DeviceIdView| d != reference@));
        i += 1;
    }
    assert(ids.take(solvable@.len() as int) =~= ids);
    r
}

} // verus!
