use union_find::forest::{UfError, UF};

fn root_count(uf: &UF) -> usize {
    let ps = uf.parents();
    let mut k: usize = 0;
    let mut i: usize = 0;
    while i < ps.len() {
        if ps[i] == i {
            k += 1;
        }
        i += 1;
    }
    k
}

#[test]
fn scenario_union_connects() {
    let mut uf = UF::init(5);
    assert_eq!(uf.is_connected(0, 1), Ok(false));
    assert_eq!(uf.union(0, 1), Ok(()));
    assert_eq!(uf.is_connected(0, 1), Ok(true));
    assert_eq!(uf.is_connected(2, 3), Ok(false));
}

#[test]
fn scenario_chain_merge() {
    let mut uf = UF::init(4);
    assert_eq!(uf.union(0, 1), Ok(()));
    assert_eq!(uf.union(2, 3), Ok(()));
    assert_eq!(uf.union(1, 2), Ok(()));
    assert_eq!(uf.is_connected(0, 3), Ok(true));
}

#[test]
fn scenario_self_union() {
    let mut uf = UF::init(3);
    assert_eq!(uf.union(0, 0), Ok(()));
    assert_eq!(uf.is_connected(0, 0), Ok(true));
    assert_eq!(uf.is_connected(0, 1), Ok(false));
}

#[test]
fn scenario_out_of_range_query() {
    let uf = UF::init(2);
    assert_eq!(uf.is_connected(0, 5), Err(UfError::IndexOutOfRange));
}

#[test]
fn out_of_range_everywhere() {
    let mut uf = UF::init(3);
    assert_eq!(uf.is_connected(3, 0), Err(UfError::IndexOutOfRange));
    assert_eq!(uf.find_root(3), Err(UfError::IndexOutOfRange));
    assert_eq!(uf.find_root_level(7), Err(UfError::IndexOutOfRange));
    assert_eq!(uf.union(0, 3), Err(UfError::IndexOutOfRange));
    assert_eq!(uf.root_level_union(5, 1), Err(UfError::IndexOutOfRange));
    assert_eq!(uf.crude_union(1, 9), Err(UfError::IndexOutOfRange));
    assert_eq!(uf.parents(), &vec![0usize, 1, 2]);
    assert_eq!(uf.weights(), &vec![0usize, 0, 0]);
}

#[test]
fn empty_forest_refuses_everything() {
    let mut uf = UF::init(0);
    assert_eq!(uf.count(), 0);
    assert_eq!(uf.is_connected(0, 0), Err(UfError::IndexOutOfRange));
    assert_eq!(uf.union(0, 0), Err(UfError::IndexOutOfRange));
    assert_eq!(uf.find_root(0), Err(UfError::IndexOutOfRange));
}

#[test]
fn reflexive_now_and_after_merges() {
    let mut uf = UF::init(4);
    let mut i: usize = 0;
    while i < 4 {
        assert_eq!(uf.is_connected(i, i), Ok(true));
        i += 1;
    }
    assert_eq!(uf.union(0, 1), Ok(()));
    assert_eq!(uf.union(2, 3), Ok(()));
    let mut j: usize = 0;
    while j < 4 {
        assert_eq!(uf.is_connected(j, j), Ok(true));
        j += 1;
    }
}

#[test]
fn symmetric_queries() {
    let mut uf = UF::init(4);
    assert_eq!(uf.is_connected(0, 1), uf.is_connected(1, 0));
    assert_eq!(uf.union(0, 1), Ok(()));
    assert_eq!(uf.is_connected(0, 1), uf.is_connected(1, 0));
    assert_eq!(uf.is_connected(1, 2), uf.is_connected(2, 1));
    assert_eq!(uf.is_connected(0, 3), uf.is_connected(3, 0));
}

#[test]
fn transitive_connectivity() {
    let mut uf = UF::init(5);
    assert_eq!(uf.union(0, 1), Ok(()));
    assert_eq!(uf.union(1, 2), Ok(()));
    assert_eq!(uf.is_connected(0, 1), Ok(true));
    assert_eq!(uf.is_connected(1, 2), Ok(true));
    assert_eq!(uf.is_connected(0, 2), Ok(true));
    assert_eq!(uf.is_connected(0, 4), Ok(false));
}

#[test]
fn monotonic_merge() {
    let mut uf = UF::init(6);
    assert_eq!(uf.union(0, 1), Ok(()));
    assert_eq!(uf.is_connected(0, 1), Ok(true));
    assert_eq!(uf.union(2, 3), Ok(()));
    assert_eq!(uf.is_connected(0, 1), Ok(true));
    assert_eq!(uf.union(4, 5), Ok(()));
    assert_eq!(uf.is_connected(0, 1), Ok(true));
    assert_eq!(uf.union(1, 4), Ok(()));
    assert_eq!(uf.is_connected(0, 1), Ok(true));
    assert_eq!(uf.is_connected(0, 5), Ok(true));
}

#[test]
fn root_count_drops_once_per_effective_union() {
    let mut uf = UF::init(6);
    assert_eq!(root_count(&uf), 6);
    assert_eq!(uf.union(0, 1), Ok(()));
    assert_eq!(root_count(&uf), 5);
    assert_eq!(uf.union(0, 1), Ok(()));
    assert_eq!(root_count(&uf), 5);
    assert_eq!(uf.union(2, 3), Ok(()));
    assert_eq!(root_count(&uf), 4);
    assert_eq!(uf.union(1, 3), Ok(()));
    assert_eq!(root_count(&uf), 3);
}

#[test]
fn query_is_idempotent_and_pure() {
    let mut uf = UF::init(4);
    assert_eq!(uf.union(0, 1), Ok(()));
    let parents_before = uf.parents().clone();
    let weights_before = uf.weights().clone();
    let first = uf.is_connected(0, 1);
    let second = uf.is_connected(0, 1);
    let third = uf.is_connected(0, 1);
    assert_eq!(first, Ok(true));
    assert_eq!(second, first);
    assert_eq!(third, first);
    assert_eq!(uf.parents(), &parents_before);
    assert_eq!(uf.weights(), &weights_before);
}

#[test]
fn find_root_walks_the_chain() {
    let mut uf = UF::init(3);
    assert_eq!(uf.union(0, 1), Ok(()));
    assert_eq!(uf.parents(), &vec![0usize, 0, 2]);
    assert_eq!(uf.find_root(1), Ok(0));
    assert_eq!(uf.find_root(0), Ok(0));
    assert_eq!(uf.find_root(2), Ok(2));
}

#[test]
fn union_weight_bookkeeping() {
    let mut uf = UF::init(4);
    assert_eq!(uf.union(0, 1), Ok(()));
    assert_eq!(uf.parents(), &vec![0usize, 0, 2, 3]);
    assert_eq!(uf.weights(), &vec![1usize, 0, 0, 0]);
    assert_eq!(uf.union(0, 2), Ok(()));
    assert_eq!(uf.parents(), &vec![0usize, 0, 0, 3]);
    assert_eq!(uf.weights(), &vec![1usize, 0, 0, 0]);
    assert_eq!(uf.union(3, 0), Ok(()));
    assert_eq!(uf.parents(), &vec![0usize, 0, 0, 0]);
    assert_eq!(uf.weights(), &vec![1usize, 0, 0, 0]);
}

#[test]
fn union_weights_keep_growing_on_repeats() {
    let mut uf = UF::init(2);
    assert_eq!(uf.union(0, 1), Ok(()));
    assert_eq!(uf.weights(), &vec![1usize, 0]);
    assert_eq!(uf.union(0, 1), Ok(()));
    assert_eq!(uf.weights(), &vec![1usize, 0]);
    assert_eq!(uf.union(1, 1), Ok(()));
    assert_eq!(uf.weights(), &vec![1usize, 1]);
    assert_eq!(uf.union(0, 1), Ok(()));
    assert_eq!(uf.weights(), &vec![2usize, 1]);
    assert_eq!(uf.parents(), &vec![0usize, 0]);
}

#[test]
fn depth_weighted_union_ties_and_depths() {
    let mut uf = UF::init(5);
    assert_eq!(uf.root_level_union(0, 1), Ok(()));
    assert_eq!(uf.parents(), &vec![0usize, 0, 2, 3, 4]);
    assert_eq!(uf.root_level_union(2, 3), Ok(()));
    assert_eq!(uf.parents(), &vec![0usize, 0, 2, 2, 4]);
    assert_eq!(uf.find_root_level(1), Ok((0, 1)));
    assert_eq!(uf.find_root_level(3), Ok((2, 1)));
    assert_eq!(uf.root_level_union(1, 3), Ok(()));
    assert_eq!(uf.parents(), &vec![0usize, 0, 0, 2, 4]);
    assert_eq!(uf.is_connected(0, 3), Ok(true));
    assert_eq!(uf.find_root_level(3), Ok((0, 2)));
    assert_eq!(uf.weights(), &vec![0usize, 0, 0, 0, 0]);
}

#[test]
fn depth_weighted_union_attaches_shallower_under_deeper() {
    let mut uf = UF::init(3);
    assert_eq!(uf.root_level_union(0, 1), Ok(()));
    assert_eq!(uf.parents(), &vec![0usize, 0, 2]);
    assert_eq!(uf.root_level_union(1, 2), Ok(()));
    assert_eq!(uf.parents(), &vec![0usize, 0, 0]);

    let mut uf2 = UF::init(3);
    assert_eq!(uf2.root_level_union(0, 1), Ok(()));
    assert_eq!(uf2.root_level_union(2, 1), Ok(()));
    assert_eq!(uf2.parents(), &vec![0usize, 0, 0]);
}

#[test]
fn crude_union_attaches_to_current_parent() {
    let mut uf = UF::init(4);
    assert_eq!(uf.crude_union(0, 1), Ok(()));
    assert_eq!(uf.parents(), &vec![0usize, 0, 2, 3]);
    assert_eq!(uf.crude_union(1, 2), Ok(()));
    assert_eq!(uf.parents(), &vec![0usize, 0, 0, 3]);
    assert_eq!(uf.is_connected(0, 2), Ok(true));
    assert_eq!(uf.crude_union(0, 1), Ok(()));
    assert_eq!(uf.parents(), &vec![0usize, 0, 0, 3]);
    assert_eq!(uf.weights(), &vec![0usize, 0, 0, 0]);
}

#[test]
fn construction_state() {
    let uf = UF::init(7);
    assert_eq!(uf.count(), 7);
    assert_eq!(uf.parents(), &vec![0usize, 1, 2, 3, 4, 5, 6]);
    assert_eq!(uf.weights(), &vec![0usize, 0, 0, 0, 0, 0, 0]);
    assert_eq!(root_count(&uf), 7);
}
