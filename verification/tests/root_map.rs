use miden_mast::ids::MastNodeId;
use miden_mast::root_map::MastForestRootMap;

fn n(v: u32) -> MastNodeId {
    MastNodeId::new_unchecked(v)
}

#[test]
fn every_root_maps_to_its_new_id() {
    let id_maps = vec![vec![Some(n(5)), None, Some(n(6))], vec![Some(n(1))]];
    let roots = vec![vec![n(0), n(2)], vec![n(0)]];
    let map = MastForestRootMap::from_node_id_map(id_maps, roots);
    assert_eq!(map.map_root(0, &n(0)), Some(n(5)));
    assert_eq!(map.map_root(0, &n(2)), Some(n(6)));
    assert_eq!(map.map_root(1, &n(0)), Some(n(1)));
}

#[test]
fn non_roots_and_unknown_forests_map_to_nothing() {
    let id_maps = vec![vec![Some(n(5)), Some(n(7)), Some(n(6))]];
    let roots = vec![vec![n(2)]];
    let map = MastForestRootMap::from_node_id_map(id_maps, roots);
    assert_eq!(map.map_root(0, &n(2)), Some(n(6)));
    assert_eq!(map.map_root(0, &n(1)), None);
    assert_eq!(map.map_root(0, &n(0)), None);
    assert_eq!(map.map_root(1, &n(2)), None);
}

#[test]
fn forest_without_roots_maps_nothing() {
    let map = MastForestRootMap::from_node_id_map(vec![vec![Some(n(0))]], vec![vec![]]);
    assert_eq!(map.map_root(0, &n(0)), None);
}
