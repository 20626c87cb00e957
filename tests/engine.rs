use wfc_engine::cache::DomainCache;
use wfc_engine::system::ConfigError;
use wfc_engine::{
    entropy_key, get_domain_weights, get_lowest_entropy, lowest_of_chunks, split_chunks,
    NodeSystem, NodeVariants, TileType, ENTROPY_MAX,
};

const SIDE: usize = 3;

fn grid_neighbours(position: usize) -> Vec<usize> {
    let x = (position % SIDE) as i64;
    let y = (position / SIDE) as i64;
    let mut out = vec![];
    for dy in [-1i64, 0, 1] {
        for dx in [-1i64, 0, 1] {
            if dx == 0 && dy == 0 {
                continue;
            }
            let (nx, ny) = (x + dx, y + dy);
            if nx >= 0 && ny >= 0 && nx < SIDE as i64 && ny < SIDE as i64 {
                out.push(ny as usize * SIDE + nx as usize);
            }
        }
    }
    out
}

fn grid_system() -> NodeSystem<TileType> {
    let mut system: NodeSystem<TileType> = NodeSystem::new();
    for p in 0..SIDE * SIDE {
        system.add_node_to_atlas(p, grid_neighbours(p));
    }
    system
}

fn run_to_end(system: &mut NodeSystem<TileType>) -> usize {
    let mut collapsed = 0;
    while let Some(node) = system.next() {
        collapsed += 1;
        for p in node.get_connecting_nodes() {
            system.add_node_to_queue(p, 1.5f32.to_bits());
        }
    }
    collapsed
}

fn verdicts(pairs: &[(&str, bool)]) -> Vec<(String, bool)> {
    pairs.iter().map(|(k, v)| (k.to_string(), *v)).collect()
}

#[test]
fn tile_adjacency_rules() {
    assert!(TileType::Sand.can_spawn_next_to(TileType::Water));
    assert!(!TileType::Sand.can_spawn_next_to(TileType::Tree));
    assert!(TileType::Grass.can_spawn_next_to(TileType::Tree));
    assert!(!TileType::Grass.can_spawn_next_to(TileType::Water));
    assert!(TileType::Water.can_spawn_next_to(TileType::DeepWater));
    assert!(!TileType::DeepWater.can_spawn_next_to(TileType::Sand));
    assert!(!TileType::Tree.can_spawn_next_to(TileType::Sand));
    assert!(TileType::Tree.can_spawn_next_to(TileType::Unset));
    assert!(TileType::Invalid.can_spawn_next_to(TileType::DeepWater));
}

#[test]
fn tile_crowding_rules() {
    assert!(TileType::Sand.can_spawn(&vec![TileType::Grass; 5]));
    assert!(!TileType::Sand.can_spawn(&vec![TileType::Grass; 6]));
    assert!(!TileType::Sand.can_spawn(&vec![TileType::Water; 6]));
    assert!(!TileType::Water.can_spawn(&vec![TileType::DeepWater; 6]));
    assert!(TileType::Water.can_spawn(&vec![TileType::Water; 8]));
    assert!(!TileType::Grass.can_spawn(&vec![TileType::Tree; 6]));
    assert!(TileType::Tree.can_spawn(&vec![TileType::Tree; 8]));
}

#[test]
fn tile_names_weights_and_domain() {
    assert_eq!(TileType::DeepWater.get_name(), "DeepWater");
    assert_eq!(TileType::Unset.get_name(), "None");
    assert_eq!(TileType::Sand.get_weight(), 1);
    assert_eq!(TileType::Tree.get_weight(), 9);
    assert_eq!(TileType::Grass.get_weight(), 10);
    assert_eq!(TileType::get_invalid_type(), TileType::Invalid);
    assert_eq!(TileType::Sand.get_weighting_multiplier(&vec![TileType::Sand; 3]), 1);
    let weights = get_domain_weights::<TileType>();
    assert_eq!(
        weights,
        vec![
            (TileType::Sand, 1),
            (TileType::Grass, 10),
            (TileType::Water, 10),
            (TileType::DeepWater, 9),
            (TileType::Tree, 9),
        ]
    );
}

#[test]
fn entropy_sentinel_for_empty_or_zero_domains() {
    let empty: Vec<(TileType, u32)> = vec![];
    assert_eq!(entropy_key(&empty, 7), ENTROPY_MAX);
    let zero = vec![(TileType::Sand, 0), (TileType::Grass, 0)];
    assert_eq!(entropy_key(&zero, 7), ENTROPY_MAX);
    let some = vec![(TileType::Sand, 0), (TileType::Grass, 3)];
    assert_eq!(entropy_key(&some, 1.0f32.to_bits()), 1.0f32.to_bits());
    assert_eq!(ENTROPY_MAX, f32::MAX.to_bits());
}

#[test]
fn entropy_ignores_domain_order() {
    let a = vec![(TileType::Sand, 0), (TileType::Grass, 3), (TileType::Tree, 0)];
    let b = vec![(TileType::Tree, 0), (TileType::Sand, 0), (TileType::Grass, 3)];
    assert_eq!(entropy_key(&a, 11), entropy_key(&b, 11));
    let c = vec![(TileType::Tree, 0), (TileType::Sand, 0)];
    let d = vec![(TileType::Sand, 0), (TileType::Tree, 0)];
    assert_eq!(entropy_key(&c, 11), entropy_key(&d, 11));
}

#[test]
fn lowest_entropy_takes_first_minimum() {
    assert_eq!(get_lowest_entropy(&vec![]), (0, ENTROPY_MAX));
    assert_eq!(get_lowest_entropy(&vec![(4, ENTROPY_MAX), (5, ENTROPY_MAX)]), (0, ENTROPY_MAX));
    assert_eq!(get_lowest_entropy(&vec![(4, 9), (5, 3), (6, 3), (7, 8)]), (5, 3));
}

#[test]
fn partitioned_selection_matches_sequential() {
    let snapshot: Vec<(usize, u32)> = (0..10).map(|i| (i, [9, 4, 7, 4, 8, 2, 6, 2, 5, 3][i])).collect();
    let chunks = split_chunks(&snapshot, 3, 3);
    assert_eq!(chunks.len(), 4);
    assert_eq!(chunks[3], vec![(9, 3)]);
    let minima = lowest_of_chunks(&chunks);
    assert_eq!(minima, vec![(1, 4), (5, 2), (7, 2), (9, 3)]);
    assert_eq!(get_lowest_entropy(&minima), get_lowest_entropy(&snapshot));
    assert_eq!(get_lowest_entropy(&minima), (5, 2));
    let even = split_chunks(&snapshot, 2, 5);
    assert_eq!(even.len(), 2);
    assert_eq!(get_lowest_entropy(&lowest_of_chunks(&even)), (5, 2));
}

#[test]
fn cache_keeps_first_verdict() {
    let mut cache = DomainCache::new();
    assert_eq!(cache.get(&"SandGrass".to_string()), None);
    cache.insert("SandGrass".to_string(), true);
    cache.insert("Tree".to_string(), false);
    assert_eq!(cache.get(&"SandGrass".to_string()), Some(true));
    assert_eq!(cache.get(&"Tree".to_string()), Some(false));
    assert_eq!(cache.len(), 2);
    let loaded = DomainCache::from_entries(verdicts(&[("A", true), ("B", false), ("A", false)]));
    assert_eq!(loaded.len(), 2);
    assert_eq!(loaded.get(&"A".to_string()), Some(true));
    assert_eq!(loaded.to_entries(), verdicts(&[("A", true), ("B", false)]));
}

#[test]
fn zero_workers_are_refused() {
    let mut system: NodeSystem<TileType> = NodeSystem::new();
    assert_eq!(system.set_max_threads(0), Err(ConfigError::ZeroThreads));
    assert_eq!(system.set_max_threads(4), Ok(()));
}

#[test]
fn queue_only_takes_open_cells() {
    let mut system: NodeSystem<TileType> = NodeSystem::new();
    system.add_node_to_queue(3, 5);
    assert!(system.next().is_none());
    system.add_node_to_atlas(0, vec![]);
    system.set_cache(verdicts(&[("Sand", false), ("Grass", true), ("Water", false), ("DeepWater", false), ("Tree", false)]));
    let node = system.next().unwrap();
    assert_eq!(node.get_atlas_position(), 0);
    system.add_node_to_queue(0, 5);
    assert!(system.next().is_none());
}

#[test]
fn single_fitting_candidate_is_always_chosen() {
    for _ in 0..20 {
        let mut system: NodeSystem<TileType> = NodeSystem::new();
        system.add_node_to_atlas(0, vec![]);
        system.set_cache(verdicts(&[("Sand", false), ("Grass", true), ("Water", false), ("DeepWater", false), ("Tree", false)]));
        let node = system.next().unwrap();
        assert_eq!(node.get_node_type(), TileType::Grass);
        assert!(node.has_collapsed());
        assert_eq!(system.get_node(0).unwrap().get_node_type(), TileType::Grass);
    }
}

#[test]
fn no_fitting_candidate_gives_invalid() {
    let mut system: NodeSystem<TileType> = NodeSystem::new();
    system.add_node_to_atlas(0, vec![]);
    system.set_cache(verdicts(&[("Sand", false), ("Grass", false), ("Water", false), ("DeepWater", false), ("Tree", false)]));
    let node = system.next().unwrap();
    assert_eq!(node.get_node_type(), TileType::Invalid);
    assert!(node.has_collapsed());
    assert!(system.next().is_none());
}

#[test]
fn cached_verdict_outlives_the_rules() {
    let mut system: NodeSystem<TileType> = NodeSystem::new();
    system.add_node_to_atlas(0, vec![]);
    system.add_node_to_atlas(1, vec![]);
    let mut first = system.next().unwrap();
    let cache = system.get_cache();
    assert_eq!(cache.len(), 5);
    for name in ["Sand", "Grass", "Water", "DeepWater", "Tree"] {
        assert!(cache.contains(&(name.to_string(), true)));
    }
    let mut rewritten: Vec<(String, bool)> = cache.iter().map(|(k, _)| (k.clone(), k == "Water")).collect();
    rewritten.reverse();
    system.set_cache(rewritten);
    let second = system.next().unwrap();
    assert_eq!(second.get_node_type(), TileType::Water);
    first.set_collapsed(false);
    assert!(!first.has_collapsed());
}

#[test]
fn grid_collapses_completely() {
    let mut system = grid_system();
    assert_eq!(system.set_max_threads(2), Ok(()));
    system.set_chunk_limit(1);
    let collapsed = run_to_end(&mut system);
    assert_eq!(collapsed, SIDE * SIDE);
    let atlas = system.get_atlas();
    assert_eq!(atlas.len(), SIDE * SIDE);
    for p in 0..SIDE * SIDE {
        let node = atlas[p].as_ref().unwrap();
        assert!(node.has_collapsed());
        assert_ne!(node.get_node_type(), TileType::Unset);
        assert_eq!(node.get_atlas_position(), p);
    }
    assert!(system.next().is_none());
}

#[test]
fn neighbour_types_skip_empty_positions() {
    let mut system: NodeSystem<TileType> = NodeSystem::new();
    system.add_node_to_atlas(0, vec![1, 2, 40]);
    system.add_node_to_atlas(2, vec![0]);
    let types = system.get_connecting_node_types(&vec![1, 2, 40, 0]);
    assert_eq!(types, vec![TileType::Unset, TileType::Unset]);
    let names = system.get_connecting_node_type_names(&vec![TileType::Sand, TileType::Tree]);
    assert_eq!(names, vec!["Sand".to_string(), "Tree".to_string()]);
}

#[test]
fn reset_cell_becomes_selectable_again() {
    let mut system = grid_system();
    run_to_end(&mut system);
    system.reset_node(4);
    let node = system.get_node(4).unwrap();
    assert!(!node.has_collapsed());
    assert_eq!(node.get_node_type(), TileType::Unset);
    assert_eq!(node.get_connecting_nodes(), grid_neighbours(4));
    system.add_node_to_queue(4, 1.5f32.to_bits());
    let again = system.next().unwrap();
    assert_eq!(again.get_atlas_position(), 4);
    assert!(again.has_collapsed());
    assert!(system.next().is_none());
    system.reset_node(77);
    assert!(system.get_node(77).is_none());
}

#[test]
fn frontier_prefers_lower_entropy() {
    let mut system: NodeSystem<TileType> = NodeSystem::new();
    for p in 0..4 {
        system.add_node_to_atlas(p, vec![]);
    }
    system.add_node_to_queue(1, 30);
    system.add_node_to_queue(2, 10);
    system.add_node_to_queue(3, 20);
    assert_eq!(system.next().unwrap().get_atlas_position(), 2);
    assert_eq!(system.next().unwrap().get_atlas_position(), 3);
    system.add_node_to_queue(1, 40);
    assert_eq!(system.set_max_threads(1), Ok(()));
    system.set_chunk_limit(0);
    system.add_node_to_queue(0, 35);
    assert_eq!(system.next().unwrap().get_atlas_position(), 0);
}


#[test]
fn collapse_pass_runs_the_sequence_out() {
    let mut system: NodeSystem<TileType> = NodeSystem::new();
    for p in 0..3 {
        system.add_node_to_atlas(p, vec![]);
    }
    system.set_cache(verdicts(&[("Sand", false), ("Grass", false), ("Water", false), ("DeepWater", false), ("Tree", false)]));
    let invalid = system.collapse_pass(1.5f32.to_bits());
    assert_eq!(invalid, 3);
    assert!(system.next().is_none());
    let mut empty: NodeSystem<TileType> = NodeSystem::new();
    assert_eq!(empty.collapse_pass(0), 0);
}

#[test]
fn repair_resets_invalid_cells_and_their_neighbours() {
    let mut system: NodeSystem<TileType> = NodeSystem::new();
    system.add_node_to_atlas(0, vec![1]);
    system.add_node_to_atlas(1, vec![9]);
    system.set_cache(verdicts(&[("Sand", false), ("Grass", false), ("Water", false), ("DeepWater", false), ("Tree", false)]));
    let first = system.next().unwrap();
    assert_eq!(first.get_node_type(), TileType::Invalid);
    let position = first.get_atlas_position();
    assert_eq!(position, 1);
    let resets = system.reset_invalid_nodes();
    assert_eq!(resets, 2);
    let node = system.get_node(position).unwrap();
    assert!(!node.has_collapsed());
    assert_eq!(node.get_node_type(), TileType::Unset);
    assert_eq!(system.reset_invalid_nodes(), 0);
}

#[test]
fn repair_finds_nothing_on_a_sound_grid() {
    let mut system = grid_system();
    let mut passes = 0;
    loop {
        system.collapse_pass(1.5f32.to_bits());
        passes += 1;
        if system.reset_invalid_nodes() == 0 || passes > 50 {
            break;
        }
    }
    assert_eq!(system.reset_invalid_nodes(), 0);
    let atlas = system.get_atlas();
    for p in 0..SIDE * SIDE {
        let node = atlas[p].as_ref().unwrap();
        assert!(node.has_collapsed());
        assert_ne!(node.get_node_type(), TileType::Invalid);
        let around = system.get_connecting_node_types(&node.get_connecting_nodes());
        assert!(node.get_node_type().can_spawn(&around));
    }
}

#[test]
fn collapse_pass_collapses_every_cell_with_finite_entropy() {
    let mut system = grid_system();
    let invalid = system.collapse_pass(1.5f32.to_bits());
    let atlas = system.get_atlas();
    let mut seen_invalid = 0;
    for p in 0..SIDE * SIDE {
        let node = atlas[p].as_ref().unwrap();
        assert!(node.has_collapsed());
        if node.get_node_type() == TileType::Invalid {
            seen_invalid += 1;
        }
    }
    assert_eq!(invalid, seen_invalid);
}

#[test]
fn repair_resets_the_neighbours_of_an_invalid_cell() {
    let names = ["Sand", "Grass", "Water", "DeepWater", "Tree"];
    let mut pairs: Vec<(String, bool)> = vec![];
    for a in names {
        for b in names {
            pairs.push((format!("{a}{b}"), false));
        }
    }
    let mut system: NodeSystem<TileType> = NodeSystem::new();
    system.add_node_to_atlas(0, vec![1]);
    system.add_node_to_atlas(1, vec![0]);
    system.set_cache(pairs);
    let first = system.next().unwrap();
    assert_eq!(first.get_atlas_position(), 1);
    assert_ne!(first.get_node_type(), TileType::Invalid);
    let second = system.next().unwrap();
    assert_eq!(second.get_atlas_position(), 0);
    assert_eq!(second.get_node_type(), TileType::Invalid);
    assert_eq!(system.reset_invalid_nodes(), 2);
    for p in 0..2 {
        let node = system.get_node(p).unwrap();
        assert!(!node.has_collapsed());
        assert_eq!(node.get_node_type(), TileType::Unset);
    }
}
