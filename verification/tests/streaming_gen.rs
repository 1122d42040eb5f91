use voxel_core::block::Block;
use voxel_core::gen::{gen_column, process_load_order, process_unload_orders};
use voxel_core::pos::{ColPos, Realm, CHUNK_S1, MAX_HEIGHT};
use voxel_core::streaming::{area_diff, update_load_area, LoadArea, LoadOrders};
use voxel_core::world::Blocks;

fn col(x: i32, z: i32) -> ColPos {
    ColPos { realm: Realm::Overworld, x, z }
}

#[test]
fn area_contains_chebyshev_window() {
    let a = LoadArea::new(col(10, -3), 2);
    assert!(a.contains(col(10, -3)));
    assert!(a.contains(col(12, -1)));
    assert!(a.contains(col(8, -5)));
    assert!(!a.contains(col(13, -3)));
    assert!(!a.contains(col(10, 0)));
}

#[test]
fn area_cols_enumerates_the_square_once() {
    let a = LoadArea::new(col(0, 0), 1);
    let cols = a.cols();
    assert_eq!(cols.len(), 9);
    for dx in -1..=1 {
        for dz in -1..=1 {
            assert!(cols.contains(&col(dx, dz)));
        }
    }
}

#[test]
fn moving_one_column_diffs_to_the_entered_and_exited_rings() {
    let before = LoadArea::new(col(0, 0), 2);
    let after = LoadArea::new(col(1, 0), 2);
    let (loads, unloads) = area_diff(&before, &after);
    // a 5x5 window moved one column along x: one new edge, one old edge
    assert_eq!(loads.len(), 5);
    assert_eq!(unloads.len(), 5);
    for dz in -2..=2 {
        assert!(loads.contains(&col(3, dz)));
        assert!(unloads.contains(&col(-2, dz)));
    }
    // the two batches are disjoint
    for p in loads.iter() {
        assert!(!unloads.contains(p));
    }
}

#[test]
fn recomputing_an_unmoved_area_changes_nothing() {
    let a = LoadArea::new(col(4, 4), 3);
    let (loads, unloads) = area_diff(&a, &a);
    assert_eq!(loads.len(), 0);
    assert_eq!(unloads.len(), 0);
}

#[test]
fn orders_deduplicate_and_let_load_win() {
    let mut orders = LoadOrders::new();
    orders.request_load(col(1, 1));
    orders.request_load(col(1, 1));
    orders.request_load(col(2, 2));
    // an unload for a still-pending load cancels the load instead
    orders.request_unload(col(1, 1));
    orders.request_unload(col(7, 7));
    orders.request_unload(col(7, 7));
    // a new load for a pending unload takes precedence
    orders.request_load(col(7, 7));
    let mut loads: Vec<ColPos> = Vec::new();
    while let Some(p) = orders.pop_load() {
        loads.push(p);
    }
    assert_eq!(loads.len(), 2);
    assert!(loads.contains(&col(2, 2)));
    assert!(loads.contains(&col(7, 7)));
    assert!(orders.pop_unload().is_none());
}

#[test]
fn update_load_area_turns_the_diff_into_orders() {
    let mut area = LoadArea::new(col(0, 0), 1);
    let mut orders = LoadOrders::new();
    update_load_area(&mut area, &mut orders, col(1, 0));
    assert_eq!(area.center, col(1, 0));
    let mut loads: Vec<ColPos> = Vec::new();
    while let Some(p) = orders.pop_load() {
        loads.push(p);
    }
    let mut unloads: Vec<ColPos> = Vec::new();
    while let Some(p) = orders.pop_unload() {
        unloads.push(p);
    }
    assert_eq!(loads.len(), 3);
    assert_eq!(unloads.len(), 3);
    for dz in -1..=1 {
        assert!(loads.contains(&col(2, dz)));
        assert!(unloads.contains(&col(-1, dz)));
    }
}

#[test]
fn generation_is_deterministic() {
    let c1 = gen_column(42, col(3, -7));
    let c2 = gen_column(42, col(3, -7));
    for x in 0..CHUNK_S1 {
        for z in 0..CHUNK_S1 {
            for y in 0..MAX_HEIGHT as i32 {
                assert_eq!(c1.get((x, y, z)), c2.get((x, y, z)));
            }
        }
    }
}

#[test]
fn generated_terrain_has_bedrock_floor_and_grass_surface() {
    let c = gen_column(7, col(0, 0));
    for x in 0..CHUNK_S1 {
        for z in 0..CHUNK_S1 {
            assert_eq!(c.get((x, 0, z)), Block::Bedrock);
            let (top, h) = c.top((x, z));
            assert!(0 <= h && h <= 60);
            assert!(top == Block::GrassBlock || (h == 0 && top == Block::Bedrock));
            // everything above the surface is air
            assert_eq!(c.get((x, h + 1, z)), Block::Air);
        }
    }
}

#[test]
fn worker_step_publishes_generated_columns_and_unloads_evict() {
    let mut world = Blocks::new();
    let mut orders = LoadOrders::new();
    orders.request_load(col(0, 0));
    let served = process_load_order(&mut world, &mut orders, 9);
    assert_eq!(served, Some(col(0, 0)));
    assert!(world.contains_col(col(0, 0)));
    // no order left: the worker idles
    assert_eq!(process_load_order(&mut world, &mut orders, 9), None);
    // an unload evicts the column; a stale one is a no-op
    orders.request_unload(col(0, 0));
    orders.request_unload(col(5, 5));
    process_unload_orders(&mut world, &mut orders);
    assert!(!world.contains_col(col(0, 0)));
    assert!(!world.contains_col(col(5, 5)));
}
