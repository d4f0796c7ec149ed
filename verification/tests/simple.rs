use layer_proc_gen::Layer;
use layer_proc_gen::LayerDependency;
use layer_proc_gen::uniform_points::UniformPointsLayer;
use layer_proc_gen::vec2::{Bounds, Point2d};

fn base_layer() -> UniformPointsLayer {
    UniformPointsLayer::new(32, 32, 3, Point2d::new(256, 256), 0, 16)
}

#[test]
fn create_layer() {
    let mut layer = LayerDependency::new(base_layer(), Point2d::new(0, 0));
    let r = layer.get_or_compute(&Point2d { x: 42, y: 99 });
    assert!(r.is_ok());
    assert!(layer.get(&Point2d { x: 42, y: 99 }).is_some());
}

#[test]
fn double_assign_chunk() {
    let mut layer = LayerDependency::new(base_layer(), Point2d::new(0, 0));
    let r1 = layer.get_or_compute(&Point2d { x: 42, y: 99 });
    let r2 = layer.get_or_compute(&Point2d { x: 42, y: 99 });
    assert!(r1.is_ok());
    assert!(r2.is_ok());
    // loading the same chunk twice pins it twice
    let entry = layer.layer.grid.get_entry(&Point2d { x: 42, y: 99 }).unwrap();
    assert_eq!(entry.refcount, 2);
}

#[test]
fn create_player() {
    // two consumers of the same world position, loading point regions
    let mut player_view = LayerDependency::new(base_layer(), Point2d::new(0, 0));
    let player_pos = Point2d { x: 42, y: 99 };
    assert!(player_view.ensure_loaded_in_bounds(Bounds::point(player_pos)).is_ok());
    let mut map_view = LayerDependency::new(base_layer(), Point2d::new(0, 0));
    assert!(map_view.ensure_loaded_in_bounds(Bounds::point(player_pos)).is_ok());
    let idx = Point2d { x: 0, y: 0 };
    assert!(player_view.layer.get(&idx).is_some());
    assert!(map_view.layer.get(&idx).is_some());
}
