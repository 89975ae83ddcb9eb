use cubeland::coord::ChunkCoord;
use cubeland::mesh::face;
use cubeland::renderer::{face_visible, RenderMode, Renderer, WindowSize};

#[test]
fn renderer_settings() {
    let mut renderer = Renderer::new(WindowSize { x: 800, y: 600 });
    assert_eq!(renderer.window_size(), WindowSize { x: 800, y: 600 });
    assert_eq!(renderer.mode(), RenderMode::RenderModeNormal);
    renderer.toggle_wireframe_mode();
    assert_eq!(renderer.mode(), RenderMode::RenderModeWireframe);
    renderer.set_window_size(WindowSize { x: 1024, y: 768 });
    assert_eq!(renderer.window_size(), WindowSize { x: 1024, y: 768 });
    assert_eq!(renderer.mode(), RenderMode::RenderModeWireframe);
    renderer.toggle_wireframe_mode();
    assert_eq!(renderer.mode(), RenderMode::RenderModeNormal);
    assert_eq!(renderer.window_size(), WindowSize { x: 1024, y: 768 });
}

#[test]
fn faces_are_culled_by_the_side_the_camera_is_on() {
    let chunk = ChunkCoord::new(10, 20, 30);
    let at = |x, y, z| ChunkCoord::new(x, y, z);
    // front looks along +z, back along -z
    assert!(face_visible(&face(0), chunk, at(10, 20, 30)));
    assert!(face_visible(&face(0), chunk, at(10, 20, 31)));
    assert!(!face_visible(&face(0), chunk, at(10, 20, 29)));
    assert!(face_visible(&face(1), chunk, at(10, 20, 29)));
    assert!(face_visible(&face(1), chunk, at(10, 20, 31)));
    assert!(!face_visible(&face(1), chunk, at(10, 20, 32)));
    // right looks along +x, left along -x
    assert!(face_visible(&face(2), chunk, at(10, 0, 0)));
    assert!(!face_visible(&face(2), chunk, at(9, 20, 30)));
    assert!(face_visible(&face(3), chunk, at(11, 20, 30)));
    assert!(!face_visible(&face(3), chunk, at(12, 20, 30)));
    // top looks along +y, bottom along -y
    assert!(face_visible(&face(4), chunk, at(0, 20, 0)));
    assert!(!face_visible(&face(4), chunk, at(10, 19, 30)));
    assert!(face_visible(&face(5), chunk, at(10, 21, 30)));
    assert!(!face_visible(&face(5), chunk, at(10, 22, 30)));
}

#[test]
fn face_culling_at_the_ends_of_the_grid() {
    let low = ChunkCoord::new(i64::MIN, i64::MIN, i64::MIN);
    let high = ChunkCoord::new(i64::MAX, i64::MAX, i64::MAX);
    for index in 0..6 {
        assert_eq!(face_visible(&face(index), low, high), index % 2 == 0);
        assert_eq!(face_visible(&face(index), high, low), index % 2 == 1);
        assert!(face_visible(&face(index), high, high));
    }
}
