use rts::dyn_mesh::{DynMeshCache, DynMeshHandle, DynMeshPart, MeshRenderPhase};
use rts::mesh_parts::{plan_mesh_parts, MeshIndexType};

#[test]
fn no_quads_make_no_mesh() {
    assert!(plan_mesh_parts(&vec![], &vec![true, true]).is_none());
}

#[test]
fn quad_of_unloaded_material_makes_no_mesh() {
    assert!(plan_mesh_parts(&vec![1, 2], &vec![true, false]).is_none());
}

#[test]
fn quad_of_unknown_material_makes_no_mesh() {
    assert!(plan_mesh_parts(&vec![1, 3], &vec![true, true]).is_none());
}

#[test]
fn parts_follow_material_order_with_packed_offsets() {
    let parts = plan_mesh_parts(&vec![2, 1, 2, 2], &vec![true, true, true]).unwrap();
    assert_eq!(parts.len(), 2);
    let a = &parts[0];
    assert_eq!(a.material, 0);
    assert_eq!(a.quads, vec![1]);
    assert_eq!(a.vertex_buffer_offset_in_bytes, 0);
    assert_eq!(a.vertex_buffer_size_in_bytes, 192);
    assert_eq!(a.index_buffer_offset_in_bytes, 0);
    assert_eq!(a.index_buffer_size_in_bytes, 12);
    assert_eq!(a.index_type, MeshIndexType::Uint16);
    let b = &parts[1];
    assert_eq!(b.material, 1);
    assert_eq!(b.quads, vec![0, 2, 3]);
    assert_eq!(b.vertex_buffer_offset_in_bytes, 192);
    assert_eq!(b.vertex_buffer_size_in_bytes, 576);
    assert_eq!(b.index_buffer_offset_in_bytes, 12);
    assert_eq!(b.index_buffer_size_in_bytes, 36);
    assert_eq!(b.index_type, MeshIndexType::Uint16);
}

#[test]
fn large_parts_take_wide_indices() {
    // 10923 quads make 65538 indices, past 0xFFFF; 10922 make 65532
    let mut codes = vec![1u16; 10922];
    codes.extend(vec![2u16; 10923]);
    let parts = plan_mesh_parts(&codes, &vec![true, true]).unwrap();
    assert_eq!(parts[0].index_type, MeshIndexType::Uint16);
    assert_eq!(parts[0].index_buffer_size_in_bytes, 12 * 10922);
    assert_eq!(parts[1].index_type, MeshIndexType::Uint32);
    assert_eq!(parts[1].index_buffer_offset_in_bytes, 12 * 10922);
    assert_eq!(parts[1].index_buffer_size_in_bytes, 24 * 10923);
    assert_eq!(parts[1].vertex_buffer_offset_in_bytes, 192 * 10922);
}

#[test]
fn material_pass_follows_phase_and_view() {
    let part = DynMeshPart {
        textured_pass_index: 0,
        untextured_pass_index: 2,
        wireframe_pass_index: 4,
        vertex_buffer_offset_in_bytes: 0,
        vertex_buffer_size_in_bytes: 192,
        index_buffer_offset_in_bytes: 0,
        index_buffer_size_in_bytes: 12,
        index_type: MeshIndexType::Uint16,
    };
    assert_eq!(part.get_material_pass_index(MeshRenderPhase::Opaque, true, false), 0);
    assert_eq!(part.get_material_pass_index(MeshRenderPhase::Opaque, false, false), 1);
    assert_eq!(part.get_material_pass_index(MeshRenderPhase::Opaque, true, true), 2);
    assert_eq!(part.get_material_pass_index(MeshRenderPhase::Opaque, false, true), 3);
    assert_eq!(part.get_material_pass_index(MeshRenderPhase::Wireframe, false, true), 4);
}

#[test]
fn mesh_cache_hands_out_positions_and_shifts_on_free() {
    let mut cache: DynMeshCache<&str> = DynMeshCache::new();
    let a = cache.register_dyn_mesh("a");
    let b = cache.register_dyn_mesh("b");
    let c = cache.register_dyn_mesh("c");
    assert_eq!((a, b, c), (DynMeshHandle(0), DynMeshHandle(1), DynMeshHandle(2)));
    assert_eq!(*cache.get_dyn_mesh(b), "b");
    cache.update_dyn_mesh(b, "b2");
    assert_eq!(*cache.get_dyn_mesh(b), "b2");
    cache.free_dyn_mesh(a);
    // the handle of "b2" now names what was "c"
    assert_eq!(*cache.get_dyn_mesh(b), "c");
    assert_eq!(*cache.get_dyn_mesh(a), "b2");
}
