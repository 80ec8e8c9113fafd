use ghg::subface::add_for_point;
use ghg::subface::patch_triangles;
use ghg::subface::vertex_and_index_size;

#[test]
fn test_sizes_of_a_patch() {
    assert_eq!(vertex_and_index_size(1), (1, 0));
    assert_eq!(vertex_and_index_size(2), (4, 6));
    assert_eq!(vertex_and_index_size(10), (100, 486));
    assert_eq!(vertex_and_index_size(26_755), (715_830_025, 4_294_659_096));
}

#[test]
fn test_inner_vertex_adds_two_triangles() {
    let mut indices = vec![99];
    add_for_point(&mut indices, 1, 0, 3);
    assert_eq!(indices, vec![99, 1, 5, 4, 1, 2, 5]);
}

#[test]
fn test_vertex_in_last_row_or_column_adds_nothing() {
    let mut indices = Vec::new();
    add_for_point(&mut indices, 2, 0, 3);
    add_for_point(&mut indices, 0, 2, 3);
    add_for_point(&mut indices, 2, 2, 3);
    add_for_point(&mut indices, 0, 0, 1);
    assert!(indices.is_empty());
}

#[test]
fn test_patch_of_two_by_two_vertices_is_one_quad() {
    assert_eq!(patch_triangles(2), vec![0, 3, 2, 0, 1, 3]);
}

#[test]
fn test_patch_of_three_by_three_vertices() {
    assert_eq!(
        patch_triangles(3),
        vec![
            0, 4, 3, 0, 1, 4, // quad at 0, 0
            1, 5, 4, 1, 2, 5, // quad at 1, 0
            3, 7, 6, 3, 4, 7, // quad at 0, 1
            4, 8, 7, 4, 5, 8, // quad at 1, 1
        ]
    );
}

#[test]
fn test_small_patches_have_no_triangles() {
    assert!(patch_triangles(0).is_empty());
    assert!(patch_triangles(1).is_empty());
}

#[test]
fn test_patch_has_as_many_indices_as_its_size_says() {
    for points_per_side in 1..12 {
        let (vertices, indices) = vertex_and_index_size(points_per_side);
        let triangles = patch_triangles(points_per_side);
        assert_eq!(triangles.len(), indices);
        assert!(triangles.iter().all(|index| (*index as usize) < vertices));
    }
}
