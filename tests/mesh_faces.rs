use raytracer::mesh::face_triangles;
use raytracer::mesh::FaceError;

#[test]
fn faces_become_triangles() {
    let faces = vec![vec![0, 1, 2], vec![2, 3, 0]];
    let tris = face_triangles(&faces, 4).unwrap();
    assert_eq!(tris, vec![(0, 1, 2), (2, 3, 0)]);
}

#[test]
fn no_faces_no_triangles() {
    let faces: Vec<Vec<i32>> = Vec::new();
    assert_eq!(face_triangles(&faces, 0).unwrap(), Vec::new());
}

#[test]
fn quad_face_is_rejected() {
    let faces = vec![vec![0, 1, 2], vec![0, 1, 2, 3]];
    assert_eq!(face_triangles(&faces, 4), Err(FaceError::NotATriangle { face: 1 }));
}

#[test]
fn vertex_past_end_is_rejected() {
    let faces = vec![vec![0, 1, 4]];
    assert_eq!(face_triangles(&faces, 4), Err(FaceError::VertexOutOfRange { face: 0 }));
}

#[test]
fn negative_vertex_is_rejected() {
    let faces = vec![vec![0, 1, 2], vec![-1, 1, 2]];
    assert_eq!(face_triangles(&faces, 3), Err(FaceError::VertexOutOfRange { face: 1 }));
}

#[test]
fn first_bad_face_is_reported() {
    let faces = vec![vec![0, 1, 2], vec![0, 9, 2], vec![1, 2]];
    assert_eq!(face_triangles(&faces, 3), Err(FaceError::VertexOutOfRange { face: 1 }));
}
