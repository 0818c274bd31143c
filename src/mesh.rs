use vstd::prelude::*;

verus! {

/// Why the faces of a mesh cannot be turned into triangles.
#[derive(Clone, Copy, Debug, PartialEq, Eq, Structural)]
pub enum FaceError {
    /// Face number `face` does not list exactly three vertices.
    NotATriangle { face: usize },
    /// Face number `face` names a vertex that the vertex list does not hold.
    VertexOutOfRange { face: usize },
}

/// Whether `face` lists exactly three indices into a list of `vertex_count`
/// vertices.
pub open spec fn is_triangle(face: Seq<i32>, vertex_count: nat) -> bool {
    &&& face.len() == 3
    &&& forall|j: int| 0 <= j < 3 ==> 0 <= #[trigger] face[j] < vertex_count
}

/// The three vertex indices of a face that `is_triangle` accepts.
pub open spec fn corners(face: Seq<i32>) -> (usize, usize, usize) {
    (face[0] as usize, face[1] as usize, face[2] as usize)
}

/// The error for a face that `is_triangle` rejects, found at position `i`.
pub open spec fn face_error(face: Seq<i32>, i: usize) -> FaceError {
    if face.len() != 3 {
        FaceError::NotATriangle { face: i }
    } else {
        FaceError::VertexOutOfRange { face: i }
    }
}

/// Turns the vertex-index lists of a mesh's faces into triangles, each a
/// triple of positions in a list of `vertex_count` vertices. The faces are
/// checked in order and the first one that is not such a triangle is
/// reported.
pub fn face_triangles(faces: &Vec<Vec<i32>>, vertex_count: usize) -> (r: Result<Vec<(usize, usize, usize)>, FaceError>)
    ensures
        match r {
            Ok(tris) => {
                &&& forall|i: int| 0 <= i < faces.len() ==> is_triangle(#[trigger] faces[i]@, vertex_count as nat)
                &&& tris.len() == faces.len()
                &&& forall|i: int| 0 <= i < faces.len() ==> #[trigger] tris[i] == corners(faces[i]@)
            },
            Err(e) => exists|i: usize| {
                &&& i < faces.len()
                &&& !is_triangle(#[trigger] faces[i as int]@, vertex_count as nat)
                &&& forall|k: int| 0 <= k < i ==> is_triangle(#[trigger] faces[k]@, vertex_count as nat)
                &&& e == face_error(faces[i as int]@, i)
            },
        },
{
    let mut tris: Vec<(usize, usize, usize)> = Vec::new();
    let mut i: usize = 0;
    while i < faces.len()
        invariant
            i <= faces.len(),
            tris.len() == i,
            forall|k: int| 0 <= k < i ==> is_triangle(#[trigger] faces[k]@, vertex_count as nat),
            forall|k: int| 0 <= k < i ==> #[trigger] tris[k] == corners(faces[k]@),
        decreases faces.len() - i,
    {
        let face = &faces[i];
        if face.len() != 3 {
            return Err(FaceError::NotATriangle { face: i });
        }
        let a = face[0];
        let b = face[1];
        let c = face[2];
        if a < 0 || b < 0 || c < 0 || a as usize >= vertex_count || b as usize >= vertex_count || c as usize >= vertex_count {
            proof {
                assert(!is_triangle(faces[i as int]@, vertex_count as nat));
            }
            return Err(FaceError::VertexOutOfRange { face: i });
        }
        proof {
            assert(is_triangle(faces[i as int]@, vertex_count as nat));
        }
        tris.push((a as usize, b as usize, c as usize));
        i = i + 1;
    }
    Ok(tris)
}

} // verus!
