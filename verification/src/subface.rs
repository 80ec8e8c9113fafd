//! The triangles of a square patch of a mesh.
//!
//! A patch has `points_per_side` rows of `points_per_side` vertices, numbered
//! row by row. Every vertex that is not in the last row or column is the
//! corner of one quad, which is drawn as two triangles.
use vstd::prelude::*;

verus! {

/// The vertex at column `x` of row `y` is a corner that a quad hangs on.
pub open spec fn has_quad(x: int, y: int, points_per_side: int) -> bool {
    x != points_per_side - 1 && y != points_per_side - 1
}

/// The six vertex numbers of the two triangles of the quad at `x`, `y`.
pub open spec fn quad(x: int, y: int, points_per_side: int) -> Seq<u32> {
    let vertex = y * points_per_side + x;
    seq![
        vertex as u32,
        (vertex + points_per_side + 1) as u32,
        (vertex + points_per_side) as u32,
        vertex as u32,
        (vertex + 1) as u32,
        (vertex + points_per_side + 1) as u32,
    ]
}

/// The triangle indices that the vertex at `x`, `y` adds to a mesh.
pub open spec fn point_indices(x: int, y: int, points_per_side: int) -> Seq<u32> {
    if has_quad(x, y, points_per_side) {
        quad(x, y, points_per_side)
    } else {
        Seq::empty()
    }
}

/// The triangle indices of the first `count` vertices of row `y`.
pub open spec fn row_indices(y: int, points_per_side: int, count: nat) -> Seq<u32>
    decreases count,
{
    if count == 0 {
        Seq::empty()
    } else {
        row_indices(y, points_per_side, (count - 1) as nat) + point_indices(
            count - 1,
            y,
            points_per_side,
        )
    }
}

/// The triangle indices of the first `rows` rows of a patch.
pub open spec fn patch_indices(points_per_side: int, rows: nat) -> Seq<u32>
    decreases rows,
{
    if rows == 0 {
        Seq::empty()
    } else {
        patch_indices(points_per_side, (rows - 1) as nat) + row_indices(
            rows - 1,
            points_per_side,
            points_per_side as nat,
        )
    }
}

/// The numbers of vertices and of triangle indices of a patch.
pub fn vertex_and_index_size(points_per_side: u32) -> (sizes: (usize, usize))
    requires
        1 <= points_per_side,
        points_per_side * points_per_side <= u32::MAX,
        (points_per_side - 1) * (points_per_side - 1) * 6 <= u32::MAX,
    ensures
        sizes.0 == points_per_side * points_per_side,
        sizes.1 == (points_per_side - 1) * (points_per_side - 1) * 6,
{
    assert(0 <= (points_per_side - 1) * (points_per_side - 1) <= (points_per_side - 1) * (
    points_per_side - 1) * 6) by (nonlinear_arith)
        requires
            1 <= points_per_side,
    ;
    (
        (points_per_side * points_per_side) as usize,
        ((points_per_side - 1) * (points_per_side - 1) * 6) as usize,
    )
}

/// Appends the triangle indices that the vertex at `x`, `y` adds.
pub fn add_for_point(indices: &mut Vec<u32>, x: u32, y: u32, points_per_side: u32)
    requires
        x < points_per_side,
        y < points_per_side,
        points_per_side * points_per_side <= u32::MAX,
    ensures
        final(indices)@ == old(indices)@ + point_indices(
            x as int,
            y as int,
            points_per_side as int,
        ),
{
    if x != points_per_side - 1 && y != points_per_side - 1 {
        assert(y * points_per_side + x + points_per_side + 1 <= points_per_side * points_per_side
            && 0 <= y * points_per_side) by (nonlinear_arith)
            requires
                0 <= x < points_per_side - 1,
                0 <= y < points_per_side - 1,
        ;
        let vertex_index = y * points_per_side + x;
        indices.push(vertex_index);
        indices.push(vertex_index + points_per_side + 1);
        indices.push(vertex_index + points_per_side);
        indices.push(vertex_index);
        indices.push(vertex_index + 1);
        indices.push(vertex_index + points_per_side + 1);
        assert(indices@ =~= old(indices)@ + quad(x as int, y as int, points_per_side as int));
    } else {
        assert(indices@ =~= old(indices)@ + Seq::<u32>::empty());
    }
}

/// The triangle indices of a whole patch, vertex after vertex, row by row.
pub fn patch_triangles(points_per_side: u32) -> (indices: Vec<u32>)
    requires
        points_per_side * points_per_side <= u32::MAX,
    ensures
        indices@ == patch_indices(points_per_side as int, points_per_side as nat),
{
    let mut indices: Vec<u32> = Vec::new();
    let mut y: u32 = 0;
    while y < points_per_side
        invariant
            y <= points_per_side,
            points_per_side * points_per_side <= u32::MAX,
            indices@ == patch_indices(points_per_side as int, y as nat),
        decreases points_per_side - y,
    {
        let ghost above = indices@;
        let mut x: u32 = 0;
        while x < points_per_side
            invariant
                x <= points_per_side,
                y < points_per_side,
                points_per_side * points_per_side <= u32::MAX,
                indices@ == above + row_indices(y as int, points_per_side as int, x as nat),
            decreases points_per_side - x,
        {
            add_for_point(&mut indices, x, y, points_per_side);
            assert(indices@ =~= above + row_indices(
                y as int,
                points_per_side as int,
                (x + 1) as nat,
            ));
            x = x + 1;
        }
        y = y + 1;
    }
    indices
}

/// A row that is not the last one holds one quad for each of its vertices but the last.
pub proof fn lemma_row_layout(y: int, points_per_side: int, count: nat)
    requires
        0 <= y < points_per_side - 1,
        count <= points_per_side,
    ensures
        row_indices(y, points_per_side, count).len() == 6 * if count == points_per_side {
            count - 1
        } else {
            count as int
        },
        forall|x: int, corner: int|
            0 <= x < count && x < points_per_side - 1 && 0 <= corner < 6 ==> #[trigger] row_indices(
                y,
                points_per_side,
                count,
            )[6 * x + corner] == quad(x, y, points_per_side)[corner],
    decreases count,
{
    if count > 0 {
        lemma_row_layout(y, points_per_side, (count - 1) as nat);
        let earlier = row_indices(y, points_per_side, (count - 1) as nat);
        assert forall|x: int, corner: int|
            0 <= x < count && x < points_per_side - 1 && 0 <= corner < 6
            implies #[trigger] row_indices(y, points_per_side, count)[6 * x + corner]
            == quad(x, y, points_per_side)[corner] by {
            if x < count - 1 {
                assert(earlier[6 * x + corner] == quad(x, y, points_per_side)[corner]);
            }
        }
    }
}

/// The last row of a patch holds no quad.
pub proof fn lemma_last_row_is_empty(points_per_side: int, count: nat)
    ensures
        row_indices(points_per_side - 1, points_per_side, count).len() == 0,
    decreases count,
{
    if count > 0 {
        lemma_last_row_is_empty(points_per_side, (count - 1) as nat);
    }
}

/// Where the triangles of a quad lie among the indices of a patch.
///
/// The first `rows` rows of a patch hold the quads of those rows that are
/// not the last row, row after row, six indices for each quad.
pub proof fn lemma_patch_layout(points_per_side: int, rows: nat)
    requires
        1 <= points_per_side,
        rows <= points_per_side,
    ensures
        patch_indices(points_per_side, rows).len() == 6 * (points_per_side - 1) * if rows
            == points_per_side {
            rows - 1
        } else {
            rows as int
        },
        forall|x: int, y: int, corner: int|
            0 <= y < rows && has_quad(x, y, points_per_side) && 0 <= x < points_per_side && 0
                <= corner < 6 ==> #[trigger] patch_indices(points_per_side, rows)[6 * ((
            points_per_side - 1) * y + x) + corner] == quad(x, y, points_per_side)[corner],
    decreases rows,
{
    let quads = points_per_side - 1;
    if rows > 0 {
        let earlier = patch_indices(points_per_side, (rows - 1) as nat);
        let line = row_indices(rows - 1, points_per_side, points_per_side as nat);
        lemma_patch_layout(points_per_side, (rows - 1) as nat);
        assert(earlier.len() == 6 * quads * (rows - 1));
        if rows == points_per_side {
            lemma_last_row_is_empty(points_per_side, points_per_side as nat);
        } else {
            lemma_row_layout(rows - 1, points_per_side, points_per_side as nat);
            assert(6 * quads * rows == 6 * quads * (rows - 1) + 6 * quads) by (nonlinear_arith);
        }
        assert forall|x: int, y: int, corner: int|
            0 <= y < rows && has_quad(x, y, points_per_side) && 0 <= x < points_per_side && 0
                <= corner < 6 implies #[trigger] patch_indices(points_per_side, rows)[6 * ((
        points_per_side - 1) * y + x) + corner] == quad(x, y, points_per_side)[corner] by {
            if y < rows - 1 {
                assert(0 <= 6 * (quads * y + x) + corner < 6 * quads * (rows - 1))
                    by (nonlinear_arith)
                    requires
                        0 <= y < rows - 1,
                        0 <= x < quads,
                        0 <= corner < 6,
                ;
                assert(earlier[6 * (quads * y + x) + corner]
                    == quad(x, y, points_per_side)[corner]);
            } else {
                assert(6 * (quads * y + x) + corner == earlier.len() + (6 * x + corner))
                    by (nonlinear_arith)
                    requires
                        y == rows - 1,
                        earlier.len() == 6 * quads * (rows - 1),
                ;
                assert(line[6 * x + corner] == quad(x, y, points_per_side)[corner]);
            }
        }
    } else {
        assert(6 * quads * 0 == 0);
    }
}

} // verus!
