//! What holds of dilating masks: frames of nothing but zero and foreground.
use crate::blobs::{lit_cells, FOREGROUND};
use crate::dilate::{binary, dilated, grown, law_dilated_binary, law_grown_keeps};
use crate::grid::{frame_cells, lemma_cell_of_position, lemma_position, raster, Cell};
use vstd::prelude::*;

verus! {

/// Where a step of at most `b` from `c` towards `d` leads.
spec fn towards(c: int, d: int, b: int) -> int {
    if d < c - b {
        c - b
    } else if d > c + b {
        c + b
    } else {
        d
    }
}

/// Growing cells by `a` and then by `b` grows them by `a + b`.
pub proof fn law_grown_twice(cells: Set<Cell>, width: int, height: int, a: int, b: int)
    requires
        0 <= a,
        0 <= b,
        cells.subset_of(frame_cells(width, height)),
    ensures
        grown(grown(cells, width, height, a), width, height, b) == grown(
            cells,
            width,
            height,
            a + b,
        ),
{
    let frame = frame_cells(width, height);
    let once = grown(cells, width, height, a);
    let twice = grown(once, width, height, b);
    let goal = grown(cells, width, height, a + b);
    assert forall|c: Cell| twice.contains(c) implies goal.contains(c) by {
        let e = choose|e: Cell| #[trigger]
            once.contains(e) && c.0 - b <= e.0 <= c.0 + b && c.1 - b <= e.1 <= c.1 + b;
        let d = choose|d: Cell| #[trigger]
            cells.contains(d) && e.0 - a <= d.0 <= e.0 + a && e.1 - a <= d.1 <= e.1 + a;
        assert(cells.contains(d) && c.0 - (a + b) <= d.0 <= c.0 + (a + b));
    }
    assert forall|c: Cell| goal.contains(c) implies twice.contains(c) by {
        let d = choose|d: Cell| #[trigger]
            cells.contains(d) && c.0 - (a + b) <= d.0 <= c.0 + (a + b) && c.1 - (a + b) <= d.1 <= c.1
                + (a + b);
        let e: Cell = (towards(c.0, d.0, b), towards(c.1, d.1, b));
        assert(frame.contains(d));
        assert(frame.contains(e));
        assert(cells.contains(d) && e.0 - a <= d.0 <= e.0 + a && e.1 - a <= d.1 <= e.1 + a);
        assert(once.contains(e));
    }
    assert(twice =~= goal);
}

/// Cells of two kinds grow together as they grow apart.
pub proof fn law_grown_union(s: Set<Cell>, t: Set<Cell>, width: int, height: int, r: int)
    ensures
        grown(s.union(t), width, height, r) == grown(s, width, height, r).union(
            grown(t, width, height, r),
        ),
{
    let both = s.union(t);
    let left = grown(both, width, height, r);
    let right = grown(s, width, height, r).union(grown(t, width, height, r));
    assert forall|c: Cell| left.contains(c) implies right.contains(c) by {
        let d = choose|d: Cell| #[trigger]
            both.contains(d) && c.0 - r <= d.0 <= c.0 + r && c.1 - r <= d.1 <= c.1 + r;
        assert(s.contains(d) || t.contains(d));
    }
    assert forall|c: Cell| right.contains(c) implies left.contains(c) by {
        if grown(s, width, height, r).contains(c) {
            let d = choose|d: Cell| #[trigger]
                s.contains(d) && c.0 - r <= d.0 <= c.0 + r && c.1 - r <= d.1 <= c.1 + r;
            assert(both.contains(d));
        } else {
            let d = choose|d: Cell| #[trigger]
                t.contains(d) && c.0 - r <= d.0 <= c.0 + r && c.1 - r <= d.1 <= c.1 + r;
            assert(both.contains(d));
        }
    }
    assert(left =~= right);
}

/// The bytes are a mask of a frame of this size.
pub open spec fn is_mask(bytes: Seq<u8>, width: int, height: int) -> bool {
    0 <= width && 0 <= height && bytes.len() == width * height && binary(bytes)
}

/// The two masks or-ed byte by byte.
pub open spec fn either(m: Seq<u8>, n: Seq<u8>) -> Seq<u8> {
    Seq::new(m.len(), |i: int| m[i] | n[i])
}

/// Masks with the same foreground are the same.
proof fn lemma_same_mask(m: Seq<u8>, n: Seq<u8>, width: int, height: int)
    requires
        is_mask(m, width, height),
        is_mask(n, width, height),
        lit_cells(m, width, height, width) == lit_cells(n, width, height, width),
    ensures
        m == n,
{
    assert forall|i: int| 0 <= i < m.len() implies m[i] == n[i] by {
        assert(0 < width) by (nonlinear_arith)
            requires
                0 <= i < width * height,
                0 <= width,
        ;
        lemma_cell_of_position(width, height, i);
        let c: Cell = (i / width, i % width);
        assert(raster(c, width) == i);
        assert(lit_cells(m, width, height, width).contains(c) == (m[i] == FOREGROUND));
        assert(lit_cells(n, width, height, width).contains(c) == (n[i] == FOREGROUND));
    }
    assert(m =~= n);
}

/// Dilating a mask gives a mask.
proof fn lemma_dilated_mask(m: Seq<u8>, width: int, height: int, r: int)
    requires
        is_mask(m, width, height),
        0 <= r,
    ensures
        is_mask(dilated(m, width, height, r), width, height),
        lit_cells(dilated(m, width, height, r), width, height, width) == grown(
            lit_cells(m, width, height, width),
            width,
            height,
            r,
        ),
{
    if width > 0 {
        law_dilated_binary(m, width, height, r);
    } else {
        assert(width * height == 0) by (nonlinear_arith)
            requires
                width == 0,
        ;
        let lit = lit_cells(m, width, height, width);
        assert(lit_cells(dilated(m, width, height, r), width, height, width) =~= grown(
            lit,
            width,
            height,
            r,
        ));
    }
}

/// Dilating a mask by `a` and then by `b` is dilating it by `a + b`.
pub proof fn law_dilated_twice(m: Seq<u8>, width: int, height: int, a: int, b: int)
    requires
        is_mask(m, width, height),
        0 <= a,
        0 <= b,
    ensures
        dilated(dilated(m, width, height, a), width, height, b) == dilated(
            m,
            width,
            height,
            a + b,
        ),
{
    let once = dilated(m, width, height, a);
    lemma_dilated_mask(m, width, height, a);
    lemma_dilated_mask(once, width, height, b);
    lemma_dilated_mask(m, width, height, a + b);
    law_grown_twice(lit_cells(m, width, height, width), width, height, a, b);
    lemma_same_mask(
        dilated(once, width, height, b),
        dilated(m, width, height, a + b),
        width,
        height,
    );
}

proof fn lemma_either(m: Seq<u8>, n: Seq<u8>, width: int, height: int)
    requires
        is_mask(m, width, height),
        is_mask(n, width, height),
    ensures
        is_mask(either(m, n), width, height),
        lit_cells(either(m, n), width, height, width) == lit_cells(m, width, height, width).union(
            lit_cells(n, width, height, width),
        ),
{
    let both = either(m, n);
    assert forall|i: int| 0 <= i < both.len() implies (#[trigger] both[i] == 0 || both[i]
        == FOREGROUND) && (both[i] == FOREGROUND <==> m[i] == FOREGROUND || n[i] == FOREGROUND) by {
        let x = m[i];
        let y = n[i];
        assert(x | 255u8 == 255u8 && 255u8 | y == 255u8 && 0u8 | 0u8 == 0u8) by (bit_vector);
    }
    assert forall|c: Cell| frame_cells(width, height).contains(c) implies 0 <= #[trigger] raster(
        c,
        width,
    ) < both.len() by {
        lemma_position(width, height, c.0, c.1);
    }
    assert(lit_cells(both, width, height, width) =~= lit_cells(m, width, height, width).union(
        lit_cells(n, width, height, width),
    ));
}

/// Dilating two masks or-ed together is or-ing the dilated masks.
pub proof fn law_dilated_union(m: Seq<u8>, n: Seq<u8>, width: int, height: int, r: int)
    requires
        is_mask(m, width, height),
        is_mask(n, width, height),
        0 <= r,
    ensures
        dilated(either(m, n), width, height, r) == either(
            dilated(m, width, height, r),
            dilated(n, width, height, r),
        ),
{
    lemma_either(m, n, width, height);
    lemma_dilated_mask(m, width, height, r);
    lemma_dilated_mask(n, width, height, r);
    lemma_dilated_mask(either(m, n), width, height, r);
    lemma_either(
        dilated(m, width, height, r),
        dilated(n, width, height, r),
        width,
        height,
    );
    law_grown_union(
        lit_cells(m, width, height, width),
        lit_cells(n, width, height, width),
        width,
        height,
        r,
    );
    lemma_same_mask(
        dilated(either(m, n), width, height, r),
        either(dilated(m, width, height, r), dilated(n, width, height, r)),
        width,
        height,
    );
}

/// Every foreground pixel of the first mask is one of the second.
pub open spec fn within(m: Seq<u8>, n: Seq<u8>) -> bool {
    forall|i: int| 0 <= i < m.len() && #[trigger] m[i] == FOREGROUND ==> n[i] == FOREGROUND
}

/// A mask that holds another still holds it when both are dilated, and a dilated mask holds the
/// mask itself.
pub proof fn law_dilated_within(m: Seq<u8>, n: Seq<u8>, width: int, height: int, r: int)
    requires
        is_mask(m, width, height),
        is_mask(n, width, height),
        within(m, n),
        0 <= r,
    ensures
        within(dilated(m, width, height, r), dilated(n, width, height, r)),
        within(m, dilated(m, width, height, r)),
{
    let dm = dilated(m, width, height, r);
    let dn = dilated(n, width, height, r);
    let both = either(m, n);
    assert(both =~= n) by {
        assert forall|i: int| 0 <= i < n.len() implies #[trigger] both[i] == n[i] by {
            let y = n[i];
            assert(m[i] == FOREGROUND ==> n[i] == FOREGROUND);
            assert(0u8 | y == y && 255u8 | 255u8 == 255u8) by (bit_vector);
        }
    }
    law_dilated_union(m, n, width, height, r);
    lemma_dilated_mask(m, width, height, r);
    lemma_dilated_mask(n, width, height, r);
    assert forall|i: int| 0 <= i < dm.len() && #[trigger] dm[i] == FOREGROUND implies dn[i]
        == FOREGROUND by {
        let y = dn[i];
        assert(either(dm, dn)[i] == dn[i]);
        assert(255u8 | y == 255u8) by (bit_vector);
    }
    let lit = lit_cells(m, width, height, width);
    law_grown_keeps(lit, width, height, r);
    assert forall|i: int| 0 <= i < m.len() && #[trigger] m[i] == FOREGROUND implies dm[i]
        == FOREGROUND by {
        assert(0 < width) by (nonlinear_arith)
            requires
                0 <= i < width * height,
                0 <= width,
        ;
        lemma_cell_of_position(width, height, i);
        let c: Cell = (i / width, i % width);
        assert(raster(c, width) == i);
        assert(lit.contains(c));
        assert(lit_cells(dm, width, height, width).contains(c));
    }
}

} // verus!
