//! What a search for blobs and their clustering give, said in rows, columns and counts alone.
use crate::bitset::{bit_at, lemma_packed_holds, packed};
use crate::blob_laws::{law_blob_describes, law_groups_cover, law_groups_disjoint};
use crate::blobs::{
    all_blobs, blob_views, cell_at, describes, fill_outcome, found_cells, groups_of, is_seed,
    lemma_cell_at, lemma_seeds_sound, lit_cells, marked_cells, positions, row_step, search_outcome,
    seeds, Blob, BlobView,
};
use crate::cluster::{
    clustered, first_touching, gather, hull, join, lemma_first_touching, merged, sweep_row, touching,
};
use crate::cluster_laws::{
    all_proper, area_inside, covered_by, each, in_some, inside, law_merged_areas, law_merged_covers,
    law_merged_least, lemma_merged_keeps, separated,
};
use crate::grid::{
    adjacent, closed_under_steps, frame_cells, lemma_position, lemma_raster_injective,
    lemma_reach_closed, lemma_reach_least, lemma_reach_same, lemma_reach_start, lemma_reach_within,
    raster, reach, Cell,
};
use crate::plain_steps::{gap, law_bits, law_packed, pixel};
use crate::ranking::{law_clustered, law_clustered_separated};
use crate::state::ProcessorView;
use vstd::prelude::*;

verus! {

/// The pixels lie side by side or one above the other.
pub open spec fn neighbours(p: (int, int), q: (int, int)) -> bool {
    gap(p.0, q.0) + gap(p.1, q.1) == 1
}

/// `some` holds every pixel of `all` that is a neighbour of one of its own.
pub open spec fn closed_in(some: Set<(int, int)>, all: Set<(int, int)>) -> bool {
    forall|p: (int, int), q: (int, int)|
        #![trigger some.contains(p), all.contains(q)]
        some.contains(p) && all.contains(q) && neighbours(p, q) ==> some.contains(q)
}

/// What can be reached is the least that holds the start and, with a pixel, every open neighbour
/// of it.
pub proof fn law_reach_least(open_cells: Set<(int, int)>, start: (int, int), some: Set<(int, int)>)
    ensures
        reach(open_cells, start).contains(start),
        closed_in(reach(open_cells, start), open_cells),
        some.contains(start) && closed_in(some, open_cells) ==> reach(
            open_cells,
            start,
        ).subset_of(some),
{
    lemma_reach_start(open_cells, start);
    lemma_reach_closed(open_cells, start);
    let all = reach(open_cells, start);
    assert forall|p: (int, int), q: (int, int)|
        #![trigger all.contains(p), open_cells.contains(q)]
        all.contains(p) && open_cells.contains(q) && neighbours(p, q) implies all.contains(q) by {
        assert(adjacent(p, q));
    }
    if some.contains(start) && closed_in(some, open_cells) {
        assert(closed_under_steps(open_cells, some)) by {
            assert forall|p: Cell, q: Cell|
                #![trigger some.contains(p), open_cells.contains(q)]
                some.contains(p) && open_cells.contains(q) && adjacent(p, q) implies some.contains(
                q,
            ) by {
                assert(neighbours(p, q));
            }
        }
        lemma_reach_least(open_cells, start, some);
    }
}

/// `part` is one connected part of `all`: it is not empty, holds every neighbour in `all` of its
/// pixels, and cannot be split: whatever holds one of its pixels and, with a pixel, every
/// neighbour in `part`, holds all of it.
pub open spec fn connected_part(part: Set<(int, int)>, all: Set<(int, int)>) -> bool {
    &&& exists|c: (int, int)| part.contains(c)
    &&& part.subset_of(all)
    &&& closed_in(part, all)
    &&& forall|some: Set<(int, int)>, c: (int, int)|
        #![trigger some.contains(c), part.contains(c)]
        some.contains(c) && part.contains(c) && closed_in(some, part) ==> part.subset_of(some)
}

/// `parts` are the connected parts of `all`, each once.
pub open spec fn parts_of(all: Set<(int, int)>, parts: Seq<Set<(int, int)>>) -> bool {
    &&& forall|i: int| 0 <= i < parts.len() ==> #[trigger] connected_part(parts[i], all)
    &&& forall|i: int, j: int, c: (int, int)|
        #![trigger parts[i].contains(c), parts[j].contains(c)]
        0 <= i < parts.len() && 0 <= j < parts.len() && i != j && parts[i].contains(c)
            ==> !parts[j].contains(c)
    &&& forall|c: (int, int)| #[trigger]
        all.contains(c) ==> exists|i: int| 0 <= i < parts.len() && #[trigger] parts[i].contains(c)
}

/// The pixels of a frame that are foreground.
pub open spec fn foreground(data: Seq<u8>, width: int, height: int, stride: int) -> Set<
    (int, int),
> {
    Set::new(
        |c: (int, int)|
            0 <= c.0 && c.0 < height && 0 <= c.1 && c.1 < width && pixel(data, stride, c.0, c.1)
                == 255,
    )
}

pub proof fn lemma_foreground(data: Seq<u8>, width: int, height: int, stride: int)
    ensures
        foreground(data, width, height, stride) == lit_cells(data, width, height, stride),
{
    assert(foreground(data, width, height, stride) =~= lit_cells(data, width, height, stride));
}

/// A group is a connected part.
pub proof fn lemma_group_is_part(lit: Set<(int, int)>, first: (int, int))
    requires
        lit.contains(first),
    ensures
        connected_part(reach(lit, first), lit),
{
    let group = reach(lit, first);
    law_reach_least(lit, first, group);
    lemma_reach_within(lit, first);
    assert(group.subset_of(lit));
    assert forall|some: Set<(int, int)>, c: (int, int)|
        #![trigger some.contains(c), group.contains(c)]
        some.contains(c) && group.contains(c) && closed_in(some, group) implies group.subset_of(
        some,
    ) by {
        lemma_reach_same(lit, first, c);
        let both = some.intersect(group);
        assert(closed_in(both, lit)) by {
            assert forall|p: (int, int), q: (int, int)|
                #![trigger both.contains(p), lit.contains(q)]
                both.contains(p) && lit.contains(q) && neighbours(p, q) implies both.contains(q) by {
                assert(group.contains(p) && some.contains(p));
                assert(group.contains(q));
            }
        }
        law_reach_least(lit, c, both);
    }
}

/// The groups of all first pixels.
pub open spec fn groups(lit: Set<(int, int)>, width: int, height: int) -> Seq<Set<(int, int)>> {
    seeds(lit, width, width * height).map_values(|c: (int, int)| reach(lit, c))
}

/// The groups are the connected parts.
pub proof fn lemma_groups_are_parts(lit: Set<(int, int)>, width: int, height: int)
    requires
        0 < width,
        0 <= height,
        lit.subset_of(frame_cells(width, height)),
    ensures
        parts_of(lit, groups(lit, width, height)),
{
    let firsts = seeds(lit, width, width * height);
    let all = groups(lit, width, height);
    assert(0 <= width * height) by (nonlinear_arith)
        requires
            0 < width,
            0 <= height,
    ;
    lemma_seeds_sound(lit, width, height, width * height);
    law_groups_cover(lit, width, height);
    assert forall|i: int| 0 <= i < all.len() implies #[trigger] connected_part(all[i], lit) by {
        assert(is_seed(lit, width, firsts[i]));
        lemma_group_is_part(lit, firsts[i]);
    }
    assert forall|i: int, j: int, c: (int, int)|
        #![trigger all[i].contains(c), all[j].contains(c)]
        0 <= i < all.len() && 0 <= j < all.len() && i != j && all[i].contains(c)
            implies !all[j].contains(c) by {
        assert(is_seed(lit, width, firsts[i]) && is_seed(lit, width, firsts[j]));
        if i < j {
            assert(raster(firsts[i], width) < raster(firsts[j], width));
        } else {
            assert(raster(firsts[j], width) < raster(firsts[i], width));
        }
        law_groups_disjoint(lit, width, firsts[i], firsts[j]);
    }
    assert forall|c: (int, int)| #[trigger] lit.contains(c) implies exists|i: int|
        0 <= i < all.len() && #[trigger] all[i].contains(c) by {
        assert(groups_of(lit, firsts).contains(c));
        let i = choose|i: int| 0 <= i < firsts.len() && reach(lit, #[trigger] firsts[i]).contains(c);
        assert(all[i].contains(c));
    }
}

/// The blob is the bounding box of the pixels, with the right and bottom bounds past them, and
/// counts them.
pub open spec fn bounds(blob: BlobView, part: Set<(int, int)>) -> bool {
    &&& part.finite()
    &&& blob.area == part.len()
    &&& forall|c: (int, int)| #[trigger]
        part.contains(c) ==> blob.min_y <= c.0 && c.0 < blob.max_y && blob.min_x <= c.1 && c.1
            < blob.max_x
    &&& exists|c: (int, int)| #[trigger] part.contains(c) && c.1 == blob.min_x
    &&& exists|c: (int, int)| #[trigger] part.contains(c) && c.0 == blob.min_y
    &&& exists|c: (int, int)| #[trigger] part.contains(c) && c.1 + 1 == blob.max_x
    &&& exists|c: (int, int)| #[trigger] part.contains(c) && c.0 + 1 == blob.max_y
}

/// `early` has a pixel that comes before all of `late`, row by row.
pub open spec fn comes_first(early: Set<(int, int)>, late: Set<(int, int)>) -> bool {
    exists|c: (int, int)| #[trigger]
        early.contains(c) && forall|d: (int, int)| #[trigger]
            late.contains(d) ==> c.0 < d.0 || c.0 == d.0 && c.1 < d.1
}

/// What a search gives: with all connected parts of the foreground listed in the order of their
/// first pixels, one blob for each, but for the first one thousand and one at most. A pixel is
/// marked exactly if it lies in a part that has a blob.
pub proof fn law_search_values(
    data: Seq<u8>,
    width: int,
    height: int,
    stride: int,
    blobs: Seq<Blob>,
    marks: Seq<u64>,
)
    requires
        0 < width,
        0 <= height,
        search_outcome(data, width, height, stride, blobs, marks),
    ensures
        exists|parts: Seq<Set<(int, int)>>|
            {
                &&& #[trigger] parts_of(foreground(data, width, height, stride), parts)
                &&& blobs.len() == (if parts.len() <= 1000 {
                    parts.len()
                } else {
                    1001
                })
                &&& forall|i: int|
                    #![trigger blobs[i]]
                    0 <= i < blobs.len() ==> bounds(
                        BlobView {
                            min_x: blobs[i].min_x as int,
                            min_y: blobs[i].min_y as int,
                            max_x: blobs[i].max_x as int,
                            max_y: blobs[i].max_y as int,
                            area: blobs[i].area as int,
                        },
                        parts[i],
                    )
                &&& forall|i: int, j: int|
                    #![trigger parts[i], parts[j]]
                    0 <= i < j < parts.len() ==> comes_first(parts[i], parts[j])
                &&& forall|word: int, digit: u64|
                    #![trigger marks[word] >> digit]
                    0 <= word < marks.len() && digit < 64 ==> ((marks[word] >> digit) % 2 == 1
                        <==> 64 * word + digit < width * height && exists|i: int|
                        0 <= i < blobs.len() && #[trigger] parts[i].contains(
                            ((64 * word + digit) / width, (64 * word + digit) % width),
                        ))
            },
{
    let lit = lit_cells(data, width, height, stride);
    let firsts = seeds(lit, width, width * height);
    let parts = groups(lit, width, height);
    let all = all_blobs(data, width, height, stride);
    lemma_foreground(data, width, height, stride);
    assert(lit.subset_of(frame_cells(width, height)));
    lemma_groups_are_parts(lit, width, height);
    assert(0 <= width * height) by (nonlinear_arith)
        requires
            0 < width,
            0 <= height,
    ;
    lemma_seeds_sound(lit, width, height, width * height);
    assert(blob_views(blobs).len() == blobs.len());
    assert(all.len() == parts.len());
    assert forall|i: int| #![trigger blobs[i]] 0 <= i < blobs.len() implies bounds(
        BlobView {
            min_x: blobs[i].min_x as int,
            min_y: blobs[i].min_y as int,
            max_x: blobs[i].max_x as int,
            max_y: blobs[i].max_y as int,
            area: blobs[i].area as int,
        },
        parts[i],
    ) by {
        assert(blob_views(blobs)[i] == blobs[i]@);
        law_blob_describes(data, width, height, stride, i);
        lemma_bounds(all[i], parts[i]);
        assert(blobs[i]@ == all[i]);
    }
    lemma_groups_in_order(lit, width, height);
    let kept = firsts.take(blobs.len() as int);
    assert forall|word: int, digit: u64|
        #![trigger marks[word] >> digit]
        0 <= word < marks.len() && digit < 64 implies ((marks[word] >> digit) % 2 == 1 <==> 64
        * word + digit < width * height && exists|i: int|
        0 <= i < blobs.len() && #[trigger] parts[i].contains(
            ((64 * word + digit) / width, (64 * word + digit) % width),
        )) by {
        let n = 64 * word + digit;
        law_bits(marks, word, digit);
        if n < width * height {
            lemma_cell_at(n, width, height);
            let c = cell_at(n, width);
            assert(marked_cells(marks, width, height).contains(c) == bit_at(marks, n));
            if groups_of(lit, kept).contains(c) {
                let i = choose|i: int|
                    0 <= i < kept.len() && reach(lit, #[trigger] kept[i]).contains(c);
                assert(kept[i] == firsts[i]);
                assert(parts[i].contains(c));
            }
            if exists|i: int| 0 <= i < blobs.len() && #[trigger] parts[i].contains(c) {
                let i = choose|i: int| 0 <= i < blobs.len() && #[trigger] parts[i].contains(c);
                assert(kept[i] == firsts[i]);
                assert(reach(lit, kept[i]).contains(c));
            }
        }
    }
}

/// The groups come in the order of their first pixels.
proof fn lemma_groups_in_order(lit: Set<(int, int)>, width: int, height: int)
    requires
        0 < width,
        0 <= height,
        lit.subset_of(frame_cells(width, height)),
    ensures
        forall|i: int, j: int|
            #![trigger groups(lit, width, height)[i], groups(lit, width, height)[j]]
            0 <= i < j < groups(lit, width, height).len() ==> comes_first(
                groups(lit, width, height)[i],
                groups(lit, width, height)[j],
            ),
{
    let firsts = seeds(lit, width, width * height);
    let parts = groups(lit, width, height);
    assert(0 <= width * height) by (nonlinear_arith)
        requires
            0 < width,
            0 <= height,
    ;
    lemma_seeds_sound(lit, width, height, width * height);
    assert forall|i: int, j: int|
        #![trigger parts[i], parts[j]]
        0 <= i < j < parts.len() implies comes_first(parts[i], parts[j]) by {
        let c = firsts[i];
        assert(raster(firsts[i], width) < raster(firsts[j], width));
        assert(is_seed(lit, width, firsts[i]) && is_seed(lit, width, firsts[j]));
        lemma_reach_start(lit, c);
        lemma_reach_within(lit, firsts[j]);
        assert forall|d: (int, int)| #[trigger] parts[j].contains(d) implies c.0 < d.0 || c.0
            == d.0 && c.1 < d.1 by {
            assert(raster(firsts[j], width) <= raster(d, width));
            lemma_raster_injective(c, d, width, height);
        }
        assert(parts[i].contains(c));
    }
}

/// What a search leaves in a detector. The digits of the marks are one exactly for the pixels of
/// the parts found, which are the first one thousand and one at most in the order of their first
/// pixels; the stack is empty if there is a part; nothing else changes.
pub proof fn law_searched_values(state: ProcessorView)
    requires
        0 < state.width,
        state.width * state.height <= 64 * state.marks.len(),
    ensures
        ({
            let w = state.width as int;
            let h = state.height as int;
            let after = state.searched();
            exists|parts: Seq<Set<(int, int)>>|
                {
                    &&& #[trigger] parts_of(foreground(state.dilated, w, h, w), parts)
                    &&& forall|i: int, j: int|
                        #![trigger parts[i], parts[j]]
                        0 <= i < j < parts.len() ==> comes_first(parts[i], parts[j])
                    &&& forall|word: int, digit: u64|
                        #![trigger after.marks[word] >> digit]
                        0 <= word < after.marks.len() && digit < 64 ==> ((after.marks[word]
                            >> digit) % 2 == 1 <==> 64 * word + digit < w * h && exists|i: int|
                            0 <= i < parts.len() && i <= 1000 && #[trigger] parts[i].contains(
                                ((64 * word + digit) / w, (64 * word + digit) % w),
                            ))
                    &&& after.marks.len() == state.marks.len()
                    &&& parts.len() == 0 ==> after.stack == state.stack
                    &&& parts.len() > 0 ==> after.stack.len() == 0
                    &&& after == (ProcessorView { marks: after.marks, stack: after.stack, ..state })
                }
        }),
{
    let w = state.width as int;
    let h = state.height as int;
    let after = state.searched();
    let lit = lit_cells(state.dilated, w, h, w);
    let firsts = seeds(lit, w, w * h);
    let parts = groups(lit, w, h);
    lemma_foreground(state.dilated, w, h, w);
    assert(lit.subset_of(frame_cells(w, h)));
    lemma_groups_are_parts(lit, w, h);
    lemma_groups_in_order(lit, w, h);
    let count = state.blobs().len() as int;
    assert(count == (if parts.len() <= 1000 {
        parts.len() as int
    } else {
        1001
    }));
    let kept = firsts.take(count);
    let bits = positions(found_cells(state.dilated, w, h, w), w, h);
    assert(after.marks.len() == state.marks.len()) by {
        assert(packed(bits, state.marks.len()).len() == state.marks.len()) by {
            lemma_packed_holds(bits, state.marks.len());
        }
    }
    assert forall|word: int, digit: u64|
        #![trigger after.marks[word] >> digit]
        0 <= word < after.marks.len() && digit < 64 implies ((after.marks[word] >> digit) % 2 == 1
        <==> 64 * word + digit < w * h && exists|i: int|
        0 <= i < parts.len() && i <= 1000 && #[trigger] parts[i].contains(
            ((64 * word + digit) / w, (64 * word + digit) % w),
        )) by {
        let n = 64 * word + digit;
        law_packed(bits, state.marks.len(), word, digit);
        let c = cell_at(n, w);
        if groups_of(lit, kept).contains(c) {
            let i = choose|i: int|
                0 <= i < kept.len() && reach(lit, #[trigger] kept[i]).contains(c);
            assert(kept[i] == firsts[i]);
            assert(parts[i].contains(c));
        }
        if exists|i: int| 0 <= i < parts.len() && i <= 1000 && #[trigger] parts[i].contains(c) {
            let i = choose|i: int|
                0 <= i < parts.len() && i <= 1000 && #[trigger] parts[i].contains(c);
            assert(kept[i] == firsts[i]);
            assert(reach(lit, kept[i]).contains(c));
        }
    }
    assert(parts_of(foreground(state.dilated, w, h, w), parts));
}

/// Without a stride rows lie end to end; with one they start that far apart.
pub proof fn law_row_step(stride: usize, width: usize, data: Seq<u8>, y: int, x: int)
    ensures
        pixel(data, row_step(None, width), y, x) == data[y * width + x],
        pixel(data, row_step(Some(stride), width), y, x) == data[y * stride + x],
{
}

proof fn lemma_bounds(blob: BlobView, part: Set<(int, int)>)
    requires
        describes(blob, part),
    ensures
        bounds(blob, part),
{
    let right = choose|c: Cell| #[trigger] part.contains(c) && c.1 == blob.max_x - 1;
    let bottom = choose|c: Cell| #[trigger] part.contains(c) && c.0 == blob.max_y - 1;
    assert(part.contains(right) && right.1 + 1 == blob.max_x);
    assert(part.contains(bottom) && bottom.0 + 1 == blob.max_y);
}

/// The mark of the pixel in row `y` and column `x`.
pub open spec fn marked(marks: Seq<u64>, width: int, y: int, x: int) -> bool {
    (marks[(y * width + x) / 64] >> (((y * width + x) % 64) as u64)) % 2 == 1
}

/// What a flood fill gives: the least pixels that hold the start and, with a pixel, every
/// neighbour that is foreground and was not marked. Their bounds and their number are found, and
/// afterwards exactly they are marked besides what was.
pub proof fn law_fill_values(
    data: Seq<u8>,
    width: int,
    height: int,
    stride: int,
    start: (int, int),
    before: Seq<u64>,
    found: (usize, usize, usize, usize, u32),
    after: Seq<u64>,
)
    requires
        0 <= start.0 < height,
        0 <= start.1 < width,
        width * height <= 64 * before.len(),
        fill_outcome(data, width, height, stride, start, before, found, after),
    ensures
        ({
            let free = Set::new(
                |c: (int, int)|
                    foreground(data, width, height, stride).contains(c) && !marked(
                        before,
                        width,
                        c.0,
                        c.1,
                    ),
            );
            exists|filled: Set<(int, int)>|
                {
                    &&& filled.contains(start)
                    &&& #[trigger] closed_in(filled, free)
                    &&& forall|some: Set<(int, int)>|
                        #[trigger] some.contains(start) && closed_in(some, free)
                            ==> filled.subset_of(some)
                    &&& bounds(
                        BlobView {
                            min_x: found.0 as int,
                            min_y: found.1 as int,
                            max_x: found.2 + 1,
                            max_y: found.3 + 1,
                            area: found.4 as int,
                        },
                        filled,
                    )
                    &&& after.len() == before.len()
                    &&& forall|y: int, x: int|
                        0 <= y < height && 0 <= x < width ==> (#[trigger] marked(after, width, y, x)
                            <==> marked(before, width, y, x) || filled.contains((y, x)))
                }
        }),
{
    let lit = lit_cells(data, width, height, stride);
    let old_marks = marked_cells(before, width, height);
    let free = lit.difference(old_marks);
    let filled = reach(free, start);
    lemma_foreground(data, width, height, stride);
    assert(after.len() == before.len());
    assert forall|y: int, x: int| 0 <= y < height && 0 <= x < width implies #[trigger] marked(
        before,
        width,
        y,
        x,
    ) == old_marks.contains((y, x)) && marked(after, width, y, x) == marked_cells(
        after,
        width,
        height,
    ).contains((y, x)) by {
        lemma_mark(before, width, height, y, x);
        lemma_mark(after, width, height, y, x);
    }
    let plain_free = Set::new(
        |c: (int, int)|
            foreground(data, width, height, stride).contains(c) && !marked(
                before,
                width,
                c.0,
                c.1,
            ),
    );
    assert forall|c: (int, int)| plain_free.contains(c) == free.contains(c) by {
        if lit.contains(c) {
            assert(marked(before, width, c.0, c.1) == old_marks.contains((c.0, c.1)));
        }
    }
    assert(plain_free =~= free);
    law_reach_least(free, start, filled);
    assert forall|some: Set<(int, int)>|
        #[trigger] some.contains(start) && closed_in(some, free) implies filled.subset_of(some) by {
        law_reach_least(free, start, some);
    }
    let blob = BlobView {
        min_x: found.0 as int,
        min_y: found.1 as int,
        max_x: found.2 + 1,
        max_y: found.3 + 1,
        area: found.4 as int,
    };
    assert(describes(blob, filled));
    lemma_bounds(blob, filled);
    assert forall|y: int, x: int| 0 <= y < height && 0 <= x < width implies (#[trigger] marked(
        after,
        width,
        y,
        x,
    ) <==> marked(before, width, y, x) || filled.contains((y, x))) by {
        assert(marked(before, width, y, x) == old_marks.contains((y, x)));
    }
}

proof fn lemma_mark(marks: Seq<u64>, width: int, height: int, y: int, x: int)
    requires
        0 <= y < height,
        0 <= x < width,
        width * height <= 64 * marks.len(),
    ensures
        marked(marks, width, y, x) == marked_cells(marks, width, height).contains((y, x)),
{
    let n = y * width + x;
    lemma_position(width, height, y, x);
    law_bits(marks, n / 64, (n % 64) as u64);
    assert(64 * (n / 64) + n % 64 == n);
}

/// The boxes are more than `pad` pixels apart, side by side or one above the other.
pub open spec fn apart(a: BlobView, b: BlobView, pad: int) -> bool {
    b.min_x - a.max_x > pad || a.min_x - b.max_x > pad || b.min_y - a.max_y > pad || a.min_y
        - b.max_y > pad
}

/// Box `a` lies in box `b`.
pub open spec fn box_in(a: BlobView, b: BlobView) -> bool {
    b.min_x <= a.min_x && b.min_y <= a.min_y && a.max_x <= b.max_x && a.max_y <= b.max_y
}

/// Box `a` lies in one of the boxes.
pub open spec fn box_in_some(a: BlobView, boxes: Seq<BlobView>) -> bool {
    exists|j: int| 0 <= j < boxes.len() && box_in(a, #[trigger] boxes[j])
}

/// The boxes hold all the blobs and are pairwise more than `pad` pixels apart.
pub open spec fn apart_cover(boxes: Seq<BlobView>, blobs: Seq<BlobView>, pad: int) -> bool {
    &&& forall|i: int, j: int|
        0 <= i < boxes.len() && 0 <= j < boxes.len() && i != j ==> apart(
            #[trigger] boxes[i],
            #[trigger] boxes[j],
            pad,
        )
    &&& forall|k: int| 0 <= k < blobs.len() ==> #[trigger] box_in_some(blobs[k], boxes)
}

/// The areas of those blobs that lie in a box, added up.
pub open spec fn area_in(blobs: Seq<BlobView>, a: BlobView) -> int
    decreases blobs.len(),
{
    if blobs.len() == 0 {
        0
    } else {
        area_in(blobs.drop_last(), a) + if box_in(blobs.last(), a) {
            blobs.last().area
        } else {
            0
        }
    }
}

proof fn lemma_area_in(blobs: Seq<BlobView>, a: BlobView)
    ensures
        area_in(blobs, a) == area_inside(blobs, a),
    decreases blobs.len(),
{
    if blobs.len() > 0 {
        lemma_area_in(blobs.drop_last(), a);
    }
}

proof fn lemma_apart_cover(boxes: Seq<BlobView>, blobs: Seq<BlobView>, pad: int)
    ensures
        apart_cover(boxes, blobs, pad) <==> separated(boxes, pad) && covered_by(blobs, boxes),
{
    assert forall|a: BlobView, b: BlobView| #[trigger] apart(a, b, pad) == !touching(a, b, pad) by {}
    assert forall|a: BlobView| #[trigger] box_in_some(a, boxes) == in_some(a, boxes) by {
        if box_in_some(a, boxes) {
            let j = choose|j: int| 0 <= j < boxes.len() && box_in(a, #[trigger] boxes[j]);
            assert(inside(a, boxes[j]));
        }
        if in_some(a, boxes) {
            let j = choose|j: int| 0 <= j < boxes.len() && inside(a, #[trigger] boxes[j]);
            assert(box_in(a, boxes[j]));
        }
    }
    if apart_cover(boxes, blobs, pad) {
        assert forall|i: int, j: int|
            0 <= i < boxes.len() && 0 <= j < boxes.len() && i != j implies !touching(
            #[trigger] boxes[i],
            #[trigger] boxes[j],
            pad,
        ) by {
            assert(apart(boxes[i], boxes[j], pad));
        }
        assert forall|k: int| 0 <= k < blobs.len() implies #[trigger] in_some(blobs[k], boxes) by {
            assert(box_in_some(blobs[k], boxes));
        }
    }
    if separated(boxes, pad) && covered_by(blobs, boxes) {
        assert forall|k: int| 0 <= k < blobs.len() implies #[trigger] box_in_some(
            blobs[k],
            boxes,
        ) by {
            assert(in_some(blobs[k], boxes));
        }
    }
}

/// What clustering is for. Without a lower limit on the area, the clusters hold all the blobs, are
/// more than `pad` pixels apart, and are the smallest such boxes: each lies in a box of whatever
/// other boxes hold the blobs and keep that distance. The area of a cluster is that of the blobs
/// in it. With a limit exactly the clusters of at least that area are left. Larger ones come
/// first.
pub proof fn law_clusters_values(
    blobs: Seq<BlobView>,
    pad: int,
    min_area: int,
    others: Seq<BlobView>,
)
    requires
        0 <= pad,
        forall|i: int|
            0 <= i < blobs.len() ==> (#[trigger] blobs[i]).min_x < blobs[i].max_x && blobs[i].min_y
                < blobs[i].max_y && blobs[i].area >= 0,
    ensures
        apart_cover(clustered(blobs, pad, 0), blobs, pad),
        apart_cover(others, blobs, pad) ==> forall|i: int|
            0 <= i < clustered(blobs, pad, 0).len() ==> #[trigger] box_in_some(
                clustered(blobs, pad, 0)[i],
                others,
            ),
        forall|i: int|
            0 <= i < clustered(blobs, pad, 0).len() ==> (#[trigger] clustered(blobs, pad, 0)[i]).area
                == area_in(blobs, clustered(blobs, pad, 0)[i]),
        forall|c: BlobView| #[trigger]
            clustered(blobs, pad, min_area).contains(c) <==> clustered(blobs, pad, 0).contains(c)
                && c.area >= min_area,
        forall|i: int, j: int|
            0 <= i < j < clustered(blobs, pad, min_area).len() ==> (#[trigger] clustered(
                blobs,
                pad,
                min_area,
            )[i]).area >= (#[trigger] clustered(blobs, pad, min_area)[j]).area && apart(
                clustered(blobs, pad, min_area)[i],
                clustered(blobs, pad, min_area)[j],
                pad,
            ),
{
    let all = merged(blobs, pad);
    let kept = clustered(blobs, pad, 0);
    law_clustered(blobs, pad, 0);
    law_clustered(blobs, pad, min_area);
    law_clustered_separated(blobs, pad, 0);
    law_clustered_separated(blobs, pad, min_area);
    law_merged_covers(blobs, pad);
    assert(all_proper(blobs));
    law_merged_areas(blobs, pad);
    let counts = |b: BlobView| b.area >= 0;
    assert(each(blobs, counts));
    lemma_merged_keeps(blobs, pad, counts);
    assert forall|c: BlobView| #[trigger] all.contains(c) <==> kept.contains(c) by {
        if all.contains(c) {
            let m = choose|m: int| 0 <= m < all.len() && all[m] == c;
            assert(counts(all[m]));
        }
    }
    assert forall|k: int| 0 <= k < blobs.len() implies #[trigger] in_some(blobs[k], kept) by {
        assert(in_some(blobs[k], all));
        let i = choose|i: int| 0 <= i < all.len() && inside(blobs[k], #[trigger] all[i]);
        assert(all.contains(all[i]));
        let j = choose|j: int| 0 <= j < kept.len() && kept[j] == all[i];
        assert(inside(blobs[k], kept[j]));
    }
    lemma_apart_cover(kept, blobs, pad);
    if apart_cover(others, blobs, pad) {
        lemma_apart_cover(others, blobs, pad);
        law_merged_least(blobs, pad, others);
        assert forall|i: int| 0 <= i < kept.len() implies #[trigger] box_in_some(
            kept[i],
            others,
        ) by {
            assert(kept.contains(kept[i]));
            let m = choose|m: int| 0 <= m < all.len() && all[m] == kept[i];
            assert(in_some(all[m], others));
            let j = choose|j: int| 0 <= j < others.len() && inside(all[m], #[trigger] others[j]);
            assert(box_in(kept[i], others[j]));
        }
    }
    assert forall|i: int| 0 <= i < kept.len() implies (#[trigger] kept[i]).area == area_in(
        blobs,
        kept[i],
    ) by {
        assert(kept.contains(kept[i]));
        let m = choose|m: int| 0 <= m < all.len() && all[m] == kept[i];
        assert(all[m].area == area_inside(blobs, all[m]));
        lemma_area_in(blobs, kept[i]);
    }
    let some = clustered(blobs, pad, min_area);
    assert forall|c: BlobView| #[trigger] some.contains(c) <==> kept.contains(c) && c.area
        >= min_area by {
        assert(all.contains(c) <==> kept.contains(c));
    }
    assert forall|i: int, j: int| 0 <= i < j < some.len() implies (#[trigger] some[i]).area >= (
    #[trigger] some[j]).area && apart(some[i], some[j], pad) by {
        assert(!touching(some[i], some[j], pad));
    }
}

/// Where a further blob goes: into the first cluster that it comes near, which becomes the box
/// around both, or, if it comes near none, behind all of them. The other clusters keep their
/// places.
pub proof fn law_gathered_next(blobs: Seq<BlobView>, next: BlobView, pad: int)
    ensures
        ({
            let before = gather(blobs, pad);
            let after = gather(blobs.push(next), pad);
            let near = |k: int| gap_between(before[k], next) <= pad;
            let alone = forall|k: int| 0 <= k < before.len() ==> !#[trigger] near(k);
            &&& alone ==> after == before + seq![next]
            &&& !alone ==> after.len() == before.len() && exists|k: int|
                {
                    &&& 0 <= k < before.len()
                    &&& #[trigger] near(k)
                    &&& forall|m: int| 0 <= m < k ==> !#[trigger] near(m)
                    &&& after[k] == hull(before[k], next)
                    &&& forall|m: int|
                        0 <= m < before.len() && m != k ==> #[trigger] after[m] == before[m]
                }
        }),
{
    let before = gather(blobs, pad);
    let after = gather(blobs.push(next), pad);
    let near = |k: int| gap_between(before[k], next) <= pad;
    assert(blobs.push(next).drop_last() =~= blobs);
    lemma_first_touching(before, next, pad, 0);
    assert forall|k: int| 0 <= k < before.len() implies #[trigger] near(k) == touching(
        before[k],
        next,
        pad,
    ) by {}
    let at = first_touching(before, next, pad, 0);
    if at < before.len() {
        assert(touching(before[at], next, pad));
        assert(near(at));
        assert forall|m: int| 0 <= m < at implies !#[trigger] near(m) by {
            assert(!touching(before[m], next, pad));
        }
    } else {
        assert forall|k: int| 0 <= k < before.len() implies !#[trigger] near(k) by {
            assert(!touching(before[k], next, pad));
        }
        assert(after =~= before + seq![next]);
    }
}

/// What one cluster merges with: nothing, if none from `from` on is near; else, starting with the
/// first that is, it grows around that one, the last cluster takes the free place, and the search
/// goes on with that place.
pub proof fn law_swept_next(clusters: Seq<BlobView>, i: int, from: int, at: int, pad: int)
    requires
        0 <= i < from <= at <= clusters.len(),
        forall|k: int| from <= k < at ==> gap_between(clusters[i], #[trigger] clusters[k]) > pad,
        at < clusters.len() ==> gap_between(clusters[i], clusters[at]) <= pad,
    ensures
        at == clusters.len() ==> sweep_row(clusters, i, from, pad) == clusters,
        at < clusters.len() ==> {
            let grown = clusters.update(i, hull(clusters[i], clusters[at]));
            sweep_row(clusters, i, from, pad) == sweep_row(
                grown.update(at, grown[clusters.len() - 1]).take(clusters.len() - 1),
                i,
                at,
                pad,
            )
        },
    decreases at - from,
{
    if from < at {
        assert(gap_between(clusters[i], clusters[from]) > pad);
        assert(!touching(clusters[i], clusters[from], pad));
        law_swept_next(clusters, i, from + 1, at, pad);
    } else if at < clusters.len() {
        assert(touching(clusters[i], clusters[at], pad));
        let grown = clusters.update(i, hull(clusters[i], clusters[at]));
        let moved = grown.update(at, grown[clusters.len() - 1]).take(clusters.len() - 1);
        assert(join(clusters, i, at) =~= moved);
    }
}

/// The larger of the distances between two boxes from side to side and from top to bottom; not
/// positive where they meet in that direction.
pub open spec fn gap_between(a: BlobView, b: BlobView) -> int {
    let across = if a.min_x - b.max_x >= b.min_x - a.max_x {
        a.min_x - b.max_x
    } else {
        b.min_x - a.max_x
    };
    let down = if a.min_y - b.max_y >= b.min_y - a.max_y {
        a.min_y - b.max_y
    } else {
        b.min_y - a.max_y
    };
    if across >= down {
        across
    } else {
        down
    }
}

} // verus!
