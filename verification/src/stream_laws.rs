//! What holds of a detector over a whole stream of calls.
use crate::blobs::lit_cells;
use crate::blur::{blur_outcome, blur_refusal};
use crate::detector_laws::{law_judged_fit, law_motion_cells, law_nothing_moved};
use crate::dilate::over;
use crate::grid::{frame_cells, lemma_raster_bounds, raster, Cell};
use crate::state::{no_marks, Corners, ProcessorView};
use vstd::prelude::*;

verus! {

/// Something that happens to a detector. A frame is what the blur left of it.
pub enum Event {
    /// A frame is processed.
    Frame {
        blurred: Seq<u8>,
        threshold: u8,
        dilate_size: u8,
        min_area: u32,
        update_reference: bool,
    },
    /// A frame is processed step by step, to the end.
    Stepped { blurred: Seq<u8>, threshold: u8, dilate_size: u8, min_area: u32 },
    /// A frame is refused by the blur.
    Refused,
    /// Everything seen is forgotten.
    Reset,
    /// The frame size is set.
    Reconfigure { width: u32, height: u32 },
}

impl ProcessorView {
    /// The state with a blurred frame in the buffer for the next frame, over what that held.
    pub open spec fn given(self, blurred: Seq<u8>) -> ProcessorView {
        self.with_current(over(blurred, self.current()))
    }

    /// What processing the current frame step by step leads to, and the boxes reported.
    pub open spec fn stepped(
        self,
        threshold: u8,
        dilate_size: u8,
        min_area: u32,
    ) -> (ProcessorView, Seq<Corners>) {
        let seen = self.compared(threshold).spread(dilate_size);
        if self.has_previous {
            (seen.searched().toggled(), seen.debug_boxes(min_area))
        } else {
            (self.started(), Seq::empty())
        }
    }

    /// The state after an event, and the boxes that it reports, if it reports any.
    pub open spec fn after(self, event: Event) -> (ProcessorView, Option<Seq<Corners>>) {
        match event {
            Event::Frame { blurred, threshold, dilate_size, min_area, update_reference } => {
                let (next, boxes) = self.given(blurred).judged(
                    threshold,
                    dilate_size,
                    min_area,
                    update_reference,
                );
                (next, Some(boxes))
            },
            Event::Stepped { blurred, threshold, dilate_size, min_area } => {
                let (next, boxes) = self.given(blurred).stepped(threshold, dilate_size, min_area);
                (next, Some(boxes))
            },
            Event::Refused => (self, None),
            Event::Reset => (self.reset(), None),
            Event::Reconfigure { width, height } => (self.reconfigured(width, height), None),
        }
    }

    /// The event can happen: a frame fits the detector, a new size fits in 32 bits.
    pub open spec fn admits(self, event: Event) -> bool {
        match event {
            Event::Frame { blurred, .. } => self.holds_frame() && blurred.len() == self.width
                * self.height,
            Event::Stepped { blurred, .. } => self.holds_frame() && blurred.len() == self.width
                * self.height,
            Event::Refused => true,
            Event::Reset => true,
            Event::Reconfigure { width, height } => self.width == width && self.height == height
                || width * height <= u32::MAX,
        }
    }

    /// The events can happen one after the other.
    pub open spec fn admits_all(self, events: Seq<Event>) -> bool
        decreases events.len(),
    {
        events.len() == 0 || self.admits(events[0]) && self.after(events[0]).0.admits_all(
            events.drop_first(),
        )
    }

    /// The state after all of the events.
    pub open spec fn after_all(self, events: Seq<Event>) -> ProcessorView
        decreases events.len(),
    {
        if events.len() == 0 {
            self
        } else {
            self.after(events[0]).0.after_all(events.drop_first())
        }
    }

    /// The buffers are as long as a frame or longer.
    pub open spec fn roomy(self) -> bool {
        self.width * self.height <= self.frame_a.len()
    }

    /// What is reported for each of the events.
    pub open spec fn replies(self, events: Seq<Event>) -> Seq<Option<Seq<Corners>>>
        decreases events.len(),
    {
        if events.len() == 0 {
            Seq::empty()
        } else {
            let (next, reply) = self.after(events[0]);
            seq![reply] + next.replies(events.drop_first())
        }
    }
}

/// An image that is processed is a frame event with what the blur left of it.
pub proof fn law_image_is_frame(
    state: ProcessorView,
    image: Seq<u8>,
    kernel_size: u8,
    blurred: Seq<u8>,
)
    requires
        state.even(),
        state.holds_frame(),
        blur_outcome(image, state.width, state.height, kernel_size, state.current(), blurred),
    ensures
        state.with_current(blurred) == state.given(blurred.take(state.width * state.height)),
{
    let count = state.width * state.height;
    assert(0 < count) by (nonlinear_arith)
        requires
            count == state.width * state.height,
            state.width > 0,
            state.height > 0,
    ;
    let whole = over(blurred.take(count), state.current());
    assert forall|i: int| 0 <= i < blurred.len() implies blurred[i] == whole[i] by {
        if i >= count {
            assert(blurred.skip(count)[i - count] == state.current().skip(count)[i - count]);
        }
    }
    assert(whole =~= blurred);
}

/// The two detectors answer alike from now on: their frames have the same size, their buffers
/// are of one length or both hold a frame, and both have seen nothing or hold the next frame
/// against the same one.
pub open spec fn alike(p: ProcessorView, q: ProcessorView) -> bool {
    &&& p.width == q.width
    &&& p.height == q.height
    &&& p.frame_a.len() == q.frame_a.len() || p.roomy() && q.roomy()
    &&& p.has_previous == q.has_previous
    &&& p.has_previous ==> p.reference().take(p.width * p.height) == q.reference().take(
        q.width * q.height,
    )
}

proof fn lemma_given(state: ProcessorView, blurred: Seq<u8>)
    requires
        state.even(),
        state.holds_frame(),
        blurred.len() == state.width * state.height,
    ensures
        state.given(blurred).even(),
        state.given(blurred).holds_frame(),
        state.given(blurred).current().len() == state.frame_a.len(),
        state.given(blurred).current().take(state.width * state.height) == blurred,
        state.given(blurred).reference() == state.reference(),
{
    let whole = over(blurred, state.current());
    assert(whole.len() == state.frame_a.len());
    assert(whole.take(state.width * state.height) =~= blurred);
}

/// Frames held against the same reference show the same motion.
proof fn lemma_alike_seen(
    p: ProcessorView,
    q: ProcessorView,
    blurred: Seq<u8>,
    threshold: u8,
    dilate_size: u8,
)
    requires
        p.even(),
        p.holds_frame(),
        q.even(),
        alike(p, q),
        p.has_previous,
        blurred.len() == p.width * p.height,
    ensures
        p.given(blurred).seen(threshold, dilate_size).blobs() == q.given(blurred).seen(
            threshold,
            dilate_size,
        ).blobs(),
{
    let w = p.width as int;
    let h = p.height as int;
    let count = w * h;
    lemma_given(p, blurred);
    lemma_given(q, blurred);
    let p1 = p.given(blurred);
    let q1 = q.given(blurred);
    law_motion_cells(p1, threshold, dilate_size);
    law_motion_cells(q1, threshold, dilate_size);
    assert forall|c: Cell| p1.changed_cells(threshold).contains(c) == q1.changed_cells(
        threshold,
    ).contains(c) by {
        if frame_cells(w, h).contains(c) {
            lemma_raster_bounds(c, w, h);
            let n = raster(c, w);
            assert(p1.current().take(count)[n] == q1.current().take(count)[n]);
            assert(p1.reference().take(count)[n] == q1.reference().take(count)[n]);
        }
    }
    assert(p1.changed_cells(threshold) =~= q1.changed_cells(threshold));
    assert(lit_cells(p1.seen(threshold, dilate_size).dilated, w, h, w) == lit_cells(
        q1.seen(threshold, dilate_size).dilated,
        w,
        h,
        w,
    ));
}

/// Detectors that are alike report the same for the same event, and are alike afterwards.
pub proof fn law_alike(p: ProcessorView, q: ProcessorView, event: Event)
    requires
        p.even(),
        q.even(),
        alike(p, q),
        p.admits(event),
    ensures
        q.admits(event),
        p.after(event).1 == q.after(event).1,
        alike(p.after(event).0, q.after(event).0),
        p.after(event).0.even(),
        q.after(event).0.even(),
{
    match event {
        Event::Frame { blurred, threshold, dilate_size, min_area, update_reference } => {
            lemma_given(p, blurred);
            lemma_given(q, blurred);
            if p.has_previous {
                lemma_alike_seen(p, q, blurred, threshold, dilate_size);
            }
            law_judged_fit(p.given(blurred), threshold, dilate_size, min_area, update_reference);
            law_judged_fit(q.given(blurred), threshold, dilate_size, min_area, update_reference);
        },
        Event::Stepped { blurred, threshold, dilate_size, min_area } => {
            lemma_given(p, blurred);
            lemma_given(q, blurred);
            if p.has_previous {
                lemma_alike_seen(p, q, blurred, threshold, dilate_size);
            }
            law_judged_fit(p.given(blurred), threshold, dilate_size, min_area, true);
            law_judged_fit(q.given(blurred), threshold, dilate_size, min_area, true);
        },
        Event::Refused => {},
        Event::Reset => {},
        Event::Reconfigure { width, height } => {
            assert(0 <= width * height) by (nonlinear_arith);
        },
    }
}

/// Detectors that are alike report the same for every stream of events.
pub proof fn law_alike_stream(p: ProcessorView, q: ProcessorView, events: Seq<Event>)
    requires
        p.even(),
        q.even(),
        alike(p, q),
        p.admits_all(events),
    ensures
        q.admits_all(events),
        p.replies(events) == q.replies(events),
    decreases events.len(),
{
    if events.len() > 0 {
        law_alike(p, q, events[0]);
        law_alike_stream(p.after(events[0]).0, q.after(events[0]).0, events.drop_first());
    }
}

/// Every event leaves the buffers fit: all of one length, and as long as a frame, or longer, if
/// they were so before.
pub proof fn law_buffers_kept(state: ProcessorView, event: Event)
    requires
        state.even(),
        state.admits(event),
    ensures
        state.after(event).0.even(),
        state.roomy() ==> state.after(event).0.roomy(),
        state.frame_a.len() == state.width * state.height ==> ({
            let next = state.after(event).0;
            next.frame_a.len() == next.width * next.height
        }),
{
    law_alike(state, state, event);
    match event {
        Event::Frame { blurred, threshold, dilate_size, min_area, update_reference } => {
            lemma_given(state, blurred);
            law_judged_fit(state.given(blurred), threshold, dilate_size, min_area, update_reference);
        },
        Event::Stepped { blurred, threshold, dilate_size, min_area } => {
            lemma_given(state, blurred);
            law_judged_fit(state.given(blurred), threshold, dilate_size, min_area, true);
        },
        Event::Refused => {},
        Event::Reset => {},
        Event::Reconfigure { width, height } => {
            assert(0 <= width * height) by (nonlinear_arith);
        },
    }
}

/// Whatever happens to a new detector, its buffers stay exactly as long as a frame.
pub proof fn law_buffers_stay(width: u32, height: u32, events: Seq<Event>)
    requires
        width * height <= u32::MAX,
        ProcessorView::fresh(width, height).admits_all(events),
    ensures
        ({
            let state = ProcessorView::fresh(width, height).after_all(events);
            state.even() && state.frame_a.len() == state.width * state.height
        }),
{
    assert(0 <= width * height) by (nonlinear_arith);
    lemma_buffers_stay(ProcessorView::fresh(width, height), events);
}

proof fn lemma_buffers_stay(state: ProcessorView, events: Seq<Event>)
    requires
        state.even(),
        state.frame_a.len() == state.width * state.height,
        state.admits_all(events),
    ensures
        state.after_all(events).even(),
        state.after_all(events).frame_a.len() == state.after_all(events).width
            * state.after_all(events).height,
    decreases events.len(),
{
    if events.len() > 0 {
        law_buffers_kept(state, events[0]);
        lemma_buffers_stay(state.after(events[0]).0, events.drop_first());
    }
}

/// After a reset the sizes and the lengths of the buffers are what they were, and every later
/// stream of events is answered as by a new detector of the same size: nothing that was seen
/// before shows. The buffers may be longer than a frame.
pub proof fn law_reset(state: ProcessorView, events: Seq<Event>)
    requires
        state.even(),
        state.roomy(),
        state.reset().admits_all(events),
    ensures
        state.reset().even(),
        state.reset().frame_a.len() == state.frame_a.len(),
        state.reset().width == state.width,
        state.reset().height == state.height,
        !state.reset().has_previous,
        alike(state.reset(), ProcessorView::fresh(state.width, state.height)),
        state.reset().replies(events) == ProcessorView::fresh(state.width, state.height).replies(
            events,
        ),
{
    assert(0 <= state.width * state.height) by (nonlinear_arith);
    law_alike_stream(
        state.reset(),
        ProcessorView::fresh(state.width, state.height),
        events,
    );
}

/// With a new size every buffer has that size, and every later stream of events is answered as
/// by a new detector of that size, whatever was processed before.
pub proof fn law_reconfigured(state: ProcessorView, width: u32, height: u32, events: Seq<Event>)
    requires
        state.even(),
        state.width != width || state.height != height,
        width * height <= u32::MAX,
        state.reconfigured(width, height).admits_all(events),
    ensures
        ({
            let next = state.reconfigured(width, height);
            &&& next.even()
            &&& next.width == width
            &&& next.height == height
            &&& !next.has_previous
            &&& next.frame_a.len() == width * height
            &&& next.marks == no_marks(width * height)
            &&& alike(next, ProcessorView::fresh(width, height))
            &&& next.replies(events) == ProcessorView::fresh(width, height).replies(events)
        }),
{
    assert(0 <= width * height) by (nonlinear_arith);
    law_alike_stream(
        state.reconfigured(width, height),
        ProcessorView::fresh(width, height),
        events,
    );
}

/// A frame that is not to become the reference leaves no trace, unless so much changed that the
/// whole frame is reported: whatever comes later is answered as if it had not come.
pub proof fn law_unrecorded(
    state: ProcessorView,
    blurred: Seq<u8>,
    threshold: u8,
    dilate_size: u8,
    min_area: u32,
    events: Seq<Event>,
)
    requires
        state.even(),
        state.holds_frame(),
        state.has_previous,
        blurred.len() == state.width * state.height,
        !state.given(blurred).overwhelmed(threshold, dilate_size, min_area),
        state.admits_all(events),
    ensures
        ({
            let next = state.given(blurred).judged(threshold, dilate_size, min_area, false).0;
            &&& next.reference() == state.reference()
            &&& next.replies(events) == state.replies(events)
        }),
{
    lemma_given(state, blurred);
    law_judged_fit(state.given(blurred), threshold, dilate_size, min_area, false);
    let next = state.given(blurred).judged(threshold, dilate_size, min_area, false).0;
    assert(alike(state, next));
    law_alike_stream(state, next, events);
}

/// A frame that became the reference shows no motion when it comes again, for any threshold but
/// zero and whatever else is asked for.
pub proof fn law_repeated_frame(state: ProcessorView, first: Event, again: Event)
    requires
        state.even(),
        state.admits(first),
        ({
            &&& first matches Event::Frame { blurred, update_reference, .. }
            &&& update_reference
            &&& again matches Event::Frame { blurred: same, threshold, .. }
            &&& same == blurred
            &&& threshold > 0
        }),
    ensures
        state.after(first).0.after(again).1 == Some(Seq::<Corners>::empty()),
{
    let count = state.width * state.height;
    let next = state.after(first).0;
    if let Event::Frame { blurred, threshold, dilate_size, min_area, update_reference } = first {
        lemma_given(state, blurred);
        law_judged_fit(
            state.given(blurred),
            threshold,
            dilate_size,
            min_area,
            update_reference,
        );
        assert(next.reference() == state.given(blurred).current());
        if let Event::Frame {
            blurred: same,
            threshold: limit,
            dilate_size: radius,
            min_area: least,
            update_reference: update,
        } = again {
            lemma_given(next, same);
            let held = next.given(same);
            assert forall|c: Cell| !held.changed_cells(limit).contains(c) by {
                let w = state.width as int;
                if frame_cells(w, state.height as int).contains(c) {
                    lemma_raster_bounds(c, w, state.height as int);
                    let n = raster(c, w);
                    assert(held.current().take(count)[n] == held.current()[n]);
                    assert(held.reference().take(count)[n] == held.reference()[n]);
                }
            }
            assert(held.changed_cells(limit) =~= Set::<Cell>::empty());
            law_nothing_moved(held, limit, radius, least, update);
        }
    }
}

/// An image that became the reference shows no motion when it is processed again, as long as the
/// blur leaves the same frame of it, for any threshold but zero and whatever else is asked for.
pub proof fn law_repeated_image(
    state: ProcessorView,
    image: Seq<u8>,
    kernel_size: u8,
    first: Seq<u8>,
    threshold: u8,
    dilate_size: u8,
    min_area: u32,
    again: Seq<u8>,
    limit: u8,
    radius: u8,
    least: u32,
    update: bool,
)
    requires
        state.even(),
        state.holds_frame(),
        limit > 0,
        blur_outcome(image, state.width, state.height, kernel_size, state.current(), first),
        ({
            let next = state.with_current(first).judged(threshold, dilate_size, min_area, true).0;
            let count = state.width * state.height;
            &&& blur_outcome(
                image,
                state.width,
                state.height,
                kernel_size,
                next.current(),
                again,
            )
            &&& again.take(count) == first.take(count)
        }),
    ensures
        ({
            let next = state.with_current(first).judged(threshold, dilate_size, min_area, true).0;
            next.with_current(again).judged(limit, radius, least, update).1 == Seq::<
                Corners,
            >::empty()
        }),
{
    let count = state.width * state.height;
    let next = state.with_current(first).judged(threshold, dilate_size, min_area, true).0;
    assert(0 <= count) by (nonlinear_arith)
        requires
            count == state.width * state.height,
    ;
    law_image_is_frame(state, image, kernel_size, first);
    lemma_given(state, first.take(count));
    law_judged_fit(state.given(first.take(count)), threshold, dilate_size, min_area, true);
    law_image_is_frame(next, image, kernel_size, again);
    let shown = Event::Frame {
        blurred: first.take(count),
        threshold,
        dilate_size,
        min_area,
        update_reference: true,
    };
    let shown_again = Event::Frame {
        blurred: first.take(count),
        threshold: limit,
        dilate_size: radius,
        min_area: least,
        update_reference: update,
    };
    law_repeated_frame(state, shown, shown_again);
}

/// Detectors that are alike refuse the same images, for the same reason.
pub proof fn law_alike_refusal(p: ProcessorView, q: ProcessorView, image_len: nat, kernel_size: u8)
    requires
        p.even(),
        q.even(),
        alike(p, q),
    ensures
        blur_refusal(image_len, p.current().len(), p.width, p.height, kernel_size) == blur_refusal(
            image_len,
            q.current().len(),
            q.width,
            q.height,
            kernel_size,
        ),
{
}

/// Detectors that are alike report the same for the same image, as long as the blur leaves the
/// same frame of it for both, and are alike afterwards.
pub proof fn law_alike_image(
    p: ProcessorView,
    q: ProcessorView,
    image: Seq<u8>,
    kernel_size: u8,
    blurred_p: Seq<u8>,
    blurred_q: Seq<u8>,
    threshold: u8,
    dilate_size: u8,
    min_area: u32,
    update_reference: bool,
)
    requires
        p.even(),
        p.holds_frame(),
        q.even(),
        alike(p, q),
        blur_outcome(image, p.width, p.height, kernel_size, p.current(), blurred_p),
        blur_outcome(image, q.width, q.height, kernel_size, q.current(), blurred_q),
        blurred_p.take(p.width * p.height) == blurred_q.take(q.width * q.height),
    ensures
        ({
            let after_p = p.with_current(blurred_p).judged(
                threshold,
                dilate_size,
                min_area,
                update_reference,
            );
            let after_q = q.with_current(blurred_q).judged(
                threshold,
                dilate_size,
                min_area,
                update_reference,
            );
            after_p.1 == after_q.1 && alike(after_p.0, after_q.0)
        }),
{
    let count = p.width * p.height;
    assert(0 <= count) by (nonlinear_arith)
        requires
            count == p.width * p.height,
    ;
    law_image_is_frame(p, image, kernel_size, blurred_p);
    law_image_is_frame(q, image, kernel_size, blurred_q);
    let event = Event::Frame {
        blurred: blurred_p.take(count),
        threshold,
        dilate_size,
        min_area,
        update_reference,
    };
    law_alike(p, q, event);
}

} // verus!
