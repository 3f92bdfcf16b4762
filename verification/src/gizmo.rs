//! The two orientation gizmos and the per-frame operations on them: routing
//! mouse-drag samples to the gizmo under the cursor's half of the window,
//! composing the resulting incremental rotations onto its orientation, and
//! renormalizing both orientations once per whole-second boundary.

use vstd::prelude::*;
use crate::quat::{
    Quat, bounded, identity_spec, identity, normalize_spec, normalize, apply_drag_spec,
    apply_drag, norm2_spec, lemma_normalize_idempotent,
};
use crate::fixed::{SCALE, isqrt_spec};

verus! {

/// Which of the two gizmos: the one answering to the left half of the
/// window, or the one answering to the right half.
#[derive(Clone, Copy, PartialEq, Eq, Structural, Debug)]
pub enum Gizmo {
    Left,
    Right,
}

/// One quantum of mouse motion, in pixels, delivered between frames.
#[derive(Clone, Copy, PartialEq, Eq, Structural, Debug)]
pub struct DragSample {
    pub dx: i32,
    pub dy: i32,
}

/// The orientations of the two gizmos. The store itself does not reject
/// non-normalized values; the drift corrector renormalizes them once per
/// second.
#[derive(Clone, Copy, PartialEq, Eq, Structural, Debug)]
pub struct OrientationStore {
    pub left: Quat,
    pub right: Quat,
}

impl OrientationStore {
    /// Both orientations within the working range.
    pub open spec fn wf(self) -> bool {
        bounded(self.left) && bounded(self.right)
    }

    /// The orientation of the given gizmo.
    pub open spec fn spec_rotation(self, g: Gizmo) -> Quat {
        if g == Gizmo::Left {
            self.left
        } else {
            self.right
        }
    }

    /// Both gizmos start at the identity orientation.
    pub fn new() -> (s: Self)
        ensures
            s.left == identity_spec(),
            s.right == identity_spec(),
            s.wf(),
    {
        OrientationStore { left: identity(), right: identity() }
    }

    /// Read access to one gizmo's orientation.
    pub fn rotation(&self, g: Gizmo) -> (q: Quat)
        ensures
            q == self.spec_rotation(g),
    {
        match g {
            Gizmo::Left => self.left,
            Gizmo::Right => self.right,
        }
    }

    /// Replaces one gizmo's orientation in place. No normalization check is
    /// made: callers are responsible for supplying a value close to unit
    /// norm.
    pub fn set_rotation(&mut self, g: Gizmo, q: Quat)
        ensures
            final(self).spec_rotation(g) == q,
            g == Gizmo::Left ==> final(self).right == old(self).right,
            g == Gizmo::Right ==> final(self).left == old(self).left,
            bounded(q) && old(self).wf() ==> final(self).wf(),
    {
        match g {
            Gizmo::Left => self.left = q,
            Gizmo::Right => self.right = q,
        }
    }

    /// Whether both orientations are within the working range.
    pub fn is_well_formed(&self) -> (b: bool)
        ensures
            b == self.wf(),
    {
        crate::quat::is_bounded(&self.left) && crate::quat::is_bounded(&self.right)
    }
}

/// Whether a cursor at `cursor_x` lies in the left half of a window of width
/// `window_width`: strictly left of center. A cursor exactly at the center
/// counts as the right half, since the comparison is strict.
pub open spec fn is_left_half(cursor_x: int, window_width: int) -> bool {
    2 * cursor_x < window_width
}

/// One drag sample routed to the gizmo of the cursor's half: the left-half
/// flag drives `Left`, its negation drives `Right`; exactly one of the two
/// changes.
pub open spec fn apply_sample_spec(s: OrientationStore, is_left: bool, smp: DragSample)
    -> OrientationStore {
    if is_left {
        OrientationStore { left: apply_drag_spec(s.left, smp.dx, smp.dy), right: s.right }
    } else {
        OrientationStore { left: s.left, right: apply_drag_spec(s.right, smp.dx, smp.dy) }
    }
}

/// A frame's drag samples applied in arrival order, each composed onto the
/// driven gizmo's then-current orientation.
pub open spec fn store_after_samples(s: OrientationStore, is_left: bool, samples: Seq<DragSample>)
    -> OrientationStore
    decreases samples.len(),
{
    if samples.len() == 0 {
        s
    } else {
        store_after_samples(
            apply_sample_spec(s, is_left, samples[0]),
            is_left,
            samples.subrange(1, samples.len() as int),
        )
    }
}

/// Appending one sample to a frame is the same as applying it after the
/// frame: samples compose one at a time, in order.
pub proof fn lemma_store_after_samples_push(
    s: OrientationStore,
    is_left: bool,
    samples: Seq<DragSample>,
    smp: DragSample,
)
    ensures
        store_after_samples(s, is_left, samples.push(smp)) == apply_sample_spec(
            store_after_samples(s, is_left, samples),
            is_left,
            smp,
        ),
    decreases samples.len(),
{
    let pushed = samples.push(smp);
    if samples.len() == 0 {
        assert(pushed[0] == smp);
        assert(pushed.subrange(1, pushed.len() as int) =~= Seq::<DragSample>::empty());
        assert(store_after_samples(s, is_left, samples) == s);
        assert(store_after_samples(
            apply_sample_spec(s, is_left, smp),
            is_left,
            Seq::<DragSample>::empty(),
        ) == apply_sample_spec(s, is_left, smp));
    } else {
        assert(pushed[0] == samples[0]);
        assert(pushed.subrange(1, pushed.len() as int) =~= samples.subrange(
            1,
            samples.len() as int,
        ).push(smp));
        lemma_store_after_samples_push(
            apply_sample_spec(s, is_left, samples[0]),
            is_left,
            samples.subrange(1, samples.len() as int),
            smp,
        );
    }
}

/// A frame of drag samples leaves the gizmo of the other half untouched,
/// whichever half is driven.
pub proof fn lemma_frame_drives_one_gizmo(
    s: OrientationStore,
    is_left: bool,
    samples: Seq<DragSample>,
)
    ensures
        is_left ==> store_after_samples(s, is_left, samples).right == s.right,
        !is_left ==> store_after_samples(s, is_left, samples).left == s.left,
    decreases samples.len(),
{
    if samples.len() > 0 {
        lemma_frame_drives_one_gizmo(
            apply_sample_spec(s, is_left, samples[0]),
            is_left,
            samples.subrange(1, samples.len() as int),
        );
    }
}

/// Routing exclusivity: with the cursor strictly left of center only the
/// `Left` gizmo's orientation can change in a frame, and with the cursor at
/// or right of center only the `Right` gizmo's can — the comparison is
/// strict, so a cursor exactly at `window_width / 2` drives `Right`.
pub proof fn lemma_routing_exclusivity(
    s: OrientationStore,
    cursor_x: int,
    window_width: int,
    samples: Seq<DragSample>,
)
    ensures
        2 * cursor_x < window_width ==> store_after_samples(
            s,
            is_left_half(cursor_x, window_width),
            samples,
        ).right == s.right,
        2 * cursor_x >= window_width ==> store_after_samples(
            s,
            is_left_half(cursor_x, window_width),
            samples,
        ).left == s.left,
{
    lemma_frame_drives_one_gizmo(s, is_left_half(cursor_x, window_width), samples);
}

/// Composition, not summation: the net effect of a two-sample frame is the
/// second sample's increment composed onto the result of the first — never
/// one increment built from the summed deltas.
pub proof fn lemma_two_samples_compose(
    s: OrientationStore,
    is_left: bool,
    a: DragSample,
    b: DragSample,
)
    ensures
        store_after_samples(s, is_left, seq![a, b]) == apply_sample_spec(
            apply_sample_spec(s, is_left, a),
            is_left,
            b,
        ),
{
    let e = Seq::<DragSample>::empty();
    assert(seq![a, b] =~= e.push(a).push(b));
    lemma_store_after_samples_push(s, is_left, e.push(a), b);
    lemma_store_after_samples_push(s, is_left, e, a);
    assert(store_after_samples(s, is_left, e) == s);
}

/// The drag rotation updater for one frame.
///
/// With the drag button released nothing changes; with the button held but
/// the cursor position indeterminate the whole frame is skipped silently;
/// otherwise every sample is applied in arrival order to the gizmo of the
/// cursor's half of the window.
pub fn input_handling(
    store: &mut OrientationStore,
    drag_button_held: bool,
    cursor_x: Option<u32>,
    window_width: u32,
    samples: &Vec<DragSample>,
)
    requires
        old(store).wf(),
    ensures
        final(store).wf(),
        !drag_button_held ==> *final(store) == *old(store),
        drag_button_held && cursor_x is None ==> *final(store) == *old(store),
        drag_button_held && cursor_x is Some ==> *final(store) == store_after_samples(
            *old(store),
            is_left_half(cursor_x->Some_0 as int, window_width as int),
            samples@,
        ),
{
    if !drag_button_held {
        return ;
    }
    let x: u32 = match cursor_x {
        Some(x) => x,
        None => { return ; },
    };
    let is_left: bool = 2 * (x as u64) < (window_width as u64);
    let mut left: Quat = store.left;
    let mut right: Quat = store.right;
    let n: usize = samples.len();
    let mut i: usize = 0;
    while i < n
        invariant
            i <= n,
            n == samples@.len(),
            bounded(left),
            bounded(right),
            (OrientationStore { left, right }) == store_after_samples(
                *old(store),
                is_left,
                samples@.subrange(0, i as int),
            ),
        decreases n - i,
    {
        let smp: DragSample = samples[i];
        proof {
            assert(samples@.subrange(0, (i + 1) as int) =~= samples@.subrange(0, i as int).push(
                samples@[i as int],
            ));
            lemma_store_after_samples_push(
                *old(store),
                is_left,
                samples@.subrange(0, i as int),
                samples@[i as int],
            );
        }
        if is_left {
            left = apply_drag(&left, smp.dx, smp.dy);
        } else {
            right = apply_drag(&right, smp.dx, smp.dy);
        }
        i += 1;
    }
    proof {
        assert(samples@.subrange(0, n as int) =~= samples@);
    }
    store.left = left;
    store.right = right;
}

/// Whether the frame at `elapsed_us` microseconds since start, lasting
/// `dt_us` microseconds, straddles a whole-second boundary. True at most
/// once per second, on whichever frame happens to cross the boundary.
pub open spec fn second_boundary(elapsed_us: u64, dt_us: u64) -> bool {
    elapsed_us % 1_000_000 < dt_us
}

/// The whole store after one pass of drift correction.
pub open spec fn store_normalized(s: OrientationStore) -> OrientationStore {
    OrientationStore { left: normalize_spec(s.left), right: normalize_spec(s.right) }
}

/// Idempotence of the drift corrector: correcting a store twice in
/// succession is the same as correcting it once, whenever the first pass
/// lands both norms exactly on the fixed-point grid. (Truncation can leave
/// a renormalized norm one grid step below one; on such values a second
/// pass still moves a component, and the hypothesis excludes them.)
pub proof fn lemma_drift_correction_idempotent(s: OrientationStore)
    requires
        s.wf(),
        isqrt_spec(norm2_spec(normalize_spec(s.left)) as nat) == SCALE,
        isqrt_spec(norm2_spec(normalize_spec(s.right)) as nat) == SCALE,
    ensures
        store_normalized(store_normalized(s)) == store_normalized(s),
{
    lemma_normalize_idempotent(s.left);
    lemma_normalize_idempotent(s.right);
}

/// The drift corrector: on the frame that straddles a whole-second
/// boundary, every stored orientation is replaced by its nearest unit-norm
/// equivalent; on every other frame nothing changes.
pub fn normalize_gizmo_rot(store: &mut OrientationStore, elapsed_us: u64, dt_us: u64)
    requires
        old(store).wf(),
    ensures
        final(store).wf(),
        second_boundary(elapsed_us, dt_us) ==> *final(store) == store_normalized(*old(store)),
        !second_boundary(elapsed_us, dt_us) ==> *final(store) == *old(store),
{
    if elapsed_us % 1_000_000 < dt_us {
        store.left = normalize(&store.left);
        store.right = normalize(&store.right);
    }
}

} // verus!
