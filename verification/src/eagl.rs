//! `EAGLContext`: which context is current, which layer a renderbuffer belongs to,
//! and how a finished frame gets to the screen without a trace in the guest's
//! graphics state.
use crate::objc;
use crate::objc::{release, release_each, retain, Environment, Id, NIL};
use vstd::prelude::*;

verus! {

pub const kEAGLRenderingAPIOpenGLES1: u32 = 1;

/// Whether a context can be made for a version of the interface.
pub fn supports_api(api: u32) -> (yes: bool)
    ensures
        yes == (api == kEAGLRenderingAPIOpenGLES1),
{
    api == kEAGLRenderingAPIOpenGLES1
}

/// The current context of a thread.
pub struct CurrentContext {
    pub context: Option<Id>,
}

/// Makes a context the current one: it gets a reference, and the one before loses
/// its own.
pub fn set_current_context(env: &mut Environment, current: &mut CurrentContext, context: Id) -> (ok:
    bool)
    requires
        old(env).wf(),
        objc::can_retain(old(env).objc.objects@, context),
    ensures
        final(env).wf(),
        ok,
        final(current).context == if context == NIL {
            None
        } else {
            Some(context)
        },
        match old(current).context {
            Some(old_context) => exists|mid: Environment|
                {
                    &&& #[trigger] context_retained(*old(env), mid, context)
                    &&& objc::after_releases(mid, *final(env), seq![old_context])
                },
            None => context_retained(*old(env), *final(env), context),
        },
{
    retain(env, context);
    assert(context_retained(*old(env), *env, context));
    if let Some(old_context) = current.context {
        release(env, old_context);
    }
    current.context = if context == NIL {
        None
    } else {
        Some(context)
    };
    true
}

pub open spec fn context_retained(before: Environment, after: Environment, context: Id) -> bool {
    &&& after.objc.objects@ == objc::retained(before.objc.objects@, context)
    &&& after.mem == before.mem
    &&& after.autorelease_pool == before.autorelease_pool
}

/// The layers that renderbuffers belong to. No renderbuffer occurs twice.
pub struct Bindings {
    pub pairs: Vec<(u32, Id)>,
}

impl Bindings {
    pub open spec fn wf(&self) -> bool {
        forall|i: int, j: int|
            0 <= i < j < self.pairs@.len() ==> (#[trigger] self.pairs@[i]).0 != (
            #[trigger] self.pairs@[j]).0
    }

    /// The layer of a renderbuffer.
    pub open spec fn layer_of(&self, renderbuffer: u32) -> Option<Id> {
        if exists|i: int| self.bound_at(renderbuffer, i) {
            Some(self.pairs@[choose|i: int| self.bound_at(renderbuffer, i)].1)
        } else {
            None
        }
    }

    pub open spec fn bound_at(&self, renderbuffer: u32, i: int) -> bool {
        0 <= i < self.pairs@.len() && self.pairs@[i].0 == renderbuffer
    }

    pub fn new() -> (bindings: Bindings)
        ensures
            bindings.wf(),
            forall|r: u32| #[trigger] bindings.layer_of(r) is None,
    {
        Bindings { pairs: Vec::new() }
    }

    /// The layer of a renderbuffer.
    pub fn get(&self, renderbuffer: u32) -> (layer: Option<Id>)
        requires
            self.wf(),
        ensures
            layer == self.layer_of(renderbuffer),
    {
        let mut i: usize = 0;
        while i < self.pairs.len()
            invariant
                i <= self.pairs@.len(),
                self.wf(),
                forall|j: int| 0 <= j < i ==> (#[trigger] self.pairs@[j]).0 != renderbuffer,
            decreases self.pairs@.len() - i,
        {
            if self.pairs[i].0 == renderbuffer {
                proof {
                    assert(self.bound_at(renderbuffer, i as int));
                    let k = choose|k: int| self.bound_at(renderbuffer, k);
                    assert(k == i) by {
                        if k < i {
                            assert(self.pairs@[k].0 != self.pairs@[i as int].0);
                        }
                        if i < k {
                            assert(self.pairs@[i as int].0 != self.pairs@[k].0);
                        }
                    }
                }
                return Some(self.pairs[i].1);
            }
            i = i + 1;
        }
        None
    }

    /// Binds a renderbuffer to a layer; the layer that it was bound to before.
    pub fn insert(&mut self, renderbuffer: u32, layer: Id) -> (previous: Option<Id>)
        requires
            old(self).wf(),
        ensures
            final(self).wf(),
            previous == old(self).layer_of(renderbuffer),
            final(self).layer_of(renderbuffer) == Some(layer),
            forall|r: u32|
                r != renderbuffer ==> #[trigger] final(self).layer_of(r) == old(self).layer_of(r),
    {
        let mut i: usize = 0;
        while i < self.pairs.len()
            invariant
                i <= self.pairs@.len(),
                *self == *old(self),
                self.wf(),
                forall|j: int| 0 <= j < i ==> (#[trigger] self.pairs@[j]).0 != renderbuffer,
            decreases self.pairs@.len() - i,
        {
            if self.pairs[i].0 == renderbuffer {
                let previous: Id = self.pairs[i].1;
                self.pairs.set(i, (renderbuffer, layer));
                proof {
                    lemma_inserted(*old(self), *self, renderbuffer, layer, i as int);
                }
                return Some(previous);
            }
            i = i + 1;
        }
        self.pairs.push((renderbuffer, layer));
        proof {
            lemma_inserted(*old(self), *self, renderbuffer, layer, i as int);
        }
        None
    }
}

proof fn lemma_layer(bindings: Bindings, renderbuffer: u32, i: int)
    requires
        bindings.wf(),
        bindings.bound_at(renderbuffer, i),
    ensures
        bindings.layer_of(renderbuffer) == Some(bindings.pairs@[i].1),
{
    let k = choose|k: int| bindings.bound_at(renderbuffer, k);
    if k < i {
        assert(bindings.pairs@[k].0 != bindings.pairs@[i].0);
    }
    if i < k {
        assert(bindings.pairs@[i].0 != bindings.pairs@[k].0);
    }
}

proof fn lemma_inserted(before: Bindings, after: Bindings, renderbuffer: u32, layer: Id, i: int)
    requires
        before.wf(),
        0 <= i <= before.pairs@.len(),
        forall|j: int| 0 <= j < i ==> (#[trigger] before.pairs@[j]).0 != renderbuffer,
        i < before.pairs@.len() ==> before.pairs@[i].0 == renderbuffer && after.pairs@
            == before.pairs@.update(i, (renderbuffer, layer)),
        i == before.pairs@.len() ==> after.pairs@ == before.pairs@.push((renderbuffer, layer)),
    ensures
        after.wf(),
        after.layer_of(renderbuffer) == Some(layer),
        before.layer_of(renderbuffer) == if i < before.pairs@.len() {
            Some(before.pairs@[i].1)
        } else {
            None
        },
        forall|r: u32| r != renderbuffer ==> #[trigger] after.layer_of(r) == before.layer_of(r),
{
    assert forall|a: int, b: int| 0 <= a < b < after.pairs@.len() implies (
    #[trigger] after.pairs@[a]).0 != (#[trigger] after.pairs@[b]).0 by {
        if b < before.pairs@.len() {
            assert(before.pairs@[a].0 != before.pairs@[b].0);
        } else {
            assert(before.pairs@[a].0 != renderbuffer);
        }
    }
    assert(after.bound_at(renderbuffer, i));
    lemma_layer(after, renderbuffer, i);
    if i < before.pairs@.len() {
        assert(before.bound_at(renderbuffer, i));
        lemma_layer(before, renderbuffer, i);
    } else {
        assert forall|k: int| !before.bound_at(renderbuffer, k) by {
            if before.bound_at(renderbuffer, k) {
                assert(before.pairs@[k].0 != renderbuffer);
            }
        }
    }
    assert forall|r: u32| r != renderbuffer implies #[trigger] after.layer_of(r)
        == before.layer_of(r) by {
        if exists|k: int| before.bound_at(r, k) {
            let k = choose|k: int| before.bound_at(r, k);
            lemma_layer(before, r, k);
            assert(after.bound_at(r, k));
            lemma_layer(after, r, k);
        } else {
            assert forall|k: int| !after.bound_at(r, k) by {
                if after.bound_at(r, k) {
                    assert(before.bound_at(r, k));
                }
            }
        }
    }
}

/// Binds a renderbuffer to a layer, which is kept alive; the layer that it was
/// bound to before loses its reference.
pub fn renderbuffer_storage(
    env: &mut Environment,
    bindings: &mut Bindings,
    renderbuffer: u32,
    drawable: Id,
) -> (ok: bool)
    requires
        old(env).wf(),
        old(bindings).wf(),
        drawable != NIL,
        objc::can_retain(old(env).objc.objects@, drawable),
    ensures
        final(env).wf(),
        final(bindings).wf(),
        ok,
        final(bindings).layer_of(renderbuffer) == Some(drawable),
        forall|r: u32|
            r != renderbuffer ==> #[trigger] final(bindings).layer_of(r) == old(
                bindings,
            ).layer_of(r),
        match old(bindings).layer_of(renderbuffer) {
            Some(old_drawable) => exists|mid: Environment|
                {
                    &&& #[trigger] context_retained(*old(env), mid, drawable)
                    &&& objc::after_releases(mid, *final(env), seq![old_drawable])
                },
            None => context_retained(*old(env), *final(env), drawable),
        },
{
    retain(env, drawable);
    assert(context_retained(*old(env), *env, drawable));
    if let Some(old_drawable) = bindings.insert(renderbuffer, drawable) {
        release(env, old_drawable);
    }
    true
}

/// The size of a renderbuffer for a layer of whole pixels.
pub fn renderbuffer_size(width: u32, height: u32, scale: u32) -> (size: (u32, u32))
    requires
        width * scale <= u32::MAX,
        height * scale <= u32::MAX,
    ensures
        size.0 == width * scale,
        size.1 == height * scale,
{
    (width * scale, height * scale)
}

/// What is done when the guest presents a renderbuffer.
#[derive(Clone, Copy, Debug, PartialEq, Eq, Structural)]
pub enum PresentPlan {
    /// Nothing is drawn while the window is in the background.
    Backgrounded,
    /// The renderbuffer belongs to no layer.
    NotBound,
    /// The layer fills the screen: the renderbuffer is drawn directly.
    Direct,
    /// Another layer fills the screen: nothing is drawn.
    Hidden,
    /// No layer fills the screen: the pixels are copied to the layer.
    Copy(Id),
}

/// What is done when the guest presents a renderbuffer.
pub fn present_plan(
    backgrounded: bool,
    bindings: &Bindings,
    renderbuffer: u32,
    fullscreen_layer: Id,
) -> (plan: PresentPlan)
    requires
        bindings.wf(),
    ensures
        plan == if backgrounded {
            PresentPlan::Backgrounded
        } else {
            match bindings.layer_of(renderbuffer) {
                None => PresentPlan::NotBound,
                Some(drawable) => if drawable == fullscreen_layer {
                    PresentPlan::Direct
                } else if fullscreen_layer != NIL {
                    PresentPlan::Hidden
                } else {
                    PresentPlan::Copy(drawable)
                },
            }
        },
{
    if backgrounded {
        return PresentPlan::Backgrounded;
    }
    match bindings.get(renderbuffer) {
        None => PresentPlan::NotBound,
        Some(drawable) => {
            if drawable == fullscreen_layer {
                PresentPlan::Direct
            } else if fullscreen_layer != NIL {
                PresentPlan::Hidden
            } else {
                PresentPlan::Copy(drawable)
            }
        },
    }
}

/// What the guest is told about a presented renderbuffer: only one without a layer
/// is a failure.
pub fn present_result(plan: PresentPlan) -> (ok: bool)
    ensures
        ok == (plan != PresentPlan::NotBound),
{
    plan != PresentPlan::NotBound
}

/// When the next frame is due, and how long to wait for the current one. All times
/// are nanoseconds. `interval` is the time between frames, if that is limited. A frame
/// that comes more than an interval late makes the next one wait for the next
/// interval, which begins `skipped` behind the time that the frame was due.
pub open spec fn paced(due: Option<u64>, now: u64, interval: Option<u64>, skipped: u64) -> (
    Option<int>,
    Option<int>,
) {
    match interval {
        None => (
            match due {
                Some(d) => Some(d as int),
                None => None,
            },
            None,
        ),
        Some(step) => match due {
            None => (Some(now + step), None),
            Some(d) => (
                Some(
                    if now > d + step {
                        d + skipped
                    } else {
                        d + step
                    },
                ),
                if now < d {
                    Some(d - now)
                } else {
                    None
                },
            ),
        },
    }
}

/// Keeps frames from coming too fast: sets when the next one is due, and tells how
/// long to wait now. `skipped` is the time of the intervals that have begun since the
/// frame was due; it counts only for a frame that is more than one interval late.
pub fn limit_framerate(
    next_frame_due: &mut Option<u64>,
    now: u64,
    interval: Option<u64>,
    skipped: u64,
) -> (sleep_for: Option<u64>)
    requires
        paced(*old(next_frame_due), now, interval, skipped).0 matches Some(d) ==> d <= u64::MAX,
        interval matches Some(step) ==> (*old(next_frame_due) matches Some(d) ==> d + step
            <= u64::MAX),
    ensures
        ({
            let (due, wait) = paced(*old(next_frame_due), now, interval, skipped);
            &&& match *final(next_frame_due) {
                Some(d) => due == Some(d as int),
                None => due is None,
            }
            &&& match sleep_for {
                Some(w) => wait == Some(w as int),
                None => wait is None,
            }
        }),
{
    let step: u64 = match interval {
        Some(step) => step,
        None => {
            return None;
        },
    };
    let due: u64 = match *next_frame_due {
        Some(due) => due,
        None => {
            *next_frame_due = Some(now + step);
            return None;
        },
    };
    *next_frame_due = if now > due + step {
        Some(due + skipped)
    } else {
        Some(due + step)
    };
    if now < due {
        Some(due - now)
    } else {
        None
    }
}

/// A frame that is not early makes the next one due no earlier than now and within one
/// interval, if the time skipped is that of whole intervals, the last of which has begun
/// and not ended.
pub proof fn law_next_frame_is_within_an_interval(due: u64, now: u64, step: u64, skipped: u64)
    requires
        due <= now,
        now > due + step ==> now - due <= skipped < now - due + step,
    ensures
        paced(Some(due), now, Some(step), skipped).1 is None,
        paced(Some(due), now, Some(step), skipped).0 matches Some(d) && now <= d <= now + step,
{
}

/// The layers that renderbuffers are bound to.
pub open spec fn bound_layers(pairs: Seq<(u32, Id)>) -> Seq<Id> {
    Seq::new(pairs.len(), |i: int| pairs[i].1)
}

/// Guest buffers have been freed, and nothing else has changed.
pub open spec fn buffers_freed(before: Environment, after: Environment, buffers: Seq<u32>) -> bool {
    &&& after.objc == before.objc
    &&& after.mem.bytes@ == before.mem.bytes@
    &&& after.mem.null_segment_size == before.mem.null_segment_size
    &&& after.mem.allocations@ == objc::left_after(before.mem.allocations@, buffers)
    &&& after.autorelease_pool == before.autorelease_pool
}

/// Lets a context go: its mapped buffers are freed, and the layers of its
/// renderbuffers lose their references, unless another context of its share group
/// still has them.
pub fn dealloc(
    env: &mut Environment,
    bindings: &mut Bindings,
    is_shared: bool,
    mapped_buffers: &Vec<u32>,
)
    requires
        old(env).wf(),
        old(bindings).wf(),
    ensures
        final(env).wf(),
        final(bindings).wf(),
        exists|mid: Environment|
            {
                &&& #[trigger] buffers_freed(*old(env), mid, mapped_buffers@)
                &&& is_shared ==> *final(env) == mid && *final(bindings) == *old(bindings)
                &&& !is_shared ==> objc::after_releases(
                    mid,
                    *final(env),
                    bound_layers(old(bindings).pairs@),
                ) && final(bindings).pairs@ == Seq::<(u32, Id)>::empty()
            },
{
    let mut i: usize = 0;
    while i < mapped_buffers.len()
        invariant
            i <= mapped_buffers@.len(),
            env.wf(),
            buffers_freed(*old(env), *env, mapped_buffers@.take(i as int)),
        decreases mapped_buffers@.len() - i,
    {
        assert(mapped_buffers@.take(i + 1).drop_last() =~= mapped_buffers@.take(i as int));
        assert(mapped_buffers@.take(i + 1).last() == mapped_buffers@[i as int]);
        env.mem.free(mapped_buffers[i]);
        i = i + 1;
    }
    assert(mapped_buffers@.take(i as int) =~= mapped_buffers@);
    let ghost mid = *env;
    assert(buffers_freed(*old(env), mid, mapped_buffers@));
    if is_shared {
        return;
    }
    let mut layers: Vec<Id> = Vec::new();
    let mut k: usize = 0;
    while k < bindings.pairs.len()
        invariant
            k <= bindings.pairs@.len(),
            layers@ == bound_layers(bindings.pairs@).take(k as int),
        decreases bindings.pairs@.len() - k,
    {
        layers.push(bindings.pairs[k].1);
        k = k + 1;
        assert(layers@ =~= bound_layers(bindings.pairs@).take(k as int));
    }
    assert(layers@ =~= bound_layers(bindings.pairs@));
    bindings.pairs = Vec::new();
    assert(bindings.pairs@ =~= Seq::<(u32, Id)>::empty());
    release_each(env, layers);
}

/// The number of bytes of a picture with four bytes for each pixel; nothing if it is
/// too large.
pub fn pixel_bytes(width: u32, height: u32) -> (size: Option<usize>)
    ensures
        match size {
            Some(n) => n == width * height * 4,
            None => width * height * 4 > usize::MAX,
        },
{
    let area: u64 = {
        proof {
            assert(width * height <= u32::MAX * u32::MAX) by (nonlinear_arith)
                requires
                    0 <= width <= u32::MAX,
                    0 <= height <= u32::MAX,
            ;
        }
        width as u64 * height as u64
    };
    if area > (usize::MAX / 4) as u64 {
        None
    } else {
        Some(area as usize * 4)
    }
}

/// The texture that frames are copied to before they are drawn, with its size.
#[derive(Clone, Copy, Debug, PartialEq, Eq, Structural)]
pub struct PresentTexture {
    pub texture: u32,
    pub width: i32,
    pub height: i32,
}

/// Whether the texture can be used for a frame of a size.
pub fn is_reusable(cache: PresentTexture, width: i32, height: i32, is_texture: bool) -> (yes: bool)
    ensures
        yes == (cache.texture != 0 && cache.width == width && cache.height == height && is_texture),
{
    cache.texture != 0 && cache.width == width && cache.height == height && is_texture
}

/// The layer of a renderbuffer is the one that it has been bound to.
pub proof fn law_layer_of(bindings: Bindings, renderbuffer: u32, i: int)
    requires
        bindings.wf(),
    ensures
        0 <= i < bindings.pairs@.len() && bindings.pairs@[i].0 == renderbuffer
            ==> bindings.layer_of(renderbuffer) == Some(bindings.pairs@[i].1),
        (forall|k: int| 0 <= k < bindings.pairs@.len() ==> (#[trigger] bindings.pairs@[k]).0
            != renderbuffer) ==> bindings.layer_of(renderbuffer) is None,
{
    if bindings.bound_at(renderbuffer, i) {
        let k = choose|k: int| bindings.bound_at(renderbuffer, k);
        assert(k == i);
    }
}

/// The first frame is shown at once, and the next an interval later. A frame that comes
/// early waits until it is due, and one that comes late does not, but the frames that were
/// missed are not made up for. Without an interval nothing waits.
pub proof fn law_paced(due: u64, now: u64, step: u64, skipped: u64)
    ensures
        paced(None, now, Some(step), skipped) == (Some(now as int + step), None::<int>),
        now < due ==> paced(Some(due), now, Some(step), skipped).1 == Some(due - now),
        now >= due ==> paced(Some(due), now, Some(step), skipped).1 is None,
        now <= due + step ==> paced(Some(due), now, Some(step), skipped).0 == Some(
            due as int + step,
        ),
        now > due + step ==> paced(Some(due), now, Some(step), skipped).0 == Some(
            due as int + skipped,
        ),
        paced(Some(due), now, None, skipped) == (Some(due as int), None::<int>),
        paced(None, now, None, skipped) == (None::<int>, None::<int>),
{
}

} // verus!
