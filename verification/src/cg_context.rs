//! Graphics contexts: their drawing state, the stack of saved states, and the
//! current path. Components, lengths and coordinates are single-precision numbers,
//! given by their bits.
use crate::cg_bitmap_context::CGBitmapContextData;
use crate::mem;
use crate::mem::Mem;
use crate::objc;
use crate::objc::{Environment, HostObject, Id, ObjC, Object, NIL};
use crate::singles;
use vstd::prelude::*;

verus! {

#[derive(Clone, Copy, Debug, PartialEq, Eq, Structural)]
pub struct Color {
    pub r: u32,
    pub g: u32,
    pub b: u32,
    pub a: u32,
}

#[derive(Clone, Copy, Debug, PartialEq, Eq, Structural)]
pub struct Transform {
    pub a: u32,
    pub b: u32,
    pub c: u32,
    pub d: u32,
    pub tx: u32,
    pub ty: u32,
}

#[derive(Clone, Copy, Debug, PartialEq, Eq, Structural)]
pub struct Point {
    pub x: u32,
    pub y: u32,
}

/// What is saved of the drawing state for filling and text.
#[derive(Clone, Copy, Debug, PartialEq, Eq, Structural)]
pub struct ContextState {
    pub rgb_fill_color: Color,
    pub transform: Transform,
    pub font: Id,
    pub font_size: u32,
}

#[derive(Clone, Copy, Debug, PartialEq, Eq, Structural)]
pub struct StrokeState {
    pub rgb_stroke_color: Color,
    pub line_width: u32,
}

/// A part of a path. Its points have been transformed.
pub struct SubPath {
    pub points: Vec<Point>,
    pub closed: bool,
}

pub struct CGContextHostObject {
    pub bitmap: CGBitmapContextData,
    pub rgb_fill_color: Color,
    pub font: Id,
    pub font_size: u32,
    pub transform: Transform,
    pub state_stack: Vec<ContextState>,
    pub subpaths: Vec<SubPath>,
    pub stroke: StrokeState,
    pub stroke_stack: Vec<StrokeState>,
}

/// The identity.
pub open spec fn identity() -> Transform {
    Transform { a: singles::ONE, b: 0, c: 0, d: singles::ONE, tx: 0, ty: 0 }
}

/// A stroke is black and has the width 1 at first.
pub open spec fn default_stroke() -> StrokeState {
    StrokeState {
        rgb_stroke_color: Color { r: 0, g: 0, b: 0, a: singles::ONE },
        line_width: singles::ONE,
    }
}

pub const DEFAULT_FONT_SIZE: u32 = 0x4188_0000;

/// A context as it is made: nothing is saved, and there is no path.
pub open spec fn is_fresh(context: CGContextHostObject, bitmap: CGBitmapContextData) -> bool {
    &&& context.bitmap == bitmap
    &&& context.rgb_fill_color == Color { r: 0, g: 0, b: 0, a: 0 }
    &&& context.font == NIL
    &&& context.font_size == DEFAULT_FONT_SIZE
    &&& context.transform == identity()
    &&& context.state_stack@.len() == 0
    &&& context.subpaths@.len() == 0
    &&& context.stroke == default_stroke()
    &&& context.stroke_stack@.len() == 0
}

/// A new context for a bitmap.
pub fn new_context(bitmap: CGBitmapContextData) -> (context: CGContextHostObject)
    ensures
        is_fresh(context, bitmap),
{
    CGContextHostObject {
        bitmap,
        rgb_fill_color: Color { r: 0, g: 0, b: 0, a: 0 },
        font: NIL,
        font_size: DEFAULT_FONT_SIZE,
        transform: Transform { a: singles::ONE, b: 0, c: 0, d: singles::ONE, tx: 0, ty: 0 },
        state_stack: Vec::new(),
        subpaths: Vec::new(),
        stroke: StrokeState {
            rgb_stroke_color: Color { r: 0, g: 0, b: 0, a: singles::ONE },
            line_width: singles::ONE,
        },
        stroke_stack: Vec::new(),
    }
}

pub open spec fn is_context(objects: Seq<Object>, id: Id) -> bool {
    0 < id < objects.len() && objects[id as int].host is Context
}

pub open spec fn context_at(objects: Seq<Object>, id: Id) -> CGContextHostObject {
    objects[id as int].host->Context_0
}

/// The objects with another context in the place of the one that was there.
pub open spec fn with_context(
    objects: Seq<Object>,
    id: Id,
    context: CGContextHostObject,
) -> Seq<Object> {
    objects.update(
        id as int,
        Object {
            retain_count: objects[id as int].retain_count,
            host: HostObject::Context(context),
        },
    )
}

/// Nothing but a context has changed.
pub open spec fn context_changed(
    before: Environment,
    after: Environment,
    id: Id,
    context: CGContextHostObject,
) -> bool {
    &&& after.objc.objects@ == with_context(before.objc.objects@, id, context)
    &&& after.mem == before.mem
    &&& after.autorelease_pool == before.autorelease_pool
}

/// The context behind a reference.
pub(crate) fn borrow_context(objc: &ObjC, id: Id) -> (context: &CGContextHostObject)
    requires
        is_context(objc.objects@, id),
    ensures
        *context == context_at(objc.objects@, id),
{
    match &objc.objects[id as usize].host {
        HostObject::Context(context) => context,
        _ => vstd::pervasive::unreached(),
    }
}

/// The context behind a reference, to change it.
fn borrow_context_mut(env: &mut Environment, id: Id) -> (context: &mut CGContextHostObject)
    requires
        old(env).wf(),
        is_context(old(env).objc.objects@, id),
    ensures
        *context == context_at(old(env).objc.objects@, id),
        final(env).wf(),
        context_changed(*old(env), *final(env), id, *final(context)),
{
    match &mut env.objc.objects[id as usize].host {
        HostObject::Context(context) => context,
        _ => vstd::pervasive::unreached(),
    }
}

pub fn CGContextSetRGBFillColor(
    env: &mut Environment,
    context: Id,
    red: u32,
    green: u32,
    blue: u32,
    alpha: u32,
)
    requires
        old(env).wf(),
        is_context(old(env).objc.objects@, context),
    ensures
        final(env).wf(),
        context_changed(
            *old(env),
            *final(env),
            context,
            (CGContextHostObject {
                rgb_fill_color: Color { r: red, g: green, b: blue, a: alpha },
                ..context_at(old(env).objc.objects@, context)
            }),
        ),
{
    let host_obj = borrow_context_mut(env, context);
    host_obj.rgb_fill_color = Color { r: red, g: green, b: blue, a: alpha };
}

/// Adds a reference to a context. Nothing happens to `nil`.
pub fn CGContextRetain(env: &mut Environment, c: Id) -> (same: Id)
    requires
        old(env).wf(),
        objc::can_retain(old(env).objc.objects@, c),
    ensures
        final(env).wf(),
        same == c,
        final(env).objc.objects@ == objc::retained(old(env).objc.objects@, c),
        final(env).mem == old(env).mem,
        final(env).autorelease_pool == old(env).autorelease_pool,
{
    if c != NIL {
        objc::retain(env, c)
    } else {
        c
    }
}

/// Takes a reference away from a context: without any, its font is released and
/// the buffer that it owns is freed. Nothing happens to `nil`.
pub fn CGContextRelease(env: &mut Environment, c: Id)
    requires
        old(env).wf(),
    ensures
        final(env).wf(),
        objc::after_releases(*old(env), *final(env), seq![c]),
{
    if c != NIL {
        objc::release(env, c);
    } else {
        proof {
            reveal_with_fuel(objc::released, 2);
            assert(seq![c].drop_last() =~= Seq::<Id>::empty());
        }
    }
}

pub fn CGContextSetGrayFillColor(env: &mut Environment, context: Id, gray: u32, alpha: u32)
    requires
        old(env).wf(),
        is_context(old(env).objc.objects@, context),
    ensures
        final(env).wf(),
        context_changed(
            *old(env),
            *final(env),
            context,
            (CGContextHostObject {
                rgb_fill_color: Color { r: gray, g: gray, b: gray, a: alpha },
                ..context_at(old(env).objc.objects@, context)
            }),
        ),
{
    CGContextSetRGBFillColor(env, context, gray, gray, gray, alpha);
}

fn set_transform(env: &mut Environment, context: Id, transform: Transform)
    requires
        old(env).wf(),
        is_context(old(env).objc.objects@, context),
    ensures
        final(env).wf(),
        context_changed(
            *old(env),
            *final(env),
            context,
            (CGContextHostObject { transform, ..context_at(old(env).objc.objects@, context) }),
        ),
{
    let host_obj = borrow_context_mut(env, context);
    host_obj.transform = transform;
}

/// Puts a transform in front of the current one. `product` is the product of both.
pub fn CGContextConcatCTM(env: &mut Environment, context: Id, product: Transform)
    requires
        old(env).wf(),
        is_context(old(env).objc.objects@, context),
    ensures
        final(env).wf(),
        context_changed(
            *old(env),
            *final(env),
            context,
            (CGContextHostObject {
                transform: product,
                ..context_at(old(env).objc.objects@, context)
            }),
        ),
{
    set_transform(env, context, product);
}

/// Rotates what is drawn. `rotated` is the rotated current transform.
pub fn CGContextRotateCTM(env: &mut Environment, context: Id, rotated: Transform)
    requires
        old(env).wf(),
        is_context(old(env).objc.objects@, context),
    ensures
        final(env).wf(),
        context_changed(
            *old(env),
            *final(env),
            context,
            (CGContextHostObject {
                transform: rotated,
                ..context_at(old(env).objc.objects@, context)
            }),
        ),
{
    set_transform(env, context, rotated);
}

/// Scales what is drawn. `scaled` is the scaled current transform.
pub fn CGContextScaleCTM(env: &mut Environment, context: Id, scaled: Transform)
    requires
        old(env).wf(),
        is_context(old(env).objc.objects@, context),
    ensures
        final(env).wf(),
        context_changed(
            *old(env),
            *final(env),
            context,
            (CGContextHostObject {
                transform: scaled,
                ..context_at(old(env).objc.objects@, context)
            }),
        ),
{
    set_transform(env, context, scaled);
}

/// Moves what is drawn. `moved` is the moved current transform.
pub fn CGContextTranslateCTM(env: &mut Environment, context: Id, moved: Transform)
    requires
        old(env).wf(),
        is_context(old(env).objc.objects@, context),
    ensures
        final(env).wf(),
        context_changed(
            *old(env),
            *final(env),
            context,
            (CGContextHostObject {
                transform: moved,
                ..context_at(old(env).objc.objects@, context)
            }),
        ),
{
    set_transform(env, context, moved);
}

/// The current transform.
pub fn CGContextGetCTM(env: &Environment, context: Id) -> (transform: Transform)
    requires
        is_context(env.objc.objects@, context),
    ensures
        transform == context_at(env.objc.objects@, context).transform,
{
    borrow_context(&env.objc, context).transform
}

pub fn CGContextSetFontSize(env: &mut Environment, context: Id, size: u32)
    requires
        old(env).wf(),
        is_context(old(env).objc.objects@, context),
    ensures
        final(env).wf(),
        context_changed(
            *old(env),
            *final(env),
            context,
            (CGContextHostObject {
                font_size: size,
                ..context_at(old(env).objc.objects@, context)
            }),
        ),
{
    let host_obj = borrow_context_mut(env, context);
    host_obj.font_size = size;
}

/// The objects that are left after one reference has gone.
pub open spec fn without_reference(objects: Seq<Object>, id: Id) -> Seq<Object> {
    objc::released(objects, seq![id], Seq::empty()).0
}

/// The context has been changed after references have gone.
pub open spec fn released_and_changed(
    before: Environment,
    objects: Seq<Object>,
    after: Environment,
    released: Id,
    id: Id,
    context: CGContextHostObject,
) -> bool {
    &&& after.objc.objects@ == with_context(without_reference(objects, released), id, context)
    &&& after.mem.bytes@ == before.mem.bytes@
    &&& after.mem.null_segment_size == before.mem.null_segment_size
    &&& after.mem.allocations@ == objc::left_after(
        before.mem.allocations@,
        objc::released(objects, seq![released], Seq::empty()).1,
    )
    &&& after.autorelease_pool == before.autorelease_pool
}

/// Takes another font. The new one is retained before the old one is released.
pub fn CGContextSetFont(env: &mut Environment, context: Id, font: Id)
    requires
        old(env).wf(),
        is_context(old(env).objc.objects@, context),
        objc::can_retain(old(env).objc.objects@, font),
        is_context(
            without_reference(
                objc::retained(old(env).objc.objects@, font),
                context_at(old(env).objc.objects@, context).font,
            ),
            context,
        ),
    ensures
        final(env).wf(),
        ({
            let objects = objc::retained(old(env).objc.objects@, font);
            let old_font = context_at(old(env).objc.objects@, context).font;
            released_and_changed(
                *old(env),
                objects,
                *final(env),
                old_font,
                context,
                (CGContextHostObject { font, ..context_at(old(env).objc.objects@, context) }),
            )
        }),
{
    proof {
        objc::lemma_retained_keeps(env.objc.objects@, font);
    }
    let old_font: Id = borrow_context(&env.objc, context).font;
    objc::retain(env, font);
    proof {
        objc::lemma_released_keeps(env.objc.objects@, seq![old_font], Seq::empty());
    }
    objc::release(env, old_font);
    let host_obj = borrow_context_mut(env, context);
    host_obj.font = font;
}

/// What is saved of a context's drawing state.
pub open spec fn state_of(context: CGContextHostObject) -> ContextState {
    ContextState {
        rgb_fill_color: context.rgb_fill_color,
        transform: context.transform,
        font: context.font,
        font_size: context.font_size,
    }
}

/// The contexts have the same bitmap and path.
pub open spec fn same_target(a: CGContextHostObject, b: CGContextHostObject) -> bool {
    a.bitmap == b.bitmap && a.subpaths == b.subpaths
}

/// A context with its drawing state put on the stack.
pub open spec fn is_saved(context: CGContextHostObject, saved: CGContextHostObject) -> bool {
    &&& same_target(context, saved)
    &&& state_of(saved) == state_of(context)
    &&& saved.state_stack@ == context.state_stack@.push(state_of(context))
    &&& saved.stroke == context.stroke
    &&& saved.stroke_stack@ == context.stroke_stack@.push(context.stroke)
}

/// A context with the drawing state from the top of the stack.
pub open spec fn is_restored(context: CGContextHostObject, restored: CGContextHostObject) -> bool {
    &&& same_target(context, restored)
    &&& state_of(restored) == context.state_stack@.last()
    &&& restored.state_stack@ == context.state_stack@.drop_last()
    &&& if context.stroke_stack@.len() > 0 {
        &&& restored.stroke == context.stroke_stack@.last()
        &&& restored.stroke_stack@ == context.stroke_stack@.drop_last()
    } else {
        &&& restored.stroke == context.stroke
        &&& restored.stroke_stack@ == context.stroke_stack@
    }
}

/// Saves the drawing state. The saved font is retained.
pub fn CGContextSaveGState(env: &mut Environment, context: Id)
    requires
        old(env).wf(),
        is_context(old(env).objc.objects@, context),
        objc::can_retain(
            old(env).objc.objects@,
            context_at(old(env).objc.objects@, context).font,
        ),
    ensures
        final(env).wf(),
        ({
            let objects = objc::retained(
                old(env).objc.objects@,
                context_at(old(env).objc.objects@, context).font,
            );
            let saved = context_at(final(env).objc.objects@, context);
            &&& is_saved(context_at(old(env).objc.objects@, context), saved)
            &&& final(env).objc.objects@ == with_context(objects, context, saved)
        }),
        final(env).mem == old(env).mem,
        final(env).autorelease_pool == old(env).autorelease_pool,
{
    let font: Id = borrow_context(&env.objc, context).font;
    proof {
        objc::lemma_retained_keeps(env.objc.objects@, font);
    }
    objc::retain(env, font);
    let host_obj = borrow_context_mut(env, context);
    let state = ContextState {
        rgb_fill_color: host_obj.rgb_fill_color,
        transform: host_obj.transform,
        font: host_obj.font,
        font_size: host_obj.font_size,
    };
    host_obj.state_stack.push(state);
    let stroke: StrokeState = host_obj.stroke;
    host_obj.stroke_stack.push(stroke);
}

/// Takes the drawing state that was saved last. The font until now is released.
pub fn CGContextRestoreGState(env: &mut Environment, context: Id)
    requires
        old(env).wf(),
        is_context(old(env).objc.objects@, context),
        is_context(
            without_reference(
                old(env).objc.objects@,
                context_at(old(env).objc.objects@, context).font,
            ),
            context,
        ),
        context_at(old(env).objc.objects@, context).state_stack@.len() > 0,
    ensures
        final(env).wf(),
        ({
            let font = context_at(old(env).objc.objects@, context).font;
            let restored = context_at(final(env).objc.objects@, context);
            &&& is_restored(context_at(old(env).objc.objects@, context), restored)
            &&& released_and_changed(
                *old(env),
                old(env).objc.objects@,
                *final(env),
                font,
                context,
                restored,
            )
        }),
{
    let font: Id = borrow_context(&env.objc, context).font;
    proof {
        objc::lemma_released_keeps(env.objc.objects@, seq![font], Seq::empty());
    }
    objc::release(env, font);
    let host_obj = borrow_context_mut(env, context);
    if let Some(stroke) = host_obj.stroke_stack.pop() {
        host_obj.stroke = stroke;
    }
    if let Some(state) = host_obj.state_stack.pop() {
        host_obj.rgb_fill_color = state.rgb_fill_color;
        host_obj.transform = state.transform;
        host_obj.font = state.font;
        host_obj.font_size = state.font_size;
    }
}

/// Restoring gives back the drawing state that was saved, whatever has been set in
/// between, and leaves the stacks as they were before saving.
pub proof fn law_restore_undoes(
    context: CGContextHostObject,
    saved: CGContextHostObject,
    changed: CGContextHostObject,
    restored: CGContextHostObject,
)
    requires
        is_saved(context, saved),
        changed.state_stack@ == saved.state_stack@,
        changed.stroke_stack@ == saved.stroke_stack@,
        is_restored(changed, restored),
    ensures
        state_of(restored) == state_of(context),
        restored.stroke == context.stroke,
        restored.state_stack@ == context.state_stack@,
        restored.stroke_stack@ == context.stroke_stack@,
        same_target(changed, restored),
{
    assert(saved.state_stack@.drop_last() =~= context.state_stack@);
    assert(saved.stroke_stack@.drop_last() =~= context.stroke_stack@);
}

/// What one call makes of a context: it saves the drawing state, or restores it, or sets
/// whatever else there is and leaves the stacks alone.
pub open spec fn is_step(before: CGContextHostObject, after: CGContextHostObject) -> bool {
    ||| is_saved(before, after)
    ||| is_restored(before, after)
    ||| after.state_stack@ == before.state_stack@ && after.stroke_stack@ == before.stroke_stack@
}

/// Call after call, and what was on the stack in the beginning is never taken.
pub open spec fn is_nested(run: Seq<CGContextHostObject>) -> bool {
    &&& run.len() > 0
    &&& forall|i: int| 0 < i < run.len() ==> is_step(run[i - 1], #[trigger] run[i])
    &&& forall|i: int|
        0 <= i < run.len() ==> (#[trigger] run[i]).state_stack@.len() >= run[0].state_stack@.len()
}

proof fn lemma_nested_keeps(run: Seq<CGContextHostObject>, n: int)
    requires
        is_nested(run),
        0 <= n < run.len(),
        run[0].state_stack@.len() > 0,
        run[0].stroke_stack@.len() > 0,
    ensures
        ({
            let states = run[0].state_stack@;
            let strokes = run[0].stroke_stack@;
            &&& run[n].state_stack@.take(states.len() as int) == states
            &&& run[n].stroke_stack@.len() - strokes.len() == run[n].state_stack@.len()
                - states.len()
            &&& run[n].stroke_stack@.take(strokes.len() as int) == strokes
        }),
    decreases n,
{
    let states = run[0].state_stack@;
    let strokes = run[0].stroke_stack@;
    if n == 0 {
        assert(states.take(states.len() as int) =~= states);
        assert(strokes.take(strokes.len() as int) =~= strokes);
    } else {
        lemma_nested_keeps(run, n - 1);
        assert(is_step(run[n - 1], run[n]));
        assert(run[n].state_stack@.len() >= states.len());
        assert(run[n].state_stack@.take(states.len() as int) =~= run[n - 1].state_stack@.take(
            states.len() as int,
        ));
        assert(run[n].stroke_stack@.take(strokes.len() as int) =~= run[n - 1].stroke_stack@.take(
            strokes.len() as int,
        ));
    }
}

/// Restoring gives back the drawing state that was saved, whatever calls came in
/// between, if as many of them restored as saved and none of them took what was saved.
pub proof fn law_restore_undoes_all(
    context: CGContextHostObject,
    run: Seq<CGContextHostObject>,
    restored: CGContextHostObject,
)
    requires
        is_nested(run),
        is_saved(context, run[0]),
        run.last().state_stack@.len() == run[0].state_stack@.len(),
        is_restored(run.last(), restored),
    ensures
        state_of(restored) == state_of(context),
        restored.stroke == context.stroke,
        restored.state_stack@ == context.state_stack@,
        restored.stroke_stack@ == context.stroke_stack@,
        same_target(run.last(), restored),
{
    let n = run.len() - 1;
    lemma_nested_keeps(run, n);
    assert(run[n].state_stack@.take(run[0].state_stack@.len() as int) =~= run[n].state_stack@);
    assert(run[n].stroke_stack@.take(run[0].stroke_stack@.len() as int) =~= run[n].stroke_stack@);
    law_restore_undoes(context, run[0], run[n], restored);
}

/// A part of a path: its points, and whether it is closed.
pub ghost struct SubPathView {
    pub points: Seq<Point>,
    pub closed: bool,
}

pub open spec fn path_of(subpaths: Seq<SubPath>) -> Seq<SubPathView> {
    Seq::new(
        subpaths.len(),
        |i: int| SubPathView { points: subpaths[i].points@, closed: subpaths[i].closed },
    )
}

/// Where a path goes on: at the start of a closed part, or at the end of an open
/// one.
pub open spec fn current_point(path: Seq<SubPathView>) -> Option<Point> {
    if path.len() == 0 || path.last().points.len() == 0 {
        None
    } else if path.last().closed {
        Some(path.last().points.first())
    } else {
        Some(path.last().points.last())
    }
}

/// A path with another part begun. A part that has been begun and not gone on with
/// begins elsewhere instead.
pub open spec fn moved_to(path: Seq<SubPathView>, point: Point) -> Seq<SubPathView> {
    let begun = SubPathView { points: seq![point], closed: false };
    if path.len() > 0 && !path.last().closed && path.last().points.len() == 1 {
        path.update(path.len() - 1, begun)
    } else {
        path.push(begun)
    }
}

/// A path with a line to a point. After a closed part the line begins a new one at
/// its start.
pub open spec fn lined_to(path: Seq<SubPathView>, point: Point) -> Seq<SubPathView> {
    if path.len() == 0 {
        path
    } else if path.last().closed {
        let start = if path.last().points.len() > 0 {
            path.last().points.first()
        } else {
            point
        };
        path.push(SubPathView { points: seq![start, point], closed: false })
    } else {
        path.update(
            path.len() - 1,
            SubPathView { points: path.last().points.push(point), closed: false },
        )
    }
}

/// A path with lines to some points. The first point begins the path if it has no
/// current point.
pub open spec fn lined_to_all(path: Seq<SubPathView>, points: Seq<Point>) -> Seq<SubPathView>
    decreases points.len(),
{
    if points.len() == 0 {
        path
    } else {
        let before = lined_to_all(path, points.drop_last());
        if points.len() == 1 && current_point(path) is None {
            moved_to(before, points.last())
        } else {
            lined_to(before, points.last())
        }
    }
}

/// A path with its last part closed.
pub open spec fn path_closed(path: Seq<SubPathView>) -> Seq<SubPathView> {
    if path.len() > 0 && path.last().points.len() > 0 {
        path.update(path.len() - 1, SubPathView { points: path.last().points, closed: true })
    } else {
        path
    }
}

pub fn path_current_point(subpaths: &Vec<SubPath>) -> (point: Option<Point>)
    ensures
        point == current_point(path_of(subpaths@)),
{
    if subpaths.len() == 0 {
        return None;
    }
    let subpath = &subpaths[subpaths.len() - 1];
    if subpath.points.len() == 0 {
        None
    } else if subpath.closed {
        Some(subpath.points[0])
    } else {
        Some(subpath.points[subpath.points.len() - 1])
    }
}

fn begun_at(point: Point) -> (subpath: SubPath)
    ensures
        subpath.points@ == seq![point],
        !subpath.closed,
{
    let mut points: Vec<Point> = Vec::new();
    points.push(point);
    assert(points@ =~= seq![point]);
    SubPath { points, closed: false }
}

pub fn path_move_to(subpaths: &mut Vec<SubPath>, point: Point)
    ensures
        path_of(final(subpaths)@) == moved_to(path_of(old(subpaths)@), point),
{
    let n: usize = subpaths.len();
    if n > 0 && !subpaths[n - 1].closed && subpaths[n - 1].points.len() == 1 {
        subpaths.set(n - 1, begun_at(point));
    } else {
        subpaths.push(begun_at(point));
    }
    assert(path_of(subpaths@) =~= moved_to(path_of(old(subpaths)@), point));
}

/// Adds a line to a point, and says whether there was a point to begin it at.
pub fn path_line_to(subpaths: &mut Vec<SubPath>, point: Point) -> (added: bool)
    ensures
        path_of(final(subpaths)@) == lined_to(path_of(old(subpaths)@), point),
        added == (old(subpaths)@.len() > 0),
{
    let n: usize = subpaths.len();
    if n == 0 {
        return false;
    }
    if subpaths[n - 1].closed {
        let start: Point = if subpaths[n - 1].points.len() > 0 {
            subpaths[n - 1].points[0]
        } else {
            point
        };
        let mut points: Vec<Point> = Vec::new();
        points.push(start);
        points.push(point);
        assert(points@ =~= seq![start, point]);
        subpaths.push(SubPath { points, closed: false });
    } else {
        let last = &mut subpaths[n - 1];
        last.points.push(point);
    }
    assert(path_of(subpaths@) =~= lined_to(path_of(old(subpaths)@), point));
    true
}

/// Adds lines to some points, of which the first may begin the path.
pub fn path_add_points(subpaths: &mut Vec<SubPath>, points: &Vec<Point>)
    ensures
        path_of(final(subpaths)@) == lined_to_all(path_of(old(subpaths)@), points@),
{
    let begins: bool = path_current_point(subpaths).is_none();
    let mut i: usize = 0;
    while i < points.len()
        invariant
            i <= points@.len(),
            begins == (current_point(path_of(old(subpaths)@)) is None),
            path_of(subpaths@) == lined_to_all(path_of(old(subpaths)@), points@.take(i as int)),
        decreases points@.len() - i,
    {
        assert(points@.take(i + 1).drop_last() =~= points@.take(i as int));
        if i == 0 && begins {
            path_move_to(subpaths, points[i]);
        } else {
            path_line_to(subpaths, points[i]);
        }
        i = i + 1;
    }
    assert(points@.take(i as int) =~= points@);
}

pub fn path_close(subpaths: &mut Vec<SubPath>)
    ensures
        path_of(final(subpaths)@) == path_closed(path_of(old(subpaths)@)),
{
    let n: usize = subpaths.len();
    if n > 0 && subpaths[n - 1].points.len() > 0 {
        let last = &mut subpaths[n - 1];
        last.closed = true;
    }
    assert(path_of(subpaths@) =~= path_closed(path_of(old(subpaths)@)));
}

/// Nothing but the path of a context has changed.
pub open spec fn path_changed(
    before: Environment,
    after: Environment,
    id: Id,
    path: Seq<SubPathView>,
) -> bool {
    let subpaths = context_at(after.objc.objects@, id).subpaths;
    &&& path_of(subpaths@) == path
    &&& context_changed(
        before,
        after,
        id,
        CGContextHostObject { subpaths, ..context_at(before.objc.objects@, id) },
    )
}

/// The path of a context has changed; for `nil` nothing has.
pub open spec fn path_changed_unless_nil(
    before: Environment,
    after: Environment,
    id: Id,
    path: Seq<SubPathView>,
) -> bool {
    if id == NIL {
        after == before
    } else {
        path_changed(before, after, id, path)
    }
}

pub open spec fn current_path(env: Environment, context: Id) -> Seq<SubPathView> {
    path_of(context_at(env.objc.objects@, context).subpaths@)
}

/// Takes the path of a context away.
fn take_subpaths(env: &mut Environment, context: Id) -> (subpaths: Vec<SubPath>)
    requires
        old(env).wf(),
        is_context(old(env).objc.objects@, context),
    ensures
        final(env).wf(),
        subpaths == context_at(old(env).objc.objects@, context).subpaths,
        path_changed(*old(env), *final(env), context, Seq::empty()),
{
    let host_obj = borrow_context_mut(env, context);
    let mut taken: Vec<SubPath> = Vec::new();
    std::mem::swap(&mut taken, &mut host_obj.subpaths);
    assert(path_of(Seq::<SubPath>::empty()) =~= Seq::<SubPathView>::empty());
    taken
}

pub fn CGContextBeginPath(env: &mut Environment, context: Id)
    requires
        old(env).wf(),
        context == NIL || is_context(old(env).objc.objects@, context),
    ensures
        final(env).wf(),
        path_changed_unless_nil(*old(env), *final(env), context, Seq::empty()),
{
    if context != NIL {
        take_subpaths(env, context);
    }
}

/// Clips to the path: nothing is clipped, but the path is gone.
pub fn CGContextClip(env: &mut Environment, context: Id)
    requires
        old(env).wf(),
        context == NIL || is_context(old(env).objc.objects@, context),
    ensures
        final(env).wf(),
        path_changed_unless_nil(*old(env), *final(env), context, Seq::empty()),
{
    if context != NIL {
        take_subpaths(env, context);
    }
}

/// Begins a part of the path at a point, which has been transformed.
pub fn CGContextMoveToPoint(env: &mut Environment, context: Id, point: Point)
    requires
        old(env).wf(),
        context == NIL || is_context(old(env).objc.objects@, context),
    ensures
        final(env).wf(),
        path_changed_unless_nil(
            *old(env),
            *final(env),
            context,
            moved_to(current_path(*old(env), context), point),
        ),
{
    if context != NIL {
        let host_obj = borrow_context_mut(env, context);
        path_move_to(&mut host_obj.subpaths, point);
    }
}

/// Adds a line to a point, which has been transformed. Nothing happens without a
/// current point.
pub fn CGContextAddLineToPoint(env: &mut Environment, context: Id, point: Point)
    requires
        old(env).wf(),
        context == NIL || is_context(old(env).objc.objects@, context),
    ensures
        final(env).wf(),
        path_changed_unless_nil(
            *old(env),
            *final(env),
            context,
            lined_to(current_path(*old(env), context), point),
        ),
{
    if context != NIL {
        let host_obj = borrow_context_mut(env, context);
        path_line_to(&mut host_obj.subpaths, point);
    }
}

/// Adds an arc, which is given by transformed points on it.
pub fn CGContextAddArc(env: &mut Environment, context: Id, points: &Vec<Point>)
    requires
        old(env).wf(),
        context == NIL || is_context(old(env).objc.objects@, context),
    ensures
        final(env).wf(),
        path_changed_unless_nil(
            *old(env),
            *final(env),
            context,
            lined_to_all(current_path(*old(env), context), points@),
        ),
{
    if context != NIL {
        let host_obj = borrow_context_mut(env, context);
        path_add_points(&mut host_obj.subpaths, points);
    }
}

/// Adds a rectangle, which is given by its transformed corners.
pub fn CGContextAddRect(env: &mut Environment, context: Id, points: Vec<Point>)
    requires
        old(env).wf(),
        context == NIL || is_context(old(env).objc.objects@, context),
    ensures
        final(env).wf(),
        path_changed_unless_nil(
            *old(env),
            *final(env),
            context,
            current_path(*old(env), context).push(
                SubPathView { points: points@, closed: true },
            ),
        ),
{
    if context != NIL {
        let host_obj = borrow_context_mut(env, context);
        let ghost before = host_obj.subpaths@;
        host_obj.subpaths.push(SubPath { points, closed: true });
        assert(path_of(host_obj.subpaths@) =~= path_of(before).push(
            SubPathView { points: points@, closed: true },
        ));
    }
}

pub fn CGContextClosePath(env: &mut Environment, context: Id)
    requires
        old(env).wf(),
        context == NIL || is_context(old(env).objc.objects@, context),
    ensures
        final(env).wf(),
        path_changed_unless_nil(
            *old(env),
            *final(env),
            context,
            path_closed(current_path(*old(env), context)),
        ),
{
    if context != NIL {
        let host_obj = borrow_context_mut(env, context);
        path_close(&mut host_obj.subpaths);
    }
}

/// How a path is drawn.
#[derive(Clone, Copy, Debug, PartialEq, Eq, Structural)]
pub struct PathDrawing {
    /// Whether it is filled, and whether by the even-odd rule.
    pub fill: Option<bool>,
    pub stroke: bool,
}

/// How a path is drawn in a mode. Nothing is drawn in a mode that is not known.
pub open spec fn drawing_of(mode: i32) -> PathDrawing {
    PathDrawing {
        fill: if mode == kCGPathFill || mode == kCGPathFillStroke {
            Some(false)
        } else if mode == kCGPathEOFill || mode == kCGPathEOFillStroke {
            Some(true)
        } else {
            None
        },
        stroke: kCGPathStroke <= mode <= kCGPathEOFillStroke,
    }
}

pub const kCGPathFill: i32 = 0;

pub const kCGPathEOFill: i32 = 1;

pub const kCGPathStroke: i32 = 2;

pub const kCGPathFillStroke: i32 = 3;

pub const kCGPathEOFillStroke: i32 = 4;

/// Takes the path of a context away to draw it, and says how. There is nothing to
/// draw for `nil`.
pub fn CGContextDrawPath(env: &mut Environment, context: Id, mode: i32) -> (drawn: (
    Vec<SubPath>,
    PathDrawing,
))
    requires
        old(env).wf(),
        context == NIL || is_context(old(env).objc.objects@, context),
    ensures
        final(env).wf(),
        path_changed_unless_nil(*old(env), *final(env), context, Seq::empty()),
        drawn.1 == drawing_of(mode),
        path_of(drawn.0@) == if context == NIL {
            Seq::empty()
        } else {
            current_path(*old(env), context)
        },
{
    let fill: Option<bool> = if mode == kCGPathFill || mode == kCGPathFillStroke {
        Some(false)
    } else if mode == kCGPathEOFill || mode == kCGPathEOFillStroke {
        Some(true)
    } else {
        None
    };
    let drawing = PathDrawing {
        fill,
        stroke: kCGPathStroke <= mode && mode <= kCGPathEOFillStroke,
    };
    if context == NIL {
        let none: Vec<SubPath> = Vec::new();
        assert(path_of(none@) =~= Seq::<SubPathView>::empty());
        return (none, drawing);
    }
    (take_subpaths(env, context), drawing)
}

/// Nothing but how a context strokes has changed; for `nil` nothing has.
pub open spec fn stroke_changed(
    before: Environment,
    after: Environment,
    id: Id,
    stroke: StrokeState,
) -> bool {
    if id == NIL {
        after == before
    } else {
        context_changed(
            before,
            after,
            id,
            CGContextHostObject { stroke, ..context_at(before.objc.objects@, id) },
        )
    }
}

pub fn CGContextSetLineWidth(env: &mut Environment, context: Id, width: u32)
    requires
        old(env).wf(),
        context == NIL || is_context(old(env).objc.objects@, context),
    ensures
        final(env).wf(),
        stroke_changed(
            *old(env),
            *final(env),
            context,
            (StrokeState {
                line_width: width,
                ..context_at(old(env).objc.objects@, context).stroke
            }),
        ),
{
    if context != NIL {
        let host_obj = borrow_context_mut(env, context);
        host_obj.stroke.line_width = width;
    }
}

pub fn CGContextSetRGBStrokeColor(
    env: &mut Environment,
    context: Id,
    red: u32,
    green: u32,
    blue: u32,
    alpha: u32,
)
    requires
        old(env).wf(),
        context == NIL || is_context(old(env).objc.objects@, context),
    ensures
        final(env).wf(),
        stroke_changed(
            *old(env),
            *final(env),
            context,
            (StrokeState {
                rgb_stroke_color: Color { r: red, g: green, b: blue, a: alpha },
                ..context_at(old(env).objc.objects@, context).stroke
            }),
        ),
{
    if context != NIL {
        let host_obj = borrow_context_mut(env, context);
        host_obj.stroke.rgb_stroke_color = Color { r: red, g: green, b: blue, a: alpha };
    }
}

pub fn CGContextSetGrayStrokeColor(env: &mut Environment, context: Id, gray: u32, alpha: u32)
    requires
        old(env).wf(),
        context == NIL || is_context(old(env).objc.objects@, context),
    ensures
        final(env).wf(),
        stroke_changed(
            *old(env),
            *final(env),
            context,
            (StrokeState {
                rgb_stroke_color: Color { r: gray, g: gray, b: gray, a: alpha },
                ..context_at(old(env).objc.objects@, context).stroke
            }),
        ),
{
    CGContextSetRGBStrokeColor(env, context, gray, gray, gray, alpha);
}

/// How a context strokes.
pub fn stroke_state(env: &Environment, context: Id) -> (stroke: StrokeState)
    requires
        is_context(env.objc.objects@, context),
    ensures
        stroke == context_at(env.objc.objects@, context).stroke,
{
    borrow_context(&env.objc, context).stroke
}

/// The current point of a context's path.
pub fn current_point_of(env: &Environment, context: Id) -> (point: Option<Point>)
    requires
        is_context(env.objc.objects@, context),
    ensures
        point == current_point(current_path(*env, context)),
{
    path_current_point(&borrow_context(&env.objc, context).subpaths)
}

/// The glyph at a place in a list of glyphs in guest memory.
pub open spec fn glyph_at(mem: Mem, glyphs: u32, i: int) -> u16 {
    mem::le_value(mem.span(glyphs + 2 * i, 2)) as u16
}

/// The glyphs that stand in guest memory.
pub fn read_glyphs(mem: &Mem, glyphs: u32, count: u32) -> (ids: Vec<u16>)
    requires
        mem.wf(),
        count == 0 || mem.mapped(glyphs as int, 2 * count),
    ensures
        ids@ == Seq::new(count as nat, |i: int| glyph_at(*mem, glyphs, i)),
{
    let mut ids: Vec<u16> = Vec::new();
    let mut i: u32 = 0;
    while i < count
        invariant
            i <= count,
            mem.wf(),
            count == 0 || mem.mapped(glyphs as int, 2 * count),
            ids@ == Seq::new(i as nat, |k: int| glyph_at(*mem, glyphs, k)),
        decreases count - i,
    {
        let id: u16 = mem.read_u16(glyphs + 2 * i);
        assert(id == glyph_at(*mem, glyphs, i as int));
        ids.push(id);
        i = i + 1;
        assert(ids@ =~= Seq::new(i as nat, |k: int| glyph_at(*mem, glyphs, k)));
    }
    ids
}

/// A path that goes on has a current point, which is the point that was added.
pub proof fn law_path_goes_on(path: Seq<SubPathView>, point: Point)
    ensures
        current_point(moved_to(path, point)) == Some(point),
        path.len() > 0 ==> current_point(lined_to(path, point)) == Some(point),
        path.len() == 0 ==> lined_to(path, point) == path,
{
}

/// Closing a path takes its current point back to where its last part begins, and
/// closing it again changes nothing.
pub proof fn law_path_closed(path: Seq<SubPathView>)
    requires
        path.len() > 0,
        path.last().points.len() > 0,
    ensures
        current_point(path_closed(path)) == Some(path.last().points.first()),
        path_closed(path_closed(path)) == path_closed(path),
{
    assert(path_closed(path_closed(path)) =~= path_closed(path));
}

/// A move begins a new part of the path, and replaces one that has only been begun.
pub proof fn law_moved_to(path: Seq<SubPathView>, a: Point, b: Point)
    ensures
        moved_to(moved_to(path, a), b) == moved_to(path, b),
        path.len() == 0 || path.last().closed || path.last().points.len() != 1 ==> moved_to(path, a)
            == path.push(SubPathView { points: seq![a], closed: false }),
        path.len() > 0 && !path.last().closed && path.last().points.len() == 1 ==> moved_to(path, a)
            == path.drop_last().push(SubPathView { points: seq![a], closed: false }),
{
    let begun = SubPathView { points: seq![b], closed: false };
    if path.len() > 0 && !path.last().closed && path.last().points.len() == 1 {
        assert(moved_to(path, a) =~= path.drop_last().push(
            SubPathView { points: seq![a], closed: false },
        ));
    }
    assert(moved_to(moved_to(path, a), b) =~= moved_to(path, b));
}

/// A line goes on from the last part of the path while that is open. Behind a closed part a
/// new one begins where that part began.
pub proof fn law_lined_to(path: Seq<SubPathView>, point: Point)
    requires
        path.len() > 0,
        path.last().points.len() > 0,
    ensures
        !path.last().closed ==> lined_to(path, point) == path.drop_last().push(
            SubPathView { points: path.last().points.push(point), closed: false },
        ),
        path.last().closed ==> lined_to(path, point) == path.push(
            SubPathView { points: seq![path.last().points[0], point], closed: false },
        ),
        path_closed(path) == path.drop_last().push(
            SubPathView { points: path.last().points, closed: true },
        ),
{
    if !path.last().closed {
        assert(lined_to(path, point) =~= path.drop_last().push(
            SubPathView { points: path.last().points.push(point), closed: false },
        ));
    }
    assert(path_closed(path) =~= path.drop_last().push(
        SubPathView { points: path.last().points, closed: true },
    ));
}

/// Lines go through the points one after the other, from the first of them where the path
/// has no current point.
pub proof fn law_lines(path: Seq<SubPathView>, first: Point, point: Point, points: Seq<Point>)
    requires
        points.len() > 0,
    ensures
        lined_to_all(path, Seq::empty()) == path,
        current_point(path) is None ==> lined_to_all(path, seq![first]) == moved_to(path, first),
        current_point(path) is Some ==> lined_to_all(path, seq![first]) == lined_to(path, first),
        lined_to_all(path, points.push(point)) == lined_to(lined_to_all(path, points), point),
{
    assert(seq![first].drop_last() =~= Seq::<Point>::empty());
    assert(points.push(point).drop_last() =~= points);
    reveal_with_fuel(lined_to_all, 2);
}

/// The modes of drawing: fill, fill by the even-odd rule, stroke, and the two fills with a
/// stroke.
pub proof fn law_drawing_modes(mode: i32)
    ensures
        drawing_of(0) == (PathDrawing { fill: Some(false), stroke: false }),
        drawing_of(1) == (PathDrawing { fill: Some(true), stroke: false }),
        drawing_of(2) == (PathDrawing { fill: None, stroke: true }),
        drawing_of(3) == (PathDrawing { fill: Some(false), stroke: true }),
        drawing_of(4) == (PathDrawing { fill: Some(true), stroke: true }),
        mode < 0 || mode > 4 ==> drawing_of(mode) == (PathDrawing { fill: None, stroke: false }),
{
}

/// Glyphs have two bytes each, the lower one first.
pub proof fn law_glyphs(mem: Mem, glyphs: u32, i: int)
    requires
        0 <= i,
        glyphs + 2 * i + 2 <= mem.bytes@.len(),
    ensures
        glyph_at(mem, glyphs, i) == mem.bytes@[glyphs + 2 * i] + 0x100 * mem.bytes@[glyphs + 2 * i
            + 1],
{
    let (p, q) = (mem.bytes@[glyphs + 2 * i], mem.bytes@[glyphs + 2 * i + 1]);
    assert(mem.span(glyphs + 2 * i, 2) =~= seq![p, q]);
    mem::law_little_endian(p, q, 0, 0);
}

/// Saving and restoring the state leave the bitmap and the path as they are, and a state is
/// the fill color, the transform and the font.
pub proof fn law_state_only(
    context: CGContextHostObject,
    saved: CGContextHostObject,
    restored: CGContextHostObject,
)
    ensures
        is_saved(context, saved) ==> saved.bitmap == context.bitmap && saved.subpaths
            == context.subpaths && saved.rgb_fill_color == context.rgb_fill_color
            && saved.transform == context.transform && saved.font == context.font
            && saved.font_size == context.font_size && saved.stroke == context.stroke,
        is_restored(context, restored) && context.state_stack@.len() > 0 ==> restored.bitmap
            == context.bitmap && restored.subpaths == context.subpaths && restored.rgb_fill_color
            == context.state_stack@.last().rgb_fill_color && restored.transform
            == context.state_stack@.last().transform && restored.font
            == context.state_stack@.last().font && restored.font_size
            == context.state_stack@.last().font_size,
{
}

/// A new context has no color, no font but a size for one, no path and nothing saved, draws
/// in the coordinates of its bitmap, and strokes in black with a width of one.
pub proof fn law_fresh_context(context: CGContextHostObject, bitmap: CGBitmapContextData)
    requires
        is_fresh(context, bitmap),
    ensures
        context.bitmap == bitmap,
        context.rgb_fill_color == (Color { r: 0, g: 0, b: 0, a: 0 }),
        context.font == 0 && context.font_size == 0x4188_0000,
        context.transform == (Transform {
            a: 0x3f80_0000,
            b: 0,
            c: 0,
            d: 0x3f80_0000,
            tx: 0,
            ty: 0,
        }),
        context.stroke.line_width == 0x3f80_0000,
        context.stroke.rgb_stroke_color == (Color { r: 0, g: 0, b: 0, a: 0x3f80_0000 }),
        context.subpaths@.len() == 0 && context.state_stack@.len() == 0
            && context.stroke_stack@.len() == 0,
{
}

} // verus!
