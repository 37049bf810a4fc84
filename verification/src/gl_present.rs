//! Drawing a finished frame with the guest's own graphics context: the commands
//! that set the context up for that, and those that give the guest its state back.
use crate::eagl::PresentTexture;
use vstd::prelude::*;

verus! {

/// A colour, by the bits of its components.
#[derive(Clone, Copy, Debug, PartialEq, Eq, Structural)]
pub struct Rgba {
    pub r: u32,
    pub g: u32,
    pub b: u32,
    pub a: u32,
}

#[derive(Clone, Copy, Debug, PartialEq, Eq, Structural)]
pub struct Viewport {
    pub x: i32,
    pub y: i32,
    pub width: i32,
    pub height: i32,
}

/// Where an array of vertex data comes from.
#[derive(Clone, Copy, Debug, PartialEq, Eq, Structural)]
pub struct ArrayPointer {
    pub binding: u32,
    pub size: i32,
    pub kind: u32,
    pub stride: i32,
    pub pointer: u64,
}

/// The stacks of matrices.
#[derive(Clone, Copy, Debug, PartialEq, Eq, Structural)]
pub enum MatrixMode {
    ModelView,
    Projection,
    Texture,
}

/// The texture environment that takes the colour of the texture as it is.
pub const REPLACE: i32 = 0x1e01;

/// The bits of one.
pub const ONE: u32 = 0x3f80_0000;

/// A call of the graphics library. Client states and capabilities are given by
/// their places in their lists.
#[derive(Clone, Copy, Debug, PartialEq, Eq, Structural)]
pub enum GlCommand {
    GenFramebuffer(u32),
    BindFramebuffer(u32),
    AttachRenderbuffer(u32),
    DeleteFramebuffer(u32),
    GenTexture(u32),
    BindTexture(u32),
    DeleteTexture(u32),
    CopyTexImage { width: i32, height: i32 },
    CopyTexSubImage { width: i32, height: i32 },
    TexMinFilterLinear,
    TexMagFilterLinear,
    TexClampHorizontal,
    TexClampVertical,
    BindRenderbuffer(u32),
    SetClientState { index: usize, on: bool },
    SetCapability { index: usize, on: bool },
    SetMatrixMode(MatrixMode),
    PushMatrix,
    PopMatrix,
    LoadIdentity,
    Color(Rgba),
    SetViewport(Viewport),
    ClearColor(Rgba),
    BindBuffer(u32),
    VertexPointer { size: i32, kind: u32, stride: i32, pointer: u64 },
    TexCoordPointer { size: i32, kind: u32, stride: i32, pointer: u64 },
    BlendFunc { source: u32, target: u32 },
    TexEnvMode(i32),
}

/// The part of the guest's graphics state that is read before a frame is drawn.
pub struct GlState {
    pub renderbuffer: u32,
    pub framebuffer: u32,
    pub texture_2d: u32,
    pub arrays: Vec<bool>,
    pub capabilities: Vec<bool>,
    pub matrix_mode: MatrixMode,
    pub color: Rgba,
    pub viewport: Viewport,
    pub clear_color: Rgba,
    pub array_buffer: u32,
    pub vertex: ArrayPointer,
    pub tex_coord: ArrayPointer,
    pub blend_source: u32,
    pub blend_target: u32,
    pub tex_env_mode: i32,
}

/// A graphics state with its stacks of matrices.
pub struct GlView {
    pub renderbuffer: u32,
    pub framebuffer: u32,
    pub texture_2d: u32,
    pub arrays: Seq<bool>,
    pub capabilities: Seq<bool>,
    pub matrix_mode: MatrixMode,
    pub modelview: Seq<Seq<u32>>,
    pub projection: Seq<Seq<u32>>,
    pub texture: Seq<Seq<u32>>,
    pub color: Rgba,
    pub viewport: Viewport,
    pub clear_color: Rgba,
    pub array_buffer: u32,
    pub vertex: ArrayPointer,
    pub tex_coord: ArrayPointer,
    pub blend_source: u32,
    pub blend_target: u32,
    pub tex_env_mode: i32,
}

/// What has been read of a state, with empty stacks.
pub open spec fn shown(saved: GlState) -> GlView {
    GlView {
        renderbuffer: saved.renderbuffer,
        framebuffer: saved.framebuffer,
        texture_2d: saved.texture_2d,
        arrays: saved.arrays@,
        capabilities: saved.capabilities@,
        matrix_mode: saved.matrix_mode,
        modelview: Seq::empty(),
        projection: Seq::empty(),
        texture: Seq::empty(),
        color: saved.color,
        viewport: saved.viewport,
        clear_color: saved.clear_color,
        array_buffer: saved.array_buffer,
        vertex: saved.vertex,
        tex_coord: saved.tex_coord,
        blend_source: saved.blend_source,
        blend_target: saved.blend_target,
        tex_env_mode: saved.tex_env_mode,
    }
}

/// What has been read is a state, but for its stacks.
pub open spec fn is_saved(saved: GlState, state: GlView) -> bool {
    state == (GlView {
        modelview: state.modelview,
        projection: state.projection,
        texture: state.texture,
        ..shown(saved)
    })
}

/// The identity matrix, by the bits of its entries.
pub open spec fn identity() -> Seq<u32> {
    Seq::new(
        16,
        |i: int|
            if i % 5 == 0 {
                ONE
            } else {
                0
            },
    )
}

/// The stack that matrix calls work on.
pub open spec fn current_stack(state: GlView) -> Seq<Seq<u32>> {
    match state.matrix_mode {
        MatrixMode::ModelView => state.modelview,
        MatrixMode::Projection => state.projection,
        MatrixMode::Texture => state.texture,
    }
}

pub open spec fn with_stack(state: GlView, stack: Seq<Seq<u32>>) -> GlView {
    match state.matrix_mode {
        MatrixMode::ModelView => GlView { modelview: stack, ..state },
        MatrixMode::Projection => GlView { projection: stack, ..state },
        MatrixMode::Texture => GlView { texture: stack, ..state },
    }
}

/// The switches with one of them set; there is no other effect for an unknown one.
pub open spec fn switched(on: Seq<bool>, index: usize, value: bool) -> Seq<bool> {
    if index < on.len() {
        on.update(index as int, value)
    } else {
        on
    }
}

/// The state after a call.
pub open spec fn applied(state: GlView, command: GlCommand) -> GlView {
    match command {
        GlCommand::BindRenderbuffer(name) => GlView { renderbuffer: name, ..state },
        GlCommand::BindFramebuffer(name) => GlView { framebuffer: name, ..state },
        GlCommand::DeleteFramebuffer(name) => if state.framebuffer == name {
            GlView { framebuffer: 0, ..state }
        } else {
            state
        },
        GlCommand::BindTexture(name) => GlView { texture_2d: name, ..state },
        GlCommand::DeleteTexture(name) => if state.texture_2d == name {
            GlView { texture_2d: 0, ..state }
        } else {
            state
        },
        GlCommand::SetClientState { index, on } => GlView {
            arrays: switched(state.arrays, index, on),
            ..state
        },
        GlCommand::SetCapability { index, on } => GlView {
            capabilities: switched(state.capabilities, index, on),
            ..state
        },
        GlCommand::SetMatrixMode(mode) => GlView { matrix_mode: mode, ..state },
        GlCommand::PushMatrix => with_stack(
            state,
            current_stack(state).push(current_stack(state).last()),
        ),
        GlCommand::PopMatrix => with_stack(state, current_stack(state).drop_last()),
        GlCommand::LoadIdentity => with_stack(
            state,
            current_stack(state).drop_last().push(identity()),
        ),
        GlCommand::Color(color) => GlView { color, ..state },
        GlCommand::SetViewport(viewport) => GlView { viewport, ..state },
        GlCommand::ClearColor(clear_color) => GlView { clear_color, ..state },
        GlCommand::BindBuffer(name) => GlView { array_buffer: name, ..state },
        GlCommand::VertexPointer { size, kind, stride, pointer } => GlView {
            vertex: ArrayPointer { binding: state.array_buffer, size, kind, stride, pointer },
            ..state
        },
        GlCommand::TexCoordPointer { size, kind, stride, pointer } => GlView {
            tex_coord: ArrayPointer { binding: state.array_buffer, size, kind, stride, pointer },
            ..state
        },
        GlCommand::BlendFunc { source, target } => GlView {
            blend_source: source,
            blend_target: target,
            ..state
        },
        GlCommand::TexEnvMode(tex_env_mode) => GlView { tex_env_mode, ..state },
        _ => state,
    }
}

/// The state after a list of calls.
pub open spec fn run(state: GlView, commands: Seq<GlCommand>) -> GlView
    decreases commands.len(),
{
    if commands.len() == 0 {
        state
    } else {
        applied(run(state, commands.drop_last()), commands.last())
    }
}

proof fn lemma_run_concat(state: GlView, a: Seq<GlCommand>, b: Seq<GlCommand>)
    ensures
        run(state, a + b) == run(run(state, a), b),
    decreases b.len(),
{
    if b.len() == 0 {
        assert(a + b =~= a);
    } else {
        assert((a + b).drop_last() =~= a + b.drop_last());
        lemma_run_concat(state, a, b.drop_last());
    }
}

/// The calls that set how a new texture is drawn. A context whose window has a
/// renderbuffer of its own draws a texture of any size only if that is not repeated.
pub open spec fn filter_calls(view: Option<u32>) -> Seq<GlCommand> {
    seq![GlCommand::TexMinFilterLinear] + if view is Some {
        seq![
            GlCommand::TexMagFilterLinear,
            GlCommand::TexClampHorizontal,
            GlCommand::TexClampVertical,
        ]
    } else {
        Seq::empty()
    }
}

/// The calls that make the renderbuffer one to read from.
pub open spec fn attach_calls(renderbuffer: u32, src_framebuffer: u32) -> Seq<GlCommand> {
    seq![
        GlCommand::GenFramebuffer(src_framebuffer),
        GlCommand::BindFramebuffer(src_framebuffer),
        GlCommand::AttachRenderbuffer(renderbuffer),
    ]
}

/// The calls that give up a texture of an earlier frame that cannot be used again.
pub open spec fn discard_calls(cache: PresentTexture, reusable: bool) -> Seq<GlCommand> {
    if !reusable && cache.texture != 0 {
        seq![GlCommand::DeleteTexture(cache.texture)]
    } else {
        Seq::empty()
    }
}

/// The calls that copy what is read to a texture.
pub open spec fn texture_calls(
    cache: PresentTexture,
    reusable: bool,
    new_texture: u32,
    width: i32,
    height: i32,
    view: Option<u32>,
) -> Seq<GlCommand> {
    if reusable {
        seq![
            GlCommand::BindTexture(cache.texture),
            GlCommand::CopyTexSubImage { width, height },
        ]
    } else {
        seq![
            GlCommand::GenTexture(new_texture),
            GlCommand::BindTexture(new_texture),
            GlCommand::CopyTexImage { width, height },
        ] + filter_calls(view)
    }
}

/// The calls that bring the frame into a texture.
pub open spec fn copy_calls(
    renderbuffer: u32,
    src_framebuffer: u32,
    cache: PresentTexture,
    reusable: bool,
    new_texture: u32,
    width: i32,
    height: i32,
    view: Option<u32>,
) -> Seq<GlCommand> {
    attach_calls(renderbuffer, src_framebuffer) + discard_calls(cache, reusable) + texture_calls(
        cache,
        reusable,
        new_texture,
        width,
        height,
        view,
    ) + seq![GlCommand::DeleteFramebuffer(src_framebuffer)]
}

/// The calls that switch all client states on or off as a list says.
pub open spec fn client_state_calls(on: Seq<bool>) -> Seq<GlCommand> {
    Seq::new(on.len(), |i: int| GlCommand::SetClientState { index: i as usize, on: on[i] })
}

/// The calls that switch all capabilities on or off as a list says.
pub open spec fn capability_calls(on: Seq<bool>) -> Seq<GlCommand> {
    Seq::new(on.len(), |i: int| GlCommand::SetCapability { index: i as usize, on: on[i] })
}

pub open spec fn all_off(n: nat) -> Seq<bool> {
    Seq::new(n, |i: int| false)
}

/// The calls that put identity matrices on top of all stacks.
pub open spec fn push_calls() -> Seq<GlCommand> {
    seq![
        GlCommand::SetMatrixMode(MatrixMode::ModelView),
        GlCommand::PushMatrix,
        GlCommand::LoadIdentity,
        GlCommand::SetMatrixMode(MatrixMode::Projection),
        GlCommand::PushMatrix,
        GlCommand::LoadIdentity,
        GlCommand::SetMatrixMode(MatrixMode::Texture),
        GlCommand::PushMatrix,
        GlCommand::LoadIdentity,
    ]
}

/// The calls that take the top matrices off again.
pub open spec fn pop_calls() -> Seq<GlCommand> {
    seq![
        GlCommand::SetMatrixMode(MatrixMode::ModelView),
        GlCommand::PopMatrix,
        GlCommand::SetMatrixMode(MatrixMode::Projection),
        GlCommand::PopMatrix,
        GlCommand::SetMatrixMode(MatrixMode::Texture),
        GlCommand::PopMatrix,
    ]
}

pub open spec fn white() -> Rgba {
    Rgba { r: ONE, g: ONE, b: ONE, a: ONE }
}

/// The calls that set the context up for drawing the texture.
pub open spec fn neutral_calls(arrays: nat, capabilities: nat) -> Seq<GlCommand> {
    client_state_calls(all_off(arrays)) + capability_calls(all_off(capabilities)) + push_calls()
        + seq![GlCommand::Color(white()), GlCommand::TexEnvMode(REPLACE)]
}

/// The calls that give the guest back a state, up to the swap of the window.
pub open spec fn restore_calls(state: GlView) -> Seq<GlCommand> {
    client_state_calls(state.arrays) + capability_calls(state.capabilities) + pop_calls() + seq![
        GlCommand::SetMatrixMode(state.matrix_mode),
        GlCommand::Color(state.color),
        GlCommand::SetViewport(state.viewport),
        GlCommand::ClearColor(state.clear_color),
        GlCommand::BindBuffer(state.vertex.binding),
        GlCommand::VertexPointer {
            size: state.vertex.size,
            kind: state.vertex.kind,
            stride: state.vertex.stride,
            pointer: state.vertex.pointer,
        },
        GlCommand::BindBuffer(state.tex_coord.binding),
        GlCommand::TexCoordPointer {
            size: state.tex_coord.size,
            kind: state.tex_coord.kind,
            stride: state.tex_coord.stride,
            pointer: state.tex_coord.pointer,
        },
        GlCommand::BindBuffer(state.array_buffer),
        GlCommand::BlendFunc { source: state.blend_source, target: state.blend_target },
        GlCommand::TexEnvMode(state.tex_env_mode),
    ]
}

/// The call that binds the renderbuffer of the window before the swap, which presents
/// the one that is bound. There is none where the window has no renderbuffer.
pub open spec fn view_calls(view: Option<u32>) -> Seq<GlCommand> {
    match view {
        Some(name) => seq![GlCommand::BindRenderbuffer(name)],
        None => Seq::empty(),
    }
}

/// The calls that follow the swap of the window.
pub open spec fn rebind_calls(state: GlView, view: Option<u32>) -> Seq<GlCommand> {
    (if view is Some {
        seq![GlCommand::BindRenderbuffer(state.renderbuffer)]
    } else {
        Seq::empty()
    }) + seq![
        GlCommand::BindTexture(state.texture_2d),
        GlCommand::BindFramebuffer(state.framebuffer),
    ]
}

fn push_client_states(out: &mut Vec<GlCommand>, on: &Vec<bool>)
    ensures
        final(out)@ == old(out)@ + client_state_calls(on@),
{
    let mut i: usize = 0;
    assert(out@ =~= old(out)@ + client_state_calls(on@).take(0));
    while i < on.len()
        invariant
            i <= on@.len(),
            out@ == old(out)@ + client_state_calls(on@).take(i as int),
        decreases on@.len() - i,
    {
        out.push(GlCommand::SetClientState { index: i, on: on[i] });
        i = i + 1;
        assert(out@ =~= old(out)@ + client_state_calls(on@).take(i as int));
    }
    assert(client_state_calls(on@).take(i as int) =~= client_state_calls(on@));
}

fn push_capabilities(out: &mut Vec<GlCommand>, on: &Vec<bool>)
    ensures
        final(out)@ == old(out)@ + capability_calls(on@),
{
    let mut i: usize = 0;
    assert(out@ =~= old(out)@ + capability_calls(on@).take(0));
    while i < on.len()
        invariant
            i <= on@.len(),
            out@ == old(out)@ + capability_calls(on@).take(i as int),
        decreases on@.len() - i,
    {
        out.push(GlCommand::SetCapability { index: i, on: on[i] });
        i = i + 1;
        assert(out@ =~= old(out)@ + capability_calls(on@).take(i as int));
    }
    assert(capability_calls(on@).take(i as int) =~= capability_calls(on@));
}

fn off_list(n: usize) -> (list: Vec<bool>)
    ensures
        list@ == all_off(n as nat),
{
    let mut list: Vec<bool> = Vec::new();
    let mut i: usize = 0;
    while i < n
        invariant
            i <= n,
            list@ == all_off(i as nat),
        decreases n - i,
    {
        list.push(false);
        i = i + 1;
        assert(list@ =~= all_off(i as nat));
    }
    list
}

/// The first calls for a frame: the renderbuffer is made one to read from.
pub fn attach_commands(saved: &GlState, src_framebuffer: u32) -> (commands: Vec<GlCommand>)
    ensures
        commands@ == attach_calls(saved.renderbuffer, src_framebuffer),
{
    let mut out: Vec<GlCommand> = Vec::new();
    out.push(GlCommand::GenFramebuffer(src_framebuffer));
    out.push(GlCommand::BindFramebuffer(src_framebuffer));
    out.push(GlCommand::AttachRenderbuffer(saved.renderbuffer));
    assert(out@ =~= attach_calls(saved.renderbuffer, src_framebuffer));
    out
}

/// The calls after that: a texture that cannot be used again is given up.
pub fn discard_commands(cache: PresentTexture, reusable: bool) -> (commands: Vec<GlCommand>)
    ensures
        commands@ == discard_calls(cache, reusable),
{
    let mut out: Vec<GlCommand> = Vec::new();
    if !reusable && cache.texture != 0 {
        out.push(GlCommand::DeleteTexture(cache.texture));
    }
    assert(out@ =~= discard_calls(cache, reusable));
    out
}

/// The calls after those of `attach_commands` and `discard_commands` and before a frame
/// is drawn: the frame is copied to a texture, and the context is set up to draw it. Also
/// what the texture is from then on. `view` is the renderbuffer of the window, where that
/// has one.
pub fn setup_commands(
    saved: &GlState,
    src_framebuffer: u32,
    cache: PresentTexture,
    reusable: bool,
    new_texture: u32,
    width: i32,
    height: i32,
    view: Option<u32>,
) -> (r: (Vec<GlCommand>, PresentTexture))
    ensures
        attach_calls(saved.renderbuffer, src_framebuffer) + discard_calls(cache, reusable) + r.0@
            == copy_calls(
            saved.renderbuffer,
            src_framebuffer,
            cache,
            reusable,
            new_texture,
            width,
            height,
            view,
        ) + neutral_calls(saved.arrays@.len(), saved.capabilities@.len()),
        r.1 == if reusable {
            cache
        } else {
            PresentTexture { texture: new_texture, width, height }
        },
{
    let mut out: Vec<GlCommand> = Vec::new();
    let texture: PresentTexture;
    if reusable {
        out.push(GlCommand::BindTexture(cache.texture));
        out.push(GlCommand::CopyTexSubImage { width, height });
        texture = cache;
    } else {
        out.push(GlCommand::GenTexture(new_texture));
        out.push(GlCommand::BindTexture(new_texture));
        out.push(GlCommand::CopyTexImage { width, height });
        out.push(GlCommand::TexMinFilterLinear);
        if view.is_some() {
            out.push(GlCommand::TexMagFilterLinear);
            out.push(GlCommand::TexClampHorizontal);
            out.push(GlCommand::TexClampVertical);
        }
        texture = PresentTexture { texture: new_texture, width, height };
    }
    out.push(GlCommand::DeleteFramebuffer(src_framebuffer));
    let ghost copied = texture_calls(cache, reusable, new_texture, width, height, view).push(
        GlCommand::DeleteFramebuffer(src_framebuffer),
    );
    assert(out@ =~= copied);
    push_client_states(&mut out, &off_list(saved.arrays.len()));
    push_capabilities(&mut out, &off_list(saved.capabilities.len()));
    out.push(GlCommand::SetMatrixMode(MatrixMode::ModelView));
    out.push(GlCommand::PushMatrix);
    out.push(GlCommand::LoadIdentity);
    out.push(GlCommand::SetMatrixMode(MatrixMode::Projection));
    out.push(GlCommand::PushMatrix);
    out.push(GlCommand::LoadIdentity);
    out.push(GlCommand::SetMatrixMode(MatrixMode::Texture));
    out.push(GlCommand::PushMatrix);
    out.push(GlCommand::LoadIdentity);
    out.push(GlCommand::Color(Rgba { r: ONE, g: ONE, b: ONE, a: ONE }));
    out.push(GlCommand::TexEnvMode(REPLACE));
    proof {
        let neutral = neutral_calls(saved.arrays@.len(), saved.capabilities@.len());
        let before = attach_calls(saved.renderbuffer, src_framebuffer) + discard_calls(
            cache,
            reusable,
        );
        assert(out@ =~= copied + neutral);
        assert(before + out@ =~= copy_calls(
            saved.renderbuffer,
            src_framebuffer,
            cache,
            reusable,
            new_texture,
            width,
            height,
            view,
        ) + neutral);
    }
    (out, texture)
}

/// The calls that give the guest its state back: those before the swap of the
/// window, and those after it.
pub fn restore_commands(saved: &GlState, view: Option<u32>) -> (r: (
    Vec<GlCommand>,
    Vec<GlCommand>,
))
    ensures
        r.0@ == restore_calls(shown(*saved)) + view_calls(view),
        r.1@ == rebind_calls(shown(*saved), view),
{
    let mut out: Vec<GlCommand> = Vec::new();
    push_client_states(&mut out, &saved.arrays);
    push_capabilities(&mut out, &saved.capabilities);
    out.push(GlCommand::SetMatrixMode(MatrixMode::ModelView));
    out.push(GlCommand::PopMatrix);
    out.push(GlCommand::SetMatrixMode(MatrixMode::Projection));
    out.push(GlCommand::PopMatrix);
    out.push(GlCommand::SetMatrixMode(MatrixMode::Texture));
    out.push(GlCommand::PopMatrix);
    out.push(GlCommand::SetMatrixMode(saved.matrix_mode));
    out.push(GlCommand::Color(saved.color));
    out.push(GlCommand::SetViewport(saved.viewport));
    out.push(GlCommand::ClearColor(saved.clear_color));
    out.push(GlCommand::BindBuffer(saved.vertex.binding));
    out.push(
        GlCommand::VertexPointer {
            size: saved.vertex.size,
            kind: saved.vertex.kind,
            stride: saved.vertex.stride,
            pointer: saved.vertex.pointer,
        },
    );
    out.push(GlCommand::BindBuffer(saved.tex_coord.binding));
    out.push(
        GlCommand::TexCoordPointer {
            size: saved.tex_coord.size,
            kind: saved.tex_coord.kind,
            stride: saved.tex_coord.stride,
            pointer: saved.tex_coord.pointer,
        },
    );
    out.push(GlCommand::BindBuffer(saved.array_buffer));
    out.push(GlCommand::BlendFunc { source: saved.blend_source, target: saved.blend_target });
    out.push(GlCommand::TexEnvMode(saved.tex_env_mode));
    let mut rebind: Vec<GlCommand> = Vec::new();
    if let Some(name) = view {
        out.push(GlCommand::BindRenderbuffer(name));
        rebind.push(GlCommand::BindRenderbuffer(saved.renderbuffer));
    }
    assert(out@ =~= restore_calls(shown(*saved)) + view_calls(view));
    rebind.push(GlCommand::BindTexture(saved.texture_2d));
    rebind.push(GlCommand::BindFramebuffer(saved.framebuffer));
    assert(rebind@ =~= rebind_calls(shown(*saved), view));
    (out, rebind)
}

/// A call that touches neither the stacks nor how many switches there are, nor which
/// renderbuffer is bound.
pub open spec fn is_plain(command: GlCommand) -> bool {
    !(command is PushMatrix) && !(command is PopMatrix) && !(command is LoadIdentity) && !(
    command is BindRenderbuffer)
}

/// The stacks of two states are the same, and they have equally many switches.
pub open spec fn same_frame(a: GlView, b: GlView) -> bool {
    &&& a.renderbuffer == b.renderbuffer
    &&& a.modelview == b.modelview
    &&& a.projection == b.projection
    &&& a.texture == b.texture
    &&& a.arrays.len() == b.arrays.len()
    &&& a.capabilities.len() == b.capabilities.len()
}

proof fn lemma_plain_calls(state: GlView, commands: Seq<GlCommand>)
    requires
        forall|i: int| 0 <= i < commands.len() ==> is_plain(#[trigger] commands[i]),
    ensures
        same_frame(run(state, commands), state),
    decreases commands.len(),
{
    if commands.len() > 0 {
        assert(is_plain(commands[commands.len() - 1]));
        assert forall|i: int| 0 <= i < commands.len() - 1 implies is_plain(
            #[trigger] commands.drop_last()[i],
        ) by {
            assert(is_plain(commands[i]));
        }
        lemma_plain_calls(state, commands.drop_last());
    }
}

/// One matrix has been put on top of each stack.
pub open spec fn one_pushed(before: GlView, after: GlView) -> bool {
    &&& after.renderbuffer == before.renderbuffer
    &&& after.modelview.len() == before.modelview.len() + 1
    &&& after.projection.len() == before.projection.len() + 1
    &&& after.texture.len() == before.texture.len() + 1
    &&& after.modelview.drop_last() == before.modelview
    &&& after.projection.drop_last() == before.projection
    &&& after.texture.drop_last() == before.texture
    &&& after.arrays.len() == before.arrays.len()
    &&& after.capabilities.len() == before.capabilities.len()
}

proof fn lemma_push_one(state: GlView, mode: MatrixMode)
    ensures
        run(
            state,
            seq![GlCommand::SetMatrixMode(mode), GlCommand::PushMatrix, GlCommand::LoadIdentity],
        ) == with_stack(
            GlView { matrix_mode: mode, ..state },
            current_stack(GlView { matrix_mode: mode, ..state }).push(identity()),
        ),
{
    let calls = seq![
        GlCommand::SetMatrixMode(mode),
        GlCommand::PushMatrix,
        GlCommand::LoadIdentity,
    ];
    reveal_with_fuel(run, 4);
    assert(calls.drop_last() =~= seq![GlCommand::SetMatrixMode(mode), GlCommand::PushMatrix]);
    assert(calls.drop_last().drop_last() =~= seq![GlCommand::SetMatrixMode(mode)]);
    assert(calls.drop_last().drop_last().drop_last() =~= Seq::empty());
    let set = GlView { matrix_mode: mode, ..state };
    let stack = current_stack(set);
    assert(stack.push(stack.last()).drop_last() =~= stack);
}

proof fn lemma_push_calls(state: GlView)
    ensures
        one_pushed(state, run(state, push_calls())),
        run(state, push_calls()).modelview.last() == identity(),
        run(state, push_calls()).projection.last() == identity(),
        run(state, push_calls()).texture.last() == identity(),
{
    let a = seq![
        GlCommand::SetMatrixMode(MatrixMode::ModelView),
        GlCommand::PushMatrix,
        GlCommand::LoadIdentity,
    ];
    let b = seq![
        GlCommand::SetMatrixMode(MatrixMode::Projection),
        GlCommand::PushMatrix,
        GlCommand::LoadIdentity,
    ];
    let c = seq![
        GlCommand::SetMatrixMode(MatrixMode::Texture),
        GlCommand::PushMatrix,
        GlCommand::LoadIdentity,
    ];
    assert(push_calls() =~= (a + b) + c);
    lemma_run_concat(state, a + b, c);
    lemma_run_concat(state, a, b);
    lemma_push_one(state, MatrixMode::ModelView);
    lemma_push_one(run(state, a), MatrixMode::Projection);
    lemma_push_one(run(run(state, a), b), MatrixMode::Texture);
    assert(state.modelview.push(identity()).drop_last() =~= state.modelview);
    assert(state.projection.push(identity()).drop_last() =~= state.projection);
    assert(state.texture.push(identity()).drop_last() =~= state.texture);
}

proof fn lemma_pop_calls(state: GlView)
    ensures
        run(state, pop_calls()) == (GlView {
            matrix_mode: MatrixMode::Texture,
            modelview: state.modelview.drop_last(),
            projection: state.projection.drop_last(),
            texture: state.texture.drop_last(),
            ..state
        }),
{
    let all = pop_calls();
    let five = all.drop_last();
    let four = five.drop_last();
    let three = four.drop_last();
    let two = three.drop_last();
    let one = two.drop_last();
    assert(one.drop_last() =~= Seq::empty());
    assert(run(state, one.drop_last()) == state);
    assert(run(state, one) == applied(state, all[0]));
    assert(run(state, two) == applied(run(state, one), all[1]));
    assert(run(state, three) == applied(run(state, two), all[2]));
    assert(run(state, four) == applied(run(state, three), all[3]));
    assert(run(state, five) == applied(run(state, four), all[4]));
}

proof fn lemma_client_states(state: GlView, on: Seq<bool>, n: int)
    requires
        0 <= n <= on.len() == state.arrays.len(),
        on.len() <= usize::MAX,
    ensures
        run(state, client_state_calls(on).take(n)) == (GlView {
            arrays: on.take(n) + state.arrays.skip(n),
            ..state
        }),
    decreases n,
{
    let calls = client_state_calls(on).take(n);
    if n == 0 {
        assert(calls =~= Seq::empty());
        assert(on.take(0) + state.arrays.skip(0) =~= state.arrays);
    } else {
        lemma_client_states(state, on, n - 1);
        assert(calls.drop_last() =~= client_state_calls(on).take(n - 1));
        assert((on.take(n - 1) + state.arrays.skip(n - 1)).update(n - 1, on[n - 1]) =~= on.take(n)
            + state.arrays.skip(n));
    }
}

proof fn lemma_capabilities(state: GlView, on: Seq<bool>, n: int)
    requires
        0 <= n <= on.len() == state.capabilities.len(),
        on.len() <= usize::MAX,
    ensures
        run(state, capability_calls(on).take(n)) == (GlView {
            capabilities: on.take(n) + state.capabilities.skip(n),
            ..state
        }),
    decreases n,
{
    let calls = capability_calls(on).take(n);
    if n == 0 {
        assert(calls =~= Seq::empty());
        assert(on.take(0) + state.capabilities.skip(0) =~= state.capabilities);
    } else {
        lemma_capabilities(state, on, n - 1);
        assert(calls.drop_last() =~= capability_calls(on).take(n - 1));
        assert((on.take(n - 1) + state.capabilities.skip(n - 1)).update(n - 1, on[n - 1])
            =~= on.take(n) + state.capabilities.skip(n));
    }
}

/// The calls of `restore_calls` behind those for the switches and the stacks.
spec fn last_calls(state: GlView) -> Seq<GlCommand> {
    restore_calls(state).skip((state.arrays.len() + state.capabilities.len() + 6) as int)
}

proof fn lemma_last_calls(state: GlView, frame: GlView)
    ensures
        run(frame, last_calls(state)) == (GlView {
            matrix_mode: state.matrix_mode,
            color: state.color,
            viewport: state.viewport,
            clear_color: state.clear_color,
            array_buffer: state.array_buffer,
            vertex: state.vertex,
            tex_coord: state.tex_coord,
            blend_source: state.blend_source,
            blend_target: state.blend_target,
            tex_env_mode: state.tex_env_mode,
            ..frame
        }),
{
    let all = last_calls(state);
    assert(all.len() == 11);
    let a = restore_calls(state);
    let base = (state.arrays.len() + state.capabilities.len() + 6) as int;
    assert(all[0] == a[base] && all[1] == a[base + 1] && all[2] == a[base + 2]);
    let s10 = all.drop_last();
    let s9 = s10.drop_last();
    let s8 = s9.drop_last();
    let s7 = s8.drop_last();
    let s6 = s7.drop_last();
    let s5 = s6.drop_last();
    let s4 = s5.drop_last();
    let s3 = s4.drop_last();
    let s2 = s3.drop_last();
    let s1 = s2.drop_last();
    assert(s1.drop_last() =~= Seq::empty());
    assert(run(frame, s1.drop_last()) == frame);
    assert(run(frame, s1) == applied(frame, all[0]));
    assert(run(frame, s2) == applied(run(frame, s1), all[1]));
    assert(run(frame, s3) == applied(run(frame, s2), all[2]));
    assert(run(frame, s4) == applied(run(frame, s3), all[3]));
    assert(run(frame, s5) == applied(run(frame, s4), all[4]));
    assert(run(frame, s6) == applied(run(frame, s5), all[5]));
    assert(run(frame, s7) == applied(run(frame, s6), all[6]));
    assert(run(frame, s8) == applied(run(frame, s7), all[7]));
    assert(run(frame, s9) == applied(run(frame, s8), all[8]));
    assert(run(frame, s10) == applied(run(frame, s9), all[9]));
    assert(run(frame, all) == applied(run(frame, s10), all[10]));
}

proof fn lemma_restore(state: GlView, frame: GlView)
    requires
        one_pushed(state, frame),
        state.arrays.len() <= usize::MAX,
        state.capabilities.len() <= usize::MAX,
    ensures
        run(frame, restore_calls(state)) == (GlView {
            framebuffer: frame.framebuffer,
            texture_2d: frame.texture_2d,
            ..state
        }),
{
    let a = client_state_calls(state.arrays);
    let b = capability_calls(state.capabilities);
    let c = pop_calls();
    let d = last_calls(state);
    assert(restore_calls(state) =~= ((a + b) + c) + d);
    lemma_run_concat(frame, (a + b) + c, d);
    lemma_run_concat(frame, a + b, c);
    lemma_run_concat(frame, a, b);
    lemma_client_states(frame, state.arrays, state.arrays.len() as int);
    assert(a.take(state.arrays.len() as int) =~= a);
    assert(state.arrays.take(state.arrays.len() as int) + frame.arrays.skip(
        state.arrays.len() as int,
    ) =~= state.arrays);
    let after_a = run(frame, a);
    lemma_capabilities(after_a, state.capabilities, state.capabilities.len() as int);
    assert(b.take(state.capabilities.len() as int) =~= b);
    assert(state.capabilities.take(state.capabilities.len() as int) + frame.capabilities.skip(
        state.capabilities.len() as int,
    ) =~= state.capabilities);
    lemma_pop_calls(run(after_a, b));
    lemma_last_calls(state, run(run(after_a, b), c));
}

/// What drawing a frame may do to a state: everything but to the matrices below the
/// top ones and to the renderbuffer.
pub open spec fn drawn(before: GlView, after: GlView) -> bool {
    &&& after.renderbuffer == before.renderbuffer
    &&& after.modelview.len() == before.modelview.len()
    &&& after.projection.len() == before.projection.len()
    &&& after.texture.len() == before.texture.len()
    &&& after.modelview.drop_last() == before.modelview.drop_last()
    &&& after.projection.drop_last() == before.projection.drop_last()
    &&& after.texture.drop_last() == before.texture.drop_last()
    &&& after.arrays.len() == before.arrays.len()
    &&& after.capabilities.len() == before.capabilities.len()
}

/// A frame that is presented leaves no trace: whatever drawing it has done to the
/// state, the guest finds the state that it left.
pub proof fn law_present_keeps_state(
    state: GlView,
    saved: GlState,
    src_framebuffer: u32,
    cache: PresentTexture,
    reusable: bool,
    new_texture: u32,
    width: i32,
    height: i32,
    view: Option<u32>,
    frame: GlView,
)
    requires
        is_saved(saved, state),
        state.arrays.len() <= usize::MAX,
        state.capabilities.len() <= usize::MAX,
        drawn(
            run(
                state,
                copy_calls(
                    saved.renderbuffer,
                    src_framebuffer,
                    cache,
                    reusable,
                    new_texture,
                    width,
                    height,
                    view,
                ) + neutral_calls(saved.arrays@.len(), saved.capabilities@.len()),
            ),
            frame,
        ),
    ensures
        run(
            run(frame, restore_calls(shown(saved)) + view_calls(view)),
            rebind_calls(shown(saved), view),
        ) == state,
{
    let copied = copy_calls(
        saved.renderbuffer,
        src_framebuffer,
        cache,
        reusable,
        new_texture,
        width,
        height,
        view,
    );
    let off = client_state_calls(all_off(saved.arrays@.len())) + capability_calls(
        all_off(saved.capabilities@.len()),
    );
    let ends = seq![GlCommand::Color(white()), GlCommand::TexEnvMode(REPLACE)];
    let neutral = neutral_calls(saved.arrays@.len(), saved.capabilities@.len());
    assert(neutral =~= (off + push_calls()) + ends);
    lemma_run_concat(state, copied, neutral);
    lemma_plain_calls(state, copied);
    let after_copy = run(state, copied);
    lemma_run_concat(after_copy, off + push_calls(), ends);
    lemma_run_concat(after_copy, off, push_calls());
    lemma_plain_calls(after_copy, off);
    let after_off = run(after_copy, off);
    lemma_push_calls(after_off);
    lemma_plain_calls(run(after_off, push_calls()), ends);
    assert(one_pushed(state, frame));
    lemma_restore(state, frame);
    assert(restore_calls(shown(saved)) == restore_calls(state));
    let restored = run(frame, restore_calls(state));
    let swapped = run(restored, view_calls(view));
    lemma_run_concat(frame, restore_calls(state), view_calls(view));
    assert(view_calls(view).len() > 0 ==> view_calls(view).drop_last() =~= Seq::empty());
    assert(run(restored, Seq::empty()) == restored);
    let first = if view is Some {
        seq![GlCommand::BindRenderbuffer(state.renderbuffer)]
    } else {
        Seq::empty()
    };
    let rest = seq![
        GlCommand::BindTexture(state.texture_2d),
        GlCommand::BindFramebuffer(state.framebuffer),
    ];
    assert(rebind_calls(state, view) =~= first + rest);
    lemma_run_concat(swapped, first, rest);
    assert(first.len() > 0 ==> first.drop_last() =~= Seq::empty());
    assert(run(swapped, Seq::empty()) == swapped);
    let back = run(swapped, first);
    assert(rest.drop_last().drop_last() =~= Seq::empty());
    assert(run(back, rest.drop_last().drop_last()) == back);
    assert(run(back, rest.drop_last()) == applied(back, rest[0]));
    assert(run(back, rest) == applied(run(back, rest.drop_last()), rest[1]));
}

/// For the frame all arrays and capabilities are off, the current matrices change nothing,
/// and textures are shown in their own colors.
pub proof fn law_neutral(state: GlView)
    requires
        state.arrays.len() <= usize::MAX,
        state.capabilities.len() <= usize::MAX,
    ensures
        ({
            let after = run(state, neutral_calls(state.arrays.len(), state.capabilities.len()));
            &&& after.color == (Rgba {
                r: 0x3f80_0000,
                g: 0x3f80_0000,
                b: 0x3f80_0000,
                a: 0x3f80_0000,
            })
            &&& after.tex_env_mode == 0x1e01
        }),
        ({
            let pushed = run(state, push_calls());
            &&& pushed.modelview.last() == identity()
            &&& pushed.projection.last() == identity()
            &&& pushed.texture.last() == identity()
        }),
{
    let calls = neutral_calls(state.arrays.len(), state.capabilities.len());
    let one_less = calls.drop_last();
    assert(calls.last() == GlCommand::TexEnvMode(REPLACE));
    assert(one_less.last() == GlCommand::Color(white()));
    reveal_with_fuel(run, 3);
    lemma_push_calls(state);
}

/// The matrix that changes nothing has ones on its diagonal and zeros elsewhere.
pub proof fn law_identity(row: int, column: int)
    requires
        0 <= row < 4,
        0 <= column < 4,
    ensures
        identity().len() == 16,
        identity()[4 * column + row] == if row == column {
            0x3f80_0000
        } else {
            0u32
        },
{
}

/// The renderbuffer is copied through a framebuffer of its own, which is gone afterwards,
/// to a texture that is bound: the kept one if it can be used again, and else a new one,
/// for which a kept one is deleted first.
pub proof fn law_copy(
    state: GlView,
    renderbuffer: u32,
    src: u32,
    cache: PresentTexture,
    new_texture: u32,
    width: i32,
    height: i32,
    view: Option<u32>,
)
    ensures
        ({
            let again = copy_calls(renderbuffer, src, cache, true, new_texture, width, height, view);
            let anew = copy_calls(renderbuffer, src, cache, false, new_texture, width, height, view);
            &&& again == seq![
                GlCommand::GenFramebuffer(src),
                GlCommand::BindFramebuffer(src),
                GlCommand::AttachRenderbuffer(renderbuffer),
                GlCommand::BindTexture(cache.texture),
                GlCommand::CopyTexSubImage { width, height },
                GlCommand::DeleteFramebuffer(src),
            ]
            &&& anew.contains(GlCommand::DeleteTexture(cache.texture)) <==> cache.texture != 0
            &&& anew.contains(GlCommand::CopyTexImage { width, height })
            &&& anew.contains(GlCommand::TexClampHorizontal) <==> view is Some
            &&& anew.contains(GlCommand::TexMagFilterLinear) <==> view is Some
            &&& anew.contains(GlCommand::TexMinFilterLinear)
            &&& anew.last() == GlCommand::DeleteFramebuffer(src)
        }),
{
    let again = copy_calls(renderbuffer, src, cache, true, new_texture, width, height, view);
    let anew = copy_calls(renderbuffer, src, cache, false, new_texture, width, height, view);
    assert(again =~= seq![
        GlCommand::GenFramebuffer(src),
        GlCommand::BindFramebuffer(src),
        GlCommand::AttachRenderbuffer(renderbuffer),
        GlCommand::BindTexture(cache.texture),
        GlCommand::CopyTexSubImage { width, height },
        GlCommand::DeleteFramebuffer(src),
    ]);
    let from: int = if cache.texture != 0 {
        assert(anew[3] == GlCommand::DeleteTexture(cache.texture));
        4
    } else {
        3
    };
    assert(anew[from + 2] == GlCommand::CopyTexImage { width, height });
    assert(anew[from + 3] == GlCommand::TexMinFilterLinear);
    if view is Some {
        assert(anew[from + 4] == GlCommand::TexMagFilterLinear);
        assert(anew[from + 5] == GlCommand::TexClampHorizontal);
    }
}

} // verus!
