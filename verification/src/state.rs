//! A cache of the state of the graphics pipeline.
//!
//! The cache remembers what the pipeline was last told. A setter compares the
//! value it is given with the value it remembers; where they differ it
//! remembers the new value and returns the command that brings the pipeline
//! in line, and where they are the same it returns nothing. The caller hands
//! the commands to the pipeline.

use vstd::prelude::*;

verus! {

/// The texture target of a plain two-dimensional texture.
pub const TEXTURE_2D: u32 = 0x0DE1;

/// The comparison that always passes.
pub const ALWAYS: u32 = 0x0207;

/// The stencil operation that keeps the stored value.
pub const KEEP: u32 = 0x1E00;

/// The blend factor one.
pub const ONE: u32 = 1;

/// The blend factor zero.
pub const ZERO: u32 = 0;

/// The number of texture units that the cache keeps track of.
pub const TEXTURE_UNITS: usize = 32;

/// Which side of a triangle is culled.
#[derive(Clone, Copy, PartialEq, Eq, Structural, Hash, Debug)]
pub enum CullFace {
    Back,
    Front,
}

/// A colour with four channels of eight bits.
#[derive(Clone, Copy, PartialEq, Eq, Structural, Hash, Debug)]
pub struct Color {
    pub r: u8,
    pub g: u8,
    pub b: u8,
    pub a: u8,
}

impl Color {
    pub fn from_rgba(r: u8, g: u8, b: u8, a: u8) -> (c: Color)
        ensures
            c == (Color { r, g, b, a }),
    {
        Color { r, g, b, a }
    }
}

/// A rectangle of pixels.
#[derive(Clone, Copy, PartialEq, Eq, Structural, Hash, Debug)]
pub struct Rect {
    pub x: i32,
    pub y: i32,
    pub w: i32,
    pub h: i32,
}

/// Which channels of the colour buffer are written.
#[derive(Clone, Copy, PartialEq, Eq, Structural, Hash, Debug)]
pub struct ColorMask {
    pub red: bool,
    pub green: bool,
    pub blue: bool,
    pub alpha: bool,
}

impl Default for ColorMask {
    /// Every channel is written.
    fn default() -> (m: ColorMask)
        ensures
            m == (ColorMask { red: true, green: true, blue: true, alpha: true }),
    {
        ColorMask { red: true, green: true, blue: true, alpha: true }
    }
}

impl ColorMask {
    /// The mask with every channel set to `value`.
    pub fn all(value: bool) -> (m: ColorMask)
        ensures
            m == (ColorMask { red: value, green: value, blue: value, alpha: value }),
    {
        ColorMask { red: value, green: value, blue: value, alpha: value }
    }
}

/// The stencil test: the comparison, the value compared with, and the mask.
#[derive(Clone, Copy, PartialEq, Eq, Structural, Hash, Debug)]
pub struct StencilFunc {
    pub func: u32,
    pub ref_value: i32,
    pub mask: u32,
}

impl Default for StencilFunc {
    /// The test that always passes.
    fn default() -> (f: StencilFunc)
        ensures
            f == (StencilFunc { func: ALWAYS, ref_value: 0, mask: 0xFFFF_FFFF }),
    {
        StencilFunc { func: ALWAYS, ref_value: 0, mask: 0xFFFF_FFFF }
    }
}

/// What happens to the stencil value when the stencil test fails, when the
/// depth test fails, and when both pass.
#[derive(Clone, Copy, PartialEq, Eq, Structural, Hash, Debug)]
pub struct StencilOp {
    pub fail: u32,
    pub zfail: u32,
    pub zpass: u32,
}

impl Default for StencilOp {
    /// The stored value is kept in every case.
    fn default() -> (op: StencilOp)
        ensures
            op == (StencilOp { fail: KEEP, zfail: KEEP, zpass: KEEP }),
    {
        StencilOp { fail: KEEP, zfail: KEEP, zpass: KEEP }
    }
}

/// The texture bound to a texture unit, and the target it is bound to.
#[derive(Clone, Copy, PartialEq, Eq, Structural, Hash, Debug)]
pub struct TextureUnit {
    pub target: u32,
    pub texture: u32,
}

impl Default for TextureUnit {
    /// No texture, at the target of two-dimensional textures.
    fn default() -> (u: TextureUnit)
        ensures
            u == (TextureUnit { target: TEXTURE_2D, texture: 0 }),
    {
        TextureUnit { target: TEXTURE_2D, texture: 0 }
    }
}

/// The switches of the pipeline that a draw call sets.
#[derive(Clone, Copy, PartialEq, Eq, Structural, Hash, Debug)]
pub struct DrawParameters {
    pub cull_face: CullFace,
    pub culling: bool,
    pub color_write: ColorMask,
    pub depth_write: bool,
    pub stencil_test: bool,
    pub depth_test: bool,
    pub blend: bool,
}

/// A switch of the pipeline that is on or off.
#[derive(Clone, Copy, PartialEq, Eq, Structural, Hash, Debug)]
pub enum Capability {
    Blend,
    DepthTest,
    StencilTest,
    CullFace,
}

/// A command for the pipeline.
#[derive(Clone, Copy, PartialEq, Eq, Structural, Hash, Debug)]
pub enum Command {
    BindFramebuffer(u32),
    Viewport(Rect),
    Enable(Capability),
    Disable(Capability),
    DepthMask(bool),
    ColorMask(ColorMask),
    CullFace(CullFace),
    StencilMask(u32),
    ClearColor(Color),
    ClearStencil(i32),
    BlendFunc { source: u32, destination: u32 },
    UseProgram(u32),
    BindTexture { unit: usize, target: u32, texture: u32 },
    StencilFunc(StencilFunc),
    StencilOp(StencilOp),
}

/// The command that switches `capability` on or off.
pub open spec fn switch(capability: Capability, on: bool) -> Command {
    if on {
        Command::Enable(capability)
    } else {
        Command::Disable(capability)
    }
}

/// `command`, if `changed`, and nothing otherwise.
pub open spec fn on_change(changed: bool, command: Command) -> Option<Command> {
    if changed {
        Some(command)
    } else {
        None
    }
}

/// The truth value as the pipeline writes it: 1 for true, 0 for false.
pub fn bool_to_gl_bool(v: bool) -> (r: u8)
    ensures
        r == (if v {
            1u8
        } else {
            0u8
        }),
{
    if v {
        1
    } else {
        0
    }
}

/// The cache as contracts see it.
pub ghost struct StateView {
    pub blend: bool,
    pub depth_test: bool,
    pub depth_write: bool,
    pub color_write: ColorMask,
    pub stencil_test: bool,
    pub cull_face: CullFace,
    pub culling: bool,
    pub stencil_mask: u32,
    pub clear_color: Color,
    pub clear_stencil: i32,
    pub framebuffer: u32,
    pub viewport: Rect,
    pub blend_src_factor: u32,
    pub blend_dst_factor: u32,
    pub program: u32,
    pub texture_units: Seq<TextureUnit>,
    pub stencil_func: StencilFunc,
    pub stencil_op: StencilOp,
}

impl StateView {
    /// The state of a pipeline that has not been told anything yet.
    pub open spec fn initial() -> StateView {
        StateView {
            blend: false,
            depth_test: false,
            depth_write: true,
            color_write: ColorMask { red: true, green: true, blue: true, alpha: true },
            stencil_test: false,
            cull_face: CullFace::Back,
            culling: false,
            stencil_mask: 0xFFFF_FFFF,
            clear_color: Color { r: 0, g: 0, b: 0, a: 0 },
            clear_stencil: 0,
            framebuffer: 0,
            viewport: Rect { x: 0, y: 0, w: 1, h: 1 },
            blend_src_factor: ONE,
            blend_dst_factor: ZERO,
            program: 0,
            texture_units: Self::no_textures(),
            stencil_func: StencilFunc { func: ALWAYS, ref_value: 0, mask: 0xFFFF_FFFF },
            stencil_op: StencilOp { fail: KEEP, zfail: KEEP, zpass: KEEP },
        }
    }

    /// Texture units without textures.
    pub open spec fn no_textures() -> Seq<TextureUnit> {
        Seq::new(TEXTURE_UNITS as nat, |i: int| TextureUnit { target: TEXTURE_2D, texture: 0 })
    }

    /// The commands that bring the switches of the pipeline in line with
    /// `params`, in the order in which the cache sets them.
    pub open spec fn draw_commands(self, params: DrawParameters) -> Seq<Command> {
        Seq::<Command>::empty() + option_seq(
            on_change(self.blend != params.blend, switch(Capability::Blend, params.blend)),
        ) + option_seq(
            on_change(
                self.depth_test != params.depth_test,
                switch(Capability::DepthTest, params.depth_test),
            ),
        ) + option_seq(
            on_change(self.depth_write != params.depth_write, Command::DepthMask(params.depth_write)),
        ) + option_seq(
            on_change(self.color_write != params.color_write, Command::ColorMask(params.color_write)),
        ) + option_seq(
            on_change(
                self.stencil_test != params.stencil_test,
                switch(Capability::StencilTest, params.stencil_test),
            ),
        ) + option_seq(
            on_change(self.cull_face != params.cull_face, Command::CullFace(params.cull_face)),
        ) + option_seq(
            on_change(self.culling != params.culling, switch(Capability::CullFace, params.culling)),
        )
    }

    /// The cache with the switches of `params`.
    pub open spec fn with_draw_parameters(self, params: DrawParameters) -> StateView {
        StateView {
            blend: params.blend,
            depth_test: params.depth_test,
            depth_write: params.depth_write,
            color_write: params.color_write,
            stencil_test: params.stencil_test,
            cull_face: params.cull_face,
            culling: params.culling,
            ..self
        }
    }
}

/// The sequence of the one command, or of none.
pub open spec fn option_seq(command: Option<Command>) -> Seq<Command> {
    match command {
        Some(c) => seq![c],
        None => Seq::empty(),
    }
}

/// The cache of the state of the pipeline.
pub struct State {
    blend: bool,
    depth_test: bool,
    depth_write: bool,
    color_write: ColorMask,
    stencil_test: bool,
    cull_face: CullFace,
    culling: bool,
    stencil_mask: u32,
    clear_color: Color,
    clear_stencil: i32,
    framebuffer: u32,
    viewport: Rect,
    blend_src_factor: u32,
    blend_dst_factor: u32,
    program: u32,
    texture_units: Vec<TextureUnit>,
    stencil_func: StencilFunc,
    stencil_op: StencilOp,
}

impl View for State {
    type V = StateView;

    closed spec fn view(&self) -> StateView {
        StateView {
            blend: self.blend,
            depth_test: self.depth_test,
            depth_write: self.depth_write,
            color_write: self.color_write,
            stencil_test: self.stencil_test,
            cull_face: self.cull_face,
            culling: self.culling,
            stencil_mask: self.stencil_mask,
            clear_color: self.clear_color,
            clear_stencil: self.clear_stencil,
            framebuffer: self.framebuffer,
            viewport: self.viewport,
            blend_src_factor: self.blend_src_factor,
            blend_dst_factor: self.blend_dst_factor,
            program: self.program,
            texture_units: self.texture_units@,
            stencil_func: self.stencil_func,
            stencil_op: self.stencil_op,
        }
    }
}

/// Texture units without textures.
fn no_textures() -> (units: Vec<TextureUnit>)
    ensures
        units@ == StateView::no_textures(),
{
    let mut units: Vec<TextureUnit> = Vec::new();
    while units.len() < TEXTURE_UNITS
        invariant
            units.len() <= TEXTURE_UNITS,
            forall|i: int|
                0 <= i < units.len() ==> units@[i] == (TextureUnit {
                    target: TEXTURE_2D,
                    texture: 0,
                }),
        decreases TEXTURE_UNITS - units.len(),
    {
        units.push(TextureUnit::default());
    }
    assert(units@ =~= StateView::no_textures());
    units
}

impl State {
    /// The invariant of the cache: it keeps track of all the texture units.
    pub open spec fn wf(&self) -> bool {
        self@.texture_units.len() == TEXTURE_UNITS
    }

    /// The cache for a pipeline that has not been told anything yet.
    pub fn new() -> (s: State)
        ensures
            s.wf(),
            s@ == StateView::initial(),
    {
        State {
            blend: false,
            depth_test: false,
            depth_write: true,
            color_write: ColorMask::default(),
            stencil_test: false,
            cull_face: CullFace::Back,
            culling: false,
            stencil_mask: 0xFFFF_FFFF,
            clear_color: Color::from_rgba(0, 0, 0, 0),
            clear_stencil: 0,
            framebuffer: 0,
            viewport: Rect { x: 0, y: 0, w: 1, h: 1 },
            blend_src_factor: ONE,
            blend_dst_factor: ZERO,
            program: 0,
            texture_units: no_textures(),
            stencil_func: StencilFunc::default(),
            stencil_op: StencilOp::default(),
        }
    }

    pub fn set_framebuffer(&mut self, framebuffer: u32) -> (r: Option<Command>)
        ensures
            final(self)@ == (StateView { framebuffer, ..old(self)@ }),
            r == on_change(old(self)@.framebuffer != framebuffer, Command::BindFramebuffer(framebuffer)),
    {
        if self.framebuffer != framebuffer {
            self.framebuffer = framebuffer;
            Some(Command::BindFramebuffer(framebuffer))
        } else {
            None
        }
    }

    pub fn set_viewport(&mut self, viewport: Rect) -> (r: Option<Command>)
        ensures
            final(self)@ == (StateView { viewport, ..old(self)@ }),
            r == on_change(old(self)@.viewport != viewport, Command::Viewport(viewport)),
    {
        if self.viewport != viewport {
            self.viewport = viewport;
            Some(Command::Viewport(viewport))
        } else {
            None
        }
    }

    pub fn set_blend(&mut self, blend: bool) -> (r: Option<Command>)
        ensures
            final(self)@ == (StateView { blend, ..old(self)@ }),
            r == on_change(old(self)@.blend != blend, switch(Capability::Blend, blend)),
    {
        if self.blend != blend {
            self.blend = blend;
            if blend {
                Some(Command::Enable(Capability::Blend))
            } else {
                Some(Command::Disable(Capability::Blend))
            }
        } else {
            None
        }
    }

    pub fn set_depth_test(&mut self, depth_test: bool) -> (r: Option<Command>)
        ensures
            final(self)@ == (StateView { depth_test, ..old(self)@ }),
            r == on_change(
                old(self)@.depth_test != depth_test,
                switch(Capability::DepthTest, depth_test),
            ),
    {
        if self.depth_test != depth_test {
            self.depth_test = depth_test;
            if depth_test {
                Some(Command::Enable(Capability::DepthTest))
            } else {
                Some(Command::Disable(Capability::DepthTest))
            }
        } else {
            None
        }
    }

    pub fn set_depth_write(&mut self, depth_write: bool) -> (r: Option<Command>)
        ensures
            final(self)@ == (StateView { depth_write, ..old(self)@ }),
            r == on_change(old(self)@.depth_write != depth_write, Command::DepthMask(depth_write)),
    {
        if self.depth_write != depth_write {
            self.depth_write = depth_write;
            Some(Command::DepthMask(depth_write))
        } else {
            None
        }
    }

    pub fn set_color_write(&mut self, color_write: ColorMask) -> (r: Option<Command>)
        ensures
            final(self)@ == (StateView { color_write, ..old(self)@ }),
            r == on_change(old(self)@.color_write != color_write, Command::ColorMask(color_write)),
    {
        if self.color_write != color_write {
            self.color_write = color_write;
            Some(Command::ColorMask(color_write))
        } else {
            None
        }
    }

    pub fn set_stencil_test(&mut self, stencil_test: bool) -> (r: Option<Command>)
        ensures
            final(self)@ == (StateView { stencil_test, ..old(self)@ }),
            r == on_change(
                old(self)@.stencil_test != stencil_test,
                switch(Capability::StencilTest, stencil_test),
            ),
    {
        if self.stencil_test != stencil_test {
            self.stencil_test = stencil_test;
            if stencil_test {
                Some(Command::Enable(Capability::StencilTest))
            } else {
                Some(Command::Disable(Capability::StencilTest))
            }
        } else {
            None
        }
    }

    pub fn set_cull_face(&mut self, cull_face: CullFace) -> (r: Option<Command>)
        ensures
            final(self)@ == (StateView { cull_face, ..old(self)@ }),
            r == on_change(old(self)@.cull_face != cull_face, Command::CullFace(cull_face)),
    {
        if self.cull_face != cull_face {
            self.cull_face = cull_face;
            Some(Command::CullFace(cull_face))
        } else {
            None
        }
    }

    pub fn set_culling(&mut self, culling: bool) -> (r: Option<Command>)
        ensures
            final(self)@ == (StateView { culling, ..old(self)@ }),
            r == on_change(old(self)@.culling != culling, switch(Capability::CullFace, culling)),
    {
        if self.culling != culling {
            self.culling = culling;
            if culling {
                Some(Command::Enable(Capability::CullFace))
            } else {
                Some(Command::Disable(Capability::CullFace))
            }
        } else {
            None
        }
    }

    pub fn set_stencil_mask(&mut self, stencil_mask: u32) -> (r: Option<Command>)
        ensures
            final(self)@ == (StateView { stencil_mask, ..old(self)@ }),
            r == on_change(old(self)@.stencil_mask != stencil_mask, Command::StencilMask(stencil_mask)),
    {
        if self.stencil_mask != stencil_mask {
            self.stencil_mask = stencil_mask;
            Some(Command::StencilMask(stencil_mask))
        } else {
            None
        }
    }

    pub fn set_clear_color(&mut self, color: Color) -> (r: Option<Command>)
        ensures
            final(self)@ == (StateView { clear_color: color, ..old(self)@ }),
            r == on_change(old(self)@.clear_color != color, Command::ClearColor(color)),
    {
        if self.clear_color != color {
            self.clear_color = color;
            Some(Command::ClearColor(color))
        } else {
            None
        }
    }

    pub fn set_clear_stencil(&mut self, stencil: i32) -> (r: Option<Command>)
        ensures
            final(self)@ == (StateView { clear_stencil: stencil, ..old(self)@ }),
            r == on_change(old(self)@.clear_stencil != stencil, Command::ClearStencil(stencil)),
    {
        if self.clear_stencil != stencil {
            self.clear_stencil = stencil;
            Some(Command::ClearStencil(stencil))
        } else {
            None
        }
    }

    pub fn set_blend_func(&mut self, sfactor: u32, dfactor: u32) -> (r: Option<Command>)
        ensures
            final(self)@ == (StateView {
                blend_src_factor: sfactor,
                blend_dst_factor: dfactor,
                ..old(self)@
            }),
            r == on_change(
                old(self)@.blend_src_factor != sfactor || old(self)@.blend_dst_factor != dfactor,
                (Command::BlendFunc { source: sfactor, destination: dfactor }),
            ),
    {
        if self.blend_src_factor != sfactor || self.blend_dst_factor != dfactor {
            self.blend_src_factor = sfactor;
            self.blend_dst_factor = dfactor;
            Some(Command::BlendFunc { source: sfactor, destination: dfactor })
        } else {
            None
        }
    }

    pub fn set_program(&mut self, program: u32) -> (r: Option<Command>)
        ensures
            final(self)@ == (StateView { program, ..old(self)@ }),
            r == on_change(old(self)@.program != program, Command::UseProgram(program)),
    {
        if self.program != program {
            self.program = program;
            Some(Command::UseProgram(program))
        } else {
            None
        }
    }

    /// Binds `texture` to the texture unit `sampler_index` at `target`.
    pub fn set_texture(&mut self, sampler_index: usize, target: u32, texture: u32) -> (r: Option<
        Command,
    >)
        requires
            old(self).wf(),
            sampler_index < TEXTURE_UNITS,
        ensures
            final(self).wf(),
            final(self)@ == (StateView {
                texture_units: old(self)@.texture_units.update(
                    sampler_index as int,
                    (TextureUnit { target, texture }),
                ),
                ..old(self)@
            }),
            r == on_change(
                old(self)@.texture_units[sampler_index as int] != (TextureUnit { target, texture }),
                (Command::BindTexture { unit: sampler_index, target, texture }),
            ),
    {
        let unit = self.texture_units[sampler_index];
        if unit.target != target || unit.texture != texture {
            self.texture_units[sampler_index] = TextureUnit { target, texture };
            Some(Command::BindTexture { unit: sampler_index, target, texture })
        } else {
            assert(self@.texture_units =~= old(self)@.texture_units.update(
                sampler_index as int,
                TextureUnit { target, texture },
            ));
            None
        }
    }

    pub fn set_stencil_func(&mut self, func: StencilFunc) -> (r: Option<Command>)
        ensures
            final(self)@ == (StateView { stencil_func: func, ..old(self)@ }),
            r == on_change(old(self)@.stencil_func != func, Command::StencilFunc(func)),
    {
        if self.stencil_func != func {
            self.stencil_func = func;
            Some(Command::StencilFunc(func))
        } else {
            None
        }
    }

    pub fn set_stencil_op(&mut self, op: StencilOp) -> (r: Option<Command>)
        ensures
            final(self)@ == (StateView { stencil_op: op, ..old(self)@ }),
            r == on_change(old(self)@.stencil_op != op, Command::StencilOp(op)),
    {
        if self.stencil_op != op {
            self.stencil_op = op;
            Some(Command::StencilOp(op))
        } else {
            None
        }
    }

    /// Forgets which program and which textures are bound, so that the next
    /// binding of any of them is handed on to the pipeline unless it is the
    /// binding of nothing.
    pub fn invalidate_resource_bindings_cache(&mut self)
        ensures
            final(self).wf(),
            final(self)@ == (StateView {
                texture_units: StateView::no_textures(),
                program: 0,
                ..old(self)@
            }),
    {
        self.texture_units = no_textures();
        self.program = 0;
    }

    /// Sets the switches of the pipeline as `draw_params` has them, and
    /// returns the commands that bring the pipeline in line.
    pub fn apply_draw_parameters(&mut self, draw_params: &DrawParameters) -> (r: Vec<Command>)
        ensures
            final(self)@ == old(self)@.with_draw_parameters(*draw_params),
            r@ == old(self)@.draw_commands(*draw_params),
    {
        let mut r: Vec<Command> = Vec::new();
        let ghost mut sent = Seq::<Command>::empty();
        let command = self.set_blend(draw_params.blend);
        proof {
            sent = sent + option_seq(command);
        }
        push_command(&mut r, command);
        let command = self.set_depth_test(draw_params.depth_test);
        proof {
            sent = sent + option_seq(command);
        }
        push_command(&mut r, command);
        let command = self.set_depth_write(draw_params.depth_write);
        proof {
            sent = sent + option_seq(command);
        }
        push_command(&mut r, command);
        let command = self.set_color_write(draw_params.color_write);
        proof {
            sent = sent + option_seq(command);
        }
        push_command(&mut r, command);
        let command = self.set_stencil_test(draw_params.stencil_test);
        proof {
            sent = sent + option_seq(command);
        }
        push_command(&mut r, command);
        let command = self.set_cull_face(draw_params.cull_face);
        proof {
            sent = sent + option_seq(command);
        }
        push_command(&mut r, command);
        let command = self.set_culling(draw_params.culling);
        proof {
            sent = sent + option_seq(command);
        }
        push_command(&mut r, command);
        assert(r@ == sent);
        r
    }
}

/// Appends the command, if there is one.
fn push_command(commands: &mut Vec<Command>, command: Option<Command>)
    ensures
        final(commands)@ == old(commands)@ + option_seq(command),
{
    match command {
        Some(c) => {
            commands.push(c);
            assert(commands@ =~= old(commands)@ + option_seq(command));
        },
        None => {
            assert(commands@ =~= old(commands)@ + option_seq(command));
        },
    }
}

} // verus!
