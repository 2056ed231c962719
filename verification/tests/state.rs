use scene_graph::state::{
    bool_to_gl_bool, Capability, Color, ColorMask, Command, CullFace, DrawParameters, Rect, State,
    StencilFunc, StencilOp, TextureUnit, ALWAYS, KEEP, TEXTURE_2D,
};

#[test]
fn color_mask_all_sets_every_channel() {
    assert_eq!(
        ColorMask::all(true),
        ColorMask { red: true, green: true, blue: true, alpha: true }
    );
    assert_eq!(
        ColorMask::all(false),
        ColorMask { red: false, green: false, blue: false, alpha: false }
    );
    assert_eq!(ColorMask::default(), ColorMask::all(true));
}

#[test]
fn defaults_are_the_defaults_of_the_pipeline() {
    assert_eq!(StencilFunc::default(), StencilFunc { func: ALWAYS, ref_value: 0, mask: 0xFFFF_FFFF });
    assert_eq!(StencilOp::default(), StencilOp { fail: KEEP, zfail: KEEP, zpass: KEEP });
    assert_eq!(TextureUnit::default(), TextureUnit { target: TEXTURE_2D, texture: 0 });
    assert_eq!(ALWAYS, 0x0207);
    assert_eq!(KEEP, 0x1E00);
    assert_eq!(TEXTURE_2D, 0x0DE1);
    assert_eq!(bool_to_gl_bool(true), 1);
    assert_eq!(bool_to_gl_bool(false), 0);
}

#[test]
fn a_setter_speaks_only_when_the_value_is_new() {
    let mut state = State::new();
    assert_eq!(state.set_blend(false), None);
    assert_eq!(state.set_blend(true), Some(Command::Enable(Capability::Blend)));
    assert_eq!(state.set_blend(true), None);
    assert_eq!(state.set_blend(false), Some(Command::Disable(Capability::Blend)));
    assert_eq!(state.set_depth_test(true), Some(Command::Enable(Capability::DepthTest)));
    assert_eq!(state.set_depth_test(true), None);
    assert_eq!(state.set_stencil_test(true), Some(Command::Enable(Capability::StencilTest)));
    assert_eq!(state.set_stencil_test(false), Some(Command::Disable(Capability::StencilTest)));
    assert_eq!(state.set_culling(true), Some(Command::Enable(Capability::CullFace)));
    assert_eq!(state.set_culling(true), None);
}

#[test]
fn the_first_values_are_those_of_a_fresh_pipeline() {
    let mut state = State::new();
    assert_eq!(state.set_depth_write(true), None);
    assert_eq!(state.set_depth_write(false), Some(Command::DepthMask(false)));
    assert_eq!(state.set_color_write(ColorMask::all(true)), None);
    assert_eq!(
        state.set_color_write(ColorMask::all(false)),
        Some(Command::ColorMask(ColorMask::all(false)))
    );
    assert_eq!(state.set_cull_face(CullFace::Back), None);
    assert_eq!(state.set_cull_face(CullFace::Front), Some(Command::CullFace(CullFace::Front)));
    assert_eq!(state.set_stencil_mask(0xFFFF_FFFF), None);
    assert_eq!(state.set_stencil_mask(1), Some(Command::StencilMask(1)));
    assert_eq!(state.set_clear_color(Color::from_rgba(0, 0, 0, 0)), None);
    assert_eq!(
        state.set_clear_color(Color::from_rgba(1, 2, 3, 4)),
        Some(Command::ClearColor(Color { r: 1, g: 2, b: 3, a: 4 }))
    );
    assert_eq!(state.set_clear_stencil(0), None);
    assert_eq!(state.set_clear_stencil(-1), Some(Command::ClearStencil(-1)));
    assert_eq!(state.set_framebuffer(0), None);
    assert_eq!(state.set_framebuffer(3), Some(Command::BindFramebuffer(3)));
    assert_eq!(state.set_viewport(Rect { x: 0, y: 0, w: 1, h: 1 }), None);
    assert_eq!(
        state.set_viewport(Rect { x: 0, y: 0, w: 640, h: 480 }),
        Some(Command::Viewport(Rect { x: 0, y: 0, w: 640, h: 480 }))
    );
    assert_eq!(state.set_program(0), None);
    assert_eq!(state.set_program(9), Some(Command::UseProgram(9)));
    assert_eq!(state.set_stencil_func(StencilFunc::default()), None);
    let func = StencilFunc { func: 1, ref_value: 2, mask: 3 };
    assert_eq!(state.set_stencil_func(func), Some(Command::StencilFunc(func)));
    assert_eq!(state.set_stencil_op(StencilOp::default()), None);
    let op = StencilOp { fail: 1, zfail: 2, zpass: 3 };
    assert_eq!(state.set_stencil_op(op), Some(Command::StencilOp(op)));
}

#[test]
fn the_blend_function_speaks_when_either_factor_is_new() {
    let mut state = State::new();
    assert_eq!(state.set_blend_func(1, 0), None);
    assert_eq!(
        state.set_blend_func(1, 5),
        Some(Command::BlendFunc { source: 1, destination: 5 })
    );
    assert_eq!(
        state.set_blend_func(4, 5),
        Some(Command::BlendFunc { source: 4, destination: 5 })
    );
    assert_eq!(state.set_blend_func(4, 5), None);
}

#[test]
fn textures_are_tracked_by_unit() {
    let mut state = State::new();
    assert_eq!(state.set_texture(0, TEXTURE_2D, 0), None);
    assert_eq!(
        state.set_texture(0, TEXTURE_2D, 7),
        Some(Command::BindTexture { unit: 0, target: TEXTURE_2D, texture: 7 })
    );
    assert_eq!(state.set_texture(0, TEXTURE_2D, 7), None);
    assert_eq!(
        state.set_texture(31, TEXTURE_2D, 7),
        Some(Command::BindTexture { unit: 31, target: TEXTURE_2D, texture: 7 })
    );
    assert_eq!(
        state.set_texture(0, 5, 7),
        Some(Command::BindTexture { unit: 0, target: 5, texture: 7 })
    );
}

#[test]
fn invalidating_forgets_program_and_textures() {
    let mut state = State::new();
    state.set_program(9);
    state.set_texture(3, TEXTURE_2D, 7);
    state.set_blend(true);
    state.invalidate_resource_bindings_cache();
    assert_eq!(state.set_program(9), Some(Command::UseProgram(9)));
    assert_eq!(
        state.set_texture(3, TEXTURE_2D, 7),
        Some(Command::BindTexture { unit: 3, target: TEXTURE_2D, texture: 7 })
    );
    assert_eq!(state.set_blend(true), None);
}

#[test]
fn draw_parameters_give_the_commands_in_order() {
    let mut state = State::new();
    let params = DrawParameters {
        cull_face: CullFace::Front,
        culling: true,
        color_write: ColorMask::all(false),
        depth_write: false,
        stencil_test: true,
        depth_test: true,
        blend: true,
    };
    let commands = state.apply_draw_parameters(&params);
    assert_eq!(
        commands,
        vec![
            Command::Enable(Capability::Blend),
            Command::Enable(Capability::DepthTest),
            Command::DepthMask(false),
            Command::ColorMask(ColorMask::all(false)),
            Command::Enable(Capability::StencilTest),
            Command::CullFace(CullFace::Front),
            Command::Enable(Capability::CullFace),
        ]
    );
    assert_eq!(state.apply_draw_parameters(&params), vec![]);
    let other = DrawParameters { blend: false, culling: false, ..params };
    assert_eq!(
        state.apply_draw_parameters(&other),
        vec![Command::Disable(Capability::Blend), Command::Disable(Capability::CullFace)]
    );
}
