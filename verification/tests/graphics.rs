use infinity_loop::animation::AnimatedValue;
use infinity_loop::color::Rgba;
use infinity_loop::gl::{
    attribute_layout, framebuffer_status, DataType, FramebufferAttachment, GlError, MipmapLevels, Region2d, Region3d,
    TextureType, VertexArrayAttribute, VertexStepMode,
};

#[test]
fn mipmap_levels() {
    assert_eq!(TextureType::Texture2d(64, 64).get_levels(MipmapLevels::Full), 7);
    assert_eq!(TextureType::Texture2d(1280, 720).get_levels(MipmapLevels::Full), 11);
    assert_eq!(TextureType::Texture2dArray(64, 100, 8).get_levels(MipmapLevels::Full), 7);
    assert_eq!(TextureType::Texture2d(1, 1).get_levels(MipmapLevels::Full), 1);
    assert_eq!(TextureType::Texture2d(0, 0).get_levels(MipmapLevels::Full), 1);
    assert_eq!(TextureType::Texture2d(64, 64).get_levels(MipmapLevels::BaseOnly), 1);
    assert_eq!(TextureType::Texture2d(64, 64).get_levels(MipmapLevels::Custom(3)), 3);
    for n in 1..5000u32 {
        let expected = 1 + (n as f32).log2().floor() as u32;
        assert_eq!(TextureType::Texture2d(n, 1).get_levels(MipmapLevels::Full), expected);
    }
}

#[test]
fn regions() {
    assert_eq!(Region2d::dimensions(5, 6), Region2d { x: 0, y: 0, width: 5, height: 6 });
    assert_eq!(
        Region3d::slice2d(64, 32, 3),
        Region3d { x: 0, y: 0, z: 3, width: 64, height: 32, depth: 1 }
    );
}

#[test]
fn gl_values() {
    assert_eq!(FramebufferAttachment::Color(0).raw(), 0x8CE0);
    assert_eq!(FramebufferAttachment::Color(2).raw(), 0x8CE2);
    assert_eq!(FramebufferAttachment::Depth.raw(), 0x8D00);
    assert_eq!(FramebufferAttachment::Stencil.raw(), 0x8D20);
    assert_eq!(FramebufferAttachment::DepthStencil.raw(), 0x821A);
    assert_eq!(DataType::F32.raw(), 0x1406);
    assert_eq!(DataType::U16.raw(), 0x1403);
    assert_eq!(DataType::F64.size(), 8);
    assert_eq!(DataType::F16.size(), 1);
    assert_eq!(VertexStepMode::Vertex.divisor(), 0);
    assert_eq!(VertexStepMode::Instance.divisor(), 1);
}

#[test]
fn vertex_layout() {
    let bindings = [
        VertexArrayAttribute::Float(0, DataType::F32, 3, false),
        VertexArrayAttribute::Float(1, DataType::F32, 3, false),
        VertexArrayAttribute::Float(2, DataType::F32, 3, false),
        VertexArrayAttribute::Integer(3, DataType::U32, 1),
    ];
    let (stride, offsets) = attribute_layout(&bindings);
    assert_eq!(stride, 40);
    assert_eq!(offsets, vec![0, 12, 24, 36]);
    assert_eq!(bindings[3].size(), 4);
    assert_eq!(bindings[2].id(), 2);
    assert_eq!(VertexArrayAttribute::Double(5, DataType::F64, 2).size(), 16);
    let (stride, offsets) = attribute_layout(&[]);
    assert_eq!(stride, 0);
    assert!(offsets.is_empty());
}

#[test]
fn gl_errors() {
    assert_eq!(GlError::new("no context").message(), "no context");
    assert_eq!(GlError::from(String::from("bad shader")).message(), "bad shader");
}

#[test]
fn colors() {
    let c = Rgba::new(1u8, 2, 3, 4);
    assert_eq!((c.red(), c.green(), c.blue(), c.alpha()), (1, 2, 3, 4));
    assert_eq!(c.with_red(9).as_slice(), &[9, 2, 3, 4]);
    assert_eq!(c.with_green(9).as_slice(), &[1, 9, 3, 4]);
    assert_eq!(c.with_blue(9).as_slice(), &[1, 2, 9, 4]);
    assert_eq!(c.with_alpha(9).as_slice(), &[1, 2, 3, 9]);
    assert_eq!(Rgba::<u8>::default(), Rgba::new(0, 0, 0, 255));
}

#[test]
fn animated_value() {
    let mut v = AnimatedValue::new(3u32);
    assert_eq!(v.value(), 3);
    *v.target() = 8;
    assert_eq!(v.value(), 3);
    v.skip();
    assert_eq!(v.value(), 8);
    assert_eq!(*v.target(), 8);
}

#[test]
fn framebuffer_statuses() {
    assert_eq!(framebuffer_status(0x8CD5), Ok(()));
    assert_eq!(
        framebuffer_status(0x8CD7),
        Err(String::from("The framebuffer does not have at least one image attached to it"))
    );
    assert_eq!(
        framebuffer_status(0x8CD6),
        Err(String::from("One of the framebuffer attachment points is framebuffer incomplete"))
    );
    assert!(framebuffer_status(0x8D56).unwrap_err().starts_with("The value of GL_RENDERBUFFER_SAMPLES"));
    assert!(framebuffer_status(0x8DA8).unwrap_err().ends_with("textures of the same target"));
    assert_eq!(framebuffer_status(0), Err(String::from("An error occurred!")));
}
