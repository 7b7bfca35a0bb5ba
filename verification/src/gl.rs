//! The computing side of the OpenGL wrapper: enum values, vertex layouts, texture
//! regions and mipmap counts. The calls into the driver stay with the caller.
use vstd::prelude::*;

verus! {

/// OpenGL's value of `COLOR_ATTACHMENT0`.
pub const COLOR_ATTACHMENT0: u32 = 0x8CE0;

/// OpenGL's value of `DEPTH_ATTACHMENT`.
pub const DEPTH_ATTACHMENT: u32 = 0x8D00;

/// OpenGL's value of `STENCIL_ATTACHMENT`.
pub const STENCIL_ATTACHMENT: u32 = 0x8D20;

/// OpenGL's value of `DEPTH_STENCIL_ATTACHMENT`.
pub const DEPTH_STENCIL_ATTACHMENT: u32 = 0x821A;

/// OpenGL's value of `BYTE`.
pub const BYTE: u32 = 0x1400;

/// OpenGL's value of `UNSIGNED_BYTE`.
pub const UNSIGNED_BYTE: u32 = 0x1401;

/// OpenGL's value of `SHORT`.
pub const SHORT: u32 = 0x1402;

/// OpenGL's value of `UNSIGNED_SHORT`.
pub const UNSIGNED_SHORT: u32 = 0x1403;

/// OpenGL's value of `INT`.
pub const INT: u32 = 0x1404;

/// OpenGL's value of `UNSIGNED_INT`.
pub const UNSIGNED_INT: u32 = 0x1405;

/// OpenGL's value of `FLOAT`.
pub const FLOAT: u32 = 0x1406;

/// OpenGL's value of `DOUBLE`.
pub const DOUBLE: u32 = 0x140A;

/// OpenGL's value of `HALF_FLOAT`.
pub const HALF_FLOAT: u32 = 0x140B;

/// A framebuffer attachment point.
#[derive(Clone, Copy, Debug, PartialEq, Eq, Structural)]
pub enum FramebufferAttachment {
    Color(u32),
    Depth,
    Stencil,
    DepthStencil,
}

/// The OpenGL value of an attachment point.
pub open spec fn attachment_value(a: FramebufferAttachment) -> int {
    match a {
        FramebufferAttachment::Color(i) => 0x8CE0 + i,
        FramebufferAttachment::Depth => 0x8D00,
        FramebufferAttachment::Stencil => 0x8D20,
        FramebufferAttachment::DepthStencil => 0x821A,
    }
}

impl FramebufferAttachment {
    /// The OpenGL value: `COLOR_ATTACHMENT0 + i` for colour attachment `i`.
    pub fn raw(self) -> (v: u32)
        requires
            self matches FramebufferAttachment::Color(i) ==> 0x8CE0 + i <= u32::MAX,
        ensures
            v == attachment_value(self),
    {
        match self {
            FramebufferAttachment::Color(i) => COLOR_ATTACHMENT0 + i,
            FramebufferAttachment::Depth => DEPTH_ATTACHMENT,
            FramebufferAttachment::Stencil => STENCIL_ATTACHMENT,
            FramebufferAttachment::DepthStencil => DEPTH_STENCIL_ATTACHMENT,
        }
    }
}

/// The type of the components of a vertex attribute or a pixel.
#[derive(Clone, Copy, Debug, PartialEq, Eq, Structural)]
pub enum DataType {
    I8,
    U8,
    I16,
    U16,
    I32,
    U32,
    F16,
    F32,
    F64,
}

/// The number of bytes of one component, as the renderer counts them.
pub open spec fn data_type_size(t: DataType) -> int {
    match t {
        DataType::I8 => 1,
        DataType::U8 => 1,
        DataType::I16 => 2,
        DataType::U16 => 2,
        DataType::I32 => 4,
        DataType::U32 => 4,
        DataType::F16 => 1,
        DataType::F32 => 4,
        DataType::F64 => 8,
    }
}

/// The OpenGL value of a data type.
pub open spec fn data_type_value(t: DataType) -> int {
    match t {
        DataType::I8 => 0x1400,
        DataType::U8 => 0x1401,
        DataType::I16 => 0x1402,
        DataType::U16 => 0x1403,
        DataType::I32 => 0x1404,
        DataType::U32 => 0x1405,
        DataType::F16 => 0x140B,
        DataType::F32 => 0x1406,
        DataType::F64 => 0x140A,
    }
}

impl DataType {
    pub fn raw(self) -> (v: u32)
        ensures
            v == data_type_value(self),
    {
        match self {
            DataType::I8 => BYTE,
            DataType::U8 => UNSIGNED_BYTE,
            DataType::I16 => SHORT,
            DataType::U16 => UNSIGNED_SHORT,
            DataType::I32 => INT,
            DataType::U32 => UNSIGNED_INT,
            DataType::F16 => HALF_FLOAT,
            DataType::F32 => FLOAT,
            DataType::F64 => DOUBLE,
        }
    }

    pub fn size(self) -> (s: u32)
        ensures
            s == data_type_size(self),
    {
        match self {
            DataType::I8 => 1,
            DataType::U8 => 1,
            DataType::I16 => 2,
            DataType::U16 => 2,
            DataType::I32 => 4,
            DataType::U32 => 4,
            DataType::F16 => 1,
            DataType::F32 => 4,
            DataType::F64 => 8,
        }
    }
}

/// One attribute of a vertex layout: its location, component type and count.
#[derive(Clone, Copy, Debug, PartialEq, Eq, Structural)]
pub enum VertexArrayAttribute {
    Float(u32, DataType, u32, bool),
    Integer(u32, DataType, u32),
    Double(u32, DataType, u32),
}

/// The number of bytes an attribute takes in a vertex.
pub open spec fn attribute_size(a: VertexArrayAttribute) -> int {
    match a {
        VertexArrayAttribute::Float(_, t, n, _) => data_type_size(t) * n,
        VertexArrayAttribute::Integer(_, t, n) => data_type_size(t) * n,
        VertexArrayAttribute::Double(_, t, n) => data_type_size(t) * n,
    }
}

/// The location of an attribute.
pub open spec fn attribute_id(a: VertexArrayAttribute) -> int {
    match a {
        VertexArrayAttribute::Float(id, _, _, _) => id as int,
        VertexArrayAttribute::Integer(id, _, _) => id as int,
        VertexArrayAttribute::Double(id, _, _) => id as int,
    }
}

/// The bytes taken by the first `n` attributes of a layout.
pub open spec fn attributes_size(attributes: Seq<VertexArrayAttribute>, n: int) -> int
    decreases n,
{
    if n <= 0 {
        0
    } else {
        attributes_size(attributes, n - 1) + attribute_size(attributes[n - 1])
    }
}

impl VertexArrayAttribute {
    pub fn size(self) -> (s: u32)
        requires
            attribute_size(self) <= u32::MAX,
        ensures
            s == attribute_size(self),
    {
        match self {
            VertexArrayAttribute::Float(_, data_type, size, _) => data_type.size() * size,
            VertexArrayAttribute::Integer(_, data_type, size) => data_type.size() * size,
            VertexArrayAttribute::Double(_, data_type, size) => data_type.size() * size,
        }
    }

    pub fn id(self) -> (id: u32)
        ensures
            id == attribute_id(self),
    {
        match self {
            VertexArrayAttribute::Float(id, _, _, _) => id,
            VertexArrayAttribute::Integer(id, _, _) => id,
            VertexArrayAttribute::Double(id, _, _) => id,
        }
    }
}

/// The stride of an interleaved vertex layout and the offset of each attribute in
/// it: the attributes follow each other in order, without gaps.
pub fn attribute_layout(bindings: &[VertexArrayAttribute]) -> (layout: (i32, Vec<i32>))
    requires
        attributes_size(bindings@, bindings@.len() as int) <= i32::MAX,
    ensures
        layout.0 == attributes_size(bindings@, bindings@.len() as int),
        layout.1@.len() == bindings@.len(),
        forall|i: int| 0 <= i < bindings@.len() ==> #[trigger] layout.1@[i] == attributes_size(bindings@, i),
{
    let ghost total = attributes_size(bindings@, bindings@.len() as int);
    let mut offsets: Vec<i32> = Vec::new();
    let mut offset: i32 = 0;
    let mut i: usize = 0;
    proof {
        lemma_attributes_size_monotone(bindings@, bindings@.len() as int);
    }
    while i < bindings.len()
        invariant
            i <= bindings@.len(),
            total == attributes_size(bindings@, bindings@.len() as int),
            total <= i32::MAX,
            forall|j: int| 0 <= j <= bindings@.len() ==> attributes_size(bindings@, j) <= total,
            forall|j: int| 0 <= j <= bindings@.len() ==> 0 <= #[trigger] attributes_size(bindings@, j),
            offset == attributes_size(bindings@, i as int),
            offsets@.len() == i,
            forall|j: int| 0 <= j < i ==> #[trigger] offsets@[j] == attributes_size(bindings@, j),
        decreases bindings.len() - i,
    {
        offsets.push(offset);
        assert(attributes_size(bindings@, i + 1) == offset + attribute_size(bindings@[i as int]));
        assert(attributes_size(bindings@, i + 1) <= total);
        assert(0 <= attribute_size(bindings@[i as int]));
        let size = bindings[i].size();
        offset = offset + size as i32;
        i = i + 1;
    }
    (offset, offsets)
}

/// Attribute sizes are not negative, so the running total only grows.
proof fn lemma_attributes_size_monotone(attributes: Seq<VertexArrayAttribute>, n: int)
    requires
        n >= 0,
    ensures
        forall|j: int| 0 <= j <= n ==> 0 <= #[trigger] attributes_size(attributes, j),
        forall|j: int| 0 <= j <= n ==> attributes_size(attributes, j) <= attributes_size(attributes, n),
    decreases n,
{
    if n > 0 {
        lemma_attributes_size_monotone(attributes, n - 1);
        let a = attributes[n - 1];
        lemma_attribute_size_nonnegative(a);
        assert(attributes_size(attributes, n) == attributes_size(attributes, n - 1) + attribute_size(a));
    }
}

proof fn lemma_attribute_size_nonnegative(a: VertexArrayAttribute)
    ensures
        0 <= attribute_size(a),
{
    let (t, c) = match a {
        VertexArrayAttribute::Float(_, t, c, _) => (t, c),
        VertexArrayAttribute::Integer(_, t, c) => (t, c),
        VertexArrayAttribute::Double(_, t, c) => (t, c),
    };
    let z = data_type_size(t);
    assert(attribute_size(a) == z * c);
    assert(0 <= z * c) by (nonlinear_arith)
        requires
            1 <= z,
            0 <= c,
    ;
}

/// Whether vertex attributes advance per vertex or per instance.
#[derive(Clone, Copy, Debug, PartialEq, Eq, Structural)]
pub enum VertexStepMode {
    Vertex,
    Instance,
}

impl VertexStepMode {
    /// The attribute divisor: 0 per vertex, 1 per instance.
    pub fn divisor(self) -> (d: u32)
        ensures
            d == (match self {
                VertexStepMode::Vertex => 0u32,
                VertexStepMode::Instance => 1u32,
            }),
    {
        match self {
            VertexStepMode::Vertex => 0,
            VertexStepMode::Instance => 1,
        }
    }
}

/// A rectangle of a 2D texture.
#[derive(Clone, Copy, Debug, PartialEq, Eq, Structural)]
pub struct Region2d {
    pub x: u32,
    pub y: u32,
    pub width: u32,
    pub height: u32,
}

impl Region2d {
    /// The rectangle of the given size at the origin.
    pub fn dimensions(width: u32, height: u32) -> (r: Region2d)
        ensures
            r == (Region2d { x: 0, y: 0, width, height }),
    {
        Region2d { x: 0, y: 0, width, height }
    }
}

/// A box of a 3D or array texture.
#[derive(Clone, Copy, Debug, PartialEq, Eq, Structural)]
pub struct Region3d {
    pub x: u32,
    pub y: u32,
    pub z: u32,
    pub width: u32,
    pub height: u32,
    pub depth: u32,
}

impl Region3d {
    /// Layer `index` of an array texture, whole, of the given size.
    pub fn slice2d(width: u32, height: u32, index: u32) -> (r: Region3d)
        ensures
            r == (Region3d { x: 0, y: 0, z: index, width, height, depth: 1 }),
    {
        Region3d { x: 0, y: 0, z: index, width, height, depth: 1 }
    }
}

/// How many mipmap levels a texture gets: the full chain, only the base level, or
/// a given number of levels (at least 1).
#[derive(Clone, Copy, Debug, PartialEq, Eq, Structural)]
pub enum MipmapLevels {
    Full,
    BaseOnly,
    Custom(u32),
}

/// The size of a 2D texture, or of an array texture with its number of layers.
#[derive(Clone, Copy, Debug, PartialEq, Eq, Structural)]
pub enum TextureType {
    Texture2d(u32, u32),
    Texture2dArray(u32, u32, u32),
}

/// `floor(log2(n))`, and 0 for `n <= 1`.
pub open spec fn floor_log2(n: nat) -> nat
    decreases n,
{
    if n <= 1 {
        0
    } else {
        1 + floor_log2(n / 2)
    }
}

/// The larger of the width and height.
pub open spec fn texture_max(t: TextureType) -> int {
    match t {
        TextureType::Texture2d(w, h) => if w >= h { w as int } else { h as int },
        TextureType::Texture2dArray(w, h, _) => if w >= h { w as int } else { h as int },
    }
}

/// `floor(log2(n))` stays below `n` for every positive `n`.
proof fn lemma_floor_log2_bound(n: nat)
    ensures
        n >= 1 ==> floor_log2(n) < n,
        floor_log2(n) <= n,
    decreases n,
{
    if n > 1 {
        lemma_floor_log2_bound(n / 2);
    }
}

impl TextureType {
    /// The larger of the width and height.
    fn max(self) -> (m: u32)
        ensures
            m == texture_max(self),
    {
        match self {
            TextureType::Texture2d(w, h) => if w >= h {
                w
            } else {
                h
            },
            TextureType::Texture2dArray(w, h, _) => if w >= h {
                w
            } else {
                h
            },
        }
    }

    /// The number of mipmap levels: `1 + floor(log2(max(width, height)))` for the
    /// full chain (1 for an empty texture), 1 for none, the given count otherwise.
    pub fn get_levels(self, levels: MipmapLevels) -> (n: u32)
        ensures
            n == (match levels {
                MipmapLevels::Full => 1 + floor_log2(texture_max(self) as nat) as int,
                MipmapLevels::BaseOnly => 1int,
                MipmapLevels::Custom(v) => v as int,
            }),
    {
        match levels {
            MipmapLevels::Full => {
                let max = self.max();
                let mut m = max;
                let mut log: u32 = 0;
                proof {
                    lemma_floor_log2_bound(max as nat);
                }
                while m > 1
                    invariant
                        max == texture_max(self),
                        floor_log2(max as nat) == floor_log2(m as nat) + log,
                        max >= 1 ==> floor_log2(max as nat) < max,
                        max == 0 ==> m == 0,
                    decreases m,
                {
                    m = m / 2;
                    log = log + 1;
                }
                1 + log
            },
            MipmapLevels::BaseOnly => 1,
            MipmapLevels::Custom(val) => val,
        }
    }
}

/// OpenGL's value of `FRAMEBUFFER_COMPLETE`.
pub const FRAMEBUFFER_COMPLETE: u32 = 0x8CD5;

/// OpenGL's value of `FRAMEBUFFER_UNDEFINED`.
pub const FRAMEBUFFER_UNDEFINED: u32 = 0x8219;

/// OpenGL's value of `FRAMEBUFFER_INCOMPLETE_ATTACHMENT`.
pub const FRAMEBUFFER_INCOMPLETE_ATTACHMENT: u32 = 0x8CD6;

/// OpenGL's value of `FRAMEBUFFER_INCOMPLETE_MISSING_ATTACHMENT`.
pub const FRAMEBUFFER_INCOMPLETE_MISSING_ATTACHMENT: u32 = 0x8CD7;

/// OpenGL's value of `FRAMEBUFFER_INCOMPLETE_DRAW_BUFFER`.
pub const FRAMEBUFFER_INCOMPLETE_DRAW_BUFFER: u32 = 0x8CDB;

/// OpenGL's value of `FRAMEBUFFER_INCOMPLETE_READ_BUFFER`.
pub const FRAMEBUFFER_INCOMPLETE_READ_BUFFER: u32 = 0x8CDC;

/// OpenGL's value of `FRAMEBUFFER_UNSUPPORTED`.
pub const FRAMEBUFFER_UNSUPPORTED: u32 = 0x8CDD;

/// OpenGL's value of `FRAMEBUFFER_INCOMPLETE_MULTISAMPLE`.
pub const FRAMEBUFFER_INCOMPLETE_MULTISAMPLE: u32 = 0x8D56;

/// OpenGL's value of `FRAMEBUFFER_INCOMPLETE_LAYER_TARGETS`.
pub const FRAMEBUFFER_INCOMPLETE_LAYER_TARGETS: u32 = 0x8DA8;

/// The explanation of a framebuffer status other than `FRAMEBUFFER_COMPLETE`.
pub open spec fn framebuffer_status_message(status: u32) -> Seq<char> {
    if status == FRAMEBUFFER_UNDEFINED {
        "The specified framebuffer is the default read or draw framebuffer, but the default framebuffer does not exist"@
    } else if status == FRAMEBUFFER_INCOMPLETE_ATTACHMENT {
        "One of the framebuffer attachment points is framebuffer incomplete"@
    } else if status == FRAMEBUFFER_INCOMPLETE_MISSING_ATTACHMENT {
        "The framebuffer does not have at least one image attached to it"@
    } else if status == FRAMEBUFFER_INCOMPLETE_DRAW_BUFFER {
        "The value of GL_FRAMEBUFFER_ATTACHMENT_OBJECT_TYPE is GL_NONE for any color attachment point(s) named by GL_DRAW_BUFFERi"@
    } else if status == FRAMEBUFFER_INCOMPLETE_READ_BUFFER {
        "GL_READ_BUFFER is not GL_NONE and the value of GL_FRAMEBUFFER_ATTACHMENT_OBJECT_TYPE is \
                        GL_NONE for the color attachment point named by GL_READ_BUFFER"@
    } else if status == FRAMEBUFFER_UNSUPPORTED {
        "The combination of internal formats of the attached images violates an implementation-dependent set of restrictions"@
    } else if status == FRAMEBUFFER_INCOMPLETE_MULTISAMPLE {
        "The value of GL_RENDERBUFFER_SAMPLES is not the same for all attached renderbuffers, \
                        the value of GL_TEXTURE_SAMPLES is the not same for all attached textures, \
                        the attached images are a mix of renderbuffers and textures, \
                        the value of GL_RENDERBUFFER_SAMPLES does not match the value of GL_TEXTURE_SAMPLES, \
                        the value of GL_TEXTURE_FIXED_SAMPLE_LOCATIONS is not the same for all attached textures, \
                        the attached images are a mix of renderbuffers and textures, or \
                        the value of GL_TEXTURE_FIXED_SAMPLE_LOCATIONS is not GL_TRUE for all attached textures."@
    } else if status == FRAMEBUFFER_INCOMPLETE_LAYER_TARGETS {
        "Any framebuffer attachment is layered, and any populated attachment is not layered, \
                        or all populated color attachments are not from textures of the same target"@
    } else {
        "An error occurred!"@
    }
}

/// Reads a framebuffer status as reported by the driver: complete, or an error
/// that explains what is wrong.
pub fn framebuffer_status(status: u32) -> (r: Result<(), String>)
    ensures
        r is Ok <==> status == FRAMEBUFFER_COMPLETE,
        r matches Err(e) ==> e@ == framebuffer_status_message(status),
{
    let message = if status == FRAMEBUFFER_COMPLETE {
        return Ok(());
    } else if status == FRAMEBUFFER_UNDEFINED {
        "The specified framebuffer is the default read or draw framebuffer, but the default framebuffer does not exist"
    } else if status == FRAMEBUFFER_INCOMPLETE_ATTACHMENT {
        "One of the framebuffer attachment points is framebuffer incomplete"
    } else if status == FRAMEBUFFER_INCOMPLETE_MISSING_ATTACHMENT {
        "The framebuffer does not have at least one image attached to it"
    } else if status == FRAMEBUFFER_INCOMPLETE_DRAW_BUFFER {
        "The value of GL_FRAMEBUFFER_ATTACHMENT_OBJECT_TYPE is GL_NONE for any color attachment point(s) named by GL_DRAW_BUFFERi"
    } else if status == FRAMEBUFFER_INCOMPLETE_READ_BUFFER {
        "GL_READ_BUFFER is not GL_NONE and the value of GL_FRAMEBUFFER_ATTACHMENT_OBJECT_TYPE is \
                        GL_NONE for the color attachment point named by GL_READ_BUFFER"
    } else if status == FRAMEBUFFER_UNSUPPORTED {
        "The combination of internal formats of the attached images violates an implementation-dependent set of restrictions"
    } else if status == FRAMEBUFFER_INCOMPLETE_MULTISAMPLE {
        "The value of GL_RENDERBUFFER_SAMPLES is not the same for all attached renderbuffers, \
                        the value of GL_TEXTURE_SAMPLES is the not same for all attached textures, \
                        the attached images are a mix of renderbuffers and textures, \
                        the value of GL_RENDERBUFFER_SAMPLES does not match the value of GL_TEXTURE_SAMPLES, \
                        the value of GL_TEXTURE_FIXED_SAMPLE_LOCATIONS is not the same for all attached textures, \
                        the attached images are a mix of renderbuffers and textures, or \
                        the value of GL_TEXTURE_FIXED_SAMPLE_LOCATIONS is not GL_TRUE for all attached textures."
    } else if status == FRAMEBUFFER_INCOMPLETE_LAYER_TARGETS {
        "Any framebuffer attachment is layered, and any populated attachment is not layered, \
                        or all populated color attachments are not from textures of the same target"
    } else {
        "An error occurred!"
    };
    Err(message.to_owned())
}

/// An error reported by the OpenGL wrapper.
#[derive(Clone, Debug)]
pub struct GlError(String);

impl GlError {
    /// The text of the error.
    pub closed spec fn reason(&self) -> Seq<char> {
        self.0@
    }

    /// An error with the given text.
    pub fn new(reason: &str) -> (e: GlError)
        ensures
            e.reason() == reason@,
    {
        GlError(reason.to_owned())
    }

    /// The text of the error.
    pub fn message(&self) -> (m: String)
        ensures
            m@ == self.reason(),
    {
        self.0.clone()
    }
}

impl From<String> for GlError {
    fn from(reason: String) -> (e: GlError) {
        GlError(reason)
    }
}

impl GlError {
    /// Converting a `String` keeps its text.
    pub proof fn lemma_from_string(reason: String)
        ensures
            <GlError as vstd::std_specs::convert::FromSpec<String>>::from_spec(reason).reason() == reason@,
    {
    }
}

impl vstd::std_specs::convert::FromSpecImpl<String> for GlError {
    open spec fn obeys_from_spec() -> bool {
        true
    }

    closed spec fn from_spec(v: String) -> GlError {
        GlError(v)
    }
}

} // verus!
