//! A description of the resources that a render pipeline binds, in groups.
use vstd::prelude::*;

verus! {

/// The bind groups of a pipeline, in slot order.
#[derive(Hash)]
pub struct PipelineLayout {
    pub bind_groups: Vec<BindGroup>,
}

impl PipelineLayout {
    /// A layout with no bind groups.
    pub fn new() -> (r: PipelineLayout)
        ensures
            r.bind_groups@.len() == 0,
    {
        PipelineLayout { bind_groups: Vec::new() }
    }
}

/// The bindings of one group, in binding order.
#[derive(Hash)]
pub struct BindGroup {
    pub bindings: Vec<Binding>,
}

/// One named resource binding.
#[derive(Hash)]
pub struct Binding {
    pub name: String,
    pub bind_type: BindType,
}

/// The kind of resource bound.
#[derive(Hash)]
pub enum BindType {
    Uniform { dynamic: bool, properties: Vec<UniformProperty> },
    Buffer { dynamic: bool, readonly: bool },
    Sampler,
    SampledTexture { multisampled: bool, dimension: TextureDimension },
    StorageTexture { dimension: TextureDimension },
}

/// One named field of a uniform block.
#[derive(Hash)]
pub struct UniformProperty {
    pub name: String,
    pub property_type: UniformPropertyType,
}

/// The type of a uniform field.
#[derive(Hash)]
pub enum UniformPropertyType {
    Int,
    Float,
    UVec4,
    Vec3,
    Vec4,
    Mat4,
    Struct(Vec<UniformPropertyType>),
    Array(Box<UniformPropertyType>, usize),
}

/// The dimensionality of a texture binding.
#[derive(Copy, Clone, Debug, Hash, PartialEq, Eq, Structural)]
pub enum TextureDimension {
    D1,
    D2,
    D2Array,
    Cube,
    CubeArray,
    D3,
}

} // verus!
