use vstd::prelude::*;

verus! {

/// An RGBA color with 8 bits per channel, not premultiplied.
#[derive(Clone, Copy, Debug, PartialEq, Eq, Hash, Structural)]
pub struct Color {
    pub r: u8,
    pub g: u8,
    pub b: u8,
    pub a: u8,
}

impl Color {
    /// An opaque color.
    pub fn rgb(r: u8, g: u8, b: u8) -> (c: Color)
        ensures
            c == (Color { r, g, b, a: 255 }),
    {
        Color { r, g, b, a: 255 }
    }
}

/// A pixel buffer handed in by the host: `data` identifies the buffer.
#[derive(Clone, Copy, Debug, PartialEq, Eq, Hash, Structural)]
pub struct ImageRef {
    pub data: u64,
    pub width: u32,
    pub height: u32,
}

/// A texture that already lives on the rendering side.
#[derive(Clone, Copy, Debug, PartialEq, Eq, Hash, Structural)]
pub struct TextureRef {
    pub handle: u64,
    pub width: u32,
    pub height: u32,
}

/// The types that values flowing between nodes, and shared variables, can have.
#[derive(Clone, Copy, Debug, PartialEq, Eq, Hash, Structural)]
pub enum VarType {
    Nil,
    Any,
    Bool,
    Float,
    Float2,
    Color,
    String,
    Image,
    Texture,
    /// The root rendering context of one GUI tree.
    Context,
    /// The stack of active drawing surfaces.
    UiParents,
}

/// A runtime value. Floating-point numbers travel as their IEEE-754 bit
/// patterns: nothing here computes with them.
#[derive(Clone, Debug)]
pub enum Value {
    Nil,
    Bool(bool),
    Float(u64),
    Float2(u64, u64),
    Color(Color),
    Str(String),
    Image(ImageRef),
    Texture(TextureRef),
    Context(u64),
}

/// The mathematical view of a [`Value`].
pub enum ValueModel {
    Nil,
    Bool(bool),
    Float(u64),
    Float2(u64, u64),
    Color(Color),
    Str(Seq<char>),
    Image(ImageRef),
    Texture(TextureRef),
    Context(u64),
}

impl View for Value {
    type V = ValueModel;

    open spec fn view(&self) -> ValueModel {
        match self {
            Value::Nil => ValueModel::Nil,
            Value::Bool(b) => ValueModel::Bool(*b),
            Value::Float(f) => ValueModel::Float(*f),
            Value::Float2(x, y) => ValueModel::Float2(*x, *y),
            Value::Color(c) => ValueModel::Color(*c),
            Value::Str(s) => ValueModel::Str(s@),
            Value::Image(i) => ValueModel::Image(*i),
            Value::Texture(t) => ValueModel::Texture(*t),
            Value::Context(h) => ValueModel::Context(*h),
        }
    }
}

/// The type of a value model.
pub open spec fn type_of_model(v: ValueModel) -> VarType {
    match v {
        ValueModel::Nil => VarType::Nil,
        ValueModel::Bool(_) => VarType::Bool,
        ValueModel::Float(_) => VarType::Float,
        ValueModel::Float2(_, _) => VarType::Float2,
        ValueModel::Color(_) => VarType::Color,
        ValueModel::Str(_) => VarType::String,
        ValueModel::Image(_) => VarType::Image,
        ValueModel::Texture(_) => VarType::Texture,
        ValueModel::Context(_) => VarType::Context,
    }
}

impl Value {
    /// A copy of this value, equal to it in view.
    pub fn duplicate(&self) -> (r: Value)
        ensures
            r@ == self@,
    {
        match self {
            Value::Nil => Value::Nil,
            Value::Bool(b) => Value::Bool(*b),
            Value::Float(f) => Value::Float(*f),
            Value::Float2(x, y) => Value::Float2(*x, *y),
            Value::Color(c) => Value::Color(*c),
            Value::Str(s) => Value::Str(s.clone()),
            Value::Image(i) => Value::Image(*i),
            Value::Texture(t) => Value::Texture(*t),
            Value::Context(h) => Value::Context(*h),
        }
    }

    /// The type of this value.
    pub fn value_type(&self) -> (t: VarType)
        ensures
            t == type_of_model(self@),
    {
        match self {
            Value::Nil => VarType::Nil,
            Value::Bool(_) => VarType::Bool,
            Value::Float(_) => VarType::Float,
            Value::Float2(_, _) => VarType::Float2,
            Value::Color(_) => VarType::Color,
            Value::Str(_) => VarType::String,
            Value::Image(_) => VarType::Image,
            Value::Texture(_) => VarType::Texture,
            Value::Context(_) => VarType::Context,
        }
    }

}

/// A node parameter: either a literal value or the name of a shared variable.
#[derive(Clone, Debug)]
pub enum Param {
    Literal(Value),
    Variable(String),
}

/// The mathematical view of a [`Param`].
pub enum ParamModel {
    Literal(ValueModel),
    Variable(Seq<char>),
}

impl View for Param {
    type V = ParamModel;

    open spec fn view(&self) -> ParamModel {
        match self {
            Param::Literal(v) => ParamModel::Literal(v@),
            Param::Variable(n) => ParamModel::Variable(n@),
        }
    }
}

impl Param {
    pub fn duplicate(&self) -> (r: Param)
        ensures
            r@ == self@,
    {
        match self {
            Param::Literal(v) => Param::Literal(v.duplicate()),
            Param::Variable(n) => Param::Variable(n.clone()),
        }
    }

}

/// The failures of the composition layer.
#[derive(Clone, Copy, Debug, PartialEq, Eq, Structural)]
pub enum GuiError {
    /// A variable's or an input's type conflicts with what a node expects.
    TypeMismatch,
    /// A required variable is not visible from the node's position.
    MissingDependency,
    /// A drawing node found the stack of active surfaces empty.
    NoActiveSurface,
    /// A nested child failed during activation.
    ActivationError,
    /// A parameter index that the node does not have.
    InvalidParameter,
    /// Warmup could not acquire what the node needs.
    SetupFailure,
}

} // verus!
