//! The stack code that the analysis reads and emits.
use vstd::prelude::*;

verus! {

/// The primitives that the analysis knows by name. `Other` stands for any
/// further primitive of the host, by its name.
#[derive(Debug)]
pub enum Primitive {
    Identity,
    Pop,
    Dup,
    Flip,
    Over,
    Neg,
    Not,
    Sqrt,
    Add,
    Sub,
    Mul,
    Div,
    Pow,
    Log,
    Complex,
    Max,
    Other(String),
}

/// Stack combinators: each takes one or two functions.
#[derive(Debug)]
pub enum Modifier {
    Dip,
    Gap,
    On,
    By,
    Both,
    Bracket,
    Fork,
    Other(String),
}

/// The first element of a pushed value, by kind.
pub enum Datum<S> {
    Num(S),
    Byte(u8),
    Complex(S),
    Char(char),
    Boxed,
}

/// A pushed array value: its rank and its first element.
pub struct Value<S> {
    pub rank: usize,
    pub first: Datum<S>,
}

/// A function with its declared number of arguments and outputs.
pub struct SigNode<S> {
    pub node: Node<S>,
    pub args: usize,
    pub outputs: usize,
}

/// A function paired with a hand-written inverse; `normal` is the forward
/// function, where there is one.
pub struct CustomInverse<S> {
    pub is_obverse: bool,
    pub normal: Option<SigNode<S>>,
}

/// A node of stack code. The `usize` fields are span indices.
pub enum Node<S> {
    Run(Vec<Node<S>>),
    Call(usize, usize),
    Push(Value<S>),
    Prim(Primitive, usize),
    ImplPrim(String, usize),
    Mod(Modifier, Vec<SigNode<S>>, usize),
    ImplMod(String, usize),
    CustomInverse(Box<CustomInverse<S>>, usize),
    CopyToUnder(usize, usize),
    PushUnder(usize, usize),
    PopUnder(usize, usize),
    /// A node kind that the analysis does not model, by a description.
    Unknown(String),
}

/// The compiled program that `Call` nodes refer into: its functions by
/// index, and its source spans.
pub struct Assembly<S> {
    pub functions: Vec<Node<S>>,
    pub spans: Vec<usize>,
}

/// The name of a primitive.
pub open spec fn prim_label(p: Primitive) -> Seq<char> {
    match p {
        Primitive::Identity => "identity"@,
        Primitive::Pop => "pop"@,
        Primitive::Dup => "duplicate"@,
        Primitive::Flip => "flip"@,
        Primitive::Over => "over"@,
        Primitive::Neg => "negate"@,
        Primitive::Not => "not"@,
        Primitive::Sqrt => "sqrt"@,
        Primitive::Add => "add"@,
        Primitive::Sub => "subtract"@,
        Primitive::Mul => "multiply"@,
        Primitive::Div => "divide"@,
        Primitive::Pow => "power"@,
        Primitive::Log => "logarithm"@,
        Primitive::Complex => "complex"@,
        Primitive::Max => "maximum"@,
        Primitive::Other(s) => s@,
    }
}

/// The name of a primitive.
pub fn prim_name(p: &Primitive) -> (r: String)
    ensures
        r@ == prim_label(*p),
{
    match p {
        Primitive::Identity => "identity".to_string(),
        Primitive::Pop => "pop".to_string(),
        Primitive::Dup => "duplicate".to_string(),
        Primitive::Flip => "flip".to_string(),
        Primitive::Over => "over".to_string(),
        Primitive::Neg => "negate".to_string(),
        Primitive::Not => "not".to_string(),
        Primitive::Sqrt => "sqrt".to_string(),
        Primitive::Add => "add".to_string(),
        Primitive::Sub => "subtract".to_string(),
        Primitive::Mul => "multiply".to_string(),
        Primitive::Div => "divide".to_string(),
        Primitive::Pow => "power".to_string(),
        Primitive::Log => "logarithm".to_string(),
        Primitive::Complex => "complex".to_string(),
        Primitive::Max => "maximum".to_string(),
        Primitive::Other(s) => s.clone(),
    }
}

} // verus!
