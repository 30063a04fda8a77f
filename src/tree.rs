use vstd::prelude::*;

verus! {

/// Delimiters of a token group.
#[derive(Clone, Copy, PartialEq, Eq, Structural, Debug)]
pub enum Delim {
    Paren,
    Brace,
    Bracket,
    Invisible,
}

/// One token of a method body. Groups are flattened into an `Open` token,
/// their contents and a `Close` token.
#[derive(Clone, Debug)]
pub enum Token {
    Ident(String),
    /// A punctuation character, as a one-character string; `joint` when the
    /// next character belongs to the same operator (`::`, `->`, a
    /// lifetime's quote).
    Punct(String, bool),
    Literal(String),
    Open(Delim),
    Close(Delim),
}

/// What an attribute is, as far as the compiler cares.
#[derive(Clone, Copy, PartialEq, Eq, Structural, Debug)]
pub enum AttrKind {
    /// `#[doc = ".."]` or `#[doc(..)]`, written as a doc comment or not.
    Doc,
    /// `#[inheritdoc]`.
    InheritDoc,
    Other,
}

#[derive(Clone, Debug)]
pub struct Attribute {
    pub kind: AttrKind,
    /// The attribute as source text, `#[...]` included.
    pub text: String,
}

/// Generic parameters and `where` clause of a function, as source text.
#[derive(Clone, Debug)]
pub struct Generics {
    /// The parameters without the angle brackets; empty when there are none.
    pub params: String,
    /// The `where` clause, `where` included; empty when there is none.
    pub where_clause: String,
}

/// A `self` parameter.
#[derive(Clone, Debug)]
pub struct Receiver {
    pub has_attrs: bool,
    /// Taken by reference (`&self`).
    pub reference: bool,
    /// The reference names a lifetime (`&'a self`).
    pub has_lifetime: bool,
    pub mutability: bool,
    /// The parameter as source text.
    pub text: String,
}

/// A typed parameter.
#[derive(Clone, Debug)]
pub struct TypedArg {
    /// The name bound, when the pattern is a plain identifier.
    pub ident: Option<String>,
    /// The parameter as source text, `pat: Type`.
    pub text: String,
}

#[derive(Clone, Debug)]
pub enum FnArg {
    Receiver(Receiver),
    Typed(TypedArg),
}

pub struct SmTypeField {
    pub is_ref: bool,
    pub name: String,
    pub type_annotation: String,
    pub default_value: String,
}

pub struct SmTypeConstructor {
    pub attributes: Vec<Attribute>,
    pub visibility: String,
    pub generics: Generics,
    pub name: String,
    pub inputs: Vec<FnArg>,
    /// The arguments of the `super(...)` call, as source text each.
    pub super_arguments: Vec<String>,
    /// The statements after the `super(...)` call, as source text.
    pub statements: String,
}

pub struct SmTypeMethod {
    pub attributes: Vec<Attribute>,
    pub visibility: String,
    pub is_override: bool,
    pub name: String,
    pub generics: Generics,
    pub inputs: Vec<FnArg>,
    pub result_type: Option<String>,
    pub statements: Vec<Token>,
}

/// One declared type.
pub struct SmType {
    pub attributes: Vec<Attribute>,
    pub visibility: String,
    pub name: String,
    pub inherits: Option<String>,
    pub fields: Vec<SmTypeField>,
    pub constructor: Option<SmTypeConstructor>,
    pub methods: Vec<SmTypeMethod>,
}

/// A whole declaration: the path of the runtime crate, the name of the
/// arena type to declare, and the types in declaration order.
pub struct SmTypeTree {
    pub smodel_path: String,
    pub arena_type_name: String,
    pub data_types: Vec<SmType>,
}

} // verus!
