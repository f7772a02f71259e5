use vstd::prelude::*;
use vstd::string::*;

use crate::names::QualName;

verus! {

/// Why a conversion could not be completed.
#[derive(Debug)]
pub enum ConvertError {
    NoContent,
    UnsafePODType(String),
    UnexpectedForeignItem,
    UnexpectedOuterItem,
    UnexpectedItemInMod,
    ComplexTypedefTarget(String),
    UnexpectedThisType,
}

/// How safely a type can be held by value on the host side.
#[derive(Clone, Copy, Debug, PartialEq, Eq, Structural)]
pub enum TypeKind {
    /// Trivial: can be moved and copied by value.
    POD,
    /// Has a destructor or a non-trivial move: only held through an owning handle.
    NonPOD,
    /// No full declaration is available: known by name only.
    ForwardDeclaration,
}

/// Whether and how an item is re-exported in the public hierarchy.
#[derive(Clone, Debug)]
pub enum Use {
    Unused,
    Used,
    UsedWithAlias(String),
}

/// A generic parameter of a struct.
#[derive(Clone, Debug)]
pub enum GenericParam {
    Type(String),
    Lifetime(String),
    Const(String),
}

/// The type of a struct field.
#[derive(Clone, Debug)]
pub enum FieldType {
    /// A reference to a named type.
    Named(QualName),
    /// The zero-sized, move-only, non-constructible marker of an opaque type.
    OpaqueMarker,
    /// A phantom marker keeping the named generic parameter in use.
    Phantom(String),
}

#[derive(Clone, Debug)]
pub struct RawField {
    pub name: String,
    pub ty: FieldType,
}

/// A struct declaration as extracted from the native headers.
#[derive(Clone, Debug)]
pub struct RawStruct {
    pub name: String,
    pub generics: Vec<GenericParam>,
    pub fields: Vec<RawField>,
    /// A destructor or a non-trivial move operation was found.
    pub has_destructor: bool,
    /// The layout is packed, as the opaque representation requires.
    pub packed: bool,
}

/// What a type alias points to.
#[derive(Clone, Debug)]
pub enum AliasTarget {
    Path(QualName),
    /// A type shape that no bridge alias can express, in its textual form.
    Complex(String),
}

#[derive(Clone, Debug)]
pub struct RawAlias {
    pub name: String,
    pub target: AliasTarget,
}

#[derive(Clone, Debug)]
pub struct RawConst {
    pub name: String,
    /// The constant's declaration, carried verbatim.
    pub text: String,
}

/// A function declared in a foreign-declaration block.
#[derive(Clone, Debug)]
pub struct ForeignFn {
    pub name: String,
    /// For a method, the name of the type of its receiver.
    pub this_type: Option<String>,
    pub params: Vec<QualName>,
}

#[derive(Clone, Debug)]
pub enum RawForeignItem {
    Fn(ForeignFn),
    Other,
}

/// A method/implementation block: the type and the names of its methods.
#[derive(Clone, Debug)]
pub struct RawImpl {
    pub self_ty: String,
    pub methods: Vec<String>,
}

/// A nested namespace.
#[derive(Debug)]
pub struct RawMod {
    pub name: String,
    pub content: Option<Vec<RawItem>>,
}

/// One item of the raw declaration tree.
#[derive(Debug)]
pub enum RawItem {
    ForeignMod(Vec<RawForeignItem>),
    Struct(RawStruct),
    Enum(String),
    Impl(RawImpl),
    Mod(RawMod),
    /// An import statement, carried verbatim.
    Use(String),
    Const(RawConst),
    TypeAlias(RawAlias),
    /// Any shape that this conversion does not support.
    Other,
}

/// A fragment of the raw bindings, emitted under its namespace.
#[derive(Clone, Debug)]
pub enum RawBinding {
    Struct(RawStruct),
    Enum(String),
    TypeAlias(RawAlias),
}

/// An item emitted at global scope.
#[derive(Clone, Debug)]
pub enum GlobalItem {
    /// Binds the raw-binding type at `path` to the native type `cpp_name`
    /// with the given classification.
    TypeIdentity { path: Vec<String>, cpp_name: String, kind: TypeKind },
    Const(RawConst),
}

/// A declaration inside the bridge's foreign-declaration scope.
#[derive(Clone, Debug)]
pub enum ExternItem {
    /// `bridge_id` stands for the raw-binding type at `path`, whose native
    /// namespace is `cpp_ns`.
    Type { bridge_id: String, cpp_ns: Vec<String>, path: Vec<String> },
    /// A function, under its bridge-visible name.
    Function { bridge_id: String, cpp_name: String, params: Vec<QualName> },
    /// A native header to include.
    Include(String),
}

/// Native code that must be generated beside the bridge.
#[derive(Clone, Copy, Debug, PartialEq, Eq, Structural)]
pub enum AdditionalNeed {
    MakeStringConstructor,
}

/// Anything discovered in the raw tree that may be passed on to the output.
/// The dependency set gives the edges of the graph that is pruned to what
/// the accept-list reaches.
pub struct Api {
    pub ns: Vec<String>,
    pub id: String,
    pub use_stmt: Use,
    pub deps: Vec<QualName>,
    pub extern_item: Option<ExternItem>,
    /// A bridge declaration giving the type an owning handle.
    pub bridge_item: Option<String>,
    pub global_items: Vec<GlobalItem>,
    pub additional_cpp: Option<AdditionalNeed>,
    pub id_for_allowlist: Option<String>,
    pub bindgen_mod_item: Option<RawBinding>,
}

/// The bridge-visible identifier of an API, where it has one.
pub open spec fn bridge_id_of(api: Api) -> Option<Seq<char>> {
    match api.extern_item {
        Some(ExternItem::Type { bridge_id, .. }) => Some(bridge_id@),
        Some(ExternItem::Function { bridge_id, .. }) => Some(bridge_id@),
        _ => None,
    }
}

/// The identifier of an API's raw-binding fragment, where it has one.
pub open spec fn binding_id_of(api: Api) -> Option<Seq<char>> {
    match api.bindgen_mod_item {
        Some(RawBinding::Struct(s)) => Some(s.name@),
        Some(RawBinding::Enum(e)) => Some(e@),
        Some(RawBinding::TypeAlias(a)) => Some(a.name@),
        None => None,
    }
}

impl ConvertError {
    /// The text of the message, before the named type where there is one.
    pub open spec fn message_head(&self) -> Seq<char> {
        match self {
            ConvertError::NoContent => "The initial run of 'bindgen' did not generate any content. This might be because none of the requested items for generation could be converted."@,
            ConvertError::UnsafePODType(_) => "An item was requested using 'generate_pod' which was not safe to hold by value in Rust. "@,
            ConvertError::UnexpectedForeignItem => "Bindgen generated some unexpected code in a foreign mod section. You may have specified something in a 'generate' directive which is not currently compatible with autocxx."@,
            ConvertError::UnexpectedOuterItem => "Bindgen generated some unexpected code in its outermost mod section. You may have specified something in a 'generate' directive which is not currently compatible with autocxx."@,
            ConvertError::UnexpectedItemInMod => "Bindgen generated some unexpected code in an inner namespace mod. You may have specified something in a 'generate' directive which is not currently compatible with autocxx."@,
            ConvertError::ComplexTypedefTarget(_) => "autocxx was unable to produce a typdef pointing to the complex type "@,
            ConvertError::UnexpectedThisType => "Unexpected type for 'this'"@,
        }
    }

    /// The full message.
    pub open spec fn message_spec(&self) -> Seq<char> {
        match self {
            ConvertError::UnsafePODType(t) => self.message_head() + t@,
            ConvertError::ComplexTypedefTarget(t) => self.message_head() + t@ + "."@,
            _ => self.message_head(),
        }
    }

    /// A message that explains the error to the user.
    pub fn message(&self) -> (r: String)
        ensures
            r@ == self.message_spec(),
    {
        match self {
            ConvertError::NoContent => String::from_str("The initial run of 'bindgen' did not generate any content. This might be because none of the requested items for generation could be converted."),
            ConvertError::UnsafePODType(t) => {
                let mut r = String::from_str("An item was requested using 'generate_pod' which was not safe to hold by value in Rust. ");
                r.append(t.as_str());
                r
            },
            ConvertError::UnexpectedForeignItem => String::from_str("Bindgen generated some unexpected code in a foreign mod section. You may have specified something in a 'generate' directive which is not currently compatible with autocxx."),
            ConvertError::UnexpectedOuterItem => String::from_str("Bindgen generated some unexpected code in its outermost mod section. You may have specified something in a 'generate' directive which is not currently compatible with autocxx."),
            ConvertError::UnexpectedItemInMod => String::from_str("Bindgen generated some unexpected code in an inner namespace mod. You may have specified something in a 'generate' directive which is not currently compatible with autocxx."),
            ConvertError::ComplexTypedefTarget(t) => {
                let mut r = String::from_str("autocxx was unable to produce a typdef pointing to the complex type ");
                r.append(t.as_str());
                r.append(".");
                r
            },
            ConvertError::UnexpectedThisType => String::from_str("Unexpected type for 'this'"),
        }
    }
}

} // verus!
