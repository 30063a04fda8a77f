use crate::shared_map::SharedMap;
use crate::symbol::{LmtFactory, Symbol};
use vstd::prelude::*;

verus! {

/// A problem found in a declaration. A unit with any of them produces no
/// code.
#[derive(Clone, Debug)]
pub enum Diagnostic {
    /// The declaration holds no type.
    NoDataTypes,
    /// The first type names a base.
    FirstTypeInherits(String),
    /// A type after the first names no base.
    BaseRequired(String),
    /// A base name that no earlier type has.
    BaseNotFound(String),
    /// A type, field or method name declared twice in its scope.
    Redefining(String),
    /// `override`, `inheritdoc` or `super.NAME(..)` with no ancestor method
    /// of that name.
    NoMethodInBase(String),
    /// An instance method whose receiver is not exactly `&self`.
    ReceiverNotRef(String),
    /// A `self` parameter where only typed parameters may stand.
    UnexpectedReceiver,
    /// A parameter whose pattern is not a plain identifier.
    PatternNotIdent,
}

/// The state threaded through every pass of one compilation unit.
pub struct SModelHost {
    pub factory: LmtFactory,
    /// The type slots by name.
    pub smtype_slots: SharedMap<String, Symbol>,
    /// The type slot of each declared type, in declaration order.
    pub type_symbols: Vec<Symbol>,
    /// For each declared type, the slot of each of its methods; `None` for
    /// a method without receiver.
    pub method_symbols: Vec<Vec<Option<Symbol>>>,
    /// Generated items outside the data module.
    pub output: String,
    /// Generated items of the data module.
    pub data_output: String,
    pub diagnostics: Vec<Diagnostic>,
}

impl SModelHost {
    pub open spec fn wf(&self) -> bool {
        &&& self.factory.wf()
        &&& self.smtype_slots.wf()
        &&& forall|k: Seq<char>|
            #[trigger] self.smtype_slots.has_key(k) ==> self.factory.is_type(self.smtype_slots.value_of(k))
                && self.factory.name_of(self.smtype_slots.value_of(k)) == k
        &&& forall|i: int|
            0 <= i < self.type_symbols@.len() ==> self.factory.is_type(#[trigger] self.type_symbols@[i])
        &&& forall|i: int, j: int|
            0 <= i < self.method_symbols@.len() && 0 <= j < self.method_symbols@[i]@.len()
                && #[trigger] self.method_symbols@[i]@[j] is Some ==> self.factory.is_method(
                self.method_symbols@[i]@[j]->0,
            )
    }

    pub fn new() -> (r: Self)
        ensures
            r.wf(),
            r.factory.slots().len() == 0,
            r.factory.nodes().len() == 0,
            r.smtype_slots.len() == 0,
            r.type_symbols@.len() == 0,
            r.method_symbols@.len() == 0,
            r.output@.len() == 0,
            r.data_output@.len() == 0,
            r.diagnostics@.len() == 0,
    {
        SModelHost {
            factory: LmtFactory::new(),
            smtype_slots: SharedMap::new(),
            type_symbols: Vec::new(),
            method_symbols: Vec::new(),
            output: String::new(),
            data_output: String::new(),
            diagnostics: Vec::new(),
        }
    }
}

} // verus!
