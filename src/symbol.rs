use crate::key::SlotKey;
use crate::shared_array::SharedArray;
use crate::shared_map::SharedMap;
use vstd::prelude::*;

verus! {

/// A handle to a slot of an `LmtFactory`. Handles compare by identity: two
/// handles are equal when they denote the same slot.
#[derive(Clone, Copy, PartialEq, Eq, Structural, Debug, Hash)]
pub struct Symbol(pub usize);

impl View for Symbol {
    type V = usize;

    open spec fn view(&self) -> usize {
        self.0
    }
}

impl SlotKey for Symbol {
    fn same_as(&self, other: &Self) -> (r: bool) {
        self.0 == other.0
    }

    fn duplicate(&self) -> (r: Self) {
        *self
    }
}

/// A declared type.
pub struct SmTypeSlot {
    pub name: String,
    pub inherits: Option<Symbol>,
    pub subtypes: SharedArray<Symbol>,
    pub fields: SharedMap<String, Symbol>,
    pub methods: SharedMap<String, Symbol>,
    /// The contents of the `impl` block generated for the type.
    pub method_output: String,
}

/// A declared field: its storage kind, name, type and default value.
pub struct FieldSlot {
    pub is_ref: bool,
    pub name: String,
    pub field_type: String,
    pub field_init: String,
}

/// A declared instance method.
pub struct MethodSlot {
    pub name: String,
    pub defined_in: Symbol,
    pub doc_attribute: Vec<String>,
    /// The root node of the method's override trie.
    pub override_root: usize,
}

pub enum SlotData {
    SmTypeSlot(SmTypeSlot),
    FieldSlot(FieldSlot),
    MethodSlot(MethodSlot),
}

/// A node of an override trie: the code that forwards to the override of
/// the type this node stands for, if that type overrides, and the nodes of
/// further-derived types.
pub struct OverrideLogicMapping {
    override_code: Option<String>,
    override_logic_mapping: SharedMap<Symbol, usize>,
}

impl OverrideLogicMapping {
    pub open spec fn code(&self) -> Option<Seq<char>> {
        match self.code_string() {
            Some(s) => Some(s@),
            None => None,
        }
    }

    pub closed spec fn code_string(&self) -> Option<String> {
        self.override_code
    }

    pub closed spec fn children(&self) -> SharedMap<Symbol, usize> {
        self.override_logic_mapping
    }

    pub fn new() -> (r: Self)
        ensures
            r.code() is None,
            r.children().entries() == Seq::<(Symbol, usize)>::empty(),
            r.children().wf(),
    {
        OverrideLogicMapping { override_code: None, override_logic_mapping: SharedMap::new() }
    }

    /// Override code; a `return` statement that forwards the call.
    pub fn override_code(&self) -> (r: Option<String>)
        ensures
            match r {
                Some(s) => self.code() == Some(s@),
                None => self.code() is None,
            },
    {
        match &self.override_code {
            Some(s) => Some(s.clone()),
            None => None,
        }
    }

    pub fn set_override_code(&mut self, code: Option<String>)
        ensures
            final(self).code_string() == code,
            final(self).children() == old(self).children(),
    {
        self.override_code = code;
    }

    /// Mapping from subtype to the node of that subtype.
    pub fn override_logic_mapping(&self) -> (r: &SharedMap<Symbol, usize>)
        ensures
            *r == self.children(),
    {
        &self.override_logic_mapping
    }

    fn set_child(&mut self, subtype: Symbol, node: usize)
        requires
            old(self).children().wf(),
        ensures
            final(self).children().wf(),
            final(self).code_string() == old(self).code_string(),
            final(self).children().has_key(subtype@),
            final(self).children().value_of(subtype@) == node,
            forall|k: usize|
                k != subtype@ && #[trigger] old(self).children().has_key(k)
                    ==> final(self).children().has_key(k)
                    && final(self).children().value_of(k) == old(self).children().value_of(k),
            forall|k: usize|
                #[trigger] final(self).children().has_key(k)
                    ==> k == subtype@ || old(self).children().has_key(k),
    {
        self.override_logic_mapping.set(subtype, node);
    }
}

/// The symbol table of one compilation unit: every slot and every override
/// trie node. Slots and nodes are never removed.
pub struct LmtFactory {
    slots: Vec<SlotData>,
    nodes: Vec<OverrideLogicMapping>,
    /// The depth of the subtypes that each trie node tests.
    levels: Ghost<Seq<nat>>,
}

impl LmtFactory {
    pub closed spec fn slots(&self) -> Seq<SlotData> {
        self.slots@
    }

    pub closed spec fn nodes(&self) -> Seq<OverrideLogicMapping> {
        self.nodes@
    }

    /// The depth of the subtypes that each trie node tests.
    pub closed spec fn node_levels(&self) -> Seq<nat> {
        self.levels@
    }

    /// The types that were there are types still, with the same bases.
    pub open spec fn same_parents(&self, old: &LmtFactory) -> bool {
        forall|i: int|
            0 <= i < old.slots().len() && #[trigger] old.slots()[i] is SmTypeSlot ==> self.slots()[i] is SmTypeSlot
                && self.parent(Symbol(i as usize)) == old.parent(Symbol(i as usize))
    }

    pub open spec fn is_type(&self, s: Symbol) -> bool {
        s.0 < self.slots().len() && self.slots()[s.0 as int] is SmTypeSlot
    }

    pub open spec fn is_field(&self, s: Symbol) -> bool {
        s.0 < self.slots().len() && self.slots()[s.0 as int] is FieldSlot
    }

    pub open spec fn is_method(&self, s: Symbol) -> bool {
        s.0 < self.slots().len() && self.slots()[s.0 as int] is MethodSlot
    }

    pub open spec fn type_slot(&self, s: Symbol) -> SmTypeSlot {
        match self.slots()[s.0 as int] {
            SlotData::SmTypeSlot(t) => t,
            _ => arbitrary(),
        }
    }

    pub open spec fn field_slot(&self, s: Symbol) -> FieldSlot {
        match self.slots()[s.0 as int] {
            SlotData::FieldSlot(t) => t,
            _ => arbitrary(),
        }
    }

    pub open spec fn method_slot(&self, s: Symbol) -> MethodSlot {
        match self.slots()[s.0 as int] {
            SlotData::MethodSlot(t) => t,
            _ => arbitrary(),
        }
    }

    pub open spec fn name_of(&self, s: Symbol) -> Seq<char> {
        match self.slots()[s.0 as int] {
            SlotData::SmTypeSlot(t) => t.name@,
            SlotData::FieldSlot(t) => t.name@,
            SlotData::MethodSlot(t) => t.name@,
        }
    }

    pub open spec fn parent(&self, s: Symbol) -> Option<Symbol> {
        self.type_slot(s).inherits
    }

    /// The method named `name` that type `t` itself declares, if any.
    pub open spec fn own_method(&self, t: Symbol, name: Seq<char>) -> Option<Symbol> {
        if self.type_slot(t).methods.has_key(name) {
            Some(self.type_slot(t).methods.value_of(name))
        } else {
            None
        }
    }

    pub open spec fn type_wf(&self, i: int) -> bool {
        let t = self.type_slot(Symbol(i as usize));
        &&& match t.inherits {
            Some(p) => p.0 < i && self.is_type(p),
            None => true,
        }
        &&& forall|j: int|
            0 <= j < t.subtypes@.len() ==> self.is_type(#[trigger] t.subtypes@[j]) && t.subtypes@[j].0
                > i
        &&& t.fields.wf()
        &&& forall|k: Seq<char>|
            #[trigger] t.fields.has_key(k) ==> self.is_field(t.fields.value_of(k))
        &&& t.methods.wf()
        &&& forall|k: Seq<char>|
            #[trigger] t.methods.has_key(k) ==> self.is_method(t.methods.value_of(k))
                && self.method_slot(t.methods.value_of(k)).defined_in == Symbol(i as usize)
                && self.name_of(t.methods.value_of(k)) == k
    }

    pub open spec fn method_wf(&self, i: int) -> bool {
        let m = self.method_slot(Symbol(i as usize));
        &&& self.is_type(m.defined_in)
        &&& m.override_root < self.nodes().len()
        &&& self.node_levels()[m.override_root as int] == self.depth(m.defined_in) + 1
    }

    pub open spec fn node_wf(&self, n: int) -> bool {
        let node = self.nodes()[n];
        &&& node.children().wf()
        &&& forall|k: usize|
            #[trigger] node.children().has_key(k) ==> n < node.children().value_of(k) < self.nodes().len()
                && self.is_type(Symbol(k)) && self.depth(Symbol(k)) == self.node_levels()[n]
                && self.node_levels()[node.children().value_of(k) as int] == self.node_levels()[n] + 1
    }

    pub open spec fn wf(&self) -> bool {
        &&& self.slots().len() <= usize::MAX
        &&& self.node_levels().len() == self.nodes().len()
        &&& forall|i: int|
            0 <= i < self.slots().len() && self.slots()[i] is SmTypeSlot ==> #[trigger] self.type_wf(i)
        &&& forall|i: int|
            0 <= i < self.slots().len() && self.slots()[i] is MethodSlot ==> #[trigger] self.method_wf(i)
        &&& forall|n: int| 0 <= n < self.nodes().len() ==> #[trigger] self.node_wf(n)
    }

    /// The ascending chain of `t`: its root ancestor first, `t` last.
    pub open spec fn chain(&self, t: Symbol) -> Seq<Symbol>
        decreases t.0,
    {
        match self.parent(t) {
            Some(p) => if p.0 < t.0 {
                self.chain(p).push(t)
            } else {
                seq![t]
            },
            None => seq![t],
        }
    }

    /// The number of `inherits` links from `t` up to the root.
    pub open spec fn depth(&self, t: Symbol) -> nat
        decreases t.0,
    {
        match self.parent(t) {
            Some(p) => if p.0 < t.0 {
                self.depth(p) + 1
            } else {
                0
            },
            None => 0,
        }
    }

    /// The method named `name` declared by the nearest strict ancestor of
    /// `t` that declares one.
    pub open spec fn base_method(&self, t: Symbol, name: Seq<char>) -> Option<Symbol>
        decreases t.0,
    {
        match self.parent(t) {
            Some(p) => if p.0 < t.0 {
                match self.own_method(p, name) {
                    Some(m) => Some(m),
                    None => self.base_method(p, name),
                }
            } else {
                None
            },
            None => None,
        }
    }

    /// Slots that were there keep their kind and name, types their base,
    /// fields and methods their whole record.
    pub open spec fn extends(&self, old: &LmtFactory) -> bool {
        &&& old.slots().len() <= self.slots().len()
        &&& forall|i: int|
            0 <= i < old.slots().len() ==> {
                &&& (#[trigger] self.slots()[i] is SmTypeSlot <==> old.slots()[i] is SmTypeSlot)
                &&& (self.slots()[i] is MethodSlot <==> old.slots()[i] is MethodSlot)
                &&& (self.slots()[i] is FieldSlot <==> old.slots()[i] is FieldSlot)
                &&& self.name_of(Symbol(i as usize)) == old.name_of(Symbol(i as usize))
                &&& self.slots()[i] is SmTypeSlot ==> self.parent(Symbol(i as usize)) == old.parent(Symbol(i as usize))
                &&& self.slots()[i] is FieldSlot ==> self.slots()[i] == old.slots()[i]
            }
    }

    /// Slots that were there stay as they were.
    pub open spec fn keeps_slots(&self, old: &LmtFactory) -> bool {
        &&& old.slots().len() <= self.slots().len()
        &&& forall|i: int| 0 <= i < old.slots().len() ==> #[trigger] self.slots()[i] == old.slots()[i]
    }

    pub fn new() -> (r: Self)
        ensures
            r.wf(),
            r.slots().len() == 0,
            r.nodes().len() == 0,
    {
        LmtFactory { slots: Vec::new(), nodes: Vec::new(), levels: Ghost(Seq::empty()) }
    }

    /// A new type slot without base, subtypes, fields or methods.
    pub fn create_smtype_slot(&mut self, name: String) -> (r: Symbol)
        requires
            old(self).wf(),
        ensures
            final(self).wf(),
            final(self).keeps_slots(old(self)),
            final(self).nodes() == old(self).nodes(),
            r.0 == old(self).slots().len(),
            final(self).slots().len() == old(self).slots().len() + 1,
            final(self).is_type(r),
            final(self).name_of(r) == name@,
            final(self).parent(r) is None,
            final(self).type_slot(r).subtypes@.len() == 0,
            final(self).type_slot(r).fields.len() == 0,
            final(self).type_slot(r).methods.len() == 0,
            final(self).type_slot(r).method_output@.len() == 0,
    {
        let r = Symbol(self.slots.len());
        let slot = SmTypeSlot {
            name,
            inherits: None,
            subtypes: SharedArray::new(),
            fields: SharedMap::new(),
            methods: SharedMap::new(),
            method_output: String::new(),
        };
        self.slots.push(SlotData::SmTypeSlot(slot));
        proof {
            assert(self.slots@.len() == self.slots.len());
            lemma_levels_transfer(old(self), self);
            assert forall|i: int|
                0 <= i < self.slots().len() && self.slots()[i] is SmTypeSlot implies #[trigger] self.type_wf(
                i,
            ) by {
                if i < old(self).slots().len() {
                    assert(old(self).type_wf(i));
                }
            }
            assert forall|i: int|
                0 <= i < self.slots().len() && self.slots()[i] is MethodSlot implies #[trigger] self.method_wf(
                i,
            ) by {
                assert(old(self).method_wf(i));
            }
            assert forall|n: int| 0 <= n < self.nodes().len() implies #[trigger] self.node_wf(n) by {
                assert(old(self).node_wf(n));
            }
        }
        r
    }

    pub fn create_field_slot(
        &mut self,
        is_ref: bool,
        name: String,
        field_type: String,
        field_init: String,
    ) -> (r: Symbol)
        requires
            old(self).wf(),
        ensures
            final(self).wf(),
            final(self).keeps_slots(old(self)),
            final(self).nodes() == old(self).nodes(),
            r.0 == old(self).slots().len(),
            final(self).slots().len() == old(self).slots().len() + 1,
            final(self).is_field(r),
            final(self).name_of(r) == name@,
            final(self).field_slot(r).is_ref == is_ref,
            final(self).field_slot(r).field_type == field_type,
            final(self).field_slot(r).field_init == field_init,
    {
        let r = Symbol(self.slots.len());
        self.slots.push(SlotData::FieldSlot(FieldSlot { is_ref, name, field_type, field_init }));
        proof {
            assert(self.slots@.len() == self.slots.len());
            lemma_levels_transfer(old(self), self);
            assert forall|i: int|
                0 <= i < self.slots().len() && self.slots()[i] is SmTypeSlot implies #[trigger] self.type_wf(
                i,
            ) by {
                assert(old(self).type_wf(i));
            }
            assert forall|i: int|
                0 <= i < self.slots().len() && self.slots()[i] is MethodSlot implies #[trigger] self.method_wf(
                i,
            ) by {
                assert(old(self).method_wf(i));
            }
            assert forall|n: int| 0 <= n < self.nodes().len() implies #[trigger] self.node_wf(n) by {
                assert(old(self).node_wf(n));
            }
        }
        r
    }

    /// A new method slot declared in `defined_in`, with an empty override
    /// trie.
    pub fn create_method_slot(
        &mut self,
        name: String,
        defined_in: Symbol,
        doc_attribute: Vec<String>,
    ) -> (r: Symbol)
        requires
            old(self).wf(),
            old(self).is_type(defined_in),
        ensures
            final(self).wf(),
            final(self).keeps_slots(old(self)),
            r.0 == old(self).slots().len(),
            final(self).slots().len() == old(self).slots().len() + 1,
            final(self).is_method(r),
            final(self).name_of(r) == name@,
            final(self).method_slot(r).defined_in == defined_in,
            final(self).method_slot(r).doc_attribute == doc_attribute,
            final(self).method_slot(r).override_root == old(self).nodes().len(),
            final(self).nodes() == old(self).nodes().push(final(self).nodes().last()),
            final(self).node_levels() == old(self).node_levels().push(old(self).depth(defined_in) + 1),
            final(self).nodes().last().code() is None,
            final(self).nodes().last().children().len() == 0,
    {
        let r = Symbol(self.slots.len());
        let root = self.nodes.len();
        self.nodes.push(OverrideLogicMapping::new());
        proof {
            self.levels = Ghost(self.levels@.push(old(self).depth(defined_in) + 1));
        }
        self.slots.push(
            SlotData::MethodSlot(MethodSlot { name, defined_in, doc_attribute, override_root: root }),
        );
        proof {
            assert(self.slots@.len() == self.slots.len());
            lemma_levels_transfer(old(self), self);
            assert forall|i: int|
                0 <= i < self.slots().len() && self.slots()[i] is SmTypeSlot implies #[trigger] self.type_wf(
                i,
            ) by {
                assert(old(self).type_wf(i));
            }
            assert forall|i: int|
                0 <= i < self.slots().len() && self.slots()[i] is MethodSlot implies #[trigger] self.method_wf(
                i,
            ) by {
                if i < old(self).slots().len() {
                    assert(old(self).method_wf(i));
                }
            }
            assert forall|n: int| 0 <= n < self.nodes().len() implies #[trigger] self.node_wf(n) by {
                if n < old(self).nodes().len() {
                    assert(old(self).node_wf(n));
                } else {
                    let c = self.nodes()[n].children();
                    assert(c.keys().len() == c.entries().len());
                    assert forall|k: usize| #[trigger] c.has_key(k) implies false by {
                        assert(c.keys().len() == 0);
                    }
                }
            }
        }
        r
    }

    /// Slots other than type `t` stay as they were, and so do the nodes.
    pub open spec fn only_type_changed(&self, old: &LmtFactory, t: Symbol) -> bool {
        &&& self.slots().len() == old.slots().len()
        &&& self.nodes() == old.nodes()
        &&& self.node_levels() == old.node_levels()
        &&& self.is_type(t)
        &&& self.name_of(t) == old.name_of(t)
        &&& forall|i: int| 0 <= i < old.slots().len() && i != t.0 ==> #[trigger] self.slots()[i] == old.slots()[i]
    }

    /// Records `sub` as the last direct subtype of `t`.
    pub fn add_subtype(&mut self, t: Symbol, sub: Symbol)
        requires
            old(self).wf(),
            old(self).is_type(t),
            old(self).is_type(sub),
            sub.0 > t.0,
        ensures
            final(self).wf(),
            final(self).only_type_changed(old(self), t),
            final(self).type_slot(t).subtypes@ == old(self).type_slot(t).subtypes@.push(sub),
            final(self).type_slot(t).inherits == old(self).type_slot(t).inherits,
            final(self).type_slot(t).fields == old(self).type_slot(t).fields,
            final(self).type_slot(t).methods == old(self).type_slot(t).methods,
            final(self).type_slot(t).method_output == old(self).type_slot(t).method_output,
    {
        match &mut self.slots[t.0] {
            SlotData::SmTypeSlot(ts) => {
                ts.subtypes.push(sub);
            },
            _ => {},
        }
        proof {
            assert(old(self).type_wf(t.0 as int));
            let subs = self.type_slot(t).subtypes@;
            assert forall|j: int| 0 <= j < subs.len() implies self.is_type(#[trigger] subs[j]) && subs[j].0 > t.0 by {
                if j < subs.len() - 1 {
                    assert(subs[j] == old(self).type_slot(t).subtypes@[j]);
                }
            }
            lemma_wf_after_type_update(old(self), self, t);
        }
    }

    /// Puts field slot `field` under its name among the fields of `t`.
    pub fn add_field(&mut self, t: Symbol, name: String, field: Symbol)
        requires
            old(self).wf(),
            old(self).is_type(t),
            old(self).is_field(field),
        ensures
            final(self).wf(),
            final(self).only_type_changed(old(self), t),
            final(self).type_slot(t).fields.has_key(name@),
            final(self).type_slot(t).fields.value_of(name@) == field,
            !old(self).type_slot(t).fields.has_key(name@) ==> final(self).type_slot(t).fields.keys()
                == old(self).type_slot(t).fields.keys().push(name@),
            forall|k: Seq<char>|
                k != name@ && #[trigger] old(self).type_slot(t).fields.has_key(k)
                    ==> final(self).type_slot(t).fields.has_key(k)
                    && final(self).type_slot(t).fields.value_of(k) == old(self).type_slot(t).fields.value_of(k),
            final(self).type_slot(t).inherits == old(self).type_slot(t).inherits,
            final(self).type_slot(t).subtypes == old(self).type_slot(t).subtypes,
            final(self).type_slot(t).methods == old(self).type_slot(t).methods,
            final(self).type_slot(t).method_output == old(self).type_slot(t).method_output,
    {
        assert(old(self).type_wf(t.0 as int));
        match &mut self.slots[t.0] {
            SlotData::SmTypeSlot(ts) => {
                ts.fields.set(name, field);
            },
            _ => {},
        }
        proof {
            let fs = self.type_slot(t).fields;
            assert forall|k: Seq<char>| #[trigger] fs.has_key(k) implies self.is_field(fs.value_of(k)) by {
                if k != name@ {
                    assert(old(self).type_slot(t).fields.has_key(k));
                }
            }
            lemma_wf_after_type_update(old(self), self, t);
        }
    }

    /// Puts method slot `method`, declared in `t`, under its name among the
    /// methods of `t`.
    pub fn add_method(&mut self, t: Symbol, name: String, method: Symbol)
        requires
            old(self).wf(),
            old(self).is_type(t),
            old(self).is_method(method),
            old(self).method_slot(method).defined_in == t,
            old(self).name_of(method) == name@,
        ensures
            final(self).wf(),
            final(self).only_type_changed(old(self), t),
            final(self).type_slot(t).methods.has_key(name@),
            final(self).type_slot(t).methods.value_of(name@) == method,
            forall|k: Seq<char>|
                k != name@ && #[trigger] old(self).type_slot(t).methods.has_key(k)
                    ==> final(self).type_slot(t).methods.has_key(k)
                    && final(self).type_slot(t).methods.value_of(k) == old(self).type_slot(t).methods.value_of(k),
            forall|k: Seq<char>|
                #[trigger] final(self).type_slot(t).methods.has_key(k)
                    ==> k == name@ || old(self).type_slot(t).methods.has_key(k),
            final(self).type_slot(t).inherits == old(self).type_slot(t).inherits,
            final(self).type_slot(t).subtypes == old(self).type_slot(t).subtypes,
            final(self).type_slot(t).fields == old(self).type_slot(t).fields,
            final(self).type_slot(t).method_output == old(self).type_slot(t).method_output,
    {
        assert(old(self).type_wf(t.0 as int));
        match &mut self.slots[t.0] {
            SlotData::SmTypeSlot(ts) => {
                ts.methods.set(name, method);
            },
            _ => {},
        }
        proof {
            let ms = self.type_slot(t).methods;
            assert forall|k: Seq<char>| #[trigger] ms.has_key(k) implies self.is_method(ms.value_of(k))
                && self.method_slot(ms.value_of(k)).defined_in == t
                && self.name_of(ms.value_of(k)) == k by {
                if k != name@ {
                    assert(old(self).type_slot(t).methods.has_key(k));
                    assert(ms.value_of(k).0 != t.0);
                } else {
                    assert(method.0 != t.0);
                }
            }
            assert forall|k: Seq<char>| #[trigger] ms.has_key(k) implies k == name@ || old(self).type_slot(t).methods.has_key(k) by {
                if k != name@ {
                    assert(ms.keys().contains(k));
                }
            }
            lemma_wf_after_type_update(old(self), self, t);
        }
    }

    /// Appends `code` to the `impl` block contents generated for `t`.
    pub fn append_method_output(&mut self, t: Symbol, code: &str)
        requires
            old(self).wf(),
            old(self).is_type(t),
        ensures
            final(self).wf(),
            final(self).only_type_changed(old(self), t),
            final(self).type_slot(t).method_output@ == old(self).type_slot(t).method_output@ + code@,
            final(self).type_slot(t).inherits == old(self).type_slot(t).inherits,
            final(self).type_slot(t).subtypes == old(self).type_slot(t).subtypes,
            final(self).type_slot(t).fields == old(self).type_slot(t).fields,
            final(self).type_slot(t).methods == old(self).type_slot(t).methods,
    {
        assert(old(self).type_wf(t.0 as int));
        match &mut self.slots[t.0] {
            SlotData::SmTypeSlot(ts) => {
                ts.method_output.append(code);
            },
            _ => {},
        }
        proof {
            lemma_wf_after_type_update(old(self), self, t);
        }
    }

    /// Sets the base of type `t`, which must have been registered before it.
    fn set_type_inherits(&mut self, t: Symbol, value: Option<Symbol>)
        requires
            old(self).wf(),
            old(self).nodes().len() == 0,
            old(self).is_type(t),
            match value {
                Some(p) => old(self).is_type(p) && p.0 < t.0,
                None => true,
            },
        ensures
            final(self).wf(),
            final(self).only_type_changed(old(self), t),
            final(self).parent(t) == value,
            final(self).type_slot(t).subtypes == old(self).type_slot(t).subtypes,
            final(self).type_slot(t).fields == old(self).type_slot(t).fields,
            final(self).type_slot(t).methods == old(self).type_slot(t).methods,
            final(self).type_slot(t).method_output == old(self).type_slot(t).method_output,
    {
        assert(old(self).type_wf(t.0 as int));
        match &mut self.slots[t.0] {
            SlotData::SmTypeSlot(ts) => {
                ts.inherits = value;
            },
            _ => {},
        }
        proof {
            lemma_wf_after_type_update(old(self), self, t);
        }
    }

    /// Sets the documentation of method `m`.
    fn set_method_doc(&mut self, m: Symbol, doc: Vec<String>)
        requires
            old(self).wf(),
            old(self).is_method(m),
        ensures
            final(self).wf(),
            final(self).slots().len() == old(self).slots().len(),
            final(self).nodes() == old(self).nodes(),
            forall|i: int| 0 <= i < old(self).slots().len() && i != m.0 ==> #[trigger] final(self).slots()[i] == old(self).slots()[i],
            final(self).is_method(m),
            final(self).node_levels() == old(self).node_levels(),
            final(self).name_of(m) == old(self).name_of(m),
            final(self).method_slot(m).doc_attribute == doc,
            final(self).method_slot(m).defined_in == old(self).method_slot(m).defined_in,
            final(self).method_slot(m).override_root == old(self).method_slot(m).override_root,
    {
        match &mut self.slots[m.0] {
            SlotData::MethodSlot(ms) => {
                ms.doc_attribute = doc;
            },
            _ => {},
        }
        proof {
            assert forall|i: int|
                0 <= i < old(self).slots().len() && #[trigger] old(self).slots()[i] is SmTypeSlot implies self.slots()[i] is SmTypeSlot
                    && self.parent(Symbol(i as usize)) == old(self).parent(Symbol(i as usize)) by {
                assert(i != m.0);
            }
            lemma_levels_transfer(old(self), self);
            assert forall|i: int|
                0 <= i < self.slots().len() && self.slots()[i] is SmTypeSlot implies #[trigger] self.type_wf(i) by {
                assert(old(self).type_wf(i));
                let ts = self.type_slot(Symbol(i as usize));
                assert forall|k: Seq<char>| #[trigger] ts.methods.has_key(k) implies self.is_method(ts.methods.value_of(k))
                    && self.method_slot(ts.methods.value_of(k)).defined_in == Symbol(i as usize)
                    && self.name_of(ts.methods.value_of(k)) == k by {
                    assert(old(self).is_method(ts.methods.value_of(k)));
                }
            }
            assert forall|i: int|
                0 <= i < self.slots().len() && self.slots()[i] is MethodSlot implies #[trigger] self.method_wf(i) by {
                assert(old(self).method_wf(i));
            }
            assert forall|n: int| 0 <= n < self.nodes().len() implies #[trigger] self.node_wf(n) by {
                assert(old(self).node_wf(n));
            }
        }
    }
}

impl LmtFactory {
    /// The number of slots created so far.
    pub fn slot_count(&self) -> (r: usize)
        ensures
            r == self.slots().len(),
    {
        self.slots.len()
    }

    /// The override trie node at `n`.
    pub fn override_node(&self, n: usize) -> (r: &OverrideLogicMapping)
        requires
            n < self.nodes().len(),
        ensures
            *r == self.nodes()[n as int],
    {
        &self.nodes[n]
    }

    /// A new trie node without code or children; its index is returned.
    pub fn create_override_node(&mut self, level: Ghost<nat>) -> (r: usize)
        requires
            old(self).wf(),
        ensures
            final(self).node_levels() == old(self).node_levels().push(level@),
            final(self).wf(),
            final(self).slots() == old(self).slots(),
            r == old(self).nodes().len(),
            final(self).nodes().len() == old(self).nodes().len() + 1,
            forall|i: int| 0 <= i < old(self).nodes().len() ==> #[trigger] final(self).nodes()[i] == old(self).nodes()[i],
            final(self).nodes()[r as int].code() is None,
            final(self).nodes()[r as int].children().len() == 0,
    {
        let r = self.nodes.len();
        self.nodes.push(OverrideLogicMapping::new());
        proof {
            self.levels = Ghost(self.levels@.push(level@));
            self.lemma_wf_nodes_grow(old(self));
        }
        r
    }

    /// Makes `child` the node of subtype `key` under node `n`.
    pub fn set_override_child(&mut self, n: usize, key: Symbol, child: usize)
        requires
            old(self).wf(),
            n < child < old(self).nodes().len(),
            old(self).is_type(key),
            old(self).depth(key) == old(self).node_levels()[n as int],
            old(self).node_levels()[child as int] == old(self).node_levels()[n as int] + 1,
        ensures
            final(self).wf(),
            final(self).node_levels() == old(self).node_levels(),
            final(self).slots() == old(self).slots(),
            final(self).nodes().len() == old(self).nodes().len(),
            forall|i: int| 0 <= i < old(self).nodes().len() && i != n ==> #[trigger] final(self).nodes()[i] == old(self).nodes()[i],
            final(self).nodes()[n as int].code_string() == old(self).nodes()[n as int].code_string(),
            final(self).nodes()[n as int].children().has_key(key@),
            final(self).nodes()[n as int].children().value_of(key@) == child,
            forall|k: usize|
                k != key@ && #[trigger] old(self).nodes()[n as int].children().has_key(k)
                    ==> final(self).nodes()[n as int].children().has_key(k)
                    && final(self).nodes()[n as int].children().value_of(k) == old(self).nodes()[n as int].children().value_of(k),
    {
        assert(old(self).node_wf(n as int));
        self.nodes[n].set_child(key, child);
        proof {
            assert forall|x: Symbol| #[trigger] old(self).is_type(x) implies self.depth(x) == old(self).depth(x) by {
                lemma_depth_stable(old(self), self, x);
            }
            assert forall|m: int| 0 <= m < self.nodes().len() implies #[trigger] self.node_wf(m) by {
                assert(old(self).node_wf(m));
                let c = self.nodes()[m].children();
                assert forall|k: usize| #[trigger] c.has_key(k) implies m < c.value_of(k) < self.nodes().len()
                    && self.is_type(Symbol(k)) && self.depth(Symbol(k)) == self.node_levels()[m]
                    && self.node_levels()[c.value_of(k) as int] == self.node_levels()[m] + 1 by {
                    if m == n && k != key@ {
                        assert(old(self).nodes()[m].children().has_key(k));
                    }
                    if m != n || k != key@ {
                        assert(old(self).nodes()[m].children().has_key(k));
                        assert(old(self).is_type(Symbol(k)));
                    }
                }
            }
            self.lemma_wf_same_slots(old(self));
        }
    }

    /// Sets the code of node `n`.
    pub fn set_override_code(&mut self, n: usize, code: Option<String>)
        requires
            old(self).wf(),
            n < old(self).nodes().len(),
        ensures
            final(self).wf(),
            final(self).slots() == old(self).slots(),
            final(self).node_levels() == old(self).node_levels(),
            final(self).nodes().len() == old(self).nodes().len(),
            forall|i: int| 0 <= i < old(self).nodes().len() && i != n ==> #[trigger] final(self).nodes()[i] == old(self).nodes()[i],
            final(self).nodes()[n as int].code_string() == code,
            final(self).nodes()[n as int].children() == old(self).nodes()[n as int].children(),
    {
        self.nodes[n].set_override_code(code);
        proof {
            lemma_levels_transfer(old(self), self);
            self.lemma_wf_same_slots(old(self));
        }
    }

    proof fn lemma_wf_nodes_grow(&self, old: &LmtFactory)
        requires
            old.wf(),
            self.slots() == old.slots(),
            old.nodes().len() < self.nodes().len(),
            forall|i: int| 0 <= i < old.nodes().len() ==> #[trigger] self.nodes()[i] == old.nodes()[i],
            forall|i: int| old.nodes().len() <= i < self.nodes().len() ==> #[trigger] self.nodes()[i].children().len() == 0 && self.nodes()[i].children().wf(),
            self.node_levels().len() == self.nodes().len(),
            forall|n: int| 0 <= n < old.nodes().len() ==> #[trigger] self.node_levels()[n] == old.node_levels()[n],
        ensures
            self.wf(),
    {
        lemma_levels_transfer(old, self);
        assert forall|n: int| 0 <= n < self.nodes().len() implies #[trigger] self.node_wf(n) by {
            if n < old.nodes().len() {
            } else {
                let c = self.nodes()[n].children();
                assert(self.nodes()[n].children().len() == 0);
                assert(c.keys().len() == c.entries().len());
                assert forall|k: usize| #[trigger] c.has_key(k) implies false by {
                    assert(c.keys().len() == 0);
                }
            }
        }
        assert forall|i: int|
            0 <= i < self.slots().len() && self.slots()[i] is SmTypeSlot implies #[trigger] self.type_wf(i) by {
            assert(old.type_wf(i));
        }
        assert forall|i: int|
            0 <= i < self.slots().len() && self.slots()[i] is MethodSlot implies #[trigger] self.method_wf(i) by {
            assert(old.method_wf(i));
        }
    }

    proof fn lemma_wf_same_slots(&self, old: &LmtFactory)
        requires
            old.wf(),
            self.slots() == old.slots(),
            old.nodes().len() == self.nodes().len(),
            self.node_levels() == old.node_levels(),
            forall|n: int| 0 <= n < self.nodes().len() ==> #[trigger] self.node_wf(n),
        ensures
            self.wf(),
    {
        assert forall|x: Symbol| #[trigger] old.is_type(x) implies self.depth(x) == old.depth(x) by {
            lemma_depth_stable(old, self, x);
        }
        assert forall|i: int|
            0 <= i < self.slots().len() && self.slots()[i] is SmTypeSlot implies #[trigger] self.type_wf(i) by {
            assert(old.type_wf(i));
        }
        assert forall|i: int|
            0 <= i < self.slots().len() && self.slots()[i] is MethodSlot implies #[trigger] self.method_wf(i) by {
            assert(old.method_wf(i));
        }
    }
}

impl Symbol {
    pub fn is_smtype_slot(&self, f: &LmtFactory) -> (r: bool)
        requires
            self.0 < f.slots().len(),
        ensures
            r == f.is_type(*self),
    {
        matches!(f.slots[self.0], SlotData::SmTypeSlot(_))
    }

    pub fn is_field_slot(&self, f: &LmtFactory) -> (r: bool)
        requires
            self.0 < f.slots().len(),
        ensures
            r == f.is_field(*self),
    {
        matches!(f.slots[self.0], SlotData::FieldSlot(_))
    }

    pub fn is_method_slot(&self, f: &LmtFactory) -> (r: bool)
        requires
            self.0 < f.slots().len(),
        ensures
            r == f.is_method(*self),
    {
        matches!(f.slots[self.0], SlotData::MethodSlot(_))
    }

    pub fn name(&self, f: &LmtFactory) -> (r: String)
        requires
            self.0 < f.slots().len(),
        ensures
            r@ == f.name_of(*self),
    {
        match &f.slots[self.0] {
            SlotData::SmTypeSlot(t) => t.name.clone(),
            SlotData::FieldSlot(t) => t.name.clone(),
            SlotData::MethodSlot(t) => t.name.clone(),
        }
    }

    /// The same as `name`: a symbol reads as its name.
    pub fn to_string(&self, f: &LmtFactory) -> (r: String)
        requires
            self.0 < f.slots().len(),
        ensures
            r@ == f.name_of(*self),
    {
        self.name(f)
    }

    fn type_ref<'a>(&self, f: &'a LmtFactory) -> (r: &'a SmTypeSlot)
        requires
            f.is_type(*self),
        ensures
            *r == f.type_slot(*self),
    {
        match &f.slots[self.0] {
            SlotData::SmTypeSlot(t) => t,
            _ => unreached(),
        }
    }

    fn field_ref<'a>(&self, f: &'a LmtFactory) -> (r: &'a FieldSlot)
        requires
            f.is_field(*self),
        ensures
            *r == f.field_slot(*self),
    {
        match &f.slots[self.0] {
            SlotData::FieldSlot(t) => t,
            _ => unreached(),
        }
    }

    fn method_ref<'a>(&self, f: &'a LmtFactory) -> (r: &'a MethodSlot)
        requires
            f.is_method(*self),
        ensures
            *r == f.method_slot(*self),
    {
        match &f.slots[self.0] {
            SlotData::MethodSlot(t) => t,
            _ => unreached(),
        }
    }

    pub fn inherits(&self, f: &LmtFactory) -> (r: Option<Symbol>)
        requires
            f.is_type(*self),
        ensures
            r == f.parent(*self),
    {
        self.type_ref(f).inherits
    }

    /// Sets the base of this type, which must have been registered before
    /// it.
    pub fn set_inherits(&self, f: &mut LmtFactory, value: Option<Symbol>)
        requires
            old(f).wf(),
            old(f).nodes().len() == 0,
            old(f).is_type(*self),
            match value {
                Some(p) => old(f).is_type(p) && p.0 < self.0,
                None => true,
            },
        ensures
            final(f).wf(),
            final(f).only_type_changed(old(f), *self),
            final(f).parent(*self) == value,
            final(f).type_slot(*self).subtypes == old(f).type_slot(*self).subtypes,
            final(f).type_slot(*self).fields == old(f).type_slot(*self).fields,
            final(f).type_slot(*self).methods == old(f).type_slot(*self).methods,
            final(f).type_slot(*self).method_output == old(f).type_slot(*self).method_output,
    {
        f.set_type_inherits(*self, value);
    }

    pub fn subtypes<'a>(&self, f: &'a LmtFactory) -> (r: &'a SharedArray<Symbol>)
        requires
            f.is_type(*self),
        ensures
            *r == f.type_slot(*self).subtypes,
    {
        &self.type_ref(f).subtypes
    }

    pub open spec fn fields_view(&self, f: &LmtFactory) -> Seq<(String, Symbol)> {
        f.type_slot(*self).fields.entries()
    }

    pub fn fields<'a>(&self, f: &'a LmtFactory) -> (r: &'a SharedMap<String, Symbol>)
        requires
            f.is_type(*self),
        ensures
            *r == f.type_slot(*self).fields,
    {
        &self.type_ref(f).fields
    }

    pub fn methods<'a>(&self, f: &'a LmtFactory) -> (r: &'a SharedMap<String, Symbol>)
        requires
            f.is_type(*self),
        ensures
            *r == f.type_slot(*self).methods,
    {
        &self.type_ref(f).methods
    }

    /// The contents of the `impl` block generated so far for this type.
    pub fn method_output<'a>(&self, f: &'a LmtFactory) -> (r: &'a String)
        requires
            f.is_type(*self),
        ensures
            *r == f.type_slot(*self).method_output,
    {
        &self.type_ref(f).method_output
    }

    pub fn field_type(&self, f: &LmtFactory) -> (r: String)
        requires
            f.is_field(*self),
        ensures
            r@ == f.field_slot(*self).field_type@,
    {
        self.field_ref(f).field_type.clone()
    }

    pub fn field_init(&self, f: &LmtFactory) -> (r: String)
        requires
            f.is_field(*self),
        ensures
            r@ == f.field_slot(*self).field_init@,
    {
        self.field_ref(f).field_init.clone()
    }

    pub fn is_ref(&self, f: &LmtFactory) -> (r: bool)
        requires
            f.is_field(*self),
        ensures
            r == f.field_slot(*self).is_ref,
    {
        self.field_ref(f).is_ref
    }

    pub fn defined_in(&self, f: &LmtFactory) -> (r: Symbol)
        requires
            f.is_method(*self),
        ensures
            r == f.method_slot(*self).defined_in,
    {
        self.method_ref(f).defined_in
    }

    pub fn doc_attribute(&self, f: &LmtFactory) -> (r: Vec<String>)
        requires
            f.is_method(*self),
        ensures
            r@.len() == f.method_slot(*self).doc_attribute@.len(),
            forall|i: int|
                0 <= i < r@.len() ==> (#[trigger] r@[i])@ == f.method_slot(*self).doc_attribute@[i]@,
    {
        let doc = &self.method_ref(f).doc_attribute;
        let mut out: Vec<String> = Vec::new();
        let mut i: usize = 0;
        while i < doc.len()
            invariant
                i <= doc@.len(),
                out@.len() == i,
                forall|j: int| 0 <= j < i ==> (#[trigger] out@[j])@ == doc@[j]@,
            decreases doc@.len() - i,
        {
            out.push(doc[i].clone());
            i += 1;
        }
        out
    }

    pub fn set_doc_attribute(&self, f: &mut LmtFactory, attr: Vec<String>)
        requires
            old(f).wf(),
            old(f).is_method(*self),
        ensures
            final(f).wf(),
            final(f).slots().len() == old(f).slots().len(),
            final(f).nodes() == old(f).nodes(),
            forall|i: int|
                0 <= i < old(f).slots().len() && i != self.0 ==> #[trigger] final(f).slots()[i]
                    == old(f).slots()[i],
            final(f).is_method(*self),
            final(f).node_levels() == old(f).node_levels(),
            final(f).name_of(*self) == old(f).name_of(*self),
            final(f).method_slot(*self).doc_attribute == attr,
            final(f).method_slot(*self).defined_in == old(f).method_slot(*self).defined_in,
            final(f).method_slot(*self).override_root == old(f).method_slot(*self).override_root,
    {
        f.set_method_doc(*self, attr);
    }

    /// The root node of this method's override trie.
    pub fn override_root(&self, f: &LmtFactory) -> (r: usize)
        requires
            f.is_method(*self),
        ensures
            r == f.method_slot(*self).override_root,
    {
        self.method_ref(f).override_root
    }

    /// Mapping from subtype to override logic, at the top of this method's
    /// override trie.
    pub fn override_logic_mapping<'a>(&self, f: &'a LmtFactory) -> (r: &'a SharedMap<Symbol, usize>)
        requires
            f.wf(),
            f.is_method(*self),
        ensures
            *r == f.nodes()[f.method_slot(*self).override_root as int].children(),
    {
        assert(f.method_wf(self.0 as int));
        f.override_node(self.method_ref(f).override_root).override_logic_mapping()
    }
}

/// `MN(...(M1(` for names `M1 ... MN`: the opening of the handle layers of
/// a chain, most derived outermost.
pub open spec fn open_layers(names: Seq<Seq<char>>) -> Seq<char>
    decreases names.len(),
{
    if names.len() == 0 {
        Seq::empty()
    } else {
        open_layers(names.drop_first()) + names[0] + "("@
    }
}

/// `n` closing parentheses.
pub open spec fn closing_parens(n: nat) -> Seq<char>
    decreases n,
{
    if n == 0 {
        Seq::empty()
    } else {
        closing_parens((n - 1) as nat) + ")"@
    }
}

/// The handle of the type at the end of a chain with names `names`, built
/// over a clone of the root pointer `base`.
pub open spec fn layers_text(names: Seq<Seq<char>>, base: Seq<char>) -> Seq<char> {
    open_layers(names) + base + ".clone()"@ + closing_parens(names.len())
}

impl LmtFactory {
    pub open spec fn names_of(&self, list: Seq<Symbol>) -> Seq<Seq<char>> {
        list.map_values(|s: Symbol| self.name_of(s))
    }
}

impl Symbol {
    /// The ascending chain of this type: root first, this type last.
    pub fn asc_smtype_list(&self, f: &LmtFactory) -> (r: Vec<Symbol>)
        requires
            f.wf(),
            f.is_type(*self),
        ensures
            r@ == f.chain(*self),
    {
        let mut out: Vec<Symbol> = vec![*self];
        let mut m = self.inherits(f);
        assert(f.type_wf(self.0 as int));
        while m.is_some()
            invariant
                f.wf(),
                f.is_type(*self),
                match m {
                    Some(c) => f.is_type(c) && f.chain(*self) == f.chain(c) + out@,
                    None => f.chain(*self) == out@,
                },
            decreases
                match m {
                    Some(c) => c.0 + 1,
                    None => 0,
                },
        {
            let m1 = m.unwrap();
            assert(f.type_wf(m1.0 as int));
            let ghost before = out@;
            out.insert(0, m1);
            m = m1.inherits(f);
            proof {
                match m {
                    Some(p) => {
                        assert(f.chain(m1) == f.chain(p).push(m1));
                        assert(f.chain(p) + out@ =~= f.chain(p).push(m1) + before);
                    },
                    None => {
                        assert(out@ =~= seq![m1] + before);
                    },
                }
            }
        }
        out
    }

    /// `MN(...(M1(base.clone()))...)`: the handle of the last type of `list`
    /// over the root pointer `base`.
    pub fn create_layers_over_weak_root(base: &str, list: &[Symbol], f: &LmtFactory) -> (r: String)
        requires
            forall|i: int| 0 <= i < list@.len() ==> (#[trigger] list@[i]).0 < f.slots().len(),
        ensures
            r@ == layers_text(f.names_of(list@), base@),
    {
        let ghost names = f.names_of(list@);
        let mut layers = String::new();
        let mut i: usize = list.len();
        while i > 0
            invariant
                i <= list@.len(),
                names == f.names_of(list@),
                forall|j: int| 0 <= j < list@.len() ==> (#[trigger] list@[j]).0 < f.slots().len(),
                layers@ == open_layers(names.subrange(i as int, names.len() as int)),
            decreases i,
        {
            i -= 1;
            let name = list[i].name(f);
            let ghost prev = layers@;
            layers.append(name.as_str());
            layers.append("(");
            proof {
                let s = names.subrange(i as int, names.len() as int);
                assert(s.drop_first() =~= names.subrange(i + 1, names.len() as int));
                assert(s[0] == name@);
                assert(layers@ =~= prev + name@ + "("@);
            }
        }
        assert(names.subrange(0, names.len() as int) =~= names);
        layers.append(base);
        layers.append(".clone()");
        let mut parens: usize = 0;
        let ghost opened = layers@;
        while parens < list.len()
            invariant
                parens <= list@.len(),
                layers@ == opened + closing_parens(parens as nat),
            decreases list@.len() - parens,
        {
            layers.append(")");
            parens += 1;
            assert(layers@ =~= opened + closing_parens(parens as nat));
        }
        layers
    }

    /// The method named `name` declared by the nearest strict ancestor of
    /// this type that declares one.
    pub fn lookup_method_in_base_smtype(&self, name: &str, f: &LmtFactory) -> (r: Option<Symbol>)
        requires
            f.wf(),
            f.is_type(*self),
        ensures
            r == f.base_method(*self, name@),
    {
        let key = name.to_owned();
        let mut m = *self;
        loop
            invariant
                f.wf(),
                f.is_type(m),
                key@ == name@,
                f.base_method(*self, name@) == f.base_method(m, name@),
            decreases m.0,
        {
            assert(f.type_wf(m.0 as int));
            match m.inherits(f) {
                None => {
                    return None;
                },
                Some(m1) => {
                    assert(f.type_wf(m1.0 as int));
                    let mt = m1.methods(f).get(&key);
                    if let Some(found) = mt {
                        return Some(found);
                    }
                    m = m1;
                },
            }
        }
    }
}

/// The entry at `k` of the fields of `t` names a field slot.
pub proof fn lemma_field_entry(f: &LmtFactory, t: Symbol, k: int)
    requires
        f.wf(),
        f.is_type(t),
        0 <= k < f.type_slot(t).fields.len(),
    ensures
        f.is_field(f.type_slot(t).fields.entries()[k].1),
{
    assert(f.type_wf(t.0 as int));
    let fs = f.type_slot(t).fields;
    let key = fs.keys()[k];
    assert(fs.has_key(key));
    crate::shared_map::lemma_value_at(&fs, k);
}

impl LmtFactory {
    /// The node reached from node `n` by following the children keyed by
    /// the types of `path` in turn.
    pub open spec fn trie_walk(&self, n: int, path: Seq<Symbol>) -> Option<int>
        decreases path.len(),
    {
        if path.len() == 0 {
            Some(n)
        } else {
            let c = self.nodes()[n].children();
            if c.has_key(path[0]@) {
                self.trie_walk(c.value_of(path[0]@) as int, path.drop_first())
            } else {
                None
            }
        }
    }
}

/// A walk reads the nodes only.
pub proof fn lemma_trie_walk_same_nodes(a: &LmtFactory, b: &LmtFactory, n: int, path: Seq<Symbol>)
    requires
        a.nodes() == b.nodes(),
    ensures
        a.trie_walk(n, path) == b.trie_walk(n, path),
    decreases path.len(),
{
    if path.len() > 0 {
        let c = a.nodes()[n].children();
        if c.has_key(path[0]@) {
            lemma_trie_walk_same_nodes(a, b, c.value_of(path[0]@) as int, path.drop_first());
        }
    }
}

/// A walk ends at a node no smaller than where it starts, and larger after
/// at least one step.
pub proof fn lemma_trie_walk_bounds(f: &LmtFactory, n: int, path: Seq<Symbol>)
    requires
        f.wf(),
        0 <= n < f.nodes().len(),
        f.trie_walk(n, path) is Some,
    ensures
        n <= f.trie_walk(n, path)->0 < f.nodes().len(),
        path.len() > 0 ==> n < f.trie_walk(n, path)->0,
    decreases path.len(),
{
    if path.len() > 0 {
        assert(f.node_wf(n));
        let c = f.nodes()[n].children().value_of(path[0]@) as int;
        lemma_trie_walk_bounds(f, c, path.drop_first());
    }
}

/// Extending a walk by one more child.
pub proof fn lemma_trie_walk_extend(f: &LmtFactory, n: int, path: Seq<Symbol>, x: Symbol)
    requires
        f.trie_walk(n, path) is Some,
        f.nodes()[f.trie_walk(n, path)->0].children().has_key(x@),
    ensures
        f.trie_walk(n, path.push(x)) == Some(
            f.nodes()[f.trie_walk(n, path)->0].children().value_of(x@) as int,
        ),
    decreases path.len(),
{
    if path.len() > 0 {
        let c = f.nodes()[n].children().value_of(path[0]@) as int;
        lemma_trie_walk_extend(f, c, path.drop_first(), x);
        assert(path.push(x).drop_first() =~= path.drop_first().push(x));
        assert(path.push(x)[0] == path[0]);
    } else {
        assert(path.push(x).drop_first() =~= Seq::<Symbol>::empty());
        assert(path.push(x)[0] == x);
        let v = f.nodes()[n].children().value_of(x@) as int;
        assert(f.trie_walk(v, Seq::<Symbol>::empty()) == Some(v));
    }
}

/// A walk that ends at node `c` stays the same when only nodes from `c`
/// on change.
pub proof fn lemma_trie_walk_stable(a: &LmtFactory, b: &LmtFactory, n: int, path: Seq<Symbol>)
    requires
        a.wf(),
        0 <= n < a.nodes().len(),
        a.trie_walk(n, path) is Some,
        a.nodes().len() <= b.nodes().len(),
        forall|x: int|
            0 <= x < a.trie_walk(n, path)->0 ==> (#[trigger] b.nodes()[x]).children() == a.nodes()[x].children(),
    ensures
        b.trie_walk(n, path) == a.trie_walk(n, path),
    decreases path.len(),
{
    lemma_trie_walk_bounds(a, n, path);
    if path.len() > 0 {
        assert(b.nodes()[n].children() == a.nodes()[n].children());
        assert(a.node_wf(n));
        let c = a.nodes()[n].children().value_of(path[0]@) as int;
        lemma_trie_walk_stable(a, b, c, path.drop_first());
    }
}

/// What a type's ancestry says (its chain, depth and the methods found
/// above it) depends on the slots before it only.
pub proof fn lemma_hierarchy_stable(a: &LmtFactory, b: &LmtFactory, t: Symbol)
    requires
        a.wf(),
        b.wf(),
        a.is_type(t),
        b.is_type(t),
        a.parent(t) == b.parent(t),
        a.name_of(t) == b.name_of(t),
        a.slots().len() <= b.slots().len(),
        forall|i: int| 0 <= i < t.0 ==> #[trigger] b.slots()[i] == a.slots()[i],
    ensures
        b.chain(t) == a.chain(t),
        b.depth(t) == a.depth(t),
        b.names_of(a.chain(t)) == a.names_of(a.chain(t)),
        forall|n: Seq<char>| #[trigger] b.base_method(t, n) == a.base_method(t, n),
        forall|i: int| 0 <= i < a.chain(t).len() ==> #[trigger] b.depth(a.chain(t)[i]) == a.depth(a.chain(t)[i]),
    decreases t.0,
{
    assert(a.type_wf(t.0 as int));
    lemma_asc_chain_shape(a, t);
    match a.parent(t) {
        Some(p) => {
            assert(b.slots()[p.0 as int] == a.slots()[p.0 as int]);
            assert(b.type_slot(p) == a.type_slot(p));
            lemma_hierarchy_stable(a, b, p);
            assert(a.chain(t) == a.chain(p).push(t));
            assert(b.chain(t) == b.chain(p).push(t));
            assert forall|n: Seq<char>| #[trigger] b.base_method(t, n) == a.base_method(t, n) by {
                assert(b.own_method(p, n) == a.own_method(p, n));
                assert(b.base_method(p, n) == a.base_method(p, n));
            }
            assert forall|i: int| 0 <= i < a.chain(t).len() implies #[trigger] b.names_of(a.chain(t))[i] == a.names_of(a.chain(t))[i] by {
                if i < a.chain(t).len() - 1 {
                    assert(a.chain(t)[i] == a.chain(p)[i]);
                    assert(b.names_of(a.chain(p))[i] == a.names_of(a.chain(p))[i]);
                }
            }
            assert(b.names_of(a.chain(t)) =~= a.names_of(a.chain(t)));
            assert forall|i: int| 0 <= i < a.chain(t).len() implies #[trigger] b.depth(a.chain(t)[i]) == a.depth(a.chain(t)[i]) by {
                if i < a.chain(t).len() - 1 {
                    assert(a.chain(t)[i] == a.chain(p)[i]);
                }
            }
        },
        None => {
            assert(b.names_of(a.chain(t)) =~= a.names_of(a.chain(t)));
        },
    }
}

/// A factory whose slots differ from a well-formed one only in the record of
/// type `t`, which keeps its name and is itself well formed, is well formed.
proof fn lemma_wf_after_type_update(a: &LmtFactory, b: &LmtFactory, t: Symbol)
    requires
        a.wf(),
        a.is_type(t),
        b.slots().len() == a.slots().len(),
        b.nodes() == a.nodes(),
        b.is_type(t),
        b.name_of(t) == a.name_of(t),
        forall|i: int| 0 <= i < a.slots().len() && i != t.0 ==> #[trigger] b.slots()[i] == a.slots()[i],
        b.type_wf(t.0 as int),
        b.node_levels() == a.node_levels(),
        b.parent(t) == a.parent(t) || a.nodes().len() == 0,
    ensures
        b.wf(),
{
    if b.parent(t) == a.parent(t) {
        lemma_levels_transfer(a, b);
    }
    assert forall|i: int|
        0 <= i < b.slots().len() && b.slots()[i] is SmTypeSlot implies #[trigger] b.type_wf(i) by {
        if i != t.0 {
            assert(a.type_wf(i));
            assert(b.type_slot(Symbol(i as usize)) == a.type_slot(Symbol(i as usize)));
            let ts = b.type_slot(Symbol(i as usize));
            assert forall|k: Seq<char>| #[trigger] ts.methods.has_key(k) implies b.is_method(ts.methods.value_of(k))
                && b.method_slot(ts.methods.value_of(k)).defined_in == Symbol(i as usize)
                && b.name_of(ts.methods.value_of(k)) == k by {
                let m = ts.methods.value_of(k);
                assert(a.is_method(m));
                assert(m.0 != t.0);
            }
        }
    }
    assert forall|i: int|
        0 <= i < b.slots().len() && b.slots()[i] is MethodSlot implies #[trigger] b.method_wf(i) by {
        assert(a.method_wf(i));
    }
    assert forall|n: int| 0 <= n < b.nodes().len() implies #[trigger] b.node_wf(n) by {
        assert(a.node_wf(n));
    }
}

/// A type's depth depends on the bases of the types only.
pub proof fn lemma_depth_stable(a: &LmtFactory, b: &LmtFactory, x: Symbol)
    requires
        a.wf(),
        a.is_type(x),
        b.same_parents(a),
    ensures
        b.depth(x) == a.depth(x),
    decreases x.0,
{
    assert(a.type_wf(x.0 as int));
    assert(a.slots()[x.0 as int] is SmTypeSlot);
    match a.parent(x) {
        Some(p) => {
            lemma_depth_stable(a, b, p);
        },
        None => {},
    }
}

/// Nodes that stay as they were, with their levels, stay well formed when
/// the types keep their bases.
pub proof fn lemma_levels_transfer(a: &LmtFactory, b: &LmtFactory)
    requires
        a.wf(),
        b.same_parents(a),
        a.slots().len() <= b.slots().len(),
        a.nodes().len() <= b.nodes().len(),
        b.node_levels().len() == b.nodes().len(),
        forall|n: int| 0 <= n < a.nodes().len() ==> (#[trigger] b.nodes()[n]).children() == a.nodes()[n].children(),
        forall|n: int| 0 <= n < a.nodes().len() ==> #[trigger] b.node_levels()[n] == a.node_levels()[n],
    ensures
        forall|x: Symbol| #[trigger] a.is_type(x) ==> b.depth(x) == a.depth(x),
        forall|n: int| 0 <= n < a.nodes().len() ==> #[trigger] b.node_wf(n),
{
    assert forall|x: Symbol| #[trigger] a.is_type(x) implies b.depth(x) == a.depth(x) by {
        lemma_depth_stable(a, b, x);
    }
    assert forall|n: int| 0 <= n < a.nodes().len() implies #[trigger] b.node_wf(n) by {
        assert(a.node_wf(n));
        let c = a.nodes()[n].children();
        assert forall|k: usize| #[trigger] c.has_key(k) implies n < c.value_of(k) < b.nodes().len()
            && b.is_type(Symbol(k)) && b.depth(Symbol(k)) == b.node_levels()[n]
            && b.node_levels()[c.value_of(k) as int] == b.node_levels()[n] + 1 by {
            assert(a.is_type(Symbol(k)));
            assert(a.slots()[k as int] is SmTypeSlot);
        }
    }
}

} // verus!

verus! {

/// The ascending chain of a type at depth `d` from the root has `d + 1`
/// entries: the root first, the type itself last, and each entry the direct
/// base of the one after it.
pub proof fn lemma_asc_chain_shape(f: &LmtFactory, t: Symbol)
    requires
        f.wf(),
        f.is_type(t),
    ensures
        f.chain(t).len() == f.depth(t) + 1,
        f.parent(f.chain(t)[0]) is None,
        f.chain(t).last() == t,
        forall|i: int| 0 <= i < f.chain(t).len() ==> f.is_type(#[trigger] f.chain(t)[i]),
        forall|i: int|
            0 < i < f.chain(t).len() ==> f.parent(#[trigger] f.chain(t)[i]) == Some(f.chain(t)[i - 1]),
    decreases t.0,
{
    assert(f.type_wf(t.0 as int));
    match f.parent(t) {
        Some(p) => {
            lemma_asc_chain_shape(f, p);
            let c = f.chain(t);
            assert(c == f.chain(p).push(t));
            assert forall|i: int| 0 < i < c.len() implies f.parent(#[trigger] c[i]) == Some(c[i - 1]) by {
                if i < c.len() - 1 {
                    assert(c[i] == f.chain(p)[i]);
                }
            }
        },
        None => {},
    }
}

/// A `super` call to `name` in a method of type `t` reaches the method of
/// the nearest strict ancestor that declares `name`: that ancestor stands
/// in the chain of `t` before `t`, and no type between it and `t` declares
/// `name`. Where no ancestor declares it, there is no target.
pub proof fn lemma_super_target_is_nearest(f: &LmtFactory, t: Symbol, name: Seq<char>)
    requires
        f.wf(),
        f.is_type(t),
    ensures
        ({
            let c = f.chain(t);
            match f.base_method(t, name) {
                Some(m) => exists|k: int|
                    0 <= k < c.len() - 1 && f.own_method(#[trigger] c[k], name) == Some(m)
                        && f.is_method(m) && f.method_slot(m).defined_in == c[k] && forall|j: int|
                        k < j < c.len() - 1 ==> (#[trigger] f.own_method(c[j], name)) is None,
                None => forall|j: int| 0 <= j < c.len() - 1 ==> (#[trigger] f.own_method(c[j], name)) is None,
            }
        }),
    decreases t.0,
{
    assert(f.type_wf(t.0 as int));
    lemma_asc_chain_shape(f, t);
    match f.parent(t) {
        Some(p) => {
            lemma_super_target_is_nearest(f, p, name);
            lemma_asc_chain_shape(f, p);
            assert(f.type_wf(p.0 as int));
            let c = f.chain(t);
            let cp = f.chain(p);
            assert(c == cp.push(t));
            assert(cp.last() == p);
            match f.own_method(p, name) {
                Some(m) => {
                    let k = cp.len() - 1;
                    assert(c[k] == p);
                    assert(f.own_method(c[k], name) == Some(m));
                },
                None => {
                    match f.base_method(p, name) {
                        Some(m) => {
                            let k = choose|k: int|
                                0 <= k < cp.len() - 1 && f.own_method(#[trigger] cp[k], name) == Some(m)
                                    && f.is_method(m) && f.method_slot(m).defined_in == cp[k]
                                    && forall|j: int|
                                    k < j < cp.len() - 1 ==> (#[trigger] f.own_method(cp[j], name)) is None;
                            assert(c[k] == cp[k]);
                            assert forall|j: int| k < j < c.len() - 1 implies (#[trigger] f.own_method(c[j], name)) is None by {
                                assert(c[j] == cp[j]);
                            }
                        },
                        None => {
                            assert forall|j: int| 0 <= j < c.len() - 1 implies (#[trigger] f.own_method(c[j], name)) is None by {
                                assert(c[j] == cp[j]);
                            }
                        },
                    }
                },
            }
        },
        None => {},
    }
}

} // verus!
