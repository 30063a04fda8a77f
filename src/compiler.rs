use crate::binder::ProcessingStep2;
use crate::constructor::ProcessingStep3_7;
use crate::dispatch::ProcessingStep4_1;
use crate::handle::{attrs_text, root_accessor_of, ProcessingStep3_6};
use crate::host::{Diagnostic, SModelHost};
use crate::layout::ProcessingStep3_2;
use crate::args::argument_problems;
use crate::methods::{begins_with_instance_receiver_spec, begins_with_no_receiver_spec, method_problem_count, ProcessingStep3_8};
use crate::symbol::{LmtFactory, Symbol};
use crate::methods::has_inheritdoc;
use crate::rewrite::{missing_supers, super_call_at};
use crate::tree::{SmType, SmTypeField, SmTypeMethod, SmTypeTree, Token};
use vstd::prelude::*;

verus! {

pub open spec fn arena_alias_text(arena: Seq<char>, path: Seq<char>, root: Seq<char>) -> Seq<char> {
    "pub type "@ + arena + " = "@ + path + "::Arena<__data__::__data_"@ + root + ">; "@
}

pub open spec fn data_module_text(data: Seq<char>) -> Seq<char> {
    "#[allow(non_camel_case_types, non_snake_case)] mod __data__ { use super::*; "@ + data + " } "@
}

/// The variants of the discriminant of a type's record: one per direct
/// subtype `subs`, holding that subtype's record.
pub open spec fn variants_text(f: &LmtFactory, subs: Seq<Symbol>) -> Seq<char>
    decreases subs.len(),
{
    if subs.len() == 0 {
        Seq::empty()
    } else {
        variants_text(f, subs.drop_last()) + "__data_"@ + f.name_of(subs.last()) + "(::std::rc::Rc<__data_"@
            + f.name_of(subs.last()) + ">), "@
    }
}

/// The record of a type: its fields and its discriminant.
pub open spec fn data_struct_text(name: Seq<char>, fields: Seq<char>) -> Seq<char> {
    "pub struct __data_"@ + name + " { "@ + fields + "pub __variant: __variant_"@ + name + ", } "@
}

/// `to` and `is`: a typed downcast attempt and the test that it succeeds.
pub open spec fn to_is_text(name: Seq<char>, path: Seq<char>) -> Seq<char> {
    "pub fn to<T: TryFrom<"@ + name + ", Error = "@ + path + "::SModelError>>(&self) -> Result<T, "@
        + path + "::SModelError> { T::try_from(self.clone()) } pub fn is<T: TryFrom<"@ + name
        + ", Error = "@ + path
        + "::SModelError>>(&self) -> bool { T::try_from(self.clone()).is_ok() } "@
}

/// `s` begins with `p`.
pub open spec fn starts_with(s: Seq<char>, p: Seq<char>) -> bool {
    p.len() <= s.len() && s.subrange(0, p.len() as int) == p
}

/// The parts, joined in order.
pub open spec fn concat(parts: Seq<Seq<char>>) -> Seq<char>
    decreases parts.len(),
{
    if parts.len() == 0 {
        Seq::empty()
    } else {
        concat(parts.drop_last()) + parts.last()
    }
}

/// The storage of each field, in order.
pub open spec fn fields_decl_text(fields: Seq<SmTypeField>) -> Seq<char>
    decreases fields.len(),
{
    if fields.len() == 0 {
        Seq::empty()
    } else {
        fields_decl_text(fields.drop_last()) + crate::layout::field_decl_text(
            fields.last().is_ref,
            fields.last().name@,
            fields.last().type_annotation@,
        )
    }
}

/// The start of the code of a type's handle: its struct, `Eq` and `Debug`.
pub open spec fn handle_head_text(t: SmType, base_name: Option<Seq<char>>) -> Seq<char> {
    crate::handle::handle_struct_text(attrs_text(t.attributes@), t.visibility@, t.name@, base_name)
        + crate::handle::eq_debug_text(t.name@)
}

/// The `impl` block of a type: its methods, then `to` and `is`.
pub open spec fn impl_block_text(name: Seq<char>, body: Seq<char>, path: Seq<char>) -> Seq<char> {
    "impl "@ + name + " { "@ + body + to_is_text(name, path) + " } "@
}

/// The records of a type: the discriminant over its direct subtypes
/// (variants `vs`), and the record with its fields.
pub open spec fn data_part_text(t: SmType, vs: Seq<char>) -> Seq<char> {
    "pub enum __variant_"@ + t.name@ + " { "@ + vs + "__Nothing } "@ + data_struct_text(t.name@, fields_decl_text(t.fields@))
}

/// The name of the base of type `i`, if it has one.
pub open spec fn base_name_of(types: Seq<SmType>, i: int) -> Option<Seq<char>> {
    match base_index(types, i) {
        Some(p) => Some(types[p].name@),
        None => None,
    }
}

/// `d` is the records of type `t`, for some list of variants.
pub open spec fn is_data_part(d: Seq<char>, t: SmType) -> bool {
    exists|vs: Seq<char>| d == #[trigger] data_part_text(t, vs)
}

/// `im` is the `impl` block of a type named `name`, for some methods.
pub open spec fn is_impl_part(im: Seq<char>, name: Seq<char>, path: Seq<char>) -> bool {
    exists|body: Seq<char>| im == #[trigger] impl_block_text(name, body, path)
}

/// `hs`, `ims` and `ds` are, per declared type in order, the code of its
/// handle (starting with its struct, `Eq` and `Debug`), its `impl` block
/// (ending with `to` and `is`) and its records.
pub open spec fn parts_ok(
    types: Seq<SmType>,
    path: Seq<char>,
    hs: Seq<Seq<char>>,
    ims: Seq<Seq<char>>,
    ds: Seq<Seq<char>>,
) -> bool {
    &&& hs.len() == types.len() && ims.len() == types.len() && ds.len() == types.len()
    &&& forall|i: int| 0 <= i < types.len() ==> starts_with(#[trigger] hs[i], handle_head_text(types[i], base_name_of(types, i)))
    &&& forall|i: int| 0 <= i < types.len() ==> is_impl_part(#[trigger] ims[i], types[i].name@, path)
    &&& forall|i: int| 0 <= i < types.len() ==> is_data_part(#[trigger] ds[i], types[i])
}

/// Output that grew by a part beginning with `hd` is the earlier parts
/// and that part.
proof fn lemma_push_part(head: Seq<char>, parts: Seq<Seq<char>>, o0: Seq<char>, o1: Seq<char>, hd: Seq<char>)
    requires
        o0 == head + concat(parts),
        starts_with(o1, o0 + hd),
    ensures
        ({
            let h = o1.subrange(o0.len() as int, o1.len() as int);
            &&& o1 == head + concat(parts.push(h))
            &&& starts_with(h, hd)
        }),
{
    let h = o1.subrange(o0.len() as int, o1.len() as int);
    assert forall|x: int| 0 <= x < hd.len() implies #[trigger] h.subrange(0, hd.len() as int)[x] == hd[x] by {
        assert(o1.subrange(0, (o0 + hd).len() as int)[o0.len() + x] == (o0 + hd)[o0.len() + x]);
    }
    assert(h.subrange(0, hd.len() as int) =~= hd);
    assert(o1.subrange(0, o0.len() as int) =~= o1.subrange(0, (o0 + hd).len() as int).subrange(0, o0.len() as int));
    assert((o0 + hd).subrange(0, o0.len() as int) =~= o0);
    assert(o1 =~= o0 + h);
    assert(parts.push(h).drop_last() =~= parts);
}

/// Output that grew by `part` is the earlier parts and that part.
proof fn lemma_append_part(head: Seq<char>, parts: Seq<Seq<char>>, o0: Seq<char>, o1: Seq<char>, part: Seq<char>)
    requires
        o0 == head + concat(parts),
        o1 == o0 + part,
    ensures
        o1 == head + concat(parts.push(part)),
{
    assert(parts.push(part).drop_last() =~= parts);
    assert(o1 =~= head + concat(parts.push(part)));
}

/// Slots that were there, other than that of `t`, stay as they were; `t`
/// stays a type with its base and name.
pub open spec fn frame_except(a: &LmtFactory, b: &LmtFactory, t: Symbol) -> bool {
    &&& a.slots().len() <= b.slots().len()
    &&& forall|i: int| 0 <= i < a.slots().len() && i != t.0 ==> #[trigger] b.slots()[i] == a.slots()[i]
    &&& b.is_type(t)
    &&& b.parent(t) == a.parent(t)
    &&& b.name_of(t) == a.name_of(t)
}

pub open spec fn field_names(fields: Seq<SmTypeField>) -> Seq<Seq<char>> {
    fields.map_values(|x: SmTypeField| x.name@)
}

/// A method with a receiver: it is an instance method.
pub open spec fn is_instance(m: SmTypeMethod) -> bool {
    !begins_with_no_receiver_spec(m.inputs@)
}

/// Every method has no receiver or exactly `&self`, and no two instance
/// methods share a name.
pub open spec fn methods_ok(ms: Seq<SmTypeMethod>) -> bool {
    &&& forall|j: int| 0 <= j < ms.len() ==> !is_instance(#[trigger] ms[j]) || begins_with_instance_receiver_spec(ms[j].inputs@)
    &&& forall|i: int, j: int|
        0 <= i < j < ms.len() && is_instance(#[trigger] ms[i]) && is_instance(#[trigger] ms[j]) ==> ms[i].name@ != ms[j].name@
}

pub open spec fn declares_instance_method(ms: Seq<SmTypeMethod>, name: Seq<char>) -> bool {
    exists|j: int| 0 <= j < ms.len() && is_instance(#[trigger] ms[j]) && ms[j].name@ == name
}

/// No two fields share a name, and the methods are as `methods_ok` asks.
pub open spec fn type_structure_ok(t: SmType) -> bool {
    field_names(t.fields@).no_duplicates() && methods_ok(t.methods@)
}

pub open spec fn ctor_problem_count(t: SmType) -> nat {
    match t.constructor {
        Some(c) => argument_problems(c.inputs@).len(),
        None => 0,
    }
}

/// The diagnostics that the instance methods `ms` of type `t` give.
pub open spec fn methods_problem_sum(f: &LmtFactory, t: Symbol, ms: Seq<SmTypeMethod>) -> nat
    decreases ms.len(),
{
    if ms.len() == 0 {
        0
    } else {
        methods_problem_sum(f, t, ms.drop_last()) + if is_instance(ms.last()) {
            method_problem_count(f, t, &ms.last())
        } else {
            0
        }
    }
}

/// The position of the type that type `i` names as its base.
pub open spec fn base_index(types: Seq<SmType>, i: int) -> Option<int> {
    match types[i].inherits {
        Some(b) => if exists|k: int| 0 <= k < i && types[k].name@ == b@ {
            Some(choose|k: int| 0 <= k < i && types[k].name@ == b@)
        } else {
            None
        },
        None => None,
    }
}

/// The position of the nearest strict ancestor of type `i` that declares
/// an instance method `name`.
pub open spec fn tree_base_method(types: Seq<SmType>, i: int, name: Seq<char>) -> Option<int>
    decreases i,
{
    if i < 0 || i >= types.len() {
        None
    } else {
        match base_index(types, i) {
            Some(p) => if 0 <= p < i {
                if declares_instance_method(types[p].methods@, name) {
                    Some(p)
                } else {
                    tree_base_method(types, p, name)
                }
            } else {
                None
            },
            None => None,
        }
    }
}

/// How many `super.NAME(` of `tokens`, in a method of type `i`, from
/// position `k`, name no method of an ancestor.
pub open spec fn tree_missing_supers(types: Seq<SmType>, i: int, tokens: Seq<Token>, k: int) -> nat
    decreases tokens.len() - k,
{
    if k < 0 || k >= tokens.len() {
        0
    } else {
        match super_call_at(tokens, k) {
            Some(name) => if tree_base_method(types, i, name) is Some {
                tree_missing_supers(types, i, tokens, k + 4)
            } else {
                1 + tree_missing_supers(types, i, tokens, k + 1)
            },
            None => tree_missing_supers(types, i, tokens, k + 1),
        }
    }
}

/// The diagnostics that instance method `m` of type `i` gives.
pub open spec fn tree_method_problem_count(types: Seq<SmType>, i: int, m: SmTypeMethod) -> nat {
    tree_missing_supers(types, i, m.statements@, 0) + (if has_inheritdoc(m.attributes@) && tree_base_method(types, i, m.name@) is None {
        1nat
    } else {
        0nat
    }) + argument_problems(m.inputs@.drop_first()).len() + (if m.is_override && tree_base_method(types, i, m.name@) is None {
        1nat
    } else {
        0nat
    })
}

pub open spec fn tree_methods_problem_sum(types: Seq<SmType>, i: int, ms: Seq<SmTypeMethod>) -> nat
    decreases ms.len(),
{
    if ms.len() == 0 {
        0
    } else {
        tree_methods_problem_sum(types, i, ms.drop_last()) + if is_instance(ms.last()) {
            tree_method_problem_count(types, i, ms.last())
        } else {
            0
        }
    }
}

/// Type `i` gives no diagnostic: its fields and methods are as
/// `type_structure_ok` asks, its parameters can be forwarded, and each
/// `override`, `inheritdoc` and `super` call finds an ancestor method.
pub open spec fn type_clean(types: Seq<SmType>, i: int) -> bool {
    &&& type_structure_ok(types[i])
    &&& ctor_problem_count(types[i]) == 0
    &&& tree_methods_problem_sum(types, i, types[i].methods@) == 0
}

/// The declaration compiles: it has types, the first alone without base,
/// every base declared before its subtypes, no name twice, and no type
/// that gives a diagnostic.
pub open spec fn unit_is_clean(types: Seq<SmType>) -> bool {
    &&& types.len() > 0
    &&& types[0].inherits is None
    &&& first_without_base(types) is None
    &&& binds(types)
    &&& forall|i: int| 0 <= i < types.len() ==> #[trigger] type_clean(types, i)
}

/// The factory's bases follow the declaration's and its method tables hold
/// the instance methods of the types before `ti`.
pub open spec fn mirrors(f: &LmtFactory, syms: Seq<Symbol>, types: Seq<SmType>, ti: int) -> bool {
    &&& syms.len() == types.len()
    &&& forall|j: int| 0 <= j < syms.len() ==> f.is_type(#[trigger] syms[j])
    &&& f.parent(syms[0]) is None
    &&& forall|j: int| 0 < j < syms.len() ==> ((#[trigger] base_index(types, j)) matches Some(p) && 0 <= p < j && f.parent(syms[j]) == Some(syms[p]))
    &&& forall|j: int, k: Seq<char>|
        0 <= j < ti && j < syms.len() ==> #[trigger] f.type_slot(syms[j]).methods.has_key(k) == declares_instance_method(types[j].methods@, k)
}

/// For a type whose ancestors are all mirrored, what the factory finds
/// above it is what the declaration has.
pub proof fn lemma_base_method_mirrors(f: &LmtFactory, syms: Seq<Symbol>, types: Seq<SmType>, ti: int, i: int, name: Seq<char>)
    requires
        f.wf(),
        mirrors(f, syms, types, ti),
        0 <= i <= ti,
        i < types.len(),
    ensures
        f.base_method(syms[i], name) is Some == tree_base_method(types, i, name) is Some,
    decreases i,
{
    let t = syms[i];
    assert(f.is_type(t));
    assert(f.type_wf(t.0 as int));
    if i > 0 {
        let p = base_index(types, i)->0;
        assert(base_index(types, i) matches Some(pp) && 0 <= pp < i && f.parent(syms[i]) == Some(syms[pp]));
        let ps = syms[p];
        assert(f.type_slot(ps).methods.has_key(name) == declares_instance_method(types[p].methods@, name));
        lemma_base_method_mirrors(f, syms, types, ti, p, name);
    }
}

/// Compiling type `ti` extends the mirror by that type.
pub proof fn lemma_mirror_step(f0: &LmtFactory, f1: &LmtFactory, syms: Seq<Symbol>, types: Seq<SmType>, ti: int)
    requires
        f0.wf(),
        f1.wf(),
        mirrors(f0, syms, types, ti),
        0 <= ti < types.len(),
        frame_except(f0, f1, syms[ti]),
        forall|a: int, b: int| 0 <= a < b < syms.len() ==> syms[a] != syms[b],
        forall|k: Seq<char>| #[trigger] f1.type_slot(syms[ti]).methods.has_key(k) == declares_instance_method(types[ti].methods@, k),
    ensures
        mirrors(f1, syms, types, ti + 1),
{
    assert forall|j: int| 0 <= j < syms.len() && j != ti implies f1.slots()[syms[j].0 as int] == f0.slots()[syms[j].0 as int] by {
        assert(f0.is_type(syms[j]));
        assert(syms[j] != syms[ti]);
    }
    assert forall|j: int| 0 <= j < syms.len() implies f1.is_type(#[trigger] syms[j]) && f1.parent(syms[j]) == f0.parent(syms[j]) by {
        if j != ti {
            assert(f1.slots()[syms[j].0 as int] == f0.slots()[syms[j].0 as int]);
        }
    }
    assert forall|j: int| 0 < j < syms.len() implies ((#[trigger] base_index(types, j)) matches Some(p) && 0 <= p < j
        && f1.parent(syms[j]) == Some(syms[p])) by {
        assert(f1.parent(syms[j]) == f0.parent(syms[j]));
    }
    assert(f1.parent(syms[0]) == f0.parent(syms[0]));
    assert forall|j: int, k: Seq<char>|
        0 <= j < ti + 1 && j < syms.len() implies #[trigger] f1.type_slot(syms[j]).methods.has_key(k) == declares_instance_method(types[j].methods@, k) by {
        if j != ti {
            assert(f1.slots()[syms[j].0 as int] == f0.slots()[syms[j].0 as int]);
            assert(f0.type_slot(syms[j]).methods.has_key(k) == declares_instance_method(types[j].methods@, k));
        }
    }
}

/// The count of missing `super` targets is the declaration's.
pub proof fn lemma_missing_supers_mirror(f: &LmtFactory, syms: Seq<Symbol>, types: Seq<SmType>, ti: int, tokens: Seq<Token>, k: int)
    requires
        f.wf(),
        mirrors(f, syms, types, ti),
        0 <= ti < types.len(),
    ensures
        missing_supers(f, syms[ti], tokens, k) == tree_missing_supers(types, ti, tokens, k),
    decreases tokens.len() - k,
{
    if 0 <= k < tokens.len() {
        match super_call_at(tokens, k) {
            Some(name) => {
                lemma_base_method_mirrors(f, syms, types, ti, ti, name);
            },
            None => {},
        }
        lemma_missing_supers_mirror(f, syms, types, ti, tokens, k + 1);
        if k + 4 <= tokens.len() {
            lemma_missing_supers_mirror(f, syms, types, ti, tokens, k + 4);
        }
    }
}

/// The diagnostics of a type's methods are the declaration's.
pub proof fn lemma_problem_sum_mirror(f: &LmtFactory, syms: Seq<Symbol>, types: Seq<SmType>, ti: int, ms: Seq<SmTypeMethod>)
    requires
        f.wf(),
        mirrors(f, syms, types, ti),
        0 <= ti < types.len(),
    ensures
        methods_problem_sum(f, syms[ti], ms) == tree_methods_problem_sum(types, ti, ms),
    decreases ms.len(),
{
    if ms.len() > 0 {
        lemma_problem_sum_mirror(f, syms, types, ti, ms.drop_last());
        let m = ms.last();
        lemma_missing_supers_mirror(f, syms, types, ti, m.statements@, 0);
        lemma_base_method_mirrors(f, syms, types, ti, ti, m.name@);
    }
}

/// Every type after the first names as its base a type declared before
/// it, and no two types share a name.
pub open spec fn binds(types: Seq<SmType>) -> bool {
    &&& forall|i: int, j: int| 0 <= i < j < types.len() ==> types[i].name@ != types[j].name@
    &&& forall|i: int|
        0 < i < types.len() ==> ((#[trigger] types[i]).inherits matches Some(b) && exists|j: int|
            0 <= j < i && types[j].name@ == b@)
}

/// The index of the first type after the first that names no base.
pub open spec fn first_without_base(types: Seq<SmType>) -> Option<int> {
    if exists|i: int| 0 < i < types.len() && (#[trigger] types[i]).inherits is None {
        Some(choose|i: int| 0 < i < types.len() && (#[trigger] types[i]).inherits is None && forall|j: int|
            0 < j < i ==> (#[trigger] types[j]).inherits is Some)
    } else {
        None
    }
}

/// Compiles a declaration into the code of its object model: the arena
/// type, each type's handle, conversions, accessors, constructor and
/// methods, and the module of records. Fails, with the diagnostics found,
/// when the declaration holds no type, when the first type names a base,
/// when a later type names none, when a base is unknown or a name taken,
/// and on any other problem found in fields or methods.
#[verifier::spinoff_prover]
#[verifier::rlimit(100)]
pub fn smodel(tree: &mut SmTypeTree) -> (r: Result<String, Vec<Diagnostic>>)
    ensures
        old(tree).data_types@.len() == 0 ==> (r matches Err(d) && d@.len() == 1 && d@[0] is NoDataTypes),
        old(tree).data_types@.len() > 0 && old(tree).data_types@[0].inherits is Some ==> (r matches Err(d)
            && d@.len() == 1 && (d@[0] matches Diagnostic::FirstTypeInherits(n) && n@ == old(tree).data_types@[0].name@)),
        old(tree).data_types@.len() > 0 && old(tree).data_types@[0].inherits is None && first_without_base(old(tree).data_types@) is Some ==> (r matches Err(d)
            && d@.len() == 1 && (d@[0] matches Diagnostic::BaseRequired(n) && n@ == old(tree).data_types@[first_without_base(old(tree).data_types@)->0].name@)),
        r is Ok <==> unit_is_clean(old(tree).data_types@),
        r is Ok ==> binds(old(tree).data_types@),
        !binds(old(tree).data_types@) ==> r is Err,
        r matches Ok(out) ==> exists|hs: Seq<Seq<char>>, ims: Seq<Seq<char>>, ds: Seq<Seq<char>>|
            #[trigger] parts_ok(old(tree).data_types@, old(tree).smodel_path@, hs, ims, ds)
            && out@ == arena_alias_text(old(tree).arena_type_name@, old(tree).smodel_path@, old(tree).data_types@[0].name@)
                + concat(hs) + concat(ims) + data_module_text(concat(ds)),
        r matches Err(d) ==> d@.len() > 0,
{
    let n = tree.data_types.len();
    // There must be at least one data type.
    if n == 0 {
        return Err(vec![Diagnostic::NoDataTypes]);
    }
    // The first type inherits no other one.
    if tree.data_types[0].inherits.is_some() {
        return Err(vec![Diagnostic::FirstTypeInherits(tree.data_types[0].name.clone())]);
    }
    // All other types inherit another one.
    let mut i: usize = 1;
    while i < n
        invariant
            1 <= i <= n,
            n == tree.data_types@.len(),
            *tree == *old(tree),
            tree.data_types@[0].inherits is None,
            forall|j: int| 0 < j < i ==> (#[trigger] tree.data_types@[j]).inherits is Some,
        decreases n - i,
    {
        if tree.data_types[i].inherits.is_none() {
            proof {
                let w = first_without_base(tree.data_types@)->0;
                assert(tree.data_types@[i as int].inherits is None);
                if w != i {
                    if w < i {
                        assert(tree.data_types@[w].inherits is Some);
                    } else {
                        assert(tree.data_types@[i as int].inherits is Some);
                    }
                }
            }
            return Err(vec![Diagnostic::BaseRequired(tree.data_types[i].name.clone())]);
        }
        i += 1;
    }
    proof {
        if first_without_base(tree.data_types@) is Some {
            let w = choose|w: int| 0 < w < tree.data_types@.len() && (#[trigger] tree.data_types@[w]).inherits is None;
            assert(tree.data_types@[w].inherits is Some);
        }
    }
    let mut host = SModelHost::new();

    // The arena type.
    host.output.append("pub type ");
    host.output.append(tree.arena_type_name.as_str());
    host.output.append(" = ");
    host.output.append(tree.smodel_path.as_str());
    host.output.append("::Arena<__data__::__data_");
    host.output.append(tree.data_types[0].name.as_str());
    host.output.append(">; ");
    let ghost head = host.output@;
    assert(head =~= arena_alias_text(old(tree).arena_type_name@, old(tree).smodel_path@, old(tree).data_types@[0].name@));

    // First pass: bind each type.
    if !bind_types(&mut host, tree) {
        return Err(host.diagnostics);
    }
    // Second pass: layout, handles, constructors and methods.
    let ghost mut hs: Seq<Seq<char>> = Seq::empty();
    let ghost mut ds: Seq<Seq<char>> = Seq::empty();
    proof {
        assert(host.output@ =~= head + concat(hs));
        assert(host.data_output@ =~= concat(ds));
    }
    let mut ti: usize = 0;
    while ti < n
        invariant
            host.wf(),
            n == tree.data_types@.len(),
            host.type_symbols@.len() == n,
            host.method_symbols@.len() == n,
            ti <= n,
            head.len() <= host.output@.len(),
            host.output@.subrange(0, head.len() as int) == head,
            n == old(tree).data_types@.len(),
            old(tree).data_types@[0].inherits is None,
            first_without_base(old(tree).data_types@) is None,
            binds(old(tree).data_types@),
            tree.arena_type_name == old(tree).arena_type_name,
            tree.smodel_path == old(tree).smodel_path,
            forall|j: int| 0 <= j < n ==> host.factory.name_of(#[trigger] host.type_symbols@[j]) == tree.data_types@[j].name@,
            forall|j: int| ti <= j < n ==> (#[trigger] host.method_symbols@[j])@.len() == 0,
            forall|j: int| ti <= j < n ==> host.factory.type_slot(#[trigger] host.type_symbols@[j]).fields.len() == 0
                && host.factory.type_slot(host.type_symbols@[j]).methods.len() == 0,
            forall|a: int, b: int| 0 <= a < b < n ==> host.type_symbols@[a] != host.type_symbols@[b],
            forall|j: int| 0 <= j < ti ==> (#[trigger] host.method_symbols@[j])@.len() == tree.data_types@[j].methods@.len(),
            forall|j: int, k: int| 0 <= j < ti && 0 <= k < tree.data_types@[j].methods@.len()
                && #[trigger] host.method_symbols@[j]@[k] is Some ==> tree.data_types@[j].methods@[k].inputs@.len() > 0,
            forall|j: int| ti <= j < n ==> #[trigger] tree.data_types@[j] == old(tree).data_types@[j],
            mirrors(&host.factory, host.type_symbols@, old(tree).data_types@, ti as int),
            forall|j: int| 0 <= j < ti ==> type_structure_ok(#[trigger] old(tree).data_types@[j]),
            host.diagnostics@.len() == 0 <==> forall|j: int| 0 <= j < ti ==> ctor_problem_count(#[trigger] old(tree).data_types@[j]) == 0
                && tree_methods_problem_sum(old(tree).data_types@, j, old(tree).data_types@[j].methods@) == 0,
            forall|j: int| 0 <= j < n ==> (#[trigger] tree.data_types@[j]).name == old(tree).data_types@[j].name,
            hs.len() == ti && ds.len() == ti,
            host.output@ == head + concat(hs),
            host.data_output@ == concat(ds),
            forall|i: int| 0 <= i < ti ==> starts_with(#[trigger] hs[i], handle_head_text(old(tree).data_types@[i], base_name_of(old(tree).data_types@, i))),
            forall|i: int| 0 <= i < ti ==> is_data_part(#[trigger] ds[i], old(tree).data_types@[i]),
        decreases n - ti,
    {
        let smtype = host.type_symbols[ti];
        let ghost h0 = host;
        let ghost types = old(tree).data_types@;
        let ghost tree0 = tree.data_types@;
        let ok = compile_type(&mut host, &mut tree.data_types[ti], smtype, ti, tree.smodel_path.as_str(), tree.arena_type_name.as_str());
        if !ok {
            proof {
                assert(!type_clean(types, ti as int));
            }
            return Err(host.diagnostics);
        }
        proof {
            assert(host.output@.subrange(0, head.len() as int) =~= h0.output@.subrange(0, head.len() as int));
            let ms = types[ti as int].methods@;
            lemma_problem_sum_mirror(&h0.factory, h0.type_symbols@, types, ti as int, ms);
            lemma_mirror_step(&h0.factory, &host.factory, host.type_symbols@, types, ti as int);
            assert forall|j: int| ti + 1 <= j < n implies #[trigger] tree.data_types@[j] == old(tree).data_types@[j] by {
                assert(tree.data_types@[j] == tree0[j]);
            }
            assert forall|j: int| 0 <= j < ti + 1 implies type_structure_ok(#[trigger] old(tree).data_types@[j]) by {}
            assert forall|j: int| 0 <= j < n implies (#[trigger] tree.data_types@[j]).name == old(tree).data_types@[j].name by {
                if j != ti {
                    assert(tree.data_types@[j] == tree0[j]);
                }
            }
            // The handle code and the records of this type.
            let bn = match h0.factory.parent(smtype) {
                Some(p) => Some(h0.factory.name_of(p)),
                None => None,
            };
            if ti > 0 {
                let p = base_index(types, ti as int)->0;
                assert(h0.factory.name_of(h0.type_symbols@[p]) == tree0[p].name@);
            } else {
                assert(base_index(types, 0) is None);
            }
            assert(bn == base_name_of(types, ti as int));
            let hd = handle_head_text(types[ti as int], bn);
            let h = host.output@.subrange(h0.output@.len() as int, host.output@.len() as int);
            lemma_push_part(head, hs, h0.output@, host.output@, hd);
            let vs = choose|vs: Seq<char>| host.data_output@ == h0.data_output@ + #[trigger] data_part_text(types[ti as int], vs);
            let d = data_part_text(types[ti as int], vs);
            lemma_append_part(Seq::empty(), ds, h0.data_output@, host.data_output@, d);
            assert(Seq::<char>::empty() + concat(ds) =~= concat(ds));
            assert(Seq::<char>::empty() + concat(ds.push(d)) =~= concat(ds.push(d)));
            assert forall|i: int| 0 <= i < ti + 1 implies is_data_part(#[trigger] ds.push(d)[i], old(tree).data_types@[i]) by {
                if i == ti {
                    assert(ds.push(d)[i] == data_part_text(types[i], vs));
                } else {
                    assert(ds.push(d)[i] == ds[i]);
                }
            }
            assert forall|i: int| 0 <= i < ti + 1 implies starts_with(#[trigger] hs.push(h)[i], handle_head_text(old(tree).data_types@[i], base_name_of(old(tree).data_types@, i))) by {
                if i < ti {
                    assert(hs.push(h)[i] == hs[i]);
                }
            }
            hs = hs.push(h);
            ds = ds.push(d);
        }
        ti += 1;
    }
    // Third pass: dispatching methods, `to` and `is`, and the `impl` blocks.
    let ghost mut ims: Seq<Seq<char>> = Seq::empty();
    let ghost out3 = host.output@;
    proof {
        assert(host.output@ =~= head + concat(hs) + concat(ims));
    }
    let mut ti: usize = 0;
    while ti < n
        invariant
            host.wf(),
            n == tree.data_types@.len(),
            host.type_symbols@.len() == n,
            host.method_symbols@.len() == n,
            ti <= n,
            head.len() <= host.output@.len(),
            host.output@.subrange(0, head.len() as int) == head,
            n == old(tree).data_types@.len(),
            old(tree).data_types@[0].inherits is None,
            first_without_base(old(tree).data_types@) is None,
            binds(old(tree).data_types@),
            forall|j: int| 0 <= j < n ==> host.factory.name_of(#[trigger] host.type_symbols@[j]) == tree.data_types@[j].name@,
            forall|j: int| 0 <= j < n ==> type_structure_ok(#[trigger] old(tree).data_types@[j]),
            host.diagnostics@.len() == 0 <==> forall|j: int| 0 <= j < n ==> ctor_problem_count(#[trigger] old(tree).data_types@[j]) == 0
                && tree_methods_problem_sum(old(tree).data_types@, j, old(tree).data_types@[j].methods@) == 0,
            forall|j: int| 0 <= j < n ==> (#[trigger] tree.data_types@[j]).name == old(tree).data_types@[j].name,
            tree.smodel_path == old(tree).smodel_path,
            ims.len() == ti,
            hs.len() == n && ds.len() == n,
            forall|i: int| 0 <= i < n ==> starts_with(#[trigger] hs[i], handle_head_text(old(tree).data_types@[i], base_name_of(old(tree).data_types@, i))),
            forall|i: int| 0 <= i < n ==> is_data_part(#[trigger] ds[i], old(tree).data_types@[i]),
            host.output@ == head + concat(hs) + concat(ims),
            host.data_output@ == concat(ds),
            forall|i: int| 0 <= i < ti ==> is_impl_part(#[trigger] ims[i], old(tree).data_types@[i].name@, old(tree).smodel_path@),
        decreases n - ti,
    {
        let smtype = host.type_symbols[ti];
        let ghost h0 = host;
        finish_type(&mut host, &tree.data_types[ti], smtype, ti, tree.smodel_path.as_str());
        proof {
            assert(host.output@.subrange(0, head.len() as int) =~= h0.output@.subrange(0, head.len() as int));
            let body = choose|body: Seq<char>| host.output@ == h0.output@ + #[trigger] impl_block_text(tree.data_types@[ti as int].name@, body, tree.smodel_path@);
            let im = impl_block_text(old(tree).data_types@[ti as int].name@, body, old(tree).smodel_path@);
            lemma_append_part(head + concat(hs), ims, h0.output@, host.output@, im);
            assert(head + concat(hs) + concat(ims.push(im)) =~= (head + concat(hs)) + concat(ims.push(im)));
            assert(h0.output@ =~= (head + concat(hs)) + concat(ims));
            assert forall|i: int| 0 <= i < ti + 1 implies is_impl_part(#[trigger] ims.push(im)[i], old(tree).data_types@[i].name@, old(tree).smodel_path@) by {
                if i == ti {
                    assert(ims.push(im)[i] == impl_block_text(old(tree).data_types@[i].name@, body, old(tree).smodel_path@));
                } else {
                    assert(ims.push(im)[i] == ims[i]);
                }
            }
            ims = ims.push(im);
        }
        ti += 1;
    }
    // The module of records.
    let ghost middle = host.output@.subrange(head.len() as int, host.output@.len() as int);
    host.output.append("#[allow(non_camel_case_types, non_snake_case)] mod __data__ { use super::*; ");
    host.output.append(host.data_output.as_str());
    host.output.append(" } ");
    if host.diagnostics.len() > 0 {
        proof {
            if unit_is_clean(old(tree).data_types@) {
                assert forall|j: int| 0 <= j < n implies ctor_problem_count(#[trigger] old(tree).data_types@[j]) == 0
                    && tree_methods_problem_sum(old(tree).data_types@, j, old(tree).data_types@[j].methods@) == 0 by {
                    assert(type_clean(old(tree).data_types@, j));
                }
            }
        }
        return Err(host.diagnostics);
    }
    proof {
        assert forall|i: int| 0 <= i < old(tree).data_types@.len() implies #[trigger] type_clean(old(tree).data_types@, i) by {
            assert(type_structure_ok(old(tree).data_types@[i]));
        }
    }
    proof {
        assert(host.output@ =~= head + middle + data_module_text(host.data_output@));
        assert(middle =~= concat(hs) + concat(ims));
        assert(parts_ok(old(tree).data_types@, old(tree).smodel_path@, hs, ims, ds));
        assert(host.output@ =~= arena_alias_text(old(tree).arena_type_name@, old(tree).smodel_path@, old(tree).data_types@[0].name@)
            + concat(hs) + concat(ims) + data_module_text(concat(ds)));
    }
    Ok(host.output)
}

/// Binds every type in declaration order; stops at the first failure.
#[verifier::spinoff_prover]
#[verifier::rlimit(100)]
fn bind_types(host: &mut SModelHost, tree: &SmTypeTree) -> (r: bool)
    requires
        old(host).wf(),
        old(host).factory.nodes().len() == 0,
        old(host).smtype_slots.len() == 0,
        old(host).type_symbols@.len() == 0,
        old(host).method_symbols@.len() == 0,
        tree.data_types@.len() > 0,
        tree.data_types@[0].inherits is None,
        forall|i: int| 0 < i < tree.data_types@.len() ==> (#[trigger] tree.data_types@[i]).inherits is Some,
    ensures
        final(host).wf(),
        final(host).output == old(host).output,
        r ==> final(host).type_symbols@.len() == tree.data_types@.len(),
        r ==> final(host).method_symbols@.len() == tree.data_types@.len(),
        r ==> forall|j: int| 0 <= j < tree.data_types@.len() ==> (#[trigger] final(host).method_symbols@[j])@.len() == 0,
        r ==> forall|a: int, b: int| 0 <= a < b < tree.data_types@.len() ==> final(host).type_symbols@[a] != final(host).type_symbols@[b],
        r ==> forall|j: int| 0 <= j < tree.data_types@.len() ==> final(host).factory.type_slot(#[trigger] final(host).type_symbols@[j]).fields.len() == 0
            && final(host).factory.type_slot(final(host).type_symbols@[j]).methods.len() == 0,
        r ==> forall|j: int|
            0 <= j < tree.data_types@.len() ==> final(host).factory.name_of(#[trigger] final(host).type_symbols@[j])
                == tree.data_types@[j].name@,
        r == binds(tree.data_types@),
        r ==> mirrors(&final(host).factory, final(host).type_symbols@, tree.data_types@, 0),
        r ==> final(host).diagnostics == old(host).diagnostics,
        final(host).data_output == old(host).data_output,
        !r ==> final(host).diagnostics@.len() > 0,
{
    let n = tree.data_types.len();
    let mut i: usize = 0;
    assert(host.smtype_slots.keys() =~= tree.data_types@.subrange(0, 0).map_values(|t: SmType| t.name@));
    while i < n
        invariant
            host.wf(),
            host.factory.nodes().len() == 0,
            n == tree.data_types@.len(),
            i <= n,
            tree.data_types@[0].inherits is None,
            forall|j: int| 0 < j < tree.data_types@.len() ==> (#[trigger] tree.data_types@[j]).inherits is Some,
            host.output == old(host).output,
            host.smtype_slots.keys() == tree.data_types@.subrange(0, i as int).map_values(|t: SmType| t.name@),
            host.type_symbols@.len() == i,
            host.method_symbols@.len() == i,
            forall|j: int| 0 <= j < i ==> (#[trigger] host.method_symbols@[j])@.len() == 0,
            forall|j: int|
                0 <= j < i ==> host.factory.name_of(#[trigger] host.type_symbols@[j]) == tree.data_types@[j].name@,
            forall|j: int| 0 <= j < i ==> host.factory.type_slot(#[trigger] host.type_symbols@[j]).fields.len() == 0
                && host.factory.type_slot(host.type_symbols@[j]).methods.len() == 0,
            forall|a: int, b: int| 0 <= a < b < i ==> (#[trigger] host.type_symbols@[a]).0 < (#[trigger] host.type_symbols@[b]).0,
            forall|k: int| 0 <= k < i ==> host.smtype_slots.value_of(#[trigger] tree.data_types@[k].name@) == host.type_symbols@[k],
            host.data_output == old(host).data_output,
            host.diagnostics == old(host).diagnostics,
            i > 0 ==> host.factory.parent(host.type_symbols@[0]) is None,
            forall|j: int| 0 < j < i ==> ((#[trigger] base_index(tree.data_types@, j)) matches Some(p) && 0 <= p < j
                && host.factory.parent(host.type_symbols@[j]) == Some(host.type_symbols@[p])),
            binds(tree.data_types@.subrange(0, i as int)),
        decreases n - i,
    {
        let ghost h0 = *host;
        let ghost prefix = tree.data_types@.subrange(0, i as int);
        let m = &tree.data_types[i];
        let ok = ProcessingStep2().exec(host, m);
        proof {
            let md = tree.data_types@[i as int];
            let keys = h0.smtype_slots.keys();
            assert(forall|j: int| 0 <= j < i ==> keys[j] == #[trigger] prefix[j].name@);
            let ok_spec = (match md.inherits {
                Some(b) => exists|j: int| 0 <= j < i && tree.data_types@[j].name@ == b@,
                None => true,
            }) && forall|j: int| 0 <= j < i ==> tree.data_types@[j].name@ != md.name@;
            match md.inherits {
                Some(b) => {
                    if h0.smtype_slots.has_key(b@) {
                        let j = choose|j: int| 0 <= j < keys.len() && keys[j] == b@;
                        assert(tree.data_types@[j].name@ == b@);
                    }
                    if exists|j: int| 0 <= j < i && tree.data_types@[j].name@ == b@ {
                        let j = choose|j: int| 0 <= j < i && tree.data_types@[j].name@ == b@;
                        assert(keys[j] == b@);
                    }
                },
                None => {},
            }
            if h0.smtype_slots.has_key(md.name@) {
                let j = choose|j: int| 0 <= j < keys.len() && keys[j] == md.name@;
                assert(tree.data_types@[j].name@ == md.name@);
            }
            if exists|j: int| 0 <= j < i && tree.data_types@[j].name@ == md.name@ {
                let j = choose|j: int| 0 <= j < i && tree.data_types@[j].name@ == md.name@;
                assert(keys[j] == md.name@);
            }
            assert(ok == ok_spec);
            let next = tree.data_types@.subrange(0, i + 1);
            if ok {
                assert(next.drop_last() =~= prefix);
                assert forall|a: int, b: int| 0 <= a < b < next.len() implies next[a].name@ != next[b].name@ by {
                    if b < i {
                        assert(prefix[a] == next[a] && prefix[b] == next[b]);
                    }
                }
                assert forall|a: int| 0 < a < next.len() implies ((#[trigger] next[a]).inherits matches Some(b) && exists|j: int|
                    0 <= j < a && next[j].name@ == b@) by {
                    if a < i {
                        assert(prefix[a] == next[a]);
                        let b = prefix[a].inherits->0;
                        let j = choose|j: int| 0 <= j < a && prefix[j].name@ == b@;
                        assert(next[j] == prefix[j]);
                    } else {
                        let b = md.inherits->0;
                        let j = choose|j: int| 0 <= j < i && tree.data_types@[j].name@ == b@;
                        assert(next[j] == tree.data_types@[j]);
                    }
                }
            } else {
                assert(!binds(tree.data_types@)) by {
                    match md.inherits {
                        Some(b) => {
                            if !(exists|j: int| 0 <= j < i && tree.data_types@[j].name@ == b@) {
                                assert(i > 0);
                                assert(tree.data_types@[i as int].inherits matches Some(bb) && bb == b);
                            } else {
                                let j = choose|j: int| 0 <= j < i && tree.data_types@[j].name@ == md.name@;
                                assert(tree.data_types@[j].name@ == tree.data_types@[i as int].name@);
                            }
                        },
                        None => {
                            let j = choose|j: int| 0 <= j < i && tree.data_types@[j].name@ == md.name@;
                            assert(tree.data_types@[j].name@ == tree.data_types@[i as int].name@);
                        },
                    }
                }
            }
        }
        if !ok {
            return false;
        }
        let ghost h1 = *host;
        host.method_symbols.push(Vec::new());
        proof {
            assert(host.smtype_slots.keys() =~= tree.data_types@.subrange(0, i + 1).map_values(|t: SmType| t.name@));
            lemma_bound_one(&h0, host, tree.data_types@, i as int);
            lemma_bind_mirror(&h0, host, tree.data_types@, i as int);
        }
        i += 1;
    }
    assert(tree.data_types@.subrange(0, n as int) =~= tree.data_types@);
    true
}

/// After one more type is bound, names map to the slots of their types and
/// bases follow the declaration one type further.
proof fn lemma_bind_mirror(h0: &SModelHost, host: &SModelHost, types: Seq<SmType>, i: int)
    requires
        h0.wf(),
        host.wf(),
        0 <= i < types.len(),
        i == 0 ==> types[0].inherits is None,
        binds(types.subrange(0, i + 1)),
        host.factory.extends(&h0.factory),
        h0.type_symbols@.len() == i,
        host.type_symbols@ == h0.type_symbols@.push(Symbol(h0.factory.slots().len() as usize)),
        h0.smtype_slots.keys() == types.subrange(0, i).map_values(|t: SmType| t.name@),
        forall|k: int| 0 <= k < i ==> h0.smtype_slots.value_of(#[trigger] types[k].name@) == h0.type_symbols@[k],
        i > 0 ==> h0.factory.parent(h0.type_symbols@[0]) is None,
        forall|j: int| 0 < j < i ==> ((#[trigger] base_index(types, j)) matches Some(p) && 0 <= p < j
            && h0.factory.parent(h0.type_symbols@[j]) == Some(h0.type_symbols@[p])),
        host.smtype_slots.value_of(types[i].name@) == host.type_symbols@[i as int],
        forall|k: Seq<char>| k != types[i].name@ && #[trigger] h0.smtype_slots.has_key(k)
            ==> host.smtype_slots.value_of(k) == h0.smtype_slots.value_of(k),
        host.factory.parent(host.type_symbols@[i as int]) == match types[i].inherits {
            Some(b) => Some(h0.smtype_slots.value_of(b@)),
            None => None,
        },
    ensures
        forall|k: int| 0 <= k <= i ==> host.smtype_slots.value_of(#[trigger] types[k].name@) == host.type_symbols@[k],
        host.factory.parent(host.type_symbols@[0]) is None,
        forall|j: int| 0 < j <= i ==> ((#[trigger] base_index(types, j)) matches Some(p) && 0 <= p < j
            && host.factory.parent(host.type_symbols@[j]) == Some(host.type_symbols@[p])),
{
    let pre = types.subrange(0, i + 1);
    assert forall|k: int| 0 <= k <= i implies host.smtype_slots.value_of(#[trigger] types[k].name@) == host.type_symbols@[k] by {
        if k < i {
            assert(pre[k] == types[k] && pre[i] == types[i]);
            assert(h0.smtype_slots.keys()[k] == types[k].name@);
            assert(h0.smtype_slots.has_key(types[k].name@));
        }
    }
    assert forall|j: int| 0 < j < i implies host.factory.parent(host.type_symbols@[j]) == h0.factory.parent(h0.type_symbols@[j]) by {
        let v = h0.type_symbols@[j];
        assert(h0.factory.is_type(v));
        assert(h0.factory.slots()[v.0 as int] is SmTypeSlot);
    }
    if i > 0 {
        let v = h0.type_symbols@[0];
        assert(h0.factory.is_type(v));
        assert(h0.factory.slots()[v.0 as int] is SmTypeSlot);
        assert(pre[i] == types[i]);
        let b = types[i].inherits->0;
        let k = choose|k: int| 0 <= k < i && pre[k].name@ == b@;
        assert(pre[k] == types[k]);
        assert(exists|kk: int| 0 <= kk < i && types[kk].name@ == b@);
        let p = base_index(types, i)->0;
        assert(types[p].name@ == b@);
        assert(pre[p] == types[p]);
        assert(p == k);
        assert(h0.smtype_slots.value_of(b@) == h0.type_symbols@[p]);
    }
}

/// After one more type is bound: the facts that the binding loop keeps
/// about the types bound so far hold one further.
proof fn lemma_bound_one(h0: &SModelHost, host: &SModelHost, types: Seq<SmType>, i: int)
    requires
        h0.wf(),
        host.factory.wf(),
        0 <= i < types.len(),
        host.factory.extends(&h0.factory),
        forall|x: int|
            0 <= x < h0.factory.slots().len() && #[trigger] h0.factory.slots()[x] is SmTypeSlot
                ==> host.factory.type_slot(Symbol(x as usize)).fields == h0.factory.type_slot(Symbol(x as usize)).fields
                && host.factory.type_slot(Symbol(x as usize)).methods == h0.factory.type_slot(Symbol(x as usize)).methods,
        h0.type_symbols@.len() == i,
        h0.method_symbols@.len() == i,
        forall|j: int| 0 <= j < i ==> (#[trigger] h0.method_symbols@[j])@.len() == 0,
        forall|j: int| 0 <= j < i ==> h0.factory.name_of(#[trigger] h0.type_symbols@[j]) == types[j].name@,
        forall|j: int| 0 <= j < i ==> h0.factory.type_slot(#[trigger] h0.type_symbols@[j]).fields.len() == 0
            && h0.factory.type_slot(h0.type_symbols@[j]).methods.len() == 0,
        forall|a: int, b: int| 0 <= a < b < i ==> (#[trigger] h0.type_symbols@[a]).0 < (#[trigger] h0.type_symbols@[b]).0,
        host.type_symbols@ == h0.type_symbols@.push(Symbol(h0.factory.slots().len() as usize)),
        host.method_symbols@.len() == i + 1,
        forall|j: int| 0 <= j < i ==> #[trigger] host.method_symbols@[j] == h0.method_symbols@[j],
        host.method_symbols@[i]@.len() == 0,
        host.factory.is_type(Symbol(h0.factory.slots().len() as usize)),
        host.factory.name_of(Symbol(h0.factory.slots().len() as usize)) == types[i].name@,
        host.factory.type_slot(Symbol(h0.factory.slots().len() as usize)).fields.len() == 0,
        host.factory.type_slot(Symbol(h0.factory.slots().len() as usize)).methods.len() == 0,
        host.smtype_slots.wf(),
        forall|k: Seq<char>|
            #[trigger] host.smtype_slots.has_key(k) ==> host.factory.is_type(host.smtype_slots.value_of(k))
                && host.factory.name_of(host.smtype_slots.value_of(k)) == k,
    ensures
        host.wf(),
        forall|j: int| 0 <= j <= i ==> (#[trigger] host.method_symbols@[j])@.len() == 0,
        forall|j: int| 0 <= j <= i ==> host.factory.name_of(#[trigger] host.type_symbols@[j]) == types[j].name@,
        forall|j: int| 0 <= j <= i ==> host.factory.type_slot(#[trigger] host.type_symbols@[j]).fields.len() == 0
            && host.factory.type_slot(host.type_symbols@[j]).methods.len() == 0,
        forall|a: int, b: int| 0 <= a < b <= i ==> (#[trigger] host.type_symbols@[a]).0 < (#[trigger] host.type_symbols@[b]).0,
{
    assert forall|j: int|
        0 <= j <= i implies host.factory.name_of(#[trigger] host.type_symbols@[j]) == types[j].name@ by {
        if j < i {
            let v = h0.type_symbols@[j];
            assert(h0.factory.is_type(v));
            assert(host.factory.name_of(v) == h0.factory.name_of(v));
        }
    }
    assert forall|j: int| 0 <= j <= i implies host.factory.type_slot(#[trigger] host.type_symbols@[j]).fields.len() == 0
        && host.factory.type_slot(host.type_symbols@[j]).methods.len() == 0 by {
        if j < i {
            let v = h0.type_symbols@[j];
            assert(h0.factory.is_type(v));
            assert(h0.factory.slots()[v.0 as int] is SmTypeSlot);
        }
    }
    assert forall|a: int, b: int| 0 <= a < b <= i implies (#[trigger] host.type_symbols@[a]).0 < (#[trigger] host.type_symbols@[b]).0 by {
        if b == i {
            assert(h0.factory.is_type(h0.type_symbols@[a]));
        }
    }
    assert forall|j: int| 0 <= j <= i implies host.factory.is_type(#[trigger] host.type_symbols@[j]) by {
        if j < i {
            let v = h0.type_symbols@[j];
            assert(h0.factory.is_type(v));
            assert(host.factory.slots()[v.0 as int] is SmTypeSlot);
        }
    }
    assert forall|a: int, b: int|
        0 <= a < host.method_symbols@.len() && 0 <= b < host.method_symbols@[a]@.len()
            && #[trigger] host.method_symbols@[a]@[b] is Some implies host.factory.is_method(
        host.method_symbols@[a]@[b]->0,
    ) by {
        if a < i {
            assert(h0.method_symbols@[a]@.len() == 0);
        }
    }
}

/// The output of a host only grows.
pub open spec fn output_grew(a: &SModelHost, b: &SModelHost) -> bool {
    &&& a.output@.len() <= b.output@.len()
    &&& b.output@.subrange(0, a.output@.len() as int) == a.output@
}

/// The facts about names and method slots that the passes keep.
pub open spec fn keeps_bindings(a: &SModelHost, b: &SModelHost) -> bool {
    &&& b.factory.extends(&a.factory)
    &&& b.type_symbols == a.type_symbols
    &&& b.method_symbols@.len() == a.method_symbols@.len()
    &&& output_grew(a, b)
}

proof fn lemma_keeps_bindings_refl(a: &SModelHost)
    requires
        a.factory.wf(),
    ensures
        keeps_bindings(a, a),
{
    assert(a.output@.subrange(0, a.output@.len() as int) =~= a.output@);
}

proof fn lemma_keeps_bindings_trans(a: &SModelHost, b: &SModelHost, c: &SModelHost)
    requires
        keeps_bindings(a, b),
        keeps_bindings(b, c),
    ensures
        keeps_bindings(a, c),
{
    assert(c.output@.subrange(0, a.output@.len() as int) =~= b.output@.subrange(0, a.output@.len() as int));
    assert forall|i: int| 0 <= i < a.factory.slots().len() implies {
        &&& (#[trigger] c.factory.slots()[i] is SmTypeSlot <==> a.factory.slots()[i] is SmTypeSlot)
        &&& (c.factory.slots()[i] is MethodSlot <==> a.factory.slots()[i] is MethodSlot)
        &&& (c.factory.slots()[i] is FieldSlot <==> a.factory.slots()[i] is FieldSlot)
        &&& c.factory.name_of(Symbol(i as usize)) == a.factory.name_of(Symbol(i as usize))
        &&& c.factory.slots()[i] is SmTypeSlot ==> c.factory.parent(Symbol(i as usize)) == a.factory.parent(Symbol(i as usize))
        &&& c.factory.slots()[i] is FieldSlot ==> c.factory.slots()[i] == a.factory.slots()[i]
    } by {
        assert(b.factory.slots()[i] is SmTypeSlot <==> a.factory.slots()[i] is SmTypeSlot);
    }
}

/// Registers the fields of type `smtype`, declared by `node`, with their
/// accessors, and outputs the type's records. Fails when two fields share
/// a name.
#[verifier::spinoff_prover]
#[verifier::rlimit(100)]
fn compile_fields(host: &mut SModelHost, node: &SmType, smtype: Symbol) -> (r: bool)
    requires
        old(host).wf(),
        old(host).factory.is_type(smtype),
        old(host).factory.type_slot(smtype).fields.len() == 0,
    ensures
        final(host).wf(),
        keeps_bindings(&*old(host), &*final(host)),
        frame_except(&old(host).factory, &final(host).factory, smtype),
        final(host).factory.type_slot(smtype).methods == old(host).factory.type_slot(smtype).methods,
        final(host).method_symbols == old(host).method_symbols,
        final(host).output == old(host).output,
        r == field_names(node.fields@).no_duplicates(),
        r ==> final(host).diagnostics == old(host).diagnostics,
        !r ==> final(host).diagnostics@.len() > 0,
        r ==> final(host).data_output@ == old(host).data_output@ + data_part_text(
            *node,
            variants_text(&final(host).factory, final(host).factory.type_slot(smtype).subtypes@),
        ),
{
    let asc = smtype.asc_smtype_list(&host.factory);
    proof {
        crate::symbol::lemma_asc_chain_shape(&host.factory, smtype);
        lemma_keeps_bindings_refl(&*host);
    }
    let base_accessor = root_accessor_of("self", asc.len() - 1);
    let smtype_name = node.name.clone();

    // Fields and their accessors.
    let mut field_output = String::new();
    let mut k: usize = 0;
    while k < node.fields.len()
        invariant
            host.wf(),
            host.factory.is_type(smtype),
            keeps_bindings(&*old(host), &*host),
            host.method_symbols == old(host).method_symbols,
            asc@.len() > 0,
            forall|i: int| 0 <= i < asc@.len() ==> (#[trigger] asc@[i]).0 < host.factory.slots().len(),
            k <= node.fields@.len(),
            frame_except(&old(host).factory, &host.factory, smtype),
            host.factory.type_slot(smtype).methods == old(host).factory.type_slot(smtype).methods,
            host.factory.type_slot(smtype).fields.keys() == field_names(node.fields@.subrange(0, k as int)),
            host.diagnostics == old(host).diagnostics,
            host.output == old(host).output,
            host.data_output == old(host).data_output,
            field_output@ == fields_decl_text(node.fields@.subrange(0, k as int)),
        decreases node.fields@.len() - k,
    {
        let ghost h0 = *host;
        let ok = ProcessingStep3_2().exec(host, smtype, &node.fields[k], base_accessor.as_str(), asc.as_slice(), &mut field_output);
        proof {
            assert(host.output@.subrange(0, h0.output@.len() as int) =~= h0.output@);
            lemma_keeps_bindings_trans(&*old(host), &h0, host);
        }
        if !ok {
            proof {
                let names = field_names(node.fields@);
                let pre = field_names(node.fields@.subrange(0, k as int));
                let name = node.fields@[k as int].name@;
                let j = choose|j: int| 0 <= j < pre.len() && pre[j] == name;
                assert(names[j] == pre[j]);
                assert(names[k as int] == name);
            }
            return false;
        }
        proof {
            assert(field_names(node.fields@.subrange(0, k + 1)) =~= field_names(node.fields@.subrange(0, k as int)).push(node.fields@[k as int].name@));
            assert(node.fields@.subrange(0, k + 1).drop_last() =~= node.fields@.subrange(0, k as int));
        }
        k += 1;
    }
    proof {
        assert(node.fields@.subrange(0, node.fields@.len() as int) =~= node.fields@);
        assert(host.factory.type_wf(smtype.0 as int));
    }

    // The discriminant over direct subtypes, and the record.
    let ghost h1 = *host;
    assert(host.factory.type_wf(smtype.0 as int));
    let subs = smtype.subtypes(&host.factory).iter();
    let mut variants = String::new();
    let mut v: usize = 0;
    assert(subs@ =~= host.factory.type_slot(smtype).subtypes@);
    while v < subs.len()
        invariant
            host.factory.wf(),
            v <= subs@.len(),
            forall|i: int| 0 <= i < subs@.len() ==> host.factory.is_type(#[trigger] subs@[i]),
            variants@ == variants_text(&host.factory, subs@.subrange(0, v as int)),
        decreases subs@.len() - v,
    {
        let sn = subs[v].name(&host.factory);
        variants.append("__data_");
        variants.append(sn.as_str());
        variants.append("(::std::rc::Rc<__data_");
        variants.append(sn.as_str());
        variants.append(">), ");
        proof {
            assert(subs@.subrange(0, v + 1).drop_last() =~= subs@.subrange(0, v as int));
        }
        v += 1;
    }
    assert(subs@.subrange(0, subs@.len() as int) =~= subs@);
    host.data_output.append("pub enum __variant_");
    host.data_output.append(smtype_name.as_str());
    host.data_output.append(" { ");
    host.data_output.append(variants.as_str());
    host.data_output.append("__Nothing } ");
    host.data_output.append("pub struct __data_");
    host.data_output.append(smtype_name.as_str());
    host.data_output.append(" { ");
    host.data_output.append(field_output.as_str());
    host.data_output.append("pub __variant: __variant_");
    host.data_output.append(smtype_name.as_str());
    host.data_output.append(", } ");
    proof {
        crate::layout::lemma_extends_keeps_host(&h1, host);
        assert(host.output@.subrange(0, old(host).output@.len() as int) =~= h1.output@.subrange(0, old(host).output@.len() as int));
        assert(host.data_output@ =~= old(host).data_output@ + data_part_text(*node, variants@));
    }
    true
}

/// Lays out type `smtype`, declared by `node` at position `ti`: fields and
/// accessors, the record and its discriminant, the handle type and its
/// conversions, the constructor, and the methods. Stops at the first
/// failure.
#[verifier::spinoff_prover]
#[verifier::rlimit(100)]
fn compile_type(
    host: &mut SModelHost,
    node: &mut SmType,
    smtype: Symbol,
    ti: usize,
    smodel_path: &str,
    arena_type_name: &str,
) -> (r: bool)
    requires
        old(host).wf(),
        old(host).factory.is_type(smtype),
        old(host).factory.name_of(smtype) == old(node).name@,
        ti < old(host).method_symbols@.len(),
        old(host).method_symbols@[ti as int]@.len() == 0,
        old(host).factory.type_slot(smtype).fields.len() == 0,
        old(host).factory.type_slot(smtype).methods.len() == 0,
    ensures
        final(host).wf(),
        keeps_bindings(&*old(host), &*final(host)),
        frame_except(&old(host).factory, &final(host).factory, smtype),
        r == type_structure_ok(*old(node)),
        r ==> forall|k: Seq<char>|
            #[trigger] final(host).factory.type_slot(smtype).methods.has_key(k) == declares_instance_method(old(node).methods@, k),
        r ==> final(host).diagnostics@.len() == old(host).diagnostics@.len() + ctor_problem_count(*old(node))
            + methods_problem_sum(&old(host).factory, smtype, old(node).methods@),
        r ==> starts_with(final(host).output@, old(host).output@ + handle_head_text(*old(node),
            match old(host).factory.parent(smtype) {
                Some(p) => Some(old(host).factory.name_of(p)),
                None => None,
            })),
        r ==> exists|vs: Seq<char>| final(host).data_output@ == old(host).data_output@ + #[trigger] data_part_text(*old(node), vs),
        final(node).name == old(node).name,
        final(node).methods@.len() == old(node).methods@.len(),
        forall|j: int| 0 <= j < old(host).method_symbols@.len() && j != ti ==> #[trigger] final(host).method_symbols@[j] == old(host).method_symbols@[j],
        r ==> final(host).method_symbols@[ti as int]@.len() == final(node).methods@.len(),
        r ==> forall|k: int| 0 <= k < final(node).methods@.len() && #[trigger] final(host).method_symbols@[ti as int]@[k] is Some
            ==> final(node).methods@[k].inputs@.len() > 0,
        !r ==> final(host).diagnostics@.len() > 0,
{
    proof {
        lemma_keeps_bindings_refl(&*host);
    }
    if !compile_fields(host, node, smtype) {
        return false;
    }
    let ghost data_after = host.data_output@;

    // The handle type, its conversions and the constructor.
    let ghost h2 = *host;
    proof {
        match old(host).factory.parent(smtype) {
            Some(p) => {
                assert(old(host).factory.type_wf(smtype.0 as int));
                assert(h2.factory.slots()[p.0 as int] == old(host).factory.slots()[p.0 as int]);
            },
            None => {},
        }
    }
    ProcessingStep3_6().exec(host, node, smtype, smodel_path);
    let ghost out_after = host.output@;
    proof {
        let hd = old(host).output@ + handle_head_text(*old(node), match old(host).factory.parent(smtype) {
            Some(p) => Some(old(host).factory.name_of(p)),
            None => None,
        });
        assert(out_after.subrange(0, hd.len() as int) =~= hd);
        assert(host.output@.subrange(0, h2.output@.len() as int) =~= h2.output@);
        lemma_keeps_bindings_trans(&*old(host), &h2, host);
        crate::symbol::lemma_asc_chain_shape(&host.factory, smtype);
    }
    let asc = smtype.asc_smtype_list(&host.factory);
    let ghost h3 = *host;
    ProcessingStep3_7().exec(host, node.constructor.as_ref(), smtype, asc.as_slice(), arena_type_name);
    proof {
        assert(host.output@.subrange(0, h3.output@.len() as int) =~= h3.output@);
        lemma_keeps_bindings_trans(&*old(host), &h3, host);
        assert(host.diagnostics@.len() == old(host).diagnostics@.len() + ctor_problem_count(*old(node)));
    }
    let ghost d_c = host.diagnostics@.len();
    let ghost methods0 = node.methods@;
    let ghost f_e = old(host).factory;
    proof {
        assert(methods0.subrange(0, 0) =~= Seq::<SmTypeMethod>::empty());
    }

    // The methods.
    let mut j: usize = 0;
    while j < node.methods.len()
        invariant
            host.wf(),
            host.factory.is_type(smtype),
            keeps_bindings(&*old(host), &*host),
            ti < host.method_symbols@.len(),
            forall|x: int| 0 <= x < old(host).method_symbols@.len() && x != ti ==> #[trigger] host.method_symbols@[x] == old(host).method_symbols@[x],
            node.name == old(node).name,
            node.methods@.len() == old(node).methods@.len(),
            j <= node.methods@.len(),
            host.method_symbols@[ti as int]@.len() == j,
            forall|k: int| 0 <= k < j && #[trigger] host.method_symbols@[ti as int]@[k] is Some
                ==> node.methods@[k].inputs@.len() > 0,
            host.output@ == out_after,
            host.data_output@ == data_after,
            methods0 == old(node).methods@,
            f_e == old(host).factory,
            f_e.wf(),
            f_e.is_type(smtype),
            frame_except(&f_e, &host.factory, smtype),
            forall|x: int| j <= x < methods0.len() ==> #[trigger] node.methods@[x] == methods0[x],
            forall|key: Seq<char>|
                #[trigger] host.factory.type_slot(smtype).methods.has_key(key) == declares_instance_method(methods0.subrange(0, j as int), key),
            methods_ok(methods0.subrange(0, j as int)),
            field_names(old(node).fields@).no_duplicates(),
            host.diagnostics@.len() == d_c + methods_problem_sum(&f_e, smtype, methods0.subrange(0, j as int)),
        decreases node.methods@.len() - j,
    {
        let ghost h4 = *host;
        let ghost nm = node.methods@;
        let ghost mj = methods0[j as int];
        let ghost pre = methods0.subrange(0, j as int);
        let ghost next = methods0.subrange(0, j + 1);
        proof {
            assert(next.drop_last() =~= pre);
            assert(next.last() == mj);
        }
        let ok = ProcessingStep3_8().exec(host, &mut node.methods[j], smtype, ti);
        proof {
            assert(host.output@.subrange(0, h4.output@.len() as int) =~= h4.output@);
            lemma_keeps_bindings_trans(&*old(host), &h4, host);
        }
        if !ok {
            proof {
                if begins_with_instance_receiver_spec(mj.inputs@) {
                    assert(h4.factory.type_slot(smtype).methods.has_key(mj.name@));
                    let i = choose|i: int| 0 <= i < pre.len() && is_instance(#[trigger] pre[i]) && pre[i].name@ == mj.name@;
                    assert(methods0[i] == pre[i]);
                    assert(is_instance(methods0[j as int]));
                } else {
                    assert(is_instance(methods0[j as int]));
                }
            }
            return false;
        }
        proof {
            assert(node.methods@[j as int] == mj || true);
            // Keys, soundness and the count of diagnostics extend by one method.
            assert forall|key: Seq<char>|
                #[trigger] host.factory.type_slot(smtype).methods.has_key(key) == declares_instance_method(next, key) by {
                if declares_instance_method(pre, key) {
                    let i = choose|i: int| 0 <= i < pre.len() && is_instance(#[trigger] pre[i]) && pre[i].name@ == key;
                    assert(next[i] == pre[i]);
                }
                if declares_instance_method(next, key) {
                    let i = choose|i: int| 0 <= i < next.len() && is_instance(#[trigger] next[i]) && next[i].name@ == key;
                    if i < j {
                        assert(next[i] == pre[i]);
                    }
                }
            }
            assert forall|a: int, b: int|
                0 <= a < b < next.len() && is_instance(#[trigger] next[a]) && is_instance(#[trigger] next[b]) implies next[a].name@ != next[b].name@ by {
                if b < j {
                    assert(next[a] == pre[a] && next[b] == pre[b]);
                } else {
                    assert(next[a] == pre[a]);
                    assert(declares_instance_method(pre, next[a].name@));
                }
            }
            assert forall|a: int| 0 <= a < next.len() implies !is_instance(#[trigger] next[a]) || begins_with_instance_receiver_spec(next[a].inputs@) by {
                if a < j {
                    assert(next[a] == pre[a]);
                }
            }
            if is_instance(mj) {
                crate::methods::ProcessingStep3_8().lemma_entry_frame(&f_e, &h4.factory, smtype);
                crate::rewrite::lemma_missing_supers_same(&f_e, &h4.factory, smtype, mj.statements@, 0);
                assert(method_problem_count(&h4.factory, smtype, &mj) == method_problem_count(&f_e, smtype, &mj));
            }
            assert(frame_except(&f_e, &host.factory, smtype));
        }
        proof {
            assert forall|k: int| 0 <= k < j + 1 && #[trigger] host.method_symbols@[ti as int]@[k] is Some
                implies node.methods@[k].inputs@.len() > 0 by {
                if k < j {
                    assert(host.method_symbols@[ti as int]@[k] == h4.method_symbols@[ti as int]@[k]);
                    assert(node.methods@[k] == nm[k]);
                }
            }
        }
        j += 1;
    }
    proof {
        assert(methods0.subrange(0, methods0.len() as int) =~= methods0);
    }
    true
}

/// Adds the dispatching methods of type `smtype`, declared by `node` at
/// position `ti`, its `to` and `is`, and outputs its `impl` block.
fn finish_type(host: &mut SModelHost, node: &SmType, smtype: Symbol, ti: usize, smodel_path: &str)
    requires
        old(host).wf(),
        old(host).factory.is_type(smtype),
        ti < old(host).method_symbols@.len(),
    ensures
        final(host).wf(),
        keeps_bindings(&*old(host), &*final(host)),
        final(host).diagnostics == old(host).diagnostics,
        final(host).data_output == old(host).data_output,
        exists|body: Seq<char>| final(host).output@ == old(host).output@ + #[trigger] impl_block_text(node.name@, body, smodel_path@),
{
    proof {
        lemma_keeps_bindings_refl(&*host);
    }
    let mut j: usize = 0;
    while j < node.methods.len()
        invariant
            host.wf(),
            host.factory.is_type(smtype),
            keeps_bindings(&*old(host), &*host),
            host.method_symbols == old(host).method_symbols,
            host.diagnostics == old(host).diagnostics,
            host.output == old(host).output,
            host.data_output == old(host).data_output,
            ti < host.method_symbols@.len(),
        decreases node.methods@.len() - j,
    {
        let slot = if j < host.method_symbols[ti].len() {
            host.method_symbols[ti][j]
        } else {
            None
        };
        if node.methods[j].inputs.len() > 0 {
            let ghost h0 = *host;
            ProcessingStep4_1().exec(host, &node.methods[j], smtype, slot);
            proof {
                assert(host.output@.subrange(0, h0.output@.len() as int) =~= h0.output@);
                lemma_keeps_bindings_trans(&*old(host), &h0, host);
            }
        }
        j += 1;
    }
    let mut code = String::new();
    code.append("pub fn to<T: TryFrom<");
    code.append(node.name.as_str());
    code.append(", Error = ");
    code.append(smodel_path);
    code.append("::SModelError>>(&self) -> Result<T, ");
    code.append(smodel_path);
    code.append("::SModelError> { T::try_from(self.clone()) } pub fn is<T: TryFrom<");
    code.append(node.name.as_str());
    code.append(", Error = ");
    code.append(smodel_path);
    code.append("::SModelError>>(&self) -> bool { T::try_from(self.clone()).is_ok() } ");
    let ghost h1 = *host;
    let ghost body = h1.factory.type_slot(smtype).method_output@;
    host.factory.append_method_output(smtype, code.as_str());
    proof {
        crate::layout::lemma_extends_keeps_host(&h1, host);
        assert(host.output@.subrange(0, h1.output@.len() as int) =~= h1.output@);
        lemma_keeps_bindings_trans(&*old(host), &h1, host);
        assert(code@ =~= to_is_text(node.name@, smodel_path@));
    }
    let method_output = smtype.method_output(&host.factory).clone();
    let ghost h2 = *host;
    host.output.append("impl ");
    host.output.append(node.name.as_str());
    host.output.append(" { ");
    host.output.append(method_output.as_str());
    host.output.append(" } ");
    proof {
        assert(host.output@.subrange(0, h2.output@.len() as int) =~= h2.output@);
        lemma_keeps_bindings_trans(&*old(host), &h2, host);
        assert(host.output@ =~= old(host).output@ + impl_block_text(node.name@, body, smodel_path@));
    }
}

} // verus!
