use crate::symbol::{LmtFactory, Symbol};
use vstd::prelude::*;

verus! {

/// The one error of generated conversions: a downcast to a type that the
/// instance does not have.
#[derive(Clone, Copy, PartialEq, Eq, Structural, Debug)]
pub enum SModelError {
    Contravariant,
}

/// What the discriminant walk of a downcast to the type with chain `target`
/// does on an instance whose record chain is `dynamic` (the chain of its
/// dynamic type): from level `i`, each level's discriminant must name the
/// target's next type.
pub open spec fn contravariant_walk(target: Seq<Symbol>, i: int, dynamic: Seq<Symbol>) -> Result<(), SModelError>
    decreases target.len() - i,
{
    if i + 1 >= target.len() {
        Ok(())
    } else if i + 1 < dynamic.len() && dynamic[i + 1] == target[i + 1] {
        contravariant_walk(target, i + 1, dynamic)
    } else {
        Err(SModelError::Contravariant)
    }
}

impl LmtFactory {
    /// Every type descends from `Symbol(0)`.
    pub open spec fn has_single_root(&self) -> bool {
        &&& self.is_type(Symbol(0))
        &&& forall|t: Symbol| #[trigger] self.is_type(t) && self.parent(t) is None ==> t == Symbol(0)
    }
}

/// The chain of the type at position `k` of a chain is the chain up to `k`.
pub proof fn lemma_chain_prefix(f: &LmtFactory, d: Symbol, k: int)
    requires
        f.wf(),
        f.is_type(d),
        0 <= k < f.chain(d).len(),
    ensures
        f.chain(f.chain(d)[k]) == f.chain(d).subrange(0, k + 1),
    decreases d.0,
{
    crate::symbol::lemma_asc_chain_shape(f, d);
    assert(f.type_wf(d.0 as int));
    if k == f.chain(d).len() - 1 {
        assert(f.chain(d).subrange(0, k + 1) =~= f.chain(d));
    } else {
        let p = f.parent(d)->0;
        assert(f.chain(d) == f.chain(p).push(d));
        lemma_chain_prefix(f, p, k);
        assert(f.chain(d)[k] == f.chain(p)[k]);
        assert(f.chain(p).subrange(0, k + 1) =~= f.chain(d).subrange(0, k + 1));
    }
}

/// Two chains that agree from level `i` on, in the walk's sense, succeed.
proof fn lemma_walk_on_prefix(target: Seq<Symbol>, i: int, dynamic: Seq<Symbol>)
    requires
        0 <= i,
        target.len() <= dynamic.len(),
        forall|j: int| 0 <= j < target.len() ==> target[j] == dynamic[j],
    ensures
        contravariant_walk(target, i, dynamic) == Ok::<(), SModelError>(()),
    decreases target.len() - i,
{
    if i + 1 < target.len() {
        lemma_walk_on_prefix(target, i + 1, dynamic);
    }
}

/// A walk that succeeds from level `i` means agreement above level `i`.
proof fn lemma_walk_agrees(target: Seq<Symbol>, i: int, dynamic: Seq<Symbol>)
    requires
        0 <= i,
        contravariant_walk(target, i, dynamic) is Ok,
    ensures
        target.len() <= dynamic.len() || target.len() <= i + 1,
        forall|j: int| i < j < target.len() ==> target[j] == dynamic[j],
    decreases target.len() - i,
{
    if i + 1 < target.len() {
        lemma_walk_agrees(target, i + 1, dynamic);
    }
}

/// A downcast of an instance of dynamic type `d` to type `s` passes every
/// discriminant test exactly when `s` stands in the chain of `d`. So `is`
/// (which asks whether the downcast succeeds) holds exactly then, an
/// instance upcast from `d` downcasts back to `d` and to each type between,
/// and a downcast to a type outside the chain fails with `Contravariant`.
pub proof fn lemma_downcast_succeeds_iff_in_chain(f: &LmtFactory, d: Symbol, s: Symbol)
    requires
        f.wf(),
        f.has_single_root(),
        f.is_type(d),
        f.is_type(s),
    ensures
        contravariant_walk(f.chain(s), 0, f.chain(d)) is Ok <==> f.chain(d).contains(s),
        !f.chain(d).contains(s) ==> contravariant_walk(f.chain(s), 0, f.chain(d)) == Err::<
            (),
            SModelError,
        >(SModelError::Contravariant),
{
    crate::symbol::lemma_asc_chain_shape(f, d);
    crate::symbol::lemma_asc_chain_shape(f, s);
    let cd = f.chain(d);
    let cs = f.chain(s);
    if cd.contains(s) {
        let k = choose|k: int| 0 <= k < cd.len() && cd[k] == s;
        lemma_chain_prefix(f, d, k);
        lemma_walk_on_prefix(cs, 0, cd);
    }
    if contravariant_walk(cs, 0, cd) is Ok {
        lemma_walk_agrees(cs, 0, cd);
        assert(cs[0] == Symbol(0));
        assert(cd[0] == Symbol(0));
        assert(cd[cs.len() - 1] == cs[cs.len() - 1]);
        assert(cs.last() == s);
        assert(cd.contains(s));
    }
    lemma_walk_result(cs, 0, cd);
}

/// A walk either succeeds or fails with `Contravariant`.
proof fn lemma_walk_result(target: Seq<Symbol>, i: int, dynamic: Seq<Symbol>)
    ensures
        contravariant_walk(target, i, dynamic) is Ok || contravariant_walk(target, i, dynamic) == Err::<
            (),
            SModelError,
        >(SModelError::Contravariant),
    decreases target.len() - i,
{
    if i + 1 < target.len() {
        lemma_walk_result(target, i + 1, dynamic);
    }
}

/// An instance of type `d`, seen through a handle of any of its ancestors,
/// downcasts back to `d` itself.
pub proof fn lemma_upcast_then_downcast(f: &LmtFactory, d: Symbol)
    requires
        f.wf(),
        f.has_single_root(),
        f.is_type(d),
    ensures
        contravariant_walk(f.chain(d), 0, f.chain(d)) is Ok,
{
    crate::symbol::lemma_asc_chain_shape(f, d);
    assert(f.chain(d)[f.chain(d).len() - 1] == d);
    lemma_downcast_succeeds_iff_in_chain(f, d, d);
}

} // verus!

verus! {

/// A strict ancestor `a` of `t` stands in the chain of `t` at its own
/// depth, before `t`.
pub proof fn lemma_ancestor_position(f: &LmtFactory, t: Symbol, a: Symbol)
    requires
        f.wf(),
        f.is_type(t),
        f.is_strict_ancestor(a, t),
    ensures
        f.depth(a) + 1 < f.chain(t).len(),
        f.chain(t)[f.depth(a) as int] == a,
        f.is_type(a),
{
    crate::symbol::lemma_asc_chain_shape(f, t);
    let k = choose|k: int| 0 <= k < f.chain(t).drop_last().len() && f.chain(t).drop_last()[k] == a;
    assert(f.chain(t)[k] == a);
    lemma_chain_prefix(f, t, k);
    crate::symbol::lemma_asc_chain_shape(f, a);
}

/// The type at position `k` of a chain has depth `k`.
pub proof fn lemma_chain_position_depth(f: &LmtFactory, t: Symbol, k: int)
    requires
        f.wf(),
        f.is_type(t),
        0 <= k < f.chain(t).len(),
    ensures
        f.depth(f.chain(t)[k]) == k,
        f.is_type(f.chain(t)[k]),
{
    crate::symbol::lemma_asc_chain_shape(f, t);
    lemma_chain_prefix(f, t, k);
    crate::symbol::lemma_asc_chain_shape(f, f.chain(t)[k]);
}

/// Names that agree over a sequence agree over each part of it.
pub proof fn lemma_names_of_subrange(a: &LmtFactory, b: &LmtFactory, c: Seq<Symbol>, lo: int, hi: int)
    requires
        b.names_of(c) == a.names_of(c),
        0 <= lo <= hi <= c.len(),
    ensures
        b.names_of(c.subrange(lo, hi)) == a.names_of(c.subrange(lo, hi)),
{
    assert forall|i: int| 0 <= i < hi - lo implies b.name_of(#[trigger] c.subrange(lo, hi)[i]) == a.name_of(c.subrange(lo, hi)[i]) by {
        assert(c.subrange(lo, hi)[i] == c[lo + i]);
        assert(b.names_of(c)[lo + i] == a.names_of(c)[lo + i]);
    }
    assert(b.names_of(c.subrange(lo, hi)) =~= a.names_of(c.subrange(lo, hi)));
}

} // verus!
