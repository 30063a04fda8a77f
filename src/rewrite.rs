use crate::handle::dot_zeros;
use crate::symbol::{LmtFactory, Symbol};
use crate::tree::{Delim, Token};
use vstd::prelude::*;

verus! {

pub open spec fn token_text(t: Token) -> Seq<char> {
    match t {
        Token::Ident(s) => s@ + " "@,
        Token::Punct(s, joint) => if joint {
            s@
        } else {
            s@ + " "@
        },
        Token::Literal(s) => s@ + " "@,
        Token::Open(d) => match d {
            Delim::Paren => "( "@,
            Delim::Brace => "{ "@,
            Delim::Bracket => "[ "@,
            Delim::Invisible => Seq::empty(),
        },
        Token::Close(d) => match d {
            Delim::Paren => ") "@,
            Delim::Brace => "} "@,
            Delim::Bracket => "] "@,
            Delim::Invisible => Seq::empty(),
        },
    }
}

/// Tokens as source text.
pub open spec fn tokens_text(tokens: Seq<Token>) -> Seq<char>
    decreases tokens.len(),
{
    if tokens.len() == 0 {
        Seq::empty()
    } else {
        tokens_text(tokens.drop_last()) + token_text(tokens.last())
    }
}

/// The method name of a `super . NAME (` at position `i`, if one starts
/// there.
pub open spec fn super_call_at(tokens: Seq<Token>, i: int) -> Option<Seq<char>> {
    if 0 <= i && i + 3 < tokens.len() && (tokens[i] matches Token::Ident(s) && s@ == "super"@)
        && (tokens[i + 1] matches Token::Punct(p, _) && p@ == "."@) && tokens[i + 2] is Ident
        && (tokens[i + 3] matches Token::Open(d) && d == Delim::Paren) {
        match tokens[i + 2] {
            Token::Ident(n) => Some(n@),
            _ => None,
        }
    } else {
        None
    }
}

/// The start of a direct call to the non-dispatching implementation of
/// method `name` in type `base`, on the receiver seen `hops` levels up.
pub open spec fn super_call_text(base: Seq<char>, name: Seq<char>, hops: nat) -> Seq<char> {
    base + "::__nd_"@ + name + "(&self"@ + dot_zeros(hops) + ", "@
}

/// The method body `tokens` of a method of type `t`, from position `i`,
/// with each `super.NAME(` whose target exists turned into a direct call to
/// the nearest ancestor's non-dispatching implementation. The arguments
/// that follow are rewritten the same way.
pub open spec fn rewrite_text(f: &LmtFactory, t: Symbol, tokens: Seq<Token>, i: int) -> Seq<char>
    decreases tokens.len() - i,
{
    if i < 0 || i >= tokens.len() {
        Seq::empty()
    } else {
        match super_call_at(tokens, i) {
            Some(name) => match f.base_method(t, name) {
                Some(m) => {
                    let d = f.method_slot(m).defined_in;
                    super_call_text(f.name_of(d), name, (f.depth(t) - f.depth(d)) as nat) + rewrite_text(
                        f,
                        t,
                        tokens,
                        i + 4,
                    )
                },
                None => token_text(tokens[i]) + rewrite_text(f, t, tokens, i + 1),
            },
            None => token_text(tokens[i]) + rewrite_text(f, t, tokens, i + 1),
        }
    }
}

/// How many `super.NAME(` of `tokens`, from position `i`, have no target.
pub open spec fn missing_supers(f: &LmtFactory, t: Symbol, tokens: Seq<Token>, i: int) -> nat
    decreases tokens.len() - i,
{
    if i < 0 || i >= tokens.len() {
        0
    } else {
        match super_call_at(tokens, i) {
            Some(name) => match f.base_method(t, name) {
                Some(m) => missing_supers(f, t, tokens, i + 4),
                None => 1 + missing_supers(f, t, tokens, i + 1),
            },
            None => missing_supers(f, t, tokens, i + 1),
        }
    }
}

/// What is missing above `t` depends on which methods are found there.
pub proof fn lemma_missing_supers_same(a: &LmtFactory, b: &LmtFactory, t: Symbol, tokens: Seq<Token>, i: int)
    requires
        forall|n: Seq<char>| #[trigger] b.base_method(t, n) == a.base_method(t, n),
    ensures
        missing_supers(b, t, tokens, i) == missing_supers(a, t, tokens, i),
    decreases tokens.len() - i,
{
    if 0 <= i < tokens.len() {
        lemma_missing_supers_same(a, b, t, tokens, i + 1);
        if i + 4 <= tokens.len() {
            lemma_missing_supers_same(a, b, t, tokens, i + 4);
        }
    }
}

pub fn push_token(out: &mut String, t: &Token)
    ensures
        final(out)@ == old(out)@ + token_text(*t),
{
    match t {
        Token::Ident(s) => {
            out.append(s.as_str());
            out.append(" ");
        },
        Token::Punct(s, joint) => {
            out.append(s.as_str());
            if !*joint {
                out.append(" ");
            }
        },
        Token::Literal(s) => {
            out.append(s.as_str());
            out.append(" ");
        },
        Token::Open(d) => match d {
            Delim::Paren => out.append("( "),
            Delim::Brace => out.append("{ "),
            Delim::Bracket => out.append("[ "),
            Delim::Invisible => {},
        },
        Token::Close(d) => match d {
            Delim::Paren => out.append(") "),
            Delim::Brace => out.append("} "),
            Delim::Bracket => out.append("] "),
            Delim::Invisible => {},
        },
    }
    proof {
        if token_text(*t).len() == 0 {
            assert(out@ =~= old(out)@ + token_text(*t));
        }
    }
}

/// Tokens as source text.
pub fn render_tokens(tokens: &Vec<Token>) -> (r: String)
    ensures
        r@ == tokens_text(tokens@),
{
    let mut out = String::new();
    let mut i: usize = 0;
    while i < tokens.len()
        invariant
            i <= tokens@.len(),
            out@ == tokens_text(tokens@.subrange(0, i as int)),
        decreases tokens@.len() - i,
    {
        push_token(&mut out, &tokens[i]);
        proof {
            assert(tokens@.subrange(0, i + 1).drop_last() =~= tokens@.subrange(0, i as int));
        }
        i += 1;
    }
    assert(tokens@.subrange(0, tokens@.len() as int) =~= tokens@);
    out
}

/// The method name of a `super . NAME (` at position `i`, if one starts
/// there.
pub fn super_call_name(tokens: &Vec<Token>, i: usize) -> (r: Option<String>)
    ensures
        match r {
            Some(n) => super_call_at(tokens@, i as int) == Some(n@),
            None => super_call_at(tokens@, i as int) is None,
        },
{
    if i >= tokens.len() || tokens.len() - i <= 3 {
        return None;
    }
    let super_word = String::from_str("super");
    let dot = String::from_str(".");
    let first = match &tokens[i] {
        Token::Ident(s) => *s == super_word,
        _ => false,
    };
    let second = match &tokens[i + 1] {
        Token::Punct(p, _) => *p == dot,
        _ => false,
    };
    let fourth = match &tokens[i + 3] {
        Token::Open(d) => *d == Delim::Paren,
        _ => false,
    };
    if first && second && fourth {
        match &tokens[i + 2] {
            Token::Ident(n) => Some(n.clone()),
            _ => None,
        }
    } else {
        None
    }
}

/// The number of `inherits` links from `t` up to its ancestor `d`.
pub fn hops_up_of(t: Symbol, d: Symbol, f: &LmtFactory) -> (r: usize)
    requires
        f.wf(),
        f.is_type(t),
        f.is_type(d),
        f.is_strict_ancestor(d, t),
    ensures
        r == f.depth(t) - f.depth(d),
        f.depth(d) < f.depth(t),
{
    proof {
        crate::symbol::lemma_asc_chain_shape(f, t);
        crate::symbol::lemma_asc_chain_shape(f, d);
        let k = choose|k: int| 0 <= k < f.chain(t).drop_last().len() && f.chain(t).drop_last()[k] == d;
        assert(f.chain(t)[k] == d);
        crate::runtime::lemma_chain_prefix(f, t, k);
    }
    let td = t.asc_smtype_list(f).len();
    let dd = d.asc_smtype_list(f).len();
    td - dd
}

impl LmtFactory {
    /// The type that declares the method `name` found above `t`.
    pub open spec fn base_method_owner(&self, t: Symbol, name: Seq<char>) -> Symbol {
        self.method_slot(self.base_method(t, name)->0).defined_in
    }
}

/// A method found above `t` is declared by a strict ancestor of `t`.
pub proof fn lemma_base_method_owner(f: &LmtFactory, t: Symbol, name: Seq<char>)
    requires
        f.wf(),
        f.is_type(t),
        f.base_method(t, name) is Some,
    ensures
        f.is_method(f.base_method(t, name)->0),
        f.is_type(f.base_method_owner(t, name)),
        f.is_strict_ancestor(f.base_method_owner(t, name), t),
        f.name_of(f.base_method(t, name)->0) == name,
{
    crate::symbol::lemma_super_target_is_nearest(f, t, name);
    crate::symbol::lemma_asc_chain_shape(f, t);
    let c = f.chain(t);
    let m = f.base_method(t, name)->0;
    let k = choose|k: int|
        0 <= k < c.len() - 1 && f.own_method(#[trigger] c[k], name) == Some(m) && f.is_method(m)
            && f.method_slot(m).defined_in == c[k] && forall|j: int|
            k < j < c.len() - 1 ==> (#[trigger] f.own_method(c[j], name)) is None;
    assert(c.drop_last()[k] == c[k]);
    assert(f.type_wf(c[k].0 as int));
    assert(f.type_slot(c[k]).methods.has_key(name));
}

} // verus!
