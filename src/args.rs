use crate::host::{Diagnostic, SModelHost};
use crate::tree::{FnArg, Generics};
use vstd::prelude::*;

verus! {

/// The source text of a parameter.
pub open spec fn arg_text(a: FnArg) -> Seq<char> {
    match a {
        FnArg::Receiver(r) => r.text@,
        FnArg::Typed(t) => t.text@,
    }
}

/// Parameters as source text, each followed by `, `.
pub open spec fn inputs_text(args: Seq<FnArg>) -> Seq<char>
    decreases args.len(),
{
    if args.len() == 0 {
        Seq::empty()
    } else {
        inputs_text(args.drop_last()) + arg_text(args.last()) + ", "@
    }
}

/// The names that parameters bind, each followed by `, `, as arguments of
/// a call that forwards them. Parameters that bind no plain name are left
/// out.
pub open spec fn arguments_text(args: Seq<FnArg>) -> Seq<char>
    decreases args.len(),
{
    if args.len() == 0 {
        Seq::empty()
    } else {
        arguments_text(args.drop_last()) + match args.last() {
            FnArg::Typed(t) => match t.ident {
                Some(id) => id@ + ", "@,
                None => Seq::empty(),
            },
            FnArg::Receiver(_) => Seq::empty(),
        }
    }
}

/// The problems with parameters that should be forwarded: a receiver, or a
/// pattern that is not a plain name.
pub open spec fn argument_problems(args: Seq<FnArg>) -> Seq<Diagnostic>
    decreases args.len(),
{
    if args.len() == 0 {
        Seq::empty()
    } else {
        argument_problems(args.drop_last()) + match args.last() {
            FnArg::Typed(t) => match t.ident {
                Some(_) => Seq::empty(),
                None => seq![Diagnostic::PatternNotIdent],
            },
            FnArg::Receiver(_) => seq![Diagnostic::UnexpectedReceiver],
        }
    }
}

/// `<params>`, or nothing without parameters.
pub open spec fn type_params_text(g: Generics) -> Seq<char> {
    if g.params@.len() == 0 {
        Seq::empty()
    } else {
        "<"@ + g.params@ + ">"@
    }
}

pub fn push_inputs(out: &mut String, args: &[FnArg], start: usize)
    requires
        start <= args@.len(),
    ensures
        final(out)@ == old(out)@ + inputs_text(args@.subrange(start as int, args@.len() as int)),
{
    let mut i: usize = start;
    while i < args.len()
        invariant
            start <= i <= args@.len(),
            out@ == old(out)@ + inputs_text(args@.subrange(start as int, i as int)),
        decreases args@.len() - i,
    {
        match &args[i] {
            FnArg::Receiver(r) => out.append(r.text.as_str()),
            FnArg::Typed(t) => out.append(t.text.as_str()),
        }
        out.append(", ");
        proof {
            assert(args@.subrange(start as int, i + 1).drop_last() =~= args@.subrange(start as int, i as int));
        }
        i += 1;
    }
}

pub fn push_type_params(out: &mut String, g: &Generics)
    ensures
        final(out)@ == old(out)@ + type_params_text(*g),
{
    if g.params.as_str().unicode_len() != 0 {
        out.append("<");
        out.append(g.params.as_str());
        out.append(">");
    } else {
        assert(out@ =~= old(out)@ + Seq::<char>::empty());
    }
}

/// The argument list that forwards `input` from position `start`.
pub fn argument_names(input: &[FnArg], start: usize) -> (r: String)
    requires
        start <= input@.len(),
    ensures
        r@ == arguments_text(input@.subrange(start as int, input@.len() as int)),
{
    let mut out = String::new();
    let mut i: usize = start;
    while i < input.len()
        invariant
            start <= i <= input@.len(),
            out@ == arguments_text(input@.subrange(start as int, i as int)),
        decreases input@.len() - i,
    {
        let ghost prev_out = out@;
        match &input[i] {
            FnArg::Receiver(_) => {},
            FnArg::Typed(t) => match &t.ident {
                Some(id) => {
                    out.append(id.as_str());
                    out.append(", ");
                },
                None => {},
            },
        }
        proof {
            let s = input@.subrange(start as int, i + 1);
            assert(s.drop_last() =~= input@.subrange(start as int, i as int));
            assert(s.last() == input@[i as int]);
            match input@[i as int] {
                FnArg::Typed(t) => match t.ident {
                    Some(id) => {},
                    None => {
                        assert(out@ =~= prev_out + Seq::<char>::empty());
                    },
                },
                FnArg::Receiver(_) => {
                    assert(out@ =~= prev_out + Seq::<char>::empty());
                },
            }
        }
        i += 1;
    }
    out
}

/// The argument list that forwards `input`, with a diagnostic for each
/// parameter that cannot be forwarded.
pub fn convert_function_input_to_arguments(host: &mut SModelHost, input: &[FnArg], start: usize) -> (r: String)
    requires
        start <= input@.len(),
    ensures
        r@ == arguments_text(input@.subrange(start as int, input@.len() as int)),
        final(host).diagnostics@ == old(host).diagnostics@ + argument_problems(input@.subrange(start as int, input@.len() as int)),
        final(host).factory == old(host).factory,
        final(host).smtype_slots == old(host).smtype_slots,
        final(host).type_symbols == old(host).type_symbols,
        final(host).method_symbols == old(host).method_symbols,
        final(host).output == old(host).output,
        final(host).data_output == old(host).data_output,
{
    let mut out = String::new();
    let mut i: usize = start;
    while i < input.len()
        invariant
            start <= i <= input@.len(),
            out@ == arguments_text(input@.subrange(start as int, i as int)),
            host.diagnostics@ == old(host).diagnostics@ + argument_problems(input@.subrange(start as int, i as int)),
            host.factory == old(host).factory,
            host.smtype_slots == old(host).smtype_slots,
            host.type_symbols == old(host).type_symbols,
            host.method_symbols == old(host).method_symbols,
            host.output == old(host).output,
            host.data_output == old(host).data_output,
        decreases input@.len() - i,
    {
        let ghost prev_out = out@;
        let ghost prev_diags = host.diagnostics@;
        match &input[i] {
            FnArg::Receiver(_) => {
                host.diagnostics.push(Diagnostic::UnexpectedReceiver);
            },
            FnArg::Typed(t) => match &t.ident {
                Some(id) => {
                    out.append(id.as_str());
                    out.append(", ");
                },
                None => {
                    host.diagnostics.push(Diagnostic::PatternNotIdent);
                },
            },
        }
        proof {
            let s = input@.subrange(start as int, i + 1);
            assert(s.drop_last() =~= input@.subrange(start as int, i as int));
            assert(s.last() == input@[i as int]);
            match input@[i as int] {
                FnArg::Receiver(_) => {
                    assert(out@ =~= prev_out + Seq::<char>::empty());
                    assert(host.diagnostics@ =~= prev_diags + seq![Diagnostic::UnexpectedReceiver]);
                },
                FnArg::Typed(t) => match t.ident {
                    Some(id) => {
                        assert(host.diagnostics@ =~= prev_diags + Seq::<Diagnostic>::empty());
                    },
                    None => {
                        assert(out@ =~= prev_out + Seq::<char>::empty());
                        assert(host.diagnostics@ =~= prev_diags + seq![Diagnostic::PatternNotIdent]);
                    },
                },
            }
        }
        i += 1;
    }
    out
}

} // verus!
