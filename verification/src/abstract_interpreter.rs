//! The stack-effect inferencer: the core of the front end.
//!
//! A term is interpreted abstractly against a symbolic stack.  `out_stack`
//! holds the types currently visible on top of the stack; `in_stack` grows
//! lazily, appending a freshly minted parameter whenever the term reads a
//! value it did not itself produce.  The type of the whole term is
//! `Function(in_stack, out_stack)` at the end of the run.
//!
//! A fresh inferencer is made per term; nested quotations are inferred by a
//! fresh child inferencer, so parameter numbering restarts at zero inside a
//! quotation.  The inferencer owns no symbol table: identifiers are resolved
//! by the checker, and a bare inferencer rejects them as unknown.

use vstd::prelude::*;
use crate::error::{Error, ErrorV, spec_exhausted_error, spec_unknown_identifier_error};
use crate::parser::{Factor, FactorV, factors_view, lemma_factors_view};
use crate::scanner::{Token, spec_unknown_token};
use crate::typechecker::{Type, TypeV, alpha_eq, lemma_alpha_eq_refl, lemma_types_view, lemma_types_view_add, spec_mismatch_error, spec_type_str, type_eq, type_string, types_view, vec1, vec3};

verus! {

/// The mathematical model of one inferencer state.
pub struct StateV {
    pub in_stack: Seq<TypeV>,
    pub out_stack: Seq<TypeV>,
    pub param_count: int,
}

/// The state of a fresh inferencer.
pub open spec fn spec_init() -> StateV {
    StateV { in_stack: Seq::empty(), out_stack: Seq::empty(), param_count: 0 }
}

/// Minting a fresh parameter: the parameter carries the current counter
/// value, and the counter advances by one.
pub open spec fn spec_new_param(st: StateV) -> Result<(TypeV, StateV), ErrorV> {
    if st.param_count < usize::MAX as int {
        Ok((
            TypeV::Param(st.param_count),
            StateV { param_count: st.param_count + 1, ..st },
        ))
    } else {
        Err(spec_exhausted_error())
    }
}

/// Popping the symbolic stack.  When `out_stack` is empty, a fresh parameter
/// is minted and appended to `in_stack`: the term has been found to consume
/// one more value from below.
pub open spec fn spec_pop(st: StateV) -> Result<(TypeV, StateV), ErrorV> {
    if st.out_stack.len() > 0 {
        Ok((st.out_stack.last(), StateV { out_stack: st.out_stack.drop_last(), ..st }))
    } else {
        match spec_new_param(st) {
            Ok(pst) => Ok((pst.0, StateV { in_stack: pst.1.in_stack.push(pst.0), ..pst.1 })),
            Err(e) => Err(e),
        }
    }
}

/// Pushing one type onto the symbolic stack.
pub open spec fn spec_push(st: StateV, t: TypeV) -> StateV {
    StateV { out_stack: st.out_stack.push(t), ..st }
}

/// The error for calling a value that is neither a function nor a bare
/// parameter.
pub open spec fn spec_expected_function_error(actual: TypeV) -> ErrorV {
    ErrorV::TypeError(
        "Expected function but got "@ + spec_type_str(actual),
        spec_unknown_token(),
    )
}

/// Matching a called function's expected inputs, last first, against the
/// stack.  An expected parameter learns the actual type it was matched with,
/// later (leftward) matches overwriting earlier ones; any other expected
/// type must equal the actual type structurally.
pub open spec fn spec_match_inputs(
    learned: Map<int, TypeV>,
    expected: Seq<TypeV>,
    st: StateV,
) -> Result<(Map<int, TypeV>, StateV), ErrorV>
    decreases expected.len(),
{
    if expected.len() == 0 {
        Ok((learned, st))
    } else {
        let e = expected.last();
        match spec_pop(st) {
            Ok(ast) => match e {
                TypeV::Param(p) => spec_match_inputs(
                    learned.insert(p, ast.0),
                    expected.drop_last(),
                    ast.1,
                ),
                _ => if e == ast.0 {
                    spec_match_inputs(learned, expected.drop_last(), ast.1)
                } else {
                    Err(spec_mismatch_error(e, ast.0))
                },
            },
            Err(err) => Err(err),
        }
    }
}

/// One-level substitution of learned bindings into a list of types: a bound
/// parameter becomes its binding, an unbound parameter is dropped, anything
/// else is kept verbatim.
pub open spec fn spec_substitute(learned: Map<int, TypeV>, ts: Seq<TypeV>) -> Seq<TypeV>
    decreases ts.len(),
{
    if ts.len() == 0 {
        Seq::empty()
    } else {
        let rest = spec_substitute(learned, ts.drop_first());
        match ts[0] {
            TypeV::Param(p) => if learned.contains_key(p) {
                seq![learned[p]] + rest
            } else {
                rest
            },
            t => seq![t] + rest,
        }
    }
}

/// Appending a called function's outputs, left to right, onto `acc`: a bound
/// parameter becomes its binding, an unbound parameter is dropped, a
/// function type gets its components substituted one level deep, anything
/// else is appended verbatim.
pub open spec fn spec_append_outputs(
    learned: Map<int, TypeV>,
    outs: Seq<TypeV>,
    acc: Seq<TypeV>,
) -> Seq<TypeV>
    decreases outs.len(),
{
    if outs.len() == 0 {
        acc
    } else {
        let acc1 = match outs[0] {
            TypeV::Param(p) => if learned.contains_key(p) {
                acc.push(learned[p])
            } else {
                acc
            },
            TypeV::Function(ti, to) => acc.push(
                TypeV::Function(spec_substitute(learned, ti), spec_substitute(learned, to)),
            ),
            t => acc.push(t),
        };
        spec_append_outputs(learned, outs.drop_first(), acc1)
    }
}

/// Calling a popped value as a function.  A function type has its inputs
/// matched against the stack and its outputs pushed with the learned
/// bindings applied; a bare parameter cannot be resolved locally and the
/// call leaves the stack as it is; anything else is a type error.
pub open spec fn spec_call(st: StateV, f: TypeV) -> Result<StateV, ErrorV> {
    match f {
        TypeV::Function(t_in, t_out) => match spec_match_inputs(Map::empty(), t_in, st) {
            Ok(mst) => Ok(
                StateV {
                    out_stack: spec_append_outputs(mst.0, t_out, mst.1.out_stack),
                    ..mst.1
                },
            ),
            Err(e) => Err(e),
        },
        TypeV::Param(_) => Ok(st),
        _ => Err(spec_expected_function_error(f)),
    }
}

/// An operand of `cat`: a function type is taken apart; a bare parameter is
/// constrained to a function shape with a freshly minted one-input
/// one-output signature; anything else is a type error.
pub open spec fn spec_promote(st: StateV, t: TypeV) -> Result<(Seq<TypeV>, Seq<TypeV>, StateV), ErrorV> {
    match t {
        TypeV::Function(ti, to) => Ok((ti, to, st)),
        TypeV::Param(_) => match spec_new_param(st) {
            Ok(ast) => match spec_new_param(ast.1) {
                Ok(bst) => Ok((seq![ast.0], seq![bst.0], bst.1)),
                Err(e) => Err(e),
            },
            Err(e) => Err(e),
        },
        _ => Err(spec_expected_function_error(t)),
    }
}

/// Matching `g`'s expected inputs, last first, against `f`'s outputs when
/// composing `f . g`.  Expected inputs that underflow `f`'s outputs become
/// extra inputs of the composition, in the order they are discovered.
/// Returns the learned bindings, what is left of `f`'s outputs, and the
/// extra inputs.
pub open spec fn spec_compose_inputs(
    learned: Map<int, TypeV>,
    expected: Seq<TypeV>,
    avail: Seq<TypeV>,
    extra: Seq<TypeV>,
) -> Result<(Map<int, TypeV>, Seq<TypeV>, Seq<TypeV>), ErrorV>
    decreases expected.len(),
{
    if expected.len() == 0 {
        Ok((learned, avail, extra))
    } else {
        let e = expected.last();
        if avail.len() > 0 {
            let a = avail.last();
            match e {
                TypeV::Param(p) => spec_compose_inputs(
                    learned.insert(p, a),
                    expected.drop_last(),
                    avail.drop_last(),
                    extra,
                ),
                _ => if e == a {
                    spec_compose_inputs(learned, expected.drop_last(), avail.drop_last(), extra)
                } else {
                    Err(spec_mismatch_error(e, a))
                },
            }
        } else {
            spec_compose_inputs(learned, expected.drop_last(), avail, extra.push(e))
        }
    }
}

/// The effect of `cat`: pop `g`, then `f`; constrain bare parameters to
/// fresh function shapes, `f` first; then push the composition `f . g`.  Its
/// inputs are `f`'s inputs followed by whatever `g` still needed below
/// `f`'s outputs; its outputs are what `g` left of `f`'s outputs followed by
/// `g`'s outputs with the bindings learned during matching applied.
pub open spec fn spec_cat(st: StateV) -> Result<StateV, ErrorV> {
    match spec_pop(st) {
        Ok(gst) => match spec_pop(gst.1) {
            Ok(fst) => match spec_promote(fst.1, fst.0) {
                Ok(fparts) => match spec_promote(fparts.2, gst.0) {
                    Ok(gparts) => match spec_compose_inputs(
                        Map::empty(),
                        gparts.0,
                        fparts.1,
                        Seq::empty(),
                    ) {
                        Ok(comp) => Ok(spec_push(
                            gparts.2,
                            TypeV::Function(
                                fparts.0 + comp.2,
                                spec_append_outputs(comp.0, gparts.1, comp.1),
                            ),
                        )),
                        Err(e) => Err(e),
                    },
                    Err(e) => Err(e),
                },
                Err(e) => Err(e),
            },
            Err(e) => Err(e),
        },
        Err(e) => Err(e),
    }
}

/// The effect of `swap`: pop `b`, pop `a`, push `b`, push `a`.
pub open spec fn spec_swap(st: StateV) -> Result<StateV, ErrorV> {
    match spec_pop(st) {
        Ok(bst) => match spec_pop(bst.1) {
            Ok(ast) => Ok(spec_push(spec_push(ast.1, bst.0), ast.0)),
            Err(e) => Err(e),
        },
        Err(e) => Err(e),
    }
}

/// The effect of `ifte`: mint `a` and `b`, then call the function type
/// `((a -> Bool), (Bool -> b), (Bool -> b) -> b)`, which pops the three
/// operand functions from the stack and pushes the common result.
pub open spec fn spec_ifte(st: StateV) -> Result<StateV, ErrorV> {
    match spec_new_param(st) {
        Ok(ast) => match spec_new_param(ast.1) {
            Ok(bst) => {
                let cond = TypeV::Function(seq![ast.0], seq![TypeV::Bool]);
                let body = TypeV::Function(seq![TypeV::Bool], seq![bst.0]);
                spec_call(bst.1, TypeV::Function(seq![cond, body, body], seq![bst.0]))
            }
            Err(e) => Err(e),
        },
        Err(e) => Err(e),
    }
}

/// The effect of one factor on the inferencer state.
pub open spec fn spec_factor(st: StateV, f: FactorV) -> Result<StateV, ErrorV>
    decreases f,
{
    match f {
        FactorV::Dup(_) => match spec_pop(st) {
            Ok(ast) => Ok(spec_push(spec_push(ast.1, ast.0), ast.0)),
            Err(e) => Err(e),
        },
        FactorV::Drop(_) => match spec_pop(st) {
            Ok(ast) => Ok(ast.1),
            Err(e) => Err(e),
        },
        FactorV::Quote(_) => match spec_pop(st) {
            Ok(ast) => Ok(spec_push(ast.1, TypeV::Function(Seq::empty(), seq![ast.0]))),
            Err(e) => Err(e),
        },
        FactorV::Call(_) => match spec_pop(st) {
            Ok(ast) => spec_call(ast.1, ast.0),
            Err(e) => Err(e),
        },
        FactorV::Cat(_) => spec_cat(st),
        FactorV::Swap(_) => spec_swap(st),
        FactorV::Ifte(_) => spec_ifte(st),
        FactorV::Integer(_, _) => Ok(spec_push(st, TypeV::Int)),
        FactorV::Boolean(_, _) => Ok(spec_push(st, TypeV::Bool)),
        FactorV::String(_, _) => Ok(spec_push(st, TypeV::String)),
        FactorV::Identifier(name, token) => Err(spec_unknown_identifier_error(name, token)),
        FactorV::Quotation(inner) => match spec_factors(spec_init(), inner) {
            Ok(stc) => Ok(spec_push(st, TypeV::Function(stc.in_stack, stc.out_stack))),
            Err(e) => Err(e),
        },
    }
}

/// The effect of a run of factors, left to right.
pub open spec fn spec_factors(st: StateV, fs: Seq<FactorV>) -> Result<StateV, ErrorV>
    decreases fs,
{
    if fs.len() == 0 {
        Ok(st)
    } else {
        match spec_factor(st, fs[0]) {
            Ok(st1) => spec_factors(st1, fs.drop_first()),
            Err(e) => Err(e),
        }
    }
}

/// The type a fresh inferencer gives a whole term: `Function(in, out)` of
/// the final stacks, or the first error.
pub open spec fn spec_interpret(fs: Seq<FactorV>) -> Result<TypeV, ErrorV> {
    match spec_factors(spec_init(), fs) {
        Ok(st) => Ok(TypeV::Function(st.in_stack, st.out_stack)),
        Err(e) => Err(e),
    }
}

/// The bindings learned while matching a call's inputs, as a map.  Later
/// entries of the association list overwrite earlier ones.
pub open spec fn learned_map(entries: Seq<(usize, Type)>) -> Map<int, TypeV>
    decreases entries.len(),
{
    if entries.len() == 0 {
        Map::empty()
    } else {
        learned_map(entries.drop_last()).insert(entries.last().0 as int, entries.last().1@)
    }
}

proof fn lemma_learned_map_push(entries: Seq<(usize, Type)>, e: (usize, Type))
    ensures
        learned_map(entries.push(e)) == learned_map(entries).insert(e.0 as int, e.1@),
{
    assert(entries.push(e).drop_last() =~= entries);
    assert(entries.push(e).last() == e);
}

/// The binding for parameter `p` in the association list, latest entry
/// first.
spec fn learned_lookup(entries: Seq<(usize, Type)>, p: int) -> Option<TypeV>
    decreases entries.len(),
{
    if entries.len() == 0 {
        None
    } else if entries.last().0 as int == p {
        Some(entries.last().1@)
    } else {
        learned_lookup(entries.drop_last(), p)
    }
}

proof fn lemma_learned_lookup(entries: Seq<(usize, Type)>, p: int)
    ensures
        learned_map(entries).contains_key(p) <==> learned_lookup(entries, p) is Some,
        learned_lookup(entries, p) is Some ==> learned_map(entries)[p] == learned_lookup(
            entries,
            p,
        )->0,
    decreases entries.len(),
{
    if entries.len() > 0 {
        lemma_learned_lookup(entries.drop_last(), p);
    }
}

/// Looks `p` up among the learned bindings, the latest entry winning.
fn learned_get(learned: &Vec<(usize, Type)>, p: usize) -> (r: Option<Type>)
    ensures
        r is Some <==> learned_map(learned@).contains_key(p as int),
        ({
            r matches Some(t) ==> t@ == learned_map(learned@)[p as int]
        }),
{
    proof {
        lemma_learned_lookup(learned@, p as int);
        assert(learned@.take(learned@.len() as int) =~= learned@);
    }
    let mut i: usize = learned.len();
    while i > 0
        invariant
            i <= learned@.len(),
            learned_lookup(learned@, p as int) == learned_lookup(
                learned@.take(i as int),
                p as int,
            ),
        decreases i,
    {
        i -= 1;
        let ghost pre = learned@.take(i as int + 1);
        proof {
            assert(pre.last() == learned@[i as int]);
            assert(pre.drop_last() =~= learned@.take(i as int));
        }
        if learned[i].0 == p {
            proof {
                assert(learned_lookup(pre, p as int) == Some(learned@[i as int].1@));
                assert(learned_lookup(learned@, p as int) == Some(learned@[i as int].1@));
                lemma_learned_lookup(learned@, p as int);
                assert(learned_map(learned@).contains_key(p as int));
                assert(learned_map(learned@)[p as int] == learned@[i as int].1@);
            }
            return Some(learned[i].1.clone());
        }
    }
    proof {
        assert(learned@.take(0) =~= Seq::<(usize, Type)>::empty());
    }
    None
}

/// The stack-effect inferencer.  One is made per term; `interpret` consumes
/// it.
pub struct AbstractInterpreter {
    in_stack: Vec<Type>,
    out_stack: Vec<Type>,
    param_count: usize,
}

impl View for AbstractInterpreter {
    type V = StateV;

    closed spec fn view(&self) -> StateV {
        StateV {
            in_stack: types_view(self.in_stack@),
            out_stack: types_view(self.out_stack@),
            param_count: self.param_count as int,
        }
    }
}

impl AbstractInterpreter {
    /// A fresh inferencer: empty stacks, parameter counter at zero.
    pub fn new() -> (r: AbstractInterpreter)
        ensures
            r@ == spec_init(),
    {
        AbstractInterpreter { in_stack: Vec::new(), out_stack: Vec::new(), param_count: 0 }
    }

    /// Mints `Param(n)` for the current counter value `n` and advances the
    /// counter.
    fn new_param(&mut self) -> (r: Result<Type, Error>)
        ensures
            ({
                match spec_new_param(old(self)@) {
                    Ok(pst) => r matches Ok(t) && t@ == pst.0 && final(self)@ == pst.1,
                    Err(e) => r matches Err(err) && err@ == e && final(self)@ == old(self)@,
                }
            }),
    {
        if self.param_count < usize::MAX {
            let parameter_count = self.param_count;
            self.param_count = parameter_count + 1;
            Ok(Type::Param(parameter_count))
        } else {
            Err(Error::TypeError(
                String::from_str("Too many type parameters"),
                Token::unknown(),
            ))
        }
    }

    /// Pops the symbolic stack, minting a fresh input parameter on
    /// underflow.
    fn pop(&mut self) -> (r: Result<Type, Error>)
        ensures
            ({
                match spec_pop(old(self)@) {
                    Ok(ast) => r matches Ok(t) && t@ == ast.0 && final(self)@ == ast.1,
                    Err(e) => r matches Err(err) && err@ == e && final(self)@ == old(self)@,
                }
            }),
    {
        if self.out_stack.len() > 0 {
            let ghost pre = self.out_stack@;
            let popped = self.out_stack.pop().unwrap();
            proof {
                assert(types_view(pre) == types_view(pre.drop_last()).push(pre.last()@));
                assert(self.out_stack@ =~= pre.drop_last());
                assert(types_view(pre).drop_last() =~= types_view(pre.drop_last()));
                assert(popped@ == types_view(pre).last());
            }
            Ok(popped)
        } else {
            let p = match self.new_param() {
                Ok(p) => p,
                Err(e) => {
                    return Err(e);
                }
            };
            let ghost mid = self.in_stack@;
            let q = p.clone();
            self.in_stack.push(q);
            proof {
                assert(self.in_stack@.drop_last() =~= mid);
                assert(types_view(self.in_stack@)
                    == types_view(self.in_stack@.drop_last()).push(self.in_stack@.last()@));
                assert(self.in_stack@.last()@ == p@);
            }
            Ok(p)
        }
    }

    /// Pushes one type onto the symbolic stack.
    fn push(&mut self, t: Type)
        ensures
            final(self)@ == spec_push(old(self)@, t@),
    {
        self.out_stack.push(t);
        proof {
            assert(self.out_stack@.drop_last() =~= old(self).out_stack@);
            assert(types_view(self.out_stack@)
                == types_view(self.out_stack@.drop_last()).push(self.out_stack@.last()@));
        }
    }

    /// One-level substitution of the learned bindings into a list of types;
    /// see [`spec_substitute`].
    fn substitute_learned(learned: &Vec<(usize, Type)>, ts: &Vec<Type>) -> (r: Vec<Type>)
        ensures
            types_view(r@) == spec_substitute(learned_map(learned@), types_view(ts@)),
    {
        let ghost m = learned_map(learned@);
        let ghost full = types_view(ts@);
        proof {
            lemma_types_view(ts@);
            assert(full.skip(0) =~= full);
        }
        let mut out: Vec<Type> = Vec::new();
        let mut i: usize = 0;
        proof {
            assert(types_view(out@) =~= Seq::<TypeV>::empty());
            assert(Seq::<TypeV>::empty() + spec_substitute(m, full) =~= spec_substitute(m, full));
        }
        while i < ts.len()
            invariant
                0 <= i <= ts@.len(),
                m == learned_map(learned@),
                full == types_view(ts@),
                full.len() == ts@.len(),
                forall|j: int| 0 <= j < ts@.len() ==> full[j] == ts@[j]@,
                spec_substitute(m, full) == types_view(out@) + spec_substitute(
                    m,
                    full.skip(i as int),
                ),
            decreases ts@.len() - i,
        {
            let ghost cur = full.skip(i as int);
            let ghost acc0 = types_view(out@);
            proof {
                assert(cur[0] == full[i as int]);
                assert(cur.drop_first() =~= full.skip(i as int + 1));
            }
            let ghost rest = spec_substitute(m, cur.drop_first());
            match &ts[i] {
                Type::Param(p) => {
                    match learned_get(learned, *p) {
                        Some(t) => {
                            let ghost tv = t@;
                            let ghost pre_vec = out@;
                            out.push(t);
                            proof {
                                assert(out@.drop_last() =~= pre_vec);
                                assert(types_view(out@) == types_view(out@.drop_last()).push(
                                    out@.last()@,
                                ));
                                assert(tv == m[*p as int]);
                                assert(acc0 + (seq![tv] + rest) =~= acc0.push(tv) + rest);
                            }
                        }
                        None => {
                        }
                    }
                }
                _ => {
                    let t = ts[i].clone();
                    let ghost pre_vec = out@;
                    out.push(t);
                    proof {
                        assert(out@.drop_last() =~= pre_vec);
                        assert(types_view(out@) == types_view(out@.drop_last()).push(
                            out@.last()@,
                        ));
                        assert(out@.last()@ == cur[0]);
                        assert(acc0 + (seq![cur[0]] + rest) =~= acc0.push(cur[0]) + rest);
                    }
                }
            }
            i += 1;
        }
        proof {
            assert(full.skip(full.len() as int) =~= Seq::<TypeV>::empty());
            assert(types_view(out@) + Seq::<TypeV>::empty() =~= types_view(out@));
        }
        out
    }

    /// Applies a popped value as a function; see [`spec_call`].
    fn call_as_function(&mut self, a: Type) -> (r: Result<(), Error>)
        ensures
            ({
                match spec_call(old(self)@, a@) {
                    Ok(st) => r is Ok && final(self)@ == st,
                    Err(e) => r matches Err(err) && err@ == e,
                }
            }),
    {
        match &a {
            Type::Function(t_in, t_out) => {
                let ghost st0 = self@;
                let ghost full_in = types_view(t_in@);
                let ghost full_out = types_view(t_out@);
                proof {
                    lemma_types_view(t_in@);
                    assert(full_in.take(t_in@.len() as int) =~= full_in);
                }
                let mut learned: Vec<(usize, Type)> = Vec::new();
                let mut i: usize = t_in.len();
                while i > 0
                    invariant
                        i <= t_in@.len(),
                        st0 == old(self)@,
                        a@ == TypeV::Function(full_in, full_out),
                        full_in == types_view(t_in@),
                        full_out == types_view(t_out@),
                        full_in.len() == t_in@.len(),
                        forall|j: int| 0 <= j < t_in@.len() ==> full_in[j] == t_in@[j]@,
                        spec_match_inputs(Map::empty(), full_in, st0) == spec_match_inputs(
                            learned_map(learned@),
                            full_in.take(i as int),
                            self@,
                        ),
                    decreases i,
                {
                    i -= 1;
                    let ghost pre_take = full_in.take(i as int + 1);
                    proof {
                        assert(pre_take.last() == full_in[i as int]);
                        assert(pre_take.drop_last() =~= full_in.take(i as int));
                    }
                    let actual = match self.pop() {
                        Ok(t) => t,
                        Err(e) => {
                            return Err(e);
                        }
                    };
                    match &t_in[i] {
                        Type::Param(p) => {
                            let ghost pre_learned = learned@;
                            let ghost av = actual@;
                            learned.push((*p, actual));
                            proof {
                                assert(learned@.drop_last() =~= pre_learned);
                                assert(learned@.last().0 == *p && learned@.last().1@ == av);
                                assert(learned_map(learned@) == learned_map(pre_learned).insert(
                                    *p as int,
                                    av,
                                ));
                            }
                        }
                        _ => {
                            if !type_eq(&t_in[i], &actual) {
                                let msg = String::from_str("Expected ").concat(
                                    type_string(&t_in[i]).as_str(),
                                ).concat(" but got ").concat(type_string(&actual).as_str());
                                return Err(Error::TypeError(msg, Token::unknown()));
                            }
                        }
                    }
                }
                proof {
                    assert(full_in.take(0) =~= Seq::<TypeV>::empty());
                }
                self.push_outputs(&learned, t_out);
                Ok(())
            }
            Type::Param(_) => Ok(()),
            other => {
                let msg = String::from_str("Expected function but got ").concat(
                    type_string(other).as_str(),
                );
                Err(Error::TypeError(msg, Token::unknown()))
            }
        }
    }

    /// Pushes a called function's outputs onto the stack with the learned
    /// bindings applied; see [`spec_append_outputs`].
    fn push_outputs(&mut self, learned: &Vec<(usize, Type)>, t_out: &Vec<Type>)
        ensures
            final(self)@ == (StateV {
                out_stack: spec_append_outputs(
                    learned_map(learned@),
                    types_view(t_out@),
                    old(self)@.out_stack,
                ),
                ..old(self)@
            }),
    {
        let ghost m = learned_map(learned@);
        let ghost st1 = self@;
        let ghost full_out = types_view(t_out@);
        proof {
            lemma_types_view(t_out@);
            assert(full_out.skip(0) =~= full_out);
        }
        let mut j: usize = 0;
        while j < t_out.len()
            invariant
                0 <= j <= t_out@.len(),
                m == learned_map(learned@),
                full_out == types_view(t_out@),
                full_out.len() == t_out@.len(),
                forall|jj: int| 0 <= jj < t_out@.len() ==> full_out[jj] == t_out@[jj]@,
                self@.in_stack == st1.in_stack,
                self@.param_count == st1.param_count,
                spec_append_outputs(m, full_out, st1.out_stack) == spec_append_outputs(
                    m,
                    full_out.skip(j as int),
                    self@.out_stack,
                ),
            decreases t_out@.len() - j,
        {
            let ghost cur = full_out.skip(j as int);
            proof {
                assert(cur[0] == full_out[j as int]);
                assert(cur.drop_first() =~= full_out.skip(j as int + 1));
            }
            match &t_out[j] {
                Type::Param(p) => {
                    match learned_get(learned, *p) {
                        Some(t) => {
                            self.push(t);
                        }
                        None => {
                        }
                    }
                }
                Type::Function(ti, to) => {
                    let ni = Self::substitute_learned(learned, ti);
                    let no = Self::substitute_learned(learned, to);
                    self.push(Type::Function(ni, no));
                }
                _ => {
                    let t = t_out[j].clone();
                    self.push(t);
                }
            }
            j += 1;
        }
        proof {
            assert(full_out.skip(t_out@.len() as int) =~= Seq::<TypeV>::empty());
        }
    }

    /// The effect of `swap`; see [`spec_swap`].
    fn swap(&mut self) -> (r: Result<(), Error>)
        ensures
            ({
                match spec_swap(old(self)@) {
                    Ok(st) => r is Ok && final(self)@ == st,
                    Err(e) => r matches Err(err) && err@ == e,
                }
            }),
    {
        let b = match self.pop() {
            Ok(t) => t,
            Err(e) => {
                return Err(e);
            }
        };
        let a = match self.pop() {
            Ok(t) => t,
            Err(e) => {
                return Err(e);
            }
        };
        self.push(b);
        self.push(a);
        Ok(())
    }

    /// The effect of `ifte`; see [`spec_ifte`].
    fn ifte(&mut self) -> (r: Result<(), Error>)
        ensures
            ({
                match spec_ifte(old(self)@) {
                    Ok(st) => r is Ok && final(self)@ == st,
                    Err(e) => r matches Err(err) && err@ == e,
                }
            }),
    {
        let a = match self.new_param() {
            Ok(t) => t,
            Err(e) => {
                return Err(e);
            }
        };
        let b = match self.new_param() {
            Ok(t) => t,
            Err(e) => {
                return Err(e);
            }
        };
        let b2 = b.clone();
        let b3 = b.clone();
        let cond = Type::Function(vec1(a), vec1(Type::Bool));
        let body1 = Type::Function(vec1(Type::Bool), vec1(b));
        let body2 = Type::Function(vec1(Type::Bool), vec1(b2));
        let f = Type::Function(vec3(cond, body1, body2), vec1(b3));
        self.call_as_function(f)
    }

    /// The effect of `cat`; see [`spec_cat`].
    fn cat(&mut self) -> (r: Result<(), Error>)
        ensures
            ({
                match spec_cat(old(self)@) {
                    Ok(st) => r is Ok && final(self)@ == st,
                    Err(e) => r matches Err(err) && err@ == e,
                }
            }),
    {
        let g = match self.pop() {
            Ok(t) => t,
            Err(e) => {
                return Err(e);
            }
        };
        let f = match self.pop() {
            Ok(t) => t,
            Err(e) => {
                return Err(e);
            }
        };
        let (fi, fo) = match self.promote(f) {
            Ok(pair) => pair,
            Err(e) => {
                return Err(e);
            }
        };
        let (gi, go) = match self.promote(g) {
            Ok(pair) => pair,
            Err(e) => {
                return Err(e);
            }
        };
        let ghost full_gi = types_view(gi@);
        let ghost fo_v = types_view(fo@);
        let ghost fi_v = types_view(fi@);
        let ghost go_v = types_view(go@);
        let ghost st4 = self@;
        proof {
            lemma_types_view(gi@);
            assert(full_gi.take(gi@.len() as int) =~= full_gi);
            assert(types_view(Seq::<Type>::empty()) == Seq::<TypeV>::empty());
        }
        let mut learned: Vec<(usize, Type)> = Vec::new();
        let mut avail: Vec<Type> = fo;
        let mut extra: Vec<Type> = Vec::new();
        let mut i: usize = gi.len();
        while i > 0
            invariant
                i <= gi@.len(),
                self@ == st4,
                fi_v == types_view(fi@),
                go_v == types_view(go@),
                full_gi == types_view(gi@),
                full_gi.len() == gi@.len(),
                forall|j: int| 0 <= j < gi@.len() ==> full_gi[j] == gi@[j]@,
                ({
                    match spec_compose_inputs(
                        learned_map(learned@),
                        full_gi.take(i as int),
                        types_view(avail@),
                        types_view(extra@),
                    ) {
                        Ok(comp) => spec_cat(old(self)@) == Ok::<StateV, ErrorV>(spec_push(
                            st4,
                            TypeV::Function(
                                fi_v + comp.2,
                                spec_append_outputs(comp.0, go_v, comp.1),
                            ),
                        )),
                        Err(e) => spec_cat(old(self)@) == Err::<StateV, ErrorV>(e),
                    }
                }),
            decreases i,
        {
            i -= 1;
            let ghost pre_take = full_gi.take(i as int + 1);
            proof {
                assert(pre_take.last() == full_gi[i as int]);
                assert(pre_take.drop_last() =~= full_gi.take(i as int));
            }
            if avail.len() > 0 {
                let ghost avail_pre = avail@;
                let actual = avail.pop().unwrap();
                proof {
                    assert(types_view(avail_pre) == types_view(avail_pre.drop_last()).push(
                        avail_pre.last()@,
                    ));
                    assert(avail@ =~= avail_pre.drop_last());
                    assert(types_view(avail_pre).last() == actual@);
                    assert(types_view(avail_pre).drop_last() =~= types_view(avail@));
                }
                match &gi[i] {
                    Type::Param(p) => {
                        let ghost pre_learned = learned@;
                        let ghost av = actual@;
                        learned.push((*p, actual));
                        proof {
                            assert(learned@.drop_last() =~= pre_learned);
                            assert(learned@.last().0 == *p && learned@.last().1@ == av);
                            assert(learned_map(learned@) == learned_map(pre_learned).insert(
                                *p as int,
                                av,
                            ));
                        }
                    }
                    _ => {
                        if !type_eq(&gi[i], &actual) {
                            let msg = String::from_str("Expected ").concat(
                                type_string(&gi[i]).as_str(),
                            ).concat(" but got ").concat(type_string(&actual).as_str());
                            return Err(Error::TypeError(msg, Token::unknown()));
                        }
                    }
                }
            } else {
                let e = gi[i].clone();
                let ghost extra_pre = extra@;
                extra.push(e);
                proof {
                    assert(extra@.drop_last() =~= extra_pre);
                    assert(types_view(extra@) == types_view(extra@.drop_last()).push(
                        extra@.last()@,
                    ));
                    assert(types_view(extra@) =~= types_view(extra_pre).push(full_gi[i as int]));
                }
            }
        }
        proof {
            assert(full_gi.take(0) =~= Seq::<TypeV>::empty());
        }
        // The composed inputs: f's inputs, then whatever g still needed.
        let mut ci = fi;
        let ghost fi_seq = ci@;
        let ghost extra_seq = extra@;
        let mut extra_moved = extra;
        ci.append(&mut extra_moved);
        proof {
            lemma_types_view_add(fi_seq, extra_seq);
        }
        // The composed outputs: what g left of f's outputs, then g's outputs
        // with the learned bindings applied.
        let co = append_outputs_vec(&learned, &go, avail);
        self.push(Type::Function(ci, co));
        Ok(())
    }

    /// Interprets a whole term against the symbolic stack and returns its
    /// stack-effect type `Function(in_stack, out_stack)`, or the first
    /// error; see [`spec_factors`] and [`spec_interpret`].
    pub fn interpret(self, factors: &Vec<Factor>) -> (r: Result<Type, Error>)
        ensures
            ({
                match spec_factors(self@, factors_view(factors@)) {
                    Ok(st) => r matches Ok(t) && t@ == TypeV::Function(st.in_stack, st.out_stack),
                    Err(e) => r matches Err(err) && err@ == e,
                }
            }),
        decreases factors,
    {
        let ghost st0 = self@;
        let ghost full = factors_view(factors@);
        proof {
            lemma_factors_view(factors@);
            assert(full.skip(0) =~= full);
        }
        let mut this = self;
        let mut i: usize = 0;
        while i < factors.len()
            invariant
                0 <= i <= factors@.len(),
                st0 == self@,
                full == factors_view(factors@),
                full.len() == factors@.len(),
                forall|j: int| 0 <= j < factors@.len() ==> full[j] == factors@[j]@,
                spec_factors(st0, full) == spec_factors(this@, full.skip(i as int)),
            decreases factors@.len() - i,
        {
            let ghost cur = full.skip(i as int);
            proof {
                assert(cur[0] == full[i as int]);
                assert(cur.drop_first() =~= full.skip(i as int + 1));
            }
            match this.interpret_factor(&factors[i]) {
                Ok(_) => {}
                Err(e) => {
                    return Err(e);
                }
            }
            i += 1;
        }
        proof {
            assert(full.skip(factors@.len() as int) =~= Seq::<FactorV>::empty());
        }
        let ghost st_end = this@;
        let AbstractInterpreter { in_stack, out_stack, param_count: _ } = this;
        let result = Type::Function(in_stack, out_stack);
        proof {
            assert(result@ == TypeV::Function(st_end.in_stack, st_end.out_stack));
        }
        Ok(result)
    }

    /// The effect of one factor on the inferencer state; see
    /// [`spec_factor`].
    fn interpret_factor(&mut self, factor: &Factor) -> (r: Result<(), Error>)
        ensures
            ({
                match spec_factor(old(self)@, factor@) {
                    Ok(st) => r is Ok && final(self)@ == st,
                    Err(e) => r matches Err(err) && err@ == e,
                }
            }),
        decreases factor,
    {
        match factor {
            Factor::Dup(_) => {
                let a = match self.pop() {
                    Ok(t) => t,
                    Err(e) => {
                        return Err(e);
                    }
                };
                let b = a.clone();
                self.push(a);
                self.push(b);
                Ok(())
            }
            Factor::Drop(_) => {
                match self.pop() {
                    Ok(_) => Ok(()),
                    Err(e) => Err(e),
                }
            }
            Factor::Quote(_) => {
                let a = match self.pop() {
                    Ok(t) => t,
                    Err(e) => {
                        return Err(e);
                    }
                };
                let empty_in: Vec<Type> = Vec::new();
                proof {
                    assert(types_view(empty_in@) == Seq::<TypeV>::empty());
                }
                let wrapped = Type::Function(empty_in, vec1(a));
                self.push(wrapped);
                Ok(())
            }
            Factor::Call(_) => {
                let a = match self.pop() {
                    Ok(t) => t,
                    Err(e) => {
                        return Err(e);
                    }
                };
                self.call_as_function(a)
            }
            Factor::Cat(_) => self.cat(),
            Factor::Swap(_) => self.swap(),
            Factor::Ifte(_) => self.ifte(),
            Factor::Integer(_, _) => {
                self.push(Type::Int);
                Ok(())
            }
            Factor::Boolean(_, _) => {
                self.push(Type::Bool);
                Ok(())
            }
            Factor::String(_, _) => {
                self.push(Type::String);
                Ok(())
            }
            Factor::Identifier(name, token) => {
                let msg = String::from_str("Unknown identifier ").concat(name.as_str());
                Err(Error::TypeError(msg, token.clone()))
            }
            Factor::Quotation(inner) => {
                let interpreter = AbstractInterpreter::new();
                match interpreter.interpret(inner) {
                    Ok(t) => {
                        self.push(t);
                        Ok(())
                    }
                    Err(e) => Err(e),
                }
            }
        }
    }

    /// An operand of `cat`; see [`spec_promote`].
    fn promote(&mut self, t: Type) -> (r: Result<(Vec<Type>, Vec<Type>), Error>)
        ensures
            ({
                match spec_promote(old(self)@, t@) {
                    Ok(parts) => r matches Ok(pair) && types_view(pair.0@) == parts.0
                        && types_view(pair.1@) == parts.1 && final(self)@ == parts.2,
                    Err(e) => r matches Err(err) && err@ == e,
                }
            }),
    {
        match t {
            Type::Function(ti, to) => Ok((ti, to)),
            Type::Param(_) => {
                let a = match self.new_param() {
                    Ok(t) => t,
                    Err(e) => {
                        return Err(e);
                    }
                };
                let b = match self.new_param() {
                    Ok(t) => t,
                    Err(e) => {
                        return Err(e);
                    }
                };
                Ok((vec1(a), vec1(b)))
            }
            other => {
                let msg = String::from_str("Expected function but got ").concat(
                    type_string(&other).as_str(),
                );
                Err(Error::TypeError(msg, Token::unknown()))
            }
        }
    }
}

/// Appends a called function's outputs onto `acc` with the learned bindings
/// applied; see [`spec_append_outputs`].
fn append_outputs_vec(learned: &Vec<(usize, Type)>, outs: &Vec<Type>, acc: Vec<Type>) -> (r: Vec<
    Type,
>)
    ensures
        types_view(r@) == spec_append_outputs(
            learned_map(learned@),
            types_view(outs@),
            types_view(acc@),
        ),
{
    let ghost m = learned_map(learned@);
    let ghost full = types_view(outs@);
    let ghost acc_v = types_view(acc@);
    proof {
        lemma_types_view(outs@);
        assert(full.skip(0) =~= full);
    }
    let mut r = acc;
    let mut j: usize = 0;
    while j < outs.len()
        invariant
            0 <= j <= outs@.len(),
            m == learned_map(learned@),
            full == types_view(outs@),
            full.len() == outs@.len(),
            forall|jj: int| 0 <= jj < outs@.len() ==> full[jj] == outs@[jj]@,
            spec_append_outputs(m, full, acc_v) == spec_append_outputs(
                m,
                full.skip(j as int),
                types_view(r@),
            ),
        decreases outs@.len() - j,
    {
        let ghost cur = full.skip(j as int);
        proof {
            assert(cur[0] == full[j as int]);
            assert(cur.drop_first() =~= full.skip(j as int + 1));
        }
        match &outs[j] {
            Type::Param(p) => {
                match learned_get(learned, *p) {
                    Some(t) => {
                        let ghost pre_vec = r@;
                        r.push(t);
                        proof {
                            assert(r@.drop_last() =~= pre_vec);
                            assert(types_view(r@) == types_view(r@.drop_last()).push(
                                r@.last()@,
                            ));
                        }
                    }
                    None => {
                    }
                }
            }
            Type::Function(ti, to) => {
                let ni = AbstractInterpreter::substitute_learned(learned, ti);
                let no = AbstractInterpreter::substitute_learned(learned, to);
                let ghost pre_vec = r@;
                r.push(Type::Function(ni, no));
                proof {
                    assert(r@.drop_last() =~= pre_vec);
                    assert(types_view(r@) == types_view(r@.drop_last()).push(r@.last()@));
                }
            }
            _ => {
                let t = outs[j].clone();
                let ghost pre_vec = r@;
                r.push(t);
                proof {
                    assert(r@.drop_last() =~= pre_vec);
                    assert(types_view(r@) == types_view(r@.drop_last()).push(r@.last()@));
                }
            }
        }
        j += 1;
    }
    proof {
        assert(full.skip(outs@.len() as int) =~= Seq::<TypeV>::empty());
    }
    r
}

/// Whether a factor is a ground literal.
pub open spec fn is_literal(f: FactorV) -> bool {
    f is Integer || f is Boolean || f is String
}

/// The ground type of a literal factor.  Meaningful only when
/// [`is_literal`] holds.
pub open spec fn literal_ty(f: FactorV) -> TypeV {
    match f {
        FactorV::Integer(_, _) => TypeV::Int,
        FactorV::Boolean(_, _) => TypeV::Bool,
        FactorV::String(_, _) => TypeV::String,
        _ => TypeV::Int,
    }
}

proof fn lemma_literal_factors(st: StateV, fs: Seq<FactorV>)
    requires
        forall|i: int| 0 <= i < fs.len() ==> is_literal(#[trigger] fs[i]),
    ensures
        spec_factors(st, fs) == Ok::<StateV, ErrorV>(
            StateV {
                out_stack: st.out_stack + fs.map_values(|f: FactorV| literal_ty(f)),
                ..st
            },
        ),
    decreases fs.len(),
{
    let tys = fs.map_values(|f: FactorV| literal_ty(f));
    if fs.len() == 0 {
        assert(tys =~= Seq::<TypeV>::empty());
        assert(st.out_stack + tys =~= st.out_stack);
        assert(StateV { out_stack: st.out_stack + tys, ..st } == st);
    } else {
        let st1 = spec_push(st, literal_ty(fs[0]));
        assert(spec_factor(st, fs[0]) == Ok::<StateV, ErrorV>(st1));
        let rest = fs.drop_first();
        assert(forall|i: int| 0 <= i < rest.len() ==> is_literal(#[trigger] rest[i]));
        lemma_literal_factors(st1, rest);
        let tys_rest = rest.map_values(|f: FactorV| literal_ty(f));
        assert(st1.out_stack + tys_rest =~= st.out_stack + tys);
    }
}

/// Concatenation composes: a term made of ground literals has the type
/// `( -> T1 ... Tn)`, pushing the literals' ground types in order.
pub proof fn lemma_literals_compose(fs: Seq<FactorV>)
    requires
        forall|i: int| 0 <= i < fs.len() ==> is_literal(#[trigger] fs[i]),
    ensures
        spec_interpret(fs) == Ok::<TypeV, ErrorV>(
            TypeV::Function(Seq::empty(), fs.map_values(|f: FactorV| literal_ty(f))),
        ),
{
    lemma_literal_factors(spec_init(), fs);
    assert(Seq::<TypeV>::empty() + fs.map_values(|f: FactorV| literal_ty(f)) =~= fs.map_values(
        |f: FactorV| literal_ty(f),
    ));
}

/// Parameter numbering: a fresh inferencer starts its counter at zero, and
/// every mint returns the current counter value and advances it by one, so
/// the first mint of a run is `Param(0)`, the next `Param(1)`, and so on.
pub proof fn lemma_param_numbering(st: StateV)
    requires
        st.param_count < usize::MAX as int,
    ensures
        spec_new_param(st) == Ok::<(TypeV, StateV), ErrorV>(
            (TypeV::Param(st.param_count), StateV { param_count: st.param_count + 1, ..st }),
        ),
        spec_init().param_count == 0,
{
}

/// Nested quotations restart numbering at `Param(0)`: a quotation is
/// inferred by a fresh child inferencer, whatever the parent's state.
pub proof fn lemma_quotation_fresh(st: StateV, inner: Seq<FactorV>)
    ensures
        spec_factor(st, FactorV::Quotation(inner)) == (match spec_factors(spec_init(), inner) {
            Ok(stc) => Ok::<StateV, ErrorV>(
                spec_push(st, TypeV::Function(stc.in_stack, stc.out_stack)),
            ),
            Err(e) => Err::<StateV, ErrorV>(e),
        }),
        spec_init() == (StateV {
            in_stack: Seq::empty(),
            out_stack: Seq::empty(),
            param_count: 0,
        }),
{
}

/// Inference is a pure function of the term: the contract of `interpret`
/// pins its result to `spec_interpret`, so two runs on the same term, each
/// with a fresh inferencer, return the same type.  In particular the two
/// types are equal modulo parameter renaming.
pub proof fn lemma_inference_repeatable(fs: Seq<FactorV>)
    ensures
        ({
            spec_interpret(fs) matches Ok(t) ==> alpha_eq(t, t)
        }),
{
    match spec_interpret(fs) {
        Ok(t) => {
            lemma_alpha_eq_refl(t);
        }
        Err(_) => {}
    }
}

proof fn lemma_pop_mono(st: StateV)
    ensures
        ({
            spec_pop(st) matches Ok(a) ==> a.1.param_count >= st.param_count
        }),
{
}

proof fn lemma_match_inputs_mono(learned: Map<int, TypeV>, expected: Seq<TypeV>, st: StateV)
    ensures
        ({
            spec_match_inputs(learned, expected, st) matches Ok(m) ==> m.1.param_count
                >= st.param_count
        }),
    decreases expected.len(),
{
    if expected.len() > 0 {
        match spec_pop(st) {
            Ok(ast) => {
                lemma_pop_mono(st);
                match expected.last() {
                    TypeV::Param(p) => {
                        lemma_match_inputs_mono(
                            learned.insert(p, ast.0),
                            expected.drop_last(),
                            ast.1,
                        );
                    }
                    _ => {
                        lemma_match_inputs_mono(learned, expected.drop_last(), ast.1);
                    }
                }
            }
            Err(_) => {}
        }
    }
}

proof fn lemma_call_mono(st: StateV, f: TypeV)
    ensures
        ({
            spec_call(st, f) matches Ok(st2) ==> st2.param_count >= st.param_count
        }),
{
    match f {
        TypeV::Function(t_in, _t_out) => {
            lemma_match_inputs_mono(Map::empty(), t_in, st);
        }
        _ => {}
    }
}

proof fn lemma_cat_mono(st: StateV)
    ensures
        ({
            spec_cat(st) matches Ok(st2) ==> st2.param_count >= st.param_count
        }),
{
    lemma_pop_mono(st);
    match spec_pop(st) {
        Ok(gst) => {
            lemma_pop_mono(gst.1);
        }
        Err(_) => {}
    }
}

proof fn lemma_factor_mono(st: StateV, f: FactorV)
    ensures
        ({
            spec_factor(st, f) matches Ok(st2) ==> st2.param_count >= st.param_count
        }),
    decreases f, 1int,
{
    match f {
        FactorV::Dup(_) => {
            lemma_pop_mono(st);
        }
        FactorV::Drop(_) => {
            lemma_pop_mono(st);
        }
        FactorV::Quote(_) => {
            lemma_pop_mono(st);
        }
        FactorV::Call(_) => {
            lemma_pop_mono(st);
            match spec_pop(st) {
                Ok(ast) => {
                    lemma_call_mono(ast.1, ast.0);
                }
                Err(_) => {}
            }
        }
        FactorV::Cat(_) => {
            lemma_cat_mono(st);
        }
        FactorV::Swap(_) => {
            lemma_pop_mono(st);
            match spec_pop(st) {
                Ok(bst) => {
                    lemma_pop_mono(bst.1);
                }
                Err(_) => {}
            }
        }
        FactorV::Ifte(_) => {
            match spec_new_param(st) {
                Ok(ast) => {
                    match spec_new_param(ast.1) {
                        Ok(bst) => {
                            let cond = TypeV::Function(seq![ast.0], seq![TypeV::Bool]);
                            let body = TypeV::Function(seq![TypeV::Bool], seq![bst.0]);
                            lemma_call_mono(
                                bst.1,
                                TypeV::Function(seq![cond, body, body], seq![bst.0]),
                            );
                        }
                        Err(_) => {}
                    }
                }
                Err(_) => {}
            }
        }
        _ => {}
    }
}

/// Within one run the parameter counter is monotonic: interpreting factors
/// never decreases it, so parameter numbers are never reused.
pub proof fn lemma_param_count_monotonic(st: StateV, fs: Seq<FactorV>)
    ensures
        ({
            spec_factors(st, fs) matches Ok(st2) ==> st2.param_count >= st.param_count
        }),
    decreases fs, 2int,
{
    if fs.len() > 0 {
        lemma_factor_mono(st, fs[0]);
        match spec_factor(st, fs[0]) {
            Ok(st1) => {
                lemma_param_count_monotonic(st1, fs.drop_first());
            }
            Err(_) => {}
        }
    }
}

/// The discovered inputs of a state are parameters, strictly increasing,
/// and all below the counter.
pub open spec fn fresh_inputs(st: StateV) -> bool {
    &&& (forall|i: int| 0 <= i < st.in_stack.len() ==> (#[trigger] st.in_stack[i]) is Param)
    &&& (forall|i: int, j: int|
        0 <= i < j < st.in_stack.len() ==> (#[trigger] st.in_stack[i])->Param_0 < (
        #[trigger] st.in_stack[j])->Param_0)
    &&& (forall|i: int|
        0 <= i < st.in_stack.len() ==> (#[trigger] st.in_stack[i])->Param_0 < st.param_count)
}

proof fn lemma_pop_fresh(st: StateV)
    requires
        fresh_inputs(st),
    ensures
        ({
            spec_pop(st) matches Ok(a) ==> fresh_inputs(a.1)
        }),
{
}

proof fn lemma_match_inputs_fresh(learned: Map<int, TypeV>, expected: Seq<TypeV>, st: StateV)
    requires
        fresh_inputs(st),
    ensures
        ({
            spec_match_inputs(learned, expected, st) matches Ok(m) ==> fresh_inputs(m.1)
        }),
    decreases expected.len(),
{
    if expected.len() > 0 {
        match spec_pop(st) {
            Ok(ast) => {
                lemma_pop_fresh(st);
                match expected.last() {
                    TypeV::Param(p) => {
                        lemma_match_inputs_fresh(
                            learned.insert(p, ast.0),
                            expected.drop_last(),
                            ast.1,
                        );
                    }
                    _ => {
                        lemma_match_inputs_fresh(learned, expected.drop_last(), ast.1);
                    }
                }
            }
            Err(_) => {}
        }
    }
}

proof fn lemma_call_fresh(st: StateV, f: TypeV)
    requires
        fresh_inputs(st),
    ensures
        ({
            spec_call(st, f) matches Ok(st2) ==> fresh_inputs(st2)
        }),
{
    match f {
        TypeV::Function(t_in, _t_out) => {
            lemma_match_inputs_fresh(Map::empty(), t_in, st);
        }
        _ => {}
    }
}

proof fn lemma_cat_fresh(st: StateV)
    requires
        fresh_inputs(st),
    ensures
        ({
            spec_cat(st) matches Ok(st2) ==> fresh_inputs(st2)
        }),
{
    lemma_pop_fresh(st);
    match spec_pop(st) {
        Ok(gst) => {
            lemma_pop_fresh(gst.1);
        }
        Err(_) => {}
    }
}

proof fn lemma_factor_fresh(st: StateV, f: FactorV)
    requires
        fresh_inputs(st),
    ensures
        ({
            spec_factor(st, f) matches Ok(st2) ==> fresh_inputs(st2)
        }),
    decreases f, 1int,
{
    match f {
        FactorV::Dup(_) => {
            lemma_pop_fresh(st);
        }
        FactorV::Drop(_) => {
            lemma_pop_fresh(st);
        }
        FactorV::Quote(_) => {
            lemma_pop_fresh(st);
        }
        FactorV::Call(_) => {
            lemma_pop_fresh(st);
            match spec_pop(st) {
                Ok(ast) => {
                    lemma_call_fresh(ast.1, ast.0);
                }
                Err(_) => {}
            }
        }
        FactorV::Cat(_) => {
            lemma_cat_fresh(st);
        }
        FactorV::Swap(_) => {
            lemma_pop_fresh(st);
            match spec_pop(st) {
                Ok(bst) => {
                    lemma_pop_fresh(bst.1);
                }
                Err(_) => {}
            }
        }
        FactorV::Ifte(_) => {
            match spec_new_param(st) {
                Ok(ast) => {
                    match spec_new_param(ast.1) {
                        Ok(bst) => {
                            let cond = TypeV::Function(seq![ast.0], seq![TypeV::Bool]);
                            let body = TypeV::Function(seq![TypeV::Bool], seq![bst.0]);
                            lemma_call_fresh(
                                bst.1,
                                TypeV::Function(seq![cond, body, body], seq![bst.0]),
                            );
                        }
                        Err(_) => {}
                    }
                }
                Err(_) => {}
            }
        }
        _ => {}
    }
}

/// Within one run the discovered input list stays a strictly increasing
/// list of parameters below the counter: every input is minted fresh, in
/// order, and no parameter number is ever reused.
pub proof fn lemma_inputs_fresh(st: StateV, fs: Seq<FactorV>)
    requires
        fresh_inputs(st),
    ensures
        ({
            spec_factors(st, fs) matches Ok(st2) ==> fresh_inputs(st2)
        }),
    decreases fs, 2int,
{
    if fs.len() > 0 {
        lemma_factor_fresh(st, fs[0]);
        match spec_factor(st, fs[0]) {
            Ok(st1) => {
                lemma_inputs_fresh(st1, fs.drop_first());
            }
            Err(_) => {}
        }
    }
}

/// The inferred type of any term has for its inputs a strictly increasing
/// list of parameters: exactly the fresh parameters the run minted on
/// underflow, in mint order.
pub proof fn lemma_interpret_input_params(fs: Seq<FactorV>)
    ensures
        ({
            spec_interpret(fs) matches Ok(t) ==> (t matches TypeV::Function(ins, outs)
                && (forall|i: int| 0 <= i < ins.len() ==> (#[trigger] ins[i]) is Param)
                && (forall|i: int, j: int|
                0 <= i < j < ins.len() ==> (#[trigger] ins[i])->Param_0 < (
                #[trigger] ins[j])->Param_0))
        }),
{
    assert(fresh_inputs(spec_init()));
    lemma_inputs_fresh(spec_init(), fs);
}

} // verus!
