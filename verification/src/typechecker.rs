//! Internal types and the per-cycle type checker.
//!
//! A [`Type`] is a ground type, a numbered inference parameter, or a
//! stack-effect function type `(inputs -> outputs)`.  The checker owns an
//! environment of named types, seeds it with the built-in words, and gives
//! each top-level cycle a type by composing the effects of its factors.

use vstd::prelude::*;
use crate::error::{Error, ErrorV, spec_exhausted_error, spec_unknown_identifier_error};
use crate::parser::{Cycle, CycleV, Factor, FactorV, TypeAnnotation, TypeAnnotationV};
use crate::parser::{annotations_view, factors_view, lemma_annotations_view, lemma_factors_view};
use crate::scanner::{Token, spec_unknown_token};
use crate::text::{dec_string, lemma_seq_view, seq_view, spec_dec, str_eq};

verus! {

/// An internal type: a numbered inference parameter, a ground type, or a
/// stack-effect function type.  A function's `inputs` list is read
/// right-to-left when the function is applied (top of stack first); its
/// `outputs` are pushed left-to-right.
#[derive(PartialEq, Eq, Debug)]
pub enum Type {
    Param(usize),
    Int,
    Bool,
    String,
    Function(Vec<Type>, Vec<Type>),
}

/// The mathematical model of a [`Type`].
pub enum TypeV {
    Param(int),
    Int,
    Bool,
    String,
    Function(Seq<TypeV>, Seq<TypeV>),
}

impl View for Type {
    type V = TypeV;

    open spec fn view(&self) -> TypeV
        decreases self,
    {
        match self {
            Type::Param(n) => TypeV::Param(*n as int),
            Type::Int => TypeV::Int,
            Type::Bool => TypeV::Bool,
            Type::String => TypeV::String,
            Type::Function(ins, outs) => TypeV::Function(types_view(ins@), types_view(outs@)),
        }
    }
}

/// The element-wise view of a sequence of types.
pub open spec fn types_view(ts: Seq<Type>) -> Seq<TypeV>
    decreases ts,
{
    if ts.len() == 0 {
        Seq::empty()
    } else {
        types_view(ts.drop_last()).push(ts.last()@)
    }
}

pub proof fn lemma_types_view(ts: Seq<Type>)
    ensures
        types_view(ts).len() == ts.len(),
        forall|i: int| 0 <= i < ts.len() ==> types_view(ts)[i] == ts[i]@,
    decreases ts.len(),
{
    if ts.len() > 0 {
        lemma_types_view(ts.drop_last());
        assert(types_view(ts) == types_view(ts.drop_last()).push(ts.last()@));
        assert forall|i: int| 0 <= i < ts.len() implies types_view(ts)[i] == ts[i]@ by {
            if i < ts.len() - 1 {
                assert(ts.drop_last()[i] == ts[i]);
                assert(types_view(ts)[i] == types_view(ts.drop_last())[i]);
            }
        }
    }
}

fn clone_types(ts: &Vec<Type>) -> (r: Vec<Type>)
    ensures
        types_view(r@) == types_view(ts@),
    decreases ts,
{
    let mut r: Vec<Type> = Vec::new();
    let mut i: usize = 0;
    while i < ts.len()
        invariant
            0 <= i <= ts.len(),
            r@.len() == i,
            forall|j: int| 0 <= j < i ==> r@[j]@ == ts@[j]@,
        decreases ts@.len() - i,
    {
        let t = ts[i].clone();
        r.push(t);
        i += 1;
    }
    proof {
        lemma_types_view(r@);
        lemma_types_view(ts@);
        assert(types_view(r@) =~= types_view(ts@));
    }
    r
}

impl Clone for Type {
    fn clone(&self) -> (r: Self)
        ensures
            r@ == self@,
        decreases self,
    {
        match self {
            Type::Param(n) => Type::Param(*n),
            Type::Int => Type::Int,
            Type::Bool => Type::Bool,
            Type::String => Type::String,
            Type::Function(ins, outs) => Type::Function(clone_types(ins), clone_types(outs)),
        }
    }
}

/// Structural equality of types, decided recursively.  Parameters are
/// compared by number; function types component-wise.
pub fn type_eq(a: &Type, b: &Type) -> (r: bool)
    ensures
        r == (a@ == b@),
    decreases a,
{
    match (a, b) {
        (Type::Param(x), Type::Param(y)) => x == y,
        (Type::Int, Type::Int) => true,
        (Type::Bool, Type::Bool) => true,
        (Type::String, Type::String) => true,
        (Type::Function(i1, o1), Type::Function(i2, o2)) => {
            let ri = types_eq(i1, i2);
            if ri {
                types_eq(o1, o2)
            } else {
                false
            }
        }
        _ => false,
    }
}

fn types_eq(v1: &Vec<Type>, v2: &Vec<Type>) -> (r: bool)
    ensures
        r == (types_view(v1@) == types_view(v2@)),
    decreases v1,
{
    proof {
        lemma_types_view(v1@);
        lemma_types_view(v2@);
    }
    if v1.len() != v2.len() {
        return false;
    }
    let mut i: usize = 0;
    while i < v1.len()
        invariant
            v1@.len() == v2@.len(),
            0 <= i <= v1@.len(),
            forall|j: int| 0 <= j < i ==> types_view(v1@)[j] == types_view(v2@)[j],
            types_view(v1@).len() == v1@.len(),
            types_view(v2@).len() == v2@.len(),
            forall|j: int| 0 <= j < v1@.len() ==> types_view(v1@)[j] == v1@[j]@,
            forall|j: int| 0 <= j < v2@.len() ==> types_view(v2@)[j] == v2@[j]@,
        decreases v1@.len() - i,
    {
        if !type_eq(&v1[i], &v2[i]) {
            proof {
                assert(types_view(v1@)[i as int] != types_view(v2@)[i as int]);
            }
            return false;
        }
        i += 1;
    }
    proof {
        assert(types_view(v1@) =~= types_view(v2@));
    }
    true
}

/// The rendering of a type, as it appears inside error messages.
pub open spec fn spec_type_str(t: TypeV) -> Seq<char>
    decreases t,
{
    match t {
        TypeV::Param(n) => "Param("@ + spec_dec(n) + ")"@,
        TypeV::Int => "Int"@,
        TypeV::Bool => "Bool"@,
        TypeV::String => "String"@,
        TypeV::Function(ins, outs) => "Function(["@ + spec_types_str(ins) + "], ["@
            + spec_types_str(outs) + "])"@,
    }
}

/// The rendering of a comma-separated list of types.
pub open spec fn spec_types_str(ts: Seq<TypeV>) -> Seq<char>
    decreases ts,
{
    if ts.len() == 0 {
        Seq::empty()
    } else if ts.len() == 1 {
        spec_type_str(ts[0])
    } else {
        spec_type_str(ts[0]) + ", "@ + spec_types_str(ts.drop_first())
    }
}

/// Renders a type for diagnostics, in the shape `Function([Int], [Param(0)])`.
pub fn type_string(t: &Type) -> (r: String)
    ensures
        r@ == spec_type_str(t@),
    decreases t, 0int,
{
    match t {
        Type::Param(n) => {
            let s = String::from_str("Param(").concat(dec_string(*n).as_str());
            s.concat(")")
        }
        Type::Int => String::from_str("Int"),
        Type::Bool => String::from_str("Bool"),
        Type::String => String::from_str("String"),
        Type::Function(ins, outs) => {
            proof {
                assert(types_view(ins@).skip(0) =~= types_view(ins@));
                assert(types_view(outs@).skip(0) =~= types_view(outs@));
            }
            let s = String::from_str("Function([").concat(types_string_from(ins, 0).as_str());
            let s = s.concat("], [").concat(types_string_from(outs, 0).as_str());
            s.concat("])")
        }
    }
}

pub proof fn lemma_types_view_add(s1: Seq<Type>, s2: Seq<Type>)
    ensures
        types_view(s1 + s2) == types_view(s1) + types_view(s2),
{
    lemma_types_view(s1);
    lemma_types_view(s2);
    lemma_types_view(s1 + s2);
    assert(types_view(s1 + s2) =~= types_view(s1) + types_view(s2));
}

/// A one-element type vector, with its view pinned.
pub(crate) fn vec1(t: Type) -> (r: Vec<Type>)
    ensures
        types_view(r@) == seq![t@],
{
    let ghost tv = t@;
    let mut v: Vec<Type> = Vec::new();
    v.push(t);
    proof {
        assert(v@.drop_last() =~= Seq::<Type>::empty());
        assert(types_view(v@) == types_view(v@.drop_last()).push(v@.last()@));
        assert(types_view(v@) =~= seq![tv]);
    }
    v
}

/// A two-element type vector, with its view pinned.
pub(crate) fn vec2(t1: Type, t2: Type) -> (r: Vec<Type>)
    ensures
        types_view(r@) == seq![t1@, t2@],
{
    let ghost v1 = t1@;
    let ghost v2 = t2@;
    let mut v: Vec<Type> = Vec::new();
    v.push(t1);
    v.push(t2);
    proof {
        lemma_types_view(v@);
        assert(v@[0]@ == v1 && v@[1]@ == v2);
        assert(types_view(v@) =~= seq![v1, v2]);
    }
    v
}

/// A three-element type vector, with its view pinned.
pub(crate) fn vec3(t1: Type, t2: Type, t3: Type) -> (r: Vec<Type>)
    ensures
        types_view(r@) == seq![t1@, t2@, t3@],
{
    let ghost v1 = t1@;
    let ghost v2 = t2@;
    let ghost v3 = t3@;
    let mut v: Vec<Type> = Vec::new();
    v.push(t1);
    v.push(t2);
    v.push(t3);
    proof {
        lemma_types_view(v@);
        assert(v@[0]@ == v1 && v@[1]@ == v2 && v@[2]@ == v3);
        assert(types_view(v@) =~= seq![v1, v2, v3]);
    }
    v
}

fn types_string_from(ts: &Vec<Type>, i: usize) -> (r: String)
    requires
        i <= ts@.len(),
    ensures
        r@ == spec_types_str(types_view(ts@).skip(i as int)),
    decreases ts, ts@.len() - i,
{
    proof {
        lemma_types_view(ts@);
    }
    let ghost rest = types_view(ts@).skip(i as int);
    if i >= ts.len() {
        proof {
            assert(rest.len() == 0);
        }
        String::new()
    } else if i + 1 == ts.len() {
        proof {
            assert(rest.len() == 1);
            assert(rest[0] == ts@[i as int]@);
        }
        type_string(&ts[i])
    } else {
        let head = type_string(&ts[i]);
        let tail = types_string_from(ts, i + 1);
        proof {
            assert(rest[0] == ts@[i as int]@);
            assert(rest.drop_first() =~= types_view(ts@).skip(i as int + 1));
        }
        head.concat(", ").concat(tail.as_str())
    }
}

/// Whether `b` is `a` with every parameter renamed through `m`.
pub open spec fn ty_matches(m: Map<int, int>, a: TypeV, b: TypeV) -> bool
    decreases a,
{
    match (a, b) {
        (TypeV::Param(p), TypeV::Param(q)) => m.contains_key(p) && m[p] == q,
        (TypeV::Int, TypeV::Int) => true,
        (TypeV::Bool, TypeV::Bool) => true,
        (TypeV::String, TypeV::String) => true,
        (TypeV::Function(i1, o1), TypeV::Function(i2, o2)) => tys_match(m, i1, i2) && tys_match(
            m,
            o1,
            o2,
        ),
        _ => false,
    }
}

pub open spec fn tys_match(m: Map<int, int>, s1: Seq<TypeV>, s2: Seq<TypeV>) -> bool
    decreases s1,
{
    s1.len() == s2.len() && (s1.len() == 0 || (ty_matches(m, s1[0], s2[0]) && tys_match(
        m,
        s1.drop_first(),
        s2.drop_first(),
    )))
}

/// Whether the renaming never sends two parameters to the same one.
pub open spec fn injective_on(m: Map<int, int>) -> bool {
    forall|p: int, q: int|
        m.contains_key(p) && m.contains_key(q) && #[trigger] m[p] == #[trigger] m[q] ==> p == q
}

/// Structural equality modulo parameter renaming: some injective renaming
/// carries every parameter of `a` to the matching parameter of `b`.
pub open spec fn alpha_eq(a: TypeV, b: TypeV) -> bool {
    exists|m: Map<int, int>| injective_on(m) && #[trigger] ty_matches(m, a, b)
}

/// The identity renaming on every parameter.
pub open spec fn identity_renaming() -> Map<int, int> {
    Map::new(|p: int| true, |p: int| p)
}

proof fn lemma_ty_matches_refl(t: TypeV)
    ensures
        ty_matches(identity_renaming(), t, t),
    decreases t,
{
    match t {
        TypeV::Function(i, o) => {
            lemma_tys_match_refl(i);
            lemma_tys_match_refl(o);
        }
        _ => {}
    }
}

proof fn lemma_tys_match_refl(s: Seq<TypeV>)
    ensures
        tys_match(identity_renaming(), s, s),
    decreases s,
{
    if s.len() > 0 {
        lemma_ty_matches_refl(s[0]);
        lemma_tys_match_refl(s.drop_first());
    }
}

/// Every type is equal to itself modulo parameter renaming: the identity
/// renaming is an injective witness.
pub proof fn lemma_alpha_eq_refl(t: TypeV)
    ensures
        alpha_eq(t, t),
{
    lemma_ty_matches_refl(t);
    assert(injective_on(identity_renaming()));
    assert(ty_matches(identity_renaming(), t, t));
}

/// The error for a stack value that does not match a declared input of a
/// function being applied.
pub open spec fn spec_mismatch_error(expected: TypeV, actual: TypeV) -> ErrorV {
    ErrorV::TypeError(
        "Expected "@ + spec_type_str(expected) + " but got "@ + spec_type_str(actual),
        spec_unknown_token(),
    )
}

/// The environment as a map from name to type.  Later entries of the
/// association list shadow earlier ones.
pub open spec fn env_map(entries: Seq<(String, Type)>) -> Map<Seq<char>, TypeV>
    decreases entries.len(),
{
    if entries.len() == 0 {
        Map::empty()
    } else {
        env_map(entries.drop_last()).insert(entries.last().0@, entries.last().1@)
    }
}

/// The binding for `name` in the association list, latest entry first.
spec fn env_lookup(entries: Seq<(String, Type)>, name: Seq<char>) -> Option<TypeV>
    decreases entries.len(),
{
    if entries.len() == 0 {
        None
    } else if entries.last().0@ == name {
        Some(entries.last().1@)
    } else {
        env_lookup(entries.drop_last(), name)
    }
}

proof fn lemma_env_lookup(entries: Seq<(String, Type)>, name: Seq<char>)
    ensures
        env_map(entries).contains_key(name) <==> env_lookup(entries, name) is Some,
        env_lookup(entries, name) is Some ==> env_map(entries)[name] == env_lookup(
            entries,
            name,
        )->0,
    decreases entries.len(),
{
    if entries.len() > 0 {
        lemma_env_lookup(entries.drop_last(), name);
    }
}

/// Looks `name` up in the environment, the latest entry winning.
fn env_get(env: &Vec<(String, Type)>, name: &str) -> (r: Option<Type>)
    ensures
        r is Some <==> env_map(env@).contains_key(name@),
        ({
            r matches Some(t) ==> t@ == env_map(env@)[name@]
        }),
{
    proof {
        lemma_env_lookup(env@, name@);
        assert(env@.take(env@.len() as int) =~= env@);
    }
    let mut i: usize = env.len();
    while i > 0
        invariant
            i <= env@.len(),
            env_lookup(env@, name@) == env_lookup(env@.take(i as int), name@),
        decreases i,
    {
        i -= 1;
        let ghost pre = env@.take(i as int + 1);
        proof {
            assert(pre.last() == env@[i as int]);
            assert(pre.drop_last() =~= env@.take(i as int));
        }
        if str_eq(env[i].0.as_str(), name) {
            proof {
                assert(env_lookup(pre, name@) == Some(env@[i as int].1@));
                assert(env_lookup(env@, name@) == Some(env@[i as int].1@));
                lemma_env_lookup(env@, name@);
            }
            return Some(env[i].1.clone());
        }
    }
    proof {
        assert(env@.take(0) =~= Seq::<(String, Type)>::empty());
    }
    None
}

/// Binds `name` to `t`, shadowing any earlier binding.
fn env_insert(env: &mut Vec<(String, Type)>, name: &str, t: Type)
    ensures
        env_map(final(env)@) == env_map(old(env)@).insert(name@, t@),
{
    let ghost pre = env@;
    env.push((String::from_str(name), t));
    proof {
        assert(env@.drop_last() =~= pre);
        assert(env@.last().0@ == name@ && env@.last().1@ == t@);
        assert(env_map(env@) == env_map(env@.drop_last()).insert(
            env@.last().0@,
            env@.last().1@,
        ));
    }
}

/// The mathematical model of a [`TypeChecker`]: its environment and its
/// parameter counter.
pub struct CheckerV {
    pub env: Map<Seq<char>, TypeV>,
    pub param_count: int,
}

/// The per-file type checker: an environment of named types and a parameter
/// counter shared by every cycle it checks.
pub struct TypeChecker {
    environment: Vec<(String, Type)>,
    param_count: usize,
}

impl View for TypeChecker {
    type V = CheckerV;

    closed spec fn view(&self) -> CheckerV {
        CheckerV { env: env_map(self.environment@), param_count: self.param_count as int }
    }
}

/// Minting a fresh checker parameter.
pub open spec fn spec_mint(count: int) -> Result<(TypeV, int), ErrorV> {
    if count < usize::MAX as int {
        Ok((TypeV::Param(count), count + 1))
    } else {
        Err(spec_exhausted_error())
    }
}

/// The type of the built-in integer operators `+ - * /`.
pub open spec fn spec_int_binop() -> TypeV {
    TypeV::Function(seq![TypeV::Int, TypeV::Int], seq![TypeV::Int])
}

/// The type of the built-in comparisons `< > =`.
pub open spec fn spec_int_cmp() -> TypeV {
    TypeV::Function(seq![TypeV::Int, TypeV::Int], seq![TypeV::Bool])
}

/// The type of the built-in word `not`.
pub open spec fn spec_bool_unop() -> TypeV {
    TypeV::Function(seq![TypeV::Bool], seq![TypeV::Bool])
}

/// The type of the built-in words `and` and `or`.
pub open spec fn spec_bool_binop() -> TypeV {
    TypeV::Function(seq![TypeV::Bool, TypeV::Bool], seq![TypeV::Bool])
}

/// The environment a fresh checker starts from.
pub open spec fn spec_builtins() -> Map<Seq<char>, TypeV> {
    Map::empty().insert("+"@, spec_int_binop()).insert("-"@, spec_int_binop()).insert(
        "*"@,
        spec_int_binop(),
    ).insert("/"@, spec_int_binop()).insert("<"@, spec_int_cmp()).insert(">"@, spec_int_cmp())
        .insert("="@, spec_int_cmp()).insert("not"@, spec_bool_unop()).insert(
        "and"@,
        spec_bool_binop(),
    ).insert("or"@, spec_bool_binop())
}

/// Resolving a surface annotation to an internal type.  `Int`, `Bool` and
/// `String` resolve to the ground types; any other name is an error; a
/// function annotation resolves component-wise, any failure inside it
/// reported as one error at its opening token.
pub open spec fn spec_resolve(ann: TypeAnnotationV) -> Result<TypeV, ErrorV>
    decreases ann,
{
    match ann {
        TypeAnnotationV::Identifier(name, token) => if name == "Int"@ {
            Ok(TypeV::Int)
        } else if name == "Bool"@ {
            Ok(TypeV::Bool)
        } else if name == "String"@ {
            Ok(TypeV::String)
        } else {
            Err(ErrorV::TypeError("Unknown type "@ + name, token))
        },
        TypeAnnotationV::Function(ins, outs, t1, _t2) => match spec_resolve_list(ins) {
            Ok(ri) => match spec_resolve_list(outs) {
                Ok(ro) => Ok(TypeV::Function(ri, ro)),
                Err(_) => Err(ErrorV::TypeError("Error in function type"@, t1)),
            },
            Err(_) => Err(ErrorV::TypeError("Error in function type"@, t1)),
        },
    }
}

pub open spec fn spec_resolve_list(anns: Seq<TypeAnnotationV>) -> Result<Seq<TypeV>, ErrorV>
    decreases anns,
{
    if anns.len() == 0 {
        Ok(Seq::empty())
    } else {
        match spec_resolve(anns[0]) {
            Ok(t) => match spec_resolve_list(anns.drop_first()) {
                Ok(rest) => Ok(seq![t] + rest),
                Err(e) => Err(e),
            },
            Err(e) => Err(e),
        }
    }
}

/// Replaces every top-level occurrence of `Param(from)` in the list with
/// the learned actual type `a`.
pub open spec fn spec_subst_shallow(ts: Seq<TypeV>, from: int, a: TypeV) -> Seq<TypeV> {
    ts.map_values(
        |t: TypeV|
            if t == TypeV::Param(from) {
                a
            } else {
                t
            },
    )
}

/// Composing one factor's effect `(t_in -> t_out)` onto the running stacks:
/// the expected inputs are taken from the top of `outs`, last first.  An
/// input that underflows `outs` is prepended to `ins`, keeping the declared
/// order.  An expected parameter learns the actual type it meets, which is
/// substituted into the outputs still to be pushed; any other expected type
/// must equal the actual type structurally, else the mismatch is an error.
/// Returns the new `ins`, the remaining `outs`, and the rewritten `t_out`.
pub open spec fn spec_consume(
    t_in: Seq<TypeV>,
    t_out: Seq<TypeV>,
    ins: Seq<TypeV>,
    outs: Seq<TypeV>,
) -> Result<(Seq<TypeV>, Seq<TypeV>, Seq<TypeV>), ErrorV>
    decreases t_in.len(),
{
    if t_in.len() == 0 {
        Ok((ins, outs, t_out))
    } else {
        let e = t_in.last();
        if outs.len() == 0 {
            spec_consume(t_in.drop_last(), t_out, seq![e] + ins, outs)
        } else {
            let a = outs.last();
            match e {
                TypeV::Param(p) => spec_consume(
                    t_in.drop_last(),
                    spec_subst_shallow(t_out, p, a),
                    ins,
                    outs.drop_last(),
                ),
                _ => if e == a {
                    spec_consume(t_in.drop_last(), t_out, ins, outs.drop_last())
                } else {
                    Err(spec_mismatch_error(e, a))
                },
            }
        }
    }
}

/// One factor's type composed onto the running stacks: ground types and
/// parameters are pushed; a function type is applied by [`spec_consume`]
/// and its outputs appended.
pub open spec fn spec_compose_effect(t: TypeV, ins: Seq<TypeV>, outs: Seq<TypeV>) -> Result<
    (Seq<TypeV>, Seq<TypeV>),
    ErrorV,
> {
    match t {
        TypeV::Function(t_in, t_out) => match spec_consume(t_in, t_out, ins, outs) {
            Ok(r) => Ok((r.0, r.1 + r.2)),
            Err(e) => Err(e),
        },
        _ => Ok((ins, outs.push(t))),
    }
}

/// The factor type the checker assigns to one factor, together with the new
/// parameter counter.
pub open spec fn spec_check_factor(env: Map<Seq<char>, TypeV>, count: int, f: FactorV) -> Result<
    (TypeV, int),
    ErrorV,
>
    decreases f, 0int,
{
    match f {
        FactorV::Dup(_) => match spec_mint(count) {
            Ok(tc) => Ok((TypeV::Function(seq![tc.0], seq![tc.0, tc.0]), tc.1)),
            Err(e) => Err(e),
        },
        FactorV::Drop(_) => match spec_mint(count) {
            Ok(tc) => Ok((TypeV::Function(seq![tc.0], Seq::empty()), tc.1)),
            Err(e) => Err(e),
        },
        FactorV::Quote(_) => match spec_mint(count) {
            Ok(tc) => Ok(
                (
                    TypeV::Function(
                        seq![tc.0],
                        seq![TypeV::Function(Seq::empty(), seq![tc.0])],
                    ),
                    tc.1,
                ),
            ),
            Err(e) => Err(e),
        },
        FactorV::Call(_) => match spec_mint(count) {
            Ok(ac) => match spec_mint(ac.1) {
                Ok(bc) => Ok(
                    (
                        TypeV::Function(
                            seq![ac.0, TypeV::Function(seq![ac.0], seq![bc.0])],
                            seq![bc.0],
                        ),
                        bc.1,
                    ),
                ),
                Err(e) => Err(e),
            },
            Err(e) => Err(e),
        },
        FactorV::Cat(_) => match spec_mint(count) {
            Ok(ac) => match spec_mint(ac.1) {
                Ok(bc) => match spec_mint(bc.1) {
                    Ok(cc) => Ok(
                        (
                            TypeV::Function(
                                seq![
                                    TypeV::Function(seq![ac.0], seq![bc.0]),
                                    TypeV::Function(seq![bc.0], seq![cc.0]),
                                ],
                                seq![TypeV::Function(seq![ac.0], seq![cc.0])],
                            ),
                            cc.1,
                        ),
                    ),
                    Err(e) => Err(e),
                },
                Err(e) => Err(e),
            },
            Err(e) => Err(e),
        },
        FactorV::Swap(_) => match spec_mint(count) {
            Ok(ac) => match spec_mint(ac.1) {
                Ok(bc) => Ok(
                    (TypeV::Function(seq![ac.0, bc.0], seq![bc.0, ac.0]), bc.1),
                ),
                Err(e) => Err(e),
            },
            Err(e) => Err(e),
        },
        FactorV::Ifte(_) => match spec_mint(count) {
            Ok(ac) => match spec_mint(ac.1) {
                Ok(bc) => {
                    let cond = TypeV::Function(seq![ac.0], seq![TypeV::Bool]);
                    let body = TypeV::Function(seq![TypeV::Bool], seq![bc.0]);
                    Ok((TypeV::Function(seq![cond, body, body], seq![bc.0]), bc.1))
                }
                Err(e) => Err(e),
            },
            Err(e) => Err(e),
        },
        FactorV::Integer(_, _) => Ok((TypeV::Function(Seq::empty(), seq![TypeV::Int]), count)),
        FactorV::Boolean(_, _) => Ok((TypeV::Function(Seq::empty(), seq![TypeV::Bool]), count)),
        FactorV::String(_, _) => Ok(
            (TypeV::Function(Seq::empty(), seq![TypeV::String]), count),
        ),
        FactorV::Identifier(name, token) => if env.contains_key(name) {
            Ok((env[name], count))
        } else {
            Err(spec_unknown_identifier_error(name, token))
        },
        FactorV::Quotation(inner) => match spec_check_term(env, count, inner) {
            // A quotation denotes a value: the inferred function type of
            // the inner term is pushed, not composed as an effect.
            Ok(tc) => Ok((TypeV::Function(Seq::empty(), seq![tc.0]), tc.1)),
            Err(e) => Err(e),
        },
    }
}

/// The running composition of a term's factors.
pub open spec fn spec_check_factors(
    env: Map<Seq<char>, TypeV>,
    count: int,
    fs: Seq<FactorV>,
    ins: Seq<TypeV>,
    outs: Seq<TypeV>,
) -> Result<(Seq<TypeV>, Seq<TypeV>, int), ErrorV>
    decreases fs, 0int,
{
    if fs.len() == 0 {
        Ok((ins, outs, count))
    } else {
        match spec_check_factor(env, count, fs[0]) {
            Ok(tc) => match spec_compose_effect(tc.0, ins, outs) {
                Ok(composed) => spec_check_factors(
                    env,
                    tc.1,
                    fs.drop_first(),
                    composed.0,
                    composed.1,
                ),
                Err(e) => Err(e),
            },
            Err(e) => Err(e),
        }
    }
}

/// The type the checker assigns to a whole term, with the new counter.
pub open spec fn spec_check_term(env: Map<Seq<char>, TypeV>, count: int, fs: Seq<FactorV>) -> Result<
    (TypeV, int),
    ErrorV,
>
    decreases fs, 1int,
{
    match spec_check_factors(env, count, fs, Seq::empty(), Seq::empty()) {
        Ok(r) => Ok((TypeV::Function(r.0, r.1), r.2)),
        Err(e) => Err(e),
    }
}

/// A declared type as a term type: a ground declaration `T` stands for a
/// term that pushes one `T`.
pub open spec fn spec_lift(t: TypeV) -> TypeV {
    match t {
        TypeV::Function(_, _) => t,
        _ => TypeV::Function(Seq::empty(), seq![t]),
    }
}

/// Checking one definition: the declared type is entered into the
/// environment first, so the body may refer to the name; the body's
/// inferred type must then equal the declared type, a ground declaration
/// standing for the term type that pushes it.  Declared types contain no
/// parameters, so structural equality is equality modulo parameter
/// renaming here.
pub open spec fn spec_check_definition(
    env: Map<Seq<char>, TypeV>,
    count: int,
    name: Seq<char>,
    declared: TypeV,
    fs: Seq<FactorV>,
) -> Result<(TypeV, Map<Seq<char>, TypeV>, int), ErrorV> {
    let env2 = env.insert(name, declared);
    match spec_check_term(env2, count, fs) {
        Ok(tc) => if spec_lift(declared) == tc.0 {
            Ok((tc.0, env2, tc.1))
        } else {
            Err(
                ErrorV::TypeError(
                    "Declared type does not match inferred type for "@ + name,
                    spec_unknown_token(),
                ),
            )
        },
        Err(e) => Err(e),
    }
}

/// Checking one cycle: a bare term is typed; a definition is resolved,
/// entered into the environment, and checked against its body.
pub open spec fn spec_check_cycle(env: Map<Seq<char>, TypeV>, count: int, c: CycleV) -> Result<
    (TypeV, Map<Seq<char>, TypeV>, int),
    ErrorV,
> {
    match c {
        CycleV::Term(fs) => match spec_check_term(env, count, fs) {
            Ok(tc) => Ok((tc.0, env, tc.1)),
            Err(e) => Err(e),
        },
        CycleV::Definition(name, ann, fs) => match spec_resolve(ann) {
            Ok(t) => spec_check_definition(env, count, name, t, fs),
            Err(e) => Err(e),
        },
    }
}

/// Checking a whole program, cycle by cycle, threading the environment and
/// the counter.
pub open spec fn spec_check_cycles(
    env: Map<Seq<char>, TypeV>,
    count: int,
    cs: Seq<CycleV>,
) -> Result<(Map<Seq<char>, TypeV>, int), ErrorV>
    decreases cs.len(),
{
    if cs.len() == 0 {
        Ok((env, count))
    } else {
        match spec_check_cycle(env, count, cs[0]) {
            Ok(r) => spec_check_cycles(r.1, r.2, cs.drop_first()),
            Err(e) => Err(e),
        }
    }
}

/// Replaces every top-level `Param(from)` in the list with the learned
/// actual type; see [`spec_subst_shallow`].
fn subst_params(ts: &Vec<Type>, from: usize, a: &Type) -> (r: Vec<Type>)
    ensures
        types_view(r@) == spec_subst_shallow(types_view(ts@), from as int, a@),
{
    proof {
        lemma_types_view(ts@);
    }
    let mut r: Vec<Type> = Vec::new();
    let mut k: usize = 0;
    while k < ts.len()
        invariant
            0 <= k <= ts@.len(),
            r@.len() == k,
            forall|j: int|
                0 <= j < k ==> r@[j]@ == (if ts@[j]@ == TypeV::Param(from as int) {
                    a@
                } else {
                    ts@[j]@
                }),
        decreases ts@.len() - k,
    {
        let mut replaced = false;
        if let Type::Param(n) = &ts[k] {
            if *n == from {
                let b = a.clone();
                r.push(b);
                replaced = true;
            }
        }
        if !replaced {
            let t = ts[k].clone();
            r.push(t);
        }
        k += 1;
    }
    proof {
        lemma_types_view(r@);
        lemma_types_view(ts@);
        assert(types_view(r@) =~= spec_subst_shallow(types_view(ts@), from as int, a@));
    }
    r
}

impl TypeChecker {
    /// A fresh checker, with the built-in words bound and the counter at
    /// zero.
    pub fn new() -> (r: Self)
        ensures
            r@.env == spec_builtins(),
            r@.param_count == 0,
    {
        let mut environment: Vec<(String, Type)> = Vec::new();
        proof {
            assert(env_map(environment@) =~= Map::<Seq<char>, TypeV>::empty());
        }
        env_insert(
            &mut environment,
            "+",
            Type::Function(vec2(Type::Int, Type::Int), vec1(Type::Int)),
        );
        env_insert(
            &mut environment,
            "-",
            Type::Function(vec2(Type::Int, Type::Int), vec1(Type::Int)),
        );
        env_insert(
            &mut environment,
            "*",
            Type::Function(vec2(Type::Int, Type::Int), vec1(Type::Int)),
        );
        env_insert(
            &mut environment,
            "/",
            Type::Function(vec2(Type::Int, Type::Int), vec1(Type::Int)),
        );
        env_insert(
            &mut environment,
            "<",
            Type::Function(vec2(Type::Int, Type::Int), vec1(Type::Bool)),
        );
        env_insert(
            &mut environment,
            ">",
            Type::Function(vec2(Type::Int, Type::Int), vec1(Type::Bool)),
        );
        env_insert(
            &mut environment,
            "=",
            Type::Function(vec2(Type::Int, Type::Int), vec1(Type::Bool)),
        );
        env_insert(&mut environment, "not", Type::Function(vec1(Type::Bool), vec1(Type::Bool)));
        env_insert(
            &mut environment,
            "and",
            Type::Function(vec2(Type::Bool, Type::Bool), vec1(Type::Bool)),
        );
        env_insert(
            &mut environment,
            "or",
            Type::Function(vec2(Type::Bool, Type::Bool), vec1(Type::Bool)),
        );
        TypeChecker { environment, param_count: 0 }
    }

    /// Mints `Param(n)` for the current counter value `n` and advances the
    /// counter; see [`spec_mint`].
    fn new_param(&mut self) -> (r: Result<Type, Error>)
        ensures
            ({
                match spec_mint(old(self)@.param_count) {
                    Ok(tc) => r matches Ok(t) && t@ == tc.0 && final(self)@.param_count == tc.1
                        && final(self)@.env == old(self)@.env,
                    Err(e) => r matches Err(err) && err@ == e && final(self)@ == old(self)@,
                }
            }),
    {
        if self.param_count < usize::MAX {
            let parameter_count = self.param_count;
            self.param_count = parameter_count + 1;
            Ok(Type::Param(parameter_count))
        } else {
            Err(Error::TypeError(
                String::from_str("Too many type parameters"),
                Token::unknown(),
            ))
        }
    }

    /// Resolves a surface annotation to an internal type; see
    /// [`spec_resolve`].
    pub fn type_from_annotation(&self, annotation: &TypeAnnotation) -> (r: Result<Type, Error>)
        ensures
            ({
                match spec_resolve(annotation@) {
                    Ok(t) => r matches Ok(rt) && rt@ == t,
                    Err(e) => r matches Err(err) && err@ == e,
                }
            }),
        decreases annotation, 1int,
    {
        match annotation {
            TypeAnnotation::Identifier(name, token) => {
                if str_eq(name.as_str(), "Int") {
                    Ok(Type::Int)
                } else if str_eq(name.as_str(), "Bool") {
                    Ok(Type::Bool)
                } else if str_eq(name.as_str(), "String") {
                    Ok(Type::String)
                } else {
                    Err(Error::TypeError(
                        String::from_str("Unknown type ").concat(name.as_str()),
                        token.clone(),
                    ))
                }
            }
            TypeAnnotation::Function(ins, outs, t1, _t2) => {
                let ri = match self.resolve_list(ins) {
                    Ok(v) => v,
                    Err(_) => {
                        return Err(Error::TypeError(
                            String::from_str("Error in function type"),
                            t1.clone(),
                        ));
                    }
                };
                let ro = match self.resolve_list(outs) {
                    Ok(v) => v,
                    Err(_) => {
                        return Err(Error::TypeError(
                            String::from_str("Error in function type"),
                            t1.clone(),
                        ));
                    }
                };
                Ok(Type::Function(ri, ro))
            }
        }
    }

    /// Resolves each annotation of a list; see [`spec_resolve_list`].
    fn resolve_list(&self, anns: &Vec<TypeAnnotation>) -> (r: Result<Vec<Type>, Error>)
        ensures
            ({
                match spec_resolve_list(annotations_view(anns@)) {
                    Ok(ts) => r matches Ok(v) && types_view(v@) == ts,
                    Err(e) => r matches Err(err) && err@ == e,
                }
            }),
        decreases anns, 0int,
    {
        let ghost full = annotations_view(anns@);
        proof {
            lemma_annotations_view(anns@);
            assert(full.skip(0) =~= full);
            assert(Seq::<TypeV>::empty() + Seq::<TypeV>::empty() =~= Seq::<TypeV>::empty());
        }
        let mut out: Vec<Type> = Vec::new();
        let mut i: usize = 0;
        proof {
            assert(types_view(out@) =~= Seq::<TypeV>::empty());
        }
        while i < anns.len()
            invariant
                0 <= i <= anns@.len(),
                full == annotations_view(anns@),
                full.len() == anns@.len(),
                forall|j: int| 0 <= j < anns@.len() ==> full[j] == anns@[j]@,
                ({
                    match spec_resolve_list(full.skip(i as int)) {
                        Ok(rest) => spec_resolve_list(full) == Ok::<Seq<TypeV>, ErrorV>(
                            types_view(out@) + rest,
                        ),
                        Err(e) => spec_resolve_list(full) == Err::<Seq<TypeV>, ErrorV>(e),
                    }
                }),
            decreases anns@.len() - i,
        {
            let ghost cur = full.skip(i as int);
            let ghost acc0 = types_view(out@);
            proof {
                assert(cur[0] == full[i as int]);
                assert(cur.drop_first() =~= full.skip(i as int + 1));
            }
            let t = match self.type_from_annotation(&anns[i]) {
                Ok(t) => t,
                Err(e) => {
                    return Err(e);
                }
            };
            let ghost tv = t@;
            let ghost pre_vec = out@;
            out.push(t);
            proof {
                assert(out@.drop_last() =~= pre_vec);
                assert(types_view(out@) == types_view(out@.drop_last()).push(out@.last()@));
                if spec_resolve_list(cur.drop_first()) is Ok {
                    let rest = spec_resolve_list(cur.drop_first())->Ok_0;
                    assert(acc0 + (seq![tv] + rest) =~= acc0.push(tv) + rest);
                }
            }
            i += 1;
        }
        proof {
            assert(full.skip(full.len() as int) =~= Seq::<TypeAnnotationV>::empty());
            assert(types_view(out@) + Seq::<TypeV>::empty() =~= types_view(out@));
        }
        Ok(out)
    }

    /// Composes one factor type's effect onto the running stacks, raising
    /// the mismatch error when a declared input disagrees with the stack;
    /// see [`spec_consume`].
    fn apply_effect(
        in_stack: &mut Vec<Type>,
        out_stack: &mut Vec<Type>,
        t_in: Vec<Type>,
        t_out: Vec<Type>,
    ) -> (r: Result<(), Error>)
        ensures
            ({
                match spec_consume(
                    types_view(t_in@),
                    types_view(t_out@),
                    types_view(old(in_stack)@),
                    types_view(old(out_stack)@),
                ) {
                    Ok(c) => r is Ok && types_view(final(in_stack)@) == c.0 && types_view(
                        final(out_stack)@,
                    ) == c.1 + c.2,
                    Err(e) => r matches Err(err) && err@ == e,
                }
            }),
    {
        let ghost full_tin = types_view(t_in@);
        let ghost tout0 = types_view(t_out@);
        let ghost ins0 = types_view(in_stack@);
        let ghost outs0 = types_view(out_stack@);
        proof {
            lemma_types_view(t_in@);
            assert(full_tin.take(t_in@.len() as int) =~= full_tin);
        }
        let mut pending = t_out;
        let mut i: usize = t_in.len();
        while i > 0
            invariant
                i <= t_in@.len(),
                full_tin == types_view(t_in@),
                tout0 == types_view(t_out@),
                ins0 == types_view(old(in_stack)@),
                outs0 == types_view(old(out_stack)@),
                full_tin.len() == t_in@.len(),
                forall|j: int| 0 <= j < t_in@.len() ==> full_tin[j] == t_in@[j]@,
                spec_consume(full_tin, tout0, ins0, outs0) == spec_consume(
                    full_tin.take(i as int),
                    types_view(pending@),
                    types_view(in_stack@),
                    types_view(out_stack@),
                ),
            decreases i,
        {
            i -= 1;
            let ghost pre_take = full_tin.take(i as int + 1);
            proof {
                assert(pre_take.last() == full_tin[i as int]);
                assert(pre_take.drop_last() =~= full_tin.take(i as int));
            }
            if out_stack.len() == 0 {
                let e = t_in[i].clone();
                let ghost pre_ins = in_stack@;
                in_stack.insert(0, e);
                proof {
                    lemma_types_view(in_stack@);
                    lemma_types_view(pre_ins);
                    assert(in_stack@ =~= seq![in_stack@[0]] + pre_ins);
                    assert(in_stack@[0]@ == full_tin[i as int]);
                    assert(types_view(in_stack@) =~= seq![full_tin[i as int]] + types_view(
                        pre_ins,
                    ));
                }
            } else {
                let ghost outs_pre = out_stack@;
                let a = out_stack.pop().unwrap();
                proof {
                    assert(types_view(outs_pre) == types_view(outs_pre.drop_last()).push(
                        outs_pre.last()@,
                    ));
                    assert(out_stack@ =~= outs_pre.drop_last());
                    assert(types_view(outs_pre).last() == a@);
                    assert(types_view(outs_pre).drop_last() =~= types_view(out_stack@));
                }
                match &t_in[i] {
                    Type::Param(ne) => {
                        pending = subst_params(&pending, *ne, &a);
                    }
                    _ => {
                        if !type_eq(&t_in[i], &a) {
                            let msg = String::from_str("Expected ").concat(
                                type_string(&t_in[i]).as_str(),
                            ).concat(" but got ").concat(type_string(&a).as_str());
                            return Err(Error::TypeError(msg, Token::unknown()));
                        }
                    }
                }
            }
        }
        proof {
            assert(full_tin.take(0) =~= Seq::<TypeV>::empty());
        }
        let ghost outs_seq = out_stack@;
        let mut pending_moved = pending;
        let ghost pending_seq = pending_moved@;
        out_stack.append(&mut pending_moved);
        proof {
            lemma_types_view_add(outs_seq, pending_seq);
        }
        Ok(())
    }

    /// The factor type the checker assigns to one factor; see
    /// [`spec_check_factor`].
    fn check_factor(&mut self, factor: &Factor) -> (r: Result<Type, Error>)
        ensures
            ({
                match spec_check_factor(old(self)@.env, old(self)@.param_count, factor@) {
                    Ok(tc) => r matches Ok(t) && t@ == tc.0 && final(self)@.param_count == tc.1
                        && final(self)@.env == old(self)@.env,
                    Err(e) => r matches Err(err) && err@ == e && final(self)@.env == old(
                        self,
                    )@.env,
                }
            }),
        decreases factor, 0int,
    {
        match factor {
            Factor::Dup(_) => {
                let t = match self.new_param() {
                    Ok(t) => t,
                    Err(e) => {
                        return Err(e);
                    }
                };
                let t2 = t.clone();
                let t3 = t.clone();
                Ok(Type::Function(vec1(t), vec2(t2, t3)))
            }
            Factor::Drop(_) => {
                let t = match self.new_param() {
                    Ok(t) => t,
                    Err(e) => {
                        return Err(e);
                    }
                };
                let empty_out: Vec<Type> = Vec::new();
                proof {
                    assert(types_view(empty_out@) == Seq::<TypeV>::empty());
                }
                Ok(Type::Function(vec1(t), empty_out))
            }
            Factor::Quote(_) => {
                let t = match self.new_param() {
                    Ok(t) => t,
                    Err(e) => {
                        return Err(e);
                    }
                };
                let t2 = t.clone();
                let empty_in: Vec<Type> = Vec::new();
                proof {
                    assert(types_view(empty_in@) == Seq::<TypeV>::empty());
                }
                Ok(Type::Function(vec1(t), vec1(Type::Function(empty_in, vec1(t2)))))
            }
            Factor::Call(_) => {
                let a = match self.new_param() {
                    Ok(t) => t,
                    Err(e) => {
                        return Err(e);
                    }
                };
                let b = match self.new_param() {
                    Ok(t) => t,
                    Err(e) => {
                        return Err(e);
                    }
                };
                let a2 = a.clone();
                let b2 = b.clone();
                Ok(Type::Function(vec2(a, Type::Function(vec1(a2), vec1(b))), vec1(b2)))
            }
            Factor::Cat(_) => {
                let a = match self.new_param() {
                    Ok(t) => t,
                    Err(e) => {
                        return Err(e);
                    }
                };
                let b = match self.new_param() {
                    Ok(t) => t,
                    Err(e) => {
                        return Err(e);
                    }
                };
                let g = match self.new_param() {
                    Ok(t) => t,
                    Err(e) => {
                        return Err(e);
                    }
                };
                let a2 = a.clone();
                let b2 = b.clone();
                let g2 = g.clone();
                let fg = Type::Function(vec1(a), vec1(b));
                let gg = Type::Function(vec1(b2), vec1(g));
                let composed = Type::Function(vec1(a2), vec1(g2));
                Ok(Type::Function(vec2(fg, gg), vec1(composed)))
            }
            Factor::Swap(_) => {
                let a = match self.new_param() {
                    Ok(t) => t,
                    Err(e) => {
                        return Err(e);
                    }
                };
                let b = match self.new_param() {
                    Ok(t) => t,
                    Err(e) => {
                        return Err(e);
                    }
                };
                let a2 = a.clone();
                let b2 = b.clone();
                Ok(Type::Function(vec2(a, b), vec2(b2, a2)))
            }
            Factor::Ifte(_) => {
                let t_in = match self.new_param() {
                    Ok(t) => t,
                    Err(e) => {
                        return Err(e);
                    }
                };
                let t_out = match self.new_param() {
                    Ok(t) => t,
                    Err(e) => {
                        return Err(e);
                    }
                };
                let t_out2 = t_out.clone();
                let t_condition = Type::Function(vec1(t_in), vec1(Type::Bool));
                let t_body = Type::Function(vec1(Type::Bool), vec1(t_out));
                let t_body2 = t_body.clone();
                Ok(Type::Function(vec3(t_condition, t_body, t_body2), vec1(t_out2)))
            }
            Factor::Integer(_, _) => {
                let empty_in: Vec<Type> = Vec::new();
                proof {
                    assert(types_view(empty_in@) == Seq::<TypeV>::empty());
                }
                Ok(Type::Function(empty_in, vec1(Type::Int)))
            }
            Factor::Boolean(_, _) => {
                let empty_in: Vec<Type> = Vec::new();
                proof {
                    assert(types_view(empty_in@) == Seq::<TypeV>::empty());
                }
                Ok(Type::Function(empty_in, vec1(Type::Bool)))
            }
            Factor::String(_, _) => {
                let empty_in: Vec<Type> = Vec::new();
                proof {
                    assert(types_view(empty_in@) == Seq::<TypeV>::empty());
                }
                Ok(Type::Function(empty_in, vec1(Type::String)))
            }
            Factor::Identifier(name, token) => {
                match env_get(&self.environment, name.as_str()) {
                    Some(t) => Ok(t),
                    None => Err(Error::TypeError(
                        String::from_str("Unknown identifier ").concat(name.as_str()),
                        token.clone(),
                    )),
                }
            }
            Factor::Quotation(inner) => {
                // A quotation denotes a value: push its inferred type.
                let t = match self.check_term(inner) {
                    Ok(t) => t,
                    Err(e) => {
                        return Err(e);
                    }
                };
                let empty_in: Vec<Type> = Vec::new();
                proof {
                    assert(types_view(empty_in@) == Seq::<TypeV>::empty());
                }
                Ok(Type::Function(empty_in, vec1(t)))
            }
        }
    }

    /// The type the checker assigns to a whole term; see
    /// [`spec_check_term`].
    pub fn check_term(&mut self, factors: &Vec<Factor>) -> (r: Result<Type, Error>)
        ensures
            ({
                match spec_check_term(old(self)@.env, old(self)@.param_count, factors_view(
                    factors@,
                )) {
                    Ok(tc) => r matches Ok(t) && t@ == tc.0 && final(self)@.param_count == tc.1
                        && final(self)@.env == old(self)@.env,
                    Err(e) => r matches Err(err) && err@ == e && final(self)@.env == old(
                        self,
                    )@.env,
                }
            }),
        decreases factors, 1int,
    {
        let ghost full = factors_view(factors@);
        proof {
            lemma_factors_view(factors@);
            assert(full.skip(0) =~= full);
        }
        let mut in_stack: Vec<Type> = Vec::new();
        let mut out_stack: Vec<Type> = Vec::new();
        proof {
            assert(types_view(in_stack@) =~= Seq::<TypeV>::empty());
        }
        let mut i: usize = 0;
        while i < factors.len()
            invariant
                0 <= i <= factors@.len(),
                full == factors_view(factors@),
                full.len() == factors@.len(),
                forall|j: int| 0 <= j < factors@.len() ==> full[j] == factors@[j]@,
                self@.env == old(self)@.env,
                spec_check_factors(
                    old(self)@.env,
                    old(self)@.param_count,
                    full,
                    Seq::empty(),
                    Seq::empty(),
                ) == spec_check_factors(
                    old(self)@.env,
                    self@.param_count,
                    full.skip(i as int),
                    types_view(in_stack@),
                    types_view(out_stack@),
                ),
            decreases factors@.len() - i,
        {
            let ghost cur = full.skip(i as int);
            proof {
                assert(cur[0] == full[i as int]);
                assert(cur.drop_first() =~= full.skip(i as int + 1));
            }
            let t = match self.check_factor(&factors[i]) {
                Ok(t) => t,
                Err(e) => {
                    return Err(e);
                }
            };
            match t {
                Type::Function(t_in, t_out) => {
                    match Self::apply_effect(&mut in_stack, &mut out_stack, t_in, t_out) {
                        Ok(_) => {}
                        Err(e) => {
                            return Err(e);
                        }
                    }
                }
                other => {
                    let ghost pre_outs = out_stack@;
                    out_stack.push(other);
                    proof {
                        assert(out_stack@.drop_last() =~= pre_outs);
                        assert(types_view(out_stack@) == types_view(
                            out_stack@.drop_last(),
                        ).push(out_stack@.last()@));
                    }
                }
            }
            i += 1;
        }
        proof {
            assert(full.skip(factors@.len() as int) =~= Seq::<FactorV>::empty());
        }
        Ok(Type::Function(in_stack, out_stack))
    }

    /// Checks one definition; see [`spec_check_definition`].
    fn check_definition(&mut self, name: &str, annotation: &Type, factors: &Vec<Factor>) -> (r:
        Result<Type, Error>)
        ensures
            ({
                match spec_check_definition(
                    old(self)@.env,
                    old(self)@.param_count,
                    name@,
                    annotation@,
                    factors_view(factors@),
                ) {
                    Ok(rr) => r matches Ok(t) && t@ == rr.0 && final(self)@.env == rr.1
                        && final(self)@.param_count == rr.2,
                    Err(e) => r matches Err(err) && err@ == e,
                }
            }),
    {
        let declared = annotation.clone();
        env_insert(&mut self.environment, name, declared);
        let body_t = match self.check_term(factors) {
            Ok(t) => t,
            Err(e) => {
                return Err(e);
            }
        };
        let lifted = match annotation {
            Type::Function(_, _) => annotation.clone(),
            _ => {
                let empty_in: Vec<Type> = Vec::new();
                proof {
                    assert(types_view(empty_in@) == Seq::<TypeV>::empty());
                }
                Type::Function(empty_in, vec1(annotation.clone()))
            }
        };
        if type_eq(&lifted, &body_t) {
            Ok(body_t)
        } else {
            Err(Error::TypeError(
                String::from_str("Declared type does not match inferred type for ").concat(name),
                Token::unknown(),
            ))
        }
    }

    /// Checks one top-level cycle and returns its type; see
    /// [`spec_check_cycle`].
    pub fn check_cycle(&mut self, cycle: &Cycle) -> (r: Result<Type, Error>)
        ensures
            ({
                match spec_check_cycle(old(self)@.env, old(self)@.param_count, cycle@) {
                    Ok(rr) => r matches Ok(t) && t@ == rr.0 && final(self)@.env == rr.1
                        && final(self)@.param_count == rr.2,
                    Err(e) => r matches Err(err) && err@ == e,
                }
            }),
    {
        match cycle {
            Cycle::Definition(name, annotation, factors) => {
                let ann = match self.type_from_annotation(annotation) {
                    Ok(t) => t,
                    Err(e) => {
                        return Err(e);
                    }
                };
                self.check_definition(name.as_str(), &ann, factors)
            }
            Cycle::Term(factors) => self.check_term(factors),
        }
    }

    /// Checks every cycle of a program in order; see [`spec_check_cycles`].
    pub fn check(&mut self, cycles: &Vec<Cycle>) -> (r: Result<(), Error>)
        ensures
            ({
                match spec_check_cycles(old(self)@.env, old(self)@.param_count, seq_view(
                    cycles@,
                )) {
                    Ok(ec) => r is Ok && final(self)@.env == ec.0 && final(self)@.param_count
                        == ec.1,
                    Err(e) => r matches Err(err) && err@ == e,
                }
            }),
    {
        let ghost full = seq_view(cycles@);
        proof {
            lemma_seq_view(cycles@);
            assert(full.skip(0) =~= full);
        }
        let mut i: usize = 0;
        while i < cycles.len()
            invariant
                0 <= i <= cycles@.len(),
                full == seq_view(cycles@),
                full.len() == cycles@.len(),
                forall|j: int| 0 <= j < cycles@.len() ==> full[j] == cycles@[j]@,
                spec_check_cycles(old(self)@.env, old(self)@.param_count, full)
                    == spec_check_cycles(self@.env, self@.param_count, full.skip(i as int)),
            decreases cycles@.len() - i,
        {
            let ghost cur = full.skip(i as int);
            proof {
                assert(cur[0] == full[i as int]);
                assert(cur.drop_first() =~= full.skip(i as int + 1));
            }
            match self.check_cycle(&cycles[i]) {
                Ok(_) => {}
                Err(e) => {
                    return Err(e);
                }
            }
            i += 1;
        }
        proof {
            assert(full.skip(cycles@.len() as int) =~= Seq::<CycleV>::empty());
        }
        Ok(())
    }
}

} // verus!
