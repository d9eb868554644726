//! The parser: tokens to top-level cycles.
//!
//! A program is a list of cycles; a cycle is either a definition
//! `def name : type = term ;` or a bare term; a term is a run of factors; a
//! factor is a primitive word, a literal, an identifier, or a bracketed
//! quotation.

use vstd::prelude::*;
use crate::error::{Error, ErrorV};
use crate::scanner::{Token, TokenV, is_punct};
use crate::text::{lemma_seq_view, lemma_seq_view_drop_first, parse_i64, seq_view, spec_parse_i64, spec_trim_quotes, str_eq, trim_quotes};

verus! {

broadcast use crate::text::lemma_seq_view_len;

/// A literal value carried by a literal factor.
#[derive(PartialEq, Eq, Debug, Clone)]
pub enum Value {
    Integer(i64),
    Boolean(bool),
    String(String),
}

/// The mathematical model of a [`Value`].
pub enum ValueV {
    Integer(int),
    Boolean(bool),
    String(Seq<char>),
}

impl View for Value {
    type V = ValueV;

    open spec fn view(&self) -> ValueV {
        match self {
            Value::Integer(i) => ValueV::Integer(*i as int),
            Value::Boolean(b) => ValueV::Boolean(*b),
            Value::String(s) => ValueV::String(s@),
        }
    }
}

/// One syntactic unit of a term.  Every factor carries the token it was made
/// from, for diagnostics; a quotation carries its inner term.
#[derive(PartialEq, Eq, Debug)]
pub enum Factor {
    Dup(Token),
    Drop(Token),
    Quote(Token),
    Call(Token),
    Cat(Token),
    Swap(Token),
    Ifte(Token),
    Integer(Value, Token),
    Boolean(Value, Token),
    String(Value, Token),
    Identifier(String, Token),
    Quotation(Vec<Factor>),
}

/// The mathematical model of a [`Factor`].
pub enum FactorV {
    Dup(TokenV),
    Drop(TokenV),
    Quote(TokenV),
    Call(TokenV),
    Cat(TokenV),
    Swap(TokenV),
    Ifte(TokenV),
    Integer(ValueV, TokenV),
    Boolean(ValueV, TokenV),
    String(ValueV, TokenV),
    Identifier(Seq<char>, TokenV),
    Quotation(Seq<FactorV>),
}

impl View for Factor {
    type V = FactorV;

    open spec fn view(&self) -> FactorV
        decreases self,
    {
        match self {
            Factor::Dup(t) => FactorV::Dup(t@),
            Factor::Drop(t) => FactorV::Drop(t@),
            Factor::Quote(t) => FactorV::Quote(t@),
            Factor::Call(t) => FactorV::Call(t@),
            Factor::Cat(t) => FactorV::Cat(t@),
            Factor::Swap(t) => FactorV::Swap(t@),
            Factor::Ifte(t) => FactorV::Ifte(t@),
            Factor::Integer(v, t) => FactorV::Integer(v@, t@),
            Factor::Boolean(v, t) => FactorV::Boolean(v@, t@),
            Factor::String(v, t) => FactorV::String(v@, t@),
            Factor::Identifier(n, t) => FactorV::Identifier(n@, t@),
            Factor::Quotation(fs) => FactorV::Quotation(factors_view(fs@)),
        }
    }
}

/// The element-wise view of a sequence of factors.
pub open spec fn factors_view(fs: Seq<Factor>) -> Seq<FactorV>
    decreases fs,
{
    if fs.len() == 0 {
        Seq::empty()
    } else {
        factors_view(fs.drop_last()).push(fs.last()@)
    }
}

pub proof fn lemma_factors_view(fs: Seq<Factor>)
    ensures
        factors_view(fs).len() == fs.len(),
        forall|i: int| 0 <= i < fs.len() ==> factors_view(fs)[i] == fs[i]@,
    decreases fs.len(),
{
    if fs.len() > 0 {
        lemma_factors_view(fs.drop_last());
        assert(factors_view(fs) == factors_view(fs.drop_last()).push(fs.last()@));
        assert forall|i: int| 0 <= i < fs.len() implies factors_view(fs)[i] == fs[i]@ by {
            if i < fs.len() - 1 {
                assert(fs.drop_last()[i] == fs[i]);
                assert(factors_view(fs)[i] == factors_view(fs.drop_last())[i]);
            }
        }
    }
}

/// A surface type annotation, as written after the `:` of a definition.
#[derive(PartialEq, Eq, Debug)]
pub enum TypeAnnotation {
    Function(Vec<TypeAnnotation>, Vec<TypeAnnotation>, Token, Token),
    Identifier(String, Token),
}

/// The mathematical model of a [`TypeAnnotation`].
pub enum TypeAnnotationV {
    Function(Seq<TypeAnnotationV>, Seq<TypeAnnotationV>, TokenV, TokenV),
    Identifier(Seq<char>, TokenV),
}

impl View for TypeAnnotation {
    type V = TypeAnnotationV;

    open spec fn view(&self) -> TypeAnnotationV
        decreases self,
    {
        match self {
            TypeAnnotation::Function(ins, outs, t1, t2) => TypeAnnotationV::Function(
                annotations_view(ins@),
                annotations_view(outs@),
                t1@,
                t2@,
            ),
            TypeAnnotation::Identifier(n, t) => TypeAnnotationV::Identifier(n@, t@),
        }
    }
}

/// The element-wise view of a sequence of type annotations.
pub open spec fn annotations_view(anns: Seq<TypeAnnotation>) -> Seq<TypeAnnotationV>
    decreases anns,
{
    if anns.len() == 0 {
        Seq::empty()
    } else {
        annotations_view(anns.drop_last()).push(anns.last()@)
    }
}

pub proof fn lemma_annotations_view(anns: Seq<TypeAnnotation>)
    ensures
        annotations_view(anns).len() == anns.len(),
        forall|i: int| 0 <= i < anns.len() ==> annotations_view(anns)[i] == anns[i]@,
    decreases anns.len(),
{
    if anns.len() > 0 {
        lemma_annotations_view(anns.drop_last());
        assert(annotations_view(anns) == annotations_view(anns.drop_last()).push(anns.last()@));
        assert forall|i: int| 0 <= i < anns.len() implies annotations_view(anns)[i] == anns[i]@ by {
            if i < anns.len() - 1 {
                assert(anns.drop_last()[i] == anns[i]);
                assert(annotations_view(anns)[i] == annotations_view(anns.drop_last())[i]);
            }
        }
    }
}

/// A top-level unit: a named definition with a declared type, or a bare term.
#[derive(PartialEq, Eq, Debug)]
pub enum Cycle {
    Definition(String, TypeAnnotation, Vec<Factor>),
    Term(Vec<Factor>),
}

/// The mathematical model of a [`Cycle`].
pub enum CycleV {
    Definition(Seq<char>, TypeAnnotationV, Seq<FactorV>),
    Term(Seq<FactorV>),
}

impl View for Cycle {
    type V = CycleV;

    open spec fn view(&self) -> CycleV {
        match self {
            Cycle::Definition(n, a, fs) => CycleV::Definition(n@, a@, factors_view(fs@)),
            Cycle::Term(fs) => CycleV::Term(factors_view(fs@)),
        }
    }
}

/// A recursive-descent parser over a token stream.  `tokens` holds what is
/// left to read; parsing consumes it from the front.
pub struct Parser {
    pub tokens: Vec<Token>,
    pub cycles: Vec<Cycle>,
}

/// Whether `c` may not appear in an identifier: the punctuation characters
/// and the quote.
pub open spec fn is_ident_excluded(c: char) -> bool {
    is_punct(c) || c == '"'
}

/// A valid identifier contains none of `{ } ( ) [ ] . , ; :` and no `"`.
pub open spec fn spec_valid_identifier(v: Seq<char>) -> bool {
    forall|i: int| 0 <= i < v.len() ==> !is_ident_excluded(#[trigger] v[i])
}

/// Whether the token value looks like a string literal: it begins and ends
/// with `"`.
pub open spec fn spec_quoted(v: Seq<char>) -> bool {
    v.len() >= 1 && v[0] == '"' && v.last() == '"'
}

/// Parsing one factor from the front of the token stream.  Returns the
/// result and the remaining tokens; `EndOfTerm` means the first token
/// cannot start a factor and nothing was consumed.
pub open spec fn spec_parse_factor(toks: Seq<TokenV>) -> (Result<FactorV, ErrorV>, Seq<TokenV>)
    decreases toks.len(), 0int,
{
    if toks.len() == 0 {
        (Err(ErrorV::EndOfTerm), toks)
    } else {
        let t = toks[0];
        let rest = toks.drop_first();
        if t.value == "["@ {
            let inner = spec_parse_term(rest);
            match inner.0 {
                Ok(fs) => if inner.1.len() == 0 {
                    (
                        Err(ErrorV::UnexpectedEndOfFile("Unexpected EOF, expected ]"@)),
                        inner.1,
                    )
                } else if inner.1[0].value == "]"@ {
                    (Ok(FactorV::Quotation(fs)), inner.1.drop_first())
                } else {
                    (Err(ErrorV::UnexpectedToken("]"@, inner.1[0])), inner.1.drop_first())
                },
                Err(e) => (Err(e), inner.1),
            }
        } else if t.value == "dup"@ {
            (Ok(FactorV::Dup(t)), rest)
        } else if t.value == "drop"@ {
            (Ok(FactorV::Drop(t)), rest)
        } else if t.value == "quote"@ {
            (Ok(FactorV::Quote(t)), rest)
        } else if t.value == "call"@ {
            (Ok(FactorV::Call(t)), rest)
        } else if t.value == "cat"@ {
            (Ok(FactorV::Cat(t)), rest)
        } else if t.value == "swap"@ {
            (Ok(FactorV::Swap(t)), rest)
        } else if t.value == "ifte"@ {
            (Ok(FactorV::Ifte(t)), rest)
        } else if spec_parse_i64(t.value) is Some {
            (Ok(FactorV::Integer(ValueV::Integer(spec_parse_i64(t.value)->0), t)), rest)
        } else if t.value == "true"@ {
            (Ok(FactorV::Boolean(ValueV::Boolean(true), t)), rest)
        } else if t.value == "false"@ {
            (Ok(FactorV::Boolean(ValueV::Boolean(false), t)), rest)
        } else if spec_valid_identifier(t.value) {
            (Ok(FactorV::Identifier(t.value, t)), rest)
        } else if spec_quoted(t.value) {
            (Ok(FactorV::String(ValueV::String(spec_trim_quotes(t.value)), t)), rest)
        } else {
            (Err(ErrorV::EndOfTerm), toks)
        }
    }
}

/// Parsing a term: factors until the first token that cannot start one,
/// which is left for the caller.
pub open spec fn spec_parse_term(toks: Seq<TokenV>) -> (Result<Seq<FactorV>, ErrorV>, Seq<TokenV>)
    decreases toks.len(), 1int,
{
    let first = spec_parse_factor(toks);
    match first.0 {
        Ok(f) => if first.1.len() < toks.len() {
            let more = spec_parse_term(first.1);
            match more.0 {
                Ok(fs) => (Ok(seq![f] + fs), more.1),
                Err(e) => (Err(e), more.1),
            }
        } else {
            // Never reached: a parsed factor always consumes a token.
            (Err(ErrorV::EndOfTerm), first.1)
        },
        Err(e) => if e is EndOfTerm {
            (Ok(Seq::empty()), first.1)
        } else {
            (Err(e), first.1)
        },
    }
}

/// Parsing the inputs of a function annotation after the first one:
/// `{ "," type }` until `->`.  Running out of tokens ends the list
/// silently; the caller then fails on the missing output type.
pub open spec fn spec_parse_in_list(toks: Seq<TokenV>) -> (
    Result<Seq<TypeAnnotationV>, ErrorV>,
    Seq<TokenV>,
)
    decreases toks.len(), 1int,
{
    if toks.len() == 0 {
        (Ok(Seq::empty()), toks)
    } else {
        let t = toks[0];
        let rest = toks.drop_first();
        if t.value == "->"@ {
            (Ok(Seq::empty()), rest)
        } else if t.value == ","@ {
            let first = spec_parse_type(rest);
            match first.0 {
                Ok(ann) => if first.1.len() < toks.len() {
                    let more = spec_parse_in_list(first.1);
                    match more.0 {
                        Ok(anns) => (Ok(seq![ann] + anns), more.1),
                        Err(e) => (Err(e), more.1),
                    }
                } else {
                    // Never reached: a parsed type always consumes a token.
                    (Err(ErrorV::EndOfTerm), first.1)
                },
                Err(e) => (Err(e), first.1),
            }
        } else {
            (Err(ErrorV::UnexpectedToken(","@, t)), rest)
        }
    }
}

/// Parsing the outputs of a function annotation after the first one:
/// `{ "," type }` until `)`, tracking the token that closes the
/// annotation.  Running out of tokens ends the list silently with the
/// last separator seen.
pub open spec fn spec_parse_out_list(toks: Seq<TokenV>, last: TokenV) -> (
    Result<(Seq<TypeAnnotationV>, TokenV), ErrorV>,
    Seq<TokenV>,
)
    decreases toks.len(), 1int,
{
    if toks.len() == 0 {
        (Ok((Seq::empty(), last)), toks)
    } else {
        let t = toks[0];
        let rest = toks.drop_first();
        if t.value == ")"@ {
            (Ok((Seq::empty(), t)), rest)
        } else if t.value == ","@ {
            let first = spec_parse_type(rest);
            match first.0 {
                Ok(ann) => if first.1.len() < toks.len() {
                    let more = spec_parse_out_list(first.1, t);
                    match more.0 {
                        Ok(pair) => (Ok((seq![ann] + pair.0, pair.1)), more.1),
                        Err(e) => (Err(e), more.1),
                    }
                } else {
                    // Never reached: a parsed type always consumes a token.
                    (Err(ErrorV::EndOfTerm), first.1)
                },
                Err(e) => (Err(e), first.1),
            }
        } else {
            (Err(ErrorV::UnexpectedToken(","@, t)), rest)
        }
    }
}

/// Parsing one type annotation: a ground name, a bare identifier, or a
/// parenthesised function annotation `( types -> types )`.
pub open spec fn spec_parse_type(toks: Seq<TokenV>) -> (Result<TypeAnnotationV, ErrorV>, Seq<TokenV>)
    decreases toks.len(), 0int,
{
    if toks.len() == 0 {
        (Err(ErrorV::UnexpectedEndOfFile("Unexpected EOF, expected type"@)), toks)
    } else {
        let t = toks[0];
        let rest = toks.drop_first();
        if t.value == "Int"@ {
            (Ok(TypeAnnotationV::Identifier("Int"@, t)), rest)
        } else if t.value == "Bool"@ {
            (Ok(TypeAnnotationV::Identifier("Bool"@, t)), rest)
        } else if t.value == "String"@ {
            (Ok(TypeAnnotationV::Identifier("String"@, t)), rest)
        } else if spec_valid_identifier(t.value) {
            (Ok(TypeAnnotationV::Identifier(t.value, t)), rest)
        } else if t.value == "("@ {
            let in_first = spec_parse_type(rest);
            match in_first.0 {
                Ok(ann1) => if in_first.1.len() < toks.len() {
                    let in_more = spec_parse_in_list(in_first.1);
                    match in_more.0 {
                        Ok(anns) => if in_more.1.len() < toks.len() {
                            let out_first = spec_parse_type(in_more.1);
                            match out_first.0 {
                                Ok(ann2) => if out_first.1.len() < toks.len() {
                                    let out_more = spec_parse_out_list(out_first.1, t);
                                    match out_more.0 {
                                        Ok(pair) => (
                                            Ok(
                                                TypeAnnotationV::Function(
                                                    seq![ann1] + anns,
                                                    seq![ann2] + pair.0,
                                                    t,
                                                    pair.1,
                                                ),
                                            ),
                                            out_more.1,
                                        ),
                                        Err(e) => (Err(e), out_more.1),
                                    }
                                } else {
                                    // Never reached: parsing consumed tokens.
                                    (Err(ErrorV::EndOfTerm), out_first.1)
                                },
                                Err(e) => (Err(e), out_first.1),
                            }
                        } else {
                            // Never reached: parsing consumed tokens.
                            (Err(ErrorV::EndOfTerm), in_more.1)
                        },
                        Err(e) => (Err(e), in_more.1),
                    }
                } else {
                    // Never reached: a parsed type always consumes a token.
                    (Err(ErrorV::EndOfTerm), in_first.1)
                },
                Err(e) => (Err(e), in_first.1),
            }
        } else {
            (Err(ErrorV::UnexpectedToken("type"@, t)), rest)
        }
    }
}

/// Parsing a definition `def name : type = term ;`.
pub open spec fn spec_parse_definition(toks: Seq<TokenV>) -> (Result<CycleV, ErrorV>, Seq<TokenV>) {
    if toks.len() == 0 {
        (Err(ErrorV::UnexpectedEndOfFile("Unexpected EOF, expected def"@)), toks)
    } else if toks[0].value != "def"@ {
        (Err(ErrorV::UnexpectedToken("def"@, toks[0])), toks.drop_first())
    } else {
        let r1 = toks.drop_first();
        if r1.len() == 0 {
            (Err(ErrorV::UnexpectedEndOfFile("Unexpected EOF, expected name"@)), r1)
        } else if !spec_valid_identifier(r1[0].value) {
            (Err(ErrorV::UnexpectedToken("identifier"@, r1[0])), r1.drop_first())
        } else {
            let name = r1[0].value;
            let r2 = r1.drop_first();
            if r2.len() == 0 {
                (Err(ErrorV::UnexpectedEndOfFile("Unexpected EOF, expected colon"@)), r2)
            } else if r2[0].value != ":"@ {
                (Err(ErrorV::UnexpectedToken(":"@, r2[0])), r2.drop_first())
            } else {
                let ty = spec_parse_type(r2.drop_first());
                match ty.0 {
                    Ok(ann) => {
                        let r4 = ty.1;
                        if r4.len() == 0 {
                            (
                                Err(
                                    ErrorV::UnexpectedEndOfFile("Unexpected EOF, expected ="@),
                                ),
                                r4,
                            )
                        } else if r4[0].value != "="@ {
                            (Err(ErrorV::UnexpectedToken("="@, r4[0])), r4.drop_first())
                        } else {
                            let tm = spec_parse_term(r4.drop_first());
                            match tm.0 {
                                Ok(fs) => {
                                    let r6 = tm.1;
                                    if r6.len() == 0 {
                                        (
                                            Err(
                                                ErrorV::UnexpectedEndOfFile(
                                                    "Unexpected EOF, expected ;"@,
                                                ),
                                            ),
                                            r6,
                                        )
                                    } else if r6[0].value != ";"@ {
                                        (
                                            Err(ErrorV::UnexpectedToken(";"@, r6[0])),
                                            r6.drop_first(),
                                        )
                                    } else {
                                        (
                                            Ok(CycleV::Definition(name, ann, fs)),
                                            r6.drop_first(),
                                        )
                                    }
                                }
                                Err(e) => (Err(e), tm.1),
                            }
                        }
                    }
                    Err(e) => (Err(e), ty.1),
                }
            }
        }
    }
}

/// Parsing a whole program: cycles until the tokens run out.  A token that
/// can start no cycle is an `UnexpectedToken` error.
pub open spec fn spec_parse(toks: Seq<TokenV>) -> Result<Seq<CycleV>, ErrorV>
    decreases toks.len(),
{
    if toks.len() == 0 {
        Ok(Seq::empty())
    } else if toks[0].value == "def"@ {
        let d = spec_parse_definition(toks);
        match d.0 {
            Ok(c) => if d.1.len() < toks.len() {
                match spec_parse(d.1) {
                    Ok(cs) => Ok(seq![c] + cs),
                    Err(e) => Err(e),
                }
            } else {
                // Never reached: a parsed definition consumes tokens.
                Err(ErrorV::EndOfTerm)
            },
            Err(e) => Err(e),
        }
    } else {
        let tm = spec_parse_term(toks);
        match tm.0 {
            Ok(fs) => if tm.1.len() < toks.len() {
                match spec_parse(tm.1) {
                    Ok(cs) => Ok(seq![CycleV::Term(fs)] + cs),
                    Err(e) => Err(e),
                }
            } else {
                // The first token can start no factor: reject it rather
                // than loop without progress.
                Err(ErrorV::UnexpectedToken("factor"@, toks[0]))
            },
            Err(e) => Err(e),
        }
    }
}

/// Whether `rest` is a suffix of `toks`.
pub open spec fn is_suffix_of(rest: Seq<TokenV>, toks: Seq<TokenV>) -> bool {
    rest.len() <= toks.len() && rest == toks.skip(toks.len() - rest.len())
}

proof fn lemma_suffix_refl(toks: Seq<TokenV>)
    ensures
        is_suffix_of(toks, toks),
{
    assert(toks.skip(0) =~= toks);
}

proof fn lemma_suffix_drop_first(toks: Seq<TokenV>)
    requires
        toks.len() > 0,
    ensures
        is_suffix_of(toks.drop_first(), toks),
{
    assert(toks.drop_first() =~= toks.skip(1));
}

proof fn lemma_suffix_trans(c: Seq<TokenV>, b: Seq<TokenV>, a: Seq<TokenV>)
    requires
        is_suffix_of(c, b),
        is_suffix_of(b, a),
    ensures
        is_suffix_of(c, a),
{
    assert(b.skip(b.len() - c.len()) =~= a.skip(a.len() - c.len()));
}

/// Parsing one factor leaves a suffix of the tokens.
proof fn lemma_parse_factor_suffix(toks: Seq<TokenV>)
    ensures
        is_suffix_of(spec_parse_factor(toks).1, toks),
    decreases toks.len(), 0int,
{
    if toks.len() == 0 {
        lemma_suffix_refl(toks);
    } else {
        let t = toks[0];
        let rest = toks.drop_first();
        lemma_suffix_refl(toks);
        lemma_suffix_drop_first(toks);
        if t.value == "["@ {
            lemma_parse_term_suffix(rest);
            let inner = spec_parse_term(rest);
            lemma_suffix_trans(inner.1, rest, toks);
            match inner.0 {
                Ok(_) => {
                    if inner.1.len() > 0 {
                        lemma_suffix_drop_first(inner.1);
                        lemma_suffix_trans(inner.1.drop_first(), inner.1, toks);
                    }
                }
                Err(_) => {}
            }
        }
    }
}

/// Parsing a term leaves a suffix of the tokens.
proof fn lemma_parse_term_suffix(toks: Seq<TokenV>)
    ensures
        is_suffix_of(spec_parse_term(toks).1, toks),
    decreases toks.len(), 1int,
{
    lemma_parse_factor_suffix(toks);
    let first = spec_parse_factor(toks);
    match first.0 {
        Ok(_) => {
            if first.1.len() < toks.len() {
                lemma_parse_term_suffix(first.1);
                lemma_suffix_trans(spec_parse_term(first.1).1, first.1, toks);
            }
        }
        Err(_) => {}
    }
}

/// Parsing a type annotation leaves a suffix of the tokens.
proof fn lemma_parse_type_suffix(toks: Seq<TokenV>)
    ensures
        is_suffix_of(spec_parse_type(toks).1, toks),
    decreases toks.len(), 0int,
{
    if toks.len() == 0 {
        lemma_suffix_refl(toks);
    } else {
        let t = toks[0];
        let rest = toks.drop_first();
        lemma_suffix_refl(toks);
        lemma_suffix_drop_first(toks);
        if t.value != "Int"@ && t.value != "Bool"@ && t.value != "String"@
            && !spec_valid_identifier(t.value) && t.value == "("@ {
            lemma_parse_type_suffix(rest);
            let in_first = spec_parse_type(rest);
            lemma_suffix_trans(in_first.1, rest, toks);
            match in_first.0 {
                Ok(_) => {
                    if in_first.1.len() < toks.len() {
                        lemma_parse_in_list_suffix(in_first.1);
                        let in_more = spec_parse_in_list(in_first.1);
                        lemma_suffix_trans(in_more.1, in_first.1, toks);
                        match in_more.0 {
                            Ok(_) => {
                                if in_more.1.len() < toks.len() {
                                    lemma_parse_type_suffix(in_more.1);
                                    let out_first = spec_parse_type(in_more.1);
                                    lemma_suffix_trans(out_first.1, in_more.1, toks);
                                    match out_first.0 {
                                        Ok(_) => {
                                            if out_first.1.len() < toks.len() {
                                                lemma_parse_out_list_suffix(out_first.1, t);
                                                let out_more = spec_parse_out_list(
                                                    out_first.1,
                                                    t,
                                                );
                                                lemma_suffix_trans(
                                                    out_more.1,
                                                    out_first.1,
                                                    toks,
                                                );
                                            }
                                        }
                                        Err(_) => {}
                                    }
                                }
                            }
                            Err(_) => {}
                        }
                    }
                }
                Err(_) => {}
            }
        }
    }
}

/// Parsing the remaining inputs of a function annotation leaves a suffix.
proof fn lemma_parse_in_list_suffix(toks: Seq<TokenV>)
    ensures
        is_suffix_of(spec_parse_in_list(toks).1, toks),
    decreases toks.len(), 1int,
{
    if toks.len() == 0 {
        lemma_suffix_refl(toks);
    } else {
        let t = toks[0];
        let rest = toks.drop_first();
        lemma_suffix_refl(toks);
        lemma_suffix_drop_first(toks);
        if t.value != "->"@ && t.value == ","@ {
            lemma_parse_type_suffix(rest);
            let first = spec_parse_type(rest);
            lemma_suffix_trans(first.1, rest, toks);
            match first.0 {
                Ok(_) => {
                    if first.1.len() < toks.len() {
                        lemma_parse_in_list_suffix(first.1);
                        lemma_suffix_trans(spec_parse_in_list(first.1).1, first.1, toks);
                    }
                }
                Err(_) => {}
            }
        }
    }
}

/// Parsing the remaining outputs of a function annotation leaves a suffix.
proof fn lemma_parse_out_list_suffix(toks: Seq<TokenV>, last: TokenV)
    ensures
        is_suffix_of(spec_parse_out_list(toks, last).1, toks),
    decreases toks.len(), 1int,
{
    if toks.len() == 0 {
        lemma_suffix_refl(toks);
    } else {
        let t = toks[0];
        let rest = toks.drop_first();
        lemma_suffix_refl(toks);
        lemma_suffix_drop_first(toks);
        if t.value != ")"@ && t.value == ","@ {
            lemma_parse_type_suffix(rest);
            let first = spec_parse_type(rest);
            lemma_suffix_trans(first.1, rest, toks);
            match first.0 {
                Ok(_) => {
                    if first.1.len() < toks.len() {
                        lemma_parse_out_list_suffix(first.1, t);
                        lemma_suffix_trans(spec_parse_out_list(first.1, t).1, first.1, toks);
                    }
                }
                Err(_) => {}
            }
        }
    }
}

/// A definition parses successfully only when the token that closes it is
/// `;`: on success the last consumed token is a semicolon; a stream whose
/// definition lacks it ends in `UnexpectedEndOfFile` or `UnexpectedToken`.
pub proof fn lemma_definition_ends_with_semicolon(toks: Seq<TokenV>)
    ensures
        ({
            let sp = spec_parse_definition(toks);
            sp.0 matches Ok(c) ==> sp.1.len() < toks.len() && toks[toks.len() - sp.1.len()
                - 1].value == ";"@
        }),
{
    let sp = spec_parse_definition(toks);
    if sp.0 is Ok {
        let r1 = toks.drop_first();
        let r2 = r1.drop_first();
        let r3 = r2.drop_first();
        lemma_suffix_refl(toks);
        lemma_suffix_drop_first(toks);
        lemma_suffix_drop_first(r1);
        lemma_suffix_trans(r2, r1, toks);
        lemma_suffix_drop_first(r2);
        lemma_suffix_trans(r3, r2, toks);
        lemma_parse_type_suffix(r3);
        let ty = spec_parse_type(r3);
        lemma_suffix_trans(ty.1, r3, toks);
        let r4 = ty.1;
        lemma_suffix_drop_first(r4);
        lemma_suffix_trans(r4.drop_first(), r4, toks);
        lemma_parse_term_suffix(r4.drop_first());
        let tm = spec_parse_term(r4.drop_first());
        lemma_suffix_trans(tm.1, r4.drop_first(), toks);
        let r6 = tm.1;
        assert(r6[0] == toks[toks.len() - r6.len()]);
    }
}

/// A token stream that contains no `;` at all never parses as a
/// definition.
pub proof fn lemma_missing_semicolon_rejected(toks: Seq<TokenV>)
    requires
        forall|k: int| 0 <= k < toks.len() ==> (#[trigger] toks[k].value) != ";"@,
    ensures
        spec_parse_definition(toks).0 is Err,
{
    lemma_definition_ends_with_semicolon(toks);
}

impl Parser {
    pub fn new(tokens: Vec<Token>) -> (r: Parser)
        ensures
            r.tokens@ == tokens@,
            r.cycles@.len() == 0,
    {
        Parser { tokens, cycles: Vec::new() }
    }

    /// The next token, if any, without consuming it.
    fn peek(&self) -> (r: Option<&Token>)
        ensures
            self.tokens@.len() > 0 <==> r is Some,
            ({
                r matches Some(t) ==> t@ == self.tokens@[0]@
            }),
    {
        if self.tokens.len() > 0 {
            Some(&self.tokens[0])
        } else {
            None
        }
    }

    /// Consumes and returns the next token, if any.
    fn next(&mut self) -> (r: Option<Token>)
        ensures
            old(self).tokens@.len() > 0 ==> (r matches Some(t) && t@ == old(self).tokens@[0]@
                && final(self).tokens@ == old(self).tokens@.drop_first()
                && final(self).cycles@ == old(self).cycles@),
            old(self).tokens@.len() == 0 ==> r is None && *final(self) == *old(self),
    {
        if self.tokens.len() > 0 {
            let t = self.tokens.remove(0);
            proof {
                assert(self.tokens@ =~= old(self).tokens@.drop_first());
            }
            Some(t)
        } else {
            None
        }
    }

    /// Whether the token may serve as an identifier: it contains none of
    /// the punctuation characters and no quote.
    fn is_valid_identifier(token: &Token) -> (r: bool)
        ensures
            r == spec_valid_identifier(token@.value),
    {
        let v = token.value.as_str();
        let n = v.unicode_len();
        let mut i: usize = 0;
        while i < n
            invariant
                n == v@.len(),
                v@ == token@.value,
                0 <= i <= n,
                forall|j: int| 0 <= j < i ==> !is_ident_excluded(#[trigger] v@[j]),
            decreases n - i,
        {
            let c = v.get_char(i);
            if c == '{' || c == '}' || c == '(' || c == ')' || c == '[' || c == ']' || c == '.'
                || c == ',' || c == ';' || c == ':' || c == '"' {
                return false;
            }
            i += 1;
        }
        true
    }

    /// Parses one factor; see [`spec_parse_factor`].  `EndOfTerm` is the
    /// internal signal that the next token cannot start a factor.
    pub fn parse_factor(&mut self) -> (r: Result<Factor, Error>)
        ensures
            ({
                let sp = spec_parse_factor(seq_view(old(self).tokens@));
                &&& (match sp.0 {
                    Ok(f) => r matches Ok(rf) && rf@ == f,
                    Err(e) => r matches Err(err) && err@ == e,
                })
                &&& seq_view(final(self).tokens@) == sp.1
                &&& final(self).cycles@ == old(self).cycles@
            }),
            r is Ok ==> final(self).tokens@.len() < old(self).tokens@.len(),
            final(self).tokens@.len() <= old(self).tokens@.len(),
        decreases self.tokens@.len(), 0int,
    {
        proof {
            lemma_seq_view(self.tokens@);
        }
        if self.tokens.len() == 0 {
            return Err(Error::EndOfTerm);
        }
        proof {
            lemma_seq_view_drop_first(self.tokens@);
        }
        if str_eq(self.tokens[0].value.as_str(), "[") {
            let _brace = self.next();
            let term = match self.parse_term() {
                Ok(fs) => fs,
                Err(e) => {
                    return Err(e);
                }
            };
            proof {
                lemma_seq_view(self.tokens@);
                if self.tokens@.len() > 0 {
                    lemma_seq_view_drop_first(self.tokens@);
                }
            }
            match self.next() {
                None => Err(Error::UnexpectedEndOfFile(
                    String::from_str("Unexpected EOF, expected ]"),
                )),
                Some(close) => {
                    if str_eq(close.value.as_str(), "]") {
                        Ok(Factor::Quotation(term))
                    } else {
                        Err(Error::UnexpectedToken(String::from_str("]"), close))
                    }
                }
            }
        } else if str_eq(self.tokens[0].value.as_str(), "dup") {
            let t = self.next().unwrap();
            Ok(Factor::Dup(t))
        } else if str_eq(self.tokens[0].value.as_str(), "drop") {
            let t = self.next().unwrap();
            Ok(Factor::Drop(t))
        } else if str_eq(self.tokens[0].value.as_str(), "quote") {
            let t = self.next().unwrap();
            Ok(Factor::Quote(t))
        } else if str_eq(self.tokens[0].value.as_str(), "call") {
            let t = self.next().unwrap();
            Ok(Factor::Call(t))
        } else if str_eq(self.tokens[0].value.as_str(), "cat") {
            let t = self.next().unwrap();
            Ok(Factor::Cat(t))
        } else if str_eq(self.tokens[0].value.as_str(), "swap") {
            let t = self.next().unwrap();
            Ok(Factor::Swap(t))
        } else if str_eq(self.tokens[0].value.as_str(), "ifte") {
            let t = self.next().unwrap();
            Ok(Factor::Ifte(t))
        } else {
            let parsed_int = parse_i64(self.tokens[0].value.as_str());
            match parsed_int {
                Some(i) => {
                    let t = self.next().unwrap();
                    Ok(Factor::Integer(Value::Integer(i), t))
                }
                None => {
                    if str_eq(self.tokens[0].value.as_str(), "true") {
                        let t = self.next().unwrap();
                        Ok(Factor::Boolean(Value::Boolean(true), t))
                    } else if str_eq(self.tokens[0].value.as_str(), "false") {
                        let t = self.next().unwrap();
                        Ok(Factor::Boolean(Value::Boolean(false), t))
                    } else if Self::is_valid_identifier(&self.tokens[0]) {
                        let t = self.next().unwrap();
                        let name = t.value.clone();
                        Ok(Factor::Identifier(name, t))
                    } else {
                        let quoted = {
                            let v = self.tokens[0].value.as_str();
                            let vn = v.unicode_len();
                            vn >= 1 && v.get_char(0) == '"' && v.get_char(vn - 1) == '"'
                        };
                        if quoted {
                            let t = self.next().unwrap();
                            let trimmed = trim_quotes(t.value.as_str());
                            Ok(Factor::String(Value::String(trimmed), t))
                        } else {
                            Err(Error::EndOfTerm)
                        }
                    }
                }
            }
        }
    }

    /// Parses a term: factors until one cannot start; see
    /// [`spec_parse_term`].
    pub fn parse_term(&mut self) -> (r: Result<Vec<Factor>, Error>)
        ensures
            ({
                let sp = spec_parse_term(seq_view(old(self).tokens@));
                &&& (match sp.0 {
                    Ok(fs) => r matches Ok(v) && factors_view(v@) == fs,
                    Err(e) => r matches Err(err) && err@ == e,
                })
                &&& seq_view(final(self).tokens@) == sp.1
                &&& final(self).cycles@ == old(self).cycles@
            }),
            final(self).tokens@.len() <= old(self).tokens@.len(),
        decreases self.tokens@.len(), 1int,
    {
        match self.parse_factor() {
            Ok(f) => {
                let ghost fv = f@;
                let mut rest = match self.parse_term() {
                    Ok(v) => v,
                    Err(e) => {
                        return Err(e);
                    }
                };
                let ghost rest_pre = rest@;
                rest.insert(0, f);
                proof {
                    assert(rest_pre.take(0) =~= Seq::<Factor>::empty());
                    assert(rest_pre.skip(0) =~= rest_pre);
                    assert(rest@ =~= seq![rest@[0]] + rest_pre);
                    assert(rest@[0]@ == fv);
                    lemma_factors_view(rest@);
                    lemma_factors_view(rest_pre);
                    assert(factors_view(rest@) =~= seq![fv] + factors_view(rest_pre));
                }
                Ok(rest)
            }
            Err(e) => {
                match e {
                    Error::EndOfTerm => {
                        let out: Vec<Factor> = Vec::new();
                        proof {
                            assert(factors_view(out@) =~= Seq::<FactorV>::empty());
                        }
                        Ok(out)
                    }
                    other => Err(other),
                }
            }
        }
    }

    /// Parses one type annotation; see [`spec_parse_type`].
    pub fn parse_type(&mut self) -> (r: Result<TypeAnnotation, Error>)
        ensures
            ({
                let sp = spec_parse_type(seq_view(old(self).tokens@));
                &&& (match sp.0 {
                    Ok(a) => r matches Ok(ra) && ra@ == a,
                    Err(e) => r matches Err(err) && err@ == e,
                })
                &&& seq_view(final(self).tokens@) == sp.1
                &&& final(self).cycles@ == old(self).cycles@
            }),
            r is Ok ==> final(self).tokens@.len() < old(self).tokens@.len(),
            final(self).tokens@.len() <= old(self).tokens@.len(),
        decreases self.tokens@.len(), 0int,
    {
        proof {
            lemma_seq_view(self.tokens@);
        }
        let first_token = match self.next() {
            None => {
                return Err(Error::UnexpectedEndOfFile(
                    String::from_str("Unexpected EOF, expected type"),
                ));
            }
            Some(t) => t,
        };
        proof {
            lemma_seq_view_drop_first(old(self).tokens@);
        }
        if str_eq(first_token.value.as_str(), "Int") {
            Ok(TypeAnnotation::Identifier(String::from_str("Int"), first_token))
        } else if str_eq(first_token.value.as_str(), "Bool") {
            Ok(TypeAnnotation::Identifier(String::from_str("Bool"), first_token))
        } else if str_eq(first_token.value.as_str(), "String") {
            Ok(TypeAnnotation::Identifier(String::from_str("String"), first_token))
        } else if Self::is_valid_identifier(&first_token) {
            let name = first_token.value.clone();
            Ok(TypeAnnotation::Identifier(name, first_token))
        } else if str_eq(first_token.value.as_str(), "(") {
            let in1 = match self.parse_type() {
                Ok(a) => a,
                Err(e) => {
                    return Err(e);
                }
            };
            let ghost in1v = in1@;
            let mut ins = match self.parse_in_list() {
                Ok(v) => v,
                Err(e) => {
                    return Err(e);
                }
            };
            let ghost ins_pre = ins@;
            ins.insert(0, in1);
            proof {
                assert(ins_pre.take(0) =~= Seq::<TypeAnnotation>::empty());
                assert(ins_pre.skip(0) =~= ins_pre);
                assert(ins@ =~= seq![ins@[0]] + ins_pre);
                assert(ins@[0]@ == in1v);
                lemma_annotations_view(ins@);
                lemma_annotations_view(ins_pre);
                assert(annotations_view(ins@) =~= seq![in1v] + annotations_view(ins_pre));
            }
            let out1 = match self.parse_type() {
                Ok(a) => a,
                Err(e) => {
                    return Err(e);
                }
            };
            let ghost out1v = out1@;
            let last0 = first_token.clone();
            let pair = match self.parse_out_list(last0) {
                Ok(p) => p,
                Err(e) => {
                    return Err(e);
                }
            };
            let (mut outs, last_token) = pair;
            let ghost outs_pre = outs@;
            outs.insert(0, out1);
            proof {
                assert(outs_pre.take(0) =~= Seq::<TypeAnnotation>::empty());
                assert(outs_pre.skip(0) =~= outs_pre);
                assert(outs@ =~= seq![outs@[0]] + outs_pre);
                assert(outs@[0]@ == out1v);
                lemma_annotations_view(outs@);
                lemma_annotations_view(outs_pre);
                assert(annotations_view(outs@) =~= seq![out1v] + annotations_view(outs_pre));
            }
            Ok(TypeAnnotation::Function(ins, outs, first_token, last_token))
        } else {
            Err(Error::UnexpectedToken(String::from_str("type"), first_token))
        }
    }

    /// Parses the remaining inputs of a function annotation; see
    /// [`spec_parse_in_list`].
    fn parse_in_list(&mut self) -> (r: Result<Vec<TypeAnnotation>, Error>)
        ensures
            ({
                let sp = spec_parse_in_list(seq_view(old(self).tokens@));
                &&& (match sp.0 {
                    Ok(anns) => r matches Ok(v) && annotations_view(v@) == anns,
                    Err(e) => r matches Err(err) && err@ == e,
                })
                &&& seq_view(final(self).tokens@) == sp.1
                &&& final(self).cycles@ == old(self).cycles@
            }),
            final(self).tokens@.len() <= old(self).tokens@.len(),
        decreases self.tokens@.len(), 1int,
    {
        proof {
            lemma_seq_view(self.tokens@);
        }
        if self.tokens.len() == 0 {
            let out: Vec<TypeAnnotation> = Vec::new();
            proof {
                assert(annotations_view(out@) =~= Seq::<TypeAnnotationV>::empty());
            }
            return Ok(out);
        }
        proof {
            lemma_seq_view_drop_first(self.tokens@);
        }
        if str_eq(self.tokens[0].value.as_str(), "->") {
            let _arrow = self.next();
            let out: Vec<TypeAnnotation> = Vec::new();
            proof {
                assert(annotations_view(out@) =~= Seq::<TypeAnnotationV>::empty());
            }
            Ok(out)
        } else if str_eq(self.tokens[0].value.as_str(), ",") {
            let _comma = self.next();
            let ann = match self.parse_type() {
                Ok(a) => a,
                Err(e) => {
                    return Err(e);
                }
            };
            let ghost annv = ann@;
            let mut more = match self.parse_in_list() {
                Ok(v) => v,
                Err(e) => {
                    return Err(e);
                }
            };
            let ghost more_pre = more@;
            more.insert(0, ann);
            proof {
                assert(more_pre.take(0) =~= Seq::<TypeAnnotation>::empty());
                assert(more_pre.skip(0) =~= more_pre);
                assert(more@ =~= seq![more@[0]] + more_pre);
                assert(more@[0]@ == annv);
                lemma_annotations_view(more@);
                lemma_annotations_view(more_pre);
                assert(annotations_view(more@) =~= seq![annv] + annotations_view(more_pre));
            }
            Ok(more)
        } else {
            let t = self.next().unwrap();
            Err(Error::UnexpectedToken(String::from_str(","), t))
        }
    }

    /// Parses the remaining outputs of a function annotation, tracking the
    /// closing token; see [`spec_parse_out_list`].
    fn parse_out_list(&mut self, last: Token) -> (r: Result<(Vec<TypeAnnotation>, Token), Error>)
        ensures
            ({
                let sp = spec_parse_out_list(seq_view(old(self).tokens@), last@);
                &&& (match sp.0 {
                    Ok(pair) => r matches Ok(rp) && annotations_view(rp.0@) == pair.0
                        && rp.1@ == pair.1,
                    Err(e) => r matches Err(err) && err@ == e,
                })
                &&& seq_view(final(self).tokens@) == sp.1
                &&& final(self).cycles@ == old(self).cycles@
            }),
            final(self).tokens@.len() <= old(self).tokens@.len(),
        decreases self.tokens@.len(), 1int,
    {
        proof {
            lemma_seq_view(self.tokens@);
        }
        if self.tokens.len() == 0 {
            let out: Vec<TypeAnnotation> = Vec::new();
            proof {
                assert(annotations_view(out@) =~= Seq::<TypeAnnotationV>::empty());
            }
            return Ok((out, last));
        }
        proof {
            lemma_seq_view_drop_first(self.tokens@);
        }
        if str_eq(self.tokens[0].value.as_str(), ")") {
            let t = self.next().unwrap();
            let out: Vec<TypeAnnotation> = Vec::new();
            proof {
                assert(annotations_view(out@) =~= Seq::<TypeAnnotationV>::empty());
            }
            Ok((out, t))
        } else if str_eq(self.tokens[0].value.as_str(), ",") {
            let comma = self.next().unwrap();
            let ann = match self.parse_type() {
                Ok(a) => a,
                Err(e) => {
                    return Err(e);
                }
            };
            let ghost annv = ann@;
            let pair = match self.parse_out_list(comma) {
                Ok(p) => p,
                Err(e) => {
                    return Err(e);
                }
            };
            let (mut more, last2) = pair;
            let ghost more_pre = more@;
            more.insert(0, ann);
            proof {
                assert(more_pre.take(0) =~= Seq::<TypeAnnotation>::empty());
                assert(more_pre.skip(0) =~= more_pre);
                assert(more@ =~= seq![more@[0]] + more_pre);
                assert(more@[0]@ == annv);
                lemma_annotations_view(more@);
                lemma_annotations_view(more_pre);
                assert(annotations_view(more@) =~= seq![annv] + annotations_view(more_pre));
            }
            Ok((more, last2))
        } else {
            let t = self.next().unwrap();
            Err(Error::UnexpectedToken(String::from_str(","), t))
        }
    }

    /// Parses a definition `def name : type = term ;`; see
    /// [`spec_parse_definition`].
    pub fn parse_definition(&mut self) -> (r: Result<Cycle, Error>)
        ensures
            ({
                let sp = spec_parse_definition(seq_view(old(self).tokens@));
                &&& (match sp.0 {
                    Ok(c) => r matches Ok(rc) && rc@ == c,
                    Err(e) => r matches Err(err) && err@ == e,
                })
                &&& seq_view(final(self).tokens@) == sp.1
                &&& final(self).cycles@ == old(self).cycles@
            }),
            r is Ok ==> final(self).tokens@.len() < old(self).tokens@.len(),
            final(self).tokens@.len() <= old(self).tokens@.len(),
    {
        proof {
            lemma_seq_view(self.tokens@);
            if self.tokens@.len() > 0 {
                lemma_seq_view_drop_first(self.tokens@);
            }
        }
        let def = match self.next() {
            None => {
                return Err(Error::UnexpectedEndOfFile(
                    String::from_str("Unexpected EOF, expected def"),
                ));
            }
            Some(t) => t,
        };
        if !str_eq(def.value.as_str(), "def") {
            return Err(Error::UnexpectedToken(String::from_str("def"), def));
        }
        proof {
            lemma_seq_view(self.tokens@);
            if self.tokens@.len() > 0 {
                lemma_seq_view_drop_first(self.tokens@);
            }
        }
        let name = match self.next() {
            None => {
                return Err(Error::UnexpectedEndOfFile(
                    String::from_str("Unexpected EOF, expected name"),
                ));
            }
            Some(t) => t,
        };
        if !Self::is_valid_identifier(&name) {
            return Err(Error::UnexpectedToken(String::from_str("identifier"), name));
        }
        proof {
            lemma_seq_view(self.tokens@);
            if self.tokens@.len() > 0 {
                lemma_seq_view_drop_first(self.tokens@);
            }
        }
        let colon = match self.next() {
            None => {
                return Err(Error::UnexpectedEndOfFile(
                    String::from_str("Unexpected EOF, expected colon"),
                ));
            }
            Some(t) => t,
        };
        if !str_eq(colon.value.as_str(), ":") {
            return Err(Error::UnexpectedToken(String::from_str(":"), colon));
        }
        let type_ = match self.parse_type() {
            Ok(a) => a,
            Err(e) => {
                return Err(e);
            }
        };
        proof {
            lemma_seq_view(self.tokens@);
            if self.tokens@.len() > 0 {
                lemma_seq_view_drop_first(self.tokens@);
            }
        }
        let equals = match self.next() {
            None => {
                return Err(Error::UnexpectedEndOfFile(
                    String::from_str("Unexpected EOF, expected ="),
                ));
            }
            Some(t) => t,
        };
        if !str_eq(equals.value.as_str(), "=") {
            return Err(Error::UnexpectedToken(String::from_str("="), equals));
        }
        let term = match self.parse_term() {
            Ok(fs) => fs,
            Err(e) => {
                return Err(e);
            }
        };
        proof {
            lemma_seq_view(self.tokens@);
            if self.tokens@.len() > 0 {
                lemma_seq_view_drop_first(self.tokens@);
            }
        }
        let semi = match self.next() {
            None => {
                return Err(Error::UnexpectedEndOfFile(
                    String::from_str("Unexpected EOF, expected ;"),
                ));
            }
            Some(t) => t,
        };
        if !str_eq(semi.value.as_str(), ";") {
            return Err(Error::UnexpectedToken(String::from_str(";"), semi));
        }
        Ok(Cycle::Definition(name.value, type_, term))
    }

    /// Parses the whole token stream into cycles; see [`spec_parse`].  A
    /// token that can start no cycle is rejected rather than looped on.
    pub fn parse(&mut self) -> (r: Result<Vec<Cycle>, Error>)
        ensures
            ({
                match spec_parse(seq_view(old(self).tokens@)) {
                    Ok(cs) => r matches Ok(v) && seq_view(v@) == cs,
                    Err(e) => r matches Err(err) && err@ == e,
                }
            }),
            final(self).cycles@ == old(self).cycles@,
        decreases self.tokens@.len(),
    {
        proof {
            lemma_seq_view(self.tokens@);
        }
        let is_def = match self.peek() {
            None => {
                let out: Vec<Cycle> = Vec::new();
                proof {
                    assert(seq_view(out@) =~= Seq::<CycleV>::empty());
                }
                return Ok(out);
            }
            Some(token) => str_eq(token.value.as_str(), "def"),
        };
        if is_def {
            let c = match self.parse_definition() {
                Ok(c) => c,
                Err(e) => {
                    return Err(e);
                }
            };
            let ghost cv = c@;
            let mut rest = match self.parse() {
                Ok(v) => v,
                Err(e) => {
                    return Err(e);
                }
            };
            let ghost rest_pre = rest@;
            rest.insert(0, c);
            proof {
                assert(rest_pre.take(0) =~= Seq::<Cycle>::empty());
                assert(rest_pre.skip(0) =~= rest_pre);
                assert(rest@ =~= seq![rest@[0]] + rest_pre);
                assert(rest@[0]@ == cv);
                lemma_seq_view(rest@);
                lemma_seq_view(rest_pre);
                assert(seq_view(rest@) =~= seq![cv] + seq_view(rest_pre));
            }
            Ok(rest)
        } else {
            let len_before = self.tokens.len();
            let t0 = self.tokens[0].clone();
            let fs = match self.parse_term() {
                Ok(v) => v,
                Err(e) => {
                    return Err(e);
                }
            };
            if self.tokens.len() == len_before {
                return Err(Error::UnexpectedToken(String::from_str("factor"), t0));
            }
            let c = Cycle::Term(fs);
            let ghost cv = c@;
            let mut rest = match self.parse() {
                Ok(v) => v,
                Err(e) => {
                    return Err(e);
                }
            };
            let ghost rest_pre = rest@;
            rest.insert(0, c);
            proof {
                assert(rest_pre.take(0) =~= Seq::<Cycle>::empty());
                assert(rest_pre.skip(0) =~= rest_pre);
                assert(rest@ =~= seq![rest@[0]] + rest_pre);
                assert(rest@[0]@ == cv);
                lemma_seq_view(rest@);
                lemma_seq_view(rest_pre);
                assert(seq_view(rest@) =~= seq![cv] + seq_view(rest_pre));
            }
            Ok(rest)
        }
    }
}

} // verus!
