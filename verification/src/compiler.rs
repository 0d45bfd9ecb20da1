//! The compiler: from the source of a template to its templates.
use vstd::prelude::*;
use vstd::utf8::encode_utf8;
use crate::constants::{Constants, Pool};
use crate::error::Error;
use crate::lexer::{lex, lex_spec};
use crate::optimizer::{optimize_spec, well_scoped, well_sized, Instruction, Optimizer};
use crate::scoping::lemma_parsed_is_well_scoped;
use crate::parser::{parse, parse_spec, ParseExpr, Tables};
use crate::strings::Strings;
use crate::template::{templates_view, Template, Tpl};
use crate::token::Tokens;
use crate::vm::{assemble, Scope};

verus! {

/// A pool with nothing in it.
pub open spec fn empty_pool() -> Pool {
    Pool { strings: Seq::empty(), texts: Seq::empty(), values: Seq::empty() }
}

/// What compiling gives, step by step: the first error of the lexer or of
/// the parser; else the templates that the optimized statements assemble
/// to. A stream that does not assemble, as that of an `else` that follows
/// no `if`, is an error too.
pub open spec fn compile_spec(source: Seq<char>) -> Result<Seq<Tpl>, Error> {
    match lex_spec(source, Seq::empty()) {
        Err(e) => Err(Error::Lex(e)),
        Ok(lexed) => match parse_spec(
            lexed.tokens,
            encode_utf8(source).len() as usize,
            0,
            Tables { names: lexed.table, pool: empty_pool() },
        ) {
            Err(e) => Err(Error::Parse(e)),
            Ok(program) => match assemble(optimize_spec(program.exprs), program.tables.pool) {
                Some(templates) => Ok(templates),
                None => Err(Error::OptimizerInvariant),
            },
        },
    }
}

/// The statements and the constants of a template.
pub struct Parsed {
    pub exprs: Vec<ParseExpr>,
    pub consts: Constants,
}

/// Lexes and parses the source of a template.
pub fn statements(source: &str) -> (r: Result<Parsed, Error>)
    ensures
        match lex_spec(source@, Seq::empty()) {
            Err(e) => r is Err && r->Err_0 == Error::Lex(e),
            Ok(lexed) => match parse_spec(
                lexed.tokens,
                encode_utf8(source@).len() as usize,
                0,
                Tables { names: lexed.table, pool: empty_pool() },
            ) {
                Err(e) => r is Err && r->Err_0 == Error::Parse(e),
                Ok(program) => r is Ok && r->Ok_0.exprs@ == program.exprs && r->Ok_0.consts@
                    == program.tables.pool && well_scoped(program.exprs),
            },
        },
{
    let mut names = Strings::empty();
    let mut consts = Constants::new();
    assert(consts@ =~= empty_pool()) by {
        assert(consts@.strings =~= Seq::<Seq<char>>::empty());
        assert(consts@.texts =~= empty_pool().texts);
        assert(consts@.values =~= empty_pool().values);
    }
    let tokens = match lex(source, &mut names) {
        Ok(tokens) => tokens,
        Err(e) => {
            return Err(Error::Lex(e));
        },
    };
    let mut tokens = Tokens::new(tokens, source.len());
    proof {
        lemma_parsed_is_well_scoped(
            tokens.tokens(),
            tokens.eof(),
            0,
            Tables { names: names@, pool: consts@ },
        );
    }
    match parse(&mut tokens, &mut names, &mut consts) {
        Ok(exprs) => Ok(Parsed { exprs, consts }),
        Err(e) => Err(Error::Parse(e)),
    }
}

/// Compiles the source of a template: lexes, parses, optimizes and
/// assembles it. See [`compile_spec`].
pub fn compile(source: &str) -> (r: Result<Vec<Template>, Error>)
    ensures
        match compile_spec(source@) {
            Ok(templates) => r is Ok && templates_view(r->Ok_0@) == templates,
            Err(e) => r is Err && r->Err_0 == e,
        },
{
    let parsed = match statements(source) {
        Ok(parsed) => parsed,
        Err(e) => {
            return Err(e);
        },
    };
    proof {
        lemma_parsed_is_well_scoped(
            lex_spec(source@, Seq::empty())->Ok_0.tokens,
            encode_utf8(source@).len() as usize,
            0,
            Tables { names: lex_spec(source@, Seq::empty())->Ok_0.table, pool: empty_pool() },
        );
    }
    let instructions = Optimizer::new(parsed.exprs).optimize();
    let mut scope = Scope::new(instructions, &parsed.consts);
    match scope.exec() {
        Ok(templates) => Ok(templates),
        Err(_) => Err(Error::OptimizerInvariant),
    }
}

/// The instruction stream of the source of a template, with the constants
/// that it refers to.
pub fn instructions(source: &str) -> (r: Result<(Vec<Instruction>, Constants), Error>)
    ensures
        match lex_spec(source@, Seq::empty()) {
            Err(e) => r is Err && r->Err_0 == Error::Lex(e),
            Ok(lexed) => match parse_spec(
                lexed.tokens,
                encode_utf8(source@).len() as usize,
                0,
                Tables { names: lexed.table, pool: empty_pool() },
            ) {
                Err(e) => r is Err && r->Err_0 == Error::Parse(e),
                Ok(program) => r is Ok && r->Ok_0.0@ == optimize_spec(program.exprs)
                    && well_sized(r->Ok_0.0@) && r->Ok_0.1@ == program.tables.pool,
            },
        },
{
    let parsed = match statements(source) {
        Ok(parsed) => parsed,
        Err(e) => {
            return Err(e);
        },
    };
    proof {
        lemma_parsed_is_well_scoped(
            lex_spec(source@, Seq::empty())->Ok_0.tokens,
            encode_utf8(source@).len() as usize,
            0,
            Tables { names: lex_spec(source@, Seq::empty())->Ok_0.table, pool: empty_pool() },
        );
    }
    let instructions = Optimizer::new(parsed.exprs).optimize();
    Ok((instructions, parsed.consts))
}

} // verus!
