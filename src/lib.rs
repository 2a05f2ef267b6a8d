//! A small compiler from component declarations with embedded markup to
//! JSX-flavoured functions.

pub mod text;
pub mod token;
pub mod lexer;
pub mod ast;
pub mod codegen;
pub mod parser;
pub mod component;
pub mod round_trip;

use vstd::prelude::*;
pub use crate::ast::{Attr, AttrValue, Document, Node};
pub use crate::token::{Span, Token, TokenKind};
pub use crate::codegen::init;
pub use crate::lexer::LexError;
pub use crate::parser::{ParseError, ParseErrorView, parse};
pub use crate::lexer::lex;
pub use crate::codegen::to_tsx;
use crate::codegen::render_nodes_spec;
use crate::component::{
    envelope_spec, extract_markup, markup_spec, parse_component, render_component,
    render_component_spec,
};
use crate::lexer::{lemma_lex_from_ends_with_eof, lex_spec};
use crate::parser::parse_spec;
use crate::text::{chars_of, lemma_byte_len_is_utf8_len, lemma_byte_len_subrange, string_of};

verus! {

/// Why a declaration did not compile.
#[derive(Debug, Clone, PartialEq)]
pub enum CompileError {
    /// The envelope around the markup is malformed.
    Component(String),
    Lex(LexError),
    Parse(ParseError),
}

/// A compile error with its text seen as characters.
pub enum CompileErrorView {
    Component(Seq<char>),
    Lex(LexError),
    Parse(ParseErrorView),
}

impl View for CompileError {
    type V = CompileErrorView;

    open spec fn view(&self) -> CompileErrorView {
        match self {
            CompileError::Component(m) => CompileErrorView::Component(m@),
            CompileError::Lex(e) => CompileErrorView::Lex(*e),
            CompileError::Parse(e) => CompileErrorView::Parse(e@),
        }
    }
}

/// What compiling the declaration `src` gives: the envelope is taken
/// apart, its markup lexed, parsed and printed, and the function around it
/// assembled.
pub open spec fn compile_spec(src: Seq<char>) -> Result<Seq<char>, CompileErrorView> {
    match envelope_spec(src) {
        Err(m) => Err(CompileErrorView::Component(m)),
        Ok(env) => match markup_spec(env.body) {
            Err(m) => Err(CompileErrorView::Component(m)),
            Ok(markup) => match lex_spec(markup) {
                Err(e) => Err(CompileErrorView::Lex(e)),
                Ok(ts) => match parse_spec(ts, markup) {
                    Err(e) => Err(CompileErrorView::Parse(e)),
                    Ok(doc) => Ok(
                        render_component_spec(env.name, env.params, render_nodes_spec(doc)),
                    ),
                },
            },
        },
    }
}

/// The view of a compiler result.
pub open spec fn compiled(r: Result<String, CompileError>) -> Result<Seq<char>, CompileErrorView> {
    match r {
        Ok(s) => Ok(s@),
        Err(e) => Err(e@),
    }
}

/// Compiles a component declaration into a JSX-flavoured function.
pub fn compile_component(src: &str) -> (r: Result<String, CompileError>)
    ensures
        compiled(r) == compile_spec(src@),
{
    broadcast use vstd::slice::axiom_spec_len;

    let chars = chars_of(src);
    let n = src.as_bytes().len();
    let component = match parse_component(&chars) {
        Ok(c) => c,
        Err(e) => {
            return Err(e);
        },
    };
    let (a, b) = match extract_markup(&chars, component.body_lo, component.body_hi) {
        Ok(m) => m,
        Err(e) => {
            return Err(e);
        },
    };
    let markup = string_of(&chars, a, b);
    proof {
        lemma_byte_len_subrange(chars@, a as int, b as int);
        lemma_byte_len_is_utf8_len(markup@);
        lemma_byte_len_is_utf8_len(src@);
    }
    let tokens = match lex(markup.as_str()) {
        Ok(t) => t,
        Err(e) => {
            return Err(CompileError::Lex(e));
        },
    };
    proof {
        lemma_lex_from_ends_with_eof(markup@, 0, false);
    }
    let doc = match parse(tokens.as_slice(), markup.as_str()) {
        Ok(d) => d,
        Err(e) => {
            return Err(CompileError::Parse(e));
        },
    };
    let tsx = to_tsx(&doc);
    Ok(render_component(component.name.as_str(), &component.params, tsx.as_str()))
}

/// The library's version.
pub fn version() -> (r: &'static str)
    ensures
        r@ == "0.1.0"@,
{
    "0.1.0"
}

} // verus!
