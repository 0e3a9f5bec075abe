//! The boundary to the external grammar engine, and the fragment
//! validators built on it. The engine owns the query-language grammar;
//! this module consumes it through narrow, trusted entry points whose
//! outcomes are named spec functions, and keeps every decision around
//! those calls (template wrapping, error mapping, the sub-expression
//! category check) in verified code.

use vstd::prelude::*;
use crate::errors::{ParseError, SubqueryError};

verus! {

/// What the grammar engine decides about a full statement list: `None`
/// when the text does not parse, `Some(t)` when it does, where `t` is the
/// engine's canonical rendering of the parsed statements. The outcome is
/// a function of the text alone.
pub uninterp spec fn query_outcome(s: Seq<char>) -> Option<Seq<char>>;

/// What the grammar engine decides about a single value literal: `None`
/// when the text does not parse, `Some(b)` when it does, where `b` says
/// whether the parsed node is specifically a sub-query expression.
pub uninterp spec fn value_outcome(s: Seq<char>) -> Option<bool>;

/// Whether the grammar engine accepts the text as a record identifier.
pub uninterp spec fn thing_parses(s: Seq<char>) -> bool;

/// Whether the grammar engine accepts the text as a path (idiom)
/// expression.
pub uninterp spec fn idiom_parses(s: Seq<char>) -> bool;

/// Relies on surrealdb_core::syn::parse, and on the parsed Query's
/// Display rendering: both are functions of the input text alone.
#[verifier::external_body]
fn syn_parse(text: &str) -> (r: Result<String, String>)
    ensures
        r is Ok <==> query_outcome(text@) is Some,
        r matches Ok(t) ==> query_outcome(text@) == Some(t@),
{
    match surrealdb_core::syn::parse(text) {
        Ok(q) => Ok(q.to_string()),
        Err(e) => Err(e.to_string()),
    }
}

/// Relies on surrealdb_core::syn::value: deterministic in the input
/// text; the boolean tells the parsed node's sub-query variant apart
/// from every other variant.
#[verifier::external_body]
fn syn_value_outcome(text: &str) -> (r: Result<bool, String>)
    ensures
        r is Ok <==> value_outcome(text@) is Some,
        r matches Ok(b) ==> value_outcome(text@) == Some(b),
{
    match surrealdb_core::syn::value(text) {
        Ok(surrealdb_core::sql::Value::Subquery(_)) => Ok(true),
        Ok(_) => Ok(false),
        Err(e) => Err(e.to_string()),
    }
}

/// Relies on surrealdb_core::syn::thing: deterministic in the input
/// text.
#[verifier::external_body]
fn syn_thing(text: &str) -> (r: Result<(), String>)
    ensures
        r is Ok <==> thing_parses(text@),
{
    match surrealdb_core::syn::thing(text) {
        Ok(_) => Ok(()),
        Err(e) => Err(e.to_string()),
    }
}

/// Relies on surrealdb_core::syn::idiom: deterministic in the input
/// text.
#[verifier::external_body]
fn syn_idiom(text: &str) -> (r: Result<(), String>)
    ensures
        r is Ok <==> idiom_parses(text@),
{
    match surrealdb_core::syn::idiom(text) {
        Ok(_) => Ok(()),
        Err(e) => Err(e.to_string()),
    }
}

/// Validate a full statement list: succeeds exactly when the grammar
/// engine parses the text.
pub fn validate(sql: &str) -> (r: Result<(), ParseError>)
    ensures
        r is Ok <==> query_outcome(sql@) is Some,
{
    match syn_parse(sql) {
        Ok(_) => Ok(()),
        Err(m) => Err(ParseError { message: m }),
    }
}

/// Parse a statement list and render it back. The engine renders one
/// canonical form; the pretty flag selects no alternative rendering.
pub fn format(sql: &str, pretty: bool) -> (r: Result<String, ParseError>)
    ensures
        r is Ok <==> query_outcome(sql@) is Some,
        r matches Ok(t) ==> query_outcome(sql@) == Some(t@),
{
    let _ = pretty;
    match syn_parse(sql) {
        Ok(t) => Ok(t),
        Err(m) => Err(ParseError { message: m }),
    }
}

/// Validate a bare filter condition by wrapping it in a minimal
/// well-formed statement template and parsing that: succeeds exactly
/// when the wrapped statement parses.
pub fn validate_where(cond: &str) -> (r: Result<(), ParseError>)
    ensures
        r is Ok <==> query_outcome("SELECT * FROM x WHERE "@ + cond@) is Some,
{
    let mut wrapped = String::from_str("SELECT * FROM x WHERE ");
    wrapped.append(cond);
    match syn_parse(wrapped.as_str()) {
        Ok(_) => Ok(()),
        Err(m) => Err(ParseError { message: m }),
    }
}

/// Validate a single value literal: succeeds exactly when the grammar
/// engine parses the text as one value.
pub fn validate_value(text: &str) -> (r: Result<(), ParseError>)
    ensures
        r is Ok <==> value_outcome(text@) is Some,
{
    match syn_value_outcome(text) {
        Ok(_) => Ok(()),
        Err(m) => Err(ParseError { message: m }),
    }
}

/// Validate a record identifier literal: succeeds exactly when the
/// grammar engine parses the text as a record identifier.
pub fn validate_thing(text: &str) -> (r: Result<(), ParseError>)
    ensures
        r is Ok <==> thing_parses(text@),
{
    match syn_thing(text) {
        Ok(_) => Ok(()),
        Err(m) => Err(ParseError { message: m }),
    }
}

/// Validate a path (idiom) expression: succeeds exactly when the grammar
/// engine parses the text as one.
pub fn validate_idiom(text: &str) -> (r: Result<(), ParseError>)
    ensures
        r is Ok <==> idiom_parses(text@),
{
    match syn_idiom(text) {
        Ok(_) => Ok(()),
        Err(m) => Err(ParseError { message: m }),
    }
}

/// Validate a parenthesized sub-expression: the text is wrapped in
/// parentheses and parsed as a value; success additionally requires the
/// parsed node to be a sub-query. A syntactically valid result of any
/// other category is a mismatch, not a parse success.
pub fn validate_subquery(text: &str) -> (r: Result<(), SubqueryError>)
    ensures
        r is Ok <==> value_outcome("("@ + text@ + ")"@) == Some(true),
        r matches Err(SubqueryError::Parse(_)) <==> value_outcome("("@ + text@ + ")"@) is None,
        r matches Err(SubqueryError::Mismatch) <==> value_outcome("("@ + text@ + ")"@) == Some(
            false,
        ),
{
    let mut wrapped = String::from_str("(");
    wrapped.append(text);
    wrapped.append(")");
    match syn_value_outcome(wrapped.as_str()) {
        Ok(true) => Ok(()),
        Ok(false) => Err(SubqueryError::Mismatch),
        Err(m) => Err(SubqueryError::Parse(ParseError { message: m })),
    }
}

} // verus!
