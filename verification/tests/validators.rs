use surreal_value::errors::SubqueryError;
use surreal_value::grammar;

#[test]
fn validate_accepts_statements() {
    assert!(grammar::validate("SELECT * FROM person;").is_ok());
    assert!(grammar::validate("CREATE person SET name = 'x';").is_ok());
}

#[test]
fn validate_rejects_garbage() {
    assert!(grammar::validate("!!! not a query !!!").is_err());
}

#[test]
fn format_statements() {
    let out = grammar::format("SELECT * FROM person;", false).unwrap();
    assert!(out.contains("SELECT"));
    assert!(out.contains("person"));
    assert!(grammar::format("!!!", false).is_err());
}

#[test]
fn validate_where_clause() {
    assert!(grammar::validate_where("age > 18").is_ok());
    assert!(grammar::validate_where("age >").is_err());
}

#[test]
fn validate_value_literal() {
    assert!(grammar::validate_value("{ test: true }").is_ok());
    assert!(grammar::validate_value("{").is_err());
}

#[test]
fn validate_thing_literal() {
    assert!(grammar::validate_thing("person:one").is_ok());
    assert!(grammar::validate_thing("not a thing").is_err());
}

#[test]
fn validate_idiom_expression() {
    assert!(grammar::validate_idiom("person.name").is_ok());
    assert!(grammar::validate_idiom("][").is_err());
}

#[test]
fn validate_subquery_accepts_select() {
    assert!(grammar::validate_subquery("SELECT * FROM person").is_ok());
}

#[test]
fn validate_subquery_rejects_other_categories() {
    // Wrapped, this parses as an arithmetic expression between two
    // parenthesized operands, not as one sub-expression node.
    assert!(matches!(
        grammar::validate_subquery("1) + (2"),
        Err(SubqueryError::Mismatch)
    ));
}

#[test]
fn validate_subquery_rejects_unparsable() {
    assert!(matches!(
        grammar::validate_subquery("SELECT FROM WHERE ((("),
        Err(SubqueryError::Parse(_))
    ));
}
