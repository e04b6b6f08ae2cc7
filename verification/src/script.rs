//! The migration script: the statements of a comparison, headed by the
//! statement that selects the target schema.

use vstd::prelude::*;

verus! {

/// The statement that selects a schema.
pub open spec fn use_text(schema: Seq<char>) -> Seq<char> {
    "USE "@ + schema + ";"@
}

/// The lines of the script: nothing where there is nothing to do, else the
/// statement that selects the schema and then the statements in their order.
pub open spec fn script_lines(schema: Seq<char>, statements: Seq<Seq<char>>) -> Seq<Seq<char>> {
    if statements.len() == 0 {
        Seq::empty()
    } else {
        seq![use_text(schema)] + statements
    }
}

/// Puts the statement that selects the target schema before the statements
/// of a comparison. Where the comparison found nothing to do, the script is
/// empty.
pub fn script(target_schema: &str, ddl_statements: Vec<String>) -> (lines: Vec<String>)
    ensures
        lines.deep_view() == script_lines(target_schema@, ddl_statements.deep_view()),
{
    let mut lines: Vec<String> = Vec::new();
    if ddl_statements.len() > 0 {
        let mut head = String::from_str("USE ");
        head.append(target_schema);
        head.append(";");
        lines.push(head);
        let mut rest = ddl_statements;
        let ghost texts = rest.deep_view();
        lines.append(&mut rest);
        assert(lines.deep_view() =~= seq![use_text(target_schema@)] + texts);
    } else {
        assert(lines.deep_view() =~= Seq::<Seq<char>>::empty());
    }
    lines
}

} // verus!
