//! What a command asks for: which tables a listing shows, and how a
//! result is written.

use vstd::prelude::*;

verus! {

/// The two kinds of entity, each with a reference table of its own.
#[derive(Debug, Clone, Copy, PartialEq, Eq, Structural)]
pub enum Kind {
    Idols,
    Roles,
}

/// One table of a listing, and whether a blank line parts it from the
/// table before it.
#[derive(Debug, Clone, Copy, PartialEq, Eq, Structural)]
pub struct Section {
    pub kind: Kind,
    pub after_blank_line: bool,
}

/// The tables that a listing shows. A listing that asks for neither kind
/// shows both, like one that asks for both; idols come first.
pub open spec fn listing(idols: bool, roles: bool) -> Seq<Section> {
    if idols == roles {
        seq![
            Section { kind: Kind::Idols, after_blank_line: false },
            Section { kind: Kind::Roles, after_blank_line: true },
        ]
    } else if idols {
        seq![Section { kind: Kind::Idols, after_blank_line: false }]
    } else {
        seq![Section { kind: Kind::Roles, after_blank_line: false }]
    }
}

/// The tables to show for a listing that asks for idols, for roles, for
/// both or for neither.
pub fn list_sections(idols: bool, roles: bool) -> (sections: Vec<Section>)
    ensures
        sections@ == listing(idols, roles),
{
    let mut sections: Vec<Section> = Vec::new();
    if idols || !roles {
        sections.push(Section { kind: Kind::Idols, after_blank_line: false });
    }
    if roles || !idols {
        sections.push(Section { kind: Kind::Roles, after_blank_line: idols || !roles });
    }
    sections
}

/// How a result is written.
#[derive(Debug, Clone, Copy, PartialEq, Eq, Structural)]
pub enum Format {
    /// A table, one row to each line.
    Table,
    /// JSON on one line.
    Json,
    /// JSON laid out over several lines.
    JsonPretty,
}

/// The format of a result: a table unless JSON is asked for, and where
/// both forms of JSON are asked for, the one laid out over several lines.
pub fn output_format(json: bool, json_pretty: bool) -> (format: Format)
    ensures
        format == if json_pretty {
            Format::JsonPretty
        } else if json {
            Format::Json
        } else {
            Format::Table
        },
{
    if json_pretty {
        Format::JsonPretty
    } else if json {
        Format::Json
    } else {
        Format::Table
    }
}

} // verus!
