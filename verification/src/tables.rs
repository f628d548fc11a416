//! The reference tables: for each kind of entity, idols and roles, the
//! names that go with an id.
//!
//! A table is written as text, one entry per line and the fields of an
//! entry between commas: the id first, then the names. It is read once and
//! never changed afterwards. The ids of idols and the ids of roles have
//! nothing to do with each other.

use crate::text::{
    lemma_split_is_not_empty, lines, lines_of, parse_id, parse_u8, split, split_text, text_views,
};
use std::collections::HashMap;
use vstd::prelude::*;

verus! {

broadcast use vstd::std_specs::hash::group_hash_axioms;

/// What is wrong with a line of a table.
#[derive(Debug, Clone, Copy, PartialEq, Eq, Structural)]
pub enum LineFault {
    /// The first field is not an id.
    InvalidId,
    /// A name is missing: the line has too few fields.
    MissingField,
}

/// Why a table cannot be read: its first faulty line, counted from zero,
/// and what is wrong with it.
#[derive(Debug, Clone, Copy, PartialEq, Eq, Structural)]
pub struct TableError {
    pub line: usize,
    pub fault: LineFault,
}

/// The first fault among the lines as they were read, if there is one.
pub open spec fn first_fault<V>(rows: Seq<Result<(u8, V), LineFault>>) -> Option<TableError>
    decreases rows.len(),
{
    if rows.len() == 0 {
        None
    } else {
        match first_fault(rows.drop_last()) {
            Some(error) => Some(error),
            None => match rows.last() {
                Err(fault) => Some(TableError { line: (rows.len() - 1) as usize, fault }),
                Ok(_) => None,
            },
        }
    }
}

/// The entries that the lines give, where each line gives one. Of two
/// lines with the same id the later one stays.
pub open spec fn entries_of<V>(rows: Seq<Result<(u8, V), LineFault>>) -> Map<u8, V>
    decreases rows.len(),
{
    if rows.len() == 0 {
        Map::empty()
    } else {
        match rows.last() {
            Ok((id, names)) => entries_of(rows.drop_last()).insert(id, names),
            Err(_) => entries_of(rows.drop_last()),
        }
    }
}

/// What the lines make as a table: their entries, or their first fault.
pub open spec fn table_of<V>(rows: Seq<Result<(u8, V), LineFault>>) -> Result<
    Map<u8, V>,
    TableError,
> {
    match first_fault(rows) {
        Some(error) => Err(error),
        None => Ok(entries_of(rows)),
    }
}

/// What was read, as contracts speak of it: the table by its view.
pub open spec fn loaded<T: View>(result: Result<T, TableError>) -> Result<T::V, TableError> {
    match result {
        Ok(table) => Ok(table@),
        Err(error) => Err(error),
    }
}

/// The first fault is at a line that is faulty in that way, and no line
/// before it is faulty. There is none exactly when no line is faulty.
pub proof fn lemma_first_fault<V>(rows: Seq<Result<(u8, V), LineFault>>)
    requires
        rows.len() <= usize::MAX,
    ensures
        match first_fault(rows) {
            Some(error) => {
                &&& error.line < rows.len()
                &&& rows[error.line as int] == Err::<(u8, V), LineFault>(error.fault)
                &&& forall|i: int| 0 <= i < error.line ==> (#[trigger] rows[i]) is Ok
            },
            None => forall|i: int| 0 <= i < rows.len() ==> (#[trigger] rows[i]) is Ok,
        },
    decreases rows.len(),
{
    if rows.len() > 0 {
        lemma_first_fault(rows.drop_last());
        assert(forall|i: int| 0 <= i < rows.len() - 1 ==> rows.drop_last()[i] == rows[i]);
    }
}

/// The names of an idol.
pub struct IdolNames {
    pub full_name: Seq<char>,
    pub personal_name: Seq<char>,
}

/// The entry of an idol: its full name and its personal name.
#[derive(Debug)]
pub struct IdolRecord {
    pub full_name: String,
    pub personal_name: String,
}

impl View for IdolRecord {
    type V = IdolNames;

    open spec fn view(&self) -> IdolNames {
        IdolNames { full_name: self.full_name@, personal_name: self.personal_name@ }
    }
}

/// What a line of the idols table says: an id and two names. Further
/// fields are passed over.
pub open spec fn idol_line(line: Seq<char>) -> Result<(u8, IdolNames), LineFault> {
    let fields = split(line, ',');
    match parse_u8(fields[0]) {
        None => Err(LineFault::InvalidId),
        Some(id) => if fields.len() < 3 {
            Err(LineFault::MissingField)
        } else {
            Ok((id, IdolNames { full_name: fields[1], personal_name: fields[2] }))
        },
    }
}

/// [`idol_line`] as a function on lines.
pub open spec fn reads_idol() -> spec_fn(Seq<char>) -> Result<(u8, IdolNames), LineFault> {
    |line: Seq<char>| idol_line(line)
}

/// What a text makes as a table of idols.
pub open spec fn idol_table(text: Seq<char>) -> Result<Map<u8, IdolNames>, TableError> {
    table_of(lines(text).map_values(reads_idol()))
}

/// The table of idols: for each id, the names of the idol that bears it.
pub struct IdolTable {
    entries: HashMap<u8, IdolRecord>,
}

impl View for IdolTable {
    type V = Map<u8, IdolNames>;

    closed spec fn view(&self) -> Map<u8, IdolNames> {
        self.entries@.map_values(|record: IdolRecord| record@)
    }
}

impl IdolTable {
    /// Reads the table from its text. Fails at the first line that has no
    /// id in front or lacks a name.
    pub fn load(text: &str) -> (result: Result<IdolTable, TableError>)
        ensures
            loaded(result) == idol_table(text@),
    {
        let all = lines_of(text);
        let ghost rows = lines(text@).map_values(reads_idol());
        let mut entries: HashMap<u8, IdolRecord> = HashMap::new();
        let mut i: usize = 0;
        while i < all.len()
            invariant
                i <= all.len(),
                text_views(all@) == lines(text@),
                rows == lines(text@).map_values(reads_idol()),
                first_fault(rows.take(i as int)) is None,
                entries@.map_values(|record: IdolRecord| record@) == entries_of(
                    rows.take(i as int),
                ),
            decreases all.len() - i,
        {
            let fields = split_text(all[i].as_str(), ',');
            proof {
                lemma_split_is_not_empty(all@[i as int]@, ',');
                assert(rows.take(i + 1).drop_last() =~= rows.take(i as int));
            }
            let id = match parse_id(fields[0].as_str()) {
                Some(id) => id,
                None => {
                    proof {
                        lemma_first_fault_found(rows, i as int);
                    }
                    return Err(TableError { line: i, fault: LineFault::InvalidId });
                },
            };
            if fields.len() < 3 {
                proof {
                    lemma_first_fault_found(rows, i as int);
                }
                return Err(TableError { line: i, fault: LineFault::MissingField });
            }
            let record = IdolRecord {
                full_name: fields[1].clone(),
                personal_name: fields[2].clone(),
            };
            entries.insert(id, record);
            i += 1;
        }
        assert(rows.take(all.len() as int) =~= rows);
        Ok(IdolTable { entries })
    }

    /// Whether the table has an entry for `id`.
    pub fn contains(&self, id: u8) -> (found: bool)
        ensures
            found == self@.contains_key(id),
    {
        self.entries.contains_key(&id)
    }

    /// The entry for `id`, if the table has one.
    pub fn get(&self, id: u8) -> (record: Option<&IdolRecord>)
        ensures
            match record {
                Some(record) => self@.contains_key(id) && record@ == self@[id],
                None => !self@.contains_key(id),
            },
    {
        self.entries.get(&id)
    }
}

/// What a line of the roles table says: an id and a name. Further fields
/// are passed over.
pub open spec fn role_line(line: Seq<char>) -> Result<(u8, Seq<char>), LineFault> {
    let fields = split(line, ',');
    match parse_u8(fields[0]) {
        None => Err(LineFault::InvalidId),
        Some(id) => if fields.len() < 2 {
            Err(LineFault::MissingField)
        } else {
            Ok((id, fields[1]))
        },
    }
}

/// [`role_line`] as a function on lines.
pub open spec fn reads_role() -> spec_fn(Seq<char>) -> Result<(u8, Seq<char>), LineFault> {
    |line: Seq<char>| role_line(line)
}

/// What a text makes as a table of roles.
pub open spec fn role_table(text: Seq<char>) -> Result<Map<u8, Seq<char>>, TableError> {
    table_of(lines(text).map_values(reads_role()))
}

/// The table of roles: for each id, the name of the role that bears it.
pub struct RoleTable {
    entries: HashMap<u8, String>,
}

impl View for RoleTable {
    type V = Map<u8, Seq<char>>;

    closed spec fn view(&self) -> Map<u8, Seq<char>> {
        self.entries@.map_values(|name: String| name@)
    }
}

impl RoleTable {
    /// Reads the table from its text. Fails at the first line that has no
    /// id in front or lacks the name.
    pub fn load(text: &str) -> (result: Result<RoleTable, TableError>)
        ensures
            loaded(result) == role_table(text@),
    {
        let all = lines_of(text);
        let ghost rows = lines(text@).map_values(reads_role());
        let mut entries: HashMap<u8, String> = HashMap::new();
        let mut i: usize = 0;
        while i < all.len()
            invariant
                i <= all.len(),
                text_views(all@) == lines(text@),
                rows == lines(text@).map_values(reads_role()),
                first_fault(rows.take(i as int)) is None,
                entries@.map_values(|name: String| name@) == entries_of(rows.take(i as int)),
            decreases all.len() - i,
        {
            let fields = split_text(all[i].as_str(), ',');
            proof {
                lemma_split_is_not_empty(all@[i as int]@, ',');
                assert(rows.take(i + 1).drop_last() =~= rows.take(i as int));
            }
            let id = match parse_id(fields[0].as_str()) {
                Some(id) => id,
                None => {
                    proof {
                        lemma_first_fault_found(rows, i as int);
                    }
                    return Err(TableError { line: i, fault: LineFault::InvalidId });
                },
            };
            if fields.len() < 2 {
                proof {
                    lemma_first_fault_found(rows, i as int);
                }
                return Err(TableError { line: i, fault: LineFault::MissingField });
            }
            let name = fields[1].clone();
            entries.insert(id, name);
            i += 1;
        }
        assert(rows.take(all.len() as int) =~= rows);
        Ok(RoleTable { entries })
    }

    /// Whether the table has an entry for `id`.
    pub fn contains(&self, id: u8) -> (found: bool)
        ensures
            found == self@.contains_key(id),
    {
        self.entries.contains_key(&id)
    }

    /// The name of the role `id`, if the table has one.
    pub fn get(&self, id: u8) -> (name: Option<&String>)
        ensures
            match name {
                Some(name) => self@.contains_key(id) && name@ == self@[id],
                None => !self@.contains_key(id),
            },
    {
        self.entries.get(&id)
    }
}

/// Where no line before `at` is faulty and the line at `at` is, the first
/// fault of all the lines is the one at `at`.
proof fn lemma_first_fault_found<V>(rows: Seq<Result<(u8, V), LineFault>>, at: int)
    requires
        0 <= at < rows.len(),
        first_fault(rows.take(at)) is None,
        rows[at] is Err,
    ensures
        first_fault(rows) == Some(TableError { line: at as usize, fault: rows[at]->Err_0 }),
    decreases rows.len(),
{
    if at < rows.len() - 1 {
        assert(rows.drop_last().take(at) =~= rows.take(at));
        lemma_first_fault_found(rows.drop_last(), at);
    }
}

} // verus!
