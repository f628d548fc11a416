//! Resolution: from what a user wrote, an id or a name, to the id of an
//! entry of a reference table.
//!
//! A token that reads as a number is taken as an id and nothing else: it
//! resolves when the table has that id, and is never looked up as a name.
//! Any other token is looked up as a name, letter for letter. Where
//! several entries bear the name, the one with the lowest id is taken.
//!
//! A query names its idols and may name roles. Every idol token has to
//! resolve, or there is no query. A role token that does not resolve is
//! left out, and the query goes on with the roles that remain.

use crate::tables::{IdolNames, IdolTable, RoleTable};
use crate::text::{decimal_text, lemma_parse_decimal_text, parse_id, parse_u8};
use vstd::prelude::*;

verus! {

/// Whether `id` is in `ids` and no lower id is.
pub open spec fn is_lowest(ids: Set<u8>, id: u8) -> bool {
    &&& ids.contains(id)
    &&& forall|lower: u8| lower < id ==> !ids.contains(lower)
}

/// The lowest of some ids, if there is any.
pub open spec fn lowest(ids: Set<u8>) -> Option<u8> {
    if exists|id: u8| ids.contains(id) {
        Some(choose|id: u8| is_lowest(ids, id))
    } else {
        None
    }
}

/// `lowest` is what its name says: it gives the one id that is in the set
/// while no lower one is, and gives none exactly when the set has no id.
pub proof fn lemma_lowest(ids: Set<u8>)
    ensures
        match lowest(ids) {
            Some(id) => is_lowest(ids, id),
            None => forall|id: u8| !ids.contains(id),
        },
        forall|id: u8| is_lowest(ids, id) ==> lowest(ids) == Some(id),
{
    if exists|id: u8| ids.contains(id) {
        let witness = choose|id: u8| ids.contains(id);
        lemma_some_id_is_lowest(ids, witness);
    }
}

/// A set that holds an id holds a lowest one.
proof fn lemma_some_id_is_lowest(ids: Set<u8>, id: u8)
    requires
        ids.contains(id),
    ensures
        exists|least: u8| is_lowest(ids, least),
    decreases id,
{
    if exists|lower: u8| lower < id && ids.contains(lower) {
        let lower = choose|lower: u8| lower < id && ids.contains(lower);
        lemma_some_id_is_lowest(ids, lower);
    } else {
        assert(is_lowest(ids, id));
    }
}

/// Whether an idol of these names answers to `name`: when it is the full
/// name or the personal name, letter for letter.
pub open spec fn idol_answers_to(names: IdolNames, name: Seq<char>) -> bool {
    names.full_name == name || names.personal_name == name
}

/// The ids of the idols that answer to `name`.
pub open spec fn idols_named(idols: Map<u8, IdolNames>, name: Seq<char>) -> Set<u8> {
    Set::new(|id: u8| idols.contains_key(id) && idol_answers_to(idols[id], name))
}

/// The ids of the roles that bear `name`, letter for letter.
pub open spec fn roles_named(roles: Map<u8, Seq<char>>, name: Seq<char>) -> Set<u8> {
    Set::new(|id: u8| roles.contains_key(id) && roles[id] == name)
}

/// The id of the idol that `token` stands for, if it stands for one.
pub open spec fn resolve_idol(idols: Map<u8, IdolNames>, token: Seq<char>) -> Option<u8> {
    match parse_u8(token) {
        Some(id) => if idols.contains_key(id) {
            Some(id)
        } else {
            None
        },
        None => lowest(idols_named(idols, token)),
    }
}

/// The id of the role that `token` stands for, if it stands for one.
pub open spec fn resolve_role(roles: Map<u8, Seq<char>>, token: Seq<char>) -> Option<u8> {
    match parse_u8(token) {
        Some(id) => if roles.contains_key(id) {
            Some(id)
        } else {
            None
        },
        None => lowest(roles_named(roles, token)),
    }
}

/// An id that the table of idols has, written as a number, resolves to
/// itself.
pub proof fn lemma_present_idol_id_resolves(idols: Map<u8, IdolNames>, id: u8)
    requires
        idols.contains_key(id),
    ensures
        resolve_idol(idols, decimal_text(id as nat)) == Some(id),
{
    lemma_parse_decimal_text(id);
}

/// An id that the table of roles has, written as a number, resolves to
/// itself.
pub proof fn lemma_present_role_id_resolves(roles: Map<u8, Seq<char>>, id: u8)
    requires
        roles.contains_key(id),
    ensures
        resolve_role(roles, decimal_text(id as nat)) == Some(id),
{
    lemma_parse_decimal_text(id);
}

/// An id that the table of idols lacks, written as a number, does not
/// resolve, whatever the names in the table are.
pub proof fn lemma_absent_idol_id_fails(idols: Map<u8, IdolNames>, id: u8)
    requires
        !idols.contains_key(id),
    ensures
        resolve_idol(idols, decimal_text(id as nat)) is None,
{
    lemma_parse_decimal_text(id);
}

/// An id that the table of roles lacks, written as a number, does not
/// resolve, whatever the names in the table are.
pub proof fn lemma_absent_role_id_fails(roles: Map<u8, Seq<char>>, id: u8)
    requires
        !roles.contains_key(id),
    ensures
        resolve_role(roles, decimal_text(id as nat)) is None,
{
    lemma_parse_decimal_text(id);
}

/// A name of an idol, full or personal, resolves to an idol that answers
/// to it, as long as the name does not read as a number: to the idol
/// itself where no idol with a lower id answers to the name too, and else
/// to the lowest of those.
pub proof fn lemma_idol_name_resolves(idols: Map<u8, IdolNames>, id: u8, name: Seq<char>)
    requires
        idols.contains_key(id),
        idol_answers_to(idols[id], name),
        parse_u8(name) is None,
    ensures
        resolve_idol(idols, name) matches Some(found) && found <= id && idols.contains_key(found)
            && idol_answers_to(idols[found], name),
        (forall|lower: u8|
            lower < id && idols.contains_key(lower) ==> !idol_answers_to(
                #[trigger] idols[lower],
                name,
            )) ==> resolve_idol(idols, name) == Some(id),
{
    let hits = idols_named(idols, name);
    assert(hits.contains(id));
    lemma_lowest(hits);
}

/// The name of a role resolves to a role that bears it, as long as the
/// name does not read as a number: to the role itself where no role with a
/// lower id bears the name too, and else to the lowest of those.
pub proof fn lemma_role_name_resolves(roles: Map<u8, Seq<char>>, id: u8)
    requires
        roles.contains_key(id),
        parse_u8(roles[id]) is None,
    ensures
        resolve_role(roles, roles[id]) matches Some(found) && found <= id && roles.contains_key(
            found,
        ) && roles[found] == roles[id],
        (forall|lower: u8|
            lower < id && roles.contains_key(lower) ==> #[trigger] roles[lower] != roles[id])
            ==> resolve_role(roles, roles[id]) == Some(id),
{
    let hits = roles_named(roles, roles[id]);
    assert(hits.contains(id));
    lemma_lowest(hits);
}

/// A token resolves to an idol exactly when it reads as an id that the
/// table has or, not reading as a number, is a name of some idol. So a
/// token that is neither does not resolve.
pub proof fn lemma_idol_resolves_iff(idols: Map<u8, IdolNames>, token: Seq<char>)
    ensures
        resolve_idol(idols, token) is Some <==> match parse_u8(token) {
            Some(id) => idols.contains_key(id),
            None => exists|id: u8|
                idols.contains_key(id) && idol_answers_to(#[trigger] idols[id], token),
        },
{
    let hits = idols_named(idols, token);
    if parse_u8(token) is None {
        if exists|id: u8| idols.contains_key(id) && idol_answers_to(#[trigger] idols[id], token) {
            let id = choose|id: u8|
                idols.contains_key(id) && idol_answers_to(#[trigger] idols[id], token);
            assert(hits.contains(id));
        }
    }
}

/// A token resolves to a role exactly when it reads as an id that the
/// table has or, not reading as a number, is the name of some role. So a
/// token that is neither does not resolve.
pub proof fn lemma_role_resolves_iff(roles: Map<u8, Seq<char>>, token: Seq<char>)
    ensures
        resolve_role(roles, token) is Some <==> match parse_u8(token) {
            Some(id) => roles.contains_key(id),
            None => exists|id: u8| roles.contains_key(id) && #[trigger] roles[id] == token,
        },
{
    let hits = roles_named(roles, token);
    if parse_u8(token) is None {
        if exists|id: u8| roles.contains_key(id) && #[trigger] roles[id] == token {
            let id = choose|id: u8| roles.contains_key(id) && #[trigger] roles[id] == token;
            assert(hits.contains(id));
        }
    }
}

/// A token that is neither an id that the table of idols has nor a name
/// of an idol in it does not resolve.
pub proof fn lemma_unknown_idol_token_fails(idols: Map<u8, IdolNames>, token: Seq<char>)
    requires
        parse_u8(token) matches Some(id) ==> !idols.contains_key(id),
        forall|id: u8| idols.contains_key(id) ==> !idol_answers_to(#[trigger] idols[id], token),
    ensures
        resolve_idol(idols, token) is None,
{
    lemma_idol_resolves_iff(idols, token);
}

/// A token that is neither an id that the table of roles has nor the name
/// of a role in it does not resolve.
pub proof fn lemma_unknown_role_token_fails(roles: Map<u8, Seq<char>>, token: Seq<char>)
    requires
        parse_u8(token) matches Some(id) ==> !roles.contains_key(id),
        forall|id: u8| roles.contains_key(id) ==> #[trigger] roles[id] != token,
    ensures
        resolve_role(roles, token) is None,
{
    lemma_role_resolves_iff(roles, token);
}

/// Resolves an id or a name to the id of an idol.
pub fn get_idol_id(idols: &IdolTable, id_or_name: &str) -> (found: Option<u8>)
    ensures
        found == resolve_idol(idols@, id_or_name@),
{
    match parse_id(id_or_name) {
        Some(id) => {
            if idols.contains(id) {
                Some(id)
            } else {
                None
            }
        },
        None => {
            let name = id_or_name.to_owned();
            let ghost hits = idols_named(idols@, id_or_name@);
            let mut id: u8 = 0;
            loop
                invariant
                    parse_u8(id_or_name@) is None,
                    name@ == id_or_name@,
                    hits == idols_named(idols@, id_or_name@),
                    forall|lower: u8| lower < id ==> !hits.contains(lower),
                decreases u8::MAX - id,
            {
                if let Some(record) = idols.get(id) {
                    if record.full_name == name || record.personal_name == name {
                        assert(is_lowest(hits, id));
                        return Some(id);
                    }
                }
                if id == u8::MAX {
                    assert(forall|any: u8| any <= id ==> !hits.contains(any));
                    return None;
                }
                id += 1;
            }
        },
    }
}

/// Resolves an id or a name to the id of a role.
pub fn get_role_id(roles: &RoleTable, id_or_name: &str) -> (found: Option<u8>)
    ensures
        found == resolve_role(roles@, id_or_name@),
{
    match parse_id(id_or_name) {
        Some(id) => {
            if roles.contains(id) {
                Some(id)
            } else {
                None
            }
        },
        None => {
            let name = id_or_name.to_owned();
            let ghost hits = roles_named(roles@, id_or_name@);
            let mut id: u8 = 0;
            loop
                invariant
                    parse_u8(id_or_name@) is None,
                    name@ == id_or_name@,
                    hits == roles_named(roles@, id_or_name@),
                    forall|lower: u8| lower < id ==> !hits.contains(lower),
                decreases u8::MAX - id,
            {
                if let Some(role_name) = roles.get(id) {
                    if *role_name == name {
                        assert(is_lowest(hits, id));
                        return Some(id);
                    }
                }
                if id == u8::MAX {
                    assert(forall|any: u8| any <= id ==> !hits.contains(any));
                    return None;
                }
                id += 1;
            }
        },
    }
}

/// The idol token that does not resolve: its place among the tokens,
/// counted from zero.
#[derive(Debug, Clone, Copy, PartialEq, Eq, Structural)]
pub struct UnknownIdol {
    pub index: usize,
}

/// What each of some tokens holds, in the same order.
pub open spec fn token_views(tokens: Seq<&str>) -> Seq<Seq<char>> {
    tokens.map_values(|token: &str| token@)
}

/// [`resolve_role`] as a function on tokens.
pub open spec fn resolves_role(roles: Map<u8, Seq<char>>) -> spec_fn(Seq<char>) -> Option<u8> {
    |token: Seq<char>| resolve_role(roles, token)
}

/// Resolves the idol tokens of a query, each to its id and in their order.
/// Fails at the first token that does not resolve.
pub fn get_idol_ids(idols: &IdolTable, tokens: &[&str]) -> (result: Result<Vec<u8>, UnknownIdol>)
    ensures
        match result {
            Ok(ids) => {
                &&& ids@.len() == tokens@.len()
                &&& forall|i: int|
                    0 <= i < tokens@.len() ==> resolve_idol(idols@, tokens@[i]@) == Some(
                        #[trigger] ids@[i],
                    )
            },
            Err(unknown) => {
                &&& unknown.index < tokens@.len()
                &&& resolve_idol(idols@, tokens@[unknown.index as int]@) is None
                &&& forall|i: int|
                    0 <= i < unknown.index ==> resolve_idol(idols@, (#[trigger] tokens@[i])@)
                        is Some
            },
        },
{
    let mut ids: Vec<u8> = Vec::new();
    let mut i: usize = 0;
    while i < tokens.len()
        invariant
            i <= tokens.len(),
            ids@.len() == i,
            forall|k: int|
                #![trigger ids@[k]]
                #![trigger tokens@[k]]
                0 <= k < i ==> resolve_idol(idols@, tokens@[k]@) == Some(ids@[k]),
        decreases tokens.len() - i,
    {
        match get_idol_id(idols, tokens[i]) {
            Some(id) => {
                ids.push(id);
            },
            None => {
                return Err(UnknownIdol { index: i });
            },
        }
        i += 1;
    }
    Ok(ids)
}

/// Resolves the role tokens of a query: the ids of those that resolve, in
/// their order.
pub fn get_role_ids(roles: &RoleTable, tokens: &[&str]) -> (ids: Vec<u8>)
    ensures
        ids@ == token_views(tokens@).filter_map(resolves_role(roles@)),
{
    let ghost all = token_views(tokens@);
    let mut ids: Vec<u8> = Vec::new();
    let mut i: usize = 0;
    while i < tokens.len()
        invariant
            i <= tokens.len(),
            all == token_views(tokens@),
            ids@ == all.take(i as int).filter_map(resolves_role(roles@)),
        decreases tokens.len() - i,
    {
        proof {
            all.lemma_filter_map_take_succ(resolves_role(roles@), i as int);
        }
        if let Some(id) = get_role_id(roles, tokens[i]) {
            ids.push(id);
        }
        i += 1;
    }
    assert(all.take(tokens.len() as int) =~= all);
    ids
}

} // verus!
