//! Aggregation: from a ranking snapshot and the ids asked for to the rows
//! of the result.
//!
//! The groups of the snapshot are narrowed to the roles asked for, the
//! positions of each remaining group to the idols asked for, and every
//! position that is left becomes one row. Rows keep the order of the
//! snapshot: group by group, and within a group position by position.

use crate::models::{
    arrangement_views, position_views, ranking_views, Arrangement, ArrangementView, PositionView,
    Ranking, RankingView,
};
use vstd::prelude::*;

verus! {

/// Whether a group is scanned: always without a role filter, else when the
/// filter holds the group's id.
pub open spec fn selected(group: RankingView, role_ids: Option<Set<u8>>) -> bool {
    match role_ids {
        Some(ids) => ids.contains(group.id),
        None => true,
    }
}

/// Whether a position is kept: when its idol is among those asked for.
pub open spec fn wanted(position: PositionView, idol_ids: Set<u8>) -> bool {
    idol_ids.contains(position.idol.id)
}

/// The row that a kept position gives under a role of the given name.
pub open spec fn arrangement_of(role_name: Seq<char>, position: PositionView) -> ArrangementView {
    ArrangementView {
        idol_name: position.idol.name,
        role_name,
        score: position.score,
        rank: position.rank,
    }
}

/// [`selected`] as a predicate on groups.
pub open spec fn selects(role_ids: Option<Set<u8>>) -> spec_fn(RankingView) -> bool {
    |group: RankingView| selected(group, role_ids)
}

/// [`wanted`] as a predicate on positions.
pub open spec fn wants(idol_ids: Set<u8>) -> spec_fn(PositionView) -> bool {
    |position: PositionView| wanted(position, idol_ids)
}

/// [`arrangement_of`] as a function on positions.
pub open spec fn arranges(role_name: Seq<char>) -> spec_fn(PositionView) -> ArrangementView {
    |position: PositionView| arrangement_of(role_name, position)
}

/// [`group_rows`] as a function on groups.
pub open spec fn lists(idol_ids: Set<u8>) -> spec_fn(RankingView) -> Seq<ArrangementView> {
    |group: RankingView| group_rows(group, idol_ids)
}

/// The rows of some positions under one role: one row for each kept
/// position, in the order of the positions.
pub open spec fn rows_of(
    role_name: Seq<char>,
    positions: Seq<PositionView>,
    idol_ids: Set<u8>,
) -> Seq<ArrangementView> {
    positions.filter(wants(idol_ids)).map_values(arranges(role_name))
}

/// The rows of one group: those of its positions under its name.
pub open spec fn group_rows(group: RankingView, idol_ids: Set<u8>) -> Seq<ArrangementView> {
    rows_of(group.name, group.positions(), idol_ids)
}

/// The rows of a snapshot: the rows of each scanned group, one group after
/// the other in the order of the snapshot.
pub open spec fn aggregate(
    snapshot: Seq<RankingView>,
    idol_ids: Set<u8>,
    role_ids: Option<Set<u8>>,
) -> Seq<ArrangementView> {
    snapshot.filter(selects(role_ids)).map_values(lists(idol_ids)).flatten()
}

/// The role filter as a set, where there is one.
pub open spec fn role_filter(role_ids: Option<&[u8]>) -> Option<Set<u8>> {
    match role_ids {
        Some(ids) => Some(ids@.to_set()),
        None => None,
    }
}

/// One more position at the end adds its row at the end, if it is kept.
pub proof fn lemma_rows_of_push(
    role_name: Seq<char>,
    positions: Seq<PositionView>,
    last: PositionView,
    idol_ids: Set<u8>,
)
    ensures
        rows_of(role_name, positions.push(last), idol_ids) == if wanted(last, idol_ids) {
            rows_of(role_name, positions, idol_ids).push(arrangement_of(role_name, last))
        } else {
            rows_of(role_name, positions, idol_ids)
        },
{
    positions.lemma_filter_push(last, wants(idol_ids));
}

/// One more group at the end adds its rows at the end, if it is scanned.
pub proof fn lemma_aggregate_push(
    snapshot: Seq<RankingView>,
    last: RankingView,
    idol_ids: Set<u8>,
    role_ids: Option<Set<u8>>,
)
    ensures
        aggregate(snapshot.push(last), idol_ids, role_ids) == if selected(last, role_ids) {
            aggregate(snapshot, idol_ids, role_ids) + group_rows(last, idol_ids)
        } else {
            aggregate(snapshot, idol_ids, role_ids)
        },
{
    let scanned = snapshot.filter(selects(role_ids));
    snapshot.lemma_filter_push(last, selects(role_ids));
    scanned.lemma_push_map_commute(lists(idol_ids), last);
    scanned.map_values(lists(idol_ids)).lemma_flatten_push(group_rows(last, idol_ids));
}

/// Rows keep the order of the positions: the rows of two runs of positions
/// laid end to end are the rows of the first run followed by the rows of
/// the second.
pub proof fn lemma_rows_of_concat(
    role_name: Seq<char>,
    first: Seq<PositionView>,
    second: Seq<PositionView>,
    idol_ids: Set<u8>,
)
    ensures
        rows_of(role_name, first + second, idol_ids) == rows_of(role_name, first, idol_ids)
            + rows_of(role_name, second, idol_ids),
{
}

/// Rows keep the order of the groups: the rows of two snapshots laid end to
/// end are the rows of the first followed by the rows of the second.
pub proof fn lemma_aggregate_concat(
    first: Seq<RankingView>,
    second: Seq<RankingView>,
    idol_ids: Set<u8>,
    role_ids: Option<Set<u8>>,
)
    ensures
        aggregate(first + second, idol_ids, role_ids) == aggregate(first, idol_ids, role_ids)
            + aggregate(second, idol_ids, role_ids),
    decreases second.len(),
{
    if second.len() > 0 {
        let init = second.drop_last();
        let last = second.last();
        assert(second =~= init.push(last));
        lemma_aggregate_concat(first, init, idol_ids, role_ids);
        lemma_aggregate_push(first + init, last, idol_ids, role_ids);
        lemma_aggregate_push(init, last, idol_ids, role_ids);
    }
}

/// Whether position `j` of `positions` is kept and gives `row` under the
/// role name.
pub open spec fn gives_row(
    role_name: Seq<char>,
    positions: Seq<PositionView>,
    idol_ids: Set<u8>,
    row: ArrangementView,
    j: int,
) -> bool {
    &&& 0 <= j < positions.len()
    &&& wanted(positions[j], idol_ids)
    &&& row == arrangement_of(role_name, positions[j])
}

/// Whether group `i` of `snapshot` is scanned and its position `j` is kept
/// and gives `row`.
pub open spec fn is_source(
    snapshot: Seq<RankingView>,
    idol_ids: Set<u8>,
    role_ids: Option<Set<u8>>,
    row: ArrangementView,
    i: int,
    j: int,
) -> bool {
    &&& 0 <= i < snapshot.len()
    &&& selected(snapshot[i], role_ids)
    &&& gives_row(snapshot[i].name, snapshot[i].positions(), idol_ids, row, j)
}

/// The rows of some positions are those that a kept position gives, and no
/// others.
pub proof fn lemma_rows_of_contains(
    role_name: Seq<char>,
    positions: Seq<PositionView>,
    idol_ids: Set<u8>,
    row: ArrangementView,
)
    ensures
        rows_of(role_name, positions, idol_ids).contains(row) <==> exists|j: int|
            gives_row(role_name, positions, idol_ids, row, j),
    decreases positions.len(),
{
    let rows = rows_of(role_name, positions, idol_ids);
    if positions.len() > 0 {
        let init = positions.drop_last();
        let last = positions.last();
        let init_rows = rows_of(role_name, init, idol_ids);
        assert(positions =~= init.push(last));
        lemma_rows_of_push(role_name, init, last, idol_ids);
        lemma_rows_of_contains(role_name, init, idol_ids, row);
        if rows.contains(row) {
            let k = choose|k: int| 0 <= k < rows.len() && rows[k] == row;
            if k < init_rows.len() {
                let j = choose|j: int| gives_row(role_name, init, idol_ids, row, j);
                assert(gives_row(role_name, positions, idol_ids, row, j));
            } else {
                assert(gives_row(role_name, positions, idol_ids, row, positions.len() - 1));
            }
        }
        if exists|j: int| gives_row(role_name, positions, idol_ids, row, j) {
            let j = choose|j: int| gives_row(role_name, positions, idol_ids, row, j);
            if j < init.len() {
                assert(gives_row(role_name, init, idol_ids, row, j));
                let k = choose|k: int| 0 <= k < init_rows.len() && init_rows[k] == row;
                assert(rows[k] == row);
            } else {
                assert(rows[rows.len() - 1] == row);
            }
        }
    }
}

/// Every row comes from the snapshot, and everything asked for is there:
/// the rows of a snapshot are those that a kept position of a scanned group
/// gives, and no others.
pub proof fn lemma_aggregate_contains(
    snapshot: Seq<RankingView>,
    idol_ids: Set<u8>,
    role_ids: Option<Set<u8>>,
    row: ArrangementView,
)
    ensures
        aggregate(snapshot, idol_ids, role_ids).contains(row) <==> exists|i: int, j: int|
            is_source(snapshot, idol_ids, role_ids, row, i, j),
    decreases snapshot.len(),
{
    let rows = aggregate(snapshot, idol_ids, role_ids);
    if snapshot.len() > 0 {
        let init = snapshot.drop_last();
        let last = snapshot.last();
        let init_rows = aggregate(init, idol_ids, role_ids);
        let last_rows = group_rows(last, idol_ids);
        assert(snapshot =~= init.push(last));
        lemma_aggregate_push(init, last, idol_ids, role_ids);
        lemma_aggregate_contains(init, idol_ids, role_ids, row);
        lemma_rows_of_contains(last.name, last.positions(), idol_ids, row);
        if rows.contains(row) {
            let k = choose|k: int| 0 <= k < rows.len() && rows[k] == row;
            if k < init_rows.len() {
                let (i, j) = choose|i: int, j: int|
                    is_source(init, idol_ids, role_ids, row, i, j);
                assert(is_source(snapshot, idol_ids, role_ids, row, i, j));
            } else {
                let j = choose|j: int| gives_row(last.name, last.positions(), idol_ids, row, j);
                assert(is_source(snapshot, idol_ids, role_ids, row, snapshot.len() - 1, j));
            }
        }
        if exists|i: int, j: int| is_source(snapshot, idol_ids, role_ids, row, i, j) {
            let (i, j) = choose|i: int, j: int|
                is_source(snapshot, idol_ids, role_ids, row, i, j);
            if i < init.len() {
                assert(is_source(init, idol_ids, role_ids, row, i, j));
                let k = choose|k: int| 0 <= k < init_rows.len() && init_rows[k] == row;
                assert(rows[k] == row);
            } else {
                let k = choose|k: int| 0 <= k < last_rows.len() && last_rows[k] == row;
                assert(rows[init_rows.len() + k] == row);
            }
        }
    }
}

/// There is no row exactly when no scanned group has a kept position.
pub proof fn lemma_aggregate_empty(
    snapshot: Seq<RankingView>,
    idol_ids: Set<u8>,
    role_ids: Option<Set<u8>>,
)
    ensures
        aggregate(snapshot, idol_ids, role_ids).len() == 0 <==> forall|i: int, j: int|
            0 <= i < snapshot.len() && 0 <= j < snapshot[i].positions().len() && selected(
                snapshot[i],
                role_ids,
            ) ==> !wanted(#[trigger] snapshot[i].positions()[j], idol_ids),
{
    let rows = aggregate(snapshot, idol_ids, role_ids);
    if rows.len() > 0 {
        let row = rows[0];
        lemma_aggregate_contains(snapshot, idol_ids, role_ids, row);
        let (i, j) = choose|i: int, j: int| is_source(snapshot, idol_ids, role_ids, row, i, j);
        assert(wanted(snapshot[i].positions()[j], idol_ids));
    } else {
        assert forall|i: int, j: int|
            0 <= i < snapshot.len() && 0 <= j < snapshot[i].positions().len() && selected(
                snapshot[i],
                role_ids,
            ) implies !wanted(#[trigger] snapshot[i].positions()[j], idol_ids) by {
            if wanted(snapshot[i].positions()[j], idol_ids) {
                let row = arrangement_of(snapshot[i].name, snapshot[i].positions()[j]);
                assert(is_source(snapshot, idol_ids, role_ids, row, i, j));
                lemma_aggregate_contains(snapshot, idol_ids, role_ids, row);
            }
        }
    }
}

/// A role filter that leaves out every group in which an idol asked for
/// has a position leaves no row.
pub proof fn lemma_excluding_filter_gives_no_rows(
    snapshot: Seq<RankingView>,
    idol_ids: Set<u8>,
    role_ids: Set<u8>,
)
    requires
        forall|i: int, j: int|
            0 <= i < snapshot.len() && 0 <= j < snapshot[i].positions().len() && wanted(
                #[trigger] snapshot[i].positions()[j],
                idol_ids,
            ) ==> !role_ids.contains(snapshot[i].id),
    ensures
        aggregate(snapshot, idol_ids, Some(role_ids)).len() == 0,
{
    lemma_aggregate_empty(snapshot, idol_ids, Some(role_ids));
}

/// Without a role filter every group is scanned: the rows are the rows of
/// each group of the snapshot, one group after the other.
pub proof fn lemma_unfiltered_scans_every_group(snapshot: Seq<RankingView>, idol_ids: Set<u8>)
    ensures
        aggregate(snapshot, idol_ids, None) == snapshot.map_values(lists(idol_ids)).flatten(),
        forall|i: int, j: int|
            0 <= i < snapshot.len() && 0 <= j < snapshot[i].positions().len() && wanted(
                #[trigger] snapshot[i].positions()[j],
                idol_ids,
            ) ==> aggregate(snapshot, idol_ids, None).contains(
                arrangement_of(snapshot[i].name, snapshot[i].positions()[j]),
            ),
    decreases snapshot.len(),
{
    if snapshot.len() > 0 {
        let init = snapshot.drop_last();
        let last = snapshot.last();
        assert(snapshot =~= init.push(last));
        lemma_unfiltered_scans_every_group(init, idol_ids);
        lemma_aggregate_push(init, last, idol_ids, None);
        init.lemma_push_map_commute(lists(idol_ids), last);
        init.map_values(lists(idol_ids)).lemma_flatten_push(group_rows(last, idol_ids));
    }
    assert forall|i: int, j: int|
        0 <= i < snapshot.len() && 0 <= j < snapshot[i].positions().len() && wanted(
            #[trigger] snapshot[i].positions()[j],
            idol_ids,
        ) implies aggregate(snapshot, idol_ids, None).contains(
        arrangement_of(snapshot[i].name, snapshot[i].positions()[j]),
    ) by {
        let row = arrangement_of(snapshot[i].name, snapshot[i].positions()[j]);
        assert(is_source(snapshot, idol_ids, None, row, i, j));
        lemma_aggregate_contains(snapshot, idol_ids, None, row);
    }
}

/// Whether `id` occurs in `ids`.
fn contains_id(ids: &[u8], id: u8) -> (found: bool)
    ensures
        found == ids@.to_set().contains(id),
{
    let mut i: usize = 0;
    while i < ids.len()
        invariant
            i <= ids.len(),
            forall|k: int| 0 <= k < i ==> ids@[k] != id,
        decreases ids.len() - i,
    {
        if ids[i] == id {
            return true;
        }
        i += 1;
    }
    false
}

/// Whether `group` is scanned under the role filter `role_ids`.
fn is_selected(group: &Ranking, role_ids: Option<&[u8]>) -> (scan: bool)
    ensures
        scan == selected(group@, role_filter(role_ids)),
{
    match role_ids {
        Some(ids) => contains_id(ids, group.id()),
        None => true,
    }
}

/// Appends the rows of `group` to `rows`.
fn push_group_rows(group: &Ranking, idol_ids: &[u8], rows: &mut Vec<Arrangement>)
    ensures
        arrangement_views(final(rows)@) == arrangement_views(old(rows)@) + group_rows(
            group@,
            idol_ids@.to_set(),
        ),
{
    let positions = group.data();
    let role_name = group.name();
    let ghost wanted_ids = idol_ids@.to_set();
    let ghost all = position_views(positions@);
    let mut j: usize = 0;
    while j < positions.len()
        invariant
            j <= positions.len(),
            wanted_ids == idol_ids@.to_set(),
            all == position_views(positions@),
            all == group@.positions(),
            role_name@ == group@.name,
            arrangement_views(rows@) == arrangement_views(old(rows)@) + rows_of(
                role_name@,
                all.take(j as int),
                wanted_ids,
            ),
        decreases positions.len() - j,
    {
        let position = &positions[j];
        let ghost before = rows@;
        proof {
            all.lemma_take_succ_push(j as int);
            lemma_rows_of_push(role_name@, all.take(j as int), all[j as int], wanted_ids);
        }
        if contains_id(idol_ids, position.idol().id()) {
            let row = Arrangement::new(
                position.idol().name(),
                role_name,
                position.score(),
                position.rank(),
            );
            rows.push(row);
            proof {
                before.lemma_push_map_commute(|a: Arrangement| a@, row);
            }
        }
        j += 1;
    }
    assert(all.take(positions.len() as int) =~= all);
}

/// The rows for the idols `idol_ids` in `snapshot`, under the roles
/// `role_ids` where a role filter is given and under every role where none
/// is.
///
/// Returns `None` where there is no row at all. That is no failure: it
/// says that the snapshot holds nothing of what was asked for.
pub fn get_idol_rank(snapshot: &[Ranking], idol_ids: &[u8], role_ids: Option<&[u8]>) -> (result:
    Option<Vec<Arrangement>>)
    ensures
        match result {
            Some(rows) => rows@.len() > 0 && arrangement_views(rows@) == aggregate(
                ranking_views(snapshot@),
                idol_ids@.to_set(),
                role_filter(role_ids),
            ),
            None => aggregate(
                ranking_views(snapshot@),
                idol_ids@.to_set(),
                role_filter(role_ids),
            ).len() == 0,
        },
{
    let ghost groups = ranking_views(snapshot@);
    let ghost wanted_ids = idol_ids@.to_set();
    let ghost roles = role_filter(role_ids);
    let mut rows: Vec<Arrangement> = Vec::new();
    let mut i: usize = 0;
    while i < snapshot.len()
        invariant
            i <= snapshot.len(),
            groups == ranking_views(snapshot@),
            wanted_ids == idol_ids@.to_set(),
            roles == role_filter(role_ids),
            arrangement_views(rows@) == aggregate(groups.take(i as int), wanted_ids, roles),
        decreases snapshot.len() - i,
    {
        let group = &snapshot[i];
        proof {
            groups.lemma_take_succ_push(i as int);
            lemma_aggregate_push(groups.take(i as int), groups[i as int], wanted_ids, roles);
        }
        if is_selected(group, role_ids) {
            push_group_rows(group, idol_ids, &mut rows);
        }
        i += 1;
    }
    assert(groups.take(snapshot.len() as int) =~= groups);
    if rows.is_empty() {
        None
    } else {
        Some(rows)
    }
}

} // verus!
