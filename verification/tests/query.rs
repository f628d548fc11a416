use tcrank::aggregate::get_idol_rank;
use tcrank::models::{Idol, Position, Ranking};
use tcrank::resolve::{get_idol_ids, get_role_ids};
use tcrank::tables::{IdolTable, RoleTable};

fn snapshot() -> Vec<Ranking> {
    vec![Ranking::new(
        23,
        "Magician",
        vec![vec![Position::new(Idol::new(21, "Tokugawa Matsuri"), 10857, 1)]],
    )
    .expect("one inner sequence")]
}

#[test]
fn names_lead_to_the_row() {
    let idols = IdolTable::load("21,Tokugawa Matsuri,Matsuri\n").expect("a table");
    let roles = RoleTable::load("23,Magician\n").expect("a table");
    let idol_ids = get_idol_ids(&idols, &["Matsuri"]).expect("known idols");
    let role_ids = get_role_ids(&roles, &["Magician"]);
    assert_eq!(idol_ids, vec![21]);
    assert_eq!(role_ids, vec![23]);
    let rows = get_idol_rank(&snapshot(), &idol_ids, Some(&role_ids)).expect("some rows");
    assert_eq!(rows.len(), 1);
    assert_eq!(rows[0].idol_name, "Tokugawa Matsuri");
    assert_eq!(rows[0].role_name, "Magician");
    assert_eq!(rows[0].score, 10857);
    assert_eq!(rows[0].rank, 1);
}

#[test]
fn role_tokens_that_all_fail_leave_no_data() {
    let idols = IdolTable::load("21,Tokugawa Matsuri,Matsuri\n").expect("a table");
    let roles = RoleTable::load("23,Magician\n").expect("a table");
    let idol_ids = get_idol_ids(&idols, &["21"]).expect("known idols");
    let role_ids = get_role_ids(&roles, &["Sorcerer"]);
    assert!(role_ids.is_empty());
    assert!(get_idol_rank(&snapshot(), &idol_ids, Some(&role_ids)).is_none());
    assert!(get_idol_rank(&snapshot(), &idol_ids, None).is_some());
}
