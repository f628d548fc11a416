use tcrank::aggregate::get_idol_rank;
use tcrank::models::{Arrangement, Idol, Position, Ranking};

fn position(idol_id: u8, idol_name: &str, score: u64, rank: u8) -> Position {
    Position::new(Idol::new(idol_id, idol_name), score, rank)
}

fn group(id: u8, name: &str, positions: Vec<Position>) -> Ranking {
    Ranking::new(id, name, vec![positions]).expect("one inner sequence")
}

fn magician() -> Ranking {
    group(23, "Magician", vec![position(21, "Tokugawa Matsuri", 10857, 1)])
}

fn election() -> Vec<Ranking> {
    vec![
        group(
            3,
            "Girl",
            vec![
                position(7, "Mogami Shizuka", 900, 1),
                position(21, "Tokugawa Matsuri", 80, 9),
                position(30, "Hakozaki Serika", 75, 10),
            ],
        ),
        group(
            23,
            "Magician",
            vec![
                position(21, "Tokugawa Matsuri", 10857, 1),
                position(30, "Hakozaki Serika", 5000, 2),
                position(7, "Mogami Shizuka", 12, 40),
            ],
        ),
        group(40, "Final Day", vec![position(21, "Tokugawa Matsuri", 36, 7)]),
    ]
}

fn fields(row: &Arrangement) -> (String, String, u64, u8) {
    (row.idol_name.clone(), row.role_name.clone(), row.score, row.rank)
}

fn row(idol_name: &str, role_name: &str, score: u64, rank: u8) -> (String, String, u64, u8) {
    (idol_name.to_string(), role_name.to_string(), score, rank)
}

fn rows_of(result: Option<Vec<Arrangement>>) -> Vec<(String, String, u64, u8)> {
    result.expect("some rows").iter().map(fields).collect()
}

#[test]
fn idol_under_its_role_gives_one_row() {
    let snapshot = vec![magician()];
    let rows = rows_of(get_idol_rank(&snapshot, &[21], Some(&[23])));
    assert_eq!(rows, vec![row("Tokugawa Matsuri", "Magician", 10857, 1)]);
}

#[test]
fn idol_without_role_filter_gives_the_same_row() {
    let snapshot = vec![magician()];
    let rows = rows_of(get_idol_rank(&snapshot, &[21], None));
    assert_eq!(rows, vec![row("Tokugawa Matsuri", "Magician", 10857, 1)]);
}

#[test]
fn idol_that_appears_nowhere_gives_no_data() {
    let snapshot = vec![magician()];
    assert!(get_idol_rank(&snapshot, &[99], None).is_none());
    assert!(get_idol_rank(&election(), &[99], None).is_none());
}

#[test]
fn empty_snapshot_gives_no_data() {
    let snapshot: Vec<Ranking> = Vec::new();
    assert!(get_idol_rank(&snapshot, &[21], None).is_none());
    assert!(get_idol_rank(&snapshot, &[21], Some(&[23])).is_none());
}

#[test]
fn no_idols_asked_for_gives_no_data() {
    assert!(get_idol_rank(&election(), &[], None).is_none());
}

#[test]
fn rows_follow_groups_then_positions() {
    let rows = rows_of(get_idol_rank(&election(), &[30, 21], None));
    assert_eq!(
        rows,
        vec![
            row("Tokugawa Matsuri", "Girl", 80, 9),
            row("Hakozaki Serika", "Girl", 75, 10),
            row("Tokugawa Matsuri", "Magician", 10857, 1),
            row("Hakozaki Serika", "Magician", 5000, 2),
            row("Tokugawa Matsuri", "Final Day", 36, 7),
        ]
    );
}

#[test]
fn order_of_the_ids_asked_for_does_not_matter() {
    let one = rows_of(get_idol_rank(&election(), &[7, 21], Some(&[23, 3])));
    let other = rows_of(get_idol_rank(&election(), &[21, 7, 7], Some(&[3, 23])));
    assert_eq!(one, other);
    assert_eq!(
        one,
        vec![
            row("Mogami Shizuka", "Girl", 900, 1),
            row("Tokugawa Matsuri", "Girl", 80, 9),
            row("Tokugawa Matsuri", "Magician", 10857, 1),
            row("Mogami Shizuka", "Magician", 12, 40),
        ]
    );
}

#[test]
fn rows_of_two_snapshots_end_to_end() {
    let all = election();
    let first: Vec<Ranking> = all[..1].to_vec();
    let second: Vec<Ranking> = all[1..].to_vec();
    let mut joined = rows_of(get_idol_rank(&first, &[21, 7], None));
    joined.extend(rows_of(get_idol_rank(&second, &[21, 7], None)));
    assert_eq!(joined, rows_of(get_idol_rank(&all, &[21, 7], None)));
}

#[test]
fn role_filter_that_leaves_out_the_idols_groups_gives_no_data() {
    let snapshot = vec![
        group(3, "Girl", vec![position(7, "Mogami Shizuka", 900, 1)]),
        magician(),
    ];
    assert!(get_idol_rank(&snapshot, &[21], Some(&[3])).is_none());
    assert!(get_idol_rank(&snapshot, &[21], Some(&[])).is_none());
    assert!(get_idol_rank(&snapshot, &[21], Some(&[5, 6])).is_none());
}

#[test]
fn role_filter_narrows_the_groups() {
    let rows = rows_of(get_idol_rank(&election(), &[21], Some(&[40, 3])));
    assert_eq!(
        rows,
        vec![row("Tokugawa Matsuri", "Girl", 80, 9), row("Tokugawa Matsuri", "Final Day", 36, 7)]
    );
}

#[test]
fn without_role_filter_every_group_is_scanned() {
    let rows = rows_of(get_idol_rank(&election(), &[21], None));
    assert_eq!(
        rows,
        vec![
            row("Tokugawa Matsuri", "Girl", 80, 9),
            row("Tokugawa Matsuri", "Magician", 10857, 1),
            row("Tokugawa Matsuri", "Final Day", 36, 7),
        ]
    );
    let every_role = rows_of(get_idol_rank(&election(), &[21], Some(&[3, 23, 40])));
    assert_eq!(rows, every_role);
}

#[test]
fn only_the_first_inner_sequence_counts() {
    let data = vec![
        vec![position(21, "Tokugawa Matsuri", 10857, 1)],
        vec![position(21, "Tokugawa Matsuri", 1, 99), position(7, "Mogami Shizuka", 2, 98)],
    ];
    let snapshot = vec![Ranking::new(23, "Magician", data).expect("two inner sequences")];
    let rows = rows_of(get_idol_rank(&snapshot, &[21, 7], None));
    assert_eq!(rows, vec![row("Tokugawa Matsuri", "Magician", 10857, 1)]);
}

#[test]
fn empty_first_inner_sequence_gives_no_rows() {
    let data = vec![Vec::new(), vec![position(21, "Tokugawa Matsuri", 1, 99)]];
    let snapshot = vec![Ranking::new(23, "Magician", data).expect("two inner sequences")];
    assert!(get_idol_rank(&snapshot, &[21], None).is_none());
}

#[test]
fn an_idol_twice_under_a_role_gives_two_rows() {
    let snapshot = vec![group(
        23,
        "Magician",
        vec![
            position(21, "Tokugawa Matsuri", 10857, 1),
            position(21, "Tokugawa Matsuri", 10857, 1),
        ],
    )];
    let rows = rows_of(get_idol_rank(&snapshot, &[21], Some(&[23])));
    assert_eq!(
        rows,
        vec![
            row("Tokugawa Matsuri", "Magician", 10857, 1),
            row("Tokugawa Matsuri", "Magician", 10857, 1),
        ]
    );
}

#[test]
fn two_groups_of_one_role_are_both_scanned() {
    let snapshot = vec![magician(), group(23, "Magician again", vec![position(21, "Matsuri", 5, 3)])];
    let rows = rows_of(get_idol_rank(&snapshot, &[21], Some(&[23])));
    assert_eq!(
        rows,
        vec![row("Tokugawa Matsuri", "Magician", 10857, 1), row("Matsuri", "Magician again", 5, 3)]
    );
}

#[test]
fn largest_score_and_rank_are_kept() {
    let snapshot = vec![group(255, "Last", vec![position(255, "Z", u64::MAX, u8::MAX)])];
    let rows = rows_of(get_idol_rank(&snapshot, &[255], Some(&[255])));
    assert_eq!(rows, vec![row("Z", "Last", u64::MAX, u8::MAX)]);
}

#[test]
fn rows_survive_json() {
    let rows = get_idol_rank(&election(), &[21, 30], None).expect("some rows");
    let written: Vec<serde_json::Value> = rows
        .iter()
        .map(|a| {
            let mut object = serde_json::Map::new();
            object.insert("idol_name".to_string(), serde_json::Value::from(a.idol_name.clone()));
            object.insert("role_name".to_string(), serde_json::Value::from(a.role_name.clone()));
            object.insert("score".to_string(), serde_json::Value::from(a.score));
            object.insert("rank".to_string(), serde_json::Value::from(a.rank));
            serde_json::Value::Object(object)
        })
        .collect();
    let text = serde_json::to_string(&serde_json::Value::Array(written)).expect("written");
    let read: serde_json::Value = serde_json::from_str(&text).expect("read");
    let objects = read.as_array().expect("an array");
    assert_eq!(objects.len(), rows.len());
    for (object, a) in objects.iter().zip(rows.iter()) {
        assert_eq!(object["idol_name"].as_str(), Some(a.idol_name.as_str()));
        assert_eq!(object["role_name"].as_str(), Some(a.role_name.as_str()));
        assert_eq!(object["score"].as_u64(), Some(a.score));
        assert_eq!(object["rank"].as_u64(), Some(u64::from(a.rank)));
    }
}
