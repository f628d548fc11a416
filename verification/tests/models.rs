use tcrank::models::{Arrangement, Idol, Position, Ranking};

#[test]
fn idol_gives_back_what_it_was_made_of() {
    let idol = Idol::new(21, "Tokugawa Matsuri");
    assert_eq!(idol.id(), 21);
    assert_eq!(idol.name(), "Tokugawa Matsuri");
}

#[test]
fn position_gives_back_what_it_was_made_of() {
    let position = Position::new(Idol::new(21, "Tokugawa Matsuri"), 10857, 1);
    assert_eq!(position.idol().id(), 21);
    assert_eq!(position.idol().name(), "Tokugawa Matsuri");
    assert_eq!(position.score(), 10857);
    assert_eq!(position.rank(), 1);
}

#[test]
fn ranking_gives_back_what_it_was_made_of() {
    let first = vec![
        Position::new(Idol::new(21, "Tokugawa Matsuri"), 10857, 1),
        Position::new(Idol::new(30, "Hakozaki Serika"), 5000, 2),
    ];
    let ranking = Ranking::new(23, "Magician", vec![first]).expect("one inner sequence");
    assert_eq!(ranking.id(), 23);
    assert_eq!(ranking.name(), "Magician");
    assert_eq!(ranking.data().len(), 2);
    assert_eq!(ranking.data()[0].idol().id(), 21);
    assert_eq!(ranking.data()[1].idol().id(), 30);
    assert_eq!(ranking.data()[1].score(), 5000);
    assert_eq!(ranking.data()[1].rank(), 2);
}

#[test]
fn ranking_data_is_the_first_inner_sequence() {
    let data = vec![
        vec![Position::new(Idol::new(1, "A"), 10, 1)],
        vec![Position::new(Idol::new(2, "B"), 20, 2), Position::new(Idol::new(3, "C"), 30, 3)],
    ];
    let ranking = Ranking::new(5, "Role", data).expect("two inner sequences");
    assert_eq!(ranking.data().len(), 1);
    assert_eq!(ranking.data()[0].idol().name(), "A");
}

#[test]
fn ranking_with_an_empty_first_sequence_has_no_positions() {
    let ranking = Ranking::new(5, "Role", vec![Vec::new()]).expect("one inner sequence");
    assert!(ranking.data().is_empty());
}

#[test]
fn ranking_needs_an_inner_sequence() {
    assert!(Ranking::new(5, "Role", Vec::new()).is_none());
}

#[test]
fn arrangement_gives_back_what_it_was_made_of() {
    let row = Arrangement::new("Tokugawa Matsuri", "Magician", 10857, 1);
    assert_eq!(row.idol_name, "Tokugawa Matsuri");
    assert_eq!(row.role_name, "Magician");
    assert_eq!(row.score, 10857);
    assert_eq!(row.rank, 1);
}

#[test]
fn clones_hold_the_same() {
    let ranking = Ranking::new(
        23,
        "Magician",
        vec![vec![Position::new(Idol::new(21, "Tokugawa Matsuri"), 10857, 1)], Vec::new()],
    )
    .expect("two inner sequences");
    let copy = ranking.clone();
    assert_eq!(copy.id(), 23);
    assert_eq!(copy.name(), "Magician");
    assert_eq!(copy.data().len(), 1);
    let position = copy.data()[0].clone();
    assert_eq!(position.score(), 10857);
    assert_eq!(position.rank(), 1);
    let idol = position.idol().clone();
    assert_eq!(idol.id(), 21);
    assert_eq!(idol.name(), "Tokugawa Matsuri");
    let row = Arrangement::new("a", "b", 1, 2).clone();
    assert_eq!((row.idol_name.as_str(), row.role_name.as_str(), row.score, row.rank), ("a", "b", 1, 2));
}
