//! The records of a ranking snapshot and the rows produced from it.
//!
//! Each record has a view: a plain value that the contracts of this crate
//! speak of in place of the record itself.

use vstd::prelude::*;

verus! {

/// What an [`Idol`] stands for in contracts.
pub struct IdolView {
    pub id: u8,
    pub name: Seq<char>,
}

/// An idol as a ranking position names it.
#[derive(Debug)]
pub struct Idol {
    id: u8,
    name: String,
}

impl View for Idol {
    type V = IdolView;

    closed spec fn view(&self) -> IdolView {
        IdolView { id: self.id, name: self.name@ }
    }
}

impl Clone for Idol {
    fn clone(&self) -> (copy: Idol)
        ensures
            copy@ == self@,
    {
        Idol { id: self.id, name: self.name.clone() }
    }
}

impl Idol {
    pub fn new(id: u8, name: &str) -> (idol: Idol)
        ensures
            idol@ == (IdolView { id, name: name@ }),
    {
        Idol { id, name: name.to_owned() }
    }

    pub fn id(&self) -> (id: u8)
        ensures
            id == self@.id,
    {
        self.id
    }

    pub fn name(&self) -> (name: &str)
        ensures
            name@ == self@.name,
    {
        self.name.as_str()
    }
}

/// What a [`Position`] stands for in contracts.
pub struct PositionView {
    pub idol: IdolView,
    pub score: u64,
    pub rank: u8,
}

/// One idol's standing within a role: its score and its rank, where rank 1
/// is the best. The rank is taken as given; nothing here recomputes it.
#[derive(Debug)]
pub struct Position {
    idol: Idol,
    score: u64,
    rank: u8,
}

impl View for Position {
    type V = PositionView;

    closed spec fn view(&self) -> PositionView {
        PositionView { idol: self.idol@, score: self.score, rank: self.rank }
    }
}

impl Clone for Position {
    fn clone(&self) -> (copy: Position)
        ensures
            copy@ == self@,
    {
        Position { idol: self.idol.clone(), score: self.score, rank: self.rank }
    }
}

impl Position {
    pub fn new(idol: Idol, score: u64, rank: u8) -> (position: Position)
        ensures
            position@ == (PositionView { idol: idol@, score, rank }),
    {
        Position { idol, score, rank }
    }

    pub fn idol(&self) -> (idol: &Idol)
        ensures
            idol@ == self@.idol,
    {
        &self.idol
    }

    pub fn score(&self) -> (score: u64)
        ensures
            score == self@.score,
    {
        self.score
    }

    pub fn rank(&self) -> (rank: u8)
        ensures
            rank == self@.rank,
    {
        self.rank
    }
}

/// The views of a sequence of positions, in the same order.
pub open spec fn position_views(positions: Seq<Position>) -> Seq<PositionView> {
    positions.map_values(|p: Position| p@)
}

/// The views of a sequence of position sequences, in the same order.
pub open spec fn position_table_views(data: Seq<Vec<Position>>) -> Seq<Seq<PositionView>> {
    data.map_values(|positions: Vec<Position>| position_views(positions@))
}

/// What a [`Ranking`] stands for in contracts.
pub struct RankingView {
    pub id: u8,
    pub name: Seq<char>,
    pub data: Seq<Seq<PositionView>>,
}

impl RankingView {
    /// The positions that count: those of the first inner sequence. Further
    /// inner sequences are carried along and never read.
    pub open spec fn positions(self) -> Seq<PositionView> {
        if self.data.len() > 0 {
            self.data[0]
        } else {
            Seq::empty()
        }
    }
}

/// The ranking of one role: the role's id and name, and the positions of
/// the idols ranked under it.
///
/// The positions come as a sequence of sequences, of which only the first
/// is used. Every `Ranking` holds at least that first one.
#[derive(Debug)]
pub struct Ranking {
    id: u8,
    name: String,
    data: Vec<Vec<Position>>,
}

impl View for Ranking {
    type V = RankingView;

    closed spec fn view(&self) -> RankingView {
        RankingView { id: self.id, name: self.name@, data: position_table_views(self.data@) }
    }
}

impl Clone for Ranking {
    fn clone(&self) -> (copy: Ranking)
        ensures
            copy@ == self@,
    {
        proof {
            use_type_invariant(self);
        }
        let data = self.data.clone();
        assert(position_table_views(data@) =~~= position_table_views(self.data@));
        Ranking { id: self.id, name: self.name.clone(), data }
    }
}

impl Ranking {
    #[verifier::type_invariant]
    spec fn has_first_sequence(&self) -> bool {
        self.data@.len() > 0
    }

    /// Builds a ranking, unless `data` has no inner sequence at all.
    pub fn new(id: u8, name: &str, data: Vec<Vec<Position>>) -> (ranking: Option<Ranking>)
        ensures
            ranking is Some <==> data@.len() > 0,
            ranking matches Some(r) ==> r@ == (RankingView {
                id,
                name: name@,
                data: position_table_views(data@),
            }),
    {
        if data.len() == 0 {
            None
        } else {
            Some(Ranking { id, name: name.to_owned(), data })
        }
    }

    pub fn id(&self) -> (id: u8)
        ensures
            id == self@.id,
    {
        self.id
    }

    pub fn name(&self) -> (name: &str)
        ensures
            name@ == self@.name,
    {
        self.name.as_str()
    }

    /// The positions of the first inner sequence.
    pub fn data(&self) -> (positions: &[Position])
        ensures
            self@.data.len() > 0,
            position_views(positions@) == self@.positions(),
    {
        proof {
            use_type_invariant(self);
        }
        self.data[0].as_slice()
    }
}

/// The views of a sequence of rankings, in the same order.
pub open spec fn ranking_views(snapshot: Seq<Ranking>) -> Seq<RankingView> {
    snapshot.map_values(|r: Ranking| r@)
}

/// What an [`Arrangement`] stands for in contracts.
pub struct ArrangementView {
    pub idol_name: Seq<char>,
    pub role_name: Seq<char>,
    pub score: u64,
    pub rank: u8,
}

/// One result row: an idol under a role, with the score and rank it holds
/// there.
#[derive(Debug)]
pub struct Arrangement {
    pub idol_name: String,
    pub role_name: String,
    pub score: u64,
    pub rank: u8,
}

impl View for Arrangement {
    type V = ArrangementView;

    open spec fn view(&self) -> ArrangementView {
        ArrangementView {
            idol_name: self.idol_name@,
            role_name: self.role_name@,
            score: self.score,
            rank: self.rank,
        }
    }
}

impl Clone for Arrangement {
    fn clone(&self) -> (copy: Arrangement)
        ensures
            copy@ == self@,
    {
        Arrangement {
            idol_name: self.idol_name.clone(),
            role_name: self.role_name.clone(),
            score: self.score,
            rank: self.rank,
        }
    }
}

impl Arrangement {
    pub fn new(idol_name: &str, role_name: &str, score: u64, rank: u8) -> (row: Arrangement)
        ensures
            row@ == (ArrangementView {
                idol_name: idol_name@,
                role_name: role_name@,
                score,
                rank,
            }),
    {
        Arrangement {
            idol_name: idol_name.to_owned(),
            role_name: role_name.to_owned(),
            score,
            rank,
        }
    }
}

/// The views of a sequence of rows, in the same order.
pub open spec fn arrangement_views(rows: Seq<Arrangement>) -> Seq<ArrangementView> {
    rows.map_values(|a: Arrangement| a@)
}

} // verus!
