//! Players, directions and piece/transform identifiers shared by every
//! engine in the crate.

use vstd::prelude::*;

verus! {

/// A piece ID: the index of a base piece in a player's catalog.
#[derive(Clone, Copy, PartialEq, Eq, Structural, Debug, Hash)]
pub struct PieceID {
    pub piece: usize,
}

impl PieceID {
    /// The index this ID stands for.
    pub fn id(&self) -> (r: usize)
        ensures
            r == self.piece,
    {
        self.piece
    }

    /// The ID standing for the given index.
    pub fn from_id(piece: usize) -> (r: PieceID)
        ensures
            r.piece == piece,
    {
        PieceID { piece }
    }
}

/// A piece transform ID: a base piece together with one of its
/// deduplicated dihedral transforms.
#[derive(Clone, Copy, PartialEq, Eq, Structural, Debug, Hash)]
pub struct PieceTransformID {
    pub piece: PieceID,
    pub version: usize,
}

impl PieceTransformID {
    pub fn new(piece: &PieceID, version: usize) -> (r: PieceTransformID)
        ensures
            r.piece == *piece,
            r.version == version,
    {
        PieceTransformID { piece: *piece, version }
    }
}

/// Corner direction mapping.  `PosPos` points towards growing x and y.
#[derive(Clone, Copy, PartialEq, Eq, Structural, Debug)]
pub enum Corner {
    PosPos,
    NegPos,
    PosNeg,
    NegNeg,
}

impl Corner {
    /// Index of this corner direction, in the order of `iter`.
    pub open spec fn spec_id(self) -> int {
        match self {
            Corner::PosPos => 0,
            Corner::NegPos => 1,
            Corner::PosNeg => 2,
            Corner::NegNeg => 3,
        }
    }

    /// The x component of the diagonal step in this direction.
    pub open spec fn spec_dx(self) -> int {
        match self {
            Corner::PosPos => 1,
            Corner::NegPos => -1,
            Corner::PosNeg => 1,
            Corner::NegNeg => -1,
        }
    }

    /// The y component of the diagonal step in this direction.
    pub open spec fn spec_dy(self) -> int {
        match self {
            Corner::PosPos => 1,
            Corner::NegPos => 1,
            Corner::PosNeg => -1,
            Corner::NegNeg => -1,
        }
    }

    /// All four corner directions.
    pub fn iter() -> (r: Vec<Corner>)
        ensures
            r@.len() == 4,
            forall|i: int| 0 <= i < 4 ==> (#[trigger] r@[i]).spec_id() == i,
    {
        let r = vec![Corner::PosPos, Corner::NegPos, Corner::PosNeg, Corner::NegNeg];
        assert(r@[0].spec_id() == 0);
        assert(r@[1].spec_id() == 1);
        assert(r@[2].spec_id() == 2);
        assert(r@[3].spec_id() == 3);
        r
    }

    /// The diagonally opposite corner direction.
    pub fn opposite(&self) -> (r: Corner)
        ensures
            r.spec_dx() == -self.spec_dx(),
            r.spec_dy() == -self.spec_dy(),
    {
        match self {
            Corner::PosPos => Corner::NegNeg,
            Corner::NegPos => Corner::PosNeg,
            Corner::PosNeg => Corner::NegPos,
            Corner::NegNeg => Corner::PosPos,
        }
    }

    /// Index of this corner direction.
    pub fn id(&self) -> (r: usize)
        ensures
            r == self.spec_id(),
    {
        match self {
            Corner::PosPos => 0,
            Corner::NegPos => 1,
            Corner::PosNeg => 2,
            Corner::NegNeg => 3,
        }
    }

    /// The corner direction with the given index.
    pub fn from_id(i: usize) -> (r: Corner)
        requires
            i < 4,
        ensures
            r.spec_id() == i,
    {
        match i {
            0 => Corner::PosPos,
            1 => Corner::NegPos,
            2 => Corner::PosNeg,
            _ => Corner::NegNeg,
        }
    }

    /// Step one cell diagonally in this direction.
    pub fn offset(&self, x: i8, y: i8) -> (r: (i8, i8))
        requires
            -64 <= x <= 64,
            -64 <= y <= 64,
        ensures
            r.0 == x + self.spec_dx(),
            r.1 == y + self.spec_dy(),
    {
        match self {
            Corner::PosPos => (x + 1, y + 1),
            Corner::NegPos => (x - 1, y + 1),
            Corner::PosNeg => (x + 1, y - 1),
            Corner::NegNeg => (x - 1, y - 1),
        }
    }
}

/// Neighbor direction mapping: the four orthogonal steps.
#[derive(Clone, Copy, PartialEq, Eq, Structural, Debug)]
pub enum Neighbor {
    _Pos,
    _Neg,
    Pos_,
    Neg_,
}

impl Neighbor {
    /// The x component of the orthogonal step in this direction.
    pub open spec fn spec_dx(self) -> int {
        match self {
            Neighbor::_Pos => 0,
            Neighbor::_Neg => 0,
            Neighbor::Pos_ => 1,
            Neighbor::Neg_ => -1,
        }
    }

    /// The y component of the orthogonal step in this direction.
    pub open spec fn spec_dy(self) -> int {
        match self {
            Neighbor::_Pos => 1,
            Neighbor::_Neg => -1,
            Neighbor::Pos_ => 0,
            Neighbor::Neg_ => 0,
        }
    }

    /// All four orthogonal directions.
    pub fn iter() -> (r: Vec<Neighbor>)
        ensures
            r@.len() == 4,
            r@[0] == Neighbor::_Pos,
            r@[1] == Neighbor::_Neg,
            r@[2] == Neighbor::Pos_,
            r@[3] == Neighbor::Neg_,
    {
        vec![Neighbor::_Pos, Neighbor::_Neg, Neighbor::Pos_, Neighbor::Neg_]
    }

    /// Step one cell orthogonally in this direction.
    pub fn offset(&self, x: i8, y: i8) -> (r: (i8, i8))
        requires
            -64 <= x <= 64,
            -64 <= y <= 64,
        ensures
            r.0 == x + self.spec_dx(),
            r.1 == y + self.spec_dy(),
    {
        match self {
            Neighbor::_Pos => (x, y + 1),
            Neighbor::_Neg => (x, y - 1),
            Neighbor::Pos_ => (x + 1, y),
            Neighbor::Neg_ => (x - 1, y),
        }
    }
}

/// Enum for every player.
#[derive(Clone, Copy, PartialEq, Eq, Structural, Debug, Hash)]
pub enum Player {
    Player1,
    Player2,
    Player3,
    Player4,
}

impl Player {
    /// The seat index of this player.
    pub open spec fn spec_id(self) -> int {
        match self {
            Player::Player1 => 0,
            Player::Player2 => 1,
            Player::Player3 => 2,
            Player::Player4 => 3,
        }
    }

    /// All four players, in seat order.
    pub fn iter() -> (r: Vec<Player>)
        ensures
            r@.len() == 4,
            forall|i: int| 0 <= i < 4 ==> (#[trigger] r@[i]).spec_id() == i,
    {
        let r = vec![Player::Player1, Player::Player2, Player::Player3, Player::Player4];
        assert(r@[0].spec_id() == 0);
        assert(r@[1].spec_id() == 1);
        assert(r@[2].spec_id() == 2);
        assert(r@[3].spec_id() == 3);
        r
    }

    /// The player whose turn follows this player's.
    pub fn next(&self) -> (r: Player)
        ensures
            r.spec_id() == (self.spec_id() + 1) % 4,
    {
        match self {
            Player::Player1 => Player::Player2,
            Player::Player2 => Player::Player3,
            Player::Player3 => Player::Player4,
            Player::Player4 => Player::Player1,
        }
    }

    /// The nibble (4-bit cell value) marking this player's tiles.
    pub open spec fn color_nibble(self) -> u128 {
        match self {
            Player::Player1 => 0b0001,
            Player::Player2 => 0b0010,
            Player::Player3 => 0b0100,
            Player::Player4 => 0b1000,
        }
    }

    /// The nibble (4-bit cell value) marking this player's tiles.
    pub fn mask(&self) -> (r: u128)
        ensures
            r == self.color_nibble(),
    {
        match self {
            Player::Player1 => 0b0001,
            Player::Player2 => 0b0010,
            Player::Player3 => 0b0100,
            Player::Player4 => 0b1000,
        }
    }

    /// Seat index of this player.
    pub fn id(&self) -> (r: usize)
        ensures
            r == self.spec_id(),
    {
        match self {
            Player::Player1 => 0,
            Player::Player2 => 1,
            Player::Player3 => 2,
            Player::Player4 => 3,
        }
    }

    /// The player sitting at the given seat index.
    pub fn from_id(i: usize) -> (r: Player)
        requires
            i < 4,
        ensures
            r.spec_id() == i,
    {
        match i {
            0 => Player::Player1,
            1 => Player::Player2,
            2 => Player::Player3,
            _ => Player::Player4,
        }
    }
}

/// Represents the rotation of a piece, in quarter turns clockwise.
#[derive(Clone, Copy, PartialEq, Eq, Structural, Debug)]
pub enum Rotation {
    Zero,
    Ninety,
    OneEighty,
    TwoSeventy,
}

/// Represents the reflection of a piece.
#[derive(Clone, Copy, PartialEq, Eq, Structural, Debug)]
pub enum Reflection {
    Flip,
    NoFlip,
}

/// A dihedral transformation: a rotation followed by an optional flip.
#[derive(Clone, Copy, PartialEq, Eq, Structural, Debug)]
pub struct Transformation(pub Rotation, pub Reflection);

impl Transformation {
    /// All eight dihedral transformations, each exactly once: the
    /// four rotations without, then with, the reflection.
    pub fn iter() -> (r: Vec<Transformation>)
        ensures
            r@ == Self::all(),
    {
        let r = vec![
            Transformation(Rotation::Zero, Reflection::NoFlip),
            Transformation(Rotation::Ninety, Reflection::NoFlip),
            Transformation(Rotation::OneEighty, Reflection::NoFlip),
            Transformation(Rotation::TwoSeventy, Reflection::NoFlip),
            Transformation(Rotation::Zero, Reflection::Flip),
            Transformation(Rotation::Ninety, Reflection::Flip),
            Transformation(Rotation::OneEighty, Reflection::Flip),
            Transformation(Rotation::TwoSeventy, Reflection::Flip),
        ];
        proof {
            assert(r@ =~= Self::all());
        }
        r
    }

    /// The eight dihedral transformations, in the order `iter`
    /// produces them.
    pub open spec fn all() -> Seq<Transformation> {
        seq![
            Transformation(Rotation::Zero, Reflection::NoFlip),
            Transformation(Rotation::Ninety, Reflection::NoFlip),
            Transformation(Rotation::OneEighty, Reflection::NoFlip),
            Transformation(Rotation::TwoSeventy, Reflection::NoFlip),
            Transformation(Rotation::Zero, Reflection::Flip),
            Transformation(Rotation::Ninety, Reflection::Flip),
            Transformation(Rotation::OneEighty, Reflection::Flip),
            Transformation(Rotation::TwoSeventy, Reflection::Flip),
        ]
    }
}

/// A trait for getting the dimensions of an object.
pub trait Dimensioned {
    fn w(&self) -> i8;

    fn h(&self) -> i8;
}

} // verus!
