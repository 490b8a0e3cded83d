use vstd::prelude::*;

verus! {

/// Black or White.
#[derive(Clone, Copy, Debug, PartialEq, Eq, Structural)]
pub enum Player {
    /// Player 1.
    Black,
    /// Player 2.
    White,
}

impl Player {
    /// The opponent of the player.
    pub open spec fn spec_enemy(&self) -> Player {
        match *self {
            Player::White => Player::Black,
            Player::Black => Player::White,
        }
    }

    /// The opponent or enemy of the player.
    #[verifier::when_used_as_spec(spec_enemy)]
    pub fn enemy(&self) -> (r: Player)
        ensures
            r == self.spec_enemy(),
    {
        match *self {
            Player::White => Player::Black,
            Player::Black => Player::White,
        }
    }

    /// The lower-case English name of the colour.
    pub open spec fn name(self) -> Seq<char> {
        match self {
            Player::Black => "black"@,
            Player::White => "white"@,
        }
    }

    /// The colour as text: `black` or `white`.
    pub fn to_string(&self) -> (r: String)
        ensures
            r@ == self.name(),
    {
        match *self {
            Player::Black => "black".to_owned(),
            Player::White => "white".to_owned(),
        }
    }
}

} // verus!
