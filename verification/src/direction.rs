use vstd::prelude::*;

verus! {

/// One of the four moves a player can press. A pure value: a press slides
/// every tile toward the named edge of the board.
#[derive(Debug, Copy, Clone, PartialEq, Eq, Structural)]
pub enum Direction {
    Left,
    Right,
    Up,
    Down,
}

/// Which direction a text token names: the vi-style keys "h"/"j"/"k"/"l"
/// or the spelled-out names "Left"/"Up"/"Down"/"Right". Any other token is
/// rejected.
pub open spec fn parse_direction(s: Seq<char>) -> Result<Direction, ()> {
    if s == "h"@ || s == "Left"@ {
        Ok(Direction::Left)
    } else if s == "j"@ || s == "Down"@ {
        Ok(Direction::Down)
    } else if s == "k"@ || s == "Up"@ {
        Ok(Direction::Up)
    } else if s == "l"@ || s == "Right"@ {
        Ok(Direction::Right)
    } else {
        Err(())
    }
}

/// Whether two string slices hold the same characters.
fn str_eq(a: &str, b: &str) -> (r: bool)
    ensures
        r == (a@ == b@),
{
    let a_owned = a.to_owned();
    let b_owned = b.to_owned();
    a_owned == b_owned
}

impl Direction {
    /// Parse a direction from an external text token; unrecognized tokens
    /// are reported as an error and cause no board action.
    pub fn try_from(value: &str) -> (r: Result<Direction, ()>)
        ensures
            r == parse_direction(value@),
    {
        if str_eq(value, "h") || str_eq(value, "Left") {
            Ok(Direction::Left)
        } else if str_eq(value, "j") || str_eq(value, "Down") {
            Ok(Direction::Down)
        } else if str_eq(value, "k") || str_eq(value, "Up") {
            Ok(Direction::Up)
        } else if str_eq(value, "l") || str_eq(value, "Right") {
            Ok(Direction::Right)
        } else {
            Err(())
        }
    }
}

} // verus!
