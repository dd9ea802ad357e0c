//! The opening book: the scripted first moves that go by a name.

use crate::notation::same_text;
use crate::player::Player;
use crate::text::texts;
use vstd::prelude::*;
use vstd::string::*;

verus! {

/// The view of each entry of a list of literal texts.
pub open spec fn views(entries: Seq<&'static str>) -> Seq<Seq<char>> {
    Seq::new(entries.len(), |i: int| entries[i]@)
}

/// The scripted moves of the opening `name` for `player`, in the order they
/// are to be played. A name that the book does not know has no moves.
pub open spec fn opening_entries(name: Seq<char>, player: Player) -> Seq<&'static str> {
    if name == "No Opening"@ {
        match player {
            Player::Player1 => seq!["e2"],
            Player::Player2 => seq!["e8"],
        }
    } else if name == "Sidewall Opening"@ {
        match player {
            Player::Player1 => seq!["c3h", "f3h"],
            Player::Player2 => seq!["a3h", "h3h"],
        }
    } else if name == "Shiller Opening"@ {
        match player {
            Player::Player1 => seq!["e2", "e3", "e4", "c3v"],
            Player::Player2 => seq!["e8", "e7", "e6"],
        }
    } else if name == "Stonewall"@ {
        match player {
            Player::Player1 => seq!["e2", "e3", "d2h"],
            Player::Player2 => seq!["e8", "e7"],
        }
    } else if name == "Ala Opening"@ {
        match player {
            Player::Player1 => seq!["e2", "e3", "e4", "d5h", "f5h", "c4v", "g4v"],
            Player::Player2 => seq!["e8", "e7", "e6"],
        }
    } else if name == "Standard Opening"@ {
        match player {
            Player::Player1 => seq!["e2", "e3", "e4", "e3v"],
            Player::Player2 => seq!["e8", "e7", "e6", "e6v"],
        }
    } else if name == "Standard Opening (Symmetrical)"@ {
        match player {
            Player::Player1 => seq!["e2", "e3", "e4", "e3v"],
            Player::Player2 => seq!["e8", "e7", "e6", "d6v"],
        }
    } else if name == "Rush Variation"@ {
        match player {
            Player::Player1 => seq!["e2", "e3", "e4", "d5v", "e4h", "g4h", "h5v"],
            Player::Player2 => seq!["e8", "e7", "e6", "e6h", "f6", "f5", "g5"],
        }
    } else if name == "Gap Opening"@ {
        match player {
            Player::Player1 => seq!["e2", "e3", "e4"],
            Player::Player2 => seq!["e8", "e7", "e6"],
        }
    } else if name == "Gap Opening (Mainline)"@ {
        match player {
            Player::Player1 => seq!["e2", "e3", "e4"],
            Player::Player2 => seq!["e8", "e7", "e6", "g6h"],
        }
    } else if name == "Anti-Gap"@ {
        match player {
            Player::Player1 => seq!["e2", "e3", "e4"],
            Player::Player2 => seq!["e8", "e7", "e6", "b3h"],
        }
    } else if name == "Sidewall"@ {
        match player {
            Player::Player1 => seq!["e2", "d7v"],
            Player::Player2 => seq!["e8"],
        }
    } else if name == "Sidewall (Proper Counter)"@ {
        match player {
            Player::Player1 => seq!["e2", "d7v"],
            Player::Player2 => seq!["e8", "c7h"],
        }
    } else if name == "Quick Box Variation"@ {
        match player {
            Player::Player1 => seq!["e2"],
            Player::Player2 => seq!["e8", "d1h"],
        }
    } else if name == "Shatranj Opening"@ {
        match player {
            Player::Player1 => seq!["d1v"],
            Player::Player2 => Seq::empty(),
        }
    } else if name == "Lee Inversion"@ {
        match player {
            Player::Player1 => seq!["e1v"],
            Player::Player2 => Seq::empty(),
        }
    } else {
        Seq::empty()
    }
}

/// The scripted moves of the opening `name` for `player`, as texts.
pub open spec fn opening_line(name: Seq<char>, player: Player) -> Seq<Seq<char>> {
    views(opening_entries(name, player))
}

/// Owned copies of literal texts.
fn owned(entries: Vec<&'static str>) -> (list: Vec<String>)
    ensures
        texts(list@) == views(entries@),
{
    let mut list: Vec<String> = Vec::new();
    let mut i: usize = 0;
    while i < entries.len()
        invariant
            i <= entries.len(),
            list.len() == i,
            forall|j: int| 0 <= j < i ==> (#[trigger] list[j])@ == entries[j]@,
        decreases entries.len() - i,
    {
        list.push(entries[i].to_owned());
        i = i + 1;
    }
    assert(texts(list@) =~= views(entries@));
    list
}

/// Looks an opening up in the book.
pub fn get_opening_moves(opening_name: &str, player: Player) -> (moves: Vec<String>)
    ensures
        texts(moves@) == opening_line(opening_name@, player),
{
    let entries: Vec<&'static str> = if same_text(opening_name, "No Opening") {
        match player {
            Player::Player1 => vec!["e2"],
            Player::Player2 => vec!["e8"],
        }
    } else if same_text(opening_name, "Sidewall Opening") {
        match player {
            Player::Player1 => vec!["c3h", "f3h"],
            Player::Player2 => vec!["a3h", "h3h"],
        }
    } else if same_text(opening_name, "Shiller Opening") {
        match player {
            Player::Player1 => vec!["e2", "e3", "e4", "c3v"],
            Player::Player2 => vec!["e8", "e7", "e6"],
        }
    } else if same_text(opening_name, "Stonewall") {
        match player {
            Player::Player1 => vec!["e2", "e3", "d2h"],
            Player::Player2 => vec!["e8", "e7"],
        }
    } else if same_text(opening_name, "Ala Opening") {
        match player {
            Player::Player1 => vec!["e2", "e3", "e4", "d5h", "f5h", "c4v", "g4v"],
            Player::Player2 => vec!["e8", "e7", "e6"],
        }
    } else if same_text(opening_name, "Standard Opening") {
        match player {
            Player::Player1 => vec!["e2", "e3", "e4", "e3v"],
            Player::Player2 => vec!["e8", "e7", "e6", "e6v"],
        }
    } else if same_text(opening_name, "Standard Opening (Symmetrical)") {
        match player {
            Player::Player1 => vec!["e2", "e3", "e4", "e3v"],
            Player::Player2 => vec!["e8", "e7", "e6", "d6v"],
        }
    } else if same_text(opening_name, "Rush Variation") {
        match player {
            Player::Player1 => vec!["e2", "e3", "e4", "d5v", "e4h", "g4h", "h5v"],
            Player::Player2 => vec!["e8", "e7", "e6", "e6h", "f6", "f5", "g5"],
        }
    } else if same_text(opening_name, "Gap Opening") {
        match player {
            Player::Player1 => vec!["e2", "e3", "e4"],
            Player::Player2 => vec!["e8", "e7", "e6"],
        }
    } else if same_text(opening_name, "Gap Opening (Mainline)") {
        match player {
            Player::Player1 => vec!["e2", "e3", "e4"],
            Player::Player2 => vec!["e8", "e7", "e6", "g6h"],
        }
    } else if same_text(opening_name, "Anti-Gap") {
        match player {
            Player::Player1 => vec!["e2", "e3", "e4"],
            Player::Player2 => vec!["e8", "e7", "e6", "b3h"],
        }
    } else if same_text(opening_name, "Sidewall") {
        match player {
            Player::Player1 => vec!["e2", "d7v"],
            Player::Player2 => vec!["e8"],
        }
    } else if same_text(opening_name, "Sidewall (Proper Counter)") {
        match player {
            Player::Player1 => vec!["e2", "d7v"],
            Player::Player2 => vec!["e8", "c7h"],
        }
    } else if same_text(opening_name, "Quick Box Variation") {
        match player {
            Player::Player1 => vec!["e2"],
            Player::Player2 => vec!["e8", "d1h"],
        }
    } else if same_text(opening_name, "Shatranj Opening") {
        match player {
            Player::Player1 => vec!["d1v"],
            Player::Player2 => Vec::new(),
        }
    } else if same_text(opening_name, "Lee Inversion") {
        match player {
            Player::Player1 => vec!["e1v"],
            Player::Player2 => Vec::new(),
        }
    } else {
        Vec::new()
    };
    owned(entries)
}

} // verus!
