use vstd::prelude::*;
use crate::command::FetchCommand;

verus! {

impl FetchCommand {
    /// The game whose index is fetched: the one given, else the game of the current profile
    /// (`profile_game`, `None` when no profile could be read).
    pub fn game(&self, profile_game: Option<String>) -> (r: Option<String>)
        ensures
            match self.game {
                Some(g) => r matches Some(x) && x@ == g@,
                None => match profile_game {
                    Some(g) => r matches Some(x) && x@ == g@,
                    None => r is None,
                },
            },
    {
        match &self.game {
            Some(g) => Some(g.clone()),
            None => profile_game,
        }
    }
}

} // verus!
