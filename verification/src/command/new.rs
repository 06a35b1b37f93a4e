use vstd::prelude::*;
use crate::command::NewCommand;
use crate::manifest::ProfileInfo;
use crate::source::Source;
use crate::text::{chars_to_string, push_all, push_str, str_chars};

verus! {

/// What is reported once a profile has been created.
pub open spec fn created_text(path: Seq<char>, game: Seq<char>, default_source: Option<Source>) -> Seq<char> {
    "created new profile at `"@ + path + "` with game "@ + game + match default_source {
        Some(s) => " and default source "@ + s.spec_name(),
        None => Seq::empty(),
    }
}

impl NewCommand {
    /// The profile information of the new profile: its game, and its default source when
    /// one is given.
    pub fn profile_info(&self) -> (r: ProfileInfo)
        ensures
            r.game@ == self.game@,
            r.default_source == self.default_source,
    {
        let info = ProfileInfo::new(self.game.clone());
        match self.default_source {
            Some(source) => info.with_default_source(source),
            None => info,
        }
    }

    /// The report that the profile was created (see `created_text`).
    pub fn created_message(&self) -> (r: String)
        ensures
            r@ == created_text(self.path@, self.game@, self.default_source),
    {
        let mut out = str_chars("created new profile at `");
        push_str(&mut out, self.path.as_str());
        push_str(&mut out, "` with game ");
        push_str(&mut out, self.game.as_str());
        if let Some(source) = self.default_source {
            push_str(&mut out, " and default source ");
            let name = source.name_chars();
            push_all(&mut out, &name);
        }
        chars_to_string(&out)
    }
}

} // verus!
