use vstd::prelude::*;
use crate::command::LaunchCommand;
use crate::text::{chars_to_string, push_str, str_chars};

verus! {

/// What is reported when the game is launched.
pub open spec fn launch_text(game_name: Seq<char>, platform_name: Seq<char>) -> Seq<char> {
    "launching "@ + game_name + " with "@ + platform_name
}

/// A line of the game's output as it is logged, marked with the stream it came from.
pub open spec fn output_line_text(stream: Seq<char>, line: Seq<char>) -> Seq<char> {
    "["@ + stream + "] "@ + line
}

impl LaunchCommand {
    /// The report that `game_name` is launched on the platform `platform_name`.
    pub fn launch_message(game_name: &str, platform_name: &str) -> (r: String)
        ensures
            r@ == launch_text(game_name@, platform_name@),
    {
        let mut out = str_chars("launching ");
        push_str(&mut out, game_name);
        push_str(&mut out, " with ");
        push_str(&mut out, platform_name);
        chars_to_string(&out)
    }

    /// A line of the game's output on `stream` (`stdout` or `stderr`), as it is logged.
    pub fn output_line(stream: &str, line: &str) -> (r: String)
        ensures
            r@ == output_line_text(stream@, line@),
    {
        let mut out = str_chars("[");
        push_str(&mut out, stream);
        push_str(&mut out, "] ");
        push_str(&mut out, line);
        chars_to_string(&out)
    }

    /// Whether the game is actually started once the launch command is built.
    pub fn starts_game(&self) -> (r: bool)
        ensures
            r == !self.dry_run,
    {
        !self.dry_run
    }
}

} // verus!
