use vstd::prelude::*;
use crate::command::CleanCommand;
use crate::text::{chars_to_string, decimal, push_decimal, str_chars};

verus! {

/// The question asked before `count` packages are removed from the store.
pub open spec fn clean_prompt_text(count: nat) -> Seq<char> {
    "Are you sure you want to remove "@ + decimal(count) + " packages from the store?"@
}

impl CleanCommand {
    /// The confirmation asked before `count` packages are removed from the store, with the
    /// answer taken when the user just presses enter: yes, unless every package is being
    /// removed. `None` when there is nothing to remove.
    pub fn confirmation(&self, count: usize) -> (r: Option<(String, bool)>)
        ensures
            count == 0 ==> r is None,
            count > 0 ==> (r matches Some(p) && p.0@ == clean_prompt_text(count as nat) && p.1
                == !self.force),
    {
        if count == 0 {
            return None;
        }
        let mut text = str_chars("Are you sure you want to remove ");
        push_decimal(&mut text, count as u64);
        let tail = str_chars(" packages from the store?");
        crate::text::push_all(&mut text, &tail);
        Some((chars_to_string(&text), !self.force))
    }
}

} // verus!
