use vstd::prelude::*;
use crate::text::str_chars;

verus! {

/// The code of `c` with ASCII capitals taken as their lowercase letters.
pub open spec fn ascii_folded(c: char) -> int {
    if 'A' <= c <= 'Z' {
        c as int + 32
    } else {
        c as int
    }
}

/// Whether `a` and `b` are equal up to the case of ASCII letters (what
/// `str::eq_ignore_ascii_case` decides).
pub open spec fn equal_ignoring_ascii_case(a: Seq<char>, b: Seq<char>) -> bool {
    a.len() == b.len() && forall|i: int| 0 <= i < a.len() ==> ascii_folded(#[trigger] a[i]) == ascii_folded(b[i])
}

/// The code of `c` with an ASCII capital taken as its lowercase letter.
fn fold_ascii(c: char) -> (r: u32)
    ensures
        r == ascii_folded(c),
{
    let code = c as u32;
    if 'A' <= c && c <= 'Z' {
        code + 32
    } else {
        code
    }
}

/// Whether two character vectors are equal up to the case of ASCII letters.
pub fn chars_equal_ignoring_ascii_case(a: &Vec<char>, b: &Vec<char>) -> (r: bool)
    ensures
        r == equal_ignoring_ascii_case(a@, b@),
{
    if a.len() != b.len() {
        return false;
    }
    for i in 0..a.len()
        invariant
            a@.len() == b@.len(),
            forall|k: int| 0 <= k < i ==> ascii_folded(#[trigger] a@[k]) == ascii_folded(b@[k]),
    {
        if fold_ascii(a[i]) != fold_ascii(b[i]) {
            return false;
        }
    }
    true
}

/// Which install rules of a game's mod loader a package is installed with.
#[derive(PartialEq, Eq, Structural, Clone, Copy, Debug)]
pub enum InstallRules {
    /// The rules for the mod loader itself.
    Loader,
    /// The rules for ordinary packages.
    Package,
}

/// What the library reads of the Thunderstore schema: the ids of the packages that are mod
/// loaders.
pub struct ThunderstoreSchema {
    pub modloader_packages: Vec<String>,
}

/// Whether one of `loaders` is `id`, up to the case of ASCII letters.
pub open spec fn names_loader(loaders: Seq<String>, id: Seq<char>) -> bool {
    exists|i: int| 0 <= i < loaders.len() && equal_ignoring_ascii_case(#[trigger] loaders[i]@, id)
}

impl ThunderstoreSchema {
    /// Whether the package `id` is one of the game's mod loaders (ids compared without regard
    /// to the case of ASCII letters).
    pub fn is_mod_loader(&self, id: &str) -> (r: bool)
        ensures
            r == names_loader(self.modloader_packages@, id@),
    {
        let target = str_chars(id);
        for i in 0..self.modloader_packages.len()
            invariant
                target@ == id@,
                forall|k: int| 0 <= k < i ==> !equal_ignoring_ascii_case(
                    #[trigger] self.modloader_packages@[k]@,
                    id@,
                ),
        {
            let name = str_chars(self.modloader_packages[i].as_str());
            if chars_equal_ignoring_ascii_case(&name, &target) {
                return true;
            }
        }
        false
    }

    /// The install rules for the package `id`: the loader's own rules for a mod loader, the
    /// rules for ordinary packages otherwise.
    pub fn rules_for(&self, id: &str) -> (r: InstallRules)
        ensures
            r == if names_loader(self.modloader_packages@, id@) {
                InstallRules::Loader
            } else {
                InstallRules::Package
            },
    {
        if self.is_mod_loader(id) {
            InstallRules::Loader
        } else {
            InstallRules::Package
        }
    }
}

} // verus!
