use vstd::prelude::*;

verus! {

/// Where a package is obtained from.
#[derive(PartialEq, Eq, Structural, Clone, Copy, Debug, Hash)]
pub enum Source {
    Thunderstore,
    Hexium,
    Local,
    Github,
}

impl Source {
    /// The lowercase name of the source, as written in manifests and on the command line.
    pub open spec fn spec_name(self) -> Seq<char> {
        match self {
            Source::Thunderstore => seq!['t', 'h', 'u', 'n', 'd', 'e', 'r', 's', 't', 'o', 'r', 'e'],
            Source::Hexium => seq!['h', 'e', 'x', 'i', 'u', 'm'],
            Source::Local => seq!['l', 'o', 'c', 'a', 'l'],
            Source::Github => seq!['g', 'i', 't', 'h', 'u', 'b'],
        }
    }

    /// The characters of the source's name.
    pub fn name_chars(self) -> (r: Vec<char>)
        ensures
            r@ == self.spec_name(),
    {
        match self {
            Source::Thunderstore => vec!['t', 'h', 'u', 'n', 'd', 'e', 'r', 's', 't', 'o', 'r', 'e'],
            Source::Hexium => vec!['h', 'e', 'x', 'i', 'u', 'm'],
            Source::Local => vec!['l', 'o', 'c', 'a', 'l'],
            Source::Github => vec!['g', 'i', 't', 'h', 'u', 'b'],
        }
    }

    /// The source's name as a `String` (`"thunderstore"`, `"hexium"`, `"local"` or `"github"`).
    pub fn to_string(self) -> (r: String)
        ensures
            r@ == self.spec_name(),
    {
        let chars = self.name_chars();
        crate::text::chars_to_string(&chars)
    }

    /// The source with the given name, if there is one.
    pub fn from_name(name: &str) -> (r: Option<Source>)
        ensures
            r matches Some(s) ==> s.spec_name() == name@,
            r is None ==> (forall|s: Source| s.spec_name() != name@),
    {
        let chars = crate::text::str_chars(name);
        let candidates = [Source::Thunderstore, Source::Hexium, Source::Local, Source::Github];
        let mut i: usize = 0;
        while i < 4
            invariant
                0 <= i <= 4,
                chars@ == name@,
                candidates@ == seq![Source::Thunderstore, Source::Hexium, Source::Local, Source::Github],
                forall|k: int| 0 <= k < i ==> candidates@[k].spec_name() != name@,
            decreases 4 - i,
        {
            let candidate = candidates[i];
            if crate::text::chars_equal(&candidate.name_chars(), &chars) {
                return Some(candidate);
            }
            i += 1;
        }
        assert forall|s: Source| s.spec_name() != name@ by {
            match s {
                Source::Thunderstore => assert(candidates@[0] == s),
                Source::Hexium => assert(candidates@[1] == s),
                Source::Local => assert(candidates@[2] == s),
                Source::Github => assert(candidates@[3] == s),
            }
        }
        None
    }
}

/// No two sources share a name, so a source's name reads back as that source: `from_name`
/// of `to_string` gives the source back.
pub proof fn law_source_name_round_trip(a: Source, b: Source)
    ensures
        a.spec_name() == b.spec_name() ==> a == b,
{
    if a.spec_name() == b.spec_name() && a != b {
        assert(a.spec_name().len() == b.spec_name().len());
        assert(a.spec_name()[0] == b.spec_name()[0]);
    }
}

} // verus!
