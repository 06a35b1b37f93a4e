use vstd::prelude::*;
use crate::command::AddCommand;
use crate::manifest::{ModSpec, ProfileInfo};
use crate::package::{
    MetadataValue, RegistryMetadata, Version, VersionReq, star_text, version_req_display,
    version_req_matches,
};
use crate::source::Source;
use crate::text::{chars_to_string, index_of, lemma_index_of_bounds, str_chars, sub_chars};

verus! {

/// Why mods could not be added.
#[derive(Debug)]
pub enum AddError {
    /// No mod was named.
    NoModsSpecified,
    /// The text after `@` is not a version requirement.
    InvalidVersionReq(String, semver::Error),
    /// No version of the mod (first field) meets the requirement (second field).
    NoMatchingVersion(String, String),
    /// The latest version of the mod could not be turned into a requirement.
    UnusableVersion(String),
    /// No mod of this name was found.
    NotFound(String),
    /// Too many mods match the name; this many.
    TooManyResults(String, usize),
}

/// What to do with the results of searching the index for a mod name.
#[derive(Debug)]
pub enum SearchPick {
    /// Take this mod: its name (after the author) is the name searched for.
    Accept(String),
    /// Ask the user whether this, the only result, is the mod meant.
    Confirm(String),
    /// Let the user pick one of these results.
    Select(Vec<String>),
}

/// The most search results that are offered to pick from.
pub const MAX_OFFERED_RESULTS: usize = 20;

/// The part of `s` after the first `sep`, if `s` holds one (as `str::split_once` gives it).
pub open spec fn after_first(s: Seq<char>, sep: char) -> Option<Seq<char>> {
    let k = index_of(s, sep);
    if k < s.len() {
        Some(s.skip(k + 1))
    } else {
        None
    }
}

/// The part of `s` before the first `sep`, or all of `s`.
pub open spec fn before_first(s: Seq<char>, sep: char) -> Seq<char> {
    s.take(index_of(s, sep))
}

/// Splits `s` at its first `sep`: the part before it, and the part after it when there is one.
pub fn split_once(s: &str, sep: char) -> (r: (String, Option<String>))
    ensures
        r.0@ == before_first(s@, sep),
        match after_first(s@, sep) {
            Some(t) => r.1 matches Some(u) && u@ == t,
            None => r.1 is None,
        },
{
    let chars = str_chars(s);
    let mut k: usize = 0;
    proof {
        lemma_index_of_bounds(s@, sep);
    }
    while k < chars.len() && chars[k] != sep
        invariant
            chars@ == s@,
            k <= chars@.len(),
            forall|m: int| 0 <= m < k ==> chars@[m] != sep,
        decreases chars@.len() - k,
    {
        k += 1;
    }
    proof {
        crate::text::lemma_index_of_is(s@, sep, k as int);
    }
    let head = sub_chars(&chars, 0, k);
    assert(head@ =~= before_first(s@, sep));
    if k < chars.len() {
        let tail = sub_chars(&chars, k + 1, chars.len());
        assert(tail@ =~= s@.skip(k + 1));
        (chars_to_string(&head), Some(chars_to_string(&tail)))
    } else {
        (chars_to_string(&head), None)
    }
}

/// The greatest of `versions` (by major, then minor, then patch).
pub open spec fn max_version(versions: Seq<Version>) -> Version
    decreases versions.len(),
{
    if versions.len() <= 1 {
        versions[0]
    } else {
        let m = max_version(versions.drop_last());
        if versions.last().spec_lt(m) {
            m
        } else {
            versions.last()
        }
    }
}

/// The newest version is one of the versions, and no version is newer than it.
pub proof fn law_max_version(versions: Seq<Version>)
    requires
        versions.len() > 0,
    ensures
        exists|i: int| 0 <= i < versions.len() && versions[i] == max_version(versions),
        forall|i: int| 0 <= i < versions.len() ==> !max_version(versions).spec_lt(#[trigger] versions[i]),
    decreases versions.len(),
{
    if versions.len() > 1 {
        let d = versions.drop_last();
        law_max_version(d);
        let m = max_version(d);
        let w = choose|i: int| 0 <= i < d.len() && d[i] == m;
        assert(versions[w] == m);
        assert(versions[versions.len() - 1] == versions.last());
        assert forall|i: int| 0 <= i < versions.len() implies !max_version(versions).spec_lt(#[trigger] versions[i]) by {
            if i < d.len() {
                assert(versions[i] == d[i]);
            }
        }
    } else {
        assert(versions[0] == max_version(versions));
    }
}

/// Whether some of `versions` meets the requirement `req`.
pub open spec fn any_matches(req: Seq<char>, versions: Seq<Version>) -> bool {
    exists|i: int|
        0 <= i < versions.len() && version_req_matches(
            req,
            (#[trigger] versions[i]).major as nat,
            versions[i].minor as nat,
            versions[i].patch as nat,
        )
}

/// Whether `spec` asks for the requirement with text `req`, from `source` when one is given.
pub open spec fn spec_with(spec: ModSpec, req: Seq<char>, source: Option<Source>) -> bool {
    match source {
        None => spec matches ModSpec::Simple(r) && r@ == req,
        Some(s) => spec matches ModSpec::Full { version, source, registry_metadata } && version matches Some(
            r,
        ) && r@ == req && source == Some(s) && registry_metadata is Null,
    }
}

impl AddCommand {
    /// Refuses a command that names no mod.
    pub fn check(&self) -> (r: Result<(), AddError>)
        ensures
            r is Ok <==> self.mods@.len() > 0,
            r matches Err(e) ==> e is NoModsSpecified,
    {
        if self.mods.len() == 0 {
            Err(AddError::NoModsSpecified)
        } else {
            Ok(())
        }
    }

    /// The source of the mods to add: the one given, else the profile's default source.
    pub fn source_for(&self, profile: &ProfileInfo) -> (r: Source)
        ensures
            r == match self.source {
                Some(s) => s,
                None => match profile.default_source {
                    Some(s) => s,
                    None => Source::Thunderstore,
                },
            },
    {
        match self.source {
            Some(s) => s,
            None => profile.source_or_default(),
        }
    }

    /// Splits a mod argument `name@requirement` into the name and the parsed requirement (the
    /// whole argument is the name when it holds no `@`).
    pub fn parse_mod_arg(arg: &str) -> (r: Result<(String, Option<VersionReq>), AddError>)
        ensures
            match after_first(arg@, '@') {
                None => r matches Ok((name, req)) && name@ == arg@ && req is None,
                Some(t) => match version_req_display(t) {
                    Some(d) => {
                        &&& r matches Ok((name, req))
                        &&& name@ == before_first(arg@, '@')
                        &&& req matches Some(q)
                        &&& q@ == d
                    },
                    None => r matches Err(AddError::InvalidVersionReq(text, _)) && text@ == t,
                },
            },
    {
        let (name, rest) = split_once(arg, '@');
        match rest {
            None => {
                proof {
                    lemma_index_of_bounds(arg@, '@');
                    assert(before_first(arg@, '@') =~= arg@);
                }
                Ok((name, None))
            },
            Some(text) => match VersionReq::parse(text.as_str()) {
                Ok(req) => Ok((name, Some(req))),
                Err(e) => Err(AddError::InvalidVersionReq(text, e)),
            },
        }
    }

    /// Whether a mod already in the manifest (when `in_manifest`) is left as it is: unless
    /// upgrading, a mod asked for without a requirement, or with `*`, is not touched again.
    pub fn should_skip(&self, req: &Option<VersionReq>, in_manifest: bool) -> (r: bool)
        ensures
            r == (!self.upgrade && match req {
                None => true,
                Some(q) => q@ == star_text(),
            } && in_manifest),
    {
        let loose = match req {
            None => true,
            Some(q) => q.is_star(),
        };
        !self.upgrade && loose && in_manifest
    }

    /// The specification of a mod that asks for `req`, from the command's source if it names
    /// one.
    fn spec_for(&self, req: VersionReq) -> (r: ModSpec)
        ensures
            spec_with(r, req@, self.source),
    {
        let spec = ModSpec::new(req);
        match self.source {
            Some(s) => spec.with_source(s),
            None => spec,
        }
    }

    /// The specification with which the mod `id` is added, given its available `versions`:
    /// the requirement asked for when some version meets it, otherwise the latest version as
    /// a requirement; from the command's source if it names one.
    pub fn select_version(&self, id: String, req: Option<VersionReq>, versions: &Vec<Version>) -> (r: Result<(String, ModSpec), AddError>)
        requires
            req is None ==> versions@.len() > 0,
        ensures
            match req {
                Some(q) => if any_matches(q@, versions@) {
                    r matches Ok((i, spec)) && i@ == id@ && spec_with(spec, q@, self.source)
                } else {
                    r matches Err(AddError::NoMatchingVersion(i, t)) && i@ == id@ && t@ == q@
                },
                None => match version_req_display(max_version(versions@).spec_text()) {
                    Some(d) => r matches Ok((i, spec)) && i@ == id@ && spec_with(spec, d, self.source),
                    None => r matches Err(AddError::UnusableVersion(i)) && i@ == id@,
                },
            },
    {
        match req {
            Some(q) => {
                let mut found = false;
                for i in 0..versions.len()
                    invariant
                        found == exists|k: int|
                            0 <= k < i && version_req_matches(
                                q@,
                                (#[trigger] versions@[k]).major as nat,
                                versions@[k].minor as nat,
                                versions@[k].patch as nat,
                            ),
                {
                    if q.matches(&versions[i]) {
                        found = true;
                    }
                }
                if found {
                    Ok((id, self.spec_for(q)))
                } else {
                    let text = q.as_str().to_string();
                    Err(AddError::NoMatchingVersion(id, text))
                }
            },
            None => {
                let mut latest = versions[0];
                for i in 1..versions.len()
                    invariant
                        versions@.len() > 0,
                        latest == max_version(versions@.take(i as int)),
                {
                    assert(versions@.take(i + 1).drop_last() =~= versions@.take(i as int));
                    if !versions[i].lt(&latest) {
                        latest = versions[i];
                    }
                }
                assert(versions@.take(versions@.len() as int) =~= versions@);
                let text = latest.to_string();
                match VersionReq::parse(text.as_str()) {
                    Ok(q) => Ok((id, self.spec_for(q))),
                    Err(_) => Err(AddError::UnusableVersion(id)),
                }
            },
        }
    }

    /// What to do with the ids that a search of the index for `name` found: take the one
    /// result if its name (after the author) is `name`, otherwise ask whether it is meant;
    /// offer up to `MAX_OFFERED_RESULTS` results to pick from; refuse none or more.
    pub fn pick_search_result(results: Vec<String>, name: &str) -> (r: Result<SearchPick, AddError>)
        ensures
            results@.len() == 0 ==> (r matches Err(AddError::NotFound(n)) && n@ == name@),
            results@.len() == 1 ==> if after_first(results@[0]@, '-') == Some(name@) {
                r matches Ok(SearchPick::Accept(id)) && id@ == results@[0]@
            } else {
                r matches Ok(SearchPick::Confirm(id)) && id@ == results@[0]@
            },
            1 < results@.len() <= MAX_OFFERED_RESULTS ==> (r matches Ok(SearchPick::Select(v)) && v@ == results@),
            results@.len() > MAX_OFFERED_RESULTS ==> (r matches Err(AddError::TooManyResults(n, c)) && n@
                == name@ && c == results@.len()),
    {
        let count = results.len();
        if count == 0 {
            Err(AddError::NotFound(name.to_string()))
        } else if count == 1 {
            let id = results[0].clone();
            let (_, package_name) = split_once(id.as_str(), '-');
            let exact = match package_name {
                Some(p) => {
                    let a = str_chars(p.as_str());
                    let b = str_chars(name);
                    crate::text::chars_equal(&a, &b)
                },
                None => false,
            };
            if exact {
                Ok(SearchPick::Accept(id))
            } else {
                Ok(SearchPick::Confirm(id))
            }
        } else if count <= MAX_OFFERED_RESULTS {
            Ok(SearchPick::Select(results))
        } else {
            Err(AddError::TooManyResults(name.to_string(), count))
        }
    }

    /// The specification of a local mod at `path` whose version is `version`: the version as
    /// a requirement, with the path as its registry metadata.
    pub fn local_spec(path: String, version: &Version) -> (r: Option<ModSpec>)
        ensures
            match version_req_display(version.spec_text()) {
                Some(d) => {
                    &&& r matches Some(ModSpec::Full { version: Some(q), source: None, registry_metadata: RegistryMetadata::Object(entries) })
                    &&& q@ == d
                    &&& entries@.len() == 1
                    &&& entries@[0].0@ == seq!['p', 'a', 't', 'h']
                    &&& entries@[0].1 matches MetadataValue::Text(p)
                    &&& p@ == path@
                },
                None => r is None,
            },
    {
        let text = version.to_string();
        match VersionReq::parse(text.as_str()) {
            Ok(q) => {
                let key_chars = vec!['p', 'a', 't', 'h'];
                let key = chars_to_string(&key_chars);
                let entries = vec![(key, MetadataValue::Text(path))];
                Some(ModSpec::new(q).with_registry_metadata(RegistryMetadata::Object(entries)))
            },
            Err(_) => None,
        }
    }
}

} // verus!
