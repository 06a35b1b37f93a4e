use vstd::prelude::*;
use crate::source::Source;
use crate::package::{Dependency, RegistryMetadata, VersionReq, star_text};
use crate::text::{chars_equal, has_segment, lowercase, segment_matches, str_chars, to_lowercase};
use indexmap::IndexMap;

verus! {

/// A profile's manifest: what the profile is for and the mods it asks for.
pub struct Manifest {
    pub profile: ProfileInfo,
    pub mods: Mods,
}

impl Manifest {
    pub fn new(profile: ProfileInfo, mods: Mods) -> (r: Manifest)
        ensures
            r.profile == profile,
            r.mods == mods,
    {
        Manifest { profile, mods }
    }
}

/// What a profile is for: its game and the source its mods come from by default.
pub struct ProfileInfo {
    pub game: String,
    pub default_source: Option<Source>,
}

impl ProfileInfo {
    /// Profile information for `game`, with no default source.
    pub fn new(game: String) -> (r: ProfileInfo)
        ensures
            r.game@ == game@,
            r.default_source is None,
    {
        ProfileInfo { game, default_source: None }
    }

    /// The same profile information, with `source` as its default source.
    pub fn with_default_source(self, source: Source) -> (r: ProfileInfo)
        ensures
            r.game@ == self.game@,
            r.default_source == Some(source),
    {
        ProfileInfo { game: self.game, default_source: Some(source) }
    }

    /// The source of mods that name none: the default source, or Thunderstore.
    pub fn source_or_default(&self) -> (r: Source)
        ensures
            r == match self.default_source {
                Some(s) => s,
                None => Source::Thunderstore,
            },
    {
        match self.default_source {
            Some(s) => s,
            None => Source::Thunderstore,
        }
    }
}

} // verus!

verus! {

#[verifier::external_type_specification]
#[verifier::external_body]
#[verifier::reject_recursive_types(K)]
#[verifier::reject_recursive_types(V)]
#[verifier::reject_recursive_types(S)]
pub struct ExIndexMap<K, V, S>(indexmap::IndexMap<K, V, S>);

/// The entries of a map of mods, in the map's order: each id with its specification.
pub uninterp spec fn mod_entries(m: &IndexMap<String, ModSpec>) -> Seq<(Seq<char>, ModSpec)>;

/// The position of the entry for `key` in `entries`, if there is one.
pub open spec fn key_position(entries: Seq<(Seq<char>, ModSpec)>, key: Seq<char>) -> Option<int>
    decreases entries.len(),
{
    if entries.len() == 0 {
        None
    } else {
        match key_position(entries.drop_last(), key) {
            Some(i) => Some(i),
            None => if entries.last().0 == key {
                Some(entries.len() - 1)
            } else {
                None
            },
        }
    }
}

/// Calls `IndexMap::new`: the map is empty.
#[verifier::external_body]
fn map_new() -> (r: IndexMap<String, ModSpec>)
    ensures
        mod_entries(&r) == Seq::<(Seq<char>, ModSpec)>::empty(),
{
    IndexMap::new()
}

/// Calls `IndexMap::insert`: an existing entry for the key keeps its place and gets the new
/// value, the old value being returned; otherwise the entry is added last.
#[verifier::external_body]
fn map_insert(m: &mut IndexMap<String, ModSpec>, key: String, value: ModSpec) -> (r: Option<ModSpec>)
    ensures
        match key_position(mod_entries(old(m)), key@) {
            Some(i) => mod_entries(final(m)) == mod_entries(old(m)).update(i, (key@, value)) && r
                == Some(mod_entries(old(m))[i].1),
            None => mod_entries(final(m)) == mod_entries(old(m)).push((key@, value)) && r is None,
        },
{
    m.insert(key, value)
}

/// Calls `IndexMap::get`: the value of the entry for the key, if there is one.
#[verifier::external_body]
fn map_get<'a>(m: &'a IndexMap<String, ModSpec>, key: &String) -> (r: Option<&'a ModSpec>)
    ensures
        match key_position(mod_entries(m), key@) {
            Some(i) => r matches Some(v) && *v == mod_entries(m)[i].1,
            None => r is None,
        },
{
    m.get(key)
}

/// Calls `IndexMap::shift_remove`: the entry for the key is removed, the entries after it
/// keeping their order, and its value is returned.
#[verifier::external_body]
fn map_shift_remove(m: &mut IndexMap<String, ModSpec>, key: &String) -> (r: Option<ModSpec>)
    ensures
        match key_position(mod_entries(old(m)), key@) {
            Some(i) => mod_entries(final(m)) == mod_entries(old(m)).remove(i) && r == Some(
                mod_entries(old(m))[i].1,
            ),
            None => mod_entries(final(m)) == mod_entries(old(m)) && r is None,
        },
{
    m.shift_remove(key)
}

/// Calls `IndexMap::iter`, handing out the entries in order; no two entries have the same key.
#[verifier::external_body]
fn map_entries<'a>(m: &'a IndexMap<String, ModSpec>) -> (r: Vec<(&'a String, &'a ModSpec)>)
    ensures
        r@.len() == mod_entries(m).len(),
        forall|i: int| 0 <= i < r@.len() ==> (#[trigger] r@[i]).0@ == mod_entries(m)[i].0 && *r@[i].1
            == mod_entries(m)[i].1,
        forall|i: int, j: int| 0 <= i < j < r@.len() ==> (#[trigger] r@[i]).0@ != (#[trigger] r@[j]).0@,
{
    m.iter().collect()
}

/// Calls `IndexMap::into_iter`, handing out the entries in order.
#[verifier::external_body]
fn map_into_entries(m: IndexMap<String, ModSpec>) -> (r: Vec<(String, ModSpec)>)
    ensures
        r@.len() == mod_entries(&m).len(),
        forall|i: int| 0 <= i < r@.len() ==> (#[trigger] r@[i]).0@ == mod_entries(&m)[i].0 && r@[i].1
            == mod_entries(&m)[i].1,
{
    m.into_iter().collect()
}

/// Whether `d` is the dependency that the specification `spec` of the mod `id` declares: its
/// requirement is the one given (`*` when none is); its source is the one named, else the one
/// the metadata suggests, else `default_source`; it carries the metadata of a full
/// specification unless that is `null` or an empty object.
pub open spec fn declares(d: Dependency, id: Seq<char>, spec: ModSpec, default_source: Source) -> bool {
    &&& d.id@ == id
    &&& d.version_req@ == spec.spec_version_req()
    &&& d.source@ == spec.spec_source(default_source).spec_name()
    &&& d.registry_metadata == match spec {
        ModSpec::Simple(_) => None,
        ModSpec::Full { registry_metadata, .. } => if metadata_is_empty(registry_metadata) {
            None
        } else {
            Some(registry_metadata)
        },
    }
}

/// How a mod is specified in the manifest: just a version requirement, or in full with an
/// optional requirement, an optional source and registry metadata.
#[derive(Debug, Clone)]
pub enum ModSpec {
    Simple(VersionReq),
    Full { version: Option<VersionReq>, source: Option<Source>, registry_metadata: RegistryMetadata },
}

/// Whether the metadata is a JSON object with an entry `key`.
pub open spec fn metadata_has_key(md: RegistryMetadata, key: Seq<char>) -> bool {
    &&& md is Object
    &&& exists|i: int| 0 <= i < md->Object_0@.len() && (#[trigger] md->Object_0@[i]).0@ == key
}

/// Whether the metadata carries nothing: JSON `null` or an empty object.
pub open spec fn metadata_is_empty(md: RegistryMetadata) -> bool {
    match md {
        RegistryMetadata::Null => true,
        RegistryMetadata::Object(entries) => entries@.len() == 0,
        RegistryMetadata::Other(_) => false,
    }
}

/// The key whose presence in the metadata marks a local mod.
pub open spec fn path_key() -> Seq<char> {
    seq!['p', 'a', 't', 'h']
}

/// The key whose presence in the metadata marks a GitHub mod.
pub open spec fn repo_key() -> Seq<char> {
    seq!['r', 'e', 'p', 'o']
}

/// Whether `md` is an object with an entry `key`.
fn has_key(md: &RegistryMetadata, key: &Vec<char>) -> (r: bool)
    ensures
        r == metadata_has_key(*md, key@),
{
    match md {
        RegistryMetadata::Object(entries) => {
            for i in 0..entries.len()
                invariant
                    *md == RegistryMetadata::Object(*entries),
                    forall|k: int| 0 <= k < i ==> (#[trigger] entries@[k]).0@ != key@,
            {
                let k = str_chars(entries[i].0.as_str());
                if chars_equal(&k, key) {
                    assert(entries@[i as int].0@ == key@);
                    assert(md->Object_0 == *entries);
                    assert(md->Object_0@[i as int].0@ == key@);
                    assert(metadata_has_key(*md, key@));

                    return true;
                }
            }
            false
        },
        _ => false,
    }
}

impl ModSpec {
    /// The source that the metadata of a full specification suggests: local when it names a
    /// `path`, GitHub when it names a `repo`.
    pub open spec fn spec_guess_source(self) -> Option<Source> {
        match self {
            ModSpec::Full { registry_metadata, .. } => if metadata_has_key(registry_metadata, path_key()) {
                Some(Source::Local)
            } else if metadata_has_key(registry_metadata, repo_key()) {
                Some(Source::Github)
            } else {
                None
            },
            ModSpec::Simple(_) => None,
        }
    }

    /// The version requirement, `*` when a full specification names none.
    pub open spec fn spec_version_req(self) -> Seq<char> {
        match self {
            ModSpec::Simple(r) => r@,
            ModSpec::Full { version, .. } => match version {
                Some(r) => r@,
                None => star_text(),
            },
        }
    }

    /// The source the mod comes from: the one named, else the guessed one, else `default`.
    pub open spec fn spec_source(self, default: Source) -> Source {
        let named = match self {
            ModSpec::Full { source, .. } => source,
            ModSpec::Simple(_) => None,
        };
        match named {
            Some(s) => s,
            None => match self.spec_guess_source() {
                Some(s) => s,
                None => default,
            },
        }
    }

    /// A specification of just a version requirement.
    pub fn new(version_req: VersionReq) -> (r: ModSpec)
        ensures
            r == ModSpec::Simple(version_req),
    {
        ModSpec::Simple(version_req)
    }

    /// The same specification, coming from `source`.
    pub fn with_source(self, source: Source) -> (r: ModSpec)
        ensures
            r == match self {
                ModSpec::Simple(range) => ModSpec::Full {
                    version: Some(range),
                    source: Some(source),
                    registry_metadata: RegistryMetadata::Null,
                },
                ModSpec::Full { version, registry_metadata, .. } => ModSpec::Full {
                    version,
                    source: Some(source),
                    registry_metadata,
                },
            },
    {
        match self {
            ModSpec::Simple(range) => ModSpec::Full {
                version: Some(range),
                source: Some(source),
                registry_metadata: RegistryMetadata::Null,
            },
            ModSpec::Full { version, registry_metadata, .. } => ModSpec::Full {
                version,
                source: Some(source),
                registry_metadata,
            },
        }
    }

    /// The same specification, with `metadata` as its registry metadata.
    pub fn with_registry_metadata(self, metadata: RegistryMetadata) -> (r: ModSpec)
        ensures
            r == match self {
                ModSpec::Simple(range) => ModSpec::Full {
                    version: Some(range),
                    source: None,
                    registry_metadata: metadata,
                },
                ModSpec::Full { version, source, .. } => ModSpec::Full {
                    version,
                    source,
                    registry_metadata: metadata,
                },
            },
    {
        match self {
            ModSpec::Simple(range) => ModSpec::Full {
                version: Some(range),
                source: None,
                registry_metadata: metadata,
            },
            ModSpec::Full { version, source, .. } => ModSpec::Full {
                version,
                source,
                registry_metadata: metadata,
            },
        }
    }

    /// The source that the metadata suggests (see `spec_guess_source`).
    pub fn guess_source(&self) -> (r: Option<Source>)
        ensures
            r == self.spec_guess_source(),
    {
        match self {
            ModSpec::Full { registry_metadata, .. } => {
                let path = vec!['p', 'a', 't', 'h'];
                let repo = vec!['r', 'e', 'p', 'o'];
                assert(path@ =~= path_key());
                assert(repo@ =~= repo_key());
                if has_key(registry_metadata, &path) {
                    Some(Source::Local)
                } else if has_key(registry_metadata, &repo) {
                    Some(Source::Github)
                } else {
                    None
                }
            },
            ModSpec::Simple(_) => None,
        }
    }

    /// The dependency on the package `package_id` that this specification declares.
    ///
    /// Its requirement is the one given (`*` when none is); its source is the one named, else
    /// the one the metadata suggests, else `default_source`; it carries the metadata of a full
    /// specification unless that is `null` or an empty object.
    pub fn into_dependency(self, package_id: String, default_source: Source) -> (r: Dependency)
        ensures
            declares(r, package_id@, self, default_source),
    {
        let guessed = self.guess_source();
        let (version_req, named, metadata) = match self {
            ModSpec::Simple(range) => (range, None, None),
            ModSpec::Full { version, source, registry_metadata } => {
                let req = match version {
                    Some(r) => r,
                    None => VersionReq::star(),
                };
                let empty = match &registry_metadata {
                    RegistryMetadata::Null => true,
                    RegistryMetadata::Object(entries) => entries.len() == 0,
                    RegistryMetadata::Other(_) => false,
                };
                (req, source, if empty {
                    None
                } else {
                    Some(registry_metadata)
                })
            },
        };
        let source = match named {
            Some(s) => s,
            None => match guessed {
                Some(s) => s,
                None => default_source,
            },
        };
        let mut dep = Dependency::new(package_id, version_req, source.to_string());
        dep.registry_metadata = metadata;
        dep
    }
}

/// The mods of a manifest, by id, in the order in which they were added.
pub struct Mods(IndexMap<String, ModSpec>);

/// Whether the id `id`, in lowercase, has the lowercase `query` as one of its `-`-separated
/// pieces.
pub open spec fn id_matches(id: Seq<char>, query: Seq<char>) -> bool {
    has_segment(lowercase(id), lowercase(query))
}

/// The entries whose id matches `query` (see `id_matches`), in order.
pub open spec fn matching_entries(entries: Seq<(Seq<char>, ModSpec)>, query: Seq<char>) -> Seq<(Seq<char>, ModSpec)>
    decreases entries.len(),
{
    if entries.len() == 0 {
        Seq::empty()
    } else {
        matching_entries(entries.drop_last(), query) + if id_matches(entries.last().0, query) {
            seq![entries.last()]
        } else {
            Seq::empty()
        }
    }
}

/// The entries handed out as references, as values.
pub open spec fn entry_values(v: Seq<(&String, &ModSpec)>) -> Seq<(Seq<char>, ModSpec)> {
    v.map_values(|e: (&String, &ModSpec)| (e.0@, *e.1))
}

/// Why a mod could not be picked out by a query.
#[derive(Debug)]
pub enum SearchError {
    /// No mod matches the query.
    NoMatch(String),
    /// Several mods match the query.
    Multiple(String),
}

impl Mods {
    /// The entries of the map, in order.
    pub closed spec fn entries(&self) -> Seq<(Seq<char>, ModSpec)> {
        mod_entries(&self.0)
    }

    /// The mods held by `mods`.
    pub fn new(mods: IndexMap<String, ModSpec>) -> (r: Mods)
        ensures
            r.entries() == mod_entries(&mods),
    {
        Mods(mods)
    }

    /// No mods.
    pub fn empty() -> (r: Mods)
        ensures
            r.entries() == Seq::<(Seq<char>, ModSpec)>::empty(),
    {
        Mods(map_new())
    }

    /// Sets the specification of the mod `package_id`, returning the one it replaces. A mod
    /// already present keeps its place; a new one comes last.
    pub fn insert(&mut self, package_id: String, mod_: ModSpec) -> (r: Option<ModSpec>)
        ensures
            match key_position(old(self).entries(), package_id@) {
                Some(i) => final(self).entries() == old(self).entries().update(i, (package_id@, mod_))
                    && r == Some(old(self).entries()[i].1),
                None => final(self).entries() == old(self).entries().push((package_id@, mod_)) && r is None,
            },
    {
        map_insert(&mut self.0, package_id, mod_)
    }

    /// The specification of the mod `package_id`.
    pub fn get(&self, package_id: &String) -> (r: Option<&ModSpec>)
        ensures
            match key_position(self.entries(), package_id@) {
                Some(i) => r matches Some(v) && *v == self.entries()[i].1,
                None => r is None,
            },
    {
        map_get(&self.0, package_id)
    }

    /// Removes the mod `package_id`, returning its specification; the other mods keep their
    /// order.
    pub fn remove(&mut self, package_id: &String) -> (r: Option<ModSpec>)
        ensures
            match key_position(old(self).entries(), package_id@) {
                Some(i) => final(self).entries() == old(self).entries().remove(i) && r == Some(
                    old(self).entries()[i].1,
                ),
                None => final(self).entries() == old(self).entries() && r is None,
            },
    {
        map_shift_remove(&mut self.0, package_id)
    }

    /// The mods, each id with its specification, in order; no id occurs twice.
    pub fn iter(&self) -> (r: Vec<(&String, &ModSpec)>)
        ensures
            entry_values(r@) == self.entries(),
            forall|i: int, j: int| 0 <= i < j < r@.len() ==> (#[trigger] r@[i]).0@ != (#[trigger] r@[j]).0@,
    {
        let r = map_entries(&self.0);
        assert(entry_values(r@) =~= self.entries());
        r
    }

    /// The dependencies that the mods declare, in order (see `declares`).
    pub fn into_dependencies(self, default_source: Source) -> (r: Vec<Dependency>)
        ensures
            r@.len() == self.entries().len(),
            forall|i: int| 0 <= i < r@.len() ==> declares(
                #[trigger] r@[i],
                self.entries()[i].0,
                self.entries()[i].1,
                default_source,
            ),
    {
        let ghost es = self.entries();
        let mut entries = map_into_entries(self.0);
        let mut r: Vec<Dependency> = Vec::new();
        let n = entries.len();
        let mut pending: Vec<(String, ModSpec)> = Vec::new();
        while entries.len() > 0
            invariant
                entries@.len() + pending@.len() == n,
                n == es.len(),
                forall|i: int| 0 <= i < entries@.len() ==> (#[trigger] entries@[i]).0@ == es[i].0 && entries@[i].1 == es[i].1,
                forall|i: int| 0 <= i < pending@.len() ==> (#[trigger] pending@[i]).0@ == es[n - 1 - i].0 && pending@[i].1 == es[n - 1 - i].1,
            decreases entries@.len(),
        {
            let e = entries.pop().unwrap();
            pending.push(e);
        }
        while pending.len() > 0
            invariant
                pending@.len() + r@.len() == n,
                n == es.len(),
                forall|i: int| 0 <= i < pending@.len() ==> (#[trigger] pending@[i]).0@ == es[n - 1 - i].0 && pending@[i].1 == es[n - 1 - i].1,
                forall|i: int| 0 <= i < r@.len() ==> declares(#[trigger] r@[i], es[i].0, es[i].1, default_source),
            decreases pending@.len(),
        {
            let (id, spec) = pending.pop().unwrap();
            let d = spec.into_dependency(id, default_source);
            r.push(d);
        }
        r
    }

    /// The mods whose id matches `query` (see `id_matches`), in order.
    pub fn search<'a>(&'a self, query: &str) -> (r: Vec<(&'a String, &'a ModSpec)>)
        ensures
            entry_values(r@) == matching_entries(self.entries(), query@),
    {
        let ghost es = self.entries();
        let entries = map_entries(&self.0);
        let lower_query = str_chars(to_lowercase(query).as_str());
        let mut r: Vec<(&'a String, &'a ModSpec)> = Vec::new();
        for i in 0..entries.len()
            invariant
                es == self.entries(),
                entries@.len() == es.len(),
                forall|i: int| 0 <= i < entries@.len() ==> (#[trigger] entries@[i]).0@ == es[i].0 && *entries@[i].1 == es[i].1,
                lower_query@ == lowercase(query@),
                entry_values(r@) == matching_entries(es.take(i as int), query@),
        {
            let (id, spec) = entries[i];
            let lower = str_chars(to_lowercase(id.as_str()).as_str());
            assert(es.take(i + 1).drop_last() =~= es.take(i as int));
            assert(es.take(i + 1).last() == es[i as int]);
            let ghost prev = entry_values(r@);
            if segment_matches(&lower, &lower_query) {
                r.push((id, spec));
                assert(entry_values(r@) =~= prev.push((id@, *spec)));
            }
            assert(entry_values(r@) =~= matching_entries(es.take(i + 1), query@));
        }
        assert(es.take(entries@.len() as int) =~= es);
        r
    }

    /// The one mod whose id matches `query`; an error when none or several do.
    pub fn search_one<'a>(&'a self, query: &str) -> (r: Result<(&'a String, &'a ModSpec), SearchError>)
        ensures
            matching_entries(self.entries(), query@).len() == 1 ==> (r matches Ok(e) && (e.0@, *e.1)
                == matching_entries(self.entries(), query@)[0]),
            matching_entries(self.entries(), query@).len() == 0 ==> (r matches Err(SearchError::NoMatch(q)) && q@ == query@),
            matching_entries(self.entries(), query@).len() > 1 ==> (r matches Err(SearchError::Multiple(q)) && q@ == query@),
    {
        let results = self.search(query);
        if results.len() == 1 {
            Ok(results[0])
        } else if results.len() == 0 {
            Err(SearchError::NoMatch(query.to_string()))
        } else {
            Err(SearchError::Multiple(query.to_string()))
        }
    }

    /// The mod with the id `name`, or else the one mod whose id matches `name` (see
    /// `search_one`).
    pub fn get_or_search<'a>(&'a self, name: &'a String) -> (r: Result<(&'a String, &'a ModSpec), SearchError>)
        ensures
            match key_position(self.entries(), name@) {
                Some(i) => r matches Ok(e) && e.0@ == name@ && *e.1 == self.entries()[i].1,
                None => {
                    &&& matching_entries(self.entries(), name@).len() == 1 ==> (r matches Ok(e) && (e.0@, *e.1)
                        == matching_entries(self.entries(), name@)[0])
                    &&& matching_entries(self.entries(), name@).len() == 0 ==> (r matches Err(SearchError::NoMatch(q)) && q@ == name@)
                    &&& matching_entries(self.entries(), name@).len() > 1 ==> (r matches Err(SearchError::Multiple(q)) && q@ == name@)
                },
            },
    {
        match self.get(name) {
            Some(spec) => Ok((name, spec)),
            None => self.search_one(name.as_str()),
        }
    }
}


/// The specification recorded for `key` in `entries`, if any.
pub open spec fn spec_lookup(entries: Seq<(Seq<char>, ModSpec)>, key: Seq<char>) -> Option<ModSpec> {
    match key_position(entries, key) {
        Some(i) => Some(entries[i].1),
        None => None,
    }
}

/// The entries after setting the specification of `key` to `value` (see `Mods::insert`).
pub open spec fn after_insert(entries: Seq<(Seq<char>, ModSpec)>, key: Seq<char>, value: ModSpec) -> Seq<(Seq<char>, ModSpec)> {
    match key_position(entries, key) {
        Some(i) => entries.update(i, (key, value)),
        None => entries.push((key, value)),
    }
}

/// The entries after removing the one for `key` (see `Mods::remove`).
pub open spec fn after_remove(entries: Seq<(Seq<char>, ModSpec)>, key: Seq<char>) -> Seq<(Seq<char>, ModSpec)> {
    match key_position(entries, key) {
        Some(i) => entries.remove(i),
        None => entries,
    }
}

/// No two entries have the same key.
pub open spec fn keys_distinct(entries: Seq<(Seq<char>, ModSpec)>) -> bool {
    forall|i: int, j: int| 0 <= i < j < entries.len() ==> #[trigger] entries[i].0 != #[trigger] entries[j].0
}

/// `key_position` finds the first entry with the key, and only such an entry.
pub proof fn lemma_key_position(entries: Seq<(Seq<char>, ModSpec)>, key: Seq<char>)
    ensures
        match key_position(entries, key) {
            Some(i) => 0 <= i < entries.len() && entries[i].0 == key && forall|j: int|
                0 <= j < i ==> #[trigger] entries[j].0 != key,
            None => forall|j: int| 0 <= j < entries.len() ==> #[trigger] entries[j].0 != key,
        },
    decreases entries.len(),
{
    if entries.len() > 0 {
        let d = entries.drop_last();
        lemma_key_position(d, key);
        assert forall|j: int| 0 <= j < d.len() implies #[trigger] entries[j] == d[j] by {}
    }
}

/// A position is the key's position exactly when it holds the key and no earlier one does.
proof fn lemma_key_position_is(entries: Seq<(Seq<char>, ModSpec)>, key: Seq<char>, i: int)
    requires
        0 <= i < entries.len(),
        entries[i].0 == key,
        forall|j: int| 0 <= j < i ==> #[trigger] entries[j].0 != key,
    ensures
        key_position(entries, key) == Some(i),
{
    lemma_key_position(entries, key);
    match key_position(entries, key) {
        Some(k) => {
            if k < i {
                assert(entries[k].0 != key);
            } else if k > i {
                assert(entries[i].0 != key);
            }
        },
        None => {
            assert(entries[i].0 != key);
        },
    }
}

/// Reading a key after setting it gives the value set.
pub proof fn law_get_after_insert(entries: Seq<(Seq<char>, ModSpec)>, key: Seq<char>, value: ModSpec)
    ensures
        spec_lookup(after_insert(entries, key, value), key) == Some(value),
{
    lemma_key_position(entries, key);
    let e = after_insert(entries, key, value);
    match key_position(entries, key) {
        Some(i) => {
            lemma_key_position_is(e, key, i);
        },
        None => {
            lemma_key_position_is(e, key, entries.len() as int);
        },
    }
}

/// Setting one key leaves what every other key reads unchanged.
pub proof fn law_insert_keeps_others(
    entries: Seq<(Seq<char>, ModSpec)>,
    key: Seq<char>,
    value: ModSpec,
    other: Seq<char>,
)
    requires
        other != key,
    ensures
        spec_lookup(after_insert(entries, key, value), other) == spec_lookup(entries, other),
{
    lemma_key_position(entries, key);
    lemma_key_position(entries, other);
    let e = after_insert(entries, key, value);
    assert forall|j: int| 0 <= j < entries.len() implies #[trigger] e[j].0 == entries[j].0 by {}
    match key_position(entries, other) {
        Some(i) => {
            assert(e[i] == entries[i]);
            lemma_key_position_is(e, other, i);
        },
        None => {
            lemma_key_position(e, other);
            match key_position(e, other) {
                Some(k) => {
                    if k < entries.len() {
                        assert(entries[k].0 != other);
                    }
                },
                None => {},
            }
        },
    }
}

/// After a key is removed, it reads as absent.
pub proof fn law_get_after_remove(entries: Seq<(Seq<char>, ModSpec)>, key: Seq<char>)
    requires
        keys_distinct(entries),
    ensures
        spec_lookup(after_remove(entries, key), key) is None,
{
    lemma_key_position(entries, key);
    let e = after_remove(entries, key);
    lemma_key_position(e, key);
    match key_position(entries, key) {
        Some(i) => {
            match key_position(e, key) {
                Some(k) => {
                    if k < i {
                        assert(e[k] == entries[k]);
                    } else {
                        assert(e[k] == entries[k + 1]);
                        assert(entries[i].0 != entries[k + 1].0);
                    }
                },
                None => {},
            }
        },
        None => {},
    }
}

/// Removing a key that was just added gives back the entries from before.
pub proof fn law_remove_undoes_new_insert(entries: Seq<(Seq<char>, ModSpec)>, key: Seq<char>, value: ModSpec)
    requires
        key_position(entries, key) is None,
    ensures
        after_remove(after_insert(entries, key, value), key) == entries,
{
    law_get_after_insert(entries, key, value);
    let e = after_insert(entries, key, value);
    lemma_key_position(entries, key);
    lemma_key_position_is(e, key, entries.len() as int);
    assert(e.remove(entries.len() as int) =~= entries);
}

/// Setting and removing keys keeps the keys distinct.
pub proof fn law_updates_keep_keys_distinct(
    entries: Seq<(Seq<char>, ModSpec)>,
    key: Seq<char>,
    value: ModSpec,
)
    requires
        keys_distinct(entries),
    ensures
        keys_distinct(after_insert(entries, key, value)),
        keys_distinct(after_remove(entries, key)),
{
    lemma_key_position(entries, key);
    let a = after_insert(entries, key, value);
    let r = after_remove(entries, key);
    match key_position(entries, key) {
        Some(i) => {
            assert forall|x: int, y: int| 0 <= x < y < a.len() implies #[trigger] a[x].0 != #[trigger] a[y].0 by {
                assert(a[x].0 == entries[x].0 && a[y].0 == entries[y].0);
            }
            assert forall|x: int, y: int| 0 <= x < y < r.len() implies #[trigger] r[x].0 != #[trigger] r[y].0 by {
                let x0 = if x < i { x } else { x + 1 };
                let y0 = if y < i { y } else { y + 1 };
                assert(r[x] == entries[x0] && r[y] == entries[y0]);
            }
        },
        None => {
            assert forall|x: int, y: int| 0 <= x < y < a.len() implies #[trigger] a[x].0 != #[trigger] a[y].0 by {
                if y < entries.len() {
                    assert(a[x] == entries[x] && a[y] == entries[y]);
                } else {
                    assert(a[x] == entries[x]);
                }
            }
        },
    }
}

/// What a mod's dependency asks for, in terms of its specification: the requirement given
/// (`*` only when a full specification gives none); the source named, else `local` when the
/// metadata has a `path`, else `github` when it has a `repo`, else the default (a simple
/// specification always takes the default); and the metadata of a full specification unless
/// it is `null` or an empty object.
pub proof fn law_dependency_of_spec(d: Dependency, id: Seq<char>, spec: ModSpec, default_source: Source)
    requires
        declares(d, id, spec, default_source),
    ensures
        d.id@ == id,
        spec matches ModSpec::Simple(q) ==> d.version_req@ == q@ && d.source@ == default_source.spec_name()
            && d.registry_metadata is None,
        spec matches ModSpec::Full { version: Some(q), .. } ==> d.version_req@ == q@,
        spec matches ModSpec::Full { version: None, .. } ==> d.version_req@ == seq!['*'],
        spec matches ModSpec::Full { source: Some(s), .. } ==> d.source@ == s.spec_name(),
        spec matches ModSpec::Full { source: None, registry_metadata: md, .. } ==> d.source@ == (if md matches RegistryMetadata::Object(
            entries,
        ) && exists|i: int| 0 <= i < entries@.len() && (#[trigger] entries@[i]).0@ == seq!['p', 'a', 't', 'h'] {
            Source::Local
        } else if md matches RegistryMetadata::Object(entries) && exists|i: int|
            0 <= i < entries@.len() && (#[trigger] entries@[i]).0@ == seq!['r', 'e', 'p', 'o'] {
            Source::Github
        } else {
            default_source
        }).spec_name(),
        spec matches ModSpec::Full { registry_metadata: md, .. } ==> d.registry_metadata == (if md is Null || (
        md matches RegistryMetadata::Object(entries) && entries@.len() == 0) {
            None
        } else {
            Some(md)
        }),
{
    assert(path_key() == seq!['p', 'a', 't', 'h']);
    assert(repo_key() == seq!['r', 'e', 'p', 'o']);
    assert(star_text() == seq!['*']);
}

} // verus!
