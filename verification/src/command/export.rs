use vstd::prelude::*;
use crate::command::ExportCommand;
use crate::package::{LockedPackage, Lockfile, Version};
use crate::source::Source;
use crate::text::{chars_equal, chars_to_string, last_index_of, path_push, push_path, push_str, str_chars};

verus! {

#[verifier::external_type_specification]
#[verifier::external_body]
pub struct ExThunderstoreError(thunderstore::Error);

/// Splits a package id into the namespace and name of a Thunderstore identifier by calling
/// `thunderstore::PackageIdent::try_from`: the id must hold a `-`; the namespace is what
/// precedes the last `-`, the name what follows it.
#[verifier::external_body]
fn thunderstore_ident(id: String) -> (r: Result<(String, String), thunderstore::Error>)
    ensures
        match last_index_of(id@, '-') {
            Some(k) => r matches Ok((namespace, name)) && namespace@ == id@.take(k) && name@ == id@.skip(k + 1),
            None => r is Err,
        },
{
    thunderstore::PackageIdent::try_from(id).map(|ident| (ident.namespace().to_string(), ident.name().to_string()))
}

/// A mod of an exported profile: its Thunderstore namespace and name, and its version.
#[derive(Debug)]
pub struct ExportedMod {
    pub namespace: String,
    pub name: String,
    pub version: Version,
}

/// The mods an export holds, and the ids of the packages left out because they do not come
/// from Thunderstore.
#[derive(Debug)]
pub struct ExportSelection {
    pub mods: Vec<ExportedMod>,
    pub excluded: Vec<String>,
}

/// Why a profile could not be exported.
#[derive(Debug)]
pub enum ExportError {
    /// A Thunderstore package id is not of the form `namespace-name`.
    InvalidIdent(String, thunderstore::Error),
}

/// Whether a package comes from Thunderstore.
pub open spec fn from_thunderstore(p: LockedPackage) -> bool {
    p.source@ == Source::Thunderstore.spec_name()
}

/// Whether `m` is the exported form of the package `p`.
pub open spec fn exports(m: ExportedMod, p: LockedPackage) -> bool {
    match last_index_of(p.ref_.id@, '-') {
        Some(k) => m.namespace@ == p.ref_.id@.take(k) && m.name@ == p.ref_.id@.skip(k + 1)
            && m.version == p.ref_.version,
        None => false,
    }
}

/// The packages among `pkgs` that come from Thunderstore, in order.
pub open spec fn thunderstore_packages(pkgs: Seq<LockedPackage>) -> Seq<LockedPackage>
    decreases pkgs.len(),
{
    if pkgs.len() == 0 {
        Seq::empty()
    } else {
        thunderstore_packages(pkgs.drop_last()) + if from_thunderstore(pkgs.last()) {
            seq![pkgs.last()]
        } else {
            Seq::empty()
        }
    }
}

/// The ids of the packages among `pkgs` that do not come from Thunderstore, in order.
pub open spec fn excluded_ids(pkgs: Seq<LockedPackage>) -> Seq<Seq<char>>
    decreases pkgs.len(),
{
    if pkgs.len() == 0 {
        Seq::empty()
    } else {
        excluded_ids(pkgs.drop_last()) + if !from_thunderstore(pkgs.last()) {
            seq![pkgs.last().ref_.id@]
        } else {
            Seq::empty()
        }
    }
}

/// The first Thunderstore package whose id holds no `-`, if any.
pub open spec fn first_bad_ident(pkgs: Seq<LockedPackage>) -> Option<int>
    decreases pkgs.len(),
{
    if pkgs.len() == 0 {
        None
    } else {
        match first_bad_ident(pkgs.drop_last()) {
            Some(k) => Some(k),
            None => if from_thunderstore(pkgs.last()) && last_index_of(pkgs.last().ref_.id@, '-') is None {
                Some(pkgs.len() - 1)
            } else {
                None
            },
        }
    }
}

/// The file name under which a profile named `name` is exported into a directory.
pub open spec fn export_file_name(name: Seq<char>) -> Seq<char> {
    name + ".r2z"@
}

impl ExportCommand {
    /// Where to write the export: `None` to upload it instead; the given path, or, when that
    /// is a directory (`path_is_dir`), the file `<profile name>.r2z` in it.
    pub fn target(&self, path_is_dir: bool, profile_name: &str) -> (r: Option<String>)
        ensures
            match self.path {
                None => r is None,
                Some(p) => r matches Some(t) && t@ == if path_is_dir {
                    path_push(p@, export_file_name(profile_name@))
                } else {
                    p@
                },
            },
    {
        match &self.path {
            None => None,
            Some(p) => {
                if path_is_dir {
                    let mut out = str_chars(p.as_str());
                    let mut file = str_chars(profile_name);
                    push_str(&mut file, ".r2z");
                    push_path(&mut out, &file);
                    Some(chars_to_string(&out))
                } else {
                    Some(p.clone())
                }
            },
        }
    }

    /// The mods of the lockfile to export: the Thunderstore packages, in order, each split
    /// into namespace and name; the other packages are left out. An id that cannot be split
    /// is an error.
    pub fn select_mods(lockfile: &Lockfile) -> (r: Result<ExportSelection, ExportError>)
        ensures
            match first_bad_ident(lockfile.packages@) {
                Some(k) => r matches Err(ExportError::InvalidIdent(id, _)) && id@ == lockfile.packages@[k].ref_.id@,
                None => r matches Ok(sel) && sel.mods@.len() == thunderstore_packages(lockfile.packages@).len()
                    && (forall|i: int| 0 <= i < sel.mods@.len() ==> exports(#[trigger] sel.mods@[i], thunderstore_packages(lockfile.packages@)[i]))
                    && sel.excluded@.map_values(|s: String| s@) == excluded_ids(lockfile.packages@),
            },
    {
        let pkgs = &lockfile.packages;
        let ghost ps = pkgs@;
        let thunderstore = Source::Thunderstore.name_chars();
        let mut mods: Vec<ExportedMod> = Vec::new();
        let mut excluded: Vec<String> = Vec::new();
        for i in 0..pkgs.len()
            invariant
                ps == pkgs@,
                ps == lockfile.packages@,
                thunderstore@ == Source::Thunderstore.spec_name(),
                first_bad_ident(ps.take(i as int)) is None,
                mods@.len() == thunderstore_packages(ps.take(i as int)).len(),
                forall|m: int| 0 <= m < mods@.len() ==> exports(#[trigger] mods@[m], thunderstore_packages(ps.take(i as int))[m]),
                excluded@.map_values(|s: String| s@) == excluded_ids(ps.take(i as int)),
        {
            let p = &pkgs[i];
            assert(ps.take(i + 1).drop_last() =~= ps.take(i as int));
            assert(ps.take(i + 1).last() == ps[i as int]);
            let source = str_chars(p.source.as_str());
            if chars_equal(&source, &thunderstore) {
                match thunderstore_ident(p.ref_.id.clone()) {
                    Ok((namespace, name)) => {
                        proof {
                            crate::text::lemma_last_index_of(p.ref_.id@, '-');
                        }
                        let ghost prev = mods@;
                        mods.push(ExportedMod { namespace, name, version: p.ref_.version });
                        assert forall|m: int| 0 <= m < mods@.len() implies exports(
                            #[trigger] mods@[m],
                            thunderstore_packages(ps.take(i + 1))[m],
                        ) by {
                            if m < prev.len() {
                                assert(mods@[m] == prev[m]);
                            }
                        }
                    },
                    Err(e) => {
                        proof {
                            assert(last_index_of(p.ref_.id@, '-') is None);
                            assert(from_thunderstore(ps[i as int]));
                            lemma_first_bad_ident_prefix(ps, i as int);
                        }
                        return Err(ExportError::InvalidIdent(p.ref_.id.clone(), e));
                    },
                }
            } else {
                let ghost prev = excluded@.map_values(|s: String| s@);
                excluded.push(p.ref_.id.clone());
                assert(excluded@.map_values(|s: String| s@) =~= prev.push(p.ref_.id@));
            }
            assert(excluded@.map_values(|s: String| s@) =~= excluded_ids(ps.take(i + 1)));
        }
        assert(ps.take(ps.len() as int) =~= ps);
        Ok(ExportSelection { mods, excluded })
    }
}

/// When the first `k` packages have no bad id and package `k` has one, `k` is the first.
pub proof fn lemma_first_bad_ident_prefix(pkgs: Seq<LockedPackage>, k: int)
    requires
        0 <= k < pkgs.len(),
        first_bad_ident(pkgs.take(k)) is None,
        from_thunderstore(pkgs[k]),
        last_index_of(pkgs[k].ref_.id@, '-') is None,
    ensures
        first_bad_ident(pkgs) == Some(k),
    decreases pkgs.len(),
{
    if k < pkgs.len() - 1 {
        assert(pkgs.drop_last().take(k) =~= pkgs.take(k));
        lemma_first_bad_ident_prefix(pkgs.drop_last(), k);
    } else {
        assert(pkgs.drop_last() =~= pkgs.take(k));
    }
}

/// The text `thunderstore`.
pub open spec fn thunderstore_text() -> Seq<char> {
    seq!['t', 'h', 'u', 'n', 'd', 'e', 'r', 's', 't', 'o', 'r', 'e']
}

/// Whether a package is exported depends on its source alone: the export holds, in lockfile
/// order, every package whose source is `thunderstore` (transitive or not), and exactly the
/// ids of the other packages are left out.
pub proof fn law_export_by_source(pkgs: Seq<LockedPackage>)
    ensures
        thunderstore_packages(pkgs) == pkgs.filter(|p: LockedPackage| p.source@ == thunderstore_text()),
        excluded_ids(pkgs) == pkgs.filter(|p: LockedPackage| p.source@ != thunderstore_text()).map_values(
            |p: LockedPackage| p.ref_.id@,
        ),
        thunderstore_packages(pkgs).len() + excluded_ids(pkgs).len() == pkgs.len(),
    decreases pkgs.len(),
{
    reveal(Seq::filter);
    assert(Source::Thunderstore.spec_name() == thunderstore_text());
    let yes = |p: LockedPackage| p.source@ == thunderstore_text();
    let no = |p: LockedPackage| p.source@ != thunderstore_text();
    if pkgs.len() == 0 {
        assert(pkgs.filter(yes) =~= Seq::<LockedPackage>::empty());
        assert(pkgs.filter(no).map_values(|p: LockedPackage| p.ref_.id@) =~= Seq::<Seq<char>>::empty());
    } else {
        law_export_by_source(pkgs.drop_last());
        let d = pkgs.drop_last();
        assert(pkgs.filter(yes) == if yes(pkgs.last()) {
            d.filter(yes).push(pkgs.last())
        } else {
            d.filter(yes)
        });
        assert(pkgs.filter(no) == if no(pkgs.last()) {
            d.filter(no).push(pkgs.last())
        } else {
            d.filter(no)
        });
        if no(pkgs.last()) {
            assert(d.filter(no).push(pkgs.last()).map_values(|p: LockedPackage| p.ref_.id@) =~= d.filter(
                no,
            ).map_values(|p: LockedPackage| p.ref_.id@).push(pkgs.last().ref_.id@));
        }
    }
}

} // verus!
