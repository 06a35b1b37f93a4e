use vstd::prelude::*;
use crate::text::{
    chars_equal, chars_to_string, forward_slashes, path_push, push_all, push_forward_slashes, push_path,
    push_str, split_chars, split_on, str_chars, views,
};

verus! {

/// Whether a piece of a path between separators names a directory of its own (it is neither
/// empty nor `.`).
pub open spec fn is_named_part(part: Seq<char>) -> bool {
    part.len() > 0 && part != seq!['.']
}

/// The pieces of `parts` that name directories of their own, in order.
pub open spec fn named_parts(parts: Seq<Seq<char>>) -> Seq<Seq<char>>
    decreases parts.len(),
{
    if parts.len() == 0 {
        Seq::empty()
    } else {
        named_parts(parts.drop_last()) + if is_named_part(parts.last()) {
            seq![parts.last()]
        } else {
            Seq::empty()
        }
    }
}

/// The components of a Unix path, each as the path text that `PathBuf::push` takes for it: the
/// root `/` for an absolute path, `.` for a relative path that starts with `./` (or is `.`),
/// then every piece between separators that is neither empty nor `.`.
pub open spec fn path_components(p: Seq<char>) -> Seq<Seq<char>> {
    let lead = if p.len() > 0 && p[0] == '/' {
        seq![seq!['/']]
    } else if p.len() > 0 && p[0] == '.' && (p.len() == 1 || p[1] == '/') {
        seq![seq!['.']]
    } else {
        Seq::empty()
    };
    lead + named_parts(split_on(p, '/'))
}

/// The components of the path `p` (see `path_components`).
pub fn components(p: &Vec<char>) -> (r: Vec<Vec<char>>)
    ensures
        views(r@) == path_components(p@),
{
    let ghost lead = if p@.len() > 0 && p@[0] == '/' {
        seq![seq!['/']]
    } else if p@.len() > 0 && p@[0] == '.' && (p@.len() == 1 || p@[1] == '/') {
        seq![seq!['.']]
    } else {
        Seq::<Seq<char>>::empty()
    };
    let mut r: Vec<Vec<char>> = Vec::new();
    if p.len() > 0 && p[0] == '/' {
        let v = vec!['/'];
        assert(v@ =~= seq!['/']);
        r.push(v);
    } else if p.len() > 0 && p[0] == '.' && (p.len() == 1 || p[1] == '/') {
        let v = vec!['.'];
        assert(v@ =~= seq!['.']);
        r.push(v);
    }
    assert(views(r@) =~= lead);
    let parts = split_chars(p, '/');
    let ghost all = views(parts@);
    for i in 0..parts.len()
        invariant
            all == views(parts@),
            all == split_on(p@, '/'),
            views(r@) == lead + named_parts(all.take(i as int)),
            lead + named_parts(all) == path_components(p@),
    {
        let part = &parts[i];
        let named = part.len() > 0 && !(part.len() == 1 && part[0] == '.');
        assert(named == is_named_part(part@)) by {
            if part@.len() == 1 && part@[0] == '.' {
                assert(part@ =~= seq!['.']);
            }
        }
        assert(all.take(i + 1).drop_last() =~= all.take(i as int));
        if named {
            let ghost before = views(r@);
            r.push(crate::text::copy_chars(part));
            assert(views(r@) =~= before.push(part@));
        }
        assert(views(r@) =~= lead + named_parts(all.take(i + 1)));
    }
    assert(all.take(parts.len() as int) =~= all);
    r
}

/// The lines that unignore each directory on the way down to a directory: for each
/// component, `!/<path so far>/`, each followed by a newline and four spaces.
pub open spec fn unignore_lines(comps: Seq<Seq<char>>, buf: Seq<char>) -> Seq<char>
    decreases comps.len(),
{
    if comps.len() == 0 {
        Seq::empty()
    } else {
        let next = path_push(buf, comps[0]);
        seq!['!', '/'] + forward_slashes(next) + seq!['/', '\n', ' ', ' ', ' ', ' ']
            + unignore_lines(comps.drop_first(), next)
    }
}

/// The `.gitignore` entries that unignore the directory `path` and everything in it.
pub open spec fn unignore_text(path: Seq<char>) -> Seq<char> {
    unignore_lines(path_components(path), Seq::empty()) + seq!['!', '/'] + forward_slashes(path)
        + seq!['/', '*', '*']
}

/// The `.gitignore` entries that unignore the directory `path` (written with `/` separators),
/// every directory on the way to it, and everything in it.
pub fn unignore_directory(path: &str) -> (r: String)
    ensures
        r@ == unignore_text(path@),
{
    let p = str_chars(path);
    let comps = components(&p);
    let ghost cs = views(comps@);
    let mut buf: Vec<char> = Vec::new();
    let mut out: Vec<char> = Vec::new();
    assert(cs.skip(0) =~= cs);
    assert(out@ + unignore_lines(cs, buf@) =~= unignore_lines(cs, Seq::empty()));
    for i in 0..comps.len()
        invariant
            cs == views(comps@),
            cs == path_components(p@),
            out@ + unignore_lines(cs.skip(i as int), buf@) == unignore_lines(cs, Seq::empty()),
    {
        let ghost old_buf = buf@;
        push_path(&mut buf, &comps[i]);
        let ghost before = out@;
        out.push('!');
        out.push('/');
        push_forward_slashes(&mut out, &buf);
        push_all(&mut out, &vec!['/', '\n', ' ', ' ', ' ', ' ']);
        assert(cs.skip(i as int)[0] == cs[i as int]);
        assert(cs.skip(i as int).drop_first() =~= cs.skip(i + 1));
        assert(out@ =~= before + (seq!['!', '/'] + forward_slashes(buf@) + seq![
            '/',
            '\n',
            ' ',
            ' ',
            ' ',
            ' ',
        ]));
        assert(out@ + unignore_lines(cs.skip(i + 1), buf@) =~= before + unignore_lines(
            cs.skip(i as int),
            old_buf,
        ));
    }
    assert(cs.skip(comps.len() as int) =~= Seq::<Seq<char>>::empty());
    out.push('!');
    out.push('/');
    push_forward_slashes(&mut out, &p);
    out.push('/');
    out.push('*');
    out.push('*');
    assert(out@ =~= unignore_text(path@));
    chars_to_string(&out)
}

/// The fixed part of a profile's `.gitignore`: ignore everything but the `.gitignore`, the
/// manifest and the lockfile.
pub const GITIGNORE_HEADER: &'static str = "# exclude everything by default\n/**\n\n# include gitignore, manifest and lockfile\n!/.gitignore\n!/tempest.toml\n!/tempest.lock\n";

/// The heading of the section that unignores config directories.
pub const CONFIG_DIRS_HEADING: &'static str = "\n# include config directories\n";

/// The concatenated unignore entries of each directory in `dirs`.
pub open spec fn unignore_all(dirs: Seq<Seq<char>>) -> Seq<char>
    decreases dirs.len(),
{
    if dirs.len() == 0 {
        Seq::empty()
    } else {
        unignore_all(dirs.drop_last()) + unignore_text(dirs.last())
    }
}

/// The `.gitignore` of a profile whose game keeps its config in `config_dirs`.
pub open spec fn gitignore_text(config_dirs: Seq<Seq<char>>) -> Seq<char> {
    GITIGNORE_HEADER@ + if config_dirs.len() == 0 {
        Seq::empty()
    } else {
        CONFIG_DIRS_HEADING@ + unignore_all(config_dirs) + seq!['\n']
    }
}

/// The `.gitignore` of a profile whose game keeps its config in `config_dirs`: everything
/// is ignored except the profile's own files and, when there are any, the config directories.
pub fn gitignore(config_dirs: &Vec<String>) -> (r: String)
    ensures
        r@ == gitignore_text(config_dirs@.map_values(|d: String| d@)),
{
    let ghost dirs = config_dirs@.map_values(|d: String| d@);
    let mut out: Vec<char> = Vec::new();
    push_str(&mut out, GITIGNORE_HEADER);
    if config_dirs.len() > 0 {
        push_str(&mut out, CONFIG_DIRS_HEADING);
        let ghost start = out@;
        for i in 0..config_dirs.len()
            invariant
                dirs == config_dirs@.map_values(|d: String| d@),
                out@ == start + unignore_all(dirs.take(i as int)),
        {
            let entry = unignore_directory(config_dirs[i].as_str());
            push_str(&mut out, entry.as_str());
            assert(dirs.take(i + 1).drop_last() =~= dirs.take(i as int));
            assert(out@ =~= start + unignore_all(dirs.take(i + 1)));
        }
        assert(dirs.take(config_dirs.len() as int) =~= dirs);
        out.push('\n');
    }
    assert(out@ =~= gitignore_text(dirs));
    chars_to_string(&out)
}


/// The final component of the path `p` when that names a file or directory (not the root,
/// `.` or `..`), as `Path::file_name` gives it.
pub open spec fn spec_file_name(p: Seq<char>) -> Option<Seq<char>> {
    let c = path_components(p);
    if c.len() > 0 && c.last() != seq!['/'] && c.last() != seq!['.'] && c.last() != seq!['.', '.'] {
        Some(c.last())
    } else {
        None
    }
}

/// The name of the directory of a profile: the final component of its path.
pub fn profile_name(path: &str) -> (r: Option<String>)
    ensures
        r matches Some(n) ==> spec_file_name(path@) == Some(n@),
        r is None ==> spec_file_name(path@) is None,
{
    let p = str_chars(path);
    let comps = components(&p);
    if comps.len() == 0 {
        return None;
    }
    let last = &comps[comps.len() - 1];
    let root = vec!['/'];
    let cur = vec!['.'];
    let parent = vec!['.', '.'];
    assert(root@ =~= seq!['/']);
    assert(cur@ =~= seq!['.']);
    assert(parent@ =~= seq!['.', '.']);
    assert(views(comps@).last() == last@);
    if chars_equal(last, &root) || chars_equal(last, &cur) || chars_equal(last, &parent) {
        None
    } else {
        Some(chars_to_string(last))
    }
}

/// Whether the lockfile may be replaced: it is replaced when resolving changed it, which a
/// locked profile refuses.
#[derive(PartialEq, Eq, Structural, Clone, Copy, Debug)]
pub enum LockfileUpdate {
    /// The lockfile already satisfies the manifest.
    Unchanged,
    /// The lockfile is to be replaced by the newly resolved one.
    Replace,
    /// The lockfile would change, but the profile is locked.
    Refused,
}

/// What happens to the lockfile of a profile (locked when `locked`) when resolving gave a
/// lockfile that differs from it (when `changed`).
pub fn lockfile_update(locked: bool, changed: bool) -> (r: LockfileUpdate)
    ensures
        r == if !changed {
            LockfileUpdate::Unchanged
        } else if locked {
            LockfileUpdate::Refused
        } else {
            LockfileUpdate::Replace
        },
{
    if !changed {
        LockfileUpdate::Unchanged
    } else if locked {
        LockfileUpdate::Refused
    } else {
        LockfileUpdate::Replace
    }
}

/// Whether `small` appears as a contiguous part of `big`.
pub open spec fn occurs_in(small: Seq<char>, big: Seq<char>) -> bool {
    exists|i: int| 0 <= i && i + small.len() <= big.len() && #[trigger] big.subrange(i, i + small.len()) == small
}

/// A part of `a` is a part of `a` with text added on either side.
proof fn lemma_occurs_in_extended(small: Seq<char>, a: Seq<char>, before: Seq<char>, after: Seq<char>)
    requires
        occurs_in(small, a),
    ensures
        occurs_in(small, before + a + after),
{
    let i = choose|i: int| 0 <= i && i + small.len() <= a.len() && #[trigger] a.subrange(i, i + small.len()) == small;
    let big = before + a + after;
    let j = before.len() + i;
    assert(big.subrange(j, j + small.len()) =~= small) by {
        assert forall|k: int| 0 <= k < small.len() implies big.subrange(j, j + small.len())[k] == small[k] by {
            assert(big[j + k] == a[i + k]);
            assert(a.subrange(i, i + small.len())[k] == a[i + k]);
        }
    }
}

/// The entries of every directory appear among the entries of all of them.
proof fn lemma_unignore_all_holds_each(dirs: Seq<Seq<char>>, k: int)
    requires
        0 <= k < dirs.len(),
    ensures
        occurs_in(unignore_text(dirs[k]), unignore_all(dirs)),
    decreases dirs.len(),
{
    let d = dirs.drop_last();
    let u = unignore_text(dirs[k]);
    if k < d.len() {
        lemma_unignore_all_holds_each(d, k);
        assert(d[k] == dirs[k]);
        lemma_occurs_in_extended(u, unignore_all(d), Seq::empty(), unignore_text(dirs.last()));
        assert(Seq::<char>::empty() + unignore_all(d) + unignore_text(dirs.last()) =~= unignore_all(dirs));
    } else {
        let all = unignore_all(dirs);
        let i = unignore_all(d).len() as int;
        assert(all.subrange(i, i + u.len()) =~= u);
    }
}

/// The entries that unignore a directory end by unignoring everything inside it.
pub proof fn law_unignore_ends_with_contents(path: Seq<char>)
    ensures
        unignore_text(path).len() >= forward_slashes(path).len() + 5,
        unignore_text(path).subrange(
            unignore_text(path).len() - forward_slashes(path).len() - 5,
            unignore_text(path).len() as int,
        ) == seq!['!', '/'] + forward_slashes(path) + seq!['/', '*', '*'],
{
    let tail = seq!['!', '/'] + forward_slashes(path) + seq!['/', '*', '*'];
    let head = unignore_lines(path_components(path), Seq::empty());
    assert(unignore_text(path) =~= head + tail);
    let t = unignore_text(path);
    assert(t.subrange(t.len() - tail.len(), t.len() as int) =~= tail);
}

/// A profile's `.gitignore`: with no config directories, exactly the fixed header; otherwise
/// the header, then the config-directories heading, then entries in which every config
/// directory is unignored, ending with a newline.
pub proof fn law_gitignore_sections(config_dirs: Seq<Seq<char>>)
    ensures
        config_dirs.len() == 0 ==> gitignore_text(config_dirs) == GITIGNORE_HEADER@,
        config_dirs.len() > 0 ==> {
            let t = gitignore_text(config_dirs);
            &&& t.take(GITIGNORE_HEADER@.len() as int) == GITIGNORE_HEADER@
            &&& t.subrange(
                GITIGNORE_HEADER@.len() as int,
                (GITIGNORE_HEADER@.len() + CONFIG_DIRS_HEADING@.len()) as int,
            ) == CONFIG_DIRS_HEADING@
            &&& t.last() == '\n'
            &&& forall|k: int| 0 <= k < config_dirs.len() ==> occurs_in(unignore_text(#[trigger] config_dirs[k]), t)
        },
{
    let h = GITIGNORE_HEADER@;
    let g = CONFIG_DIRS_HEADING@;
    if config_dirs.len() == 0 {
        assert(gitignore_text(config_dirs) =~= h);
    } else {
        let t = gitignore_text(config_dirs);
        let all = unignore_all(config_dirs);
        assert(t =~= (h + g) + all + seq!['\n']);
        assert(t.take(h.len() as int) =~= h);
        assert(t.subrange(h.len() as int, (h.len() + g.len()) as int) =~= g);
        assert forall|k: int| 0 <= k < config_dirs.len() implies occurs_in(unignore_text(#[trigger] config_dirs[k]), t) by {
            lemma_unignore_all_holds_each(config_dirs, k);
            lemma_occurs_in_extended(unignore_text(config_dirs[k]), all, h + g, seq!['\n']);
        }
    }
}

} // verus!
