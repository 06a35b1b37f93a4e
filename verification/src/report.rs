use vstd::prelude::*;
use crate::package::PackageRef;
use crate::text::{chars_to_string, push_all, push_decimal, push_str, str_chars, decimal};

verus! {

/// How important a message is.
#[derive(PartialEq, Eq, Structural, Clone, Copy, Debug)]
pub enum LogLevel {
    Debug,
    Info,
}

/// A message to show the user.
pub struct LogLine {
    pub level: LogLevel,
    pub text: String,
}

/// The messages as level and text.
pub open spec fn lines_view(lines: Seq<LogLine>) -> Seq<(LogLevel, Seq<char>)> {
    lines.map_values(|l: LogLine| (l.level, l.text@))
}

/// How two lockfiles differ: the packages only the new one has, those only the old one has,
/// and those both have with a different version or checksum (old, new).
pub struct LockfileDiff {
    pub added: Vec<PackageRef>,
    pub removed: Vec<PackageRef>,
    pub changed: Vec<(PackageRef, PackageRef)>,
}

impl LockfileDiff {
    pub open spec fn spec_is_empty(&self) -> bool {
        self.added@.len() == 0 && self.removed@.len() == 0 && self.changed@.len() == 0
    }

    /// Whether nothing was added, removed or changed.
    pub fn is_empty(&self) -> (r: bool)
        ensures
            r == self.spec_is_empty(),
    {
        self.added.len() == 0 && self.removed.len() == 0 && self.changed.len() == 0
    }
}

/// `old -> new`, the versions of a changed package.
pub open spec fn versions_text(old: PackageRef, new: PackageRef) -> Seq<char> {
    old.id@ + ": "@ + old.version.spec_text() + " -> "@ + new.version.spec_text()
}

/// The message for a changed package: `<id> changed` when the version stayed the same,
/// otherwise `upgraded` or `downgraded` and the versions.
pub open spec fn change_text(old: PackageRef, new: PackageRef) -> Seq<char> {
    if old.version == new.version {
        old.id@ + " changed"@
    } else if old.version.spec_lt(new.version) {
        "upgraded "@ + versions_text(old, new)
    } else {
        "downgraded "@ + versions_text(old, new)
    }
}

/// The messages describing how the lockfile changed.
pub open spec fn diff_text(added: Seq<PackageRef>, removed: Seq<PackageRef>, changed: Seq<(PackageRef, PackageRef)>) -> Seq<(LogLevel, Seq<char>)> {
    if added.len() == 0 && removed.len() == 0 && changed.len() == 0 {
        seq![(LogLevel::Debug, "lockfile satisfies manifest, no changes needed"@)]
    } else {
        added.map_values(|p: PackageRef| (LogLevel::Info, "added "@ + p.spec_text()))
            + removed.map_values(|p: PackageRef| (LogLevel::Info, "removed "@ + p.id@))
            + changed.map_values(|c: (PackageRef, PackageRef)| (LogLevel::Info, change_text(c.0, c.1)))
    }
}

fn line(level: LogLevel, chars: &Vec<char>) -> (r: LogLine)
    ensures
        r.level == level,
        r.text@ == chars@,
{
    LogLine { level, text: chars_to_string(chars) }
}

fn push_versions(out: &mut Vec<char>, from: &PackageRef, to: &PackageRef)
    ensures
        final(out)@ == old(out)@ + versions_text(*from, *to),
{
    let id = str_chars(from.id.as_str());
    push_all(out, &id);
    push_str(out, ": ");
    from.version.push_text(out);
    push_str(out, " -> ");
    to.version.push_text(out);
    assert(out@ =~= old(out)@ + versions_text(*from, *to));
}

fn change_line(old: &PackageRef, new: &PackageRef) -> (r: Vec<char>)
    ensures
        r@ == change_text(*old, *new),
{
    let mut out: Vec<char> = Vec::new();
    if old.version == new.version {
        let id = str_chars(old.id.as_str());
        push_all(&mut out, &id);
        push_str(&mut out, " changed");
    } else if old.version.lt(&new.version) {
        push_str(&mut out, "upgraded ");
        push_versions(&mut out, old, new);
    } else {
        push_str(&mut out, "downgraded ");
        push_versions(&mut out, old, new);
    }
    assert(out@ =~= change_text(*old, *new));
    out
}

/// The messages for the added and the removed packages.
fn head_lines(diff: &LockfileDiff) -> (r: Vec<LogLine>)
    ensures
        lines_view(r@) == diff.added@.map_values(|p: PackageRef| (LogLevel::Info, "added "@ + p.spec_text()))
            + diff.removed@.map_values(|p: PackageRef| (LogLevel::Info, "removed "@ + p.id@)),
{
    let mut r: Vec<LogLine> = Vec::new();
    let ghost added = diff.added@.map_values(|p: PackageRef| (LogLevel::Info, "added "@ + p.spec_text()));
    let ghost removed = diff.removed@.map_values(|p: PackageRef| (LogLevel::Info, "removed "@ + p.id@));
    for i in 0..diff.added.len()
        invariant
            lines_view(r@) == added.take(i as int),
            added == diff.added@.map_values(|p: PackageRef| (LogLevel::Info, "added "@ + p.spec_text())),
    {
        let mut text = str_chars("added ");
        diff.added[i].push_text(&mut text);
        let ghost prev = lines_view(r@);
        r.push(line(LogLevel::Info, &text));
        assert(lines_view(r@) =~= prev.push(added[i as int]));
        assert(added.take(i + 1) =~= added.take(i as int).push(added[i as int]));
    }
    assert(added.take(diff.added@.len() as int) =~= added);
    for i in 0..diff.removed.len()
        invariant
            lines_view(r@) == added + removed.take(i as int),
            removed == diff.removed@.map_values(|p: PackageRef| (LogLevel::Info, "removed "@ + p.id@)),
    {
        let mut text = str_chars("removed ");
        let id = str_chars(diff.removed[i].id.as_str());
        push_all(&mut text, &id);
        let ghost prev = lines_view(r@);
        r.push(line(LogLevel::Info, &text));
        assert(lines_view(r@) =~= prev.push(removed[i as int]));
        assert(added + removed.take(i + 1) =~= (added + removed.take(i as int)).push(removed[i as int]));
    }
    assert(removed.take(diff.removed@.len() as int) =~= removed);
    r
}

/// The messages describing how the lockfile changed: a note that nothing changed, or one line
/// per added, removed and changed package.
pub fn diff_lines(diff: &LockfileDiff) -> (r: Vec<LogLine>)
    ensures
        lines_view(r@) == diff_text(diff.added@, diff.removed@, diff.changed@),
{
    if diff.is_empty() {
        let mut r: Vec<LogLine> = Vec::new();
        let text = str_chars("lockfile satisfies manifest, no changes needed");
        r.push(line(LogLevel::Debug, &text));
        assert(lines_view(r@) =~= diff_text(diff.added@, diff.removed@, diff.changed@));
        return r;
    }
    let mut r = head_lines(diff);
    let ghost added = diff.added@.map_values(|p: PackageRef| (LogLevel::Info, "added "@ + p.spec_text()));
    let ghost removed = diff.removed@.map_values(|p: PackageRef| (LogLevel::Info, "removed "@ + p.id@));
    let ghost changed = diff.changed@.map_values(
        |c: (PackageRef, PackageRef)| (LogLevel::Info, change_text(c.0, c.1)),
    );
    for i in 0..diff.changed.len()
        invariant
            lines_view(r@) == added + removed + changed.take(i as int),
            changed == diff.changed@.map_values(
                |c: (PackageRef, PackageRef)| (LogLevel::Info, change_text(c.0, c.1)),
            ),
    {
        let (old, new) = &diff.changed[i];
        let text = change_line(old, new);
        let ghost prev = lines_view(r@);
        r.push(line(LogLevel::Info, &text));
        assert(lines_view(r@) =~= prev.push(changed[i as int]));
        assert(added + removed + changed.take(i + 1) =~= (added + removed + changed.take(i as int)).push(
            changed[i as int],
        ));
    }
    assert(changed.take(diff.changed@.len() as int) =~= changed);
    r
}

/// The message for a changed package when listing available updates.
pub open spec fn update_text(old: PackageRef, new: PackageRef) -> Seq<char> {
    if old.version == new.version {
        old.id@ + " changed"@
    } else {
        "   "@ + versions_text(old, new)
    }
}

/// The messages announcing available updates: none when no package changed; otherwise a
/// count, one line per changed package, and a hint to upgrade.
pub open spec fn updates_text(changed: Seq<(PackageRef, PackageRef)>) -> Seq<(LogLevel, Seq<char>)> {
    if changed.len() == 0 {
        Seq::empty()
    } else {
        seq![(LogLevel::Info, "there are "@ + decimal(changed.len()) + " mod updates available:"@)]
            + changed.map_values(|c: (PackageRef, PackageRef)| (LogLevel::Info, update_text(c.0, c.1)))
            + seq![(LogLevel::Info, "run `tempest upgrade` to upgrade"@)]
    }
}

/// The messages announcing the updates in `diff` (see `updates_text`).
pub fn update_lines(diff: &LockfileDiff) -> (r: Vec<LogLine>)
    ensures
        lines_view(r@) == updates_text(diff.changed@),
{
    let mut r: Vec<LogLine> = Vec::new();
    let n = diff.changed.len();
    if n == 0 {
        assert(lines_view(r@) =~= updates_text(diff.changed@));
        return r;
    }
    let mut head = str_chars("there are ");
    push_decimal(&mut head, n as u64);
    push_str(&mut head, " mod updates available:");
    r.push(line(LogLevel::Info, &head));
    let ghost first = lines_view(r@);
    let ghost changed = diff.changed@.map_values(
        |c: (PackageRef, PackageRef)| (LogLevel::Info, update_text(c.0, c.1)),
    );
    for i in 0..n
        invariant
            n == diff.changed@.len(),
            lines_view(r@) == first + changed.take(i as int),
            changed == diff.changed@.map_values(
                |c: (PackageRef, PackageRef)| (LogLevel::Info, update_text(c.0, c.1)),
            ),
    {
        let (old, new) = &diff.changed[i];
        let mut text: Vec<char> = Vec::new();
        if old.version == new.version {
            let id = str_chars(old.id.as_str());
            push_all(&mut text, &id);
            push_str(&mut text, " changed");
        } else {
            push_str(&mut text, "   ");
            push_versions(&mut text, old, new);
        }
        assert(text@ =~= update_text(*old, *new));
        let ghost prev = lines_view(r@);
        r.push(line(LogLevel::Info, &text));
        assert(lines_view(r@) =~= prev.push(changed[i as int]));
        assert(first + changed.take(i + 1) =~= (first + changed.take(i as int)).push(changed[i as int]));
    }
    assert(changed.take(n as int) =~= changed);
    let tail = str_chars("run `tempest upgrade` to upgrade");
    let ghost prev = lines_view(r@);
    r.push(line(LogLevel::Info, &tail));
    assert(lines_view(r@) =~= prev.push((LogLevel::Info, "run `tempest upgrade` to upgrade"@)));
    assert(lines_view(r@) =~= updates_text(diff.changed@));
    r
}

/// The message for a changed package in the short report: `upgraded` when the version rose,
/// `downgraded` otherwise, and the versions.
pub open spec fn short_change_text(old: PackageRef, new: PackageRef) -> Seq<char> {
    if old.version.spec_lt(new.version) {
        "upgraded "@ + versions_text(old, new)
    } else {
        "downgraded "@ + versions_text(old, new)
    }
}

/// The messages of the short report of how the lockfile changed: a note that nothing
/// changed, or one line per added, removed and changed package.
pub open spec fn short_diff_text(added: Seq<PackageRef>, removed: Seq<PackageRef>, changed: Seq<(PackageRef, PackageRef)>) -> Seq<(LogLevel, Seq<char>)> {
    if added.len() == 0 && removed.len() == 0 && changed.len() == 0 {
        seq![(LogLevel::Debug, "lockfile satisfies manifest, no changes needed"@)]
    } else {
        added.map_values(|p: PackageRef| (LogLevel::Info, "added "@ + p.spec_text()))
            + removed.map_values(|p: PackageRef| (LogLevel::Info, "removed "@ + p.id@))
            + changed.map_values(|c: (PackageRef, PackageRef)| (LogLevel::Info, short_change_text(c.0, c.1)))
    }
}

/// The short report of how the lockfile changed (see `short_diff_text`).
pub fn log_lockfile_diff(diff: &LockfileDiff) -> (r: Vec<LogLine>)
    ensures
        lines_view(r@) == short_diff_text(diff.added@, diff.removed@, diff.changed@),
{
    if diff.is_empty() {
        let mut r: Vec<LogLine> = Vec::new();
        let text = str_chars("lockfile satisfies manifest, no changes needed");
        r.push(line(LogLevel::Debug, &text));
        assert(lines_view(r@) =~= short_diff_text(diff.added@, diff.removed@, diff.changed@));
        return r;
    }
    let mut r = head_lines(diff);
    let ghost head = diff.added@.map_values(|p: PackageRef| (LogLevel::Info, "added "@ + p.spec_text()))
        + diff.removed@.map_values(|p: PackageRef| (LogLevel::Info, "removed "@ + p.id@));
    let ghost changed = diff.changed@.map_values(
        |c: (PackageRef, PackageRef)| (LogLevel::Info, short_change_text(c.0, c.1)),
    );
    for i in 0..diff.changed.len()
        invariant
            lines_view(r@) == head + changed.take(i as int),
            changed == diff.changed@.map_values(
                |c: (PackageRef, PackageRef)| (LogLevel::Info, short_change_text(c.0, c.1)),
            ),
    {
        let (old, new) = &diff.changed[i];
        let mut text: Vec<char> = Vec::new();
        if old.version.lt(&new.version) {
            push_str(&mut text, "upgraded ");
        } else {
            push_str(&mut text, "downgraded ");
        }
        push_versions(&mut text, old, new);
        assert(text@ =~= short_change_text(*old, *new));
        let ghost prev = lines_view(r@);
        r.push(line(LogLevel::Info, &text));
        assert(lines_view(r@) =~= prev.push(changed[i as int]));
        assert(head + changed.take(i + 1) =~= (head + changed.take(i as int)).push(changed[i as int]));
    }
    assert(changed.take(diff.changed@.len() as int) =~= changed);
    r
}

/// Whether version `a` is below version `b` in (major, minor, patch) order.
pub open spec fn version_below(a: crate::package::Version, b: crate::package::Version) -> bool {
    a.major < b.major || (a.major == b.major && a.minor < b.minor) || (a.major == b.major && a.minor
        == b.minor && a.patch < b.patch)
}

/// A changed package is reported as upgraded exactly when its new version is above the old one,
/// as downgraded exactly when it is below, and as changed when the version stayed the same; the
/// short report says upgraded exactly when the version rose.
pub proof fn law_change_direction(old: PackageRef, new: PackageRef)
    ensures
        version_below(old.version, new.version) ==> change_text(old, new).take(9) == "upgraded "@,
        version_below(new.version, old.version) ==> change_text(old, new).take(11) == "downgraded "@,
        old.version == new.version ==> change_text(old, new) == old.id@ + " changed"@,
        version_below(old.version, new.version) ==> short_change_text(old, new).take(9) == "upgraded "@,
        !version_below(old.version, new.version) ==> short_change_text(old, new).take(11) == "downgraded "@,
        old.version != new.version ==> update_text(old, new).take(3) == "   "@,
{
    reveal_strlit("upgraded ");
    reveal_strlit("downgraded ");
    reveal_strlit("   ");
    let v = versions_text(old, new);
    assert(("upgraded "@ + v).take(9) =~= "upgraded "@);
    assert(("downgraded "@ + v).take(11) =~= "downgraded "@);
    assert(("   "@ + v).take(3) =~= "   "@);
    if version_below(new.version, old.version) {
        assert(!old.version.spec_lt(new.version));
        assert(old.version != new.version);
    }
}

} // verus!
