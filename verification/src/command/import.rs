use vstd::prelude::*;
use crate::command::{ImportCommand, ImportType};
use crate::graph::{as_ints, text_key};
use crate::manifest::{ModSpec, Mods, after_insert, law_get_after_insert, law_insert_keeps_others, spec_lookup};
use crate::order::{
    Order, SortKey, compare_text, in_key_order, lemma_key_lt_strict_total, lemma_stable_order_by_sorts,
    lemma_stable_order_len, stable_order, stable_sort_positions,
};
use crate::package::{Version, VersionReq, version_req_display};
use crate::text::{chars_to_string, path_push, push_path, push_str, str_chars};

verus! {

/// The value (as a 128-bit number) of the UUID that `uuid::Uuid::parse_str` reads from the
/// text `s`, or `None` where it reports an error.
pub uninterp spec fn uuid_value(s: Seq<char>) -> Option<u128>;

/// Whether `uuid::Uuid::parse_str` accepts the text `s`.
pub open spec fn is_uuid(s: Seq<char>) -> bool {
    uuid_value(s) is Some
}

/// Calls `uuid::Uuid::parse_str` and hands out the UUID as a number; the result is named by
/// `uuid_value`.
#[verifier::external_body]
fn parse_uuid(s: &str) -> (r: Option<u128>)
    ensures
        r == uuid_value(s@),
{
    uuid::Uuid::parse_str(s).ok().map(|u| u.as_u128())
}

/// Whether `char::is_alphanumeric` holds of `c` (a Unicode letter or number).
pub uninterp spec fn alphanumeric(c: char) -> bool;

/// Calls `char::is_alphanumeric`; the result is named by `alphanumeric`.
#[verifier::external_body]
fn is_alphanumeric(c: char) -> (r: bool)
    ensures
        r == alphanumeric(c),
{
    c.is_alphanumeric()
}

/// How a profile code is imported when the kind is not given: a UUID is a Thunderstore code,
/// an existing path a local file, an alphanumeric code a Gale code.
pub open spec fn guessed_type(source: Seq<char>, path_exists: bool) -> Option<ImportType> {
    if is_uuid(source) {
        Some(ImportType::Thunderstore)
    } else if path_exists {
        Some(ImportType::Local)
    } else if forall|i: int| 0 <= i < source.len() ==> alphanumeric(#[trigger] source[i]) {
        Some(ImportType::Gale)
    } else {
        None
    }
}

/// The address from which a Gale sync profile is downloaded.
pub open spec fn gale_url_text(code: Seq<char>) -> Seq<char> {
    "https://gale.kesomannen.com/api/profile/"@ + code
}

/// The game an imported profile is for: the one given on the command line, else the one the
/// profile names, else `unknown`.
pub open spec fn import_game_text(given: Option<String>, named: Option<String>) -> Seq<char> {
    match given {
        Some(g) => g@,
        None => match named {
            Some(n) => n@,
            None => "unknown"@,
        },
    }
}

/// The positions of `items` in order of their ids.
pub open spec fn id_order(items: Seq<(String, Version)>) -> Seq<int> {
    stable_order(items.map_values(|it: (String, Version)| text_key(it.0@)), items.len())
}

/// Whether position `k` of `order` is kept: it is the last of the positions with its id.
pub open spec fn keeps(items: Seq<(String, Version)>, order: Seq<int>, k: int) -> bool {
    k + 1 == order.len() || items[order[k]].0@ != items[order[k + 1]].0@
}

/// The positions among the first `m` of `order` that are kept (see `keeps`).
pub open spec fn kept(items: Seq<(String, Version)>, order: Seq<int>, m: int) -> Seq<int>
    decreases m,
{
    if m <= 0 {
        Seq::empty()
    } else {
        kept(items, order, m - 1) + if keeps(items, order, m - 1) {
            seq![order[m - 1]]
        } else {
            Seq::empty()
        }
    }
}

/// The imported mods, in order of their ids, one per id: the last listed with it.
pub open spec fn imported_positions(items: Seq<(String, Version)>) -> Seq<int> {
    kept(items, id_order(items), items.len() as int)
}

/// The places in `order`, increasing, from which `kept(items, order, m)` takes its positions.
proof fn kept_places(items: Seq<(String, Version)>, order: Seq<int>, m: int) -> (places: Seq<int>)
    ensures
        places.len() == kept(items, order, m).len(),
        forall|i: int|
            0 <= i < places.len() ==> 0 <= #[trigger] places[i] < m && keeps(items, order, places[i])
                && kept(items, order, m)[i] == order[places[i]],
        forall|i: int, j: int| 0 <= i < j < places.len() ==> #[trigger] places[i] < #[trigger] places[j],
        forall|a: int| 0 <= a < m && #[trigger] keeps(items, order, a) ==> exists|i: int|
            0 <= i < places.len() && places[i] == a,
    decreases m,
{
    if m <= 0 {
        Seq::empty()
    } else {
        let before = kept_places(items, order, m - 1);
        let prev = kept(items, order, m - 1);
        if keeps(items, order, m - 1) {
            let places = before.push(m - 1);
            assert forall|a: int| 0 <= a < m && #[trigger] keeps(items, order, a) implies exists|i: int|
                0 <= i < places.len() && places[i] == a by {
                if a < m - 1 {
                    let i = choose|i: int| 0 <= i < before.len() && before[i] == a;
                    assert(places[i] == a);
                } else {
                    assert(places[before.len() as int] == a);
                }
            }
            assert forall|i: int| 0 <= i < places.len() implies 0 <= #[trigger] places[i] < m
                && keeps(items, order, places[i]) && kept(items, order, m)[i] == order[places[i]] by {
                if i < before.len() {
                    assert(kept(items, order, m)[i] == prev[i]);
                }
            }
            places
        } else {
            assert(kept(items, order, m) =~= prev);
            before
        }
    }
}

/// The imported mods come one per id, in strictly ascending order of their ids.
pub proof fn law_imported_ids_ascending(items: Seq<(String, Version)>)
    ensures
        forall|i: int, j: int|
            0 <= i < j < imported_positions(items).len() ==> compare_text(
                items[#[trigger] imported_positions(items)[i]].0@,
                items[#[trigger] imported_positions(items)[j]].0@,
            ) == Order::Less,
{
    let keys = items.map_values(|it: (String, Version)| text_key(it.0@));
    let order = id_order(items);
    let n = items.len() as int;
    let p = imported_positions(items);
    lemma_stable_order_len(keys, items.len());
    lemma_stable_order_by_sorts(keys, items.len(), false);
    assert(in_key_order(keys, order, false));
    let places = kept_places(items, order, n);
    assert forall|i: int, j: int| 0 <= i < j < p.len() implies compare_text(
        items[#[trigger] p[i]].0@,
        items[#[trigger] p[j]].0@,
    ) == Order::Less by {
        let a = places[i];
        let b = places[j];
        assert(a < b);
        assert(keeps(items, order, a));
        let ka = keys[order[a]];
        let kn = keys[order[a + 1]];
        let kb = keys[order[b]];
        assert(ka == text_key(items[order[a]].0@));
        assert(kn == text_key(items[order[a + 1]].0@));
        assert(kb == text_key(items[order[b]].0@));
        assert(!crate::order::precedes(kn, ka, false));
        if a + 1 < b {
            assert(!crate::order::precedes(kb, kn, false));
        }
        lemma_key_lt_strict_total(ka, kn, kb);
        lemma_key_lt_strict_total(kn, ka, kb);
        lemma_key_lt_strict_total(kb, kn, ka);
        assert(p[i] == order[a] && p[j] == order[b]);
    }
}

/// From place `c` of the id order, the next place that keeps its position, and the ids up
/// to it are all the id at `c`.
proof fn lemma_run_end(items: Seq<(String, Version)>, order: Seq<int>, c: int) -> (a: int)
    requires
        0 <= c < order.len(),
    ensures
        c <= a < order.len(),
        keeps(items, order, a),
        items[order[a]].0@ == items[order[c]].0@,
    decreases order.len() - c,
{
    if keeps(items, order, c) {
        c
    } else {
        lemma_run_end(items, order, c + 1)
    }
}

/// Every id listed is imported, and it is imported with the mod listed last with that id.
pub proof fn law_import_keeps_last_listing(items: Seq<(String, Version)>)
    ensures
        forall|m: int|
            0 <= m < items.len() ==> exists|i: int|
                0 <= i < imported_positions(items).len() && items[#[trigger] imported_positions(items)[i]].0@
                    == (#[trigger] items[m]).0@,
        forall|i: int, m: int|
            0 <= i < imported_positions(items).len() && 0 <= m < items.len() && #[trigger] items[m].0@
                == items[#[trigger] imported_positions(items)[i]].0@ ==> m <= imported_positions(items)[i],
{
    let keys = items.map_values(|it: (String, Version)| text_key(it.0@));
    let order = id_order(items);
    let n = items.len() as int;
    let p = imported_positions(items);
    lemma_stable_order_len(keys, items.len());
    lemma_stable_order_by_sorts(keys, items.len(), false);
    let places = kept_places(items, order, n);
    assert forall|m: int| 0 <= m < items.len() implies exists|i: int|
        0 <= i < p.len() && items[#[trigger] p[i]].0@ == (#[trigger] items[m]).0@ by {
        crate::order::lemma_arrangement_covers(order, items.len(), m);
        let c = choose|c: int| 0 <= c < order.len() && order[c] == m;
        let a = lemma_run_end(items, order, c);
        let i = choose|i: int| 0 <= i < places.len() && places[i] == a;
        assert(p[i] == order[a]);
    }
    assert forall|i: int, m: int|
        0 <= i < p.len() && 0 <= m < items.len() && #[trigger] items[m].0@ == items[#[trigger] p[i]].0@ implies m
            <= p[i] by {
        crate::order::lemma_arrangement_covers(order, items.len(), m);
        let c = choose|c: int| 0 <= c < order.len() && order[c] == m;
        let a = places[i];
        assert(p[i] == order[a]);
        let ka = keys[order[a]];
        let kc = keys[order[c]];
        assert(ka == text_key(items[order[a]].0@));
        assert(kc == text_key(items[order[c]].0@));
        assert(ka == kc);
        if c > a {
            let kn = keys[order[a + 1]];
            assert(kn == text_key(items[order[a + 1]].0@));
            assert(!crate::order::precedes(kn, ka, false));
            if a + 1 < c {
                assert(!crate::order::precedes(kc, kn, false));
            }
            lemma_key_lt_strict_total(ka, kn, kc);
            lemma_key_lt_strict_total(kn, ka, kc);
            lemma_key_lt_strict_total(kc, kn, ka);
        } else if c < a {
            assert(crate::order::keeps_ties_in_place(keys, order));
        }
    }
}

/// The requirement text of exactly version `v`.
pub open spec fn exact_text(v: Version) -> Seq<char> {
    "="@ + v.spec_text()
}

/// The entries that inserting each of `list` in turn into `start` gives.
pub open spec fn inserted_all(start: Seq<(Seq<char>, ModSpec)>, list: Seq<(String, ModSpec)>) -> Seq<(Seq<char>, ModSpec)>
    decreases list.len(),
{
    if list.len() == 0 {
        start
    } else {
        after_insert(inserted_all(start, list.drop_last()), list.last().0@, list.last().1)
    }
}

/// The specification last given to `key` in `list`, if any.
pub open spec fn last_given(list: Seq<(String, ModSpec)>, key: Seq<char>) -> Option<ModSpec>
    decreases list.len(),
{
    if list.len() == 0 {
        None
    } else if list.last().0@ == key {
        Some(list.last().1)
    } else {
        last_given(list.drop_last(), key)
    }
}

/// After merging, a mod that was imported has the specification it was last imported with,
/// and every other mod keeps the one it had.
pub proof fn law_merge_lookup(start: Seq<(Seq<char>, ModSpec)>, list: Seq<(String, ModSpec)>, key: Seq<char>)
    ensures
        spec_lookup(inserted_all(start, list), key) == match last_given(list, key) {
            Some(v) => Some(v),
            None => spec_lookup(start, key),
        },
    decreases list.len(),
{
    if list.len() > 0 {
        let before = inserted_all(start, list.drop_last());
        law_merge_lookup(start, list.drop_last(), key);
        if list.last().0@ == key {
            law_get_after_insert(before, key, list.last().1);
        } else {
            law_insert_keeps_others(before, list.last().0@, list.last().1, key);
        }
    }
}

/// Why a profile could not be imported.
#[derive(Debug)]
pub enum ImportError {
    /// The version of a mod could not be turned into a requirement.
    UnusableVersion(String),
    /// The profile code is not a valid UUID.
    InvalidCode(String),
}

impl ImportType {
    /// The kind of a profile code (see `guessed_type`); whether `source` names an existing
    /// path is `path_exists`.
    pub fn guess(source: &str, path_exists: bool) -> (r: Option<ImportType>)
        ensures
            r == guessed_type(source@, path_exists),
    {
        if parse_uuid(source).is_some() {
            return Some(ImportType::Thunderstore);
        }
        if path_exists {
            return Some(ImportType::Local);
        }
        let chars = str_chars(source);
        for i in 0..chars.len()
            invariant
                chars@ == source@,
                !is_uuid(source@),
                !path_exists,
                forall|k: int| 0 <= k < i ==> alphanumeric(#[trigger] chars@[k]),
        {
            if !is_alphanumeric(chars[i]) {
                assert(!alphanumeric(source@[i as int]));
                return None;
            }
        }
        Some(ImportType::Gale)
    }
}

impl ImportCommand {
    /// How to import: the kind given, else the guessed one, else from Thunderstore.
    pub fn import_type(&self, path_exists: bool) -> (r: ImportType)
        ensures
            r == match self.type_ {
                Some(t) => t,
                None => match guessed_type(self.source@, path_exists) {
                    Some(t) => t,
                    None => ImportType::Thunderstore,
                },
            },
    {
        match self.type_ {
            Some(t) => t,
            None => match ImportType::guess(self.source.as_str(), path_exists) {
                Some(t) => t,
                None => ImportType::Thunderstore,
            },
        }
    }

    /// The UUID (as a 128-bit number) of the Thunderstore profile code given as the source;
    /// an error when the source is not a valid UUID.
    pub fn thunderstore_code(&self) -> (r: Result<u128, ImportError>)
        ensures
            r is Ok <==> is_uuid(self.source@),
            r matches Ok(v) ==> uuid_value(self.source@) == Some(v),
            r matches Err(e) ==> e matches ImportError::InvalidCode(code) && code@ == self.source@,
    {
        match parse_uuid(self.source.as_str()) {
            Some(v) => Ok(v),
            None => Err(ImportError::InvalidCode(self.source.clone())),
        }
    }

    /// The address from which the Gale sync profile `code` is downloaded.
    pub fn gale_url(code: &str) -> (r: String)
        ensures
            r@ == gale_url_text(code@),
    {
        let mut out = str_chars("https://gale.kesomannen.com/api/profile/");
        push_str(&mut out, code);
        chars_to_string(&out)
    }

    /// The game of the imported profile (see `import_game_text`), and whether it had to be
    /// assumed.
    pub fn game(&self, named: Option<String>) -> (r: (String, bool))
        ensures
            r.0@ == import_game_text(self.game, named),
            r.1 == (self.game is None && named is None),
    {
        match &self.game {
            Some(g) => (g.clone(), false),
            None => match named {
                Some(n) => (n, false),
                None => ("unknown".to_string(), true),
            },
        }
    }

    /// Where the profile is imported to: the path given; else the working directory when it
    /// holds a profile; else a directory named after the imported profile in it.
    pub fn target(&self, working_dir: &str, working_dir_is_profile: bool, import_name: &str) -> (r: String)
        ensures
            r@ == match self.path {
                Some(p) => p@,
                None => if working_dir_is_profile {
                    working_dir@
                } else {
                    path_push(working_dir@, import_name@)
                },
            },
    {
        match &self.path {
            Some(p) => p.clone(),
            None => {
                if working_dir_is_profile {
                    working_dir.to_string()
                } else {
                    let mut out = str_chars(working_dir);
                    let name = str_chars(import_name);
                    push_path(&mut out, &name);
                    chars_to_string(&out)
                }
            },
        }
    }

    /// The manifest entries of the imported mods (id and version): one per id, the last
    /// listed with it, in order of their ids, each asking for exactly its version.
    pub fn import_mods(items: &Vec<(String, Version)>) -> (r: Result<Vec<(String, ModSpec)>, ImportError>)
        ensures
            r matches Ok(v) ==> v@.len() == imported_positions(items@).len() && forall|i: int|
                0 <= i < v@.len() ==> {
                    let item = items@[imported_positions(items@)[i]];
                    &&& (#[trigger] v@[i]).0@ == item.0@
                    &&& v@[i].1 matches ModSpec::Simple(q)
                    &&& version_req_display(exact_text(item.1)) == Some(q@)
                },
            r matches Err(ImportError::UnusableVersion(id)) ==> exists|i: int|
                0 <= i < imported_positions(items@).len() && items@[imported_positions(items@)[i]].0@
                    == id@ && version_req_display(exact_text(items@[#[trigger] imported_positions(items@)[i]].1)) is None,
    {
        let mut keys: Vec<SortKey> = Vec::new();
        for k in 0..items.len()
            invariant
                keys@.len() == k,
                forall|m: int| 0 <= m < k ==> (#[trigger] keys@[m])@ == text_key(items@[m].0@),
        {
            let text = str_chars(items[k].0.as_str());
            keys.push(SortKey { rank: 0, text, major: 0, minor: 0, patch: 0 });
        }
        let ghost kv = items@.map_values(|it: (String, Version)| text_key(it.0@));
        assert(keys@.map_values(|k: SortKey| k@) =~= kv);
        let order = stable_sort_positions(&keys);
        proof {
            lemma_stable_order_len(kv, items@.len());
        }
        let ghost ov = as_ints(order@);
        assert(ov =~= id_order(items@));
        let mut positions: Vec<usize> = Vec::new();
        let n = order.len();
        for k in 0..n
            invariant
                n == order@.len(),
                n == items@.len(),
                ov == as_ints(order@),
                ov == id_order(items@),
                forall|m: int| 0 <= m < n ==> 0 <= #[trigger] ov[m] < n,
                forall|m: int| 0 <= m < positions@.len() ==> (#[trigger] positions@[m] as int) < n,
                as_ints(positions@) == kept(items@, ov, k as int),
        {
            let keep = if k + 1 == n {
                true
            } else {
                let a = order[k];
                let b = order[k + 1];
                assert(ov[k as int] == a as int);
                assert(ov[k + 1] == b as int);
                items[a].0 != items[b].0
            };
            let ghost prev = as_ints(positions@);
            if keep {
                positions.push(order[k]);
                assert(as_ints(positions@) =~= prev.push(ov[k as int]));
            }
            assert(as_ints(positions@) =~= kept(items@, ov, k + 1));
        }
        let ghost pv = as_ints(positions@);
        assert(pv == imported_positions(items@));
        let mut r: Vec<(String, ModSpec)> = Vec::new();
        for i in 0..positions.len()
            invariant
                pv == as_ints(positions@),
                pv == imported_positions(items@),
                forall|m: int| 0 <= m < positions@.len() ==> (#[trigger] positions@[m] as int) < items@.len(),
                r@.len() == i,
                forall|m: int| 0 <= m < i ==> {
                    let item = items@[pv[m]];
                    &&& (#[trigger] r@[m]).0@ == item.0@
                    &&& r@[m].1 matches ModSpec::Simple(q)
                    &&& version_req_display(exact_text(item.1)) == Some(q@)
                },
        {
            let item = &items[positions[i]];
            let mut text = str_chars("=");
            item.1.push_text(&mut text);
            assert(text@ =~= exact_text(item.1));
            let req_text = chars_to_string(&text);
            match VersionReq::parse(req_text.as_str()) {
                Ok(q) => {
                    r.push((item.0.clone(), ModSpec::new(q)));
                },
                Err(_) => {
                    assert(items@[pv[i as int]] == *item);
                    return Err(ImportError::UnusableVersion(item.0.clone()));
                },
            }
        }
        Ok(r)
    }

    /// Merges imported mods into existing ones: each is inserted in turn, replacing the
    /// specification of a mod already present.
    pub fn merge(existing: &mut Mods, imported: Vec<(String, ModSpec)>)
        ensures
            final(existing).entries() == inserted_all(old(existing).entries(), imported@),
    {
        let ghost start = existing.entries();
        let ghost list = imported@;
        let total = imported.len();
        let mut rest = imported;
        let mut pending: Vec<(String, ModSpec)> = Vec::new();
        while rest.len() > 0
            invariant
                rest@ + pending@.reverse() == list,
            decreases rest@.len(),
        {
            let ghost before = rest@;
            let e = rest.pop().unwrap();
            assert(before =~= rest@.push(e));
            let ghost p0 = pending@;
            pending.push(e);
            assert(pending@.reverse() =~= seq![e] + p0.reverse());
            assert(rest@ + pending@.reverse() =~= before + p0.reverse());
        }
        assert(pending@.reverse() =~= list);
        let mut done: usize = 0;
        while pending.len() > 0
            invariant
                pending@.len() + done == list.len(),
                list.len() == total,
                list.take(done as int) + pending@.reverse() == list,
                existing.entries() == inserted_all(start, list.take(done as int)),
            decreases pending@.len(),
        {
            let ghost before = pending@;
            let (k, v) = pending.pop().unwrap();
            assert(before =~= pending@.push((k, v)));
            assert(before.reverse() =~= seq![(k, v)] + pending@.reverse());
            assert(list[done as int] == (k, v)) by {
                assert(list =~= list.take(done as int) + before.reverse());
            }
            assert(list.take(done + 1).drop_last() =~= list.take(done as int));
            existing.insert(k, v);
            done += 1;
            assert(list.take(done as int) + pending@.reverse() =~= list);
        }
        assert(list.take(done as int) =~= list);
    }
}

} // verus!
