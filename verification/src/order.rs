use vstd::prelude::*;

verus! {

/// The outcome of comparing two values.
#[derive(PartialEq, Eq, Structural, Clone, Copy, Debug)]
pub enum Order {
    Less,
    Equal,
    Greater,
}

/// Lexicographic comparison of two character sequences, by Unicode scalar value
/// (the order in which Rust orders `String`s).
pub open spec fn compare_text(a: Seq<char>, b: Seq<char>) -> Order
    decreases a.len(),
{
    if a.len() == 0 {
        if b.len() == 0 {
            Order::Equal
        } else {
            Order::Less
        }
    } else if b.len() == 0 {
        Order::Greater
    } else if a[0] < b[0] {
        Order::Less
    } else if a[0] > b[0] {
        Order::Greater
    } else {
        compare_text(a.drop_first(), b.drop_first())
    }
}

/// `compare_text` is `Equal` exactly on equal sequences.
pub proof fn lemma_compare_text_equal(a: Seq<char>, b: Seq<char>)
    ensures
        (compare_text(a, b) == Order::Equal) <==> (a == b),
    decreases a.len(),
{
    if a.len() > 0 && b.len() > 0 {
        lemma_compare_text_equal(a.drop_first(), b.drop_first());
        if a[0] == b[0] {
            if a.drop_first() == b.drop_first() {
                assert(a =~= seq![a[0]] + a.drop_first());
                assert(b =~= seq![b[0]] + b.drop_first());
            }
        }
        if a == b {
            assert(a.drop_first() == b.drop_first());
        }
    } else if a.len() == 0 && b.len() == 0 {
        assert(a =~= b);
    }
}

/// Swapping the arguments of `compare_text` swaps `Less` and `Greater`.
pub proof fn lemma_compare_text_flip(a: Seq<char>, b: Seq<char>)
    ensures
        (compare_text(a, b) == Order::Less) <==> (compare_text(b, a) == Order::Greater),
    decreases a.len(),
{
    if a.len() > 0 && b.len() > 0 {
        lemma_compare_text_flip(a.drop_first(), b.drop_first());
    }
}

/// `compare_text` is transitive on `Less`.
pub proof fn lemma_compare_text_transitive(a: Seq<char>, b: Seq<char>, c: Seq<char>)
    requires
        compare_text(a, b) == Order::Less,
        compare_text(b, c) == Order::Less,
    ensures
        compare_text(a, c) == Order::Less,
    decreases a.len(),
{
    if a.len() > 0 && b.len() > 0 && c.len() > 0 {
        if a[0] == b[0] && b[0] == c[0] {
            lemma_compare_text_transitive(a.drop_first(), b.drop_first(), c.drop_first());
        }
    }
}

/// Compares two character vectors lexicographically.
pub fn compare_chars(a: &Vec<char>, b: &Vec<char>) -> (r: Order)
    ensures
        r == compare_text(a@, b@),
{
    let mut i: usize = 0;
    assert(a@.skip(0) =~= a@);
    assert(b@.skip(0) =~= b@);
    while i < a.len() && i < b.len()
        invariant
            i <= a.len(),
            i <= b.len(),
            compare_text(a@, b@) == compare_text(a@.skip(i as int), b@.skip(i as int)),
        decreases a.len() - i,
    {
        let x = a[i];
        let y = b[i];
        if x < y {
            return Order::Less;
        } else if x > y {
            return Order::Greater;
        }
        assert(a@.skip(i as int).drop_first() =~= a@.skip(i + 1));
        assert(b@.skip(i as int).drop_first() =~= b@.skip(i + 1));
        i += 1;
    }
    if i < b.len() {
        Order::Less
    } else if i < a.len() {
        Order::Greater
    } else {
        Order::Equal
    }
}

/// A key by which items are ordered: first the rank, then the text, lexicographically, then
/// the version triple, numerically.
pub struct OrderKey {
    pub rank: nat,
    pub text: Seq<char>,
    pub major: nat,
    pub minor: nat,
    pub patch: nat,
}

/// Whether key `a` orders strictly before key `b`.
pub open spec fn key_lt(a: OrderKey, b: OrderKey) -> bool {
    ||| a.rank < b.rank
    ||| a.rank == b.rank && compare_text(a.text, b.text) == Order::Less
    ||| a.rank == b.rank && compare_text(a.text, b.text) == Order::Equal && (a.major < b.major || (
    a.major == b.major && (a.minor < b.minor || (a.minor == b.minor && a.patch < b.patch))))
}

/// The executable form of an `OrderKey`.
pub struct SortKey {
    pub rank: u128,
    pub text: Vec<char>,
    pub major: u64,
    pub minor: u64,
    pub patch: u64,
}

impl View for SortKey {
    type V = OrderKey;

    open spec fn view(&self) -> OrderKey {
        OrderKey {
            rank: self.rank as nat,
            text: self.text@,
            major: self.major as nat,
            minor: self.minor as nat,
            patch: self.patch as nat,
        }
    }
}

/// Whether key `a` orders strictly before key `b`.
pub fn key_less(a: &SortKey, b: &SortKey) -> (r: bool)
    ensures
        r == key_lt(a@, b@),
{
    if a.rank != b.rank {
        return a.rank < b.rank;
    }
    match compare_chars(&a.text, &b.text) {
        Order::Less => true,
        Order::Greater => false,
        Order::Equal => a.major < b.major || (a.major == b.major && (a.minor < b.minor || (
        a.minor == b.minor && a.patch < b.patch))),
    }
}

/// Where position `p` goes in the ordered positions `s`: before the first position whose key
/// orders strictly after the key of `p` (strictly before it, with `desc`).
pub open spec fn insert_index(keys: Seq<OrderKey>, s: Seq<int>, p: int, desc: bool) -> int
    decreases s.len(),
{
    if s.len() == 0 {
        0
    } else if (if desc {
        key_lt(keys[s[0]], keys[p])
    } else {
        key_lt(keys[p], keys[s[0]])
    }) {
        0
    } else {
        1 + insert_index(keys, s.drop_first(), p, desc)
    }
}

/// The positions `0..n` in stable order of their keys: ordered by key (descending with
/// `desc`), and positions with equal keys in their original order.
pub open spec fn stable_order_by(keys: Seq<OrderKey>, n: nat, desc: bool) -> Seq<int>
    decreases n,
{
    if n == 0 {
        Seq::empty()
    } else {
        let s = stable_order_by(keys, (n - 1) as nat, desc);
        s.insert(insert_index(keys, s, n - 1, desc), n - 1)
    }
}

/// The positions `0..n` in stable ascending order of their keys.
pub open spec fn stable_order(keys: Seq<OrderKey>, n: nat) -> Seq<int> {
    stable_order_by(keys, n, false)
}

pub proof fn lemma_insert_index_bounds(keys: Seq<OrderKey>, s: Seq<int>, p: int, desc: bool)
    ensures
        0 <= insert_index(keys, s, p, desc) <= s.len(),
    decreases s.len(),
{
    if s.len() > 0 {
        lemma_insert_index_bounds(keys, s.drop_first(), p, desc);
    }
}

pub proof fn lemma_stable_order_by_len(keys: Seq<OrderKey>, n: nat, desc: bool)
    ensures
        stable_order_by(keys, n, desc).len() == n,
        forall|i: int| 0 <= i < n ==> 0 <= #[trigger] stable_order_by(keys, n, desc)[i] < n,
    decreases n,
{
    if n > 0 {
        let s = stable_order_by(keys, (n - 1) as nat, desc);
        lemma_stable_order_by_len(keys, (n - 1) as nat, desc);
        lemma_insert_index_bounds(keys, s, n - 1, desc);
        let k = insert_index(keys, s, n - 1, desc);
        assert forall|i: int| 0 <= i < n implies 0 <= #[trigger] stable_order_by(keys, n, desc)[i] < n by {
            if i < k {
                assert(stable_order_by(keys, n, desc)[i] == s[i]);
            } else if i > k {
                assert(stable_order_by(keys, n, desc)[i] == s[i - 1]);
            }
        }
    }
}

pub proof fn lemma_stable_order_len(keys: Seq<OrderKey>, n: nat)
    ensures
        stable_order(keys, n).len() == n,
        forall|i: int| 0 <= i < n ==> 0 <= #[trigger] stable_order(keys, n)[i] < n,
{
    lemma_stable_order_by_len(keys, n, false);
}

/// Whether key `a` goes strictly before key `b` in ascending order, or in descending order
/// with `desc`.
pub open spec fn precedes(a: OrderKey, b: OrderKey, desc: bool) -> bool {
    if desc {
        key_lt(b, a)
    } else {
        key_lt(a, b)
    }
}

/// `key_lt` is a strict total order on keys.
pub proof fn lemma_key_lt_strict_total(a: OrderKey, b: OrderKey, c: OrderKey)
    ensures
        !key_lt(a, a),
        key_lt(a, b) ==> !key_lt(b, a),
        key_lt(a, b) && key_lt(b, c) ==> key_lt(a, c),
        key_lt(a, b) || key_lt(b, a) || a == b,
{
    lemma_compare_text_equal(a.text, a.text);
    lemma_compare_text_equal(a.text, b.text);
    lemma_compare_text_equal(b.text, a.text);
    lemma_compare_text_equal(b.text, c.text);
    lemma_compare_text_equal(a.text, c.text);
    lemma_compare_text_flip(a.text, b.text);
    lemma_compare_text_flip(b.text, a.text);
    if compare_text(a.text, b.text) == Order::Less && compare_text(b.text, c.text) == Order::Less {
        lemma_compare_text_transitive(a.text, b.text, c.text);
    }
    if a.rank == b.rank && a.text == b.text && a.major == b.major && a.minor == b.minor && a.patch
        == b.patch {
        assert(a == b);
    }
}

/// `precedes` is a strict total order on keys, in either direction.
pub proof fn lemma_precedes_strict_total(a: OrderKey, b: OrderKey, c: OrderKey, desc: bool)
    ensures
        !precedes(a, a, desc),
        precedes(a, b, desc) ==> !precedes(b, a, desc),
        precedes(a, b, desc) && precedes(b, c, desc) ==> precedes(a, c, desc),
        precedes(a, b, desc) || precedes(b, a, desc) || a == b,
{
    lemma_key_lt_strict_total(a, b, c);
    lemma_key_lt_strict_total(b, a, c);
    lemma_key_lt_strict_total(c, b, a);
}

/// No position of `s` has a key that goes strictly before the key of an earlier position.
pub open spec fn in_key_order(keys: Seq<OrderKey>, s: Seq<int>, desc: bool) -> bool {
    forall|i: int, j: int|
        0 <= i < j < s.len() ==> !precedes(#[trigger] keys[s[j]], #[trigger] keys[s[i]], desc)
}

/// Positions with equal keys stay in their original order.
pub open spec fn keeps_ties_in_place(keys: Seq<OrderKey>, s: Seq<int>) -> bool {
    forall|i: int, j: int|
        0 <= i < j < s.len() && #[trigger] keys[s[i]] == #[trigger] keys[s[j]] ==> s[i] < s[j]
}

/// `s` holds each of the positions `0..n` exactly once.
pub open spec fn is_arrangement(s: Seq<int>, n: nat) -> bool {
    &&& s.len() == n
    &&& forall|i: int| 0 <= i < s.len() ==> 0 <= #[trigger] s[i] < n
    &&& forall|i: int, j: int| 0 <= i < j < s.len() ==> #[trigger] s[i] != #[trigger] s[j]
}

/// An arrangement of `0..n` holds every one of those positions.
pub proof fn lemma_arrangement_covers(s: Seq<int>, n: nat, x: int)
    requires
        is_arrangement(s, n),
        0 <= x < n,
    ensures
        exists|i: int| 0 <= i < s.len() && s[i] == x,
{
    assert(s.no_duplicates()) by {
        assert forall|i: int, j: int| 0 <= i < s.len() && 0 <= j < s.len() && i != j implies s[i] != s[j] by {
            if i < j {
                assert(s[i] != s[j]);
            } else {
                assert(s[j] != s[i]);
            }
        }
    }
    s.unique_seq_to_set();
    vstd::set_lib::lemma_int_range(0, n as int);
    let range = vstd::set_lib::set_int_range(0, n as int);
    assert(s.to_set().subset_of(range)) by {
        assert forall|v: int| s.to_set().contains(v) implies range.contains(v) by {
            let i = choose|i: int| 0 <= i < s.len() && s[i] == v;
        }
    }
    vstd::seq_lib::seq_to_set_is_finite(s);
    vstd::set_lib::lemma_subset_equality(s.to_set(), range);
    assert(range.contains(x));
    assert(s.to_set().contains(x));
}

/// The first `insert_index` positions go no later than the new key; the one after them goes
/// strictly after it.
proof fn lemma_insert_index_split(keys: Seq<OrderKey>, s: Seq<int>, p: int, desc: bool)
    ensures
        forall|i: int|
            0 <= i < insert_index(keys, s, p, desc) ==> !precedes(keys[p], #[trigger] keys[s[i]], desc),
        insert_index(keys, s, p, desc) < s.len() ==> precedes(
            keys[p],
            keys[s[insert_index(keys, s, p, desc)]],
            desc,
        ),
    decreases s.len(),
{
    if s.len() > 0 {
        let t = s.drop_first();
        lemma_insert_index_split(keys, t, p, desc);
        lemma_insert_index_bounds(keys, s, p, desc);
        lemma_insert_index_bounds(keys, t, p, desc);
        assert forall|i: int|
            0 <= i < insert_index(keys, s, p, desc) implies !precedes(keys[p], #[trigger] keys[s[i]], desc) by {
            if i > 0 {
                assert(s[i] == t[i - 1]);
            }
        }
        if insert_index(keys, s, p, desc) > 0 && insert_index(keys, s, p, desc) < s.len() {
            assert(s[insert_index(keys, s, p, desc)] == t[insert_index(keys, t, p, desc)]);
        }
    }
}

/// The stable order is a stable sort: it holds each position once, in key order (descending
/// with `desc`), and positions with equal keys keep their original order.
pub proof fn lemma_stable_order_by_sorts(keys: Seq<OrderKey>, n: nat, desc: bool)
    ensures
        is_arrangement(stable_order_by(keys, n, desc), n),
        in_key_order(keys, stable_order_by(keys, n, desc), desc),
        keeps_ties_in_place(keys, stable_order_by(keys, n, desc)),
    decreases n,
{
    if n > 0 {
        let m = (n - 1) as nat;
        let p = m as int;
        let s = stable_order_by(keys, m, desc);
        lemma_stable_order_by_sorts(keys, m, desc);
        lemma_insert_index_bounds(keys, s, p, desc);
        lemma_insert_index_split(keys, s, p, desc);
        let k = insert_index(keys, s, p, desc);
        let t = s.insert(k, p);
        assert(stable_order_by(keys, n, desc) == t);
        assert forall|i: int| 0 <= i < t.len() implies 0 <= #[trigger] t[i] < n by {
            if i < k {
                assert(t[i] == s[i]);
            } else if i > k {
                assert(t[i] == s[i - 1]);
            }
        }
        assert forall|i: int, j: int| 0 <= i < j < t.len() implies #[trigger] t[i] != #[trigger] t[j] by {
            if j < k {
                assert(t[i] == s[i] && t[j] == s[j]);
            } else if j == k {
                assert(t[i] == s[i]);
            } else if i < k {
                assert(t[i] == s[i] && t[j] == s[j - 1]);
            } else if i == k {
                assert(t[j] == s[j - 1]);
            } else {
                assert(t[i] == s[i - 1] && t[j] == s[j - 1]);
            }
        }
        assert forall|i: int, j: int| 0 <= i < j < t.len() implies !precedes(
            #[trigger] keys[t[j]],
            #[trigger] keys[t[i]],
            desc,
        ) by {
            if j < k {
                assert(t[i] == s[i] && t[j] == s[j]);
            } else if j == k {
                assert(t[i] == s[i]);
            } else if i < k {
                assert(t[i] == s[i] && t[j] == s[j - 1]);
            } else if i == k {
                assert(t[j] == s[j - 1]);
                if j - 1 > k {
                    assert(!precedes(keys[s[j - 1]], keys[s[k]], desc));
                }
                lemma_precedes_strict_total(keys[s[k]], keys[s[j - 1]], keys[p], desc);
                lemma_precedes_strict_total(keys[p], keys[s[k]], keys[s[j - 1]], desc);
                lemma_precedes_strict_total(keys[p], keys[s[j - 1]], keys[s[k]], desc);
            } else {
                assert(t[i] == s[i - 1] && t[j] == s[j - 1]);
            }
        }
        assert forall|i: int, j: int|
            0 <= i < j < t.len() && #[trigger] keys[t[i]] == #[trigger] keys[t[j]] implies t[i] < t[j] by {
            if j < k {
                assert(t[i] == s[i] && t[j] == s[j]);
            } else if j == k {
                assert(t[i] == s[i]);
            } else if i < k {
                assert(t[i] == s[i] && t[j] == s[j - 1]);
            } else if i == k {
                assert(t[j] == s[j - 1]);
                if j - 1 > k {
                    assert(!precedes(keys[s[j - 1]], keys[s[k]], desc));
                }
                lemma_precedes_strict_total(keys[s[k]], keys[s[j - 1]], keys[p], desc);
                lemma_precedes_strict_total(keys[p], keys[s[k]], keys[s[j - 1]], desc);
                lemma_precedes_strict_total(keys[p], keys[s[j - 1]], keys[s[k]], desc);
            } else {
                assert(t[i] == s[i - 1] && t[j] == s[j - 1]);
            }
        }
    }
}

/// Whether an item with key `new` goes before one with key `placed` when inserting into an
/// ordered sequence (descending with `desc`).
fn inserts_before(new: &SortKey, placed: &SortKey, desc: bool) -> (r: bool)
    ensures
        r == if desc {
            key_lt(placed@, new@)
        } else {
            key_lt(new@, placed@)
        },
{
    if desc {
        key_less(placed, new)
    } else {
        key_less(new, placed)
    }
}

/// The positions of `keys` in stable key order (descending with `desc`).
pub fn stable_sort_positions_by(keys: &Vec<SortKey>, desc: bool) -> (r: Vec<usize>)
    ensures
        r@.len() == keys@.len(),
        forall|i: int|
            0 <= i < r@.len() ==> #[trigger] r@[i] as int == stable_order_by(
                keys@.map_values(|k: SortKey| k@),
                keys@.len(),
                desc,
            )[i],
{
    let ghost kv = keys@.map_values(|k: SortKey| k@);
    let mut r: Vec<usize> = Vec::new();
    for p in 0..keys.len()
        invariant
            kv == keys@.map_values(|k: SortKey| k@),
            r@.len() == p,
            forall|i: int| 0 <= i < r@.len() ==> (#[trigger] r@[i] as int) < p,
            forall|i: int|
                0 <= i < r@.len() ==> #[trigger] r@[i] as int == stable_order_by(kv, p as nat, desc)[i],
    {
        let ghost s = stable_order_by(kv, p as nat, desc);
        proof {
            lemma_stable_order_by_len(kv, p as nat, desc);
        }
        let mut j: usize = 0;
        assert(s.skip(0) =~= s);
        while j < r.len() && !inserts_before(&keys[p], &keys[r[j]], desc)
            invariant
                j <= r@.len() == p < keys@.len(),
                kv == keys@.map_values(|k: SortKey| k@),
                s == stable_order_by(kv, p as nat, desc),
                s.len() == p,
                forall|i: int| 0 <= i < r@.len() ==> (#[trigger] r@[i] as int) < p,
                forall|i: int| 0 <= i < r@.len() ==> #[trigger] r@[i] as int == s[i],
                insert_index(kv, s, p as int, desc) == j + insert_index(kv, s.skip(j as int), p as int, desc),
            decreases r@.len() - j,
        {
            assert(s.skip(j as int).drop_first() =~= s.skip(j + 1));
            j += 1;
        }
        proof {
            if j < r.len() {
                assert(s.skip(j as int)[0] == s[j as int]);
            }
        }
        assert(insert_index(kv, s, p as int, desc) == j);
        r.insert(j, p);
        assert forall|i: int|
            0 <= i < r@.len() implies #[trigger] r@[i] as int == stable_order_by(kv, (p + 1) as nat, desc)[i] by {
            assert(stable_order_by(kv, (p + 1) as nat, desc) == s.insert(j as int, p as int));
        }
    }
    r
}

/// The positions of `keys` in stable ascending key order.
pub fn stable_sort_positions(keys: &Vec<SortKey>) -> (r: Vec<usize>)
    ensures
        r@.len() == keys@.len(),
        forall|i: int|
            0 <= i < r@.len() ==> #[trigger] r@[i] as int == stable_order(
                keys@.map_values(|k: SortKey| k@),
                keys@.len(),
            )[i],
{
    stable_sort_positions_by(keys, false)
}

} // verus!
