use vstd::prelude::*;

verus! {

/// The characters of `s`, in order.
pub fn str_chars(s: &str) -> (r: Vec<char>)
    ensures
        r@ == s@,
{
    let mut r: Vec<char> = Vec::new();
    for c in it: s.chars()
        invariant
            it.seq() == s@,
            r@ == it.seq().take(it.index() as int),
    {
        r.push(c);
    }
    r
}

/// Builds a `String` holding exactly the characters of `chars`.
#[verifier::external_body]
pub(crate) fn chars_to_string(chars: &Vec<char>) -> (r: String)
    ensures
        r@ == chars@,
{
    chars.iter().collect()
}

/// Appends all of `extra` to `out`.
pub fn push_all(out: &mut Vec<char>, extra: &Vec<char>)
    ensures
        final(out)@ == old(out)@ + extra@,
{
    let ghost start = out@;
    for i in 0..extra.len()
        invariant
            out@ == start + extra@.take(i as int),
    {
        out.push(extra[i]);
        assert(extra@.take(i + 1) =~= extra@.take(i as int).push(extra@[i as int]));
    }
    assert(extra@.take(extra.len() as int) =~= extra@);
}

/// Appends the characters of `s` to `out`.
pub fn push_str(out: &mut Vec<char>, s: &str)
    ensures
        final(out)@ == old(out)@ + s@,
{
    let chars = str_chars(s);
    push_all(out, &chars);
}

/// Whether two character vectors hold the same characters.
pub fn chars_equal(a: &Vec<char>, b: &Vec<char>) -> (r: bool)
    ensures
        r == (a@ == b@),
{
    if a.len() != b.len() {
        return false;
    }
    for i in 0..a.len()
        invariant
            a.len() == b.len(),
            a@.take(i as int) == b@.take(i as int),
    {
        if a[i] != b[i] {
            assert(a@[i as int] != b@[i as int]);
            return false;
        }
        assert(a@.take(i + 1) =~= a@.take(i as int).push(a@[i as int]));
        assert(b@.take(i + 1) =~= b@.take(i as int).push(b@[i as int]));
    }
    assert(a@ =~= a@.take(a.len() as int));
    assert(b@ =~= b@.take(b.len() as int));
    true
}

/// The characters `v[from..to]` as a new vector.
pub fn sub_chars(v: &Vec<char>, from: usize, to: usize) -> (r: Vec<char>)
    requires
        from <= to <= v.len(),
    ensures
        r@ == v@.subrange(from as int, to as int),
{
    let mut r: Vec<char> = Vec::new();
    let mut i = from;
    while i < to
        invariant
            from <= i <= to <= v.len(),
            r@ == v@.subrange(from as int, i as int),
        decreases to - i,
    {
        r.push(v[i]);
        i += 1;
        assert(r@ =~= v@.subrange(from as int, i as int));
    }
    r
}

/// The digit character for `d` (which is below ten).
pub open spec fn digit_char(d: nat) -> char {
    if d == 0 {
        '0'
    } else if d == 1 {
        '1'
    } else if d == 2 {
        '2'
    } else if d == 3 {
        '3'
    } else if d == 4 {
        '4'
    } else if d == 5 {
        '5'
    } else if d == 6 {
        '6'
    } else if d == 7 {
        '7'
    } else if d == 8 {
        '8'
    } else {
        '9'
    }
}

/// The decimal representation of `n`, without leading zeros.
pub open spec fn decimal(n: nat) -> Seq<char>
    decreases n,
{
    if n < 10 {
        seq![digit_char(n)]
    } else {
        decimal(n / 10).push(digit_char(n % 10))
    }
}

/// A decimal representation is made of ASCII digits, and different numbers have different
/// representations.
pub proof fn lemma_decimal(a: nat, b: nat)
    ensures
        decimal(a).len() > 0,
        forall|i: int| 0 <= i < decimal(a).len() ==> '0' <= #[trigger] decimal(a)[i] <= '9',
        decimal(a) == decimal(b) ==> a == b,
    decreases a + b,
{
    if a >= 10 {
        lemma_decimal(a / 10, b);
        assert forall|i: int| 0 <= i < decimal(a).len() implies '0' <= #[trigger] decimal(a)[i] <= '9' by {
            if i < decimal(a / 10).len() {
                assert(decimal(a)[i] == decimal(a / 10)[i]);
            }
        }
    }
    if decimal(a) == decimal(b) {
        if a >= 10 && b >= 10 {
            lemma_decimal(a / 10, b / 10);
            assert(decimal(a).drop_last() =~= decimal(a / 10));
            assert(decimal(b).drop_last() =~= decimal(b / 10));
            assert(decimal(a).last() == digit_char(a % 10));
            assert(decimal(b).last() == digit_char(b % 10));
            assert(a % 10 == b % 10);
            assert(a == 10 * (a / 10) + a % 10);
            assert(b == 10 * (b / 10) + b % 10);
        } else if a < 10 && b < 10 {
            assert(decimal(a)[0] == digit_char(a));
            assert(decimal(b)[0] == digit_char(b));
        } else if a >= 10 {
            lemma_decimal(a / 10, b);
        } else if b >= 10 {
            lemma_decimal(b / 10, a);
        }
    }
}

/// When `x c v` and `y c w` are equal and neither `v` nor `w` holds `c`, then `v` and `w` are
/// equal, and so are `x` and `y`.
pub proof fn lemma_split_at_last(x: Seq<char>, v: Seq<char>, y: Seq<char>, w: Seq<char>, c: char)
    requires
        x + seq![c] + v == y + seq![c] + w,
        forall|i: int| 0 <= i < v.len() ==> #[trigger] v[i] != c,
        forall|i: int| 0 <= i < w.len() ==> #[trigger] w[i] != c,
    ensures
        v == w,
        x == y,
{
    let xc = x + seq![c];
    let yc = y + seq![c];
    let s = xc + v;
    let t = yc + w;
    assert(s.len() == t.len());
    assert(xc[x.len() as int] == c);
    assert(yc[y.len() as int] == c);
    if v.len() < w.len() {
        let k = x.len() as int;
        assert(s[k] == xc[k]);
        assert(t[k] == w[k - yc.len()]);
    } else if w.len() < v.len() {
        let k = y.len() as int;
        assert(t[k] == yc[k]);
        assert(s[k] == v[k - xc.len()]);
    }
    assert forall|i: int| 0 <= i < v.len() implies v[i] == w[i] by {
        assert(s[xc.len() + i] == v[i]);
        assert(t[yc.len() + i] == w[i]);
    }
    assert forall|i: int| 0 <= i < x.len() implies x[i] == y[i] by {
        assert(s[i] == xc[i] && xc[i] == x[i]);
        assert(t[i] == yc[i] && yc[i] == y[i]);
    }
    assert(v =~= w);
    assert(x =~= y);
}

/// When `q a` and `r b` are equal, where `q` and `r` are empty or end in `c` and neither `a`
/// nor `b` (both non-empty) holds `c`, then `a` and `b` are equal.
pub proof fn lemma_split_after(q: Seq<char>, a: Seq<char>, r: Seq<char>, b: Seq<char>, c: char)
    requires
        q + a == r + b,
        q.len() == 0 || q.last() == c,
        r.len() == 0 || r.last() == c,
        forall|i: int| 0 <= i < a.len() ==> #[trigger] a[i] != c,
        forall|i: int| 0 <= i < b.len() ==> #[trigger] b[i] != c,
    ensures
        a == b,
{
    let s = q + a;
    let t = r + b;
    assert(s.len() == t.len());
    if a.len() < b.len() {
        assert(q.len() > 0);
        let k = q.len() - 1;
        assert(s[k] == q[k]);
        assert(t[k] == b[k - r.len()]);
    } else if b.len() < a.len() {
        assert(r.len() > 0);
        let k = r.len() - 1;
        assert(t[k] == r[k]);
        assert(s[k] == a[k - q.len()]);
    }
    assert forall|i: int| 0 <= i < a.len() implies a[i] == b[i] by {
        assert(s[q.len() + i] == a[i]);
        assert(t[r.len() + i] == b[i]);
    }
    assert(a =~= b);
}

fn digit(d: u64) -> (c: char)
    requires
        d < 10,
    ensures
        c == digit_char(d as nat),
{
    if d == 0 {
        '0'
    } else if d == 1 {
        '1'
    } else if d == 2 {
        '2'
    } else if d == 3 {
        '3'
    } else if d == 4 {
        '4'
    } else if d == 5 {
        '5'
    } else if d == 6 {
        '6'
    } else if d == 7 {
        '7'
    } else if d == 8 {
        '8'
    } else {
        '9'
    }
}

/// Appends the decimal representation of `n` to `out`.
pub fn push_decimal(out: &mut Vec<char>, n: u64)
    ensures
        final(out)@ == old(out)@ + decimal(n as nat),
    decreases n,
{
    if n >= 10 {
        push_decimal(out, n / 10);
    }
    let d = digit(n % 10);
    out.push(d);
    proof {
        if n < 10 {
            assert(n % 10 == n);
        }
    }
    assert(out@ =~= old(out)@ + decimal(n as nat));
}

} // verus!

verus! {

/// What `str::to_lowercase` returns for a string with characters `s`: its Unicode lowercase
/// form (which maps some characters, such as a final sigma, by their context).
pub uninterp spec fn lowercase(s: Seq<char>) -> Seq<char>;

/// Calls `str::to_lowercase`; the result is named by `lowercase`.
#[verifier::external_body]
pub(crate) fn to_lowercase(s: &str) -> (r: String)
    ensures
        r@ == lowercase(s@),
{
    s.to_lowercase()
}

/// The characters of `v` in a new vector.
pub fn copy_chars(v: &Vec<char>) -> (r: Vec<char>)
    ensures
        r@ == v@,
{
    sub_chars(v, 0, v.len())
}

/// The string `s` with every backslash replaced by a forward slash.
pub open spec fn forward_slashes(s: Seq<char>) -> Seq<char> {
    s.map_values(|c: char| if c == '\\' { '/' } else { c })
}

/// Appends `s` to `out` with every backslash replaced by a forward slash.
pub fn push_forward_slashes(out: &mut Vec<char>, s: &Vec<char>)
    ensures
        final(out)@ == old(out)@ + forward_slashes(s@),
{
    let ghost start = out@;
    for i in 0..s.len()
        invariant
            out@ == start + forward_slashes(s@.take(i as int)),
    {
        let c = s[i];
        if c == '\\' {
            out.push('/');
        } else {
            out.push(c);
        }
        assert(forward_slashes(s@.take(i + 1)) =~= forward_slashes(s@.take(i as int)).push(
            if c == '\\' { '/' } else { c },
        ));
    }
    assert(s@.take(s.len() as int) =~= s@);
}

/// The path `base` with `p` pushed onto it, as `PathBuf::push` does on Unix: an absolute `p`
/// replaces `base`; otherwise a separator is added unless `base` is empty or already ends in
/// one.
pub open spec fn path_push(base: Seq<char>, p: Seq<char>) -> Seq<char> {
    if p.len() > 0 && p[0] == '/' {
        p
    } else if base.len() > 0 && base.last() != '/' {
        base + seq!['/'] + p
    } else {
        base + p
    }
}

/// Pushes `p` onto the path `base` (see `path_push`).
pub fn push_path(base: &mut Vec<char>, p: &Vec<char>)
    ensures
        final(base)@ == path_push(old(base)@, p@),
{
    if p.len() > 0 && p[0] == '/' {
        *base = copy_chars(p);
    } else {
        if base.len() > 0 && base[base.len() - 1] != '/' {
            base.push('/');
        }
        push_all(base, p);
    }
}

} // verus!

verus! {

/// The index of the first `c` in `s`, or `s.len()` where there is none.
pub open spec fn index_of(s: Seq<char>, c: char) -> int
    decreases s.len(),
{
    if s.len() == 0 {
        0
    } else if s[0] == c {
        0
    } else {
        1 + index_of(s.drop_first(), c)
    }
}

pub proof fn lemma_index_of_bounds(s: Seq<char>, c: char)
    ensures
        0 <= index_of(s, c) <= s.len(),
        index_of(s, c) < s.len() ==> s[index_of(s, c)] == c,
        forall|k: int| 0 <= k < index_of(s, c) ==> s[k] != c,
    decreases s.len(),
{
    if s.len() > 0 && s[0] != c {
        lemma_index_of_bounds(s.drop_first(), c);
        assert forall|k: int| 0 <= k < index_of(s, c) implies s[k] != c by {
            if k > 0 {
                assert(s[k] == s.drop_first()[k - 1]);
            }
        }
    }
}

/// The index of the first `c` is `m` when `c` first occurs at `m` (or `m` is the length and
/// `c` does not occur).
pub proof fn lemma_index_of_is(s: Seq<char>, c: char, m: int)
    requires
        0 <= m <= s.len(),
        forall|k: int| 0 <= k < m ==> s[k] != c,
        m < s.len() ==> s[m] == c,
    ensures
        index_of(s, c) == m,
    decreases s.len(),
{
    if s.len() > 0 && m > 0 {
        assert forall|k: int| 0 <= k < m - 1 implies s.drop_first()[k] != c by {
            assert(s[k + 1] != c);
        }
        lemma_index_of_is(s.drop_first(), c, m - 1);
    }
}

/// The pieces of `s` between occurrences of `c` (as `str::split` gives them).
pub open spec fn split_on(s: Seq<char>, c: char) -> Seq<Seq<char>>
    decreases s.len(),
{
    let k = index_of(s, c);
    if k >= s.len() {
        seq![s]
    } else {
        proof {
            lemma_index_of_bounds(s, c);
        }
        seq![s.take(k)] + split_on(s.skip(k + 1), c)
    }
}

/// The character sequences held by a sequence of character vectors.
pub open spec fn views(v: Seq<Vec<char>>) -> Seq<Seq<char>> {
    v.map_values(|x: Vec<char>| x@)
}

/// Splits `s` at every `c`.
pub fn split_chars(s: &Vec<char>, c: char) -> (r: Vec<Vec<char>>)
    ensures
        views(r@) == split_on(s@, c),
{
    let mut r: Vec<Vec<char>> = Vec::new();
    let mut start: usize = 0;
    assert(s@.skip(0) =~= s@);
    for i in 0..s.len()
        invariant
            start <= i <= s.len(),
            views(r@) + split_on(s@.skip(start as int), c) == split_on(s@, c),
            forall|k: int| start <= k < i ==> s@[k] != c,
    {
        if s[i] == c {
            let piece = sub_chars(s, start, i);
            let ghost rest = s@.skip(start as int);
            proof {
                assert forall|k: int| 0 <= k < i - start implies rest[k] != c by {
                    assert(rest[k] == s@[start + k]);
                }
                lemma_index_of_is(rest, c, i - start);
                assert(rest.take(i - start) =~= s@.subrange(start as int, i as int));
                assert(rest.skip(i - start + 1) =~= s@.skip(i + 1));
            }
            let ghost before = views(r@);
            r.push(piece);
            assert(views(r@) =~= before.push(piece@));
            assert(views(r@) + split_on(s@.skip(i + 1), c) =~= before + split_on(rest, c));
            start = i + 1;
        }
    }
    let piece = sub_chars(s, start, s.len());
    let ghost rest = s@.skip(start as int);
    proof {
        assert forall|k: int| 0 <= k < rest.len() implies rest[k] != c by {
            assert(rest[k] == s@[start + k]);
        }
        lemma_index_of_is(rest, c, rest.len() as int);
        assert(piece@ =~= rest);
    }
    let ghost before = views(r@);
    r.push(piece);
    assert(views(r@) =~= before.push(piece@));
    r
}

} // verus!

verus! {

/// Whether `seg` is one of the `-`-separated pieces of `text`.
pub open spec fn has_segment(text: Seq<char>, seg: Seq<char>) -> bool {
    split_on(text, '-').contains(seg)
}

/// Whether `seg` is one of the `-`-separated pieces of `text`.
pub fn segment_matches(text: &Vec<char>, seg: &Vec<char>) -> (r: bool)
    ensures
        r == has_segment(text@, seg@),
{
    let parts = split_chars(text, '-');
    let ghost pv = views(parts@);
    for i in 0..parts.len()
        invariant
            pv == views(parts@),
            pv == split_on(text@, '-'),
            forall|k: int| 0 <= k < i ==> pv[k] != seg@,
    {
        if chars_equal(&parts[i], seg) {
            assert(pv[i as int] == seg@);
            return true;
        }
    }
    false
}

} // verus!

verus! {

/// The index of the last `c` in `s`, if any.
pub open spec fn last_index_of(s: Seq<char>, c: char) -> Option<int>
    decreases s.len(),
{
    if s.len() == 0 {
        None
    } else if s.last() == c {
        Some(s.len() - 1)
    } else {
        last_index_of(s.drop_last(), c)
    }
}

pub proof fn lemma_last_index_of(s: Seq<char>, c: char)
    ensures
        last_index_of(s, c) matches Some(k) ==> 0 <= k < s.len() && s[k] == c && forall|m: int|
            k < m < s.len() ==> #[trigger] s[m] != c,
        last_index_of(s, c) is None ==> forall|m: int| 0 <= m < s.len() ==> #[trigger] s[m] != c,
    decreases s.len(),
{
    if s.len() > 0 {
        let d = s.drop_last();
        lemma_last_index_of(d, c);
        assert forall|m: int| 0 <= m < d.len() implies d[m] == s[m] by {}
    }
}

} // verus!
