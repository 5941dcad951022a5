//! Pages of an archive: which entries are images, and the natural order in
//! which they are read.

use vstd::prelude::*;
use crate::natural::{
    lemma_natural_order_antisymmetric, lemma_natural_order_transitive, natural_order,
    natural_order_of,
};
use crate::text::chars_of;
use std::cmp::Ordering;

verus! {

// ---------------------------------------------------------------------------
// Entry names: final path component and extension
// ---------------------------------------------------------------------------

/// ASCII lower-casing of one character; other characters are kept.
pub open spec fn ascii_lower(c: char) -> char {
    if 'A' <= c && c <= 'Z' {
        ((c as u32) + 32) as char
    } else {
        c
    }
}

/// ASCII lower-casing of a whole name.
pub open spec fn lower_name(s: Seq<char>) -> Seq<char> {
    s.map_values(|c: char| ascii_lower(c))
}

/// Position just after the last `/` of `s`, or 0 when `s` holds none.
pub open spec fn after_last_slash(s: Seq<char>) -> int
    decreases s.len(),
{
    if s.len() == 0 {
        0
    } else if s.last() == '/' {
        s.len() as int
    } else {
        after_last_slash(s.drop_last())
    }
}

/// The final named component of a `/`-separated path: empty and `.`
/// components are passed over, and a path whose last such component is `..`
/// or that has none has no file name.
pub open spec fn file_name(s: Seq<char>) -> Option<Seq<char>>
    decreases s.len(),
{
    let k = after_last_slash(s);
    let seg = s.skip(k);
    if seg.len() == 0 || seg == seq!['.'] {
        if k <= 0 || k > s.len() {
            None
        } else {
            file_name(s.take(k - 1))
        }
    } else if seg == seq!['.', '.'] {
        None
    } else {
        Some(seg)
    }
}

/// Position of the last `.` of `s`, or -1 when `s` holds none.
pub open spec fn last_dot(s: Seq<char>) -> int
    decreases s.len(),
{
    if s.len() == 0 {
        -1
    } else if s.last() == '.' {
        s.len() - 1
    } else {
        last_dot(s.drop_last())
    }
}

/// Extension of a path: what follows the last `.` of its file name, where
/// that `.` is not the file name's first character.
pub open spec fn extension(s: Seq<char>) -> Option<Seq<char>> {
    match file_name(s) {
        None => None,
        Some(f) => {
            let d = last_dot(f);
            if d <= 0 {
                None
            } else {
                Some(f.skip(d + 1))
            }
        },
    }
}

/// The lower-case extensions of the page formats a reader displays.
pub open spec fn is_image_extension(e: Seq<char>) -> bool {
    ||| e == seq!['j', 'p', 'g']
    ||| e == seq!['j', 'p', 'e', 'g']
    ||| e == seq!['p', 'n', 'g']
    ||| e == seq!['w', 'e', 'b', 'p']
    ||| e == seq!['b', 'm', 'p']
    ||| e == seq!['g', 'i', 'f']
}

/// An archive entry is a page when the extension of its lower-cased name is
/// one of the image extensions.
pub open spec fn is_image_name(name: Seq<char>) -> bool {
    match extension(lower_name(name)) {
        Some(e) => is_image_extension(e),
        None => false,
    }
}

/// Recognising pages ignores ASCII case: a name is a page exactly when its
/// lower-cased form is.
pub proof fn lemma_is_image_ignores_case(name: Seq<char>)
    ensures
        is_image_name(lower_name(name)) == is_image_name(name),
{
    assert(lower_name(lower_name(name)) =~= lower_name(name));
}

proof fn lemma_after_last_slash_append(s: Seq<char>, t: Seq<char>)
    requires
        forall|m: int| 0 <= m < t.len() ==> #[trigger] t[m] != '/',
    ensures
        after_last_slash(s + t) == after_last_slash(s),
    decreases t.len(),
{
    if t.len() == 0 {
        assert(s + t =~= s);
    } else {
        assert((s + t).drop_last() =~= s + t.drop_last());
        assert((s + t).last() == t[t.len() - 1]);
        assert forall|m: int| 0 <= m < t.drop_last().len() implies #[trigger] t.drop_last()[m]
            != '/' by {
            assert(t.drop_last()[m] == t[m]);
        }
        lemma_after_last_slash_append(s, t.drop_last());
    }
}

proof fn lemma_last_dot_append(s: Seq<char>, t: Seq<char>)
    requires
        forall|m: int| 0 <= m < t.len() ==> #[trigger] t[m] != '.',
    ensures
        last_dot(s + t) == last_dot(s),
    decreases t.len(),
{
    if t.len() == 0 {
        assert(s + t =~= s);
    } else {
        assert((s + t).drop_last() =~= s + t.drop_last());
        assert((s + t).last() == t[t.len() - 1]);
        assert forall|m: int| 0 <= m < t.drop_last().len() implies #[trigger] t.drop_last()[m]
            != '.' by {
            assert(t.drop_last()[m] == t[m]);
        }
        lemma_last_dot_append(s, t.drop_last());
    }
}

/// A name is a page exactly when what follows its last `.` is, ignoring
/// ASCII case, one of `jpg`, `jpeg`, `png`, `webp`, `bmp` or `gif`: for a
/// file name with a stem and an extension after a dot, nothing else counts
/// (so `ComicInfo.xml` or `notes.txt` is never a page).
pub proof fn lemma_pages_are_named_by_extension(p: Seq<char>, e: Seq<char>)
    requires
        p.len() > 0,
        p.last() != '/',
        e.len() > 0,
        forall|m: int| 0 <= m < e.len() ==> #[trigger] e[m] != '.' && e[m] != '/',
    ensures
        is_image_name(p + seq!['.'] + e) <==> {
            let x = lower_name(e);
            ||| x == seq!['j', 'p', 'g']
            ||| x == seq!['j', 'p', 'e', 'g']
            ||| x == seq!['p', 'n', 'g']
            ||| x == seq!['w', 'e', 'b', 'p']
            ||| x == seq!['b', 'm', 'p']
            ||| x == seq!['g', 'i', 'f']
        },
{
    let (lp, le) = (lower_name(p), lower_name(e));
    let name = p + seq!['.'] + e;
    let l = lower_name(name);
    assert(l =~= lp + seq!['.'] + le);
    assert forall|m: int| 0 <= m < le.len() implies #[trigger] le[m] != '.' && le[m] != '/' by {
        assert(le[m] == ascii_lower(e[m]));
    }
    let dotted = lp + seq!['.'];
    assert(l =~= dotted + le);
    lemma_after_last_slash_append(dotted, le);
    assert(dotted.drop_last() =~= lp);
    let k = after_last_slash(lp);
    assert(after_last_slash(l) == k);
    lemma_after_last_slash_bounds(lp);
    assert(lp.last() == ascii_lower(p.last()));
    assert(k < lp.len());
    let seg = l.skip(k);
    let stem = lp.skip(k);
    assert(seg =~= stem + seq!['.'] + le);
    assert(seg.len() >= 3);
    assert(seg != seq!['.']);
    assert(seg != seq!['.', '.']) by {
        assert(seg[seg.len() - 1] == le[le.len() - 1]);
    }
    assert(file_name(l) == Some(seg));
    assert(seg =~= (stem + seq!['.']) + le);
    lemma_last_dot_append(stem + seq!['.'], le);
    assert((stem + seq!['.']).drop_last() =~= stem);
    let d = last_dot(seg);
    assert(d == stem.len());
    assert(d > 0);
    assert(seg.skip(d + 1) =~= le);
    assert(extension(l) == Some(le));
}

/// `ComicInfo.xml` and every other name ending in `.xml` is not a page.
pub proof fn lemma_xml_is_not_a_page(p: Seq<char>)
    requires
        p.len() > 0,
        p.last() != '/',
    ensures
        !is_image_name(p + seq!['.', 'x', 'm', 'l']),
{
    let e = seq!['x', 'm', 'l'];
    lemma_pages_are_named_by_extension(p, e);
    assert(lower_name(e) =~= e);
    assert(p + seq!['.'] + e =~= p + seq!['.', 'x', 'm', 'l']);
}

proof fn lemma_after_last_slash_bounds(s: Seq<char>)
    ensures
        0 <= after_last_slash(s) <= s.len(),
        after_last_slash(s) > 0 ==> s[after_last_slash(s) - 1] == '/',
        forall|m: int| after_last_slash(s) <= m < s.len() ==> #[trigger] s[m] != '/',
    decreases s.len(),
{
    if s.len() > 0 && s.last() != '/' {
        lemma_after_last_slash_bounds(s.drop_last());
        assert forall|m: int| after_last_slash(s) <= m < s.len() implies #[trigger] s[m] != '/' by {
            if m < s.len() - 1 {
                assert(s[m] == s.drop_last()[m]);
            }
        }
    }
}

proof fn lemma_last_dot_bounds(s: Seq<char>)
    ensures
        -1 <= last_dot(s) < s.len(),
        last_dot(s) >= 0 ==> s[last_dot(s)] == '.',
        forall|m: int| last_dot(s) < m < s.len() ==> #[trigger] s[m] != '.',
    decreases s.len(),
{
    if s.len() > 0 && s.last() != '.' {
        lemma_last_dot_bounds(s.drop_last());
        assert forall|m: int| last_dot(s) < m < s.len() implies #[trigger] s[m] != '.' by {
            if m < s.len() - 1 {
                assert(s[m] == s.drop_last()[m]);
            }
        }
    }
}

/// ASCII lower-casing of one character.
fn to_ascii_lower(c: char) -> (r: char)
    ensures
        r == ascii_lower(c),
{
    if 'A' <= c && c <= 'Z' {
        (((c as u32) + 32) as u8) as char
    } else {
        c
    }
}

/// Position just after the last `/` among the first `end` characters.
fn slash_boundary(s: &Vec<char>, end: usize) -> (k: usize)
    requires
        end <= s.len(),
    ensures
        k == after_last_slash(s@.take(end as int)),
        k <= end,
{
    let mut k = end;
    while k > 0 && s[k - 1] != '/'
        invariant
            k <= end <= s.len(),
            after_last_slash(s@.take(end as int)) == after_last_slash(s@.take(k as int)),
        decreases k,
    {
        assert(s@.take(k as int).drop_last() =~= s@.take(k - 1));
        k = k - 1;
    }
    k
}

/// Position of the last `.` in `s[from..to]`, counted from `from`.
fn dot_position(s: &Vec<char>, from: usize, to: usize) -> (d: Option<usize>)
    requires
        from <= to <= s.len(),
    ensures
        match d {
            None => last_dot(s@.subrange(from as int, to as int)) == -1,
            Some(p) => p == last_dot(s@.subrange(from as int, to as int)),
        },
{
    let mut k = to;
    while k > from && s[k - 1] != '.'
        invariant
            from <= k <= to <= s.len(),
            last_dot(s@.subrange(from as int, to as int)) == last_dot(
                s@.subrange(from as int, k as int),
            ),
        decreases k,
    {
        assert(s@.subrange(from as int, k as int).drop_last() =~= s@.subrange(
            from as int,
            k - 1,
        ));
        k = k - 1;
    }
    if k == from {
        None
    } else {
        Some(k - 1 - from)
    }
}

/// Whether `s[from..to]` spells `word`.
fn spells(s: &Vec<char>, from: usize, to: usize, word: &[char]) -> (r: bool)
    requires
        from <= to <= s.len(),
    ensures
        r == (s@.subrange(from as int, to as int) == word@),
{
    if to - from != word.len() {
        return false;
    }
    let mut k: usize = 0;
    while k < word.len()
        invariant
            to - from == word.len(),
            from <= to <= s.len(),
            k <= word.len(),
            forall|m: int| 0 <= m < k ==> s@[from + m] == word@[m],
        decreases word.len() - k,
    {
        if s[from + k] != word[k] {
            assert(s@.subrange(from as int, to as int)[k as int] != word@[k as int]);
            return false;
        }
        k = k + 1;
    }
    assert(s@.subrange(from as int, to as int) =~= word@);
    true
}

/// Recognises archive entries that are pages: the extension of the
/// lower-cased name is `jpg`, `jpeg`, `png`, `webp`, `bmp` or `gif`.
pub fn is_image(name: &str) -> (r: bool)
    ensures
        r == is_image_name(name@),
{
    let raw = chars_of(name);
    let mut lower: Vec<char> = Vec::new();
    for i in 0..raw.len()
        invariant
            raw@ == name@,
            lower@ == lower_name(raw@).take(i as int),
    {
        lower.push(to_ascii_lower(raw[i]));
        assert(lower@ =~= lower_name(raw@).take(i + 1));
    }
    assert(lower@ =~= lower_name(name@));
    let ghost full = lower@;
    // Walk back over empty and `.` components to the file name.
    let mut end = lower.len();
    assert(full.take(end as int) =~= full);
    let mut start = slash_boundary(&lower, end);
    proof {
        lemma_after_last_slash_bounds(full.take(end as int));
    }
    while start == end || (end - start == 1 && lower[start] == '.')
        invariant
            end <= lower.len(),
            lower@ == full,
            full == lower_name(name@),
            start <= end,
            start == after_last_slash(full.take(end as int)),
            file_name(full) == file_name(full.take(end as int)),
        decreases end,
    {
        let ghost t = full.take(end as int);
        assert(t.skip(start as int) =~= full.subrange(start as int, end as int));
        if end - start == 1 {
            assert(t.skip(start as int) =~= seq!['.']);
        }
        if start == 0 {
            assert(file_name(t) is None);
            return false;
        }
        proof {
            lemma_after_last_slash_bounds(t);
            assert(t.take(start - 1) =~= full.take(start - 1));
        }
        end = start - 1;
        start = slash_boundary(&lower, end);
    }
    let ghost t = full.take(end as int);
    proof {
        lemma_after_last_slash_bounds(t);
        assert(t.skip(start as int) =~= full.subrange(start as int, end as int));
        if end - start == 1 {
            assert(t.skip(start as int) != seq!['.']) by {
                assert(t.skip(start as int)[0] == lower@[start as int]);
            }
        }
    }
    if spells(&lower, start, end, &['.', '.']) {
        return false;
    }
    let ghost f = full.subrange(start as int, end as int);
    assert(file_name(full) == Some(f));
    let d = match dot_position(&lower, start, end) {
        None => {
            return false;
        },
        Some(p) => p,
    };
    if d == 0 {
        return false;
    }
    proof {
        lemma_last_dot_bounds(f);
    }
    let from = start + d + 1;
    assert(f.skip(d + 1) =~= full.subrange(from as int, end as int));
    let jpg = spells(&lower, from, end, &['j', 'p', 'g']);
    let jpeg = spells(&lower, from, end, &['j', 'p', 'e', 'g']);
    let png = spells(&lower, from, end, &['p', 'n', 'g']);
    let webp = spells(&lower, from, end, &['w', 'e', 'b', 'p']);
    let bmp = spells(&lower, from, end, &['b', 'm', 'p']);
    let gif = spells(&lower, from, end, &['g', 'i', 'f']);
    jpg || jpeg || png || webp || bmp || gif
}

// ---------------------------------------------------------------------------
// Natural order of names
// ---------------------------------------------------------------------------

/// The ordering that the sign of a comparison stands for.
pub open spec fn ordering_of_sign(sign: int) -> Ordering {
    if sign < 0 {
        Ordering::Less
    } else if sign > 0 {
        Ordering::Greater
    } else {
        Ordering::Equal
    }
}

/// Natural ordering: digit runs compare as numbers, so `page_2` sorts
/// before `page_10`; see `natural_order`.
pub fn natord_cmp(a: &str, b: &str) -> (r: Ordering)
    ensures
        r == ordering_of_sign(natural_order(a@, b@)),
{
    let ca = chars_of(a);
    let cb = chars_of(b);
    let sign = natural_order_of(ca.as_slice(), cb.as_slice());
    if sign < 0 {
        Ordering::Less
    } else if sign > 0 {
        Ordering::Greater
    } else {
        Ordering::Equal
    }
}

// ---------------------------------------------------------------------------
// Stable natural sort
// ---------------------------------------------------------------------------

/// `perm` lists every position below `n` exactly once.
pub open spec fn is_index_permutation(perm: Seq<int>, n: int) -> bool {
    &&& perm.len() == n
    &&& forall|k: int| 0 <= k < n ==> 0 <= #[trigger] perm[k] < n
    &&& forall|k1: int, k2: int| 0 <= k1 < k2 < n ==> #[trigger] perm[k1] != #[trigger] perm[k2]
}

/// `out` is `input` rearranged by `perm` into natural order, elements that
/// compare equivalent keeping their original relative order.
pub open spec fn stably_sorted_by(input: Seq<Seq<char>>, out: Seq<Seq<char>>, perm: Seq<int>) -> bool {
    &&& is_index_permutation(perm, input.len() as int)
    &&& out.len() == input.len()
    &&& forall|k: int| 0 <= k < out.len() ==> #[trigger] out[k] == input[perm[k]]
    &&& forall|k1: int, k2: int|
        0 <= k1 < k2 < out.len() ==> natural_order(#[trigger] out[k1], #[trigger] out[k2]) <= 0
    &&& forall|k1: int, k2: int|
        0 <= k1 < k2 < out.len() && natural_order(#[trigger] out[k1], #[trigger] out[k2]) == 0
            ==> perm[k1] < perm[k2]
}

/// `out` is the stable natural sort of `input`.
pub open spec fn is_natural_sort_of(input: Seq<Seq<char>>, out: Seq<Seq<char>>) -> bool {
    exists|perm: Seq<int>| stably_sorted_by(input, out, perm)
}

/// Every position below `n` occurs in an index permutation.
proof fn lemma_index_permutation_onto(perm: Seq<int>, n: int, j: int)
    requires
        is_index_permutation(perm, n),
        0 <= j < n,
    ensures
        exists|k: int| 0 <= k < n && #[trigger] perm[k] == j,
{
    assert(perm.no_duplicates()) by {
        assert forall|a: int, b: int| 0 <= a < perm.len() && 0 <= b < perm.len() && a != b implies perm[a]
            != perm[b] by {
            if a < b {
                assert(perm[a] != perm[b]);
            } else {
                assert(perm[b] != perm[a]);
            }
        }
    }
    perm.unique_seq_to_set();
    vstd::set_lib::lemma_int_range(0, n);
    let range = vstd::set_lib::set_int_range(0, n);
    assert(perm.to_set().subset_of(range)) by {
        assert forall|v: int| perm.to_set().contains(v) implies range.contains(v) by {
            let k = choose|k: int| 0 <= k < perm.len() && perm[k] == v;
            assert(0 <= perm[k] < n);
        }
    }
    vstd::set_lib::lemma_len_subset(perm.to_set(), range);
    vstd::set_lib::lemma_subset_equality(perm.to_set(), range);
    assert(range.contains(j));
    assert(perm.to_set().contains(j));
}

/// `i` comes before `j` in a stable natural sort of `input`.
pub open spec fn sorts_before(input: Seq<Seq<char>>, i: int, j: int) -> bool {
    natural_order(input[i], input[j]) < 0 || (natural_order(input[i], input[j]) == 0 && i < j)
}

proof fn lemma_sorted_positions_agree(
    input: Seq<Seq<char>>,
    o1: Seq<Seq<char>>,
    p1: Seq<int>,
    o2: Seq<Seq<char>>,
    p2: Seq<int>,
    k: int,
)
    requires
        stably_sorted_by(input, o1, p1),
        stably_sorted_by(input, o2, p2),
        0 <= k <= input.len(),
    ensures
        forall|m: int| 0 <= m < k ==> #[trigger] p1[m] == p2[m],
    decreases k,
{
    let n = input.len() as int;
    if k > 0 {
        lemma_sorted_positions_agree(input, o1, p1, o2, p2, k - 1);
        let c = k - 1;
        let a = p1[c];
        let b = p2[c];
        if a != b {
            // Each sort lists every position before the positions after it.
            assert forall|x: int, y: int| 0 <= x < y < n implies sorts_before(
                input,
                #[trigger] p1[x],
                #[trigger] p1[y],
            ) by {
                assert(o1[x] == input[p1[x]] && o1[y] == input[p1[y]]);
                assert(natural_order(o1[x], o1[y]) <= 0);
            }
            assert forall|x: int, y: int| 0 <= x < y < n implies sorts_before(
                input,
                #[trigger] p2[x],
                #[trigger] p2[y],
            ) by {
                assert(o2[x] == input[p2[x]] && o2[y] == input[p2[y]]);
                assert(natural_order(o2[x], o2[y]) <= 0);
            }
            lemma_index_permutation_onto(p2, n, a);
            let m2 = choose|m: int| 0 <= m < n && #[trigger] p2[m] == a;
            lemma_index_permutation_onto(p1, n, b);
            let m1 = choose|m: int| 0 <= m < n && #[trigger] p1[m] == b;
            if m2 < c {
                assert(p1[m2] == a);
                assert(p1[m2] != p1[c]);
            }
            if m1 < c {
                assert(p2[m1] == b);
                assert(p2[m1] != p2[c]);
            }
            assert(m2 > c && m1 > c);
            assert(sorts_before(input, a, b));
            assert(sorts_before(input, b, a));
            lemma_natural_order_antisymmetric(input[a], input[b]);
        }
    }
}

/// The stable natural sort of a list is unique: the page order a list of
/// names gives is fully determined.
pub proof fn lemma_natural_sort_is_unique(input: Seq<Seq<char>>, o1: Seq<Seq<char>>, o2: Seq<Seq<char>>)
    requires
        is_natural_sort_of(input, o1),
        is_natural_sort_of(input, o2),
    ensures
        o1 == o2,
{
    let p1 = choose|perm: Seq<int>| stably_sorted_by(input, o1, perm);
    let p2 = choose|perm: Seq<int>| stably_sorted_by(input, o2, perm);
    lemma_sorted_positions_agree(input, o1, p1, o2, p2, input.len() as int);
    assert forall|k: int| 0 <= k < o1.len() implies #[trigger] o1[k] == o2[k] by {
        assert(p1[k] == p2[k]);
    }
    assert(o1 =~= o2);
}

/// Views of a list of character vectors.
pub open spec fn key_views(keys: Seq<Vec<char>>) -> Seq<Seq<char>> {
    keys.map_values(|v: Vec<char>| v@)
}

/// Where key `x` goes among the positions `idx` (sorted by their keys): after
/// every key that sorts no later than `x`, before every key that sorts after.
fn insertion_point(keys: &Vec<Vec<char>>, idx: &Vec<usize>, x: usize) -> (pos: usize)
    requires
        x < keys.len(),
        forall|p: int| 0 <= p < idx.len() ==> #[trigger] idx@[p] < keys.len(),
        forall|p: int, q: int|
            0 <= p < q < idx.len() ==> natural_order(
                keys@[#[trigger] idx@[p] as int]@,
                keys@[#[trigger] idx@[q] as int]@,
            ) <= 0,
    ensures
        pos <= idx.len(),
        forall|p: int|
            0 <= p < pos ==> natural_order(keys@[#[trigger] idx@[p] as int]@, keys@[x as int]@) <= 0,
        forall|p: int|
            pos <= p < idx.len() ==> natural_order(keys@[#[trigger] idx@[p] as int]@, keys@[x as int]@)
                > 0,
{
    let ghost xk = keys@[x as int]@;
    let mut lo: usize = 0;
    let mut hi: usize = idx.len();
    while lo < hi
        invariant
            x < keys.len(),
            xk == keys@[x as int]@,
            lo <= hi <= idx.len(),
            forall|p: int| 0 <= p < idx.len() ==> #[trigger] idx@[p] < keys.len(),
            forall|p: int, q: int|
                0 <= p < q < idx.len() ==> natural_order(
                    keys@[#[trigger] idx@[p] as int]@,
                    keys@[#[trigger] idx@[q] as int]@,
                ) <= 0,
            forall|p: int| 0 <= p < lo ==> natural_order(keys@[#[trigger] idx@[p] as int]@, xk) <= 0,
            forall|p: int|
                hi <= p < idx.len() ==> natural_order(keys@[#[trigger] idx@[p] as int]@, xk) > 0,
        decreases hi - lo,
    {
        let mid = lo + (hi - lo) / 2;
        let ghost mk = keys@[idx@[mid as int] as int]@;
        if natural_order_of(keys[idx[mid]].as_slice(), keys[x].as_slice()) <= 0 {
            assert forall|p: int| 0 <= p < mid + 1 implies natural_order(
                keys@[#[trigger] idx@[p] as int]@,
                xk,
            ) <= 0 by {
                if p < mid {
                    lemma_natural_order_transitive(keys@[idx@[p] as int]@, mk, xk);
                }
            }
            lo = mid + 1;
        } else {
            assert forall|p: int| mid <= p < idx.len() implies natural_order(
                keys@[#[trigger] idx@[p] as int]@,
                xk,
            ) > 0 by {
                if p > mid {
                    let pk = keys@[idx@[p] as int]@;
                    lemma_natural_order_antisymmetric(mk, xk);
                    lemma_natural_order_transitive(xk, mk, pk);
                    lemma_natural_order_antisymmetric(pk, xk);
                }
            }
            hi = mid;
        }
    }
    lo
}

/// Positions of `keys` listed in stable natural order: each position is
/// inserted after every earlier one whose key sorts no later than its own,
/// the place found by binary search.
fn natural_sort_positions(keys: &Vec<Vec<char>>) -> (idx: Vec<usize>)
    ensures
        stably_sorted_by(
            key_views(keys@),
            idx@.map_values(|p: usize| key_views(keys@)[p as int]),
            idx@.map_values(|p: usize| p as int),
        ),
{
    let ghost ks = key_views(keys@);
    let n = keys.len();
    let mut idx: Vec<usize> = Vec::new();
    let mut i: usize = 0;
    while i < n
        invariant
            n == keys.len(),
            ks == key_views(keys@),
            i <= n,
            idx.len() == i,
            forall|p: int| 0 <= p < i ==> #[trigger] idx@[p] < i,
            forall|p: int, q: int| 0 <= p < q < i ==> #[trigger] idx@[p] != #[trigger] idx@[q],
            forall|p: int, q: int|
                0 <= p < q < i ==> natural_order(
                    ks[#[trigger] idx@[p] as int],
                    ks[#[trigger] idx@[q] as int],
                ) <= 0,
            forall|p: int, q: int|
                0 <= p < q < i && natural_order(
                    ks[#[trigger] idx@[p] as int],
                    ks[#[trigger] idx@[q] as int],
                ) == 0 ==> idx@[p] < idx@[q],
        decreases n - i,
    {
        proof {
            assert forall|p: int, q: int| 0 <= p < q < idx.len() implies natural_order(
                keys@[#[trigger] idx@[p] as int]@,
                keys@[#[trigger] idx@[q] as int]@,
            ) <= 0 by {
                assert(ks[idx@[p] as int] == keys@[idx@[p] as int]@);
                assert(ks[idx@[q] as int] == keys@[idx@[q] as int]@);
            }
        }
        let pos = insertion_point(keys, &idx, i);
        let ghost old_idx = idx@;
        idx.insert(pos, i);
        proof {
            let x = ks[i as int];
            assert(idx@ == old_idx.insert(pos as int, i));
            assert forall|p: int| 0 <= p <= i implies #[trigger] idx@[p] == if p < pos {
                old_idx[p]
            } else if p == pos {
                i as usize
            } else {
                old_idx[p - 1]
            } by {}
            assert forall|p: int, q: int| 0 <= p < q <= i implies #[trigger] idx@[p]
                != #[trigger] idx@[q] by {
                if p != pos && q != pos {
                    let (pp, qq) = (if p < pos { p } else { p - 1 }, if q < pos { q } else { q - 1 });
                    assert(old_idx[pp] != old_idx[qq]);
                }
            }
            assert forall|p: int, q: int| 0 <= p < q <= i implies natural_order(
                ks[#[trigger] idx@[p] as int],
                ks[#[trigger] idx@[q] as int],
            ) <= 0 && (natural_order(ks[idx@[p] as int], ks[idx@[q] as int]) == 0 ==> idx@[p]
                < idx@[q]) by {
                if q == pos {
                    assert(ks[idx@[p] as int] == keys@[old_idx[p] as int]@);
                } else if p == pos {
                    let qk = ks[idx@[q] as int];
                    assert(qk == keys@[old_idx[q - 1] as int]@);
                    lemma_natural_order_antisymmetric(qk, x);
                } else {
                    let (pp, qq) = (if p < pos { p } else { p - 1 }, if q < pos { q } else { q - 1 });
                    assert(idx@[p] == old_idx[pp] && idx@[q] == old_idx[qq]);
                }
            }
        }
        i = i + 1;
    }
    proof {
        let out = idx@.map_values(|p: usize| ks[p as int]);
        let perm = idx@.map_values(|p: usize| p as int);
        assert forall|k1: int, k2: int| 0 <= k1 < k2 < n implies #[trigger] perm[k1]
            != #[trigger] perm[k2] by {
            assert(idx@[k1] != idx@[k2]);
        }
        assert forall|k1: int, k2: int| 0 <= k1 < k2 < out.len() implies natural_order(
            #[trigger] out[k1],
            #[trigger] out[k2],
        ) <= 0 && (natural_order(out[k1], out[k2]) == 0 ==> perm[k1] < perm[k2]) by {
            assert(natural_order(ks[idx@[k1] as int], ks[idx@[k2] as int]) <= 0);
        }
    }
    idx
}

// ---------------------------------------------------------------------------
// The pages of an archive
// ---------------------------------------------------------------------------

/// Views of a list of strings.
pub open spec fn name_views(names: Seq<String>) -> Seq<Seq<char>> {
    names.map_values(|s: String| s@)
}

/// The entries of an archive that are pages, in archive order.
pub open spec fn image_entries(names: Seq<Seq<char>>) -> Seq<Seq<char>> {
    names.filter(|n: Seq<char>| is_image_name(n))
}

/// The pages of an archive: the names of its image entries, stably sorted
/// in natural order.
pub struct ZipPageSource {
    entries: Vec<String>,
}

impl View for ZipPageSource {
    type V = Seq<Seq<char>>;

    closed spec fn view(&self) -> Seq<Seq<char>> {
        name_views(self.entries@)
    }
}

impl ZipPageSource {
    /// Builds the page list from the entry names of an archive, in the order
    /// the archive lists them: entries that are not images are dropped and
    /// the rest are sorted naturally, equivalent names keeping their order.
    pub fn from_names(names: Vec<String>) -> (r: Self)
        ensures
            is_natural_sort_of(image_entries(name_views(names@)), r@),
            r@.len() == image_entries(name_views(names@)).len(),
    {
        let ghost all = name_views(names@);
        let mut images: Vec<String> = Vec::new();
        for k in 0..names.len()
            invariant
                all == name_views(names@),
                name_views(images@) == image_entries(all.take(k as int)),
        {
            proof {
                reveal_with_fuel(Seq::<_>::filter, 1);
                assert(all.take(k + 1).drop_last() =~= all.take(k as int));
            }
            if is_image(names[k].as_str()) {
                images.push(names[k].clone());
                assert(name_views(images@) =~= image_entries(all.take(k + 1)));
            } else {
                assert(name_views(images@) =~= image_entries(all.take(k + 1)));
            }
        }
        assert(all.take(names.len() as int) =~= all);
        let ghost pages = name_views(images@);
        let mut keys: Vec<Vec<char>> = Vec::new();
        for k in 0..images.len()
            invariant
                pages == name_views(images@),
                keys.len() == k,
                key_views(keys@) == pages.take(k as int),
        {
            let key = chars_of(images[k].as_str());
            assert(key@ == pages[k as int]);
            let ghost before = keys@;
            keys.push(key);
            assert forall|m: int| 0 <= m < k + 1 implies #[trigger] key_views(keys@)[m] == pages[m] by {
                if m < k {
                    assert(key_views(before)[m] == pages.take(k as int)[m]);
                }
            }
            assert(key_views(keys@) =~= pages.take(k + 1));
        }
        assert(key_views(keys@) =~= pages);
        let idx = natural_sort_positions(&keys);
        let ghost perm = idx@.map_values(|p: usize| p as int);
        let ghost out = idx@.map_values(|p: usize| pages[p as int]);
        proof {
            assert(out =~= idx@.map_values(|p: usize| key_views(keys@)[p as int]));
            assert forall|p: int| 0 <= p < idx.len() implies #[trigger] idx@[p] < images.len() by {
                assert(perm[p] == idx@[p] as int);
            }
        }
        let mut entries: Vec<String> = Vec::new();
        for k in 0..idx.len()
            invariant
                pages == name_views(images@),
                idx.len() == images.len(),
                out == idx@.map_values(|p: usize| pages[p as int]),
                forall|p: int| 0 <= p < idx.len() ==> #[trigger] idx@[p] < images.len(),
                entries.len() == k,
                name_views(entries@) == out.take(k as int),
        {
            let name = images[idx[k]].clone();
            assert(name@ == out[k as int]);
            let ghost before = entries@;
            entries.push(name);
            assert forall|m: int| 0 <= m < k + 1 implies #[trigger] name_views(entries@)[m] == out[m] by {
                if m < k {
                    assert(name_views(before)[m] == out.take(k as int)[m]);
                }
            }
            assert(name_views(entries@) =~= out.take(k + 1));
        }
        assert(name_views(entries@) =~= out);
        ZipPageSource { entries }
    }

    /// Number of pages.
    pub fn page_count(&self) -> (n: usize)
        ensures
            n == self@.len(),
    {
        self.entries.len()
    }

    /// Name of the archive entry that holds page `idx`.
    pub fn entry_name(&self, idx: usize) -> (name: &str)
        requires
            idx < self@.len(),
        ensures
            name@ == self@[idx as int],
    {
        self.entries[idx].as_str()
    }
}

} // verus!
