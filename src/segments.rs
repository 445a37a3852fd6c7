use crate::error::Error;
use vstd::prelude::*;
use vstd::std_specs::iter::IteratorSpec;

verus! {

broadcast use {vstd::string::axiom_spec_iter, vstd::string::next_postcondition};

/// Directory under which the timelapse segments of a document are stored.
pub const SEGMENT_PREFIX: &'static str = "video/segments/";

/// A member name belongs to the timelapse when it starts with the segment directory.
pub open spec fn is_segment_name(name: Seq<char>) -> bool {
    name.len() >= SEGMENT_PREFIX@.len() && name.subrange(0, SEGMENT_PREFIX@.len() as int)
        == SEGMENT_PREFIX@
}

/// The part of `s` after its last `c`; all of `s` when it holds no `c`.
pub open spec fn after_last(s: Seq<char>, c: char) -> Seq<char>
    decreases s.len(),
{
    if s.len() == 0 {
        s
    } else if s.last() == c {
        Seq::empty()
    } else {
        after_last(s.drop_last(), c).push(s.last())
    }
}

/// The part of `s` before its first `c`; all of `s` when it holds no `c`.
pub open spec fn before_first(s: Seq<char>, c: char) -> Seq<char>
    decreases s.len(),
{
    if s.len() == 0 {
        s
    } else if s[0] == c {
        Seq::empty()
    } else {
        seq![s[0]] + before_first(s.drop_first(), c)
    }
}

/// The token of a segment name that holds its ordering key: the last
/// hyphen-separated component, cut at its first dot.
pub open spec fn key_token(name: Seq<char>) -> Seq<char> {
    before_first(after_last(name, '-'), '.')
}

pub open spec fn is_digit(c: char) -> bool {
    '0' <= c && c <= '9'
}

pub open spec fn all_digits(s: Seq<char>) -> bool {
    forall|i: int| 0 <= i < s.len() ==> is_digit(#[trigger] s[i])
}

pub open spec fn digit_value(c: char) -> nat {
    (c as u32 - '0' as u32) as nat
}

/// The number that a string of decimal digits denotes.
pub open spec fn digits_value(s: Seq<char>) -> nat
    decreases s.len(),
{
    if s.len() == 0 {
        0
    } else {
        digits_value(s.drop_last()) * 10 + digit_value(s.last())
    }
}

/// The digits of an unsigned decimal literal, after an optional leading `+`.
pub open spec fn literal_digits(t: Seq<char>) -> Seq<char> {
    if t.len() > 0 && t[0] == '+' {
        t.drop_first()
    } else {
        t
    }
}

/// An unsigned 32-bit decimal literal: an optional `+`, then one or more
/// digits whose value fits in a `u32`.
pub open spec fn parse_u32(t: Seq<char>) -> Option<u32> {
    let d = literal_digits(t);
    if d.len() > 0 && all_digits(d) && digits_value(d) <= u32::MAX {
        Some(digits_value(d) as u32)
    } else {
        None
    }
}

/// The ordering key that a segment name embeds, if it embeds one.
pub open spec fn segment_key(name: Seq<char>) -> Option<u32> {
    parse_u32(key_token(name))
}

/// The characters of a string, in order.
pub fn chars_of(s: &str) -> (r: Vec<char>)
    ensures
        r@ == s@,
{
    let mut out: Vec<char> = Vec::new();
    for c in it: s.chars()
        invariant
            it.seq() == s@,
            out@ == it.seq().take(it.index() as int),
    {
        out.push(c);
    }
    out
}

/// Whether `name` lies in the segment directory.
pub fn is_segment(name: &str) -> (r: bool)
    ensures
        r == is_segment_name(name@),
{
    let n = chars_of(name);
    let p = chars_of(SEGMENT_PREFIX);
    if n.len() < p.len() {
        return false;
    }
    let mut i: usize = 0;
    while i < p.len()
        invariant
            i <= p.len() <= n.len(),
            n@ == name@,
            p@ == SEGMENT_PREFIX@,
            n@.subrange(0, i as int) == p@.subrange(0, i as int),
        decreases p.len() - i,
    {
        if n[i] != p[i] {
            assert(n@.subrange(0, p.len() as int)[i as int] != p@[i as int]);
            return false;
        }
        assert(n@.subrange(0, i + 1) == n@.subrange(0, i as int).push(n@[i as int]));
        assert(p@.subrange(0, i + 1) == p@.subrange(0, i as int).push(p@[i as int]));
        i = i + 1;
    }
    assert(p@.subrange(0, p.len() as int) == p@);
    true
}

/// The part of `s` after its last `c`.
fn tail_after_last(s: &Vec<char>, c: char) -> (r: Vec<char>)
    ensures
        r@ == after_last(s@, c),
{
    let mut i: usize = s.len();
    assert(s@.subrange(0, s.len() as int) =~= s@);
    assert(after_last(s@, c) + s@.subrange(s.len() as int, s.len() as int) =~= after_last(s@, c));
    while i > 0 && s[i - 1] != c
        invariant
            i <= s.len(),
            after_last(s@, c) == after_last(s@.subrange(0, i as int), c) + s@.subrange(
                i as int,
                s.len() as int,
            ),
        decreases i,
    {
        let ghost pre = s@.subrange(0, i as int);
        assert(pre.drop_last() == s@.subrange(0, i - 1));
        assert(s@.subrange(i - 1, s.len() as int) == seq![s@[i - 1]] + s@.subrange(
            i as int,
            s.len() as int,
        ));
        assert(after_last(pre, c) == after_last(pre.drop_last(), c).push(s@[i - 1]));
        assert(after_last(pre.drop_last(), c).push(s@[i - 1]) + s@.subrange(i as int, s.len() as int)
            =~= after_last(pre.drop_last(), c) + s@.subrange(i - 1, s.len() as int));
        i = i - 1;
    }
    let ghost pre = s@.subrange(0, i as int);
    assert(after_last(pre, c) == Seq::<char>::empty());
    let mut r: Vec<char> = Vec::new();
    let mut j: usize = i;
    while j < s.len()
        invariant
            i <= j <= s.len(),
            r@ == s@.subrange(i as int, j as int),
        decreases s.len() - j,
    {
        r.push(s[j]);
        j = j + 1;
    }
    r
}

/// The part of `s` before its first `c`.
fn head_before_first(s: &Vec<char>, c: char) -> (r: Vec<char>)
    ensures
        r@ == before_first(s@, c),
{
    let mut r: Vec<char> = Vec::new();
    let mut j: usize = 0;
    assert(s@.subrange(0, s.len() as int) =~= s@);
    assert(r@ + before_first(s@, c) =~= before_first(s@, c));
    while j < s.len() && s[j] != c
        invariant
            j <= s.len(),
            r@ == s@.subrange(0, j as int),
            before_first(s@, c) == r@ + before_first(s@.subrange(j as int, s.len() as int), c),
        decreases s.len() - j,
    {
        let ghost rest = s@.subrange(j as int, s.len() as int);
        assert(rest.drop_first() == s@.subrange(j + 1, s.len() as int));
        assert(rest[0] == s@[j as int]);
        assert(before_first(rest, c) == seq![s@[j as int]] + before_first(rest.drop_first(), c));
        assert(r@ + (seq![s@[j as int]] + before_first(rest.drop_first(), c)) =~= r@.push(s@[j as int])
            + before_first(rest.drop_first(), c));
        r.push(s[j]);
        j = j + 1;
    }
    if j < s.len() {
        let ghost rest = s@.subrange(j as int, s.len() as int);
        assert(rest[0] == c);
        assert(before_first(rest, c) == Seq::<char>::empty());
    } else {
        assert(s@.subrange(j as int, s.len() as int) =~= Seq::<char>::empty());
    }
    assert(r@ + Seq::<char>::empty() =~= r@);
    r
}

proof fn lemma_digits_value_prefix(s: Seq<char>, k: int)
    requires
        0 <= k <= s.len(),
        all_digits(s),
    ensures
        digits_value(s.subrange(0, k)) <= digits_value(s),
    decreases s.len() - k,
{
    if k < s.len() {
        lemma_digits_value_prefix(s, k + 1);
        assert(s.subrange(0, k + 1).drop_last() == s.subrange(0, k));
    } else {
        assert(s.subrange(0, k) == s);
    }
}

/// Parses an unsigned 32-bit decimal literal, as `str::parse::<u32>` does.
pub fn parse_key(t: &Vec<char>) -> (r: Option<u32>)
    ensures
        r == parse_u32(t@),
{
    let start: usize = if t.len() > 0 && t[0] == '+' {
        1
    } else {
        0
    };
    let ghost d = literal_digits(t@);
    assert(d == t@.subrange(start as int, t.len() as int));
    if start == t.len() {
        return None;
    }
    let mut acc: u64 = 0;
    let mut i: usize = start;
    while i < t.len()
        invariant
            start <= i <= t.len(),
            d == t@.subrange(start as int, t.len() as int),
            d == literal_digits(t@),
            all_digits(d.subrange(0, i - start)),
            acc == digits_value(d.subrange(0, i - start)),
            acc <= u32::MAX,
        decreases t.len() - i,
    {
        let c = t[i];
        if c < '0' || c > '9' {
            assert(d[i - start] == c);
            assert(!is_digit(d[i - start]));
            assert(!all_digits(d));
            return None;
        }
        let ghost pre = d.subrange(0, i + 1 - start);
        assert(pre.drop_last() == d.subrange(0, i - start));
        assert(pre.last() == c);
        let v: u64 = acc * 10 + (c as u64 - '0' as u64);
        assert(v == digits_value(pre));
        if v > u32::MAX as u64 {
            proof {
                if all_digits(d) {
                    lemma_digits_value_prefix(d, i + 1 - start);
                    assert(digits_value(d) > u32::MAX);
                }
                assert(parse_u32(t@) is None);
            }
            return None;
        }
        acc = v;
        i = i + 1;
    }
    assert(d.subrange(0, i - start) == d);
    Some(acc as u32)
}

/// The ordering key embedded in a segment name.
pub fn segment_key_of(name: &str) -> (r: Option<u32>)
    ensures
        r == segment_key(name@),
{
    let n = chars_of(name);
    let tail = tail_after_last(&n, '-');
    let token = head_before_first(&tail, '.');
    parse_key(&token)
}

/// The views of a sequence of strings.
pub open spec fn views(names: Seq<String>) -> Seq<Seq<char>> {
    names.map_values(|s: String| s@)
}

/// Every segment name of a listing embeds an ordering key.
pub open spec fn keys_parse(names: Seq<Seq<char>>) -> bool {
    forall|i: int|
        0 <= i < names.len() && is_segment_name(names[i]) ==> (#[trigger] segment_key(
            names[i],
        )) is Some
}

/// The ordering key of the `i`-th name of a listing.
pub open spec fn key_at(names: Seq<Seq<char>>, i: int) -> u32 {
    segment_key(names[i])->0
}

/// The `i`-th name comes before the `j`-th: by key, and by listing position
/// among equal keys.
pub open spec fn precedes(names: Seq<Seq<char>>, i: int, j: int) -> bool {
    key_at(names, i) < key_at(names, j) || (key_at(names, i) == key_at(names, j) && i < j)
}

/// `order` holds the positions of exactly the segment names of the listing,
/// sorted by key, ties kept in listing order.
pub open spec fn is_segment_order(names: Seq<Seq<char>>, order: Seq<usize>) -> bool {
    &&& forall|j: int|
        0 <= j < order.len() ==> #[trigger] order[j] < names.len() && is_segment_name(
            names[order[j] as int],
        )
    &&& forall|i: int|
        0 <= i < names.len() && is_segment_name(#[trigger] names[i]) ==> order.contains(
            i as usize,
        )
    &&& forall|j: int, k: int|
        0 <= j < k < order.len() ==> precedes(names, #[trigger] order[j] as int, #[trigger] order[k] as int)
}

/// Every position of `s` comes before every later one.
pub open spec fn strictly_sorted(names: Seq<Seq<char>>, s: Seq<usize>) -> bool {
    forall|j: int, k: int|
        0 <= j < k < s.len() ==> precedes(names, #[trigger] s[j] as int, #[trigger] s[k] as int)
}

/// The timelapse order of a listing's segment names.
pub open spec fn segment_order(names: Seq<Seq<char>>) -> Seq<usize> {
    choose|order: Seq<usize>| is_segment_order(names, order)
}

proof fn lemma_sorted_with_same_elements(names: Seq<Seq<char>>, s1: Seq<usize>, s2: Seq<usize>)
    requires
        strictly_sorted(names, s1),
        strictly_sorted(names, s2),
        forall|x: usize| s1.contains(x) <==> s2.contains(x),
    ensures
        s1 == s2,
    decreases s1.len(),
{
    if s1.len() == 0 {
        if s2.len() > 0 {
            assert(s2.contains(s2[0]));
        }
        assert(s1 =~= s2);
    } else {
        if s2.len() == 0 {
            assert(s1.contains(s1[0]));
        }
        let a = s1[0];
        let b = s2[0];
        assert(s1.contains(a));
        assert(s2.contains(b));
        let k = choose|k: int| 0 <= k < s2.len() && s2[k] == a;
        let m = choose|m: int| 0 <= m < s1.len() && s1[m] == b;
        if a != b {
            assert(precedes(names, s2[0] as int, s2[k] as int));
            assert(precedes(names, s1[0] as int, s1[m] as int));
        }
        let t1 = s1.drop_first();
        let t2 = s2.drop_first();
        assert forall|x: usize| t1.contains(x) <==> t2.contains(x) by {
            if t1.contains(x) {
                let i = choose|i: int| 0 <= i < t1.len() && t1[i] == x;
                assert(precedes(names, s1[0] as int, s1[i + 1] as int));
                assert(s2.contains(x));
                let i2 = choose|i2: int| 0 <= i2 < s2.len() && s2[i2] == x;
                assert(i2 != 0);
                assert(t2[i2 - 1] == x);
            }
            if t2.contains(x) {
                let i = choose|i: int| 0 <= i < t2.len() && t2[i] == x;
                assert(precedes(names, s2[0] as int, s2[i + 1] as int));
                assert(s1.contains(x));
                let i1 = choose|i1: int| 0 <= i1 < s1.len() && s1[i1] == x;
                assert(i1 != 0);
                assert(t1[i1 - 1] == x);
            }
        }
        assert forall|j: int, k: int| 0 <= j < k < t1.len() implies precedes(
            names,
            #[trigger] t1[j] as int,
            #[trigger] t1[k] as int,
        ) by {
            assert(precedes(names, s1[j + 1] as int, s1[k + 1] as int));
        }
        assert forall|j: int, k: int| 0 <= j < k < t2.len() implies precedes(
            names,
            #[trigger] t2[j] as int,
            #[trigger] t2[k] as int,
        ) by {
            assert(precedes(names, s2[j + 1] as int, s2[k + 1] as int));
        }
        lemma_sorted_with_same_elements(names, t1, t2);
        assert(s1 =~= seq![a] + t1);
        assert(s2 =~= seq![b] + t2);
    }
}

/// A listing has at most one segment order: sorting by key, with ties in
/// listing order, leaves no choice.
pub proof fn lemma_segment_order_unique(names: Seq<Seq<char>>, o1: Seq<usize>, o2: Seq<usize>)
    requires
        is_segment_order(names, o1),
        is_segment_order(names, o2),
    ensures
        o1 == o2,
{
    assert forall|x: usize| o1.contains(x) implies o2.contains(x) by {
        let j = choose|j: int| 0 <= j < o1.len() && o1[j] == x;
        assert(is_segment_name(names[o1[j] as int]));
    }
    assert forall|x: usize| o2.contains(x) implies o1.contains(x) by {
        let j = choose|j: int| 0 <= j < o2.len() && o2[j] == x;
        assert(is_segment_name(names[o2[j] as int]));
    }
    lemma_sorted_with_same_elements(names, o1, o2);
}

/// The positions of the segment names of a listing, in timelapse order.
/// Fails when a segment name embeds no ordering key.
#[verifier::loop_isolation(false)]
pub fn order_segments(names: &Vec<String>) -> (r: Result<Vec<usize>, Error>)
    ensures
        match r {
            Ok(order) => keys_parse(views(names@)) && is_segment_order(views(names@), order@)
                && order@ == segment_order(views(names@)),
            Err(e) => e == Error::SegmentNameFormat && !keys_parse(views(names@)),
        },
{
    let ghost v = views(names@);
    let mut entries: Vec<(u32, usize)> = Vec::new();
    let mut i: usize = 0;
    while i < names.len()
        invariant
            i <= names.len(),
            forall|q: int|
                0 <= q < entries.len() ==> {
                    &&& (#[trigger] entries@[q]).1 < i
                    &&& is_segment_name(v[entries@[q].1 as int])
                    &&& segment_key(v[entries@[q].1 as int]) == Some(entries@[q].0)
                },
            forall|k: int|
                0 <= k < i && is_segment_name(#[trigger] v[k]) ==> segment_key(v[k]) is Some
                    && exists|q: int| 0 <= q < entries.len() && (#[trigger] entries@[q]).1 == k,
            forall|p: int, q: int|
                0 <= p < q < entries.len() ==> (#[trigger] entries@[p]).0 < (#[trigger] entries@[q]).0
                    || (entries@[p].0 == entries@[q].0 && entries@[p].1 < entries@[q].1),
        decreases names.len() - i,
    {
        let name = names[i].as_str();
        assert(name@ == v[i as int]);
        if is_segment(name) {
            match segment_key_of(name) {
                None => {
                    assert(!keys_parse(v));
                    return Err(Error::SegmentNameFormat);
                },
                Some(key) => {
                    let mut p: usize = entries.len();
                    while p > 0 && entries[p - 1].0 > key
                        invariant
                            p <= entries.len(),
                            forall|q: int| p <= q < entries.len() ==> (#[trigger] entries@[q]).0 > key,
                        decreases p,
                    {
                        p = p - 1;
                    }
                    assert forall|q: int| 0 <= q < p implies (#[trigger] entries@[q]).0 <= key by {
                        if q < p - 1 {
                            assert(entries@[q].0 <= entries@[p - 1].0);
                        }
                    }
                    let ghost before = entries@;
                    entries.insert(p, (key, i));
                    assert(entries@ == before.insert(p as int, (key, i)));
                    assert forall|k: int|
                        0 <= k < i + 1 && is_segment_name(#[trigger] v[k]) implies segment_key(v[k]) is Some
                            && exists|q: int| 0 <= q < entries.len() && (#[trigger] entries@[q]).1 == k by {
                        if k == i {
                            assert(entries@[p as int].1 == k);
                        } else {
                            let q = choose|q: int| 0 <= q < before.len() && (#[trigger] before[q]).1 == k;
                            if q < p {
                                assert(entries@[q].1 == k);
                            } else {
                                assert(entries@[q + 1].1 == k);
                            }
                        }
                    }
                },
            }
        }
        i = i + 1;
    }
    let mut order: Vec<usize> = Vec::new();
    let mut j: usize = 0;
    while j < entries.len()
        invariant
            j <= entries.len(),
            order.len() == j,
            forall|q: int| 0 <= q < j ==> order@[q] == (#[trigger] entries@[q]).1,
        decreases entries.len() - j,
    {
        order.push(entries[j].1);
        j = j + 1;
    }
    assert forall|k: int| 0 <= k < names.len() && is_segment_name(#[trigger] v[k]) implies order@.contains(
        k as usize,
    ) by {
        let q = choose|q: int| 0 <= q < entries.len() && (#[trigger] entries@[q]).1 == k;
        assert(order@[q] == k as usize);
    }
    assert forall|k: int| 0 <= k < v.len() && is_segment_name(v[k]) implies (#[trigger] segment_key(
        v[k],
    )) is Some by {
        assert(is_segment_name(v[k]));
    }
    assert forall|j: int| 0 <= j < order.len() implies #[trigger] order@[j] < v.len()
        && is_segment_name(v[order@[j] as int]) by {
        assert(order@[j] == entries@[j].1);
    }
    assert forall|j: int, k: int| 0 <= j < k < order.len() implies precedes(
        v,
        #[trigger] order@[j] as int,
        #[trigger] order@[k] as int,
    ) by {
        assert(order@[j] == entries@[j].1);
        assert(order@[k] == entries@[k].1);
    }
    assert(is_segment_order(v, order@));
    proof {
        lemma_segment_order_unique(v, order@, segment_order(v));
    }
    Ok(order)
}

} // verus!
