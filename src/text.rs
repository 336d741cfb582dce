//! Byte-level text operations used by the assembler, each stated over `Seq<u8>`.
//!
//! Executable functions work on a range `lo..hi` of a byte slice and are
//! specified by what they do to `s@.subrange(lo, hi)`.
use vstd::prelude::*;

verus! {

/// ASCII white space: space, tab, line feed, vertical tab, form feed, carriage return.
pub open spec fn is_space(b: u8) -> bool {
    b == 32 || (9 <= b && b <= 13)
}

/// `t` without its leading white space.
pub open spec fn trim_start(t: Seq<u8>) -> Seq<u8>
    decreases t.len(),
{
    if t.len() > 0 && is_space(t[0]) {
        trim_start(t.skip(1))
    } else {
        t
    }
}

/// `t` without its trailing white space.
pub open spec fn trim_end(t: Seq<u8>) -> Seq<u8>
    decreases t.len(),
{
    if t.len() > 0 && is_space(t.last()) {
        trim_end(t.drop_last())
    } else {
        t
    }
}

/// `t` without leading and trailing white space.
pub open spec fn trim(t: Seq<u8>) -> Seq<u8> {
    trim_end(trim_start(t))
}

/// The index of the first `c` in `t`, if any.
pub open spec fn first_index(t: Seq<u8>, c: u8) -> Option<int>
    decreases t.len(),
{
    if t.len() == 0 {
        None
    } else {
        match first_index(t.drop_last(), c) {
            Some(i) => Some(i),
            None => if t.last() == c {
                Some(t.len() - 1)
            } else {
                None
            },
        }
    }
}

/// The index of the first white-space byte in `t`, if any.
pub open spec fn first_space(t: Seq<u8>) -> Option<int>
    decreases t.len(),
{
    if t.len() == 0 {
        None
    } else {
        match first_space(t.drop_last()) {
            Some(i) => Some(i),
            None => if is_space(t.last()) {
                Some(t.len() - 1)
            } else {
                None
            },
        }
    }
}

/// The pieces of `t` between occurrences of `c`; there is always at least one.
pub open spec fn split_on(t: Seq<u8>, c: u8) -> Seq<Seq<u8>>
    decreases t.len(),
{
    if t.len() == 0 {
        seq![Seq::empty()]
    } else {
        let p = split_on(t.drop_last(), c);
        if t.last() == c {
            p.push(Seq::empty())
        } else {
            p.update(p.len() - 1, p.last().push(t.last()))
        }
    }
}

/// `t` with every white-space byte removed.
pub open spec fn without_spaces(t: Seq<u8>) -> Seq<u8>
    decreases t.len(),
{
    if t.len() == 0 {
        Seq::empty()
    } else if is_space(t.last()) {
        without_spaces(t.drop_last())
    } else {
        without_spaces(t.drop_last()).push(t.last())
    }
}

/// The pieces of `s` that the index ranges `r` select.
pub open spec fn pieces(s: Seq<u8>, r: Seq<(usize, usize)>) -> Seq<Seq<u8>> {
    Seq::new(r.len(), |i: int| s.subrange(r[i].0 as int, r[i].1 as int))
}

pub open spec fn is_digit(b: u8) -> bool {
    48 <= b && b <= 57
}

pub open spec fn all_digits(d: Seq<u8>) -> bool {
    forall|i: int| 0 <= i < d.len() ==> is_digit(#[trigger] d[i])
}

/// The value of the decimal digits `d`.
pub open spec fn decimal_value(d: Seq<u8>) -> nat
    decreases d.len(),
{
    if d.len() == 0 {
        0
    } else {
        decimal_value(d.drop_last()) * 10 + (d.last() - 48) as nat
    }
}

/// `t` without one leading `+`.
pub open spec fn unsigned_digits(t: Seq<u8>) -> Seq<u8> {
    if t.len() > 0 && t[0] == 43 {
        t.skip(1)
    } else {
        t
    }
}

/// `t` read as an unsigned 16-bit decimal number: an optional `+`, then one or
/// more digits whose value is at most 65535.
pub open spec fn parse_u16(t: Seq<u8>) -> Option<u16> {
    let d = unsigned_digits(t);
    if d.len() > 0 && all_digits(d) && decimal_value(d) <= 65535 {
        Some(decimal_value(d) as u16)
    } else {
        None
    }
}

pub fn is_space_byte(b: u8) -> (r: bool)
    ensures
        r == is_space(b),
{
    b == 32 || (9 <= b && b <= 13)
}

/// The range of `s[lo..hi]` left after trimming white space at both ends.
pub fn trim_range(s: &[u8], lo: usize, hi: usize) -> (r: (usize, usize))
    requires
        lo <= hi <= s@.len(),
    ensures
        lo <= r.0 <= r.1 <= hi,
        s@.subrange(r.0 as int, r.1 as int) == trim(s@.subrange(lo as int, hi as int)),
{
    let mut a = lo;
    while a < hi && is_space_byte(s[a])
        invariant
            lo <= a <= hi,
            hi <= s@.len(),
            trim_start(s@.subrange(a as int, hi as int)) == trim_start(
                s@.subrange(lo as int, hi as int),
            ),
        decreases hi - a,
    {
        assert(s@.subrange(a as int, hi as int).skip(1) =~= s@.subrange(a + 1, hi as int));
        a = a + 1;
    }
    let mut b = hi;
    while b > a && is_space_byte(s[b - 1])
        invariant
            lo <= a <= b <= hi,
            hi <= s@.len(),
            trim_end(s@.subrange(a as int, b as int)) == trim_end(
                s@.subrange(a as int, hi as int),
            ),
        decreases b - a,
    {
        assert(s@.subrange(a as int, b as int).drop_last() =~= s@.subrange(a as int, b - 1));
        b = b - 1;
    }
    (a, b)
}

/// Where `first_index` points, `c` stands, and nothing before it is `c`.
pub proof fn lemma_first_index_bound(t: Seq<u8>, c: u8)
    ensures
        match first_index(t, c) {
            Some(i) => 0 <= i < t.len() && t[i] == c,
            None => forall|j: int| 0 <= j < t.len() ==> t[j] != c,
        },
    decreases t.len(),
{
    if t.len() > 0 {
        lemma_first_index_bound(t.drop_last(), c);
        assert forall|j: int| 0 <= j < t.len() - 1 implies t.drop_last()[j] == t[j] by {}
    }
}

proof fn lemma_first_index_prefix(t: Seq<u8>, c: u8, k: int)
    requires
        0 <= k <= t.len(),
        first_index(t.take(k), c) is Some,
    ensures
        first_index(t, c) == first_index(t.take(k), c),
    decreases t.len(),
{
    if k == t.len() {
        assert(t.take(k) =~= t);
    } else {
        assert(t.drop_last().take(k) =~= t.take(k));
        lemma_first_index_prefix(t.drop_last(), c, k);
    }
}

proof fn lemma_first_space_prefix(t: Seq<u8>, k: int)
    requires
        0 <= k <= t.len(),
        first_space(t.take(k)) is Some,
    ensures
        first_space(t) == first_space(t.take(k)),
    decreases t.len(),
{
    if k == t.len() {
        assert(t.take(k) =~= t);
    } else {
        assert(t.drop_last().take(k) =~= t.take(k));
        lemma_first_space_prefix(t.drop_last(), k);
    }
}

/// The position in `s` of the first `c` in `s[lo..hi]`, if any.
pub fn find_byte(s: &[u8], lo: usize, hi: usize, c: u8) -> (r: Option<usize>)
    requires
        lo <= hi <= s@.len(),
    ensures
        match r {
            Some(i) => lo <= i < hi && first_index(s@.subrange(lo as int, hi as int), c) == Some(
                i - lo,
            ),
            None => first_index(s@.subrange(lo as int, hi as int), c) is None,
        },
{
    let ghost t = s@.subrange(lo as int, hi as int);
    let mut i = lo;
    while i < hi
        invariant
            lo <= i <= hi <= s@.len(),
            t == s@.subrange(lo as int, hi as int),
            first_index(t.take(i - lo), c) is None,
        decreases hi - i,
    {
        assert(t.take(i + 1 - lo).drop_last() =~= t.take(i - lo));
        if s[i] == c {
            proof {
                lemma_first_index_prefix(t, c, i + 1 - lo);
            }
            return Some(i);
        }
        i = i + 1;
    }
    assert(t.take(i - lo) =~= t);
    None
}

/// The position in `s` of the first white-space byte in `s[lo..hi]`, if any.
pub fn find_space(s: &[u8], lo: usize, hi: usize) -> (r: Option<usize>)
    requires
        lo <= hi <= s@.len(),
    ensures
        match r {
            Some(i) => lo <= i < hi && first_space(s@.subrange(lo as int, hi as int)) == Some(
                i - lo,
            ),
            None => first_space(s@.subrange(lo as int, hi as int)) is None,
        },
{
    let ghost t = s@.subrange(lo as int, hi as int);
    let mut i = lo;
    while i < hi
        invariant
            lo <= i <= hi <= s@.len(),
            t == s@.subrange(lo as int, hi as int),
            first_space(t.take(i - lo)) is None,
        decreases hi - i,
    {
        assert(t.take(i + 1 - lo).drop_last() =~= t.take(i - lo));
        if is_space_byte(s[i]) {
            proof {
                lemma_first_space_prefix(t, i + 1 - lo);
            }
            return Some(i);
        }
        i = i + 1;
    }
    assert(t.take(i - lo) =~= t);
    None
}

proof fn lemma_split_nonempty(t: Seq<u8>, c: u8)
    ensures
        split_on(t, c).len() >= 1,
    decreases t.len(),
{
    if t.len() > 0 {
        lemma_split_nonempty(t.drop_last(), c);
    }
}

/// The ranges of the pieces of `s[lo..hi]` between occurrences of `c`.
pub fn split_ranges(s: &[u8], lo: usize, hi: usize, c: u8) -> (r: Vec<(usize, usize)>)
    requires
        lo <= hi <= s@.len(),
    ensures
        pieces(s@, r@) == split_on(s@.subrange(lo as int, hi as int), c),
        forall|k: int| 0 <= k < r@.len() ==> lo <= #[trigger] r@[k].0 <= r@[k].1 <= hi,
{
    let mut done: Vec<(usize, usize)> = Vec::new();
    let mut start = lo;
    let mut i = lo;
    assert(s@.subrange(lo as int, lo as int) =~= Seq::<u8>::empty());
    assert(pieces(s@, done@) + seq![s@.subrange(lo as int, lo as int)] =~= split_on(
        s@.subrange(lo as int, lo as int),
        c,
    ));
    while i < hi
        invariant
            lo <= start <= i <= hi <= s@.len(),
            pieces(s@, done@) + seq![s@.subrange(start as int, i as int)] == split_on(
                s@.subrange(lo as int, i as int),
                c,
            ),
            forall|k: int| 0 <= k < done@.len() ==> lo <= #[trigger] done@[k].0 <= done@[k].1 <= hi,
        decreases hi - i,
    {
        let ghost before = pieces(s@, done@);
        assert(s@.subrange(lo as int, i + 1).drop_last() =~= s@.subrange(lo as int, i as int));
        proof {
            lemma_split_nonempty(s@.subrange(lo as int, i as int), c);
        }
        if s[i] == c {
            done.push((start, i));
            assert(pieces(s@, done@) =~= before.push(s@.subrange(start as int, i as int)));
            start = i + 1;
            assert(s@.subrange(start as int, i + 1) =~= Seq::<u8>::empty());
            assert(split_on(s@.subrange(lo as int, i + 1), c) == split_on(
                s@.subrange(lo as int, i as int),
                c,
            ).push(Seq::empty()));
            assert(pieces(s@, done@) + seq![s@.subrange(start as int, i + 1)] =~= split_on(
                s@.subrange(lo as int, i + 1),
                c,
            ));
        } else {
            let ghost p = split_on(s@.subrange(lo as int, i as int), c);
            assert(p == before + seq![s@.subrange(start as int, i as int)]);
            assert(p.last() == s@.subrange(start as int, i as int));
            assert(s@.subrange(start as int, i + 1) =~= s@.subrange(start as int, i as int).push(
                s[i as int],
            ));
            assert(split_on(s@.subrange(lo as int, i + 1), c) == p.update(
                p.len() - 1,
                p.last().push(s[i as int]),
            ));
            assert(pieces(s@, done@) =~= before);
            assert(pieces(s@, done@) + seq![s@.subrange(start as int, i + 1)] =~= split_on(
                s@.subrange(lo as int, i + 1),
                c,
            ));
        }
        i = i + 1;
    }
    let ghost before = pieces(s@, done@);
    done.push((start, hi));
    assert(pieces(s@, done@) =~= before.push(s@.subrange(start as int, hi as int)));
    done
}

/// The bytes of `s[lo..hi]` with white space removed.
pub fn remove_spaces(s: &[u8], lo: usize, hi: usize) -> (r: Vec<u8>)
    requires
        lo <= hi <= s@.len(),
    ensures
        r@ == without_spaces(s@.subrange(lo as int, hi as int)),
{
    let mut out: Vec<u8> = Vec::new();
    let mut i = lo;
    while i < hi
        invariant
            lo <= i <= hi <= s@.len(),
            out@ == without_spaces(s@.subrange(lo as int, i as int)),
        decreases hi - i,
    {
        assert(s@.subrange(lo as int, i + 1).drop_last() =~= s@.subrange(lo as int, i as int));
        if !is_space_byte(s[i]) {
            out.push(s[i]);
        }
        i = i + 1;
    }
    out
}

proof fn lemma_decimal_prefix(d: Seq<u8>, k: int)
    requires
        0 <= k <= d.len(),
    ensures
        decimal_value(d.take(k)) <= decimal_value(d),
    decreases d.len(),
{
    if k < d.len() {
        assert(d.drop_last().take(k) =~= d.take(k));
        lemma_decimal_prefix(d.drop_last(), k);
    } else {
        assert(d.take(k) =~= d);
    }
}

/// `s[lo..hi]` read as an unsigned 16-bit decimal number.
pub fn parse_u16_range(s: &[u8], lo: usize, hi: usize) -> (r: Option<u16>)
    requires
        lo <= hi <= s@.len(),
    ensures
        r == parse_u16(s@.subrange(lo as int, hi as int)),
{
    let ghost t = s@.subrange(lo as int, hi as int);
    let mut start = lo;
    if start < hi && s[start] == 43 {
        start = start + 1;
    }
    let ghost d = s@.subrange(start as int, hi as int);
    assert(d =~= unsigned_digits(t));
    if start == hi {
        return None;
    }
    let mut v: u32 = 0;
    let mut i = start;
    while i < hi
        invariant
            start <= i <= hi <= s@.len(),
            d == s@.subrange(start as int, hi as int),
            d == unsigned_digits(t),
            t == s@.subrange(lo as int, hi as int),
            v as nat == decimal_value(d.take(i - start)),
            v <= 65535,
            all_digits(d.take(i - start)),
        decreases hi - i,
    {
        assert(d.take(i + 1 - start).drop_last() =~= d.take(i - start));
        let b = s[i];
        if b < 48 || b > 57 {
            assert(!is_digit(d[i - start]));
            return None;
        }
        let nv = v * 10 + (b - 48) as u32;
        if nv > 65535 {
            proof {
                if all_digits(d) {
                    lemma_decimal_prefix(d, i + 1 - start);
                }
            }
            return None;
        }
        v = nv;
        i = i + 1;
        assert(all_digits(d.take(i - start))) by {
            assert forall|j: int| 0 <= j < i - start implies is_digit(
                #[trigger] d.take(i - start)[j],
            ) by {
                if j < i - 1 - start {
                    assert(d.take(i - start)[j] == d.take(i - 1 - start)[j]);
                }
            }
        }
    }
    assert(d.take(i - start) =~= d);
    Some(v as u16)
}

/// Whether `s[lo..hi]` holds exactly the bytes of `w`.
pub fn range_equals(s: &[u8], lo: usize, hi: usize, w: &[u8]) -> (r: bool)
    requires
        lo <= hi <= s@.len(),
    ensures
        r == (s@.subrange(lo as int, hi as int) == w@),
{
    if hi - lo != w.len() {
        return false;
    }
    let mut i: usize = 0;
    while i < w.len()
        invariant
            lo <= hi <= s@.len(),
            hi - lo == w@.len(),
            i <= w@.len(),
            forall|j: int| 0 <= j < i ==> s@[lo + j] == w@[j],
        decreases w.len() - i,
    {
        if s[lo + i] != w[i] {
            assert(s@.subrange(lo as int, hi as int)[i as int] != w@[i as int]);
            return false;
        }
        i = i + 1;
    }
    assert(s@.subrange(lo as int, hi as int) =~= w@);
    true
}

} // verus!
