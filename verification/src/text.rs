//! Character-level text handling shared by the two assemblers' parsers:
//! whitespace trimming, splitting and integer literals.

use vstd::prelude::*;

verus! {

/// The characters of a string slice, in order.
pub fn chars_of(s: &str) -> (v: Vec<char>)
    ensures
        v@ == s@,
{
    let mut v: Vec<char> = Vec::new();
    for c in it: s.chars()
        invariant
            it.seq() == s@,
            v@ == it.seq().take(it.index() as int),
    {
        v.push(c);
    }
    v
}

} // verus!

verus! {

/// Unicode white space, as `char::is_whitespace` defines it.
pub open spec fn is_ws(c: char) -> bool {
    let u = c as u32;
    ||| 0x9 <= u <= 0xD
    ||| u == 0x20
    ||| u == 0x85
    ||| u == 0xA0
    ||| u == 0x1680
    ||| 0x2000 <= u <= 0x200A
    ||| u == 0x2028
    ||| u == 0x2029
    ||| u == 0x202F
    ||| u == 0x205F
    ||| u == 0x3000
}

pub fn is_whitespace(c: char) -> (b: bool)
    ensures
        b == is_ws(c),
{
    let u = c as u32;
    (0x9 <= u && u <= 0xD) || u == 0x20 || u == 0x85 || u == 0xA0 || u == 0x1680 || (0x2000 <= u
        && u <= 0x200A) || u == 0x2028 || u == 0x2029 || u == 0x202F || u == 0x205F || u == 0x3000
}

/// The text without its leading white space.
pub open spec fn trim_start(s: Seq<char>) -> Seq<char>
    decreases s.len(),
{
    if s.len() > 0 && is_ws(s[0]) {
        trim_start(s.drop_first())
    } else {
        s
    }
}

/// The text without its trailing white space.
pub open spec fn trim_end(s: Seq<char>) -> Seq<char>
    decreases s.len(),
{
    if s.len() > 0 && is_ws(s.last()) {
        trim_end(s.drop_last())
    } else {
        s
    }
}

/// The text without leading and trailing white space.
pub open spec fn trim(s: Seq<char>) -> Seq<char> {
    trim_end(trim_start(s))
}

/// The pieces of `s` between occurrences of `sep` (as `str::split` gives
/// them: `n` separators make `n + 1` pieces, possibly empty).
pub open spec fn split_on(s: Seq<char>, sep: char) -> Seq<Seq<char>>
    decreases s.len(),
{
    if s.len() == 0 {
        seq![Seq::<char>::empty()]
    } else {
        let p = split_on(s.drop_last(), sep);
        if s.last() == sep {
            p.push(Seq::<char>::empty())
        } else {
            p.update(p.len() - 1, p.last().push(s.last()))
        }
    }
}

pub proof fn lemma_split_nonempty(s: Seq<char>, sep: char)
    ensures
        split_on(s, sep).len() >= 1,
    decreases s.len(),
{
    if s.len() > 0 {
        lemma_split_nonempty(s.drop_last(), sep);
    }
}

/// The index of the first white-space character, if any.
pub open spec fn first_ws_from(s: Seq<char>, k: int) -> int
    decreases s.len() - k,
{
    if k >= s.len() {
        s.len() as int
    } else if is_ws(s[k]) {
        k
    } else {
        first_ws_from(s, k + 1)
    }
}

/// The value of a digit in the given radix (10 or 16), or -1.
pub open spec fn digit_value(c: char, radix: int) -> int {
    let u = c as u32;
    if 0x30 <= u <= 0x39 {
        u - 0x30
    } else if radix == 16 && 0x61 <= u <= 0x66 {
        u - 0x61 + 10
    } else if radix == 16 && 0x41 <= u <= 0x46 {
        u - 0x41 + 10
    } else {
        -1
    }
}

pub open spec fn all_digits(s: Seq<char>, radix: int) -> bool {
    forall|i: int| 0 <= i < s.len() ==> digit_value(#[trigger] s[i], radix) >= 0
}

/// The number a string of digits denotes.
pub open spec fn digits_value(s: Seq<char>, radix: int) -> int
    decreases s.len(),
{
    if s.len() == 0 {
        0
    } else {
        digits_value(s.drop_last(), radix) * radix + digit_value(s.last(), radix)
    }
}

/// An integer literal with an optional leading `+`, as unsigned
/// `from_str_radix` reads it.
pub open spec fn unsigned_literal(s: Seq<char>, radix: int) -> Option<int> {
    let body = if s.len() > 0 && s[0] == '+' {
        s.drop_first()
    } else {
        s
    };
    if body.len() > 0 && all_digits(body, radix) {
        Some(digits_value(body, radix))
    } else {
        None
    }
}

/// An integer literal with an optional leading `+` or `-`, as signed
/// `from_str_radix` reads it.
pub open spec fn signed_literal(s: Seq<char>, radix: int) -> Option<int> {
    if s.len() > 0 && s[0] == '-' {
        let body = s.drop_first();
        if body.len() > 0 && all_digits(body, radix) {
            Some(-digits_value(body, radix))
        } else {
            None
        }
    } else {
        unsigned_literal(s, radix)
    }
}

/// What `str::parse::<u8>` accepts.
pub open spec fn parse_u8_spec(s: Seq<char>) -> Option<u8> {
    match unsigned_literal(s, 10) {
        Some(v) => if v <= 255 {
            Some(v as u8)
        } else {
            None
        },
        None => None,
    }
}

/// What `i64::from_str_radix` accepts.
pub open spec fn parse_i64_spec(s: Seq<char>, radix: int) -> Option<i64> {
    match signed_literal(s, radix) {
        Some(v) => if i64::MIN <= v <= i64::MAX {
            Some(v as i64)
        } else {
            None
        },
        None => None,
    }
}

// ---------------------------------------------------------------------

pub proof fn lemma_trim_start_step(s: Seq<char>, a: int, hi: int)
    requires
        0 <= a < hi <= s.len(),
        is_ws(s[a]),
    ensures
        trim_start(s.subrange(a, hi)) == trim_start(s.subrange(a + 1, hi)),
{
    assert(s.subrange(a, hi).drop_first() =~= s.subrange(a + 1, hi));
}

pub proof fn lemma_trim_end_step(s: Seq<char>, a: int, b: int)
    requires
        0 <= a < b <= s.len(),
        is_ws(s[b - 1]),
    ensures
        trim_end(s.subrange(a, b)) == trim_end(s.subrange(a, b - 1)),
{
    assert(s.subrange(a, b).drop_last() =~= s.subrange(a, b - 1));
}

/// Bounds of `trim_start(s[lo..hi])` within `s`.
pub fn trim_start_bound(s: &Vec<char>, lo: usize, hi: usize) -> (a: usize)
    requires
        lo <= hi <= s@.len(),
    ensures
        lo <= a <= hi,
        s@.subrange(a as int, hi as int) == trim_start(s@.subrange(lo as int, hi as int)),
        a < hi ==> !is_ws(s@[a as int]),
{
    let mut a = lo;
    while a < hi && is_whitespace(s[a])
        invariant
            lo <= a <= hi <= s@.len(),
            trim_start(s@.subrange(lo as int, hi as int)) == trim_start(s@.subrange(a as int, hi as int)),
        decreases hi - a,
    {
        proof {
            lemma_trim_start_step(s@, a as int, hi as int);
        }
        a = a + 1;
    }
    proof {
        if a < hi {
            assert(s@.subrange(a as int, hi as int)[0] == s@[a as int]);
        }
    }
    a
}

/// Bounds of `trim(s[lo..hi])` within `s`.
pub fn trim_bounds(s: &Vec<char>, lo: usize, hi: usize) -> (r: (usize, usize))
    requires
        lo <= hi <= s@.len(),
    ensures
        lo <= r.0 <= r.1 <= hi,
        s@.subrange(r.0 as int, r.1 as int) == trim(s@.subrange(lo as int, hi as int)),
{
    let a = trim_start_bound(s, lo, hi);
    let mut b = hi;
    while b > a && is_whitespace(s[b - 1])
        invariant
            lo <= a <= b <= hi <= s@.len(),
            trim_end(s@.subrange(a as int, hi as int)) == trim_end(s@.subrange(a as int, b as int)),
        decreases b - a,
    {
        proof {
            lemma_trim_end_step(s@, a as int, b as int);
        }
        b = b - 1;
    }
    proof {
        let t = s@.subrange(a as int, b as int);
        if b > a {
            assert(t.last() == s@[b - 1]);
        }
        assert(trim_end(t) == t);
    }
    (a, b)
}

/// Position of the first white-space character in `s[lo..hi]`, or `hi`.
pub fn find_whitespace(s: &Vec<char>, lo: usize, hi: usize) -> (k: usize)
    requires
        lo <= hi <= s@.len(),
    ensures
        lo <= k <= hi,
        k - lo == first_ws_from(s@.subrange(lo as int, hi as int), 0),
{
    let ghost t = s@.subrange(lo as int, hi as int);
    let mut k = lo;
    while k < hi && !is_whitespace(s[k])
        invariant
            lo <= k <= hi <= s@.len(),
            t == s@.subrange(lo as int, hi as int),
            first_ws_from(t, 0) == first_ws_from(t, k - lo),
        decreases hi - k,
    {
        proof {
            assert(t[k - lo] == s@[k as int]);
        }
        k = k + 1;
    }
    proof {
        if k < hi {
            assert(t[k - lo] == s@[k as int]);
        }
    }
    k
}

/// The pieces of `s[lo..hi]` between separators, as ranges of `s`.
pub fn split_ranges(s: &Vec<char>, lo: usize, hi: usize, sep: char) -> (r: Vec<(usize, usize)>)
    requires
        lo <= hi <= s@.len(),
    ensures
        r@.len() == split_on(s@.subrange(lo as int, hi as int), sep).len(),
        forall|k: int|
            0 <= k < r@.len() ==> {
                &&& lo <= (#[trigger] r@[k]).0 <= r@[k].1 <= hi
                &&& s@.subrange(r@[k].0 as int, r@[k].1 as int) == split_on(
                    s@.subrange(lo as int, hi as int),
                    sep,
                )[k]
            },
{
    let mut r: Vec<(usize, usize)> = Vec::new();
    let mut start = lo;
    let mut i = lo;
    while i < hi
        invariant
            lo <= start <= i <= hi <= s@.len(),
            r@.len() + 1 == split_on(s@.subrange(lo as int, i as int), sep).len(),
            forall|k: int|
                0 <= k < r@.len() ==> {
                    &&& lo <= (#[trigger] r@[k]).0 <= r@[k].1 <= i
                    &&& s@.subrange(r@[k].0 as int, r@[k].1 as int) == split_on(
                        s@.subrange(lo as int, i as int),
                        sep,
                    )[k]
                },
            s@.subrange(start as int, i as int) == split_on(s@.subrange(lo as int, i as int), sep).last(),
        decreases hi - i,
    {
        let ghost p = split_on(s@.subrange(lo as int, i as int), sep);
        proof {
            lemma_split_nonempty(s@.subrange(lo as int, i as int), sep);
            assert(s@.subrange(lo as int, i + 1).drop_last() =~= s@.subrange(lo as int, i as int));
            assert(s@.subrange(lo as int, i + 1).last() == s@[i as int]);
        }
        if s[i] == sep {
            r.push((start, i));
            start = i + 1;
            proof {
                assert(s@.subrange(start as int, i + 1) =~= Seq::<char>::empty());
            }
        } else {
            proof {
                assert(s@.subrange(start as int, i + 1) =~= s@.subrange(start as int, i as int).push(s@[i as int]));
            }
        }
        i = i + 1;
    }
    proof {
        lemma_split_nonempty(s@.subrange(lo as int, hi as int), sep);
    }
    r.push((start, hi));
    r
}

} // verus!

verus! {

fn digit_of(c: char, radix: u32) -> (d: Option<u32>)
    requires
        radix == 10 || radix == 16,
    ensures
        match d {
            Some(v) => v as int == digit_value(c, radix as int) && v < radix,
            None => digit_value(c, radix as int) < 0,
        },
{
    let u = c as u32;
    if 0x30 <= u && u <= 0x39 {
        Some(u - 0x30)
    } else if radix == 16 && 0x61 <= u && u <= 0x66 {
        Some(u - 0x61 + 10)
    } else if radix == 16 && 0x41 <= u && u <= 0x46 {
        Some(u - 0x41 + 10)
    } else {
        None
    }
}

proof fn lemma_digits_prefix_le(s: Seq<char>, radix: int, k: int)
    requires
        radix >= 1,
        0 <= k <= s.len(),
        all_digits(s, radix),
    ensures
        0 <= digits_value(s.take(k), radix) <= digits_value(s, radix),
    decreases s.len(),
{
    if k == s.len() {
        assert(s.take(k) =~= s);
        lemma_digits_nonneg(s, radix);
    } else {
        let d = s.drop_last();
        assert(all_digits(d, radix)) by {
            assert forall|i: int| 0 <= i < d.len() implies digit_value(#[trigger] d[i], radix) >= 0 by {
                assert(d[i] == s[i]);
            }
        }
        lemma_digits_prefix_le(d, radix, k);
        assert(d.take(k) =~= s.take(k));
        lemma_digits_nonneg(d, radix);
        let v = digits_value(d, radix);
        let dl = digit_value(s.last(), radix);
        assert(dl >= 0) by {
            assert(s.last() == s[s.len() - 1]);
        }
        assert(v * radix + dl >= v) by (nonlinear_arith)
            requires
                v >= 0,
                radix >= 1,
                dl >= 0,
        ;
    }
}

proof fn lemma_digits_nonneg(s: Seq<char>, radix: int)
    requires
        radix >= 1,
        all_digits(s, radix),
    ensures
        digits_value(s, radix) >= 0,
    decreases s.len(),
{
    if s.len() > 0 {
        let d = s.drop_last();
        assert(all_digits(d, radix)) by {
            assert forall|i: int| 0 <= i < d.len() implies digit_value(#[trigger] d[i], radix) >= 0 by {
                assert(d[i] == s[i]);
            }
        }
        lemma_digits_nonneg(d, radix);
        let v = digits_value(d, radix);
        assert(digit_value(s.last(), radix) >= 0) by {
            assert(s.last() == s[s.len() - 1]);
        }
        assert(v * radix >= 0) by (nonlinear_arith)
            requires
                v >= 0,
                radix >= 1,
        ;
    }
}

/// Reads the digits `s[lo..hi]`: `Some(value)` when there is at least one
/// digit, every character is a digit, and the value is at most `limit`.
fn read_digits(s: &Vec<char>, lo: usize, hi: usize, radix: u32, limit: u128) -> (r: Option<u128>)
    requires
        lo <= hi <= s@.len(),
        radix == 10 || radix == 16,
        limit <= 0x8000_0000_0000_0000,
    ensures
        ({
            let t = s@.subrange(lo as int, hi as int);
            match r {
                Some(v) => t.len() > 0 && all_digits(t, radix as int) && v == digits_value(
                    t,
                    radix as int,
                ) && v <= limit,
                None => !(t.len() > 0 && all_digits(t, radix as int) && digits_value(t, radix as int)
                    <= limit),
            }
        }),
{
    let ghost t = s@.subrange(lo as int, hi as int);
    if lo == hi {
        return None;
    }
    let mut acc: u128 = 0;
    let mut i = lo;
    while i < hi
        invariant
            lo <= i <= hi <= s@.len(),
            t == s@.subrange(lo as int, hi as int),
            radix == 10 || radix == 16,
            limit <= 0x8000_0000_0000_0000,
            acc <= limit,
            all_digits(t.take(i - lo), radix as int),
            acc == digits_value(t.take(i - lo), radix as int),
        decreases hi - i,
    {
        let d = digit_of(s[i], radix);
        proof {
            assert(t[i - lo] == s@[i as int]);
            assert(t.take(i - lo + 1).drop_last() =~= t.take(i - lo));
            assert(t.take(i - lo + 1).last() == s@[i as int]);
        }
        match d {
            None => {
                proof {
                    assert(!all_digits(t, radix as int)) by {
                        assert(digit_value(t[i - lo], radix as int) < 0);
                    }
                }
                return None;
            },
            Some(dv) => {
                assert(acc * (radix as u128) <= 0x8000_0000_0000_0000 * 16) by (nonlinear_arith)
                    requires
                        acc <= 0x8000_0000_0000_0000,
                        radix <= 16,
                ;
                let next = acc * (radix as u128) + (dv as u128);
                proof {
                    assert(all_digits(t.take(i - lo + 1), radix as int)) by {
                        let tt = t.take(i - lo + 1);
                        assert forall|j: int| 0 <= j < tt.len() implies digit_value(#[trigger] tt[j], radix as int) >= 0 by {
                            if j < i - lo {
                                assert(tt[j] == t.take(i - lo)[j]);
                            }
                        }
                    }
                }
                if next > limit {
                    proof {
                        if all_digits(t, radix as int) {
                            lemma_digits_prefix_le(t, radix as int, i - lo + 1);
                        }
                    }
                    return None;
                }
                acc = next;
            },
        }
        i = i + 1;
    }
    proof {
        assert(t.take(hi - lo) =~= t);
    }
    Some(acc)
}

/// `str::parse::<u8>` on `s[lo..hi]`.
pub fn parse_u8(s: &Vec<char>, lo: usize, hi: usize) -> (r: Option<u8>)
    requires
        lo <= hi <= s@.len(),
    ensures
        r == parse_u8_spec(s@.subrange(lo as int, hi as int)),
{
    let ghost t = s@.subrange(lo as int, hi as int);
    let mut start = lo;
    if lo < hi && s[lo] == '+' {
        start = lo + 1;
        proof {
            assert(t[0] == s@[lo as int]);
            assert(t.drop_first() =~= s@.subrange(start as int, hi as int));
        }
    } else {
        proof {
            if lo < hi {
                assert(t[0] == s@[lo as int]);
            }
        }
    }
    match read_digits(s, start, hi, 10, 255) {
        Some(v) => Some(v as u8),
        None => None,
    }
}

/// `i64::from_str_radix` (radix 10 or 16) on `s[lo..hi]`.
pub fn parse_i64(s: &Vec<char>, lo: usize, hi: usize, radix: u32) -> (r: Option<i64>)
    requires
        lo <= hi <= s@.len(),
        radix == 10 || radix == 16,
    ensures
        r == parse_i64_spec(s@.subrange(lo as int, hi as int), radix as int),
{
    let ghost t = s@.subrange(lo as int, hi as int);
    if lo < hi && s[lo] == '-' {
        proof {
            assert(t[0] == s@[lo as int]);
            assert(t.drop_first() =~= s@.subrange(lo + 1, hi as int));
        }
        match read_digits(s, lo + 1, hi, radix, 0x8000_0000_0000_0000) {
            Some(v) => {
                if v == 0x8000_0000_0000_0000 {
                    Some(i64::MIN)
                } else {
                    Some(-(v as i64))
                }
            },
            None => None,
        }
    } else {
        let mut start = lo;
        if lo < hi && s[lo] == '+' {
            start = lo + 1;
            proof {
                assert(t[0] == s@[lo as int]);
                assert(t.drop_first() =~= s@.subrange(start as int, hi as int));
            }
        } else {
            proof {
                if lo < hi {
                    assert(t[0] == s@[lo as int]);
                }
            }
        }
        match read_digits(s, start, hi, radix, 0x7fff_ffff_ffff_ffff) {
            Some(v) => Some(v as i64),
            None => None,
        }
    }
}

} // verus!

verus! {

/// Whether `s[lo..hi]` spells the string `lit`.
pub fn range_eq(s: &Vec<char>, lo: usize, hi: usize, lit: &str) -> (b: bool)
    requires
        lo <= hi <= s@.len(),
    ensures
        b == (s@.subrange(lo as int, hi as int) == lit@),
{
    let l = chars_of(lit);
    if hi - lo != l.len() {
        proof {
            assert(s@.subrange(lo as int, hi as int).len() != lit@.len());
        }
        return false;
    }
    let mut i: usize = 0;
    while i < l.len()
        invariant
            i <= l@.len(),
            l@ == lit@,
            hi - lo == l@.len(),
            lo <= hi <= s@.len(),
            forall|k: int| 0 <= k < i ==> s@[lo + k] == #[trigger] l@[k],
        decreases l@.len() - i,
    {
        if s[lo + i] != l[i] {
            proof {
                assert(s@.subrange(lo as int, hi as int)[i as int] != lit@[i as int]);
            }
            return false;
        }
        i = i + 1;
    }
    proof {
        assert(s@.subrange(lo as int, hi as int) =~= lit@);
    }
    true
}

/// The trimmed pieces that are not empty.
pub open spec fn nonempty_trimmed(p: Seq<Seq<char>>) -> Seq<Seq<char>>
    decreases p.len(),
{
    if p.len() == 0 {
        p
    } else {
        let r = nonempty_trimmed(p.drop_last());
        if trim(p.last()).len() > 0 {
            r.push(trim(p.last()))
        } else {
            r
        }
    }
}

/// The trimmed pieces.
pub open spec fn all_trimmed(p: Seq<Seq<char>>) -> Seq<Seq<char>> {
    p.map_values(|x: Seq<char>| trim(x))
}

/// Trims every range; with `drop_empty`, ranges that trim to nothing are
/// left out.
pub fn trim_ranges(s: &Vec<char>, ranges: &Vec<(usize, usize)>, drop_empty: bool) -> (r: Vec<(usize, usize)>)
    requires
        forall|k: int| 0 <= k < ranges@.len() ==> (#[trigger] ranges@[k]).0 <= ranges@[k].1 <= s@.len(),
    ensures
        forall|k: int| 0 <= k < r@.len() ==> (#[trigger] r@[k]).0 <= r@[k].1 <= s@.len(),
        ({
            let pieces = ranges@.map_values(|x: (usize, usize)| s@.subrange(x.0 as int, x.1 as int));
            let got = r@.map_values(|x: (usize, usize)| s@.subrange(x.0 as int, x.1 as int));
            if drop_empty {
                got == nonempty_trimmed(pieces)
            } else {
                got == all_trimmed(pieces)
            }
        }),
{
    let ghost pieces = ranges@.map_values(|x: (usize, usize)| s@.subrange(x.0 as int, x.1 as int));
    let mut r: Vec<(usize, usize)> = Vec::new();
    let mut i: usize = 0;
    while i < ranges.len()
        invariant
            i <= ranges@.len(),
            pieces == ranges@.map_values(|x: (usize, usize)| s@.subrange(x.0 as int, x.1 as int)),
            forall|k: int| 0 <= k < ranges@.len() ==> (#[trigger] ranges@[k]).0 <= ranges@[k].1 <= s@.len(),
            forall|k: int| 0 <= k < r@.len() ==> (#[trigger] r@[k]).0 <= r@[k].1 <= s@.len(),
            ({
                let got = r@.map_values(|x: (usize, usize)| s@.subrange(x.0 as int, x.1 as int));
                if drop_empty {
                    got == nonempty_trimmed(pieces.take(i as int))
                } else {
                    got == all_trimmed(pieces.take(i as int))
                }
            }),
        decreases ranges@.len() - i,
    {
        let (a, b) = trim_bounds(s, ranges[i].0, ranges[i].1);
        proof {
            assert(pieces.take(i + 1).drop_last() =~= pieces.take(i as int));
            assert(pieces.take(i + 1).last() == pieces[i as int]);
            assert(all_trimmed(pieces.take(i + 1)) =~= all_trimmed(pieces.take(i as int)).push(
                trim(pieces[i as int]),
            ));
        }
        if !drop_empty || a < b {
            r.push((a, b));
            proof {
                let got = r@.map_values(|x: (usize, usize)| s@.subrange(x.0 as int, x.1 as int));
                let got0 = r@.drop_last().map_values(|x: (usize, usize)| s@.subrange(x.0 as int, x.1 as int));
                assert(got =~= got0.push(s@.subrange(a as int, b as int)));
            }
        } else {
            proof {
                assert(s@.subrange(a as int, b as int).len() == 0);
            }
        }
        i = i + 1;
    }
    proof {
        assert(pieces.take(ranges@.len() as int) =~= pieces);
    }
    r
}

} // verus!

verus! {

/// Whether `s` starts with `p`.
pub open spec fn has_prefix(s: Seq<char>, p: Seq<char>) -> bool {
    s.len() >= p.len() && s.take(p.len() as int) == p
}

/// Whether `s[lo..hi]` starts with the string `lit`.
pub fn range_starts_with(s: &Vec<char>, lo: usize, hi: usize, lit: &str) -> (b: bool)
    requires
        lo <= hi <= s@.len(),
    ensures
        b == has_prefix(s@.subrange(lo as int, hi as int), lit@),
{
    let n = lit.unicode_len();
    if hi - lo < n {
        return false;
    }
    let r = range_eq(s, lo, lo + n, lit);
    proof {
        assert(s@.subrange(lo as int, hi as int).take(n as int) =~= s@.subrange(lo as int, lo + n));
    }
    r
}

/// The first position at or after `k` holding `c`, or the length.
pub open spec fn first_char_from(s: Seq<char>, c: char, k: int) -> int
    decreases s.len() - k,
{
    if k >= s.len() {
        s.len() as int
    } else if s[k] == c {
        k
    } else {
        first_char_from(s, c, k + 1)
    }
}

pub proof fn lemma_first_char_bounds(s: Seq<char>, c: char, k: int)
    requires
        0 <= k <= s.len(),
    ensures
        k <= first_char_from(s, c, k) <= s.len(),
        first_char_from(s, c, k) < s.len() ==> s[first_char_from(s, c, k)] == c,
        forall|j: int| k <= j < first_char_from(s, c, k) ==> s[j] != c,
    decreases s.len() - k,
{
    if k < s.len() && s[k] != c {
        lemma_first_char_bounds(s, c, k + 1);
    }
}

/// Position of the first `c` in `s[lo..hi]`, or `hi`.
pub fn find_char(s: &Vec<char>, lo: usize, hi: usize, c: char) -> (k: usize)
    requires
        lo <= hi <= s@.len(),
    ensures
        lo <= k <= hi,
        k - lo == first_char_from(s@.subrange(lo as int, hi as int), c, 0),
{
    let ghost t = s@.subrange(lo as int, hi as int);
    let mut k = lo;
    while k < hi && s[k] != c
        invariant
            lo <= k <= hi <= s@.len(),
            t == s@.subrange(lo as int, hi as int),
            first_char_from(t, c, 0) == first_char_from(t, c, k - lo),
        decreases hi - k,
    {
        proof {
            assert(t[k - lo] == s@[k as int]);
        }
        k = k + 1;
    }
    proof {
        if k < hi {
            assert(t[k - lo] == s@[k as int]);
        }
    }
    k
}

#[verifier::external_type_specification]
#[verifier::external_body]
pub struct ExJsonError(serde_json::Error);

/// The array of strings that `serde_json::from_str::<Vec<String>>` reads
/// from a text, or `None` when it rejects the text.
pub uninterp spec fn json_string_array(text: Seq<char>) -> Option<Seq<Seq<char>>>;

/// Calls `serde_json::from_str::<Vec<String>>`. Claimed: it succeeds
/// exactly when `json_string_array` of the text is `Some`, and then the
/// strings it returns are that array. What the array is for a given text
/// (JSON syntax, escapes, trailing white space) is not stated.
#[verifier::external_body]
fn json_string_array_from_str(text: &str) -> (r: Result<Vec<String>, serde_json::Error>)
    ensures
        r is Ok <==> json_string_array(text@) is Some,
        r matches Ok(v) ==> v@.map_values(|x: String| x@) == json_string_array(text@)->0,
{
    serde_json::from_str::<Vec<String>>(text)
}

/// The strings of a JSON array of strings, or `None` when the text is not
/// one.
pub fn read_string_array(json_text: &str) -> (r: Option<Vec<String>>)
    ensures
        r is Some <==> json_string_array(json_text@) is Some,
        r matches Some(v) ==> v@.map_values(|x: String| x@) == json_string_array(json_text@)->0,
{
    match json_string_array_from_str(json_text) {
        Ok(v) => Some(v),
        Err(_) => None,
    }
}

} // verus!
