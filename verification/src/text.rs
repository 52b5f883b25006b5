//! Character-level text helpers: trimming, locating a separator, and
//! splitting a dotted key into its path segments.

use vstd::prelude::*;

verus! {

/// Whitespace as far as trimming is concerned: the characters with the
/// Unicode `White_Space` property, the set `str::trim` removes.
pub open spec fn is_space(c: char) -> bool {
    let u = c as int;
    u == 0x20 || (0x09 <= u && u <= 0x0d) || u == 0x85 || u == 0xa0 || u == 0x1680 || (0x2000 <= u
        && u <= 0x200a) || u == 0x2028 || u == 0x2029 || u == 0x202f || u == 0x205f || u == 0x3000
}

/// `s` with leading and trailing whitespace removed.
pub open spec fn trimmed(s: Seq<char>) -> Seq<char>
    decreases s.len(),
{
    if s.len() == 0 {
        s
    } else if is_space(s[0]) {
        trimmed(s.drop_first())
    } else if is_space(s.last()) {
        trimmed(s.drop_last())
    } else {
        s
    }
}

/// The position of the first occurrence of `c` in `s`, if any.
pub open spec fn first_index_of(s: Seq<char>, c: char) -> Option<int>
    decreases s.len(),
{
    if s.len() == 0 {
        None
    } else if s[0] == c {
        Some(0int)
    } else {
        match first_index_of(s.drop_first(), c) {
            None => None,
            Some(i) => Some(i + 1),
        }
    }
}

/// What `first_index_of` returns: the unique position of `c` before which
/// `c` does not occur, or `None` when `c` does not occur at all.
pub proof fn lemma_first_index_of(s: Seq<char>, c: char)
    ensures
        match first_index_of(s, c) {
            None => forall|k: int| 0 <= k < s.len() ==> s[k] != c,
            Some(i) => 0 <= i < s.len() && s[i] == c && (forall|k: int| 0 <= k < i ==> s[k] != c),
        },
    decreases s.len(),
{
    if s.len() != 0 && s[0] != c {
        lemma_first_index_of(s.drop_first(), c);
        let rest = s.drop_first();
        match first_index_of(rest, c) {
            None => {
                assert forall|k: int| 0 <= k < s.len() implies s[k] != c by {
                    if k > 0 {
                        assert(s[k] == rest[k - 1]);
                    }
                }
            },
            Some(i) => {
                assert(s[i + 1] == rest[i]);
                assert(forall|k: int| 1 <= k < i + 1 ==> s[k] == rest[k - 1]);
            },
        }
    }
}

/// The segments of `s` split on every `'.'`; a string without dots is one
/// segment, and empty segments (leading, trailing, doubled dots) are kept
/// as literal empty names.
pub open spec fn dot_segments(s: Seq<char>) -> Seq<Seq<char>>
    decreases s.len(),
{
    if s.len() == 0 {
        seq![Seq::<char>::empty()]
    } else if s[0] == '.' {
        seq![Seq::<char>::empty()] + dot_segments(s.drop_first())
    } else {
        let rest = dot_segments(s.drop_first());
        seq![seq![s[0]] + rest[0]] + rest.drop_first()
    }
}

/// Splitting always yields at least one segment.
pub proof fn lemma_dot_segments_len(s: Seq<char>)
    ensures
        dot_segments(s).len() >= 1,
    decreases s.len(),
{
    if s.len() != 0 {
        lemma_dot_segments_len(s.drop_first());
    }
}

/// A dot-free string is its own single segment.
pub proof fn lemma_dot_segments_no_dot(s: Seq<char>)
    requires
        forall|k: int| 0 <= k < s.len() ==> s[k] != '.',
    ensures
        dot_segments(s) == seq![s],
    decreases s.len(),
{
    if s.len() == 0 {
        assert(s =~= Seq::<char>::empty());
    } else {
        let rest = s.drop_first();
        assert(forall|k: int| 0 <= k < rest.len() ==> rest[k] == s[k + 1]);
        lemma_dot_segments_no_dot(rest);
        assert(seq![s[0]] + rest =~= s);
        assert(dot_segments(s) =~= seq![s]);
    }
}

/// Splitting at the first dot: a dot-free prefix becomes one segment and the
/// remainder is split on its own.
pub proof fn lemma_dot_segments_append(a: Seq<char>, b: Seq<char>)
    requires
        forall|k: int| 0 <= k < a.len() ==> a[k] != '.',
    ensures
        dot_segments(a + seq!['.'] + b) == seq![a] + dot_segments(b),
    decreases a.len(),
{
    let s = a + seq!['.'] + b;
    if a.len() == 0 {
        assert(s[0] == '.');
        assert(s.drop_first() =~= b);
        assert(a =~= Seq::<char>::empty());
        assert(dot_segments(s) =~= seq![a] + dot_segments(b));
    } else {
        let a2 = a.drop_first();
        assert(forall|k: int| 0 <= k < a2.len() ==> a2[k] == a[k + 1]);
        lemma_dot_segments_append(a2, b);
        assert(s[0] == a[0]);
        assert(s[0] != '.');
        assert(s.drop_first() =~= a2 + seq!['.'] + b);
        let rest = dot_segments(s.drop_first());
        assert(rest == seq![a2] + dot_segments(b));
        lemma_dot_segments_len(b);
        assert(rest[0] == a2);
        assert(seq![s[0]] + rest[0] =~= a);
        assert(rest.drop_first() =~= dot_segments(b));
        assert(dot_segments(s) =~= seq![a] + dot_segments(b));
    }
}

/// Removes leading and trailing whitespace, keeping the middle untouched.
pub fn trim_str<'a>(s: &'a str) -> (r: &'a str)
    ensures
        r@ == trimmed(s@),
{
    let n: usize = s.unicode_len();
    let mut lo: usize = 0;
    let mut hi: usize = n;
    proof {
        assert(s@.subrange(0, n as int) =~= s@);
    }
    loop
        invariant
            0 <= lo <= hi <= n,
            n == s@.len(),
            trimmed(s@) == trimmed(s@.subrange(lo as int, hi as int)),
        ensures
            0 <= lo <= hi <= n,
            trimmed(s@) == trimmed(s@.subrange(lo as int, hi as int)),
            lo == hi || (!is_space(s@[lo as int]) && !is_space(s@[hi as int - 1])),
        decreases hi - lo,
    {
        if lo < hi && is_space_char(s.get_char(lo)) {
            proof {
                let sub = s@.subrange(lo as int, hi as int);
                assert(sub.drop_first() =~= s@.subrange(lo as int + 1, hi as int));
            }
            lo = lo + 1;
        } else if lo < hi && is_space_char(s.get_char(hi - 1)) {
            proof {
                let sub = s@.subrange(lo as int, hi as int);
                assert(sub.last() == s@[hi - 1]);
                assert(sub.drop_last() =~= s@.subrange(lo as int, hi as int - 1));
            }
            hi = hi - 1;
        } else {
            break;
        }
    }
    proof {
        let sub = s@.subrange(lo as int, hi as int);
        if sub.len() != 0 {
            assert(sub[0] == s@[lo as int]);
            assert(sub.last() == s@[hi - 1]);
        }
        assert(trimmed(sub) == sub);
    }
    s.substring_char(lo, hi)
}

/// Exact string equality, character by character.
pub fn str_eq(a: &str, b: &str) -> (r: bool)
    ensures
        r == (a@ == b@),
{
    let na: usize = a.unicode_len();
    let nb: usize = b.unicode_len();
    if na != nb {
        return false;
    }
    let mut i: usize = 0;
    while i < na
        invariant
            0 <= i <= na,
            na == a@.len(),
            na == b@.len(),
            forall|k: int| 0 <= k < i ==> a@[k] == b@[k],
        decreases na - i,
    {
        if a.get_char(i) != b.get_char(i) {
            return false;
        }
        i = i + 1;
    }
    proof {
        assert(a@ =~= b@);
    }
    true
}

/// Whether `c` counts as whitespace for trimming.
pub fn is_space_char(c: char) -> (b: bool)
    ensures
        b == is_space(c),
{
    let u: u32 = c as u32;
    proof {
        assert(c as int == u as int);
    }
    u == 0x20 || (0x09 <= u && u <= 0x0d) || u == 0x85 || u == 0xa0 || u == 0x1680 || (0x2000 <= u
        && u <= 0x200a) || u == 0x2028 || u == 0x2029 || u == 0x202f || u == 0x205f || u == 0x3000
}

/// The position of the first occurrence of `c` in `s`, if any.
pub fn find_char(s: &str, c: char) -> (r: Option<usize>)
    ensures
        match r {
            None => first_index_of(s@, c) is None,
            Some(i) => first_index_of(s@, c) == Some(i as int),
        },
{
    let n: usize = s.unicode_len();
    let mut i: usize = 0;
    while i < n
        invariant
            0 <= i <= n,
            n == s@.len(),
            forall|k: int| 0 <= k < i ==> s@[k] != c,
        decreases n - i,
    {
        if s.get_char(i) == c {
            proof {
                lemma_first_index_of(s@, c);
            }
            return Some(i);
        }
        i = i + 1;
    }
    proof {
        lemma_first_index_of(s@, c);
    }
    None
}

/// Splits a key into its dot-separated path segments.
pub fn split_key(s: &str) -> (segs: Vec<String>)
    ensures
        segs.deep_view() == dot_segments(s@),
        segs@.len() >= 1,
{
    let n: usize = s.unicode_len();
    let mut segs: Vec<String> = Vec::new();
    let mut start: usize = 0;
    let mut i: usize = 0;
    proof {
        assert(s@.subrange(0, n as int) =~= s@);
        assert(segs.deep_view() =~= Seq::<Seq<char>>::empty());
        assert(segs.deep_view() + dot_segments(s@) =~= dot_segments(s@));
    }
    while i < n
        invariant
            0 <= start <= i <= n,
            n == s@.len(),
            forall|k: int| start <= k < i ==> s@[k] != '.',
            dot_segments(s@) == segs.deep_view() + dot_segments(
                s@.subrange(start as int, n as int),
            ),
        decreases n - i,
    {
        if s.get_char(i) == '.' {
            let ghost old_dv = segs.deep_view();
            let seg: &str = s.substring_char(start, i);
            segs.push(seg.to_owned());
            proof {
                let cur = s@.subrange(start as int, i as int);
                let rest = s@.subrange(i as int + 1, n as int);
                assert(s@.subrange(start as int, n as int) =~= cur + seq!['.'] + rest);
                lemma_dot_segments_append(cur, rest);
                assert(segs.deep_view() =~= old_dv.push(cur));
                assert(segs.deep_view() + dot_segments(rest) =~= old_dv + (seq![cur]
                    + dot_segments(rest)));
            }
            start = i + 1;
        }
        i = i + 1;
    }
    let ghost old_dv = segs.deep_view();
    let seg: &str = s.substring_char(start, n);
    segs.push(seg.to_owned());
    proof {
        let cur = s@.subrange(start as int, n as int);
        lemma_dot_segments_no_dot(cur);
        assert(segs.deep_view() =~= old_dv.push(cur));
        assert(segs.deep_view() =~= old_dv + seq![cur]);
        lemma_dot_segments_len(s@);
    }
    segs
}

} // verus!
