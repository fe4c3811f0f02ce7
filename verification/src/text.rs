//! Character-sequence utilities: case-insensitive substring search,
//! whitespace trimming, and splitting a raw comma-separated tag string.

use vstd::prelude::*;

verus! {

/// The result of Unicode lowercasing, a function of the characters alone.
pub uninterp spec fn lower_of(s: Seq<char>) -> Seq<char>;

/// Relies on `str::to_lowercase` of std: the lowercase form of a string
/// depends on its characters alone, and an empty string stays empty.
#[verifier::external_body]
pub(crate) fn lower_chars(s: &Vec<char>) -> (r: Vec<char>)
    ensures
        r@ == lower_of(s@),
        s@.len() == 0 ==> r@.len() == 0,
{
    let owned: String = s.iter().collect();
    owned.to_lowercase().chars().collect()
}

/// Index of the first occurrence of `c` in `s` at or after `i`, or `s.len()`
/// if there is none.
pub open spec fn find_from(s: Seq<char>, i: int, c: char) -> int
    recommends
        0 <= i <= s.len(),
    decreases s.len() - i,
{
    if i < 0 || i >= s.len() {
        s.len() as int
    } else if s[i] == c {
        i
    } else {
        find_from(s, i + 1, c)
    }
}

/// `find_from` never points before `i` nor past the end, and points at `c`
/// when it is in range.
pub proof fn lemma_find_from_range(s: Seq<char>, i: int, c: char)
    requires
        0 <= i <= s.len(),
    ensures
        i <= find_from(s, i, c) <= s.len(),
        find_from(s, i, c) < s.len() ==> s[find_from(s, i, c)] == c,
        forall|k: int| i <= k < find_from(s, i, c) ==> s[k] != c,
    decreases s.len() - i,
{
    if i < s.len() && s[i] != c {
        lemma_find_from_range(s, i + 1, c);
    }
}

/// First occurrence of `c` at or after `start`, or `v.len()` if none.
pub fn find_char_from(v: &Vec<char>, start: usize, c: char) -> (r: usize)
    requires
        start <= v@.len(),
    ensures
        r as int == find_from(v@, start as int, c),
{
    let mut i: usize = start;
    while i < v.len()
        invariant
            start <= i <= v@.len(),
            find_from(v@, start as int, c) == find_from(v@, i as int, c),
        decreases v@.len() - i,
    {
        if v[i] == c {
            return i;
        }
        i += 1;
    }
    i
}

/// True when `needle` occurs contiguously inside `hay`; the empty sequence
/// occurs in everything.
pub open spec fn contains_seq(hay: Seq<char>, needle: Seq<char>) -> bool {
    exists|i: int|
        0 <= i && i + needle.len() <= hay.len() && #[trigger] hay.subrange(
            i,
            i + needle.len() as int,
        ) == needle
}

/// Substring test: whether `needle` occurs contiguously inside `hay`.
pub fn contains_chars(hay: &Vec<char>, needle: &Vec<char>) -> (r: bool)
    ensures
        r == contains_seq(hay@, needle@),
{
    let n = needle.len();
    let h = hay.len();
    if n > h {
        assert(!contains_seq(hay@, needle@));
        return false;
    }
    let mut i: usize = 0;
    while i <= h - n
        invariant
            n <= h,
            h == hay@.len(),
            n == needle@.len(),
            i <= h - n + 1,
            forall|k: int|
                0 <= k < i ==> #[trigger] hay@.subrange(k, k + needle@.len() as int) != needle@,
        decreases h + 1 - n - i,
    {
        let mut j: usize = 0;
        while j < n && hay[i + j] == needle[j]
            invariant
                n <= h,
                h == hay@.len(),
                n == needle@.len(),
                i + n <= h,
                j <= n,
                forall|t: int| 0 <= t < j ==> hay@[i + t] == needle@[t],
            decreases n - j,
        {
            j += 1;
        }
        if j == n {
            assert(hay@.subrange(i as int, i + needle@.len() as int) =~= needle@);
            return true;
        }
        assert(hay@.subrange(i as int, i + needle@.len() as int) != needle@) by {
            assert(hay@[i + j] != needle@[j as int]);
            assert(hay@.subrange(i as int, i + needle@.len() as int)[j as int] == hay@[i + j]);
        }
        i += 1;
    }
    assert forall|k: int| 0 <= k && k + needle@.len() <= hay@.len() implies #[trigger] hay@
        .subrange(k, k + needle@.len() as int) != needle@ by {
        assert(k < i);
    }
    false
}

/// The sequence of character sequences a vector of character vectors holds.
pub open spec fn tags_view(ts: Seq<Vec<char>>) -> Seq<Seq<char>> {
    ts.map_values(|t: Vec<char>| t@)
}

/// The White_Space characters of Unicode, the set that `char::is_whitespace`
/// of std accepts.
pub open spec fn is_space_char(c: char) -> bool {
    let v = c as u32;
    ||| v == 0x20
    ||| (0x09 <= v && v <= 0x0d)
    ||| v == 0x85
    ||| v == 0xa0
    ||| v == 0x1680
    ||| (0x2000 <= v && v <= 0x200a)
    ||| v == 0x2028
    ||| v == 0x2029
    ||| v == 0x202f
    ||| v == 0x205f
    ||| v == 0x3000
}

/// Whitespace test over the same character set as `is_space_char`.
pub fn is_space(c: char) -> (r: bool)
    ensures
        r == is_space_char(c),
{
    let v = c as u32;
    v == 0x20 || (0x09 <= v && v <= 0x0d) || v == 0x85 || v == 0xa0 || v == 0x1680 || (0x2000 <= v
        && v <= 0x200a) || v == 0x2028 || v == 0x2029 || v == 0x202f || v == 0x205f || v == 0x3000
}

/// Index of the first non-whitespace character at or after `i`, or `s.len()`.
pub open spec fn skip_ws(s: Seq<char>, i: int) -> int
    recommends
        0 <= i <= s.len(),
    decreases s.len() - i,
{
    if i < 0 || i >= s.len() {
        s.len() as int
    } else if is_space_char(s[i]) {
        skip_ws(s, i + 1)
    } else {
        i
    }
}

/// One past the last non-whitespace character strictly before `i`, or `0`.
pub open spec fn rskip_ws(s: Seq<char>, i: int) -> int
    recommends
        0 <= i <= s.len(),
    decreases i,
{
    if i <= 0 {
        0
    } else if is_space_char(s[i - 1]) {
        rskip_ws(s, i - 1)
    } else {
        i
    }
}

/// `s` with leading and trailing whitespace removed.
pub open spec fn trim_spec(s: Seq<char>) -> Seq<char> {
    let a = skip_ws(s, 0);
    let b = rskip_ws(s, s.len() as int);
    if a <= b {
        s.subrange(a, b)
    } else {
        Seq::empty()
    }
}

/// The characters of `v` between `from` and `to`.
pub fn copy_range(v: &Vec<char>, from: usize, to: usize) -> (r: Vec<char>)
    requires
        from <= to <= v@.len(),
    ensures
        r@ == v@.subrange(from as int, to as int),
{
    let mut out: Vec<char> = Vec::new();
    let mut j: usize = from;
    while j < to
        invariant
            from <= j <= to <= v@.len(),
            out@ == v@.subrange(from as int, j as int),
        decreases to - j,
    {
        out.push(v[j]);
        assert(v@.subrange(from as int, j + 1 as int) =~= v@.subrange(from as int, j as int).push(
            v@[j as int],
        ));
        j += 1;
    }
    out
}

/// `v` with leading and trailing whitespace removed.
pub fn trim_chars(v: &Vec<char>) -> (r: Vec<char>)
    ensures
        r@ == trim_spec(v@),
{
    let len = v.len();
    let mut a: usize = 0;
    while a < len && is_space(v[a])
        invariant
            a <= len,
            len == v@.len(),
            skip_ws(v@, 0) == skip_ws(v@, a as int),
        decreases len - a,
    {
        a += 1;
    }
    let mut b: usize = len;
    while b > 0 && is_space(v[b - 1])
        invariant
            b <= len,
            len == v@.len(),
            rskip_ws(v@, len as int) == rskip_ws(v@, b as int),
        decreases b,
    {
        b -= 1;
    }
    if a <= b {
        copy_range(v, a, b)
    } else {
        Vec::new()
    }
}

/// The pieces of `s` from `i` on, split at every comma; a piece may be empty,
/// and there is always at least one piece.
pub open spec fn split_commas_from(s: Seq<char>, i: int) -> Seq<Seq<char>>
    recommends
        0 <= i <= s.len(),
    decreases s.len() - i,
{
    let k = find_from(s, i, ',');
    if i <= k < s.len() {
        seq![s.subrange(i, k)] + split_commas_from(s, k + 1)
    } else {
        seq![s.subrange(i, s.len() as int)]
    }
}

/// The tag sequence derived from a raw comma-separated string: split at
/// commas, each piece trimmed. Splitting yields at least one piece, so even
/// an empty raw string yields one empty tag.
pub open spec fn split_tags_spec(s: Seq<char>) -> Seq<Seq<char>> {
    split_commas_from(s, 0).map_values(|p: Seq<char>| trim_spec(p))
}

/// Splits a raw comma-separated tag string into its trimmed pieces.
pub fn split_tags(raw: &Vec<char>) -> (r: Vec<Vec<char>>)
    ensures
        tags_view(r@) == split_tags_spec(raw@),
        r@.len() >= 1,
{
    let ghost full = split_tags_spec(raw@);
    let mut out: Vec<Vec<char>> = Vec::new();
    let mut i: usize = 0;
    loop
        invariant
            i <= raw@.len(),
            full == split_tags_spec(raw@),
            full =~= tags_view(out@) + split_commas_from(raw@, i as int).map_values(
                |p: Seq<char>| trim_spec(p),
            ),
        decreases raw@.len() - i,
    {
        let k = find_char_from(raw, i, ',');
        proof {
            lemma_find_from_range(raw@, i as int, ',');
        }
        let piece = copy_range(raw, i, k);
        let trimmed = trim_chars(&piece);
        out.push(trimmed);
        if k == raw.len() {
            proof {
                assert(tags_view(out@) =~= full);
            }
            return out;
        }
        proof {
            let rest = split_commas_from(raw@, k + 1).map_values(|p: Seq<char>| trim_spec(p));
            assert(split_commas_from(raw@, i as int).map_values(|p: Seq<char>| trim_spec(p)) =~= seq![
                trim_spec(raw@.subrange(i as int, k as int)),
            ] + rest);
            assert(full =~= tags_view(out@) + rest);
        }
        i = k + 1;
    }
}

/// The prefix of `v` up to its first newline, or all of `v` if it has none.
pub fn first_line(v: &Vec<char>) -> (r: Vec<char>)
    ensures
        r@ == v@.subrange(0, find_from(v@, 0, '\n')),
{
    let k = find_char_from(v, 0, '\n');
    proof {
        lemma_find_from_range(v@, 0, '\n');
    }
    copy_range(v, 0, k)
}

} // verus!
