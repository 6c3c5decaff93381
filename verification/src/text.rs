//! Character-level text handling for the request parser: splitting on a
//! separator, line splitting, trimming, and the few std conversions that the
//! parser relies on.
use vstd::prelude::*;
use vstd::string::StrSliceExecFns;
use vstd::utf8::{decode_utf8, valid_utf8};

verus! {

// ---------------------------------------------------------------------------
// Specifications
// ---------------------------------------------------------------------------

/// The pieces of `s` between occurrences of `sep`, as `str::split` with a
/// `char` pattern yields them: always at least one piece, and an empty piece
/// for each leading, trailing or doubled separator.
pub open spec fn split_on(s: Seq<char>, sep: char) -> Seq<Seq<char>>
    decreases s.len(),
{
    if s.len() == 0 {
        seq![Seq::<char>::empty()]
    } else {
        let prev = split_on(s.drop_last(), sep);
        if s.last() == sep {
            prev.push(Seq::<char>::empty())
        } else {
            prev.update(prev.len() - 1, prev.last().push(s.last()))
        }
    }
}

/// A line without its final `'\r'`, if it has one.
pub open spec fn strip_cr(s: Seq<char>) -> Seq<char> {
    if s.len() > 0 && s.last() == '\r' {
        s.drop_last()
    } else {
        s
    }
}

/// The lines of `s`, as `str::lines` yields them: split at `'\n'`, a line
/// that a `'\n'` ends loses a `'\r'` before it, and a final empty piece (the
/// text is empty or ends with `'\n'`) is not a line.
pub open spec fn lines_of(s: Seq<char>) -> Seq<Seq<char>> {
    let parts = split_on(s, '\n');
    let ended = parts.drop_last().map_values(|p: Seq<char>| strip_cr(p));
    if parts.last().len() == 0 {
        ended
    } else {
        ended.push(parts.last())
    }
}

/// The characters of `s` that the index ranges `rs` cover, range by range.
pub open spec fn range_views(s: Seq<char>, rs: Seq<(usize, usize)>) -> Seq<Seq<char>> {
    Seq::new(rs.len(), |i: int| s.subrange(rs[i].0 as int, rs[i].1 as int))
}

/// Whether `c` has the Unicode `White_Space` property, by which
/// `char::is_whitespace` and `str::trim` go: the controls U+0009 to U+000D,
/// the space, U+0085, the no-break space U+00A0, U+1680, the spaces U+2000 to
/// U+200A, the line and paragraph separators U+2028 and U+2029, U+202F,
/// U+205F and the ideographic space U+3000.
pub open spec fn is_whitespace(c: char) -> bool {
    let n = c as u32;
    ||| 0x9 <= n <= 0xd
    ||| n == 0x20
    ||| n == 0x85
    ||| n == 0xa0
    ||| n == 0x1680
    ||| 0x2000 <= n <= 0x200a
    ||| n == 0x2028
    ||| n == 0x2029
    ||| n == 0x202f
    ||| n == 0x205f
    ||| n == 0x3000
}

/// `s` without its leading whitespace.
pub open spec fn trim_start(s: Seq<char>) -> Seq<char>
    decreases s.len(),
{
    if s.len() > 0 && is_whitespace(s[0]) {
        trim_start(s.drop_first())
    } else {
        s
    }
}

/// `s` without its trailing whitespace.
pub open spec fn trim_end(s: Seq<char>) -> Seq<char>
    decreases s.len(),
{
    if s.len() > 0 && is_whitespace(s.last()) {
        trim_end(s.drop_last())
    } else {
        s
    }
}

/// `s` without leading and trailing whitespace, as `str::trim` gives it.
pub open spec fn trim(s: Seq<char>) -> Seq<char> {
    trim_end(trim_start(s))
}

/// Whether `c` occurs in `s`.
pub open spec fn has_char(s: Seq<char>, c: char) -> bool {
    exists|i: int| 0 <= i < s.len() && s[i] == c
}

/// `i` is the index of the first `c` in `s`.
pub open spec fn is_first_index(s: Seq<char>, c: char, i: int) -> bool {
    &&& 0 <= i < s.len()
    &&& s[i] == c
    &&& forall|j: int| 0 <= j < i ==> s[j] != c
}

/// The index of the first `c` in `s` (meaningful when `has_char(s, c)`).
pub open spec fn first_index(s: Seq<char>, c: char) -> int {
    choose|i: int| is_first_index(s, c, i)
}

/// The lower-case form of an ASCII character; other characters unchanged.
pub open spec fn ascii_lower(c: char) -> char {
    if 'A' <= c && c <= 'Z' {
        ((c as u32) + 32) as char
    } else {
        c
    }
}

/// Name for what `str::to_lowercase` returns for the characters `s`.
pub uninterp spec fn lowercase(s: Seq<char>) -> Seq<char>;

/// Name for the characters that `String::from_utf8_lossy` decodes from `bytes`.
pub uninterp spec fn utf8_lossy(bytes: Seq<u8>) -> Seq<char>;

// ---------------------------------------------------------------------------
// Lemmas
// ---------------------------------------------------------------------------

/// `split_on` always yields at least one piece.
pub proof fn lemma_split_on_nonempty(s: Seq<char>, sep: char)
    ensures
        split_on(s, sep).len() >= 1,
    decreases s.len(),
{
    if s.len() > 0 {
        lemma_split_on_nonempty(s.drop_last(), sep);
    }
}

/// The first index is unique.
pub proof fn lemma_first_index(s: Seq<char>, c: char, i: int)
    requires
        is_first_index(s, c, i),
    ensures
        has_char(s, c),
        first_index(s, c) == i,
{
    let j = first_index(s, c);
    assert(is_first_index(s, c, j));
    if j < i {
        assert(s[j] != c);
    }
    if i < j {
        assert(s[i] != c);
    }
}

/// The pieces `ps` put back together with `sep` between each two.
pub open spec fn join_with(ps: Seq<Seq<char>>, sep: char) -> Seq<char>
    decreases ps.len(),
{
    if ps.len() == 0 {
        Seq::empty()
    } else if ps.len() == 1 {
        ps[0]
    } else {
        join_with(ps.drop_last(), sep).push(sep) + ps.last()
    }
}

/// Splitting loses nothing: the pieces, joined with the separator, give the
/// text back.
pub proof fn law_split_join(s: Seq<char>, sep: char)
    ensures
        join_with(split_on(s, sep), sep) == s,
    decreases s.len(),
{
    if s.len() > 0 {
        let t = s.drop_last();
        let c = s.last();
        law_split_join(t, sep);
        lemma_split_on_nonempty(t, sep);
        let prev = split_on(t, sep);
        if c == sep {
            assert(split_on(s, sep).drop_last() =~= prev);
            assert(s =~= t.push(sep) + Seq::<char>::empty());
        } else {
            let ps = split_on(s, sep);
            if prev.len() == 1 {
                assert(s =~= prev[0].push(c));
            } else {
                assert(ps.drop_last() =~= prev.drop_last());
                assert(join_with(prev, sep) == join_with(prev.drop_last(), sep).push(sep) + prev.last());
                let a = join_with(prev.drop_last(), sep).push(sep);
                assert(s =~= t.push(c));
                assert((a + prev.last()).push(c) =~= a + prev.last().push(c));
            }
        }
    }
}

/// No piece of a split holds the separator.
pub proof fn law_split_pieces_lack_separator(s: Seq<char>, sep: char, i: int)
    requires
        0 <= i < split_on(s, sep).len(),
    ensures
        !has_char(split_on(s, sep)[i], sep),
    decreases s.len(),
{
    if s.len() > 0 {
        let t = s.drop_last();
        let c = s.last();
        lemma_split_on_nonempty(t, sep);
        let prev = split_on(t, sep);
        if i < prev.len() - 1 || (c == sep && i < prev.len()) {
            law_split_pieces_lack_separator(t, sep, i);
        } else if c != sep {
            law_split_pieces_lack_separator(t, sep, i);
            let p = prev.last().push(c);
            assert forall|j: int| 0 <= j < p.len() implies p[j] != sep by {
                if j < p.len() - 1 {
                    assert(p[j] == prev.last()[j]);
                }
            }
        }
    }
}

/// No line holds a line feed.
pub proof fn law_lines_lack_newline(s: Seq<char>, i: int)
    requires
        0 <= i < lines_of(s).len(),
    ensures
        !has_char(lines_of(s)[i], '\n'),
{
    let parts = split_on(s, '\n');
    lemma_split_on_nonempty(s, '\n');
    law_split_pieces_lack_separator(s, '\n', i);
    let p = parts[i];
    if i < parts.len() - 1 {
        let l = strip_cr(p);
        assert(lines_of(s)[i] == l);
        assert forall|j: int| 0 <= j < l.len() implies l[j] != '\n' by {
            assert(l[j] == p[j]);
        }
    } else {
        assert(lines_of(s)[i] == parts.last());
    }
}

/// Text without the separator is a single piece.
pub proof fn lemma_split_on_single(s: Seq<char>, sep: char)
    requires
        !has_char(s, sep),
    ensures
        split_on(s, sep) == seq![s],
    decreases s.len(),
{
    if s.len() > 0 {
        let t = s.drop_last();
        assert(!has_char(t, sep)) by {
            if has_char(t, sep) {
                let j = choose|j: int| 0 <= j < t.len() && t[j] == sep;
                assert(s[j] == sep);
            }
        }
        lemma_split_on_single(t, sep);
        assert(s.last() != sep) by {
            assert(s[s.len() - 1] == s.last());
        }
        assert(t.push(s.last()) =~= s);
        assert(seq![t].update(0, t.push(s.last())) =~= seq![s]);
    } else {
        assert(s =~= Seq::<char>::empty());
    }
}

/// Splitting at a separator between two texts splits each of them.
pub proof fn lemma_split_on_concat(a: Seq<char>, b: Seq<char>, sep: char)
    ensures
        split_on(a + seq![sep] + b, sep) == split_on(a, sep) + split_on(b, sep),
    decreases b.len(),
{
    let s = a + seq![sep] + b;
    if b.len() == 0 {
        assert(s.drop_last() =~= a);
        assert(split_on(a, sep).push(Seq::<char>::empty()) =~= split_on(a, sep) + split_on(b, sep));
    } else {
        let b1 = b.drop_last();
        let c = b.last();
        lemma_split_on_concat(a, b1, sep);
        lemma_split_on_nonempty(b1, sep);
        assert(s.drop_last() =~= a + seq![sep] + b1);
        assert(s.last() == c);
        let pa = split_on(a, sep);
        let pb = split_on(b1, sep);
        if c == sep {
            assert((pa + pb).push(Seq::<char>::empty()) =~= pa + pb.push(Seq::<char>::empty()));
        } else {
            let prev = pa + pb;
            assert(prev.update(prev.len() - 1, prev.last().push(c)) =~= pa + pb.update(
                pb.len() - 1,
                pb.last().push(c),
            ));
        }
    }
}

// ---------------------------------------------------------------------------
// Calls into std
// ---------------------------------------------------------------------------

/// `str::to_lowercase`. The result is named; what is stated beyond the name is
/// that on ASCII text it lower-cases each letter `A`-`Z` and keeps every other
/// character, Unicode's lower-case mapping of the ASCII range (the
/// documentation's example turns `HELLO` into `hello`). Non-ASCII text is left
/// to the name.
#[verifier::external_body]
pub(crate) fn to_lowercase(s: &str) -> (r: String)
    ensures
        r@ == lowercase(s@),
        (forall|i: int| 0 <= i < s@.len() ==> (s@[i] as u32) < 0x80) ==> r@ == s@.map_values(
            |c: char| ascii_lower(c),
        ),
{
    s.to_lowercase()
}

/// `String::from_utf8_lossy`, taken as an owned `String`. The result is
/// named; its documentation says that valid UTF-8 is decoded as it is, which
/// is stated; how invalid sequences are replaced is left to the name.
#[verifier::external_body]
pub(crate) fn decode_lossy(bytes: &[u8]) -> (s: String)
    ensures
        s@ == utf8_lossy(bytes@),
        valid_utf8(bytes@) ==> s@ == decode_utf8(bytes@),
{
    String::from_utf8_lossy(bytes).into_owned()
}

// ---------------------------------------------------------------------------
// Executable helpers
// ---------------------------------------------------------------------------

/// Whether `c` is whitespace, as `char::is_whitespace` decides it.
pub fn char_is_whitespace(c: char) -> (b: bool)
    ensures
        b == is_whitespace(c),
{
    let n: u32 = c as u32;
    (0x9 <= n && n <= 0xd) || n == 0x20 || n == 0x85 || n == 0xa0 || n == 0x1680 || (0x2000 <= n
        && n <= 0x200a) || n == 0x2028 || n == 0x2029 || n == 0x202f || n == 0x205f || n == 0x3000
}

/// The characters of `s`, one element each.
pub fn chars_of(s: &str) -> (v: Vec<char>)
    ensures
        v@ == s@,
{
    let mut v: Vec<char> = Vec::new();
    for c in it: s.chars()
        invariant
            v@ == it.history(),
    {
        v.push(c);
    }
    v
}

/// The characters `start..end` of `s` as an owned string.
pub fn substring(s: &str, start: usize, end: usize) -> (r: String)
    requires
        start <= end <= s@.len(),
    ensures
        r@ == s@.subrange(start as int, end as int),
{
    s.substring_char(start, end).to_owned()
}


/// The ranges of the pieces of `chars[start..end]` between occurrences of
/// `sep` (see `split_on`).
pub fn split_ranges(chars: &Vec<char>, start: usize, end: usize, sep: char) -> (rs: Vec<(usize, usize)>)
    requires
        start <= end <= chars@.len(),
    ensures
        range_views(chars@, rs@) == split_on(chars@.subrange(start as int, end as int), sep),
        forall|k: int| 0 <= k < rs@.len() ==> start <= #[trigger] rs@[k].0 <= rs@[k].1 <= end,
{
    let mut rs: Vec<(usize, usize)> = Vec::new();
    let mut piece = start;
    let mut i = start;
    assert(chars@.subrange(start as int, start as int) =~= Seq::<char>::empty());
    assert(range_views(chars@, rs@).push(chars@.subrange(piece as int, i as int)) =~= split_on(
        chars@.subrange(start as int, i as int),
        sep,
    ));
    while i < end
        invariant
            start <= piece <= i <= end <= chars@.len(),
            forall|k: int| 0 <= k < rs@.len() ==> start <= #[trigger] rs@[k].0 <= rs@[k].1 <= piece,
            range_views(chars@, rs@).push(chars@.subrange(piece as int, i as int)) == split_on(
                chars@.subrange(start as int, i as int),
                sep,
            ),
        decreases end - i,
    {
        let c = chars[i];
        let ghost before = chars@.subrange(start as int, i as int);
        let ghost after = chars@.subrange(start as int, i + 1);
        assert(after.drop_last() =~= before);
        assert(after.last() == c);
        let ghost prev_rs = rs@;
        if c == sep {
            rs.push((piece, i));
            piece = i + 1;
            assert(chars@.subrange(piece as int, i + 1) =~= Seq::<char>::empty());
            assert(range_views(chars@, rs@) =~= range_views(chars@, prev_rs).push(
                chars@.subrange(rs@.last().0 as int, i as int),
            ));
            assert(range_views(chars@, rs@).push(chars@.subrange(piece as int, i + 1)) =~= split_on(
                after,
                sep,
            ));
        } else {
            let ghost prev = split_on(before, sep);
            assert(chars@.subrange(piece as int, i + 1) =~= chars@.subrange(
                piece as int,
                i as int,
            ).push(c));
            assert(range_views(chars@, rs@).push(chars@.subrange(piece as int, i + 1)) =~= prev.update(
                prev.len() - 1,
                prev.last().push(c),
            ));
        }
        i += 1;
    }
    let ghost closed = rs@;
    rs.push((piece, end));
    assert(range_views(chars@, rs@) =~= range_views(chars@, closed).push(
        chars@.subrange(piece as int, end as int),
    ));
    rs
}

/// The ranges of the lines of `chars[start..end]` (see `lines_of`).
pub fn line_ranges(chars: &Vec<char>, start: usize, end: usize) -> (rs: Vec<(usize, usize)>)
    requires
        start <= end <= chars@.len(),
    ensures
        range_views(chars@, rs@) == lines_of(chars@.subrange(start as int, end as int)),
        forall|k: int| 0 <= k < rs@.len() ==> start <= #[trigger] rs@[k].0 <= rs@[k].1 <= end,
{
    let parts = split_ranges(chars, start, end, '\n');
    let ghost s = chars@.subrange(start as int, end as int);
    let ghost pv = split_on(s, '\n');
    proof {
        lemma_split_on_nonempty(s, '\n');
    }
    let n = parts.len();
    let mut rs: Vec<(usize, usize)> = Vec::new();
    let mut k: usize = 0;
    while k + 1 < n
        invariant
            start <= end <= chars@.len(),
            s == chars@.subrange(start as int, end as int),
            1 <= n == parts@.len() == pv.len(),
            range_views(chars@, parts@) == pv,
            forall|j: int| 0 <= j < parts@.len() ==> start <= #[trigger] parts@[j].0 <= parts@[j].1 <= end,
            k + 1 <= n,
            rs@.len() == k,
            forall|j: int| 0 <= j < rs@.len() ==> start <= #[trigger] rs@[j].0 <= rs@[j].1 <= end,
            range_views(chars@, rs@) =~= pv.take(k as int).map_values(|p: Seq<char>| strip_cr(p)),
        decreases n - k,
    {
        let (a, b) = parts[k];
        assert(start <= parts@[k as int].0 <= parts@[k as int].1 <= end);
        assert(range_views(chars@, parts@)[k as int] == chars@.subrange(a as int, b as int));
        let ghost prev_rs = rs@;
        if a < b && chars[b - 1] == '\r' {
            rs.push((a, b - 1));
            assert(chars@.subrange(a as int, b - 1) =~= chars@.subrange(a as int, b as int).drop_last());
        } else {
            rs.push((a, b));
        }
        assert(range_views(chars@, rs@) =~= range_views(chars@, prev_rs).push(
            strip_cr(pv[k as int]),
        ));
        assert forall|j: int| 0 <= j < rs@.len() implies start <= #[trigger] rs@[j].0 <= rs@[j].1
            <= end by {
            if j < k {
                assert(rs@[j] == prev_rs[j]);
            }
        }
        assert(pv.take(k + 1).map_values(|p: Seq<char>| strip_cr(p)) =~= pv.take(
            k as int,
        ).map_values(|p: Seq<char>| strip_cr(p)).push(strip_cr(pv[k as int])));
        k += 1;
    }
    assert(pv.take(k as int) =~= pv.drop_last());
    let (a, b) = parts[n - 1];
    assert(start <= parts@[n - 1].0 <= parts@[n - 1].1 <= end);
    assert(range_views(chars@, parts@)[n - 1] == chars@.subrange(a as int, b as int));
    if a < b {
        let ghost prev_rs = rs@;
        rs.push((a, b));
        assert(range_views(chars@, rs@) =~= range_views(chars@, prev_rs).push(pv.last()));
        assert forall|j: int| 0 <= j < rs@.len() implies start <= #[trigger] rs@[j].0 <= rs@[j].1
            <= end by {
            if j < prev_rs.len() {
                assert(rs@[j] == prev_rs[j]);
            }
        }
    }
    rs
}

/// The index of the first `c` in `chars[start..end]`, if there is one.
pub fn find_char(chars: &Vec<char>, start: usize, end: usize, c: char) -> (r: Option<usize>)
    requires
        start <= end <= chars@.len(),
    ensures
        match r {
            Some(i) => start <= i < end && is_first_index(
                chars@.subrange(start as int, end as int),
                c,
                i - start,
            ),
            None => !has_char(chars@.subrange(start as int, end as int), c),
        },
{
    let ghost s = chars@.subrange(start as int, end as int);
    let mut i = start;
    while i < end
        invariant
            start <= i <= end <= chars@.len(),
            s == chars@.subrange(start as int, end as int),
            forall|j: int| 0 <= j < i - start ==> s[j] != c,
        decreases end - i,
    {
        if chars[i] == c {
            assert(s[i - start] == c);
            return Some(i);
        }
        i += 1;
    }
    assert forall|j: int| 0 <= j < s.len() implies s[j] != c by {}
    None
}

/// The range that is left of `chars[start..end]` without leading and trailing
/// whitespace (see `trim`).
pub fn trim_range(chars: &Vec<char>, start: usize, end: usize) -> (r: (usize, usize))
    requires
        start <= end <= chars@.len(),
    ensures
        start <= r.0 <= r.1 <= end,
        chars@.subrange(r.0 as int, r.1 as int) == trim(chars@.subrange(start as int, end as int)),
{
    let mut a = start;
    while a < end && char_is_whitespace(chars[a])
        invariant
            start <= a <= end <= chars@.len(),
            trim_start(chars@.subrange(a as int, end as int)) == trim_start(
                chars@.subrange(start as int, end as int),
            ),
        decreases end - a,
    {
        assert(chars@.subrange(a as int, end as int).drop_first() =~= chars@.subrange(
            a + 1,
            end as int,
        ));
        a += 1;
    }
    let mut b = end;
    while b > a && char_is_whitespace(chars[b - 1])
        invariant
            start <= a <= b <= end <= chars@.len(),
            trim_start(chars@.subrange(start as int, end as int)) == chars@.subrange(
                a as int,
                end as int,
            ),
            trim_end(chars@.subrange(a as int, b as int)) == trim_end(
                chars@.subrange(a as int, end as int),
            ),
        decreases b - a,
    {
        assert(chars@.subrange(a as int, b as int).drop_last() =~= chars@.subrange(
            a as int,
            b - 1,
        ));
        b -= 1;
    }
    (a, b)
}

} // verus!
