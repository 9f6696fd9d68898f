use vstd::prelude::*;

verus! {

/// Whether byte index `i` of `s` lies between two characters, as `str::is_char_boundary`
/// decides it: at the start, at the end, or at a byte that is no UTF-8 continuation byte.
pub open spec fn char_boundary(s: Seq<u8>, i: int) -> bool {
    i == 0 || i == s.len() || (0 <= i < s.len() && !(0x80 <= s[i] && s[i] < 0xC0))
}

/// Whether `s[a..b]` can be taken as a piece of text, as `str::get(a..b)` requires:
/// an ordered range inside `s` whose ends are character boundaries.
pub open spec fn can_slice(s: Seq<u8>, a: int, b: int) -> bool {
    0 <= a <= b <= s.len() && char_boundary(s, a) && char_boundary(s, b)
}

/// Whether `s` begins with `p`.
pub open spec fn starts_with(s: Seq<u8>, p: Seq<u8>) -> bool {
    p.len() <= s.len() && s.take(p.len() as int) == p
}

/// The first index at or after `i` where `needle` occurs in `hay`.
pub open spec fn find_from(hay: Seq<u8>, needle: Seq<u8>, i: int) -> Option<int>
    decreases hay.len() + 1 - i,
{
    if i < 0 || i + needle.len() > hay.len() {
        None
    } else if hay.subrange(i, i + needle.len()) == needle {
        Some(i)
    } else {
        find_from(hay, needle, i + 1)
    }
}

/// The first index where `needle` occurs in `hay`, as `str::find` gives it.
pub open spec fn find(hay: Seq<u8>, needle: Seq<u8>) -> Option<int> {
    find_from(hay, needle, 0)
}

/// A byte that occurs at `i` and nowhere before is found at `i`.
pub proof fn lemma_find_first_byte(s: Seq<u8>, b: u8, i: int)
    requires
        0 <= i < s.len(),
        s[i] == b,
        forall|k: int| 0 <= k < i ==> s[k] != b,
    ensures
        find(s, seq![b]) == Some(i),
{
    lemma_find_skips(s, b, i);
    assert(s.subrange(i, i + 1) =~= seq![b]);
}

/// Searching for a byte may skip a prefix that does not hold it.
pub proof fn lemma_find_skips(s: Seq<u8>, b: u8, i: int)
    requires
        0 <= i <= s.len(),
        forall|k: int| 0 <= k < i ==> s[k] != b,
    ensures
        find(s, seq![b]) == find_from(s, seq![b], i),
    decreases i,
{
    if i > 0 {
        lemma_find_skips(s, b, i - 1);
        assert(s.subrange(i - 1, i)[0] == s[i - 1]);
    }
}

/// Where a byte is found, that byte stands.
pub proof fn lemma_find_some(s: Seq<u8>, b: u8, i: int)
    requires
        0 <= i,
        find_from(s, seq![b], i) is Some,
    ensures
        ({
            let j = find_from(s, seq![b], i).unwrap();
            0 <= j < s.len() && s[j] == b
        }),
    decreases s.len() + 1 - i,
{
    if i + 1 <= s.len() && s.subrange(i, i + 1) == seq![b] {
        assert(s.subrange(i, i + 1)[0] == s[i]);
    } else if i + 1 <= s.len() {
        lemma_find_some(s, b, i + 1);
    }
}

/// A text that `hay` begins with is found at 0.
pub proof fn lemma_find_prefix(hay: Seq<u8>, needle: Seq<u8>)
    requires
        starts_with(hay, needle),
    ensures
        find(hay, needle) == Some(0int),
{
    assert(hay.subrange(0, needle.len() as int) =~= hay.take(needle.len() as int));
}

/// Whether `s` begins with `p`.
pub fn bytes_start_with(s: &[u8], p: &[u8]) -> (r: bool)
    ensures
        r == starts_with(s@, p@),
{
    if p.len() > s.len() {
        return false;
    }
    let mut i: usize = 0;
    while i < p.len()
        invariant
            p@.len() <= s@.len(),
            i <= p@.len(),
            forall|k: int| 0 <= k < i ==> s@[k] == p@[k],
        decreases p@.len() - i,
    {
        if s[i] != p[i] {
            assert(s@.take(p@.len() as int)[i as int] != p@[i as int]);
            return false;
        }
        i = i + 1;
    }
    assert(s@.take(p@.len() as int) =~= p@);
    true
}

fn matches_at(hay: &[u8], needle: &[u8], at: usize) -> (r: bool)
    requires
        at + needle@.len() <= hay@.len(),
    ensures
        r == (hay@.subrange(at as int, at + needle@.len()) == needle@),
{
    let limit = hay.len();
    let mut k: usize = 0;
    while k < needle.len()
        invariant
            limit == hay@.len(),
            at + needle@.len() <= hay@.len(),
            k <= needle@.len(),
            forall|j: int| 0 <= j < k ==> hay@[at + j] == needle@[j],
        decreases needle@.len() - k,
    {
        if hay[at + k] != needle[k] {
            assert(hay@.subrange(at as int, at + needle@.len())[k as int] != needle@[k as int]);
            return false;
        }
        k = k + 1;
    }
    assert(hay@.subrange(at as int, at + needle@.len()) =~= needle@);
    true
}

/// The first index where `needle` occurs in `hay`.
pub fn find_bytes(hay: &[u8], needle: &[u8]) -> (r: Option<usize>)
    ensures
        match r {
            Some(i) => {
                &&& find(hay@, needle@) == Some(i as int)
                &&& i + needle@.len() <= hay@.len()
                &&& hay@.subrange(i as int, i + needle@.len()) == needle@
            },
            None => find(hay@, needle@) is None,
        },
{
    if needle.len() > hay.len() {
        return None;
    }
    let last = hay.len() - needle.len();
    let mut i: usize = 0;
    loop
        invariant
            last + needle@.len() == hay@.len(),
            i <= last,
            find(hay@, needle@) == find_from(hay@, needle@, i as int),
        decreases last - i,
    {
        if matches_at(hay, needle, i) {
            return Some(i);
        }
        if i == last {
            assert(find_from(hay@, needle@, i + 1) is None);
            return None;
        }
        i = i + 1;
    }
}

/// Whether `b` is one of the ASCII white-space characters: tab, line feed, vertical tab,
/// form feed, carriage return or space.
pub open spec fn ascii_space(b: u8) -> bool {
    b == 0x20 || (0x09 <= b && b <= 0x0D)
}

/// Whether three bytes are the UTF-8 form of one of the three-byte white-space
/// characters: U+1680, U+2000 to U+200A, U+2028, U+2029, U+202F, U+205F, U+3000.
pub open spec fn wide_space(a: u8, b: u8, c: u8) -> bool {
    ||| (a == 0xE1 && b == 0x9A && c == 0x80)
    ||| (a == 0xE2 && b == 0x80 && ((0x80 <= c && c <= 0x8A) || c == 0xA8 || c == 0xA9
        || c == 0xAF))
    ||| (a == 0xE2 && b == 0x81 && c == 0x9F)
    ||| (a == 0xE3 && b == 0x80 && c == 0x80)
}

/// Whether two bytes are the UTF-8 form of U+0085 or U+00A0.
pub open spec fn narrow_space(a: u8, b: u8) -> bool {
    a == 0xC2 && (b == 0x85 || b == 0xA0)
}

/// The length of the white-space character that `s` begins with, or 0: the characters
/// that `char::is_whitespace` accepts, in their UTF-8 form.
pub open spec fn leading_space_width(s: Seq<u8>) -> int {
    if s.len() >= 1 && ascii_space(s[0]) {
        1
    } else if s.len() >= 2 && narrow_space(s[0], s[1]) {
        2
    } else if s.len() >= 3 && wide_space(s[0], s[1], s[2]) {
        3
    } else {
        0
    }
}

/// The length of the white-space character that `s` ends with, or 0.
pub open spec fn trailing_space_width(s: Seq<u8>) -> int {
    let n = s.len() as int;
    if n >= 1 && ascii_space(s[n - 1]) {
        1
    } else if n >= 2 && narrow_space(s[n - 2], s[n - 1]) {
        2
    } else if n >= 3 && wide_space(s[n - 3], s[n - 2], s[n - 1]) {
        3
    } else {
        0
    }
}

/// `s` without its leading white space.
pub open spec fn trim_start(s: Seq<u8>) -> Seq<u8>
    decreases s.len(),
{
    if leading_space_width(s) > 0 {
        trim_start(s.skip(leading_space_width(s)))
    } else {
        s
    }
}

/// `s` without its trailing white space.
pub open spec fn trim_end(s: Seq<u8>) -> Seq<u8>
    decreases s.len(),
{
    if trailing_space_width(s) > 0 {
        trim_end(s.take(s.len() - trailing_space_width(s)))
    } else {
        s
    }
}

/// `s` without leading and trailing white space, as `str::trim` gives it.
pub open spec fn trim(s: Seq<u8>) -> Seq<u8> {
    trim_end(trim_start(s))
}

proof fn lemma_trim_start_suffix(s: Seq<u8>)
    ensures
        exists|a: int| 0 <= a <= s.len() && trim_start(s) == s.skip(a),
        leading_space_width(trim_start(s)) == 0,
    decreases s.len(),
{
    let w = leading_space_width(s);
    if w > 0 {
        lemma_trim_start_suffix(s.skip(w));
        let a = choose|a: int| 0 <= a <= s.skip(w).len() && trim_start(s.skip(w)) == s.skip(w).skip(a);
        assert(s.skip(w).skip(a) =~= s.skip(w + a));
    } else {
        assert(s.skip(0) =~= s);
    }
}

proof fn lemma_trim_end_prefix(s: Seq<u8>)
    ensures
        exists|b: int| 0 <= b <= s.len() && trim_end(s) == s.take(b),
        trailing_space_width(trim_end(s)) == 0,
    decreases s.len(),
{
    let w = trailing_space_width(s);
    if w > 0 {
        let t = s.take(s.len() - w);
        lemma_trim_end_prefix(t);
        let b = choose|b: int| 0 <= b <= t.len() && trim_end(t) == t.take(b);
        assert(t.take(b) =~= s.take(b));
    } else {
        assert(s.take(s.len() as int) =~= s);
    }
}

proof fn lemma_leading_of_prefix(t: Seq<u8>, b: int)
    requires
        0 <= b <= t.len(),
        leading_space_width(t) == 0,
    ensures
        leading_space_width(t.take(b)) == 0,
{
}

/// Trimming leaves a piece of the text, cut out of it in one range, with no white-space
/// character at either end.
pub proof fn law_trim_shape(s: Seq<u8>)
    ensures
        exists|a: int, b: int| 0 <= a <= b <= s.len() && trim(s) == s.subrange(a, b),
        leading_space_width(trim(s)) == 0,
        trailing_space_width(trim(s)) == 0,
{
    lemma_trim_start_suffix(s);
    let a = choose|a: int| 0 <= a <= s.len() && trim_start(s) == s.skip(a);
    let t = trim_start(s);
    lemma_trim_end_prefix(t);
    let b = choose|b: int| 0 <= b <= t.len() && trim_end(t) == t.take(b);
    assert(t.take(b) =~= s.subrange(a, a + b));
    lemma_leading_of_prefix(t, b);
}

/// A text with no white-space character at either end is left as it is, and white space
/// in front of a text is all removed.
pub proof fn law_trim_keeps_and_removes(s: Seq<u8>)
    ensures
        leading_space_width(s) == 0 && trailing_space_width(s) == 0 ==> trim(s) == s,
        trim(seq![0x20u8] + s) == trim(s),
        trim(seq![0x09u8] + s) == trim(s),
        trim(seq![0xC2u8, 0xA0u8] + s) == trim(s),
        trim(seq![0xE3u8, 0x80u8, 0x80u8] + s) == trim(s),
{
    assert((seq![0x20u8] + s).skip(1) =~= s);
    assert((seq![0x09u8] + s).skip(1) =~= s);
    assert((seq![0xC2u8, 0xA0u8] + s).skip(2) =~= s);
    assert((seq![0xE3u8, 0x80u8, 0x80u8] + s).skip(3) =~= s);
}

fn leading_space_width_in(s: &[u8], lo: usize, hi: usize) -> (w: usize)
    requires
        lo <= hi <= s@.len(),
    ensures
        w == leading_space_width(s@.subrange(lo as int, hi as int)),
{
    let n = hi - lo;
    if n >= 1 && (s[lo] == 0x20u8 || (0x09u8 <= s[lo] && s[lo] <= 0x0Du8)) {
        1
    } else if n >= 2 && s[lo] == 0xC2u8 && (s[lo + 1] == 0x85u8 || s[lo + 1] == 0xA0u8) {
        2
    } else if n >= 3 && is_wide_space(s[lo], s[lo + 1], s[lo + 2]) {
        3
    } else {
        0
    }
}

fn trailing_space_width_in(s: &[u8], lo: usize, hi: usize) -> (w: usize)
    requires
        lo <= hi <= s@.len(),
    ensures
        w == trailing_space_width(s@.subrange(lo as int, hi as int)),
{
    let n = hi - lo;
    if n >= 1 && (s[hi - 1] == 0x20u8 || (0x09u8 <= s[hi - 1] && s[hi - 1] <= 0x0Du8)) {
        1
    } else if n >= 2 && s[hi - 2] == 0xC2u8 && (s[hi - 1] == 0x85u8 || s[hi - 1] == 0xA0u8) {
        2
    } else if n >= 3 && is_wide_space(s[hi - 3], s[hi - 2], s[hi - 1]) {
        3
    } else {
        0
    }
}

fn is_wide_space(a: u8, b: u8, c: u8) -> (r: bool)
    ensures
        r == wide_space(a, b, c),
{
    (a == 0xE1u8 && b == 0x9Au8 && c == 0x80u8) || (a == 0xE2u8 && b == 0x80u8 && ((0x80u8
        <= c && c <= 0x8Au8) || c == 0xA8u8 || c == 0xA9u8 || c == 0xAFu8)) || (a == 0xE2u8
        && b == 0x81u8 && c == 0x9Fu8) || (a == 0xE3u8 && b == 0x80u8 && c == 0x80u8)
}

/// `s` without leading and trailing white space.
pub fn trim_bytes(s: &[u8]) -> (r: &[u8])
    ensures
        r@ == trim(s@),
{
    let len = s.len();
    let mut lo: usize = 0;
    assert(s@.subrange(0, len as int) =~= s@);
    loop
        invariant
            lo <= len,
            len == s@.len(),
            trim_start(s@.subrange(lo as int, len as int)) == trim_start(s@),
        ensures
            lo <= len,
            leading_space_width(s@.subrange(lo as int, len as int)) == 0,
            trim_start(s@.subrange(lo as int, len as int)) == trim_start(s@),
        decreases len - lo,
    {
        let w = leading_space_width_in(s, lo, len);
        if w == 0 {
            break;
        }
        assert(s@.subrange(lo as int, len as int).skip(w as int) =~= s@.subrange(
            lo + w,
            len as int,
        ));
        lo = lo + w;
    }
    let mut hi: usize = len;
    loop
        invariant
            lo <= hi <= len,
            len == s@.len(),
            trim_end(s@.subrange(lo as int, hi as int)) == trim(s@),
        ensures
            lo <= hi <= len,
            trailing_space_width(s@.subrange(lo as int, hi as int)) == 0,
            trim_end(s@.subrange(lo as int, hi as int)) == trim(s@),
        decreases hi - lo,
    {
        let w = trailing_space_width_in(s, lo, hi);
        if w == 0 {
            break;
        }
        assert(s@.subrange(lo as int, hi as int).take(hi - lo - w) =~= s@.subrange(
            lo as int,
            hi - w,
        ));
        hi = hi - w;
    }
    vstd::slice::slice_subrange(s, lo, hi)
}

/// Appends `src[from..to]` to `out`.
pub fn push_range(out: &mut Vec<u8>, src: &[u8], from: usize, to: usize)
    requires
        from <= to <= src@.len(),
    ensures
        final(out)@ == old(out)@ + src@.subrange(from as int, to as int),
{
    let mut i: usize = from;
    while i < to
        invariant
            from <= i <= to <= src@.len(),
            out@ == old(out)@ + src@.subrange(from as int, i as int),
        decreases to - i,
    {
        out.push(src[i]);
        assert(src@.subrange(from as int, i + 1) =~= src@.subrange(from as int, i as int).push(
            src@[i as int],
        ));
        i = i + 1;
    }
}


/// The bytes of an ASCII text, one per character.
pub open spec fn ascii_bytes(s: Seq<char>) -> Seq<u8> {
    s.map_values(|c: char| c as u8)
}

/// The bytes of an ASCII string literal.
pub fn ascii_literal(lit: &str) -> (r: &[u8])
    requires
        vstd::string::is_ascii(lit),
    ensures
        r@ == ascii_bytes(lit@),
{
    proof {
        vstd::string::is_ascii_spec_bytes(lit);
    }
    let r = lit.as_bytes();
    assert(r@ =~= ascii_bytes(lit@));
    r
}

/// Whether `a` and `b` hold the same bytes.
pub fn bytes_equal(a: &[u8], b: &[u8]) -> (r: bool)
    ensures
        r == (a@ == b@),
{
    if a.len() != b.len() {
        return false;
    }
    let r = bytes_start_with(a, b);
    proof {
        assert(a@.take(b@.len() as int) =~= a@);
    }
    r
}

} // verus!
