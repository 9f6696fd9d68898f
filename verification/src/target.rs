use vstd::prelude::*;
use crate::number::{parse_i64, parse_i64_spec};
use crate::text::{find, lemma_find_first_byte, lemma_find_skips, lemma_find_some};

verus! {

/// Why a target file name is refused.
#[derive(Debug, Clone, Copy, PartialEq, Eq, Structural)]
pub enum TargetNameError {
    /// The name has fewer than 4 bytes.
    TooShort,
    /// The name holds no `.`.
    NoExtension,
    /// Fewer than 3 bytes follow the last `.`.
    ExtensionTooShort,
    /// Fewer than 3 bytes stand before the first `.`.
    StemTooShort,
}

/// The index of the last `b` in `s`.
pub open spec fn last_index_of(s: Seq<u8>, b: u8) -> Option<int>
    decreases s.len(),
{
    if s.len() == 0 {
        None
    } else if s.last() == b {
        Some(s.len() - 1)
    } else {
        last_index_of(s.drop_last(), b)
    }
}

/// The verdict on a target file name: at least 4 bytes, a `.`, at least 3 bytes after the
/// last `.` and at least 3 bytes before the first one; the first failed test decides.
pub open spec fn target_name_verdict(name: Seq<u8>) -> Result<(), TargetNameError> {
    if name.len() < 4 {
        Err(TargetNameError::TooShort)
    } else if find(name, seq!['.' as u8]) is None {
        Err(TargetNameError::NoExtension)
    } else if name.len() - last_index_of(name, '.' as u8).unwrap() < 4 {
        Err(TargetNameError::ExtensionTooShort)
    } else if find(name, seq!['.' as u8]).unwrap() < 3 {
        Err(TargetNameError::StemTooShort)
    } else {
        Ok(())
    }
}

/// The index of the first `b` in `s`.
pub fn first_index_of_byte(s: &[u8], b: u8) -> (r: Option<usize>)
    ensures
        match r {
            Some(i) => find(s@, seq![b]) == Some(i as int),
            None => find(s@, seq![b]) is None,
        },
{
    let mut i: usize = 0;
    while i < s.len()
        invariant
            i <= s@.len(),
            forall|k: int| 0 <= k < i ==> s@[k] != b,
        decreases s@.len() - i,
    {
        if s[i] == b {
            proof {
                lemma_find_first_byte(s@, b, i as int);
            }
            return Some(i);
        }
        i = i + 1;
    }
    proof {
        lemma_find_skips(s@, b, i as int);
    }
    None
}

proof fn lemma_last_index(s: Seq<u8>, b: u8, j: int)
    requires
        0 <= j <= s.len(),
        forall|k: int| j <= k < s.len() ==> s[k] != b,
    ensures
        last_index_of(s, b) == last_index_of(s.take(j), b),
    decreases s.len() - j,
{
    if j < s.len() {
        assert(s.take(j + 1).drop_last() =~= s.take(j));
        lemma_last_index(s, b, j + 1);
    } else {
        assert(s.take(j) =~= s);
    }
}

/// The index of the last `b` in `s`.
pub fn last_index_of_byte(s: &[u8], b: u8) -> (r: Option<usize>)
    ensures
        match r {
            Some(i) => last_index_of(s@, b) == Some(i as int) && i < s@.len(),
            None => last_index_of(s@, b) is None,
        },
{
    let mut j: usize = s.len();
    while j > 0
        invariant
            j <= s@.len(),
            forall|k: int| j <= k < s@.len() ==> s@[k] != b,
        decreases j,
    {
        if s[j - 1] == b {
            proof {
                lemma_last_index(s@, b, j as int);
            }
            return Some(j - 1);
        }
        j = j - 1;
    }
    proof {
        lemma_last_index(s@, b, 0);
    }
    None
}

/// Checks a target file name; see `target_name_verdict`.
pub fn check_target_name(name: &[u8]) -> (r: Result<(), TargetNameError>)
    ensures
        r == target_name_verdict(name@),
{
    let len = name.len();
    if len < 4 {
        return Err(TargetNameError::TooShort);
    }
    let dot = '.' as u8;
    let first = match first_index_of_byte(name, dot) {
        Some(i) => i,
        None => {
            return Err(TargetNameError::NoExtension);
        },
    };
    let last = match last_index_of_byte(name, dot) {
        Some(i) => i,
        None => {
            proof {
                lemma_last_exists(name@, dot, first as int);
            }
            return Err(TargetNameError::NoExtension);
        },
    };
    if len - last < 4 {
        return Err(TargetNameError::ExtensionTooShort);
    }
    if first < 3 {
        return Err(TargetNameError::StemTooShort);
    }
    Ok(())
}

proof fn lemma_last_exists(s: Seq<u8>, b: u8, i: int)
    requires
        find(s, seq![b]) == Some(i),
    ensures
        last_index_of(s, b) is Some,
{
    lemma_find_some(s, b, 0);
    lemma_last_some(s, b, i);
}

proof fn lemma_last_some(s: Seq<u8>, b: u8, i: int)
    requires
        0 <= i < s.len(),
        s[i] == b,
    ensures
        last_index_of(s, b) is Some,
    decreases s.len(),
{
    if s.last() != b {
        lemma_last_some(s.drop_last(), b, i);
    }
}

/// The row limit given as `text`: the `i64` it reads as, where that is at least 10.
pub open spec fn row_limit_verdict(text: Seq<u8>) -> Option<i64> {
    match parse_i64_spec(text) {
        Some(n) if n >= 10 => Some(n),
        _ => None,
    }
}

/// Reads the number of rows after which the conversion stops.
pub fn parse_row_limit(text: &[u8]) -> (r: Option<i64>)
    ensures
        r == row_limit_verdict(text@),
{
    match parse_i64(text) {
        Some(n) => {
            if n >= 10 {
                Some(n)
            } else {
                None
            }
        },
        None => None,
    }
}


proof fn lemma_last_index_found(s: Seq<u8>, b: u8)
    requires
        last_index_of(s, b) is Some,
    ensures
        0 <= last_index_of(s, b).unwrap() < s.len(),
        s[last_index_of(s, b).unwrap()] == b,
    decreases s.len(),
{
    if s.last() != b {
        lemma_last_index_found(s.drop_last(), b);
    }
}

/// A name is accepted when it has at least 4 bytes and holds a `.` whose first
/// occurrence has at least 3 bytes before it and whose last occurrence has at least 3
/// bytes after it; nothing else bounds it.
pub proof fn law_target_name_accepted(name: Seq<u8>, first: int, last: int)
    requires
        name.len() >= 4,
        0 <= first <= last < name.len(),
        name[first] == '.' as u8,
        name[last] == '.' as u8,
        forall|k: int| 0 <= k < first ==> name[k] != '.' as u8,
        forall|k: int| last < k < name.len() ==> name[k] != '.' as u8,
        first >= 3,
        name.len() - last >= 4,
    ensures
        target_name_verdict(name) == Ok::<(), TargetNameError>(()),
{
    lemma_find_first_byte(name, '.' as u8, first);
    lemma_last_index(name, '.' as u8, last + 1);
    assert(name.take(last + 1).last() == '.' as u8);
}

/// A name is refused only for one of four reasons, each a fact about its bytes: fewer
/// than 4 bytes, no `.`, a `.` among its last 3 bytes, a `.` among its first 3 bytes.
pub proof fn law_target_name_refusals(name: Seq<u8>)
    ensures
        target_name_verdict(name) == Err::<(), TargetNameError>(TargetNameError::TooShort)
            <==> name.len() < 4,
        target_name_verdict(name) == Err::<(), TargetNameError>(TargetNameError::NoExtension)
            <==> name.len() >= 4 && forall|k: int| 0 <= k < name.len() ==> name[k] != '.' as u8,
        target_name_verdict(name) == Err::<(), TargetNameError>(
            TargetNameError::ExtensionTooShort,
        ) ==> exists|k: int| name.len() - 3 <= k < name.len() && name[k] == '.' as u8,
        target_name_verdict(name) == Err::<(), TargetNameError>(TargetNameError::StemTooShort)
            ==> exists|k: int| 0 <= k < 3 && k < name.len() && name[k] == '.' as u8,
{
    let dot = '.' as u8;
    if find(name, seq![dot]) is Some {
        lemma_find_some(name, dot, 0);
        let f = find(name, seq![dot]).unwrap();
        lemma_last_some(name, dot, f);
        lemma_last_index_found(name, dot);
        let l = last_index_of(name, dot).unwrap();
        assert(name[f] == dot);
        assert(name[l] == dot);
    } else {
        if exists|k: int| 0 <= k < name.len() && name[k] == dot {
            let k = choose|k: int| 0 <= k < name.len() && name[k] == dot;
            lemma_first_occurrence(name, dot, k);
        }
    }
}

proof fn lemma_first_occurrence(s: Seq<u8>, b: u8, k: int)
    requires
        0 <= k < s.len(),
        s[k] == b,
    ensures
        find(s, seq![b]) is Some,
    decreases k,
{
    if exists|j: int| 0 <= j < k && s[j] == b {
        let j = choose|j: int| 0 <= j < k && s[j] == b;
        lemma_first_occurrence(s, b, j);
    } else {
        lemma_find_first_byte(s, b, k);
    }
}

/// Every text that reads as a number of at least 10 gives that number as the row limit,
/// however large; every other text gives none.
pub proof fn law_row_limit(text: Seq<u8>)
    ensures
        forall|n: i64| parse_i64_spec(text) == Some(n) && n >= 10 ==> row_limit_verdict(text)
            == Some(n),
        row_limit_verdict(text) matches Some(n) ==> parse_i64_spec(text) == Some(n) && n >= 10,
{
}

/// The decimal text of any number from 10 up to `i64::MAX` is taken as that row limit.
pub proof fn law_row_limit_of_decimal(n: i64)
    requires
        n >= 10,
    ensures
        row_limit_verdict(crate::number::decimal(n as nat)) == Some(n),
{
    crate::number::lemma_decimal_parse_roundtrip(n);
}

} // verus!
