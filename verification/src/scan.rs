//! Placeholder-marker discovery.
//!
//! A marker is a substring of the form `{{identifier}}` where the
//! identifier is one or more ASCII alphanumeric bytes. The scanner
//! walks the document once, left to right, collecting every
//! non-overlapping match; matched regions are not rescanned.

use vstd::prelude::*;

verus! {

/// `b` is an ASCII alphanumeric byte.
pub open spec fn is_alnum(b: u8) -> bool {
    (48 <= b <= 57) || (65 <= b <= 90) || (97 <= b <= 122)
}

/// `s[i..j]` is a placeholder marker: `{{`, one or more ASCII
/// alphanumeric bytes, `}}`.
pub open spec fn marker_at(s: Seq<u8>, i: int, j: int) -> bool {
    &&& 0 <= i
    &&& i + 5 <= j <= s.len()
    &&& s[i] == 123 && s[i + 1] == 123
    &&& s[j - 2] == 125 && s[j - 1] == 125
    &&& forall|k: int| i + 2 <= k < j - 2 ==> is_alnum(s[k])
}

/// Some marker starts at position `i` of `s`.
pub open spec fn has_marker_at(s: Seq<u8>, i: int) -> bool {
    exists|j: int| marker_at(s, i, j)
}

/// The end of the marker that starts at position `i` of `s`.
pub open spec fn marker_end(s: Seq<u8>, i: int) -> int {
    choose|j: int| marker_at(s, i, j)
}

/// A marker that starts at a position ends at exactly one place: the
/// closing braces cannot sit anywhere else, because an identifier
/// byte is never a closing brace.
pub proof fn lemma_marker_end_unique(s: Seq<u8>, i: int, j1: int, j2: int)
    requires
        marker_at(s, i, j1),
        marker_at(s, i, j2),
    ensures
        j1 == j2,
{
    if j1 < j2 {
        assert(is_alnum(s[j1 - 2]));
    }
    if j2 < j1 {
        assert(is_alnum(s[j2 - 2]));
    }
}

/// The literal texts of all markers of `s` at or after position `i`,
/// in order, matched non-overlappingly left to right.
pub open spec fn matches_from(s: Seq<u8>, i: int) -> Seq<Seq<u8>>
    decreases s.len() - i,
    when 0 <= i
{
    if i >= s.len() {
        Seq::empty()
    } else if has_marker_at(s, i) {
        seq![s.subrange(i, marker_end(s, i))] + matches_from(s, marker_end(s, i))
    } else {
        matches_from(s, i + 1)
    }
}

/// The literal texts of all markers of `s`, in order of occurrence.
pub open spec fn markers_spec(s: Seq<u8>) -> Seq<Seq<u8>> {
    matches_from(s, 0)
}

/// `m` has the shape of a marker's literal text.
pub open spec fn is_marker_text(m: Seq<u8>) -> bool {
    &&& m.len() >= 5
    &&& m[0] == 123 && m[1] == 123
    &&& m[m.len() - 2] == 125 && m[m.len() - 1] == 125
    &&& forall|k: int| 2 <= k < m.len() - 2 ==> is_alnum(m[k])
}

/// The identifier inside a marker's literal text: the bytes between
/// the surrounding braces.
pub open spec fn ident_of(m: Seq<u8>) -> Seq<u8> {
    m.subrange(2, m.len() - 2)
}

/// Unfolding helper: at a position with no marker the scan moves one
/// byte to the right.
pub proof fn lemma_matches_from_step(s: Seq<u8>, i: int)
    requires
        0 <= i < s.len(),
        !has_marker_at(s, i),
    ensures
        matches_from(s, i) == matches_from(s, i + 1),
{
}

/// When `e` closes the maximal alphanumeric run that starts at
/// `i + 2`, any marker starting at `i` must end exactly at `e + 2`:
/// its closing braces can stand neither inside the run nor past its
/// first non-alphanumeric byte. The bytes at `e` and `e + 1` alone
/// decide whether a marker starts at `i`.
pub proof fn lemma_marker_end_determined(s: Seq<u8>, i: int, e: int)
    requires
        0 <= i,
        i + 2 <= e <= s.len(),
        forall|k: int| i + 2 <= k < e ==> is_alnum(s[k]),
        e < s.len() ==> !is_alnum(s[e]),
    ensures
        forall|j: int| marker_at(s, i, j) ==> j == e + 2,
{
    assert forall|j: int| marker_at(s, i, j) implies j == e + 2 by {
        if j - 2 < e {
            assert(is_alnum(s[j - 2]));
        }
        if j - 2 > e {
            assert(is_alnum(s[e]));
        }
    }
}

/// `b` is an ASCII alphanumeric byte.
pub fn is_alnum_byte(b: u8) -> (r: bool)
    ensures
        r == is_alnum(b),
{
    (48 <= b && b <= 57) || (65 <= b && b <= 90) || (97 <= b && b <= 122)
}

/// Finds every marker of `doc`, left to right, without rescanning
/// matched regions, and returns their literal texts in order.
pub fn find_markers(doc: &Vec<u8>) -> (ms: Vec<Vec<u8>>)
    ensures
        ms@.map_values(|m: Vec<u8>| m@) == markers_spec(doc@),
        forall|k: int| 0 <= k < ms@.len() ==> #[trigger] is_marker_text(ms@[k]@),
{
    let mut ms: Vec<Vec<u8>> = Vec::new();
    let mut i: usize = 0;
    while i < doc.len()
        invariant
            i <= doc@.len(),
            markers_spec(doc@) == ms@.map_values(|m: Vec<u8>| m@) + matches_from(doc@, i as int),
            forall|k: int| 0 <= k < ms@.len() ==> #[trigger] is_marker_text(ms@[k]@),
        decreases doc@.len() - i,
    {
        let mut matched = false;
        if doc.len() - i >= 5 && doc[i] == 123 && doc[i + 1] == 123 {
            let mut e: usize = i + 2;
            while e < doc.len() && is_alnum_byte(doc[e])
                invariant
                    i + 2 <= e <= doc@.len(),
                    forall|k: int| i + 2 <= k < e ==> is_alnum(doc@[k]),
                decreases doc@.len() - e,
            {
                e += 1;
            }
            proof {
                lemma_marker_end_determined(doc@, i as int, e as int);
            }
            if e > i + 2 && doc.len() - e >= 2 && doc[e] == 125 && doc[e + 1] == 125 {
                proof {
                    assert(marker_at(doc@, i as int, e + 2));
                    assert(marker_end(doc@, i as int) == e + 2);
                }
                let m = crate::subst::copy_range(doc, i, e + 2);
                proof {
                    assert(is_marker_text(m@)) by {
                        assert(forall|k: int|
                            2 <= k < m@.len() - 2 ==> m@[k] == doc@[i + k] && is_alnum(
                                doc@[i + k],
                            ));
                    }
                    assert((ms@.push(m)).map_values(|v: Vec<u8>| v@) =~= ms@.map_values(
                        |v: Vec<u8>| v@,
                    ).push(m@));
                    assert(seq![m@] + matches_from(doc@, e + 2) == matches_from(
                        doc@,
                        i as int,
                    ));
                }
                ms.push(m);
                i = e + 2;
                matched = true;
            } else {
                proof {
                    if has_marker_at(doc@, i as int) {
                        let j = marker_end(doc@, i as int);
                        assert(marker_at(doc@, i as int, j));
                        assert(j == e + 2);
                    }
                    assert(!has_marker_at(doc@, i as int));
                }
            }
        } else {
            proof {
                if has_marker_at(doc@, i as int) {
                    let j = marker_end(doc@, i as int);
                    assert(marker_at(doc@, i as int, j));
                }
                assert(!has_marker_at(doc@, i as int));
            }
        }
        if !matched {
            proof {
                lemma_matches_from_step(doc@, i as int);
            }
            i += 1;
        }
    }
    ms
}

/// The identifier of a marker: the literal text with the two leading
/// and the two trailing braces stripped.
pub fn extract_identifier(m: &Vec<u8>) -> (id: Vec<u8>)
    requires
        m@.len() >= 4,
    ensures
        id@ == ident_of(m@),
{
    crate::subst::copy_range(m, 2, m.len() - 2)
}

} // verus!
