//! Literal substring replacement.
//!
//! Substitution of rendered content for a marker is a textual
//! replacement of every non-overlapping occurrence of the marker's
//! literal bytes, scanning left to right; the replacement text is
//! never rescanned.

use vstd::prelude::*;

verus! {

/// `pat` occurs in `s` starting at position `i`.
pub open spec fn occurs_at(s: Seq<u8>, pat: Seq<u8>, i: int) -> bool {
    &&& 0 <= i
    &&& i + pat.len() <= s.len()
    &&& s.subrange(i, i + pat.len()) == pat
}

/// The result of replacing every non-overlapping occurrence of `pat`
/// in `s` by `rep`, scanning left to right and never rescanning the
/// replacement. An empty pattern replaces nothing.
pub open spec fn replace_all_spec(s: Seq<u8>, pat: Seq<u8>, rep: Seq<u8>) -> Seq<u8>
    decreases s.len(),
{
    if pat.len() == 0 || s.len() < pat.len() {
        s
    } else if s.subrange(0, pat.len() as int) == pat {
        rep + replace_all_spec(s.subrange(pat.len() as int, s.len() as int), pat, rep)
    } else {
        seq![s[0]] + replace_all_spec(s.subrange(1, s.len() as int), pat, rep)
    }
}

/// Copies `s[a..b]` into a fresh vector.
pub fn copy_range(s: &Vec<u8>, a: usize, b: usize) -> (out: Vec<u8>)
    requires
        a <= b <= s@.len(),
    ensures
        out@ == s@.subrange(a as int, b as int),
{
    let mut out: Vec<u8> = Vec::new();
    let mut k: usize = a;
    while k < b
        invariant
            a <= k <= b <= s@.len(),
            out@ == s@.subrange(a as int, k as int),
        decreases b - k,
    {
        out.push(s[k]);
        proof {
            assert(s@.subrange(a as int, k + 1 as int) =~= s@.subrange(a as int, k as int).push(
                s@[k as int],
            ));
        }
        k += 1;
    }
    out
}

/// Appends all of `src` to `dst`.
pub fn append_bytes(dst: &mut Vec<u8>, src: &Vec<u8>)
    ensures
        final(dst)@ == old(dst)@ + src@,
{
    let mut k: usize = 0;
    while k < src.len()
        invariant
            k <= src@.len(),
            dst@ == old(dst)@ + src@.subrange(0, k as int),
        decreases src@.len() - k,
    {
        dst.push(src[k]);
        proof {
            assert(old(dst)@ + src@.subrange(0, k + 1 as int) =~= (old(dst)@ + src@.subrange(
                0,
                k as int,
            )).push(src@[k as int]));
        }
        k += 1;
    }
    proof {
        assert(src@.subrange(0, src@.len() as int) =~= src@);
    }
}

/// Whether `s[i..i + pat.len()]` equals `pat`.
fn match_at(s: &Vec<u8>, i: usize, pat: &Vec<u8>) -> (r: bool)
    requires
        i + pat@.len() <= s@.len(),
    ensures
        r == occurs_at(s@, pat@, i as int),
{
    let slen = s.len();
    let plen = pat.len();
    let mut k: usize = 0;
    while k < plen
        invariant
            slen == s@.len(),
            plen == pat@.len(),
            i + plen <= slen,
            k <= plen,
            forall|j: int| 0 <= j < k ==> s@[i + j] == pat@[j],
        decreases plen - k,
    {
        if s[i + k] != pat[k] {
            proof {
                assert(s@.subrange(i as int, i + pat@.len())[k as int] == s@[i + k]);
            }
            return false;
        }
        k += 1;
    }
    proof {
        assert(s@.subrange(i as int, i + pat@.len()) =~= pat@);
    }
    true
}

/// Replaces every non-overlapping occurrence of `pat` in `s` by
/// `rep`, scanning left to right; occurrences that the replacement
/// text itself may form are not replaced.
pub fn replace_all(s: &Vec<u8>, pat: &Vec<u8>, rep: &Vec<u8>) -> (out: Vec<u8>)
    requires
        pat@.len() >= 1,
    ensures
        out@ == replace_all_spec(s@, pat@, rep@),
{
    let mut out: Vec<u8> = Vec::new();
    let mut i: usize = 0;
    proof {
        assert(s@.subrange(0, s@.len() as int) =~= s@);
        assert(Seq::<u8>::empty() + replace_all_spec(s@, pat@, rep@) =~= replace_all_spec(
            s@,
            pat@,
            rep@,
        ));
    }
    while i < s.len()
        invariant
            pat@.len() >= 1,
            i <= s@.len(),
            out@ + replace_all_spec(s@.subrange(i as int, s@.len() as int), pat@, rep@)
                == replace_all_spec(s@, pat@, rep@),
        decreases s@.len() - i,
    {
        let ghost suffix = s@.subrange(i as int, s@.len() as int);
        if s.len() - i >= pat.len() && match_at(s, i, pat) {
            append_bytes(&mut out, rep);
            proof {
                assert(suffix.subrange(0, pat@.len() as int) =~= s@.subrange(
                    i as int,
                    i + pat@.len(),
                ));
                assert(suffix.subrange(pat@.len() as int, suffix.len() as int) =~= s@.subrange(
                    i + pat@.len(),
                    s@.len() as int,
                ));
            }
            i += pat.len();
        } else {
            out.push(s[i]);
            proof {
                if pat@.len() <= suffix.len() {
                    assert(suffix.subrange(0, pat@.len() as int) =~= s@.subrange(
                        i as int,
                        i + pat@.len(),
                    ));
                }
                assert(suffix.subrange(1, suffix.len() as int) =~= s@.subrange(
                    i + 1,
                    s@.len() as int,
                ));
                assert(seq![suffix[0]] =~= seq![s@[i as int]]);
            }
            i += 1;
        }
    }
    proof {
        assert(s@.subrange(s@.len() as int, s@.len() as int) =~= Seq::<u8>::empty());
        assert(out@ + Seq::<u8>::empty() =~= out@);
    }
    out
}

} // verus!
