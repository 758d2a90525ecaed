//! What filling guarantees, stated and proved once for all inputs.

use vstd::prelude::*;

use crate::dir::{loaded_text, lookup_spec, resolves, DirEntry};
use crate::engine::{fill_from, fill_spec, resolve_step};
use crate::render::html_of;
use crate::scan::{
    has_marker_at, ident_of, is_alnum, is_marker_text, lemma_marker_end_unique, marker_at,
    marker_end, markers_spec, matches_from,
};
use crate::subst::{occurs_at, replace_all_spec};

verus! {

/// No byte of `s` is an opening brace, so no marker can start in it.
pub open spec fn brace_free(s: Seq<u8>) -> bool {
    forall|p: int| 0 <= p < s.len() ==> s[p] != 123
}

/// `id` can stand inside a marker: one or more ASCII alphanumeric
/// bytes.
pub open spec fn is_identifier(id: Seq<u8>) -> bool {
    &&& id.len() >= 1
    &&& forall|k: int| 0 <= k < id.len() ==> is_alnum(id[k])
}

/// The literal marker text that carries `id`.
pub open spec fn marker_text_of(id: Seq<u8>) -> Seq<u8> {
    seq![123u8, 123u8] + id + seq![125u8, 125u8]
}

/// The literal marker texts of a list of identifiers.
pub open spec fn marker_texts(ids: Seq<Seq<u8>>) -> Seq<Seq<u8>> {
    Seq::new(ids.len(), |k: int| marker_text_of(ids[k]))
}

/// The rendered content each identifier of a list resolves to.
pub open spec fn rendered_texts(entries: Seq<DirEntry>, ids: Seq<Seq<u8>>) -> Seq<Seq<u8>> {
    Seq::new(ids.len(), |k: int| html_of(loaded_text(entries, ids[k])))
}

/// A document assembled from text segments with one part between
/// each pair of neighbouring segments.
pub open spec fn interleave(segs: Seq<Seq<u8>>, parts: Seq<Seq<u8>>) -> Seq<u8>
    decreases parts.len(),
{
    if segs.len() == 0 {
        Seq::empty()
    } else if parts.len() == 0 {
        segs[0]
    } else {
        segs[0] + parts[0] + interleave(segs.drop_first(), parts.drop_first())
    }
}

/// At and after a position past which no marker starts, the scan
/// reports nothing.
proof fn lemma_matches_from_empty(s: Seq<u8>, i: int)
    requires
        0 <= i,
        forall|a: int, b: int| !marker_at(s, a, b),
    ensures
        matches_from(s, i).len() == 0,
    decreases s.len() - i,
{
    if i < s.len() {
        assert(!has_marker_at(s, i));
        lemma_matches_from_empty(s, i + 1);
    }
}

/// A fold whose every match fails to resolve changes nothing.
proof fn lemma_fill_from_unresolved(acc: Seq<u8>, ms: Seq<Seq<u8>>, entries: Seq<DirEntry>)
    requires
        forall|k: int|
            0 <= k < ms.len() ==> !(#[trigger] lookup_spec(entries, ident_of(ms[k]))
                matches Some(Ok(_))),
    ensures
        fill_from(acc, ms, entries) == acc,
    decreases ms.len(),
{
    if ms.len() > 0 {
        assert(resolve_step(acc, ms[0], entries) == acc);
        assert(forall|k: int|
            0 <= k < ms.drop_first().len() ==> ms.drop_first()[k] == ms[k + 1]);
        lemma_fill_from_unresolved(acc, ms.drop_first(), entries);
    }
}

/// Identity on a document without markers: where the marker pattern
/// matches nowhere, filling returns the document unchanged, whatever
/// the directory holds.
pub proof fn lemma_fill_identity_no_markers(doc: Seq<u8>, entries: Seq<DirEntry>)
    requires
        forall|a: int, b: int| !marker_at(doc, a, b),
    ensures
        fill_spec(doc, entries) == doc,
{
    lemma_matches_from_empty(doc, 0);
}

/// Missing content leaves every marker literal: when no marker's
/// identifier resolves to readable text, filling returns the
/// document unchanged.
pub proof fn lemma_fill_identity_nothing_resolves(doc: Seq<u8>, entries: Seq<DirEntry>)
    requires
        forall|k: int|
            0 <= k < markers_spec(doc).len() ==> !(#[trigger] lookup_spec(
                entries,
                ident_of(markers_spec(doc)[k]),
            ) matches Some(Ok(_))),
    ensures
        fill_spec(doc, entries) == doc,
{
    lemma_fill_from_unresolved(doc, markers_spec(doc), entries);
}

/// A non-alphanumeric identifier is never matched: the document
/// `{{na-me}}` is filled to itself whatever the directory holds,
/// because the hyphen keeps its braces from forming a marker.
pub proof fn lemma_hyphen_identifier_not_matched(entries: Seq<DirEntry>)
    ensures
        fill_spec(seq![123u8, 123u8, 110u8, 97u8, 45u8, 109u8, 101u8, 125u8, 125u8], entries)
            == seq![123u8, 123u8, 110u8, 97u8, 45u8, 109u8, 101u8, 125u8, 125u8],
{
    let doc = seq![123u8, 123u8, 110u8, 97u8, 45u8, 109u8, 101u8, 125u8, 125u8];
    assert forall|a: int, b: int| !marker_at(doc, a, b) by {
        if marker_at(doc, a, b) {
            assert(doc[a] == 123 && doc[a + 1] == 123);
            assert(a == 0);
            assert(doc[b - 2] == 125 && doc[b - 1] == 125);
            assert(b == 9);
            assert(is_alnum(doc[4]));
            assert(false);
        }
    }
    lemma_fill_identity_no_markers(doc, entries);
}

/// A marker of a suffix is a marker of the whole, shifted.
proof fn lemma_marker_at_shift(s: Seq<u8>, c: int, i: int, j: int)
    requires
        0 <= c <= i,
        c <= s.len(),
    ensures
        marker_at(s, i, j) <==> marker_at(s.skip(c), i - c, j - c),
{
    if marker_at(s, i, j) {
        assert forall|k: int| i - c + 2 <= k < j - c - 2 implies is_alnum(s.skip(c)[k]) by {
            assert(is_alnum(s[k + c]));
        }
        assert(marker_at(s.skip(c), i - c, j - c));
    }
    if marker_at(s.skip(c), i - c, j - c) {
        assert forall|k: int| i + 2 <= k < j - 2 implies is_alnum(s[k]) by {
            assert(is_alnum(s.skip(c)[k - c]));
        }
        assert(marker_at(s, i, j));
    }
}

/// Scanning from a position is scanning the suffix that starts
/// there.
proof fn lemma_matches_from_shift(s: Seq<u8>, c: int, i: int)
    requires
        0 <= c <= i,
        c <= s.len(),
    ensures
        matches_from(s, i) == matches_from(s.skip(c), i - c),
    decreases s.len() - i,
{
    if i >= s.len() {
    } else if has_marker_at(s, i) {
        let j = marker_end(s, i);
        assert(marker_at(s, i, j));
        lemma_marker_at_shift(s, c, i, j);
        assert(has_marker_at(s.skip(c), i - c));
        let j2 = marker_end(s.skip(c), i - c);
        assert(marker_at(s.skip(c), i - c, j2));
        lemma_marker_at_shift(s, c, i, j2 + c);
        lemma_marker_end_unique(s, i, j, j2 + c);
        assert(s.subrange(i, j) =~= s.skip(c).subrange(i - c, j - c));
        lemma_matches_from_shift(s, c, j);
    } else {
        if has_marker_at(s.skip(c), i - c) {
            let j2 = marker_end(s.skip(c), i - c);
            assert(marker_at(s.skip(c), i - c, j2));
            lemma_marker_at_shift(s, c, i, j2 + c);
            assert(false);
        }
        lemma_matches_from_shift(s, c, i + 1);
    }
}

/// Scanning skips over a stretch that holds no opening brace.
proof fn lemma_scan_skips_brace_free(s: Seq<u8>, i: int, c: int)
    requires
        0 <= i <= c <= s.len(),
        forall|p: int| i <= p < c ==> s[p] != 123,
    ensures
        matches_from(s, i) == matches_from(s, c),
    decreases c - i,
{
    if i < c {
        assert(!has_marker_at(s, i)) by {
            if has_marker_at(s, i) {
                let j = marker_end(s, i);
                assert(marker_at(s, i, j));
                assert(s[i] == 123);
            }
        }
        lemma_scan_skips_brace_free(s, i + 1, c);
    }
}

/// The scan of an interleaving of brace-free segments and markers
/// with well-formed identifiers reports exactly those markers, in
/// order.
proof fn lemma_scan_interleave(segs: Seq<Seq<u8>>, ids: Seq<Seq<u8>>)
    requires
        segs.len() == ids.len() + 1,
        forall|t: int| 0 <= t < segs.len() ==> brace_free(#[trigger] segs[t]),
        forall|t: int| 0 <= t < ids.len() ==> is_identifier(#[trigger] ids[t]),
    ensures
        markers_spec(interleave(segs, marker_texts(ids))) == marker_texts(ids),
    decreases ids.len(),
{
    let doc = interleave(segs, marker_texts(ids));
    if ids.len() == 0 {
        assert(doc == segs[0]);
        assert(brace_free(segs[0]));
        lemma_scan_skips_brace_free(doc, 0, doc.len() as int);
        assert(matches_from(doc, doc.len() as int).len() == 0);
        assert(markers_spec(doc) =~= marker_texts(ids));
    } else {
        let seg0 = segs[0];
        let m0 = marker_text_of(ids[0]);
        let id0 = ids[0];
        assert(marker_texts(ids)[0] == m0);
        assert(marker_texts(ids).drop_first() =~= marker_texts(ids.drop_first()));
        let tail = interleave(segs.drop_first(), marker_texts(ids.drop_first()));
        assert(doc == seg0 + m0 + tail);
        let s0 = seg0.len() as int;
        let e0 = s0 + m0.len();

        // no marker starts inside the brace-free first segment
        assert(forall|p: int| 0 <= p < s0 ==> doc[p] != 123);
        lemma_scan_skips_brace_free(doc, 0, s0);

        // the marker of the first identifier starts right after it
        assert(marker_at(doc, s0, e0)) by {
            assert(doc[s0] == m0[0] && m0[0] == 123);
            assert(doc[s0 + 1] == m0[1] && m0[1] == 123);
            assert(doc[e0 - 2] == m0[m0.len() - 2] && m0[m0.len() - 2] == 125);
            assert(doc[e0 - 1] == m0[m0.len() - 1] && m0[m0.len() - 1] == 125);
            assert forall|k: int| s0 + 2 <= k < e0 - 2 implies is_alnum(doc[k]) by {
                assert(doc[k] == m0[k - s0]);
                assert(m0[k - s0] == id0[k - s0 - 2]);
                assert(is_alnum(id0[k - s0 - 2]));
            }
        }
        assert(has_marker_at(doc, s0));
        let j = marker_end(doc, s0);
        assert(marker_at(doc, s0, j));
        lemma_marker_end_unique(doc, s0, j, e0);
        assert(matches_from(doc, s0) == seq![doc.subrange(s0, e0)] + matches_from(doc, e0));
        assert(doc.subrange(s0, e0) =~= m0);

        // what follows the marker is scanned as the interleaving of
        // the remaining segments and markers
        lemma_matches_from_shift(doc, e0, e0);
        assert(doc.skip(e0) =~= tail);
        lemma_scan_interleave(segs.drop_first(), ids.drop_first());
        assert(markers_spec(doc) =~= marker_texts(ids));
    }
}

/// Replacement is the identity on a text in which the pattern never
/// occurs.
proof fn lemma_replace_all_absent(s: Seq<u8>, pat: Seq<u8>, rep: Seq<u8>)
    requires
        pat.len() >= 1,
        forall|q: int| !occurs_at(s, pat, q),
    ensures
        replace_all_spec(s, pat, rep) == s,
    decreases s.len(),
{
    if s.len() < pat.len() {
    } else if s.subrange(0, pat.len() as int) == pat {
        assert(occurs_at(s, pat, 0));
    } else {
        assert forall|q: int| !occurs_at(s.subrange(1, s.len() as int), pat, q) by {
            if occurs_at(s.subrange(1, s.len() as int), pat, q) {
                assert(s.subrange(q + 1, q + 1 + pat.len()) =~= s.subrange(
                    1,
                    s.len() as int,
                ).subrange(q, q + pat.len()));
                assert(occurs_at(s, pat, q + 1));
            }
        }
        lemma_replace_all_absent(s.subrange(1, s.len() as int), pat, rep);
        assert(seq![s[0]] + s.subrange(1, s.len() as int) =~= s);
    }
}

/// Replacement walks over a prefix in which the pattern never starts.
proof fn lemma_replace_all_past_prefix(a: Seq<u8>, t: Seq<u8>, pat: Seq<u8>, rep: Seq<u8>)
    requires
        pat.len() >= 1,
        forall|q: int| 0 <= q < a.len() ==> !occurs_at(a + t, pat, q),
    ensures
        replace_all_spec(a + t, pat, rep) == a + replace_all_spec(t, pat, rep),
    decreases a.len(),
{
    let s = a + t;
    if a.len() == 0 {
        assert(a + t =~= t);
        assert(a + replace_all_spec(t, pat, rep) =~= replace_all_spec(t, pat, rep));
    } else if s.len() < pat.len() {
        assert(t.len() < pat.len());
    } else {
        assert(!(s.subrange(0, pat.len() as int) == pat)) by {
            if s.subrange(0, pat.len() as int) == pat {
                assert(occurs_at(s, pat, 0));
            }
        }
        let a1 = a.drop_first();
        let s1 = a1 + t;
        assert(s1 =~= s.subrange(1, s.len() as int));
        assert forall|q: int| 0 <= q < a1.len() implies !occurs_at(s1, pat, q) by {
            if occurs_at(s1, pat, q) {
                assert(s.subrange(q + 1, q + 1 + pat.len()) =~= s1.subrange(q, q + pat.len()));
                assert(occurs_at(s, pat, q + 1));
            }
        }
        lemma_replace_all_past_prefix(a1, t, pat, rep);
        assert(seq![s[0]] + (a1 + replace_all_spec(t, pat, rep)) =~= a + replace_all_spec(
            t,
            pat,
            rep,
        ));
    }
}

/// A well-formed identifier's marker text has the marker shape, and
/// stripping the braces gives the identifier back.
proof fn lemma_marker_text_wf(id: Seq<u8>)
    requires
        is_identifier(id),
    ensures
        is_marker_text(marker_text_of(id)),
        ident_of(marker_text_of(id)) == id,
{
    let m = marker_text_of(id);
    assert(m.len() == id.len() + 4);
    assert forall|k: int| 2 <= k < m.len() - 2 implies is_alnum(m[k]) by {
        assert(m[k] == id[k - 2]);
        assert(is_alnum(id[k - 2]));
    }
    assert(ident_of(m) =~= id);
}

/// In an interleaving of brace-free segments with parts that are
/// each brace-free or a whole marker, a marker's literal text occurs
/// nowhere unless it is one of those parts: an occurrence would need
/// an opening brace, and every opening brace sits at the head of one
/// of the marker parts, where any marker other than that part itself
/// disagrees with the bytes that follow.
proof fn lemma_no_marker_occurrence(segs: Seq<Seq<u8>>, parts: Seq<Seq<u8>>, x: Seq<u8>)
    requires
        segs.len() == parts.len() + 1,
        forall|t: int| 0 <= t < segs.len() ==> brace_free(#[trigger] segs[t]),
        forall|t: int|
            0 <= t < parts.len() ==> brace_free(#[trigger] parts[t]) || is_marker_text(parts[t]),
        is_marker_text(x),
        forall|t: int| 0 <= t < parts.len() ==> #[trigger] parts[t] != x,
    ensures
        forall|q: int| !occurs_at(interleave(segs, parts), x, q),
    decreases parts.len(),
{
    let s = interleave(segs, parts);
    if parts.len() == 0 {
        assert(s == segs[0]);
        assert(brace_free(segs[0]));
        assert forall|q: int| !occurs_at(s, x, q) by {
            if occurs_at(s, x, q) {
                assert(s.subrange(q, q + x.len())[0] == s[q]);
                assert(s[q] == x[0]);
            }
        }
    } else {
        let seg0 = segs[0];
        let p0 = parts[0];
        let rest = interleave(segs.drop_first(), parts.drop_first());
        assert(s == seg0 + p0 + rest);
        let l0 = seg0.len() as int;
        let l1 = p0.len() as int;
        assert(brace_free(segs[0]));
        assert(brace_free(parts[0]) || is_marker_text(parts[0]));
        assert(parts[0] != x);
        assert forall|t: int|
            0 <= t < parts.drop_first().len() implies (brace_free(
            #[trigger] parts.drop_first()[t],
        ) || is_marker_text(parts.drop_first()[t])) && parts.drop_first()[t] != x by {
            assert(parts.drop_first()[t] == parts[t + 1]);
            assert(brace_free(parts[t + 1]) || is_marker_text(parts[t + 1]));
            assert(parts[t + 1] != x);
        }
        assert forall|t: int| 0 <= t < segs.drop_first().len() implies brace_free(
            #[trigger] segs.drop_first()[t],
        ) by {
            assert(segs.drop_first()[t] == segs[t + 1]);
            assert(brace_free(segs[t + 1]));
        }
        lemma_no_marker_occurrence(segs.drop_first(), parts.drop_first(), x);
        assert forall|q: int| !occurs_at(s, x, q) by {
            if occurs_at(s, x, q) {
                assert forall|y: int| 0 <= y < x.len() implies s[q + y] == x[y] by {
                    assert(s.subrange(q, q + x.len())[y] == s[q + y]);
                }
                assert(x[0] == 123);
                if q < l0 {
                    assert(s[q] == seg0[q]);
                    assert(seg0[q] != 123);
                    assert(false);
                } else if q < l0 + l1 {
                    let o = q - l0;
                    if brace_free(p0) {
                        assert(s[q] == p0[o]);
                        assert(p0[o] != 123);
                        assert(false);
                    } else {
                        if o == 0 {
                            if x.len() == p0.len() {
                                assert forall|y: int| 0 <= y < x.len() implies x[y] == p0[y] by {
                                    assert(s[q + y] == p0[o + y]);
                                }
                                assert(x =~= p0);
                                assert(false);
                            } else if x.len() < p0.len() {
                                let y: int = x.len() - 2;
                                assert(x[y] == 125);
                                assert(s[q + y] == p0[o + y]);
                                assert(is_alnum(p0[y]));
                                assert(false);
                            } else {
                                let y: int = p0.len() - 2;
                                assert(p0[y] == 125);
                                assert(s[q + y] == p0[o + y]);
                                assert(is_alnum(x[y]));
                                assert(false);
                            }
                        } else if o == 1 {
                            assert(x[1] == 123);
                            assert(s[q + 1] == p0[o + 1]);
                            assert(is_alnum(p0[2]));
                            assert(false);
                        } else {
                            assert(s[q] == p0[o]);
                            if o < l1 - 2 {
                                assert(is_alnum(p0[o]));
                            } else {
                                assert(p0[o] == 125);
                            }
                            assert(false);
                        }
                    }
                } else {
                    let q2 = q - (l0 + l1);
                    assert forall|y: int| 0 <= y < x.len() implies rest[q2 + y] == x[y] by {
                        assert(s[q + y] == rest[q + y - (l0 + l1)]);
                    }
                    assert(rest.subrange(q2, q2 + x.len()) =~= x);
                    assert(occurs_at(rest, x, q2));
                    assert(false);
                }
            }
        }
    }
}

/// Replacement takes the pattern standing at the head and goes on
/// behind it.
proof fn lemma_replace_all_at_head(pat: Seq<u8>, t: Seq<u8>, rep: Seq<u8>)
    requires
        pat.len() >= 1,
    ensures
        replace_all_spec(pat + t, pat, rep) == rep + replace_all_spec(t, pat, rep),
{
    let s = pat + t;
    assert(s.subrange(0, pat.len() as int) =~= pat);
    assert(s.subrange(pat.len() as int, s.len() as int) =~= t);
}

/// Growing the first segment on the left shifts the whole
/// interleaving by the same text.
proof fn lemma_interleave_prepend(a: Seq<u8>, segs: Seq<Seq<u8>>, parts: Seq<Seq<u8>>)
    requires
        segs.len() >= 1,
    ensures
        interleave(seq![a + segs[0]] + segs.drop_first(), parts) == a + interleave(segs, parts),
{
    let segs2 = seq![a + segs[0]] + segs.drop_first();
    assert(segs2[0] == a + segs[0]);
    if parts.len() == 0 {
        assert(interleave(segs2, parts) == a + interleave(segs, parts));
    } else {
        assert(segs2.drop_first() =~= segs.drop_first());
        assert((a + segs[0]) + parts[0] + interleave(segs.drop_first(), parts.drop_first()) =~= a
            + (segs[0] + parts[0] + interleave(segs.drop_first(), parts.drop_first())));
    }
}

/// The fold over the markers of an interleaved document, segment by
/// segment: each marker's single occurrence is replaced by its
/// rendered content and everything else is left standing.
proof fn lemma_fill_interleave(segs: Seq<Seq<u8>>, ids: Seq<Seq<u8>>, entries: Seq<DirEntry>)
    requires
        segs.len() == ids.len() + 1,
        forall|t: int| 0 <= t < segs.len() ==> brace_free(#[trigger] segs[t]),
        forall|t: int| 0 <= t < ids.len() ==> is_identifier(#[trigger] ids[t]),
        forall|t1: int, t2: int| 0 <= t1 < t2 < ids.len() ==> ids[t1] != ids[t2],
        forall|t: int| 0 <= t < ids.len() ==> #[trigger] resolves(entries, ids[t]),
        forall|t: int|
            0 <= t < ids.len() ==> brace_free(html_of(loaded_text(entries, #[trigger] ids[t]))),
    ensures
        fill_from(interleave(segs, marker_texts(ids)), marker_texts(ids), entries) == interleave(
            segs,
            rendered_texts(entries, ids),
        ),
    decreases ids.len(),
{
    let ms = marker_texts(ids);
    let doc = interleave(segs, ms);
    if ids.len() == 0 {
        assert(doc == segs[0]);
        assert(interleave(segs, rendered_texts(entries, ids)) == segs[0]);
    } else {
        let seg0 = segs[0];
        let id0 = ids[0];
        let m0 = marker_text_of(id0);
        assert(is_identifier(id0));
        lemma_marker_text_wf(id0);
        assert(resolves(entries, id0));
        let r0 = html_of(loaded_text(entries, id0));
        assert(brace_free(r0));
        assert(ms[0] == m0);
        assert(ms.drop_first() =~= marker_texts(ids.drop_first()));
        let tail = interleave(segs.drop_first(), marker_texts(ids.drop_first()));
        assert(doc == seg0 + m0 + tail);
        assert(brace_free(segs[0]));

        // the first fold step replaces exactly the first marker
        assert forall|q: int| 0 <= q < seg0.len() implies !occurs_at(doc, m0, q) by {
            if occurs_at(doc, m0, q) {
                assert(doc.subrange(q, q + m0.len())[0] == doc[q]);
                assert(doc[q] == m0[0]);
                assert(m0[0] == 123);
                assert(doc[q] == seg0[q]);
                assert(seg0[q] != 123);
            }
        }
        let t0 = m0 + tail;
        assert(doc =~= seg0 + t0);
        assert forall|q: int| 0 <= q < seg0.len() implies !occurs_at(seg0 + t0, m0, q) by {
            assert(!occurs_at(doc, m0, q));
        }
        lemma_replace_all_past_prefix(seg0, t0, m0, r0);
        lemma_replace_all_at_head(m0, tail, r0);
        assert forall|t: int|
            0 <= t < marker_texts(ids.drop_first()).len() implies is_marker_text(
            #[trigger] marker_texts(ids.drop_first())[t],
        ) && marker_texts(ids.drop_first())[t] != m0 by {
            let idt = ids.drop_first()[t];
            assert(idt == ids[t + 1]);
            assert(is_identifier(idt));
            lemma_marker_text_wf(idt);
            assert(marker_texts(ids.drop_first())[t] == marker_text_of(idt));
            if marker_text_of(idt) == m0 {
                assert(ident_of(marker_text_of(idt)) == ident_of(m0));
                assert(idt == id0);
                assert(ids[0] != ids[t + 1]);
            }
        }
        assert forall|t: int| 0 <= t < segs.drop_first().len() implies brace_free(
            #[trigger] segs.drop_first()[t],
        ) by {
            assert(segs.drop_first()[t] == segs[t + 1]);
        }
        lemma_no_marker_occurrence(segs.drop_first(), marker_texts(ids.drop_first()), m0);
        lemma_replace_all_absent(tail, m0, r0);
        assert(replace_all_spec(doc, m0, r0) == seg0 + (r0 + tail));

        // that step is what the fold performs on this match
        assert(ident_of(m0) == id0);
        assert(resolve_step(doc, ms[0], entries) == seg0 + (r0 + tail));

        // the remaining fold is the same fold over the remaining
        // markers, with the rendered first marker absorbed into the
        // first segment
        let segsd = segs.drop_first();
        let a = seg0 + r0;
        let segs1 = seq![a + segsd[0]] + segsd.drop_first();
        assert forall|t: int| 0 <= t < segs1.len() implies brace_free(#[trigger] segs1[t]) by {
            if t == 0 {
                assert(segs1[0] == a + segsd[0]);
                assert(segsd[0] == segs[1]);
                assert(brace_free(segs[1]));
                assert forall|p: int| 0 <= p < segs1[0].len() implies segs1[0][p] != 123 by {
                    if p < seg0.len() {
                        assert(segs1[0][p] == seg0[p]);
                    } else if p < seg0.len() + r0.len() {
                        assert(segs1[0][p] == r0[p - seg0.len()]);
                    } else {
                        assert(segs1[0][p] == segs[1][p - seg0.len() - r0.len()]);
                    }
                }
            } else {
                assert(segs1[t] == segsd.drop_first()[t - 1]);
                assert(segsd.drop_first()[t - 1] == segs[t + 1]);
                assert(brace_free(segs[t + 1]));
            }
        }
        let idsd = ids.drop_first();
        assert forall|t: int| 0 <= t < idsd.len() implies is_identifier(#[trigger] idsd[t])
            && resolves(entries, idsd[t]) && brace_free(html_of(loaded_text(entries, idsd[t])))
            by {
            assert(idsd[t] == ids[t + 1]);
            assert(is_identifier(ids[t + 1]));
            assert(resolves(entries, ids[t + 1]));
            assert(brace_free(html_of(loaded_text(entries, ids[t + 1]))));
        }
        assert forall|t1: int, t2: int| 0 <= t1 < t2 < idsd.len() implies idsd[t1] != idsd[t2] by {
            assert(idsd[t1] == ids[t1 + 1]);
            assert(idsd[t2] == ids[t2 + 1]);
        }
        lemma_fill_interleave(segs1, idsd, entries);
        lemma_interleave_prepend(a, segsd, marker_texts(idsd));
        lemma_interleave_prepend(a, segsd, rendered_texts(entries, idsd));
        assert(segs1 == seq![a + segsd[0]] + segsd.drop_first());
        assert(interleave(segs1, marker_texts(idsd)) == a + tail);
        assert(seg0 + (r0 + tail) =~= a + tail);
        assert(fill_from(doc, ms, entries) == fill_from(
            interleave(segs1, marker_texts(idsd)),
            marker_texts(idsd),
            entries,
        )) by {
            assert(fill_from(doc, ms, entries) == fill_from(
                resolve_step(doc, ms[0], entries),
                ms.drop_first(),
                entries,
            ));
            assert(ms.drop_first() == marker_texts(idsd));
            assert(resolve_step(doc, ms[0], entries) == interleave(segs1, marker_texts(idsd)));
        }
        assert(fill_from(doc, ms, entries) == interleave(segs1, rendered_texts(entries, idsd)));

        // put the first rendered marker back as its own part
        let rs = rendered_texts(entries, ids);
        assert(rs[0] == r0);
        assert(rs.drop_first() =~= rendered_texts(entries, idsd));
        assert(interleave(segs, rs) == seg0 + rs[0] + interleave(segsd, rs.drop_first()));
        assert(interleave(segs1, rendered_texts(entries, idsd)) == a + interleave(
            segsd,
            rendered_texts(entries, idsd),
        ));
        assert(seg0 + r0 + interleave(segsd, rendered_texts(entries, idsd)) =~= a + interleave(
            segsd,
            rendered_texts(entries, idsd),
        ));
    }
}

/// `n` copies of the same text.
pub open spec fn repeated(x: Seq<u8>, n: nat) -> Seq<Seq<u8>> {
    Seq::new(n, |k: int| x)
}

/// Replacing a marker in an interleaving whose parts are all that
/// marker replaces every part at once and nothing else.
proof fn lemma_replace_all_interleave_same(
    segs: Seq<Seq<u8>>,
    parts: Seq<Seq<u8>>,
    m: Seq<u8>,
    r: Seq<u8>,
)
    requires
        segs.len() == parts.len() + 1,
        forall|t: int| 0 <= t < segs.len() ==> brace_free(#[trigger] segs[t]),
        forall|t: int| 0 <= t < parts.len() ==> #[trigger] parts[t] == m,
        is_marker_text(m),
    ensures
        replace_all_spec(interleave(segs, parts), m, r) == interleave(
            segs,
            repeated(r, parts.len()),
        ),
    decreases parts.len(),
{
    let doc = interleave(segs, parts);
    if parts.len() == 0 {
        assert(doc == segs[0]);
        assert(brace_free(segs[0]));
        assert forall|q: int| !occurs_at(doc, m, q) by {
            if occurs_at(doc, m, q) {
                assert(doc.subrange(q, q + m.len())[0] == doc[q]);
                assert(doc[q] == m[0]);
                assert(m[0] == 123);
            }
        }
        lemma_replace_all_absent(doc, m, r);
        assert(interleave(segs, repeated(r, 0)) == segs[0]);
    } else {
        let seg0 = segs[0];
        assert(parts[0] == m);
        let tail = interleave(segs.drop_first(), parts.drop_first());
        assert(doc == seg0 + m + tail);
        assert(brace_free(segs[0]));
        assert forall|q: int| 0 <= q < seg0.len() implies !occurs_at(doc, m, q) by {
            if occurs_at(doc, m, q) {
                assert(doc.subrange(q, q + m.len())[0] == doc[q]);
                assert(doc[q] == m[0]);
                assert(m[0] == 123);
                assert(doc[q] == seg0[q]);
                assert(seg0[q] != 123);
            }
        }
        let t0 = m + tail;
        assert(doc =~= seg0 + t0);
        assert forall|q: int| 0 <= q < seg0.len() implies !occurs_at(seg0 + t0, m, q) by {
            assert(!occurs_at(doc, m, q));
        }
        lemma_replace_all_past_prefix(seg0, t0, m, r);
        lemma_replace_all_at_head(m, tail, r);
        assert forall|t: int| 0 <= t < segs.drop_first().len() implies brace_free(
            #[trigger] segs.drop_first()[t],
        ) by {
            assert(segs.drop_first()[t] == segs[t + 1]);
        }
        assert forall|t: int| 0 <= t < parts.drop_first().len() implies #[trigger] parts.drop_first()[t]
            == m by {
            assert(parts.drop_first()[t] == parts[t + 1]);
        }
        lemma_replace_all_interleave_same(segs.drop_first(), parts.drop_first(), m, r);
        assert(repeated(r, parts.len()).drop_first() =~= repeated(r, parts.drop_first().len()));
        assert(repeated(r, parts.len())[0] == r);
        assert(interleave(segs, repeated(r, parts.len())) == seg0 + r + interleave(
            segs.drop_first(),
            repeated(r, parts.drop_first().len()),
        ));
        assert(seg0 + (r + interleave(segs.drop_first(), repeated(r, parts.drop_first().len())))
            =~= seg0 + r + interleave(segs.drop_first(), repeated(r, parts.drop_first().len())));
    }
}

/// A fold whose every step leaves the accumulator as it stands
/// changes nothing.
proof fn lemma_fill_from_stationary(acc: Seq<u8>, ms: Seq<Seq<u8>>, entries: Seq<DirEntry>)
    requires
        forall|k: int| 0 <= k < ms.len() ==> #[trigger] resolve_step(acc, ms[k], entries) == acc,
    ensures
        fill_from(acc, ms, entries) == acc,
    decreases ms.len(),
{
    if ms.len() > 0 {
        assert(resolve_step(acc, ms[0], entries) == acc);
        assert forall|k: int|
            0 <= k < ms.drop_first().len() implies #[trigger] resolve_step(
            acc,
            ms.drop_first()[k],
            entries,
        ) == acc by {
            assert(ms.drop_first()[k] == ms[k + 1]);
        }
        lemma_fill_from_stationary(acc, ms.drop_first(), entries);
    }
}

/// Duplicate identical markers resolve once, applied everywhere: in
/// a document whose markers all carry the same resolving identifier,
/// between brace-free segments, every occurrence is replaced by the
/// one rendered content, and no literal marker text remains. The
/// redundant later fold steps for the same literal find nothing left
/// to replace.
pub proof fn lemma_fill_duplicate_markers(
    segs: Seq<Seq<u8>>,
    id: Seq<u8>,
    entries: Seq<DirEntry>,
)
    requires
        segs.len() >= 2,
        forall|t: int| 0 <= t < segs.len() ==> brace_free(#[trigger] segs[t]),
        is_identifier(id),
        resolves(entries, id),
        brace_free(html_of(loaded_text(entries, id))),
    ensures
        fill_spec(interleave(segs, repeated(marker_text_of(id), (segs.len() - 1) as nat)), entries)
            == interleave(segs, repeated(html_of(loaded_text(entries, id)), (segs.len() - 1) as nat)),
{
    let n = (segs.len() - 1) as nat;
    let m = marker_text_of(id);
    let r = html_of(loaded_text(entries, id));
    lemma_marker_text_wf(id);
    let ids = Seq::new(n, |k: int| id);
    assert forall|t: int| 0 <= t < ids.len() implies is_identifier(#[trigger] ids[t]) by {
        assert(ids[t] == id);
    }
    lemma_scan_interleave(segs, ids);
    assert(marker_texts(ids) =~= repeated(m, n));
    let ms = repeated(m, n);
    let doc = interleave(segs, ms);
    assert(markers_spec(doc) == ms);

    // the first fold step replaces every occurrence at once
    assert forall|t: int| 0 <= t < ms.len() implies #[trigger] ms[t] == m by {}
    lemma_replace_all_interleave_same(segs, ms, m, r);
    let filled = interleave(segs, repeated(r, n));
    assert(ms[0] == m);
    assert(ident_of(m) == id);
    assert(resolve_step(doc, ms[0], entries) == filled);

    // the later fold steps for the same literal find no occurrence
    assert forall|t: int| 0 <= t < repeated(r, n).len() implies brace_free(
        #[trigger] repeated(r, n)[t],
    ) || is_marker_text(repeated(r, n)[t]) by {
        assert(repeated(r, n)[t] == r);
    }
    assert forall|t: int| 0 <= t < repeated(r, n).len() implies #[trigger] repeated(r, n)[t]
        != m by {
        assert(repeated(r, n)[t] == r);
        if r == m {
            assert(m[0] == 123);
            assert(brace_free(r));
        }
    }
    lemma_no_marker_occurrence(segs, repeated(r, n), m);
    lemma_replace_all_absent(filled, m, r);
    assert forall|k: int| 0 <= k < ms.drop_first().len() implies #[trigger] resolve_step(
        filled,
        ms.drop_first()[k],
        entries,
    ) == filled by {
        assert(ms.drop_first()[k] == m);
    }
    lemma_fill_from_stationary(filled, ms.drop_first(), entries);
    assert(fill_from(doc, ms, entries) == fill_from(filled, ms.drop_first(), entries));
}

/// Order preservation: in a document assembled from brace-free text
/// segments separated by distinct markers that all resolve to
/// brace-free rendered content, filling replaces each marker by its
/// rendered content and returns every segment unchanged, in its
/// place.
pub proof fn lemma_fill_order_preserving(
    segs: Seq<Seq<u8>>,
    ids: Seq<Seq<u8>>,
    entries: Seq<DirEntry>,
)
    requires
        segs.len() == ids.len() + 1,
        forall|t: int| 0 <= t < segs.len() ==> brace_free(#[trigger] segs[t]),
        forall|t: int| 0 <= t < ids.len() ==> is_identifier(#[trigger] ids[t]),
        forall|t1: int, t2: int| 0 <= t1 < t2 < ids.len() ==> ids[t1] != ids[t2],
        forall|t: int| 0 <= t < ids.len() ==> #[trigger] resolves(entries, ids[t]),
        forall|t: int|
            0 <= t < ids.len() ==> brace_free(html_of(loaded_text(entries, #[trigger] ids[t]))),
    ensures
        fill_spec(interleave(segs, marker_texts(ids)), entries) == interleave(
            segs,
            rendered_texts(entries, ids),
        ),
{
    lemma_scan_interleave(segs, ids);
    lemma_fill_interleave(segs, ids, entries);
}

} // verus!
