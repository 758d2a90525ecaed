//! The template engine.
//!
//! Filling a document: find every marker in the original document,
//! then fold over the matches in order, keeping an accumulating
//! result that starts as the document itself. A match whose
//! identifier resolves has its rendered content substituted for
//! every remaining occurrence of its literal text; a match whose
//! identifier does not resolve leaves the accumulator untouched, so
//! the marker stays in the output verbatim.

use vstd::prelude::*;

use crate::dir::{lookup_spec, Directory, DirEntry};
use crate::render::{html_of, render_markdown};
use crate::scan::{find_markers, extract_identifier, ident_of, is_marker_text, markers_spec};
use crate::subst::{replace_all, replace_all_spec};

verus! {

/// Why filling failed. With the fixed built-in marker pattern the
/// pattern machinery cannot fail, so no path returns this; it exists
/// so that such a failure would be reportable apart from every data
/// error.
#[derive(Debug)]
pub enum FillError {
    MarkerSyntax,
}

/// One fold step: the accumulator after visiting the match `m`. A
/// resolving identifier substitutes its rendered content for every
/// remaining occurrence of `m`; anything else leaves the accumulator
/// as it was.
pub open spec fn resolve_step(acc: Seq<u8>, m: Seq<u8>, entries: Seq<DirEntry>) -> Seq<u8> {
    match lookup_spec(entries, ident_of(m)) {
        Some(Ok(text)) => replace_all_spec(acc, m, html_of(text)),
        _ => acc,
    }
}

/// The accumulator after folding over the matches `ms` in order.
pub open spec fn fill_from(acc: Seq<u8>, ms: Seq<Seq<u8>>, entries: Seq<DirEntry>) -> Seq<u8>
    decreases ms.len(),
{
    if ms.len() == 0 {
        acc
    } else {
        fill_from(resolve_step(acc, ms[0], entries), ms.drop_first(), entries)
    }
}

/// The filled document: the fold over all markers of the original
/// document, started on the document itself.
pub open spec fn fill_spec(doc: Seq<u8>, entries: Seq<DirEntry>) -> Seq<u8> {
    fill_from(doc, markers_spec(doc), entries)
}

/// Fills `doc` from `directory`: every marker whose identifier
/// resolves is replaced by its rendered content, every other marker
/// stays verbatim, and all other text is kept. Always succeeds; the
/// error arm stands for a failure of the pattern machinery, which
/// the fixed built-in pattern rules out.
pub fn fill(doc: &Vec<u8>, directory: &Directory) -> (r: Result<Vec<u8>, FillError>)
    ensures
        r is Ok,
        r matches Ok(filled) ==> filled@ == fill_spec(doc@, directory@),
{
    let ms = find_markers(doc);
    let ghost all = ms@.map_values(|m: Vec<u8>| m@);
    let mut acc = crate::subst::copy_range(doc, 0, doc.len());
    proof {
        assert(doc@.subrange(0, doc@.len() as int) =~= doc@);
        assert(all.skip(0) =~= all);
    }
    let n = ms.len();
    let mut k: usize = 0;
    while k < n
        invariant
            n == ms@.len(),
            k <= n,
            all == ms@.map_values(|m: Vec<u8>| m@),
            all == markers_spec(doc@),
            forall|t: int| 0 <= t < ms@.len() ==> #[trigger] is_marker_text(ms@[t]@),
            fill_spec(doc@, directory@) == fill_from(acc@, all.skip(k as int), directory@),
        decreases n - k,
    {
        let m = &ms[k];
        proof {
            assert(is_marker_text(ms@[k as int]@));
            assert(m@ == all[k as int]);
        }
        let identifier = extract_identifier(m);
        let ghost before = acc@;
        let ghost rest = all.skip(k as int);
        proof {
            assert(rest[0] == all[k as int]);
            assert(rest.drop_first() =~= all.skip(k + 1));
        }
        match crate::dir::load(&identifier, directory) {
            Ok(text) => {
                let rendered = render_markdown(&text);
                acc = replace_all(&acc, m, &rendered);
                proof {
                    assert(lookup_spec(directory@, ident_of(m@)) matches Some(Ok(t)) && text@
                        == t);
                    assert(acc@ == resolve_step(before, all[k as int], directory@));
                }
            },
            Err(_) => {
                proof {
                    assert(!(lookup_spec(directory@, ident_of(m@)) matches Some(Ok(_))));
                    assert(acc@ == resolve_step(before, all[k as int], directory@));
                }
            },
        }
        k += 1;
    }
    proof {
        assert(all.skip(n as int).len() == 0);
    }
    Ok(acc)
}

} // verus!
