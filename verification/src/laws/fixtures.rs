//! Laws of the synthetic output tree.

use crate::fixtures::{build, images, is_fixture, BROKEN_GRAPH, Fixture, SAMPLE_GRAPH};
use crate::meta::png_chunks;
use crate::unix_path::{joined, parent_of, path_view};
use vstd::prelude::*;
use vstd::utf8::encode_utf8;

verus! {

/// The name of each image of the tree, in the order in which they are written.
pub open spec fn name_of(i: int) -> Seq<char> {
    if i == 0 {
        "Image_00001_.png"@
    } else if i == 1 {
        "Image_00002_.png"@
    } else if i == 2 {
        "Image_00003_.png"@
    } else if i == 3 {
        "2026-06-01/Image_00001_.png"@
    } else if i == 4 {
        "2026-06-01/Image_00002_.png"@
    } else if i == 5 {
        "proj-a/Image_00009_.png"@
    } else if i == 6 {
        "proj-a/keep/inside.png"@
    } else if i == 7 {
        "keep/already_kept.png"@
    } else {
        "trash/already_trashed.png"@
    }
}

/// The tree has nine images below the source, each with the directory that has to
/// be there first. The first has a graph for its prompt, the third a text that is
/// no JSON, and the others have no text.
pub proof fn tree_has_its_images(source: &[u8], r: Vec<Fixture>, i: int)
    requires
        call_ensures(build, (source,), r),
        0 <= i < 9,
    ensures
        r@.len() == 9,
        r@[i].path@ == joined(source@, encode_utf8(name_of(i))),
        path_view(r@[i].dir) == parent_of(r@[i].path@),
        png_chunks(r@[i].bytes@) matches Some(chunks) && {
            &&& chunks.compressed.len() == 0
            &&& chunks.unicode.len() == 0
            &&& chunks.latin == (if i == 0 {
                seq![("prompt"@, SAMPLE_GRAPH@)]
            } else if i == 2 {
                seq![("prompt"@, BROKEN_GRAPH@)]
            } else {
                Seq::empty()
            })
        },
{
    let f = r@[i];
    assert(is_fixture(f, source@, images()[i]));
}

} // verus!
