//! A synthetic output tree, for tests and for looking around.
//!
//! It holds numbered images, images in subdirectories, images with, without and
//! with broken metadata, a subdirectory named `keep` that is not the keep
//! directory, and images that are kept or trashed already.

use crate::json::{parsed, printed};
use crate::meta::{
    all_texts, extracted, no_meta, png_chunks, shown_meta, text_under, ChunksView,
};
use crate::unix_path::{join, joined, parent, parent_of, path_view};
use vstd::prelude::*;
use vstd::utf8::encode_utf8;

verus! {

/// A graph with a sampler, and a text encoder for each of its prompts.
pub const SAMPLE_GRAPH: &'static str = r#"{
  "3": {"class_type":"KSampler","inputs":{"seed":42,"steps":20,"cfg":7.0,"positive":["6",0],"negative":["7",0],"model":["4",0],"latent_image":["5",0]}},
  "4": {"class_type":"CheckpointLoaderSimple","inputs":{"ckpt_name":"sd_xl_base_1.0.safetensors"}},
  "5": {"class_type":"EmptyLatentImage","inputs":{"width":1024,"height":1024,"batch_size":1}},
  "6": {"class_type":"CLIPTextEncode","inputs":{"text":"a serene mountain lake at dawn, highly detailed","clip":["4",1]}},
  "7": {"class_type":"CLIPTextEncode","inputs":{"text":"blurry, low quality, watermark","clip":["4",1]}}
}"#;

/// A text that is not JSON.
pub const BROKEN_GRAPH: &'static str = "{ this is not valid json";

/// A text chunk: its keyword and its text.
pub type Chunk = (Seq<char>, Seq<char>);

/// Whether a text is all in Latin-1.
pub open spec fn is_latin(s: Seq<char>) -> bool {
    forall|i: int| 0 <= i < s.len() ==> #[trigger] s[i] <= '\u{ff}'
}

/// Whether an image with this text chunk can be written.
pub open spec fn can_be_written(chunk: Option<Chunk>) -> bool {
    chunk matches Some((keyword, text)) ==> is_latin(keyword) && 1 <= keyword.len() <= 79
        && is_latin(text)
}

/// Whether an image with this text chunk is certain to be read back: no keyword
/// has a zero character, and the text is far below what a reader takes.
pub open spec fn can_be_read(chunk: Option<Chunk>) -> bool {
    chunk matches Some((keyword, text)) ==> !keyword.contains('\0') && text.len() <= 1_000_000
}

/// The text chunks of an image with this text chunk.
pub open spec fn chunks_with(chunk: Option<Chunk>) -> ChunksView {
    ChunksView {
        latin: match chunk {
            Some(c) => seq![c],
            None => Seq::empty(),
        },
        compressed: Seq::empty(),
        unicode: Seq::empty(),
    }
}

/// The file that the `png` crate writes for one gray pixel and a text chunk.
pub uninterp spec fn png_image(chunk: Option<Chunk>) -> Seq<u8>;

/// A text chunk that is to be written.
pub open spec fn chunk_view(chunk: Option<(&str, &str)>) -> Option<Chunk> {
    match chunk {
        Some((keyword, text)) => Some((keyword@, text@)),
        None => None,
    }
}

/// `png::Encoder` with one gray pixel and an optional `tEXt` chunk ahead of the
/// image data. The chunk is refused if its keyword is empty or longer than 79
/// characters, or if a character is outside Latin-1; nothing else is. The file
/// depends on the chunk alone, and `png::Decoder` finds the chunk in it again.
#[verifier::external_body]
pub(crate) fn encode_png(chunk: Option<(&str, &str)>) -> (r: Option<Vec<u8>>)
    ensures
        r is Some <==> can_be_written(chunk_view(chunk)),
        r matches Some(file) ==> file@ == png_image(chunk_view(chunk)),
        r matches Some(file) ==> can_be_read(chunk_view(chunk)) ==> png_chunks(file@) == Some(
            chunks_with(chunk_view(chunk)),
        ),
{
    let mut file = Vec::new();
    let mut encoder = png::Encoder::new(&mut file, 1, 1);
    encoder.set_color(png::ColorType::Grayscale);
    encoder.set_depth(png::BitDepth::Eight);
    if let Some((keyword, text)) = chunk {
        encoder.add_text_chunk(keyword.to_string(), text.to_string()).ok()?;
    }
    let mut writer = encoder.write_header().ok()?;
    writer.write_image_data(&[0u8]).ok()?;
    drop(writer);
    Some(file)
}

/// A file of the tree: the directory that has to be there first, if any, the
/// file's path, and what it holds.
#[derive(Debug, PartialEq, Eq)]
pub struct Fixture {
    pub dir: Option<Vec<u8>>,
    pub path: Vec<u8>,
    pub bytes: Vec<u8>,
}

/// An image of the tree: its path below the root, and its text chunk.
pub type Image = (Seq<char>, Option<Chunk>);

/// The images of the tree, in the order in which they are written.
pub open spec fn images() -> Seq<Image> {
    seq![
        ("Image_00001_.png"@, Some(("prompt"@, SAMPLE_GRAPH@))),
        ("Image_00002_.png"@, None),
        ("Image_00003_.png"@, Some(("prompt"@, BROKEN_GRAPH@))),
        ("2026-06-01/Image_00001_.png"@, None),
        ("2026-06-01/Image_00002_.png"@, None),
        ("proj-a/Image_00009_.png"@, None),
        ("proj-a/keep/inside.png"@, None),
        ("keep/already_kept.png"@, None),
        ("trash/already_trashed.png"@, None),
    ]
}

/// Whether a file is that of an image below `source`.
pub open spec fn is_fixture(fixture: Fixture, source: Seq<u8>, image: Image) -> bool {
    &&& fixture.path@ == joined(source, encode_utf8(image.0))
    &&& path_view(fixture.dir) == parent_of(fixture.path@)
    &&& fixture.bytes@ == png_image(image.1)
    &&& png_chunks(fixture.bytes@) == Some(chunks_with(image.1))
}

/// Whether files are those of the first images below `source`.
pub open spec fn are_fixtures(files: Seq<Fixture>, source: Seq<u8>) -> bool {
    &&& files.len() <= images().len()
    &&& forall|i: int|
        0 <= i < files.len() ==> is_fixture(#[trigger] files[i], source, images()[i])
}

/// The texts of the tree's images can be written and read.
proof fn texts_are_plain()
    ensures
        can_be_written(Some(("prompt"@, SAMPLE_GRAPH@))),
        can_be_read(Some(("prompt"@, SAMPLE_GRAPH@))),
        can_be_written(Some(("prompt"@, BROKEN_GRAPH@))),
        can_be_read(Some(("prompt"@, BROKEN_GRAPH@))),
{
    reveal_strlit("prompt");
    reveal_strlit("{ this is not valid json");
    reveal_strlit(
        r#"{
  "3": {"class_type":"KSampler","inputs":{"seed":42,"steps":20,"cfg":7.0,"positive":["6",0],"negative":["7",0],"model":["4",0],"latent_image":["5",0]}},
  "4": {"class_type":"CheckpointLoaderSimple","inputs":{"ckpt_name":"sd_xl_base_1.0.safetensors"}},
  "5": {"class_type":"EmptyLatentImage","inputs":{"width":1024,"height":1024,"batch_size":1}},
  "6": {"class_type":"CLIPTextEncode","inputs":{"text":"a serene mountain lake at dawn, highly detailed","clip":["4",1]}},
  "7": {"class_type":"CLIPTextEncode","inputs":{"text":"blurry, low quality, watermark","clip":["4",1]}}
}"#,
    );
}

/// Add the file of one more image.
fn add_png(files: &mut Vec<Fixture>, source: &[u8], rel: &str, chunk: Option<(&str, &str)>)
    requires
        are_fixtures(old(files)@, source@),
        old(files)@.len() < images().len(),
        images()[old(files)@.len() as int] == (rel@, chunk_view(chunk)),
        can_be_written(chunk_view(chunk)),
        can_be_read(chunk_view(chunk)),
    ensures
        are_fixtures(final(files)@, source@),
        final(files)@.len() == old(files)@.len() + 1,
{
    let bytes = encode_png(chunk).unwrap();
    let path = join(source, rel.as_bytes());
    let dir = parent(path.as_slice());
    files.push(Fixture { dir, path, bytes });
}

/// The files of the tree below `source`, in the order in which they are to be
/// written.
pub fn build(source: &[u8]) -> (r: Vec<Fixture>)
    ensures
        r@.len() == images().len(),
        are_fixtures(r@, source@),
{
    proof {
        texts_are_plain();
    }
    let mut files: Vec<Fixture> = Vec::new();
    add_png(&mut files, source, "Image_00001_.png", Some(("prompt", SAMPLE_GRAPH)));
    add_png(&mut files, source, "Image_00002_.png", None);
    add_png(&mut files, source, "Image_00003_.png", Some(("prompt", BROKEN_GRAPH)));
    add_png(&mut files, source, "2026-06-01/Image_00001_.png", None);
    add_png(&mut files, source, "2026-06-01/Image_00002_.png", None);
    add_png(&mut files, source, "proj-a/Image_00009_.png", None);
    add_png(&mut files, source, "proj-a/keep/inside.png", None);
    add_png(&mut files, source, "keep/already_kept.png", None);
    add_png(&mut files, source, "trash/already_trashed.png", None);
    files
}

/// The metadata of an image with one text chunk shows that chunk's text, and an
/// image without one has no metadata.
pub proof fn written_text_is_shown(file: Seq<u8>, chunk: Option<Chunk>)
    requires
        png_chunks(file) == Some(chunks_with(chunk)),
    ensures
        extracted(Some(file)) == match chunk {
            Some((_, t)) => shown_meta(
                t,
                match parsed(t) {
                    Some(value) => Some((value, printed(value))),
                    None => None,
                },
            ),
            None => no_meta(),
        },
{
    let found = all_texts(chunks_with(chunk));
    reveal_with_fuel(text_under, 2);
    match chunk {
        Some(c) => {
            assert(found =~= seq![c]);
            assert(found.drop_first() =~= Seq::<Chunk>::empty());
        },
        None => {
            assert(found =~= Seq::<Chunk>::empty());
        },
    }
}

} // verus!
