//! The export of a shape tree to an SVG document.
//!
//! An export takes two calls with the drawing between them: [`svg_fragments`] says what
//! is drawn on which fragment, and [`render_to_svg`] makes the document of what was
//! drawn.
use vstd::prelude::*;
use vstd::string::*;
use vstd::utf8::{decode_utf8, encode_utf8, encode_utf8_decode_utf8};

use crate::compose::{run, LayerView, SvgLayerCanvas};
use crate::fragments::{draw_lists, fragments, fragments_of};
use crate::ops::{ops_view, Draw, Op};
use crate::render::{svg_render_tree, tree_ops};
use crate::shape::{Shape, ShapesPool, Uuid};
use crate::text::{lossy, lossy_text, texts};
use crate::tree::acyclic;
use crate::uniqueness::{defines_once, document_defines_ids_once, sound_export};

verus! {

/// Why an export failed.
#[derive(Debug)]
pub enum Error {
    CriticalError(String),
}

impl Error {
    /// What went wrong.
    pub open spec fn message(self) -> Seq<char> {
        match self {
            Error::CriticalError(message) => message@,
        }
    }
}

/// The steps of an export.
pub fn svg_steps(tree: &ShapesPool, id: &Uuid, images: bool) -> (ops: Vec<Op>)
    requires
        acyclic(tree@, *id),
    ensures
        ops_view(ops@) == tree_ops(tree@, *id, images, true),
{
    let mut ops: Vec<Op> = Vec::new();
    svg_render_tree(&mut ops, tree, id, images, true);
    proof {
        assert(ops_view(ops@) =~= tree_ops(tree@, *id, images, true));
    }
    ops
}

/// The fragments that an export draws, in the order in which they are drawn.
pub open spec fn export_fragments(pool: Map<Uuid, Shape>, id: Uuid, images: bool) -> Seq<Seq<Draw>> {
    fragments(tree_ops(pool, id, images, true))
}

/// The drawings of each fragment that the export of a shape needs, in the order in
/// which they are made. `images` says whether there is an image store.
pub fn svg_fragments(tree: &ShapesPool, id: &Uuid, images: bool) -> (lists: Vec<Vec<Draw>>)
    requires
        acyclic(tree@, *id),
    ensures
        draw_lists(lists@) == export_fragments(tree@, *id, images),
{
    let ops = svg_steps(tree, id, images);
    fragments_of(&ops)
}

/// The definitions and the body of an export, from the documents of its fragments.
pub open spec fn composed(
    pool: Map<Uuid, Shape>,
    id: Uuid,
    images: bool,
    docs: Seq<Seq<char>>,
) -> LayerView {
    run(LayerView::new(), 0, tree_ops(pool, id, images, true), docs).0.flushed(docs)
}

/// Renders a subtree to the definitions and the body of a document.
pub fn render_svg_body(tree: &ShapesPool, id: &Uuid, images: bool, docs: &Vec<String>) -> (r: (
    String,
    String,
))
    requires
        acyclic(tree@, *id),
        export_fragments(tree@, *id, images).len() <= docs.len(),
    ensures
        r.0@ == composed(tree@, *id, images, texts(docs@)).defs,
        r.1@ == composed(tree@, *id, images, texts(docs@)).out,
{
    let ops = svg_steps(tree, id, images);
    let mut canvas = SvgLayerCanvas::new();
    let _ = canvas.run(&ops, docs, 0);
    canvas.flush(docs);
    (canvas.defs().to_owned(), canvas.out().to_owned())
}

/// The definitions of a document: the fonts, then the others; nothing where there are
/// none.
pub open spec fn defs_element(font_css: Seq<char>, defs: Seq<char>) -> Seq<char> {
    if font_css.len() == 0 && defs.len() == 0 {
        Seq::empty()
    } else {
        "<defs>"@ + (if font_css.len() == 0 {
            Seq::empty()
        } else {
            "<style type=\"text/css\"><![CDATA["@ + font_css + "]]></style>"@
        }) + defs + "</defs>"@
    }
}

fn defs_element_text(font_css: &str, defs: &str) -> (r: String)
    ensures
        r@ == defs_element(font_css@, defs@),
{
    if font_css.is_empty() && defs.is_empty() {
        return String::new();
    }
    let style = if font_css.is_empty() {
        String::new()
    } else {
        "<style type=\"text/css\"><![CDATA[".to_owned().concat(font_css).concat("]]></style>")
    };
    "<defs>".to_owned().concat(style.as_str()).concat(defs).concat("</defs>")
}

/// A document.
pub open spec fn document(
    width: Seq<char>,
    height: Seq<char>,
    font_css: Seq<char>,
    defs: Seq<char>,
    body: Seq<char>,
) -> Seq<char> {
    "<?xml version=\"1.0\" encoding=\"utf-8\" ?>\n"@
        + "<svg xmlns=\"http://www.w3.org/2000/svg\" xmlns:xlink=\"http://www.w3.org/1999/xlink\" width=\""@
        + width + "\" height=\""@ + height + "\">"@ + defs_element(font_css, defs) + body
        + "</svg>"@
}

/// The page that a document shows, and the fonts that it embeds.
pub struct Page {
    pub width: String,
    pub height: String,
    /// Rules for the fonts that [`crate::fonts::collect_font_aliases`] finds, so that the
    /// document does not rely on those of its viewer.
    pub font_css: String,
}

/// The document of a shape tree, from the documents of its fragments.
pub open spec fn svg_document(
    pool: Map<Uuid, Shape>,
    id: Uuid,
    images: bool,
    page: Page,
    docs: Seq<Seq<char>>,
) -> Seq<char> {
    let layer = composed(pool, id, images, docs);
    document(page.width@, page.height@, page.font_css@, layer.defs, layer.out)
}

/// Makes the SVG document of a shape tree from the documents of its fragments, as a
/// text. Fails where the root is not in the pool.
///
/// No id is defined twice in it, unless what it is made of brings one twice.
pub fn compose_svg(
    tree: &ShapesPool,
    id: &Uuid,
    images: bool,
    page: &Page,
    docs: &Vec<String>,
) -> (r: Result<String, Error>)
    requires
        acyclic(tree@, *id),
        export_fragments(tree@, *id, images).len() <= docs.len(),
    ensures
        match r {
            Ok(text) => tree@.contains_key(*id) && text@ == svg_document(
                tree@,
                *id,
                images,
                *page,
                texts(docs@),
            ) && (sound_export(tree@, *page, texts(docs@)) ==> defines_once(text@)),
            Err(e) => !tree@.contains_key(*id) && e.message() == "Shape not found for SVG"@,
        },
{
    if tree.get(id).is_none() {
        return Err(Error::CriticalError("Shape not found for SVG".to_owned()));
    }
    let (defs, body) = render_svg_body(tree, id, images, docs);
    let definitions = defs_element_text(page.font_css.as_str(), defs.as_str());
    let out = "<?xml version=\"1.0\" encoding=\"utf-8\" ?>\n".to_owned().concat(
        "<svg xmlns=\"http://www.w3.org/2000/svg\" xmlns:xlink=\"http://www.w3.org/1999/xlink\" width=\"",
    ).concat(page.width.as_str()).concat("\" height=\"").concat(page.height.as_str()).concat(
        "\">",
    ).concat(definitions.as_str()).concat(body.as_str()).concat("</svg>");
    proof {
        if sound_export(tree@, *page, texts(docs@)) {
            document_defines_ids_once(tree@, *id, images, *page, texts(docs@));
        }
    }
    Ok(out)
}

/// The texts of documents.
pub open spec fn lossy_texts(docs: Seq<Vec<u8>>) -> Seq<Seq<char>> {
    docs.map_values(|doc: Vec<u8>| lossy_text(doc@))
}

fn decoded(docs: &Vec<Vec<u8>>) -> (r: Vec<String>)
    ensures
        texts(r@) == lossy_texts(docs@),
        r.len() == docs.len(),
{
    let mut r: Vec<String> = Vec::new();
    let mut i: usize = 0;
    while i < docs.len()
        invariant
            0 <= i <= docs.len(),
            texts(r@) == lossy_texts(docs@).take(i as int),
        decreases docs.len() - i,
    {
        let ghost before = r@;
        let text = lossy(docs[i].as_slice());
        r.push(text);
        i = i + 1;
        proof {
            assert(texts(r@) =~= texts(before).push(lossy_text(docs@[i - 1]@)));
            assert(lossy_texts(docs@).take(i as int) =~= lossy_texts(docs@).take(i - 1).push(
                lossy_text(docs@[i - 1]@),
            ));
        }
    }
    proof {
        assert(lossy_texts(docs@).take(docs@.len() as int) =~= lossy_texts(docs@));
        assert(texts(r@).len() == docs@.len());
    }
    r
}

/// Makes the SVG document of a shape tree from the documents of its fragments and
/// returns its bytes. Fails where the root is not in the pool.
///
/// The fragments are those that [`svg_fragments`] lists; their documents are taken as
/// UTF-8 text. No id is defined twice in the result, unless what it is made of brings one
/// twice.
pub fn render_tree_to_svg(
    tree: &ShapesPool,
    id: &Uuid,
    images: bool,
    page: &Page,
    docs: &Vec<Vec<u8>>,
) -> (r: Result<Vec<u8>, Error>)
    requires
        acyclic(tree@, *id),
        export_fragments(tree@, *id, images).len() <= docs.len(),
    ensures
        match r {
            Ok(bytes) => tree@.contains_key(*id) && bytes@ == encode_utf8(
                svg_document(tree@, *id, images, *page, lossy_texts(docs@)),
            ) && (sound_export(tree@, *page, lossy_texts(docs@)) ==> defines_once(
                decode_utf8(bytes@),
            )),
            Err(e) => !tree@.contains_key(*id) && e.message() == "Shape not found for SVG"@,
        },
{
    let texts = decoded(docs);
    match compose_svg(tree, id, images, page, &texts) {
        Ok(text) => {
            proof {
                encode_utf8_decode_utf8(text@);
            }
            Ok(text.as_str().as_bytes_vec())
        },
        Err(e) => Err(e),
    }
}

/// Makes the SVG document of a shape tree in an export that has an image store.
pub fn render_to_svg(tree: &ShapesPool, id: &Uuid, page: &Page, docs: &Vec<Vec<u8>>) -> (r: Result<
    Vec<u8>,
    Error,
>)
    requires
        acyclic(tree@, *id),
        export_fragments(tree@, *id, true).len() <= docs.len(),
    ensures
        match r {
            Ok(bytes) => tree@.contains_key(*id) && bytes@ == encode_utf8(
                svg_document(tree@, *id, true, *page, lossy_texts(docs@)),
            ) && (sound_export(tree@, *page, lossy_texts(docs@)) ==> defines_once(
                decode_utf8(bytes@),
            )),
            Err(e) => !tree@.contains_key(*id) && e.message() == "Shape not found for SVG"@,
        },
{
    render_tree_to_svg(tree, id, true, page, docs)
}

} // verus!
