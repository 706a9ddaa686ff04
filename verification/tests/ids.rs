//! Fragment bodies, and the renaming of their ids.
use svg_layers::body::extract_inner_svg;
use svg_layers::ids::{remap_ids, remap_ids_of_both};

#[test]
fn the_body_stands_between_the_tags() {
    let doc = "<?xml version=\"1.0\" ?>\n<svg width=\"1\" height=\"2\">\n\t<rect/>\n</svg>\n";
    assert_eq!(extract_inner_svg(doc), "\n\t<rect/>\n");
    assert_eq!(extract_inner_svg("<svg></svg>"), "");
}

#[test]
fn nested_documents_end_at_the_last_tag() {
    assert_eq!(extract_inner_svg("<svg><svg>a</svg>b</svg>"), "<svg>a</svg>b");
}

#[test]
fn a_document_without_its_tags_has_no_body() {
    assert_eq!(extract_inner_svg(""), "");
    assert_eq!(extract_inner_svg("<rect/></svg>"), "");
    assert_eq!(extract_inner_svg("<svg width=\"1\"><rect/>"), "");
    assert_eq!(extract_inner_svg("<svg width=\"1\""), "");
    assert_eq!(extract_inner_svg("</svg><svg>"), "");
}

#[test]
fn a_body_keeps_what_is_not_ascii() {
    assert_eq!(extract_inner_svg("é<svg>日本語</svg>é"), "日本語");
}

#[test]
fn definitions_and_references_are_prefixed() {
    let body = "<linearGradient id=\"g\"/><use xlink:href=\"#g\"/><rect fill=\"url(#g)\"/>";
    assert_eq!(
        remap_ids(body, "f7_"),
        "<linearGradient id=\"f7_g\"/><use xlink:href=\"#f7_g\"/><rect fill=\"url(#f7_g)\"/>"
    );
}

#[test]
fn references_to_ids_of_others_stay() {
    let body = "<g id=\"a\"/><rect fill=\"url(#b)\" href=\"#b\"/>";
    assert_eq!(remap_ids(body, "p_"), "<g id=\"p_a\"/><rect fill=\"url(#b)\" href=\"#b\"/>");
}

#[test]
fn an_id_that_begins_another_is_renamed_alone() {
    let body = "<a id=\"cl\"/><b id=\"cl_1\"/><c clip-path=\"url(#cl_1)\"/><d fill=\"url(#cl)\"/>";
    assert_eq!(
        remap_ids(body, "f0_"),
        "<a id=\"f0_cl\"/><b id=\"f0_cl_1\"/><c clip-path=\"url(#f0_cl_1)\"/>\
         <d fill=\"url(#f0_cl)\"/>"
    );
}

#[test]
fn an_id_defined_twice_is_prefixed_once() {
    assert_eq!(remap_ids("<a id=\"x\"/><b id=\"x\"/>", "p"), "<a id=\"px\"/><b id=\"px\"/>");
}

#[test]
fn a_body_without_ids_stays() {
    assert_eq!(remap_ids("<rect fill=\"red\"/>", "f0_"), "<rect fill=\"red\"/>");
    assert_eq!(remap_ids("", "f0_"), "");
    assert_eq!(remap_ids("<a id=\"\"/>", "f0_"), "<a id=\"\"/>");
}

#[test]
fn an_id_without_its_closing_quote_is_none() {
    assert_eq!(remap_ids("<a id=\"x\"/><b id=\"y", "p"), "<a id=\"px\"/><b id=\"y");
}

#[test]
fn an_empty_prefix_changes_nothing() {
    let body = "<a id=\"x\"/><b fill=\"url(#x)\"/>";
    assert_eq!(remap_ids(body, ""), body);
}

#[test]
fn ids_that_hold_delimiters_are_renamed_one_after_the_other() {
    // The longer id goes first, and leaves a reference that the shorter one matches.
    let body = "<a id=\"b\"/><c id=\"url(#b)\"/>";
    assert_eq!(remap_ids(body, "p"), "<a id=\"pb\"/><c id=\"purl(#pb)\"/>");
}

#[test]
fn renaming_twice_is_renaming_with_the_joined_prefix() {
    let body = "<a id=\"x\"/><b id=\"p_x\"/><c fill=\"url(#p_x)\" href=\"#x\"/><d fill=\"url(#y)\"/>";
    let twice = remap_ids(&remap_ids(body, "p_"), "q_");
    assert_eq!(twice, remap_ids(body, "q_p_"));
    assert_eq!(
        twice,
        "<a id=\"q_p_x\"/><b id=\"q_p_p_x\"/><c fill=\"url(#q_p_p_x)\" href=\"#q_p_x\"/>\
         <d fill=\"url(#y)\"/>"
    );
    // A reference to an id that the first renaming makes is renamed by the second alone.
    let stray = "<a id=\"x\"/><b fill=\"url(#p_x)\"/>";
    assert_eq!(
        remap_ids(&remap_ids(stray, "p_"), "q_"),
        "<a id=\"q_p_x\"/><b fill=\"url(#q_p_x)\"/>"
    );
    assert_eq!(remap_ids(stray, "q_p_"), "<a id=\"q_p_x\"/><b fill=\"url(#p_x)\"/>");
}

#[test]
fn two_texts_that_belong_together_are_renamed_alike() {
    let (defs, body) = remap_ids_of_both(
        "<filter id=\"shadow0\"/><mask id=\"m\"><g fill=\"url(#grad)\"/></mask>",
        "<g filter=\"url(#shadow0)\"/><linearGradient id=\"grad\"/>",
        "m3_",
    );
    assert_eq!(
        defs,
        "<filter id=\"m3_shadow0\"/><mask id=\"m3_m\"><g fill=\"url(#m3_grad)\"/></mask>"
    );
    assert_eq!(body, "<g filter=\"url(#m3_shadow0)\"/><linearGradient id=\"m3_grad\"/>");
}
