//! The compositor: it merges the fragments into a document body.
use vstd::hash_map::StringHashMap;
use vstd::prelude::*;
use vstd::string::*;

use crate::body::{extract_inner_svg, inner_svg};
use crate::consistency::{consistent, next_id_is_new, sharing_stays_consistent};
use crate::filter::{numbered, numbered_text};
use crate::fragments::{ends_drawing, fragments, lemma_fragment_begun};
use crate::ids::{defined_ids, remap_ids, remap_ids_of_both, remapped, remapped_of};
use crate::naming::countable;
use crate::ops::{lemma_ops_view_take, ops_view, text_view, Confinement, Draw, Op, OpView};
use crate::text::{blank, is_blank, texts};

verus! {

/// The prefix of the ids of the fragment with number `n`.
pub open spec fn fragment_prefix(n: nat) -> Seq<char> {
    numbered("f"@, n) + "_"@
}

/// What a fragment document adds to the document as the fragment with number `n`.
pub open spec fn fragment_markup(doc: Seq<char>, n: nat) -> Seq<char> {
    remapped(inner_svg(doc), fragment_prefix(n))
}

fn fragment_markup_text(doc: &str, n: usize) -> (r: String)
    ensures
        r@ == fragment_markup(doc@, n as nat),
{
    let inner = extract_inner_svg(doc);
    let prefix = numbered_text("f", n).concat("_");
    remap_ids(inner, prefix.as_str())
}

/// An attribute that refers to a definition.
pub open spec fn reference(name: Seq<char>, id: Seq<char>) -> Seq<char> {
    name + "=\"url(#"@ + id + ")\""@
}

fn reference_text(name: &str, id: &str) -> (r: String)
    ensures
        r@ == reference(name@, id@),
{
    name.to_owned().concat("=\"url(#").concat(id).concat(")\"")
}

pub open spec fn opacity_attr(opacity: Seq<char>) -> Seq<char> {
    "opacity=\""@ + opacity + "\""@
}

fn opacity_attr_text(opacity: &str) -> (r: String)
    ensures
        r@ == opacity_attr(opacity@),
{
    "opacity=\"".to_owned().concat(opacity).concat("\"")
}

/// Two attribute lists in one.
pub open spec fn spaced(a: Seq<char>, b: Seq<char>) -> Seq<char> {
    if a.len() == 0 {
        b
    } else if b.len() == 0 {
        a
    } else {
        a + " "@ + b
    }
}

fn spaced_text(a: String, b: String) -> (r: String)
    ensures
        r@ == spaced(a@, b@),
{
    if a.as_str().is_empty() {
        b
    } else if b.as_str().is_empty() {
        a
    } else {
        a.concat(" ").concat(b.as_str())
    }
}

/// The attributes of a group with composite effects; `filter` is the id of its blur.
pub open spec fn effects_attrs(
    opacity: Option<Seq<char>>,
    blend: Option<Seq<char>>,
    filter: Option<Seq<char>>,
) -> Seq<char> {
    spaced(
        spaced(
            match opacity {
                Some(opacity) => opacity_attr(opacity),
                None => Seq::empty(),
            },
            match blend {
                Some(css) => "style=\"mix-blend-mode:"@ + css + "\""@,
                None => Seq::empty(),
            },
        ),
        match filter {
            Some(id) => reference("filter"@, id),
            None => Seq::empty(),
        },
    )
}

fn effects_attrs_text(
    opacity: &Option<String>,
    blend: &Option<String>,
    filter: &Option<String>,
) -> (r: String)
    ensures
        r@ == effects_attrs(text_view(*opacity), text_view(*blend), text_view(*filter)),
{
    let first = match opacity {
        Some(opacity) => opacity_attr_text(opacity.as_str()),
        None => String::new(),
    };
    let second = match blend {
        Some(css) => "style=\"mix-blend-mode:".to_owned().concat(css.as_str()).concat("\""),
        None => String::new(),
    };
    let third = match filter {
        Some(id) => reference_text("filter", id.as_str()),
        None => String::new(),
    };
    spaced_text(spaced_text(first, second), third)
}

/// The definition of a layer blur.
pub open spec fn blur_def(id: Seq<char>, sigma: Seq<char>) -> Seq<char> {
    "<filter id=\""@ + id
        + "\" x=\"-50%\" y=\"-50%\" width=\"200%\" height=\"200%\"><feGaussianBlur stdDeviation=\""@
        + sigma + "\"/></filter>"@
}

fn blur_def_text(id: &str, sigma: &str) -> (r: String)
    ensures
        r@ == blur_def(id@, sigma@),
{
    "<filter id=\"".to_owned().concat(id).concat(
        "\" x=\"-50%\" y=\"-50%\" width=\"200%\" height=\"200%\"><feGaussianBlur stdDeviation=\"",
    ).concat(sigma).concat("\"/></filter>")
}

/// The definition of a filter.
pub open spec fn filter_def(id: Seq<char>, body: Seq<char>) -> Seq<char> {
    "<filter id=\""@ + id + "\" "@ + body + "</filter>"@
}

fn filter_def_text(id: &str, body: &str) -> (r: String)
    ensures
        r@ == filter_def(id@, body@),
{
    "<filter id=\"".to_owned().concat(id).concat("\" ").concat(body).concat("</filter>")
}

/// The definition of what confines a group.
pub open spec fn confinement_def(
    kind: Confinement,
    id: Seq<char>,
    geometry: Seq<char>,
) -> Seq<char> {
    match kind {
        Confinement::ClipPath => "<clipPath id=\""@ + id
            + "\" clipPathUnits=\"userSpaceOnUse\">"@ + geometry + "</clipPath>"@,
        Confinement::Mask => "<mask id=\""@ + id + "\" maskUnits=\"userSpaceOnUse\">"@ + geometry
            + "</mask>"@,
        Confinement::AlphaMask => "<mask id=\""@ + id
            + "\" maskUnits=\"userSpaceOnUse\" mask-type=\"alpha\">"@ + geometry + "</mask>"@,
    }
}

fn confinement_def_text(kind: Confinement, id: &str, geometry: &str) -> (r: String)
    ensures
        r@ == confinement_def(kind, id@, geometry@),
{
    match kind {
        Confinement::ClipPath => "<clipPath id=\"".to_owned().concat(id).concat(
            "\" clipPathUnits=\"userSpaceOnUse\">",
        ).concat(geometry).concat("</clipPath>"),
        Confinement::Mask => "<mask id=\"".to_owned().concat(id).concat(
            "\" maskUnits=\"userSpaceOnUse\">",
        ).concat(geometry).concat("</mask>"),
        Confinement::AlphaMask => "<mask id=\"".to_owned().concat(id).concat(
            "\" maskUnits=\"userSpaceOnUse\" mask-type=\"alpha\">",
        ).concat(geometry).concat("</mask>"),
    }
}

/// The attributes of a confined group.
pub open spec fn confinement_attrs(
    kind: Confinement,
    id: Seq<char>,
    opacity: Option<Seq<char>>,
) -> Seq<char> {
    let confined = match kind {
        Confinement::ClipPath => reference("clip-path"@, id),
        _ => reference("mask"@, id),
    };
    match opacity {
        Some(opacity) => confined + " "@ + opacity_attr(opacity),
        None => confined,
    }
}

fn confinement_attrs_text(kind: Confinement, id: &str, opacity: &Option<String>) -> (r: String)
    ensures
        r@ == confinement_attrs(kind, id@, text_view(*opacity)),
{
    let confined = match kind {
        Confinement::ClipPath => reference_text("clip-path", id),
        _ => reference_text("mask", id),
    };
    match opacity {
        Some(opacity) => confined.concat(" ").concat(opacity_attr_text(opacity.as_str()).as_str()),
        None => confined,
    }
}

/// Accumulates the body of a document.
///
/// Drawings land in the pending fragment; opening or closing a group flushes it, so
/// that its markup nests correctly.
pub struct SvgLayerCanvas {
    /// The body so far: nested groups and the markup of fragments, in document order.
    out: String,
    /// The definitions so far.
    defs: String,
    /// The fragment that collects consecutive drawings, if any.
    pending: Option<usize>,
    /// The ids of definitions (`blur0`, `clip1`, and so on), numbered by their place.
    ids: Vec<String>,
    /// The number of the next fragment that is merged.
    frag_no: usize,
    /// The definitions that can be shared: body to id.
    def_cache: StringHashMap<String>,
}

/// The model of a canvas.
#[verifier::ext_equal]
pub struct LayerView {
    pub out: Seq<char>,
    pub defs: Seq<char>,
    pub pending: Option<int>,
    pub ids: Seq<Seq<char>>,
    pub frag_no: nat,
    pub cache: Map<Seq<char>, Seq<char>>,
}

impl View for SvgLayerCanvas {
    type V = LayerView;

    closed spec fn view(&self) -> LayerView {
        LayerView {
            out: self.out@,
            defs: self.defs@,
            pending: match self.pending {
                Some(k) => Some(k as int),
                None => None,
            },
            ids: texts(self.ids@),
            frag_no: self.frag_no as nat,
            cache: self.def_cache@.map_values(|s: String| s@),
        }
    }
}

impl LayerView {
    /// An empty canvas.
    pub open spec fn new() -> LayerView {
        LayerView {
            out: Seq::empty(),
            defs: Seq::empty(),
            pending: None,
            ids: Seq::empty(),
            frag_no: 0,
            cache: Map::empty(),
        }
    }

    /// The next id with the given prefix.
    pub open spec fn next_id(self, prefix: Seq<char>) -> Seq<char> {
        numbered(prefix, self.ids.len())
    }

    /// The canvas with that id handed out.
    pub open spec fn with_id(self, prefix: Seq<char>) -> LayerView {
        LayerView { ids: self.ids.push(self.next_id(prefix)), ..self }
    }

    /// The canvas with a further definition.
    pub open spec fn with_def(self, def: Seq<char>) -> LayerView {
        LayerView { defs: self.defs + def, ..self }
    }

    /// The canvas with a pending fragment; `next` is the number of one begun now.
    pub open spec fn drawing(self, next: nat) -> LayerView {
        match self.pending {
            Some(_) => self,
            None => LayerView { pending: Some(next as int), ..self },
        }
    }

    /// Whether the canvas has merged, or holds, some of the first `next` fragments.
    pub open spec fn ready(self, next: nat) -> bool {
        match self.pending {
            Some(k) => 0 <= k < next && self.frag_no < next,
            None => self.frag_no <= next,
        }
    }

    /// The canvas with its pending fragment merged. One without visible markup is
    /// dropped, and takes no number.
    pub open spec fn flushed(self, docs: Seq<Seq<char>>) -> LayerView {
        match self.pending {
            None => self,
            Some(k) => if blank(inner_svg(docs[k])) {
                LayerView { pending: None, ..self }
            } else {
                LayerView {
                    pending: None,
                    out: self.out + fragment_markup(docs[k], self.frag_no),
                    frag_no: self.frag_no + 1,
                    ..self
                }
            },
        }
    }

    /// The canvas with a group opened.
    pub open spec fn opened(self, attrs: Seq<char>, docs: Seq<Seq<char>>) -> LayerView {
        let l = self.flushed(docs);
        LayerView { out: l.out + "<g "@ + attrs + ">"@, ..l }
    }

    /// The canvas with a group closed.
    pub open spec fn closed(self, docs: Seq<Seq<char>>) -> LayerView {
        let l = self.flushed(docs);
        LayerView { out: l.out + "</g>"@, ..l }
    }

    /// The id of a shared filter.
    pub open spec fn filter_id(self, prefix: Seq<char>, body: Seq<char>) -> Seq<char> {
        if self.cache.contains_key(body) {
            self.cache[body]
        } else {
            self.next_id(prefix)
        }
    }

    /// The canvas with a shared filter defined, where it was not yet.
    pub open spec fn with_filter(self, prefix: Seq<char>, body: Seq<char>) -> LayerView {
        if self.cache.contains_key(body) {
            self
        } else {
            let id = self.next_id(prefix);
            let l = self.with_id(prefix).with_def(filter_def(id, body));
            LayerView { cache: l.cache.insert(body, id), ..l }
        }
    }

    /// The canvas with a fragment as the definition of what confines a group.
    pub open spec fn with_confinement(
        self,
        kind: Confinement,
        id: Seq<char>,
        doc: Seq<char>,
    ) -> LayerView {
        let l = self.with_def(confinement_def(kind, id, fragment_markup(doc, self.frag_no)));
        LayerView { frag_no: l.frag_no + 1, ..l }
    }

    /// The prefix of the ids of the next mask that is drawn by steps of its own.
    pub open spec fn mask_prefix(self) -> Seq<char> {
        self.next_id("m"@) + "_"@
    }

    /// The ids that the definitions and the body define.
    pub open spec fn all_ids(self) -> Seq<Seq<char>> {
        defined_ids(self.defs) + defined_ids(self.out)
    }

    /// The canvas with a mask that was drawn on a canvas of its own.
    pub open spec fn with_mask(self, mask: LayerView) -> LayerView {
        let prefix = self.mask_prefix();
        let l = self.with_id("m"@);
        let id = l.next_id("mask"@);
        let ids = mask.all_ids();
        l.with_id("mask"@).with_def(remapped_of(mask.defs, ids, prefix)).with_def(
            confinement_def(Confinement::AlphaMask, id, remapped_of(mask.out, ids, prefix)),
        )
    }

    /// The id of that mask.
    pub open spec fn mask_id(self) -> Seq<char> {
        self.with_id("m"@).next_id("mask"@)
    }
}

/// The number of fragments that a step begins; a drawing joins a pending one.
pub open spec fn begun(op: OpView, pending: bool) -> nat {
    match op {
        OpView::Draw(_) => if pending {
            0
        } else {
            1
        },
        OpView::Confine { .. } => 1,
        OpView::AlphaMask(steps) => fragments(steps).len(),
        _ => 0,
    }
}

/// A canvas and the number of the next fragment after one step.
pub open spec fn step(l: LayerView, next: nat, op: OpView, docs: Seq<Seq<char>>) -> (LayerView, nat)
    decreases op,
{
    match op {
        OpView::Draw(_) => (l.drawing(next), next + begun(op, l.pending is Some)),
        OpView::Effects { opacity, blend, blur } => match blur {
            Some(sigma) => {
                let id = l.next_id("blur"@);
                let l = l.with_id("blur"@).with_def(blur_def(id, sigma));
                (l.opened(effects_attrs(opacity, blend, Some(id)), docs), next)
            },
            None => (l.opened(effects_attrs(opacity, blend, None), docs), next),
        },
        OpView::Filter { prefix, body } => {
            let id = l.filter_id(prefix, body);
            (l.with_filter(prefix, body).opened(reference("filter"@, id), docs), next)
        },
        OpView::Confine { kind, prefix, opacity, .. } => {
            let id = l.next_id(prefix);
            let l = l.with_id(prefix).with_confinement(kind, id, docs[next as int]);
            (l.opened(confinement_attrs(kind, id, opacity), docs), next + 1)
        },
        OpView::Opacity(opacity) => (l.opened(opacity_attr(opacity), docs), next),
        OpView::AlphaMask(steps) => {
            let (mask, next) = run(LayerView::new(), next, steps, docs);
            let id = l.mask_id();
            (l.with_mask(mask.flushed(docs)).opened(reference("mask"@, id), docs), next)
        },
        OpView::Close => (l.closed(docs), next),
    }
}

/// A canvas and the number of the next fragment after some steps.
pub open spec fn run(l: LayerView, next: nat, ops: Seq<OpView>, docs: Seq<Seq<char>>) -> (
    LayerView,
    nat,
)
    decreases ops,
{
    if ops.len() == 0 {
        (l, next)
    } else {
        let (l, next) = run(l, next, ops.drop_last(), docs);
        step(l, next, ops.last(), docs)
    }
}

impl SvgLayerCanvas {
    /// An empty canvas.
    pub fn new() -> (canvas: SvgLayerCanvas)
        ensures
            canvas@ == LayerView::new(),
            consistent(canvas@),
    {
        let canvas = SvgLayerCanvas {
            out: String::new(),
            defs: String::new(),
            pending: None,
            ids: Vec::new(),
            frag_no: 0,
            def_cache: StringHashMap::new(),
        };
        proof {
            assert(canvas@.ids =~= Seq::empty());
            assert(canvas@.cache =~= Map::empty());
        }
        canvas
    }

    /// The definitions so far.
    pub fn defs(&self) -> (defs: &str)
        ensures
            defs@ == self@.defs,
    {
        self.defs.as_str()
    }

    /// The body so far.
    pub fn out(&self) -> (out: &str)
        ensures
            out@ == self@.out,
    {
        self.out.as_str()
    }

    /// Hands out an id: the prefix and the next number. It is one that no other definition
    /// has, as long as no prefix ends in a digit.
    pub fn unique(&mut self, prefix: &str) -> (id: String)
        ensures
            id@ == old(self)@.next_id(prefix@),
            final(self)@ == old(self)@.with_id(prefix@),
            consistent(old(self)@) && countable(prefix@) ==> consistent(final(self)@)
                && !old(self)@.ids.contains(id@),
    {
        let id = numbered_text(prefix, self.ids.len());
        self.ids.push(id.clone());
        proof {
            assert(self@.ids =~= old(self)@.ids.push(id@));
            if consistent(old(self)@) && countable(prefix@) {
                next_id_is_new(old(self)@, prefix@);
            }
        }
        id
    }

    /// Makes sure that a fragment is pending; `next` is the number of one begun now.
    /// Returns the number of the fragment behind.
    fn canvas(&mut self, next: usize, docs: &Vec<String>) -> (behind: usize)
        requires
            old(self)@.pending is None ==> next < docs.len(),
        ensures
            behind == next + (if old(self)@.pending is None {
                1int
            } else {
                0int
            }),
            final(self)@ == old(self)@.drawing(next as nat),
    {
        match self.pending {
            Some(_) => next,
            None => {
                self.pending = Some(next);
                next + 1
            },
        }
    }

    /// Merges the pending fragment into the body.
    pub fn flush(&mut self, docs: &Vec<String>)
        requires
            old(self)@.pending matches Some(k) ==> 0 <= k < docs.len(),
            old(self)@.pending is Some ==> old(self)@.frag_no < usize::MAX,
        ensures
            final(self)@ == old(self)@.flushed(texts(docs@)),
    {
        match self.pending {
            None => {},
            Some(k) => {
                self.pending = None;
                let doc = docs[k].as_str();
                if !is_blank(extract_inner_svg(doc)) {
                    let markup = fragment_markup_text(doc, self.frag_no);
                    self.frag_no = self.frag_no + 1;
                    self.out.append(markup.as_str());
                }
            },
        }
    }

    /// Opens a group.
    pub fn open_group(&mut self, attrs: &str, docs: &Vec<String>)
        requires
            old(self)@.pending matches Some(k) ==> 0 <= k < docs.len(),
            old(self)@.pending is Some ==> old(self)@.frag_no < usize::MAX,
        ensures
            final(self)@ == old(self)@.opened(attrs@, texts(docs@)),
    {
        self.flush(docs);
        self.out.append("<g ");
        self.out.append(attrs);
        self.out.append(">");
    }

    /// Closes a group.
    pub fn close_group(&mut self, docs: &Vec<String>)
        requires
            old(self)@.pending matches Some(k) ==> 0 <= k < docs.len(),
            old(self)@.pending is Some ==> old(self)@.frag_no < usize::MAX,
        ensures
            final(self)@ == old(self)@.closed(texts(docs@)),
    {
        self.flush(docs);
        self.out.append("</g>");
    }

    /// Adds a definition.
    pub fn push_def(&mut self, def: &str)
        ensures
            final(self)@ == old(self)@.with_def(def@),
    {
        self.defs.append(def);
    }

    /// Defines a filter that can be shared, keyed by its body without the id. If an
    /// identical one was already defined, its id is returned; otherwise a fresh id is
    /// handed out.
    pub fn intern_def(&mut self, prefix: &str, body: &str) -> (id: String)
        ensures
            id@ == old(self)@.filter_id(prefix@, body@),
            final(self)@ == old(self)@.with_filter(prefix@, body@),
            consistent(old(self)@) && countable(prefix@) ==> consistent(final(self)@),
    {
        proof {
            if consistent(self@) && countable(prefix@) {
                sharing_stays_consistent(self@, prefix@, body@);
            }
        }
        match self.def_cache.get(body) {
            Some(id) => {
                return id.clone();
            },
            None => {},
        }
        let id = self.unique(prefix);
        let def = filter_def_text(id.as_str(), body);
        self.push_def(def.as_str());
        let ghost before = self@.cache;
        self.def_cache.insert(body.to_owned(), id.clone());
        proof {
            assert(self@.cache =~= before.insert(body@, id@));
        }
        id
    }

    /// Defines what confines a group by a fragment.
    fn finish_fragment(&mut self, kind: Confinement, id: &str, doc: &str)
        requires
            old(self)@.frag_no < usize::MAX,
        ensures
            final(self)@ == old(self)@.with_confinement(kind, id@, doc@),
    {
        let geometry = fragment_markup_text(doc, self.frag_no);
        self.frag_no = self.frag_no + 1;
        let def = confinement_def_text(kind, id, geometry.as_str());
        self.defs.append(def.as_str());
    }

    /// Defines a mask that was drawn on a canvas of its own, and returns its id. The ids
    /// of the mask, and the references to them, are prefixed, so that they cannot clash
    /// with those of the document.
    fn push_mask(&mut self, mask: &SvgLayerCanvas) -> (id: String)
        ensures
            id@ == old(self)@.mask_id(),
            final(self)@ == old(self)@.with_mask(mask@),
    {
        let prefix = self.unique("m").concat("_");
        let id = self.unique("mask");
        let (defs, body) = remap_ids_of_both(
            mask.defs.as_str(),
            mask.out.as_str(),
            prefix.as_str(),
        );
        self.push_def(defs.as_str());
        let def = confinement_def_text(Confinement::AlphaMask, id.as_str(), body.as_str());
        self.push_def(def.as_str());
        id
    }

    /// Takes one step of an export; `next` is the number of the next fragment that is
    /// begun. Returns the number of the fragment behind.
    fn step(&mut self, op: &Op, docs: &Vec<String>, next: usize) -> (behind: usize)
        requires
            old(self)@.ready(next as nat),
            next + begun(op@, old(self)@.pending is Some) <= docs.len(),
        ensures
            (final(self)@, behind as nat) == step(
                old(self)@,
                next as nat,
                op@,
                texts(docs@),
            ),
            behind == next + begun(op@, old(self)@.pending is Some),
            final(self)@.ready(behind as nat),
            final(self)@.pending is Some <==> op@ is Draw,
        decreases op,
    {
        match op {
            Op::Draw(_) => self.canvas(next, docs),
            Op::Effects { opacity, blend, blur } => {
                let filter: Option<String> = match blur {
                    Some(sigma) => {
                        let id = self.unique("blur");
                        let def = blur_def_text(id.as_str(), sigma.as_str());
                        self.push_def(def.as_str());
                        Some(id)
                    },
                    None => None,
                };
                let attrs = effects_attrs_text(opacity, blend, &filter);
                self.open_group(attrs.as_str(), docs);
                next
            },
            Op::Filter { prefix, body } => {
                let id = self.intern_def(prefix, body.as_str());
                let attrs = reference_text("filter", id.as_str());
                self.open_group(attrs.as_str(), docs);
                next
            },
            Op::Confine { kind, prefix, draws: _, opacity } => {
                let id = self.unique(prefix);
                self.finish_fragment(*kind, id.as_str(), docs[next].as_str());
                let attrs = confinement_attrs_text(*kind, id.as_str(), opacity);
                self.open_group(attrs.as_str(), docs);
                next + 1
            },
            Op::Opacity(opacity) => {
                let attrs = opacity_attr_text(opacity.as_str());
                self.open_group(attrs.as_str(), docs);
                next
            },
            Op::AlphaMask(steps) => {
                let mut mask = SvgLayerCanvas::new();
                let behind = mask.run(steps, docs, next);
                mask.flush(docs);
                let id = self.push_mask(&mask);
                let attrs = reference_text("mask", id.as_str());
                self.open_group(attrs.as_str(), docs);
                behind
            },
            Op::Close => {
                self.close_group(docs);
                next
            },
        }
    }

    /// Takes the steps of an export; `next` is the number of the first fragment that
    /// they draw. Returns the number of the fragment behind.
    pub fn run(&mut self, ops: &Vec<Op>, docs: &Vec<String>, next: usize) -> (behind: usize)
        requires
            old(self)@.pending is None,
            old(self)@.ready(next as nat),
            next + fragments(ops_view(ops@)).len() <= docs.len(),
        ensures
            (final(self)@, behind as nat) == run(
                old(self)@,
                next as nat,
                ops_view(ops@),
                texts(docs@),
            ),
            behind == next + fragments(ops_view(ops@)).len(),
            final(self)@.ready(behind as nat),
        decreases ops,
    {
        let ghost l0 = self@;
        let mut n: usize = next;
        let mut i: usize = 0;
        proof {
            assert(ops@.take(0) =~= Seq::empty());
        }
        while i < ops.len()
            invariant
                0 <= i <= ops.len(),
                next + fragments(ops_view(ops@)).len() <= docs.len(),
                (self@, n as nat) == run(
                    l0,
                    next as nat,
                    ops_view(ops@.take(i as int)),
                    texts(docs@),
                ),
                n == next + fragments(ops_view(ops@.take(i as int))).len(),
                self@.pending is Some <==> ends_drawing(ops_view(ops@.take(i as int))),
                self@.ready(n as nat),
            decreases ops.len() - i,
        {
            proof {
                let done = ops_view(ops@.take(i as int));
                let op = ops@[i as int]@;
                lemma_ops_view_take(ops@, i as int);
                assert(done.push(op).drop_last() =~= done);
                lemma_fragments_carry(ops@, i + 1);
                lemma_begun(done, op);
            }
            n = self.step(&ops[i], docs, n);
            i = i + 1;
        }
        proof {
            assert(ops@.take(ops@.len() as int) =~= ops@);
        }
        n
    }
}

/// A step adds the fragments that it begins.
pub proof fn lemma_begun(ops: Seq<OpView>, op: OpView)
    ensures
        fragments(ops.push(op)).len() == fragments(ops).len() + begun(op, ends_drawing(ops)),
{
    assert(ops.push(op).drop_last() =~= ops);
    assert(ops.push(op).last() == op);
    lemma_fragment_begun(ops);
}

proof fn lemma_fragments_carry(ops: Seq<Op>, i: int)
    requires
        0 <= i <= ops.len(),
    ensures
        fragments(ops_view(ops.take(i))).len() <= fragments(ops_view(ops)).len(),
    decreases ops.len() - i,
{
    if i < ops.len() {
        lemma_fragments_carry(ops, i + 1);
        lemma_ops_view_take(ops, i);
        let all = ops_view(ops.take(i + 1));
        assert(all.drop_last() =~= ops_view(ops.take(i)));
    } else {
        assert(ops.take(i) =~= ops);
    }
}

} // verus!
