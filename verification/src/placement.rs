//! Steps by what they show: which drawings they make, in which groups.
use vstd::prelude::*;

use crate::ops::{if_any, only_if, Draw, OpView};
use crate::structure::{balanced, level, opens};

verus! {

/// A drawing, with the groups around it, the outermost first.
#[verifier::ext_equal]
pub struct Placed {
    pub draw: Draw,
    pub groups: Seq<OpView>,
}

/// The groups that are open behind some steps, the outermost first.
pub open spec fn open_groups(ops: Seq<OpView>) -> Seq<OpView>
    decreases ops.len(),
{
    if ops.len() == 0 {
        Seq::empty()
    } else {
        let groups = open_groups(ops.drop_last());
        match ops.last() {
            OpView::Draw(_) => groups,
            OpView::Close => groups.drop_last(),
            op => groups.push(op),
        }
    }
}

/// The drawings that steps make, in their order, each with the groups around it. Those
/// that make a mask or a clip belong to the group that they confine.
pub open spec fn drawings(ops: Seq<OpView>) -> Seq<Placed>
    decreases ops.len(),
{
    if ops.len() == 0 {
        Seq::empty()
    } else {
        let init = ops.drop_last();
        match ops.last() {
            OpView::Draw(draw) => drawings(init).push(Placed { draw, groups: open_groups(init) }),
            _ => drawings(init),
        }
    }
}

/// The groups that steps open, in their order.
pub open spec fn openings(ops: Seq<OpView>) -> Seq<OpView>
    decreases ops.len(),
{
    if ops.len() == 0 {
        Seq::empty()
    } else {
        let init = openings(ops.drop_last());
        match ops.last() {
            OpView::Draw(_) => init,
            OpView::Close => init,
            op => init.push(op),
        }
    }
}

/// Drawings with further groups around them.
pub open spec fn within(groups: Seq<OpView>, drawn: Seq<Placed>) -> Seq<Placed> {
    drawn.map_values(|p: Placed| Placed { draw: p.draw, groups: groups + p.groups })
}

// Whether no step closes a group that was not opened.
spec fn steady(ops: Seq<OpView>) -> bool
    decreases ops.len(),
{
    ops.len() > 0 ==> {
        &&& steady(ops.drop_last())
        &&& ops.last() is Close ==> open_groups(ops.drop_last()).len() > 0
    }
}

/// What steps show: the groups that they leave open, their drawings and their openings.
#[verifier::opaque]
pub closed spec fn shows(
    ops: Seq<OpView>,
    groups: Seq<OpView>,
    drawn: Seq<Placed>,
    opened: Seq<OpView>,
) -> bool {
    &&& steady(ops)
    &&& open_groups(ops) == groups
    &&& drawings(ops) == drawn
    &&& openings(ops) == opened
}

pub proof fn lemma_shown(
    ops: Seq<OpView>,
    groups: Seq<OpView>,
    drawn: Seq<Placed>,
    opened: Seq<OpView>,
)
    requires
        shows(ops, groups, drawn, opened),
    ensures
        open_groups(ops) == groups,
        drawings(ops) == drawn,
        openings(ops) == opened,
{
    reveal(shows);
}

proof fn lemma_concat(a: Seq<OpView>, b: Seq<OpView>)
    requires
        steady(b),
    ensures
        open_groups(a + b) == open_groups(a) + open_groups(b),
        drawings(a + b) == drawings(a) + within(open_groups(a), drawings(b)),
        openings(a + b) == openings(a) + openings(b),
        steady(a) ==> steady(a + b),
    decreases b.len(),
{
    let g = open_groups(a);
    if b.len() == 0 {
        assert(a + b =~= a);
        assert(drawings(a) + within(g, drawings(b)) =~= drawings(a));
        assert(g + open_groups(b) =~= g);
        assert(openings(a) + openings(b) =~= openings(a));
    } else {
        let init = b.drop_last();
        lemma_concat(a, init);
        assert((a + b).drop_last() =~= a + init);
        assert((a + b).last() == b.last());
        match b.last() {
            OpView::Draw(draw) => {
                let p = Placed { draw, groups: open_groups(init) };
                assert(within(g, drawings(init).push(p)) =~= within(g, drawings(init)).push(
                    Placed { draw, groups: g + open_groups(init) },
                ));
                assert(drawings(a + b) =~= drawings(a) + within(g, drawings(b)));
            },
            OpView::Close => {
                assert((g + open_groups(init)).drop_last() =~= g + open_groups(init).drop_last());
            },
            op => {
                assert((g + open_groups(init)).push(op) =~= g + open_groups(init).push(op));
                assert((openings(a) + openings(init)).push(op) =~= openings(a) + openings(
                    init,
                ).push(op));
            },
        }
    }
}

pub proof fn lemma_nothing()
    ensures
        shows(Seq::empty(), Seq::empty(), Seq::empty(), Seq::empty()),
{
    reveal(shows);
}

/// Steps that close what they open, behind others.
pub proof fn lemma_behind(
    a: Seq<OpView>,
    groups: Seq<OpView>,
    drawn: Seq<Placed>,
    opened: Seq<OpView>,
    b: Seq<OpView>,
    drawn_b: Seq<Placed>,
    opened_b: Seq<OpView>,
)
    requires
        shows(a, groups, drawn, opened),
        shows(b, Seq::empty(), drawn_b, opened_b),
    ensures
        shows(a + b, groups, drawn + within(groups, drawn_b), opened + opened_b),
{
    reveal(shows);
    lemma_concat(a, b);
    assert(groups + Seq::<OpView>::empty() =~= groups);
}

pub proof fn lemma_opening(
    a: Seq<OpView>,
    groups: Seq<OpView>,
    drawn: Seq<Placed>,
    opened: Seq<OpView>,
    op: OpView,
)
    requires
        shows(a, groups, drawn, opened),
        opens(op),
    ensures
        shows(a + seq![op], groups.push(op), drawn, opened.push(op)),
{
    reveal(shows);
    let s = a + seq![op];
    assert(s.drop_last() =~= a);
    assert(s.last() == op);
}

pub proof fn lemma_closing(
    a: Seq<OpView>,
    groups: Seq<OpView>,
    drawn: Seq<Placed>,
    opened: Seq<OpView>,
)
    requires
        shows(a, groups, drawn, opened),
        groups.len() > 0,
    ensures
        shows(a + seq![OpView::Close], groups.drop_last(), drawn, opened),
{
    reveal(shows);
    let s = a + seq![OpView::Close];
    assert(s.drop_last() =~= a);
    assert(s.last() == OpView::Close);
}

pub proof fn lemma_drawing(
    a: Seq<OpView>,
    groups: Seq<OpView>,
    drawn: Seq<Placed>,
    opened: Seq<OpView>,
    draw: Draw,
)
    requires
        shows(a, groups, drawn, opened),
    ensures
        shows(a + seq![OpView::Draw(draw)], groups, drawn.push(Placed { draw, groups }), opened),
{
    reveal(shows);
    let s = a + seq![OpView::Draw(draw)];
    assert(s.drop_last() =~= a);
    assert(s.last() == OpView::Draw(draw));
}

/// A group that may be there is opened.
pub proof fn lemma_any_opening(
    a: Seq<OpView>,
    g: Seq<OpView>,
    l: Seq<Placed>,
    o: Seq<OpView>,
    op: Option<OpView>,
)
    requires
        shows(a, g, l, o),
        op matches Some(op) ==> opens(op),
    ensures
        shows(a + if_any(op), g + if_any(op), l, o + if_any(op)),
{
    match op {
        Some(op) => {
            lemma_opening(a, g, l, o, op);
            assert(g.push(op) =~= g + seq![op]);
            assert(o.push(op) =~= o + seq![op]);
        },
        None => {
            let e = Seq::<OpView>::empty();
            assert(a + e =~= a);
            assert(g + e =~= g);
            assert(o + e =~= o);
        },
    }
}

/// It is closed again.
pub proof fn lemma_any_closing(
    a: Seq<OpView>,
    g: Seq<OpView>,
    op: Option<OpView>,
    l: Seq<Placed>,
    o: Seq<OpView>,
)
    requires
        shows(a, g + if_any(op), l, o),
    ensures
        shows(a + only_if(op is Some, OpView::Close), g, l, o),
{
    match op {
        Some(op) => {
            lemma_closing(a, g + seq![op], l, o);
            assert((g + seq![op]).drop_last() =~= g);
        },
        None => {
            let e = Seq::<OpView>::empty();
            assert(a + e =~= a);
            assert(g + e =~= g);
        },
    }
}

// Steps that never close too much leave as many groups open as their level says.
proof fn lemma_level(ops: Seq<OpView>)
    requires
        forall|i: int| 0 <= i <= ops.len() ==> level(#[trigger] ops.take(i)) >= 0,
    ensures
        steady(ops),
        open_groups(ops).len() == level(ops),
    decreases ops.len(),
{
    assert(ops.take(ops.len() as int) =~= ops);
    if ops.len() > 0 {
        let init = ops.drop_last();
        assert forall|i: int| 0 <= i <= init.len() implies level(#[trigger] init.take(i)) >= 0 by {
            assert(init.take(i) =~= ops.take(i));
        }
        lemma_level(init);
    }
}

pub proof fn lemma_balanced_shows(ops: Seq<OpView>)
    requires
        balanced(ops),
    ensures
        shows(ops, Seq::empty(), drawings(ops), openings(ops)),
{
    reveal(shows);
    lemma_level(ops);
    assert(open_groups(ops) =~= Seq::empty());
}

/// The level of steps counts the groups that they leave open.
pub proof fn lemma_shown_level(
    ops: Seq<OpView>,
    groups: Seq<OpView>,
    drawn: Seq<Placed>,
    opened: Seq<OpView>,
)
    requires
        shows(ops, groups, drawn, opened),
    ensures
        level(ops) == groups.len(),
        forall|i: int| 0 <= i <= ops.len() ==> level(#[trigger] ops.take(i)) >= 0,
{
    reveal(shows);
    lemma_steady_level(ops);
}

proof fn lemma_steady_level(ops: Seq<OpView>)
    requires
        steady(ops),
    ensures
        level(ops) == open_groups(ops).len(),
        forall|i: int| 0 <= i <= ops.len() ==> level(#[trigger] ops.take(i)) >= 0,
    decreases ops.len(),
{
    assert(ops.take(ops.len() as int) =~= ops);
    if ops.len() > 0 {
        let init = ops.drop_last();
        lemma_steady_level(init);
        assert forall|i: int| 0 <= i < ops.len() implies level(#[trigger] ops.take(i)) >= 0 by {
            assert(init.take(i) =~= ops.take(i));
        }
    }
}

/// One group around one drawing.
pub proof fn lemma_framed(op: OpView, draw: Draw)
    requires
        opens(op),
    ensures
        shows(
            seq![op, OpView::Draw(draw), OpView::Close],
            Seq::empty(),
            seq![Placed { draw, groups: seq![op] }],
            seq![op],
        ),
{
    let e = Seq::<OpView>::empty();
    let d = Seq::<Placed>::empty();
    lemma_nothing();
    lemma_opening(e, e, d, e, op);
    assert(e.push(op) =~= seq![op]);
    lemma_drawing(e + seq![op], seq![op], d, seq![op], draw);
    let p = Placed { draw, groups: seq![op] };
    assert(d.push(p) =~= seq![p]);
    lemma_closing(e + seq![op] + seq![OpView::Draw(draw)], seq![op], seq![p], seq![op]);
    assert(seq![op].drop_last() =~= e);
    assert(e + seq![op] + seq![OpView::Draw(draw)] + seq![OpView::Close] =~= seq![
        op,
        OpView::Draw(draw),
        OpView::Close,
    ]);
}

/// Two groups around one drawing.
pub proof fn lemma_framed_twice(outer: OpView, inner: OpView, draw: Draw)
    requires
        opens(outer),
        opens(inner),
    ensures
        shows(
            seq![outer, inner, OpView::Draw(draw), OpView::Close, OpView::Close],
            Seq::empty(),
            seq![Placed { draw, groups: seq![outer, inner] }],
            seq![outer, inner],
        ),
{
    let e = Seq::<OpView>::empty();
    let d = Seq::<Placed>::empty();
    let body = seq![inner, OpView::Draw(draw), OpView::Close];
    let p = Placed { draw, groups: seq![inner] };
    lemma_nothing();
    lemma_opening(e, e, d, e, outer);
    assert(e.push(outer) =~= seq![outer]);
    lemma_framed(inner, draw);
    lemma_behind(e + seq![outer], seq![outer], d, seq![outer], body, seq![p], seq![inner]);
    let both = Placed { draw, groups: seq![outer, inner] };
    assert(seq![outer] + seq![inner] =~= seq![outer, inner]);
    assert(d + within(seq![outer], seq![p]) =~= seq![both]);
    lemma_closing(e + seq![outer] + body, seq![outer], seq![both], seq![outer, inner]);
    assert(seq![outer].drop_last() =~= e);
    assert(e + seq![outer] + body + seq![OpView::Close] =~= seq![
        outer,
        inner,
        OpView::Draw(draw),
        OpView::Close,
        OpView::Close,
    ]);
}

pub proof fn lemma_within_concat(g: Seq<OpView>, a: Seq<Placed>, b: Seq<Placed>)
    ensures
        within(g, a + b) == within(g, a) + within(g, b),
        within(g, Seq::empty()) == Seq::<Placed>::empty(),
{
    assert(within(g, a + b) =~= within(g, a) + within(g, b));
    assert(within(g, Seq::empty()) =~= Seq::<Placed>::empty());
}

pub proof fn lemma_within_twice(g: Seq<OpView>, h: Seq<OpView>, a: Seq<Placed>)
    ensures
        within(g, within(h, a)) == within(g + h, a),
        within(Seq::empty(), a) == a,
{
    assert forall|i: int| 0 <= i < a.len() implies within(g, within(h, a))[i] == within(
        g + h,
        a,
    )[i] by {
        assert(g + (h + a[i].groups) =~= g + h + a[i].groups);
    }
    assert(within(g, within(h, a)) =~= within(g + h, a));
    assert forall|i: int| 0 <= i < a.len() implies within(Seq::empty(), a)[i] == a[i] by {
        assert(Seq::<OpView>::empty() + a[i].groups =~= a[i].groups);
    }
    assert(within(Seq::empty(), a) =~= a);
}

} // verus!
