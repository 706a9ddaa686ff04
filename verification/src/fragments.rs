//! The fragments that the steps of an export draw.
use vstd::prelude::*;

use crate::ops::{lemma_ops_view_take, ops_view, Draw, Op, OpView};

verus! {

/// Whether the last step draws, so that a drawing that follows joins its fragment.
pub open spec fn ends_drawing(ops: Seq<OpView>) -> bool {
    ops.len() > 0 && ops.last() is Draw
}

/// The fragments that steps draw, in the order in which they are begun: one for each
/// run of consecutive drawings, one for each confined group, and those of the steps
/// that draw a mask.
pub open spec fn fragments(ops: Seq<OpView>) -> Seq<Seq<Draw>>
    decreases ops,
{
    if ops.len() == 0 {
        Seq::empty()
    } else {
        let init = fragments(ops.drop_last());
        match ops.last() {
            OpView::Draw(draw) => if ends_drawing(ops.drop_last()) {
                init.update(init.len() - 1, init.last().push(draw))
            } else {
                init.push(seq![draw])
            },
            OpView::Confine { draws, .. } => init.push(draws),
            OpView::AlphaMask(steps) => init + fragments(steps),
            _ => init,
        }
    }
}

/// Where the last step draws there is a fragment.
pub proof fn lemma_fragment_begun(ops: Seq<OpView>)
    ensures
        ends_drawing(ops) ==> fragments(ops).len() > 0,
    decreases ops.len(),
{
    if ends_drawing(ops) {
        lemma_fragment_begun(ops.drop_last());
    }
}

/// The drawings of fragments.
pub open spec fn draw_lists(lists: Seq<Vec<Draw>>) -> Seq<Seq<Draw>> {
    lists.map_values(|list: Vec<Draw>| list@)
}

fn copied(draws: &Vec<Draw>) -> (r: Vec<Draw>)
    ensures
        r@ == draws@,
{
    let mut r: Vec<Draw> = Vec::new();
    let mut i: usize = 0;
    while i < draws.len()
        invariant
            0 <= i <= draws.len(),
            r@ == draws@.take(i as int),
        decreases draws.len() - i,
    {
        r.push(draws[i]);
        i = i + 1;
        proof {
            assert(draws@.take(i as int) =~= draws@.take(i - 1).push(draws@[i - 1]));
        }
    }
    proof {
        assert(draws@.take(draws@.len() as int) =~= draws@);
    }
    r
}

/// The fragments that steps draw, in the order in which they are begun.
pub fn fragments_of(ops: &Vec<Op>) -> (lists: Vec<Vec<Draw>>)
    ensures
        draw_lists(lists@) == fragments(ops_view(ops@)),
    decreases ops,
{
    let mut lists: Vec<Vec<Draw>> = Vec::new();
    let mut drawing = false;
    let mut i: usize = 0;
    proof {
        assert(ops@.take(0) =~= Seq::empty());
        assert(draw_lists(lists@) =~= Seq::empty());
    }
    while i < ops.len()
        invariant
            0 <= i <= ops.len(),
            drawing == ends_drawing(ops_view(ops@.take(i as int))),
            draw_lists(lists@) == fragments(ops_view(ops@.take(i as int))),
        decreases ops.len() - i,
    {
        let ghost done = ops_view(ops@.take(i as int));
        let ghost before = draw_lists(lists@);
        let ghost op = ops@[i as int]@;
        proof {
            lemma_ops_view_take(ops@, i as int);
            assert(done.push(op).drop_last() =~= done);
            lemma_fragment_begun(done);
        }
        match &ops[i] {
            Op::Draw(draw) => {
                if drawing {
                    match lists.pop() {
                        Some(list) => {
                            let mut list = list;
                            list.push(*draw);
                            lists.push(list);
                            proof {
                                assert(draw_lists(lists@) =~= before.update(
                                    before.len() - 1,
                                    before.last().push(*draw),
                                ));
                            }
                        },
                        None => {},
                    }
                } else {
                    let mut list: Vec<Draw> = Vec::new();
                    list.push(*draw);
                    proof {
                        assert(list@ =~= seq![*draw]);
                    }
                    lists.push(list);
                    proof {
                        assert(draw_lists(lists@) =~= before.push(seq![*draw]));
                    }
                }
                drawing = true;
            },
            Op::Confine { draws, .. } => {
                lists.push(copied(draws));
                proof {
                    assert(draw_lists(lists@) =~= before.push(draws@));
                }
                drawing = false;
            },
            Op::AlphaMask(steps) => {
                let mut more = fragments_of(steps);
                let ghost below = draw_lists(more@);
                let ghost was = lists@;
                lists.append(&mut more);
                proof {
                    assert(draw_lists(lists@) =~= before + below);
                }
                drawing = false;
            },
            _ => {
                drawing = false;
            },
        }
        i = i + 1;
    }
    proof {
        assert(ops@.take(ops@.len() as int) =~= ops@);
    }
    lists
}

/// Steps that only draw.
pub open spec fn only_draws(ops: Seq<OpView>) -> bool {
    forall|i: int| 0 <= i < ops.len() ==> #[trigger] ops[i] is Draw
}

/// The drawings of steps that only draw.
pub open spec fn drawn(ops: Seq<OpView>) -> Seq<Draw> {
    ops.map_values(|op: OpView| op->Draw_0)
}

/// Drawings that follow each other share one fragment, in their order.
pub proof fn run_of_drawings_is_one_fragment(ops: Seq<OpView>)
    requires
        only_draws(ops),
        ops.len() > 0,
    ensures
        fragments(ops) == seq![drawn(ops)],
    decreases ops.len(),
{
    let init = ops.drop_last();
    assert(ops[ops.len() - 1] is Draw);
    if init.len() == 0 {
        assert(fragments(init) == Seq::<Seq<Draw>>::empty());
        assert(fragments(ops) =~= seq![drawn(ops)]) by {
            assert(drawn(ops) =~= seq![ops.last()->Draw_0]);
        }
    } else {
        run_of_drawings_is_one_fragment(init);
        assert(init.last() == ops[ops.len() - 2]);
        assert(drawn(init).push(ops.last()->Draw_0) =~= drawn(ops));
        assert(fragments(ops) =~= seq![drawn(ops)]);
    }
}

/// A confined group has a fragment with what confines it; a group with a mask has those of
/// the mask; other groups, and what closes a group, have none.
pub proof fn group_has_the_fragments_of_its_definition(op: OpView)
    requires
        !(op is Draw),
    ensures
        fragments(seq![op]) == (match op {
            OpView::Confine { draws, .. } => seq![draws],
            OpView::AlphaMask(steps) => fragments(steps),
            _ => Seq::empty(),
        }),
{
    assert(seq![op].drop_last() =~= Seq::empty());
    assert(fragments(seq![op].drop_last()) == Seq::<Seq<Draw>>::empty());
    if let OpView::AlphaMask(steps) = op {
        assert(Seq::<Seq<Draw>>::empty() + fragments(steps) =~= fragments(steps));
    }
}

/// Fragments do not reach over steps that open or close a group: where drawings do not
/// meet, the fragments of steps behind others come behind those of the others.
pub proof fn fragments_are_parted_by_groups(a: Seq<OpView>, b: Seq<OpView>)
    requires
        !ends_drawing(a) || b.len() == 0 || !(b[0] is Draw),
    ensures
        fragments(a + b) == fragments(a) + fragments(b),
    decreases b.len(),
{
    if b.len() == 0 {
        assert(a + b =~= a);
        assert(fragments(a) + fragments(b) =~= fragments(a));
    } else {
        let init = b.drop_last();
        let all = a + b;
        assert(all.drop_last() =~= a + init);
        assert(all.last() == b.last());
        if init.len() > 0 {
            assert(init[0] == b[0]);
            assert((a + init).last() == init.last());
        } else {
            assert(a + init =~= a);
            assert(b.last() == b[0]);
        }
        fragments_are_parted_by_groups(a, init);
        let fa = fragments(a);
        let fi = fragments(init);
        match b.last() {
            OpView::Draw(draw) => {
                assert(ends_drawing(a + init) == ends_drawing(init));
                if ends_drawing(init) {
                    lemma_fragment_begun(init);
                    assert((fa + fi).update(
                        (fa + fi).len() - 1,
                        (fa + fi).last().push(draw),
                    ) =~= fa + fi.update(fi.len() - 1, fi.last().push(draw)));
                } else {
                    assert((fa + fi).push(seq![draw]) =~= fa + fi.push(seq![draw]));
                }
            },
            OpView::Confine { draws, .. } => {
                assert((fa + fi).push(draws) =~= fa + fi.push(draws));
            },
            OpView::AlphaMask(steps) => {
                let fm = fragments(steps);
                assert(fa + fi + fm =~= fa + (fi + fm));
            },
            _ => {},
        }
    }
}

} // verus!
