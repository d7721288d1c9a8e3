//! The workspace tab/flatten toggle's decisions: recognizing a workspace
//! already in tab mode, and planning which windows a normalization must pull
//! up to the workspace's root level.  The caller runs the marks and moves.

use vstd::prelude::*;

use crate::livetree::LiveLayout;
use crate::livetree::LiveNode;
use crate::livetree::size_of;
use crate::livetree::size_of_seq;
use crate::livetree::lemma_size_seq_concat;

verus! {

/// Whether the workspace is already in tab mode: exactly one child, which
/// carries no window type and is laid out tabbed.
pub open spec fn spec_is_tabmode(ws: LiveNode) -> bool {
    ws.children@.len() == 1 && !ws.children@[0].has_window_type && ws.children@[0].layout
        == LiveLayout::Tabbed
}

/// Whether the workspace is already in tab mode.
pub fn is_tabmode(workspace: &LiveNode) -> (r: bool)
    ensures
        r == spec_is_tabmode(*workspace),
{
    if workspace.children.len() == 1 {
        let child = &workspace.children[0];
        !child.has_window_type && matches!(child.layout, LiveLayout::Tabbed)
    } else {
        false
    }
}

/// The windows below this node, in document order; a childless node is its
/// own window.
pub open spec fn spec_leaves(t: LiveNode) -> Seq<u64>
    decreases t, 0int,
{
    if t.children@.len() == 0 {
        seq![t.id]
    } else {
        leaves_seq(t.children@)
    }
}

pub open spec fn leaves_seq(s: Seq<LiveNode>) -> Seq<u64>
    decreases s, s.len(),
{
    if s.len() == 0 {
        Seq::empty()
    } else {
        spec_leaves(s[0]) + leaves_seq(s.subrange(1, s.len() as int))
    }
}

/// The windows a normalization must move to the workspace mark: every
/// window strictly below a direct child container, in document order.
/// Windows already standing directly under the workspace stay put.
pub open spec fn spec_normalize_moves(ws: LiveNode) -> Seq<u64> {
    norm_seq(ws.children@)
}

pub open spec fn norm_seq(s: Seq<LiveNode>) -> Seq<u64>
    decreases s.len(),
{
    if s.len() == 0 {
        Seq::empty()
    } else {
        (if s[0].children@.len() == 0 {
            Seq::empty()
        } else {
            spec_leaves(s[0])
        }) + norm_seq(s.subrange(1, s.len() as int))
    }
}

pub proof fn lemma_leaves_seq_concat(a: Seq<LiveNode>, b: Seq<LiveNode>)
    ensures
        leaves_seq(a + b) == leaves_seq(a) + leaves_seq(b),
    decreases a.len(),
{
    if a.len() == 0 {
        assert(a + b =~= b);
        assert(leaves_seq(a) + leaves_seq(b) =~= leaves_seq(b));
    } else {
        assert((a + b)[0] == a[0]);
        assert((a + b).subrange(1, (a + b).len() as int) =~= a.subrange(1, a.len() as int) + b);
        lemma_leaves_seq_concat(a.subrange(1, a.len() as int), b);
        assert(spec_leaves(a[0]) + (leaves_seq(a.subrange(1, a.len() as int)) + leaves_seq(b)) =~= (
        spec_leaves(a[0]) + leaves_seq(a.subrange(1, a.len() as int))) + leaves_seq(b));
    }
}

/// Plan the moves that flatten a workspace: the returned window ids, in
/// document order, are exactly the windows standing strictly below a direct
/// child container.
#[verifier::loop_isolation(false)]
#[verifier::rlimit(100)]
pub fn normalize_moves(workspace: &LiveNode) -> (r: Vec<u64>)
    ensures
        r@ == spec_normalize_moves(*workspace),
{
    let mut acc: Vec<u64> = Vec::new();
    let mut stack: Vec<&LiveNode> = Vec::new();
    let clen = workspace.children.len();
    let ghost cs0 = workspace.children@;
    // seed the worklist with the direct children that are containers, in
    // document order (deepest pushes last, so the first child pops first)
    let mut j: usize = clen;
    let ghost mut gstack: Seq<LiveNode> = Seq::empty();
    while j > 0
        invariant
            0 <= j <= clen,
            clen == cs0.len(),
            cs0 == workspace.children@,
            acc@.len() == 0,
            gstack.len() == stack@.len(),
            forall|i: int| 0 <= i < gstack.len() ==> *stack@[i] == gstack[gstack.len() - 1 - i],
            leaves_seq(gstack) == norm_seq(cs0.subrange(j as int, clen as int)),
        decreases j,
    {
        proof {
            assert(cs0.subrange(j as int, clen as int) =~= cs0.subrange(
                (j - 1) as int,
                clen as int,
            ).subrange(1, (clen - j + 1) as int));
        }
        j = j - 1;
        let child = &workspace.children[j];
        let ghost gstack_before = gstack;
        if child.children.len() > 0 {
            stack.push(child);
            proof {
                gstack = seq![cs0[j as int]] + gstack_before;
                assert(gstack.len() == stack@.len());
                assert forall|i: int|
                    0 <= i < gstack.len() implies *stack@[i] == gstack[gstack.len() - 1 - i] by {
                    if i < gstack_before.len() {
                        assert(gstack[gstack.len() - 1 - i] == gstack_before[gstack_before.len()
                            - 1 - i]);
                    } else {
                        assert(gstack.len() - 1 - i == 0);
                        assert(*stack@[i] == cs0[j as int]);
                    }
                }
                lemma_leaves_seq_concat(seq![cs0[j as int]], gstack_before);
                assert(leaves_seq(seq![cs0[j as int]]) =~= spec_leaves(cs0[j as int])) by {
                    assert(seq![cs0[j as int]].subrange(1, 1) =~= Seq::<LiveNode>::empty());
                    assert(leaves_seq(Seq::<LiveNode>::empty()) =~= Seq::<u64>::empty());
                    assert(spec_leaves(cs0[j as int]) + Seq::<u64>::empty() =~= spec_leaves(
                        cs0[j as int],
                    ));
                }
                assert(norm_seq(cs0.subrange(j as int, clen as int)) == spec_leaves(cs0[j as int])
                    + norm_seq(cs0.subrange((j + 1) as int, clen as int))) by {
                    assert(cs0.subrange(j as int, clen as int)[0] == cs0[j as int]);
                    assert(cs0.subrange(j as int, clen as int).subrange(
                        1,
                        (clen - j) as int,
                    ) =~= cs0.subrange((j + 1) as int, clen as int));
                }
                assert(leaves_seq(gstack) == norm_seq(cs0.subrange(j as int, clen as int)));
            }
        } else {
            proof {
                assert(norm_seq(cs0.subrange(j as int, clen as int)) == Seq::<u64>::empty()
                    + norm_seq(cs0.subrange((j + 1) as int, clen as int))) by {
                    assert(cs0.subrange(j as int, clen as int)[0] == cs0[j as int]);
                    assert(cs0.subrange(j as int, clen as int).subrange(
                        1,
                        (clen - j) as int,
                    ) =~= cs0.subrange((j + 1) as int, clen as int));
                }
                assert(Seq::<u64>::empty() + norm_seq(cs0.subrange((j + 1) as int, clen as int))
                    =~= norm_seq(cs0.subrange((j + 1) as int, clen as int)));
            }
        }
    }
    proof {
        assert(cs0.subrange(0, clen as int) =~= cs0);
    }
    // walk the seeded subtrees, collecting every window
    while stack.len() != 0
        invariant
            gstack.len() == stack@.len(),
            forall|i: int| 0 <= i < gstack.len() ==> *stack@[i] == gstack[gstack.len() - 1 - i],
            acc@ + leaves_seq(gstack) == spec_normalize_moves(*workspace),
        decreases size_of_seq(gstack),
    {
        let ghost gstack0 = gstack;
        let current = match stack.pop() {
            Some(current) => current,
            None => {
                proof {
                    assert(false);
                }
                workspace
            },
        };
        let ghost grest = gstack0.subrange(1, gstack0.len() as int);
        proof {
            assert(*current == gstack0[0]);
            assert(forall|i: int|
                0 <= i < grest.len() ==> *stack@[i] == grest[grest.len() - 1 - i]);
            assert(leaves_seq(gstack0) == spec_leaves(gstack0[0]) + leaves_seq(grest));
            assert(size_of_seq(gstack0) == size_of(gstack0[0]) + size_of_seq(grest));
        }
        if current.children.len() == 0 {
            let ghost acc0 = acc@;
            acc.push(current.id);
            proof {
                gstack = grest;
                assert(spec_leaves(gstack0[0]) == seq![gstack0[0].id]);
                assert(acc0.push(gstack0[0].id) + leaves_seq(grest) =~= acc0 + (seq![
                    gstack0[0].id,
                ] + leaves_seq(grest)));
            }
        } else {
            let clen2 = current.children.len();
            let ghost cs = current.children@;
            let mut j2: usize = clen2;
            while j2 > 0
                invariant
                    0 <= j2 <= clen2,
                    clen2 == cs.len(),
                    cs == current.children@,
                    stack@.len() == grest.len() + (clen2 - j2),
                    forall|i: int|
                        0 <= i < grest.len() ==> *stack@[i] == grest[grest.len() - 1 - i],
                    forall|k: int|
                        j2 <= k < clen2 ==> *stack@[grest.len() + (clen2 - 1 - k)] == cs[k],
                decreases j2,
            {
                j2 = j2 - 1;
                stack.push(&current.children[j2]);
            }
            proof {
                gstack = cs + grest;
                assert(gstack.len() == stack@.len());
                assert forall|i: int|
                    0 <= i < gstack.len() implies *stack@[i] == gstack[gstack.len() - 1 - i] by {
                    if i < grest.len() {
                        assert(gstack[gstack.len() - 1 - i] == grest[grest.len() - 1 - i]);
                    } else {
                        let k = grest.len() + cs.len() - 1 - i;
                        assert(0 <= k < cs.len());
                        assert(i == grest.len() + (cs.len() - 1 - k));
                        assert(*stack@[i] == cs[k]);
                        assert(gstack[gstack.len() - 1 - i] == cs[k]);
                    }
                }
                lemma_leaves_seq_concat(cs, grest);
                assert(spec_leaves(gstack0[0]) == leaves_seq(cs));
                assert(acc@ + (leaves_seq(cs) + leaves_seq(grest)) =~= acc@ + leaves_seq(gstack0));
                lemma_size_seq_concat(cs, grest);
                assert(size_of_seq(gstack) < size_of_seq(gstack0));
            }
        }
    }
    proof {
        assert(gstack =~= Seq::<LiveNode>::empty());
        assert(acc@ + leaves_seq(gstack) =~= acc@);
    }
    acc
}

} // verus!
