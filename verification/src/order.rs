//! The order in which the walk goes through a trie: along ascending paths, never back.

use vstd::prelude::*;

use crate::level::{LevelStateView, LevelView};
use crate::node::{decoded_node, hashed_children, ChildView, NodeView};
use crate::soundness::{levels_sound, History};
use crate::walk::{
    lemma_hashed_children_are_nibbles, lemma_node_start_agrees, levels_valid, AdvanceView, WalkView,
};

verus! {

/// The place that the walk has reached in a trie. The end of a node is behind everything below it.
pub open spec fn position(level: LevelView) -> Seq<int> {
    let path = Seq::new(level.prefix.len(), |i: int| level.prefix[i] as int);
    if level.state is End {
        path.push(256)
    } else {
        path
    }
}

/// Whether `left` is a front part of `right`, or less than it, from the `n`th place on.
pub open spec fn parts(left: Seq<int>, right: Seq<int>, n: int) -> bool {
    &&& 0 <= n <= left.len()
    &&& n < right.len()
    &&& left.take(n) == right.take(n)
    &&& n < left.len() ==> left[n] < right[n]
}

/// Whether one place is another or comes before it.
pub open spec fn at_or_before(left: Seq<int>, right: Seq<int>) -> bool {
    left == right || exists|n: int| #[trigger] parts(left, right, n)
}

/// Whether the walk through the top trie has not gone back, if it is not over.
pub open spec fn goes_forward(before: Seq<LevelView>, after: Seq<LevelView>) -> bool {
    before.len() > 0 && after.len() > 0 ==> at_or_before(position(before[0]), position(after[0]))
}

/// What comes before something comes before all that follows.
proof fn lemma_at_or_before(left: Seq<int>, middle: Seq<int>, right: Seq<int>)
    requires
        at_or_before(left, middle),
        at_or_before(middle, right),
    ensures
        at_or_before(left, right),
{
    if left != middle && middle != right {
        let n = choose|n: int| #[trigger] parts(left, middle, n);
        let m = choose|m: int| #[trigger] parts(middle, right, m);
        let k = if n < m {
            n
        } else {
            m
        };
        assert(left.take(n).take(k) =~= left.take(k));
        assert(middle.take(n).take(k) =~= middle.take(k));
        assert(middle.take(m).take(k) =~= middle.take(k));
        assert(right.take(m).take(k) =~= right.take(k));
        if n < m {
            assert(middle.take(m)[n] == right.take(m)[n]);
        } else if m < n {
            assert(left.take(n)[m] == middle.take(n)[m]);
        }
        assert(parts(left, right, k));
    }
}

/// The nibbles of a node's branches descend.
pub(crate) proof fn lemma_branches_descend(children: Seq<Option<ChildView>>)
    requires
        children.len() <= 16,
    ensures
        forall|i: int, j: int|
            0 <= i < j < hashed_children(children).len() ==> (#[trigger] hashed_children(
                children,
            )[i]).0 > (#[trigger] hashed_children(children)[j]).0,
    decreases children.len(),
{
    if children.len() > 0 {
        let all = hashed_children(children);
        let rest = hashed_children(children.drop_last());
        lemma_branches_descend(children.drop_last());
        lemma_hashed_children_are_nibbles(children.drop_last());
        if let Some(ChildView::Hash(hash)) = children.last() {
            assert(forall|i: int| 0 < i < all.len() ==> #[trigger] all[i] == rest[i - 1]);
            assert(all[0] == ((children.len() - 1) as u8, hash));
        }
    }
}

/// Going into a node leads forward.
proof fn lemma_push_forward(level: LevelView, encoded: Seq<u8>, node: NodeView)
    requires
        level.state is Root || level.state is Branch,
    ensures
        at_or_before(position(level), position(level.push(encoded, node))),
{
    let from = position(level);
    let to = position(level.push(encoded, node));
    if node.partial().len() == 0 {
        assert(from =~= to);
    } else {
        assert(from.take(from.len() as int) =~= to.take(from.len() as int));
        assert(parts(from, to, from.len() as int));
    }
}

/// Going on to the next branch leads forward from anywhere inside the node that is not behind that
/// branch.
proof fn lemma_next_branch_forward(level: LevelView, from: Seq<int>)
    requires
        level.stack.len() > 0,
        level.prefix.len() == level.node_end(level.stack.len() - 1) + if level.state.is_branch() {
            1int
        } else {
            0int
        },
        ({
            let end = level.node_end(level.stack.len() - 1) as int;
            let branches = level.stack.last().branches;
            &&& from.len() >= end
            &&& forall|i: int| 0 <= i < end ==> from[i] == level.prefix[i]
            &&& from.len() > end ==> from[end] < 256
            &&& from.len() > end && branches.len() > 0 ==> from[end] < branches.last().0
        }),
    ensures
        at_or_before(from, position(level.next_branch())),
{
    let next = level.next_branch();
    let to = position(next);
    let last = level.stack.len() - 1;
    let start = level.node_start(last) as int;
    let end = level.node_end(last) as int;
    if level.stack.last().branches.len() > 0 {
        assert(from.take(end) =~= to.take(end));
        assert(parts(from, to, end));
    } else {
        assert(from.take(start) =~= to.take(start));
        assert(parts(from, to, start));
    }
}

/// The branch that is being visited is below those that are still to be visited.
proof fn lemma_branch_below(level: LevelView, k: int, history: History)
    requires
        0 <= k < level.stack.len(),
        level.node_placed(k),
        level.branches_sound(k, history),
        level.inside(k),
        level.stack[k].branches.len() > 0,
    ensures
        level.prefix[level.node_end(k) as int] < level.stack[k].branches.last().0,
{
    let all = hashed_children(level.node(k).children());
    let next = level.stack[k].branches.len() as int;
    lemma_branches_descend(level.node(k).children());
    assert(level.stack[k].branches.last() == all[next - 1]);
}

/// Leaving a value or a branch leads forward.
proof fn lemma_next_forward(level: LevelView, history: History)
    requires
        level.valid(),
        level.sound(history, None),
        level.state.is_value() || level.state is Branch,
    ensures
        at_or_before(position(level), position(level.next_branch())),
{
    let last = level.stack.len() - 1;
    assert(level.node_sound(last, history, None));
    if level.state is Branch && level.stack[last].branches.len() > 0 {
        lemma_branch_below(level, last, history);
    }
    lemma_next_branch_forward(level, position(level));
}

/// Leaving a node leads forward.
proof fn lemma_pop_forward(level: LevelView, history: History)
    requires
        level.valid(),
        level.sound(history, None),
        level.state is End,
        level.stack.len() > 1,
    ensures
        at_or_before(position(level), position(level.pop())),
{
    let above = LevelView {
        stack: level.stack.drop_last(),
        state: LevelStateView::Pop,
        ..level
    };
    let k = above.stack.len() - 1;
    assert(level.node_sound(k, history, None));
    lemma_node_start_agrees(level, above, k);
    if above.stack[k].branches.len() > 0 {
        lemma_branch_below(level, k, history);
    }
    lemma_next_branch_forward(above, position(level));
}

/// Walks that go forward go forward together, where a walk that is over stays so.
pub(crate) proof fn lemma_goes_forward(
    first: Seq<LevelView>,
    second: Seq<LevelView>,
    third: Seq<LevelView>,
)
    requires
        goes_forward(first, second),
        goes_forward(second, third),
        second.len() == 0 ==> third.len() == 0,
    ensures
        goes_forward(first, third),
{
    if first.len() > 0 && third.len() > 0 {
        lemma_at_or_before(position(first[0]), position(second[0]), position(third[0]));
    }
}

/// A move leads forward.
pub(crate) proof fn lemma_move_forward(
    walk: WalkView,
    nodes: Map<Seq<u8>, Seq<u8>>,
    known: bool,
    next: WalkView,
    history: History,
)
    requires
        levels_valid(walk.levels),
        walk.levels.len() > 0,
        levels_sound(walk.levels, history),
        walk.advance(nodes, known) == AdvanceView::Moved(next),
    ensures
        goes_forward(walk.levels, next.levels),
{
    let level = walk.levels.last();
    if walk.levels.len() == 1 {
        assert(walk.levels[0].sound(history, None));
        if level.state is Root || (level.state is Branch && !known) {
            let encoded = nodes[level.state.node_hash()];
            lemma_push_forward(level, encoded, decoded_node(encoded)->0);
        } else {
            match level.state {
                LevelStateView::ChildHash(_, _) if !known => {
                    assert(position(next.levels[0]) =~= position(level));
                },
                LevelStateView::End => {
                    if level.stack.len() > 1 {
                        lemma_pop_forward(level, history);
                    }
                },
                _ => {
                    lemma_next_forward(level, history);
                },
            }
        }
    }
}

} // verus!
