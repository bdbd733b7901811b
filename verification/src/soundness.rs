//! What makes a state sync sound: a node is written only once all that it refers to by hash is in
//! the client's database, so that the database holds the whole state when the walk is over.

use vstd::prelude::*;

use crate::hash::blake2_256;
use crate::level::{value_state, LevelStateView, LevelView};
use crate::node::{decoded_node, hashed_children, NodeView};
use crate::order::{goes_forward, lemma_goes_forward, lemma_move_forward};
use crate::proof_db::{authentic, proof_of};
use crate::sync_view::{PhaseView, StepView, SyncView};
use crate::walk::{
    lemma_move_keeps_valid, lemma_node_order, lemma_node_start_agrees, lemma_silent_move_decreases,
    levels_valid, question, root_total, settle, work_total, AdvanceView, Entry, WalkView,
};

verus! {

/// What stands under a hash.
pub enum Role {
    /// A node, of a trie whose values can be roots of child tries or not.
    Node(bool),
    /// A value.
    Value,
}

/// Something that the state needs: a node or a value, at a path and under a hash.
pub struct Need {
    pub role: Role,
    pub path: Seq<u8>,
    pub hash: Seq<u8>,
}

/// What has gone to the client's database, in order, each with its role, what the client said it
/// had already, and what proofs have held.
pub struct History {
    pub target_root: Seq<u8>,
    pub null_hash: Seq<u8>,
    pub written: Seq<Entry>,
    pub roles: Seq<Role>,
    pub known: Set<Need>,
    pub seen: Set<Seq<u8>>,
}

/// The path at which a node at `path` has its value and its branches.
pub open spec fn value_path(path: Seq<u8>, node: NodeView) -> Seq<u8> {
    path + node.partial()
}

/// What the `j`th of a node's branches needs.
pub open spec fn branch_need(allow_child: bool, path: Seq<u8>, node: NodeView, j: int) -> Need {
    let branch = hashed_children(node.children())[j];
    Need {
        role: Role::Node(allow_child),
        path: value_path(path, node).push(branch.0),
        hash: branch.1,
    }
}

/// What comes next after a node at `path`: its value.
pub open spec fn value_next(allow_child: bool, path: Seq<u8>, node: NodeView) -> LevelStateView {
    value_state(allow_child, value_path(path, node), node.value())
}

/// What a node's value needs: the value itself, the child trie that it is the root of, or nothing.
pub open spec fn value_need(allow_child: bool, path: Seq<u8>, node: NodeView) -> Option<Need> {
    match value_next(allow_child, path, node) {
        LevelStateView::ChildHash(child_path, root) => Some(
            Need { role: Role::Node(false), path: child_path, hash: root },
        ),
        LevelStateView::ValueHash(hash) => Some(
            Need { role: Role::Value, path: value_path(path, node), hash },
        ),
        _ => None,
    }
}

/// What the state needs on the whole: the node at its root.
pub open spec fn root_need(target_root: Seq<u8>) -> Need {
    Need { role: Role::Node(true), path: Seq::empty(), hash: target_root }
}

/// Whether a node at `path` refers to `need` by hash.
pub open spec fn refers(allow_child: bool, path: Seq<u8>, node: NodeView, need: Need) -> bool {
    ||| exists|j: int|
        0 <= j < hashed_children(node.children()).len() && #[trigger] branch_need(
            allow_child,
            path,
            node,
            j,
        ) == need
    ||| value_need(allow_child, path, node) == Some(need)
}

/// Whether `value` is the node that `from` asks for, and refers to `to` by hash.
pub open spec fn links(from: Need, value: Seq<u8>, to: Need) -> bool {
    &&& blake2_256(value) == from.hash
    &&& decoded_node(value) is Some
    &&& from.role matches Role::Node(allow_child) && refers(
        allow_child,
        from.path,
        decoded_node(value)->0,
        to,
    )
}

/// Whether a node among `seen` leads from one need to the next.
pub open spec fn linked(chain: Seq<Need>, i: int, seen: Set<Seq<u8>>) -> bool {
    exists|value: Seq<u8>| seen.contains(value) && #[trigger] links(chain[i], value, chain[i + 1])
}

/// Whether `chain` leads from the root of the state to `need`, from node to node among `seen`.
pub open spec fn leads(
    chain: Seq<Need>,
    target_root: Seq<u8>,
    need: Need,
    seen: Set<Seq<u8>>,
) -> bool {
    &&& chain.len() > 0
    &&& chain[0] == root_need(target_root)
    &&& chain.last() == need
    &&& forall|i: int| 0 <= i < chain.len() - 1 ==> #[trigger] linked(chain, i, seen)
}

/// Whether `need` is reachable from the root of the state through nodes among `seen`.
pub open spec fn reachable(target_root: Seq<u8>, need: Need, seen: Set<Seq<u8>>) -> bool {
    exists|chain: Seq<Need>| #[trigger] leads(chain, target_root, need, seen)
}

/// Everything that `nodes` holds.
pub open spec fn values_of(nodes: Map<Seq<u8>, Seq<u8>>) -> Set<Seq<u8>> {
    Set::new(
        |value: Seq<u8>|
            exists|hash: Seq<u8>| #[trigger] nodes.contains_key(hash) && nodes[hash] == value,
    )
}

impl History {
    /// Whether `need` is reachable from the root of the state through what proofs have held.
    pub open spec fn reaches(self, need: Need) -> bool {
        reachable(self.target_root, need, self.seen)
    }

    /// Whether `need` was the `i`th to be written.
    pub open spec fn wrote(self, need: Need, i: int) -> bool {
        &&& self.roles[i] == need.role
        &&& self.written[i].path == need.path
        &&& self.written[i].hash == need.hash
    }

    /// Whether the database holds `need`, or there is nothing to hold.
    pub open spec fn settled(self, need: Need) -> bool {
        ||| need.hash == self.null_hash
        ||| self.known.contains(need)
        ||| exists|i: int| 0 <= i < self.written.len() && #[trigger] self.wrote(need, i)
    }

    /// Whether the database holds all that a node at `path` refers to by hash.
    pub open spec fn settles(self, allow_child: bool, path: Seq<u8>, node: NodeView) -> bool {
        &&& forall|j: int|
            0 <= j < hashed_children(node.children()).len() ==> self.settled(
                #[trigger] branch_need(allow_child, path, node, j),
            )
        &&& value_need(allow_child, path, node) matches Some(need) ==> self.settled(need)
    }

    /// How it was when `n` entries had been written.
    pub open spec fn up_to(self, n: int) -> History {
        History { written: self.written.take(n), roles: self.roles.take(n), ..self }
    }

    /// What the `i`th entry that was written was needed for.
    pub open spec fn need(self, i: int) -> Need {
        let entry = self.written[i];
        Need { role: self.roles[i], path: entry.path, hash: entry.hash }
    }

    /// Whether what was written as the `i`th is what its hash says, was held by a proof, is
    /// reachable from the root of the state at its path and, if it is a node, came after everything
    /// that it refers to by hash.
    pub open spec fn entry_sound(self, i: int) -> bool {
        let entry = self.written[i];
        &&& blake2_256(entry.value) == entry.hash
        &&& self.seen.contains(entry.value)
        &&& self.reaches(self.need(i))
        &&& self.roles[i] matches Role::Node(allow_child) ==> {
            &&& decoded_node(entry.value) is Some
            &&& decoded_node(entry.value)->0.children().len() <= 16
            &&& self.up_to(i).settles(allow_child, entry.path, decoded_node(entry.value)->0)
        }
    }

    /// Whether everything was written in order.
    pub open spec fn ordered(self) -> bool {
        &&& self.roles.len() == self.written.len()
        &&& forall|i: int| 0 <= i < self.written.len() ==> #[trigger] self.entry_sound(i)
    }

    /// With one more entry written.
    pub open spec fn write(self, entry: Entry, role: Role) -> History {
        History { written: self.written.push(entry), roles: self.roles.push(role), ..self }
    }

    /// With one more answer.
    pub open spec fn learn(self, need: Need) -> History {
        History { known: self.known.insert(need), ..self }
    }

    /// With one more proof.
    pub open spec fn see(self, values: Set<Seq<u8>>) -> History {
        History { seen: self.seen.union(values), ..self }
    }
}

impl LevelView {
    /// What a level needs on the whole: its root.
    pub open spec fn need(self) -> Need {
        Need {
            role: Role::Node(self.allow_child),
            path: self.prefix.take(2 * self.initial_prefix_len as int),
            hash: if self.stack.len() > 0 {
                self.stack[0].hash
            } else {
                self.state.node_hash()
            },
        }
    }

    /// What a level needs next.
    pub open spec fn next_need(self) -> Need {
        match self.state {
            LevelStateView::ChildHash(path, root) => Need {
                role: Role::Node(false),
                path,
                hash: root,
            },
            LevelStateView::ValueHash(hash) => Need { role: Role::Value, path: self.prefix, hash },
            _ => Need {
                role: Role::Node(self.allow_child),
                path: self.prefix,
                hash: self.state.node_hash(),
            },
        }
    }

    /// The `k`th node of the stack.
    pub open spec fn node(self, k: int) -> NodeView {
        decoded_node(self.stack[k].encoded)->0
    }

    /// The path to the `k`th node of the stack.
    pub open spec fn path(self, k: int) -> Seq<u8> {
        self.prefix.take(self.node_start(k) as int)
    }

    /// What the `k`th node of the stack was needed for.
    pub open spec fn stack_need(self, k: int) -> Need {
        Need {
            role: Role::Node(self.allow_child),
            path: self.path(k),
            hash: self.stack[k].hash,
        }
    }

    /// Whether one of the `k`th node's branches is being visited.
    pub open spec fn inside(self, k: int) -> bool {
        k < self.stack.len() - 1 || self.state is Branch
    }

    /// Whether the `k`th node of the stack is the node that its hash says, with its path in its
    /// place.
    pub open spec fn node_placed(self, k: int) -> bool {
        let kept = self.stack[k];
        let node = self.node(k);
        &&& decoded_node(kept.encoded) is Some
        &&& blake2_256(kept.encoded) == kept.hash
        &&& kept.prefix_nibbles == node.partial().len()
        &&& node.children().len() <= 16
        &&& !(self.state is End && k == self.stack.len() - 1) ==> self.prefix.take(
            self.node_end(k) as int,
        ) == value_path(self.path(k), node)
    }

    /// Whether the branches of the `k`th node are accounted for: the first ones are still to be
    /// visited, then comes the one that is being visited, and the rest is settled.
    pub open spec fn branches_sound(self, k: int, history: History) -> bool {
        let kept = self.stack[k];
        let all = hashed_children(self.node(k).children());
        let next = kept.branches.len() as int;
        &&& next <= all.len()
        &&& kept.branches == all.take(next)
        &&& self.state is End && k == self.stack.len() - 1 ==> next == 0
        &&& self.inside(k) ==> {
            &&& next < all.len()
            &&& self.prefix[self.node_end(k) as int] == all[next].0
            &&& all[next].1 == if k < self.stack.len() - 1 {
                self.stack[k + 1].hash
            } else {
                self.state.node_hash()
            }
        }
        &&& forall|j: int|
            next <= j < all.len() && !(self.inside(k) && j == next) ==> history.settled(
                #[trigger] branch_need(self.allow_child, self.path(k), self.node(k), j),
            )
    }

    /// Whether the value of the `k`th node is accounted for: it is settled, or it is next, or it is
    /// the child trie that is being walked.
    pub open spec fn value_sound(self, k: int, history: History, child: Option<Need>) -> bool {
        let need = value_need(self.allow_child, self.path(k), self.node(k));
        &&& need is Some ==> {
            ||| history.settled(need->0)
            ||| k == self.stack.len() - 1 && self.state == value_next(
                self.allow_child,
                self.path(k),
                self.node(k),
            )
            ||| k == self.stack.len() - 1 && self.state is Value && child == need
        }
        &&& k == self.stack.len() - 1 && (self.state is ChildHash || self.state is ValueHash)
            ==> self.state == value_next(self.allow_child, self.path(k), self.node(k))
    }

    /// Whether the `k`th node of the stack is accounted for.
    pub open spec fn node_sound(self, k: int, history: History, child: Option<Need>) -> bool {
        &&& self.node_placed(k)
        &&& history.seen.contains(self.stack[k].encoded)
        &&& history.reaches(self.stack_need(k))
        &&& self.branches_sound(k, history)
        &&& self.value_sound(k, history, child)
    }

    /// Whether every node of the stack is accounted for, where `child` is what a child trie inside
    /// the level needs.
    pub open spec fn sound(self, history: History, child: Option<Need>) -> bool {
        forall|k: int|
            0 <= k < self.stack.len() ==> #[trigger] self.node_sound(k, history, child)
    }
}

/// What the level inside the `i`th one needs, if there is one.
pub open spec fn child_need(levels: Seq<LevelView>, i: int) -> Option<Need> {
    if i + 1 < levels.len() {
        Some(levels[i + 1].need())
    } else {
        None
    }
}

/// Whether all that the state needs is accounted for by the walk and its history: where the walk is
/// over, the root is settled.
pub open spec fn levels_sound(levels: Seq<LevelView>, history: History) -> bool {
    &&& levels.len() <= 2
    &&& if levels.len() == 0 {
        history.settled(root_need(history.target_root))
    } else {
        levels[0].need() == root_need(history.target_root)
    }
    &&& forall|i: int|
        0 <= i < levels.len() ==> {
            &&& (#[trigger] levels[i]).allow_child == (i == 0)
            &&& levels[i].sound(history, child_need(levels, i))
            &&& history.reaches(levels[i].need())
        }
}

/// A history of the same state that settles everything that another one does, and has seen as much.
pub open spec fn grows(before: History, after: History) -> bool {
    &&& after.target_root == before.target_root
    &&& before.seen.subset_of(after.seen)
    &&& forall|need: Need| before.settled(need) ==> #[trigger] after.settled(need)
}

/// What is reachable stays reachable when more has been seen.
proof fn lemma_reachable_grows(
    target_root: Seq<u8>,
    need: Need,
    before: Set<Seq<u8>>,
    after: Set<Seq<u8>>,
)
    requires
        reachable(target_root, need, before),
        before.subset_of(after),
    ensures
        reachable(target_root, need, after),
{
    let chain = choose|chain: Seq<Need>| #[trigger] leads(chain, target_root, need, before);
    assert forall|i: int| 0 <= i < chain.len() - 1 implies #[trigger] linked(chain, i, after) by {
        assert(linked(chain, i, before));
    }
    assert(leads(chain, target_root, need, after));
}

/// What a reachable node refers to is reachable.
proof fn lemma_reachable_next(
    target_root: Seq<u8>,
    from: Need,
    value: Seq<u8>,
    to: Need,
    seen: Set<Seq<u8>>,
)
    requires
        reachable(target_root, from, seen),
        seen.contains(value),
        links(from, value, to),
    ensures
        reachable(target_root, to, seen),
{
    let chain = choose|chain: Seq<Need>| #[trigger] leads(chain, target_root, from, seen);
    let longer = chain.push(to);
    assert forall|i: int| 0 <= i < longer.len() - 1 implies #[trigger] linked(longer, i, seen) by {
        if i < chain.len() - 1 {
            assert(linked(chain, i, seen));
            let link = choose|link: Seq<u8>|
                seen.contains(link) && #[trigger] links(chain[i], link, chain[i + 1]);
            assert(links(longer[i], link, longer[i + 1]));
        } else {
            assert(links(longer[i], value, longer[i + 1]));
        }
    }
    assert(leads(longer, target_root, to, seen));
}

/// The root is reachable.
proof fn lemma_root_reachable(target_root: Seq<u8>, seen: Set<Seq<u8>>)
    ensures
        reachable(target_root, root_need(target_root), seen),
{
    let chain = seq![root_need(target_root)];
    assert(leads(chain, target_root, root_need(target_root), seen));
}

/// What comes next is reachable.
proof fn lemma_next_need_reachable(level: LevelView, history: History)
    requires
        level.valid(),
        level.sound(history, None),
        history.reaches(level.need()),
        level.state is Root || level.state is Branch || level.state is ChildHash
            || level.state is ValueHash,
    ensures
        history.reaches(level.next_need()),
{
    let last = level.stack.len() - 1;
    if level.state is Root {
        assert(level.prefix.take(2 * level.initial_prefix_len as int) =~= level.prefix);
    } else {
        assert(level.node_sound(last, history, None));
        let end = level.node_end(last) as int;
        let next = level.stack[last].branches.len() as int;
        let node = level.node(last);
        if level.state is Branch {
            assert(level.prefix =~= level.prefix.take(end).push(level.prefix[end]));
            assert(branch_need(level.allow_child, level.path(last), node, next)
                == level.next_need());
        } else {
            assert(level.prefix.take(end) =~= level.prefix);
        }
        lemma_reachable_next(
            history.target_root,
            level.stack_need(last),
            level.stack[last].encoded,
            level.next_need(),
            history.seen,
        );
    }
}

/// A level that is accounted for stays so when the history grows.
proof fn lemma_level_grows(
    level: LevelView,
    before: History,
    after: History,
    child: Option<Need>,
    after_child: Option<Need>,
)
    requires
        level.sound(before, child),
        grows(before, after),
        child is Some ==> after_child == child || after.settled(child->0),
    ensures
        level.sound(after, after_child),
{
    assert forall|k: int| 0 <= k < level.stack.len() implies #[trigger] level.node_sound(
        k,
        after,
        after_child,
    ) by {
        assert(level.node_sound(k, before, child));
        lemma_reachable_grows(
            before.target_root,
            level.stack_need(k),
            before.seen,
            after.seen,
        );
    }
}

/// Writing an entry that is what its hash says, after all that it refers to, keeps the order.
proof fn lemma_write(history: History, entry: Entry, role: Role)
    requires
        history.ordered(),
        blake2_256(entry.value) == entry.hash,
        history.seen.contains(entry.value),
        history.reaches(Need { role, path: entry.path, hash: entry.hash }),
        role matches Role::Node(allow_child) ==> decoded_node(entry.value) is Some
            && decoded_node(entry.value)->0.children().len() <= 16 && history.settles(
            allow_child,
            entry.path,
            decoded_node(entry.value)->0,
        ),
    ensures
        history.write(entry, role).ordered(),
        grows(history, history.write(entry, role)),
        history.write(entry, role).settled(Need { role, path: entry.path, hash: entry.hash }),
{
    let after = history.write(entry, role);
    let n = history.written.len() as int;
    assert forall|i: int| 0 <= i < after.written.len() implies #[trigger] after.entry_sound(i) by {
        if i < n {
            assert(history.entry_sound(i));
            assert(after.up_to(i).written =~= history.up_to(i).written);
            assert(after.up_to(i).roles =~= history.up_to(i).roles);
        } else {
            assert(after.up_to(n).written =~= history.written);
            assert(after.up_to(n).roles =~= history.roles);
        }
    }
    assert forall|need: Need| history.settled(need) implies #[trigger] after.settled(need) by {
        if exists|i: int| 0 <= i < history.written.len() && #[trigger] history.wrote(need, i) {
            let i = choose|i: int|
                0 <= i < history.written.len() && #[trigger] history.wrote(need, i);
            assert(after.wrote(need, i));
        }
    }
    assert(after.wrote(Need { role, path: entry.path, hash: entry.hash }, n));
}

/// An answer keeps the order.
proof fn lemma_learn(history: History, need: Need)
    requires
        history.ordered(),
    ensures
        history.learn(need).ordered(),
        grows(history, history.learn(need)),
        history.learn(need).settled(need),
{
    let after = history.learn(need);
    assert forall|i: int| 0 <= i < after.written.len() implies #[trigger] after.entry_sound(i) by {
        assert(history.entry_sound(i));
        assert forall|other: Need| history.up_to(i).settled(other) implies #[trigger] after.up_to(
            i,
        ).settled(other) by {
            lemma_same_settled(history.up_to(i), after.up_to(i), other);
        }
    }
    assert forall|other: Need| history.settled(other) implies #[trigger] after.settled(other) by {
        lemma_same_settled(history, after, other);
    }
}

/// One more proof keeps the order.
proof fn lemma_see(history: History, values: Set<Seq<u8>>)
    requires
        history.ordered(),
    ensures
        history.see(values).ordered(),
        grows(history, history.see(values)),
{
    let after = history.see(values);
    assert forall|i: int| 0 <= i < after.written.len() implies #[trigger] after.entry_sound(i) by {
        assert(history.entry_sound(i));
        lemma_reachable_grows(history.target_root, history.need(i), history.seen, after.seen);
        assert forall|other: Need| history.up_to(i).settled(other) implies #[trigger] after.up_to(
            i,
        ).settled(other) by {
            lemma_same_settled(history.up_to(i), after.up_to(i), other);
        }
    }
    assert forall|other: Need| history.settled(other) implies #[trigger] after.settled(other) by {
        lemma_same_settled(history, after, other);
    }
}

/// What is settled does not depend on what has been seen, and stays settled with more answers.
proof fn lemma_same_settled(before: History, after: History, need: Need)
    requires
        before.settled(need),
        after.null_hash == before.null_hash,
        after.written == before.written,
        after.roles == before.roles,
        before.known.subset_of(after.known),
    ensures
        after.settled(need),
{
    if exists|i: int| 0 <= i < before.written.len() && #[trigger] before.wrote(need, i) {
        let i = choose|i: int| 0 <= i < before.written.len() && #[trigger] before.wrote(need, i);
        assert(after.wrote(need, i));
    }
}

/// Two levels have the same nodes above the `n`th, at the same paths.
spec fn same_above(left: LevelView, right: LevelView, n: int) -> bool {
    &&& left.allow_child == right.allow_child
    &&& left.initial_prefix_len == right.initial_prefix_len
    &&& 0 <= n < left.stack.len()
    &&& n < right.stack.len()
    &&& left.stack.take(n) == right.stack.take(n)
    &&& left.stack[n].hash == right.stack[n].hash
    &&& left.node_start(n) <= left.prefix.len()
    &&& right.node_start(n) <= right.prefix.len()
    &&& left.prefix.take(left.node_start(n) as int) == right.prefix.take(right.node_start(n) as int)
}

/// What is above the `n`th node is accounted for alike.
proof fn lemma_above(left: LevelView, right: LevelView, n: int, history: History, k: int)
    requires
        same_above(left, right, n),
        0 <= k < n,
        left.node_sound(k, history, None),
    ensures
        right.node_sound(k, history, None),
{
    assert forall|i: int| 0 <= i < n implies left.stack[i] == #[trigger] right.stack[i] by {
        assert(left.stack.take(n)[i] == right.stack.take(n)[i]);
    }
    lemma_node_start_agrees(left, right, k);
    lemma_node_start_agrees(left, right, n);
    lemma_node_order(left, k, n);
    let start = left.node_start(k) as int;
    let end = left.node_end(k) as int;
    let up = left.prefix.take(left.node_start(n) as int);
    assert(left.prefix.take(start) =~= up.take(start));
    assert(right.prefix.take(start) =~= up.take(start));
    assert(left.prefix.take(end) =~= up.take(end));
    assert(right.prefix.take(end) =~= up.take(end));
    assert(left.prefix[end] == up[end]);
}

/// A level needs the same on the whole, whatever is below its root.
proof fn lemma_same_need(left: LevelView, right: LevelView, n: int)
    requires
        same_above(left, right, n),
    ensures
        left.need() == right.need(),
{
    if n > 0 {
        assert(left.stack.take(n)[0] == right.stack.take(n)[0]);
        lemma_node_order(left, 0, n);
        lemma_node_order(right, 0, n);
    }
    let start = 2 * left.initial_prefix_len as int;
    let up = left.prefix.take(left.node_start(n) as int);
    assert(left.prefix.take(start) =~= up.take(start));
    assert(right.prefix.take(start) =~= up.take(start));
}

/// Going on to the next branch keeps a level accounted for, where the last node's value and the
/// branch that was being visited are settled.
proof fn lemma_next_branch_sound(level: LevelView, history: History)
    requires
        level.stack.len() > 0,
        level.prefix.len() == level.node_end(level.stack.len() - 1) + if level.state.is_branch() {
            1int
        } else {
            0int
        },
        level.state !is Root,
        level.state !is End,
        forall|k: int|
            0 <= k < level.stack.len() - 1 ==> #[trigger] level.node_sound(k, history, None),
        ({
            let last = level.stack.len() - 1;
            let all = hashed_children(level.node(last).children());
            let next = level.stack[last].branches.len() as int;
            let need = value_need(level.allow_child, level.path(last), level.node(last));
            &&& level.node_placed(last)
            &&& history.seen.contains(level.stack[last].encoded)
            &&& history.reaches(level.stack_need(last))
            &&& need is Some ==> history.settled(need->0)
            &&& next <= all.len()
            &&& level.stack[last].branches == all.take(next)
            &&& forall|j: int|
                next <= j < all.len() ==> history.settled(
                    #[trigger] branch_need(
                        level.allow_child,
                        level.path(last),
                        level.node(last),
                        j,
                    ),
                )
        }),
    ensures
        level.next_branch().sound(history, None),
        level.next_branch().need() == level.need(),
{
    let next = level.next_branch();
    let last = level.stack.len() - 1;
    let node = level.stack[last];
    let start = level.node_start(last) as int;
    let end = level.node_end(last) as int;
    assert(next.stack.take(last) =~= level.stack.take(last));
    lemma_node_start_agrees(level, next, last);
    assert(next.prefix.take(start) =~= level.prefix.take(start));
    lemma_same_need(level, next, last);
    assert forall|k: int| 0 <= k < next.stack.len() implies #[trigger] next.node_sound(
        k,
        history,
        None,
    ) by {
        if k < last {
            lemma_above(level, next, last, history, k);
        } else {
            let all = hashed_children(level.node(last).children());
            if node.branches.len() > 0 {
                assert(next.prefix.take(end) =~= level.prefix.take(end));
                assert(next.stack[last].branches =~= all.take(node.branches.len() - 1));
            }
        }
    }
}

/// Going into a node that is what its hash says keeps a level accounted for.
proof fn lemma_push_sound(level: LevelView, encoded: Seq<u8>, node: NodeView, history: History)
    requires
        level.valid(),
        level.state is Root || level.state is Branch,
        level.fits(node),
        decoded_node(encoded) == Some(node),
        blake2_256(encoded) == level.state.node_hash(),
        history.seen.contains(encoded),
        history.reaches(level.next_need()),
        level.sound(history, None),
    ensures
        level.push(encoded, node).sound(history, None),
        level.push(encoded, node).need() == level.need(),
{
    let next = level.push(encoded, node);
    let last = level.stack.len() as int;
    let start = level.prefix.len() as int;
    lemma_node_start_agrees(level, next, last);
    assert(next.prefix.take(start) =~= level.prefix);
    assert(next.prefix.take(next.node_end(last) as int) =~= next.prefix);
    let all = hashed_children(node.children());
    assert(all.take(all.len() as int) =~= all);
    assert forall|k: int| 0 <= k < next.stack.len() implies #[trigger] next.node_sound(
        k,
        history,
        None,
    ) by {
        if k < last {
            assert(level.node_sound(k, history, None));
            lemma_node_start_agrees(level, next, k);
            lemma_node_order(next, k, last);
            let from = level.node_start(k) as int;
            let to = level.node_end(k) as int;
            assert(next.prefix.take(from) =~= level.prefix.take(from));
            assert(next.prefix.take(to) =~= level.prefix.take(to));
        }
    }
    let begin = 2 * level.initial_prefix_len as int;
    if last > 0 {
        lemma_node_order(level, 0, last);
    }
    assert(next.prefix.take(begin) =~= level.prefix.take(begin));
}

/// The history after the next move, where `known` says whether the client already has what comes
/// next: what was written, and what the client said it had.
pub open spec fn next_history(
    walk: WalkView,
    nodes: Map<Seq<u8>, Seq<u8>>,
    known: bool,
    history: History,
) -> History {
    let level = walk.levels.last();
    let asked = question(level, history.null_hash) is Some;
    match level.state {
        LevelStateView::ValueHash(hash) if asked && !known => history.write(
            Entry { path: level.prefix, hash, value: nodes[hash] },
            Role::Value,
        ),
        LevelStateView::End => history.write(
            Entry {
                path: level.prefix,
                hash: level.stack.last().hash,
                value: level.stack.last().encoded,
            },
            Role::Node(level.allow_child),
        ),
        _ => if asked && known {
            history.learn(level.next_need())
        } else {
            history
        },
    }
}

/// Where the next move settles what comes next and goes on to the next branch, the last level stays
/// accounted for.
proof fn lemma_settle_next(level: LevelView, before: History, after: History)
    requires
        level.valid(),
        level.sound(before, None),
        level.state.is_value() || level.state is Branch,
        grows(before, after),
        level.state !is Value ==> after.settled(level.next_need()),
    ensures
        level.next_branch().sound(after, None),
        level.next_branch().need() == level.need(),
{
    let last = level.stack.len() - 1;
    lemma_level_grows(level, before, after, None, None);
    assert(level.node_sound(last, after, None));
    let end = level.node_end(last) as int;
    if level.state is Branch {
        assert(level.prefix =~= level.prefix.take(end).push(level.prefix[end]));
    } else {
        assert(level.prefix.take(end) =~= level.prefix);
    }
    lemma_next_branch_sound(level, after);
}

/// Leaving a node settles it, with all that it refers to by hash settled before.
proof fn lemma_leave(level: LevelView, history: History)
    requires
        level.valid(),
        level.sound(history, None),
        level.state is End,
        history.ordered(),
    ensures
        ({
            let node = level.stack.last();
            let entry = Entry { path: level.prefix, hash: node.hash, value: node.encoded };
            let after = history.write(entry, Role::Node(level.allow_child));
            &&& after.ordered()
            &&& grows(history, after)
            &&& level.stack.len() > 1 ==> level.pop().sound(after, None) && level.pop().need()
                == level.need()
            &&& level.stack.len() == 1 ==> after.settled(level.need())
        }),
{
    let last = level.stack.len() - 1;
    let kept = level.stack[last];
    let entry = Entry { path: level.prefix, hash: kept.hash, value: kept.encoded };
    let after = history.write(entry, Role::Node(level.allow_child));
    assert(level.node_sound(last, history, None));
    assert(level.path(last) =~= level.prefix);
    lemma_write(history, entry, Role::Node(level.allow_child));
    if last > 0 {
        let above = LevelView {
            stack: level.stack.drop_last(),
            state: LevelStateView::Pop,
            ..level
        };
        let k = last - 1;
        lemma_node_start_agrees(level, above, k);
        lemma_level_grows(level, history, after, None, None);
        assert(level.node_sound(k, after, None));
        let end = level.node_end(k) as int;
        assert(level.prefix =~= level.prefix.take(end).push(level.prefix[end]));
        assert(level.stack.take(k) =~= above.stack.take(k));
        lemma_same_need(level, above, k);
        assert forall|i: int| 0 <= i < k implies #[trigger] above.node_sound(i, after, None) by {
            lemma_above(level, above, k, after, i);
        }
        lemma_next_branch_sound(above, after);
    }
}

/// Levels that are accounted for stay so when the history grows.
proof fn lemma_levels_grow(levels: Seq<LevelView>, before: History, after: History)
    requires
        levels_sound(levels, before),
        grows(before, after),
    ensures
        levels_sound(levels, after),
{
    assert forall|i: int| 0 <= i < levels.len() implies (#[trigger] levels[i]).allow_child == (i
        == 0) && levels[i].sound(after, child_need(levels, i)) && after.reaches(
        levels[i].need(),
    ) by {
        let child = child_need(levels, i);
        lemma_level_grows(levels[i], before, after, child, child);
        lemma_reachable_grows(before.target_root, levels[i].need(), before.seen, after.seen);
    }
}

/// Levels stay accounted for when the last one is exchanged for one that needs the same on the
/// whole.
proof fn lemma_with_last(
    levels: Seq<LevelView>,
    last: LevelView,
    before: History,
    after: History,
)
    requires
        levels.len() > 0,
        levels_sound(levels, before),
        grows(before, after),
        last.sound(after, None),
        last.allow_child == levels.last().allow_child,
        last.need() == levels.last().need(),
    ensures
        levels_sound(levels.drop_last().push(last), after),
{
    let next = levels.drop_last().push(last);
    assert forall|i: int| 0 <= i < next.len() implies (#[trigger] next[i]).allow_child == (i == 0)
        && next[i].sound(after, child_need(next, i)) && after.reaches(next[i].need()) by {
        lemma_reachable_grows(before.target_root, levels[i].need(), before.seen, after.seen);
        if i < next.len() - 1 {
            lemma_level_grows(
                levels[i],
                before,
                after,
                child_need(levels, i),
                child_need(next, i),
            );
        }
    }
}

/// A move keeps the walk accounted for.
proof fn lemma_move_sound(
    walk: WalkView,
    nodes: Map<Seq<u8>, Seq<u8>>,
    known: bool,
    next: WalkView,
    history: History,
)
    requires
        levels_valid(walk.levels),
        walk.levels.len() > 0,
        authentic(nodes),
        values_of(nodes).subset_of(history.seen),
        history.ordered(),
        levels_sound(walk.levels, history),
        question(walk.levels.last(), history.null_hash) is None ==> known,
        walk.advance(nodes, known) == AdvanceView::Moved(next),
    ensures
        next_history(walk, nodes, known, history).ordered(),
        levels_sound(next.levels, next_history(walk, nodes, known, history)),
        next.batch == walk.batch + next_history(walk, nodes, known, history).written.skip(
            history.written.len() as int,
        ),
{
    let levels = walk.levels;
    let level = levels.last();
    let after = next_history(walk, nodes, known, history);
    if level.state is Root || level.state is Branch || level.state is ChildHash
        || level.state is ValueHash {
        lemma_next_need_reachable(level, history);
    }
    if level.state is Root || (level.state is Branch && !known) {
        let encoded = nodes[level.state.node_hash()];
        let node = decoded_node(encoded)->0;
        lemma_push_sound(level, encoded, node, history);
        lemma_with_last(levels, level.push(encoded, node), history, history);
    } else {
        match level.state {
            LevelStateView::ChildHash(path, root) if !known => {
                let above = LevelView { state: LevelStateView::Value, ..level };
                let child = LevelView::new(false, path, root);
                let last = level.stack.len() - 1;
                assert(level.node_sound(last, history, None));
                assert(child.need().path =~= path);
                assert forall|k: int|
                    0 <= k < above.stack.len() implies #[trigger] above.node_sound(
                    k,
                    history,
                    Some(child.need()),
                ) by {
                    assert(level.node_sound(k, history, None));
                    lemma_node_start_agrees(level, above, k);
                }
            },
            LevelStateView::End => {
                lemma_leave(level, history);
                if level.stack.len() > 1 {
                    lemma_with_last(levels, level.pop(), history, after);
                } else {
                    assert forall|i: int| 0 <= i < next.levels.len() implies (
                    #[trigger] next.levels[i]).allow_child == (i == 0) && next.levels[i].sound(
                        after,
                        child_need(next.levels, i),
                    ) by {
                        lemma_level_grows(
                            levels[i],
                            history,
                            after,
                            child_need(levels, i),
                            child_need(next.levels, i),
                        );
                    }
                }
            },
            _ => {
                if question(level, history.null_hash) is Some {
                    if known {
                        lemma_learn(history, level.next_need());
                    } else {
                        lemma_write(history, after.written.last(), Role::Value);
                    }
                }
                lemma_settle_next(level, history, after);
                lemma_with_last(levels, level.next_branch(), history, after);
            },
        }
    }
}

/// A walk that needs no answer stays accounted for up to where it pauses. Returns the history by
/// then.
proof fn lemma_settle_sound(
    walk: WalkView,
    nodes: Map<Seq<u8>, Seq<u8>>,
    history: History,
) -> (after: History)
    requires
        levels_valid(walk.levels),
        authentic(nodes),
        values_of(nodes).subset_of(history.seen),
        history.ordered(),
        levels_sound(walk.levels, history),
    ensures
        after.ordered(),
        after.known == history.known,
        after.seen == history.seen,
        after.target_root == history.target_root,
        after.null_hash == history.null_hash,
        ({
            let paused = settle(walk, nodes, history.null_hash).0;
            let more = after.written.skip(history.written.len() as int);
            &&& levels_sound(paused.levels, after)
            &&& goes_forward(walk.levels, paused.levels)
            &&& walk.levels.len() == 0 ==> paused.levels.len() == 0
            &&& after.written == history.written + more
            &&& paused.batch == walk.batch + more
        }),
    decreases root_total(walk.levels), work_total(walk.levels),
{
    let null_hash = history.null_hash;
    if walk.levels.len() > 0 && question(walk.levels.last(), null_hash) is None {
        if let AdvanceView::Moved(next) = walk.advance(nodes, true) {
            let moved = next_history(walk, nodes, true, history);
            lemma_move_keeps_valid(walk, nodes, true, next);
            lemma_move_sound(walk, nodes, true, next, history);
            lemma_move_forward(walk, nodes, true, next, history);
            lemma_silent_move_decreases(walk, nodes, next);
            let after = lemma_settle_sound(next, nodes, moved);
            let paused = settle(next, nodes, null_hash).0;
            lemma_goes_forward(walk.levels, next.levels, paused.levels);
            after
        } else {
                history
        }
    } else {
        history
    }
}

/// What the import in progress has gathered.
pub open spec fn pending(sync: SyncView) -> Seq<Entry> {
    match sync.phase {
        PhaseView::Asking { batch, .. } => batch,
        _ => Seq::empty(),
    }
}

/// What a step hands out to be written.
pub open spec fn handed_out(step: StepView) -> Seq<Entry> {
    match step {
        StepView::Write(entries) => entries,
        _ => Seq::empty(),
    }
}

/// What a sync has gone through: what it has handed out to be written, what the client said it had,
/// and what proofs have held.
pub struct Past {
    pub written: Seq<Entry>,
    pub known: Set<Need>,
    pub seen: Set<Seq<u8>>,
}

impl Past {
    /// Nothing at all.
    pub open spec fn none() -> Past {
        Past { written: Seq::empty(), known: Set::empty(), seen: Set::empty() }
    }

    /// With one more step: what it hands out, the answer before it, and the proof that came with
    /// it.
    pub open spec fn then_step(
        self,
        step: StepView,
        answer: Option<Need>,
        values: Set<Seq<u8>>,
    ) -> Past {
        Past {
            written: self.written + handed_out(step),
            known: match answer {
                Some(need) => self.known.insert(need),
                None => self.known,
            },
            seen: self.seen.union(values),
        }
    }
}

/// The history of a sync with a past, where `roles` are the roles of what was written and of what
/// is pending.
pub open spec fn sync_history(sync: SyncView, past: Past, roles: Seq<Role>) -> History {
    History {
        target_root: sync.target_root,
        null_hash: sync.null_hash,
        written: past.written + pending(sync),
        roles,
        known: past.known,
        seen: past.seen,
    }
}

/// Whether the history of a sync accounts for all that the state needs.
pub open spec fn sound_with(sync: SyncView, past: Past, roles: Seq<Role>) -> bool {
    let history = sync_history(sync, past, roles);
    &&& history.ordered()
    &&& levels_sound(sync.levels, history)
    &&& sync.phase matches PhaseView::Asking { nodes, .. } ==> authentic(nodes) && values_of(
        nodes,
    ).subset_of(past.seen)
}

/// Whether all that the state needs is accounted for by a sync with this past.
pub open spec fn sound(sync: SyncView, past: Past) -> bool {
    exists|roles: Seq<Role>| #[trigger] sound_with(sync, past, roles)
}

/// Whether a sync that was sound before a step is sound after it: with what the step hands out
/// written, with `answer` among what the client said it had, and with `values` among what proofs
/// have held. The walk has not gone back either.
pub open spec fn keeps_sound(
    before: SyncView,
    after: SyncView,
    step: StepView,
    answer: Option<Need>,
    values: Set<Seq<u8>>,
) -> bool {
    forall|past: Past| #[trigger]
        sound(before, past) ==> {
            &&& sound(after, past.then_step(step, answer, values))
            &&& goes_forward(before.levels, after.levels)
        }
}

/// What the proof in a response holds, if it is one of the trie with root `root`.
pub open spec fn values_shown(bytes: Seq<u8>, root: Seq<u8>) -> Set<Seq<u8>> {
    match proof_of(bytes, root) {
        Some(nodes) => values_of(nodes),
        None => Set::empty(),
    }
}

/// Walking on keeps a sync sound.
proof fn lemma_walked_sound(
    sync: SyncView,
    nodes: Map<Seq<u8>, Seq<u8>>,
    walk: WalkView,
    written: Seq<Entry>,
    history: History,
)
    requires
        levels_valid(walk.levels),
        authentic(nodes),
        values_of(nodes).subset_of(history.seen),
        history.ordered(),
        history.null_hash == sync.null_hash,
        history.target_root == sync.target_root,
        history.written == written + walk.batch,
        levels_sound(walk.levels, history),
    ensures
        ({
            let (after, step) = sync.walked(nodes, walk);
            let past = Past {
                written: written + handed_out(step),
                known: history.known,
                seen: history.seen,
            };
            &&& step !is Malformed ==> sound(after, past)
            &&& goes_forward(walk.levels, after.levels)
            &&& walk.levels.len() == 0 ==> after.levels.len() == 0
        }),
{
    let (after, step) = sync.walked(nodes, walk);
    let paused = settle(walk, nodes, sync.null_hash).0;
    let last = lemma_settle_sound(walk, nodes, history);
    assert(last.written =~= written + paused.batch);
    if step !is Malformed {
        let past = Past {
            written: written + handed_out(step),
            known: history.known,
            seen: history.seen,
        };
        assert(sound_with(after, past, last.roles));
    }
}

/// Going on after an answer keeps a sync sound.
pub(crate) proof fn lemma_resume_sound(sync: SyncView, known: bool)
    requires
        sync.valid(),
        sync.phase is Asking,
    ensures
        sync.resume(known).1 !is Malformed ==> keeps_sound(
            sync,
            sync.resume(known).0,
            sync.resume(known).1,
            if known {
                Some(sync.levels.last().next_need())
            } else {
                None
            },
            Set::empty(),
        ),
{
    let (after, step) = sync.resume(known);
    let answer = if known {
        Some(sync.levels.last().next_need())
    } else {
        None
    };
    if let PhaseView::Asking { nodes, batch } = sync.phase {
        let walk = WalkView { levels: sync.levels, batch };
        assert forall|past: Past| #[trigger] sound(sync, past) && step !is Malformed implies sound(
            after,
            past.then_step(step, answer, Set::empty()),
        ) && goes_forward(sync.levels, after.levels) by {
            let next_past = past.then_step(step, answer, Set::empty());
            assert(next_past.seen =~= past.seen);
            let roles = choose|roles: Seq<Role>| #[trigger] sound_with(sync, past, roles);
            let history = sync_history(sync, past, roles);
            match walk.advance(nodes, known) {
                AdvanceView::Moved(next) => {
                    let moved = next_history(walk, nodes, known, history);
                    lemma_move_sound(walk, nodes, known, next, history);
                    lemma_move_keeps_valid(walk, nodes, known, next);
                    lemma_walked_sound(sync, nodes, next, past.written, moved);
                    lemma_move_forward(walk, nodes, known, next, history);
                    lemma_goes_forward(sync.levels, next.levels, after.levels);
                },
                _ => {
                    assert(sound_with(after, next_past, roles));
                },
            }
        }
    }
}

/// Walking through a proof from where the last one ended keeps a sync sound.
pub(crate) proof fn lemma_proof_sound(
    sync: SyncView,
    imported: SyncView,
    nodes: Map<Seq<u8>, Seq<u8>>,
)
    requires
        sync.valid(),
        sync.phase is Idle,
        authentic(nodes),
        imported == (SyncView { imported_bytes: imported.imported_bytes, ..sync }),
    ensures
        ({
            let walk = WalkView { levels: sync.levels, batch: Seq::empty() };
            let (after, step) = imported.walked(nodes, walk);
            step !is Malformed ==> keeps_sound(sync, after, step, None, values_of(nodes))
        }),
{
    let walk = WalkView { levels: sync.levels, batch: Seq::empty() };
    let (after, step) = imported.walked(nodes, walk);
    assert forall|past: Past| #[trigger] sound(sync, past) && step !is Malformed implies sound(
        after,
        past.then_step(step, None, values_of(nodes)),
    ) && goes_forward(sync.levels, after.levels) by {
        let roles = choose|roles: Seq<Role>| #[trigger] sound_with(sync, past, roles);
        let before = sync_history(sync, past, roles);
        let history = before.see(values_of(nodes));
        lemma_see(before, values_of(nodes));
        lemma_levels_grow(sync.levels, before, history);
        lemma_walked_sound(imported, nodes, walk, past.written, history);
    }
}

/// A step that only ends an import, or begins none, keeps a sync sound.
pub(crate) proof fn lemma_same_walk_sound(
    before: SyncView,
    after: SyncView,
    step: StepView,
    values: Set<Seq<u8>>,
)
    requires
        before.phase !is Asking,
        after.phase !is Asking,
        after.levels == before.levels,
        after.target_root == before.target_root,
        after.null_hash == before.null_hash,
        step !is Write,
    ensures
        keeps_sound(before, after, step, None, values),
{
    assert forall|past: Past| #[trigger] sound(before, past) implies sound(
        after,
        past.then_step(step, None, values),
    ) && goes_forward(before.levels, after.levels) by {
        let roles = choose|roles: Seq<Role>| #[trigger] sound_with(before, past, roles);
        let history = sync_history(before, past, roles);
        let next_past = past.then_step(step, None, values);
        lemma_see(history, values);
        lemma_levels_grow(before.levels, history, history.see(values));
        assert(sound_with(after, next_past, roles));
    }
}

/// Whether `entry` is what `need` asks for, with everything that it refers to by hash in `needs`.
pub open spec fn supplies(entry: Entry, need: Need, needs: Set<Need>) -> bool {
    &&& entry.path == need.path
    &&& entry.hash == need.hash
    &&& blake2_256(entry.value) == entry.hash
    &&& need.role matches Role::Node(allow_child) ==> {
        &&& decoded_node(entry.value) is Some
        &&& ({
            let node = decoded_node(entry.value)->0;
            &&& node.children().len() <= 16
            &&& forall|j: int|
                0 <= j < hashed_children(node.children()).len() ==> needs.contains(
                    #[trigger] branch_need(allow_child, entry.path, node, j),
                )
            &&& value_need(allow_child, entry.path, node) matches Some(value) ==> needs.contains(
                value,
            )
        })
    }
}

/// Whether each of `needs` is the empty node, is among what the client had, or has been written
/// with all that it refers to by hash in `needs` too.
pub open spec fn supplied(
    needs: Set<Need>,
    written: Seq<Entry>,
    known: Set<Need>,
    null_hash: Seq<u8>,
) -> bool {
    forall|need: Need| #[trigger]
        needs.contains(need) ==> {
            ||| need.hash == null_hash
            ||| known.contains(need)
            ||| exists|i: int|
                0 <= i < written.len() && #[trigger] supplies(written[i], need, needs)
        }
}

/// Whether the whole state with root `target_root` has been written, down to the parts that the
/// client had already.
pub open spec fn state_supplied(
    target_root: Seq<u8>,
    written: Seq<Entry>,
    known: Set<Need>,
    null_hash: Seq<u8>,
) -> bool {
    exists|needs: Set<Need>|
        needs.contains(root_need(target_root)) && #[trigger] supplied(
            needs,
            written,
            known,
            null_hash,
        )
}

/// A sync with proofs is sound when it begins: nothing has been written or shown, and the client
/// has said nothing.
pub proof fn law_new_is_sound(target_block: Seq<u8>, target_root: Seq<u8>, null_hash: Seq<u8>)
    ensures
        sound(SyncView::new(target_block, target_root, null_hash, false), Past::none()),
{
    let sync = SyncView::new(target_block, target_root, null_hash, false);
    assert(sync.levels[0].need().path =~= Seq::<u8>::empty());
    lemma_root_reachable(target_root, Set::empty());
    assert(sound_with(sync, Past::none(), Seq::empty()));
}

/// When a sync with proofs is complete, the whole state has been written: the node at the target's
/// root and, with each node, all that it refers to by hash, each under its path and as what its
/// hash says, down to the parts that the client said it had.
pub proof fn law_complete_state_is_supplied(sync: SyncView, past: Past)
    requires
        sync.valid(),
        !sync.skip_proof,
        sync.complete,
        sound(sync, past),
    ensures
        state_supplied(sync.target_root, past.written, past.known, sync.null_hash),
{
    let written = past.written;
    let known = past.known;
    let roles = choose|roles: Seq<Role>| #[trigger] sound_with(sync, past, roles);
    let history = sync_history(sync, past, roles);
    let needs = Set::new(|need: Need| history.settled(need));
    assert forall|need: Need| #[trigger] needs.contains(need) implies {
        ||| need.hash == sync.null_hash
        ||| known.contains(need)
        ||| exists|i: int| 0 <= i < written.len() && #[trigger] supplies(written[i], need, needs)
    } by {
        if exists|i: int| 0 <= i < history.written.len() && #[trigger] history.wrote(need, i) {
            let i = choose|i: int|
                0 <= i < history.written.len() && #[trigger] history.wrote(need, i);
            assert(history.entry_sound(i));
            lemma_up_to_grows(history, i);
            assert(supplies(written[i], need, needs));
        }
    }
    assert(supplied(needs, written, known, sync.null_hash));
}

/// What was settled once stays settled.
proof fn lemma_up_to_grows(history: History, n: int)
    requires
        history.roles.len() == history.written.len(),
        0 <= n <= history.written.len(),
    ensures
        grows(history.up_to(n), history),
{
    let before = history.up_to(n);
    assert forall|need: Need| before.settled(need) implies #[trigger] history.settled(need) by {
        if exists|i: int| 0 <= i < before.written.len() && #[trigger] before.wrote(need, i) {
            let i = choose|i: int|
                0 <= i < before.written.len() && #[trigger] before.wrote(need, i);
            assert(history.wrote(need, i));
        }
    }
}

/// Nodes are written after what they refer to: at any time, each entry that has been handed out is
/// what its hash says, and everything that a node among them refers to by hash has been handed out
/// before it, is the empty node, or is what the client said it had.
pub proof fn law_written_in_order(sync: SyncView, past: Past)
    requires
        sound(sync, past),
    ensures
        exists|roles: Seq<Role>|
            #[trigger] (History {
                target_root: sync.target_root,
                null_hash: sync.null_hash,
                written: past.written,
                roles,
                known: past.known,
                seen: past.seen,
            }).ordered(),
{
    let roles = choose|roles: Seq<Role>| #[trigger] sound_with(sync, past, roles);
    let all = sync_history(sync, past, roles);
    let history = History {
        target_root: sync.target_root,
        null_hash: sync.null_hash,
        written: past.written,
        roles: roles.take(past.written.len() as int),
        known: past.known,
        seen: past.seen,
    };
    assert forall|i: int| 0 <= i < history.written.len() implies #[trigger] history.entry_sound(
        i,
    ) by {
        assert(all.entry_sound(i));
        assert(all.up_to(i).written =~= history.up_to(i).written);
        assert(all.up_to(i).roles =~= history.up_to(i).roles);
    }
    assert(history.ordered());
}

/// Nothing is written that does not belong to the state: each entry that has been handed out is
/// what its hash says, some proof held it, and it is reachable from the target's root at its path,
/// from node to node that proofs have held.
pub proof fn law_written_is_reachable(sync: SyncView, past: Past, i: int)
    requires
        sound(sync, past),
        0 <= i < past.written.len(),
    ensures
        blake2_256(past.written[i].value) == past.written[i].hash,
        past.seen.contains(past.written[i].value),
        exists|role: Role| #[trigger]
            reachable(
                sync.target_root,
                Need { role, path: past.written[i].path, hash: past.written[i].hash },
                past.seen,
            ),
{
    let roles = choose|roles: Seq<Role>| #[trigger] sound_with(sync, past, roles);
    let history = sync_history(sync, past, roles);
    assert(history.entry_sound(i));
}

/// What the client is asked for is what the last level needs next.
pub proof fn law_question_is_next_need(level: LevelView, null_hash: Seq<u8>)
    ensures
        question(level, null_hash) matches Some((path, hash)) ==> level.next_need().path == path
            && level.next_need().hash == hash,
{
}

/// A sync with proofs is inside at most two tries at a time: the top trie, and a child trie.
pub proof fn law_at_most_two_levels(sync: SyncView, past: Past)
    requires
        sound(sync, past),
    ensures
        sync.levels.len() <= 2,
        forall|i: int|
            0 <= i < sync.levels.len() ==> (#[trigger] sync.levels[i]).allow_child == (i == 0),
{
}

} // verus!
