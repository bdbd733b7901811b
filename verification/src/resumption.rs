//! The walk goes on exactly where a proof ended: a short proof and then a longer one lead where the
//! longer one leads alone.

use vstd::prelude::*;

use crate::sync_view::{StepView, SyncView};
use crate::walk::{
    lemma_move_keeps_valid, lemma_silent_move_decreases, levels_valid, question, root_total,
    work_total, AdvanceView, Entry, WalkView,
};

verus! {

/// What a client answers to whether it has what is at a path with a hash, if its answers depend on
/// nothing else.
pub type Answers = spec_fn(Seq<u8>, Seq<u8>) -> bool;

/// The next move of the walk with a client's answers, if it can move.
pub open spec fn next_walk(
    walk: WalkView,
    nodes: Map<Seq<u8>, Seq<u8>>,
    null_hash: Seq<u8>,
    client: Answers,
) -> Option<WalkView> {
    if walk.levels.len() == 0 {
        None
    } else {
        match walk.advance(nodes, knows(walk, null_hash, client)) {
            AdvanceView::Moved(next) => Some(next),
            _ => None,
        }
    }
}

/// What the client answers to what the walk asks next. Where nothing is asked, nothing is missing.
pub open spec fn knows(walk: WalkView, null_hash: Seq<u8>, client: Answers) -> bool {
    match question(walk.levels.last(), null_hash) {
        Some((path, hash)) => client(path, hash),
        None => true,
    }
}

/// The walk after `n` moves with a client's answers, if it can move as often.
pub open spec fn moved(
    walk: WalkView,
    nodes: Map<Seq<u8>, Seq<u8>>,
    null_hash: Seq<u8>,
    client: Answers,
    n: nat,
) -> Option<WalkView>
    decreases n,
{
    if n == 0 {
        Some(walk)
    } else {
        match next_walk(walk, nodes, null_hash, client) {
            Some(next) => moved(next, nodes, null_hash, client, (n - 1) as nat),
            None => None,
        }
    }
}

/// The import after up to `n` of its questions have been answered.
pub open spec fn driven(import: (SyncView, StepView), client: Answers, n: nat) -> (
    SyncView,
    StepView,
)
    decreases n,
{
    match import.1 {
        StepView::Lookup(path, hash) if n > 0 => driven(
            import.0.resume(client(path, hash)),
            client,
            (n - 1) as nat,
        ),
        _ => import,
    }
}

/// The import of a proof that holds `nodes`, after up to `n` of its questions have been answered.
pub open spec fn driven_through(
    sync: SyncView,
    nodes: Map<Seq<u8>, Seq<u8>>,
    client: Answers,
    n: nat,
) -> (SyncView, StepView) {
    let walk = WalkView { levels: sync.levels, batch: Seq::empty() };
    driven(sync.walked(nodes, walk), client, n)
}

/// The end of a walk that cannot move.
spec fn ending(
    sync: SyncView,
    nodes: Map<Seq<u8>, Seq<u8>>,
    walk: WalkView,
    client: Answers,
) -> (SyncView, StepView) {
    if walk.levels.len() > 0 && walk.advance(nodes, knows(walk, sync.null_hash, client))
        is Malformed {
        sync.failed(walk)
    } else {
        sync.stopped(walk)
    }
}

/// An import whose questions are all answered is a walk up to where it cannot move. Returns the
/// number of moves and the end.
proof fn lemma_import_walks(
    sync: SyncView,
    nodes: Map<Seq<u8>, Seq<u8>>,
    walk: WalkView,
    client: Answers,
    n: nat,
) -> (end: (nat, WalkView))
    requires
        levels_valid(walk.levels),
        driven(sync.walked(nodes, walk), client, n).1 !is Lookup,
    ensures
        moved(walk, nodes, sync.null_hash, client, end.0) == Some(end.1),
        next_walk(end.1, nodes, sync.null_hash, client) is None,
        driven(sync.walked(nodes, walk), client, n) == ending(sync, nodes, end.1, client),
    decreases n, root_total(walk.levels), work_total(walk.levels),
{
    let null_hash = sync.null_hash;
    match next_walk(walk, nodes, null_hash, client) {
        None => {
            if walk.levels.len() > 0 && question(walk.levels.last(), null_hash) is Some {
                let known = knows(walk, null_hash, client);
                let resumed = sync.walked(nodes, walk).0.resume(known);
                assert(resumed == driven(resumed, client, (n - 1) as nat));
            }
            (0, walk)
        },
        Some(next) => {
            lemma_move_keeps_valid(walk, nodes, knows(walk, null_hash, client), next);
            let rest = if question(walk.levels.last(), null_hash) is Some {
                lemma_import_walks(sync, nodes, next, client, (n - 1) as nat)
            } else {
                lemma_silent_move_decreases(walk, nodes, next);
                lemma_import_walks(sync, nodes, next, client, n)
            };
            (rest.0 + 1, rest.1)
        },
    }
}

/// A walk up to where it cannot move is an import whose questions are all answered. Returns the
/// number of questions.
proof fn lemma_walk_is_import(
    sync: SyncView,
    nodes: Map<Seq<u8>, Seq<u8>>,
    walk: WalkView,
    client: Answers,
    n: nat,
    end: WalkView,
) -> (asked: nat)
    requires
        levels_valid(walk.levels),
        moved(walk, nodes, sync.null_hash, client, n) == Some(end),
        next_walk(end, nodes, sync.null_hash, client) is None,
    ensures
        driven(sync.walked(nodes, walk), client, asked) == ending(sync, nodes, end, client),
    decreases n,
{
    let null_hash = sync.null_hash;
    if n == 0 {
        if walk.levels.len() > 0 && question(walk.levels.last(), null_hash) is Some {
            let known = knows(walk, null_hash, client);
            let resumed = sync.walked(nodes, walk).0.resume(known);
            assert(resumed == driven(resumed, client, 0));
            1
        } else {
            0
        }
    } else {
        let next = next_walk(walk, nodes, null_hash, client)->0;
        lemma_move_keeps_valid(walk, nodes, knows(walk, null_hash, client), next);
        let asked = lemma_walk_is_import(sync, nodes, next, client, (n - 1) as nat, end);
        if question(walk.levels.last(), null_hash) is Some {
            asked + 1
        } else {
            asked
        }
    }
}

/// A walk ends in one place.
proof fn lemma_one_end(
    walk: WalkView,
    nodes: Map<Seq<u8>, Seq<u8>>,
    null_hash: Seq<u8>,
    client: Answers,
    left: (nat, WalkView),
    right: (nat, WalkView),
)
    requires
        moved(walk, nodes, null_hash, client, left.0) == Some(left.1),
        moved(walk, nodes, null_hash, client, right.0) == Some(right.1),
        next_walk(left.1, nodes, null_hash, client) is None,
        next_walk(right.1, nodes, null_hash, client) is None,
    ensures
        left == right,
    decreases left.0,
{
    if left.0 > 0 && right.0 > 0 {
        let next = next_walk(walk, nodes, null_hash, client)->0;
        lemma_one_end(
            next,
            nodes,
            null_hash,
            client,
            ((left.0 - 1) as nat, left.1),
            ((right.0 - 1) as nat, right.1),
        );
    }
}

/// Moves add up.
proof fn lemma_moves_add_up(
    walk: WalkView,
    nodes: Map<Seq<u8>, Seq<u8>>,
    null_hash: Seq<u8>,
    client: Answers,
    n: nat,
    middle: WalkView,
    m: nat,
)
    requires
        moved(walk, nodes, null_hash, client, n) == Some(middle),
    ensures
        moved(walk, nodes, null_hash, client, n + m) == moved(middle, nodes, null_hash, client, m),
    decreases n,
{
    if n > 0 {
        let next = next_walk(walk, nodes, null_hash, client)->0;
        lemma_moves_add_up(next, nodes, null_hash, client, (n - 1) as nat, middle, m);
    }
}

/// A longer proof leads along the same way.
proof fn lemma_moves_with_more(
    walk: WalkView,
    shorter: Map<Seq<u8>, Seq<u8>>,
    longer: Map<Seq<u8>, Seq<u8>>,
    null_hash: Seq<u8>,
    client: Answers,
    n: nat,
)
    requires
        shorter.submap_of(longer),
        moved(walk, shorter, null_hash, client, n) is Some,
    ensures
        moved(walk, longer, null_hash, client, n) == moved(walk, shorter, null_hash, client, n),
    decreases n,
{
    if n > 0 {
        let next = next_walk(walk, shorter, null_hash, client)->0;
        lemma_moves_with_more(next, shorter, longer, null_hash, client, (n - 1) as nat);
    }
}

/// With `front` in front of what was gathered.
spec fn behind(walk: WalkView, front: Seq<Entry>) -> WalkView {
    WalkView { batch: front + walk.batch, ..walk }
}

/// Where the walk goes does not depend on what it has gathered.
proof fn lemma_advance_behind(
    walk: WalkView,
    nodes: Map<Seq<u8>, Seq<u8>>,
    known: bool,
    front: Seq<Entry>,
)
    requires
        walk.levels.len() > 0,
    ensures
        behind(walk, front).advance(nodes, known) == match walk.advance(nodes, known) {
            AdvanceView::Moved(next) => AdvanceView::Moved(behind(next, front)),
            other => other,
        },
{
}

/// Moves do not depend on what has been gathered.
proof fn lemma_moves_behind(
    walk: WalkView,
    nodes: Map<Seq<u8>, Seq<u8>>,
    null_hash: Seq<u8>,
    client: Answers,
    n: nat,
    front: Seq<Entry>,
)
    requires
        moved(walk, nodes, null_hash, client, n) is Some,
    ensures
        moved(behind(walk, front), nodes, null_hash, client, n) == Some(
            behind(moved(walk, nodes, null_hash, client, n)->0, front),
        ),
    decreases n,
{
    if n > 0 {
        let next = next_walk(walk, nodes, null_hash, client)->0;
        lemma_advance_behind(walk, nodes, knows(walk, null_hash, client), front);
        lemma_moves_behind(next, nodes, null_hash, client, (n - 1) as nat, front);
    }
}

/// Two steps as one: what is handed out to be written stands one behind the other.
pub open spec fn joined(first: StepView, second: StepView) -> StepView {
    match (first, second) {
        (StepView::Write(left), StepView::Write(right)) => StepView::Write(left + right),
        _ => second,
    }
}

/// The walk goes on exactly where a proof ended: a proof and then a longer one that has all that
/// the first one had lead to the same place, and write the same in the same order, as the longer
/// one alone, if the client answers the same to the same questions.
pub proof fn law_longer_proof_goes_on(
    sync: SyncView,
    shorter: Map<Seq<u8>, Seq<u8>>,
    longer: Map<Seq<u8>, Seq<u8>>,
    client: Answers,
    n: nat,
    m: nat,
)
    requires
        sync.valid(),
        shorter.submap_of(longer),
        driven_through(sync, shorter, client, n).1 is Write,
        driven_through(
            driven_through(sync, shorter, client, n).0.written().0,
            longer,
            client,
            m,
        ).1 !is Lookup,
    ensures
        ({
            let (paused, first) = driven_through(sync, shorter, client, n);
            let (after, second) = driven_through(paused.written().0, longer, client, m);
            &&& exists|p: nat| (#[trigger] driven_through(sync, longer, client, p)).1 !is Lookup
            &&& forall|p: nat|
                (#[trigger] driven_through(sync, longer, client, p)).1 !is Lookup ==> {
                    &&& driven_through(sync, longer, client, p).0.levels == after.levels
                    &&& driven_through(sync, longer, client, p).1 == joined(first, second)
                }
        }),
{
    let null_hash = sync.null_hash;
    let start = WalkView { levels: sync.levels, batch: Seq::empty() };
    let paused = driven_through(sync, shorter, client, n).0;
    let (k, middle) = lemma_import_walks(sync, shorter, start, client, n);
    let resumed = paused.written().0;
    let restart = WalkView { levels: middle.levels, batch: Seq::empty() };
    lemma_moved_valid(start, shorter, null_hash, client, k);
    let (l, end) = lemma_import_walks(resumed, longer, restart, client, m);
    let whole = behind(end, middle.batch);
    lemma_moves_with_more(start, shorter, longer, null_hash, client, k);
    lemma_moves_behind(restart, longer, null_hash, client, l, middle.batch);
    lemma_moves_add_up(start, longer, null_hash, client, k, middle, l);
    if end.levels.len() > 0 {
        lemma_advance_behind(end, longer, knows(end, null_hash, client), middle.batch);
    }
    let asked = lemma_walk_is_import(sync, longer, start, client, k + l, whole);
    assert(driven_through(sync, longer, client, asked).1 !is Lookup);
    assert forall|p: nat|
        (#[trigger] driven_through(sync, longer, client, p)).1 !is Lookup implies driven_through(
        sync,
        longer,
        client,
        p,
    ) == ending(sync, longer, whole, client) by {
        let other = lemma_import_walks(sync, longer, start, client, p);
        lemma_one_end(start, longer, null_hash, client, other, (k + l, whole));
    }
}

/// Moves keep every level valid.
proof fn lemma_moved_valid(
    walk: WalkView,
    nodes: Map<Seq<u8>, Seq<u8>>,
    null_hash: Seq<u8>,
    client: Answers,
    n: nat,
)
    requires
        levels_valid(walk.levels),
        moved(walk, nodes, null_hash, client, n) is Some,
    ensures
        levels_valid(moved(walk, nodes, null_hash, client, n)->0.levels),
    decreases n,
{
    if n > 0 {
        let next = next_walk(walk, nodes, null_hash, client)->0;
        lemma_move_keeps_valid(walk, nodes, knows(walk, null_hash, client), next);
        lemma_moved_valid(next, nodes, null_hash, client, (n - 1) as nat);
    }
}

/// The same proof again leads nowhere and writes nothing, if the client answers the same to the
/// same questions.
pub proof fn law_same_proof_writes_nothing(
    sync: SyncView,
    nodes: Map<Seq<u8>, Seq<u8>>,
    client: Answers,
    n: nat,
    m: nat,
)
    requires
        sync.valid(),
        driven_through(sync, nodes, client, n).1 is Write,
        driven_through(
            driven_through(sync, nodes, client, n).0.written().0,
            nodes,
            client,
            m,
        ).1 !is Lookup,
    ensures
        ({
            let paused = driven_through(sync, nodes, client, n).0;
            let (after, second) = driven_through(paused.written().0, nodes, client, m);
            &&& after.levels == paused.levels
            &&& second == StepView::Write(Seq::empty())
        }),
{
    let null_hash = sync.null_hash;
    let start = WalkView { levels: sync.levels, batch: Seq::empty() };
    let paused = driven_through(sync, nodes, client, n).0;
    let (k, middle) = lemma_import_walks(sync, nodes, start, client, n);
    let restart = WalkView { levels: middle.levels, batch: Seq::empty() };
    lemma_moved_valid(start, nodes, null_hash, client, k);
    assert(behind(restart, middle.batch) == middle);
    if middle.levels.len() > 0 {
        lemma_advance_behind(restart, nodes, knows(restart, null_hash, client), middle.batch);
    }
    lemma_import_walks(paused.written().0, nodes, restart, client, m);
}

} // verus!
