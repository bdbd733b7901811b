//! The state sync itself.

use trie_db::NibbleVec;
use vstd::prelude::*;
use vstd::slice::{slice_subrange, slice_to_vec};

use crate::hash::{blake2_256, encode_hash, hashed_null_node, HashBytes};
use crate::inline::{key_list, LastKey, Levels};
use crate::level::{Level, LevelView};
use crate::nibbles::nibbles;
use crate::proof_db::{proof_nodes, read_proof, ProofDb};
use crate::schema::{
    levels_view, KeyValueStateEntry, KeyValueStateEntryView, StateRequest, StateResponse,
};
use crate::soundness::{
    keeps_sound, lemma_proof_sound, lemma_resume_sound, lemma_same_walk_sound, values_shown,
};
use crate::storage::{
    add_total_bytes, lemma_total_bytes, levels_bytes, with_levels, KeyValueStates, TrieContents,
};
use crate::sync_view::{
    all_complete, open_keys, reached_keys, PhaseView, StepView, SyncView,
};
use crate::walk::{
    advance, batch_view, go_on, lemma_move_keeps_valid, lemma_node_order, levels_valid, walk_view,
    Advance, Entry, HashDbEmplaceBatch, Pause, WalkView,
};

verus! {

/// The types that a blockchain's blocks are made of.
pub trait Block {
    /// A block's header.
    type Header: Clone + Send + Sync;
    /// A block's number.
    type Number: Copy + Send + Sync;
    /// One of a block's extrinsics.
    type Extrinsic: Clone + Send + Sync;
    /// What justifies a block.
    type Justifications: Clone + Send + Sync;
}

/// The header of the block whose state is synced, with what is read off it.
pub struct TargetHeader<B: Block> {
    /// The header itself.
    pub header: B::Header,
    /// The block's hash.
    pub hash: HashBytes,
    /// The root of the block's state.
    pub state_root: HashBytes,
    /// The block's number.
    pub number: B::Number,
}

/// Reported state sync phase.
#[derive(Clone, Copy, PartialEq, Eq, Debug, Structural)]
pub enum StateSyncPhase {
    /// State download in progress.
    DownloadingState,
    /// Download is complete, state is being imported.
    ImportingState,
}

impl StateSyncPhase {
    /// The phase in words.
    pub fn to_string(&self) -> (words: String)
        ensures
            words@ == match *self {
                StateSyncPhase::DownloadingState => "Downloading state"@,
                StateSyncPhase::ImportingState => "Importing state"@,
            },
    {
        match self {
            StateSyncPhase::DownloadingState => "Downloading state".to_owned(),
            StateSyncPhase::ImportingState => "Importing state".to_owned(),
        }
    }
}

/// Reported state download progress.
#[derive(Clone, Copy, PartialEq, Eq, Debug, Structural)]
pub struct StateSyncProgress {
    /// Estimated download percentage.
    pub percentage: u32,
    /// Total state size in bytes downloaded so far: of proofs or, without proofs, of the keys and
    /// values that are kept. Entries that name child tries do not count.
    pub size: u64,
    /// Current state sync phase.
    pub phase: StateSyncPhase,
}

/// The state of a block, ready for import.
pub struct ImportedState {
    /// The hash of the block.
    pub block: HashBytes,
    /// The state's entries, where they have arrived without a proof.
    pub state: KeyValueStates,
    /// Whether the state has been written to the client's database already.
    pub written: bool,
}

/// Import state chunk result.
pub enum ImportResult<B: Block> {
    /// State is complete and ready for import.
    Import(
        HashBytes,
        B::Header,
        ImportedState,
        Option<Vec<B::Extrinsic>>,
        Option<B::Justifications>,
    ),
    /// Continue downloading.
    Continue,
    /// Bad state chunk.
    BadResponse,
}

/// What an import needs next.
pub enum ImportStep<B: Block> {
    /// Nothing: the import is over.
    Done(ImportResult<B>),
    /// The client's answer to whether its database holds what is at this path with this hash.
    Lookup(NibbleVec, HashBytes),
    /// That the client writes this to its database.
    Write(HashDbEmplaceBatch),
    /// Nothing more can be done: the proof holds something else where a node should be.
    Malformed,
}

/// Whether `copy` may be what cloning `body` gives.
pub open spec fn body_cloned<E: Clone>(body: Option<Vec<E>>, copy: Option<Vec<E>>) -> bool {
    match body {
        None => copy is None,
        Some(body) => {
            &&& copy is Some
            &&& copy->0@.len() == body@.len()
            &&& forall|i: int| 0 <= i < body@.len() ==> cloned(body@[i], #[trigger] copy->0@[i])
        },
    }
}

/// Whether `copy` may be what cloning `justifications` gives.
pub open spec fn justifications_cloned<J: Clone>(
    justifications: Option<J>,
    copy: Option<J>,
) -> bool {
    match justifications {
        None => copy is None,
        Some(justifications) => copy is Some && cloned(justifications, copy->0),
    }
}

/// What a state sync knows of its target besides its hash and the root of its state.
pub struct TargetView<B: Block> {
    pub header: B::Header,
    pub number: B::Number,
    pub body: Option<Vec<B::Extrinsic>>,
    pub justifications: Option<B::Justifications>,
}

/// Whether `step` is what `view` says, of a target that `target` describes.
pub open spec fn step_is<B: Block>(
    step: ImportStep<B>,
    view: StepView,
    sync: SyncView,
    target: TargetView<B>,
) -> bool {
    match view {
        StepView::BadResponse => step == ImportStep::<B>::Done(ImportResult::BadResponse),
        StepView::Continue => step == ImportStep::<B>::Done(ImportResult::Continue),
        StepView::Import(state) => {
            &&& step matches ImportStep::Done(
                ImportResult::Import(block, header, imported, body, justifications),
            )
            &&& block@ == sync.target_block
            &&& cloned(target.header, header)
            &&& imported.block@ == sync.target_block
            &&& imported.state.valid()
            &&& imported.state@ == state
            &&& imported.written == !sync.skip_proof
            &&& body_cloned(target.body, body)
            &&& justifications_cloned(target.justifications, justifications)
        },
        StepView::Lookup(path, hash) => {
            &&& step matches ImportStep::Lookup(asked_path, asked_hash)
            &&& nibbles(asked_path) == path
            &&& asked_hash@ == hash
        },
        StepView::Write(entries) => {
            &&& step matches ImportStep::Write(batch)
            &&& batch_view(batch@) == entries
        },
        StepView::Malformed => step == ImportStep::<B>::Malformed,
    }
}

/// The place that the walk has reached in each trie, from the beginning of that trie.
fn reached(levels: &Levels) -> (keys: LastKey)
    requires
        levels_valid(levels@),
    ensures
        key_list(keys) == reached_keys(levels@),
{
    let mut keys = LastKey::new();
    let mut i: usize = 0;
    while i < levels.len()
        invariant
            levels_valid(levels@),
            i <= levels@.len(),
            key_list(keys) == reached_keys(levels@).take(i as int),
        decreases levels@.len() - i,
    {
        if let Some(level) = levels.get(i) {
            proof {
                assert(level@ == levels@[i as int]);
                if level@.stack.len() > 0 {
                    lemma_node_order(
                        level@,
                        level@.stack.len() - 1,
                        level@.stack.len() as int,
                    );
                }
            }
            let inner = level.prefix.inner();
            let key = slice_subrange(inner, level.initial_prefix_len, inner.len());
            keys.push(slice_to_vec(key));
        }
        i = i + 1;
    }
    keys
}

/// More tries add no fewer bytes.
proof fn lemma_bytes_of_front(
    state: Map<Seq<u8>, TrieContents>,
    levels: Seq<KeyValueStateEntryView>,
    n: int,
)
    requires
        0 <= n <= levels.len(),
    ensures
        levels_bytes(state, levels.take(n)) <= levels_bytes(state, levels),
    decreases levels.len(),
{
    if n < levels.len() {
        lemma_bytes_of_front(state, levels.drop_last(), n);
        assert(levels.drop_last().take(n) =~= levels.take(n));
    } else {
        assert(levels.take(n) =~= levels);
    }
}

/// A response that is being imported.
enum Phase {
    Idle,
    Asking(ProofDb, HashDbEmplaceBatch),
    Writing,
    Failed,
}

impl View for Phase {
    type V = PhaseView;

    closed spec fn view(&self) -> PhaseView {
        match *self {
            Phase::Idle => PhaseView::Idle,
            Phase::Asking(proof, batch) => PhaseView::Asking {
                nodes: proof_nodes(proof),
                batch: batch_view(batch@),
            },
            Phase::Writing => PhaseView::Writing,
            Phase::Failed => PhaseView::Failed,
        }
    }
}

/// State sync state machine. Accumulates partial state data until it is ready to be imported.
///
/// With proofs, what arrives goes to the client's database as it arrives. The sync does not reach
/// that database itself: where an import needs it, the import pauses with an `ImportStep`.
pub struct StateSync<B: Block> {
    target_block: HashBytes,
    target_header: B::Header,
    target_root: HashBytes,
    target_number: B::Number,
    target_body: Option<Vec<B::Extrinsic>>,
    target_justifications: Option<B::Justifications>,
    last_key: LastKey,
    state: KeyValueStates,
    complete: bool,
    imported_bytes: u64,
    skip_proof: bool,
    levels: Levels,
    null_hash: HashBytes,
    phase: Phase,
}

impl<B: Block> View for StateSync<B> {
    type V = SyncView;

    closed spec fn view(&self) -> SyncView {
        SyncView {
            target_block: self.target_block@,
            target_root: self.target_root@,
            null_hash: self.null_hash@,
            skip_proof: self.skip_proof,
            last_key: key_list(self.last_key),
            state: self.state@,
            complete: self.complete,
            imported_bytes: self.imported_bytes as nat,
            levels: self.levels@,
            phase: self.phase@,
        }
    }
}

impl<B: Block> StateSync<B> {
    /// What the sync knows of its target besides its hash and the root of its state.
    pub closed spec fn target(&self) -> TargetView<B> {
        TargetView {
            header: self.target_header,
            number: self.target_number,
            body: self.target_body,
            justifications: self.target_justifications,
        }
    }

    /// Whether each root occurs once among the entries.
    pub closed spec fn roots_unique(&self) -> bool {
        self.state.valid()
    }

    /// Create a new instance.
    pub fn new(
        target_header: TargetHeader<B>,
        target_body: Option<Vec<B::Extrinsic>>,
        target_justifications: Option<B::Justifications>,
        skip_proof: bool,
    ) -> (sync: Self)
        ensures
            sync.valid(),
            sync@ == SyncView::new(
                target_header.hash@,
                target_header.state_root@,
                blake2_256(seq![0u8]),
                skip_proof,
            ),
            sync.target() == (TargetView::<B> {
                header: target_header.header,
                number: target_header.number,
                body: target_body,
                justifications: target_justifications,
            }),
    {
        let mut levels = Levels::new();
        assert(levels@ =~= Seq::<LevelView>::empty());
        if !skip_proof {
            levels.push(Level::new(true, NibbleVec::new(), target_header.state_root));
            assert(levels@ =~= seq![
                LevelView::new(true, Seq::empty(), target_header.state_root@),
            ]);
        }
        StateSync {
            target_block: target_header.hash,
            target_root: target_header.state_root,
            target_number: target_header.number,
            target_header: target_header.header,
            target_body,
            target_justifications,
            last_key: LastKey::new(),
            state: KeyValueStates::new(),
            complete: false,
            imported_bytes: 0,
            skip_proof,
            levels,
            null_hash: hashed_null_node(),
            phase: Phase::Idle,
        }
    }

    /// Whether `response` can be imported now, even if all of its keys and values are kept.
    pub fn admits(&self, response: &StateResponse) -> (admitted: bool)
        ensures
            admitted == self@.admits(response@),
            admitted ==> self@.accepts(response@),
    {
        proof {
            lemma_total_bytes(self@.state, response@.entries);
        }
        if !matches!(self.phase, Phase::Idle) {
            return false;
        }
        if self.skip_proof {
            let no_entries = response.entries.is_empty();
            if self.last_key.len() == 2 && no_entries && !response.proof.is_empty() {
                return false;
            }
            add_total_bytes(&response.entries, self.imported_bytes).is_some()
        } else {
            self.imported_bytes.checked_add(response.proof.len() as u64).is_some()
        }
    }

    /// Ends an import, where `complete` says whether all of the state has arrived.
    fn conclude(&mut self, complete: bool) -> (step: ImportStep<B>)
        requires
            old(self).valid(),
            !old(self)@.skip_proof && complete ==> old(self)@.levels.len() == 0,
        ensures
            final(self).valid(),
            final(self)@ == old(self)@.concluded(complete).0,
            final(self).target() == old(self).target(),
            step_is(step, old(self)@.concluded(complete).1, final(self)@, final(self).target()),
    {
        if complete {
            self.complete = true;
            let mut state = KeyValueStates::new();
            std::mem::swap(&mut state, &mut self.state);
            ImportStep::Done(
                ImportResult::Import(
                    self.target_block,
                    self.target_header.clone(),
                    ImportedState { block: self.target_block, state, written: !self.skip_proof },
                    self.target_body.clone(),
                    self.target_justifications.clone(),
                ),
            )
        } else {
            ImportStep::Done(ImportResult::Continue)
        }
    }

    /// Begins to walk through a proof, and goes on up to where the walk pauses.
    pub fn on_proof_response(&mut self, proof: ProofDb) -> (step: ImportStep<B>)
        requires
            old(self).valid(),
            !old(self)@.skip_proof,
            old(self)@.phase is Idle,
        ensures
            final(self).valid(),
            final(self)@ == old(self)@.walked(
                proof_nodes(proof),
                WalkView { levels: old(self)@.levels, batch: Seq::empty() },
            ).0,
            final(self).target() == old(self).target(),
            step_is(
                step,
                old(self)@.walked(
                    proof_nodes(proof),
                    WalkView { levels: old(self)@.levels, batch: Seq::empty() },
                ).1,
                final(self)@,
                final(self).target(),
            ),
    {
        let batch: HashDbEmplaceBatch = Vec::new();
        assert(batch_view(batch@) =~= Seq::<Entry>::empty());
        self.walk_on(proof, batch)
    }

    /// Goes on with a walk through a proof, up to where it pauses.
    fn walk_on(&mut self, proof: ProofDb, batch: HashDbEmplaceBatch) -> (step: ImportStep<B>)
        requires
            old(self).valid(),
            !old(self)@.skip_proof,
        ensures
            final(self).valid(),
            final(self)@ == old(self)@.walked(
                proof_nodes(proof),
                WalkView { levels: old(self)@.levels, batch: batch_view(batch@) },
            ).0,
            final(self).target() == old(self).target(),
            step_is(
                step,
                old(self)@.walked(
                    proof_nodes(proof),
                    WalkView { levels: old(self)@.levels, batch: batch_view(batch@) },
                ).1,
                final(self)@,
                final(self).target(),
            ),
    {
        let mut batch = batch;
        match go_on(&mut self.levels, &mut batch, &proof, &self.null_hash) {
            Pause::Ask(path, hash) => {
                self.phase = Phase::Asking(proof, batch);
                ImportStep::Lookup(path, hash)
            },
            Pause::Stop => {
                self.phase = Phase::Writing;
                ImportStep::Write(batch)
            },
            Pause::Malformed => {
                self.phase = Phase::Failed;
                ImportStep::Malformed
            },
        }
    }

    /// Takes in entries that have arrived without a proof.
    fn import_entries(&mut self, entries: Vec<KeyValueStateEntry>) -> (step: ImportStep<B>)
        requires
            old(self).valid(),
            old(self)@.skip_proof,
            old(self)@.last_key.len() == 2 ==> entries@.len() > 0,
            old(self)@.imported_bytes + levels_bytes(old(self)@.state, levels_view(entries@))
                <= u64::MAX,
        ensures
            final(self).valid(),
            final(self)@ == old(self)@.import_entries(levels_view(entries@)).0,
            final(self).target() == old(self).target(),
            step_is(
                step,
                old(self)@.import_entries(levels_view(entries@)).1,
                final(self)@,
                final(self).target(),
            ),
    {
        let ghost all = levels_view(entries@);
        let mut complete = true;
        if self.last_key.len() == 2 && entries[0].entries.is_empty() {
            self.last_key.pop();
        } else {
            self.last_key.clear();
        }
        let ghost kept = key_list(self.last_key);
        for level in it: entries.into_iter()
            invariant
                it.seq() == entries@,
                all == levels_view(entries@),
                old(self)@.imported_bytes + levels_bytes(old(self)@.state, all) <= u64::MAX,
                self.roots_unique(),
                self.target() == old(self).target(),
                self@ == (SyncView {
                    last_key: kept + open_keys(all.take(it.index())),
                    state: with_levels(old(self)@.state, all.take(it.index())),
                    imported_bytes: old(self)@.imported_bytes + levels_bytes(
                        old(self)@.state,
                        all.take(it.index()),
                    ),
                    ..old(self)@
                }),
                complete == all_complete(all.take(it.index())),
        {
            let ghost i = it.index();
            let ghost was_complete = complete;
            proof {
                assert(all.take(i + 1).drop_last() =~= all.take(i));
                lemma_bytes_of_front(old(self)@.state, all, i + 1);
            }
            if !level.complete {
                if !level.entries.is_empty() {
                    let last: usize = level.entries.len() - 1;
                    let key = level.entries[last].key.clone();
                    self.last_key.push(key);
                }
                complete = false;
            }
            proof {
                if !was_complete {
                    let j = choose|j: int| 0 <= j < i && !(#[trigger] all.take(i)[j]).complete;
                    assert(!all.take(i + 1)[j].complete);
                }
            }
            let imported_bytes: u64 = self.state.import(level, self.imported_bytes);
            self.imported_bytes = imported_bytes;
        }
        assert(all.take(all.len() as int) =~= all);
        self.conclude(complete)
    }
}

/// Generic state sync provider. Used for mocking in tests.
pub trait StateSyncProvider<B: Block>: Send + Sync {
    /// What every provider keeps to.
    spec fn valid(&self) -> bool;

    /// Whether `response` can be imported now.
    spec fn accepts(&self, response: StateResponse) -> bool;

    /// Whether the import in progress waits for an answer.
    spec fn asks(&self) -> bool;

    /// Whether the import in progress waits for a batch to be written.
    spec fn writes(&self) -> bool;

    /// Validate and import a state response.
    fn import(&mut self, response: StateResponse) -> (step: ImportStep<B>)
        requires
            old(self).valid(),
            old(self).accepts(response),
    ;

    /// Go on with an import after a `Lookup`: the client's database holds what it asked for, or it
    /// does not.
    fn resume(&mut self, known: bool) -> (step: ImportStep<B>)
        requires
            old(self).valid(),
            old(self).asks(),
    ;

    /// Go on with an import after a `Write`: the batch is in the client's database.
    fn written(&mut self) -> (step: ImportStep<B>)
        requires
            old(self).valid(),
            old(self).writes(),
    ;

    /// Produce next state request.
    fn next_request(&self) -> (request: StateRequest)
        requires
            self.valid(),
    ;

    /// Check if the state is complete.
    fn is_complete(&self) -> (complete: bool)
        requires
            self.valid(),
    ;

    /// Returns target block number.
    fn target_number(&self) -> (number: B::Number)
        requires
            self.valid(),
    ;

    /// Returns target block hash.
    fn target_hash(&self) -> (hash: HashBytes)
        requires
            self.valid(),
    ;

    /// Returns state sync estimated progress.
    fn progress(&self) -> (progress: StateSyncProgress)
        requires
            self.valid(),
    ;
}

impl<B: Block> StateSyncProvider<B> for StateSync<B> {
    open spec fn valid(&self) -> bool {
        self.roots_unique() && self@.valid()
    }

    open spec fn accepts(&self, response: StateResponse) -> bool {
        self@.accepts(response@)
    }

    open spec fn asks(&self) -> bool {
        self@.phase is Asking
    }

    open spec fn writes(&self) -> bool {
        self@.phase is Writing
    }

    fn import(&mut self, response: StateResponse) -> (step: ImportStep<B>)
        ensures
            final(self).valid(),
            final(self)@ == old(self)@.import(response@).0,
            final(self).target() == old(self).target(),
            step_is(step, old(self)@.import(response@).1, final(self)@, final(self).target()),
            !old(self)@.skip_proof && step !is Malformed ==> keeps_sound(
                old(self)@,
                final(self)@,
                old(self)@.import(response@).1,
                None,
                values_shown(response@.proof_bytes, old(self)@.target_root),
            ),
    {
        proof {
            lemma_same_walk_sound(
                self@,
                self@,
                StepView::BadResponse,
                values_shown(response@.proof_bytes, self@.target_root),
            );
        }
        if response.entries.is_empty() && response.proof.is_empty() {
            return ImportStep::Done(ImportResult::BadResponse);
        }
        if !self.skip_proof && response.proof.is_empty() {
            return ImportStep::Done(ImportResult::BadResponse);
        }
        if !self.skip_proof {
            let proof_size: u64 = response.proof.len() as u64;
            let proof_db = match read_proof(&response.proof, &self.target_root) {
                Some(proof_db) => proof_db,
                None => {
                    return ImportStep::Done(ImportResult::BadResponse);
                },
            };
            self.imported_bytes = self.imported_bytes + proof_size;
            proof {
                lemma_proof_sound(old(self)@, self@, proof_nodes(proof_db));
            }
            self.on_proof_response(proof_db)
        } else {
            self.import_entries(response.entries)
        }
    }

    fn resume(&mut self, known: bool) -> (step: ImportStep<B>)
        ensures
            final(self).valid(),
            final(self)@ == old(self)@.resume(known).0,
            final(self).target() == old(self).target(),
            step_is(step, old(self)@.resume(known).1, final(self)@, final(self).target()),
            step !is Malformed ==> keeps_sound(
                old(self)@,
                final(self)@,
                old(self)@.resume(known).1,
                if known {
                    Some(old(self)@.levels.last().next_need())
                } else {
                    None
                },
                Set::empty(),
            ),
    {
        proof {
            lemma_resume_sound(self@, known);
        }
        let mut phase = Phase::Writing;
        std::mem::swap(&mut phase, &mut self.phase);
        match phase {
            Phase::Asking(proof, mut batch) => {
                let ghost walk = walk_view(self.levels, batch);
                match advance(&mut self.levels, &mut batch, &proof, known) {
                    Advance::Moved => {
                        proof {
                            lemma_move_keeps_valid(
                                walk,
                                proof_nodes(proof),
                                known,
                                walk_view(self.levels, batch),
                            );
                        }
                        self.walk_on(proof, batch)
                    },
                    Advance::Missing => ImportStep::Write(batch),
                    Advance::Malformed => {
                        self.phase = Phase::Failed;
                        ImportStep::Malformed
                    },
                }
            },
            _ => ImportStep::Malformed,
        }
    }

    fn written(&mut self) -> (step: ImportStep<B>)
        ensures
            final(self).valid(),
            final(self)@ == old(self)@.written().0,
            final(self).target() == old(self).target(),
            step_is(step, old(self)@.written().1, final(self)@, final(self).target()),
            keeps_sound(old(self)@, final(self)@, old(self)@.written().1, None, Set::empty()),
    {
        proof {
            lemma_same_walk_sound(self@, self@.written().0, self@.written().1, Set::empty());
        }
        let complete = self.levels.len() == 0;
        self.last_key = reached(&self.levels);
        self.phase = Phase::Idle;
        self.conclude(complete)
    }

    fn next_request(&self) -> (request: StateRequest)
        ensures
            request.block@ == self@.target_block,
            request.start.deep_view() == self@.last_key,
            request.no_proof == self@.skip_proof,
    {
        StateRequest {
            block: encode_hash(&self.target_block),
            start: self.last_key.to_vec(),
            no_proof: self.skip_proof,
        }
    }

    fn is_complete(&self) -> (complete: bool)
        ensures
            complete == self@.complete,
    {
        self.complete
    }

    fn target_number(&self) -> (number: B::Number)
        ensures
            number == self.target().number,
    {
        self.target_number
    }

    fn target_hash(&self) -> (hash: HashBytes)
        ensures
            hash@ == self@.target_block,
    {
        self.target_block
    }

    fn progress(&self) -> (progress: StateSyncProgress)
        ensures
            progress.percentage == self@.cursor() * 100 / 256,
            progress.size == self@.imported_bytes,
            progress.phase == if self@.complete {
                StateSyncPhase::ImportingState
            } else {
                StateSyncPhase::DownloadingState
            },
    {
        let cursor: u8 = match self.last_key.get(0) {
            Some(last) => if last.is_empty() {
                0
            } else {
                last[0]
            },
            None => 0,
        };
        let percent_done: u32 = cursor as u32 * 100 / 256;
        StateSyncProgress {
            percentage: percent_done,
            size: self.imported_bytes,
            phase: if self.complete {
                StateSyncPhase::ImportingState
            } else {
                StateSyncPhase::DownloadingState
            },
        }
    }
}

} // verus!
