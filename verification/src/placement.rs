//! The decisions taken while moving a photo to its destination name: when it
//! is already in place, when a file at a candidate name is a duplicate of it,
//! when to try the next numbered name, and where it finally goes.
//!
//! The work in between (reading sizes, hashing, consulting the claims and the
//! disk, moving) is the caller's: each step returns the next thing to do and
//! takes what that gave.

use vstd::prelude::*;
use vstd::slice::slice_to_vec;
use crate::naming::{numbered, numbered_path};
use crate::path::{path_components, paths_equal};

verus! {

/// How a move is done.
#[derive(Clone, Copy, PartialEq, Eq, Structural, Debug)]
pub struct MoveOptions {
    /// Compare file contents by hash, not only sizes.
    pub checksum: bool,
    /// Only report what would happen.
    pub dry_run: bool,
    /// Remove a source whose contents are already at the destination.
    pub remove_source: bool,
    /// Move such a source to the trash instead.
    pub trash_source: bool,
}

/// What becomes of a source whose contents are already at the destination.
#[derive(Clone, Copy, PartialEq, Eq, Structural, Debug)]
pub enum DiscardAction {
    Keep,
    Remove,
    Trash,
}

/// A dry run keeps the source; otherwise `remove_source` removes it, and
/// failing that `trash_source` trashes it.
pub open spec fn discard_for(dry_run: bool, remove_source: bool, trash_source: bool) -> DiscardAction {
    if dry_run {
        DiscardAction::Keep
    } else if remove_source {
        DiscardAction::Remove
    } else if trash_source {
        DiscardAction::Trash
    } else {
        DiscardAction::Keep
    }
}

/// What to do with a source file once its contents are known to be at the
/// destination.
pub fn discard_source(dry_run: bool, remove_source: bool, trash_source: bool) -> (r: DiscardAction)
    ensures
        r == discard_for(dry_run, remove_source, trash_source),
        dry_run ==> r == DiscardAction::Keep,
        !dry_run && remove_source ==> r == DiscardAction::Remove,
        !dry_run && !remove_source && trash_source ==> r == DiscardAction::Trash,
        !dry_run && !remove_source && !trash_source ==> r == DiscardAction::Keep,
{
    if dry_run {
        DiscardAction::Keep
    } else if remove_source {
        DiscardAction::Remove
    } else if trash_source {
        DiscardAction::Trash
    } else {
        DiscardAction::Keep
    }
}

/// Whether two files are duplicates, as far as their sizes tell.
#[derive(Clone, Copy, PartialEq, Eq, Structural, Debug)]
pub enum MatchCheck {
    /// Settled: `true` when they are duplicates.
    Decided(bool),
    /// Same size and contents are compared: their hashes decide.
    CompareHashes,
}

/// Different sizes never match; same sizes match, unless contents are
/// compared, and then the hashes decide.
pub open spec fn match_check(source_size: u64, dest_size: u64, use_checksum: bool) -> MatchCheck {
    if source_size != dest_size {
        MatchCheck::Decided(false)
    } else if use_checksum {
        MatchCheck::CompareHashes
    } else {
        MatchCheck::Decided(true)
    }
}

/// Checks whether two files are duplicates: with `use_checksum` their
/// contents are compared (by hash, once the sizes agree), otherwise only
/// their sizes.
pub fn files_match(source_size: u64, dest_size: u64, use_checksum: bool) -> (r: MatchCheck)
    ensures
        r == match_check(source_size, dest_size, use_checksum),
        source_size != dest_size ==> r == MatchCheck::Decided(false),
        source_size == dest_size && !use_checksum ==> r == MatchCheck::Decided(true),
        source_size == dest_size && use_checksum ==> r == MatchCheck::CompareHashes,
{
    if source_size != dest_size {
        MatchCheck::Decided(false)
    } else if use_checksum {
        MatchCheck::CompareHashes
    } else {
        MatchCheck::Decided(true)
    }
}

/// What becomes of a duplicate's source: a dry run keeps it whatever the
/// flags say; otherwise `--remove-source` alone decides removal (whatever
/// `--trash-source` says), `--trash-source` alone trashes it, and with
/// neither it is kept.
pub proof fn lemma_discard_rules(remove_source: bool, trash_source: bool)
    ensures
        discard_for(true, remove_source, trash_source) == DiscardAction::Keep,
        discard_for(false, true, trash_source) == DiscardAction::Remove,
        discard_for(false, false, true) == DiscardAction::Trash,
        discard_for(false, false, false) == DiscardAction::Keep,
{
}

/// When a file at a name duplicates the source: files of different sizes
/// never do; without `--checksum`, equal sizes alone make a duplicate; with
/// it, equal sizes leave the decision to the contents' hashes.
pub proof fn lemma_match_rules(source_size: u64, dest_size: u64, use_checksum: bool)
    ensures
        source_size != dest_size ==> match_check(source_size, dest_size, use_checksum)
            == MatchCheck::Decided(false),
        match_check(source_size, source_size, false) == MatchCheck::Decided(true),
        match_check(source_size, source_size, true) == MatchCheck::CompareHashes,
{
}

/// The `attempt`-th name tried for a file bound for `dest`: `dest` itself,
/// then its numbered variants `_1`, `_2`, ...
pub open spec fn candidate(dest: Seq<u8>, attempt: nat) -> Seq<u8> {
    if attempt == 0 {
        dest
    } else {
        numbered(dest, attempt)
    }
}

/// How a move ends.
pub enum Outcome {
    /// The source already is the file at this name; nothing is done.
    AlreadyInPlace(Vec<u8>),
    /// A file with the same contents holds `target`; the source is not moved
    /// again, only discarded as the options say.
    Duplicate { target: Vec<u8>, discard: DiscardAction },
    /// The source goes to `target`, a name nothing held (claimed for it):
    /// `renamed` when that is a numbered name; `perform_move` unless this is
    /// a dry run.
    Place { target: Vec<u8>, renamed: bool, perform_move: bool },
}

/// An outcome as a value.
pub enum OutcomeView {
    AlreadyInPlace(Seq<u8>),
    Duplicate { target: Seq<u8>, discard: DiscardAction },
    Place { target: Seq<u8>, renamed: bool, perform_move: bool },
}

impl View for Outcome {
    type V = OutcomeView;

    open spec fn view(&self) -> OutcomeView {
        match self {
            Outcome::AlreadyInPlace(p) => OutcomeView::AlreadyInPlace(p@),
            Outcome::Duplicate { target, discard } => OutcomeView::Duplicate {
                target: target@,
                discard: *discard,
            },
            Outcome::Place { target, renamed, perform_move } => OutcomeView::Place {
                target: target@,
                renamed: *renamed,
                perform_move: *perform_move,
            },
        }
    }
}

/// The next thing to do for a move.
pub enum MoveAction {
    /// Read the source's size; answer with `on_source_size`.
    ReadSourceSize,
    /// Find which file, if any, holds this name (claims, then disk) and claim
    /// it if free; answer with `on_occupant`.
    ResolveName(Vec<u8>),
    /// Read the size of this file, which holds the current name; answer with
    /// `on_occupant_size`.
    ReadOccupantSize(Vec<u8>),
    /// Hash the source and this file; answer with `on_hashes`.
    HashFiles(Vec<u8>),
    /// The move is decided.
    Finish(Outcome),
}

/// An action as a value.
pub enum ActionView {
    ReadSourceSize,
    ResolveName(Seq<u8>),
    ReadOccupantSize(Seq<u8>),
    HashFiles(Seq<u8>),
    Finish(OutcomeView),
}

impl View for MoveAction {
    type V = ActionView;

    open spec fn view(&self) -> ActionView {
        match self {
            MoveAction::ReadSourceSize => ActionView::ReadSourceSize,
            MoveAction::ResolveName(p) => ActionView::ResolveName(p@),
            MoveAction::ReadOccupantSize(p) => ActionView::ReadOccupantSize(p@),
            MoveAction::HashFiles(p) => ActionView::HashFiles(p@),
            MoveAction::Finish(o) => ActionView::Finish(o@),
        }
    }
}

/// What a move waits for.
#[derive(Clone, Copy, PartialEq, Eq, Structural, Debug)]
pub enum Phase {
    AwaitSourceSize,
    AwaitOccupant,
    AwaitOccupantSize,
    AwaitHashes,
    Done,
}

/// The phase an action leaves a move in.
pub open spec fn phase_after(a: ActionView) -> Phase {
    match a {
        ActionView::ReadSourceSize => Phase::AwaitSourceSize,
        ActionView::ResolveName(_) => Phase::AwaitOccupant,
        ActionView::ReadOccupantSize(_) => Phase::AwaitOccupantSize,
        ActionView::HashFiles(_) => Phase::AwaitHashes,
        ActionView::Finish(_) => Phase::Done,
    }
}

/// What to do on reaching the name `target`: if it is the source itself,
/// the source is already in place; otherwise find out what holds it.
pub open spec fn visit_action(target: Seq<u8>, source: Seq<u8>) -> ActionView {
    if path_components(target) == path_components(source) {
        ActionView::Finish(OutcomeView::AlreadyInPlace(target))
    } else {
        ActionView::ResolveName(target)
    }
}

/// A move as a value: the file, its destination and options, the source's
/// size once read, how many names were found taken, the name being tried,
/// the file found there, and what the move waits for.
pub struct PlanView {
    pub source: Seq<u8>,
    pub dest: Seq<u8>,
    pub options: MoveOptions,
    pub source_size: u64,
    pub attempt: nat,
    pub target: Seq<u8>,
    pub occupant: Seq<u8>,
    pub phase: Phase,
}

/// What the caller reports back for the last action.
pub enum Event {
    /// The source's size.
    SourceSize(u64),
    /// What holds the name being tried: nothing (the name is now claimed for
    /// the source), or this file.
    Occupant(Option<Seq<u8>>),
    /// The size of the file holding the name.
    OccupantSize(u64),
    /// The hashes of the source and of the file holding the name.
    Hashes(u64, u64),
}

/// A reported occupant as a value.
pub open spec fn occupant_view(o: Option<&[u8]>) -> Option<Seq<u8>> {
    match o {
        Some(p) => Some(p@),
        None => None,
    }
}

/// Whether a move in state `s` waits for the event `e`.
pub open spec fn expects(s: PlanView, e: Event) -> bool {
    match e {
        Event::SourceSize(_) => s.phase == Phase::AwaitSourceSize,
        Event::Occupant(_) => s.phase == Phase::AwaitOccupant,
        Event::OccupantSize(_) => s.phase == Phase::AwaitOccupantSize,
        Event::Hashes(_, _) => s.phase == Phase::AwaitHashes,
    }
}

/// Reaching the name `s.target`.
pub open spec fn visited(s: PlanView) -> (PlanView, ActionView) {
    let a = visit_action(s.target, s.source);
    (PlanView { phase: phase_after(a), ..s }, a)
}

/// Going on to the next numbered name.
pub open spec fn advanced(s: PlanView) -> (PlanView, ActionView) {
    visited(PlanView { attempt: s.attempt + 1, target: numbered(s.dest, s.attempt + 1), ..s })
}

/// Finding a duplicate at the name `s.target`.
pub open spec fn duplicate_at(s: PlanView) -> (PlanView, ActionView) {
    (
        PlanView { phase: Phase::Done, ..s },
        ActionView::Finish(
            OutcomeView::Duplicate {
                target: s.target,
                discard: discard_for(
                    s.options.dry_run,
                    s.options.remove_source,
                    s.options.trash_source,
                ),
            },
        ),
    )
}

/// A move starting: in place already when source and destination are the
/// same path; otherwise the source's size is needed.
pub open spec fn started(source: Seq<u8>, dest: Seq<u8>, options: MoveOptions) -> (
    PlanView,
    ActionView,
) {
    let a = if path_components(source) == path_components(dest) {
        ActionView::Finish(OutcomeView::AlreadyInPlace(dest))
    } else {
        ActionView::ReadSourceSize
    };
    (
        PlanView {
            source,
            dest,
            options,
            source_size: 0,
            attempt: 0,
            target: dest,
            occupant: Seq::empty(),
            phase: phase_after(a),
        },
        a,
    )
}

/// The next state of a move and the next action, on the event `e`:
/// - the source's size known, the destination itself is tried;
/// - a name nothing holds is where the source goes (`renamed` when it is a
///   numbered name, moved unless this is a dry run);
/// - a name held by a file: its size is read; sizes that differ send the
///   move on to the next numbered name; equal sizes make a duplicate, or,
///   when contents are compared, ask for hashes, which decide the same way;
/// - reaching a name that is the source itself leaves it in place.
pub open spec fn step(s: PlanView, e: Event) -> (PlanView, ActionView) {
    match e {
        Event::SourceSize(n) => visited(PlanView { source_size: n, ..s }),
        Event::Occupant(None) => (
            PlanView { phase: Phase::Done, ..s },
            ActionView::Finish(
                OutcomeView::Place {
                    target: s.target,
                    renamed: s.attempt > 0,
                    perform_move: !s.options.dry_run,
                },
            ),
        ),
        Event::Occupant(Some(p)) => (
            PlanView { occupant: p, phase: Phase::AwaitOccupantSize, ..s },
            ActionView::ReadOccupantSize(p),
        ),
        Event::OccupantSize(n) => match match_check(s.source_size, n, s.options.checksum) {
            MatchCheck::Decided(true) => duplicate_at(s),
            MatchCheck::Decided(false) => advanced(s),
            MatchCheck::CompareHashes => (
                PlanView { phase: Phase::AwaitHashes, ..s },
                ActionView::HashFiles(s.occupant),
            ),
        },
        Event::Hashes(a, b) => if a == b {
            duplicate_at(s)
        } else {
            advanced(s)
        },
    }
}

/// The name being tried is the `attempt`-th candidate for the destination.
pub open spec fn on_track(s: PlanView) -> bool {
    s.target == candidate(s.dest, s.attempt)
}

/// A move only ever places the source at a name that was reported free:
/// no step but the report that nothing holds the name gives a placement.
pub proof fn lemma_place_only_on_free_name(s: PlanView, e: Event)
    requires
        step(s, e).1 is Finish,
        step(s, e).1->Finish_0 is Place,
    ensures
        e == Event::Occupant(None),
        step(s, e).1->Finish_0->Place_target == s.target,
{
}

/// A duplicate is only ever declared at the name being tried, when the file
/// there has the source's size and, if contents are compared, its hash.
pub proof fn lemma_duplicate_only_on_match(s: PlanView, e: Event)
    requires
        step(s, e).1 is Finish,
        step(s, e).1->Finish_0 is Duplicate,
    ensures
        step(s, e).1->Finish_0->Duplicate_target == s.target,
        match e {
            Event::OccupantSize(n) => n == s.source_size && !s.options.checksum,
            Event::Hashes(a, b) => a == b,
            _ => false,
        },
{
}

/// The source is only ever left in place when the name reached is the
/// source's own path.
pub proof fn lemma_in_place_only_at_source(s: PlanView, e: Event)
    requires
        step(s, e).1 is Finish,
        step(s, e).1->Finish_0 is AlreadyInPlace,
    ensures
        path_components(step(s, e).1->Finish_0->AlreadyInPlace_0) == path_components(s.source),
{
}

/// The names tried are the destination, then its numbered variants in
/// order: each step keeps the file, destination and options, and either
/// stays at the current name or moves to the next candidate.
pub proof fn lemma_names_tried_in_order(s: PlanView, e: Event)
    requires
        on_track(s),
    ensures
        on_track(step(s, e).0),
        step(s, e).0.source == s.source,
        step(s, e).0.dest == s.dest,
        step(s, e).0.options == s.options,
        step(s, e).0.attempt == s.attempt || step(s, e).0.attempt == s.attempt + 1,
{
}

/// A move that has finished takes no more events.
pub proof fn lemma_finish_ends_move(s: PlanView, e: Event)
    ensures
        (step(s, e).1 is Finish) == (step(s, e).0.phase == Phase::Done),
{
}

struct Candidate {
    attempt: u32,
    path: Vec<u8>,
}

/// A move of one file to its destination, or to the first free numbered
/// variant of it, with duplicates detected on the way.
pub struct MoveFile {
    source: Vec<u8>,
    dest: Vec<u8>,
    options: MoveOptions,
    source_size: u64,
    candidate: Candidate,
    occupant: Vec<u8>,
    phase: Phase,
}

impl View for MoveFile {
    type V = PlanView;

    closed spec fn view(&self) -> PlanView {
        PlanView {
            source: self.source@,
            dest: self.dest@,
            options: self.options,
            source_size: self.source_size,
            attempt: self.candidate.attempt as nat,
            target: self.candidate.path@,
            occupant: self.occupant@,
            phase: self.phase,
        }
    }
}

impl MoveFile {
    #[verifier::type_invariant]
    spec fn inv(self) -> bool {
        self.candidate.path@ == candidate(self.dest@, self.candidate.attempt as nat)
    }

    /// How many names have been found taken by other files so far.
    pub fn attempts(&self) -> (r: u32)
        ensures
            r as nat == self@.attempt,
    {
        self.candidate.attempt
    }

    fn visit(&mut self) -> (r: MoveAction)
        ensures
            (final(self)@, r@) == visited(old(self)@),
    {
        proof {
            use_type_invariant(&*self);
        }
        if paths_equal(self.candidate.path.as_slice(), self.source.as_slice()) {
            self.phase = Phase::Done;
            MoveAction::Finish(Outcome::AlreadyInPlace(slice_to_vec(self.candidate.path.as_slice())))
        } else {
            self.phase = Phase::AwaitOccupant;
            MoveAction::ResolveName(slice_to_vec(self.candidate.path.as_slice()))
        }
    }

    fn advance(&mut self) -> (r: MoveAction)
        requires
            old(self)@.attempt < u32::MAX,
        ensures
            (final(self)@, r@) == advanced(old(self)@),
    {
        proof {
            use_type_invariant(&*self);
        }
        let next = self.candidate.attempt + 1;
        let path = numbered_path(self.dest.as_slice(), next);
        self.candidate = Candidate { attempt: next, path };
        self.visit()
    }

    fn duplicate_found(&mut self) -> (r: MoveAction)
        ensures
            (final(self)@, r@) == duplicate_at(old(self)@),
    {
        proof {
            use_type_invariant(&*self);
        }
        self.phase = Phase::Done;
        let discard = discard_source(
            self.options.dry_run,
            self.options.remove_source,
            self.options.trash_source,
        );
        MoveAction::Finish(
            Outcome::Duplicate { target: slice_to_vec(self.candidate.path.as_slice()), discard },
        )
    }

    /// Starts moving `source` to `dest`: nothing to do when they are the
    /// same path; otherwise the source's size is needed first.
    pub fn start(source: &[u8], dest: &[u8], options: MoveOptions) -> (r: (MoveFile, MoveAction))
        ensures
            (r.0@, r.1@) == started(source@, dest@, options),
    {
        let same = paths_equal(source, dest);
        let plan = MoveFile {
            source: slice_to_vec(source),
            dest: slice_to_vec(dest),
            options,
            source_size: 0,
            candidate: Candidate { attempt: 0, path: slice_to_vec(dest) },
            occupant: Vec::new(),
            phase: if same {
                Phase::Done
            } else {
                Phase::AwaitSourceSize
            },
        };
        let action = if same {
            MoveAction::Finish(Outcome::AlreadyInPlace(slice_to_vec(dest)))
        } else {
            MoveAction::ReadSourceSize
        };
        assert(plan@.occupant =~= Seq::<u8>::empty());
        (plan, action)
    }

    /// The source's size is known.
    pub fn on_source_size(&mut self, size: u64) -> (r: MoveAction)
        requires
            expects(old(self)@, Event::SourceSize(size)),
        ensures
            (final(self)@, r@) == step(old(self)@, Event::SourceSize(size)),
    {
        proof {
            use_type_invariant(&*self);
        }
        self.source_size = size;
        self.visit()
    }

    /// What holds the name being tried: nothing (`None`; the name is now
    /// claimed for the source, which goes there), or a file to compare with.
    pub fn on_occupant(&mut self, occupant: Option<&[u8]>) -> (r: MoveAction)
        requires
            expects(old(self)@, Event::Occupant(occupant_view(occupant))),
        ensures
            (final(self)@, r@) == step(old(self)@, Event::Occupant(occupant_view(occupant))),
    {
        proof {
            use_type_invariant(&*self);
        }
        match occupant {
            None => {
                self.phase = Phase::Done;
                MoveAction::Finish(
                    Outcome::Place {
                        target: slice_to_vec(self.candidate.path.as_slice()),
                        renamed: self.candidate.attempt > 0,
                        perform_move: !self.options.dry_run,
                    },
                )
            },
            Some(p) => {
                self.occupant = slice_to_vec(p);
                self.phase = Phase::AwaitOccupantSize;
                MoveAction::ReadOccupantSize(slice_to_vec(p))
            },
        }
    }

    /// The size of the file holding the name being tried.
    pub fn on_occupant_size(&mut self, size: u64) -> (r: MoveAction)
        requires
            expects(old(self)@, Event::OccupantSize(size)),
            size != old(self)@.source_size ==> old(self)@.attempt < u32::MAX,
        ensures
            (final(self)@, r@) == step(old(self)@, Event::OccupantSize(size)),
    {
        proof {
            use_type_invariant(&*self);
        }
        match files_match(self.source_size, size, self.options.checksum) {
            MatchCheck::Decided(true) => self.duplicate_found(),
            MatchCheck::Decided(false) => self.advance(),
            MatchCheck::CompareHashes => {
                self.phase = Phase::AwaitHashes;
                MoveAction::HashFiles(slice_to_vec(self.occupant.as_slice()))
            },
        }
    }

    /// The hashes of the source and of the file holding the name being tried.
    pub fn on_hashes(&mut self, source_hash: u64, occupant_hash: u64) -> (r: MoveAction)
        requires
            expects(old(self)@, Event::Hashes(source_hash, occupant_hash)),
            source_hash != occupant_hash ==> old(self)@.attempt < u32::MAX,
        ensures
            (final(self)@, r@) == step(old(self)@, Event::Hashes(source_hash, occupant_hash)),
    {
        proof {
            use_type_invariant(&*self);
        }
        if source_hash == occupant_hash {
            self.duplicate_found()
        } else {
            self.advance()
        }
    }
}

} // verus!
