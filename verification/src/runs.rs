//! Runs over many files, one file at a time, against a disk: what each move
//! finds at the names it tries and what it leaves behind. A dry run, which
//! moves nothing and keeps the names it hands out as claims, reports the
//! same outcomes as a real run over the same files.

use vstd::prelude::*;
use crate::claims::{resolution, ClaimView, ResolutionView};
use crate::hashing::xxh3_64_of;
use crate::path::path_components;
use crate::naming::lemma_numbered_paths_distinct;
use crate::path::file_name_of;
use crate::placement::{
    lemma_place_only_on_free_name, candidate, discard_for, on_track, phase_after, started, step, ActionView, DiscardAction, Event,
    MoveOptions, OutcomeView, Phase, PlanView,
};

verus! {

/// What a run works against: the files on disk (their contents, by the
/// components of their path) and the claims on destination names.
pub struct World {
    pub disk: Map<Seq<Seq<u8>>, Seq<u8>>,
    pub claims: Map<Seq<Seq<u8>>, ClaimView>,
}

/// The size a file with these contents has.
pub open spec fn contents_size(c: Seq<u8>) -> u64 {
    c.len() as u64
}

/// What holds `target` for the file `source`, looked up as a move does:
/// the claims first, then the disk; in a real run a free name gets an
/// empty placeholder and an in-flight claim. The claims after the lookup.
/// (Moving files one at a time, no move is in flight at a lookup, so the
/// answer to wait does not arise.)
pub open spec fn lookup(w: World, target: Seq<u8>, source: Seq<u8>, dry_run: bool) -> (
    Option<Seq<u8>>,
    Map<Seq<Seq<u8>>, ClaimView>,
) {
    let first = resolution(w.claims, target, source, dry_run, None);
    match first.0 {
        ResolutionView::Occupied(p) => (Some(p), first.1),
        _ => {
            let on_disk = w.disk.contains_key(path_components(target));
            let second = resolution(first.1, target, source, dry_run, Some(on_disk));
            match second.0 {
                ResolutionView::Occupied(p) => (Some(p), second.1),
                ResolutionView::CreatePlaceholder => (
                    None,
                    second.1.insert(path_components(target), ClaimView::InFlight),
                ),
                _ => (None, second.1),
            }
        },
    }
}

/// What the world answers a move waiting in state `s`, and the world after
/// answering: sizes and hashes of the files' contents, and what holds the
/// name being tried. (A finished move is asked nothing; its answer here is
/// never used.)
pub open spec fn answer(w: World, s: PlanView) -> (Event, World) {
    match s.phase {
        Phase::AwaitSourceSize => (
            Event::SourceSize(contents_size(w.disk[path_components(s.source)])),
            w,
        ),
        Phase::AwaitOccupant => {
            let found = lookup(w, s.target, s.source, s.options.dry_run);
            (Event::Occupant(found.0), World { claims: found.1, ..w })
        },
        Phase::AwaitOccupantSize => (
            Event::OccupantSize(contents_size(w.disk[path_components(s.occupant)])),
            w,
        ),
        Phase::AwaitHashes => (
            Event::Hashes(
                xxh3_64_of(w.disk[path_components(s.source)]),
                xxh3_64_of(w.disk[path_components(s.occupant)]),
            ),
            w,
        ),
        Phase::Done => (Event::SourceSize(0), w),
    }
}

/// The world once a move in state `s` has ended with `o`: a placed source
/// is renamed onto its name, whose claim is released; a discarded
/// duplicate source is gone.
pub open spec fn finished(w: World, s: PlanView, o: OutcomeView) -> World {
    let ks = path_components(s.source);
    match o {
        OutcomeView::Place { target, perform_move, .. } => if perform_move {
            World {
                disk: w.disk.remove(ks).insert(path_components(target), w.disk[ks]),
                claims: w.claims.remove(path_components(target)),
            }
        } else {
            w
        },
        OutcomeView::Duplicate { discard, .. } => if discard == DiscardAction::Keep {
            w
        } else {
            World { disk: w.disk.remove(ks), ..w }
        },
        OutcomeView::AlreadyInPlace(_) => w,
    }
}

/// A move carried on from state `s` with next action `a`, for at most
/// `fuel` more answers: the world after it and its outcome (none if the
/// fuel ran out first).
pub open spec fn drive(w: World, s: PlanView, a: ActionView, fuel: nat) -> (
    World,
    Option<OutcomeView>,
)
    decreases fuel,
{
    match a {
        ActionView::Finish(o) => (finished(w, s, o), Some(o)),
        _ => if fuel == 0 {
            (w, None)
        } else {
            let (e, w1) = answer(w, s);
            let (s1, a1) = step(s, e);
            drive(w1, s1, a1, (fuel - 1) as nat)
        },
    }
}

/// Moving `source` to `dest` from start to end.
pub open spec fn run_file(
    w: World,
    source: Seq<u8>,
    dest: Seq<u8>,
    options: MoveOptions,
    fuel: nat,
) -> (World, Option<OutcomeView>) {
    let (s, a) = started(source, dest, options);
    drive(w, s, a, fuel)
}

/// Moving the files `(source, destination)` one after the other, first to
/// last: the world after them and the outcome of each.
pub open spec fn run_files(
    w: World,
    files: Seq<(Seq<u8>, Seq<u8>)>,
    options: MoveOptions,
    fuel: nat,
) -> (World, Seq<Option<OutcomeView>>)
    decreases files.len(),
{
    if files.len() == 0 {
        (w, Seq::empty())
    } else {
        let before = run_files(w, files.drop_last(), options, fuel);
        let last = run_file(before.0, files.last().0, files.last().1, options, fuel);
        (last.0, before.1.push(last.1))
    }
}

/// What a run reports of an outcome: where the file goes or what it
/// duplicates, without whether it is really moved or discarded.
pub open spec fn reported(o: Option<OutcomeView>) -> Option<OutcomeView> {
    match o {
        Some(OutcomeView::Place { target, renamed, .. }) => Some(
            OutcomeView::Place { target, renamed, perform_move: false },
        ),
        Some(OutcomeView::Duplicate { target, .. }) => Some(
            OutcomeView::Duplicate { target, discard: DiscardAction::Keep },
        ),
        _ => o,
    }
}

/// `key` is the path of one of the sources.
pub open spec fn is_source_key(files: Seq<(Seq<u8>, Seq<u8>)>, key: Seq<Seq<u8>>) -> bool {
    exists|j: int| 0 <= j < files.len() && path_components(files[j].0) == key
}

/// The options of the dry run that goes with `options`.
pub open spec fn as_dry_run(options: MoveOptions) -> MoveOptions {
    MoveOptions { dry_run: true, ..options }
}

/// The source a dry-run claim names.
spec fn claimant(c: ClaimView) -> Seq<u8> {
    match c {
        ClaimView::DryRun(p) => p,
        ClaimView::InFlight => Seq::empty(),
    }
}

/// What a dry run sees at `k`: the claimant's contents where a claim holds
/// the name, else the file on disk.
spec fn seen_at(wd: World, k: Seq<Seq<u8>>) -> Seq<u8> {
    if wd.claims.contains_key(k) {
        wd.disk[path_components(claimant(wd.claims[k]))]
    } else {
        wd.disk[k]
    }
}

/// What the law assumes of the files and the disk.
spec fn premises(d0: Map<Seq<Seq<u8>>, Seq<u8>>, files: Seq<(Seq<u8>, Seq<u8>)>) -> bool {
    &&& forall|j: int| 0 <= j < files.len() ==> d0.contains_key(path_components(#[trigger] files[j].0))
    &&& forall|a: int, b: int|
        0 <= a < files.len() && 0 <= b < files.len() && a != b ==> path_components(
            #[trigger] files[a].0,
        ) != path_components(#[trigger] files[b].0)
    &&& forall|j: int, n: nat|
        0 <= j < files.len() ==> !is_source_key(files, path_components(#[trigger] candidate(files[j].1, n)))
}

/// A real world `wr` and a dry world `wd` after the first `i` files, both
/// from the disk `d0`: the dry run has changed nothing on disk and claims
/// only names no source has, for sources on disk; the real run holds no
/// claims, has not touched the sources still to come, and has a file
/// wherever the dry run sees one (a claim or a file on disk), with the
/// contents the dry run sees there.
spec fn worlds_agree(
    wr: World,
    wd: World,
    d0: Map<Seq<Seq<u8>>, Seq<u8>>,
    files: Seq<(Seq<u8>, Seq<u8>)>,
    i: int,
) -> bool {
    &&& wd.disk == d0
    &&& wr.claims == Map::<Seq<Seq<u8>>, ClaimView>::empty()
    &&& forall|k: Seq<Seq<u8>>| #[trigger]
        wd.claims.contains_key(k) ==> wd.claims[k] is DryRun && d0.contains_key(
            path_components(claimant(wd.claims[k])),
        ) && !is_source_key(files, k)
    &&& forall|j: int|
        i <= j < files.len() ==> wr.disk.contains_key(path_components(#[trigger] files[j].0))
            && wr.disk[path_components(files[j].0)] == d0[path_components(files[j].0)]
    &&& forall|k: Seq<Seq<u8>>| !#[trigger] is_source_key(files, k) ==> {
        &&& wr.disk.contains_key(k) == (wd.claims.contains_key(k) || d0.contains_key(k))
        &&& wr.disk.contains_key(k) ==> wr.disk[k] == seen_at(wd, k)
    }
}

/// The states of the real and the dry move of the `i`-th file agree: the
/// same file, destination, size and name tried, the same phase, options
/// that differ only in `dry_run`, and files of the same contents found at
/// the name.
spec fn plans_agree(
    sr: PlanView,
    sd: PlanView,
    wr: World,
    wd: World,
    files: Seq<(Seq<u8>, Seq<u8>)>,
    i: int,
    options: MoveOptions,
) -> bool {
    &&& sr.source == files[i].0 && sd.source == files[i].0
    &&& sr.dest == files[i].1 && sd.dest == files[i].1
    &&& sr.options == options && sd.options == as_dry_run(options)
    &&& sr.source_size == sd.source_size
    &&& sr.attempt == sd.attempt && sr.target == sd.target && sr.phase == sd.phase
    &&& sr.target == candidate(sr.dest, sr.attempt)
    &&& sr.phase != Phase::Done
    &&& (sr.phase == Phase::AwaitOccupantSize || sr.phase == Phase::AwaitHashes) ==> {
        &&& wr.disk.contains_key(path_components(sr.occupant))
        &&& wd.disk.contains_key(path_components(sd.occupant))
        &&& wr.disk[path_components(sr.occupant)] == wd.disk[path_components(sd.occupant)]
    }
}

/// Where the real and the dry move of the `i`-th file stand after an
/// action each: both finished, with the same report and agreeing worlds
/// once the outcomes take effect; or both going on, in agreeing states.
spec fn moves_agree(
    wr: World,
    wd: World,
    sr: PlanView,
    sd: PlanView,
    ar: ActionView,
    ad: ActionView,
    d0: Map<Seq<Seq<u8>>, Seq<u8>>,
    files: Seq<(Seq<u8>, Seq<u8>)>,
    i: int,
    options: MoveOptions,
) -> bool {
    &&& (ar is Finish) == (ad is Finish)
    &&& ar is Finish ==> {
        &&& reported(Some(ar->Finish_0)) == reported(Some(ad->Finish_0))
        &&& worlds_agree(
            finished(wr, sr, ar->Finish_0),
            finished(wd, sd, ad->Finish_0),
            d0,
            files,
            i + 1,
        )
    }
    &&& !(ar is Finish) ==> {
        &&& worlds_agree(wr, wd, d0, files, i)
        &&& plans_agree(sr, sd, wr, wd, files, i, options)
    }
}

proof fn lemma_agree_next(
    wr: World,
    wd: World,
    d0: Map<Seq<Seq<u8>>, Seq<u8>>,
    files: Seq<(Seq<u8>, Seq<u8>)>,
    i: int,
)
    requires
        worlds_agree(wr, wd, d0, files, i),
    ensures
        worlds_agree(wr, wd, d0, files, i + 1),
{
}

proof fn lemma_source_removed(
    wr: World,
    wd: World,
    d0: Map<Seq<Seq<u8>>, Seq<u8>>,
    files: Seq<(Seq<u8>, Seq<u8>)>,
    i: int,
)
    requires
        0 <= i < files.len(),
        premises(d0, files),
        worlds_agree(wr, wd, d0, files, i),
    ensures
        worlds_agree(
            World { disk: wr.disk.remove(path_components(files[i].0)), ..wr },
            wd,
            d0,
            files,
            i + 1,
        ),
{
    let ks = path_components(files[i].0);
    let wr1 = World { disk: wr.disk.remove(ks), ..wr };
    assert forall|j: int| i + 1 <= j < files.len() implies wr1.disk.contains_key(
        path_components(#[trigger] files[j].0),
    ) && wr1.disk[path_components(files[j].0)] == d0[path_components(files[j].0)] by {
        assert(path_components(files[j].0) != path_components(files[i].0));
    }
    assert forall|k: Seq<Seq<u8>>| !#[trigger] is_source_key(files, k) implies {
        &&& wr1.disk.contains_key(k) == (wd.claims.contains_key(k) || d0.contains_key(k))
        &&& wr1.disk.contains_key(k) ==> wr1.disk[k] == seen_at(wd, k)
    } by {
        assert(is_source_key(files, ks));
        assert(k != ks);
    }
}

proof fn lemma_placed(
    wr: World,
    wd: World,
    d0: Map<Seq<Seq<u8>>, Seq<u8>>,
    files: Seq<(Seq<u8>, Seq<u8>)>,
    i: int,
    t: Seq<u8>,
)
    requires
        0 <= i < files.len(),
        premises(d0, files),
        worlds_agree(wr, wd, d0, files, i),
        !is_source_key(files, path_components(t)),
        !wd.claims.contains_key(path_components(t)),
        !d0.contains_key(path_components(t)),
    ensures
        worlds_agree(
            World {
                disk: wr.disk.remove(path_components(files[i].0)).insert(
                    path_components(t),
                    wr.disk[path_components(files[i].0)],
                ),
                claims: Map::empty(),
            },
            World {
                claims: wd.claims.insert(path_components(t), ClaimView::DryRun(files[i].0)),
                ..wd
            },
            d0,
            files,
            i + 1,
        ),
{
    let ks = path_components(files[i].0);
    let kt = path_components(t);
    let wr1 = World { disk: wr.disk.remove(ks).insert(kt, wr.disk[ks]), claims: Map::empty() };
    let wd1 = World { claims: wd.claims.insert(kt, ClaimView::DryRun(files[i].0)), ..wd };
    assert(is_source_key(files, ks));
    assert(d0.contains_key(path_components(files[i].0)));
    assert(claimant(ClaimView::DryRun(files[i].0)) == files[i].0);
    assert forall|k: Seq<Seq<u8>>| #[trigger] wd1.claims.contains_key(k) implies wd1.claims[k] is DryRun
        && d0.contains_key(path_components(claimant(wd1.claims[k]))) && !is_source_key(files, k) by {
        if k != kt {
            assert(wd.claims.contains_key(k));
        }
    }
    assert forall|j: int| i + 1 <= j < files.len() implies wr1.disk.contains_key(
        path_components(#[trigger] files[j].0),
    ) && wr1.disk[path_components(files[j].0)] == d0[path_components(files[j].0)] by {
        assert(path_components(files[j].0) != path_components(files[i].0));
        if path_components(files[j].0) == kt {
            assert(is_source_key(files, kt));
        }
    }
    assert forall|k: Seq<Seq<u8>>| !#[trigger] is_source_key(files, k) implies {
        &&& wr1.disk.contains_key(k) == (wd1.claims.contains_key(k) || d0.contains_key(k))
        &&& wr1.disk.contains_key(k) ==> wr1.disk[k] == seen_at(wd1, k)
    } by {
        assert(k != ks);
        if k == kt {
            assert(wr1.disk[k] == wr.disk[ks]);
            assert(seen_at(wd1, k) == d0[ks]);
        } else {
            assert(wd1.claims.contains_key(k) == wd.claims.contains_key(k));
            assert(seen_at(wd1, k) == seen_at(wd, k));
        }
    }
}

/// Reaching a name, from states that agree but for the phase.
proof fn lemma_visited_agrees(
    wr: World,
    wd: World,
    sr: PlanView,
    sd: PlanView,
    d0: Map<Seq<Seq<u8>>, Seq<u8>>,
    files: Seq<(Seq<u8>, Seq<u8>)>,
    i: int,
    options: MoveOptions,
)
    requires
        0 <= i < files.len(),
        worlds_agree(wr, wd, d0, files, i),
        plans_agree(
            PlanView { phase: Phase::AwaitOccupant, ..sr },
            PlanView { phase: Phase::AwaitOccupant, ..sd },
            wr,
            wd,
            files,
            i,
            options,
        ),
    ensures
        moves_agree(
            wr,
            wd,
            crate::placement::visited(sr).0,
            crate::placement::visited(sd).0,
            crate::placement::visited(sr).1,
            crate::placement::visited(sd).1,
            d0,
            files,
            i,
            options,
        ),
{
    lemma_agree_next(wr, wd, d0, files, i);
}

/// An answer that leaves the world as it is (a size or hashes), given to
/// agreeing moves.
proof fn lemma_reading_agrees(
    wr: World,
    wd: World,
    sr: PlanView,
    sd: PlanView,
    d0: Map<Seq<Seq<u8>>, Seq<u8>>,
    files: Seq<(Seq<u8>, Seq<u8>)>,
    i: int,
    options: MoveOptions,
)
    requires
        0 <= i < files.len(),
        premises(d0, files),
        !options.dry_run,
        worlds_agree(wr, wd, d0, files, i),
        plans_agree(sr, sd, wr, wd, files, i, options),
        sr.phase != Phase::AwaitOccupant,
    ensures
        answer(wr, sr).0 == answer(wd, sd).0,
        answer(wr, sr).1 == wr,
        answer(wd, sd).1 == wd,
        moves_agree(
            wr,
            wd,
            step(sr, answer(wr, sr).0).0,
            step(sd, answer(wd, sd).0).0,
            step(sr, answer(wr, sr).0).1,
            step(sd, answer(wd, sd).0).1,
            d0,
            files,
            i,
            options,
        ),
{
    let ks = path_components(files[i].0);
    assert(wr.disk[ks] == d0[ks]);
    let e = answer(wr, sr).0;
    match e {
        Event::SourceSize(n) => {
            let vr = PlanView { source_size: n, ..sr };
            let vd = PlanView { source_size: n, ..sd };
            lemma_visited_agrees(wr, wd, vr, vd, d0, files, i, options);
        },
        Event::OccupantSize(n) => {
            lemma_decision_agrees(wr, wd, sr, sd, e, d0, files, i, options);
        },
        Event::Hashes(a, b) => {
            lemma_decision_agrees(wr, wd, sr, sd, e, d0, files, i, options);
        },
        Event::Occupant(_) => {},
    }
}

/// A size or hashes of the file at the name tried, the same for both
/// moves: a duplicate for both, the next name for both, or hashes asked
/// for by both.
proof fn lemma_decision_agrees(
    wr: World,
    wd: World,
    sr: PlanView,
    sd: PlanView,
    e: Event,
    d0: Map<Seq<Seq<u8>>, Seq<u8>>,
    files: Seq<(Seq<u8>, Seq<u8>)>,
    i: int,
    options: MoveOptions,
)
    requires
        0 <= i < files.len(),
        premises(d0, files),
        !options.dry_run,
        worlds_agree(wr, wd, d0, files, i),
        plans_agree(sr, sd, wr, wd, files, i, options),
        e is OccupantSize || e is Hashes,
        sr.phase == Phase::AwaitOccupantSize || sr.phase == Phase::AwaitHashes,
    ensures
        moves_agree(
            wr,
            wd,
            step(sr, e).0,
            step(sd, e).0,
            step(sr, e).1,
            step(sd, e).1,
            d0,
            files,
            i,
            options,
        ),
{
    let dup = match e {
        Event::OccupantSize(n) => crate::placement::match_check(sr.source_size, n, options.checksum)
            == crate::placement::MatchCheck::Decided(true),
        Event::Hashes(a, b) => a == b,
        _ => false,
    };
    let next = match e {
        Event::OccupantSize(n) => crate::placement::match_check(sr.source_size, n, options.checksum)
            == crate::placement::MatchCheck::Decided(false),
        Event::Hashes(a, b) => a != b,
        _ => false,
    };
    let ks = path_components(files[i].0);
    if dup {
        let o = step(sr, e).1->Finish_0;
        let od = step(sd, e).1->Finish_0;
        assert(step(sr, e) == crate::placement::duplicate_at(sr));
        assert(step(sd, e) == crate::placement::duplicate_at(sd));
        assert(od->Duplicate_discard == DiscardAction::Keep);
        assert(finished(wd, step(sd, e).0, od) == wd);
        assert(reported(Some(o)) == reported(Some(od)));
        if o->Duplicate_discard != DiscardAction::Keep {
            assert(finished(wr, step(sr, e).0, o) == World { disk: wr.disk.remove(ks), ..wr });
            lemma_source_removed(wr, wd, d0, files, i);
        } else {
            lemma_agree_next(wr, wd, d0, files, i);
        }
    } else if next {
        let n1 = sr.attempt + 1;
        let vr = PlanView { attempt: n1, target: crate::naming::numbered(sr.dest, n1), ..sr };
        let vd = PlanView { attempt: n1, target: crate::naming::numbered(sd.dest, n1), ..sd };
        assert(vr.target == candidate(vr.dest, vr.attempt));
        lemma_visited_agrees(wr, wd, vr, vd, d0, files, i, options);
        assert(step(sr, e) == crate::placement::visited(vr));
        assert(step(sd, e) == crate::placement::visited(vd));
    } else {
        assert(step(sr, e).0 == PlanView { phase: Phase::AwaitHashes, ..sr });
        assert(step(sd, e).0 == PlanView { phase: Phase::AwaitHashes, ..sd });
    }
}

/// Looking up the name tried, for agreeing moves: a name the real run
/// finds taken, the dry run finds taken by a file of the same contents (the
/// file there, or the source it handed the name to); a name the real run
/// finds free, the dry run finds free too, and both place the file there.
proof fn lemma_lookup_agrees(
    wr: World,
    wd: World,
    sr: PlanView,
    sd: PlanView,
    d0: Map<Seq<Seq<u8>>, Seq<u8>>,
    files: Seq<(Seq<u8>, Seq<u8>)>,
    i: int,
    options: MoveOptions,
)
    requires
        0 <= i < files.len(),
        premises(d0, files),
        !options.dry_run,
        worlds_agree(wr, wd, d0, files, i),
        plans_agree(sr, sd, wr, wd, files, i, options),
        sr.phase == Phase::AwaitOccupant,
    ensures
        moves_agree(
            answer(wr, sr).1,
            answer(wd, sd).1,
            step(sr, answer(wr, sr).0).0,
            step(sd, answer(wd, sd).0).0,
            step(sr, answer(wr, sr).0).1,
            step(sd, answer(wd, sd).0).1,
            d0,
            files,
            i,
            options,
        ),
{
    let t = sr.target;
    let kt = path_components(t);
    assert(t == candidate(files[i].1, sr.attempt));
    assert(!is_source_key(files, kt));
    let (er, wr1) = answer(wr, sr);
    let (ed, wd1) = answer(wd, sd);
    if wd.claims.contains_key(kt) {
        let c = claimant(wd.claims[kt]);
        assert(wd.claims[kt] == ClaimView::DryRun(c));
        assert(er == Event::Occupant(Some(t)));
        assert(ed == Event::Occupant(Some(c)));
        assert(wr1 == wr);
        assert(wd1 == wd);
        assert(wr.disk[kt] == seen_at(wd, kt));
    } else if d0.contains_key(kt) {
        assert(er == Event::Occupant(Some(t)));
        assert(ed == Event::Occupant(Some(t)));
        assert(wr1 == wr);
        assert(wd1 == wd);
        assert(wr.disk[kt] == seen_at(wd, kt));
    } else {
        assert(er == Event::Occupant(None));
        assert(ed == Event::Occupant(None));
        let in_flight = Map::<Seq<Seq<u8>>, ClaimView>::empty().insert(kt, ClaimView::InFlight);
        assert(wr1 == World { claims: in_flight, ..wr });
        assert(wd1 == World { claims: wd.claims.insert(kt, ClaimView::DryRun(files[i].0)), ..wd });
        assert(in_flight.remove(kt) =~= Map::<Seq<Seq<u8>>, ClaimView>::empty());
        lemma_placed(wr, wd, d0, files, i, t);
    }
}

/// Agreeing moves, carried on with the same fuel, end with the same report
/// and agreeing worlds.
proof fn lemma_drive_agrees(
    wr: World,
    wd: World,
    sr: PlanView,
    sd: PlanView,
    ar: ActionView,
    ad: ActionView,
    d0: Map<Seq<Seq<u8>>, Seq<u8>>,
    files: Seq<(Seq<u8>, Seq<u8>)>,
    i: int,
    options: MoveOptions,
    fuel: nat,
)
    requires
        0 <= i < files.len(),
        premises(d0, files),
        !options.dry_run,
        moves_agree(wr, wd, sr, sd, ar, ad, d0, files, i, options),
    ensures
        worlds_agree(drive(wr, sr, ar, fuel).0, drive(wd, sd, ad, fuel).0, d0, files, i + 1),
        reported(drive(wr, sr, ar, fuel).1) == reported(drive(wd, sd, ad, fuel).1),
    decreases fuel,
{
    if !(ar is Finish) {
        if fuel == 0 {
            lemma_agree_next(wr, wd, d0, files, i);
        } else {
            if sr.phase == Phase::AwaitOccupant {
                lemma_lookup_agrees(wr, wd, sr, sd, d0, files, i, options);
            } else {
                lemma_reading_agrees(wr, wd, sr, sd, d0, files, i, options);
            }
            let (er, wr1) = answer(wr, sr);
            let (ed, wd1) = answer(wd, sd);
            let (sr1, ar1) = step(sr, er);
            let (sd1, ad1) = step(sd, ed);
            lemma_drive_agrees(wr1, wd1, sr1, sd1, ar1, ad1, d0, files, i, options, (fuel - 1) as nat);
        }
    }
}

/// The empty world over the disk `d0`: no claims.
pub open spec fn fresh(d0: Map<Seq<Seq<u8>>, Seq<u8>>) -> World {
    World { disk: d0, claims: Map::empty() }
}

proof fn lemma_runs_agree(
    d0: Map<Seq<Seq<u8>>, Seq<u8>>,
    files: Seq<(Seq<u8>, Seq<u8>)>,
    options: MoveOptions,
    fuel: nat,
    n: int,
)
    requires
        premises(d0, files),
        !options.dry_run,
        0 <= n <= files.len(),
    ensures
        worlds_agree(
            run_files(fresh(d0), files.take(n), options, fuel).0,
            run_files(fresh(d0), files.take(n), as_dry_run(options), fuel).0,
            d0,
            files,
            n,
        ),
        run_files(fresh(d0), files.take(n), options, fuel).1.len() == n,
        run_files(fresh(d0), files.take(n), as_dry_run(options), fuel).1.len() == n,
        forall|k: int|
            0 <= k < n ==> reported(
                #[trigger] run_files(fresh(d0), files.take(n), options, fuel).1[k],
            ) == reported(run_files(fresh(d0), files.take(n), as_dry_run(options), fuel).1[k]),
    decreases n,
{
    let dry = as_dry_run(options);
    if n == 0 {
        assert(files.take(0) =~= Seq::<(Seq<u8>, Seq<u8>)>::empty());
    } else {
        lemma_runs_agree(d0, files, options, fuel, n - 1);
        let prefix = files.take(n);
        assert(prefix.drop_last() =~= files.take(n - 1));
        assert(prefix.last() == files[n - 1]);
        let before_r = run_files(fresh(d0), files.take(n - 1), options, fuel);
        let before_d = run_files(fresh(d0), files.take(n - 1), dry, fuel);
        let (source, dest) = files[n - 1];
        let (sr, ar) = started(source, dest, options);
        let (sd, ad) = started(source, dest, dry);
        if !(ar is Finish) {
            assert(plans_agree(sr, sd, before_r.0, before_d.0, files, n - 1, options));
        } else {
            lemma_agree_next(before_r.0, before_d.0, d0, files, n - 1);
        }
        lemma_drive_agrees(before_r.0, before_d.0, sr, sd, ar, ad, d0, files, n - 1, options, fuel);
        let rr = run_files(fresh(d0), prefix, options, fuel);
        let rd = run_files(fresh(d0), prefix, dry, fuel);
        assert(rr.1 == before_r.1.push(drive(before_r.0, sr, ar, fuel).1));
        assert(rd.1 == before_d.1.push(drive(before_d.0, sd, ad, fuel).1));
        assert forall|k: int| 0 <= k < n implies reported(#[trigger] rr.1[k]) == reported(rd.1[k]) by {
            if k < n - 1 {
                assert(rr.1[k] == before_r.1[k]);
                assert(rd.1[k] == before_d.1[k]);
            }
        }
    }
}

/// A dry run reports the names a real run gives. Moving the files
/// `(source, destination)` one at a time from the same disk, with no claims
/// at the start, a dry run and a real run with otherwise the same options
/// have the same outcome for each file, up to whether it is really moved or
/// discarded: placed at the same name (numbered alike), or found to
/// duplicate the file at the same name. This holds where every source is on
/// disk, no two sources are the same path, and no name tried for any
/// destination (the destination or a numbered variant of it) is a source.
/// (`fuel` bounds the answers each move gets; both runs get the same.)
pub proof fn lemma_dry_run_reports_real_names(
    disk: Map<Seq<Seq<u8>>, Seq<u8>>,
    files: Seq<(Seq<u8>, Seq<u8>)>,
    options: MoveOptions,
    fuel: nat,
)
    requires
        !options.dry_run,
        forall|j: int| 0 <= j < files.len() ==> disk.contains_key(path_components(#[trigger] files[j].0)),
        forall|a: int, b: int|
            0 <= a < files.len() && 0 <= b < files.len() && a != b ==> path_components(
                #[trigger] files[a].0,
            ) != path_components(#[trigger] files[b].0),
        forall|j: int, n: nat|
            0 <= j < files.len() ==> !is_source_key(files, path_components(#[trigger] candidate(files[j].1, n))),
    ensures
        run_files(fresh(disk), files, options, fuel).1.len() == files.len(),
        run_files(fresh(disk), files, as_dry_run(options), fuel).1.len() == files.len(),
        forall|k: int|
            0 <= k < files.len() ==> reported(
                #[trigger] run_files(fresh(disk), files, options, fuel).1[k],
            ) == reported(run_files(fresh(disk), files, as_dry_run(options), fuel).1[k]),
{
    lemma_runs_agree(disk, files, options, fuel, files.len() as int);
    assert(files.take(files.len() as int) =~= files);
}

/// No move is in flight: every claim is a dry run's.
pub open spec fn none_in_flight(claims: Map<Seq<Seq<u8>>, ClaimView>) -> bool {
    forall|k: Seq<Seq<u8>>| #[trigger] claims.contains_key(k) ==> claims[k] is DryRun
}

/// The file at `k` holds `c` and no move is in flight, in the world after
/// action `a` has taken effect (or, while the move goes on, in `w`, where
/// the move's source is not at `k`).
spec fn kept_at(w: World, s: PlanView, a: ActionView, k: Seq<Seq<u8>>, c: Seq<u8>) -> bool {
    if a is Finish {
        let w1 = finished(w, s, a->Finish_0);
        &&& w1.disk.contains_key(k)
        &&& w1.disk[k] == c
        &&& none_in_flight(w1.claims)
    } else {
        &&& w.disk.contains_key(k)
        &&& w.disk[k] == c
        &&& none_in_flight(w.claims)
        &&& path_components(s.source) != k
    }
}

proof fn lemma_step_keeps(w: World, s: PlanView, k: Seq<Seq<u8>>, c: Seq<u8>)
    requires
        w.disk.contains_key(k),
        w.disk[k] == c,
        none_in_flight(w.claims),
        path_components(s.source) != k,
    ensures
        kept_at(answer(w, s).1, step(s, answer(w, s).0).0, step(s, answer(w, s).0).1, k, c),
{
    let (e, w1) = answer(w, s);
    let (s1, a1) = step(s, e);
    let kt = path_components(s.target);
    let ks = path_components(s.source);
    assert(s1.source == s.source);
    if s.phase == Phase::AwaitOccupant {
        if !w.claims.contains_key(kt) && !w.disk.contains_key(kt) {
            assert(kt != k);
            if s.options.dry_run {
                assert(w1.claims == w.claims.insert(kt, ClaimView::DryRun(s.source)));
                assert(none_in_flight(w1.claims));
            } else {
                assert(w1.claims == w.claims.insert(kt, ClaimView::InFlight));
                let w2 = finished(w1, s1, a1->Finish_0);
                assert(w2.claims == w1.claims.remove(kt));
                assert(w2.claims =~= w.claims.remove(kt));
                assert(w2.disk == w.disk.remove(ks).insert(kt, w.disk[ks]));
            }
        } else if w.claims.contains_key(kt) {
            assert(w.claims[kt] is DryRun);
            assert(w1 == w);
        } else {
            assert(w1 == w);
        }
    }
}

proof fn lemma_drive_keeps(
    w: World,
    s: PlanView,
    a: ActionView,
    k: Seq<Seq<u8>>,
    c: Seq<u8>,
    fuel: nat,
)
    requires
        kept_at(w, s, a, k, c),
    ensures
        drive(w, s, a, fuel).0.disk.contains_key(k),
        drive(w, s, a, fuel).0.disk[k] == c,
        none_in_flight(drive(w, s, a, fuel).0.claims),
    decreases fuel,
{
    if !(a is Finish) && fuel > 0 {
        lemma_step_keeps(w, s, k, c);
        let (e, w1) = answer(w, s);
        let (s1, a1) = step(s, e);
        lemma_drive_keeps(w1, s1, a1, k, c, (fuel - 1) as nat);
    }
}

/// A move never overwrites a file: every file on disk other than the
/// source keeps its contents, whatever the move's outcome and options
/// (when no other move is in flight), and it leaves no move in flight.
pub proof fn lemma_move_keeps_other_files(
    w: World,
    source: Seq<u8>,
    dest: Seq<u8>,
    options: MoveOptions,
    fuel: nat,
    k: Seq<Seq<u8>>,
)
    requires
        none_in_flight(w.claims),
        w.disk.contains_key(k),
        k != path_components(source),
    ensures
        run_file(w, source, dest, options, fuel).0.disk.contains_key(k),
        run_file(w, source, dest, options, fuel).0.disk[k] == w.disk[k],
        none_in_flight(run_file(w, source, dest, options, fuel).0.claims),
{
    let (s, a) = started(source, dest, options);
    lemma_drive_keeps(w, s, a, k, w.disk[k], fuel);
}

/// Over a whole run, one file at a time, a file on disk at a path that is
/// none of the sources is never overwritten: it ends with the contents it
/// had.
pub proof fn lemma_run_keeps_existing_files(
    w: World,
    files: Seq<(Seq<u8>, Seq<u8>)>,
    options: MoveOptions,
    fuel: nat,
    k: Seq<Seq<u8>>,
)
    requires
        none_in_flight(w.claims),
        w.disk.contains_key(k),
        !is_source_key(files, k),
    ensures
        run_files(w, files, options, fuel).0.disk.contains_key(k),
        run_files(w, files, options, fuel).0.disk[k] == w.disk[k],
        none_in_flight(run_files(w, files, options, fuel).0.claims),
    decreases files.len(),
{
    if files.len() > 0 {
        let init = files.drop_last();
        assert(!is_source_key(init, k)) by {
            if is_source_key(init, k) {
                let j = choose|j: int| 0 <= j < init.len() && path_components(init[j].0) == k;
                assert(init[j] == files[j]);
            }
        }
        lemma_run_keeps_existing_files(w, init, options, fuel, k);
        let before = run_files(w, init, options, fuel);
        assert(path_components(files[files.len() - 1].0) != k);
        lemma_move_keeps_other_files(before.0, files.last().0, files.last().1, options, fuel, k);
    }
}

/// A state and the action it was left with fit together: the phase waits
/// for that action, the name tried is a candidate, and a placement is at
/// the name tried.
spec fn coherent(s: PlanView, a: ActionView) -> bool {
    &&& phase_after(a) == s.phase
    &&& on_track(s)
    &&& (a matches ActionView::Finish(OutcomeView::Place { target, .. }) ==> target == s.target)
}

proof fn lemma_step_coherent(s: PlanView, e: Event)
    requires
        on_track(s),
    ensures
        coherent(step(s, e).0, step(s, e).1),
        step(s, e).0.dest == s.dest,
        step(s, e).0.attempt >= s.attempt,
{
}

/// A move places its file only at a candidate name no earlier than the one
/// being tried, and at that one only if the name has not been found taken.
proof fn lemma_place_after(w: World, s: PlanView, a: ActionView, fuel: nat)
    requires
        coherent(s, a),
    ensures
        drive(w, s, a, fuel).1 matches Some(OutcomeView::Place { target, .. }) ==> exists|m: nat|
            target == candidate(s.dest, m) && m >= s.attempt && (m == s.attempt ==> !(
            a is ReadOccupantSize || a is HashFiles)),
    decreases fuel,
{
    if a is Finish {
        if let Some(OutcomeView::Place { target, .. }) = drive(w, s, a, fuel).1 {
            assert(target == candidate(s.dest, s.attempt));
        }
    } else if fuel > 0 {
        let (e, w1) = answer(w, s);
        let (s1, a1) = step(s, e);
        lemma_step_coherent(s, e);
        lemma_place_after(w1, s1, a1, (fuel - 1) as nat);
        if let Some(OutcomeView::Place { target, .. }) = drive(w, s, a, fuel).1 {
            let m = choose|m: nat|
                target == candidate(s1.dest, m) && m >= s1.attempt && (m == s1.attempt ==> !(
                a1 is ReadOccupantSize || a1 is HashFiles));
            assert(target == candidate(s.dest, m) && m >= s.attempt);
        }
    }
}

/// The candidate names for a destination with a file name are distinct
/// paths.
proof fn lemma_candidates_distinct(dest: Seq<u8>, j: nat, m: nat)
    requires
        file_name_of(dest) is Some,
        j != m,
    ensures
        path_components(candidate(dest, j)) != path_components(candidate(dest, m)),
{
    if j == 0 {
        lemma_numbered_paths_distinct(dest, m, m);
    } else if m == 0 {
        lemma_numbered_paths_distinct(dest, j, j);
    } else {
        lemma_numbered_paths_distinct(dest, j, m);
    }
}

/// The move of `first` from the world `w` and the later move of `second`
/// (a file with the same contents) from `wb`, the world after `first` was
/// placed at `r`, stand at the same name in the same phase, both going on.
spec fn rerun_agree(
    w: World,
    sa: PlanView,
    aa: ActionView,
    wb: World,
    sb: PlanView,
    ab: ActionView,
    first: Seq<u8>,
    second: Seq<u8>,
    r: Seq<u8>,
    options: MoveOptions,
) -> bool {
    let ks1 = path_components(first);
    let ks2 = path_components(second);
    let kr = path_components(r);
    let c = w.disk[ks1];
    let kt = path_components(sa.target);
    &&& w.claims == Map::<Seq<Seq<u8>>, ClaimView>::empty()
    &&& w.disk.contains_key(ks1)
    &&& wb.claims == Map::<Seq<Seq<u8>>, ClaimView>::empty()
    &&& wb.disk == w.disk.remove(ks1).insert(kr, c).insert(ks2, c)
    &&& kr != ks2
    &&& file_name_of(sa.dest) is Some
    &&& forall|n: nat| path_components(#[trigger] candidate(sa.dest, n)) != ks2
    &&& !options.dry_run
    &&& sa.source == first && sb.source == second
    &&& sa.dest == sb.dest
    &&& sa.options == options && sb.options == options
    &&& sa.attempt == sb.attempt && sa.target == sb.target && sa.phase == sb.phase
    &&& sa.source_size == sb.source_size
    &&& sa.phase != Phase::AwaitSourceSize ==> sa.source_size == contents_size(c)
    &&& coherent(sa, aa) && coherent(sb, ab)
    &&& !(aa is Finish) && !(ab is Finish)
    &&& sa.phase == Phase::AwaitOccupant ==> kt != ks1
    &&& (sa.phase == Phase::AwaitOccupantSize || sa.phase == Phase::AwaitHashes) ==> {
        &&& sa.occupant == sa.target && sb.occupant == sb.target
        &&& kt != ks1 && kt != kr
        &&& w.disk.contains_key(kt)
    }
}

/// The outcome of moving a file whose contents duplicate the file at `r`.
pub open spec fn duplicate_of(r: Seq<u8>, options: MoveOptions) -> OutcomeView {
    OutcomeView::Duplicate {
        target: r,
        discard: discard_for(options.dry_run, options.remove_source, options.trash_source),
    }
}

/// The second move, once it has found `r` taken by a file of its own
/// contents, finds it a duplicate of that file.
proof fn lemma_rerun_finds_duplicate(
    wb: World,
    sb: PlanView,
    c: Seq<u8>,
    r: Seq<u8>,
    options: MoveOptions,
    fuel: nat,
)
    requires
        sb.phase == Phase::AwaitOccupantSize,
        sb.options == options,
        sb.target == r,
        sb.occupant == r,
        sb.source_size == contents_size(c),
        wb.disk.contains_key(path_components(sb.source)),
        wb.disk.contains_key(path_components(r)),
        wb.disk[path_components(sb.source)] == c,
        wb.disk[path_components(r)] == c,
        fuel >= 2,
    ensures
        drive(wb, sb, ActionView::ReadOccupantSize(r), fuel).1 == Some(duplicate_of(r, options)),
        drive(wb, sb, ActionView::ReadOccupantSize(r), fuel).0 == finished(
            wb,
            sb,
            duplicate_of(r, options),
        ),
{
    let (e1, w1) = answer(wb, sb);
    assert(e1 == Event::OccupantSize(contents_size(c)));
    assert(w1 == wb);
    let (s2, a2) = step(sb, e1);
    assert(drive(wb, sb, ActionView::ReadOccupantSize(r), fuel) == drive(wb, s2, a2, (fuel - 1) as nat));
    assert(s2.source == sb.source);
    if options.checksum {
        assert(a2 == ActionView::HashFiles(r));
        let (e2, w2) = answer(wb, s2);
        assert(e2 == Event::Hashes(xxh3_64_of(c), xxh3_64_of(c)));
        let (s3, a3) = step(s2, e2);
        assert(a3 == ActionView::Finish(duplicate_of(r, options)));
        assert(drive(wb, s2, a2, (fuel - 1) as nat) == drive(wb, s3, a3, (fuel - 2) as nat));
        assert(s3.source == sb.source);
        assert(finished(wb, s3, duplicate_of(r, options)) == finished(wb, sb, duplicate_of(r, options)));
    } else {
        assert(finished(wb, s2, duplicate_of(r, options)) == finished(wb, sb, duplicate_of(r, options)));
        assert(a2 == ActionView::Finish(duplicate_of(r, options)));
    }
}

/// The first move and the later move of a same-content file, in step:
/// wherever the first ends up placing its file at `r`, the later one finds
/// the file at `r` a duplicate, with two more answers at most.
proof fn lemma_rerun_drive(
    w: World,
    sa: PlanView,
    aa: ActionView,
    wb: World,
    sb: PlanView,
    ab: ActionView,
    first: Seq<u8>,
    second: Seq<u8>,
    r: Seq<u8>,
    options: MoveOptions,
    fuel: nat,
)
    requires
        rerun_agree(w, sa, aa, wb, sb, ab, first, second, r, options),
    ensures
        (drive(w, sa, aa, fuel).1 matches Some(OutcomeView::Place { target, .. }) && target == r)
            ==> {
            &&& drive(w, sa, aa, fuel).0.disk == w.disk.remove(path_components(first)).insert(
                path_components(r),
                w.disk[path_components(first)],
            )
            &&& drive(w, sa, aa, fuel).0.claims == Map::<Seq<Seq<u8>>, ClaimView>::empty()
            &&& drive(wb, sb, ab, fuel + 2).1 == Some(duplicate_of(r, options))
            &&& drive(wb, sb, ab, fuel + 2).0 == finished(wb, sb, duplicate_of(r, options))
        },
    decreases fuel,
{
    let ks1 = path_components(first);
    let ks2 = path_components(second);
    let kr = path_components(r);
    let c = w.disk[ks1];
    let t = sa.target;
    let kt = path_components(t);
    if fuel > 0 {
        let (ea, wa1) = answer(w, sa);
        let (sa1, aa1) = step(sa, ea);
        let (eb, wb1) = answer(wb, sb);
        let (sb1, ab1) = step(sb, eb);
        lemma_step_coherent(sa, ea);
        lemma_step_coherent(sb, eb);
        assert(drive(w, sa, aa, fuel) == drive(wa1, sa1, aa1, (fuel - 1) as nat));
        assert(drive(wb, sb, ab, fuel + 2) == drive(wb1, sb1, ab1, fuel + 1));
        assert(t == candidate(sa.dest, sa.attempt));
        assert(kt != ks2);
        let dup = duplicate_of(r, options);
        if sa.phase == Phase::AwaitOccupant {
            if kt == kr {
                if w.disk.contains_key(kr) {
                    assert(aa1 == ActionView::ReadOccupantSize(t));
                    lemma_place_after(wa1, sa1, aa1, (fuel - 1) as nat);
                    if let Some(OutcomeView::Place { target, .. }) = drive(
                        wa1,
                        sa1,
                        aa1,
                        (fuel - 1) as nat,
                    ).1 {
                        let m = choose|m: nat|
                            target == candidate(sa1.dest, m) && m >= sa1.attempt && (m
                                == sa1.attempt ==> !(aa1 is ReadOccupantSize || aa1 is HashFiles));
                        lemma_candidates_distinct(sa.dest, sa.attempt, m);
                    }
                } else {
                    assert(ea == Event::Occupant(None));
                    assert(wb.disk.contains_key(kr));
                    assert(eb == Event::Occupant(Some(t)));
                    assert(wb1 == wb);
                    assert(ab1 == ActionView::ReadOccupantSize(t));
                    if t == r {
                        assert(wb.disk[ks2] == c);
                        assert(wb.disk[kr] == c);
                        lemma_rerun_finds_duplicate(wb, sb1, c, r, options, fuel + 1);
                        assert(sb1.source == sb.source);
                        assert(finished(wb, sb1, dup) == finished(wb, sb, dup));
                        assert(wa1.disk == w.disk);
                        assert(wa1.claims.remove(kr) =~= Map::<Seq<Seq<u8>>, ClaimView>::empty());
                    }
                }
            } else if w.disk.contains_key(kt) {
                assert(wb.disk.contains_key(kt));
                assert(ea == Event::Occupant(Some(t)));
                assert(eb == Event::Occupant(Some(t)));
                assert(wa1 == w);
                assert(wb1 == wb);
                lemma_rerun_drive(wa1, sa1, aa1, wb1, sb1, ab1, first, second, r, options, (fuel - 1) as nat);
                assert(sb1.source == sb.source);
                assert(finished(wb, sb1, dup) == finished(wb, sb, dup)) by {
                    assert(finished(wb, sb1, dup).disk == finished(wb, sb, dup).disk);
                }
            } else {
                assert(ea == Event::Occupant(None));
                assert(aa1 == ActionView::Finish(
                    OutcomeView::Place { target: t, renamed: sa.attempt > 0, perform_move: true },
                ));
            }
        } else {
            assert(wa1 == w);
            assert(wb1 == wb);
            assert(w.disk[ks1] == c);
            assert(wb.disk[ks2] == c);
            if sa.phase != Phase::AwaitSourceSize {
                assert(wb.disk[kt] == w.disk[kt]);
            }
            assert(ea == eb);
            if aa1 is Finish {
                if aa1->Finish_0 is Place {
                    lemma_place_only_on_free_name(sa, ea);
                }
            } else {
                assert(!(ab1 is Finish));
                lemma_rerun_drive(wa1, sa1, aa1, wb1, sb1, ab1, first, second, r, options, (fuel - 1) as nat);
                assert(sb1.source == sb.source);
                assert(finished(wb, sb1, dup) == finished(wb, sb, dup)) by {
                    assert(finished(wb, sb1, dup).disk == finished(wb, sb, dup).disk);
                }
            }
        }
    }
}

/// The name a move placed its file at.
pub open spec fn placed_at(o: Option<OutcomeView>) -> Seq<u8> {
    match o {
        Some(OutcomeView::Place { target, .. }) => target,
        _ => Seq::empty(),
    }
}

/// Re-running over the same photos adds no copies. Once a real move has
/// put `first` at a name `r` (its destination or a numbered variant of it),
/// a new file `second` with the same contents, bound for the same
/// destination and at none of its candidate names, is found to duplicate
/// the file at `r`: nothing new appears at any name, and `second` is kept,
/// removed or trashed as the options say. (Moves go one at a time from a
/// world without claims; the later move is given two more answers than the
/// first needed.)
pub proof fn lemma_rerun_adds_no_copies(
    w: World,
    first: Seq<u8>,
    second: Seq<u8>,
    dest: Seq<u8>,
    options: MoveOptions,
    fuel: nat,
)
    requires
        !options.dry_run,
        w.claims == Map::<Seq<Seq<u8>>, ClaimView>::empty(),
        w.disk.contains_key(path_components(first)),
        file_name_of(dest) is Some,
        forall|n: nat| path_components(#[trigger] candidate(dest, n)) != path_components(second),
        run_file(w, first, dest, options, fuel).1 matches Some(OutcomeView::Place { .. }),
    ensures
        ({
            let after = run_file(w, first, dest, options, fuel);
            let r = placed_at(after.1);
            let c = w.disk[path_components(first)];
            let w2 = World { disk: after.0.disk.insert(path_components(second), c), ..after.0 };
            let again = run_file(w2, second, dest, options, fuel + 2);
            &&& after.0.disk.contains_key(path_components(r))
            &&& after.0.disk[path_components(r)] == c
            &&& again.1 == Some(duplicate_of(r, options))
            &&& again.0.claims == w2.claims
            &&& again.0.disk == if duplicate_of(r, options)->Duplicate_discard == DiscardAction::Keep {
                w2.disk
            } else {
                w2.disk.remove(path_components(second))
            }
        }),
{
    let ks1 = path_components(first);
    let ks2 = path_components(second);
    let c = w.disk[ks1];
    let (sa, aa) = started(first, dest, options);
    let (sb, ab) = started(second, dest, options);
    let after = run_file(w, first, dest, options, fuel);
    let r = placed_at(after.1);
    let kr = path_components(r);
    assert(candidate(dest, 0) == dest);
    assert(!(aa is Finish));
    assert(!(ab is Finish));
    lemma_place_after(w, sa, aa, fuel);
    let m = choose|m: nat|
        r == candidate(sa.dest, m) && m >= sa.attempt && (m == sa.attempt ==> !(
        aa is ReadOccupantSize || aa is HashFiles));
    assert(kr != ks2);
    let wb = World {
        disk: w.disk.remove(ks1).insert(kr, c).insert(ks2, c),
        claims: Map::<Seq<Seq<u8>>, ClaimView>::empty(),
    };
    assert(rerun_agree(w, sa, aa, wb, sb, ab, first, second, r, options));
    lemma_rerun_drive(w, sa, aa, wb, sb, ab, first, second, r, options, fuel);
    let w2 = World { disk: after.0.disk.insert(ks2, c), ..after.0 };
    assert(w2.disk =~= wb.disk);
    assert(w2 == wb);
}

} // verus!
