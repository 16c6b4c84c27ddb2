//! Destination names spoken for by files this run is still dealing with, so
//! that files racing for the same name neither overwrite each other nor
//! mistake an in-progress move for a different file.

use vstd::prelude::*;
use vstd::slice::slice_to_vec;
use crate::errors::UtilError;
use crate::path::{path_components, paths_equal};

verus! {

/// A destination name spoken for.
pub enum Claim {
    /// A move onto the name is underway; the name holds an empty placeholder
    /// until it finishes.
    InFlight,
    /// A dry run would put this source here; the claim stands for the rest
    /// of the run.
    DryRun(Vec<u8>),
}

/// A claim as a value.
pub enum ClaimView {
    InFlight,
    DryRun(Seq<u8>),
}

impl View for Claim {
    type V = ClaimView;

    open spec fn view(&self) -> ClaimView {
        match self {
            Claim::InFlight => ClaimView::InFlight,
            Claim::DryRun(s) => ClaimView::DryRun(s@),
        }
    }
}

impl Claim {
    /// A copy of the claim.
    pub fn duplicate(&self) -> (r: Claim)
        ensures
            r@ == self@,
    {
        match self {
            Claim::InFlight => Claim::InFlight,
            Claim::DryRun(s) => Claim::DryRun(slice_to_vec(s.as_slice())),
        }
    }
}

struct ClaimEntry {
    path: Vec<u8>,
    claim: Claim,
}

/// The claims on destination names, keyed by path: two strings that name
/// the same path (same components) are the same key.
pub struct ClaimRegistry {
    entries: Vec<ClaimEntry>,
}

/// The key of the `i`-th entry.
spec fn key_at(es: Seq<ClaimEntry>, i: int) -> Seq<Seq<u8>> {
    path_components(es[i].path@)
}

spec fn has_key(es: Seq<ClaimEntry>, k: Seq<Seq<u8>>) -> bool {
    exists|i: int| 0 <= i < es.len() && key_at(es, i) == k
}

spec fn index_of(es: Seq<ClaimEntry>, k: Seq<Seq<u8>>) -> int {
    choose|i: int| 0 <= i < es.len() && key_at(es, i) == k
}

spec fn keys_distinct(es: Seq<ClaimEntry>) -> bool {
    forall|i: int, j: int| 0 <= i < es.len() && 0 <= j < es.len() && i != j ==> key_at(es, i) != key_at(es, j)
}

spec fn claims_of(es: Seq<ClaimEntry>) -> Map<Seq<Seq<u8>>, ClaimView> {
    Map::new(|k: Seq<Seq<u8>>| has_key(es, k), |k: Seq<Seq<u8>>| es[index_of(es, k)].claim@)
}

proof fn lemma_index_of(es: Seq<ClaimEntry>, i: int)
    requires
        keys_distinct(es),
        0 <= i < es.len(),
    ensures
        has_key(es, key_at(es, i)),
        index_of(es, key_at(es, i)) == i,
{
    let k = key_at(es, i);
    assert(has_key(es, k));
    let j = index_of(es, k);
    assert(0 <= j < es.len() && key_at(es, j) == k);
}

impl View for ClaimRegistry {
    type V = Map<Seq<Seq<u8>>, ClaimView>;

    /// The claim on each path, by its components.
    closed spec fn view(&self) -> Map<Seq<Seq<u8>>, ClaimView> {
        claims_of(self.entries@)
    }
}

impl ClaimRegistry {
    #[verifier::type_invariant]
    spec fn inv(self) -> bool {
        keys_distinct(self.entries@)
    }

    /// No claims.
    pub fn new() -> (r: Self)
        ensures
            r@ == Map::<Seq<Seq<u8>>, ClaimView>::empty(),
    {
        let r = ClaimRegistry { entries: Vec::new() };
        assert(r@ =~= Map::<Seq<Seq<u8>>, ClaimView>::empty());
        r
    }

    fn find(&self, target: &[u8]) -> (r: Option<usize>)
        ensures
            match r {
                Some(i) => i < self.entries@.len() && key_at(self.entries@, i as int)
                    == path_components(target@),
                None => !has_key(self.entries@, path_components(target@)),
            },
    {
        let mut i: usize = 0;
        while i < self.entries.len()
            invariant
                i <= self.entries@.len(),
                forall|j: int| 0 <= j < i ==> key_at(self.entries@, j) != path_components(target@),
            decreases self.entries@.len() - i,
        {
            if paths_equal(self.entries[i].path.as_slice(), target) {
                return Some(i);
            }
            i = i + 1;
        }
        None
    }

    /// The claim on `target`, if any.
    pub fn get(&self, target: &[u8]) -> (r: Option<Claim>)
        ensures
            match r {
                Some(c) => self@.contains_key(path_components(target@)) && self@[path_components(
                    target@,
                )] == c@,
                None => !self@.contains_key(path_components(target@)),
            },
    {
        proof {
            use_type_invariant(self);
        }
        match self.find(target) {
            Some(i) => {
                proof {
                    lemma_index_of(self.entries@, i as int);
                }
                Some(self.entries[i].claim.duplicate())
            },
            None => None,
        }
    }

    /// Records `claim` on `target`, replacing any claim on that path.
    pub fn insert(&mut self, target: &[u8], claim: Claim)
        ensures
            final(self)@ == old(self)@.insert(path_components(target@), claim@),
    {
        proof {
            use_type_invariant(&*self);
        }
        let ghost old_es = self.entries@;
        let ghost k = path_components(target@);
        let ghost cv = claim@;
        match self.find(target) {
            Some(i) => {
                let path = slice_to_vec(self.entries[i].path.as_slice());
                let mut es_vec: Vec<ClaimEntry> = Vec::new();
                std::mem::swap(&mut es_vec, &mut self.entries);
                es_vec.set(i, ClaimEntry { path, claim });
                proof {
                    let es = es_vec@;
                    assert(keys_distinct(es)) by {
                        assert forall|a: int, b: int|
                            0 <= a < es.len() && 0 <= b < es.len() && a != b implies key_at(es, a)
                            != key_at(es, b) by {
                            assert(key_at(es, a) == key_at(old_es, a));
                            assert(key_at(es, b) == key_at(old_es, b));
                        }
                    }
                    lemma_index_of(es, i as int);
                    assert forall|kk: Seq<Seq<u8>>| has_key(es, kk) == has_key(old_es, kk) by {
                        if has_key(es, kk) {
                            let j = choose|j: int| 0 <= j < es.len() && key_at(es, j) == kk;
                            assert(key_at(old_es, j) == kk);
                        }
                        if has_key(old_es, kk) {
                            let j = choose|j: int| 0 <= j < old_es.len() && key_at(old_es, j) == kk;
                            assert(key_at(es, j) == kk);
                        }
                    }
                    assert forall|kk: Seq<Seq<u8>>| has_key(es, kk) && kk != k implies es[index_of(
                        es,
                        kk,
                    )].claim@ == old_es[index_of(old_es, kk)].claim@ by {
                        let j = index_of(old_es, kk);
                        lemma_index_of(old_es, j);
                        lemma_index_of(es, j);
                        assert(key_at(es, j) == kk);
                    }
                    assert(claims_of(es) =~= claims_of(old_es).insert(k, cv));
                }
                self.entries = es_vec;
            },
            None => {
                let mut es_vec: Vec<ClaimEntry> = Vec::new();
                std::mem::swap(&mut es_vec, &mut self.entries);
                es_vec.push(ClaimEntry { path: slice_to_vec(target), claim });
                proof {
                    let es = es_vec@;
                    let n = old_es.len() as int;
                    assert(key_at(es, n) == k);
                    assert forall|a: int| 0 <= a < n implies key_at(es, a) == key_at(old_es, a) by {
                        assert(es[a] == old_es[a]);
                    }
                    assert(keys_distinct(es)) by {
                        assert forall|a: int, b: int|
                            0 <= a < es.len() && 0 <= b < es.len() && a != b implies key_at(es, a)
                            != key_at(es, b) by {
                            if a < n && b < n {
                                assert(key_at(old_es, a) != key_at(old_es, b));
                            } else if a == n {
                                assert(!(0 <= b < old_es.len() && key_at(old_es, b) == k));
                            } else {
                                assert(!(0 <= a < old_es.len() && key_at(old_es, a) == k));
                            }
                        }
                    }
                    lemma_index_of(es, n);
                    assert forall|kk: Seq<Seq<u8>>| has_key(es, kk) == (has_key(old_es, kk) || kk
                        == k) by {
                        if has_key(es, kk) {
                            let j = choose|j: int| 0 <= j < es.len() && key_at(es, j) == kk;
                            if j < n {
                                assert(key_at(old_es, j) == kk);
                            }
                        }
                        if has_key(old_es, kk) {
                            let j = choose|j: int| 0 <= j < old_es.len() && key_at(old_es, j) == kk;
                            assert(key_at(es, j) == kk);
                        }
                    }
                    assert forall|kk: Seq<Seq<u8>>| has_key(es, kk) && kk != k implies es[index_of(
                        es,
                        kk,
                    )].claim@ == old_es[index_of(old_es, kk)].claim@ by {
                        let j = index_of(old_es, kk);
                        lemma_index_of(old_es, j);
                        lemma_index_of(es, j);
                    }
                    assert(claims_of(es) =~= claims_of(old_es).insert(k, cv));
                }
                self.entries = es_vec;
            },
        }
    }

    /// Drops any claim on `target`.
    pub fn remove(&mut self, target: &[u8])
        ensures
            final(self)@ == old(self)@.remove(path_components(target@)),
    {
        proof {
            use_type_invariant(&*self);
        }
        let ghost old_es = self.entries@;
        let ghost k = path_components(target@);
        match self.find(target) {
            Some(i) => {
                let mut es_vec: Vec<ClaimEntry> = Vec::new();
                std::mem::swap(&mut es_vec, &mut self.entries);
                es_vec.remove(i);
                proof {
                    let es = es_vec@;
                    assert(es =~= old_es.remove(i as int));
                    assert forall|a: int| 0 <= a < es.len() implies key_at(es, a) == key_at(
                        old_es,
                        if a < i {
                            a
                        } else {
                            a + 1
                        },
                    ) by {}
                    assert(keys_distinct(es)) by {
                        assert forall|a: int, b: int|
                            0 <= a < es.len() && 0 <= b < es.len() && a != b implies key_at(es, a)
                            != key_at(es, b) by {
                            let a2 = if a < i {
                                a
                            } else {
                                a + 1
                            };
                            let b2 = if b < i {
                                b
                            } else {
                                b + 1
                            };
                            assert(key_at(old_es, a2) != key_at(old_es, b2));
                        }
                    }
                    assert forall|kk: Seq<Seq<u8>>| has_key(es, kk) == (has_key(old_es, kk) && kk
                        != k) by {
                        if has_key(es, kk) {
                            let j = choose|j: int| 0 <= j < es.len() && key_at(es, j) == kk;
                            let j2 = if j < i {
                                j
                            } else {
                                j + 1
                            };
                            assert(key_at(old_es, j2) == kk);
                            assert(j2 != i);
                        }
                        if has_key(old_es, kk) && kk != k {
                            let j = choose|j: int| 0 <= j < old_es.len() && key_at(old_es, j) == kk;
                            assert(j != i);
                            let j2 = if j < i {
                                j
                            } else {
                                j - 1
                            };
                            assert(key_at(es, j2) == kk);
                        }
                    }
                    assert forall|kk: Seq<Seq<u8>>| has_key(es, kk) implies es[index_of(
                        es,
                        kk,
                    )].claim@ == old_es[index_of(old_es, kk)].claim@ by {
                        let j = index_of(es, kk);
                        lemma_index_of(es, j);
                        let j2 = if j < i {
                            j
                        } else {
                            j + 1
                        };
                        lemma_index_of(old_es, j2);
                    }
                    assert(claims_of(es) =~= claims_of(old_es).remove(k));
                }
                self.entries = es_vec;
            },
            None => {
                assert(claims_of(old_es) =~= claims_of(old_es).remove(k));
            },
        }
    }
}

/// What to do about a destination name while holding the claims.
pub enum NameResolution {
    /// A move onto the name is underway: wait for it to land, then ask again.
    Wait,
    /// The name is taken; this file (the claimant of a dry run, or the file
    /// on disk) is the one to compare against.
    Occupied(Vec<u8>),
    /// Whether a file exists at the name is needed: ask again with it.
    CheckDisk,
    /// Nothing holds the name: create an empty placeholder there, exclusively.
    CreatePlaceholder,
    /// The name is now claimed for the source.
    Free,
}

/// What creating the placeholder at a free name gave.
pub enum PlaceholderOutcome {
    Created,
    AlreadyExists,
    Failed,
}

/// A resolution as a value.
pub enum ResolutionView {
    Wait,
    Occupied(Seq<u8>),
    CheckDisk,
    CreatePlaceholder,
    Free,
}

impl View for NameResolution {
    type V = ResolutionView;

    open spec fn view(&self) -> ResolutionView {
        match self {
            NameResolution::Wait => ResolutionView::Wait,
            NameResolution::Occupied(p) => ResolutionView::Occupied(p@),
            NameResolution::CheckDisk => ResolutionView::CheckDisk,
            NameResolution::CreatePlaceholder => ResolutionView::CreatePlaceholder,
            NameResolution::Free => ResolutionView::Free,
        }
    }
}

/// What resolving `target` for `source` answers under the claims `m`, and
/// the claims after it: an in-flight claim makes the caller wait, a dry-run
/// claim names its claimant; an unclaimed name asks for the disk, is taken
/// by the file there, is claimed for `source` in a dry run, or needs a
/// placeholder.
pub open spec fn resolution(
    m: Map<Seq<Seq<u8>>, ClaimView>,
    target: Seq<u8>,
    source: Seq<u8>,
    dry_run: bool,
    on_disk: Option<bool>,
) -> (ResolutionView, Map<Seq<Seq<u8>>, ClaimView>) {
    let k = path_components(target);
    if m.contains_key(k) {
        match m[k] {
            ClaimView::InFlight => (ResolutionView::Wait, m),
            ClaimView::DryRun(c) => (ResolutionView::Occupied(c), m),
        }
    } else {
        match on_disk {
            None => (ResolutionView::CheckDisk, m),
            Some(true) => (ResolutionView::Occupied(target), m),
            Some(false) => if dry_run {
                (ResolutionView::Free, m.insert(k, ClaimView::DryRun(source)))
            } else {
                (ResolutionView::CreatePlaceholder, m)
            },
        }
    }
}

/// Which file, if any, holds `target`, given the claims and, once asked
/// for, whether a file exists there (`on_disk`). A dry run claims a free
/// name for `source` at once and keeps the claim; a real run first creates
/// a placeholder on disk.
pub fn resolve_name(
    claims: &mut ClaimRegistry,
    target: &[u8],
    source: &[u8],
    dry_run: bool,
    on_disk: Option<bool>,
) -> (r: NameResolution)
    ensures
        (r@, final(claims)@) == resolution(old(claims)@, target@, source@, dry_run, on_disk),
{
    match claims.get(target) {
        Some(Claim::InFlight) => NameResolution::Wait,
        Some(Claim::DryRun(claimant)) => NameResolution::Occupied(claimant),
        None => match on_disk {
            None => NameResolution::CheckDisk,
            Some(true) => NameResolution::Occupied(slice_to_vec(target)),
            Some(false) => {
                if dry_run {
                    claims.insert(target, Claim::DryRun(slice_to_vec(source)));
                    NameResolution::Free
                } else {
                    NameResolution::CreatePlaceholder
                }
            },
        },
    }
}

/// Settles a free name after trying to create its placeholder: created, the
/// name is claimed as in flight; already there, another process got it first
/// and its file is the occupant; otherwise the error.
pub fn placeholder_created(
    claims: &mut ClaimRegistry,
    target: &[u8],
    outcome: PlaceholderOutcome,
) -> (r: Result<NameResolution, UtilError>)
    ensures
        match outcome {
            PlaceholderOutcome::Created => (r matches Ok(res) && res@ == ResolutionView::Free)
                && final(claims)@ == old(claims)@.insert(
                path_components(target@),
                ClaimView::InFlight,
            ),
            PlaceholderOutcome::AlreadyExists => (r matches Ok(res) && res@
                == ResolutionView::Occupied(target@)) && final(claims)@ == old(claims)@,
            PlaceholderOutcome::Failed => (r matches Err(UtilError::CreateFailed { path }) && path@
                == target@) && final(claims)@ == old(claims)@,
        },
{
    match outcome {
        PlaceholderOutcome::Created => {
            claims.insert(target, Claim::InFlight);
            Ok(NameResolution::Free)
        },
        PlaceholderOutcome::AlreadyExists => Ok(NameResolution::Occupied(slice_to_vec(target))),
        PlaceholderOutcome::Failed => Err(UtilError::CreateFailed { path: slice_to_vec(target) }),
    }
}

/// Once a dry run has handed a free name to a source, any later file aiming
/// at that path (however it is spelled) is compared against that source.
pub proof fn lemma_dry_run_claim_is_remembered(
    m: Map<Seq<Seq<u8>>, ClaimView>,
    target: Seq<u8>,
    source: Seq<u8>,
    later_target: Seq<u8>,
    later_source: Seq<u8>,
    later_dry_run: bool,
    later_on_disk: Option<bool>,
)
    requires
        resolution(m, target, source, true, Some(false)).0 == ResolutionView::Free,
        path_components(later_target) == path_components(target),
    ensures
        resolution(
            resolution(m, target, source, true, Some(false)).1,
            later_target,
            later_source,
            later_dry_run,
            later_on_disk,
        ).0 == ResolutionView::Occupied(source),
{
}

/// While a move onto a name is in flight, every other file aiming at that
/// path waits; once the claim is released, the name is looked up afresh.
pub proof fn lemma_in_flight_claim_blocks(
    m: Map<Seq<Seq<u8>>, ClaimView>,
    target: Seq<u8>,
    other_target: Seq<u8>,
    other_source: Seq<u8>,
    dry_run: bool,
    on_disk: Option<bool>,
)
    requires
        path_components(other_target) == path_components(target),
    ensures
        resolution(
            m.insert(path_components(target), ClaimView::InFlight),
            other_target,
            other_source,
            dry_run,
            on_disk,
        ).0 == ResolutionView::Wait,
        resolution(
            m.insert(path_components(target), ClaimView::InFlight).remove(path_components(target)),
            other_target,
            other_source,
            dry_run,
            on_disk,
        ) == resolution(m.remove(path_components(target)), other_target, other_source, dry_run, on_disk),
{
    assert(m.insert(path_components(target), ClaimView::InFlight).remove(path_components(target))
        =~= m.remove(path_components(target)));
}

/// A name never resolves as free while a file is known to be on disk there
/// or while any claim holds it: a free name is one nothing held.
pub proof fn lemma_free_only_when_unheld(
    m: Map<Seq<Seq<u8>>, ClaimView>,
    target: Seq<u8>,
    source: Seq<u8>,
    dry_run: bool,
    on_disk: Option<bool>,
)
    requires
        resolution(m, target, source, dry_run, on_disk).0 == ResolutionView::Free,
    ensures
        !m.contains_key(path_components(target)),
        on_disk == Some(false),
        dry_run,
{
}

} // verus!
