//! What happens to known volumes as they are mounted, reconciled and removed.

use vstd::prelude::*;

use crate::model::{Coverage, Freshness};
use crate::paths::{self, FilePath};
use crate::text::same_str;

verus! {

/// A volume with a committed index.
#[derive(Clone, Debug, PartialEq, Eq)]
pub struct ManagedVolume {
    pub identity: String,
    pub mount_path: FilePath,
    pub freshness: Freshness,
    pub coverage: Option<Coverage>,
    pub reconciliation_in_flight: bool,
}

/// What is known of a volume.
pub struct Managed {
    pub identity: Seq<char>,
    pub mount_path: Seq<char>,
    pub freshness: Freshness,
    pub coverage: Option<Coverage>,
    pub reconciliation_in_flight: bool,
}

impl View for ManagedVolume {
    type V = Managed;

    open spec fn view(&self) -> Managed {
        Managed {
            identity: self.identity@,
            mount_path: self.mount_path@,
            freshness: self.freshness,
            coverage: self.coverage,
            reconciliation_in_flight: self.reconciliation_in_flight,
        }
    }
}

/// What a mount means for the known volumes.
#[derive(Clone, Copy, Debug, PartialEq, Eq, Structural)]
pub enum MountTransition {
    Unchanged,
    Connected,
    Reconnected,
    IdentityMismatch,
}

/// The known volumes, each under its identity.
pub struct VolumeLifecycle {
    volumes: Vec<ManagedVolume>,
}

spec fn known_at(list: Seq<ManagedVolume>, identity: Seq<char>, at: int) -> bool {
    0 <= at < list.len() && list[at].identity@ == identity
}

spec fn known(list: Seq<ManagedVolume>, identity: Seq<char>) -> bool {
    exists|at: int| known_at(list, identity, at)
}

spec fn distinct(list: Seq<ManagedVolume>) -> bool {
    forall|i: int, j: int|
        #![trigger list[i], list[j]]
        0 <= i < j < list.len() ==> list[i].identity@ != list[j].identity@
}

spec fn by_identity(list: Seq<ManagedVolume>) -> Map<Seq<char>, Managed> {
    Map::new(
        |identity: Seq<char>| known(list, identity),
        |identity: Seq<char>| list[choose|at: int| known_at(list, identity, at)]@,
    )
}

proof fn entry_of_identity(list: Seq<ManagedVolume>, at: int)
    requires
        distinct(list),
        0 <= at < list.len(),
    ensures
        by_identity(list).dom().contains(list[at].identity@),
        by_identity(list)[list[at].identity@] == list[at]@,
{
    let identity = list[at].identity@;
    assert(known_at(list, identity, at));
    let other = choose|i: int| known_at(list, identity, i);
    assert(known_at(list, identity, other));
    if other < at {
        assert(list[other].identity@ != list[at].identity@);
    } else if at < other {
        assert(list[at].identity@ != list[other].identity@);
    }
}

proof fn replacing_one(list: Seq<ManagedVolume>, at: int, volume: ManagedVolume)
    requires
        distinct(list),
        0 <= at < list.len(),
        volume.identity@ == list[at].identity@,
    ensures
        distinct(list.update(at, volume)),
        by_identity(list.update(at, volume)) == by_identity(list).insert(
            volume.identity@,
            volume@,
        ),
{
    let next = list.update(at, volume);
    assert(distinct(next)) by {
        assert forall|i: int, j: int|
            #![trigger next[i], next[j]]
            0 <= i < j < next.len() implies next[i].identity@ != next[j].identity@ by {
            assert(list[i].identity@ != list[j].identity@);
        }
    }
    let left = by_identity(next);
    let right = by_identity(list).insert(volume.identity@, volume@);
    assert forall|identity: Seq<char>| left.dom().contains(identity) == right.dom().contains(
        identity,
    ) by {
        if known(next, identity) {
            let i = choose|i: int| known_at(next, identity, i);
            assert(known_at(list, identity, i));
        }
        if known(list, identity) {
            let i = choose|i: int| known_at(list, identity, i);
            assert(known_at(next, identity, i));
        }
        entry_of_identity(next, at);
    }
    assert forall|identity: Seq<char>| left.dom().contains(identity) implies left[identity]
        == right[identity] by {
        let i = choose|i: int| known_at(next, identity, i);
        entry_of_identity(next, i);
        if i != at {
            entry_of_identity(list, i);
            assert(list[i].identity@ != list[at].identity@) by {
                if i < at {
                    assert(list[i].identity@ != list[at].identity@);
                } else {
                    assert(list[at].identity@ != list[i].identity@);
                }
            }
        }
    }
    assert(left =~= right);
}

proof fn adding_one(list: Seq<ManagedVolume>, volume: ManagedVolume)
    requires
        distinct(list),
        !known(list, volume.identity@),
    ensures
        distinct(list.push(volume)),
        by_identity(list.push(volume)) == by_identity(list).insert(volume.identity@, volume@),
{
    let next = list.push(volume);
    let last = list.len() as int;
    assert(distinct(next)) by {
        assert forall|i: int, j: int|
            #![trigger next[i], next[j]]
            0 <= i < j < next.len() implies next[i].identity@ != next[j].identity@ by {
            if j == last {
                assert(!known_at(list, volume.identity@, i));
            } else {
                assert(list[i].identity@ != list[j].identity@);
            }
        }
    }
    let left = by_identity(next);
    let right = by_identity(list).insert(volume.identity@, volume@);
    assert forall|identity: Seq<char>| left.dom().contains(identity) == right.dom().contains(
        identity,
    ) by {
        if known(next, identity) {
            let i = choose|i: int| known_at(next, identity, i);
            if i < last {
                assert(known_at(list, identity, i));
            }
        }
        if known(list, identity) {
            let i = choose|i: int| known_at(list, identity, i);
            assert(known_at(next, identity, i));
        }
        entry_of_identity(next, last);
    }
    assert forall|identity: Seq<char>| left.dom().contains(identity) implies left[identity]
        == right[identity] by {
        let i = choose|i: int| known_at(next, identity, i);
        entry_of_identity(next, i);
        if i < last {
            entry_of_identity(list, i);
            assert(!known_at(list, volume.identity@, i));
        }
    }
    assert(left =~= right);
}

/// Another volume than the given one is known at a mount path.
pub open spec fn path_is_taken(
    volumes: Map<Seq<char>, Managed>,
    identity: Seq<char>,
    mount_path: Seq<char>,
) -> bool {
    exists|other: Seq<char>| #[trigger]
        volumes.dom().contains(other) && other != identity && paths::parts(
            volumes[other].mount_path,
        ) == paths::parts(mount_path)
}

/// What a mount makes of the known volumes.
pub open spec fn after_mount(
    volumes: Map<Seq<char>, Managed>,
    identity: Seq<char>,
    mount_path: Seq<char>,
) -> (MountTransition, Map<Seq<char>, Managed>) {
    if path_is_taken(volumes, identity, mount_path) {
        (MountTransition::IdentityMismatch, volumes)
    } else if !volumes.dom().contains(identity) {
        (MountTransition::Connected, volumes)
    } else if volumes[identity].freshness == Freshness::Offline {
        (
            MountTransition::Reconnected,
            volumes.insert(
                identity,
                Managed { mount_path, freshness: Freshness::CatchingUp, ..volumes[identity] },
            ),
        )
    } else {
        (
            MountTransition::Unchanged,
            volumes.insert(identity, Managed { mount_path, ..volumes[identity] }),
        )
    }
}

/// The known volumes with one whose committed index was restored.
pub open spec fn after_restore(
    volumes: Map<Seq<char>, Managed>,
    identity: Seq<char>,
    mount_path: Seq<char>,
    coverage: Coverage,
    mounted: bool,
) -> Map<Seq<char>, Managed> {
    volumes.insert(
        identity,
        Managed {
            identity,
            mount_path,
            freshness: if mounted {
                Freshness::Current
            } else {
                Freshness::Offline
            },
            coverage: Some(coverage),
            reconciliation_in_flight: false,
        },
    )
}

/// What a removal makes of the known volumes: what was committed of the volume stays.
pub open spec fn after_removal(volumes: Map<Seq<char>, Managed>, identity: Seq<char>) -> Map<
    Seq<char>,
    Managed,
> {
    if volumes.dom().contains(identity) {
        volumes.insert(
            identity,
            Managed {
                freshness: Freshness::Offline,
                reconciliation_in_flight: false,
                ..volumes[identity]
            },
        )
    } else {
        volumes
    }
}

/// A volume can be reconciled: it is known and not gone.
pub open spec fn reconcilable(volumes: Map<Seq<char>, Managed>, identity: Seq<char>) -> bool {
    volumes.dom().contains(identity) && volumes[identity].freshness != Freshness::Offline
}

/// What the start of a reconciliation makes of the known volumes.
pub open spec fn after_start(volumes: Map<Seq<char>, Managed>, identity: Seq<char>) -> Map<
    Seq<char>,
    Managed,
> {
    if reconcilable(volumes, identity) {
        volumes.insert(
            identity,
            Managed {
                freshness: Freshness::CatchingUp,
                reconciliation_in_flight: true,
                ..volumes[identity]
            },
        )
    } else {
        volumes
    }
}

/// What a committed generation makes of the known volumes.
pub open spec fn after_commit(
    volumes: Map<Seq<char>, Managed>,
    identity: Seq<char>,
    coverage: Coverage,
) -> Map<Seq<char>, Managed> {
    if volumes.dom().contains(identity) {
        volumes.insert(
            identity,
            Managed {
                coverage: Some(coverage),
                freshness: Freshness::Current,
                reconciliation_in_flight: false,
                ..volumes[identity]
            },
        )
    } else {
        volumes
    }
}

impl Default for VolumeLifecycle {
    fn default() -> (lifecycle: Self)
        ensures
            lifecycle.wf(),
            lifecycle@ == Map::<Seq<char>, Managed>::empty(),
    {
        let lifecycle = VolumeLifecycle { volumes: Vec::new() };
        assert(lifecycle@ =~= Map::<Seq<char>, Managed>::empty());
        lifecycle
    }
}

impl View for VolumeLifecycle {
    type V = Map<Seq<char>, Managed>;

    closed spec fn view(&self) -> Map<Seq<char>, Managed> {
        by_identity(self.volumes@)
    }
}

impl VolumeLifecycle {
    /// No identity occurs twice.
    pub closed spec fn wf(&self) -> bool {
        distinct(self.volumes@)
    }

    /// Each volume is known under its own identity.
    pub proof fn identities_match(&self, identity: Seq<char>)
        requires
            self.wf(),
            self@.dom().contains(identity),
        ensures
            self@[identity].identity == identity,
    {
        let at = choose|at: int| known_at(self.volumes@, identity, at);
        assert(known_at(self.volumes@, identity, at));
    }

    fn position(&self, identity: &str) -> (found: Option<usize>)
        ensures
            match found {
                Some(at) => known_at(self.volumes@, identity@, at as int),
                None => !known(self.volumes@, identity@),
            },
    {
        for i in 0..self.volumes.len()
            invariant
                forall|k: int| 0 <= k < i ==> !known_at(self.volumes@, identity@, k),
        {
            if same_str(self.volumes[i].identity.as_str(), identity) {
                return Some(i);
            }
        }
        None
    }

    fn replace(&mut self, at: usize, volume: ManagedVolume)
        requires
            old(self).wf(),
            at < old(self).volumes@.len(),
            volume.identity@ == old(self).volumes@[at as int].identity@,
        ensures
            final(self).wf(),
            final(self)@ == old(self)@.insert(volume.identity@, volume@),
    {
        proof {
            replacing_one(self.volumes@, at as int, volume);
        }
        self.volumes.set(at, volume);
    }

    /// Takes in a volume with a committed index.
    pub fn restore_committed(
        &mut self,
        identity: String,
        mount_path: FilePath,
        coverage: Coverage,
        mounted: bool,
    )
        requires
            old(self).wf(),
        ensures
            final(self).wf(),
            final(self)@ == after_restore(
                old(self)@,
                identity@,
                mount_path@,
                coverage,
                mounted,
            ),
    {
        let found = self.position(identity.as_str());
        let volume = ManagedVolume {
            identity,
            mount_path,
            freshness: if mounted {
                Freshness::Current
            } else {
                Freshness::Offline
            },
            coverage: Some(coverage),
            reconciliation_in_flight: false,
        };
        match found {
            Some(at) => self.replace(at, volume),
            None => {
                proof {
                    adding_one(self.volumes@, volume);
                }
                self.volumes.push(volume);
            },
        }
    }

    /// Notes that a volume is gone: what was committed of it stays.
    pub fn removed(&mut self, identity: &str) -> (was_known: bool)
        requires
            old(self).wf(),
        ensures
            final(self).wf(),
            was_known == old(self)@.dom().contains(identity@),
            final(self)@ == after_removal(old(self)@, identity@),
    {
        match self.position(identity) {
            Some(at) => {
                proof {
                    entry_of_identity(self.volumes@, at as int);
                }
                let volume = ManagedVolume {
                    identity: self.volumes[at].identity.clone(),
                    mount_path: self.volumes[at].mount_path.clone(),
                    freshness: Freshness::Offline,
                    coverage: self.volumes[at].coverage,
                    reconciliation_in_flight: false,
                };
                self.replace(at, volume);
                true
            },
            None => false,
        }
    }

    /// Notes that a volume is mounted. A known one that was gone has to catch up; a mount path
    /// that belongs to another known volume changes nothing.
    pub fn mounted(&mut self, identity: &str, mount_path: FilePath) -> (transition: MountTransition)
        requires
            old(self).wf(),
        ensures
            final(self).wf(),
            transition == after_mount(old(self)@, identity@, mount_path@).0,
            final(self)@ == after_mount(old(self)@, identity@, mount_path@).1,
    {
        for i in 0..self.volumes.len()
            invariant
                self.wf(),
                *self == *old(self),
                forall|k: int|
                    0 <= k < i ==> (#[trigger] self.volumes@[k]).identity@ == identity@
                        || self.volumes@[k].mount_path.parts() != mount_path.parts(),
        {
            let other = &self.volumes[i];
            if !same_str(other.identity.as_str(), identity) && other.mount_path.same_as(
                &mount_path,
            ) {
                proof {
                    entry_of_identity(self.volumes@, i as int);
                    assert(self@.dom().contains(other.identity@));
                }
                return MountTransition::IdentityMismatch;
            }
        }
        proof {
            if path_is_taken(self@, identity@, mount_path@) {
                let other = choose|other: Seq<char>| #[trigger]
                    self@.dom().contains(other) && other != identity@ && paths::parts(
                        self@[other].mount_path,
                    ) == paths::parts(mount_path@);
                let k = choose|k: int| known_at(self.volumes@, other, k);
                entry_of_identity(self.volumes@, k);
                assert(self.volumes@[k].identity@ == identity@
                    || self.volumes@[k].mount_path.parts() != mount_path.parts());
            }
        }
        match self.position(identity) {
            Some(at) => {
                proof {
                    entry_of_identity(self.volumes@, at as int);
                }
                let reconnected = self.volumes[at].freshness == Freshness::Offline;
                let volume = ManagedVolume {
                    identity: self.volumes[at].identity.clone(),
                    mount_path,
                    freshness: if reconnected {
                        Freshness::CatchingUp
                    } else {
                        self.volumes[at].freshness
                    },
                    coverage: self.volumes[at].coverage,
                    reconciliation_in_flight: self.volumes[at].reconciliation_in_flight,
                };
                self.replace(at, volume);
                if reconnected {
                    MountTransition::Reconnected
                } else {
                    MountTransition::Unchanged
                }
            },
            None => MountTransition::Connected,
        }
    }

    /// Starts to reconcile a volume that is known and not gone.
    pub fn begin_reconciliation(&mut self, identity: &str) -> (started: bool)
        requires
            old(self).wf(),
        ensures
            final(self).wf(),
            started == reconcilable(old(self)@, identity@),
            final(self)@ == after_start(old(self)@, identity@),
    {
        match self.position(identity) {
            Some(at) => {
                proof {
                    entry_of_identity(self.volumes@, at as int);
                }
                if self.volumes[at].freshness == Freshness::Offline {
                    return false;
                }
                let volume = ManagedVolume {
                    identity: self.volumes[at].identity.clone(),
                    mount_path: self.volumes[at].mount_path.clone(),
                    freshness: Freshness::CatchingUp,
                    coverage: self.volumes[at].coverage,
                    reconciliation_in_flight: true,
                };
                self.replace(at, volume);
                true
            },
            None => false,
        }
    }

    /// Notes that a generation of a volume was committed.
    pub fn committed(&mut self, identity: &str, coverage: Coverage) -> (was_known: bool)
        requires
            old(self).wf(),
        ensures
            final(self).wf(),
            was_known == old(self)@.dom().contains(identity@),
            final(self)@ == after_commit(old(self)@, identity@, coverage),
    {
        match self.position(identity) {
            Some(at) => {
                proof {
                    entry_of_identity(self.volumes@, at as int);
                }
                let volume = ManagedVolume {
                    identity: self.volumes[at].identity.clone(),
                    mount_path: self.volumes[at].mount_path.clone(),
                    freshness: Freshness::Current,
                    coverage: Some(coverage),
                    reconciliation_in_flight: false,
                };
                self.replace(at, volume);
                true
            },
            None => false,
        }
    }

    /// Looks a volume up.
    pub fn get(&self, identity: &str) -> (found: Option<&ManagedVolume>)
        requires
            self.wf(),
        ensures
            match found {
                Some(volume) => self@.dom().contains(identity@) && volume@ == self@[identity@],
                None => !self@.dom().contains(identity@),
            },
    {
        match self.position(identity) {
            Some(at) => {
                proof {
                    entry_of_identity(self.volumes@, at as int);
                }
                Some(&self.volumes[at])
            },
            None => None,
        }
    }
}

/// A mount path that belongs to another known volume leaves every volume as it is: neither the
/// coverage nor the state of that volume passes to the one that was mounted.
pub proof fn reused_path_inherits_nothing(
    volumes: Map<Seq<char>, Managed>,
    identity: Seq<char>,
    owner: Seq<char>,
)
    requires
        volumes.dom().contains(owner),
        owner != identity,
    ensures
        after_mount(volumes, identity, volumes[owner].mount_path) == (
            MountTransition::IdentityMismatch,
            volumes,
        ),
{
    assert(path_is_taken(volumes, identity, volumes[owner].mount_path));
}

/// A mount changes at most the mounted volume, and neither its coverage nor whether it is being
/// reconciled.
pub proof fn mounting_touches_one_volume(
    volumes: Map<Seq<char>, Managed>,
    identity: Seq<char>,
    mount_path: Seq<char>,
)
    ensures
        after_mount(volumes, identity, mount_path).1.dom() == volumes.dom(),
        forall|other: Seq<char>|
            #![trigger after_mount(volumes, identity, mount_path).1[other]]
            volumes.dom().contains(other) ==> {
                let after = after_mount(volumes, identity, mount_path).1[other];
                &&& other != identity ==> after == volumes[other]
                &&& after.coverage == volumes[other].coverage
                &&& after.reconciliation_in_flight == volumes[other].reconciliation_in_flight
            },
{
    let after = after_mount(volumes, identity, mount_path).1;
    assert(after.dom() =~= volumes.dom());
}

/// Something that happens to the known volumes.
pub enum LifecycleEvent {
    Restored { identity: Seq<char>, mount_path: Seq<char>, coverage: Coverage, mounted: bool },
    Removed { identity: Seq<char> },
    Mounted { identity: Seq<char>, mount_path: Seq<char> },
    ReconciliationStarted { identity: Seq<char> },
    Committed { identity: Seq<char>, coverage: Coverage },
}

/// What an event makes of the known volumes.
pub open spec fn after_event(volumes: Map<Seq<char>, Managed>, event: LifecycleEvent) -> Map<
    Seq<char>,
    Managed,
> {
    match event {
        LifecycleEvent::Restored { identity, mount_path, coverage, mounted } => after_restore(
            volumes,
            identity,
            mount_path,
            coverage,
            mounted,
        ),
        LifecycleEvent::Removed { identity } => after_removal(volumes, identity),
        LifecycleEvent::Mounted { identity, mount_path } => after_mount(
            volumes,
            identity,
            mount_path,
        ).1,
        LifecycleEvent::ReconciliationStarted { identity } => after_start(volumes, identity),
        LifecycleEvent::Committed { identity, coverage } => after_commit(
            volumes,
            identity,
            coverage,
        ),
    }
}

/// The known volumes after some events, of which none was known at the start.
pub open spec fn after_events(events: Seq<LifecycleEvent>) -> Map<Seq<char>, Managed>
    decreases events.len(),
{
    if events.len() == 0 {
        Map::empty()
    } else {
        after_event(after_events(events.drop_last()), events.last())
    }
}

/// The index of a volume was restored by an event.
pub open spec fn restores(event: LifecycleEvent, identity: Seq<char>) -> bool {
    event matches LifecycleEvent::Restored { identity: restored, .. } && restored == identity
}

/// A state that a volume can be in: it is known under its own identity and has a committed index,
/// it is catching up while it is being reconciled, and it is never rebuilt from nothing.
pub open spec fn possible(identity: Seq<char>, volume: Managed) -> bool {
    &&& volume.identity == identity
    &&& volume.coverage is Some
    &&& volume.reconciliation_in_flight ==> volume.freshness == Freshness::CatchingUp
    &&& volume.freshness != Freshness::Rebuilding
}

/// Whatever happens, every known volume is in a possible state, and exactly those volumes are
/// known whose index was restored: nothing forgets a volume, and nothing else makes one known.
pub proof fn known_volumes_are_in_possible_states(events: Seq<LifecycleEvent>, identity: Seq<char>)
    ensures
        after_events(events).dom().contains(identity) ==> possible(
            identity,
            after_events(events)[identity],
        ),
        after_events(events).dom().contains(identity) <==> exists|i: int|
            0 <= i < events.len() && restores(#[trigger] events[i], identity),
    decreases events.len(),
{
    if events.len() > 0 {
        let earlier = events.drop_last();
        let event = events.last();
        let last = events.len() - 1;
        known_volumes_are_in_possible_states(earlier, identity);
        let before = after_events(earlier);
        let after = after_events(events);
        assert(events[last] == event);
        assert(after.dom().contains(identity) <==> before.dom().contains(identity) || restores(
            event,
            identity,
        ));
        if before.dom().contains(identity) {
            let i = choose|i: int|
                0 <= i < earlier.len() && restores(#[trigger] earlier[i], identity);
            assert(events[i] == earlier[i]);
        }
        if exists|i: int| 0 <= i < events.len() && restores(#[trigger] events[i], identity) {
            let i = choose|i: int|
                0 <= i < events.len() && restores(#[trigger] events[i], identity);
            if i < last {
                assert(earlier[i] == events[i]);
            }
        }
    }
}

/// A removal keeps what was committed: the volume is offline and no longer reconciled, with the
/// coverage and the mount path that it had, and no other volume changes.
pub proof fn removal_keeps_what_was_committed(
    volumes: Map<Seq<char>, Managed>,
    identity: Seq<char>,
    other: Seq<char>,
)
    requires
        volumes.dom().contains(identity),
    ensures
        ({
            let after = after_removal(volumes, identity);
            &&& after.dom() == volumes.dom()
            &&& after[identity].freshness == Freshness::Offline
            &&& !after[identity].reconciliation_in_flight
            &&& after[identity].coverage == volumes[identity].coverage
            &&& after[identity].mount_path == volumes[identity].mount_path
            &&& after[identity].identity == volumes[identity].identity
            &&& other != identity ==> after[other] == volumes[other]
        }),
{
    assert(after_removal(volumes, identity).dom() =~= volumes.dom());
}

/// A volume that was removed and comes back at a free path catches up: it is reconnected, can be
/// reconciled, and is current once a generation is committed, with the coverage of that one.
pub proof fn a_volume_that_comes_back_catches_up(
    volumes: Map<Seq<char>, Managed>,
    identity: Seq<char>,
    mount_path: Seq<char>,
    coverage: Coverage,
)
    requires
        volumes.dom().contains(identity),
        !path_is_taken(after_removal(volumes, identity), identity, mount_path),
    ensures
        ({
            let gone = after_removal(volumes, identity);
            let (transition, back) = after_mount(gone, identity, mount_path);
            let busy = after_start(back, identity);
            let done = after_commit(busy, identity, coverage);
            &&& !reconcilable(gone, identity)
            &&& after_start(gone, identity) == gone
            &&& transition == MountTransition::Reconnected
            &&& back[identity].freshness == Freshness::CatchingUp
            &&& back[identity].mount_path == mount_path
            &&& back[identity].coverage == volumes[identity].coverage
            &&& reconcilable(back, identity)
            &&& busy[identity].reconciliation_in_flight
            &&& busy[identity].freshness == Freshness::CatchingUp
            &&& busy[identity].coverage == volumes[identity].coverage
            &&& done[identity].freshness == Freshness::Current
            &&& done[identity].coverage == Some(coverage)
            &&& !done[identity].reconciliation_in_flight
            &&& done[identity].mount_path == mount_path
        }),
{
}

/// A restored volume is current where it is mounted and offline where it is not, with the coverage
/// that was committed; mounting it again where it is changes nothing.
pub proof fn restored_volumes_are_current_where_mounted(
    volumes: Map<Seq<char>, Managed>,
    identity: Seq<char>,
    mount_path: Seq<char>,
    coverage: Coverage,
    mounted: bool,
)
    requires
        !path_is_taken(
            after_restore(volumes, identity, mount_path, coverage, mounted),
            identity,
            mount_path,
        ),
    ensures
        ({
            let known = after_restore(volumes, identity, mount_path, coverage, mounted);
            &&& known.dom().contains(identity)
            &&& known[identity].coverage == Some(coverage)
            &&& known[identity].mount_path == mount_path
            &&& mounted ==> known[identity].freshness == Freshness::Current
            &&& !mounted ==> known[identity].freshness == Freshness::Offline
            &&& mounted ==> after_mount(known, identity, mount_path) == (
                MountTransition::Unchanged,
                known,
            )
            &&& !mounted ==> after_mount(known, identity, mount_path).0
                == MountTransition::Reconnected
        }),
{
    let known = after_restore(volumes, identity, mount_path, coverage, mounted);
    if mounted {
        assert(after_mount(known, identity, mount_path).1 =~= known);
    }
}

/// A volume that nothing is known of stays unknown, whatever happens to it short of a restore.
pub proof fn unknown_volumes_stay_unknown(
    volumes: Map<Seq<char>, Managed>,
    identity: Seq<char>,
    mount_path: Seq<char>,
    coverage: Coverage,
)
    requires
        !volumes.dom().contains(identity),
    ensures
        after_removal(volumes, identity) == volumes,
        after_start(volumes, identity) == volumes,
        after_commit(volumes, identity, coverage) == volumes,
        after_mount(volumes, identity, mount_path).1 == volumes,
        !path_is_taken(volumes, identity, mount_path) ==> after_mount(
            volumes,
            identity,
            mount_path,
        ).0 == MountTransition::Connected,
        !reconcilable(volumes, identity),
{
}

/// A mount path is taken by another volume however it is spelled, as long as its components are the
/// same, and by nothing else.
pub proof fn paths_are_taken_however_they_are_spelled(
    volumes: Map<Seq<char>, Managed>,
    identity: Seq<char>,
    owner: Seq<char>,
    mount_path: Seq<char>,
)
    ensures
        volumes.dom().contains(owner) && owner != identity && paths::parts(
            volumes[owner].mount_path,
        ) == paths::parts(mount_path) ==> after_mount(volumes, identity, mount_path).0
            == MountTransition::IdentityMismatch,
        (forall|other: Seq<char>| #[trigger]
            volumes.dom().contains(other) && other != identity ==> paths::parts(
                volumes[other].mount_path,
            ) != paths::parts(mount_path)) ==> after_mount(volumes, identity, mount_path).0
            != MountTransition::IdentityMismatch,
{
}

/// A volume that is not gone stays as fresh as it is where it is mounted, and moves to the path at
/// which it was mounted.
pub proof fn mounted_volumes_keep_their_freshness(
    volumes: Map<Seq<char>, Managed>,
    identity: Seq<char>,
    mount_path: Seq<char>,
)
    requires
        volumes.dom().contains(identity),
        volumes[identity].freshness != Freshness::Offline,
        !path_is_taken(volumes, identity, mount_path),
    ensures
        after_mount(volumes, identity, mount_path).0 == MountTransition::Unchanged,
        after_mount(volumes, identity, mount_path).1[identity].freshness
            == volumes[identity].freshness,
        after_mount(volumes, identity, mount_path).1[identity].mount_path == mount_path,
{
}

/// What happens to one volume leaves the others as they are, and a committed generation makes its
/// volume current, with the coverage of that generation and where it is mounted.
pub proof fn other_volumes_stay_as_they_are(
    volumes: Map<Seq<char>, Managed>,
    identity: Seq<char>,
    other: Seq<char>,
    mount_path: Seq<char>,
    coverage: Coverage,
    mounted: bool,
)
    requires
        other != identity,
        volumes.dom().contains(other),
    ensures
        after_start(volumes, identity)[other] == volumes[other],
        after_commit(volumes, identity, coverage)[other] == volumes[other],
        after_removal(volumes, identity)[other] == volumes[other],
        after_restore(volumes, identity, mount_path, coverage, mounted)[other] == volumes[other],
        ({
            let after = after_commit(volumes, other, coverage)[other];
            &&& after.freshness == Freshness::Current
            &&& after.coverage == Some(coverage)
            &&& !after.reconciliation_in_flight
            &&& after.mount_path == volumes[other].mount_path
        }),
        ({
            let after = after_start(volumes, other)[other];
            &&& volumes[other].freshness == Freshness::Offline ==> after == volumes[other]
            &&& volumes[other].freshness != Freshness::Offline ==> after.freshness
                == Freshness::CatchingUp && after.reconciliation_in_flight
            &&& after.coverage == volumes[other].coverage
            &&& after.mount_path == volumes[other].mount_path
        }),
{
}

} // verus!
