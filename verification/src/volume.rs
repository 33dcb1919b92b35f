//! Mounted volumes and which of them holds a root.

use vstd::prelude::*;

use crate::paths::{self, FilePath};
use crate::sorting::{self, sort, Sortable};
use crate::text::{self, Order};

verus! {

/// A mounted volume.
#[derive(Clone, Debug, PartialEq, Eq)]
pub struct Volume {
    pub id: u64,
    pub identity: String,
    pub mount_path: FilePath,
    pub filesystem: String,
    pub local: bool,
    pub internal: bool,
}

/// Where a volume is.
#[derive(Clone, Copy, Debug, PartialEq, Eq, Structural)]
pub enum VolumeKind {
    InternalLocal,
    ExternalLocal,
    Network,
}

impl Volume {
    /// Where this volume is.
    pub open spec fn place_kind(&self) -> VolumeKind {
        if !self.local {
            VolumeKind::Network
        } else if self.internal {
            VolumeKind::InternalLocal
        } else {
            VolumeKind::ExternalLocal
        }
    }

    /// Tells where this volume is.
    pub fn kind(&self) -> (kind: VolumeKind)
        ensures
            kind == self.place_kind(),
    {
        if !self.local {
            VolumeKind::Network
        } else if self.internal {
            VolumeKind::InternalLocal
        } else {
            VolumeKind::ExternalLocal
        }
    }

    /// Whether this volume is indexed without being asked for.
    pub fn enabled_by_default(&self) -> (enabled: bool)
        ensures
            enabled == (self.place_kind() == VolumeKind::InternalLocal),
            enabled == (self.local && self.internal),
    {
        self.kind() == VolumeKind::InternalLocal
    }

    /// Whether this volume can be indexed once it is asked for: every local one can.
    pub fn can_be_enabled(&self) -> (possible: bool)
        ensures
            possible == (self.place_kind() != VolumeKind::Network),
            possible == self.local,
    {
        self.kind() != VolumeKind::Network
    }
}

/// The directory under which other volumes than the internal ones are mounted.
pub open spec fn external_mounts() -> Seq<char> {
    "/Volumes"@
}

/// Describes a mounted volume. One that is mounted under `/Volumes` is external; one without a
/// persistent identity is known by its mount path.
pub fn volume_from_mount(
    id: u64,
    identity: Option<String>,
    mount_path: FilePath,
    filesystem: String,
    local: bool,
) -> (volume: Volume)
    ensures
        volume.id == id,
        match identity {
            Some(known) => volume.identity == known,
            None => volume.identity@ == "mount:"@ + mount_path@,
        },
        volume.mount_path == mount_path,
        volume.filesystem == filesystem,
        volume.local == local,
        volume.internal == (local && !paths::within(
            mount_path.parts(),
            paths::parts(external_mounts()),
        )),
{
    let external = FilePath::new("/Volumes");
    let internal = local && !mount_path.starts_with(&external);
    let identity = match identity {
        Some(known) => known,
        None => {
            let mut text = "mount:".to_owned();
            text.append(mount_path.as_str());
            text
        },
    };
    Volume { id, identity, mount_path, filesystem, local, internal }
}

/// Volumes sort by the paths at which they are mounted.
impl Sortable for Volume {
    open spec fn place(&self, other: &Self) -> Order {
        paths::parts_order(self.mount_path.parts(), other.mount_path.parts())
    }

    proof fn place_is_antisymmetric(left: &Self, right: &Self) {
        paths::parts_order_is_antisymmetric(
            left.mount_path.parts(),
            right.mount_path.parts(),
        );
    }

    proof fn place_is_transitive(first: &Self, second: &Self, third: &Self) {
        paths::parts_order_is_transitive(
            first.mount_path.parts(),
            second.mount_path.parts(),
            third.mount_path.parts(),
        );
    }

    fn compare(&self, other: &Self) -> (order: Order) {
        self.mount_path.compare(&other.mount_path)
    }
}

/// Sorts volumes by the paths at which they are mounted; those at one path keep their order.
pub fn sort_volumes(volumes: Vec<Volume>) -> (result: Vec<Volume>)
    ensures
        sorting::sorted(result@),
        result@.to_multiset() == volumes@.to_multiset(),
        forall|volume: Volume| #[trigger]
            sorting::alike(result@, volume) == sorting::alike(volumes@, volume),
{
    sort(volumes)
}

/// A volume is mounted at the root or above it.
pub open spec fn holds(volume: Volume, root: FilePath) -> bool {
    paths::within(root.parts(), volume.mount_path.parts())
}

/// The number of bytes in the path at which a volume is mounted.
pub open spec fn mount_length(volume: Volume) -> nat {
    vstd::utf8::encode_utf8(volume.mount_path@).len()
}

/// `at` is the volume that holds the root: of those that do, the one with the longest mount path,
/// and of several such the last.
pub open spec fn is_containing(volumes: Seq<Volume>, root: FilePath, at: int) -> bool {
    &&& 0 <= at < volumes.len()
    &&& holds(volumes[at], root)
    &&& forall|i: int|
        0 <= i < at && holds(#[trigger] volumes[i], root) ==> mount_length(volumes[i])
            <= mount_length(volumes[at])
    &&& forall|i: int|
        at < i < volumes.len() && holds(#[trigger] volumes[i], root) ==> mount_length(volumes[i])
            < mount_length(volumes[at])
}

/// Finds the volume that holds a root.
pub fn volume_containing<'a>(volumes: &'a [Volume], root: &FilePath) -> (found: Option<&'a Volume>)
    ensures
        match found {
            Some(volume) => exists|at: int| #[trigger]
                is_containing(volumes@, *root, at) && *volume == volumes@[at],
            None => forall|i: int|
                0 <= i < volumes@.len() ==> !holds(#[trigger] volumes@[i], *root),
        },
{
    let mut best: Option<usize> = None;
    let mut longest: usize = 0;
    for i in 0..volumes.len()
        invariant
            match best {
                Some(at) => at < i && longest == mount_length(volumes@[at as int])
                    && is_containing(volumes@.take(i as int), *root, at as int),
                None => forall|k: int| 0 <= k < i ==> !holds(#[trigger] volumes@[k], *root),
            },
    {
        let volume = &volumes[i];
        proof {
            let seen = volumes@.take(i as int);
            let next = volumes@.take(i + 1);
            assert(next =~= seen.push(*volume));
            assert(forall|k: int| 0 <= k < i ==> seen[k] == volumes@[k]);
            assert(forall|k: int| 0 <= k <= i ==> next[k] == volumes@[k]);
        }
        let ghost before = best;
        if root.starts_with(&volume.mount_path) {
            let length: usize = volume.mount_path.byte_len();
            if best.is_none() || longest <= length {
                best = Some(i);
                longest = length;
            }
        }
        proof {
            let seen = volumes@.take(i as int);
            let next = volumes@.take(i + 1);
            if let Some(at) = best {
                if let Some(earlier) = before {
                    assert(holds(seen[earlier as int], *root));
                    assert forall|k: int|
                        0 <= k < i && holds(#[trigger] next[k], *root) implies mount_length(next[k])
                        <= mount_length(seen[earlier as int]) by {
                        assert(next[k] == seen[k]);
                        if k == earlier {
                        } else if k < earlier {
                            assert(holds(seen[k], *root));
                        } else {
                            assert(holds(seen[k], *root));
                        }
                    }
                    if at == earlier {
                        assert forall|k: int|
                            at < k < next.len() && holds(#[trigger] next[k], *root) implies
                            mount_length(next[k]) < mount_length(next[at as int]) by {
                            if k < i {
                                assert(next[k] == seen[k]);
                            }
                        }
                    }
                } else {
                    assert(at == i);
                    assert forall|k: int| 0 <= k < i implies !holds(#[trigger] next[k], *root) by {
                        assert(next[k] == volumes@[k]);
                    }
                }
                assert(is_containing(next, *root, at as int));
            }
        }
    }
    assert(volumes@.take(volumes@.len() as int) =~= volumes@);
    match best {
        Some(at) => {
            assert(is_containing(volumes@, *root, at as int));
            Some(&volumes[at])
        },
        None => None,
    }
}

/// At most one volume is the one that holds a root.
pub proof fn containing_volume_is_unique(
    volumes: Seq<Volume>,
    root: FilePath,
    left: int,
    right: int,
)
    requires
        is_containing(volumes, root, left),
        is_containing(volumes, root, right),
    ensures
        left == right,
{
    assert(holds(volumes[left], root));
    assert(holds(volumes[right], root));
}

/// A volume that is not local is one of the network, whether it is called internal or not, and a
/// local one is internal or external.
pub proof fn volumes_are_internal_external_or_remote(volume: Volume)
    ensures
        volume.place_kind() is Network <==> !volume.local,
        volume.place_kind() is InternalLocal <==> volume.local && volume.internal,
        volume.place_kind() is ExternalLocal <==> volume.local && !volume.internal,
{
}

/// A volume comes before one that is mounted below it, and where the mounts part the name that
/// comes first decides.
pub proof fn volumes_sort_by_their_mounts(
    left: Volume,
    right: Volume,
    common: Seq<paths::Part>,
    one: Seq<char>,
    one_rest: Seq<paths::Part>,
    two: Seq<char>,
    two_rest: Seq<paths::Part>,
)
    requires
        right.mount_path.parts() == common.push(paths::Part::Named(two)) + two_rest,
    ensures
        left.mount_path.parts() == common ==> left.place(&right) == Order::Less,
        left.mount_path.parts() == common.push(paths::Part::Named(one)) + one_rest && one != two
            ==> left.place(&right) == text::text_order(one, two),
{
    paths::paths_compare_at_their_first_difference(
        common,
        paths::Part::Named(one),
        one_rest,
        paths::Part::Named(two),
        two_rest,
    );
}

/// The volume that holds a root is mounted at the root or above it, and none of the others that are
/// has a longer mount path.
pub proof fn the_deepest_mount_holds_a_root(volumes: Seq<Volume>, root: FilePath, at: int)
    requires
        is_containing(volumes, root, at),
    ensures
        exists|rest: Seq<paths::Part>|
            root.parts() == #[trigger] (volumes[at].mount_path.parts() + rest),
        forall|i: int|
            0 <= i < volumes.len() && (exists|rest: Seq<paths::Part>|
                root.parts() == #[trigger] (volumes[i].mount_path.parts() + rest))
                ==> vstd::utf8::encode_utf8((#[trigger] volumes[i]).mount_path@).len()
                <= vstd::utf8::encode_utf8(volumes[at].mount_path@).len(),
{
    paths::paths_lead_to_what_goes_on_behind_them(root.parts(), volumes[at].mount_path.parts());
    assert forall|i: int|
        0 <= i < volumes.len() && (exists|rest: Seq<paths::Part>|
            root.parts() == #[trigger] (volumes[i].mount_path.parts()
                + rest)) implies vstd::utf8::encode_utf8((#[trigger] volumes[i]).mount_path@).len()
        <= vstd::utf8::encode_utf8(volumes[at].mount_path@).len() by {
        paths::paths_lead_to_what_goes_on_behind_them(
            root.parts(),
            volumes[i].mount_path.parts(),
        );
        assert(holds(volumes[i], root));
    }
}

/// Volumes are external where they are mounted at the entry `Volumes` of the root or below it.
pub proof fn external_volumes_are_mounted_below_one_directory()
    ensures
        paths::parts(external_mounts()) == seq![
            paths::Part::Root,
            paths::Part::Named(seq!['V', 'o', 'l', 'u', 'm', 'e', 's']),
        ],
{
    let name = seq!['V', 'o', 'l', 'u', 'm', 'e', 's'];
    reveal_strlit("/Volumes");
    assert(external_mounts() =~= paths::child_text(seq!['/'], name));
    assert(name != seq!['.']) by {
        assert(name[0] == 'V' && seq!['.'][0] == '.');
    }
    assert(name != seq!['.', '.']) by {
        assert(name[0] == 'V' && seq!['.', '.'][0] == '.');
    }
    paths::entries_add_their_name(seq!['/'], name);
    paths::separators_add_no_component(seq!['/']);
    assert(seq![paths::Part::Root].push(paths::Part::Named(name)) =~= seq![
        paths::Part::Root,
        paths::Part::Named(name),
    ]);
}

} // verus!
