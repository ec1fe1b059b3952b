use vstd::prelude::*;

verus! {

// ---------------------------------------------------------------------------
// Data shapes
// ---------------------------------------------------------------------------

/// The device names of one direction under one backend, as the platform
/// resolved them when the backend was probed.
#[derive(Clone, Debug)]
pub enum ProbeResult {
    /// Every device of the direction was listed and its display name resolved.
    Resolved(Vec<String>),
    /// The device list, or the display name of some device in it, could not
    /// be resolved.
    Unresolved,
}

/// Everything one audio host backend reported when it was probed: its
/// identifier, whether a handle to it could be opened, and the resolved
/// device names of both directions.
#[derive(Clone, Debug)]
pub struct BackendSnapshot {
    /// The backend's identifier.
    pub name: String,
    /// Whether a handle to the backend could be opened.
    pub opened: bool,
    /// The capture (input) devices.
    pub input_devices: ProbeResult,
    /// The playback (output) devices.
    pub output_devices: ProbeResult,
}

/// One backend's entry in a `DeviceInventory`: the backend's identifier and
/// the ordered list of its device names for the requested direction.
#[derive(Clone, Debug, PartialEq)]
pub struct BackendDevices {
    pub backend: String,
    pub devices: Vec<String>,
}

/// The result of one enumeration call: device names grouped by backend, in
/// enumeration order, plus the identifier of the platform's default backend.
#[derive(Clone, Debug, PartialEq)]
pub struct DeviceInventory {
    pub devices: Vec<BackendDevices>,
    pub default_backend: String,
}

/// Why a whole enumeration call failed.
#[derive(Clone, Debug, PartialEq, Eq)]
pub enum EnumerationError {
    /// The platform reported zero audio host backends.
    NoBackends,
    /// A handle to the named backend could not be opened.
    BackendOpenFailed(String),
    /// A device name under the named backend could not be resolved.
    DeviceNameFailed(String),
}

// ---------------------------------------------------------------------------
// Mathematical views
// ---------------------------------------------------------------------------

/// A sequence of strings, seen as a sequence of character sequences.
pub open spec fn names_view(v: Seq<String>) -> Seq<Seq<char>> {
    Seq::new(v.len(), |i: int| v[i]@)
}

impl View for ProbeResult {
    type V = Option<Seq<Seq<char>>>;

    open spec fn view(&self) -> Option<Seq<Seq<char>>> {
        match self {
            ProbeResult::Resolved(v) => Some(names_view(v@)),
            ProbeResult::Unresolved => None,
        }
    }
}

/// The mathematical content of one probed backend.
pub struct SnapshotView {
    pub name: Seq<char>,
    pub opened: bool,
    pub input_devices: Option<Seq<Seq<char>>>,
    pub output_devices: Option<Seq<Seq<char>>>,
}

impl View for BackendSnapshot {
    type V = SnapshotView;

    open spec fn view(&self) -> SnapshotView {
        SnapshotView {
            name: self.name@,
            opened: self.opened,
            input_devices: self.input_devices@,
            output_devices: self.output_devices@,
        }
    }
}

/// The mathematical content of one inventory entry.
pub struct EntryView {
    pub backend: Seq<char>,
    pub devices: Seq<Seq<char>>,
}

impl View for BackendDevices {
    type V = EntryView;

    open spec fn view(&self) -> EntryView {
        EntryView { backend: self.backend@, devices: names_view(self.devices@) }
    }
}

/// The mathematical content of an enumeration error.
pub enum EnumerationErrorView {
    NoBackends,
    BackendOpenFailed(Seq<char>),
    DeviceNameFailed(Seq<char>),
}

impl View for EnumerationError {
    type V = EnumerationErrorView;

    open spec fn view(&self) -> EnumerationErrorView {
        match self {
            EnumerationError::NoBackends => EnumerationErrorView::NoBackends,
            EnumerationError::BackendOpenFailed(n) => EnumerationErrorView::BackendOpenFailed(n@),
            EnumerationError::DeviceNameFailed(n) => EnumerationErrorView::DeviceNameFailed(n@),
        }
    }
}

/// A sequence of snapshots, seen mathematically.
pub open spec fn snapshot_views(s: Seq<BackendSnapshot>) -> Seq<SnapshotView> {
    Seq::new(s.len(), |i: int| s[i]@)
}

/// A sequence of inventory entries, seen mathematically.
pub open spec fn entry_views(s: Seq<BackendDevices>) -> Seq<EntryView> {
    Seq::new(s.len(), |i: int| s[i]@)
}

// ---------------------------------------------------------------------------
// The enumeration model
// ---------------------------------------------------------------------------

/// The device list of the requested direction of one backend.
pub open spec fn selected_devices(s: SnapshotView, input: bool) -> Option<Seq<Seq<char>>> {
    if input {
        s.input_devices
    } else {
        s.output_devices
    }
}

/// Whether one backend's probe supports the requested direction without error.
pub open spec fn snapshot_ok(s: SnapshotView, input: bool) -> bool {
    s.opened && selected_devices(s, input) is Some
}

/// The error owed for one failing backend.
pub open spec fn snapshot_error(s: SnapshotView, input: bool) -> EnumerationErrorView {
    if !s.opened {
        EnumerationErrorView::BackendOpenFailed(s.name)
    } else {
        EnumerationErrorView::DeviceNameFailed(s.name)
    }
}

/// Insert one backend's devices into an entry sequence: replace the value at
/// the first entry with the same backend identifier, keeping its position, or
/// append a new entry at the end.  This is what one map insertion does, so
/// duplicate identifiers can never produce duplicate keys.
pub open spec fn insert_entry(
    entries: Seq<EntryView>,
    backend: Seq<char>,
    devices: Seq<Seq<char>>,
) -> Seq<EntryView>
    decreases entries.len(),
{
    if entries.len() == 0 {
        seq![EntryView { backend, devices }]
    } else if entries[0].backend == backend {
        seq![EntryView { backend, devices }] + entries.drop_first()
    } else {
        seq![entries[0]] + insert_entry(entries.drop_first(), backend, devices)
    }
}

/// The left fold that enumeration performs: walk the backends in platform
/// order, abort with the first failing backend's error, otherwise accumulate
/// every backend's devices for the requested direction.
pub open spec fn enumerate_from(
    snaps: Seq<SnapshotView>,
    input: bool,
    acc: Seq<EntryView>,
) -> Result<Seq<EntryView>, EnumerationErrorView>
    decreases snaps.len(),
{
    if snaps.len() == 0 {
        Ok(acc)
    } else if !snapshot_ok(snaps[0], input) {
        Err(snapshot_error(snaps[0], input))
    } else {
        enumerate_from(
            snaps.drop_first(),
            input,
            insert_entry(acc, snaps[0].name, selected_devices(snaps[0], input)->0),
        )
    }
}

/// What one enumeration call returns, as a function of the platform's
/// reports alone: an error when zero backends were reported, otherwise the
/// fold over all of them in order.
pub open spec fn enumeration_model(
    snaps: Seq<SnapshotView>,
    input: bool,
) -> Result<Seq<EntryView>, EnumerationErrorView> {
    if snaps.len() == 0 {
        Err(EnumerationErrorView::NoBackends)
    } else {
        enumerate_from(snaps, input, Seq::<EntryView>::empty())
    }
}

/// Uniqueness of the backend identifiers of an entry sequence.
pub open spec fn unique_backends(entries: Seq<EntryView>) -> bool {
    forall|i: int, j: int|
        0 <= i < j < entries.len() ==> #[trigger] entries[i].backend != #[trigger] entries[j].backend
}

impl DeviceInventory {
    /// A well-formed inventory maps each backend identifier at most once.
    pub open spec fn wf(&self) -> bool {
        unique_backends(entry_views(self.devices@))
    }
}

// ---------------------------------------------------------------------------
// Facts about insertion
// ---------------------------------------------------------------------------

/// Inserting at the first entry whose identifier already matches replaces
/// that entry in place.
proof fn lemma_insert_at_first(
    entries: Seq<EntryView>,
    backend: Seq<char>,
    devices: Seq<Seq<char>>,
    k: int,
)
    requires
        0 <= k < entries.len(),
        entries[k].backend == backend,
        forall|j: int| 0 <= j < k ==> #[trigger] entries[j].backend != backend,
    ensures
        insert_entry(entries, backend, devices) == entries.update(
            k,
            EntryView { backend, devices },
        ),
    decreases entries.len(),
{
    if k == 0 {
        assert(insert_entry(entries, backend, devices) =~= entries.update(
            0,
            EntryView { backend, devices },
        ));
    } else {
        assert(entries[0].backend != backend);
        assert(forall|j: int|
            0 <= j < k - 1 ==> #[trigger] entries.drop_first()[j].backend != backend);
        lemma_insert_at_first(entries.drop_first(), backend, devices, k - 1);
        assert(insert_entry(entries, backend, devices) =~= entries.update(
            k,
            EntryView { backend, devices },
        ));
    }
}

/// Inserting an identifier that no entry carries appends a new entry.
proof fn lemma_insert_absent(entries: Seq<EntryView>, backend: Seq<char>, devices: Seq<Seq<char>>)
    requires
        forall|j: int| 0 <= j < entries.len() ==> #[trigger] entries[j].backend != backend,
    ensures
        insert_entry(entries, backend, devices) == entries.push(EntryView { backend, devices }),
    decreases entries.len(),
{
    if entries.len() == 0 {
        assert(insert_entry(entries, backend, devices) =~= entries.push(
            EntryView { backend, devices },
        ));
    } else {
        assert(forall|j: int|
            0 <= j < entries.drop_first().len() ==> #[trigger] entries.drop_first()[j].backend
                != backend);
        lemma_insert_absent(entries.drop_first(), backend, devices);
        assert(insert_entry(entries, backend, devices) =~= entries.push(
            EntryView { backend, devices },
        ));
    }
}

/// Insertion keeps backend identifiers unique, and every entry it leaves
/// behind is either the inserted one or an untouched entry with a different
/// identifier.
proof fn lemma_insert_entry_props(entries: Seq<EntryView>, backend: Seq<char>, devices: Seq<Seq<char>>)
    requires
        unique_backends(entries),
    ensures
        unique_backends(insert_entry(entries, backend, devices)),
        forall|i: int|
            0 <= i < insert_entry(entries, backend, devices).len()
                ==> #[trigger] insert_entry(entries, backend, devices)[i] == (EntryView {
                backend,
                devices,
            }) || (exists|j: int|
                0 <= j < entries.len() && #[trigger] entries[j] == insert_entry(
                    entries,
                    backend,
                    devices,
                )[i] && entries[j].backend != backend),
    decreases entries.len(),
{
    let r = insert_entry(entries, backend, devices);
    if entries.len() == 0 {
    } else if entries[0].backend == backend {
        assert forall|i: int| 0 <= i < r.len() implies #[trigger] r[i] == (EntryView {
            backend,
            devices,
        }) || (exists|j: int|
            0 <= j < entries.len() && #[trigger] entries[j] == r[i] && entries[j].backend
                != backend) by {
            if i > 0 {
                assert(entries[i] == r[i]);
                assert(entries[i].backend != backend);
            }
        }
    } else {
        let tail = entries.drop_first();
        assert(unique_backends(tail)) by {
            assert(forall|i: int, j: int|
                0 <= i < j < tail.len() ==> #[trigger] tail[i].backend
                    != #[trigger] tail[j].backend);
        }
        lemma_insert_entry_props(tail, backend, devices);
        let rt = insert_entry(tail, backend, devices);
        assert(r == seq![entries[0]] + rt);
        assert forall|i: int| 0 <= i < r.len() implies #[trigger] r[i] == (EntryView {
            backend,
            devices,
        }) || (exists|j: int|
            0 <= j < entries.len() && #[trigger] entries[j] == r[i] && entries[j].backend
                != backend) by {
            if i == 0 {
                assert(entries[0] == r[0]);
                assert(entries[0].backend != backend);
            } else {
                assert(r[i] == rt[i - 1]);
                if rt[i - 1] == (EntryView { backend, devices }) {
                } else {
                    let j = choose|j: int|
                        0 <= j < tail.len() && #[trigger] tail[j] == rt[i - 1] && tail[j].backend
                            != backend;
                    assert(entries[j + 1] == tail[j]);
                }
            }
        }
        assert forall|i: int, j: int| 0 <= i < j < r.len() implies #[trigger] r[i].backend
            != #[trigger] r[j].backend by {
            if i == 0 {
                // r[j] is the inserted entry or stems from the tail; the head's
                // identifier differs from both.
                assert(r[j] == rt[j - 1]);
                if rt[j - 1] == (EntryView { backend, devices }) {
                } else {
                    let m = choose|m: int|
                        0 <= m < tail.len() && #[trigger] tail[m] == rt[j - 1] && tail[m].backend
                            != backend;
                    assert(entries[0].backend != tail[m].backend);
                }
            } else {
                assert(r[i].backend == rt[i - 1].backend);
                assert(r[j].backend == rt[j - 1].backend);
            }
        }
    }
}

// ---------------------------------------------------------------------------
// Facts about the fold
// ---------------------------------------------------------------------------

/// The fold succeeds exactly when every backend supports the requested
/// direction.
proof fn lemma_enumerate_from_ok(snaps: Seq<SnapshotView>, input: bool, acc: Seq<EntryView>)
    ensures
        (enumerate_from(snaps, input, acc) is Ok) <==> (forall|i: int|
            0 <= i < snaps.len() ==> snapshot_ok(#[trigger] snaps[i], input)),
    decreases snaps.len(),
{
    if snaps.len() == 0 {
    } else if !snapshot_ok(snaps[0], input) {
    } else {
        let tail = snaps.drop_first();
        let acc2 = insert_entry(acc, snaps[0].name, selected_devices(snaps[0], input)->0);
        lemma_enumerate_from_ok(tail, input, acc2);
        if forall|i: int| 0 <= i < tail.len() ==> snapshot_ok(#[trigger] tail[i], input) {
            assert forall|i: int| 0 <= i < snaps.len() implies snapshot_ok(
                #[trigger] snaps[i],
                input,
            ) by {
                if i > 0 {
                    assert(tail[i - 1] == snaps[i]);
                }
            }
        } else {
            let i = choose|i: int| 0 <= i < tail.len() && !snapshot_ok(#[trigger] tail[i], input);
            assert(snaps[i + 1] == tail[i]);
        }
    }
}

/// A successful fold from unique accumulated entries yields unique entries.
proof fn lemma_enumerate_from_unique(snaps: Seq<SnapshotView>, input: bool, acc: Seq<EntryView>)
    requires
        unique_backends(acc),
    ensures
        enumerate_from(snaps, input, acc) matches Ok(es) ==> unique_backends(es),
    decreases snaps.len(),
{
    if snaps.len() == 0 {
    } else if !snapshot_ok(snaps[0], input) {
    } else {
        let acc2 = insert_entry(acc, snaps[0].name, selected_devices(snaps[0], input)->0);
        lemma_insert_entry_props(acc, snaps[0].name, selected_devices(snaps[0], input)->0);
        lemma_enumerate_from_unique(snaps.drop_first(), input, acc2);
    }
}

// ---------------------------------------------------------------------------
// Laws of enumeration
// ---------------------------------------------------------------------------

/// Some backend reported this entry's device list for the requested
/// direction.
pub open spec fn entry_reported(snaps: Seq<SnapshotView>, input: bool, e: EntryView) -> bool {
    exists|j: int|
        0 <= j < snaps.len() && (#[trigger] snaps[j]).name == e.backend && selected_devices(
            snaps[j],
            input,
        ) == Some(e.devices)
}

/// Every entry of a successful fold stems from the accumulated entries or
/// from some backend's report for the requested direction.
proof fn lemma_enumerate_from_source(snaps: Seq<SnapshotView>, input: bool, acc: Seq<EntryView>)
    requires
        unique_backends(acc),
    ensures
        enumerate_from(snaps, input, acc) matches Ok(es) ==> forall|i: int|
            0 <= i < es.len() ==> (exists|j: int| 0 <= j < acc.len() && #[trigger] acc[j] == es[i])
                || entry_reported(snaps, input, #[trigger] es[i]),
    decreases snaps.len(),
{
    if snaps.len() == 0 {
    } else if !snapshot_ok(snaps[0], input) {
    } else {
        let name0 = snaps[0].name;
        let d0 = selected_devices(snaps[0], input)->0;
        let acc2 = insert_entry(acc, name0, d0);
        let tail = snaps.drop_first();
        lemma_insert_entry_props(acc, name0, d0);
        lemma_enumerate_from_source(tail, input, acc2);
        if enumerate_from(snaps, input, acc) is Ok {
            let es = enumerate_from(snaps, input, acc)->Ok_0;
            assert(enumerate_from(tail, input, acc2) == enumerate_from(snaps, input, acc));
            assert forall|i: int| 0 <= i < es.len() implies (exists|j: int|
                0 <= j < acc.len() && #[trigger] acc[j] == es[i]) || entry_reported(
                snaps,
                input,
                #[trigger] es[i],
            ) by {
                if exists|j: int| 0 <= j < acc2.len() && #[trigger] acc2[j] == es[i] {
                    let j = choose|j: int| 0 <= j < acc2.len() && #[trigger] acc2[j] == es[i];
                    if acc2[j] == (EntryView { backend: name0, devices: d0 }) {
                        assert(selected_devices(snaps[0], input) == Some(d0));
                        assert((#[trigger] snaps[0]).name == es[i].backend && selected_devices(
                            snaps[0],
                            input,
                        ) == Some(es[i].devices));
                        assert(entry_reported(snaps, input, es[i]));
                    } else {
                        let m = choose|m: int|
                            0 <= m < acc.len() && #[trigger] acc[m] == acc2[j] && acc[m].backend
                                != name0;
                        assert(acc[m] == es[i]);
                    }
                } else {
                    assert(entry_reported(tail, input, es[i]));
                    let j = choose|j: int|
                        0 <= j < tail.len() && (#[trigger] tail[j]).name == es[i].backend
                            && selected_devices(tail[j], input) == Some(es[i].devices);
                    assert((#[trigger] snaps[j + 1]).name == es[i].backend && selected_devices(
                        snaps[j + 1],
                        input,
                    ) == Some(es[i].devices));
                    assert(entry_reported(snaps, input, es[i]));
                }
            }
        }
    }
}

/// The two directions never return overlapping guarantees: every device list
/// in a successful inventory for a direction is exactly what some backend
/// reported for that direction, under that backend's identifier.  A device
/// shown for the capture direction was reported capturable, one shown for
/// the playback direction was reported playable.
pub proof fn lemma_devices_match_direction(snaps: Seq<SnapshotView>, input: bool)
    ensures
        enumeration_model(snaps, input) matches Ok(es) ==> forall|i: int|
            0 <= i < es.len() ==> entry_reported(snaps, input, #[trigger] es[i]),
{
    if snaps.len() > 0 {
        lemma_enumerate_from_source(snaps, input, Seq::<EntryView>::empty());
    }
}

/// Folding two reports that agree on names, openability, and the requested
/// direction's device lists gives the same result: the other direction's
/// lists never influence the outcome.
proof fn lemma_enumerate_from_direction(
    s1: Seq<SnapshotView>,
    s2: Seq<SnapshotView>,
    input: bool,
    acc: Seq<EntryView>,
)
    requires
        s1.len() == s2.len(),
        forall|i: int|
            0 <= i < s1.len() ==> (#[trigger] s1[i]).name == (#[trigger] s2[i]).name
                && s1[i].opened == s2[i].opened && selected_devices(s1[i], input)
                == selected_devices(s2[i], input),
    ensures
        enumerate_from(s1, input, acc) == enumerate_from(s2, input, acc),
    decreases s1.len(),
{
    if s1.len() == 0 {
    } else {
        assert(s1[0].name == s2[0].name);
        let t1 = s1.drop_first();
        let t2 = s2.drop_first();
        assert forall|i: int| 0 <= i < t1.len() implies (#[trigger] t1[i]).name
            == (#[trigger] t2[i]).name && t1[i].opened == t2[i].opened && selected_devices(
            t1[i],
            input,
        ) == selected_devices(t2[i], input) by {
            assert(t1[i] == s1[i + 1]);
            assert(t2[i] == s2[i + 1]);
        }
        if snapshot_ok(s1[0], input) {
            lemma_enumerate_from_direction(
                t1,
                t2,
                input,
                insert_entry(acc, s1[0].name, selected_devices(s1[0], input)->0),
            );
        }
    }
}

/// Enumeration for one direction depends only on the backends' identifiers,
/// their openability, and that direction's device lists.  Two platform
/// reports that agree on those, however their other direction's lists
/// differ, enumerate identically.
pub proof fn lemma_direction_independent(s1: Seq<SnapshotView>, s2: Seq<SnapshotView>, input: bool)
    requires
        s1.len() == s2.len(),
        forall|i: int|
            0 <= i < s1.len() ==> (#[trigger] s1[i]).name == (#[trigger] s2[i]).name
                && s1[i].opened == s2[i].opened && selected_devices(s1[i], input)
                == selected_devices(s2[i], input),
    ensures
        enumeration_model(s1, input) == enumeration_model(s2, input),
{
    lemma_enumerate_from_direction(s1, s2, input, Seq::<EntryView>::empty());
}

/// A successful inventory never maps a backend identifier twice.
pub proof fn lemma_inventory_backends_unique(snaps: Seq<SnapshotView>, input: bool)
    ensures
        enumeration_model(snaps, input) matches Ok(es) ==> unique_backends(es),
{
    if snaps.len() > 0 {
        lemma_enumerate_from_unique(snaps, input, Seq::<EntryView>::empty());
    }
}

/// A successful fold over backends with pairwise distinct identifiers, none
/// of which an accumulated entry carries, appends one entry per backend.
proof fn lemma_enumerate_from_distinct(snaps: Seq<SnapshotView>, input: bool, acc: Seq<EntryView>)
    requires
        forall|i: int| 0 <= i < snaps.len() ==> snapshot_ok(#[trigger] snaps[i], input),
        forall|i: int, j: int|
            0 <= i < j < snaps.len() ==> (#[trigger] snaps[i]).name != (#[trigger] snaps[j]).name,
        forall|i: int, j: int|
            0 <= i < acc.len() && 0 <= j < snaps.len() ==> (#[trigger] acc[i]).backend
                != (#[trigger] snaps[j]).name,
    ensures
        enumerate_from(snaps, input, acc) matches Ok(es) && es.len() == acc.len() + snaps.len()
            && (forall|i: int| 0 <= i < acc.len() ==> #[trigger] es[i] == acc[i]) && (forall|i: int|
            0 <= i < snaps.len() ==> (#[trigger] es[acc.len() + i]).backend == snaps[i].name && Some(
                es[acc.len() + i].devices,
            ) == selected_devices(snaps[i], input)),
    decreases snaps.len(),
{
    if snaps.len() == 0 {
    } else {
        let name0 = snaps[0].name;
        let d0 = selected_devices(snaps[0], input)->0;
        assert(forall|i: int| 0 <= i < acc.len() ==> (#[trigger] acc[i]).backend != name0);
        lemma_insert_absent(acc, name0, d0);
        let acc2 = acc.push(EntryView { backend: name0, devices: d0 });
        let tail = snaps.drop_first();
        assert forall|i: int, j: int|
            0 <= i < acc2.len() && 0 <= j < tail.len() implies (#[trigger] acc2[i]).backend
            != (#[trigger] tail[j]).name by {
            assert(tail[j] == snaps[j + 1]);
            if i < acc.len() {
                assert(acc2[i] == acc[i]);
            } else {
                assert(acc2[i].backend == name0);
                assert(snaps[0].name != snaps[j + 1].name);
            }
        }
        assert(forall|i: int| 0 <= i < tail.len() ==> snapshot_ok(#[trigger] tail[i], input))
            by {
            assert(forall|i: int|
                0 <= i < tail.len() ==> #[trigger] tail[i] == snaps[i + 1]);
        }
        assert(forall|i: int, j: int|
            0 <= i < j < tail.len() ==> (#[trigger] tail[i]).name != (#[trigger] tail[j]).name)
            by {
            assert(forall|i: int|
                0 <= i < tail.len() ==> #[trigger] tail[i] == snaps[i + 1]);
        }
        lemma_enumerate_from_distinct(tail, input, acc2);
        let es = enumerate_from(snaps, input, acc)->Ok_0;
        assert forall|i: int| 0 <= i < snaps.len() implies (#[trigger] es[acc.len()
            + i]).backend == snaps[i].name && Some(es[acc.len() + i].devices) == selected_devices(
            snaps[i],
            input,
        ) by {
            if i == 0 {
                assert(es[acc2.len() - 1] == acc2[acc.len() as int]);
            } else {
                assert(es[acc2.len() + (i - 1)].backend == tail[i - 1].name);
                assert(tail[i - 1] == snaps[i]);
            }
        }
    }
}

/// On an ordinary platform report, where every backend identifier is
/// distinct and every probe of the requested direction succeeded,
/// enumeration returns exactly one entry per backend, in the platform's
/// enumeration order, each carrying that backend's reported device list.
pub proof fn lemma_enumeration_in_platform_order(snaps: Seq<SnapshotView>, input: bool)
    requires
        snaps.len() > 0,
        forall|i: int| 0 <= i < snaps.len() ==> snapshot_ok(#[trigger] snaps[i], input),
        forall|i: int, j: int|
            0 <= i < j < snaps.len() ==> (#[trigger] snaps[i]).name != (#[trigger] snaps[j]).name,
    ensures
        enumeration_model(snaps, input) matches Ok(es) && es.len() == snaps.len() && (forall|i: int|
            0 <= i < snaps.len() ==> (#[trigger] es[i]).backend == snaps[i].name && Some(
                es[i].devices,
            ) == selected_devices(snaps[i], input)),
{
    let acc = Seq::<EntryView>::empty();
    lemma_enumerate_from_distinct(snaps, input, acc);
    let es = enumerate_from(snaps, input, acc)->Ok_0;
    assert forall|i: int| 0 <= i < snaps.len() implies (#[trigger] es[i]).backend == snaps[i].name
        && Some(es[i].devices) == selected_devices(snaps[i], input) by {
        assert(es[acc.len() + i] == es[i]);
    }
}

/// Enumeration is idempotent: two calls over the same platform state, with
/// no device changes in between, return identical results, order included.
pub proof fn lemma_enumeration_idempotent(s1: Seq<SnapshotView>, s2: Seq<SnapshotView>, input: bool)
    requires
        s1 == s2,
    ensures
        enumeration_model(s1, input) == enumeration_model(s2, input),
{
}

// ---------------------------------------------------------------------------
// The enumerator
// ---------------------------------------------------------------------------

/// Record one backend's devices in the entry list, replacing the devices of
/// an already recorded backend with the same identifier in place, so that
/// identifiers stay unique.
#[verifier::loop_isolation(false)]
fn insert_devices(entries: &mut Vec<BackendDevices>, backend: String, devices: Vec<String>)
    ensures
        entry_views(final(entries)@) == insert_entry(
            entry_views(old(entries)@),
            backend@,
            names_view(devices@),
        ),
{
    let ghost bv: Seq<char> = backend@;
    let ghost dv: Seq<Seq<char>> = names_view(devices@);
    let n = entries.len();
    let mut i: usize = 0;
    while i < n
        invariant
            i <= n,
            n == entries.len(),
            entries@ == old(entries)@,
            forall|j: int| 0 <= j < i ==> #[trigger] entry_views(entries@)[j].backend != bv,
        decreases n - i,
    {
        if entries[i].backend == backend {
            let entry = BackendDevices { backend, devices };
            proof {
                assert(entry@ == (EntryView { backend: bv, devices: dv }));
                lemma_insert_at_first(entry_views(entries@), bv, dv, i as int);
            }
            entries[i] = entry;
            proof {
                assert(entry_views(entries@) =~= entry_views(old(entries)@).update(
                    i as int,
                    EntryView { backend: bv, devices: dv },
                ));
            }
            return;
        }
        i += 1;
    }
    proof {
        lemma_insert_absent(entry_views(entries@), bv, dv);
    }
    entries.push(BackendDevices { backend, devices });
    proof {
        assert(entry_views(entries@) =~= entry_views(old(entries)@).push(
            EntryView { backend: bv, devices: dv },
        ));
    }
}

/// Build the device inventory for one direction out of what the platform
/// reported: one entry per backend, in enumeration order, with the default
/// backend's identifier carried through unchanged.  The call fails, with the
/// first failing backend's error, when zero backends were reported, when a
/// backend could not be opened, or when a device name could not be resolved.
#[verifier::loop_isolation(false)]
pub fn list_audio_devices(
    snapshots: Vec<BackendSnapshot>,
    default_backend: String,
    input: bool,
) -> (r: Result<DeviceInventory, EnumerationError>)
    ensures
        ({
            let m = enumeration_model(snapshot_views(snapshots@), input);
            match r {
                Ok(inv) => m matches Ok(es) && entry_views(inv.devices@) == es
                    && inv.default_backend@ == default_backend@ && inv.wf(),
                Err(e) => m matches Err(ev) && e@ == ev,
            }
        }),
        (r is Ok) <==> (snapshots@.len() > 0 && forall|i: int|
            0 <= i < snapshots@.len() ==> snapshot_ok(
                #[trigger] snapshot_views(snapshots@)[i],
                input,
            )),
        snapshots@.len() == 0 ==> r == Err::<DeviceInventory, EnumerationError>(
            EnumerationError::NoBackends,
        ),
{
    let ghost full: Seq<SnapshotView> = snapshot_views(snapshots@);
    proof {
        lemma_enumerate_from_ok(full, input, Seq::<EntryView>::empty());
        lemma_enumerate_from_unique(full, input, Seq::<EntryView>::empty());
    }
    if snapshots.len() == 0 {
        return Err(EnumerationError::NoBackends);
    }
    let mut remaining = snapshots;
    let mut entries: Vec<BackendDevices> = Vec::new();
    while remaining.len() > 0
        invariant
            enumerate_from(full, input, Seq::<EntryView>::empty()) == enumerate_from(
                snapshot_views(remaining@),
                input,
                entry_views(entries@),
            ),
            unique_backends(entry_views(entries@)),
        decreases remaining.len(),
    {
        let ghost rem0 = snapshot_views(remaining@);
        let ghost acc0 = entry_views(entries@);
        let s = remaining.remove(0);
        let ghost sv = s@;
        proof {
            assert(rem0[0] == sv);
            assert(snapshot_views(remaining@) =~= rem0.drop_first());
        }
        if !s.opened {
            return Err(EnumerationError::BackendOpenFailed(s.name));
        }
        let probe = if input {
            s.input_devices
        } else {
            s.output_devices
        };
        proof {
            assert(probe@ == selected_devices(sv, input));
        }
        match probe {
            ProbeResult::Unresolved => {
                return Err(EnumerationError::DeviceNameFailed(s.name));
            },
            ProbeResult::Resolved(devs) => {
                proof {
                    assert(snapshot_ok(sv, input));
                    assert(selected_devices(sv, input)->0 == names_view(devs@));
                    lemma_insert_entry_props(acc0, sv.name, names_view(devs@));
                }
                insert_devices(&mut entries, s.name, devs);
            },
        }
    }
    Ok(DeviceInventory { devices: entries, default_backend })
}

} // verus!
