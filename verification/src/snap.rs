//! Object-snap mode state: which OSNAP modes are configured, the global
//! snap toggle, and object-snap tracking (dwell counting and the list of
//! acquired tracking points). Screen-space distance tests are made by the
//! caller, which hands their outcome in as booleans.

use vstd::prelude::*;
use std::collections::HashSet;
use rustc_hash::FxBuildHasher;

verus! {

/// Every OSNAP mode.
#[derive(Debug, Clone, Copy, PartialEq, Eq, Hash, Structural)]
pub enum SnapType {
    Endpoint,
    Midpoint,
    Center,
    Node,
    Quadrant,
    Intersection,
    Extension,
    Insertion,
    Perpendicular,
    Tangent,
    Nearest,
    ApparentIntersection,
    Parallel,
    Grid,
}

/// Number of OSNAP modes.
pub const SNAP_MODE_COUNT: usize = 14;

/// Position of a mode in the popup / engine order.
pub open spec fn snap_code(t: SnapType) -> u8 {
    match t {
        SnapType::Endpoint => 0,
        SnapType::Midpoint => 1,
        SnapType::Center => 2,
        SnapType::Node => 3,
        SnapType::Quadrant => 4,
        SnapType::Intersection => 5,
        SnapType::Extension => 6,
        SnapType::Insertion => 7,
        SnapType::Perpendicular => 8,
        SnapType::Tangent => 9,
        SnapType::Nearest => 10,
        SnapType::ApparentIntersection => 11,
        SnapType::Parallel => 12,
        SnapType::Grid => 13,
    }
}

/// The modes in popup / engine order.
pub open spec fn spec_all_snap_modes() -> Seq<SnapType> {
    seq![
        SnapType::Endpoint,
        SnapType::Midpoint,
        SnapType::Center,
        SnapType::Node,
        SnapType::Quadrant,
        SnapType::Intersection,
        SnapType::Extension,
        SnapType::Insertion,
        SnapType::Perpendicular,
        SnapType::Tangent,
        SnapType::Nearest,
        SnapType::ApparentIntersection,
        SnapType::Parallel,
        SnapType::Grid,
    ]
}

/// Codes of all modes.
pub open spec fn all_codes() -> Set<u8> {
    Set::new(|c: u8| c < 14)
}

/// Codes of the modes on by default.
pub open spec fn default_codes() -> Set<u8> {
    set![
        snap_code(SnapType::Endpoint),
        snap_code(SnapType::Midpoint),
        snap_code(SnapType::Center),
        snap_code(SnapType::Node),
        snap_code(SnapType::Quadrant),
        snap_code(SnapType::Intersection),
        snap_code(SnapType::Nearest),
    ]
}

impl SnapType {
    pub fn code(self) -> (c: u8)
        ensures
            c == snap_code(self),
    {
        match self {
            SnapType::Endpoint => 0,
            SnapType::Midpoint => 1,
            SnapType::Center => 2,
            SnapType::Node => 3,
            SnapType::Quadrant => 4,
            SnapType::Intersection => 5,
            SnapType::Extension => 6,
            SnapType::Insertion => 7,
            SnapType::Perpendicular => 8,
            SnapType::Tangent => 9,
            SnapType::Nearest => 10,
            SnapType::ApparentIntersection => 11,
            SnapType::Parallel => 12,
            SnapType::Grid => 13,
        }
    }

    /// Name shown in the snap popup.
    pub fn label(self) -> (s: &'static str)
        ensures
            s@ == spec_snap_label(self),
    {
        match self {
            SnapType::Endpoint => "Endpoint",
            SnapType::Midpoint => "Midpoint",
            SnapType::Center => "Center",
            SnapType::Node => "Node",
            SnapType::Quadrant => "Quadrant",
            SnapType::Intersection => "Intersection",
            SnapType::Extension => "Extension",
            SnapType::Insertion => "Insertion",
            SnapType::Perpendicular => "Perpendicular",
            SnapType::Tangent => "Tangent",
            SnapType::Nearest => "Nearest",
            SnapType::ApparentIntersection => "Apparent Intersection",
            SnapType::Parallel => "Parallel",
            SnapType::Grid => "Grid",
        }
    }
}

/// Popup names of the modes.
pub open spec fn spec_snap_label(t: SnapType) -> Seq<char> {
    match t {
        SnapType::Endpoint => "Endpoint"@,
        SnapType::Midpoint => "Midpoint"@,
        SnapType::Center => "Center"@,
        SnapType::Node => "Node"@,
        SnapType::Quadrant => "Quadrant"@,
        SnapType::Intersection => "Intersection"@,
        SnapType::Extension => "Extension"@,
        SnapType::Insertion => "Insertion"@,
        SnapType::Perpendicular => "Perpendicular"@,
        SnapType::Tangent => "Tangent"@,
        SnapType::Nearest => "Nearest"@,
        SnapType::ApparentIntersection => "Apparent Intersection"@,
        SnapType::Parallel => "Parallel"@,
        SnapType::Grid => "Grid"@,
    }
}

/// All modes in popup / engine order.
pub fn all_snap_modes() -> (v: Vec<SnapType>)
    ensures
        v@ == spec_all_snap_modes(),
{
    let v = vec![
        SnapType::Endpoint,
        SnapType::Midpoint,
        SnapType::Center,
        SnapType::Node,
        SnapType::Quadrant,
        SnapType::Intersection,
        SnapType::Extension,
        SnapType::Insertion,
        SnapType::Perpendicular,
        SnapType::Tangent,
        SnapType::Nearest,
        SnapType::ApparentIntersection,
        SnapType::Parallel,
        SnapType::Grid,
    ];
    assert(v@ =~= spec_all_snap_modes());
    v
}

/// The code of the mode at position `i` of the popup order is `i`.
pub proof fn lemma_codes_in_order()
    ensures
        forall|i: int|
            0 <= i < 14 ==> #[trigger] snap_code(spec_all_snap_modes()[i]) == i,
        forall|t: SnapType| #[trigger] snap_code(t) < 14,
        forall|a: SnapType, b: SnapType| snap_code(a) == snap_code(b) ==> a == b,
{
    assert forall|i: int| 0 <= i < 14 implies #[trigger] snap_code(spec_all_snap_modes()[i]) == i by {
        let s = spec_all_snap_modes();
        if i == 0 { assert(s[0] == SnapType::Endpoint); }
        else if i == 1 { assert(s[1] == SnapType::Midpoint); }
        else if i == 2 { assert(s[2] == SnapType::Center); }
        else if i == 3 { assert(s[3] == SnapType::Node); }
        else if i == 4 { assert(s[4] == SnapType::Quadrant); }
        else if i == 5 { assert(s[5] == SnapType::Intersection); }
        else if i == 6 { assert(s[6] == SnapType::Extension); }
        else if i == 7 { assert(s[7] == SnapType::Insertion); }
        else if i == 8 { assert(s[8] == SnapType::Perpendicular); }
        else if i == 9 { assert(s[9] == SnapType::Tangent); }
        else if i == 10 { assert(s[10] == SnapType::Nearest); }
        else if i == 11 { assert(s[11] == SnapType::ApparentIntersection); }
        else if i == 12 { assert(s[12] == SnapType::Parallel); }
        else { assert(s[13] == SnapType::Grid); }
    }
}

/// `m` with `c` flipped: removed when present, added when absent.
pub open spec fn toggled(m: Set<u8>, c: u8) -> Set<u8> {
    if m.contains(c) {
        m.remove(c)
    } else {
        m.insert(c)
    }
}

/// Toggling a mode twice restores the configured modes.
pub proof fn law_toggle_twice(m: Set<u8>, c: u8)
    ensures
        toggled(toggled(m, c), c) == m,
{
    assert(toggled(toggled(m, c), c) =~= m);
}

/// After enabling every mode, every mode is on, whatever was on before.
pub proof fn law_enable_all_all_on(m: Set<u8>)
    ensures
        all_codes().subset_of(m.union(all_codes())),
        forall|t: SnapType| #[trigger] m.union(all_codes()).contains(snap_code(t)),
{
    lemma_codes_in_order();
}

// ── outside collection: the set of configured modes ────────────────────

/// `rustc_hash::FxHashSet<u8>` of mode codes.
pub type ModeSet = HashSet<u8, FxBuildHasher>;

/// What the mode set holds.
pub uninterp spec fn mode_set_entries(s: ModeSet) -> Set<u8>;

/// `FxHashSet::default()`: an empty set.
#[verifier::external_body]
fn mode_set_new() -> (s: ModeSet)
    ensures
        mode_set_entries(s) == Set::<u8>::empty(),
{
    HashSet::default()
}

/// `HashSet::insert`: adds `c`.
#[verifier::external_body]
fn mode_set_insert(s: &mut ModeSet, c: u8)
    ensures
        mode_set_entries(*final(s)) == mode_set_entries(*old(s)).insert(c),
{
    s.insert(c);
}

/// `HashSet::remove`: takes `c` out; true when it was there.
#[verifier::external_body]
fn mode_set_remove(s: &mut ModeSet, c: u8) -> (was: bool)
    ensures
        mode_set_entries(*final(s)) == mode_set_entries(*old(s)).remove(c),
        was == mode_set_entries(*old(s)).contains(c),
{
    s.remove(&c)
}

/// `HashSet::contains`.
#[verifier::external_body]
fn mode_set_contains(s: &ModeSet, c: u8) -> (b: bool)
    ensures
        b == mode_set_entries(*s).contains(c),
{
    s.contains(&c)
}

/// `HashSet::is_empty`.
#[verifier::external_body]
fn mode_set_is_empty(s: &ModeSet) -> (b: bool)
    ensures
        b == (mode_set_entries(*s) == Set::<u8>::empty()),
{
    s.is_empty()
}

/// `HashSet::clear`: removes every element.
#[verifier::external_body]
fn mode_set_clear(s: &mut ModeSet)
    ensures
        mode_set_entries(*final(s)) == Set::<u8>::empty(),
{
    s.clear();
}

// ── the snapper state ──────────────────────────────────────────────────

/// Consecutive near-identical snap results that acquire a tracking point.
pub const DWELL_THRESHOLD: u32 = 4;

/// Most tracking points kept at once.
pub const MAX_TRACKING_POINTS: usize = 4;

/// Snap configuration and tracking state; `P` is the point type the caller
/// works in.
pub struct Snapper<P> {
    /// Global snap on/off. When false, snapping is bypassed but the configured
    /// modes are kept.
    pub snap_enabled: bool,
    /// Configured modes, by code.
    pub enabled: ModeSet,
    /// Object snap tracking on/off.
    pub otrack_enabled: bool,
    /// Acquired tracking points, oldest first.
    pub tracking_points: Vec<P>,
    /// Last snap position, for dwell detection.
    pub last_snap_world: Option<P>,
    /// Consecutive moves the cursor has stayed near `last_snap_world`.
    pub dwell_count: u32,
}

impl<P> Snapper<P> {
    /// The configured modes, by code.
    pub closed spec fn modes(&self) -> Set<u8> {
        mode_set_entries(self.enabled)
    }

    /// Snap off, tracking off, nothing tracked, the default modes configured.
    pub fn new() -> (s: Self)
        ensures
            !s.snap_enabled,
            s.modes() == default_codes(),
            !s.otrack_enabled,
            s.tracking_points@.len() == 0,
            s.last_snap_world is None,
            s.dwell_count == 0,
    {
        let mut enabled = mode_set_new();
        mode_set_insert(&mut enabled, SnapType::Endpoint.code());
        mode_set_insert(&mut enabled, SnapType::Midpoint.code());
        mode_set_insert(&mut enabled, SnapType::Center.code());
        mode_set_insert(&mut enabled, SnapType::Node.code());
        mode_set_insert(&mut enabled, SnapType::Quadrant.code());
        mode_set_insert(&mut enabled, SnapType::Intersection.code());
        mode_set_insert(&mut enabled, SnapType::Nearest.code());
        let s = Snapper {
            snap_enabled: false,
            enabled,
            otrack_enabled: false,
            tracking_points: Vec::new(),
            last_snap_world: None,
            dwell_count: 0,
        };
        assert(s.modes() =~= default_codes());
        s
    }

    /// Snap is globally on and at least one mode is configured.
    pub fn is_active(&self) -> (b: bool)
        ensures
            b == (self.snap_enabled && self.modes() != Set::<u8>::empty()),
    {
        self.snap_enabled && !mode_set_is_empty(&self.enabled)
    }

    pub fn is_on(&self, t: SnapType) -> (b: bool)
        ensures
            b == self.modes().contains(snap_code(t)),
    {
        mode_set_contains(&self.enabled, t.code())
    }

    pub fn toggle_global(&mut self)
        ensures
            final(self).snap_enabled == !old(self).snap_enabled,
            final(self).modes() == old(self).modes(),
            final(self).otrack_enabled == old(self).otrack_enabled,
            final(self).tracking_points@ == old(self).tracking_points@,
            final(self).last_snap_world == old(self).last_snap_world,
            final(self).dwell_count == old(self).dwell_count,
    {
        self.snap_enabled = !self.snap_enabled;
    }

    /// Turns mode `t` off when it is on, on when it is off.
    pub fn toggle(&mut self, t: SnapType)
        ensures
            final(self).modes() == toggled(old(self).modes(), snap_code(t)),
            final(self).snap_enabled == old(self).snap_enabled,
            final(self).otrack_enabled == old(self).otrack_enabled,
            final(self).tracking_points@ == old(self).tracking_points@,
            final(self).last_snap_world == old(self).last_snap_world,
            final(self).dwell_count == old(self).dwell_count,
    {
        let c = t.code();
        if !mode_set_remove(&mut self.enabled, c) {
            mode_set_insert(&mut self.enabled, c);
        }
    }

    /// Every mode is configured.
    pub fn all_on(&self) -> (b: bool)
        ensures
            b == all_codes().subset_of(self.modes()),
    {
        let modes = all_snap_modes();
        let mut i: usize = 0;
        proof {
            lemma_codes_in_order();
        }
        while i < modes.len()
            invariant
                modes@ == spec_all_snap_modes(),
                i <= modes@.len(),
                forall|c: u8| c < i ==> #[trigger] self.modes().contains(c),
                forall|k: int|
                    0 <= k < 14 ==> #[trigger] snap_code(spec_all_snap_modes()[k]) == k,
            decreases modes@.len() - i,
        {
            if !mode_set_contains(&self.enabled, modes[i].code()) {
                assert(snap_code(modes@[i as int]) == i);
                return false;
            }
            assert(snap_code(modes@[i as int]) == i);
            i = i + 1;
        }
        assert forall|c: u8| all_codes().contains(c) implies self.modes().contains(c) by {}
        true
    }

    /// No mode is configured.
    pub fn none_on(&self) -> (b: bool)
        ensures
            b == (self.modes() == Set::<u8>::empty()),
    {
        mode_set_is_empty(&self.enabled)
    }

    /// Configures every mode.
    pub fn enable_all(&mut self)
        ensures
            final(self).modes() == old(self).modes().union(all_codes()),
            final(self).snap_enabled == old(self).snap_enabled,
            final(self).otrack_enabled == old(self).otrack_enabled,
            final(self).tracking_points@ == old(self).tracking_points@,
            final(self).last_snap_world == old(self).last_snap_world,
            final(self).dwell_count == old(self).dwell_count,
    {
        let modes = all_snap_modes();
        let ghost m0 = self.modes();
        let mut i: usize = 0;
        proof {
            lemma_codes_in_order();
        }
        while i < modes.len()
            invariant
                modes@ == spec_all_snap_modes(),
                i <= modes@.len(),
                self.modes() == m0.union(Set::new(|c: u8| c < i)),
                self.snap_enabled == old(self).snap_enabled,
                self.otrack_enabled == old(self).otrack_enabled,
                self.tracking_points@ == old(self).tracking_points@,
                self.last_snap_world == old(self).last_snap_world,
                self.dwell_count == old(self).dwell_count,
                forall|k: int|
                    0 <= k < 14 ==> #[trigger] snap_code(spec_all_snap_modes()[k]) == k,
            decreases modes@.len() - i,
        {
            let c = modes[i].code();
            assert(snap_code(modes@[i as int]) == i);
            mode_set_insert(&mut self.enabled, c);
            assert(self.modes() =~= m0.union(Set::new(|c: u8| c < i + 1)));
            i = i + 1;
        }
        assert(self.modes() =~= m0.union(all_codes()));
    }

    /// Configures no mode.
    pub fn disable_all(&mut self)
        ensures
            final(self).modes() == Set::<u8>::empty(),
            final(self).snap_enabled == old(self).snap_enabled,
            final(self).otrack_enabled == old(self).otrack_enabled,
            final(self).tracking_points@ == old(self).tracking_points@,
            final(self).last_snap_world == old(self).last_snap_world,
            final(self).dwell_count == old(self).dwell_count,
    {
        mode_set_clear(&mut self.enabled);
    }

    /// Forgets every tracking point and the dwell state.
    pub fn clear_tracking(&mut self)
        ensures
            final(self).tracking_points@.len() == 0,
            final(self).dwell_count == 0,
            final(self).last_snap_world is None,
            final(self).modes() == old(self).modes(),
            final(self).snap_enabled == old(self).snap_enabled,
            final(self).otrack_enabled == old(self).otrack_enabled,
    {
        self.tracking_points.clear();
        self.dwell_count = 0;
        self.last_snap_world = None;
    }
}

/// Tracking points after a move: `p` is appended when `acquire` holds, the
/// oldest point giving way when `MAX_TRACKING_POINTS` are already held.
pub open spec fn next_tracking<P>(pts: Seq<P>, acquire: bool, p: P) -> Seq<P> {
    if acquire {
        if pts.len() >= MAX_TRACKING_POINTS {
            pts.drop_first().push(p)
        } else {
            pts.push(p)
        }
    } else {
        pts
    }
}

/// Tracking never holds more than `MAX_TRACKING_POINTS` points.
pub proof fn law_tracking_bounded<P>(pts: Seq<P>, acquire: bool, p: P)
    requires
        pts.len() <= MAX_TRACKING_POINTS,
    ensures
        next_tracking(pts, acquire, p).len() <= MAX_TRACKING_POINTS,
{
}

impl<P: Copy> Snapper<P> {
    /// One cursor move of object snap tracking. `snap_world` is the current snap
    /// position, if any; `is_same` tells whether it lies within the dwell radius
    /// of `last_snap_world` on screen (false when there is none); `near_existing`
    /// whether it lies near a tracking point already acquired. The move that
    /// brings the dwell count to `DWELL_THRESHOLD` acquires the point.
    pub fn update_otrack_dwell(&mut self, snap_world: Option<P>, is_same: bool, near_existing: bool)
        requires
            old(self).otrack_enabled && snap_world is Some && is_same ==> old(self).dwell_count
                < u32::MAX,
        ensures
            final(self).modes() == old(self).modes(),
            final(self).snap_enabled == old(self).snap_enabled,
            final(self).otrack_enabled == old(self).otrack_enabled,
            old(self).tracking_points@.len() <= MAX_TRACKING_POINTS ==> final(self).tracking_points@.len()
                <= MAX_TRACKING_POINTS,
            ({
                let o = *old(self);
                let f = *final(self);
                if !o.otrack_enabled || snap_world is None {
                    &&& f.dwell_count == 0
                    &&& f.last_snap_world is None
                    &&& f.tracking_points@ == o.tracking_points@
                } else if !is_same {
                    &&& f.dwell_count == 1
                    &&& f.last_snap_world == snap_world
                    &&& f.tracking_points@ == o.tracking_points@
                } else {
                    &&& f.dwell_count == o.dwell_count + 1
                    &&& f.last_snap_world == o.last_snap_world
                    &&& f.tracking_points@ == next_tracking(
                        o.tracking_points@,
                        o.dwell_count + 1 == DWELL_THRESHOLD && !near_existing,
                        snap_world->0,
                    )
                }
            }),
    {
        if !self.otrack_enabled {
            self.dwell_count = 0;
            self.last_snap_world = None;
            return;
        }
        match snap_world {
            None => {
                self.dwell_count = 0;
                self.last_snap_world = None;
            },
            Some(p) => {
                if is_same {
                    self.dwell_count = self.dwell_count + 1;
                    if self.dwell_count == DWELL_THRESHOLD && !near_existing {
                        if self.tracking_points.len() >= MAX_TRACKING_POINTS {
                            self.tracking_points.remove(0);
                        }
                        self.tracking_points.push(p);
                    }
                } else {
                    self.dwell_count = 1;
                    self.last_snap_world = Some(p);
                }
            },
        }
    }
}

impl<P> Default for Snapper<P> {
    /// Same as `Snapper::new`.
    fn default() -> (s: Self)
        ensures
            !s.snap_enabled,
            s.modes() == default_codes(),
            !s.otrack_enabled,
            s.tracking_points@.len() == 0,
            s.last_snap_world is None,
            s.dwell_count == 0,
    {
        Self::new()
    }
}

} // verus!
