//! HUD helpers: network codes, control groups, event log, unit counts and
//! grid layout of the group hotkey panel.
use vstd::prelude::*;
use std::collections::VecDeque;

verus! {

/// Combat stance of a unit.
#[derive(Clone, Copy, PartialEq, Eq, Debug, Hash)]
pub enum UnitStance {
    Passive,
    Defensive,
    Aggressive,
}

/// Wire code of a stance.
pub fn stance_to_net_u8(stance: UnitStance) -> (r: u8)
    ensures
        r == match stance {
            UnitStance::Passive => 0u8,
            UnitStance::Defensive => 1u8,
            UnitStance::Aggressive => 2u8,
        },
{
    match stance {
        UnitStance::Passive => 0,
        UnitStance::Defensive => 1,
        UnitStance::Aggressive => 2,
    }
}

/// Number of columns of the control-group panel for `count` slots.
pub open spec fn grid_columns_spec(count: int) -> int {
    if count <= 2 {
        if count < 1 { 1 } else { count }
    } else if count == 3 {
        3
    } else if count == 4 {
        2
    } else if count <= 6 {
        3
    } else if count <= 8 {
        4
    } else {
        3
    }
}

pub fn grid_columns_for(count: usize) -> (r: u16)
    ensures
        r == grid_columns_spec(count as int),
{
    if count <= 2 {
        if count < 1 { 1 } else { count as u16 }
    } else if count == 3 {
        3
    } else if count == 4 {
        2
    } else if count <= 6 {
        3
    } else if count <= 8 {
        4
    } else {
        3
    }
}

/// Severity of a logged game event.
#[derive(Clone, Copy, PartialEq, Eq, Debug, Hash)]
pub enum LogLevel {
    Info,
    Warning,
    Error,
}

impl LogLevel {
    pub fn label(self) -> (r: &'static str)
        ensures
            r@ == match self {
                LogLevel::Info => "Info"@,
                LogLevel::Warning => "Warn"@,
                LogLevel::Error => "Error"@,
            },
    {
        match self {
            LogLevel::Info => "Info",
            LogLevel::Warning => "Warn",
            LogLevel::Error => "Error",
        }
    }
}

/// Kind of a logged game event.
#[derive(Clone, Copy, PartialEq, Eq, Debug)]
pub enum EventCategory {
    Combat,
    Construction,
    Training,
    Alert,
    Resource,
    Upgrade,
    Demolish,
    Network,
    Sync,
}

impl EventCategory {
    /// One-character marker shown before the event text.
    pub fn prefix(self) -> (r: &'static str)
        ensures
            r@ == match self {
                EventCategory::Combat => "!"@,
                EventCategory::Construction => "+"@,
                EventCategory::Training => "*"@,
                EventCategory::Alert => "?"@,
                EventCategory::Resource => "$"@,
                EventCategory::Upgrade => "^"@,
                EventCategory::Demolish => "-"@,
                EventCategory::Network => "@"@,
                EventCategory::Sync => "~"@,
            },
    {
        match self {
            EventCategory::Combat => "!",
            EventCategory::Construction => "+",
            EventCategory::Training => "*",
            EventCategory::Alert => "?",
            EventCategory::Resource => "$",
            EventCategory::Upgrade => "^",
            EventCategory::Demolish => "-",
            EventCategory::Network => "@",
            EventCategory::Sync => "~",
        }
    }
}

/// A logged game event; `T` is its time stamp, `W` its world position and
/// `F` the faction that triggered it.
pub struct GameEvent<T, W, F> {
    pub time: T,
    pub message: String,
    pub category: EventCategory,
    pub level: LogLevel,
    pub world_pos: Option<W>,
    pub faction: Option<F>,
}

/// Full history of game events (no cap) and a revision counter that
/// advances with every push.
pub struct GameEventLog<T, W, F> {
    pub entries: VecDeque<GameEvent<T, W, F>>,
    pub revision: u64,
}

impl<T, W, F> GameEventLog<T, W, F> {
    pub fn new() -> (r: Self)
        ensures
            r.entries@.len() == 0,
            r.revision == 0,
    {
        GameEventLog { entries: VecDeque::new(), revision: 0 }
    }

    /// Appends an informational event.
    pub fn push(
        &mut self,
        time: T,
        message: String,
        category: EventCategory,
        world_pos: Option<W>,
        faction: Option<F>,
    )
        requires
            old(self).revision < u64::MAX,
        ensures
            final(self).entries@ == old(self).entries@.push(
                GameEvent { time, message, category, level: LogLevel::Info, world_pos, faction },
            ),
            final(self).revision == old(self).revision + 1,
    {
        self.entries.push_back(
            GameEvent { time, message, category, level: LogLevel::Info, world_pos, faction },
        );
        self.revision = self.revision + 1;
    }

    /// Appends an event with the given level.
    pub fn push_with_level(
        &mut self,
        time: T,
        message: String,
        category: EventCategory,
        level: LogLevel,
        world_pos: Option<W>,
        faction: Option<F>,
    )
        requires
            old(self).revision < u64::MAX,
        ensures
            final(self).entries@ == old(self).entries@.push(
                GameEvent { time, message, category, level, world_pos, faction },
            ),
            final(self).revision == old(self).revision + 1,
    {
        self.entries.push_back(GameEvent { time, message, category, level, world_pos, faction });
        self.revision = self.revision + 1;
    }
}

/// Positions, among the first `n` events, of those the player is shown:
/// events of no faction and events of a faction in `allied`.
pub open spec fn shown_positions<T, W>(entries: Seq<GameEvent<T, W, u8>>, allied: Seq<u8>, n: int) -> Seq<usize>
    decreases n,
{
    if n <= 0 {
        Seq::empty()
    } else {
        let prev = shown_positions(entries, allied, n - 1);
        let shown = match entries[n - 1].faction {
            None => true,
            Some(f) => allied.contains(f),
        };
        if shown {
            prev.push((n - 1) as usize)
        } else {
            prev
        }
    }
}

fn contains_faction(allied: &Vec<u8>, f: u8) -> (r: bool)
    ensures
        r == allied@.contains(f),
{
    let mut i: usize = 0;
    while i < allied.len()
        invariant
            i <= allied@.len(),
            forall|j: int| 0 <= j < i ==> allied@[j] != f,
        decreases allied@.len() - i,
    {
        if allied[i] == f {
            assert(allied@[i as int] == f);
            return true;
        }
        i += 1;
    }
    false
}

impl<T, W> GameEventLog<T, W, u8> {
    /// The page of the log the player sees: how many events are shown in
    /// all, and the positions of the newest `page_size` of them, newest
    /// first.
    pub fn visible_page(&self, allied: &Vec<u8>, page_size: usize) -> (r: (usize, Vec<usize>))
        ensures
            ({
                let shown = shown_positions(self.entries@, allied@, self.entries@.len() as int);
                &&& r.0 == shown.len()
                &&& r.1@.len() == (if page_size < shown.len() { page_size as int } else { shown.len() as int })
                &&& forall|j: int| 0 <= j < r.1@.len() ==> #[trigger] r.1@[j] == shown[shown.len() - 1 - j]
            }),
    {
        let n = self.entries.len();
        let mut shown: Vec<usize> = Vec::new();
        let mut i: usize = 0;
        while i < n
            invariant
                n == self.entries@.len(),
                i <= n,
                shown@ == shown_positions(self.entries@, allied@, i as int),
                shown@.len() <= i,
            decreases n - i,
        {
            let visible = match self.entries[i].faction {
                None => true,
                Some(f) => contains_faction(allied, f),
            };
            if visible {
                shown.push(i);
            }
            i += 1;
        }
        let total = shown.len();
        let count = if page_size < total { page_size } else { total };
        let mut page: Vec<usize> = Vec::new();
        while page.len() < count
            invariant
                count <= total,
                total == shown@.len(),
                page@.len() <= count,
                forall|j: int| 0 <= j < page@.len() ==> #[trigger] page@[j] == shown@[total - 1 - j],
            decreases count - page@.len(),
        {
            let j = page.len();
            page.push(shown[total - 1 - j]);
        }
        (total, page)
    }
}

/// The log revision the event-log panel last showed.
pub struct EventLogRenderState {
    pub last_revision: u64,
}

impl EventLogRenderState {
    /// Whether the panel must be rebuilt for a log at `revision`: only when
    /// the revision differs from the one last shown, which it then becomes.
    pub fn take_change(&mut self, revision: u64) -> (r: bool)
        ensures
            r == (old(self).last_revision != revision),
            final(self).last_revision == revision,
    {
        if self.last_revision == revision {
            false
        } else {
            self.last_revision = revision;
            true
        }
    }
}

/// Number of control groups (hotkeys 1 to 9).
pub const CONTROL_GROUP_COUNT: usize = 9;

/// Nine control groups of entity ids.
pub struct ControlGroups {
    pub groups: [Vec<u64>; 9],
}

impl ControlGroups {
    pub fn new() -> (r: Self)
        ensures
            forall|i: int| 0 <= i < 9 ==> #[trigger] r.groups[i]@.len() == 0,
    {
        ControlGroups {
            groups: [Vec::new(), Vec::new(), Vec::new(), Vec::new(), Vec::new(), Vec::new(), Vec::new(), Vec::new(), Vec::new()],
        }
    }

    /// Indices (ascending, 0-based) of the groups that contain `entity`.
    pub fn groups_for_entity(&self, entity: u64) -> (r: Vec<usize>)
        ensures
            forall|k: int| 0 <= k < r@.len() ==> #[trigger] r@[k] < 9 && self.groups[r@[k] as int]@.contains(entity),
            forall|i: int| 0 <= i < 9 && #[trigger] self.groups[i]@.contains(entity) ==> r@.contains(i as usize),
            forall|a: int, b: int| 0 <= a < b < r@.len() ==> r@[a] < r@[b],
    {
        let mut out: Vec<usize> = Vec::new();
        let mut i: usize = 0;
        while i < 9
            invariant
                i <= 9,
                forall|k: int| 0 <= k < out@.len() ==> #[trigger] out@[k] < i && self.groups[out@[k] as int]@.contains(entity),
                forall|j: int| 0 <= j < i && #[trigger] self.groups[j]@.contains(entity) ==> out@.contains(j as usize),
                forall|a: int, b: int| 0 <= a < b < out@.len() ==> out@[a] < out@[b],
            decreases 9 - i,
        {
            let g = &self.groups[i];
            let mut found = false;
            let mut k: usize = 0;
            while k < g.len()
                invariant
                    k <= g@.len(),
                    found == exists|j: int| 0 <= j < k && g@[j] == entity,
                decreases g@.len() - k,
            {
                if g[k] == entity {
                    found = true;
                }
                k += 1;
            }
            assert(found == self.groups[i as int]@.contains(entity));
            let ghost before = out@;
            if found {
                out.push(i);
                assert(out@[out@.len() - 1] == i);
            }
            assert forall|j: int| 0 <= j < i + 1 && #[trigger] self.groups[j]@.contains(entity) implies out@.contains(j as usize) by {
                if j < i {
                    let w = choose|w: int| 0 <= w < before.len() && before[w] == j as usize;
                    assert(out@[w] == j as usize);
                } else {
                    assert(out@[out@.len() - 1] == i);
                }
            }
            i += 1;
        }
        out
    }
}

/// `s` without the entities listed in `drop`, in order.
pub open spec fn without(s: Seq<u64>, drop: Seq<u64>) -> Seq<u64>
    decreases s.len(),
{
    if s.len() == 0 {
        Seq::empty()
    } else if drop.contains(s.last()) {
        without(s.drop_last(), drop)
    } else {
        without(s.drop_last(), drop).push(s.last())
    }
}

/// `g` followed by the entities of `extra` it does not hold yet, each once,
/// in order.
pub open spec fn with_added(g: Seq<u64>, extra: Seq<u64>) -> Seq<u64>
    decreases extra.len(),
{
    if extra.len() == 0 {
        g
    } else {
        let prev = with_added(g, extra.drop_last());
        if prev.contains(extra.last()) {
            prev
        } else {
            prev.push(extra.last())
        }
    }
}

/// What a digit key does to its control group, by the modifiers held:
/// Ctrl assigns, else Alt steals, else Shift adds, else the group is recalled.
#[derive(Clone, Copy, PartialEq, Eq, Debug)]
pub enum GroupKeyAction {
    Assign,
    Steal,
    Add,
    Recall,
}

pub fn group_key_action(ctrl: bool, alt: bool, shift: bool) -> (r: GroupKeyAction)
    ensures
        r == (if ctrl {
            GroupKeyAction::Assign
        } else if alt {
            GroupKeyAction::Steal
        } else if shift {
            GroupKeyAction::Add
        } else {
            GroupKeyAction::Recall
        }),
{
    if ctrl {
        GroupKeyAction::Assign
    } else if alt {
        GroupKeyAction::Steal
    } else if shift {
        GroupKeyAction::Add
    } else {
        GroupKeyAction::Recall
    }
}

/// What a click on a group slot did.
#[derive(Clone, Copy, PartialEq, Eq, Debug)]
pub enum SlotClick {
    /// The selection became the group.
    Assigned,
    /// The group's units are to be selected.
    Recalled,
    /// Nothing changed.
    Ignored,
}

fn copy_ids(v: &Vec<u64>) -> (r: Vec<u64>)
    ensures
        r@ == v@,
{
    let mut out: Vec<u64> = Vec::new();
    let mut k: usize = 0;
    while k < v.len()
        invariant
            k <= v@.len(),
            out@ == v@.take(k as int),
        decreases v@.len() - k,
    {
        out.push(v[k]);
        proof {
            assert(v@.take(k + 1) =~= v@.take(k as int).push(v@[k as int]));
        }
        k += 1;
    }
    assert(v@.take(v@.len() as int) =~= v@);
    out
}

fn contains_id(v: &Vec<u64>, e: u64) -> (r: bool)
    ensures
        r == v@.contains(e),
{
    let mut k: usize = 0;
    while k < v.len()
        invariant
            k <= v@.len(),
            forall|j: int| 0 <= j < k ==> v@[j] != e,
        decreases v@.len() - k,
    {
        if v[k] == e {
            assert(v@[k as int] == e);
            return true;
        }
        k += 1;
    }
    false
}

proof fn lemma_without_excludes(s: Seq<u64>, drop: Seq<u64>)
    ensures
        forall|e: u64| drop.contains(e) ==> !#[trigger] without(s, drop).contains(e),
        forall|e: u64| #[trigger] without(s, drop).contains(e) ==> s.contains(e),
    decreases s.len(),
{
    if s.len() > 0 {
        lemma_without_excludes(s.drop_last(), drop);
        let r = without(s.drop_last(), drop);
        assert forall|e: u64| #[trigger] without(s, drop).contains(e) implies s.contains(e) by {
            if r.contains(e) {
                let k = choose|k: int| 0 <= k < s.drop_last().len() && s.drop_last()[k] == e;
                assert(s[k] == e);
            } else {
                assert(e == s.last());
                assert(s[s.len() - 1] == e);
            }
        }
        assert forall|e: u64| drop.contains(e) implies !#[trigger] without(s, drop).contains(e) by {
            assert(!r.contains(e));
            if drop.contains(s.last()) {
                assert(without(s, drop) == r);
            } else if without(s, drop).contains(e) {
                assert(without(s, drop) == r.push(s.last()));
                let k = choose|k: int| 0 <= k < r.len() + 1 && r.push(s.last())[k] == e;
                if k < r.len() {
                    assert(r[k] == e);
                }
            }
        }
    }
}

proof fn lemma_with_added_covers(g: Seq<u64>, extra: Seq<u64>)
    ensures
        forall|e: u64| #[trigger] with_added(g, extra).contains(e) <==> (g.contains(e) || extra.contains(e)),
        with_added(g, extra).len() >= g.len(),
        with_added(g, extra).take(g.len() as int) == g,
    decreases extra.len(),
{
    if extra.len() > 0 {
        let init = extra.drop_last();
        lemma_with_added_covers(g, init);
        let prev = with_added(g, init);
        let x = extra.last();
        assert forall|e: u64| #[trigger] with_added(g, extra).contains(e) <==> (g.contains(e) || extra.contains(e)) by {
            if extra.contains(e) && !init.contains(e) {
                let k = choose|k: int| 0 <= k < extra.len() && extra[k] == e;
                if k < init.len() {
                    assert(init[k] == e);
                }
                assert(e == x);
                if !prev.contains(x) {
                    assert(prev.push(x)[prev.len() as int] == x);
                }
            }
            if init.contains(e) {
                let k = choose|k: int| 0 <= k < init.len() && init[k] == e;
                assert(extra[k] == e);
            }
            if !prev.contains(x) && prev.push(x).contains(e) && !prev.contains(e) {
                let k = choose|k: int| 0 <= k < prev.len() + 1 && prev.push(x)[k] == e;
                assert(e == x);
                assert(extra[extra.len() - 1] == e);
            }
            if prev.contains(e) && !prev.contains(x) {
                let k = choose|k: int| 0 <= k < prev.len() && prev[k] == e;
                assert(prev.push(x)[k] == e);
            }
        }
        if !prev.contains(x) {
            assert(prev.push(x).take(g.len() as int) =~= prev.take(g.len() as int));
        }
    }
}

impl ControlGroups {
    /// The selection becomes group `i`; with nothing selected the group is
    /// kept.
    pub fn assign(&mut self, i: usize, units: Vec<u64>)
        requires
            i < CONTROL_GROUP_COUNT,
        ensures
            forall|j: int| 0 <= j < 9 && j != i ==> #[trigger] final(self).groups[j]@ == old(self).groups[j]@,
            final(self).groups[i as int]@ == (if units@.len() > 0 { units@ } else { old(self).groups[i as int]@ }),
    {
        if units.len() > 0 {
            self.groups[i] = units;
        }
    }

    /// The selection becomes group `i` and leaves every other group; with
    /// nothing selected nothing changes.
    pub fn steal(&mut self, i: usize, units: Vec<u64>)
        requires
            i < CONTROL_GROUP_COUNT,
        ensures
            units@.len() == 0 ==> forall|j: int| 0 <= j < 9 ==> #[trigger] final(self).groups[j]@ == old(self).groups[j]@,
            units@.len() > 0 ==> final(self).groups[i as int]@ == units@,
            units@.len() > 0 ==> forall|j: int|
                0 <= j < 9 && j != i ==> #[trigger] final(self).groups[j]@ == without(old(self).groups[j]@, units@),
    {
        if units.len() == 0 {
            return;
        }
        let ghost g0 = self.groups@;
        let mut j: usize = 0;
        while j < CONTROL_GROUP_COUNT
            invariant
                j <= 9,
                i < 9,
                g0 == old(self).groups@,
                units@.len() > 0,
                forall|k: int| 0 <= k < 9 ==> #[trigger] self.groups[k]@ == (if k < j && k != i {
                    without(g0[k]@, units@)
                } else {
                    g0[k]@
                }),
            decreases 9 - j,
        {
            if j != i {
                let kept = keep_unlisted(&self.groups[j], &units);
                self.groups[j] = kept;
            }
            j += 1;
        }
        self.groups[i] = units;
    }

    /// Adds the selected units that group `i` does not hold yet, at its end.
    pub fn add(&mut self, i: usize, units: &Vec<u64>)
        requires
            i < CONTROL_GROUP_COUNT,
        ensures
            forall|j: int| 0 <= j < 9 && j != i ==> #[trigger] final(self).groups[j]@ == old(self).groups[j]@,
            final(self).groups[i as int]@ == with_added(old(self).groups[i as int]@, units@),
    {
        let mut g = copy_ids(&self.groups[i]);
        let ghost g0 = g@;
        let mut k: usize = 0;
        while k < units.len()
            invariant
                k <= units@.len(),
                g@ == with_added(g0, units@.take(k as int)),
            decreases units@.len() - k,
        {
            let e = units[k];
            proof {
                assert(units@.take(k + 1).drop_last() =~= units@.take(k as int));
                assert(units@.take(k + 1).last() == e);
            }
            if !contains_id(&g, e) {
                g.push(e);
            }
            k += 1;
        }
        assert(units@.take(units@.len() as int) =~= units@);
        self.groups[i] = g;
    }

    /// A click on slot `i`: a right click assigns the selection; a left
    /// click recalls the group, or assigns the selection when the group is
    /// empty.
    pub fn slot_click(&mut self, i: usize, right_click: bool, selected: Vec<u64>) -> (r: SlotClick)
        requires
            i < CONTROL_GROUP_COUNT,
        ensures
            forall|j: int| 0 <= j < 9 && j != i ==> #[trigger] final(self).groups[j]@ == old(self).groups[j]@,
            r == (if right_click || old(self).groups[i as int]@.len() == 0 {
                if selected@.len() > 0 { SlotClick::Assigned } else { SlotClick::Ignored }
            } else {
                SlotClick::Recalled
            }),
            final(self).groups[i as int]@ == (if r == SlotClick::Assigned { selected@ } else { old(self).groups[i as int]@ }),
    {
        if right_click || self.groups[i].len() == 0 {
            if selected.len() > 0 {
                self.groups[i] = selected;
                SlotClick::Assigned
            } else {
                SlotClick::Ignored
            }
        } else {
            SlotClick::Recalled
        }
    }
}

/// The entries of `group` not listed in `drop`, in order.
fn keep_unlisted(group: &Vec<u64>, drop: &Vec<u64>) -> (r: Vec<u64>)
    ensures
        r@ == without(group@, drop@),
{
    let mut out: Vec<u64> = Vec::new();
    let mut k: usize = 0;
    while k < group.len()
        invariant
            k <= group@.len(),
            out@ == without(group@.take(k as int), drop@),
        decreases group@.len() - k,
    {
        let e = group[k];
        proof {
            assert(group@.take(k + 1).drop_last() =~= group@.take(k as int));
            assert(group@.take(k + 1).last() == e);
        }
        if !contains_id(drop, e) {
            out.push(e);
        }
        k += 1;
    }
    assert(group@.take(group@.len() as int) =~= group@);
    out
}

/// After a steal, none of the stolen units is left in another group.
pub proof fn lemma_steal_exclusive(old_group: Seq<u64>, stolen: Seq<u64>, e: u64)
    requires
        stolen.contains(e),
    ensures
        !without(old_group, stolen).contains(e),
{
    lemma_without_excludes(old_group, stolen);
}

/// Adding units to a group keeps what it held, in place, and afterwards the
/// group holds exactly what it held plus the added units.
pub proof fn lemma_add_keeps_and_covers(g: Seq<u64>, extra: Seq<u64>, e: u64)
    ensures
        with_added(g, extra).take(g.len() as int) == g,
        with_added(g, extra).contains(e) <==> (g.contains(e) || extra.contains(e)),
{
    lemma_with_added_covers(g, extra);
}

/// Remembers the last recalled group, to tell a double tap (which centres
/// the camera on the group) from a first tap.
pub struct RecallTracker {
    pub last_recall_group: Option<usize>,
}

impl RecallTracker {
    /// Records a recall of group `i`; `within_window` says whether the
    /// previous recall was recent enough to make this a double tap. Returns
    /// whether the camera should centre on the group.
    pub fn recall(&mut self, i: usize, within_window: bool) -> (center: bool)
        ensures
            center == (old(self).last_recall_group == Some(i) && within_window),
            final(self).last_recall_group == (if center { None } else { Some(i) }),
    {
        let center = match self.last_recall_group {
            Some(g) => g == i && within_window,
            None => false,
        };
        if center {
            self.last_recall_group = None;
        } else {
            self.last_recall_group = Some(i);
        }
        center
    }
}

/// The bookkeeping of the group panel: the last recalled group, for double
/// taps, and the group shown as active.
pub struct GroupPanelState {
    pub recall: RecallTracker,
    pub active_group: Option<usize>,
}

impl GroupPanelState {
    /// Recalls group `i` by its hotkey; `within_window` says whether the
    /// previous recall was recent enough for a double tap. An empty group
    /// is ignored (`None`, nothing changes). Otherwise the group becomes
    /// active and its members are returned, with whether the camera centres
    /// on them; the double-tap window starts over unless it does.
    pub fn recall_key(&mut self, groups: &ControlGroups, i: usize, within_window: bool) -> (r: Option<(Vec<u64>, bool)>)
        requires
            i < CONTROL_GROUP_COUNT,
        ensures
            (r is None) == (groups.groups[i as int]@.len() == 0),
            r is None ==> final(self).recall == old(self).recall && final(self).active_group == old(self).active_group,
            r matches Some((members, center)) ==> {
                &&& members@ == groups.groups[i as int]@
                &&& center == (old(self).recall.last_recall_group == Some(i) && within_window)
                &&& final(self).recall.last_recall_group == (if center { None } else { Some(i) })
                &&& final(self).active_group == Some(i)
            },
    {
        if groups.groups[i].len() == 0 {
            return None;
        }
        let members = copy_ids(&groups.groups[i]);
        let center = self.recall.recall(i, within_window);
        self.active_group = Some(i);
        Some((members, center))
    }

    /// A click on slot `i` (see [`ControlGroups::slot_click`]); the slot
    /// becomes active when the click assigned or recalled its group.
    pub fn slot_clicked(&mut self, groups: &mut ControlGroups, i: usize, right_click: bool, selected: Vec<u64>) -> (r: SlotClick)
        requires
            i < CONTROL_GROUP_COUNT,
        ensures
            forall|j: int| 0 <= j < 9 && j != i ==> #[trigger] final(groups).groups[j]@ == old(groups).groups[j]@,
            r == (if right_click || old(groups).groups[i as int]@.len() == 0 {
                if selected@.len() > 0 { SlotClick::Assigned } else { SlotClick::Ignored }
            } else {
                SlotClick::Recalled
            }),
            final(groups).groups[i as int]@ == (if r == SlotClick::Assigned { selected@ } else { old(groups).groups[i as int]@ }),
            final(self).recall == old(self).recall,
            final(self).active_group == (if r == SlotClick::Ignored { old(self).active_group } else { Some(i) }),
    {
        let r = groups.slot_click(i, right_click, selected);
        match r {
            SlotClick::Ignored => {},
            _ => {
                self.active_group = Some(i);
            },
        }
        r
    }
}

/// Per-kind tally of a player's units.
#[derive(Clone, Copy, PartialEq, Eq, Debug)]
pub struct UnitCount {
    pub kind: u32,
    pub total: u32,
    pub idle_workers: u32,
}

/// One unit as seen by the army overview: its kind, its faction, and
/// whether it is a worker with nothing to do.
#[derive(Clone, Copy, PartialEq, Eq, Debug)]
pub struct UnitCensusEntry {
    pub kind: u32,
    pub faction: u8,
    pub is_idle_worker: bool,
}

/// Tally after taking in `units` (the owned ones), kinds in order of first
/// appearance.
pub open spec fn tally(units: Seq<UnitCensusEntry>, faction: u8) -> Seq<UnitCount>
    decreases units.len(),
{
    if units.len() == 0 {
        Seq::empty()
    } else {
        let prev = tally(units.drop_last(), faction);
        let u = units.last();
        if u.faction != faction {
            prev
        } else {
            let i = index_of_kind(prev, u.kind, 0);
            let add = if u.is_idle_worker { 1int } else { 0int };
            if i < prev.len() {
                prev.update(
                    i,
                    UnitCount {
                        kind: u.kind,
                        total: (prev[i].total + 1) as u32,
                        idle_workers: (prev[i].idle_workers + add) as u32,
                    },
                )
            } else {
                prev.push(UnitCount { kind: u.kind, total: 1, idle_workers: add as u32 })
            }
        }
    }
}

pub open spec fn index_of_kind(counts: Seq<UnitCount>, kind: u32, i: int) -> int
    decreases counts.len() - i,
{
    if i < 0 || i >= counts.len() {
        counts.len() as int
    } else if counts[i].kind == kind {
        i
    } else {
        index_of_kind(counts, kind, i + 1)
    }
}

proof fn lemma_tally_bounds(units: Seq<UnitCensusEntry>, faction: u8)
    requires
        units.len() < u32::MAX,
    ensures
        forall|k: int| 0 <= k < tally(units, faction).len() ==> #[trigger] tally(units, faction)[k].total <= units.len()
            && tally(units, faction)[k].idle_workers <= tally(units, faction)[k].total,
    decreases units.len(),
{
    if units.len() > 0 {
        lemma_tally_bounds(units.drop_last(), faction);
        let prev = tally(units.drop_last(), faction);
        lemma_index_of_kind_bounds(prev, units.last().kind, 0);
    }
}

proof fn lemma_index_of_kind_bounds(counts: Seq<UnitCount>, kind: u32, i: int)
    requires
        0 <= i <= counts.len(),
    ensures
        i <= index_of_kind(counts, kind, i) <= counts.len(),
        index_of_kind(counts, kind, i) < counts.len() ==> counts[index_of_kind(counts, kind, i)].kind == kind,
    decreases counts.len() - i,
{
    if i < counts.len() && counts[i].kind != kind {
        lemma_index_of_kind_bounds(counts, kind, i + 1);
    }
}

/// Counts the units of `faction` per kind, with the idle workers among
/// them; kinds appear in order of their first unit.
pub fn count_player_units(units: &Vec<UnitCensusEntry>, faction: u8) -> (r: Vec<UnitCount>)
    requires
        units@.len() < u32::MAX,
    ensures
        r@ == tally(units@, faction),
{
    let mut counts: Vec<UnitCount> = Vec::new();
    let mut n: usize = 0;
    while n < units.len()
        invariant
            n <= units@.len(),
            units@.len() < u32::MAX,
            counts@ == tally(units@.take(n as int), faction),
        decreases units@.len() - n,
    {
        let u = units[n];
        proof {
            assert(units@.take(n + 1).drop_last() =~= units@.take(n as int));
            lemma_tally_bounds(units@.take(n as int), faction);
        }
        if u.faction == faction {
            let mut i: usize = 0;
            while i < counts.len() && counts[i].kind != u.kind
                invariant
                    i <= counts@.len(),
                    index_of_kind(counts@, u.kind, i as int) == index_of_kind(counts@, u.kind, 0),
                decreases counts@.len() - i,
            {
                i += 1;
            }
            let add: u32 = if u.is_idle_worker { 1 } else { 0 };
            if i < counts.len() {
                let c = counts[i];
                counts.set(i, UnitCount { kind: u.kind, total: c.total + 1, idle_workers: c.idle_workers + add });
            } else {
                counts.push(UnitCount { kind: u.kind, total: 1, idle_workers: add });
            }
        }
        n += 1;
    }
    assert(units@.take(units@.len() as int) =~= units@);
    counts
}

/// Onboarding hint `i` of the schedule may show: its time has come and it
/// was not shown before.
pub open spec fn hint_ready(hints: Seq<(bool, u8)>, shown: Seq<u8>, i: int) -> bool {
    hints[i].0 && !shown.contains(hints[i].1)
}

fn shown_contains(shown: &Vec<u8>, id: u8) -> (r: bool)
    ensures
        r == shown@.contains(id),
{
    let mut i: usize = 0;
    while i < shown.len()
        invariant
            i <= shown@.len(),
            forall|j: int| 0 <= j < i ==> shown@[j] != id,
        decreases shown@.len() - i,
    {
        if shown[i] == id {
            assert(shown@[i as int] == id);
            return true;
        }
        i += 1;
    }
    false
}

/// The onboarding hint to show now: the first in schedule order whose time
/// has come (`hints[i].0`) and whose id (`hints[i].1`) is not among the
/// hints already shown; none when there is no such hint.
pub fn next_hint(hints: &Vec<(bool, u8)>, shown: &Vec<u8>) -> (r: Option<usize>)
    ensures
        match r {
            Some(i) => i < hints@.len() && hint_ready(hints@, shown@, i as int) && forall|j: int|
                0 <= j < i ==> !hint_ready(hints@, shown@, j),
            None => forall|j: int| 0 <= j < hints@.len() ==> !hint_ready(hints@, shown@, j),
        },
{
    let mut i: usize = 0;
    while i < hints.len()
        invariant
            i <= hints@.len(),
            forall|j: int| 0 <= j < i ==> !hint_ready(hints@, shown@, j),
        decreases hints@.len() - i,
    {
        let (due, id) = hints[i];
        if due && !shown_contains(shown, id) {
            return Some(i);
        }
        i += 1;
    }
    None
}

/// Onboarding hints are only offered during the first three minutes of
/// play (in milliseconds).
pub const HINT_CUTOFF_MS: u64 = 180000;

/// The onboarding hints: when each is due (milliseconds of play) and its
/// id, in schedule order.
pub fn onboarding_hints() -> (r: Vec<(u64, u8)>)
    ensures
        r@ == seq![(5000u64, 0u8), (30000u64, 1u8), (60000u64, 2u8), (100000u64, 3u8), (150000u64, 4u8)],
{
    let mut r: Vec<(u64, u8)> = Vec::new();
    r.push((5000, 0));
    r.push((30000, 1));
    r.push((60000, 2));
    r.push((100000, 3));
    r.push((150000, 4));
    r
}

/// Hint `i` of `schedule` is due at `elapsed_ms` and was not shown yet.
pub open spec fn hint_due(schedule: Seq<(u64, u8)>, shown: Seq<u8>, elapsed_ms: u64, i: int) -> bool {
    schedule[i].0 <= elapsed_ms && !shown.contains(schedule[i].1)
}

/// What the hint overlay does this frame.
#[derive(Clone, Copy, PartialEq, Eq, Debug)]
pub enum HintStep {
    /// Past the cut-off: remove any overlay and forget the active hint.
    Clear,
    /// Show hint `i` of the schedule (replacing any overlay).
    Show(usize),
    /// Nothing new to show.
    Keep,
}

/// One frame of the onboarding hints at `elapsed_ms` of play: past the
/// cut-off everything is cleared; otherwise the first due hint not shown
/// yet is shown and its id recorded in `shown`, so no hint is ever shown
/// twice.
pub fn hint_step(elapsed_ms: u64, schedule: &Vec<(u64, u8)>, shown: &mut Vec<u8>) -> (r: HintStep)
    ensures
        elapsed_ms > HINT_CUTOFF_MS ==> r == HintStep::Clear && final(shown)@ == old(shown)@,
        elapsed_ms <= HINT_CUTOFF_MS ==> match r {
            HintStep::Show(i) => {
                &&& i < schedule@.len()
                &&& hint_due(schedule@, old(shown)@, elapsed_ms, i as int)
                &&& forall|j: int| 0 <= j < i ==> !hint_due(schedule@, old(shown)@, elapsed_ms, j)
                &&& final(shown)@ == old(shown)@.push(schedule@[i as int].1)
            },
            HintStep::Keep => {
                &&& forall|j: int| 0 <= j < schedule@.len() ==> !hint_due(schedule@, old(shown)@, elapsed_ms, j)
                &&& final(shown)@ == old(shown)@
            },
            HintStep::Clear => false,
        },
{
    if elapsed_ms > HINT_CUTOFF_MS {
        return HintStep::Clear;
    }
    let mut i: usize = 0;
    while i < schedule.len()
        invariant
            elapsed_ms <= HINT_CUTOFF_MS,
            i <= schedule@.len(),
            shown@ == old(shown)@,
            forall|j: int| 0 <= j < i ==> !hint_due(schedule@, old(shown)@, elapsed_ms, j),
        decreases schedule@.len() - i,
    {
        let (due_at, id) = schedule[i];
        if due_at <= elapsed_ms && !shown_contains(shown, id) {
            shown.push(id);
            return HintStep::Show(i);
        }
        i += 1;
    }
    HintStep::Keep
}

/// Law: a hint whose id was recorded as shown is never due again, and
/// every hint step keeps the ids already recorded; so each hint is shown
/// at most once.
pub proof fn lemma_hint_shown_once(schedule: Seq<(u64, u8)>, shown: Seq<u8>, more: Seq<u8>, elapsed_ms: u64, i: int)
    requires
        0 <= i < schedule.len(),
        shown.contains(schedule[i].1),
    ensures
        !hint_due(schedule, shown + more, elapsed_ms, i),
{
    let k = choose|k: int| 0 <= k < shown.len() && shown[k] == schedule[i].1;
    assert((shown + more)[k] == schedule[i].1);
}

} // verus!
