//! Multi-monitor overlay window orchestration: the pure part.
//!
//! The static `overlay` window always serves the monitor where the cursor is
//! when annotation activates. Additional monitors get dynamic windows
//! `overlay-2`, `overlay-3`, ... Window labels are the ownership handles used
//! by the timeline; the registry maps label to monitor.

use vstd::prelude::*;
use crate::monitor::{point_in_rect, rect_contains};
use crate::stable_sort::{is_stable_order, stable_sort_indices};
use crate::text::{
    decimal, has_prefix, lemma_decimal_injective, lemma_parse_decimal_round_trip, lemma_text_less_irreflexive,
    lemma_text_less_total, lemma_text_less_transitive, parse_decimal_usize, parse_usize, push_decimal,
    starts_with, tail_from, text_eq, text_less, text_lt,
};

verus! {

/// A connected monitor in physical pixels.
///
/// The display scale factor is held twice: exactly, as the bit pattern of
/// the IEEE double the OS reports (`scale_bits`), and as that factor times
/// 100, rounded (`scale_percent`: `1.5` is `150`). Geometry and topology
/// comparisons go through the rounded percentage; telling one monitor from
/// another compares the exact factor.
#[derive(Debug, Clone, PartialEq)]
pub struct MonitorSpec {
    pub x: i32,
    pub y: i32,
    pub width: u32,
    pub height: u32,
    pub scale_bits: u64,
    pub scale_percent: i32,
    /// OS-reported name. Renumbered on Windows after replug, so topology
    /// matching uses geometry first and only falls back to the name.
    pub name: Option<String>,
}

/// Mathematical content of a [`MonitorSpec`].
pub struct MonitorModel {
    pub x: i32,
    pub y: i32,
    pub width: u32,
    pub height: u32,
    pub scale_bits: u64,
    pub scale_percent: i32,
    pub name: Option<Seq<char>>,
}

pub open spec fn name_model(name: Option<String>) -> Option<Seq<char>> {
    match name {
        Some(s) => Some(s@),
        None => None,
    }
}

impl View for MonitorSpec {
    type V = MonitorModel;

    open spec fn view(&self) -> MonitorModel {
        MonitorModel {
            x: self.x,
            y: self.y,
            width: self.width,
            height: self.height,
            scale_bits: self.scale_bits,
            scale_percent: self.scale_percent,
            name: name_model(self.name),
        }
    }
}

/// The point lies in the monitor's half-open rectangle.
pub open spec fn contains(m: MonitorModel, x: i32, y: i32) -> bool {
    rect_contains(m.x, m.y, m.width, m.height, x, y)
}

/// Geometry identity (position, size, scale); deliberately excludes the OS
/// name, which Windows renumbers across replug.
pub open spec fn same_geometry(a: MonitorModel, b: MonitorModel) -> bool {
    &&& a.x == b.x
    &&& a.y == b.y
    &&& a.width == b.width
    &&& a.height == b.height
    &&& a.scale_percent == b.scale_percent
}

/// The bits of an IEEE double that is NaN: exponent all ones, fraction not
/// zero.
pub open spec fn is_nan_bits(b: u64) -> bool {
    &&& (b >> 52u64) & 0x7ffu64 == 0x7ffu64
    &&& b & 0xf_ffff_ffff_ffffu64 != 0
}

/// `==` on two IEEE doubles given by their bits: a NaN equals nothing, not
/// even itself; `+0.0` equals `-0.0`; otherwise equal bits.
pub open spec fn double_eq(a: u64, b: u64) -> bool {
    &&& !is_nan_bits(a)
    &&& !is_nan_bits(b)
    &&& (a == b || (a & 0x7fff_ffff_ffff_ffffu64 == 0 && b & 0x7fff_ffff_ffff_ffffu64 == 0))
}

/// The same monitor: position, size, exact scale factor (compared as
/// doubles) and name all equal.
pub open spec fn same_monitor(a: MonitorModel, b: MonitorModel) -> bool {
    &&& a.x == b.x
    &&& a.y == b.y
    &&& a.width == b.width
    &&& a.height == b.height
    &&& double_eq(a.scale_bits, b.scale_bits)
    &&& a.name == b.name
}

fn is_nan_bits_exec(b: u64) -> (r: bool)
    ensures
        r == is_nan_bits(b),
{
    (b >> 52u64) & 0x7ffu64 == 0x7ffu64 && b & 0xf_ffff_ffff_ffffu64 != 0
}

fn double_eq_exec(a: u64, b: u64) -> (r: bool)
    ensures
        r == double_eq(a, b),
{
    !is_nan_bits_exec(a) && !is_nan_bits_exec(b) && (a == b || (a & 0x7fff_ffff_ffff_ffffu64 == 0
        && b & 0x7fff_ffff_ffff_ffffu64 == 0))
}

/// Arrangement-relative identity: position relative to `origin`, size, scale.
pub open spec fn topology_key_of(m: MonitorModel, origin: (i32, i32)) -> (int, int, u32, u32, i32) {
    (m.x - origin.0, m.y - origin.1, m.width, m.height, m.scale_percent)
}

fn copy_name_exec(name: &Option<String>) -> (r: Option<String>)
    ensures
        name_model(r) == name_model(*name),
{
    match name {
        Some(s) => Some(s.clone()),
        None => None,
    }
}

fn same_name(a: &Option<String>, b: &Option<String>) -> (r: bool)
    ensures
        r == (name_model(*a) == name_model(*b)),
{
    match (a, b) {
        (Some(x), Some(y)) => x.eq(y),
        (None, None) => true,
        _ => false,
    }
}

impl MonitorSpec {
    /// Whether `(x, y)` lies in the monitor: left and top edges included,
    /// right and bottom edges excluded. The edges are taken on exact
    /// integers.
    pub fn contains_point(&self, x: i32, y: i32) -> (b: bool)
        ensures
            b == contains(self@, x, y),
    {
        point_in_rect(self.x, self.y, self.width, self.height, x, y)
    }

    /// Same position, size and scale.
    pub fn same_geometry(&self, other: &MonitorSpec) -> (b: bool)
        ensures
            b == same_geometry(self@, other@),
    {
        self.x == other.x && self.y == other.y && self.width == other.width
            && self.height == other.height && self.scale_percent == other.scale_percent
    }

    /// Position relative to `origin` (the topology's bounding-box corner),
    /// size and scale.
    pub fn topology_key(&self, origin: (i32, i32)) -> (k: (i32, i32, u32, u32, i32))
        requires
            i32::MIN <= self.x - origin.0 <= i32::MAX,
            i32::MIN <= self.y - origin.1 <= i32::MAX,
        ensures
            (k.0 as int, k.1 as int, k.2, k.3, k.4) == topology_key_of(self@, origin),
    {
        (self.x - origin.0, self.y - origin.1, self.width, self.height, self.scale_percent)
    }

    /// Position, size, exact scale factor and name equal; the factors are
    /// compared as doubles, the names by their characters.
    pub fn same_monitor(&self, other: &MonitorSpec) -> (b: bool)
        ensures
            b == same_monitor(self@, other@),
    {
        self.x == other.x && self.y == other.y && self.width == other.width
            && self.height == other.height && double_eq_exec(self.scale_bits, other.scale_bits)
            && same_name(&self.name, &other.name)
    }

    /// A copy with the same fields.
    pub fn duplicate(&self) -> (r: MonitorSpec)
        ensures
            r@ == self@,
    {
        MonitorSpec {
            x: self.x,
            y: self.y,
            width: self.width,
            height: self.height,
            scale_bits: self.scale_bits,
            scale_percent: self.scale_percent,
            name: copy_name_exec(&self.name),
        }
    }
}

/// The least `x` and least `y` over the monitors; `(0, 0)` for none.
pub open spec fn min_x(specs: Seq<MonitorModel>) -> int
    decreases specs.len(),
{
    if specs.len() == 0 {
        0
    } else if specs.len() == 1 {
        specs[0].x as int
    } else {
        let m = min_x(specs.drop_last());
        if (specs.last().x as int) < m { specs.last().x as int } else { m }
    }
}

pub open spec fn min_y(specs: Seq<MonitorModel>) -> int
    decreases specs.len(),
{
    if specs.len() == 0 {
        0
    } else if specs.len() == 1 {
        specs[0].y as int
    } else {
        let m = min_y(specs.drop_last());
        if (specs.last().y as int) < m { specs.last().y as int } else { m }
    }
}

pub open spec fn models(specs: Seq<MonitorSpec>) -> Seq<MonitorModel> {
    specs.map_values(|m: MonitorSpec| m@)
}

/// The top-left corner of the topology's bounding box: least `x`, least `y`;
/// `(0, 0)` when there is no monitor.
pub fn topology_origin(specs: &[MonitorSpec]) -> (o: (i32, i32))
    ensures
        o.0 as int == min_x(models(specs@)),
        o.1 as int == min_y(models(specs@)),
{
    let n = specs.len();
    if n == 0 {
        return (0, 0);
    }
    let mut mx = specs[0].x;
    let mut my = specs[0].y;
    let mut i: usize = 1;
    assert(models(specs@).take(1) =~= seq![specs@[0]@]);
    while i < n
        invariant
            n == specs@.len(),
            1 <= i <= n,
            mx as int == min_x(models(specs@).take(i as int)),
            my as int == min_y(models(specs@).take(i as int)),
        decreases n - i,
    {
        let ghost t = models(specs@).take(i as int + 1);
        assert(t.drop_last() =~= models(specs@).take(i as int));
        if specs[i].x < mx {
            mx = specs[i].x;
        }
        if specs[i].y < my {
            my = specs[i].y;
        }
        i = i + 1;
    }
    assert(models(specs@).take(n as int) =~= models(specs@));
    (mx, my)
}


/// One topology difference between two enumerations.
#[derive(Debug, Clone, PartialEq)]
pub enum TopoChange {
    /// Monitor present in `new` with no counterpart in `old`.
    Added(MonitorSpec),
    /// Monitor present in `old` with no counterpart in `new`.
    Removed(MonitorSpec),
    /// Matched monitor whose bounds or scale changed.
    Repositioned { from: MonitorSpec, to: MonitorSpec },
}

/// Mathematical content of a [`TopoChange`].
pub enum TopoChangeModel {
    Added(MonitorModel),
    Removed(MonitorModel),
    Repositioned { from: MonitorModel, to: MonitorModel },
}

impl View for TopoChange {
    type V = TopoChangeModel;

    open spec fn view(&self) -> TopoChangeModel {
        match self {
            TopoChange::Added(m) => TopoChangeModel::Added(m@),
            TopoChange::Removed(m) => TopoChangeModel::Removed(m@),
            TopoChange::Repositioned { from, to } => TopoChangeModel::Repositioned {
                from: from@,
                to: to@,
            },
        }
    }
}

pub open spec fn change_models(changes: Seq<TopoChange>) -> Seq<TopoChangeModel> {
    changes.map_values(|c: TopoChange| c@)
}

/// The first index `i >= from` of `new` not yet used whose monitor has the
/// same geometry as `o`.
pub open spec fn first_geometry_match(new: Seq<MonitorModel>, used: Seq<bool>, o: MonitorModel, from: int) -> Option<int>
    decreases new.len() - from,
{
    if from < 0 || from >= new.len() {
        None
    } else if !used[from] && same_geometry(new[from], o) {
        Some(from)
    } else {
        first_geometry_match(new, used, o, from + 1)
    }
}

/// The first index `i >= from` of `new` not yet used whose monitor carries
/// the name `name`.
pub open spec fn first_name_match(new: Seq<MonitorModel>, used: Seq<bool>, name: Seq<char>, from: int) -> Option<int>
    decreases new.len() - from,
{
    if from < 0 || from >= new.len() {
        None
    } else if !used[from] && new[from].name == Some(name) {
        Some(from)
    } else {
        first_name_match(new, used, name, from + 1)
    }
}

/// The counterpart of `o` among the unused monitors of `new`: by geometry
/// first, by OS name second.
pub open spec fn counterpart(new: Seq<MonitorModel>, used: Seq<bool>, o: MonitorModel) -> Option<int> {
    match first_geometry_match(new, used, o, 0) {
        Some(i) => Some(i),
        None => match o.name {
            Some(name) => first_name_match(new, used, name, 0),
            None => None,
        },
    }
}

/// Walks `old` in order, pairing each monitor with its counterpart in `new`:
/// which monitors of `new` are taken, and the removals and repositionings
/// found so far.
pub open spec fn pair_old(old: Seq<MonitorModel>, new: Seq<MonitorModel>) -> (Seq<bool>, Seq<TopoChangeModel>)
    decreases old.len(),
{
    if old.len() == 0 {
        (Seq::new(new.len(), |i: int| false), seq![])
    } else {
        let (used, changes) = pair_old(old.drop_last(), new);
        let o = old.last();
        match counterpart(new, used, o) {
            Some(i) => (
                used.update(i, true),
                if same_geometry(o, new[i]) {
                    changes
                } else {
                    changes.push(TopoChangeModel::Repositioned { from: o, to: new[i] })
                },
            ),
            None => (used, changes.push(TopoChangeModel::Removed(o))),
        }
    }
}

/// The monitors among the first `k` of `new` that no old monitor took, in
/// order, as additions.
pub open spec fn additions(new: Seq<MonitorModel>, used: Seq<bool>, k: int) -> Seq<TopoChangeModel>
    decreases k,
{
    if k <= 0 {
        seq![]
    } else if used[k - 1] {
        additions(new, used, k - 1)
    } else {
        additions(new, used, k - 1).push(TopoChangeModel::Added(new[k - 1]))
    }
}

/// The topology diff: removals and repositionings in the order of `old`, then
/// additions in the order of `new`.
pub open spec fn topology_diff(old: Seq<MonitorModel>, new: Seq<MonitorModel>) -> Seq<TopoChangeModel> {
    let (used, changes) = pair_old(old, new);
    changes + additions(new, used, new.len() as int)
}

proof fn lemma_pair_old_used_len(old: Seq<MonitorModel>, new: Seq<MonitorModel>)
    ensures
        pair_old(old, new).0.len() == new.len(),
    decreases old.len(),
{
    if old.len() > 0 {
        lemma_pair_old_used_len(old.drop_last(), new);
        lemma_counterpart_in_range(new, pair_old(old.drop_last(), new).0, old.last());
    }
}

proof fn lemma_first_geometry_in_range(new: Seq<MonitorModel>, used: Seq<bool>, o: MonitorModel, from: int)
    requires
        used.len() == new.len(),
    ensures
        first_geometry_match(new, used, o, from) matches Some(i) ==> from <= i < new.len() && !used[i]
            && same_geometry(new[i], o),
    decreases new.len() - from,
{
    if 0 <= from < new.len() {
        lemma_first_geometry_in_range(new, used, o, from + 1);
    }
}

proof fn lemma_first_name_in_range(new: Seq<MonitorModel>, used: Seq<bool>, name: Seq<char>, from: int)
    requires
        used.len() == new.len(),
    ensures
        first_name_match(new, used, name, from) matches Some(i) ==> from <= i < new.len() && !used[i],
    decreases new.len() - from,
{
    if 0 <= from < new.len() {
        lemma_first_name_in_range(new, used, name, from + 1);
    }
}

proof fn lemma_counterpart_in_range(new: Seq<MonitorModel>, used: Seq<bool>, o: MonitorModel)
    requires
        used.len() == new.len(),
    ensures
        counterpart(new, used, o) matches Some(i) ==> 0 <= i < new.len() && !used[i],
{
    lemma_first_geometry_in_range(new, used, o, 0);
    if let Some(name) = o.name {
        lemma_first_name_in_range(new, used, name, 0);
    }
}

/// The counterpart of `o` among the unused monitors of `new`.
fn find_counterpart(new: &[MonitorSpec], used: &Vec<bool>, o: &MonitorSpec) -> (r: Option<usize>)
    requires
        used@.len() == new@.len(),
    ensures
        match r {
            Some(i) => counterpart(models(new@), used@, o@) == Some(i as int),
            None => counterpart(models(new@), used@, o@) is None,
        },
{
    let n = new.len();
    let ghost nm = models(new@);
    let mut i: usize = 0;
    while i < n
        invariant
            n == new@.len(),
            nm == models(new@),
            used@.len() == n,
            i <= n,
            first_geometry_match(nm, used@, o@, 0) == first_geometry_match(nm, used@, o@, i as int),
        decreases n - i,
    {
        if !used[i] && new[i].same_geometry(o) {
            return Some(i);
        }
        i = i + 1;
    }
    match &o.name {
        None => None,
        Some(name) => {
            let mut j: usize = 0;
            while j < n
                invariant
                    n == new@.len(),
                    nm == models(new@),
                    used@.len() == n,
                    j <= n,
                    first_geometry_match(nm, used@, o@, 0) is None,
                    o@.name == Some(name@),
                    first_name_match(nm, used@, name@, 0) == first_name_match(nm, used@, name@, j as int),
                decreases n - j,
            {
                if !used[j] {
                    if let Some(nn) = &new[j].name {
                        if nn.eq(name) {
                            return Some(j);
                        }
                    }
                }
                j = j + 1;
            }
            None
        },
    }
}

/// Diff two monitor topologies. Each old monitor is paired with an unused new
/// one: same geometry first, same OS name second (names survive resolution
/// changes within a session). Pairs whose geometry differs are reported as
/// repositioned; exact pairs emit nothing; unpaired old monitors are removed
/// and unpaired new monitors added.
///
/// Two topology keys taken against one origin agree exactly when position,
/// size and scale agree (see [`lemma_topology_key_match_is_geometry_match`]),
/// so the geometry pass compares those directly.
pub fn diff_topology(old: &[MonitorSpec], new: &[MonitorSpec]) -> (changes: Vec<TopoChange>)
    ensures
        change_models(changes@) == topology_diff(models(old@), models(new@)),
{
    let ghost om = models(old@);
    let ghost nm = models(new@);
    let n = new.len();
    let mut used: Vec<bool> = Vec::new();
    let mut k: usize = 0;
    while k < n
        invariant
            n == new@.len(),
            k <= n,
            used@.len() == k,
            forall|j: int| 0 <= j < k ==> !#[trigger] used@[j],
        decreases n - k,
    {
        used.push(false);
        k = k + 1;
    }
    let mut changes: Vec<TopoChange> = Vec::new();
    proof {
        assert(used@ =~= pair_old(om.take(0), nm).0);
        assert(change_models(changes@) =~= pair_old(om.take(0), nm).1);
    }
    let m = old.len();
    let mut i: usize = 0;
    while i < m
        invariant
            m == old@.len(),
            n == new@.len(),
            om == models(old@),
            nm == models(new@),
            i <= m,
            used@ == pair_old(om.take(i as int), nm).0,
            change_models(changes@) == pair_old(om.take(i as int), nm).1,
        decreases m - i,
    {
        proof {
            lemma_pair_old_used_len(om.take(i as int), nm);
            assert(om.take(i as int + 1).drop_last() =~= om.take(i as int));
            assert(om.take(i as int + 1).last() == old@[i as int]@);
        }
        let o = &old[i];
        let ghost pre_changes = changes@;
        match find_counterpart(new, &used, o) {
            Some(j) => {
                proof {
                    lemma_counterpart_in_range(nm, used@, o@);
                }
                used.set(j, true);
                if !o.same_geometry(&new[j]) {
                    changes.push(TopoChange::Repositioned { from: o.duplicate(), to: new[j].duplicate() });
                }
            },
            None => {
                changes.push(TopoChange::Removed(o.duplicate()));
            },
        }
        proof {
            assert(change_models(changes@) =~= pair_old(om.take(i as int + 1), nm).1);
        }
        i = i + 1;
    }
    proof {
        assert(om.take(m as int) =~= om);
        lemma_pair_old_used_len(om, nm);
    }
    let ghost base = change_models(changes@);
    let mut j: usize = 0;
    while j < n
        invariant
            n == new@.len(),
            nm == models(new@),
            j <= n,
            used@ == pair_old(om, nm).0,
            used@.len() == n,
            change_models(changes@) == base + additions(nm, used@, j as int),
        decreases n - j,
    {
        let ghost before = changes@;
        if !used[j] {
            changes.push(TopoChange::Added(new[j].duplicate()));
            proof {
                assert(changes@ == before.push(changes@.last()));
                assert(change_models(changes@) =~= change_models(before).push(changes@.last()@));
            }
        }
        proof {
            assert(nm[j as int] == new@[j as int]@);
            assert(change_models(changes@) =~= base + additions(nm, used@, j as int + 1));
        }
        j = j + 1;
    }
    changes
}

proof fn lemma_first_geometry_skips_used(new: Seq<MonitorModel>, used: Seq<bool>, o: MonitorModel, from: int, i: int)
    requires
        0 <= from <= i < new.len(),
        used.len() == new.len(),
        forall|j: int| from <= j < i ==> #[trigger] used[j],
        !used[i],
        same_geometry(new[i], o),
    ensures
        first_geometry_match(new, used, o, from) == Some(i),
    decreases i - from,
{
    if from < i {
        lemma_first_geometry_skips_used(new, used, o, from + 1, i);
    }
}

proof fn lemma_pair_old_identical(t: Seq<MonitorModel>, k: int)
    requires
        0 <= k <= t.len(),
    ensures
        pair_old(t.take(k), t).0 == Seq::new(t.len(), |j: int| j < k),
        pair_old(t.take(k), t).1 == Seq::<TopoChangeModel>::empty(),
    decreases k,
{
    if k == 0 {
        assert(pair_old(t.take(0), t).0 =~= Seq::new(t.len(), |j: int| j < 0));
    } else {
        lemma_pair_old_identical(t, k - 1);
        assert(t.take(k).drop_last() =~= t.take(k - 1));
        let used = Seq::new(t.len(), |j: int| j < k - 1);
        lemma_first_geometry_skips_used(t, used, t[k - 1], 0, k - 1);
        assert(pair_old(t.take(k), t).0 =~= Seq::new(t.len(), |j: int| j < k));
    }
}

proof fn lemma_additions_all_used(new: Seq<MonitorModel>, used: Seq<bool>, k: int)
    requires
        k <= used.len(),
        forall|j: int| 0 <= j < k ==> #[trigger] used[j],
    ensures
        additions(new, used, k) == Seq::<TopoChangeModel>::empty(),
    decreases k,
{
    if k > 0 {
        lemma_additions_all_used(new, used, k - 1);
    }
}

/// Diffing a topology against itself reports no change.
pub proof fn lemma_diff_of_identical_topologies_is_empty(t: Seq<MonitorModel>)
    ensures
        topology_diff(t, t) == Seq::<TopoChangeModel>::empty(),
{
    lemma_pair_old_identical(t, t.len() as int);
    assert(t.take(t.len() as int) =~= t);
    let used = pair_old(t, t).0;
    lemma_additions_all_used(t, used, t.len() as int);
    assert(topology_diff(t, t) =~= Seq::<TopoChangeModel>::empty());
}

proof fn lemma_pair_old_against_nothing(old: Seq<MonitorModel>)
    ensures
        pair_old(old, Seq::<MonitorModel>::empty()).1 == old.map_values(|m: MonitorModel| TopoChangeModel::Removed(m)),
        pair_old(old, Seq::<MonitorModel>::empty()).0.len() == 0,
    decreases old.len(),
{
    if old.len() > 0 {
        lemma_pair_old_against_nothing(old.drop_last());
        let used = pair_old(old.drop_last(), Seq::<MonitorModel>::empty()).0;
        lemma_counterpart_in_range(Seq::<MonitorModel>::empty(), used, old.last());
        assert(old.map_values(|m: MonitorModel| TopoChangeModel::Removed(m)) =~= old.drop_last().map_values(
            |m: MonitorModel| TopoChangeModel::Removed(m),
        ).push(TopoChangeModel::Removed(old.last())));
    } else {
        assert(pair_old(old, Seq::<MonitorModel>::empty()).1 =~= old.map_values(|m: MonitorModel| TopoChangeModel::Removed(m)));
    }
}

proof fn lemma_additions_of_unused(new: Seq<MonitorModel>, k: int)
    requires
        0 <= k <= new.len(),
    ensures
        additions(new, Seq::new(new.len(), |i: int| false), k) == new.take(k).map_values(
            |m: MonitorModel| TopoChangeModel::Added(m),
        ),
    decreases k,
{
    if k > 0 {
        lemma_additions_of_unused(new, k - 1);
        assert(new.take(k).map_values(|m: MonitorModel| TopoChangeModel::Added(m)) =~= new.take(k - 1).map_values(
            |m: MonitorModel| TopoChangeModel::Added(m),
        ).push(TopoChangeModel::Added(new[k - 1])));
    } else {
        assert(new.take(0).map_values(|m: MonitorModel| TopoChangeModel::Added(m)) =~= Seq::<TopoChangeModel>::empty());
    }
}

/// Against an empty old topology every monitor is added, in order; against
/// an empty new one every monitor is removed, in order.
pub proof fn lemma_diff_from_or_to_nothing(monitors: Seq<MonitorModel>)
    ensures
        topology_diff(Seq::empty(), monitors) == monitors.map_values(|m: MonitorModel| TopoChangeModel::Added(m)),
        topology_diff(monitors, Seq::empty()) == monitors.map_values(|m: MonitorModel| TopoChangeModel::Removed(m)),
{
    lemma_additions_of_unused(monitors, monitors.len() as int);
    assert(monitors.take(monitors.len() as int) =~= monitors);
    assert(topology_diff(Seq::empty(), monitors) =~= monitors.map_values(|m: MonitorModel| TopoChangeModel::Added(m)));
    lemma_pair_old_against_nothing(monitors);
    let (used, changes) = pair_old(monitors, Seq::<MonitorModel>::empty());
    assert(additions(Seq::<MonitorModel>::empty(), used, 0) == Seq::<TopoChangeModel>::empty());
    assert(topology_diff(monitors, Seq::empty()) =~= changes);
}

/// Two topology keys taken against the same origin agree exactly when the
/// monitors have the same geometry.
pub proof fn lemma_topology_key_match_is_geometry_match(a: MonitorModel, b: MonitorModel, origin: (i32, i32))
    ensures
        (topology_key_of(a, origin) == topology_key_of(b, origin)) == same_geometry(a, b),
{
}


/// Label of the static overlay window.
pub const PRIMARY_LABEL: &'static str = "overlay";

/// Lowest suffix of dynamic overlay windows (`overlay-2`, `overlay-3`, ...).
pub const DYNAMIC_LABEL_BASE: usize = 2;

/// The static window's label.
pub open spec fn primary_label() -> Seq<char> {
    "overlay"@
}

/// The label of dynamic overlay window number `i`: `overlay-<i>`.
pub open spec fn dynamic_label_of(i: nat) -> Seq<char> {
    "overlay-"@ + decimal(i)
}

/// The static window's label, as an owned string.
pub fn primary_label_string() -> (s: String)
    ensures
        s@ == primary_label(),
{
    String::from_str(PRIMARY_LABEL)
}

/// The label of dynamic overlay window number `i`.
pub fn dynamic_label(i: usize) -> (s: String)
    ensures
        s@ == dynamic_label_of(i as nat),
{
    let mut s = String::from_str("overlay-");
    push_decimal(&mut s, i as u64);
    s
}

/// Sort key of a window label: the static `overlay` (and any label that is
/// not `overlay-<number>`) as `(false, 0)`, `overlay-<n>` as `(true, n)`.
pub open spec fn label_key(label: Seq<char>) -> (bool, usize) {
    if has_prefix(label, "overlay-"@) {
        match parse_usize(label.subrange("overlay-"@.len() as int, label.len() as int)) {
            Some(n) => (true, n),
            None => (false, 0),
        }
    } else {
        (false, 0)
    }
}

/// Sorted overlay labels: static first, then numeric suffix order.
pub fn label_sort_key(label: &str) -> (k: (bool, usize))
    ensures
        k == label_key(label@),
{
    proof {
        reveal_strlit("overlay-");
    }
    if starts_with(label, "overlay-") {
        let rest = tail_from(label, 8);
        match parse_decimal_usize(rest) {
            Some(n) => (true, n),
            None => (false, 0),
        }
    } else {
        (false, 0)
    }
}

/// Every window gets its own label: the static label differs from every
/// dynamic one, and different numbers give different dynamic labels.
pub proof fn lemma_window_labels_distinct(i: nat, j: nat)
    ensures
        primary_label() != dynamic_label_of(i),
        i != j ==> dynamic_label_of(i) != dynamic_label_of(j),
{
    reveal_strlit("overlay");
    reveal_strlit("overlay-");
    assert(primary_label().len() == 7);
    assert(dynamic_label_of(i).len() >= 8);
    if dynamic_label_of(i) == dynamic_label_of(j) {
        assert(decimal(i) =~= dynamic_label_of(i).subrange(8, dynamic_label_of(i).len() as int));
        assert(decimal(j) =~= dynamic_label_of(j).subrange(8, dynamic_label_of(j).len() as int));
        lemma_decimal_injective(i, j);
    }
}

/// Sorting by [`label_key`] puts the static window first and the dynamic
/// windows in the order of their numbers.
pub proof fn lemma_label_keys_of_window_labels(n: usize)
    ensures
        label_key(primary_label()) == (false, 0usize),
        label_key(dynamic_label_of(n as nat)) == (true, n),
{
    reveal_strlit("overlay");
    reveal_strlit("overlay-");
    let l = dynamic_label_of(n as nat);
    assert(l.subrange(0, 8) =~= "overlay-"@);
    assert(l.subrange(8, l.len() as int) =~= decimal(n as nat));
    lemma_parse_decimal_round_trip(n);
}

/// The label key as a pair of integers ordered the same way.
pub open spec fn label_rank(label: Seq<char>) -> (u64, u64) {
    let k = label_key(label);
    (if k.0 { 1u64 } else { 0u64 }, k.1 as u64)
}

pub open spec fn label_ranks(labels: Seq<String>) -> Seq<(u64, u64)> {
    labels.map_values(|l: String| label_rank(l@))
}

/// The window order of `labels` (static `overlay` first, then `overlay-2`,
/// `overlay-3`, ... by number), as indices into `labels`; labels with equal
/// keys keep their order.
pub fn window_order(labels: &Vec<String>) -> (order: Vec<usize>)
    ensures
        is_stable_order(label_ranks(labels@), order@),
{
    let n = labels.len();
    let mut keys: Vec<(u64, u64)> = Vec::new();
    let mut i: usize = 0;
    while i < n
        invariant
            n == labels@.len(),
            i <= n,
            keys@ == label_ranks(labels@).take(i as int),
        decreases n - i,
    {
        let k = label_sort_key(labels[i].as_str());
        let rank: (u64, u64) = (if k.0 { 1 } else { 0 }, k.1 as u64);
        keys.push(rank);
        proof {
            assert(keys@ =~= label_ranks(labels@).take(i as int + 1));
        }
        i = i + 1;
    }
    proof {
        assert(keys@ =~= label_ranks(labels@));
    }
    stable_sort_indices(&keys)
}

/// The label names an overlay window: `overlay` or `overlay-...`.
pub open spec fn is_overlay_label(label: Seq<char>) -> bool {
    label == primary_label() || has_prefix(label, "overlay-"@)
}

/// The overlay labels among `labels`, in their order.
pub open spec fn overlay_labels_of(labels: Seq<Seq<char>>) -> Seq<Seq<char>>
    decreases labels.len(),
{
    if labels.len() == 0 {
        seq![]
    } else if is_overlay_label(labels.last()) {
        overlay_labels_of(labels.drop_last()).push(labels.last())
    } else {
        overlay_labels_of(labels.drop_last())
    }
}

pub open spec fn label_texts(labels: Seq<String>) -> Seq<Seq<char>> {
    labels.map_values(|l: String| l@)
}

pub open spec fn text_ranks(labels: Seq<Seq<char>>) -> Seq<(u64, u64)> {
    labels.map_values(|l: Seq<char>| label_rank(l))
}

/// Overlay window labels among `labels` (static `overlay` first, then
/// `overlay-2`, `overlay-3`, ...).
pub fn overlay_labels_in_order(labels: Vec<String>) -> (sorted: Vec<String>)
    ensures
        ({
            let kept = overlay_labels_of(label_texts(labels@));
            &&& sorted@.len() == kept.len()
            &&& exists|order: Seq<usize>|
                is_stable_order(text_ranks(kept), order) && forall|k: int|
                    0 <= k < sorted@.len() ==> #[trigger] sorted@[k]@ == kept[order[k] as int]
        }),
{
    let ghost texts = label_texts(labels@);
    let n = labels.len();
    let mut kept: Vec<String> = Vec::new();
    let mut i: usize = 0;
    while i < n
        invariant
            n == labels@.len(),
            texts == label_texts(labels@),
            i <= n,
            label_texts(kept@) == overlay_labels_of(texts.take(i as int)),
        decreases n - i,
    {
        let l = &labels[i];
        proof {
            assert(texts.take(i as int + 1).drop_last() =~= texts.take(i as int));
            assert(texts.take(i as int + 1).last() == l@);
        }
        if text_eq(l.as_str(), PRIMARY_LABEL) || starts_with(l.as_str(), "overlay-") {
            kept.push(l.clone());
            proof {
                assert(label_texts(kept@) =~= label_texts(kept@).drop_last().push(l@));
            }
        }
        proof {
            assert(label_texts(kept@) =~= overlay_labels_of(texts.take(i as int + 1)));
        }
        i = i + 1;
    }
    proof {
        assert(texts.take(n as int) =~= texts);
    }
    let order = window_order(&kept);
    let ghost kt = label_texts(kept@);
    proof {
        assert(label_ranks(kept@) =~= text_ranks(kt));
    }
    let m = kept.len();
    let mut sorted: Vec<String> = Vec::new();
    let mut k: usize = 0;
    while k < m
        invariant
            m == kept@.len(),
            kt == label_texts(kept@),
            is_stable_order(text_ranks(kt), order@),
            k <= m,
            sorted@.len() == k,
            forall|j: int| 0 <= j < k ==> #[trigger] sorted@[j]@ == kt[order@[j] as int],
        decreases m - k,
    {
        let idx = order[k];
        sorted.push(kept[idx].clone());
        k = k + 1;
    }
    sorted
}


/// The monitors of `ms` other than `cursor`, in order.
pub open spec fn others_than(ms: Seq<MonitorModel>, cursor: MonitorModel) -> Seq<MonitorModel>
    decreases ms.len(),
{
    if ms.len() == 0 {
        seq![]
    } else if same_monitor(ms.last(), cursor) {
        others_than(ms.drop_last(), cursor)
    } else {
        others_than(ms.drop_last(), cursor).push(ms.last())
    }
}

/// A coordinate moved onto the unsigned range, order kept.
pub open spec fn shifted(v: i32) -> u64 {
    (v as int + 0x8000_0000) as u64
}

/// Reading order key: top-to-bottom first, then left-to-right.
pub open spec fn reading_key(m: MonitorModel) -> (u64, u64) {
    (shifted(m.y), shifted(m.x))
}

pub open spec fn reading_keys(ms: Seq<MonitorModel>) -> Seq<(u64, u64)> {
    ms.map_values(|m: MonitorModel| reading_key(m))
}

fn shifted_exec(v: i32) -> (r: u64)
    ensures
        r == shifted(v),
{
    ((v as i64) + 0x8000_0000i64) as u64
}

/// Number of dynamic windows an activation pairs: one per monitor beyond
/// the first, and no more than there are monitors besides the cursor's.
pub open spec fn dynamic_count(n: int, others: int) -> int {
    let total = if n >= 1 { n - 1 } else { 0 };
    if total < others { total } else { others }
}

/// The first monitor of `monitors` that contains the point `(x, y)`.
pub fn monitor_at_point(monitors: &[MonitorSpec], x: i32, y: i32) -> (r: Option<usize>)
    ensures
        match r {
            Some(i) => i < monitors@.len() && contains(monitors@[i as int]@, x, y) && forall|j: int|
                0 <= j < i ==> !contains(#[trigger] monitors@[j]@, x, y),
            None => forall|j: int| 0 <= j < monitors@.len() ==> !contains(#[trigger] monitors@[j]@, x, y),
        },
{
    let n = monitors.len();
    let mut i: usize = 0;
    while i < n
        invariant
            n == monitors@.len(),
            i <= n,
            forall|j: int| 0 <= j < i ==> !contains(#[trigger] monitors@[j]@, x, y),
        decreases n - i,
    {
        if monitors[i].contains_point(x, y) {
            return Some(i);
        }
        i = i + 1;
    }
    None
}

proof fn lemma_others_than_len(ms: Seq<MonitorModel>, cursor: MonitorModel)
    ensures
        others_than(ms, cursor).len() <= ms.len(),
        (exists|k: int| 0 <= k < ms.len() && same_monitor(#[trigger] ms[k], cursor)) ==> others_than(ms, cursor).len()
            < ms.len(),
    decreases ms.len(),
{
    if ms.len() > 0 {
        lemma_others_than_len(ms.drop_last(), cursor);
        if (exists|k: int| 0 <= k < ms.len() && same_monitor(#[trigger] ms[k], cursor)) && !same_monitor(
            ms.last(),
            cursor,
        ) {
            let k = choose|k: int| 0 <= k < ms.len() && same_monitor(#[trigger] ms[k], cursor);
            assert(ms.drop_last()[k] == ms[k]);
        }
    }
}

/// When the cursor's monitor is among `monitors`, every other monitor gets a
/// dynamic window.
pub proof fn lemma_every_other_monitor_gets_a_window(ms: Seq<MonitorModel>, cursor: MonitorModel)
    requires
        exists|k: int| 0 <= k < ms.len() && same_monitor(#[trigger] ms[k], cursor),
    ensures
        dynamic_count(ms.len() as int, others_than(ms, cursor).len() as int) == others_than(ms, cursor).len(),
{
    lemma_others_than_len(ms, cursor);
}

/// Reading order: in a stable order of monitors by their reading keys, each
/// monitor comes before every later one that sits lower (greater `y`), and
/// on the same row before those further right (greater `x`); monitors at the
/// same position keep the order they came in.
pub proof fn lemma_reading_order(ms: Seq<MonitorModel>, order: Seq<usize>)
    requires
        is_stable_order(reading_keys(ms), order),
    ensures
        forall|a: int, b: int|
            #![trigger order[a], order[b]]
            0 <= a < b < order.len() ==> {
                let p = ms[order[a] as int];
                let q = ms[order[b] as int];
                &&& p.y < q.y || (p.y == q.y && p.x <= q.x)
                &&& p.y == q.y && p.x == q.x ==> order[a] < order[b]
            },
{
    let keys = reading_keys(ms);
    assert forall|a: int, b: int| #![trigger order[a], order[b]] 0 <= a < b < order.len() implies {
        let p = ms[order[a] as int];
        let q = ms[order[b] as int];
        &&& p.y < q.y || (p.y == q.y && p.x <= q.x)
        &&& p.y == q.y && p.x == q.x ==> order[a] < order[b]
    } by {
        let ia = order[a] as int;
        let ib = order[b] as int;
        assert(keys[ia] == reading_key(ms[ia]));
        assert(keys[ib] == reading_key(ms[ib]));
    }
}

/// Deterministic label assignment for one activation: the cursor's monitor is
/// served by the static `overlay` window; the remaining monitors pair with
/// dynamic labels `overlay-2`, `overlay-3`, ... in reading order
/// (top-to-bottom, left-to-right; equal positions keep their order).
pub fn assign_labels(monitors: &[MonitorSpec], cursor: &MonitorSpec) -> (pairs: Vec<(String, MonitorSpec)>)
    ensures
        ({
            let rest = others_than(models(monitors@), cursor@);
            &&& pairs@.len() == 1 + dynamic_count(monitors@.len() as int, rest.len() as int)
            &&& pairs@[0].0@ == primary_label()
            &&& pairs@[0].1@ == cursor@
            &&& forall|k: int| 1 <= k < pairs@.len() ==> #[trigger] pairs@[k].0@ == dynamic_label_of((k + 1) as nat)
            &&& exists|order: Seq<usize>|
                is_stable_order(reading_keys(rest), order) && forall|k: int|
                    1 <= k < pairs@.len() ==> #[trigger] pairs@[k].1@ == rest[order[k - 1] as int]
        }),
        forall|k: int, l: int|
            #![trigger pairs@[k], pairs@[l]]
            1 <= k < l < pairs@.len() ==> {
                let p = pairs@[k].1@;
                let q = pairs@[l].1@;
                p.y < q.y || (p.y == q.y && p.x <= q.x)
            },
{
    let ghost ms = models(monitors@);
    let n = monitors.len();
    let total_dynamic = n.saturating_sub(1);
    // Indices of the monitors other than the cursor's, and their reading keys.
    let mut rest: Vec<usize> = Vec::new();
    let mut keys: Vec<(u64, u64)> = Vec::new();
    let ghost mut rest_models: Seq<MonitorModel> = seq![];
    let mut i: usize = 0;
    while i < n
        invariant
            n == monitors@.len(),
            ms == models(monitors@),
            i <= n,
            rest_models == others_than(ms.take(i as int), cursor@),
            rest@.len() == rest_models.len(),
            keys@ == reading_keys(rest_models),
            forall|j: int| 0 <= j < rest@.len() ==> (#[trigger] rest@[j] as int) < n && ms[rest@[j] as int] == rest_models[j],
        decreases n - i,
    {
        proof {
            assert(ms.take(i as int + 1).drop_last() =~= ms.take(i as int));
            assert(ms.take(i as int + 1).last() == monitors@[i as int]@);
        }
        if !monitors[i].same_monitor(cursor) {
            rest.push(i);
            keys.push((shifted_exec(monitors[i].y), shifted_exec(monitors[i].x)));
            proof {
                rest_models = rest_models.push(monitors@[i as int]@);
                assert(keys@ =~= reading_keys(rest_models));
            }
        }
        i = i + 1;
    }
    proof {
        assert(ms.take(n as int) =~= ms);
    }
    let order = stable_sort_indices(&keys);
    let count = if total_dynamic < rest.len() { total_dynamic } else { rest.len() };
    let mut pairs: Vec<(String, MonitorSpec)> = Vec::new();
    pairs.push((primary_label_string(), cursor.duplicate()));
    let mut k: usize = 0;
    while k < count
        invariant
            n == monitors@.len(),
            ms == models(monitors@),
            count <= rest@.len(),
            count <= total_dynamic,
            total_dynamic < n || n == 0,
            rest@.len() == rest_models.len(),
            keys@ == reading_keys(rest_models),
            is_stable_order(keys@, order@),
            forall|j: int| 0 <= j < rest@.len() ==> (#[trigger] rest@[j] as int) < n && ms[rest@[j] as int] == rest_models[j],
            k <= count,
            pairs@.len() == k + 1,
            pairs@[0].0@ == primary_label(),
            pairs@[0].1@ == cursor@,
            forall|j: int| 1 <= j < pairs@.len() ==> #[trigger] pairs@[j].0@ == dynamic_label_of((j + 1) as nat),
            forall|j: int| 1 <= j < pairs@.len() ==> #[trigger] pairs@[j].1@ == rest_models[order@[j - 1] as int],
        decreases count - k,
    {
        let r = order[k];
        let idx = rest[r];
        let label = dynamic_label(k + 2);
        pairs.push((label, monitors[idx].duplicate()));
        k = k + 1;
    }
    proof {
        lemma_reading_order(rest_models, order@);
        assert forall|a: int, b: int|
            #![trigger pairs@[a], pairs@[b]]
            1 <= a < b < pairs@.len() implies {
                let p = pairs@[a].1@;
                let q = pairs@[b].1@;
                p.y < q.y || (p.y == q.y && p.x <= q.x)
            } by {
            assert(pairs@[a].1@ == rest_models[order@[a - 1] as int]);
            assert(pairs@[b].1@ == rest_models[order@[b - 1] as int]);
        }
    }
    pairs
}


/// Registry entry: which monitor a window currently serves.
#[derive(Debug, Clone)]
pub struct MonitorEntry {
    pub spec: MonitorSpec,
    /// Window currently hidden (session inactive or monitor lost).
    pub hidden: bool,
}

/// Mathematical content of a [`MonitorEntry`].
pub struct EntryModel {
    pub spec: MonitorModel,
    pub hidden: bool,
}

impl View for MonitorEntry {
    type V = EntryModel;

    open spec fn view(&self) -> EntryModel {
        EntryModel { spec: self.spec@, hidden: self.hidden }
    }
}

impl MonitorEntry {
    /// A copy with the same fields.
    pub fn duplicate(&self) -> (r: MonitorEntry)
        ensures
            r@ == self@,
    {
        MonitorEntry { spec: self.spec.duplicate(), hidden: self.hidden }
    }
}

/// The registry's content: `(label, entry)` pairs.
pub open spec fn entry_models(entries: Seq<(String, MonitorEntry)>) -> Seq<(Seq<char>, EntryModel)> {
    entries.map_values(|e: (String, MonitorEntry)| (e.0@, e.1@))
}

/// Labels strictly increasing: each label at most once, in label order.
pub open spec fn sorted_by_label(s: Seq<(Seq<char>, EntryModel)>) -> bool {
    forall|i: int, j: int| 0 <= i < j < s.len() ==> text_less(#[trigger] s[i].0, #[trigger] s[j].0)
}

/// The entry under `label`, if any.
pub open spec fn lookup(s: Seq<(Seq<char>, EntryModel)>, label: Seq<char>) -> Option<EntryModel>
    decreases s.len(),
{
    if s.len() == 0 {
        None
    } else if s.last().0 == label {
        Some(s.last().1)
    } else {
        lookup(s.drop_last(), label)
    }
}

/// label to assignment, kept in label order.
pub struct MonitorRegistry {
    entries: Vec<(String, MonitorEntry)>,
}

impl View for MonitorRegistry {
    type V = Seq<(Seq<char>, EntryModel)>;

    closed spec fn view(&self) -> Seq<(Seq<char>, EntryModel)> {
        entry_models(self.entries@)
    }
}

proof fn lemma_lookup_at(s: Seq<(Seq<char>, EntryModel)>, i: int)
    requires
        sorted_by_label(s),
        0 <= i < s.len(),
    ensures
        lookup(s, s[i].0) == Some(s[i].1),
    decreases s.len(),
{
    if i < s.len() - 1 {
        assert(text_less(s[i].0, s[s.len() - 1].0));
        lemma_text_less_irreflexive(s[i].0);
        let t = s.drop_last();
        assert(t[i] == s[i]);
        lemma_lookup_at(t, i);
    }
}

proof fn lemma_lookup_absent(s: Seq<(Seq<char>, EntryModel)>, label: Seq<char>)
    requires
        forall|i: int| 0 <= i < s.len() ==> #[trigger] s[i].0 != label,
    ensures
        lookup(s, label) is None,
    decreases s.len(),
{
    if s.len() > 0 {
        let t = s.drop_last();
        assert forall|i: int| 0 <= i < t.len() implies #[trigger] t[i].0 != label by {
            assert(t[i] == s[i]);
        }
        lemma_lookup_absent(t, label);
    }
}

proof fn lemma_lookup_found(s: Seq<(Seq<char>, EntryModel)>, label: Seq<char>)
    ensures
        lookup(s, label) matches Some(e) ==> exists|i: int| 0 <= i < s.len() && #[trigger] s[i].0 == label && s[i].1 == e,
    decreases s.len(),
{
    if s.len() > 0 && s.last().0 != label {
        let t = s.drop_last();
        lemma_lookup_found(t, label);
        if let Some(e) = lookup(t, label) {
            let i = choose|i: int| 0 <= i < t.len() && #[trigger] t[i].0 == label && t[i].1 == e;
            assert(s[i] == t[i]);
        }
    }
}

/// Everything that a lookup sees in a sorted list: the entry whose label it
/// is, or nothing.
proof fn lemma_lookup_sorted(s: Seq<(Seq<char>, EntryModel)>, label: Seq<char>)
    requires
        sorted_by_label(s),
    ensures
        (exists|i: int| 0 <= i < s.len() && #[trigger] s[i].0 == label) ==> {
            let i = choose|i: int| 0 <= i < s.len() && #[trigger] s[i].0 == label;
            lookup(s, label) == Some(s[i].1)
        },
        (forall|i: int| 0 <= i < s.len() ==> #[trigger] s[i].0 != label) ==> lookup(s, label) is None,
{
    if exists|i: int| 0 <= i < s.len() && #[trigger] s[i].0 == label {
        let i = choose|i: int| 0 <= i < s.len() && #[trigger] s[i].0 == label;
        lemma_lookup_at(s, i);
    }
    if forall|i: int| 0 <= i < s.len() ==> #[trigger] s[i].0 != label {
        lemma_lookup_absent(s, label);
    }
}

impl MonitorRegistry {
    #[verifier::type_invariant]
    closed spec fn well_formed(self) -> bool {
        sorted_by_label(self@)
    }

    /// The entries, in label order.
    pub fn entries(&self) -> (e: &Vec<(String, MonitorEntry)>)
        ensures
            entry_models(e@) == self@,
            sorted_by_label(self@),
    {
        proof {
            use_type_invariant(self);
        }
        &self.entries
    }

    /// An empty registry.
    pub fn new() -> (r: MonitorRegistry)
        ensures
            r@ == Seq::<(Seq<char>, EntryModel)>::empty(),
    {
        let r = MonitorRegistry { entries: Vec::new() };
        assert(r@ =~= Seq::<(Seq<char>, EntryModel)>::empty());
        r
    }

    pub fn is_empty(&self) -> (b: bool)
        ensures
            b == (self@.len() == 0),
    {
        self.entries.len() == 0
    }

    pub fn len(&self) -> (n: usize)
        ensures
            n == self@.len(),
    {
        self.entries.len()
    }

    /// The entry registered under `label`.
    pub fn get(&self, label: &str) -> (r: Option<&MonitorEntry>)
        ensures
            match r {
                Some(e) => lookup(self@, label@) == Some(e@),
                None => lookup(self@, label@) is None,
            },
    {
        proof {
            use_type_invariant(self);
        }
        let n = self.entries.len();
        let mut i: usize = 0;
        while i < n
            invariant
                n == self.entries@.len(),
                i <= n,
                sorted_by_label(self@),
                forall|j: int| 0 <= j < i ==> #[trigger] self@[j].0 != label@,
            decreases n - i,
        {
            if text_eq_string(&self.entries[i].0, label) {
                proof {
                    assert(self@[i as int].0 == label@);
                    lemma_lookup_at(self@, i as int);
                }
                return Some(&self.entries[i].1);
            }
            i = i + 1;
        }
        proof {
            lemma_lookup_absent(self@, label@);
        }
        None
    }

    /// Register `entry` under `label`, replacing what was registered there.
    pub fn insert(&mut self, label: String, entry: MonitorEntry)
        ensures
            sorted_by_label(final(self)@),
            forall|l: Seq<char>| #[trigger] lookup(final(self)@, l) == if l == label@ {
                Some(entry@)
            } else {
                lookup(old(self)@, l)
            },
    {
        proof {
            use_type_invariant(&*self);
        }
        let mut t = MonitorRegistry::new();
        std::mem::swap(self, &mut t);
        proof {
            use_type_invariant(&t);
        }
        let MonitorRegistry { mut entries } = t;
        let ghost old_s = entry_models(entries@);
        let n = entries.len();
        // First position whose label does not come before `label`.
        let mut p: usize = 0;
        while p < n && text_lt(entries[p].0.as_str(), label.as_str())
            invariant
                n == entries@.len(),
                p <= n,
                old_s == entry_models(entries@),
                forall|j: int| 0 <= j < p ==> text_less(#[trigger] old_s[j].0, label@),
            decreases n - p,
        {
            p = p + 1;
        }
        let ghost new_pair = (label@, entry@);
        if p < n && text_eq_string(&entries[p].0, label.as_str()) {
            entries.set(p, (label, entry));
            proof {
                let s = entry_models(entries@);
                assert(s =~= old_s.update(p as int, new_pair));
                assert forall|i: int, j: int| 0 <= i < j < s.len() implies text_less(#[trigger] s[i].0, #[trigger] s[j].0) by {
                    assert(s[i].0 == old_s[i].0 && s[j].0 == old_s[j].0);
                }
                assert forall|l: Seq<char>| #[trigger] lookup(s, l) == if l == new_pair.0 {
                    Some(new_pair.1)
                } else {
                    lookup(old_s, l)
                } by {
                    lemma_lookup_sorted(s, l);
                    lemma_lookup_sorted(old_s, l);
                    if l == new_pair.0 {
                        lemma_lookup_at(s, p as int);
                    } else {
                        if exists|i: int| 0 <= i < s.len() && #[trigger] s[i].0 == l {
                            let i = choose|i: int| 0 <= i < s.len() && #[trigger] s[i].0 == l;
                            lemma_lookup_at(s, i);
                            lemma_lookup_at(old_s, i);
                        } else {
                            assert forall|i: int| 0 <= i < old_s.len() implies #[trigger] old_s[i].0 != l by {
                                assert(s[i].0 == old_s[i].0);
                            }
                        }
                    }
                }
            }
            *self = MonitorRegistry { entries };
        } else {
            proof {
                if p < n {
                    lemma_text_less_total(old_s[p as int].0, label@);
                }
            }
            entries.insert(p, (label, entry));
            proof {
                let s = entry_models(entries@);
                assert(s =~= old_s.insert(p as int, new_pair));
                assert forall|i: int, j: int| 0 <= i < j < s.len() implies text_less(#[trigger] s[i].0, #[trigger] s[j].0) by {
                    if j < p {
                        assert(s[i] == old_s[i] && s[j] == old_s[j]);
                    } else if j == p {
                        assert(s[i] == old_s[i]);
                    } else if i < p {
                        assert(s[i] == old_s[i] && s[j] == old_s[j - 1]);
                        assert(text_less(old_s[i].0, label@));
                        assert(text_less(label@, old_s[p as int].0));
                        if j - 1 > p {
                            lemma_text_less_transitive(label@, old_s[p as int].0, old_s[j - 1].0);
                        }
                        lemma_text_less_transitive(old_s[i].0, label@, old_s[j - 1].0);
                    } else if i == p {
                        assert(s[j] == old_s[j - 1]);
                        if j - 1 > p {
                            lemma_text_less_transitive(label@, old_s[p as int].0, old_s[j - 1].0);
                        }
                    } else {
                        assert(s[i] == old_s[i - 1] && s[j] == old_s[j - 1]);
                    }
                }
                assert forall|l: Seq<char>| #[trigger] lookup(s, l) == if l == new_pair.0 {
                    Some(new_pair.1)
                } else {
                    lookup(old_s, l)
                } by {
                    if l == new_pair.0 {
                        lemma_lookup_at(s, p as int);
                    } else {
                        if exists|i: int| 0 <= i < old_s.len() && #[trigger] old_s[i].0 == l {
                            let i = choose|i: int| 0 <= i < old_s.len() && #[trigger] old_s[i].0 == l;
                            lemma_lookup_at(old_s, i);
                            if i < p {
                                assert(s[i] == old_s[i]);
                                lemma_lookup_at(s, i);
                            } else {
                                assert(s[i + 1] == old_s[i]);
                                lemma_lookup_at(s, i + 1);
                            }
                        } else {
                            lemma_lookup_absent(old_s, l);
                            assert forall|i: int| 0 <= i < s.len() implies #[trigger] s[i].0 != l by {
                                if i < p {
                                    assert(s[i] == old_s[i]);
                                } else if i > p {
                                    assert(s[i] == old_s[i - 1]);
                                }
                            }
                            lemma_lookup_absent(s, l);
                        }
                    }
                }
            }
            *self = MonitorRegistry { entries };
        }
    }

    /// Mark the window registered under `label` hidden; nothing happens when
    /// no window is registered there.
    pub fn mark_hidden(&mut self, label: &str)
        ensures
            final(self)@.len() == old(self)@.len(),
            forall|i: int| 0 <= i < old(self)@.len() ==> {
                &&& #[trigger] final(self)@[i].0 == old(self)@[i].0
                &&& final(self)@[i].1.spec == old(self)@[i].1.spec
                &&& final(self)@[i].1.hidden == (old(self)@[i].1.hidden || old(self)@[i].0 == label@)
            },
            forall|l: Seq<char>| #[trigger] lookup(final(self)@, l) == hidden_if(lookup(old(self)@, l), l == label@),
    {
        proof {
            use_type_invariant(&*self);
        }
        let mut t = MonitorRegistry::new();
        std::mem::swap(self, &mut t);
        proof {
            use_type_invariant(&t);
        }
        let MonitorRegistry { mut entries } = t;
        let ghost old_s = entry_models(entries@);
        let n = entries.len();
        let mut i: usize = 0;
        while i < n
            invariant
                n == entries@.len(),
                old_s.len() == n,
                i <= n,
                entry_models(entries@) == marked_hidden(old_s, label@, i as int),
            decreases n - i,
        {
            let ghost before = entries@;
            if text_eq_string(&entries[i].0, label) {
                let l = entries[i].0.clone();
                let spec = entries[i].1.spec.duplicate();
                entries.set(i, (l, MonitorEntry { spec, hidden: true }));
            }
            proof {
                let m0 = marked_hidden(old_s, label@, i as int);
                let m1 = marked_hidden(old_s, label@, i as int + 1);
                assert(entry_models(before)[i as int] == (before[i as int].0@, before[i as int].1@));
                assert(entry_models(before)[i as int] == m0[i as int]);
                assert(m0[i as int] == old_s[i as int]);
                assert forall|j: int| 0 <= j < n implies #[trigger] entry_models(entries@)[j] == m1[j] by {
                    assert(entry_models(entries@)[j] == (entries@[j].0@, entries@[j].1@));
                    assert(entry_models(before)[j] == (before[j].0@, before[j].1@));
                    if j != i {
                        assert(entries@[j] == before[j]);
                        assert(m1[j] == m0[j]);
                    }
                }
                assert(entry_models(entries@) =~= m1);
            }
            i = i + 1;
        }
        proof {
            let s = entry_models(entries@);
            assert(s =~= marked_hidden(old_s, label@, n as int));
            assert forall|a: int, b: int| 0 <= a < b < s.len() implies text_less(#[trigger] s[a].0, #[trigger] s[b].0) by {
                assert(s[a].0 == old_s[a].0 && s[b].0 == old_s[b].0);
            }
            assert forall|l: Seq<char>| #[trigger] lookup(s, l) == hidden_if(lookup(old_s, l), l == label@) by {
                if exists|i: int| 0 <= i < old_s.len() && #[trigger] old_s[i].0 == l {
                    let i = choose|i: int| 0 <= i < old_s.len() && #[trigger] old_s[i].0 == l;
                    lemma_lookup_at(old_s, i);
                    lemma_lookup_at(s, i);
                } else {
                    lemma_lookup_absent(old_s, l);
                    assert forall|i: int| 0 <= i < s.len() implies #[trigger] s[i].0 != l by {
                        assert(s[i].0 == old_s[i].0);
                    }
                    lemma_lookup_absent(s, l);
                }
            }
        }
        *self = MonitorRegistry { entries };
    }

    /// Record one activation's pairing: every assigned window now serves its
    /// monitor and is shown; every other overlay window in `overlay_labels`
    /// that is registered is marked hidden (the topology shrank since the
    /// last session).
    pub fn record_activation(&mut self, pairs: &Vec<(String, MonitorSpec)>, overlay_labels: &Vec<String>)
        ensures
            forall|l: Seq<char>| #[trigger] lookup(final(self)@, l) == after_activation(
                lookup(old(self)@, l),
                last_assignment(pair_models(pairs@), l),
                label_texts(overlay_labels@).contains(l),
            ),
    {
        let ghost old_s = self@;
        let ghost pm = pair_models(pairs@);
        let n = pairs.len();
        let mut i: usize = 0;
        while i < n
            invariant
                n == pairs@.len(),
                pm == pair_models(pairs@),
                i <= n,
                forall|l: Seq<char>| #[trigger] lookup(self@, l) == match last_assignment(pm.take(i as int), l) {
                    Some(m) => Some(EntryModel { spec: m, hidden: false }),
                    None => lookup(old_s, l),
                },
            decreases n - i,
        {
            let label = pairs[i].0.clone();
            let spec = pairs[i].1.duplicate();
            proof {
                assert(pm.take(i as int + 1).drop_last() =~= pm.take(i as int));
                assert(pm.take(i as int + 1).last() == (pairs@[i as int].0@, pairs@[i as int].1@));
            }
            self.insert(label, MonitorEntry { spec, hidden: false });
            i = i + 1;
        }
        proof {
            assert(pm.take(n as int) =~= pm);
        }
        let ghost ot = label_texts(overlay_labels@);
        let m = overlay_labels.len();
        let mut j: usize = 0;
        while j < m
            invariant
                m == overlay_labels@.len(),
                ot == label_texts(overlay_labels@),
                n == pairs@.len(),
                pm == pair_models(pairs@),
                j <= m,
                forall|l: Seq<char>| #[trigger] lookup(self@, l) == after_activation(
                    lookup(old_s, l),
                    last_assignment(pm, l),
                    ot.take(j as int).contains(l),
                ),
            decreases m - j,
        {
            let label = overlay_labels[j].as_str();
            let assigned = pairs_contain_label(pairs, label);
            proof {
                lemma_last_assignment_present(pm, label@);
                assert(ot.take(j as int + 1) =~= ot.take(j as int).push(label@));
            }
            if !assigned {
                self.mark_hidden(label);
            }
            proof {
                assert forall|l: Seq<char>| #[trigger] lookup(self@, l) == after_activation(
                    lookup(old_s, l),
                    last_assignment(pm, l),
                    ot.take(j as int + 1).contains(l),
                ) by {
                    if l == label@ {
                        assert(ot.take(j as int + 1).contains(l)) by {
                            assert(ot.take(j as int + 1)[j as int] == l);
                        }
                    } else {
                        if ot.take(j as int + 1).contains(l) {
                            let k = choose|k: int| 0 <= k < ot.take(j as int + 1).len() && #[trigger] ot.take(j as int + 1)[k] == l;
                            assert(k < j);
                            assert(ot.take(j as int)[k] == l);
                        }
                        if ot.take(j as int).contains(l) {
                            let k = choose|k: int| 0 <= k < ot.take(j as int).len() && #[trigger] ot.take(j as int)[k] == l;
                            assert(ot.take(j as int + 1)[k] == l);
                        }
                    }
                }
            }
            j = j + 1;
        }
        proof {
            assert(ot.take(m as int) =~= ot);
        }
    }
}

/// The entry `e` marked hidden when `mark` holds.
pub open spec fn hidden_if(e: Option<EntryModel>, mark: bool) -> Option<EntryModel> {
    match e {
        Some(x) => if mark {
            Some(EntryModel { spec: x.spec, hidden: true })
        } else {
            Some(x)
        },
        None => None,
    }
}

/// The `(label, monitor)` content of an activation's pairs.
pub open spec fn pair_models(pairs: Seq<(String, MonitorSpec)>) -> Seq<(Seq<char>, MonitorModel)> {
    pairs.map_values(|p: (String, MonitorSpec)| (p.0@, p.1@))
}

/// The monitor last paired with label `l`, if any.
pub open spec fn last_assignment(pairs: Seq<(Seq<char>, MonitorModel)>, l: Seq<char>) -> Option<MonitorModel>
    decreases pairs.len(),
{
    if pairs.len() == 0 {
        None
    } else if pairs.last().0 == l {
        Some(pairs.last().1)
    } else {
        last_assignment(pairs.drop_last(), l)
    }
}

/// A window's registry entry after an activation: shown on its assigned
/// monitor, or hidden if it is an overlay without a monitor this time, or
/// untouched.
pub open spec fn after_activation(
    before: Option<EntryModel>,
    assigned: Option<MonitorModel>,
    listed_overlay: bool,
) -> Option<EntryModel> {
    match assigned {
        Some(m) => Some(EntryModel { spec: m, hidden: false }),
        None => hidden_if(before, listed_overlay),
    }
}

proof fn lemma_last_assignment_present(pairs: Seq<(Seq<char>, MonitorModel)>, l: Seq<char>)
    ensures
        (last_assignment(pairs, l) is Some) == (exists|k: int| 0 <= k < pairs.len() && #[trigger] pairs[k].0 == l),
    decreases pairs.len(),
{
    if pairs.len() > 0 {
        let t = pairs.drop_last();
        lemma_last_assignment_present(t, l);
        if exists|k: int| 0 <= k < t.len() && #[trigger] t[k].0 == l {
            let k = choose|k: int| 0 <= k < t.len() && #[trigger] t[k].0 == l;
            assert(pairs[k] == t[k]);
        }
        if exists|k: int| 0 <= k < pairs.len() && #[trigger] pairs[k].0 == l {
            let k = choose|k: int| 0 <= k < pairs.len() && #[trigger] pairs[k].0 == l;
            if k < pairs.len() - 1 {
                assert(t[k] == pairs[k]);
            }
        }
    }
}

/// Some pair carries the label `label`.
fn pairs_contain_label(pairs: &Vec<(String, MonitorSpec)>, label: &str) -> (b: bool)
    ensures
        b == exists|k: int| 0 <= k < pairs@.len() && #[trigger] pair_models(pairs@)[k].0 == label@,
{
    let n = pairs.len();
    let mut i: usize = 0;
    while i < n
        invariant
            n == pairs@.len(),
            i <= n,
            forall|k: int| 0 <= k < i ==> #[trigger] pair_models(pairs@)[k].0 != label@,
        decreases n - i,
    {
        assert(pair_models(pairs@)[i as int] == (pairs@[i as int].0@, pairs@[i as int].1@));
        if text_eq_string(&pairs[i].0, label) {
            assert(pair_models(pairs@)[i as int].0 == label@);
            return true;
        }
        i = i + 1;
    }
    false
}

/// `s` with the entries under `label` among the first `k` marked hidden.
pub open spec fn marked_hidden(s: Seq<(Seq<char>, EntryModel)>, label: Seq<char>, k: int) -> Seq<(Seq<char>, EntryModel)> {
    Seq::new(
        s.len(),
        |j: int|
            if j < k && s[j].0 == label {
                (s[j].0, EntryModel { spec: s[j].1.spec, hidden: true })
            } else {
                s[j]
            },
    )
}

fn text_eq_string(a: &String, b: &str) -> (r: bool)
    ensures
        r == (a@ == b@),
{
    text_eq(a.as_str(), b)
}

/// The first entry, in label order, whose monitor has `m`'s geometry.
pub open spec fn first_entry_with_geometry(s: Seq<(Seq<char>, EntryModel)>, m: MonitorModel, from: int) -> Option<int>
    decreases s.len() - from,
{
    if from < 0 || from >= s.len() {
        None
    } else if same_geometry(s[from].1.spec, m) {
        Some(from)
    } else {
        first_entry_with_geometry(s, m, from + 1)
    }
}

/// The first entry, in label order, whose monitor carries `m`'s OS name
/// (monitors without a name match none).
pub open spec fn first_entry_with_name(s: Seq<(Seq<char>, EntryModel)>, m: MonitorModel, from: int) -> Option<int>
    decreases s.len() - from,
{
    if from < 0 || from >= s.len() {
        None
    } else if s[from].1.spec.name is Some && s[from].1.spec.name == m.name {
        Some(from)
    } else {
        first_entry_with_name(s, m, from + 1)
    }
}

/// The label that previously served `m`: exact geometry first, OS name as
/// fallback, the first in label order either way.
pub open spec fn window_for_monitor(s: Seq<(Seq<char>, EntryModel)>, m: MonitorModel) -> Option<Seq<char>> {
    match first_entry_with_geometry(s, m, 0) {
        Some(i) => Some(s[i].0),
        None => match first_entry_with_name(s, m, 0) {
            Some(i) => Some(s[i].0),
            None => None,
        },
    }
}

proof fn lemma_first_entry_with_geometry_range(s: Seq<(Seq<char>, EntryModel)>, m: MonitorModel, from: int)
    ensures
        first_entry_with_geometry(s, m, from) matches Some(i) ==> from <= i < s.len(),
    decreases s.len() - from,
{
    if 0 <= from < s.len() {
        lemma_first_entry_with_geometry_range(s, m, from + 1);
    }
}

proof fn lemma_first_entry_with_geometry_is_first(s: Seq<(Seq<char>, EntryModel)>, m: MonitorModel, from: int)
    requires
        0 <= from,
    ensures
        match first_entry_with_geometry(s, m, from) {
            Some(i) => from <= i < s.len() && same_geometry(s[i].1.spec, m) && forall|j: int|
                from <= j < i ==> !same_geometry(#[trigger] s[j].1.spec, m),
            None => forall|j: int| from <= j < s.len() ==> !same_geometry(#[trigger] s[j].1.spec, m),
        },
    decreases s.len() - from,
{
    if from < s.len() {
        lemma_first_entry_with_geometry_is_first(s, m, from + 1);
    }
}

proof fn lemma_first_entry_with_name_is_first(s: Seq<(Seq<char>, EntryModel)>, m: MonitorModel, from: int)
    requires
        0 <= from,
    ensures
        match first_entry_with_name(s, m, from) {
            Some(i) => from <= i < s.len() && s[i].1.spec.name is Some && s[i].1.spec.name == m.name && forall|j: int|
                from <= j < i ==> !(#[trigger] s[j].1.spec.name is Some && s[j].1.spec.name == m.name),
            None => forall|j: int|
                from <= j < s.len() ==> !(#[trigger] s[j].1.spec.name is Some && s[j].1.spec.name == m.name),
        },
    decreases s.len() - from,
{
    if from < s.len() {
        lemma_first_entry_with_name_is_first(s, m, from + 1);
    }
}

/// A re-appearing monitor gets back the window of the first entry, in label
/// order, with its exact geometry, whatever the OS names say; only when no
/// entry has its geometry does the first entry with its OS name count; when
/// neither matches, no window.
pub proof fn lemma_geometry_match_wins_over_name(s: Seq<(Seq<char>, EntryModel)>, m: MonitorModel, i: int)
    ensures
        (0 <= i < s.len() && same_geometry(s[i].1.spec, m) && forall|j: int|
            0 <= j < i ==> !same_geometry(#[trigger] s[j].1.spec, m)) ==> window_for_monitor(s, m) == Some(
            s[i].0,
        ),
        (0 <= i < s.len() && (forall|j: int| 0 <= j < s.len() ==> !same_geometry(#[trigger] s[j].1.spec, m))
            && s[i].1.spec.name is Some && s[i].1.spec.name == m.name && forall|j: int|
            0 <= j < i ==> !(#[trigger] s[j].1.spec.name is Some && s[j].1.spec.name == m.name))
            ==> window_for_monitor(s, m) == Some(s[i].0),
        ((forall|j: int| 0 <= j < s.len() ==> !same_geometry(#[trigger] s[j].1.spec, m)) && forall|j: int|
            0 <= j < s.len() ==> !(#[trigger] s[j].1.spec.name is Some && s[j].1.spec.name == m.name))
            ==> window_for_monitor(s, m) is None,
{
    lemma_first_entry_with_geometry_is_first(s, m, 0);
    lemma_first_entry_with_name_is_first(s, m, 0);
    if 0 <= i < s.len() {
        match first_entry_with_geometry(s, m, 0) {
            Some(k) => {
                if k < i {
                    assert(!same_geometry(s[k].1.spec, m) || !(forall|j: int|
                        0 <= j < i ==> !same_geometry(#[trigger] s[j].1.spec, m)));
                }
            },
            None => {},
        }
        match first_entry_with_name(s, m, 0) {
            Some(k) => {
                if k < i {
                    assert(s[k].1.spec.name is Some && s[k].1.spec.name == m.name);
                }
                if k > i {
                    assert(!(s[i].1.spec.name is Some && s[i].1.spec.name == m.name));
                }
            },
            None => {},
        }
    }
}

proof fn lemma_window_for_monitor_for_every_entry(s: Seq<(Seq<char>, EntryModel)>, m: MonitorModel)
    ensures
        forall|i: int|
            0 <= i < s.len() && same_geometry(#[trigger] s[i].1.spec, m) && (forall|j: int|
                0 <= j < i ==> !same_geometry(#[trigger] s[j].1.spec, m)) ==> window_for_monitor(s, m) == Some(s[i].0),
        forall|i: int|
            0 <= i < s.len() && (forall|j: int| 0 <= j < s.len() ==> !same_geometry(#[trigger] s[j].1.spec, m))
                && (#[trigger] s[i].1.spec.name) is Some && s[i].1.spec.name == m.name && (forall|j: int|
                0 <= j < i ==> !(#[trigger] s[j].1.spec.name is Some && s[j].1.spec.name == m.name))
                ==> window_for_monitor(s, m) == Some(s[i].0),
        ((forall|j: int| 0 <= j < s.len() ==> !same_geometry(#[trigger] s[j].1.spec, m)) && forall|j: int|
            0 <= j < s.len() ==> !(#[trigger] s[j].1.spec.name is Some && s[j].1.spec.name == m.name))
            ==> window_for_monitor(s, m) is None,
{
    lemma_geometry_match_wins_over_name(s, m, 0);
    assert forall|i: int|
        0 <= i < s.len() && same_geometry(#[trigger] s[i].1.spec, m) && (forall|j: int|
            0 <= j < i ==> !same_geometry(#[trigger] s[j].1.spec, m)) implies window_for_monitor(s, m) == Some(s[i].0) by {
        lemma_geometry_match_wins_over_name(s, m, i);
    }
    assert forall|i: int|
        0 <= i < s.len() && (forall|j: int| 0 <= j < s.len() ==> !same_geometry(#[trigger] s[j].1.spec, m))
            && (#[trigger] s[i].1.spec.name) is Some && s[i].1.spec.name == m.name && (forall|j: int|
            0 <= j < i ==> !(#[trigger] s[j].1.spec.name is Some && s[j].1.spec.name == m.name)) implies window_for_monitor(
        s,
        m,
    ) == Some(s[i].0) by {
        lemma_geometry_match_wins_over_name(s, m, i);
    }
}

/// Find the registry label that previously served `monitor`: exact geometry
/// match first, OS name as tiebreaker. Used when a monitor re-appears so its
/// old window (with the strokes still in that webview) is restored to it.
pub fn find_window_for_monitor(registry: &MonitorRegistry, monitor: &MonitorSpec) -> (r: Option<String>)
    ensures
        match r {
            Some(l) => window_for_monitor(registry@, monitor@) == Some(l@),
            None => window_for_monitor(registry@, monitor@) is None,
        },
        forall|i: int|
            0 <= i < registry@.len() && same_geometry(#[trigger] registry@[i].1.spec, monitor@) && (forall|j: int|
                0 <= j < i ==> !same_geometry(#[trigger] registry@[j].1.spec, monitor@)) ==> (r matches Some(l) && l@
                == registry@[i].0),
        forall|i: int|
            0 <= i < registry@.len() && (forall|j: int|
                0 <= j < registry@.len() ==> !same_geometry(#[trigger] registry@[j].1.spec, monitor@))
                && (#[trigger] registry@[i].1.spec.name) is Some && registry@[i].1.spec.name == monitor@.name && (
            forall|j: int|
                0 <= j < i ==> !(#[trigger] registry@[j].1.spec.name is Some && registry@[j].1.spec.name
                    == monitor@.name)) ==> (r matches Some(l) && l@ == registry@[i].0),
        ((forall|j: int| 0 <= j < registry@.len() ==> !same_geometry(#[trigger] registry@[j].1.spec, monitor@))
            && forall|j: int|
            0 <= j < registry@.len() ==> !(#[trigger] registry@[j].1.spec.name is Some && registry@[j].1.spec.name
                == monitor@.name)) ==> r is None,
{
    proof {
        lemma_window_for_monitor_for_every_entry(registry@, monitor@);
    }
    let entries = registry.entries();
    let ghost s = registry@;
    let n = entries.len();
    let mut name_match: Option<usize> = None;
    let mut i: usize = 0;
    while i < n
        invariant
            n == entries@.len(),
            s == entry_models(entries@),
            s == registry@,
            i <= n,
            first_entry_with_geometry(s, monitor@, 0) == first_entry_with_geometry(s, monitor@, i as int),
            name_match matches Some(k) ==> k < i,
            match name_match {
                Some(k) => first_entry_with_name(s, monitor@, 0) == Some(k as int),
                None => first_entry_with_name(s, monitor@, 0) == first_entry_with_name(s, monitor@, i as int),
            },
        decreases n - i,
    {
        let entry = &entries[i].1;
        proof {
            assert(s[i as int] == (entries@[i as int].0@, entries@[i as int].1@));
        }
        if entry.spec.same_geometry(monitor) {
            proof {
                lemma_window_for_monitor_for_every_entry(registry@, monitor@);
            }
            return Some(entries[i].0.clone());
        }
        if name_match.is_none() && entry.spec.name.is_some() && same_name(&entry.spec.name, &monitor.name) {
            name_match = Some(i);
        }
        i = i + 1;
    }
    match name_match {
        Some(k) => {
            proof {
                assert(s[k as int] == (entries@[k as int].0@, entries@[k as int].1@));
            }
            Some(entries[k].0.clone())
        },
        None => None,
    }
}

/// The first entry, in label order, whose monitor contains the point.
pub open spec fn first_entry_containing(s: Seq<(Seq<char>, EntryModel)>, x: i32, y: i32, from: int) -> Option<int>
    decreases s.len() - from,
{
    if from < 0 || from >= s.len() {
        None
    } else if contains(s[from].1.spec, x, y) {
        Some(from)
    } else {
        first_entry_containing(s, x, y, from + 1)
    }
}

proof fn lemma_first_entry_containing_is_first(s: Seq<(Seq<char>, EntryModel)>, x: i32, y: i32, from: int)
    requires
        0 <= from,
    ensures
        match first_entry_containing(s, x, y, from) {
            Some(i) => from <= i < s.len() && contains(s[i].1.spec, x, y) && forall|j: int|
                from <= j < i ==> !contains(#[trigger] s[j].1.spec, x, y),
            None => forall|j: int| from <= j < s.len() ==> !contains(#[trigger] s[j].1.spec, x, y),
        },
    decreases s.len() - from,
{
    if from < s.len() {
        lemma_first_entry_containing_is_first(s, x, y, from + 1);
    }
}

/// The point goes to the first entry, in label order, whose monitor contains
/// it, hidden or not; when no entry's monitor contains it, to none.
pub proof fn lemma_point_goes_to_first_containing_entry(s: Seq<(Seq<char>, EntryModel)>, x: i32, y: i32)
    ensures
        forall|i: int|
            0 <= i < s.len() && contains(#[trigger] s[i].1.spec, x, y) && (forall|j: int|
                0 <= j < i ==> !contains(#[trigger] s[j].1.spec, x, y)) ==> first_entry_containing(s, x, y, 0)
                == Some(i),
        (forall|j: int| 0 <= j < s.len() ==> !contains(#[trigger] s[j].1.spec, x, y)) ==> first_entry_containing(
            s,
            x,
            y,
            0,
        ) is None,
{
    lemma_first_entry_containing_is_first(s, x, y, 0);
    assert forall|i: int|
        0 <= i < s.len() && contains(#[trigger] s[i].1.spec, x, y) && (forall|j: int|
            0 <= j < i ==> !contains(#[trigger] s[j].1.spec, x, y)) implies first_entry_containing(s, x, y, 0)
            == Some(i) by {
        match first_entry_containing(s, x, y, 0) {
            Some(k) => {
                if k < i {
                    assert(contains(s[k].1.spec, x, y));
                }
                if k > i {
                    assert(!contains(s[i].1.spec, x, y));
                }
            },
            None => {
                assert(!contains(s[i].1.spec, x, y));
            },
        }
    }
}

/// The label whose monitor contains the point `(x, y)`, the first in label
/// order: the single executor for toolbar actions (the screen the user is
/// on).
pub fn label_for_point(registry: &MonitorRegistry, x: i32, y: i32) -> (r: Option<String>)
    ensures
        match r {
            Some(l) => first_entry_containing(registry@, x, y, 0) matches Some(i) && registry@[i].0 == l@,
            None => first_entry_containing(registry@, x, y, 0) is None,
        },
        forall|i: int|
            0 <= i < registry@.len() && contains(#[trigger] registry@[i].1.spec, x, y) && (forall|j: int|
                0 <= j < i ==> !contains(#[trigger] registry@[j].1.spec, x, y)) ==> (r matches Some(l) && l@
                == registry@[i].0),
        (forall|j: int| 0 <= j < registry@.len() ==> !contains(#[trigger] registry@[j].1.spec, x, y)) ==> r is None,
        r matches Some(l) ==> exists|i: int|
            0 <= i < registry@.len() && registry@[i].0 == l@ && contains(#[trigger] registry@[i].1.spec, x, y),
{
    proof {
        lemma_point_goes_to_first_containing_entry(registry@, x, y);
        lemma_first_entry_containing_is_first(registry@, x, y, 0);
    }
    let entries = registry.entries();
    let ghost s = registry@;
    let n = entries.len();
    let mut i: usize = 0;
    while i < n
        invariant
            n == entries@.len(),
            s == entry_models(entries@),
            s == registry@,
            i <= n,
            first_entry_containing(s, x, y, 0) == first_entry_containing(s, x, y, i as int),
        decreases n - i,
    {
        proof {
            assert(s[i as int] == (entries@[i as int].0@, entries@[i as int].1@));
        }
        if entries[i].1.spec.contains_point(x, y) {
            proof {
                lemma_point_goes_to_first_containing_entry(registry@, x, y);
                lemma_first_entry_containing_is_first(registry@, x, y, 0);
            }
            return Some(entries[i].0.clone());
        }
        i = i + 1;
    }
    None
}

} // verus!
