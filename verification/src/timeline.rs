//! Global undo timeline across all overlay windows.
//!
//! The timeline stores lightweight op records only (`{op_id, owner, kind}`, no
//! stroke data). The globally-latest active op always sits on its owner
//! window's local undo-stack top, so undo is "pop the newest record, tell that
//! owner to run its plain local undo".
//!
//! A global clear folds every active op into ONE clear op (they survive in its
//! `frozen` list) so a single undo restores every display at once.

use vstd::prelude::*;

verus! {

/// One user-visible mutation, attributed to the overlay window it happened on.
#[derive(Debug, PartialEq)]
pub struct TimelineOp {
    pub op_id: u64,
    /// Owning overlay window label; empty for a global clear op (its undo is
    /// replayed on every overlay).
    pub owner: String,
    /// Diagnostics only: mirrors the frontend undo-entry kinds.
    pub kind: String,
    /// Ops folded into this op by a global clear (in the order they were committed).
    pub frozen: Vec<TimelineOp>,
}

/// Mathematical content of a [`TimelineOp`]: the op with its strings and its
/// folded ops taken by value.
pub struct OpRecord {
    pub op_id: u64,
    pub owner: Seq<char>,
    pub kind: Seq<char>,
    pub frozen: Seq<OpRecord>,
}

impl TimelineOp {
    /// The op's content, with every folded op taken recursively.
    pub open spec fn record(self) -> OpRecord
        decreases self,
    {
        OpRecord {
            op_id: self.op_id,
            owner: self.owner@,
            kind: self.kind@,
            frozen: Seq::new(
                self.frozen@.len(),
                |i: int|
                    if 0 <= i < self.frozen@.len() {
                        self.frozen@[i].record()
                    } else {
                        arbitrary()
                    },
            ),
        }
    }

    /// A deep copy: same id, owner, kind and folded ops.
    pub fn duplicate(&self) -> (r: TimelineOp)
        ensures
            r.record() == self.record(),
        decreases self,
    {
        let mut frozen: Vec<TimelineOp> = Vec::new();
        let n = self.frozen.len();
        let mut i: usize = 0;
        while i < n
            invariant
                n == self.frozen@.len(),
                i <= n,
                frozen@.len() == i,
                forall|j: int| 0 <= j < i ==> #[trigger] frozen@[j].record() == self.frozen@[j].record(),
            decreases n - i,
        {
            proof {
                assert(decreases_to!(self => self.frozen@[i as int]));
            }
            let op = self.frozen[i].duplicate();
            frozen.push(op);
            i = i + 1;
        }
        let r = TimelineOp {
            op_id: self.op_id,
            owner: self.owner.clone(),
            kind: self.kind.clone(),
            frozen,
        };
        assert(r.record().frozen =~= self.record().frozen) by {
            assert forall|j: int| 0 <= j < n implies #[trigger] r.record().frozen[j] == self.record().frozen[j] by {
                assert(frozen@[j].record() == self.frozen@[j].record());
            }
        }
        r
    }
}


/// The records of a sequence of ops, in order.
pub open spec fn records(ops: Seq<TimelineOp>) -> Seq<OpRecord> {
    ops.map_values(|op: TimelineOp| op.record())
}

/// The record an optional op stands for.
pub open spec fn record_of(op: Option<TimelineOp>) -> Option<OpRecord> {
    match op {
        Some(o) => Some(o.record()),
        None => None,
    }
}

/// Global timeline availability, as shown by the toolbar.
#[derive(Debug, Clone, Copy, PartialEq, Eq)]
pub struct TimelineState {
    pub can_undo: bool,
    pub can_redo: bool,
}

/// The global undo timeline: active ops (undoable, oldest first) and undone
/// ops (redoable, most recently undone last).
#[derive(Debug)]
pub struct Timeline {
    active: Vec<TimelineOp>,
    undone: Vec<TimelineOp>,
    next_op_id: u64,
}

/// Mathematical content of a [`Timeline`].
pub struct TimelineView {
    pub active: Seq<OpRecord>,
    pub undone: Seq<OpRecord>,
    pub next_op_id: u64,
}

impl View for Timeline {
    type V = TimelineView;

    closed spec fn view(&self) -> TimelineView {
        TimelineView {
            active: records(self.active@),
            undone: records(self.undone@),
            next_op_id: self.next_op_id,
        }
    }
}

/// Only the first op of a list may carry folded ops, and the ops it carries
/// obey the same rule: a clear op folds the whole active list, and the ops
/// committed after it come with nothing folded.
pub open spec fn folds_only_first(ops: Seq<OpRecord>) -> bool
    decreases ops,
{
    &&& forall|i: int| 0 < i < ops.len() ==> (#[trigger] ops[i]).frozen.len() == 0
    &&& ops.len() > 0 ==> folds_only_first(ops[0].frozen)
}

/// The active list after redoing `op`: a clear op re-folds the active list
/// into itself, any other op is appended.
pub open spec fn active_after_redo(active: Seq<OpRecord>, op: OpRecord) -> Seq<OpRecord> {
    if op.frozen.len() > 0 {
        seq![op]
    } else {
        active.push(op)
    }
}

/// The redo stack replays consistently: redoing a clear op finds exactly the
/// ops it had folded on the active list, and so on down the stack.
pub open spec fn redo_chain_consistent(active: Seq<OpRecord>, undone: Seq<OpRecord>) -> bool
    decreases undone.len(),
{
    undone.len() == 0 || {
        let op = undone.last();
        &&& op.frozen.len() > 0 ==> active == op.frozen
        &&& redo_chain_consistent(active_after_redo(active, op), undone.drop_last())
    }
}

/// Every op of the list, and every op folded into one at any depth, has an
/// id below `n`.
pub open spec fn ids_below(ops: Seq<OpRecord>, n: u64) -> bool
    decreases ops.len(),
{
    if ops.len() == 0 {
        true
    } else {
        &&& ops.last().op_id < n
        &&& ids_below_nested(ops.last(), n)
        &&& ids_below(ops.drop_last(), n)
    }
}

/// Every op folded into `op`, at any depth, has an id below `n`.
pub open spec fn ids_below_nested(op: OpRecord, n: u64) -> bool
    decreases op,
{
    forall|i: int| 0 <= i < op.frozen.len() ==> {
        &&& (#[trigger] op.frozen[i]).op_id < n
        &&& ids_below_nested(op.frozen[i], n)
    }
}

impl TimelineView {
    /// Every timeline that the operations build satisfies this.
    pub open spec fn valid(self) -> bool {
        &&& folds_only_first(self.active)
        &&& redo_chain_consistent(self.active, self.undone)
        &&& ids_below(self.active, self.next_op_id)
        &&& ids_below(self.undone, self.next_op_id)
    }

    pub open spec fn empty() -> TimelineView {
        TimelineView { active: seq![], undone: seq![], next_op_id: 0 }
    }

    /// Commit: a fresh op appended after every active op; redo history dropped.
    pub open spec fn after_commit(self, owner: Seq<char>, kind: Seq<char>) -> TimelineView {
        TimelineView {
            active: self.active.push(
                OpRecord { op_id: self.next_op_id, owner, kind, frozen: seq![] },
            ),
            undone: seq![],
            next_op_id: (self.next_op_id + 1) as u64,
        }
    }

    /// The op that undo takes: the globally-latest active op.
    pub open spec fn undo_op(self) -> Option<OpRecord> {
        if self.active.len() == 0 {
            None
        } else {
            Some(self.active.last())
        }
    }

    /// Undo: the latest active op moves to the redo list; the ops it had
    /// folded come back onto the active list in the order they were committed.
    pub open spec fn after_undo(self) -> TimelineView {
        if self.active.len() == 0 {
            self
        } else {
            let op = self.active.last();
            TimelineView {
                active: self.active.drop_last() + op.frozen,
                undone: self.undone.push(op),
                next_op_id: self.next_op_id,
            }
        }
    }

    /// The op that redo takes: the most recently undone op.
    pub open spec fn redo_op(self) -> Option<OpRecord> {
        if self.undone.len() == 0 {
            None
        } else {
            Some(self.undone.last())
        }
    }

    /// Redo: the most recently undone op goes back onto the active list.
    pub open spec fn after_redo(self) -> TimelineView {
        if self.undone.len() == 0 {
            self
        } else {
            let op = self.undone.last();
            TimelineView {
                active: active_after_redo(self.active, op),
                undone: self.undone.drop_last(),
                next_op_id: self.next_op_id,
            }
        }
    }

    /// The clear op that a global clear records, if it records one.
    pub open spec fn clear_op(self) -> Option<OpRecord> {
        if self.active.len() == 0 && self.undone.len() == 0 {
            None
        } else {
            Some(
                OpRecord {
                    op_id: self.next_op_id,
                    owner: Seq::empty(),
                    kind: "clear"@,
                    frozen: self.active,
                },
            )
        }
    }

    /// Global clear: every active op folded into one clear op, redo history
    /// dropped; nothing happens on a timeline with no history at all.
    pub open spec fn after_global_clear(self) -> TimelineView {
        match self.clear_op() {
            None => self,
            Some(op) => TimelineView {
                active: seq![op],
                undone: seq![],
                next_op_id: (self.next_op_id + 1) as u64,
            },
        }
    }

    /// Reset: all history dropped; op ids keep counting.
    pub open spec fn after_reset(self) -> TimelineView {
        TimelineView { active: seq![], undone: seq![], next_op_id: self.next_op_id }
    }
}

proof fn lemma_records_push(ops: Seq<TimelineOp>, op: TimelineOp)
    ensures
        records(ops.push(op)) == records(ops).push(op.record()),
{
    assert(records(ops.push(op)) =~= records(ops).push(op.record()));
}

proof fn lemma_folds_only_first_prefix(ops: Seq<OpRecord>)
    requires
        folds_only_first(ops),
        ops.len() > 0,
    ensures
        folds_only_first(ops.drop_last()),
{
    let p = ops.drop_last();
    if p.len() > 0 {
        assert(p[0] == ops[0]);
        assert(decreases_to!(p => p[0]));
    }
}

proof fn lemma_folds_only_first_push(ops: Seq<OpRecord>, op: OpRecord)
    requires
        folds_only_first(ops),
        op.frozen.len() == 0 || ops.len() == 0,
        folds_only_first(op.frozen),
    ensures
        folds_only_first(ops.push(op)),
{
    let q = ops.push(op);
    assert(decreases_to!(q => q[0]));
    if ops.len() > 0 {
        assert(q[0] == ops[0]);
    } else {
        assert(q[0] == op);
    }
}

proof fn lemma_folds_only_first_single(op: OpRecord)
    requires
        folds_only_first(op.frozen),
    ensures
        folds_only_first(seq![op]),
{
    let q = seq![op];
    assert(decreases_to!(q => q[0]));
}

proof fn lemma_ids_push(ops: Seq<OpRecord>, op: OpRecord, n: u64)
    ensures
        ids_below(ops.push(op), n) == (ids_below(ops, n) && op.op_id < n && ids_below_nested(op, n)),
{
    assert(ops.push(op).drop_last() =~= ops);
}

proof fn lemma_ids_concat(a: Seq<OpRecord>, b: Seq<OpRecord>, n: u64)
    ensures
        ids_below(a + b, n) == (ids_below(a, n) && ids_below(b, n)),
    decreases b.len(),
{
    if b.len() == 0 {
        assert(a + b =~= a);
    } else {
        lemma_ids_concat(a, b.drop_last(), n);
        assert((a + b).drop_last() =~= a + b.drop_last());
        assert((a + b).last() == b.last());
    }
}

proof fn lemma_ids_nested_mono(op: OpRecord, n: u64, m: u64)
    requires
        n <= m,
        ids_below_nested(op, n),
    ensures
        ids_below_nested(op, m),
    decreases op,
{
    assert forall|i: int| 0 <= i < op.frozen.len() implies {
        &&& (#[trigger] op.frozen[i]).op_id < m
        &&& ids_below_nested(op.frozen[i], m)
    } by {
        lemma_ids_nested_mono(op.frozen[i], n, m);
    }
}

proof fn lemma_ids_mono(ops: Seq<OpRecord>, n: u64, m: u64)
    requires
        n <= m,
        ids_below(ops, n),
    ensures
        ids_below(ops, m),
    decreases ops.len(),
{
    if ops.len() > 0 {
        lemma_ids_nested_mono(ops.last(), n, n);
        lemma_ids_nested_mono(ops.last(), n, m);
        lemma_ids_mono(ops.drop_last(), n, m);
    }
}

/// The ops folded into `op` are a list whose ids are below `n`.
proof fn lemma_ids_of_frozen(op: OpRecord, n: u64)
    requires
        ids_below_nested(op, n),
    ensures
        ids_below(op.frozen, n),
{
    lemma_ids_of_prefix(op, op.frozen.len() as int, n);
    assert(op.frozen.take(op.frozen.len() as int) =~= op.frozen);
}

proof fn lemma_ids_of_prefix(op: OpRecord, k: int, n: u64)
    requires
        ids_below_nested(op, n),
        0 <= k <= op.frozen.len(),
    ensures
        ids_below(op.frozen.take(k), n),
    decreases k,
{
    if k > 0 {
        lemma_ids_of_prefix(op, k - 1, n);
        let t = op.frozen.take(k);
        assert(t.drop_last() =~= op.frozen.take(k - 1));
        assert(t.last() == op.frozen[k - 1]);
    }
}

/// A list whose ids are below `n`, folded into an op.
proof fn lemma_ids_fold(op: OpRecord, n: u64)
    requires
        ids_below(op.frozen, n),
    ensures
        ids_below_nested(op, n),
{
    assert forall|i: int| 0 <= i < op.frozen.len() implies {
        &&& (#[trigger] op.frozen[i]).op_id < n
        &&& ids_below_nested(op.frozen[i], n)
    } by {
        lemma_ids_at(op.frozen, i, n);
    }
}

proof fn lemma_ids_at(ops: Seq<OpRecord>, i: int, n: u64)
    requires
        ids_below(ops, n),
        0 <= i < ops.len(),
    ensures
        ops[i].op_id < n,
        ids_below_nested(ops[i], n),
    decreases ops.len(),
{
    if i < ops.len() - 1 {
        lemma_ids_at(ops.drop_last(), i, n);
        assert(ops.drop_last()[i] == ops[i]);
    }
}

/// Undo keeps the timeline valid.
proof fn lemma_undo_valid(v: TimelineView)
    requires
        v.valid(),
    ensures
        v.after_undo().valid(),
{
    if v.active.len() > 0 {
        let op = v.active.last();
        let w = v.after_undo();
        lemma_ids_push(v.active.drop_last(), op, v.next_op_id);
        assert(v.active.drop_last().push(op) =~= v.active);
        lemma_ids_of_frozen(op, v.next_op_id);
        lemma_ids_concat(v.active.drop_last(), op.frozen, v.next_op_id);
        lemma_ids_push(v.undone, op, v.next_op_id);
        if op.frozen.len() > 0 {
            assert(v.active.len() == 1);
            assert(v.active[0] == op);
            assert(decreases_to!(v.active => v.active[0]));
            assert(w.active =~= op.frozen);
            assert(v.active =~= seq![op]);
            assert(w.undone.drop_last() =~= v.undone);
        } else {
            lemma_folds_only_first_prefix(v.active);
            assert(w.active =~= v.active.drop_last());
            assert(active_after_redo(w.active, op) =~= v.active);
            assert(w.undone.drop_last() =~= v.undone);
        }
    }
}

/// Redo keeps the timeline valid.
proof fn lemma_redo_valid(v: TimelineView)
    requires
        v.valid(),
    ensures
        v.after_redo().valid(),
{
    if v.undone.len() > 0 {
        let op = v.undone.last();
        lemma_ids_push(v.undone.drop_last(), op, v.next_op_id);
        assert(v.undone.drop_last().push(op) =~= v.undone);
        lemma_ids_push(v.active, op, v.next_op_id);
        lemma_ids_push(Seq::<OpRecord>::empty(), op, v.next_op_id);
        assert(Seq::<OpRecord>::empty().push(op) =~= seq![op]);
        if op.frozen.len() > 0 {
            lemma_folds_only_first_single(op);
        } else {
            lemma_folds_only_first_push(v.active, op);
        }
    }
}

/// Every operation keeps a valid timeline valid.
pub proof fn lemma_operations_keep_valid(v: TimelineView, owner: Seq<char>, kind: Seq<char>)
    requires
        v.valid(),
    ensures
        v.next_op_id < u64::MAX ==> v.after_commit(owner, kind).valid(),
        v.after_undo().valid(),
        v.after_redo().valid(),
        v.next_op_id < u64::MAX ==> v.after_global_clear().valid(),
        v.after_reset().valid(),
{
    lemma_undo_valid(v);
    lemma_redo_valid(v);
    if v.next_op_id < u64::MAX {
        let n1 = (v.next_op_id + 1) as u64;
        let op = OpRecord { op_id: v.next_op_id, owner, kind, frozen: seq![] };
        lemma_folds_only_first_push(v.active, op);
        lemma_ids_mono(v.active, v.next_op_id, n1);
        lemma_ids_push(v.active, op, n1);
        assert(ids_below(Seq::<OpRecord>::empty(), n1));
        if let Some(c) = v.clear_op() {
            lemma_folds_only_first_single(c);
            lemma_ids_fold(c, n1);
            lemma_ids_push(Seq::<OpRecord>::empty(), c, n1);
            assert(Seq::<OpRecord>::empty().push(c) =~= seq![c]);
        }
    }
}

impl Default for Timeline {
    /// An empty timeline.
    fn default() -> (t: Timeline)
        ensures
            t@ == TimelineView::empty(),
    {
        Timeline::new()
    }
}

/// Ops get fresh ids: every op on a valid timeline, folded ones included,
/// has an id below the one the next commit or clear records.
pub proof fn lemma_ids_are_fresh(v: TimelineView, owner: Seq<char>, kind: Seq<char>)
    requires
        v.valid(),
    ensures
        ids_below(v.active, v.next_op_id),
        ids_below(v.undone, v.next_op_id),
        v.next_op_id < u64::MAX ==> v.after_commit(owner, kind).active.last().op_id == v.next_op_id,
{
}

/// Undo followed by redo gives back the same op and the same timeline.
pub proof fn lemma_undo_then_redo_restores(v: TimelineView)
    requires
        v.valid(),
        v.active.len() > 0,
    ensures
        v.after_undo().redo_op() == v.undo_op(),
        v.after_undo().after_redo() == v,
{
    let op = v.active.last();
    let w = v.after_undo();
    assert(w.undone.drop_last() =~= v.undone);
    if op.frozen.len() > 0 {
        assert(v.active.len() == 1);
        assert(v.active =~= seq![op]);
    } else {
        assert(w.active.push(op) =~= v.active);
    }
}

/// Redo followed by undo gives back the same op and the same timeline.
pub proof fn lemma_redo_then_undo_restores(v: TimelineView)
    requires
        v.valid(),
        v.undone.len() > 0,
    ensures
        v.after_redo().undo_op() == v.redo_op(),
        v.after_redo().after_undo() == v,
{
    let op = v.undone.last();
    let w = v.after_redo();
    assert(w.undone.push(op) =~= v.undone);
    if op.frozen.len() > 0 {
        assert(w.active.drop_last() + op.frozen =~= v.active);
    } else {
        assert(w.active.drop_last() + op.frozen =~= v.active);
    }
}

/// One undo after a global clear brings back every op that was active
/// before the clear, in order; a redo then folds them again.
pub proof fn lemma_undo_of_clear_restores_board(v: TimelineView)
    requires
        v.valid(),
        v.next_op_id < u64::MAX,
        v.clear_op() is Some,
    ensures
        v.after_global_clear().undo_op() == v.clear_op(),
        v.after_global_clear().after_undo().active == v.active,
        v.after_global_clear().after_undo().after_redo() == v.after_global_clear(),
{
    let c = v.after_global_clear();
    lemma_operations_keep_valid(v, seq![], seq![]);
    lemma_undo_then_redo_restores(c);
    let op = v.clear_op()->0;
    assert(c.active.drop_last() + op.frozen =~= v.active);
}

/// A commit drops the redo history, and undoing it takes back exactly the
/// committed op and gives back the active ops from before the commit.
pub proof fn lemma_commit_then_undo(v: TimelineView, owner: Seq<char>, kind: Seq<char>)
    requires
        v.next_op_id < u64::MAX,
    ensures
        v.after_commit(owner, kind).undone.len() == 0,
        v.after_commit(owner, kind).undo_op() == Some(
            OpRecord { op_id: v.next_op_id, owner, kind, frozen: seq![] },
        ),
        v.after_commit(owner, kind).after_undo().active == v.active,
        v.after_commit(owner, kind).next_op_id > v.next_op_id,
{
    let c = v.after_commit(owner, kind);
    assert(c.active.drop_last() + Seq::<OpRecord>::empty() =~= v.active);
}

/// One call on a timeline, as a caller makes it.
pub enum TimelineCall {
    Commit { owner: Seq<char>, kind: Seq<char> },
    Undo,
    Redo,
    GlobalClear,
    Reset,
}

impl TimelineView {
    /// The timeline after one call.
    pub open spec fn after_call(self, c: TimelineCall) -> TimelineView {
        match c {
            TimelineCall::Commit { owner, kind } => self.after_commit(owner, kind),
            TimelineCall::Undo => self.after_undo(),
            TimelineCall::Redo => self.after_redo(),
            TimelineCall::GlobalClear => self.after_global_clear(),
            TimelineCall::Reset => self.after_reset(),
        }
    }

    /// The op id that one call hands out: a commit's op, or the clear op of
    /// a global clear that records one; nothing for the other calls.
    pub open spec fn id_issued_by(self, c: TimelineCall) -> Seq<u64> {
        match c {
            TimelineCall::Commit { .. } => seq![self.next_op_id],
            TimelineCall::GlobalClear => match self.clear_op() {
                Some(op) => seq![op.op_id],
                None => seq![],
            },
            _ => seq![],
        }
    }

    /// The timeline after the calls, made in order.
    pub open spec fn after_calls(self, calls: Seq<TimelineCall>) -> TimelineView
        decreases calls.len(),
    {
        if calls.len() == 0 {
            self
        } else {
            self.after_calls(calls.drop_last()).after_call(calls.last())
        }
    }

    /// The op ids that the calls hand out, in call order.
    pub open spec fn ids_issued(self, calls: Seq<TimelineCall>) -> Seq<u64>
        decreases calls.len(),
    {
        if calls.len() == 0 {
            seq![]
        } else {
            self.ids_issued(calls.drop_last()) + self.after_calls(calls.drop_last()).id_issued_by(
                calls.last(),
            )
        }
    }
}

proof fn lemma_ids_issued_from(v: TimelineView, calls: Seq<TimelineCall>)
    requires
        v.next_op_id + v.ids_issued(calls).len() <= u64::MAX,
    ensures
        v.after_calls(calls).next_op_id == v.next_op_id + v.ids_issued(calls).len(),
        forall|i: int| 0 <= i < v.ids_issued(calls).len() ==> #[trigger] v.ids_issued(calls)[i] == v.next_op_id + i,
        v.valid() ==> v.after_calls(calls).valid(),
    decreases calls.len(),
{
    if calls.len() > 0 {
        let pre = calls.drop_last();
        let c = calls.last();
        let w = v.after_calls(pre);
        let step = w.id_issued_by(c);
        assert(v.ids_issued(calls) == v.ids_issued(pre) + step);
        lemma_ids_issued_from(v, pre);
        let k = v.ids_issued(pre).len();
        if v.valid() {
            match c {
                TimelineCall::Commit { owner, kind } => {
                    lemma_operations_keep_valid(w, owner, kind);
                },
                _ => {
                    lemma_operations_keep_valid(w, Seq::empty(), Seq::empty());
                },
            }
        }
        assert forall|i: int| 0 <= i < v.ids_issued(calls).len() implies #[trigger] v.ids_issued(calls)[i]
            == v.next_op_id + i by {
            if i < k {
                assert(v.ids_issued(calls)[i] == v.ids_issued(pre)[i]);
            } else {
                assert(v.ids_issued(calls)[i] == step[i - k]);
            }
        }
    }
}

/// Op ids are handed out 0, 1, 2, ... in call order over any sequence of
/// calls on a new timeline: each commit, and each global clear that records
/// a clear op, takes the next number, so no id is ever handed out twice,
/// not even after a reset; undo, redo and reset hand out none and leave the
/// next id as it is. Every timeline so reached is valid.
pub proof fn lemma_op_ids_are_consecutive(calls: Seq<TimelineCall>)
    requires
        TimelineView::empty().ids_issued(calls).len() <= u64::MAX,
    ensures
        forall|i: int|
            0 <= i < TimelineView::empty().ids_issued(calls).len() ==> #[trigger] TimelineView::empty().ids_issued(
                calls,
            )[i] == i,
        TimelineView::empty().after_calls(calls).next_op_id == TimelineView::empty().ids_issued(calls).len(),
        TimelineView::empty().after_calls(calls).valid(),
        forall|k: int|
            0 <= k < calls.len() && (calls[k] is Undo || calls[k] is Redo || calls[k] is Reset) ==> {
                let w = #[trigger] TimelineView::empty().after_calls(calls.take(k));
                &&& w.after_call(calls[k]).next_op_id == w.next_op_id
                &&& w.id_issued_by(calls[k]).len() == 0
            },
{
    let e = TimelineView::empty();
    assert(ids_below(Seq::<OpRecord>::empty(), 0));
    assert(folds_only_first(Seq::<OpRecord>::empty()));
    assert(redo_chain_consistent(Seq::<OpRecord>::empty(), Seq::<OpRecord>::empty()));
    lemma_ids_issued_from(e, calls);
}

/// Undo and redo on a timeline with nothing to take change nothing.
pub proof fn lemma_undo_redo_on_nothing(v: TimelineView)
    ensures
        v.active.len() == 0 ==> v.undo_op() is None && v.after_undo() == v,
        v.undone.len() == 0 ==> v.redo_op() is None && v.after_redo() == v,
{
}

impl Timeline {
    #[verifier::type_invariant]
    closed spec fn well_formed(self) -> bool {
        self@.valid()
    }

    /// An empty timeline.
    pub fn new() -> (t: Timeline)
        ensures
            t@ == TimelineView::empty(),
            t@.valid(),
    {
        let t = Timeline { active: Vec::new(), undone: Vec::new(), next_op_id: 0 };
        assert(t@.active =~= Seq::<OpRecord>::empty());
        assert(t@.undone =~= Seq::<OpRecord>::empty());
        t
    }

    /// The id that the next recorded op gets.
    pub fn next_op_id(&self) -> (id: u64)
        ensures
            id == self@.next_op_id,
    {
        self.next_op_id
    }

    /// The active (undoable) ops, oldest first.
    pub fn active_ops(&self) -> (ops: &Vec<TimelineOp>)
        ensures
            records(ops@) == self@.active,
    {
        &self.active
    }

    /// The undone (redoable) ops, most recently undone last.
    pub fn undone_ops(&self) -> (ops: &Vec<TimelineOp>)
        ensures
            records(ops@) == self@.undone,
    {
        &self.undone
    }

    /// Takes the timeline's fields out, leaving an empty timeline behind.
    fn take_parts(&mut self) -> (parts: (Vec<TimelineOp>, Vec<TimelineOp>, u64))
        ensures
            records(parts.0@) == old(self)@.active,
            records(parts.1@) == old(self)@.undone,
            parts.2 == old(self)@.next_op_id,
            old(self)@.valid(),
    {
        proof {
            use_type_invariant(&*self);
        }
        let mut t = Timeline::new();
        std::mem::swap(self, &mut t);
        proof {
            use_type_invariant(&t);
        }
        let Timeline { active, undone, next_op_id } = t;
        (active, undone, next_op_id)
    }

    /// Record a new op: appended after every active op; any redoable history
    /// is invalidated.
    pub fn commit(&mut self, owner: &str, kind: &str) -> (op_id: u64)
        requires
            old(self)@.next_op_id < u64::MAX,
        ensures
            op_id == old(self)@.next_op_id,
            final(self)@ == old(self)@.after_commit(owner@, kind@),
            final(self)@.valid(),
    {
        let (mut active, mut undone, next_op_id) = self.take_parts();
        let ghost pre = TimelineView {
            active: records(active@),
            undone: records(undone@),
            next_op_id,
        };
        proof {
            lemma_operations_keep_valid(pre, owner@, kind@);
        }
        let op_id = next_op_id;
        let op = TimelineOp {
            op_id,
            owner: String::from_str(owner),
            kind: String::from_str(kind),
            frozen: Vec::new(),
        };
        let ghost old_active = active@;
        active.push(op);
        undone.clear();
        proof {
            lemma_records_push(old_active, op);
            assert(op.record().frozen =~= Seq::<OpRecord>::empty());
            assert(records(undone@) =~= Seq::<OpRecord>::empty());
            lemma_folds_only_first_push(records(old_active), op.record());
        }
        *self = Timeline { active, undone, next_op_id: next_op_id + 1 };
        op_id
    }

    /// Globally-latest op, moved to the redo list. Unfolding a clear op
    /// releases its frozen ops back onto the active list in commit order.
    pub fn undo(&mut self) -> (op: Option<TimelineOp>)
        ensures
            record_of(op) == old(self)@.undo_op(),
            final(self)@ == old(self)@.after_undo(),
            final(self)@.valid(),
    {
        let (mut active, mut undone, next_op_id) = self.take_parts();
        let ghost pre = TimelineView {
            active: records(active@),
            undone: records(undone@),
            next_op_id,
        };
        let ghost old_active = active@;
        let ghost old_undone = undone@;
        match active.pop() {
            None => {
                *self = Timeline { active, undone, next_op_id };
                None
            },
            Some(op) => {
                proof {
                    assert(old_active =~= active@.push(op));
                    lemma_records_push(active@, op);
                }
                let ghost base = active@;
                let n = op.frozen.len();
                let mut i: usize = 0;
                while i < n
                    invariant
                        n == op.frozen@.len(),
                        i <= n,
                        active@.len() == base.len() + i,
                        forall|j: int| 0 <= j < base.len() ==> #[trigger] active@[j] == base[j],
                        forall|j: int| base.len() <= j < active@.len() ==> #[trigger] active@[j].record() == op.frozen@[j - base.len()].record(),
                    decreases n - i,
                {
                    let copy = op.frozen[i].duplicate();
                    active.push(copy);
                    i = i + 1;
                }
                let result = op.duplicate();
                let ghost op_rec = op.record();
                undone.push(op);
                proof {
                    assert(records(active@) =~= records(base) + op_rec.frozen) by {
                        assert forall|j: int| 0 <= j < active@.len() implies
                            #[trigger] records(active@)[j] == (records(base) + op_rec.frozen)[j] by {
                            if j >= base.len() {
                                assert(active@[j].record() == op.frozen@[j - base.len()].record());
                            }
                        }
                    }
                    lemma_records_push(old_undone, op);
                    assert(records(old_active) == records(base).push(op_rec));
                    assert(pre.active.last() == op_rec);
                    assert(pre.active.drop_last() =~= records(base));
                    lemma_undo_valid(pre);
                }
                *self = Timeline { active, undone, next_op_id };
                Some(result)
            },
        }
    }

    /// Most-recently undone op, moved back onto the active list. Redoing a
    /// clear op re-folds the currently active ops (necessarily the released
    /// frozen set) back into it.
    pub fn redo(&mut self) -> (op: Option<TimelineOp>)
        ensures
            record_of(op) == old(self)@.redo_op(),
            final(self)@ == old(self)@.after_redo(),
            final(self)@.valid(),
    {
        let (mut active, mut undone, next_op_id) = self.take_parts();
        let ghost pre = TimelineView {
            active: records(active@),
            undone: records(undone@),
            next_op_id,
        };
        let ghost old_active = active@;
        let ghost old_undone = undone@;
        match undone.pop() {
            None => {
                *self = Timeline { active, undone, next_op_id };
                None
            },
            Some(op) => {
                proof {
                    assert(old_undone =~= undone@.push(op));
                    lemma_records_push(undone@, op);
                }
                if op.frozen.len() > 0 {
                    active.clear();
                }
                let result = op.duplicate();
                let ghost mid = active@;
                active.push(op);
                proof {
                    lemma_records_push(mid, op);
                    assert(pre.undone.last() == op.record());
                    assert(pre.undone.drop_last() =~= records(undone@));
                    if op.frozen@.len() > 0 {
                        assert(records(mid) =~= Seq::<OpRecord>::empty());
                        assert(records(active@) =~= seq![op.record()]);
                    }
                    lemma_redo_valid(pre);
                }
                *self = Timeline { active, undone, next_op_id };
                Some(result)
            },
        }
    }

    /// Fold every active op into a single global clear op so one undo
    /// restores all displays. Idempotent when there is nothing to clear:
    /// still records the clear op if the timeline has undone history.
    pub fn begin_global_clear(&mut self) -> (op: Option<TimelineOp>)
        requires
            old(self)@.next_op_id < u64::MAX,
        ensures
            record_of(op) == old(self)@.clear_op(),
            final(self)@ == old(self)@.after_global_clear(),
            final(self)@.valid(),
    {
        let (active, mut undone, next_op_id) = self.take_parts();
        let ghost pre = TimelineView {
            active: records(active@),
            undone: records(undone@),
            next_op_id,
        };
        proof {
            lemma_operations_keep_valid(pre, Seq::empty(), Seq::empty());
        }
        if active.len() == 0 && undone.len() == 0 {
            *self = Timeline { active, undone, next_op_id };
            return None;
        }
        let op_id = next_op_id;
        let op = TimelineOp {
            op_id,
            owner: String::new(),
            kind: String::from_str("clear"),
            frozen: active,
        };
        undone.clear();
        let result = op.duplicate();
        let mut new_active: Vec<TimelineOp> = Vec::new();
        new_active.push(op);
        proof {
            assert(op.record().frozen =~= records(op.frozen@));
            assert(op.record().owner =~= Seq::<char>::empty());
            assert(records(new_active@) =~= seq![op.record()]);
            assert(records(undone@) =~= Seq::<OpRecord>::empty());
            lemma_folds_only_first_single(op.record());
        }
        *self = Timeline { active: new_active, undone, next_op_id: next_op_id + 1 };
        Some(result)
    }

    /// Drop all history (non-undoable hard reset).
    pub fn reset(&mut self)
        ensures
            final(self)@ == old(self)@.after_reset(),
            final(self)@.valid(),
    {
        let (mut active, mut undone, next_op_id) = self.take_parts();
        active.clear();
        undone.clear();
        proof {
            assert(records(active@) =~= Seq::<OpRecord>::empty());
            assert(records(undone@) =~= Seq::<OpRecord>::empty());
        }
        *self = Timeline { active, undone, next_op_id };
    }

    pub fn can_undo(&self) -> (b: bool)
        ensures
            b == (self@.active.len() > 0),
    {
        self.active.len() > 0
    }

    pub fn can_redo(&self) -> (b: bool)
        ensures
            b == (self@.undone.len() > 0),
    {
        self.undone.len() > 0
    }

    pub fn is_empty(&self) -> (b: bool)
        ensures
            b == (self@.active.len() == 0 && self@.undone.len() == 0),
    {
        self.active.len() == 0 && self.undone.len() == 0
    }

    /// The availability that the toolbar shows.
    pub fn state(&self) -> (s: TimelineState)
        ensures
            s.can_undo == (self@.active.len() > 0),
            s.can_redo == (self@.undone.len() > 0),
    {
        TimelineState { can_undo: self.can_undo(), can_redo: self.can_redo() }
    }
}

} // verus!
