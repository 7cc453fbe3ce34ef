//! Undo for canvas edits: which frames of actions take a snapshot of the
//! node being edited, and the bounded history of those snapshots with its
//! redo side.

use vstd::prelude::*;

verus! {

/// A continuous gesture: its frames collapse into one undo step while the
/// pointer stays held.
#[derive(Clone, Copy, PartialEq, Eq, Structural, Debug)]
pub enum Gesture {
    Move,
    Resize,
    ColumnWidth,
}

/// How a canvas action counts for undo: not at all (typing, selection,
/// view), as a one-shot edit, or as a frame of a continuous gesture.
#[derive(Clone, Copy, PartialEq, Eq, Structural, Debug)]
pub enum UndoKind {
    Untracked,
    Discrete,
    Continuous(Gesture),
}

/// Some action of the frame is a one-shot edit.
pub open spec fn has_discrete(kinds: Seq<UndoKind>) -> bool {
    exists|i: int| 0 <= i < kinds.len() && #[trigger] kinds[i] == UndoKind::Discrete
}

/// The gesture of the frame's last continuous action, if it has one.
pub open spec fn last_gesture(kinds: Seq<UndoKind>) -> Option<Gesture>
    decreases kinds.len(),
{
    if kinds.len() == 0 {
        None
    } else {
        match kinds.last() {
            UndoKind::Continuous(t) => Some(t),
            _ => last_gesture(kinds.drop_last()),
        }
    }
}

/// Whether a frame of actions snapshots the node first, and the gesture
/// the history is inside afterwards. A released pointer ends any gesture;
/// a one-shot edit always snapshots and ends it; a continuous action
/// snapshots only when it does not continue the gesture already held.
pub open spec fn spec_undo_step(held: Option<Gesture>, pointer_down: bool, kinds: Seq<UndoKind>) -> (
    bool,
    Option<Gesture>,
) {
    let held = if pointer_down {
        held
    } else {
        None
    };
    if has_discrete(kinds) {
        (true, None)
    } else {
        match last_gesture(kinds) {
            Some(t) => if held == Some(t) {
                (false, held)
            } else {
                (true, Some(t))
            },
            None => (false, held),
        }
    }
}

/// Decides whether a frame of canvas actions takes an undo snapshot, and
/// which gesture the history is inside afterwards.
pub fn undo_step(held: Option<Gesture>, pointer_down: bool, kinds: &Vec<UndoKind>) -> (r: (
    bool,
    Option<Gesture>,
))
    ensures
        r == spec_undo_step(held, pointer_down, kinds@),
{
    let held = if pointer_down {
        held
    } else {
        None
    };
    let mut discrete = false;
    let mut cont: Option<Gesture> = None;
    let mut i: usize = 0;
    while i < kinds.len()
        invariant
            i <= kinds.len(),
            discrete == has_discrete(kinds@.take(i as int)),
            cont == last_gesture(kinds@.take(i as int)),
        decreases kinds.len() - i,
    {
        let k = kinds[i];
        let ghost before = kinds@.take(i as int);
        let ghost after = kinds@.take(i + 1);
        assert(after.drop_last() =~= before);
        assert(after.last() == k);
        match k {
            UndoKind::Discrete => {
                assert(after[i as int] == UndoKind::Discrete);
                discrete = true;
            },
            UndoKind::Continuous(t) => {
                assert(has_discrete(after) == has_discrete(before)) by {
                    if has_discrete(after) {
                        let j = choose|j: int|
                            0 <= j < after.len() && #[trigger] after[j] == UndoKind::Discrete;
                        assert(before[j] == after[j]);
                    }
                    if has_discrete(before) {
                        let j = choose|j: int|
                            0 <= j < before.len() && #[trigger] before[j] == UndoKind::Discrete;
                        assert(after[j] == before[j]);
                    }
                }
                cont = Some(t);
            },
            UndoKind::Untracked => {
                assert(has_discrete(after) == has_discrete(before)) by {
                    if has_discrete(after) {
                        let j = choose|j: int|
                            0 <= j < after.len() && #[trigger] after[j] == UndoKind::Discrete;
                        assert(before[j] == after[j]);
                    }
                    if has_discrete(before) {
                        let j = choose|j: int|
                            0 <= j < before.len() && #[trigger] before[j] == UndoKind::Discrete;
                        assert(after[j] == before[j]);
                    }
                }
            },
        }
        i += 1;
    }
    assert(kinds@.take(kinds.len() as int) =~= kinds@);
    if discrete {
        (true, None)
    } else {
        match cont {
            Some(t) => {
                let same = match held {
                    Some(h) => h == t,
                    None => false,
                };
                if same {
                    (false, held)
                } else {
                    (true, Some(t))
                }
            },
            None => (false, held),
        }
    }
}

/// The most snapshots the history holds, undo and redo sides together.
pub const MAX_UNDO: usize = 40;

/// Snapshots of nodes taken before edits (`undo`, newest last), and the
/// states that undoing replaced (`redo`, newest last).
pub struct UndoHistory<T> {
    pub undo: Vec<(u64, T)>,
    pub redo: Vec<(u64, T)>,
}

/// The position of the newest entry of `s` whose node is in `alive`, or -1.
pub open spec fn last_alive<T>(s: Seq<(u64, T)>, alive: Seq<u64>) -> int
    decreases s.len(),
{
    if s.len() == 0 {
        -1
    } else if alive.contains(s.last().0) {
        s.len() - 1
    } else {
        last_alive(s.drop_last(), alive)
    }
}

/// Whether `id` is one of `ids`.
fn holds_id(ids: &Vec<u64>, id: u64) -> (r: bool)
    ensures
        r == ids@.contains(id),
{
    let mut i: usize = 0;
    while i < ids.len()
        invariant
            i <= ids.len(),
            forall|j: int| 0 <= j < i ==> ids@[j] != id,
        decreases ids.len() - i,
    {
        if ids[i] == id {
            assert(ids@[i as int] == id);
            return true;
        }
        i += 1;
    }
    false
}

/// Pops entries off `v` until one whose node is in `alive`, which it hands
/// out; the entries above it are dropped.
fn pop_alive<T>(v: &mut Vec<(u64, T)>, alive: &Vec<u64>) -> (r: Option<(u64, T)>)
    ensures
        ({
            let k = last_alive(old(v)@, alive@);
            &&& -1 <= k < old(v)@.len()
            &&& k < 0 ==> r is None && final(v)@.len() == 0
            &&& k >= 0 ==> r == Some(old(v)@[k]) && final(v)@ == old(v)@.take(k)
        }),
{
    proof {
        lemma_last_alive_range(old(v)@, alive@);
    }
    while v.len() > 0
        invariant
            v@.len() <= old(v)@.len(),
            v@ == old(v)@.take(v@.len() as int),
            last_alive(v@, alive@) == last_alive(old(v)@, alive@),
            -1 <= last_alive(old(v)@, alive@) < old(v)@.len(),
        decreases v.len(),
    {
        let ghost before = v@;
        let e = v.pop().unwrap();
        assert(before.last() == e);
        assert(v@ =~= before.drop_last());
        assert(v@ =~= old(v)@.take(v@.len() as int));
        if holds_id(alive, e.0) {
            assert(last_alive(before, alive@) == before.len() - 1);
            return Some(e);
        }
    }
    None
}

proof fn lemma_last_alive_range<T>(s: Seq<(u64, T)>, alive: Seq<u64>)
    ensures
        -1 <= last_alive(s, alive) < s.len(),
    decreases s.len(),
{
    if s.len() > 0 {
        lemma_last_alive_range(s.drop_last(), alive);
    }
}

impl<T> UndoHistory<T> {
    /// The history holds at most `MAX_UNDO` snapshots in all.
    pub open spec fn wf(&self) -> bool {
        self.undo@.len() + self.redo@.len() <= MAX_UNDO
    }

    /// An empty history.
    pub fn new() -> (r: Self)
        ensures
            r.undo@.len() == 0,
            r.redo@.len() == 0,
    {
        UndoHistory { undo: Vec::new(), redo: Vec::new() }
    }

    /// Forgets every snapshot, as when another document is opened.
    pub fn clear(&mut self)
        ensures
            final(self).undo@.len() == 0,
            final(self).redo@.len() == 0,
    {
        self.undo.clear();
        self.redo.clear();
    }

    /// Records the state of `node` before an edit: the redo side is
    /// dropped, and past `MAX_UNDO` snapshots the oldest goes.
    pub fn push_undo(&mut self, node: u64, snap: T)
        ensures
            old(self).wf() ==> final(self).wf(),
            final(self).redo@.len() == 0,
            final(self).undo@ == (if old(self).undo@.len() + 1 > MAX_UNDO {
                old(self).undo@.push((node, snap)).drop_first()
            } else {
                old(self).undo@.push((node, snap))
            }),
    {
        self.redo.clear();
        self.undo.push((node, snap));
        if self.undo.len() > MAX_UNDO {
            let ghost pushed = self.undo@;
            self.undo.remove(0);
            assert(self.undo@ =~= pushed.drop_first());
        }
    }

    /// Steps back: hands out the newest undo snapshot whose node is among
    /// `alive`, dropping the newer ones whose node is gone. The caller puts
    /// the snapshot in place and gives the state it replaced to
    /// `record_redo`.
    pub fn take_undo(&mut self, alive: &Vec<u64>) -> (r: Option<(u64, T)>)
        ensures
            final(self).redo@ == old(self).redo@,
            ({
                let k = last_alive(old(self).undo@, alive@);
                &&& k < 0 ==> r is None && final(self).undo@.len() == 0
                &&& k >= 0 ==> r == Some(old(self).undo@[k]) && final(self).undo@ == old(
                    self,
                ).undo@.take(k)
            }),
    {
        pop_alive(&mut self.undo, alive)
    }

    /// Steps forward again: hands out the newest redo entry whose node is
    /// among `alive`, dropping the newer ones whose node is gone. The caller
    /// puts it in place and gives the state it replaced to `record_undo`.
    pub fn take_redo(&mut self, alive: &Vec<u64>) -> (r: Option<(u64, T)>)
        ensures
            final(self).undo@ == old(self).undo@,
            ({
                let k = last_alive(old(self).redo@, alive@);
                &&& k < 0 ==> r is None && final(self).redo@.len() == 0
                &&& k >= 0 ==> r == Some(old(self).redo@[k]) && final(self).redo@ == old(
                    self,
                ).redo@.take(k)
            }),
    {
        pop_alive(&mut self.redo, alive)
    }

    /// Keeps the state that an undo replaced, for a later redo.
    pub fn record_redo(&mut self, node: u64, cur: T)
        ensures
            old(self).undo@.len() + old(self).redo@.len() < MAX_UNDO ==> final(self).wf(),
            final(self).undo@ == old(self).undo@,
            final(self).redo@ == old(self).redo@.push((node, cur)),
    {
        self.redo.push((node, cur));
    }

    /// Keeps the state that a redo replaced, for a later undo.
    pub fn record_undo(&mut self, node: u64, cur: T)
        ensures
            old(self).undo@.len() + old(self).redo@.len() < MAX_UNDO ==> final(self).wf(),
            final(self).redo@ == old(self).redo@,
            final(self).undo@ == old(self).undo@.push((node, cur)),
    {
        self.undo.push((node, cur));
    }
}

} // verus!
