//! The append-only Timeline: the ground-truth record of real transitions.
//!
//! Records are only ever appended; none is changed or removed afterwards,
//! and the record at position `i` carries index `i`.

use vstd::prelude::*;

pub use crate::grid::Grid;
use crate::grid::{board, copy_grid};
use crate::text::owned;

verus! {

/// The mathematical value of one recorded transition.
pub struct Record {
    pub index: int,
    pub before: Seq<Seq<u8>>,
    pub action: Seq<char>,
    pub after: Seq<Seq<u8>>,
    pub level_up: bool,
    pub dead: bool,
    pub win: bool,
}

impl Record {
    /// A recorded transition ends a level, the life, or the game.
    pub open spec fn terminal(self) -> bool {
        self.level_up || self.dead || self.win
    }
}

/// One real environment transition.
#[derive(Debug, Clone, PartialEq, Eq)]
pub struct Transition {
    pub index: usize,
    pub state_before: Grid,
    pub action: String,
    pub state_after: Grid,
    pub level_up: bool,
    pub dead: bool,
    pub win: bool,
}

impl View for Transition {
    type V = Record;

    open spec fn view(&self) -> Record {
        Record {
            index: self.index as int,
            before: board(&self.state_before),
            action: self.action@,
            after: board(&self.state_after),
            level_up: self.level_up,
            dead: self.dead,
            win: self.win,
        }
    }
}

impl Transition {
    pub fn terminal(&self) -> (r: bool)
        ensures
            r == self@.terminal(),
    {
        self.level_up || self.dead || self.win
    }

    /// A copy of this transition.
    pub fn copied(&self) -> (r: Transition)
        ensures
            r@ == self@,
    {
        Transition {
            index: self.index,
            state_before: copy_grid(&self.state_before),
            action: owned(self.action.as_str()),
            state_after: copy_grid(&self.state_after),
            level_up: self.level_up,
            dead: self.dead,
            win: self.win,
        }
    }
}

/// The record that `append` adds at position `i`.
pub open spec fn appended(
    i: int,
    before: Seq<Seq<u8>>,
    action: Seq<char>,
    after: Seq<Seq<u8>>,
    level_up: bool,
    dead: bool,
    win: bool,
) -> Record {
    Record { index: i, before, action, after, level_up, dead, win }
}

/// Every record carries its own position as index.
pub open spec fn indexed(s: Seq<Record>) -> bool {
    forall|i: int| 0 <= i < s.len() ==> #[trigger] s[i].index == i
}

/// Append-only sequence of [`Transition`]s.
#[derive(Debug)]
pub struct Timeline {
    records: Vec<Transition>,
}

impl View for Timeline {
    type V = Seq<Record>;

    closed spec fn view(&self) -> Seq<Record> {
        self.records@.map_values(|t: Transition| t@)
    }
}

impl Timeline {
    #[verifier::type_invariant]
    spec fn indexed(self) -> bool {
        forall|i: int| 0 <= i < self.records@.len() ==> #[trigger] self.records@[i].index == i
    }

    pub fn new() -> (t: Timeline)
        ensures
            t@ == Seq::<Record>::empty(),
    {
        let t = Timeline { records: Vec::new() };
        assert(t@ =~= Seq::<Record>::empty());
        t
    }

    /// Appends one transition; every earlier record stays as it was.
    pub fn append(
        &mut self,
        state_before: Grid,
        action: &str,
        state_after: Grid,
        level_up: bool,
        dead: bool,
        win: bool,
    ) -> (r: &Transition)
        requires
            old(self)@.len() < usize::MAX,
        ensures
            final(self)@ == old(self)@.push(
                appended(
                    old(self)@.len() as int,
                    board(&state_before),
                    action@,
                    board(&state_after),
                    level_up,
                    dead,
                    win,
                ),
            ),
            r@ == final(self)@.last(),
            indexed(final(self)@),
    {
        proof {
            use_type_invariant(&*self);
        }
        let index = self.records.len();
        let t = Transition {
            index,
            state_before,
            action: owned(action),
            state_after,
            level_up,
            dead,
            win,
        };
        let mut records: Vec<Transition> = Vec::new();
        std::mem::swap(&mut records, &mut self.records);
        records.push(t);
        self.records = records;
        assert(self@ =~= old(self)@.push(
            appended(old(self)@.len() as int, board(&state_before), action@, board(&state_after), level_up, dead, win),
        ));
        let n = self.records.len();
        &self.records[n - 1]
    }

    pub fn len(&self) -> (n: usize)
        ensures
            n == self@.len(),
            indexed(self@),
    {
        proof {
            use_type_invariant(self);
        }
        self.records.len()
    }

    pub fn is_empty(&self) -> (b: bool)
        ensures
            b == (self@.len() == 0),
    {
        self.records.len() == 0
    }

    pub fn get(&self, i: usize) -> (r: Option<&Transition>)
        ensures
            match r {
                Some(t) => i < self@.len() && t@ == self@[i as int],
                None => i >= self@.len(),
            },
    {
        if i < self.records.len() {
            Some(&self.records[i])
        } else {
            None
        }
    }

    /// The recorded transitions in order.
    pub fn iter(&self) -> (it: std::slice::Iter<'_, Transition>)
        ensures
            vstd::std_specs::iter::IteratorSpec::remaining(&it).map_values(|t: &Transition| t@)
                == self@,
    {
        broadcast use vstd::std_specs::slice::axiom_spec_slice_iter;

        let it = self.records.as_slice().iter();
        assert(vstd::std_specs::iter::IteratorSpec::remaining(&it).map_values(|t: &Transition| t@)
            =~= self@);
        it
    }

    pub fn last(&self) -> (r: Option<&Transition>)
        ensures
            match r {
                Some(t) => self@.len() > 0 && t@ == self@.last(),
                None => self@.len() == 0,
            },
    {
        let n = self.records.len();
        if n == 0 {
            None
        } else {
            Some(&self.records[n - 1])
        }
    }
}

impl<'a> IntoIterator for &'a Timeline {
    type Item = &'a Transition;
    type IntoIter = std::slice::Iter<'a, Transition>;

    /// The recorded transitions in order.
    fn into_iter(self) -> (it: std::slice::Iter<'a, Transition>)
        ensures
            vstd::std_specs::iter::IteratorSpec::remaining(&it).map_values(|t: &Transition| t@)
                == self@,
    {
        self.iter()
    }
}

} // verus!
