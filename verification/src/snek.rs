//! The body state: an immutable snapshot of the cells the agent occupies,
//! ordered head to tail (the head is element 0), with no duplicate cells.
//! The two transition operators produce new snapshots: `go` prepends a new
//! head and drops the tail (length unchanged), `eat` prepends a new head and
//! keeps every cell (length grows by one). Both require the new head to be a
//! cell the body does not already occupy.

use std::collections::VecDeque;

use vstd::prelude::*;

use crate::grid::GridPosition;

verus! {

/// One occupied cell of the body.
#[derive(Clone, Copy, Debug)]
pub struct Segment {
    pub pos: GridPosition,
}

impl Segment {
    pub fn new(pos: GridPosition) -> (r: Self)
        ensures
            r.pos == pos,
    {
        Segment { pos }
    }
}

/// The agent's body: the occupied cells, head first.
#[derive(Clone, Debug)]
pub struct Snek {
    pub body: VecDeque<Segment>,
}

impl View for Snek {
    type V = Seq<GridPosition>;

    open spec fn view(&self) -> Seq<GridPosition> {
        self.body@.map_values(|s: Segment| s.pos)
    }
}

/// Copies a body cell by cell.
fn copy_body(v: &VecDeque<Segment>) -> (r: VecDeque<Segment>)
    ensures
        r@ == v@,
{
    let mut r: VecDeque<Segment> = VecDeque::new();
    let mut i: usize = 0;
    while i < v.len()
        invariant
            i <= v@.len(),
            r@ == v@.take(i as int),
        decreases v@.len() - i,
    {
        r.push_back(v[i]);
        proof {
            assert(r@ =~= v@.take(i + 1));
        }
        i = i + 1;
    }
    proof {
        assert(r@ =~= v@);
    }
    r
}

impl Snek {
    /// A body never occupies the same cell twice.
    pub open spec fn wf(self) -> bool {
        self@.no_duplicates()
    }

    /// Constructs a length-1 body whose single cell is one step behind
    /// `pos` along the fixed initial orientation.
    pub fn new(pos: GridPosition) -> (r: Self)
        requires
            i32::MIN < pos.x,
        ensures
            r@ == seq![GridPosition { x: (pos.x - 1) as i32, y: pos.y }],
            r.wf(),
    {
        let mut body: VecDeque<Segment> = VecDeque::new();
        body.push_back(Segment::new(GridPosition { x: pos.x - 1, y: pos.y }));
        let r = Snek { body };
        proof {
            assert(r@ =~= seq![GridPosition { x: (pos.x - 1) as i32, y: pos.y }]);
        }
        r
    }

    /// The head: the foremost cell, the one that advances on each move.
    pub fn get_head(&self) -> (r: GridPosition)
        requires
            self@.len() >= 1,
        ensures
            r == self@[0],
    {
        self.body[0].pos
    }

    /// The grow transition: `pos` becomes the new head and every existing
    /// cell is kept, so the body is one cell longer.
    pub fn eat(&self, pos: GridPosition) -> (r: Snek)
        requires
            self.wf(),
            !self@.contains(pos),
        ensures
            r@ == seq![pos] + self@,
            r@.len() == self@.len() + 1,
            r.wf(),
    {
        let mut e = copy_body(&self.body);
        e.push_front(Segment::new(pos));
        let r = Snek { body: e };
        proof {
            assert(r@ =~= seq![pos] + self@);
            lemma_prepend_fresh_no_duplicates(self@, pos);
        }
        r
    }

    /// True iff `pos` appears anywhere in the body.
    pub fn is_occupied(&self, pos: &GridPosition) -> (r: bool)
        ensures
            r == self@.contains(*pos),
    {
        let mut i: usize = 0;
        while i < self.body.len()
            invariant
                i <= self@.len(),
                self@.len() == self.body@.len(),
                forall|j: int| 0 <= j < i ==> self@[j] != *pos,
            decreases self@.len() - i,
        {
            if self.body[i].pos == *pos {
                proof {
                    assert(self@[i as int] == *pos);
                }
                return true;
            }
            i = i + 1;
        }
        false
    }

    /// The advance transition: `pos` becomes the new head and the tail cell
    /// is dropped, so the body keeps its length.
    pub fn go(&self, pos: &GridPosition) -> (r: Snek)
        requires
            self.wf(),
            self@.len() >= 1,
            !self@.contains(*pos),
        ensures
            r@ == seq![*pos] + self@.drop_last(),
            r@.len() == self@.len(),
            r.wf(),
    {
        let mut e = copy_body(&self.body);
        e.push_front(Segment::new(*pos));
        e.pop_back();
        let r = Snek { body: e };
        proof {
            assert(r@ =~= seq![*pos] + self@.drop_last());
            assert forall|c: GridPosition| self@.drop_last().contains(c) implies self@.contains(
                c,
            ) by {
                let k = choose|k: int| 0 <= k < self@.drop_last().len() && self@.drop_last()[k]
                    == c;
                assert(self@[k] == c);
            }
            lemma_sub_no_duplicates(self@);
            lemma_prepend_fresh_no_duplicates(self@.drop_last(), *pos);
        }
        r
    }
}

/// Prepending a cell that a duplicate-free body does not contain keeps it
/// duplicate-free.
proof fn lemma_prepend_fresh_no_duplicates(s: Seq<GridPosition>, pos: GridPosition)
    requires
        s.no_duplicates(),
        !s.contains(pos),
    ensures
        (seq![pos] + s).no_duplicates(),
{
    let t = seq![pos] + s;
    assert forall|i: int, j: int| 0 <= i < t.len() && 0 <= j < t.len() && i != j implies t[i]
        != t[j] by {
        if i == 0 {
            assert(t[j] == s[j - 1]);
            assert(s.contains(s[j - 1]));
        } else if j == 0 {
            assert(t[i] == s[i - 1]);
            assert(s.contains(s[i - 1]));
        } else {
            assert(t[i] == s[i - 1] && t[j] == s[j - 1]);
        }
    }
}

/// Dropping the last cell of a duplicate-free body keeps it duplicate-free.
proof fn lemma_sub_no_duplicates(s: Seq<GridPosition>)
    requires
        s.no_duplicates(),
        s.len() >= 1,
    ensures
        s.drop_last().no_duplicates(),
{
}

} // verus!
