//! A single recorded placement: its sequence number, its board position and
//! mover, and the list of stones it captured.
use vstd::prelude::*;

verus! {

/// Stone states on the board are encoded as `1` (black), `-1` (white) and
/// `0` (empty); a captured stone is remembered together with the state it
/// had before it was removed, so that undo can restore it.
#[derive(Debug)]
pub struct GoMove {
    pub move_id: usize,
    pub move_pos: (usize, usize, i8),
    pub eat_stones: Vec<(usize, usize, i8)>,
}

impl GoMove {
    pub fn new(move_id: usize, pos_x: usize, pos_y: usize, cur_state: i8) -> (r: Self)
        ensures
            r.move_id == move_id,
            r.move_pos == (pos_x, pos_y, cur_state),
            r.eat_stones@ == Seq::<(usize, usize, i8)>::empty(),
    {
        GoMove { move_id, move_pos: (pos_x, pos_y, cur_state), eat_stones: vec![] }
    }

    pub fn new_with_eaten_stones(
        move_id: usize,
        pos_x: usize,
        pos_y: usize,
        cur_state: i8,
        eat_stones: Vec<(usize, usize, i8)>,
    ) -> (r: Self)
        ensures
            r.move_id == move_id,
            r.move_pos == (pos_x, pos_y, cur_state),
            r.eat_stones@ == eat_stones@,
    {
        GoMove { move_id, move_pos: (pos_x, pos_y, cur_state), eat_stones }
    }

    pub fn set_eaten_stones(&mut self, eaten_stones: Vec<(usize, usize, i8)>)
        ensures
            final(self).move_id == old(self).move_id,
            final(self).move_pos == old(self).move_pos,
            final(self).eat_stones@ == eaten_stones@,
    {
        self.eat_stones = eaten_stones;
    }

    pub fn eaten_stones(&self) -> (r: Vec<(usize, usize, i8)>)
        ensures
            r@ == self.eat_stones@,
    {
        copy_stones(&self.eat_stones)
    }

    pub fn move_pos(&self) -> (r: (usize, usize, i8))
        ensures
            r == self.move_pos,
    {
        self.move_pos
    }

    pub fn move_id(&self) -> (r: usize)
        ensures
            r == self.move_id,
    {
        self.move_id
    }
}

/// Element-wise copy of a captured-stone list.
pub fn copy_stones(v: &Vec<(usize, usize, i8)>) -> (r: Vec<(usize, usize, i8)>)
    ensures
        r@ == v@,
{
    let mut r: Vec<(usize, usize, i8)> = Vec::new();
    let mut i: usize = 0;
    while i < v.len()
        invariant
            i <= v.len(),
            r@ == v@.subrange(0, i as int),
        decreases v.len() - i,
    {
        r.push(v[i]);
        i = i + 1;
    }
    assert(r@ =~= v@);
    r
}

} // verus!
