use vstd::prelude::*;

verus! {

/// The name every terminal node carries; no real variable may use it.
pub const TERMINAL_NAME: i32 = 0x7fff_ffff;

/// A decision variable, identified by its (unique) name.
#[derive(Clone, Copy, Debug, PartialEq, Eq, Hash, Structural)]
pub struct BddVar {
    pub name: i32,
}

impl BddVar {
    pub fn new(name: i32) -> (r: BddVar)
        ensures
            r.name == name,
    {
        BddVar { name }
    }

    /// The variable carried by the two terminal nodes.
    pub fn terminal() -> (r: BddVar)
        ensures
            r.name == TERMINAL_NAME,
    {
        BddVar { name: TERMINAL_NAME }
    }
}

/// An index into the node array of one diagram.
#[derive(Clone, Copy, Debug, PartialEq, Eq, Hash, Structural)]
pub struct BddPointer {
    pub index: usize,
}

impl BddPointer {
    pub fn new(index: usize) -> (r: BddPointer)
        ensures
            r.index == index,
    {
        BddPointer { index }
    }

    pub fn new_zero() -> (r: BddPointer)
        ensures
            r.index == 0,
    {
        BddPointer { index: 0 }
    }

    pub fn new_one() -> (r: BddPointer)
        ensures
            r.index == 1,
    {
        BddPointer { index: 1 }
    }

    pub fn to_index(&self) -> (r: usize)
        ensures
            r == self.index,
    {
        self.index
    }

    pub fn is_terminal(&self) -> (r: bool)
        ensures
            r == (self.index < 2),
    {
        self.index < 2
    }

    pub fn is_zero(&self) -> (r: bool)
        ensures
            r == (self.index == 0),
    {
        self.index == 0
    }

    pub fn is_one(&self) -> (r: bool)
        ensures
            r == (self.index == 1),
    {
        self.index == 1
    }

    /// The truth value of a terminal pointer, `None` for a decision node.
    pub fn as_bool(&self) -> (r: Option<bool>)
        ensures
            r == terminal_value(self.index as int),
    {
        if self.index == 0 {
            Some(false)
        } else if self.index == 1 {
            Some(true)
        } else {
            None
        }
    }

    pub fn from_bool(value: bool) -> (r: BddPointer)
        ensures
            r.index == (if value { 1usize } else { 0usize }),
    {
        if value {
            BddPointer::new_one()
        } else {
            BddPointer::new_zero()
        }
    }

    /// Exchange the two terminals; a decision pointer stays as it is.
    pub fn flip_if_terminal(&mut self)
        ensures
            final(self).index == flip(old(self).index),
    {
        if self.index == 0 {
            self.index = 1;
        } else if self.index == 1 {
            self.index = 0;
        }
    }
}

pub open spec fn terminal_value(p: int) -> Option<bool> {
    if p == 0 {
        Some(false)
    } else if p == 1 {
        Some(true)
    } else {
        None
    }
}

pub open spec fn flip(p: usize) -> usize {
    if p == 0 {
        1
    } else if p == 1 {
        0
    } else {
        p
    }
}

/// A decision node: test `var`, follow `low` when it is false and `high` when it is true.
#[derive(Clone, Copy, Debug, PartialEq, Eq, Hash, Structural)]
pub struct BddNode {
    pub var: BddVar,
    pub low: BddPointer,
    pub high: BddPointer,
}

impl BddNode {
    pub fn mk_node(var: BddVar, low: BddPointer, high: BddPointer) -> (r: BddNode)
        ensures
            r == (BddNode { var, low, high }),
    {
        BddNode { var, low, high }
    }

    /// The FALSE terminal entry: both edges lead back to index 0.
    pub fn mk_zero(var: BddVar) -> (r: BddNode)
        ensures
            r == zero_node(var),
    {
        BddNode { var, low: BddPointer::new_zero(), high: BddPointer::new_zero() }
    }

    /// The TRUE terminal entry: both edges lead back to index 1.
    pub fn mk_one(var: BddVar) -> (r: BddNode)
        ensures
            r == one_node(var),
    {
        BddNode { var, low: BddPointer::new_one(), high: BddPointer::new_one() }
    }
}

pub open spec fn zero_node(var: BddVar) -> BddNode {
    BddNode { var, low: BddPointer { index: 0 }, high: BddPointer { index: 0 } }
}

pub open spec fn one_node(var: BddVar) -> BddNode {
    BddNode { var, low: BddPointer { index: 1 }, high: BddPointer { index: 1 } }
}

} // verus!
