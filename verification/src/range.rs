//! Ranges over keys, with wrap-around semantics.
//!
//! A range is an ordered pair `(x, y)`:
//! - `x == y` denotes the whole key space ("all");
//! - `x < y` denotes the half-open interval `[x, y)`;
//! - `x > y` denotes the wrap-around complement `[x, inf) union (-inf, y)`.

use vstd::prelude::*;

use crate::keys::{
    clone_key, key_cmp, key_le, key_lt, lemma_key_lt_asymmetric, lemma_key_lt_irreflexive,
    lemma_key_lt_trichotomy, KeyOrder,
};

verus! {

/// The mathematical model of a range: its two endpoint keys.
pub struct RangeV {
    pub x: Seq<u8>,
    pub y: Seq<u8>,
}

impl RangeV {
    /// `x == y`: the range denotes the whole key space.
    pub open spec fn is_all(self) -> bool {
        self.x == self.y
    }

    /// `x < y`: the range denotes the half-open interval `[x, y)`.
    pub open spec fn is_normal(self) -> bool {
        key_lt(self.x, self.y)
    }

    /// `x > y`: the range wraps around the end of the key space.
    pub open spec fn is_wrap(self) -> bool {
        key_lt(self.y, self.x)
    }

    /// Whether the range contains the key `k`.
    pub open spec fn contains(self, k: Seq<u8>) -> bool {
        if self.is_all() {
            true
        } else if self.is_normal() {
            key_le(self.x, k) && key_lt(k, self.y)
        } else {
            key_le(self.x, k) || key_lt(k, self.y)
        }
    }
}

/// A range of keys, exchanged between peers inside message parts.
pub struct Range {
    x: Vec<u8>,
    y: Vec<u8>,
}

impl View for Range {
    type V = RangeV;

    closed spec fn view(&self) -> RangeV {
        RangeV { x: self.x@, y: self.y@ }
    }
}

impl Clone for Range {
    fn clone(&self) -> (r: Self)
        ensures
            r@ == self@,
    {
        Range { x: clone_key(&self.x), y: clone_key(&self.y) }
    }
}

impl Range {
    pub fn new(x: Vec<u8>, y: Vec<u8>) -> (r: Range)
        ensures
            r@.x == x@,
            r@.y == y@,
    {
        Range { x, y }
    }

    pub fn x(&self) -> (r: &Vec<u8>)
        ensures
            r@ == self@.x,
    {
        &self.x
    }

    pub fn y(&self) -> (r: &Vec<u8>)
        ensures
            r@ == self@.y,
    {
        &self.y
    }

    /// Give up the two endpoint keys.
    pub fn into_endpoints(self) -> (r: (Vec<u8>, Vec<u8>))
        ensures
            r.0@ == self@.x,
            r.1@ == self@.y,
    {
        (self.x, self.y)
    }

    /// Whether the range denotes the whole key space.
    pub fn is_all(&self) -> (r: bool)
        ensures
            r == self@.is_all(),
    {
        match key_cmp(&self.x, &self.y) {
            KeyOrder::Equal => true,
            _ => false,
        }
    }

    /// Whether the range contains the key `t`.
    pub fn contains(&self, t: &Vec<u8>) -> (r: bool)
        ensures
            r == self@.contains(t@),
    {
        match key_cmp(&self.x, &self.y) {
            KeyOrder::Equal => true,
            KeyOrder::Less => {
                let ge_x = match key_cmp(&self.x, t) {
                    KeyOrder::Greater => false,
                    _ => true,
                };
                let lt_y = match key_cmp(t, &self.y) {
                    KeyOrder::Less => true,
                    _ => false,
                };
                proof {
                    lemma_key_lt_trichotomy(self@.x, t@);
                    lemma_key_lt_asymmetric(self@.x, t@);
                    lemma_key_lt_irreflexive(self@.x);
                }
                ge_x && lt_y
            },
            KeyOrder::Greater => {
                let ge_x = match key_cmp(&self.x, t) {
                    KeyOrder::Greater => false,
                    _ => true,
                };
                let lt_y = match key_cmp(t, &self.y) {
                    KeyOrder::Less => true,
                    _ => false,
                };
                proof {
                    lemma_key_lt_trichotomy(self@.x, t@);
                    lemma_key_lt_asymmetric(self@.x, t@);
                    lemma_key_lt_irreflexive(self@.x);
                }
                ge_x || lt_y
            },
        }
    }
}

/// Law: for every key and every range, exactly one of the three range forms
/// applies — whole space, normal interval, or wrap-around — and containment
/// matches that form's clause.
pub proof fn lemma_contains_total(r: RangeV, k: Seq<u8>)
    ensures
        r.is_all() || r.is_normal() || r.is_wrap(),
        !(r.is_all() && r.is_normal()),
        !(r.is_all() && r.is_wrap()),
        !(r.is_normal() && r.is_wrap()),
        r.is_all() ==> r.contains(k),
        r.is_normal() ==> (r.contains(k) <==> key_le(r.x, k) && key_lt(k, r.y)),
        r.is_wrap() ==> (r.contains(k) <==> key_le(r.x, k) || key_lt(k, r.y)),
{
    lemma_key_lt_trichotomy(r.x, r.y);
    lemma_key_lt_asymmetric(r.x, r.y);
    lemma_key_lt_irreflexive(r.x);
}

} // verus!
