use vstd::prelude::*;

use crate::counting::{count_eq, lemma_count_is_multiplicity};

verus! {

/// Ternary actuator command: reverse (-1), stop (0), forward (+1).
#[derive(Clone, Copy, Debug, PartialEq, Eq, Structural)]
pub enum TernaryActuator {
    Reverse,
    Stop,
    Forward,
}

impl TernaryActuator {
    /// The integer a command stands for.
    pub open spec fn as_int(self) -> int {
        match self {
            TernaryActuator::Reverse => -1,
            TernaryActuator::Stop => 0,
            TernaryActuator::Forward => 1,
        }
    }

    /// The command that stands for `v`, if any.
    pub open spec fn of_int(v: int) -> Option<TernaryActuator> {
        if v == -1 {
            Some(TernaryActuator::Reverse)
        } else if v == 0 {
            Some(TernaryActuator::Stop)
        } else if v == 1 {
            Some(TernaryActuator::Forward)
        } else {
            None
        }
    }

    pub fn value(self) -> (v: i8)
        ensures
            v == self.as_int(),
            -1 <= v <= 1,
            (v == -1) == (self == TernaryActuator::Reverse),
            (v == 0) == (self == TernaryActuator::Stop),
            (v == 1) == (self == TernaryActuator::Forward),
    {
        match self {
            TernaryActuator::Reverse => -1,
            TernaryActuator::Stop => 0,
            TernaryActuator::Forward => 1,
        }
    }

    pub fn from_value(v: i8) -> (r: Option<TernaryActuator>)
        ensures
            r == TernaryActuator::of_int(v as int),
            r is Some <==> -1 <= v <= 1,
            r matches Some(a) ==> a.as_int() == v,
            v == -1 ==> r == Some(TernaryActuator::Reverse),
            v == 0 ==> r == Some(TernaryActuator::Stop),
            v == 1 ==> r == Some(TernaryActuator::Forward),
    {
        match v {
            -1 => Some(TernaryActuator::Reverse),
            0 => Some(TernaryActuator::Stop),
            1 => Some(TernaryActuator::Forward),
            _ => None,
        }
    }
}

/// Decoding the value of a command gives the command back, and every value that
/// decodes to a command is that command's value.
pub proof fn lemma_value_round_trip(a: TernaryActuator, v: int)
    ensures
        TernaryActuator::of_int(a.as_int()) == Some(a),
        TernaryActuator::of_int(v) matches Some(b) ==> b.as_int() == v,
        TernaryActuator::of_int(v) is None <==> (v < -1 || v > 1),
{
}

/// The most common reading; ties go to Reverse first, then Forward, then Stop.
pub open spec fn majority_of(s: Seq<TernaryActuator>) -> TernaryActuator {
    let r = count_eq(s, TernaryActuator::Reverse);
    let z = count_eq(s, TernaryActuator::Stop);
    let f = count_eq(s, TernaryActuator::Forward);
    if r >= z && r >= f {
        TernaryActuator::Reverse
    } else if f >= z {
        TernaryActuator::Forward
    } else {
        TernaryActuator::Stop
    }
}

/// Every reading is counted under exactly one command.
pub proof fn lemma_votes_partition(s: Seq<TernaryActuator>)
    ensures
        count_eq(s, TernaryActuator::Reverse) + count_eq(s, TernaryActuator::Stop)
            + count_eq(s, TernaryActuator::Forward) == s.len(),
    decreases s.len(),
{
    if s.len() > 0 {
        lemma_votes_partition(s.drop_last());
    }
}

/// The majority is a command that no other command outnumbers.
pub proof fn lemma_majority_is_most_common(s: Seq<TernaryActuator>, a: TernaryActuator)
    ensures
        count_eq(s, a) <= count_eq(s, majority_of(s)),
{
}

/// The vote is decided by how many times each command occurs among the readings,
/// whatever their order: Reverse when no command occurs more often, otherwise
/// Forward when Stop does not occur more often, otherwise Stop.
pub proof fn lemma_majority_by_multiplicity(s: Seq<TernaryActuator>)
    ensures
        ({
            let r = s.to_multiset().count(TernaryActuator::Reverse);
            let z = s.to_multiset().count(TernaryActuator::Stop);
            let f = s.to_multiset().count(TernaryActuator::Forward);
            majority_of(s) == if r >= z && r >= f {
                TernaryActuator::Reverse
            } else if f >= z {
                TernaryActuator::Forward
            } else {
                TernaryActuator::Stop
            }
        }),
{
    lemma_count_is_multiplicity(s, TernaryActuator::Reverse);
    lemma_count_is_multiplicity(s, TernaryActuator::Stop);
    lemma_count_is_multiplicity(s, TernaryActuator::Forward);
}

/// Reordering the readings never changes the vote.
pub proof fn lemma_majority_order_free(s: Seq<TernaryActuator>, t: Seq<TernaryActuator>)
    requires
        s.to_multiset() == t.to_multiset(),
    ensures
        majority_of(s) == majority_of(t),
{
    lemma_majority_by_multiplicity(s);
    lemma_majority_by_multiplicity(t);
}

/// Readings that all agree elect the command they agree on.
pub proof fn lemma_unanimous_majority(s: Seq<TernaryActuator>, a: TernaryActuator)
    requires
        s.len() > 0,
        forall|i: int| 0 <= i < s.len() ==> s[i] == a,
    ensures
        majority_of(s) == a,
{
    lemma_unanimous_count(s, a);
    lemma_votes_partition(s);
}

proof fn lemma_unanimous_count(s: Seq<TernaryActuator>, a: TernaryActuator)
    requires
        forall|i: int| 0 <= i < s.len() ==> s[i] == a,
    ensures
        count_eq(s, a) == s.len(),
    decreases s.len(),
{
    if s.len() > 0 {
        lemma_unanimous_count(s.drop_last(), a);
    }
}

/// A differential drive turns when its two wheels get different commands.
pub fn is_turning(left: TernaryActuator, right: TernaryActuator) -> (r: bool)
    ensures
        r == (left != right),
{
    left != right
}

/// A differential drive is stopped when both wheels are commanded to Stop.
pub fn is_stopped(left: TernaryActuator, right: TernaryActuator) -> (r: bool)
    ensures
        r == (left == TernaryActuator::Stop && right == TernaryActuator::Stop),
{
    left == TernaryActuator::Stop && right == TernaryActuator::Stop
}

/// The most common command among `readings` (the majority vote of a sensor
/// array); an empty array, or a three-way tie, votes Reverse.
pub fn majority(readings: &[TernaryActuator]) -> (m: TernaryActuator)
    ensures
        m == majority_of(readings@),
        ({
            let r = readings@.to_multiset().count(TernaryActuator::Reverse);
            let z = readings@.to_multiset().count(TernaryActuator::Stop);
            let f = readings@.to_multiset().count(TernaryActuator::Forward);
            m == if r >= z && r >= f {
                TernaryActuator::Reverse
            } else if f >= z {
                TernaryActuator::Forward
            } else {
                TernaryActuator::Stop
            }
        }),
        forall|a: TernaryActuator| count_eq(readings@, a) <= count_eq(readings@, m),
{
    let mut reverse: usize = 0;
    let mut stop: usize = 0;
    let mut forward: usize = 0;
    let mut i: usize = 0;
    while i < readings.len()
        invariant
            i <= readings@.len(),
            reverse == count_eq(readings@.take(i as int), TernaryActuator::Reverse),
            stop == count_eq(readings@.take(i as int), TernaryActuator::Stop),
            forward == count_eq(readings@.take(i as int), TernaryActuator::Forward),
        decreases readings@.len() - i,
    {
        proof {
            lemma_votes_partition(readings@.take(i as int));
            assert(readings@.take(i + 1).drop_last() =~= readings@.take(i as int));
        }
        match readings[i] {
            TernaryActuator::Reverse => reverse += 1,
            TernaryActuator::Stop => stop += 1,
            TernaryActuator::Forward => forward += 1,
        }
        i += 1;
    }
    proof {
        assert(readings@.take(i as int) =~= readings@);
        lemma_majority_by_multiplicity(readings@);
    }
    if reverse >= stop && reverse >= forward {
        TernaryActuator::Reverse
    } else if forward >= stop {
        TernaryActuator::Forward
    } else {
        TernaryActuator::Stop
    }
}

} // verus!
