//! Two-valued sensor readings and the logic that combines them.

use vstd::prelude::*;

verus! {

/// One sensor reading.
#[derive(Clone, Copy, PartialEq, Eq, Structural, Debug)]
pub enum Sensor {
    False,
    True,
}

/// A gate that combines two readings.
#[derive(Clone, Copy, PartialEq, Eq, Structural, Debug)]
pub enum Op {
    And,
    Or,
}

impl Sensor {
    /// Whether the reading is `True`.
    pub open spec fn is_on(self) -> bool {
        self == Sensor::True
    }

    /// The reading for a truth value.
    pub open spec fn of(on: bool) -> Sensor {
        if on {
            Sensor::True
        } else {
            Sensor::False
        }
    }

    /// The reading that a text names, if it names one: "FALSE" or "TRUE".
    pub open spec fn named(text: Seq<char>) -> Option<Sensor> {
        if text == "FALSE"@ {
            Some(Sensor::False)
        } else if text == "TRUE"@ {
            Some(Sensor::True)
        } else {
            None
        }
    }

    /// Reads the name of a reading: "FALSE" or "TRUE".
    pub fn from_str(s: &str) -> (out: Result<Sensor, ()>)
        ensures
            out == match Sensor::named(s@) {
                Some(sensor) => Ok::<Sensor, ()>(sensor),
                None => Err::<Sensor, ()>(()),
            },
    {
        let text = s.to_owned();
        if text == "FALSE".to_owned() {
            Ok(Sensor::False)
        } else if text == "TRUE".to_owned() {
            Ok(Sensor::True)
        } else {
            Err(())
        }
    }

    /// Whether the reading is `True`.
    pub fn on(self) -> (b: bool)
        ensures
            b == self.is_on(),
    {
        match self {
            Sensor::True => true,
            Sensor::False => false,
        }
    }
}

/// What a gate gives for two readings.
pub open spec fn gate(a: Sensor, b: Sensor, op: Op) -> Sensor {
    match op {
        Op::And => Sensor::of(a.is_on() && b.is_on()),
        Op::Or => Sensor::of(a.is_on() || b.is_on()),
    }
}

/// Applies a gate to two readings.
pub fn perform_operation(input1: Sensor, input2: Sensor, operation: Op) -> (out: Sensor)
    ensures
        out == gate(input1, input2, operation),
{
    match operation {
        Op::And => match (input1, input2) {
            (Sensor::True, Sensor::True) => Sensor::True,
            _ => Sensor::False,
        },
        Op::Or => match (input1, input2) {
            (Sensor::False, Sensor::False) => Sensor::False,
            _ => Sensor::True,
        },
    }
}

/// The sum of the one-based positions of the `True` readings.
pub open spec fn position_sum(s: Seq<Sensor>) -> nat
    decreases s.len(),
{
    if s.len() == 0 {
        0
    } else {
        position_sum(s.drop_last()) + if s.last().is_on() {
            s.len()
        } else {
            0nat
        }
    }
}

/// A prefix never sums to more than the whole.
pub proof fn lemma_position_sum_prefix(s: Seq<Sensor>, n: int)
    requires
        0 <= n <= s.len(),
    ensures
        position_sum(s.take(n)) <= position_sum(s),
    decreases s.len(),
{
    if n == s.len() {
        assert(s.take(n) =~= s);
    } else {
        assert(s.drop_last().take(n) =~= s.take(n));
        lemma_position_sum_prefix(s.drop_last(), n);
    }
}

/// The sum of the one-based positions of the `True` readings.
pub fn part1(input: Vec<Sensor>) -> (total: usize)
    requires
        position_sum(input@) <= usize::MAX,
    ensures
        total == position_sum(input@),
{
    let mut total: usize = 0;
    let mut i: usize = 0;
    while i < input.len()
        invariant
            i <= input.len(),
            position_sum(input@) <= usize::MAX,
            total == position_sum(input@.take(i as int)),
        decreases input.len() - i,
    {
        proof {
            assert(input@.take(i + 1).drop_last() =~= input@.take(i as int));
            lemma_position_sum_prefix(input@, i + 1);
        }
        if input[i].on() {
            total = total + (i + 1);
        }
        i += 1;
    }
    proof {
        assert(input@.take(input.len() as int) =~= input@);
    }
    total
}

/// How many of the first `groups` groups of four readings have a `True`
/// `And` of their first two readings, plus how many have a `True` `Or` of
/// their last two. A pair that the readings end before does not count.
pub open spec fn pair_hits(s: Seq<Sensor>, groups: nat) -> nat
    decreases groups,
{
    if groups == 0 {
        0
    } else {
        let at = 4 * (groups - 1);
        let first = if at + 1 < s.len() && gate(s[at], s[at + 1], Op::And).is_on() {
            1nat
        } else {
            0nat
        };
        let second = if at + 3 < s.len() && gate(s[at + 2], s[at + 3], Op::Or).is_on() {
            1nat
        } else {
            0nat
        };
        pair_hits(s, (groups - 1) as nat) + first + second
    }
}

/// The number of groups of four that the readings start, the last one
/// perhaps incomplete.
pub open spec fn group_count(s: Seq<Sensor>) -> nat {
    ((s.len() + 3) / 4) as nat
}

/// Splits the readings into groups of four and counts the groups whose first
/// pair is `True` under `And`, plus those whose second pair is `True` under `Or`.
pub fn part2(input: Vec<Sensor>) -> (count: usize)
    ensures
        count == pair_hits(input@, group_count(input@)),
{
    let n = input.len();
    let mut count: usize = 0;
    let mut at: usize = 0;
    let ghost mut groups: nat = 0;
    while at < n
        invariant
            n == input.len(),
            at == 4 * groups || (at == n && groups == group_count(input@)),
            at <= n,
            groups <= group_count(input@),
            at < n ==> groups < group_count(input@),
            at == n ==> groups == group_count(input@),
            count == pair_hits(input@, groups),
            count <= 2 * groups,
            2 * groups <= n + 3,
        decreases n - at,
    {
        if n - at >= 2 {
            match perform_operation(input[at], input[at + 1], Op::And) {
                Sensor::True => {
                    count = count + 1;
                },
                Sensor::False => {},
            }
        }
        if n - at >= 4 {
            match perform_operation(input[at + 2], input[at + 3], Op::Or) {
                Sensor::True => {
                    count = count + 1;
                },
                Sensor::False => {},
            }
            at = at + 4;
        } else {
            at = n;
        }
        proof {
            groups = groups + 1;
        }
    }
    count
}

/// How many readings are `True`.
pub open spec fn count_on(s: Seq<Sensor>) -> nat
    decreases s.len(),
{
    if s.len() == 0 {
        0
    } else {
        count_on(s.drop_last()) + if s.last().is_on() {
            1nat
        } else {
            0nat
        }
    }
}

/// Which operation combines the pair at position `k` of a layer: `And` and
/// `Or` in turn, starting with `And`.
pub open spec fn gate_at(k: int) -> Op {
    if k % 2 == 0 {
        Op::And
    } else {
        Op::Or
    }
}

/// The next layer: each full pair of readings combined by its gate. A last
/// reading without a partner is dropped.
pub open spec fn next_layer(s: Seq<Sensor>) -> Seq<Sensor> {
    Seq::new((s.len() / 2) as nat, |k: int| gate(s[2 * k], s[2 * k + 1], gate_at(k)))
}

/// The number of `True` readings in a layer and in all the layers below it.
pub open spec fn cascade_total(s: Seq<Sensor>) -> nat
    decreases s.len(),
{
    if s.len() == 0 {
        0
    } else {
        count_on(s) + cascade_total(next_layer(s))
    }
}

/// A prefix never holds more `True` readings than the whole.
pub proof fn lemma_count_on_prefix(s: Seq<Sensor>, n: int)
    requires
        0 <= n <= s.len(),
    ensures
        count_on(s.take(n)) <= count_on(s),
    decreases s.len(),
{
    if n == s.len() {
        assert(s.take(n) =~= s);
    } else {
        assert(s.drop_last().take(n) =~= s.take(n));
        lemma_count_on_prefix(s.drop_last(), n);
    }
}

/// How many readings are `True`.
fn count_true(layer: &Vec<Sensor>) -> (count: usize)
    ensures
        count == count_on(layer@),
{
    let mut count: usize = 0;
    let mut i: usize = 0;
    while i < layer.len()
        invariant
            i <= layer.len(),
            count == count_on(layer@.take(i as int)),
            count <= i,
        decreases layer.len() - i,
    {
        proof {
            assert(layer@.take(i + 1).drop_last() =~= layer@.take(i as int));
        }
        if layer[i].on() {
            count = count + 1;
        }
        i += 1;
    }
    proof {
        assert(layer@.take(layer.len() as int) =~= layer@);
    }
    count
}

/// Combines the pairs of a layer into the next layer.
fn reduce(layer: &Vec<Sensor>) -> (out: Vec<Sensor>)
    ensures
        out@ == next_layer(layer@),
{
    let mut out: Vec<Sensor> = Vec::new();
    let mut operation = Op::And;
    let mut at: usize = 0;
    let n = layer.len();
    while n - at >= 2
        invariant
            n == layer.len(),
            at <= n,
            at == 2 * out@.len(),
            operation == gate_at(out@.len() as int),
            forall|k: int|
                0 <= k < out@.len() ==> out@[k] == gate(
                    layer@[2 * k],
                    layer@[2 * k + 1],
                    gate_at(k),
                ),
        decreases n - at,
    {
        out.push(perform_operation(layer[at], layer[at + 1], operation));
        operation =
        match operation {
            Op::And => Op::Or,
            Op::Or => Op::And,
        };
        at = at + 2;
    }
    proof {
        assert(out@ =~= next_layer(layer@));
    }
    out
}

/// Counts the `True` readings of the input and of every layer that the
/// gates reduce it to, down to the empty layer.
pub fn part3(input: Vec<Sensor>) -> (total: usize)
    requires
        cascade_total(input@) <= usize::MAX,
    ensures
        total == cascade_total(input@),
{
    let mut layer = input;
    let mut total: usize = 0;
    while layer.len() > 0
        invariant
            total + cascade_total(layer@) == cascade_total(input@),
            cascade_total(input@) <= usize::MAX,
        decreases layer.len(),
    {
        let here = count_true(&layer);
        total = total + here;
        layer = reduce(&layer);
    }
    total
}

} // verus!
