//! Smooth weighted round robin over a fixed set of weighted candidates.

use vstd::prelude::*;

use crate::error::StoreError;

verus! {

/// Something with a non-negative scheduling weight.
pub trait Weight {
    /// The weight, as a value.
    spec fn spec_weight(&self) -> int;

    fn weight(&self) -> (r: i32)
        ensures
            r >= 0,
            r == self.spec_weight(),
    ;
}

/// The greatest common divisor, with `gcd(a, 0) == a`.
pub open spec fn gcd_spec(a: int, b: int) -> int
    decreases b,
    when b >= 0
{
    if b <= 0 {
        a
    } else {
        gcd_spec(b, a % b)
    }
}

/// The largest weight, or zero when there is none.
pub open spec fn max_weight_of(ws: Seq<int>) -> int
    decreases ws.len(),
{
    if ws.len() == 0 {
        0
    } else {
        let m = max_weight_of(ws.drop_last());
        if ws.last() > m {
            ws.last()
        } else {
            m
        }
    }
}

/// The greatest common divisor of all weights, folded from the left starting at zero.
pub open spec fn gcd_weight_of(ws: Seq<int>) -> int
    decreases ws.len(),
{
    if ws.len() == 0 {
        0
    } else {
        gcd_spec(gcd_weight_of(ws.drop_last()), ws.last())
    }
}

/// The scheduling state of a selector, as values.
pub ghost struct SelectorModel {
    /// The weight of each candidate, read when the selector was built.
    pub weights: Seq<int>,
    pub max_weight: int,
    pub gcd_weight: int,
    /// The candidate chosen last (at first, the last candidate).
    pub index: int,
    pub current_weight: int,
}

/// One scan step: move to the next candidate (the index advances modulo the number of
/// candidates); on wrapping round to the first, lower the
/// current weight by the gcd, starting again from the largest weight when it drops to zero.
pub open spec fn scan_step(s: SelectorModel) -> SelectorModel {
    let i = if s.index + 1 < s.weights.len() {
        s.index + 1
    } else {
        0
    };
    let c = if i == 0 {
        if s.current_weight - s.gcd_weight <= 0 {
            s.max_weight
        } else {
            s.current_weight - s.gcd_weight
        }
    } else {
        s.current_weight
    };
    SelectorModel { index: i, current_weight: c, ..s }
}

/// Whether the scan stops at its current candidate.
pub open spec fn accepts(s: SelectorModel) -> bool {
    s.weights[s.index] >= s.current_weight
}

/// The state in which a scan from `s` stops, taking at most `fuel + 1` steps.
pub open spec fn scan_from(s: SelectorModel, fuel: nat) -> SelectorModel
    decreases fuel,
{
    let t = scan_step(s);
    if accepts(t) || fuel == 0 {
        t
    } else {
        scan_from(t, (fuel - 1) as nat)
    }
}

/// The state after a call of `next` on a selector with candidates and a positive weight.
pub open spec fn next_state(s: SelectorModel) -> SelectorModel {
    scan_from(s, s.weights.len())
}

/// Whether every call of `next` returns nothing: no candidates, or no positive weight.
pub open spec fn exhausted(s: SelectorModel) -> bool {
    s.weights.len() == 0 || s.max_weight == 0
}

/// A selector over candidates that all weigh zero, or over none, is exhausted: by the
/// contract of `next`, every call returns no candidate and leaves the selector as it was.
pub proof fn lemma_no_positive_weight(s: SelectorModel)
    requires
        model_wf(s),
        forall|i: int| 0 <= i < s.weights.len() ==> #[trigger] s.weights[i] == 0,
    ensures
        exhausted(s),
{
    lemma_max_weight(s.weights);
}

/// Whether `j` is the first position at or after `from` whose weight reaches `c`.
pub open spec fn first_reaching(ws: Seq<int>, from: int, c: int, j: int) -> bool {
    &&& from <= j < ws.len()
    &&& ws[j] >= c
    &&& forall|k: int| from <= k < j ==> #[trigger] ws[k] < c
}

/// The current weight after a wrap: lowered by the gcd, or back to the largest weight.
pub open spec fn lowered(s: SelectorModel) -> int {
    if s.current_weight - s.gcd_weight <= 0 {
        s.max_weight
    } else {
        s.current_weight - s.gcd_weight
    }
}

proof fn lemma_first_reaching_exists(ws: Seq<int>, from: int, c: int, m: int)
    requires
        0 <= from <= m < ws.len(),
        ws[m] >= c,
    ensures
        exists|j: int| #[trigger] first_reaching(ws, from, c, j) && j <= m,
    decreases m - from,
{
    if ws[from] < c {
        lemma_first_reaching_exists(ws, from + 1, c, m);
        let j = choose|j: int| #[trigger] first_reaching(ws, from + 1, c, j) && j <= m;
        assert(first_reaching(ws, from, c, j));
    } else {
        assert(first_reaching(ws, from, c, from));
    }
}

proof fn lemma_scan_within(s: SelectorModel, j: int, fuel: nat)
    requires
        0 <= s.index,
        first_reaching(s.weights, s.index + 1, s.current_weight, j),
        fuel >= j - s.index - 1,
    ensures
        scan_from(s, fuel) == (SelectorModel { index: j, ..s }),
    decreases j - s.index,
{
    let t = scan_step(s);
    assert(t == (SelectorModel { index: s.index + 1, ..s }));
    if j != s.index + 1 {
        assert(s.weights[s.index + 1] < s.current_weight);
        lemma_scan_within(t, j, (fuel - 1) as nat);
    }
}

proof fn lemma_scan_wrapping(s: SelectorModel, j: int, fuel: nat)
    requires
        0 <= s.index < s.weights.len(),
        forall|k: int| s.index < k < s.weights.len() ==> #[trigger] s.weights[k] < s.current_weight,
        first_reaching(s.weights, 0, lowered(s), j),
        fuel >= s.weights.len() - 1 - s.index + j,
    ensures
        scan_from(s, fuel) == (SelectorModel { index: j, current_weight: lowered(s), ..s }),
    decreases s.weights.len() - s.index,
{
    let t = scan_step(s);
    if s.index + 1 < s.weights.len() {
        assert(t == (SelectorModel { index: s.index + 1, ..s }));
        assert(!accepts(t));
        lemma_scan_wrapping(t, j, (fuel - 1) as nat);
    } else {
        assert(t == (SelectorModel { index: 0, current_weight: lowered(s), ..s }));
        if j != 0 {
            assert(!accepts(t));
            lemma_scan_within(t, j, (fuel - 1) as nat);
        }
    }
}

/// How `next` moves on, from a state it chose (or from a fresh selector): to the first
/// later candidate whose weight reaches the current weight; and when there is none, round
/// to the first candidate whose weight reaches the current weight lowered by the gcd (or
/// reset to the largest weight once that drops to zero).
pub proof fn lemma_next_state(s: SelectorModel)
    requires
        model_wf(s),
        !exhausted(s),
        s.current_weight == 0 || s.weights[s.index] >= s.current_weight,
    ensures
        forall|j: int| #[trigger]
            first_reaching(s.weights, s.index + 1, s.current_weight, j) ==> next_state(s) == (
            SelectorModel { index: j, ..s }),
        (forall|k: int| s.index < k < s.weights.len() ==> #[trigger] s.weights[k]
            < s.current_weight) ==> exists|j: int|
            #[trigger] first_reaching(s.weights, 0, lowered(s), j) && next_state(s) == (SelectorModel {
                index: j,
                current_weight: lowered(s),
                ..s
            }),
{
    let ws = s.weights;
    let n = ws.len();
    assert forall|j: int| #[trigger]
        first_reaching(ws, s.index + 1, s.current_weight, j) implies next_state(s) == (
        SelectorModel { index: j, ..s }) by {
        lemma_scan_within(s, j, n as nat);
    }
    if forall|k: int| s.index < k < n ==> #[trigger] ws[k] < s.current_weight {
        lemma_max_weight(ws);
        let m = choose|m: int| 0 <= m < n && ws[m] == max_weight_of(ws);
        if s.current_weight == 0 {
            lemma_first_reaching_exists(ws, 0, lowered(s), m);
        } else if lowered(s) == s.max_weight {
            assert(m <= s.index);
            lemma_first_reaching_exists(ws, 0, lowered(s), m);
        } else {
            lemma_first_reaching_exists(ws, 0, lowered(s), s.index);
        }
        let j = choose|j: int| #[trigger] first_reaching(ws, 0, lowered(s), j) && j <= s.index;
        lemma_scan_wrapping(s, j, n as nat);
    }
}

/// A selector with a candidate of positive weight is not exhausted: every call of `next`
/// then chooses a candidate.
pub proof fn lemma_positive_weight(s: SelectorModel, i: int)
    requires
        model_wf(s),
        0 <= i < s.weights.len(),
        s.weights[i] > 0,
    ensures
        !exhausted(s),
{
    lemma_max_weight(s.weights);
}

/// Chooses among weighted candidates so that, over a round, each is chosen in proportion
/// to its weight, spread out rather than in bursts.
///
/// Candidates are addressed by their position in the list the selector was built from;
/// their weights are read once, when it is built.
pub struct WeightedRoundRobin {
    current_weight: i32,
    max_weight: i32,
    gcd_weight: i32,
    current_index: usize,
    weights: Vec<i32>,
}

impl View for WeightedRoundRobin {
    type V = SelectorModel;

    closed spec fn view(&self) -> SelectorModel {
        SelectorModel {
            weights: self.weights@.map_values(|w: i32| w as int),
            max_weight: self.max_weight as int,
            gcd_weight: self.gcd_weight as int,
            index: self.current_index as int,
            current_weight: self.current_weight as int,
        }
    }
}

/// How many candidates a scan passes over, from `index`, before it reaches `m`.
pub open spec fn steps_before(index: int, m: int, n: int) -> int {
    if m > index {
        m - index - 1
    } else {
        m - index - 1 + n
    }
}

/// The invariant of a selector's model.
pub open spec fn model_wf(s: SelectorModel) -> bool {
    &&& forall|i: int| 0 <= i < s.weights.len() ==> 0 <= #[trigger] s.weights[i]
    &&& s.max_weight == max_weight_of(s.weights)
    &&& s.gcd_weight == gcd_weight_of(s.weights)
    &&& s.gcd_weight >= 0
    &&& 0 <= s.current_weight <= s.max_weight
    &&& s.weights.len() > 0 ==> 0 <= s.index < s.weights.len()
    &&& s.current_weight == 0 ==> s.index == s.weights.len() - 1 || s.weights.len() == 0
}

/// The largest weight bounds every weight and, when positive, is some candidate's.
pub proof fn lemma_max_weight(ws: Seq<int>)
    requires
        forall|i: int| 0 <= i < ws.len() ==> 0 <= #[trigger] ws[i],
    ensures
        max_weight_of(ws) >= 0,
        forall|i: int| 0 <= i < ws.len() ==> #[trigger] ws[i] <= max_weight_of(ws),
        max_weight_of(ws) > 0 ==> exists|m: int| 0 <= m < ws.len() && ws[m] == max_weight_of(ws),
    decreases ws.len(),
{
    if ws.len() > 0 {
        let init = ws.drop_last();
        assert forall|i: int| 0 <= i < init.len() implies 0 <= #[trigger] init[i] by {
            assert(init[i] == ws[i]);
        }
        lemma_max_weight(init);
        assert forall|i: int| 0 <= i < ws.len() implies #[trigger] ws[i] <= max_weight_of(ws) by {
            if i < ws.len() - 1 {
                assert(init[i] == ws[i]);
            }
        }
        if max_weight_of(ws) > 0 {
            if ws.last() > max_weight_of(init) {
                assert(ws[ws.len() - 1] == max_weight_of(ws));
            } else {
                let m = choose|m: int| 0 <= m < init.len() && init[m] == max_weight_of(init);
                assert(ws[m] == max_weight_of(ws));
            }
        }
    }
}

proof fn lemma_gcd_nonneg(a: int, b: int)
    requires
        a >= 0,
        b >= 0,
    ensures
        gcd_spec(a, b) >= 0,
    decreases b,
{
    if b > 0 {
        lemma_gcd_nonneg(b, a % b);
    }
}

/// The greatest common divisor of two non-negative numbers.
pub fn gcd(a: i32, b: i32) -> (r: i32)
    requires
        a >= 0,
        b >= 0,
    ensures
        r == gcd_spec(a as int, b as int),
        r >= 0,
    decreases b,
{
    proof {
        lemma_gcd_nonneg(a as int, b as int);
    }
    if b == 0 {
        a
    } else {
        gcd(b, a % b)
    }
}

impl WeightedRoundRobin {
    pub open spec fn wf(&self) -> bool {
        model_wf(self@)
    }

    /// Builds a selector over the candidates, reading each weight once.
    pub fn new<T: Weight>(servers: &Vec<T>) -> (r: Self)
        ensures
            r.wf(),
            r@.weights.len() == servers@.len(),
            forall|i: int| 0 <= i < servers@.len() ==> r@.weights[i] == #[trigger] servers@[i].spec_weight(),
            r@.max_weight == max_weight_of(r@.weights),
            r@.gcd_weight == gcd_weight_of(r@.weights),
            r@.current_weight == 0,
            servers@.len() > 0 ==> r@.index == servers@.len() - 1,
    {
        let mut weights: Vec<i32> = Vec::new();
        let mut max_weight: i32 = 0;
        let mut gcd_weight: i32 = 0;
        let mut i: usize = 0;
        while i < servers.len()
            invariant
                i <= servers.len(),
                weights.len() == i,
                forall|j: int| 0 <= j < i ==> 0 <= #[trigger] weights[j],
                forall|j: int| 0 <= j < i ==> #[trigger] weights[j] as int == servers@[j].spec_weight(),
                max_weight as int == max_weight_of(weights@.map_values(|w: i32| w as int)),
                gcd_weight as int == gcd_weight_of(weights@.map_values(|w: i32| w as int)),
                gcd_weight >= 0,
            decreases servers.len() - i,
        {
            let w = servers[i].weight();
            let ghost before = weights@.map_values(|w: i32| w as int);
            weights.push(w);
            let ghost after = weights@.map_values(|w: i32| w as int);
            assert(after.drop_last() =~= before);
            assert(after.last() == w as int);
            if w > max_weight {
                max_weight = w;
            }
            gcd_weight = gcd(gcd_weight, w);
            i += 1;
        }
        let ghost ws = weights@.map_values(|w: i32| w as int);
        proof {
            assert forall|j: int| 0 <= j < ws.len() implies 0 <= #[trigger] ws[j] by {
                assert(ws[j] == weights[j] as int);
            }
            lemma_max_weight(ws);
        }
        let n = servers.len();
        WeightedRoundRobin {
            current_weight: 0,
            max_weight,
            gcd_weight,
            current_index: if n > 0 { n - 1 } else { 0 },
            weights,
        }
    }

    /// The number of candidates.
    pub fn len(&self) -> (r: usize)
        ensures
            r == self@.weights.len(),
    {
        self.weights.len()
    }

    /// The candidate chosen next: `NoCandidates` when there is none, `None` when no
    /// candidate has a positive weight; otherwise the index at which the scan stops.
    pub fn next(&mut self) -> (r: Result<Option<usize>, StoreError>)
        requires
            old(self).wf(),
        ensures
            final(self).wf(),
            final(self)@.weights == old(self)@.weights,
            final(self)@.max_weight == old(self)@.max_weight,
            final(self)@.gcd_weight == old(self)@.gcd_weight,
            old(self)@.weights.len() == 0 ==> r == Err::<Option<usize>, StoreError>(
                StoreError::NoCandidates,
            ) && final(self)@ == old(self)@,
            old(self)@.weights.len() > 0 && old(self)@.max_weight == 0 ==> r == Ok::<
                Option<usize>,
                StoreError,
            >(None) && final(self)@ == old(self)@,
            !exhausted(old(self)@) ==> final(self)@ == next_state(old(self)@) && r == Ok::<
                Option<usize>,
                StoreError,
            >(Some(final(self)@.index as usize)),
            r matches Ok(Some(i)) ==> i < old(self)@.weights.len() && old(self)@.weights[i as int]
                >= 1 && i == final(self)@.index,
    {
        let n = self.weights.len();
        if n == 0 {
            return Err(StoreError::NoCandidates);
        }
        if self.max_weight == 0 {
            return Ok(None);
        }
        let ghost s0 = self@;
        let ghost ws = s0.weights;
        proof {
            lemma_max_weight(ws);
        }
        let ghost m = choose|m: int| 0 <= m < ws.len() && ws[m] == max_weight_of(ws);
        let ghost mut fuel: nat = n as nat;
        loop
            invariant
                n == self.weights.len(),
                n > 0,
                s0 == old(self)@,
                ws == s0.weights,
                self.wf(),
                self@.weights == ws,
                self@.max_weight == s0.max_weight,
                self@.gcd_weight == s0.gcd_weight,
                s0.max_weight > 0,
                0 <= m < n,
                ws[m] == s0.max_weight,
                next_state(s0) == scan_from(self@, fuel),
                fuel >= steps_before(self@.index, m, n as int),
            decreases fuel,
        {
            let ghost before = self@;
            let i = if self.current_index + 1 < n {
                self.current_index + 1
            } else {
                0
            };
            if i == 0 {
                if self.current_weight - self.gcd_weight <= 0 {
                    self.current_weight = self.max_weight;
                } else {
                    self.current_weight = self.current_weight - self.gcd_weight;
                }
            }
            self.current_index = i;
            assert(self.weights@.map_values(|w: i32| w as int) =~= ws);
            assert(self@ == scan_step(before));
            assert(ws[i as int] == self.weights[i as int] as int);
            if self.weights[i] >= self.current_weight {
                assert(self.weights[i as int] >= 1);
                return Ok(Some(i));
            }
            assert(i != m);
            proof {
                assert(steps_before(before.index, m, n as int) > 0);
                fuel = (fuel - 1) as nat;
            }
        }
    }
}

} // verus!
