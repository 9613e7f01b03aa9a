//! Fairness of the weighted round robin: over any stretch of calls as long as the total
//! weight divided by the gcd, each candidate is chosen its weight divided by the gcd times.

use vstd::prelude::*;
use vstd::arithmetic::div_mod::lemma_mod_multiples_basic;

use crate::wrr::{
    Weight,
    exhausted, first_reaching, gcd_spec, gcd_weight_of, lemma_max_weight, lemma_next_state, lowered,
    max_weight_of,
    model_wf, next_state, scan_from, SelectorModel,
};

verus! {

proof fn lemma_multiple_mod(k: int, d: int)
    requires
        d > 0,
    ensures
        (k * d) % d == 0,
{
    lemma_mod_multiples_basic(k, d);
}

proof fn lemma_divides_sum(a: int, b: int, q: int, r: int, d: int)
    requires
        d > 0,
        b % d == 0,
        r % d == 0,
        a == q * b + r,
    ensures
        a % d == 0,
{
    let kb = b / d;
    let kr = r / d;
    assert(b == kb * d) by (nonlinear_arith)
        requires
            d > 0,
            b % d == 0,
            kb == b / d,
    {
    }
    assert(r == kr * d) by (nonlinear_arith)
        requires
            d > 0,
            r % d == 0,
            kr == r / d,
    {
    }
    assert(a == (q * kb + kr) * d) by (nonlinear_arith)
        requires
            a == q * b + r,
            b == kb * d,
            r == kr * d,
    {
    }
    lemma_multiple_mod(q * kb + kr, d);
}

proof fn lemma_gcd_divides(a: int, b: int)
    requires
        a >= 0,
        b >= 0,
    ensures
        gcd_spec(a, b) >= 0,
        gcd_spec(a, b) == 0 ==> a == 0 && b == 0,
        gcd_spec(a, b) > 0 ==> a % gcd_spec(a, b) == 0 && b % gcd_spec(a, b) == 0,
    decreases b,
{
    if b > 0 {
        let r = a % b;
        lemma_gcd_divides(b, r);
        let d = gcd_spec(b, r);
        assert(gcd_spec(a, b) == d);
        if d > 0 {
            assert(a == (a / b) * b + r) by (nonlinear_arith)
                requires
                    b > 0,
                    r == a % b,
            {
            }
            lemma_divides_sum(a, b, a / b, r, d);
        }
    } else {
        if a > 0 {
            lemma_multiple_mod(1, a);
            lemma_multiple_mod(0, a);
        }
    }
}

/// The gcd of the weights divides every weight, and is zero only when all weights are.
pub proof fn lemma_gcd_weight_divides(ws: Seq<int>)
    requires
        forall|k: int| 0 <= k < ws.len() ==> 0 <= #[trigger] ws[k],
    ensures
        gcd_weight_of(ws) >= 0,
        gcd_weight_of(ws) == 0 ==> forall|k: int| 0 <= k < ws.len() ==> #[trigger] ws[k] == 0,
        gcd_weight_of(ws) > 0 ==> forall|k: int|
            0 <= k < ws.len() ==> #[trigger] ws[k] % gcd_weight_of(ws) == 0,
    decreases ws.len(),
{
    if ws.len() > 0 {
        let init = ws.drop_last();
        assert forall|k: int| 0 <= k < init.len() implies 0 <= #[trigger] init[k] by {
            assert(init[k] == ws[k]);
        }
        lemma_gcd_weight_divides(init);
        let g0 = gcd_weight_of(init);
        let w = ws.last();
        lemma_gcd_divides(g0, w);
        let g = gcd_weight_of(ws);
        assert(g == gcd_spec(g0, w));
        if g > 0 {
            assert forall|k: int| 0 <= k < ws.len() implies #[trigger] ws[k] % g == 0 by {
                if k < ws.len() - 1 {
                    assert(ws[k] == init[k]);
                    if g0 > 0 {
                        assert(ws[k] == (ws[k] / g0) * g0 + 0) by (nonlinear_arith)
                            requires
                                g0 > 0,
                                ws[k] % g0 == 0,
                        {
                        }
                        lemma_divides_sum(ws[k], g0, ws[k] / g0, 0, g);
                    } else {
                        lemma_multiple_mod(0, g);
                    }
                }
            }
        } else {
            assert forall|k: int| 0 <= k < ws.len() implies #[trigger] ws[k] == 0 by {
                if k < ws.len() - 1 {
                    assert(ws[k] == init[k]);
                }
            }
        }
    }
}


/// The positions among the first `m` whose weight reaches `c`, in increasing order.
pub open spec fn reaching(ws: Seq<int>, c: int, m: nat) -> Seq<int>
    decreases m,
{
    if m == 0 {
        Seq::<int>::empty()
    } else {
        let p = reaching(ws, c, (m - 1) as nat);
        if ws[m - 1] >= c {
            p.push(m - 1)
        } else {
            p
        }
    }
}

/// How often `i` occurs in `s`.
pub open spec fn occurrences(s: Seq<int>, i: int) -> nat
    decreases s.len(),
{
    if s.len() == 0 {
        0
    } else {
        occurrences(s.drop_last(), i) + if s.last() == i {
            1nat
        } else {
            0nat
        }
    }
}

proof fn lemma_reaching_shape(ws: Seq<int>, c: int, m: nat)
    requires
        m <= ws.len(),
    ensures
        forall|t: int|
            0 <= t < reaching(ws, c, m).len() ==> 0 <= #[trigger] reaching(ws, c, m)[t] < m
                && ws[reaching(ws, c, m)[t]] >= c,
        forall|t: int, u: int|
            0 <= t < u < reaching(ws, c, m).len() ==> reaching(ws, c, m)[t] < reaching(
                ws,
                c,
                m,
            )[u],
        forall|k: int|
            0 <= k < m && ws[k] >= c ==> exists|t: int|
                0 <= t < reaching(ws, c, m).len() && #[trigger] reaching(ws, c, m)[t] == k,
    decreases m,
{
    if m > 0 {
        lemma_reaching_shape(ws, c, (m - 1) as nat);
        let p = reaching(ws, c, (m - 1) as nat);
        let r = reaching(ws, c, m);
        assert forall|k: int| 0 <= k < m && ws[k] >= c implies exists|t: int|
            0 <= t < r.len() && #[trigger] r[t] == k by {
            if k < m - 1 {
                let t = choose|t: int| 0 <= t < p.len() && #[trigger] p[t] == k;
                assert(r[t] == k);
            } else {
                assert(r[r.len() - 1] == k);
            }
        }
    }
}

proof fn lemma_reaching_count(ws: Seq<int>, c: int, m: nat, i: int)
    ensures
        occurrences(reaching(ws, c, m), i) == (if 0 <= i < m && ws[i] >= c {
            1nat
        } else {
            0nat
        }),
    decreases m,
{
    if m > 0 {
        lemma_reaching_count(ws, c, (m - 1) as nat, i);
        let p = reaching(ws, c, (m - 1) as nat);
        if ws[m - 1] >= c {
            assert(p.push(m - 1).drop_last() =~= p);
        }
    }
}

proof fn lemma_first_reaching_unique(ws: Seq<int>, from: int, c: int, j1: int, j2: int)
    requires
        first_reaching(ws, from, c, j1),
        first_reaching(ws, from, c, j2),
    ensures
        j1 == j2,
{
    if j1 < j2 {
        assert(ws[j1] < c);
    } else if j2 < j1 {
        assert(ws[j2] < c);
    }
}

/// The order in which a level is scanned: the first position reaching `c`, each next one
/// after the one before, and none after the last.
proof fn lemma_reaching_steps(ws: Seq<int>, c: int)
    ensures
        reaching(ws, c, ws.len()).len() > 0 ==> first_reaching(ws, 0, c, reaching(ws, c, ws.len())[0]),
        forall|t: int|
            0 <= t && t + 1 < reaching(ws, c, ws.len()).len() ==> first_reaching(
                ws,
                #[trigger] reaching(ws, c, ws.len())[t] + 1,
                c,
                reaching(ws, c, ws.len())[t + 1],
            ),
        reaching(ws, c, ws.len()).len() > 0 ==> forall|k: int|
            reaching(ws, c, ws.len()).last() < k < ws.len() ==> #[trigger] ws[k] < c,
{
    let r = reaching(ws, c, ws.len());
    lemma_reaching_shape(ws, c, ws.len());
    if r.len() > 0 {
        assert forall|k: int| 0 <= k < r[0] implies #[trigger] ws[k] < c by {
            if ws[k] >= c {
                let t = choose|t: int| 0 <= t < r.len() && #[trigger] r[t] == k;
                if t > 0 {
                    assert(r[0] < r[t]);
                }
            }
        }
        assert forall|k: int| r.last() < k < ws.len() implies #[trigger] ws[k] < c by {
            if ws[k] >= c {
                let t = choose|t: int| 0 <= t < r.len() && #[trigger] r[t] == k;
                if t < r.len() - 1 {
                    assert(r[t] < r[r.len() - 1]);
                }
            }
        }
    }
    assert forall|t: int| 0 <= t && t + 1 < r.len() implies first_reaching(
        ws,
        #[trigger] r[t] + 1,
        c,
        r[t + 1],
    ) by {
        assert(r[t] < r[t + 1]);
        assert forall|k: int| r[t] + 1 <= k < r[t + 1] implies #[trigger] ws[k] < c by {
            if ws[k] >= c {
                let u = choose|u: int| 0 <= u < r.len() && #[trigger] r[u] == k;
                if u <= t {
                    if u < t {
                        assert(r[u] < r[t]);
                    }
                } else if u >= t + 1 {
                    if u > t + 1 {
                        assert(r[t + 1] < r[u]);
                    }
                }
            }
        }
    }
}


/// The state after `k` calls of `next`, starting from `s`.
pub open spec fn after_calls(s: SelectorModel, k: nat) -> SelectorModel
    decreases k,
{
    if k == 0 {
        s
    } else {
        next_state(after_calls(s, (k - 1) as nat))
    }
}

/// How many of the calls `a + 1` to `a + len`, counted from `s`, choose candidate `i`.
pub open spec fn chosen_count(s: SelectorModel, a: nat, len: nat, i: int) -> nat
    decreases len,
{
    if len == 0 {
        0
    } else {
        chosen_count(s, a, (len - 1) as nat, i) + if after_calls(s, a + len).index == i {
            1nat
        } else {
            0nat
        }
    }
}

proof fn lemma_scan_keeps(s: SelectorModel, fuel: nat)
    ensures
        scan_from(s, fuel).weights == s.weights,
        scan_from(s, fuel).max_weight == s.max_weight,
        scan_from(s, fuel).gcd_weight == s.gcd_weight,
    decreases fuel,
{
    if fuel > 0 {
        lemma_scan_keeps(crate::wrr::scan_step(s), (fuel - 1) as nat);
    }
}

proof fn lemma_lowered_range(s: SelectorModel)
    requires
        model_wf(s),
        !exhausted(s),
    ensures
        1 <= lowered(s) <= s.max_weight,
{
}

/// One level of the scan: from a state that has no later candidate at its current weight,
/// the calls choose, in order, the candidates that reach the lowered weight.
proof fn lemma_level_walk(s: SelectorModel, t: nat, i: int)
    requires
        model_wf(s),
        !exhausted(s),
        s.current_weight == 0 || s.weights[s.index] >= s.current_weight,
        forall|k: int| s.index < k < s.weights.len() ==> #[trigger] s.weights[k] < s.current_weight,
        1 <= t <= reaching(s.weights, lowered(s), s.weights.len()).len(),
    ensures
        after_calls(s, t) == (SelectorModel {
            index: reaching(s.weights, lowered(s), s.weights.len())[t - 1],
            current_weight: lowered(s),
            ..s
        }),
        chosen_count(s, 0, t, i) == occurrences(
            reaching(s.weights, lowered(s), s.weights.len()).take(t as int),
            i,
        ),
    decreases t,
{
    let ws = s.weights;
    let c = lowered(s);
    let r = reaching(ws, c, ws.len());
    lemma_reaching_steps(ws, c);
    lemma_reaching_shape(ws, c, ws.len());
    lemma_lowered_range(s);
    assert(after_calls(s, 0) == s);
    if t == 1 {
        lemma_next_state(s);
        let j = choose|j: int| #[trigger]
            first_reaching(ws, 0, c, j) && next_state(s) == (SelectorModel {
                index: j,
                current_weight: c,
                ..s
            });
        lemma_first_reaching_unique(ws, 0, c, j, r[0]);
        assert(r.take(1).drop_last() =~= r.take(0));
        assert(r.take(0) =~= Seq::<int>::empty());
        assert(occurrences(r.take(0), i) == 0);
        assert(r.take(1).last() == r[0]);
        assert(chosen_count(s, 0, 1, i) == chosen_count(s, 0, 0, i) + if after_calls(s, 1).index == i {
            1nat
        } else {
            0nat
        });
        assert(after_calls(s, 1) == next_state(s));
    } else {
        lemma_level_walk(s, (t - 1) as nat, i);
        let u = after_calls(s, (t - 1) as nat);
        assert(0 <= r[t - 2] < ws.len());
        assert(model_wf(u));
        lemma_next_state(u);
        assert(first_reaching(ws, r[t - 2] + 1, c, r[t - 1]));
        assert(r.take(t as int).drop_last() =~= r.take(t - 1));
        assert(r.take(t as int).last() == r[t - 1]);
        assert(chosen_count(s, 0, t, i) == chosen_count(s, 0, (t - 1) as nat, i) + if after_calls(s, t).index == i {
            1nat
        } else {
            0nat
        });
    }
}

proof fn lemma_after_calls_add(s: SelectorModel, a: nat, b: nat)
    ensures
        after_calls(s, a + b) == after_calls(after_calls(s, a), b),
    decreases b,
{
    if b > 0 {
        lemma_after_calls_add(s, a, (b - 1) as nat);
        assert(a + b - 1 == a + (b - 1));
    }
}

proof fn lemma_chosen_count_add(s: SelectorModel, a: nat, b: nat, i: int)
    ensures
        chosen_count(s, 0, a + b, i) == chosen_count(s, 0, a, i) + chosen_count(
            after_calls(s, a),
            0,
            b,
            i,
        ),
    decreases b,
{
    if b > 0 {
        lemma_chosen_count_add(s, a, (b - 1) as nat, i);
        lemma_after_calls_add(s, a, b);
        assert((a + b - 1) as nat == a + (b - 1) as nat);
    }
}


/// The current weight of level `l` of a round: `(k - l) * g`.
pub open spec fn level_weight(k: int, g: int, l: int) -> int {
    (k - l) * g
}

/// How many calls the first `l` levels of a round take, counting the first `m` candidates.
pub open spec fn round_len(ws: Seq<int>, k: int, g: int, l: nat, m: nat) -> nat
    decreases l,
{
    if l == 0 {
        0
    } else {
        round_len(ws, k, g, (l - 1) as nat, m) + reaching(ws, level_weight(k, g, l - 1), m).len()
    }
}

/// At how many of the first `l` levels of a round candidate `i` is chosen.
pub open spec fn levels_reached(ws: Seq<int>, k: int, g: int, i: int, l: nat) -> nat
    decreases l,
{
    if l == 0 {
        0
    } else {
        levels_reached(ws, k, g, i, (l - 1) as nat) + if ws[i] >= level_weight(k, g, l - 1) {
            1nat
        } else {
            0nat
        }
    }
}

/// The sum of the first `m` weights, each divided by `g`.
pub open spec fn weight_sum_over_gcd(ws: Seq<int>, g: int, m: nat) -> int
    decreases m,
{
    if m == 0 {
        0
    } else {
        weight_sum_over_gcd(ws, g, (m - 1) as nat) + ws[m - 1] / g
    }
}

proof fn lemma_levels_reached(ws: Seq<int>, k: int, g: int, i: int, q: int, l: nat)
    requires
        g > 0,
        ws[i] == q * g,
        0 <= q <= k,
        l <= k,
    ensures
        levels_reached(ws, k, g, i, l) == (if l > k - q {
            l - (k - q)
        } else {
            0
        }),
    decreases l,
{
    if l > 0 {
        lemma_levels_reached(ws, k, g, i, q, (l - 1) as nat);
        let lv = k - (l - 1);
        assert((q * g >= lv * g) == (q >= lv)) by (nonlinear_arith)
            requires
                g > 0,
        {
        }
    }
}

proof fn lemma_round_len_zero(ws: Seq<int>, k: int, g: int, l: nat)
    ensures
        round_len(ws, k, g, l, 0) == 0,
    decreases l,
{
    if l > 0 {
        lemma_round_len_zero(ws, k, g, (l - 1) as nat);
    }
}

proof fn lemma_round_len_step(ws: Seq<int>, k: int, g: int, l: nat, m: nat)
    requires
        m > 0,
    ensures
        round_len(ws, k, g, l, m) == round_len(ws, k, g, l, (m - 1) as nat) + levels_reached(
            ws,
            k,
            g,
            m - 1,
            l,
        ),
    decreases l,
{
    if l > 0 {
        lemma_round_len_step(ws, k, g, (l - 1) as nat, m);
    }
}

/// Counting a round by candidates: its length is the sum over candidates of the levels
/// each is chosen at.
proof fn lemma_round_len_by_candidates(ws: Seq<int>, k: int, g: int, q: Seq<int>, m: nat)
    requires
        g > 0,
        k >= 0,
        m <= ws.len(),
        q.len() == ws.len(),
        forall|j: int| 0 <= j < ws.len() ==> ws[j] == #[trigger] q[j] * g && 0 <= q[j] <= k,
    ensures
        round_len(ws, k, g, k as nat, m) == weight_sum_over_gcd(ws, g, m),
    decreases m,
{
    if m == 0 {
        lemma_round_len_zero(ws, k, g, k as nat);
    } else {
        lemma_round_len_by_candidates(ws, k, g, q, (m - 1) as nat);
        lemma_round_len_step(ws, k, g, k as nat, m);
        lemma_levels_reached(ws, k, g, m - 1, q[m - 1], k as nat);
        assert(ws[m - 1] / g == q[m - 1]) by (nonlinear_arith)
            requires
                g > 0,
                ws[m - 1] == q[m - 1] * g,
        {
        }
    }
}


/// The facts about a selector's weights that a round rests on: the gcd divides every
/// weight and the largest one, which some candidate has.
proof fn lemma_round_facts(s: SelectorModel)
    requires
        model_wf(s),
        !exhausted(s),
    ensures
        s.gcd_weight > 0,
        s.max_weight == (s.max_weight / s.gcd_weight) * s.gcd_weight,
        s.max_weight / s.gcd_weight >= 1,
        forall|j: int|
            0 <= j < s.weights.len() ==> #[trigger] s.weights[j] == (s.weights[j] / s.gcd_weight)
                * s.gcd_weight && 0 <= s.weights[j] / s.gcd_weight <= s.max_weight / s.gcd_weight,
        exists|m: int| 0 <= m < s.weights.len() && s.weights[m] == s.max_weight,
{
    let ws = s.weights;
    let g = s.gcd_weight;
    let mx = s.max_weight;
    lemma_max_weight(ws);
    lemma_gcd_weight_divides(ws);
    let m = choose|m: int| 0 <= m < ws.len() && ws[m] == max_weight_of(ws);
    assert(ws[m] > 0);
    assert(g > 0);
    assert(mx % g == 0);
    assert(mx == (mx / g) * g && mx / g >= 1) by (nonlinear_arith)
        requires
            g > 0,
            mx > 0,
            mx % g == 0,
    {
    }
    assert forall|j: int| 0 <= j < ws.len() implies #[trigger] ws[j] == (ws[j] / g) * g && 0 <= ws[j]
        / g <= mx / g by {
        let w = ws[j];
        assert(w % g == 0);
        assert(w == (w / g) * g && 0 <= w / g <= mx / g) by (nonlinear_arith)
            requires
                g > 0,
                0 <= w <= mx,
                w % g == 0,
        {
        }
    }
}

/// Walking the first `l` levels of a round from a fresh selector: the calls end at the last
/// candidate of level `l - 1`, having chosen `i` once at each level whose weight it reaches.
proof fn lemma_round_walk(s: SelectorModel, l: nat, i: int)
    requires
        model_wf(s),
        !exhausted(s),
        s.current_weight == 0,
        1 <= l <= s.max_weight / s.gcd_weight,
        0 <= i < s.weights.len(),
    ensures
        after_calls(
            s,
            round_len(s.weights, s.max_weight / s.gcd_weight, s.gcd_weight, l, s.weights.len()),
        ) == (SelectorModel {
            index: reaching(
                s.weights,
                level_weight(s.max_weight / s.gcd_weight, s.gcd_weight, l - 1),
                s.weights.len(),
            ).last(),
            current_weight: level_weight(s.max_weight / s.gcd_weight, s.gcd_weight, l - 1),
            ..s
        }),
        chosen_count(
            s,
            0,
            round_len(s.weights, s.max_weight / s.gcd_weight, s.gcd_weight, l, s.weights.len()),
            i,
        ) == levels_reached(s.weights, s.max_weight / s.gcd_weight, s.gcd_weight, i, l),
    decreases l,
{
    let ws = s.weights;
    let n = ws.len();
    let g = s.gcd_weight;
    let mx = s.max_weight;
    let k = mx / g;
    lemma_round_facts(s);
    let m = choose|m: int| 0 <= m < ws.len() && ws[m] == mx;
    let c = level_weight(k, g, l - 1);
    let r = reaching(ws, c, n);
    assert(1 <= c <= mx) by (nonlinear_arith)
        requires
            c == (k - (l - 1)) * g,
            mx == k * g,
            1 <= l <= k,
            g > 0,
    {
    }
    lemma_reaching_shape(ws, c, n);
    assert(ws[m] >= c);
    assert(r.len() > 0);
    assert(r.take(r.len() as int) =~= r);
    lemma_reaching_count(ws, c, n, i);
    if l == 1 {
        assert(lowered(s) == mx);
        assert(c == mx);
        lemma_level_walk(s, r.len(), i);
        assert(round_len(ws, k, g, 0, n) == 0);
        assert(levels_reached(ws, k, g, i, 0) == 0);
    } else {
        lemma_round_walk(s, (l - 1) as nat, i);
        let prev = round_len(ws, k, g, (l - 1) as nat, n);
        let c0 = level_weight(k, g, l - 2);
        let r0 = reaching(ws, c0, n);
        let e = after_calls(s, prev);
        assert(1 <= c0 <= mx && c0 - g == c && c0 - g > 0) by (nonlinear_arith)
            requires
                c0 == (k - (l - 2)) * g,
                c == (k - (l - 1)) * g,
                mx == k * g,
                2 <= l <= k,
                g > 0,
        {
        }
        lemma_reaching_shape(ws, c0, n);
        lemma_reaching_steps(ws, c0);
        assert(ws[m] >= c0);
        assert(r0.len() > 0);
        assert(0 <= r0.last() < n);
        assert(model_wf(e));
        assert(lowered(e) == c);
        lemma_level_walk(e, r.len(), i);
        lemma_after_calls_add(s, prev, r.len());
        lemma_chosen_count_add(s, prev, r.len(), i);
    }
}

proof fn lemma_round_period(s: SelectorModel, j: nat)
    requires
        model_wf(s),
        !exhausted(s),
        s.current_weight == 0,
        j >= 1,
    ensures
        after_calls(
            s,
            round_len(
                s.weights,
                s.max_weight / s.gcd_weight,
                s.gcd_weight,
                (s.max_weight / s.gcd_weight) as nat,
                s.weights.len(),
            ) + j,
        ) == after_calls(s, j),
    decreases j,
{
    let ws = s.weights;
    let n = ws.len();
    let g = s.gcd_weight;
    let mx = s.max_weight;
    let k = mx / g;
    let len = round_len(ws, k, g, k as nat, n);
    lemma_round_facts(s);
    if j == 1 {
        lemma_round_walk(s, k as nat, 0);
        let e = after_calls(s, len);
        let c = level_weight(k, g, k - 1);
        assert(c == g) by (nonlinear_arith)
            requires
                c == (k - (k - 1)) * g,
        {
        }
        let m = choose|m: int| 0 <= m < ws.len() && ws[m] == mx;
        assert(mx >= g) by (nonlinear_arith)
            requires
                mx == k * g,
                k >= 1,
                g > 0,
        {
        }
        lemma_reaching_shape(ws, c, n);
        lemma_reaching_steps(ws, c);
        assert(ws[m] >= c);
        assert(model_wf(e));
        assert(lowered(e) == mx);
        lemma_next_state(e);
        lemma_next_state(s);
        let j1 = choose|j1: int| #[trigger]
            first_reaching(ws, 0, mx, j1) && next_state(e) == (SelectorModel {
                index: j1,
                current_weight: mx,
                ..e
            });
        let j2 = choose|j2: int| #[trigger]
            first_reaching(ws, 0, mx, j2) && next_state(s) == (SelectorModel {
                index: j2,
                current_weight: mx,
                ..s
            });
        lemma_first_reaching_unique(ws, 0, mx, j1, j2);
        assert(after_calls(s, 0) == s);
    } else {
        lemma_round_period(s, (j - 1) as nat);
        assert((len + j - 1) as nat == len + (j - 1) as nat);
    }
}

proof fn lemma_chosen_shift(s: SelectorModel, a: nat, len: nat, i: int)
    ensures
        chosen_count(s, a, len + 1, i) == (if after_calls(s, a + 1).index == i {
            1nat
        } else {
            0nat
        }) + chosen_count(s, a + 1, len, i),
    decreases len,
{
    if len > 0 {
        lemma_chosen_shift(s, a, (len - 1) as nat, i);
        assert(chosen_count(s, a, len + 1, i) == chosen_count(s, a, len, i) + if after_calls(
            s,
            a + (len + 1),
        ).index == i {
            1nat
        } else {
            0nat
        });
        assert(chosen_count(s, a + 1, len, i) == chosen_count(s, a + 1, (len - 1) as nat, i)
            + if after_calls(s, a + 1 + len).index == i {
            1nat
        } else {
            0nat
        });
        assert(a + 1 + len == a + (len + 1));
        assert(((len - 1) as nat) + 1 == len);
    } else {
        assert(chosen_count(s, a, 1, i) == chosen_count(s, a, 0, i) + if after_calls(s, a + 1).index
            == i {
            1nat
        } else {
            0nat
        });
        assert(chosen_count(s, a + 1, 0, i) == 0);
    }
}

/// Fairness of the weighted round robin: from a fresh selector with a positive weight, any
/// run of consecutive calls as long as the sum of the weights divided by their gcd
/// chooses each candidate exactly its weight divided by the gcd times.
pub proof fn lemma_round_robin_fair(s: SelectorModel, a: nat, i: int)
    requires
        model_wf(s),
        !exhausted(s),
        s.current_weight == 0,
        0 <= i < s.weights.len(),
    ensures
        s.gcd_weight > 0,
        chosen_count(s, a, weight_sum_over_gcd(s.weights, s.gcd_weight, s.weights.len()) as nat, i)
            == s.weights[i] / s.gcd_weight,
    decreases a,
{
    let ws = s.weights;
    let n = ws.len();
    let g = s.gcd_weight;
    let mx = s.max_weight;
    let k = mx / g;
    lemma_round_facts(s);
    let q = ws.map_values(|w: int| w / g);
    assert forall|j: int| 0 <= j < ws.len() implies ws[j] == #[trigger] q[j] * g && 0 <= q[j] <= k by {
        assert(ws[j] == (ws[j] / g) * g);
    }
    lemma_round_len_by_candidates(ws, k, g, q, n);
    let len = round_len(ws, k, g, k as nat, n);
    assert(weight_sum_over_gcd(ws, g, n) == len);
    if a == 0 {
        lemma_round_walk(s, k as nat, i);
        assert(ws[i] == q[i] * g && 0 <= q[i] <= k);
        lemma_levels_reached(ws, k, g, i, q[i], k as nat);
    } else {
        lemma_round_robin_fair(s, (a - 1) as nat, i);
        lemma_chosen_shift(s, (a - 1) as nat, len, i);
        lemma_round_period(s, a);
        assert((a - 1) as nat + (len + 1) == len + a);
    }
}

/// Fairness stated over the candidates a selector was built from: from the state that
/// `WeightedRoundRobin::new` gives over `servers`, when some candidate weighs more than
/// zero, any run of consecutive calls as long as the sum of the candidates' weights divided
/// by their gcd chooses each candidate exactly its weight divided by the gcd times; the gcd
/// is that of the candidates' weights.
pub proof fn lemma_fair_over_candidates<T: Weight>(servers: Seq<T>, s: SelectorModel, a: nat, i: int)
    requires
        model_wf(s),
        s.current_weight == 0,
        s.weights.len() == servers.len(),
        forall|j: int| 0 <= j < servers.len() ==> s.weights[j] == #[trigger] servers[j].spec_weight(),
        exists|j: int| 0 <= j < servers.len() && #[trigger] servers[j].spec_weight() > 0,
        0 <= i < servers.len(),
    ensures
        s.gcd_weight == gcd_weight_of(servers.map_values(|t: T| t.spec_weight())),
        s.gcd_weight > 0,
        chosen_count(
            s,
            a,
            weight_sum_over_gcd(
                servers.map_values(|t: T| t.spec_weight()),
                s.gcd_weight,
                servers.len(),
            ) as nat,
            i,
        ) == servers[i].spec_weight() / s.gcd_weight,
{
    let j = choose|j: int| 0 <= j < servers.len() && #[trigger] servers[j].spec_weight() > 0;
    assert(s.weights[j] > 0);
    crate::wrr::lemma_positive_weight(s, j);
    assert(servers.map_values(|t: T| t.spec_weight()) =~= s.weights);
    lemma_round_robin_fair(s, a, i);
}

} // verus!
