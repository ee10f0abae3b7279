//! A small boolean satisfiability solver: depth-first chronological
//! backtracking with counting-based unit propagation and a frequency-based
//! branching heuristic.
//!
//! Literals are slot indices in `[0, 2n)`: the positive literal of variable
//! `v` is slot `n + v`, the negative literal is slot `n - 1 - v`, so negation
//! is the reflection `l -> 2n - 1 - l`.  `solve` is proved sound (a reported
//! model satisfies every clause) and complete (an unsatisfiable verdict means
//! no assignment at all satisfies the clause set).

use vstd::prelude::*;

verus! {

/// Negation of literal slot `l` among `2n` slots.
pub open spec fn negl(n: int, l: int) -> int {
    2 * n - 1 - l
}

/// Truth of literal slot `l` under a total assignment `a` of the `n`
/// variables (`a[v]` is the value of variable `v`).
pub open spec fn lit_true(a: Seq<bool>, n: int, l: int) -> bool {
    if l >= n {
        a[l - n]
    } else {
        !a[n - 1 - l]
    }
}

/// A clause (a disjunction of literal slots) is satisfied by `a`.
pub open spec fn clause_sat(a: Seq<bool>, n: int, c: Seq<usize>) -> bool {
    exists|i: int| 0 <= i < c.len() && lit_true(a, n, c[i] as int)
}

/// Every clause of the formula is satisfied by `a`.
pub open spec fn formula_sat(a: Seq<bool>, n: int, cs: Seq<Seq<usize>>) -> bool {
    forall|j: int| 0 <= j < cs.len() ==> clause_sat(a, n, #[trigger] cs[j])
}

/// Number of occurrences of literal `l` in clause `c`.
pub open spec fn occ(c: Seq<usize>, l: int) -> nat
    decreases c.len(),
{
    if c.len() == 0 {
        0
    } else {
        occ(c.drop_last(), l) + if c.last() as int == l { 1nat } else { 0nat }
    }
}

/// Number of clause positions whose literal is asserted by the partial
/// assignment `pa` (one flag per literal slot).
pub open spec fn cnt_true(c: Seq<usize>, pa: Seq<bool>) -> nat
    decreases c.len(),
{
    if c.len() == 0 {
        0
    } else {
        cnt_true(c.drop_last(), pa) + if pa[c.last() as int] { 1nat } else { 0nat }
    }
}

/// Number of clause positions whose negation is asserted by `pa`.
pub open spec fn cnt_false(c: Seq<usize>, pa: Seq<bool>, n: int) -> nat
    decreases c.len(),
{
    if c.len() == 0 {
        0
    } else {
        cnt_false(c.drop_last(), pa, n) + if pa[negl(n, c.last() as int)] { 1nat } else { 0nat }
    }
}

/// Concatenation of the decision-stack frames, oldest first: the trail.
pub open spec fn cat(ds: Seq<Seq<usize>>) -> Seq<usize>
    decreases ds.len(),
{
    if ds.len() == 0 {
        Seq::empty()
    } else {
        cat(ds.drop_last()) + ds.last()
    }
}

/// `a` asserts every literal of the trail `t`.
pub open spec fn agrees(a: Seq<bool>, n: int, t: Seq<usize>) -> bool {
    forall|i: int| 0 <= i < t.len() ==> lit_true(a, n, #[trigger] t[i] as int)
}

/// Literal `l` is a consequence of the trail `t`: every total assignment
/// that satisfies the formula and asserts all of `t` also asserts `l`.
pub open spec fn forced(cs: Seq<Seq<usize>>, n: int, t: Seq<usize>, l: int) -> bool {
    forall|a: Seq<bool>|
        a.len() == n && formula_sat(a, n, cs) && #[trigger] agrees(a, n, t) ==> lit_true(a, n, l)
}

/// Variable of literal slot `l`.
pub open spec fn var_of(n: int, l: int) -> int {
    if l >= n {
        l - n
    } else {
        n - 1 - l
    }
}

proof fn lemma_cnt_true_le(c: Seq<usize>, pa: Seq<bool>)
    ensures
        cnt_true(c, pa) <= c.len(),
    decreases c.len(),
{
    if c.len() > 0 {
        lemma_cnt_true_le(c.drop_last(), pa);
    }
}

proof fn lemma_cnt_false_le(c: Seq<usize>, pa: Seq<bool>, n: int)
    ensures
        cnt_false(c, pa, n) <= c.len(),
    decreases c.len(),
{
    if c.len() > 0 {
        lemma_cnt_false_le(c.drop_last(), pa, n);
    }
}

/// Counts after asserting literal `l`: true positions grow by the
/// occurrences of `l`, false positions by the occurrences of its negation.
proof fn lemma_cnt_update_true(c: Seq<usize>, pa: Seq<bool>, n: int, l: int)
    requires
        0 <= l < 2 * n,
        pa.len() == 2 * n,
        !pa[l],
        forall|i: int| 0 <= i < c.len() ==> (#[trigger] c[i] as int) < 2 * n,
    ensures
        cnt_true(c, pa.update(l, true)) == cnt_true(c, pa) + occ(c, l),
        cnt_false(c, pa.update(l, true), n) == cnt_false(c, pa, n) + occ(c, negl(n, l)),
    decreases c.len(),
{
    if c.len() > 0 {
        lemma_cnt_update_true(c.drop_last(), pa, n, l);
    }
}

/// Counts after retracting literal `l`: the reverse of
/// `lemma_cnt_update_true`.
proof fn lemma_cnt_update_false(c: Seq<usize>, pa: Seq<bool>, n: int, l: int)
    requires
        0 <= l < 2 * n,
        pa.len() == 2 * n,
        pa[l],
        !pa[negl(n, l)],
        forall|i: int| 0 <= i < c.len() ==> (#[trigger] c[i] as int) < 2 * n,
    ensures
        cnt_true(c, pa) == cnt_true(c, pa.update(l, false)) + occ(c, l),
        cnt_false(c, pa, n) == cnt_false(c, pa.update(l, false), n) + occ(c, negl(n, l)),
    decreases c.len(),
{
    if c.len() > 0 {
        lemma_cnt_update_false(c.drop_last(), pa, n, l);
    }
}

/// No true position at all means every position is unasserted.
proof fn lemma_cnt_true_zero(c: Seq<usize>, pa: Seq<bool>)
    requires
        cnt_true(c, pa) == 0,
    ensures
        forall|i: int| 0 <= i < c.len() ==> !pa[#[trigger] c[i] as int],
    decreases c.len(),
{
    if c.len() > 0 {
        lemma_cnt_true_zero(c.drop_last(), pa);
        assert forall|i: int| 0 <= i < c.len() implies !pa[#[trigger] c[i] as int] by {
            if i < c.len() - 1 {
                assert(c.drop_last()[i] == c[i]);
            }
        }
    }
}

/// A positive true count exhibits a true position.
proof fn lemma_cnt_true_pos(c: Seq<usize>, pa: Seq<bool>)
    requires
        cnt_true(c, pa) > 0,
    ensures
        exists|i: int| 0 <= i < c.len() && pa[#[trigger] c[i] as int],
    decreases c.len(),
{
    if pa[c.last() as int] {
        assert(pa[c[c.len() - 1] as int]);
    } else {
        lemma_cnt_true_pos(c.drop_last(), pa);
        let i = choose|i: int| 0 <= i < c.drop_last().len() && pa[#[trigger] c.drop_last()[i] as int];
        assert(c.drop_last()[i] == c[i]);
        assert(pa[c[i] as int]);
    }
}

/// A full false count makes every position false.
proof fn lemma_cnt_false_full(c: Seq<usize>, pa: Seq<bool>, n: int)
    requires
        cnt_false(c, pa, n) == c.len(),
    ensures
        forall|i: int| 0 <= i < c.len() ==> pa[negl(n, #[trigger] c[i] as int)],
    decreases c.len(),
{
    if c.len() > 0 {
        lemma_cnt_false_le(c.drop_last(), pa, n);
        lemma_cnt_false_full(c.drop_last(), pa, n);
        assert forall|i: int| 0 <= i < c.len() implies pa[negl(n, #[trigger] c[i] as int)] by {
            if i < c.len() - 1 {
                assert(c.drop_last()[i] == c[i]);
            }
        }
    }
}

/// A position that is not false caps the false count below the length.
proof fn lemma_cnt_false_cap(c: Seq<usize>, pa: Seq<bool>, n: int, j: int)
    requires
        0 <= j < c.len(),
        !pa[negl(n, c[j] as int)],
    ensures
        cnt_false(c, pa, n) < c.len(),
    decreases c.len(),
{
    lemma_cnt_false_le(c.drop_last(), pa, n);
    if j == c.len() - 1 {
    } else {
        assert(c.drop_last()[j] == c[j]);
        lemma_cnt_false_cap(c.drop_last(), pa, n, j);
    }
}

/// With all but one position false, every position other than a known
/// non-false one is false.
proof fn lemma_cnt_false_unit(c: Seq<usize>, pa: Seq<bool>, n: int, j: int)
    requires
        cnt_false(c, pa, n) == c.len() - 1,
        0 <= j < c.len(),
        !pa[negl(n, c[j] as int)],
    ensures
        forall|i: int| 0 <= i < c.len() && i != j ==> pa[negl(n, #[trigger] c[i] as int)],
    decreases c.len(),
{
    if j == c.len() - 1 {
        lemma_cnt_false_full(c.drop_last(), pa, n);
        assert forall|i: int| 0 <= i < c.len() && i != j implies pa[negl(
            n,
            #[trigger] c[i] as int,
        )] by {
            assert(c.drop_last()[i] == c[i]);
        }
    } else {
        lemma_cnt_false_cap(c.drop_last(), pa, n, j);
        // so the last position is false and the prefix misses exactly one
        lemma_cnt_false_unit(c.drop_last(), pa, n, j);
        assert forall|i: int| 0 <= i < c.len() && i != j implies pa[negl(
            n,
            #[trigger] c[i] as int,
        )] by {
            if i < c.len() - 1 {
                assert(c.drop_last()[i] == c[i]);
            }
        }
    }
}

/// Occurrence count over a prefix grows one step at a time.
proof fn lemma_occ_take_step(c: Seq<usize>, l: int, i: int)
    requires
        0 <= i < c.len(),
    ensures
        occ(c.take(i + 1), l) == occ(c.take(i), l) + if c[i] as int == l {
            1nat
        } else {
            0nat
        },
{
    assert(c.take(i + 1).drop_last() =~= c.take(i));
    assert(c.take(i + 1).last() == c[i]);
}

/// A positive occurrence count exhibits a position holding `l`.
proof fn lemma_occ_pos_witness(c: Seq<usize>, l: int)
    requires
        occ(c, l) > 0,
    ensures
        exists|i: int| 0 <= i < c.len() && #[trigger] c[i] as int == l,
    decreases c.len(),
{
    if c.last() as int == l {
        assert(c[c.len() - 1] as int == l);
    } else {
        lemma_occ_pos_witness(c.drop_last(), l);
        let i = choose|i: int| 0 <= i < c.drop_last().len() && #[trigger] c.drop_last()[i] as int == l;
        assert(c.drop_last()[i] == c[i]);
        assert(c[i] as int == l);
    }
}

/// Clause id `j` occurs in the watch list `w`.
pub open spec fn in_watch(w: Seq<usize>, j: int) -> bool {
    exists|k: int| 0 <= k < w.len() && w[k] as int == j
}

/// The clause ids that asserting `lit` appends to the watch list, in
/// ascending order: the clauses among the first `m` that hold the negation
/// of `lit` and have no true position under the new assignment.
pub open spec fn watch_adds(
    cs: Seq<Seq<usize>>,
    a_new: Seq<bool>,
    n: int,
    lit: int,
    m: int,
) -> Seq<usize>
    decreases m,
{
    if m <= 0 {
        Seq::empty()
    } else {
        watch_adds(cs, a_new, n, lit, m - 1) + (if occ(cs[m - 1], negl(n, lit)) > 0 && cnt_true(
            cs[m - 1],
            a_new,
        ) == 0 {
            seq![(m - 1) as usize]
        } else {
            Seq::<usize>::empty()
        })
    }
}

/// Appending to the last frame appends to the trail.
proof fn lemma_cat_push_last(ds: Seq<Seq<usize>>, x: usize)
    requires
        ds.len() >= 1,
    ensures
        cat(ds.update(ds.len() - 1, ds.last().push(x))) =~= cat(ds).push(x),
{
    let ds2 = ds.update(ds.len() - 1, ds.last().push(x));
    assert(ds2.drop_last() =~= ds.drop_last());
    assert(ds2.last() =~= ds.last().push(x));
    assert(cat(ds.drop_last()) + ds.last().push(x) =~= (cat(ds.drop_last()) + ds.last()).push(x));
}

/// Shortening the last frame shortens the trail.
proof fn lemma_cat_pop_last(ds: Seq<Seq<usize>>)
    requires
        ds.len() >= 1,
        ds.last().len() >= 1,
    ensures
        cat(ds.update(ds.len() - 1, ds.last().drop_last())) =~= cat(ds).drop_last(),
        cat(ds).len() >= 1,
        cat(ds).last() == ds.last().last(),
{
    let ds2 = ds.update(ds.len() - 1, ds.last().drop_last());
    assert(ds2.drop_last() =~= ds.drop_last());
    assert(ds2.last() =~= ds.last().drop_last());
    assert(cat(ds.drop_last()) + ds.last().drop_last() =~= (cat(ds.drop_last())
        + ds.last()).drop_last());
}

/// Opening a fresh empty frame leaves the trail unchanged.
proof fn lemma_cat_push_frame(ds: Seq<Seq<usize>>)
    ensures
        cat(ds.push(Seq::<usize>::empty())) =~= cat(ds),
{
    assert(ds.push(Seq::<usize>::empty()).drop_last() =~= ds);
}

/// Discarding an empty last frame leaves the trail unchanged.
proof fn lemma_cat_drop_empty_frame(ds: Seq<Seq<usize>>)
    requires
        ds.len() >= 1,
        ds.last().len() == 0,
    ensures
        cat(ds.drop_last()) =~= cat(ds),
{
}

/// Two distinct literal slots of the same variable negate each other.
proof fn lemma_same_var(n: int, x: int, y: int)
    requires
        0 <= x < 2 * n,
        0 <= y < 2 * n,
        var_of(n, x) == var_of(n, y),
        x != y,
    ensures
        y == negl(n, x),
{
}

/// A false count below the length exhibits a non-false position.
proof fn lemma_cnt_false_some_open(c: Seq<usize>, pa: Seq<bool>, n: int)
    requires
        cnt_false(c, pa, n) < c.len(),
    ensures
        exists|i: int| 0 <= i < c.len() && !pa[negl(n, #[trigger] c[i] as int)],
    decreases c.len(),
{
    if !pa[negl(n, c.last() as int)] {
        assert(!pa[negl(n, c[c.len() - 1] as int)]);
    } else {
        lemma_cnt_false_some_open(c.drop_last(), pa, n);
        let i = choose|i: int|
            0 <= i < c.drop_last().len() && !pa[negl(n, #[trigger] c.drop_last()[i] as int)];
        assert(c.drop_last()[i] == c[i]);
        assert(!pa[negl(n, c[i] as int)]);
    }
}

/// Negation flips truth under a total assignment.
proof fn lemma_lit_negl(a: Seq<bool>, n: int, l: int)
    requires
        a.len() == n,
        0 <= l < 2 * n,
    ensures
        lit_true(a, n, negl(n, l)) == !lit_true(a, n, l),
{
}

/// A trail whose literals are valid slots of pairwise distinct variables
/// cannot be longer than the number of variables.
proof fn lemma_trail_len(n: int, t: Seq<usize>)
    requires
        n >= 0,
        forall|i: int| 0 <= i < t.len() ==> (#[trigger] t[i] as int) < 2 * n,
        forall|i: int, j: int|
            0 <= i < j < t.len() ==> var_of(n, #[trigger] t[i] as int) != var_of(
                n,
                #[trigger] t[j] as int,
            ),
    ensures
        t.len() <= n,
{
    let vs = Seq::new(t.len(), |i: int| var_of(n, t[i] as int));
    assert(vs.no_duplicates()) by {
        assert forall|i: int, j: int|
            0 <= i < vs.len() && 0 <= j < vs.len() && i != j implies vs[i] != vs[j] by {
            if i < j {
                assert(var_of(n, t[i] as int) != var_of(n, t[j] as int));
            } else {
                assert(var_of(n, t[j] as int) != var_of(n, t[i] as int));
            }
        }
    }
    vs.unique_seq_to_set();
    assert(vs.to_set().subset_of(vstd::set_lib::set_int_range(0, n))) by {
        assert forall|x: int| vs.to_set().contains(x) implies vstd::set_lib::set_int_range(
            0,
            n,
        ).contains(x) by {
            let i = choose|i: int| 0 <= i < vs.len() && vs[i] == x;
            assert((t[i] as int) < 2 * n);
        }
    }
    vstd::set_lib::lemma_int_range(0, n);
    vstd::set_lib::lemma_len_subset(vs.to_set(), vstd::set_lib::set_int_range(0, n));
}

/// With no literal asserted at all, both counts are zero.
proof fn lemma_cnt_all_unassigned(c: Seq<usize>, pa: Seq<bool>, n: int)
    requires
        pa.len() == 2 * n,
        forall|l: int| 0 <= l < 2 * n ==> !(#[trigger] pa[l]),
        forall|i: int| 0 <= i < c.len() ==> (#[trigger] c[i] as int) < 2 * n,
    ensures
        cnt_true(c, pa) == 0,
        cnt_false(c, pa, n) == 0,
    decreases c.len(),
{
    if c.len() > 0 {
        lemma_cnt_all_unassigned(c.drop_last(), pa, n);
    }
}

/// When every variable is assigned, each position is exactly one of true
/// and false, so the two counts partition the clause.
proof fn lemma_cnt_sum_assigned(c: Seq<usize>, pa: Seq<bool>, n: int)
    requires
        pa.len() == 2 * n,
        forall|l: int| 0 <= l < 2 * n ==> !((#[trigger] pa[l]) && pa[negl(n, l)]),
        forall|v: int| 0 <= v < n ==> (#[trigger] pa[n + v]) || pa[n - 1 - v],
        forall|i: int| 0 <= i < c.len() ==> (#[trigger] c[i] as int) < 2 * n,
    ensures
        cnt_true(c, pa) + cnt_false(c, pa, n) == c.len(),
    decreases c.len(),
{
    if c.len() > 0 {
        lemma_cnt_sum_assigned(c.drop_last(), pa, n);
        let l = c.last() as int;
        let v = var_of(n, l);
        assert(pa[n + v] || pa[n - 1 - v]);
    }
}

/// Powers of three, the radix of the search-progress measure below.
spec fn pow3(e: nat) -> nat
    decreases e,
{
    if e == 0 {
        1
    } else {
        3 * pow3((e - 1) as nat)
    }
}

/// Value of a digit string in base three, most significant digit first.
spec fn val3(s: Seq<int>) -> int
    decreases s.len(),
{
    if s.len() == 0 {
        0
    } else {
        3 * val3(s.drop_last()) + s.last()
    }
}

/// Digits between 0 and 2 give a value between 0 and `3^len - 1`.
proof fn lemma_val3_bounds(s: Seq<int>)
    requires
        forall|i: int| 0 <= i < s.len() ==> 0 <= #[trigger] s[i] <= 2,
    ensures
        0 <= val3(s) < pow3(s.len()),
    decreases s.len(),
{
    if s.len() > 0 {
        lemma_val3_bounds(s.drop_last());
        assert(s.last() == s[s.len() - 1]);
    }
}

/// Base-three values compare lexicographically: a smaller digit at the
/// first differing position makes the whole value smaller.
proof fn lemma_val3_lex(s: Seq<int>, t: Seq<int>, p: int)
    requires
        s.len() == t.len(),
        0 <= p < s.len(),
        forall|i: int| 0 <= i < p ==> s[i] == t[i],
        s[p] < t[p],
        forall|i: int| 0 <= i < s.len() ==> 0 <= #[trigger] s[i] <= 2,
        forall|i: int| 0 <= i < t.len() ==> 0 <= #[trigger] t[i] <= 2,
    ensures
        val3(s) < val3(t),
    decreases s.len(),
{
    if p == s.len() - 1 {
        assert(s.drop_last() =~= t.drop_last());
        assert(s.last() == s[p] && t.last() == t[p]);
    } else {
        assert forall|i: int| 0 <= i < p implies s.drop_last()[i] == t.drop_last()[i] by {
            assert(s.drop_last()[i] == s[i] && t.drop_last()[i] == t[i]);
        }
        assert(s.drop_last()[p] == s[p] && t.drop_last()[p] == t[p]);
        lemma_val3_lex(s.drop_last(), t.drop_last(), p);
        assert(0 <= s.last() <= 2 && 0 <= t.last() <= 2);
    }
}

/// Progress digits of one frame: a decision contributes 1, every other
/// trail literal 0 (the root frame holds no decision).
spec fn frame_tags(f: Seq<usize>, root: bool) -> Seq<int> {
    if root {
        Seq::new(f.len(), |i: int| 0)
    } else {
        Seq::new(
            f.len(),
            |i: int|
                if i == 0 {
                    1
                } else {
                    0
                },
        )
    }
}

/// Progress digits of the whole decision stack, oldest literal first.
spec fn tags(ds: Seq<Seq<usize>>) -> Seq<int>
    decreases ds.len(),
{
    if ds.len() == 0 {
        Seq::empty()
    } else {
        tags(ds.drop_last()) + frame_tags(ds.last(), ds.len() == 1)
    }
}

/// One digit per trail literal.
proof fn lemma_tags_len(ds: Seq<Seq<usize>>)
    ensures
        tags(ds).len() == cat(ds).len(),
        forall|i: int| 0 <= i < tags(ds).len() ==> 0 <= #[trigger] tags(ds)[i] <= 2,
    decreases ds.len(),
{
    if ds.len() > 0 {
        lemma_tags_len(ds.drop_last());
    }
}

/// The search-progress measure: the base-three value of the digit string,
/// padded with the digit 2 for every still-unassigned variable.  Asserting
/// a literal, branching, and flipping a refuted decision all shrink it.
spec fn mu(ds: Seq<Seq<usize>>, n: int) -> int {
    val3(tags(ds) + Seq::new((n - cat(ds).len()) as nat, |i: int| 2))
}

/// The measure is never negative.
proof fn lemma_mu_nonneg(ds: Seq<Seq<usize>>, n: int)
    requires
        cat(ds).len() <= n,
    ensures
        mu(ds, n) >= 0,
{
    lemma_tags_len(ds);
    lemma_val3_bounds(tags(ds) + Seq::new((n - cat(ds).len()) as nat, |i: int| 2));
}

/// Generic step: two padded digit strings that agree strictly below `p`,
/// where the first has a smaller digit at `p`, compare as values.
proof fn lemma_mu_lt(ds1: Seq<Seq<usize>>, ds2: Seq<Seq<usize>>, n: int, p: int, s: Seq<int>, t: Seq<int>)
    requires
        cat(ds1).len() <= n,
        cat(ds2).len() <= n,
        0 <= p < n,
        s == tags(ds1) + Seq::new((n - cat(ds1).len()) as nat, |i: int| 2),
        t == tags(ds2) + Seq::new((n - cat(ds2).len()) as nat, |i: int| 2),
        forall|i: int| 0 <= i < p ==> #[trigger] s[i] == t[i],
        s[p] < t[p],
    ensures
        mu(ds1, n) < mu(ds2, n),
{
    lemma_tags_len(ds1);
    lemma_tags_len(ds2);
    assert forall|i: int| 0 <= i < s.len() implies 0 <= #[trigger] s[i] <= 2 by {
        if i < tags(ds1).len() {
        }
    }
    assert forall|i: int| 0 <= i < t.len() implies 0 <= #[trigger] t[i] <= 2 by {
        if i < tags(ds2).len() {
        }
    }
    lemma_val3_lex(s, t, p);
}

/// Appending one literal to the last frame shrinks the measure.
proof fn lemma_mu_append(ds: Seq<Seq<usize>>, n: int, x: usize)
    requires
        ds.len() >= 1,
        cat(ds).len() < n,
    ensures
        mu(ds.update(ds.len() - 1, ds.last().push(x)), n) < mu(ds, n),
{
    let ds2 = ds.update(ds.len() - 1, ds.last().push(x));
    let root = ds.len() == 1;
    let d: int = if root || ds.last().len() > 0 {
        0
    } else {
        1
    };
    assert(ds2.drop_last() =~= ds.drop_last());
    assert(tags(ds2) =~= tags(ds).push(d)) by {
        assert(ds2.last() =~= ds.last().push(x));
        assert(frame_tags(ds2.last(), ds2.len() == 1) =~= frame_tags(ds.last(), root).push(d));
        assert(tags(ds.drop_last()) + frame_tags(ds.last(), root).push(d) =~= (tags(ds.drop_last())
            + frame_tags(ds.last(), root)).push(d));
    }
    lemma_cat_push_last(ds, x);
    lemma_tags_len(ds);
    lemma_tags_len(ds2);
    let p = cat(ds).len() as int;
    let s = tags(ds2) + Seq::new((n - cat(ds2).len()) as nat, |i: int| 2);
    let t = tags(ds) + Seq::new((n - cat(ds).len()) as nat, |i: int| 2);
    assert(s[p] == d);
    assert(t[p] == 2);
    assert forall|i: int| 0 <= i < p implies #[trigger] s[i] == t[i] by {
        assert(tags(ds2)[i] == tags(ds)[i]);
    }
    lemma_mu_lt(ds2, ds, n, p, s, t);
}

/// Extending the last frame by any sequence of literals does not grow the
/// measure.
proof fn lemma_mu_extend(ds: Seq<Seq<usize>>, n: int, extra: Seq<usize>)
    requires
        ds.len() >= 1,
        cat(ds).len() + extra.len() <= n,
    ensures
        mu(ds.update(ds.len() - 1, ds.last() + extra), n) <= mu(ds, n),
    decreases extra.len(),
{
    if extra.len() == 0 {
        assert(ds.update(ds.len() - 1, ds.last() + extra) =~~= ds);
    } else {
        let mid = ds.update(ds.len() - 1, ds.last() + extra.drop_last());
        lemma_mu_extend(ds, n, extra.drop_last());
        assert(cat(mid).len() == cat(ds).len() + extra.len() - 1) by {
            lemma_cat_update_last_len(ds, ds.last() + extra.drop_last());
        }
        lemma_mu_append(mid, n, extra.last());
        assert(mid.update(mid.len() - 1, mid.last().push(extra.last())) =~~= ds.update(
            ds.len() - 1,
            ds.last() + extra,
        )) by {
            assert(mid.last().push(extra.last()) =~= ds.last() + extra);
        }
    }
}

/// Trail length after replacing the last frame.
proof fn lemma_cat_update_last_len(ds: Seq<Seq<usize>>, f: Seq<usize>)
    requires
        ds.len() >= 1,
    ensures
        cat(ds.update(ds.len() - 1, f)).len() == cat(ds.drop_last()).len() + f.len(),
{
    let ds2 = ds.update(ds.len() - 1, f);
    assert(ds2.drop_last() =~= ds.drop_last());
    assert(ds2.last() =~= f);
}

/// Opening an empty frame leaves the measure unchanged.
proof fn lemma_mu_frame(ds: Seq<Seq<usize>>, n: int)
    requires
        ds.len() >= 1,
    ensures
        mu(ds.push(Seq::<usize>::empty()), n) == mu(ds, n),
{
    let ds2 = ds.push(Seq::<usize>::empty());
    lemma_cat_push_frame(ds);
    assert(tags(ds2) =~= tags(ds)) by {
        assert(ds2.drop_last() =~= ds);
        assert(frame_tags(Seq::<usize>::empty(), ds2.len() == 1) =~= Seq::<int>::empty());
    }
    assert(tags(ds2) + Seq::new((n - cat(ds2).len()) as nat, |i: int| 2) =~= tags(ds) + Seq::new(
        (n - cat(ds).len()) as nat,
        |i: int| 2,
    ));
}

/// Replacing the refuted last frame by the flipped decision on its parent
/// frame shrinks the measure: the decision digit 1 becomes a forced 0.
proof fn lemma_mu_flip(ds: Seq<Seq<usize>>, n: int, x: usize)
    requires
        ds.len() >= 2,
        ds.last().len() >= 1,
        cat(ds).len() <= n,
        ds.len() == 2 || ds[ds.len() - 2].len() >= 1,
    ensures
        mu(ds.drop_last().update(ds.len() - 2, ds[ds.len() - 2].push(x)), n) < mu(ds, n),
{
    let ds1 = ds.drop_last();
    let ds2 = ds1.update(ds1.len() - 1, ds1.last().push(x));
    lemma_tags_len(ds);
    lemma_tags_len(ds1);
    lemma_tags_len(ds2);
    let p = cat(ds1).len() as int;
    // the old digit string has a 1 at position p (the refuted decision)
    assert(tags(ds) =~= tags(ds1) + frame_tags(ds.last(), false));
    assert(tags(ds)[p] == 1);
    // the new digit string has a 0 there (the flip is forced, not a choice)
    let root1 = ds1.len() == 1;
    let d: int = if root1 || ds1.last().len() > 0 {
        0
    } else {
        1
    };
    assert(d == 0);
    assert(tags(ds2) =~= tags(ds1).push(0)) by {
        assert(ds2.drop_last() =~= ds1.drop_last());
        assert(ds2.last() =~= ds1.last().push(x));
        assert(frame_tags(ds2.last(), ds2.len() == 1) =~= frame_tags(ds1.last(), root1).push(0));
        assert(tags(ds1.drop_last()) + frame_tags(ds1.last(), root1).push(0) =~= (tags(
            ds1.drop_last(),
        ) + frame_tags(ds1.last(), root1)).push(0));
    }
    lemma_cat_push_last(ds1, x);
    assert(cat(ds2).len() == p + 1);
    assert(cat(ds).len() >= p + 1) by {
        assert(cat(ds) =~= cat(ds1) + ds.last());
    }
    let s = tags(ds2) + Seq::new((n - cat(ds2).len()) as nat, |i: int| 2);
    let t = tags(ds) + Seq::new((n - cat(ds).len()) as nat, |i: int| 2);
    assert(s[p] == 0);
    assert(t[p] == 1);
    assert forall|i: int| 0 <= i < p implies #[trigger] s[i] == t[i] by {
        assert(tags(ds2)[i] == tags(ds1)[i]);
        assert(tags(ds)[i] == tags(ds1)[i]);
    }
    lemma_mu_lt(ds2, ds, n, p, s, t);
}

/// The trail seen by the literal at position `i` of frame `k`: all earlier
/// frames and the earlier part of its own frame.
pub open spec fn prefix_at(ds: Seq<Seq<usize>>, k: int, i: int) -> Seq<usize> {
    cat(ds.take(k)) + ds[k].take(i)
}

/// Every non-decision literal of the decision stack is forced by the trail
/// before it (frames beyond the root start with their decision, which is
/// exempt).  This is the key invariant behind the completeness of `solve`:
/// it lets a conflict at the root refute every candidate assignment.
pub open spec fn justified(cs: Seq<Seq<usize>>, n: int, ds: Seq<Seq<usize>>) -> bool {
    forall|k: int, i: int|
        0 <= k < ds.len() && 0 <= i < ds[k].len() && !(k >= 1 && i == 0) ==> forced(
            cs,
            n,
            prefix_at(ds, k, i),
            #[trigger] ds[k][i] as int,
        )
}

proof fn lemma_cat_take_split(ds: Seq<Seq<usize>>, k: int)
    requires
        0 <= k < ds.len(),
    ensures
        cat(ds.take(k + 1)) =~= cat(ds.take(k)) + ds[k],
{
    assert(ds.take(k + 1).drop_last() =~= ds.take(k));
    assert(ds.take(k + 1).last() == ds[k]);
}

proof fn lemma_cat_last_split(ds: Seq<Seq<usize>>)
    requires
        ds.len() >= 1,
    ensures
        cat(ds) =~= cat(ds.take(ds.len() - 1)) + ds.last(),
{
    assert(ds.take(ds.len() - 1) =~= ds.drop_last());
}

/// A satisfying assignment that asserts a frame's decision and agrees with
/// everything before the frame agrees with the whole frame: each further
/// literal of the frame is forced.
proof fn lemma_frame_agree_upto(
    cs: Seq<Seq<usize>>,
    n: int,
    ds: Seq<Seq<usize>>,
    k: int,
    a: Seq<bool>,
    i: int,
)
    requires
        justified(cs, n, ds),
        0 <= k < ds.len(),
        0 <= i <= ds[k].len(),
        a.len() == n,
        formula_sat(a, n, cs),
        agrees(a, n, cat(ds.take(k))),
        k >= 1 && ds[k].len() >= 1 ==> lit_true(a, n, ds[k][0] as int),
    ensures
        agrees(a, n, prefix_at(ds, k, i)),
    decreases i,
{
    if i == 0 {
        assert(prefix_at(ds, k, 0) =~= cat(ds.take(k)));
    } else {
        lemma_frame_agree_upto(cs, n, ds, k, a, i - 1);
        if k >= 1 && i - 1 == 0 {
            assert(lit_true(a, n, ds[k][0] as int));
        } else {
            assert(forced(cs, n, prefix_at(ds, k, i - 1), ds[k][i - 1] as int));
            assert(agrees(a, n, prefix_at(ds, k, i - 1)));
            assert(lit_true(a, n, ds[k][i - 1] as int));
        }
        let p0 = prefix_at(ds, k, i - 1);
        let p1 = prefix_at(ds, k, i);
        assert(p1 =~= p0.push(ds[k][i - 1]));
        assert forall|j: int| 0 <= j < p1.len() implies lit_true(a, n, #[trigger] p1[j] as int) by {
            if j < p0.len() {
                assert(p1[j] == p0[j]);
            } else {
                assert(p1[j] == ds[k][i - 1]);
            }
        }
    }
}

proof fn lemma_frame_agree(cs: Seq<Seq<usize>>, n: int, ds: Seq<Seq<usize>>, k: int, a: Seq<bool>)
    requires
        justified(cs, n, ds),
        0 <= k < ds.len(),
        a.len() == n,
        formula_sat(a, n, cs),
        agrees(a, n, cat(ds.take(k))),
        k >= 1 && ds[k].len() >= 1 ==> lit_true(a, n, ds[k][0] as int),
    ensures
        agrees(a, n, cat(ds.take(k + 1))),
{
    lemma_frame_agree_upto(cs, n, ds, k, a, ds[k].len() as int);
    lemma_cat_take_split(ds, k);
    assert(prefix_at(ds, k, ds[k].len() as int) =~= cat(ds.take(k)) + ds[k]);
}

/// A clause fully falsified by the partial assignment rules out every
/// satisfying assignment that agrees with the trail.
proof fn lemma_conflict_no_agree(
    cs: Seq<Seq<usize>>,
    n: int,
    t: Seq<usize>,
    pa: Seq<bool>,
    j: int,
)
    requires
        0 <= j < cs.len(),
        2 * n <= usize::MAX,
        cnt_false(cs[j], pa, n) == cs[j].len(),
        pa.len() == 2 * n,
        forall|i: int| 0 <= i < cs[j].len() ==> (#[trigger] cs[j][i] as int) < 2 * n,
        forall|l: int| 0 <= l < 2 * n ==> ((#[trigger] pa[l]) <==> t.contains(l as usize)),
    ensures
        forall|a: Seq<bool>| a.len() == n && formula_sat(a, n, cs) ==> !agrees(a, n, t),
{
    lemma_cnt_false_full(cs[j], pa, n);
    assert forall|a: Seq<bool>| a.len() == n && formula_sat(a, n, cs) implies !agrees(a, n, t) by {
        if agrees(a, n, t) {
            assert(clause_sat(a, n, cs[j]));
            let i = choose|i: int| 0 <= i < cs[j].len() && lit_true(a, n, cs[j][i] as int);
            let li = cs[j][i] as int;
            assert(pa[negl(n, li)]);
            assert(t.contains(negl(n, li) as usize));
            let w = choose|w: int| 0 <= w < t.len() && t[w] == negl(n, li) as usize;
            assert(lit_true(a, n, t[w] as int));
            lemma_lit_negl(a, n, li);
            assert(!lit_true(a, n, li));
            assert(false);
        }
    }
}

/// Shrinking the last frame keeps every remaining literal justified.
proof fn lemma_justified_shrink(cs: Seq<Seq<usize>>, n: int, ds: Seq<Seq<usize>>)
    requires
        justified(cs, n, ds),
        ds.len() >= 1,
        ds.last().len() >= 1,
    ensures
        justified(cs, n, ds.update(ds.len() - 1, ds.last().drop_last())),
{
    let ds2 = ds.update(ds.len() - 1, ds.last().drop_last());
    assert forall|k: int, i: int|
        0 <= k < ds2.len() && 0 <= i < ds2[k].len() && !(k >= 1 && i == 0) implies forced(
        cs,
        n,
        prefix_at(ds2, k, i),
        #[trigger] ds2[k][i] as int,
    ) by {
        assert(ds2.take(k) =~~= ds.take(k));
        if k < ds.len() - 1 {
            assert(ds2[k] == ds[k]);
        } else {
            assert(ds2[k].take(i) =~= ds[k].take(i));
            assert(ds2[k][i] == ds[k][i]);
        }
        assert(prefix_at(ds2, k, i) =~= prefix_at(ds, k, i));
        assert(forced(cs, n, prefix_at(ds, k, i), ds[k][i] as int));
    }
}

/// Dropping an empty last frame keeps every literal justified.
proof fn lemma_justified_drop(cs: Seq<Seq<usize>>, n: int, ds: Seq<Seq<usize>>)
    requires
        justified(cs, n, ds),
        ds.len() >= 1,
    ensures
        justified(cs, n, ds.drop_last()),
{
    let ds2 = ds.drop_last();
    assert forall|k: int, i: int|
        0 <= k < ds2.len() && 0 <= i < ds2[k].len() && !(k >= 1 && i == 0) implies forced(
        cs,
        n,
        prefix_at(ds2, k, i),
        #[trigger] ds2[k][i] as int,
    ) by {
        assert(ds2.take(k) =~~= ds.take(k));
        assert(ds2[k] == ds[k]);
        assert(prefix_at(ds2, k, i) =~= prefix_at(ds, k, i));
        assert(forced(cs, n, prefix_at(ds, k, i), ds[k][i] as int));
    }
}

/// Opening a fresh frame whose only literal is a decision keeps the stack
/// justified.
proof fn lemma_justified_new_frame(cs: Seq<Seq<usize>>, n: int, ds: Seq<Seq<usize>>, x: usize)
    requires
        justified(cs, n, ds),
        ds.len() >= 1,
    ensures
        justified(cs, n, ds.push(seq![x])),
{
    let ds2 = ds.push(seq![x]);
    assert forall|k: int, i: int|
        0 <= k < ds2.len() && 0 <= i < ds2[k].len() && !(k >= 1 && i == 0) implies forced(
        cs,
        n,
        prefix_at(ds2, k, i),
        #[trigger] ds2[k][i] as int,
    ) by {
        assert(k < ds.len() && ds2[k] == ds[k]);
        assert(ds2.take(k) =~~= ds.take(k));
        assert(prefix_at(ds2, k, i) =~= prefix_at(ds, k, i));
        assert(forced(cs, n, prefix_at(ds, k, i), ds[k][i] as int));
    }
}

/// Appending a literal forced by the whole trail keeps the stack justified.
proof fn lemma_justified_append_forced(cs: Seq<Seq<usize>>, n: int, ds: Seq<Seq<usize>>, x: usize)
    requires
        justified(cs, n, ds),
        ds.len() >= 1,
        forced(cs, n, cat(ds), x as int),
    ensures
        justified(cs, n, ds.update(ds.len() - 1, ds.last().push(x))),
{
    let ds2 = ds.update(ds.len() - 1, ds.last().push(x));
    lemma_cat_last_split(ds);
    assert forall|k: int, i: int|
        0 <= k < ds2.len() && 0 <= i < ds2[k].len() && !(k >= 1 && i == 0) implies forced(
        cs,
        n,
        prefix_at(ds2, k, i),
        #[trigger] ds2[k][i] as int,
    ) by {
        assert(ds2.take(k) =~~= ds.take(k));
        if k < ds.len() - 1 {
            assert(ds2[k] == ds[k]);
            assert(prefix_at(ds2, k, i) =~= prefix_at(ds, k, i));
            assert(forced(cs, n, prefix_at(ds, k, i), ds[k][i] as int));
        } else if i < ds.last().len() {
            assert(ds2[k].take(i) =~= ds[k].take(i));
            assert(ds2[k][i] == ds[k][i]);
            assert(prefix_at(ds2, k, i) =~= prefix_at(ds, k, i));
            assert(forced(cs, n, prefix_at(ds, k, i), ds[k][i] as int));
        } else {
            assert(ds2[k][i] == x);
            assert(ds2[k].take(i) =~= ds.last());
            assert(prefix_at(ds2, k, i) =~= cat(ds));
        }
    }
}

/// Extending the last frame by literals each forced by the trail before
/// them keeps the stack justified.
proof fn lemma_justified_extend(cs: Seq<Seq<usize>>, n: int, ds: Seq<Seq<usize>>, extra: Seq<usize>)
    requires
        justified(cs, n, ds),
        ds.len() >= 1,
        forall|i: int|
            0 <= i < extra.len() ==> forced(
                cs,
                n,
                cat(ds) + extra.take(i),
                #[trigger] extra[i] as int,
            ),
    ensures
        justified(cs, n, ds.update(ds.len() - 1, ds.last() + extra)),
    decreases extra.len(),
{
    if extra.len() == 0 {
        assert(ds.update(ds.len() - 1, ds.last() + extra) =~~= ds);
    } else {
        assert forall|i: int|
            0 <= i < extra.drop_last().len() implies forced(
            cs,
            n,
            cat(ds) + extra.drop_last().take(i),
            #[trigger] extra.drop_last()[i] as int,
        ) by {
            assert(extra.drop_last().take(i) =~= extra.take(i));
            assert(extra.drop_last()[i] == extra[i]);
        }
        lemma_justified_extend(cs, n, ds, extra.drop_last());
        let mid = ds.update(ds.len() - 1, ds.last() + extra.drop_last());
        assert(cat(mid) =~= cat(ds) + extra.drop_last()) by {
            assert(mid.drop_last() =~= ds.drop_last());
            lemma_cat_last_split(mid);
            lemma_cat_last_split(ds);
            assert(mid.take(mid.len() - 1) =~= ds.take(ds.len() - 1));
        }
        assert(cat(ds) + extra.take(extra.len() - 1) =~= cat(mid));
        assert(forced(cs, n, cat(mid), extra.last() as int));
        lemma_justified_append_forced(cs, n, mid, extra.last());
        assert(mid.update(mid.len() - 1, mid.last().push(extra.last())) =~~= ds.update(
            ds.len() - 1,
            ds.last() + extra,
        )) by {
            assert(mid.last().push(extra.last()) =~= ds.last() + extra);
        }
    }
}

/// A trail of distinct variables that leaves some variable untouched is
/// strictly shorter than the number of variables.
proof fn lemma_trail_len_excl(n: int, t: Seq<usize>, v0: int)
    requires
        n >= 1,
        0 <= v0 < n,
        forall|i: int| 0 <= i < t.len() ==> (#[trigger] t[i] as int) < 2 * n,
        forall|i: int, j: int|
            0 <= i < j < t.len() ==> var_of(n, #[trigger] t[i] as int) != var_of(
                n,
                #[trigger] t[j] as int,
            ),
        forall|i: int| 0 <= i < t.len() ==> var_of(n, #[trigger] t[i] as int) != v0,
    ensures
        t.len() < n,
{
    let vs = Seq::new(t.len(), |i: int| var_of(n, t[i] as int));
    assert(vs.no_duplicates()) by {
        assert forall|i: int, j: int|
            0 <= i < vs.len() && 0 <= j < vs.len() && i != j implies vs[i] != vs[j] by {
            if i < j {
                assert(var_of(n, t[i] as int) != var_of(n, t[j] as int));
            } else {
                assert(var_of(n, t[j] as int) != var_of(n, t[i] as int));
            }
        }
    }
    vs.unique_seq_to_set();
    let target = vstd::set_lib::set_int_range(0, n).remove(v0);
    assert(vs.to_set().subset_of(target)) by {
        assert forall|x: int| vs.to_set().contains(x) implies target.contains(x) by {
            let i = choose|i: int| 0 <= i < vs.len() && vs[i] == x;
            assert((t[i] as int) < 2 * n);
        }
    }
    vstd::set_lib::lemma_int_range(0, n);
    assert(vstd::set_lib::set_int_range(0, n).contains(v0));
    assert(target.len() == n - 1);
    vstd::set_lib::lemma_len_subset(vs.to_set(), target);
}

/// Count the occurrences of literal slot `l` in clause `c`.
fn count_occ(c: &Vec<usize>, l: usize) -> (k: usize)
    ensures
        k == occ(c@, l as int),
{
    let mut k: usize = 0;
    let mut i: usize = 0;
    while i < c.len()
        invariant
            i <= c.len(),
            k <= i,
            k == occ(c@.take(i as int), l as int),
        decreases c.len() - i,
    {
        proof {
            lemma_occ_take_step(c@, l as int, i as int);
        }
        if c[i] == l {
            k = k + 1;
        }
        i = i + 1;
    }
    proof {
        assert(c@.take(c@.len() as int) =~= c@);
    }
    k
}

/// A boolean satisfiability solver over `n` variables.
pub struct SatSolver {
    /// number of variables
    n: usize,
    /// per clause: number of positions currently asserted true
    pos: Vec<usize>,
    /// per clause: number of positions currently asserted false
    neg: Vec<usize>,
    /// per literal slot: occurrences in not-yet-satisfied clauses.  This
    /// counter only ranks branching candidates (`score`); it carries no
    /// exactness contract, deliberately: any values still yield a correct
    /// verdict, since `solve` proves its answer from the clause counters
    /// alone.  `push` and `pop` adjust it symmetrically, with guards that
    /// keep the updates total without a tracked global invariant.
    remcnt: Vec<usize>,
    /// the clauses, by insertion order
    clauses: Vec<Vec<usize>>,
    /// trail frames: one per decision level, each literal in assertion order
    decision_stack: Vec<Vec<usize>>,
    /// per literal slot: asserted true by the current partial assignment
    assigns: Vec<bool>,
    /// clause ids that must be re-examined for units or conflicts
    watch_clause_list: Vec<usize>,
}

/// Outcome of `solve`: a satisfying assignment (one boolean per variable),
/// or a proof obligation discharged that none exists.
pub enum SatResult {
    Satisfiable(Vec<bool>),
    Unsatisfiable,
}

/// What `solve` promises of its verdict over a clause set on `n` variables:
/// a returned model satisfies every clause, and an unsatisfiable verdict
/// rules out every assignment.
pub open spec fn verdict_matches(cs: Seq<Seq<usize>>, n: int, r: SatResult) -> bool {
    match r {
        SatResult::Satisfiable(model) => model@.len() == n && formula_sat(model@, n, cs),
        SatResult::Unsatisfiable => forall|a: Seq<bool>| a.len() == n ==> !formula_sat(a, n, cs),
    }
}

/// The verdict is a function of the clause set alone: solving the same
/// clauses twice (in particular, re-solving a freshly built solver) yields
/// the same satisfiability answer.
pub proof fn lemma_verdict_deterministic(cs: Seq<Seq<usize>>, n: int, r1: SatResult, r2: SatResult)
    requires
        verdict_matches(cs, n, r1),
        verdict_matches(cs, n, r2),
    ensures
        (r1 is Satisfiable) == (r2 is Satisfiable),
{
    if r1 is Satisfiable && r2 is Unsatisfiable {
        let model = r1->Satisfiable_0;
        assert(!formula_sat(model@, n, cs));
    }
    if r2 is Satisfiable && r1 is Unsatisfiable {
        let model = r2->Satisfiable_0;
        assert(!formula_sat(model@, n, cs));
    }
}

/// With no clauses registered, the verdict is satisfiable: the all-false
/// assignment (like any other) satisfies the empty clause set.
pub proof fn lemma_empty_formula_satisfiable(n: int, r: SatResult)
    requires
        n >= 0,
        verdict_matches(Seq::<Seq<usize>>::empty(), n, r),
    ensures
        r is Satisfiable,
{
    if r is Unsatisfiable {
        let a = Seq::<bool>::new(n as nat, |i: int| false);
        assert(a.len() == n);
        assert(formula_sat(a, n, Seq::<Seq<usize>>::empty()));
        assert(!formula_sat(a, n, Seq::<Seq<usize>>::empty()));
    }
}

/// A clause with no literals can never be satisfied, so its mere presence
/// makes the verdict unsatisfiable.
pub proof fn lemma_empty_clause_unsatisfiable(cs: Seq<Seq<usize>>, n: int, j: int, r: SatResult)
    requires
        0 <= j < cs.len(),
        cs[j].len() == 0,
        verdict_matches(cs, n, r),
    ensures
        r is Unsatisfiable,
{
    if r is Satisfiable {
        let model = r->Satisfiable_0;
        assert(!clause_sat(model@, n, cs[j]));
    }
}

impl SatSolver {
    /// The clause set, one sequence of literal slots per clause.
    pub closed spec fn clauses_view(self) -> Seq<Seq<usize>> {
        self.clauses.deep_view()
    }

    /// The trail: all currently asserted literals, oldest first.
    pub closed spec fn trail(self) -> Seq<usize> {
        cat(self.decision_stack.deep_view())
    }

    /// Number of variables.
    pub closed spec fn nvars(self) -> int {
        self.n as int
    }

    /// Shape of the solver that holds from construction on: array sizes
    /// agree, every stored literal is a valid slot.
    pub closed spec fn wf_base(self) -> bool {
        &&& 2 * self.n <= usize::MAX
        &&& self.assigns.len() == 2 * self.n
        &&& self.remcnt.len() == 2 * self.n
        &&& forall|j: int, i: int|
            0 <= j < self.clauses_view().len() && 0 <= i < self.clauses_view()[j].len()
                ==> (#[trigger] self.clauses_view()[j][i] as int) < 2 * self.n
        &&& self.decision_stack.len() >= 1
    }

    /// The state `new` and `add_clause` keep: nothing is assigned yet and
    /// solving has not started.
    pub closed spec fn wf_built(self) -> bool {
        &&& self.wf_base()
        &&& self.pos.len() == 0
        &&& self.neg.len() == 0
        &&& self.decision_stack.deep_view() =~~= seq![Seq::<usize>::empty()]
        &&& self.watch_clause_list.len() == 0
        &&& forall|l: int| 0 <= l < 2 * self.n ==> !(#[trigger] self.assigns[l])
    }

    /// Allocate a solver for `n` boolean variables, with no clauses.
    pub fn new(n: usize) -> (s: Self)
        requires
            2 * n <= usize::MAX,
        ensures
            s.wf_built(),
            s.nvars() == n,
            s.clauses_view().len() == 0,
    {
        let mut frames: Vec<Vec<usize>> = Vec::new();
        frames.push(Vec::new());
        let mut assigns: Vec<bool> = Vec::new();
        let mut remcnt: Vec<usize> = Vec::new();
        let mut i: usize = 0;
        while i < 2 * n
            invariant
                2 * n <= usize::MAX,
                i <= 2 * n,
                assigns.len() == i,
                remcnt.len() == i,
                forall|l: int| 0 <= l < i ==> !(#[trigger] assigns[l]),
            decreases 2 * n - i,
        {
            assigns.push(false);
            remcnt.push(0);
            i = i + 1;
        }
        let s = Self {
            n,
            pos: Vec::new(),
            neg: Vec::new(),
            remcnt,
            clauses: Vec::new(),
            decision_stack: frames,
            assigns,
            watch_clause_list: Vec::new(),
        };
        proof {
            assert(s.decision_stack.deep_view() =~~= seq![Seq::<usize>::empty()]);
            assert(s.clauses_view().len() == 0);
        }
        s
    }

    /// Register one clause, given as a sequence of literal slots in
    /// `[0, 2n)`; duplicates are permitted.  Clauses may only be added
    /// before solving starts.
    pub fn add_clause(&mut self, cl: Vec<usize>)
        requires
            old(self).wf_built(),
            forall|i: int| 0 <= i < cl@.len() ==> (#[trigger] cl@[i] as int) < 2 * old(self).nvars(),
        ensures
            final(self).wf_built(),
            final(self).nvars() == old(self).nvars(),
            final(self).clauses_view() =~~= old(self).clauses_view().push(cl@),
    {
        let ghost old_cs = self.clauses_view();
        let mut i: usize = 0;
        // count each literal occurrence toward the branching heuristic
        while i < cl.len()
            invariant
                self.wf_built(),
                self.n == old(self).n,
                self.clauses_view() =~~= old_cs,
                i <= cl.len(),
                forall|k: int| 0 <= k < cl@.len() ==> (#[trigger] cl@[k] as int) < 2 * self.n as int,
            decreases cl.len() - i,
        {
            let l = cl[i];
            if self.remcnt[l] < usize::MAX {
                let v = self.remcnt[l];
                self.remcnt.set(l, v + 1);
            }
            i = i + 1;
        }
        self.clauses.push(cl);
        proof {
            assert(self.clauses_view() =~~= old_cs.push(self.clauses@.last()@));
        }
    }

    /// The partial assignment, one flag per literal slot.
    pub closed spec fn assigned(self) -> Seq<bool> {
        self.assigns@
    }

    /// The decision-stack frames.
    pub closed spec fn frames(self) -> Seq<Seq<usize>> {
        self.decision_stack.deep_view()
    }

    /// The watch list of clause ids pending re-examination.
    pub closed spec fn watch(self) -> Seq<usize> {
        self.watch_clause_list@
    }

    /// Per-clause true-position count.
    pub closed spec fn pos_at(self, j: int) -> int {
        self.pos[j] as int
    }

    /// Per-clause false-position count.
    pub closed spec fn neg_at(self, j: int) -> int {
        self.neg[j] as int
    }

    /// The state kept throughout a run of `solve`: the per-clause counters
    /// mirror the assignment exactly, the assignment mirrors the trail, no
    /// variable is asserted in both polarities, and every fully falsified
    /// unsatisfied clause is on the watch list.
    pub closed spec fn wf_solving(self) -> bool {
        let n = self.nvars();
        let cs = self.clauses_view();
        let a = self.assigns@;
        let t = self.trail();
        &&& self.wf_base()
        &&& self.pos.len() == cs.len()
        &&& self.neg.len() == cs.len()
        &&& forall|j: int| 0 <= j < cs.len() ==> (#[trigger] self.pos[j]) == cnt_true(cs[j], a)
        &&& forall|j: int|
            0 <= j < cs.len() ==> (#[trigger] self.neg[j]) == cnt_false(cs[j], a, n)
        &&& forall|l: int| 0 <= l < 2 * n ==> !((#[trigger] a[l]) && a[negl(n, l)])
        &&& forall|i: int| 0 <= i < t.len() ==> (#[trigger] t[i] as int) < 2 * n
        &&& forall|l: int| 0 <= l < 2 * n ==> ((#[trigger] a[l]) <==> t.contains(l as usize))
        &&& forall|i: int, j: int|
            0 <= i < j < t.len() ==> var_of(n, #[trigger] t[i] as int) != var_of(
                n,
                #[trigger] t[j] as int,
            )
        &&& forall|j: int|
            0 <= j < cs.len() && (#[trigger] self.pos[j]) == 0 && self.neg[j] == cs[j].len()
                ==> in_watch(self.watch_clause_list@, j)
        &&& forall|k: int|
            0 <= k < self.watch_clause_list@.len() ==> (#[trigger] self.watch_clause_list@[k] as int)
                < cs.len()
    }

    /// Assert literal slot `lit` true: record it on the current trail frame
    /// and update the per-clause counters.  Every clause that holds the
    /// negation of `lit` and is left without a true position joins the
    /// watch list (`watch_adds` in the contract), so a clause is re-examined
    /// after each new false literal while it is unsatisfied.  The
    /// remaining-occurrence counters that rank branching candidates are
    /// adjusted on the side (see the field note on `remcnt`; their guards
    /// are unreachable no-ops in any state this module produces).
    #[verifier::loop_isolation(false)]
    #[verifier::rlimit(100)]
    #[verifier::spinoff_prover]
    pub fn push(&mut self, lit: usize)
        requires
            old(self).wf_solving(),
            (lit as int) < 2 * old(self).nvars(),
            !old(self).assigned()[lit as int],
            !old(self).assigned()[negl(old(self).nvars(), lit as int)],
        ensures
            final(self).wf_solving(),
            final(self).nvars() == old(self).nvars(),
            final(self).clauses_view() == old(self).clauses_view(),
            final(self).assigned() =~= old(self).assigned().update(lit as int, true),
            final(self).frames() =~~= old(self).frames().update(
                old(self).frames().len() - 1,
                old(self).frames().last().push(lit),
            ),
            final(self).trail() =~= old(self).trail().push(lit),
            final(self).watch().len() >= old(self).watch().len(),
            forall|k: int|
                0 <= k < old(self).watch().len() ==> (#[trigger] final(self).watch()[k]) == old(
                    self,
                ).watch()[k],
            final(self).watch() =~= old(self).watch() + watch_adds(
                old(self).clauses_view(),
                final(self).assigned(),
                old(self).nvars(),
                lit as int,
                old(self).clauses_view().len() as int,
            ),
    {
        let ghost n_spec = old(self).nvars();
        let ghost a_old = old(self).assigns@;
        let ghost t_old = old(self).trail();
        let ghost cs = old(self).clauses_view();
        let n = self.n;
        let nl = 2 * n - 1 - lit;
        self.assigns.set(lit, true);
        let mut fr = self.decision_stack.pop().unwrap();
        fr.push(lit);
        self.decision_stack.push(fr);
        let ghost a_new = self.assigns@;
        proof {
            assert(self.frames() =~~= old(self).frames().update(
                old(self).frames().len() - 1,
                old(self).frames().last().push(lit),
            ));
            lemma_cat_push_last(old(self).frames(), lit);
            assert(self.trail() =~= t_old.push(lit));
        }
        let ghost s0 = *self;
        let m = self.clauses.len();
        let mut c: usize = 0;
        while c < m
            invariant
                self.n == s0.n,
                self.clauses == s0.clauses,
                self.assigns == s0.assigns,
                self.decision_stack == s0.decision_stack,
                self.remcnt.len() == s0.remcnt.len(),
                self.pos.len() == s0.pos.len(),
                self.neg.len() == s0.neg.len(),
                c <= m,
                forall|j: int| 0 <= j < c ==> (#[trigger] self.pos[j]) == cnt_true(cs[j], a_new),
                forall|j: int|
                    0 <= j < c ==> (#[trigger] self.neg[j]) == cnt_false(cs[j], a_new, n_spec),
                forall|j: int| c <= j < m ==> (#[trigger] self.pos[j]) == cnt_true(cs[j], a_old),
                forall|j: int|
                    c <= j < m ==> (#[trigger] self.neg[j]) == cnt_false(cs[j], a_old, n_spec),
                self.watch_clause_list@.len() >= s0.watch_clause_list@.len(),
                forall|k: int|
                    0 <= k < s0.watch_clause_list@.len() ==> (#[trigger] self.watch_clause_list@[k])
                        == s0.watch_clause_list@[k],
                forall|k: int|
                    0 <= k < self.watch_clause_list@.len() ==> (
                    #[trigger] self.watch_clause_list@[k] as int) < cs.len(),
                forall|j: int|
                    0 <= j < c && (#[trigger] self.pos[j]) == 0 && self.neg[j] == cs[j].len()
                        ==> in_watch(self.watch_clause_list@, j),
                self.watch_clause_list@ =~= s0.watch_clause_list@ + watch_adds(
                    cs,
                    a_new,
                    n_spec,
                    lit as int,
                    c as int,
                ),
            decreases m - c,
        {
            let ghost it0 = *self;
            proof {
                assert(self.clauses.deep_view()[c as int] =~= self.clauses@[c as int]@);
                lemma_cnt_update_true(cs[c as int], a_old, n_spec, lit as int);
                lemma_cnt_true_le(cs[c as int], a_new);
                lemma_cnt_false_le(cs[c as int], a_new, n_spec);
            }
            let k = count_occ(&self.clauses[c], lit);
            let clen = self.clauses[c].len();
            proof {
                assert(cs[c as int].len() == clen);
            }
            let ghost w0 = self.watch_clause_list@;
            if k > 0 {
                if self.pos[c] == 0 {
                    // the clause just became satisfied: it stops counting
                    // toward the branching heuristic
                    let ghost s1 = *self;
                    let mut j: usize = 0;
                    while j < clen
                        invariant
                            self.n == s1.n,
                            self.clauses == s1.clauses,
                            self.assigns == s1.assigns,
                            self.decision_stack == s1.decision_stack,
                            self.pos == s1.pos,
                            self.neg == s1.neg,
                            self.watch_clause_list == s1.watch_clause_list,
                            self.remcnt.len() == s1.remcnt.len(),
                            j <= clen,
                        decreases clen - j,
                    {
                        proof {
                            assert(self.clauses.deep_view()[c as int] =~= self.clauses@[
                                c as int
                            ]@);
                            assert((cs[c as int][j as int] as int) < 2 * n_spec);
                        }
                        let x = self.clauses[c][j];
                        if self.remcnt[x] > 0 {
                            let v = self.remcnt[x];
                            self.remcnt.set(x, v - 1);
                        }
                        j = j + 1;
                    }
                }
                let p = self.pos[c];
                self.pos.set(c, p + k);
            }
            let kn = count_occ(&self.clauses[c], nl);
            if kn > 0 {
                if self.pos[c] == 0 {
                    self.watch_clause_list.push(c);
                    proof {
                        assert(in_watch(
                            self.watch_clause_list@,
                            c as int,
                        )) by {
                            assert(self.watch_clause_list@.last() == c);
                        }
                    }
                }
                let q = self.neg[c];
                self.neg.set(c, q + kn);
            }
            proof {
                assert forall|j: int|
                    0 <= j < c + 1 && (#[trigger] self.pos[j]) == 0 && self.neg[j] == cs[j].len()
                        implies in_watch(self.watch_clause_list@, j) by {
                    if j == c as int {
                        // with no true position left, nothing of `lit`
                        // occurs in the clause, so the true count is the old
                        // one
                        assert(k == occ(cs[j], lit as int));
                        assert(kn == occ(cs[j], negl(n_spec, lit as int)));
                        if kn > 0 {
                            assert(in_watch(self.watch_clause_list@, j));
                        } else {
                            // false count unchanged; the clause was already
                            // fully false before, hence already watched
                            assert(cnt_false(cs[j], a_new, n_spec) == cnt_false(
                                cs[j],
                                a_old,
                                n_spec,
                            ));
                            assert(k == 0);
                            assert(self.pos[j] == cnt_true(cs[j], a_old));
                            assert(old(self).pos[j] == cnt_true(cs[j], a_old));
                            assert(self.neg[j] == cnt_false(cs[j], a_old, n_spec));
                            assert(old(self).neg[j] == cnt_false(cs[j], a_old, n_spec));
                            assert(in_watch(old(self).watch_clause_list@, j));
                            let kk = choose|kk: int|
                                0 <= kk < old(self).watch_clause_list@.len() && old(
                                    self,
                                ).watch_clause_list@[kk] as int == j;
                            assert(self.watch_clause_list@[kk] as int == j);
                        }
                    } else {
                        assert(in_watch(w0, j));
                        let kk = choose|kk: int| 0 <= kk < w0.len() && w0[kk] as int == j;
                        assert(self.watch_clause_list@[kk] as int == j);
                    }
                }
                assert forall|j: int|
                    c + 1 <= j < m implies (#[trigger] self.pos[j]) == cnt_true(cs[j], a_old) by {
                    assert(self.pos[j] == it0.pos[j]);
                    assert(it0.pos[j] == cnt_true(cs[j], a_old));
                }
                assert forall|j: int|
                    c + 1 <= j < m implies (#[trigger] self.neg[j]) == cnt_false(
                        cs[j],
                        a_old,
                        n_spec,
                    ) by {
                    assert(self.neg[j] == it0.neg[j]);
                    assert(it0.neg[j] == cnt_false(cs[j], a_old, n_spec));
                }
                assert(self.pos[c as int] == cnt_true(cs[c as int], a_new));
                assert(self.neg[c as int] == cnt_false(cs[c as int], a_new, n_spec));
                assert(self.watch_clause_list@ =~= s0.watch_clause_list@ + watch_adds(
                    cs,
                    a_new,
                    n_spec,
                    lit as int,
                    c + 1,
                )) by {
                    assert(k == occ(cs[c as int], lit as int));
                    assert(kn == occ(cs[c as int], negl(n_spec, lit as int)));
                    if kn > 0 && self.pos[c as int] == 0 {
                        assert(self.watch_clause_list@ =~= it0.watch_clause_list@.push(c));
                    } else {
                        assert(self.watch_clause_list@ =~= it0.watch_clause_list@);
                    }
                }
                assert forall|j: int|
                    0 <= j < c + 1 implies (#[trigger] self.pos[j]) == cnt_true(cs[j], a_new) by {
                    if j < c as int {
                        assert(self.pos[j] == it0.pos[j]);
                        assert(it0.pos[j] == cnt_true(cs[j], a_new));
                    }
                }
                assert forall|j: int|
                    0 <= j < c + 1 implies (#[trigger] self.neg[j]) == cnt_false(
                        cs[j],
                        a_new,
                        n_spec,
                    ) by {
                    if j < c as int {
                        assert(self.neg[j] == it0.neg[j]);
                        assert(it0.neg[j] == cnt_false(cs[j], a_new, n_spec));
                    }
                }
            }
            c = c + 1;
        }
        proof {
            self.lemma_push_wf(*old(self), lit);
        }
    }

    /// Retract the most recently asserted literal of the current trail
    /// frame, exactly reversing the effects of `push` on the assignment,
    /// the trail and the per-clause counters, in the opposite order; the
    /// remaining-occurrence counters are restored on the side (see the
    /// field note on `remcnt`), and the watch list is deliberately left
    /// alone, as `push` left it.  The caller must not retract from an
    /// empty frame.
    #[verifier::loop_isolation(false)]
    #[verifier::rlimit(100)]
    #[verifier::spinoff_prover]
    pub fn pop(&mut self)
        requires
            old(self).wf_solving(),
            old(self).frames().last().len() >= 1,
        ensures
            final(self).wf_solving(),
            final(self).nvars() == old(self).nvars(),
            final(self).clauses_view() == old(self).clauses_view(),
            final(self).frames() =~~= old(self).frames().update(
                old(self).frames().len() - 1,
                old(self).frames().last().drop_last(),
            ),
            final(self).trail() =~= old(self).trail().drop_last(),
            final(self).assigned() =~= old(self).assigned().update(
                old(self).trail().last() as int,
                false,
            ),
            final(self).watch() == old(self).watch(),
    {
        let ghost n_spec = old(self).nvars();
        let ghost a_old = old(self).assigns@;
        let ghost t_old = old(self).trail();
        let ghost cs = old(self).clauses_view();
        proof {
            lemma_cat_pop_last(old(self).frames());
            assert(t_old.last() == old(self).frames().last().last());
            assert((t_old[t_old.len() - 1] as int) < 2 * n_spec);
            assert(t_old.contains(t_old.last()));
        }
        let n = self.n;
        let mut fr = self.decision_stack.pop().unwrap();
        let lit = fr.pop().unwrap();
        self.decision_stack.push(fr);
        proof {
            assert(self.frames() =~~= old(self).frames().update(
                old(self).frames().len() - 1,
                old(self).frames().last().drop_last(),
            ));
            assert(self.trail() =~= t_old.drop_last());
        }
        let nl = 2 * n - 1 - lit;
        self.assigns.set(lit, false);
        let ghost a_new = self.assigns@;
        let ghost s0 = *self;
        let m = self.clauses.len();
        let mut c: usize = 0;
        while c < m
            invariant
                self.n == s0.n,
                self.clauses == s0.clauses,
                self.assigns == s0.assigns,
                self.decision_stack == s0.decision_stack,
                self.watch_clause_list == s0.watch_clause_list,
                self.remcnt.len() == s0.remcnt.len(),
                self.pos.len() == s0.pos.len(),
                self.neg.len() == s0.neg.len(),
                c <= m,
                forall|j: int| 0 <= j < c ==> (#[trigger] self.pos[j]) == cnt_true(cs[j], a_new),
                forall|j: int|
                    0 <= j < c ==> (#[trigger] self.neg[j]) == cnt_false(cs[j], a_new, n_spec),
                forall|j: int| c <= j < m ==> (#[trigger] self.pos[j]) == cnt_true(cs[j], a_old),
                forall|j: int|
                    c <= j < m ==> (#[trigger] self.neg[j]) == cnt_false(cs[j], a_old, n_spec),
            decreases m - c,
        {
            let ghost it0 = *self;
            proof {
                assert(self.clauses.deep_view()[c as int] =~= self.clauses@[c as int]@);
                lemma_cnt_update_false(cs[c as int], a_old, n_spec, lit as int);
                lemma_cnt_true_le(cs[c as int], a_old);
                lemma_cnt_false_le(cs[c as int], a_old, n_spec);
            }
            let k = count_occ(&self.clauses[c], lit);
            if k > 0 {
                let p = self.pos[c];
                self.pos.set(c, p - k);
                if p - k == 0 {
                    // the clause is unsatisfied again: it counts toward the
                    // branching heuristic once more
                    let ghost s1 = *self;
                    let clen = self.clauses[c].len();
                    let mut j: usize = 0;
                    while j < clen
                        invariant
                            self.n == s1.n,
                            self.clauses == s1.clauses,
                            self.assigns == s1.assigns,
                            self.decision_stack == s1.decision_stack,
                            self.pos == s1.pos,
                            self.neg == s1.neg,
                            self.watch_clause_list == s1.watch_clause_list,
                            self.remcnt.len() == s1.remcnt.len(),
                            j <= clen,
                        decreases clen - j,
                    {
                        proof {
                            assert(self.clauses.deep_view()[c as int] =~= self.clauses@[
                                c as int
                            ]@);
                            assert((cs[c as int][j as int] as int) < 2 * n_spec);
                        }
                        let x = self.clauses[c][j];
                        if self.remcnt[x] < usize::MAX {
                            let v = self.remcnt[x];
                            self.remcnt.set(x, v + 1);
                        }
                        j = j + 1;
                    }
                }
            }
            let kn = count_occ(&self.clauses[c], nl);
            if kn > 0 {
                let q = self.neg[c];
                self.neg.set(c, q - kn);
            }
            proof {
                assert forall|j: int|
                    c + 1 <= j < m implies (#[trigger] self.pos[j]) == cnt_true(cs[j], a_old) by {
                    assert(self.pos[j] == it0.pos[j]);
                    assert(it0.pos[j] == cnt_true(cs[j], a_old));
                }
                assert forall|j: int|
                    c + 1 <= j < m implies (#[trigger] self.neg[j]) == cnt_false(
                        cs[j],
                        a_old,
                        n_spec,
                    ) by {
                    assert(self.neg[j] == it0.neg[j]);
                    assert(it0.neg[j] == cnt_false(cs[j], a_old, n_spec));
                }
                assert(self.pos[c as int] == cnt_true(cs[c as int], a_new));
                assert(self.neg[c as int] == cnt_false(cs[c as int], a_new, n_spec));
                assert forall|j: int|
                    0 <= j < c + 1 implies (#[trigger] self.pos[j]) == cnt_true(cs[j], a_new) by {
                    if j < c as int {
                        assert(self.pos[j] == it0.pos[j]);
                        assert(it0.pos[j] == cnt_true(cs[j], a_new));
                    }
                }
                assert forall|j: int|
                    0 <= j < c + 1 implies (#[trigger] self.neg[j]) == cnt_false(
                        cs[j],
                        a_new,
                        n_spec,
                    ) by {
                    if j < c as int {
                        assert(self.neg[j] == it0.neg[j]);
                        assert(it0.neg[j] == cnt_false(cs[j], a_new, n_spec));
                    }
                }
            }
            c = c + 1;
        }
        proof {
            self.lemma_pop_wf(*old(self), lit);
        }
    }

    /// Re-establishes `wf_solving` after `pop` has removed the last trail
    /// literal and downdated the counters.
    proof fn lemma_pop_wf(self, pre: Self, lit: usize)
        requires
            pre.wf_solving(),
            pre.trail().len() >= 1,
            lit == pre.trail().last(),
            (lit as int) < 2 * pre.nvars(),
            self.nvars() == pre.nvars(),
            self.clauses_view() == pre.clauses_view(),
            self.wf_base(),
            self.pos.len() == self.clauses_view().len(),
            self.neg.len() == self.clauses_view().len(),
            self.assigns@ == pre.assigns@.update(lit as int, false),
            self.trail() == pre.trail().drop_last(),
            self.watch_clause_list == pre.watch_clause_list,
            forall|j: int|
                0 <= j < self.clauses_view().len() ==> (#[trigger] self.pos[j]) == cnt_true(
                    self.clauses_view()[j],
                    self.assigns@,
                ),
            forall|j: int|
                0 <= j < self.clauses_view().len() ==> (#[trigger] self.neg[j]) == cnt_false(
                    self.clauses_view()[j],
                    self.assigns@,
                    self.nvars(),
                ),
        ensures
            self.wf_solving(),
    {
        let n = self.nvars();
        let cs = self.clauses_view();
        let a = self.assigns@;
        let ap = pre.assigns@;
        let t = self.trail();
        let tp = pre.trail();
        assert(tp.contains(lit));
        assert(ap[lit as int]);
        assert(!ap[negl(n, lit as int)]);
        assert forall|l: int| 0 <= l < 2 * n implies !((#[trigger] a[l]) && a[negl(n, l)]) by {
            if l != lit as int && negl(n, l) != lit as int {
                assert(a[l] == ap[l] && a[negl(n, l)] == ap[negl(n, l)]);
            }
        }
        assert forall|i: int| 0 <= i < t.len() implies (#[trigger] t[i] as int) < 2 * n by {
            assert(t[i] == tp[i]);
        }
        assert forall|i: int, j: int| 0 <= i < j < t.len() implies var_of(
            n,
            #[trigger] t[i] as int,
        ) != var_of(n, #[trigger] t[j] as int) by {
            assert(t[i] == tp[i] && t[j] == tp[j]);
        }
        assert forall|l: int| 0 <= l < 2 * n implies ((#[trigger] a[l]) <==> t.contains(
            l as usize,
        )) by {
            if l == lit as int {
                if t.contains(l as usize) {
                    let i = choose|i: int| 0 <= i < t.len() && t[i] == l as usize;
                    assert(tp[i] == lit && tp[tp.len() - 1] == lit);
                    assert(var_of(n, tp[i] as int) == var_of(n, lit as int));
                }
            } else {
                if ap[l] {
                    let i = choose|i: int| 0 <= i < tp.len() && tp[i] == l as usize;
                    assert(i < tp.len() - 1);
                    assert(t[i] == l as usize);
                    assert(t.contains(l as usize));
                }
                if t.contains(l as usize) {
                    let i = choose|i: int| 0 <= i < t.len() && t[i] == l as usize;
                    assert(tp[i] == l as usize);
                    assert(tp.contains(l as usize));
                }
            }
        }
        // a conflicting clause after the retraction was conflicting before
        assert forall|j: int|
            0 <= j < cs.len() && (#[trigger] self.pos[j]) == 0 && self.neg[j] == cs[j].len()
                implies in_watch(self.watch_clause_list@, j) by {
            lemma_cnt_update_false(cs[j], ap, n, lit as int);
            lemma_cnt_false_le(cs[j], ap, n);
            assert(cnt_false(cs[j], ap, n) == cs[j].len());
            if occ(cs[j], lit as int) > 0 {
                lemma_occ_pos_witness(cs[j], lit as int);
                let i = choose|i: int| 0 <= i < cs[j].len() && #[trigger] cs[j][i] as int
                    == lit as int;
                lemma_cnt_false_full(cs[j], ap, n);
                assert(ap[negl(n, cs[j][i] as int)]);
            }
            assert(occ(cs[j], lit as int) == 0);
            assert(pre.pos[j] == 0 && pre.neg[j] == cs[j].len());
        }
    }

    /// Exhaustive unit propagation: re-examine watched clauses until the
    /// watch list is empty or a conflict is found.  Returns `true` when no
    /// conflict was detected: the watch list has been drained and no clause
    /// is fully falsified while unsatisfied.  Returns `false` when some
    /// clause is fully falsified by the current assignment.  Every literal
    /// it asserts is a consequence (`forced`) of the trail before it.
    /// Only watched clauses are examined: a clause never yet watched (for
    /// one, a one-literal clause before anything falsifies its literal) is
    /// only picked up once `push` puts it on the list.
    #[verifier::loop_isolation(false)]
    #[verifier::rlimit(100)]
    #[verifier::spinoff_prover]
    pub fn propagate(&mut self) -> (ok: bool)
        requires
            old(self).wf_solving(),
        ensures
            final(self).wf_solving(),
            final(self).nvars() == old(self).nvars(),
            final(self).clauses_view() == old(self).clauses_view(),
            final(self).frames().len() == old(self).frames().len(),
            final(self).frames().drop_last() =~~= old(self).frames().drop_last(),
            final(self).frames().last().take(old(self).frames().last().len() as int) =~= old(
                self,
            ).frames().last(),
            final(self).trail().take(old(self).trail().len() as int) =~= old(self).trail(),
            final(self).trail().len() >= old(self).trail().len(),
            forall|i: int|
                old(self).trail().len() <= i < final(self).trail().len() ==> forced(
                    old(self).clauses_view(),
                    old(self).nvars(),
                    final(self).trail().take(i),
                    #[trigger] final(self).trail()[i] as int,
                ),
            ok ==> final(self).watch().len() == 0,
            ok ==> forall|j: int|
                0 <= j < old(self).clauses_view().len() ==> !(cnt_true(
                    #[trigger] old(self).clauses_view()[j],
                    final(self).assigned(),
                ) == 0 && cnt_false(
                    old(self).clauses_view()[j],
                    final(self).assigned(),
                    old(self).nvars(),
                ) == old(self).clauses_view()[j].len()),
            !ok ==> exists|j: int|
                0 <= j < old(self).clauses_view().len() && cnt_true(
                    #[trigger] old(self).clauses_view()[j],
                    final(self).assigned(),
                ) == 0 && cnt_false(
                    old(self).clauses_view()[j],
                    final(self).assigned(),
                    old(self).nvars(),
                ) == old(self).clauses_view()[j].len(),
    {
        let ghost n_spec = old(self).nvars();
        let ghost cs = old(self).clauses_view();
        let ghost t0 = old(self).trail();
        let ghost f0 = old(self).frames();
        let n = self.n;
        proof {
            lemma_trail_len(n_spec, self.trail());
        }
        while self.watch_clause_list.len() > 0
            invariant
                self.wf_solving(),
                self.nvars() == n_spec,
                self.clauses_view() == cs,
                self.frames().len() == f0.len(),
                self.frames().drop_last() =~~= f0.drop_last(),
                self.frames().last().take(f0.last().len() as int) =~= f0.last(),
                self.trail().take(t0.len() as int) =~= t0,
                self.trail().len() >= t0.len(),
                self.trail().len() <= n_spec,
                forall|i: int|
                    t0.len() <= i < self.trail().len() ==> forced(
                        cs,
                        n_spec,
                        self.trail().take(i),
                        #[trigger] self.trail()[i] as int,
                    ),
            decreases n_spec - self.trail().len(), self.watch_clause_list.len(),
        {
            let ghost it0 = *self;
            let cid = self.watch_clause_list[self.watch_clause_list.len() - 1];
            let clen = self.clauses[cid].len();
            proof {
                assert(self.clauses.deep_view()[cid as int] =~= self.clauses@[cid as int]@);
                lemma_cnt_false_le(cs[cid as int], self.assigns@, n_spec);
                lemma_cnt_true_le(cs[cid as int], self.assigns@);
            }
            if self.pos[cid] == 0 && self.neg[cid] == clen {
                // fully falsified while unsatisfied: a genuine conflict
                return false;
            }
            let _ = self.watch_clause_list.pop().unwrap();
            proof {
                assert(self.wf_solving()) by {
                    assert forall|j: int|
                        0 <= j < cs.len() && (#[trigger] self.pos[j]) == 0 && self.neg[j]
                            == cs[j].len() implies in_watch(self.watch_clause_list@, j) by {
                        assert(in_watch(it0.watch_clause_list@, j));
                        let kk = choose|kk: int|
                            0 <= kk < it0.watch_clause_list@.len() && it0.watch_clause_list@[
                                kk
                            ] as int == j;
                        assert(kk != it0.watch_clause_list@.len() - 1);
                        assert(self.watch_clause_list@[kk] as int == j);
                    }
                }
            }
            if self.pos[cid] == 0 && self.neg[cid] + 1 == clen {
                // unit: exactly one position is not yet false; find it
                let ghost a_cur = self.assigns@;
                proof {
                    lemma_cnt_false_some_open(cs[cid as int], a_cur, n_spec);
                }
                let mut j0: usize = 0;
                while self.assigns[2 * n - 1 - self.clauses[cid][j0]]
                    invariant
                        j0 < clen,
                        exists|jj: int|
                            j0 <= jj < clen && !a_cur[negl(n_spec, #[trigger] cs[cid as int][
                                jj
                            ] as int)],
                        forall|jj: int|
                            0 <= jj < j0 ==> a_cur[negl(n_spec, #[trigger] cs[cid as int][
                                jj
                            ] as int)],
                    decreases clen - j0,
                {
                    j0 = j0 + 1;
                    proof {
                        let jj = choose|jj: int|
                            j0 - 1 <= jj < clen && !a_cur[negl(n_spec, #[trigger] cs[cid as int][
                                jj
                            ] as int)];
                        assert(jj >= j0);
                    }
                }
                let x = self.clauses[cid][j0];
                proof {
                    lemma_cnt_true_zero(cs[cid as int], a_cur);
                    assert(!self.assigns@[x as int]);
                    lemma_cnt_false_unit(cs[cid as int], a_cur, n_spec, j0 as int);
                    let t_cur = self.trail();
                    assert forall|a: Seq<bool>|
                        a.len() == n_spec && formula_sat(a, n_spec, cs) && #[trigger] agrees(
                            a,
                            n_spec,
                            t_cur,
                        ) implies lit_true(a, n_spec, x as int) by {
                        assert(clause_sat(a, n_spec, cs[cid as int]));
                        let i = choose|i: int|
                            0 <= i < cs[cid as int].len() && lit_true(
                                a,
                                n_spec,
                                cs[cid as int][i] as int,
                            );
                        if i != j0 as int {
                            let li = cs[cid as int][i] as int;
                            assert(a_cur[negl(n_spec, li)]);
                            assert(t_cur.contains(negl(n_spec, li) as usize));
                            let w = choose|w: int|
                                0 <= w < t_cur.len() && t_cur[w] == negl(n_spec, li) as usize;
                            assert(lit_true(a, n_spec, t_cur[w] as int));
                            lemma_lit_negl(a, n_spec, li);
                        }
                    }
                    assert(forced(cs, n_spec, self.trail(), x as int));
                }
                let ghost t_before = self.trail();
                self.push(x);
                proof {
                    lemma_trail_len(n_spec, self.trail());
                    assert(self.trail().take(t_before.len() as int) =~= t_before);
                    assert(self.trail().take(t0.len() as int) =~= t0);
                    assert(self.frames().last().take(f0.last().len() as int) =~= f0.last());
                    assert forall|i: int|
                        t0.len() <= i < self.trail().len() implies forced(
                            cs,
                            n_spec,
                            self.trail().take(i),
                            #[trigger] self.trail()[i] as int,
                        ) by {
                        if i < t_before.len() {
                            assert(self.trail().take(i) =~= t_before.take(i));
                            assert(self.trail()[i] == t_before[i]);
                        } else {
                            assert(i == t_before.len());
                            assert(self.trail().take(i) =~= t_before);
                            assert(self.trail()[i] == x);
                        }
                    }
                }
            }
        }
        proof {
            self.lemma_no_falsified();
            assert forall|j: int| 0 <= j < old(self).clauses_view().len() implies !(cnt_true(
                #[trigger] old(self).clauses_view()[j],
                self.assigned(),
            ) == 0 && cnt_false(old(self).clauses_view()[j], self.assigned(), old(self).nvars())
                == old(self).clauses_view()[j].len()) by {
                assert(old(self).clauses_view()[j] == self.clauses_view()[j]);
                assert(!(cnt_true(self.clauses_view()[j], self.assigns@) == 0 && cnt_false(
                    self.clauses_view()[j],
                    self.assigns@,
                    self.nvars(),
                ) == self.clauses_view()[j].len()));
            }
        }
        true
    }

    /// With the watch list drained, no clause is fully falsified while
    /// unsatisfied: such a clause would still be watched.
    proof fn lemma_no_falsified(self)
        requires
            self.wf_solving(),
            self.watch_clause_list@.len() == 0,
        ensures
            forall|j: int|
                0 <= j < self.clauses_view().len() ==> !(cnt_true(
                    #[trigger] self.clauses_view()[j],
                    self.assigns@,
                ) == 0 && cnt_false(self.clauses_view()[j], self.assigns@, self.nvars())
                    == self.clauses_view()[j].len()),
    {
        let cs = self.clauses_view();
        assert forall|j: int| 0 <= j < cs.len() implies !(cnt_true(
            #[trigger] cs[j],
            self.assigns@,
        ) == 0 && cnt_false(cs[j], self.assigns@, self.nvars()) == cs[j].len()) by {
            assert(self.pos[j] == cnt_true(cs[j], self.assigns@));
            assert(self.neg[j] == cnt_false(cs[j], self.assigns@, self.nvars()));
            if self.pos[j] == 0 && self.neg[j] == cs[j].len() {
                assert(in_watch(self.watch_clause_list@, j));
                assert(false);
            }
        }
    }

    /// Neither literal slot of variable `v` is asserted.
    pub closed spec fn var_unassigned(self, v: int) -> bool {
        !self.assigns@[self.nvars() + v] && !self.assigns@[self.nvars() - 1 - v]
    }

    /// Branching score of variable `v`: remaining occurrences of both its
    /// literals in not-yet-satisfied clauses.
    pub closed spec fn score(self, v: int) -> int {
        self.remcnt[self.nvars() + v] + self.remcnt[self.nvars() - 1 - v]
    }

    /// Pick the unassigned variable with the highest branching score, the
    /// lowest id breaking ties; `None` when every variable is assigned.
    #[verifier::loop_isolation(false)]
    fn pick_branch_var(&self) -> (r: Option<usize>)
        requires
            self.wf_base(),
        ensures
            match r {
                Option::None => forall|v: int| 0 <= v < self.nvars() ==> !self.var_unassigned(v),
                Option::Some(v) => 0 <= (v as int) < self.nvars() && self.var_unassigned(v as int)
                    && forall|u: int|
                    0 <= u < self.nvars() && self.var_unassigned(u) ==> self.score(u) <= self.score(
                        v as int,
                    ) && (u < v as int ==> self.score(u) < self.score(v as int)),
            },
    {
        let n = self.n;
        let mut best: usize = 0;
        let mut best_s: u128 = 0;
        let mut have = false;
        let mut v: usize = 0;
        while v < n
            invariant
                v <= n,
                have ==> (best as int) < v as int && self.var_unassigned(best as int) && best_s
                    == self.score(best as int) && (forall|u: int|
                    0 <= u < v && self.var_unassigned(u) ==> self.score(u) <= self.score(
                        best as int,
                    ) && (u < best as int ==> self.score(u) < self.score(best as int))),
                !have ==> forall|u: int| 0 <= u < v ==> !self.var_unassigned(u),
            decreases n - v,
        {
            if !self.assigns[n + v] && !self.assigns[n - 1 - v] {
                let s = self.remcnt[n + v] as u128 + self.remcnt[n - 1 - v] as u128;
                if !have || s > best_s {
                    best = v;
                    best_s = s;
                    have = true;
                }
            }
            v = v + 1;
        }
        if have {
            Some(best)
        } else {
            None
        }
    }

    /// Run the search to completion: exhaustive unit propagation, branching
    /// on the highest-scored unassigned variable (tried positively first),
    /// and chronological backtracking with branch-flip retry on conflict.
    /// The verdict is proved in both directions: a returned model satisfies
    /// every registered clause, and an unsatisfiable verdict means no
    /// assignment of the variables satisfies them all.  On an unsatisfiable
    /// verdict every frame has been retracted: the solver returns with an
    /// empty partial assignment (and hence, by the counter invariant, with
    /// every per-clause counter back at its pre-search value).
    #[verifier::loop_isolation(false)]
    #[verifier::rlimit(100)]
    #[verifier::spinoff_prover]
    pub fn solve(&mut self) -> (r: SatResult)
        requires
            old(self).wf_built(),
        ensures
            final(self).nvars() == old(self).nvars(),
            final(self).clauses_view() == old(self).clauses_view(),
            verdict_matches(old(self).clauses_view(), old(self).nvars(), r),
            r is Unsatisfiable ==> forall|l: int|
                0 <= l < 2 * old(self).nvars() ==> !(#[trigger] final(self).assigned()[l]),
    {
        let ghost n0 = old(self).nvars();
        let ghost cs = old(self).clauses_view();
        let n = self.n;
        let m = self.clauses.len();
        let mut zp: Vec<usize> = Vec::new();
        let mut zq: Vec<usize> = Vec::new();
        while zp.len() < m
            invariant
                zp.len() == zq.len(),
                zp.len() <= m,
                forall|j: int| 0 <= j < zp.len() ==> (#[trigger] zp[j]) == 0,
                forall|j: int| 0 <= j < zq.len() ==> (#[trigger] zq[j]) == 0,
            decreases m - zp.len(),
        {
            zp.push(0);
            zq.push(0);
        }
        self.pos = zp;
        self.neg = zq;
        // a clause with no literals can never be satisfied
        let mut c: usize = 0;
        while c < m
            invariant
                c <= m,
                *self == (Self { pos: self.pos, neg: self.neg, ..*old(self) }),
                self.pos.len() == m,
                self.neg.len() == m,
                forall|j: int| 0 <= j < m ==> (#[trigger] self.pos[j]) == 0,
                forall|j: int| 0 <= j < m ==> (#[trigger] self.neg[j]) == 0,
                forall|j: int| 0 <= j < c ==> (#[trigger] cs[j].len()) >= 1,
            decreases m - c,
        {
            proof {
                assert(self.clauses.deep_view()[c as int] =~= self.clauses@[c as int]@);
            }
            if self.clauses[c].len() == 0 {
                proof {
                    assert forall|a: Seq<bool>| a.len() == n0 implies !formula_sat(a, n0, cs) by {
                        assert(!clause_sat(a, n0, cs[c as int]));
                    }
                }
                return SatResult::Unsatisfiable;
            }
            c = c + 1;
        }
        proof {
            // establish the solving invariants on the fresh state
            assert(self.trail() =~= Seq::<usize>::empty()) by {
                assert(self.frames() =~~= seq![Seq::<usize>::empty()]);
                assert(self.frames().len() == 1);
                assert(cat(self.frames().drop_last()) =~= Seq::<usize>::empty()) by {
                    assert(self.frames().drop_last().len() == 0);
                }
                assert(self.frames().last() =~= Seq::<usize>::empty());
            }
            assert(forall|l: int| 0 <= l < 2 * n0 ==> !(#[trigger] self.assigns@[l]));
            assert forall|j: int| 0 <= j < m implies (#[trigger] self.pos[j]) == cnt_true(
                cs[j],
                self.assigns@,
            ) && self.neg[j] == cnt_false(cs[j], self.assigns@, n0) by {
                lemma_cnt_all_unassigned(cs[j], self.assigns@, n0);
            }
            assert(self.wf_base());
            assert(cs == self.clauses_view());
            assert(self.pos.len() == cs.len());
            assert(self.neg.len() == cs.len());
            assert(forall|l: int|
                0 <= l < 2 * n0 ==> !((#[trigger] self.assigns@[l]) && self.assigns@[negl(
                    n0,
                    l,
                )]));
            assert(forall|i: int|
                0 <= i < self.trail().len() ==> (#[trigger] self.trail()[i] as int) < 2 * n0);
            assert forall|l: int| 0 <= l < 2 * n0 implies ((#[trigger] self.assigns@[l])
                <==> self.trail().contains(l as usize)) by {
                if self.trail().contains(l as usize) {
                    let w = choose|w: int|
                        0 <= w < self.trail().len() && self.trail()[w] == l as usize;
                }
            }
            assert forall|j: int|
                0 <= j < cs.len() && (#[trigger] self.pos[j]) == 0 && self.neg[j] == cs[j].len()
                    implies in_watch(self.watch_clause_list@, j) by {
                assert(cs[j].len() >= 1);
                assert(self.neg[j] == 0);
            }
            assert(forall|j: int|
                0 <= j < cs.len() ==> (#[trigger] self.pos[j]) == cnt_true(cs[j], self.assigns@));
            assert forall|j: int|
                0 <= j < cs.len() implies (#[trigger] self.neg[j]) == cnt_false(
                cs[j],
                self.assigns@,
                n0,
            ) by {
                lemma_cnt_all_unassigned(cs[j], self.assigns@, n0);
            }
            assert(forall|i: int, j: int|
                0 <= i < j < self.trail().len() ==> var_of(n0, #[trigger] self.trail()[i] as int)
                    != var_of(n0, #[trigger] self.trail()[j] as int));
            assert(self.watch_clause_list@.len() == 0);
            assert(self.wf_solving());
            lemma_trail_len(n0, self.trail());
            lemma_mu_nonneg(self.frames(), n0);
        }
        loop
            invariant
                self.wf_solving(),
                self.nvars() == n0,
                self.clauses_view() == cs,
                forall|j: int| 0 <= j < cs.len() ==> (#[trigger] cs[j].len()) >= 1,
                forall|k: int| 1 <= k < self.frames().len() ==> (#[trigger] self.frames()[k].len()) >= 1,
                justified(cs, n0, self.frames()),
                self.trail().len() <= n0,
                mu(self.frames(), n0) >= 0,
            decreases mu(self.frames(), n0),
        {
            let ghost head = *self;
            let ok = self.propagate();
            let ghost dsp = self.frames();
            proof {
                lemma_trail_len(n0, self.trail());
                let hf = head.frames();
                let extra = dsp.last().skip(hf.last().len() as int);
                assert(dsp =~~= hf.update(hf.len() - 1, hf.last() + extra)) by {
                    assert(dsp.last().take(hf.last().len() as int) =~= hf.last());
                    assert(hf.last() + extra =~= dsp.last());
                    assert forall|k: int|
                        0 <= k < dsp.len() - 1 implies dsp[k] =~= hf[k] by {
                        assert(dsp.drop_last()[k] == dsp[k]);
                        assert(hf.drop_last()[k] == hf[k]);
                        assert(dsp.drop_last() =~~= hf.drop_last());
                    }
                }
                lemma_cat_update_last_len(hf, hf.last() + extra);
                lemma_cat_last_split(hf);
                assert(cat(head.frames()).len() + extra.len() == self.trail().len());
                lemma_mu_extend(head.frames(), n0, extra);
                assert(mu(dsp, n0) <= mu(head.frames(), n0));
                // the appended literals are forced, so the stack stays justified
                assert forall|i: int|
                    0 <= i < extra.len() implies forced(
                    cs,
                    n0,
                    cat(head.frames()) + extra.take(i),
                    #[trigger] extra[i] as int,
                ) by {
                    let g = head.trail().len() + i;
                    assert(extra[i] == self.trail()[g]);
                    assert(cat(head.frames()) + extra.take(i) =~= self.trail().take(g)) by {
                        assert(self.trail().take(head.trail().len() as int) =~= head.trail());
                    }
                    assert(forced(cs, n0, self.trail().take(g), self.trail()[g] as int));
                }
                lemma_justified_extend(cs, n0, head.frames(), extra);
                assert(justified(cs, n0, dsp));
                lemma_mu_nonneg(dsp, n0);
                assert forall|k: int|
                    1 <= k < dsp.len() implies (#[trigger] dsp[k].len()) >= 1 by {
                    if k < dsp.len() - 1 {
                        assert(dsp[k] == head.frames()[k]);
                    } else {
                        assert(dsp.last().len() >= head.frames().last().len());
                    }
                }
            }
            if ok {
                match self.pick_branch_var() {
                    Some(v) => {
                        proof {
                            lemma_trail_len_excl(n0, self.trail(), v as int);
                        }
                        self.decision_stack.push(Vec::new());
                        proof {
                            assert(self.frames() =~~= dsp.push(Seq::<usize>::empty()));
                            lemma_cat_push_frame(dsp);
                            lemma_mu_frame(dsp, n0);
                        }
                        let ghost ds1 = self.frames();
                        self.push(n + v);
                        proof {
                            assert(self.frames() =~~= dsp.push(seq![(n + v) as usize])) by {
                                assert(ds1.update(ds1.len() - 1, ds1.last().push((n + v) as usize))
                                    =~~= dsp.push(seq![(n + v) as usize]));
                            }
                            lemma_justified_new_frame(cs, n0, dsp, (n + v) as usize);
                            lemma_mu_append(ds1, n0, (n + v) as usize);
                            assert(mu(self.frames(), n0) < mu(head.frames(), n0));
                            lemma_trail_len(n0, self.trail());
                            lemma_mu_nonneg(self.frames(), n0);
                        }
                    },
                    None => {
                        // no unassigned variable is left: every clause holds
                        let ghost a = self.assigns@;
                        let mut out: Vec<bool> = Vec::new();
                        let mut v: usize = 0;
                        while v < n
                            invariant
                                v <= n,
                                out.len() == v,
                                forall|u: int| 0 <= u < v ==> #[trigger] out@[u] == a[n0 + u],
                            decreases n - v,
                        {
                            out.push(self.assigns[n + v]);
                            v = v + 1;
                        }
                        proof {
                            assert forall|j: int| 0 <= j < cs.len() implies clause_sat(
                                out@,
                                n0,
                                #[trigger] cs[j],
                            ) by {
                                assert forall|w: int| 0 <= w < n0 implies (#[trigger] a[n0 + w])
                                    || a[n0 - 1 - w] by {
                                    assert(!self.var_unassigned(w));
                                }
                                lemma_cnt_sum_assigned(cs[j], a, n0);
                                if cnt_true(cs[j], a) == 0 {
                                    assert(self.pos[j] == 0 && self.neg[j] == cs[j].len());
                                    assert(in_watch(self.watch_clause_list@, j));
                                    assert(false);
                                }
                                lemma_cnt_true_pos(cs[j], a);
                                let i = choose|i: int|
                                    0 <= i < cs[j].len() && a[#[trigger] cs[j][i] as int];
                                let li = cs[j][i] as int;
                                if li >= n0 {
                                    assert(out@[li - n0] == a[li]);
                                } else {
                                    assert(!a[negl(n0, li)]);
                                    assert(out@[n0 - 1 - li] == a[n0 + (n0 - 1 - li)]);
                                }
                                assert(lit_true(out@, n0, li));
                            }
                        }
                        return SatResult::Satisfiable(out);
                    },
                }
            } else {
                proof {
                    let j = choose|j: int|
                        0 <= j < cs.len() && cnt_true(#[trigger] cs[j], self.assigns@) == 0
                            && cnt_false(cs[j], self.assigns@, n0) == cs[j].len();
                    lemma_conflict_no_agree(cs, n0, self.trail(), self.assigns@, j);
                }
                let ghost no_agree_trail = self.trail();
                if self.decision_stack.len() == 1 {
                    proof {
                        assert forall|a: Seq<bool>| a.len() == n0 implies !formula_sat(
                            a,
                            n0,
                            cs,
                        ) by {
                            if formula_sat(a, n0, cs) {
                                assert(agrees(a, n0, cat(dsp.take(0)))) by {
                                    assert(cat(dsp.take(0)) =~= Seq::<usize>::empty());
                                }
                                lemma_frame_agree(cs, n0, dsp, 0, a);
                                assert(cat(dsp.take(1)) =~= cat(dsp)) by {
                                    assert(dsp.take(1) =~~= dsp);
                                }
                                assert(agrees(a, n0, no_agree_trail));
                            }
                        }
                    }
                    let ghost unsat_fact = true;
                    // retract the root frame before reporting: the solver
                    // hands back an empty assignment
                    let mut rem = self.decision_stack[0].len();
                    while rem > 0
                        invariant
                            self.wf_solving(),
                            self.nvars() == n0,
                            self.clauses_view() == cs,
                            self.frames().len() == 1,
                            rem <= dsp.last().len(),
                            rem == self.frames().last().len(),
                        decreases rem,
                    {
                        self.pop();
                        rem = rem - 1;
                    }
                    proof {
                        assert(self.trail() =~= Seq::<usize>::empty()) by {
                            assert(cat(self.frames().drop_last()) =~= Seq::<usize>::empty()) by {
                                assert(self.frames().drop_last().len() == 0);
                            }
                        }
                        assert forall|l: int| 0 <= l < 2 * n0 implies !(
                        #[trigger] self.assigns@[l]) by {
                            if self.assigns@[l] {
                                assert(self.trail().contains(l as usize));
                            }
                        }
                    }
                    return SatResult::Unsatisfiable;
                }
                let idx = self.decision_stack.len() - 1;
                let d = self.decision_stack[idx][0];
                let ghost pre_tr = cat(dsp.take(idx as int));
                proof {
                    assert(d == dsp.last()[0]);
                    assert(self.trail().contains(d)) by {
                        lemma_cat_last_split(dsp);
                        assert(self.trail()[pre_tr.len() as int] == d);
                    }
                    assert((d as int) < 2 * n0);
                    // the refuted branch forces the flipped decision
                    assert forall|a: Seq<bool>|
                        a.len() == n0 && formula_sat(a, n0, cs) && #[trigger] agrees(
                            a,
                            n0,
                            pre_tr,
                        ) implies lit_true(a, n0, negl(n0, d as int)) by {
                        lemma_lit_negl(a, n0, d as int);
                        if lit_true(a, n0, d as int) {
                            lemma_frame_agree(cs, n0, dsp, idx as int, a);
                            assert(cat(dsp.take(idx + 1)) =~= cat(dsp)) by {
                                assert(dsp.take(idx + 1) =~~= dsp);
                            }
                            assert(agrees(a, n0, no_agree_trail));
                            assert(false);
                        }
                    }
                    assert(forced(cs, n0, pre_tr, negl(n0, d as int) as int)) by {
                        assert(negl(n0, d as int) as int == negl(n0, d as int));
                    }
                }
                // retract the whole refuted frame
                let mut rem = self.decision_stack[idx].len();
                while rem > 0
                    invariant
                        self.wf_solving(),
                        self.nvars() == n0,
                        self.clauses_view() == cs,
                        self.frames().len() == dsp.len(),
                        self.frames().drop_last() =~~= dsp.drop_last(),
                        rem <= dsp.last().len(),
                        rem == self.frames().last().len(),
                        self.frames().last() =~= dsp.last().take(rem as int),
                        justified(cs, n0, self.frames()),
                    decreases rem,
                {
                    proof {
                        lemma_justified_shrink(cs, n0, self.frames());
                    }
                    let ghost fpre = self.frames();
                    self.pop();
                    proof {
                        assert(self.frames() =~~= fpre.update(fpre.len() - 1, fpre.last().drop_last()));
                        assert((dsp.last().take(rem as int)).drop_last() =~= dsp.last().take(
                            rem - 1,
                        ));
                        assert(self.frames().last() =~= dsp.last().take(rem - 1));
                    }
                    rem = rem - 1;
                }
                // discard the now-empty frame
                let ghost dse = self.frames();
                let _ = self.decision_stack.pop().unwrap();
                proof {
                    assert(self.frames() =~~= dse.drop_last());
                    lemma_cat_drop_empty_frame(dse);
                    assert(self.trail() =~= cat(dse));
                    lemma_justified_drop(cs, n0, dse);
                    assert(self.trail() =~= pre_tr) by {
                        lemma_cat_last_split(dse);
                        assert(dse.take(dse.len() - 1) =~~= dsp.take(idx as int));
                    }
                    // the decision variable is untouched on the shortened trail
                    lemma_cat_last_split(dsp);
                    assert forall|i: int|
                        0 <= i < pre_tr.len() implies var_of(n0, #[trigger] pre_tr[i] as int)
                            != var_of(n0, d as int) by {
                        assert(cat(dsp)[i] == pre_tr[i]);
                        assert(cat(dsp)[pre_tr.len() as int] == d);
                    }
                    assert(!self.assigns@[d as int]) by {
                        if self.trail().contains(d) {
                            let w = choose|w: int| 0 <= w < pre_tr.len() && pre_tr[w] == d;
                            assert(var_of(n0, pre_tr[w] as int) == var_of(n0, d as int));
                        }
                    }
                    assert(!self.assigns@[negl(n0, d as int)]) by {
                        if self.trail().contains(negl(n0, d as int) as usize) {
                            let w = choose|w: int|
                                0 <= w < pre_tr.len() && pre_tr[w] == negl(n0, d as int) as usize;
                            assert(var_of(n0, pre_tr[w] as int) == var_of(n0, d as int));
                        }
                    }
                }
                let nd = 2 * n - 1 - d;
                let ghost dsf = self.frames();
                self.push(nd);
                proof {
                    lemma_justified_append_forced(cs, n0, dsf, nd);
                    assert(justified(cs, n0, self.frames())) by {
                        assert(self.frames() =~~= dsf.update(dsf.len() - 1, dsf.last().push(nd)));
                    }
                    lemma_trail_len(n0, self.trail());
                    lemma_mu_flip(dsp, n0, nd);
                    assert(self.frames() =~~= dsp.drop_last().update(
                        dsp.len() - 2,
                        dsp[dsp.len() - 2].push(nd),
                    )) by {
                        assert(dsf =~~= dsp.drop_last());
                    }
                    assert(mu(self.frames(), n0) < mu(head.frames(), n0));
                    lemma_mu_nonneg(self.frames(), n0);
                    assert forall|k: int|
                        1 <= k < self.frames().len() implies (#[trigger] self.frames()[k].len())
                            >= 1 by {
                        if k < self.frames().len() - 1 {
                            assert(self.frames()[k] == dsp[k]);
                        }
                    }
                }
            }
        }
    }

    /// Re-establishes the assignment-versus-trail clauses of `wf_solving`
    /// after `push` has updated the assignment, the trail, and the counters.
    proof fn lemma_push_wf(self, pre: Self, lit: usize)
        requires
            pre.wf_solving(),
            (lit as int) < 2 * pre.nvars(),
            !pre.assigns@[lit as int],
            !pre.assigns@[negl(pre.nvars(), lit as int)],
            self.nvars() == pre.nvars(),
            self.clauses_view() == pre.clauses_view(),
            self.wf_base(),
            self.pos.len() == self.clauses_view().len(),
            self.neg.len() == self.clauses_view().len(),
            self.assigns@ == pre.assigns@.update(lit as int, true),
            self.trail() == pre.trail().push(lit),
            forall|j: int|
                0 <= j < self.clauses_view().len() ==> (#[trigger] self.pos[j]) == cnt_true(
                    self.clauses_view()[j],
                    self.assigns@,
                ),
            forall|j: int|
                0 <= j < self.clauses_view().len() ==> (#[trigger] self.neg[j]) == cnt_false(
                    self.clauses_view()[j],
                    self.assigns@,
                    self.nvars(),
                ),
            forall|j: int|
                0 <= j < self.clauses_view().len() && (#[trigger] self.pos[j]) == 0 && self.neg[j]
                    == self.clauses_view()[j].len() ==> in_watch(self.watch_clause_list@, j),
            forall|k: int|
                0 <= k < self.watch_clause_list@.len() ==> (
                #[trigger] self.watch_clause_list@[k] as int) < self.clauses_view().len(),
        ensures
            self.wf_solving(),
    {
        let n = self.nvars();
        let a = self.assigns@;
        let ap = pre.assigns@;
        let t = self.trail();
        let tp = pre.trail();
        assert forall|l: int| 0 <= l < 2 * n implies !((#[trigger] a[l]) && a[negl(n, l)]) by {
            if l == lit as int {
                assert(a[negl(n, l)] == ap[negl(n, l)]);
            } else if negl(n, l) == lit as int {
                assert(a[l] == ap[l]);
            }
        }
        assert forall|i: int| 0 <= i < t.len() implies (#[trigger] t[i] as int) < 2 * n by {
            if i < tp.len() {
                assert(t[i] == tp[i]);
            }
        }
        assert forall|l: int| 0 <= l < 2 * n implies ((#[trigger] a[l]) <==> t.contains(
            l as usize,
        )) by {
            if l == lit as int {
                assert(t[t.len() - 1] == lit);
                assert(t.contains(l as usize));
            } else {
                if ap[l] {
                    let i = choose|i: int| 0 <= i < tp.len() && tp[i] == l as usize;
                    assert(t[i] == l as usize);
                    assert(t.contains(l as usize));
                }
                if t.contains(l as usize) {
                    let i = choose|i: int| 0 <= i < t.len() && t[i] == l as usize;
                    assert(i < tp.len());
                    assert(tp[i] == l as usize);
                    assert(tp.contains(l as usize));
                }
            }
        }
        assert forall|i: int, j: int| 0 <= i < j < t.len() implies var_of(
            n,
            #[trigger] t[i] as int,
        ) != var_of(n, #[trigger] t[j] as int) by {
            if j < tp.len() {
                assert(t[i] == tp[i] && t[j] == tp[j]);
            } else {
                assert(t[j] == lit);
                assert(t[i] == tp[i]);
                if var_of(n, t[i] as int) == var_of(n, lit as int) {
                    if t[i] == lit {
                        assert(tp.contains(lit));
                        assert(ap[lit as int]);
                    } else {
                        lemma_same_var(n, lit as int, t[i] as int);
                        assert(tp.contains(t[i]));
                        assert(ap[negl(n, lit as int)]);
                    }
                }
            }
        }
    }
}

} // verus!
