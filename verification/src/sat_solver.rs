use vstd::prelude::*;
use crate::implication_graph::{ImplicationGraph, pvar, removed_indices, root_added, child_added};
use crate::util::{lit2idx, lit_abs, signum, var_of};

verus! {

broadcast use vstd::seq_lib::group_to_multiset_ensures, vstd::multiset::group_multiset_axioms;

/// The value a literal gives its variable: `1` (true) for a positive literal, `-1` otherwise.
pub open spec fn sign_of(l: i32) -> i32 {
    if l > 0 { 1i32 } else { -1i32 }
}

/// Literal `l` is true under the assignment `a` (`a[v]` is `1`, `-1` or `0` for unassigned).
pub open spec fn lit_true(a: Seq<i32>, l: i32) -> bool {
    l != 0 && a[var_of(l) - 1] == sign_of(l)
}

/// Some literal of the clause is true under `a`.
pub open spec fn satisfies(a: Seq<i32>, c: Seq<i32>) -> bool {
    exists|i: int| 0 <= i < c.len() && #[trigger] lit_true(a, c[i])
}

/// `l` is `0` or names one of the variables `1..=n`.
pub open spec fn lit_ok(l: i32, n: nat) -> bool {
    l == 0 || (l != i32::MIN && var_of(l) <= n)
}

/// Literal `l` is a nonzero literal of variable index `v`.
pub open spec fn hits(l: i32, v: int) -> bool {
    l != 0 && var_of(l) - 1 == v
}

/// How many of the three slots of a clause hold a literal of variable index `v`.
pub open spec fn npos(lits: Seq<i32>, v: int) -> nat {
    (if hits(lits[0], v) { 1nat } else { 0nat }) + (if hits(lits[1], v) { 1nat } else { 0nat })
        + (if hits(lits[2], v) { 1nat } else { 0nat })
}

/// The three slots of a clause of at most three literals, padded with `0`.
pub open spec fn pad3(v: Seq<i32>) -> Seq<i32> {
    if v.len() == 1 {
        seq![v[0], 0i32, 0i32]
    } else if v.len() == 2 {
        seq![v[0], v[1], 0i32]
    } else {
        seq![v[0], v[1], v[2]]
    }
}

/// How many new variables the chain encoding of a clause of `n >= 4` literals introduces.
pub open spec fn fresh_count(n: int) -> int {
    if n % 2 == 0 { n - 1 } else { n - 2 }
}

/// Clause `j` of the chain encoding of a long clause `v`, whose new variables are
/// `base + 1 ..= base + fresh_count(v.len())`: `(v0 | v1 | y1)`, then `(-y_j | v_(j+1) | y_(j+1))`,
/// and last `(-y_k | v_(n-1))` for even `n`, `(-y_k | v_(n-1) | v_(n-2))` for odd `n`.
pub open spec fn chain_clause(v: Seq<i32>, base: int, j: int) -> Seq<i32> {
    let n = v.len() as int;
    let k = fresh_count(n);
    if j == 0 {
        seq![v[0], v[1], (base + 1) as i32]
    } else if j < k {
        seq![(-(base + j)) as i32, v[j + 1], (base + j + 1) as i32]
    } else if n % 2 == 0 {
        seq![(-(base + k)) as i32, v[n - 1], 0i32]
    } else {
        seq![(-(base + k)) as i32, v[n - 1], v[n - 2]]
    }
}

/// How far past the current variables literal `i` of a clause of `n` literals may name a
/// variable: slot by slot, the chain encoding of a long clause creates its new variables
/// before it stores the clause that holds literal `i`, so such a literal may name one of them.
pub open spec fn allowance(n: int, i: int) -> int {
    if n <= 3 {
        0
    } else if i < 2 {
        1
    } else if i <= fresh_count(n) {
        i
    } else {
        fresh_count(n)
    }
}

/// Clause `v` can be stored in a solver with `vars` variables and `stored` clauses: each
/// literal names a variable that exists when the clause holding it is stored, the new
/// variables stay within `i32`, and the clause count within `usize`.
pub open spec fn can_add(v: Seq<i32>, vars: int, stored: int) -> bool {
    &&& forall|i: int| 0 <= i < v.len() ==> lit_ok(#[trigger] v[i], (vars + allowance(v.len() as int, i)) as nat)
    &&& v.len() >= 4 ==> vars + fresh_count(v.len() as int) <= i32::MAX
    &&& stored + v.len() < usize::MAX
}

/// The clauses (three slots each) that storing clause `v` adds, `base` being the number of
/// variables before: none for an empty clause, the padded clause for up to three literals,
/// and the chain encoding for more.
pub open spec fn stored_clauses(v: Seq<i32>, base: int) -> Seq<Seq<i32>> {
    if v.len() == 0 {
        Seq::empty()
    } else if v.len() <= 3 {
        seq![pad3(v)]
    } else {
        Seq::new((fresh_count(v.len() as int) + 1) as nat, |j: int| chain_clause(v, base, j))
    }
}

/// How many variables storing clause `v` adds.
pub open spec fn added_vars(v: Seq<i32>) -> int {
    if v.len() <= 3 { 0 } else { fresh_count(v.len() as int) }
}

/// Clause `v` is stored in `clauses` from index `st` on, encoded with `b` variables before it.
pub open spec fn stored_at(clauses: Seq<Clause3>, vars: int, v: Seq<i32>, st: int, b: int) -> bool {
    &&& 0 <= st
    &&& st + stored_clauses(v, b).len() <= clauses.len()
    &&& 0 <= b
    &&& b + added_vars(v) <= vars
    &&& v.len() >= 4 ==> b + added_vars(v) <= i32::MAX
    &&& forall|j: int| 0 <= j < stored_clauses(v, b).len()
        ==> (#[trigger] clauses[st + j]).literals@ == stored_clauses(v, b)[j]
}

/// Clause `v` is stored somewhere in `clauses`.
pub open spec fn input_stored(clauses: Seq<Clause3>, vars: int, v: Seq<i32>) -> bool {
    exists|st: int, b: int| stored_at(clauses, vars, v, st, b)
}

/// The variable numbers of the slots of `lits` other than `l`, in slot order.
pub open spec fn others(lits: Seq<i32>, l: i32) -> Seq<i32> {
    (if lits[0] != l { seq![var_of(lits[0]) as i32] } else { Seq::empty() })
        + (if lits[1] != l { seq![var_of(lits[1]) as i32] } else { Seq::empty() })
        + (if lits[2] != l { seq![var_of(lits[2]) as i32] } else { Seq::empty() })
}

/// The parents recorded for `l` implied by a clause with slots `lits`: the variables of
/// its other slots, padded with `0`.
pub open spec fn reason_parents(lits: Seq<i32>, l: i32) -> (i32, i32) {
    let o = others(lits, l);
    (if o.len() > 0 { o[0] } else { 0i32 }, if o.len() > 1 { o[1] } else { 0i32 })
}

/// One of `vars` is the number of variable index `x`.
pub open spec fn names(vars: Seq<i32>, x: int) -> bool {
    exists|k: int| 0 <= k < vars.len() && #[trigger] vars[k] == x + 1
}

/// The slots and flag of a clause.
pub open spec fn cview(c: Clause3) -> (Seq<i32>, bool) {
    (c.literals@, c.sat)
}

/// The working copy of a three-slot clause under `a`: slots of assigned variables
/// zeroed, and satisfied when one of its literals is true.
pub open spec fn refresh(lits: Seq<i32>, a: Seq<i32>) -> (Seq<i32>, bool) {
    (Seq::new(3, |i: int| if lits[i] != 0 && a[var_of(lits[i]) - 1] != 0 { 0i32 } else { lits[i] }),
     satisfies(a, lits))
}

/// A working clause is right for stored slots `lits` under `a`: if marked satisfied some
/// literal is true, and otherwise it is exactly the refreshed clause.
pub open spec fn ws_ok(w: Clause3, lits: Seq<i32>, a: Seq<i32>) -> bool {
    if w.sat { satisfies(a, lits) } else { cview(w) == refresh(lits, a) }
}

/// Setting `lit` true, seen from one working clause: unless it is satisfied already, its
/// first slot holding `lit` or its negation is zeroed, and a slot holding `lit` satisfies it.
pub open spec fn strike(w: (Seq<i32>, bool), lit: i32) -> (Seq<i32>, bool) {
    if w.1 {
        w
    } else if w.0[0] == lit {
        (w.0.update(0, 0i32), true)
    } else if w.0[0] == -lit {
        (w.0.update(0, 0i32), false)
    } else if w.0[1] == lit {
        (w.0.update(1, 0i32), true)
    } else if w.0[1] == -lit {
        (w.0.update(1, 0i32), false)
    } else if w.0[2] == lit {
        (w.0.update(2, 0i32), true)
    } else if w.0[2] == -lit {
        (w.0.update(2, 0i32), false)
    } else {
        w
    }
}

/// `n` strikes of `lit` in a row.
pub open spec fn strikes(w: (Seq<i32>, bool), lit: i32, n: nat) -> (Seq<i32>, bool)
    decreases n,
{
    if n == 0 { w } else { strike(strikes(w, lit, (n - 1) as nat), lit) }
}

/// No slot of `lits` names an assigned variable.
pub open spec fn fresh_ok(lits: Seq<i32>, a: Seq<i32>) -> bool {
    forall|i: int| 0 <= i < 3 ==> #[trigger] lits[i] == 0 || a[var_of(lits[i]) - 1] == 0
}

/// A clause whose variables are all unassigned is its own working copy.
proof fn lemma_fresh(lits: Seq<i32>, a: Seq<i32>)
    requires
        lits.len() == 3,
        fresh_ok(lits, a),
    ensures
        refresh(lits, a) == (lits, false),
{
    assert(refresh(lits, a).0 =~= lits);
    if satisfies(a, lits) {
        let i = choose|i: int| 0 <= i < lits.len() && #[trigger] lit_true(a, lits[i]);
        assert(lits[i] == 0 || a[var_of(lits[i]) - 1] == 0);
    }
}

/// New variables, unassigned, change nothing for a clause over the old ones.
proof fn lemma_extend_assigns(lits: Seq<i32>, a: Seq<i32>, extra: nat)
    requires
        lits.len() == 3,
        forall|i: int| 0 <= i < 3 ==> lits[i] == 0 || (lits[i] != i32::MIN && var_of(#[trigger] lits[i]) <= a.len()),
    ensures
        refresh(lits, a) == refresh(lits, a + Seq::new(extra, |i: int| 0i32)),
        satisfies(a, lits) == satisfies(a + Seq::new(extra, |i: int| 0i32), lits),
{
    let a2 = a + Seq::new(extra, |i: int| 0i32);
    assert forall|i: int| 0 <= i < 3 && lits[i] != 0 implies a[var_of(#[trigger] lits[i]) - 1] == a2[var_of(lits[i]) - 1] by {}
    assert(refresh(lits, a).0 =~= refresh(lits, a2).0);
    assert forall|i: int| 0 <= i < 3 implies #[trigger] lit_true(a, lits[i]) == lit_true(a2, lits[i]) by {}
    if satisfies(a, lits) {
        let i = choose|i: int| 0 <= i < lits.len() && #[trigger] lit_true(a, lits[i]);
        assert(lit_true(a2, lits[i]));
    }
    if satisfies(a2, lits) {
        let i = choose|i: int| 0 <= i < lits.len() && #[trigger] lit_true(a2, lits[i]);
        assert(lit_true(a, lits[i]));
    }
}

/// Literals over distinct variables among `1..=n` number at most `n`.
proof fn lemma_distinct_vars_len(s: Seq<i32>, n: int)
    requires
        n >= 0,
        forall|i: int| 0 <= i < s.len() ==> 1 <= var_of(#[trigger] s[i]) <= n,
        forall|i: int, j: int| 0 <= i < j < s.len() ==> var_of(#[trigger] s[i]) != var_of(#[trigger] s[j]),
    ensures
        s.len() <= n,
{
    let t = Seq::new(s.len(), |i: int| var_of(s[i]));
    assert(t.no_duplicates()) by {
        assert forall|i: int, j: int| 0 <= i < t.len() && 0 <= j < t.len() && i != j implies t[i] != t[j] by {
            if i < j {
                assert(var_of(s[i]) != var_of(s[j]));
            } else {
                assert(var_of(s[j]) != var_of(s[i]));
            }
        }
    }
    t.unique_seq_to_set();
    if n >= 1 {
        vstd::set_lib::lemma_int_range(1, n + 1);
        assert(t.to_set().subset_of(vstd::set_lib::set_int_range(1, n + 1)));
        vstd::set_lib::lemma_len_subset(t.to_set(), vstd::set_lib::set_int_range(1, n + 1));
        assert(t.to_set().len() <= n);
        assert(t.len() == s.len());
    } else {
        if s.len() > 0 {
            assert(1 <= var_of(s[0]) <= n);
        }
    }
}

/// Each slot of a stored clause is `0`, a literal of the clause given, or a literal of one
/// of the new variables.
proof fn lemma_stored_slot(v: Seq<i32>, b: int, j: int, i: int)
    requires
        0 <= j < stored_clauses(v, b).len(),
        0 <= i < 3,
        b >= 0,
        v.len() >= 4 ==> b + added_vars(v) <= i32::MAX,
    ensures
        ({
            let l = stored_clauses(v, b)[j][i];
            ||| l == 0
            ||| exists|k: int| 0 <= k < v.len() && v[k] == l
            ||| (l != i32::MIN && b < var_of(l) <= b + added_vars(v))
        }),
{
    let l = stored_clauses(v, b)[j][i];
    if v.len() <= 3 {
        if l != 0 {
            assert(v[i] == l);
        }
    } else {
        let n = v.len() as int;
        let k = fresh_count(n);
        if j == 0 {
            if i < 2 { assert(v[i] == l); }
        } else if j < k {
            if i == 1 { assert(v[j + 1] == l); }
        } else if n % 2 == 0 {
            if i == 1 { assert(v[n - 1] == l); }
        } else {
            if i == 1 { assert(v[n - 1] == l); }
            if i == 2 { assert(v[n - 2] == l); }
        }
    }
}

/// If no literal of a long clause is true, its chain encoding forces its `j`-th new
/// variable true.
proof fn lemma_chain_forces(v: Seq<i32>, b: int, a: Seq<i32>, j: int)
    requires
        v.len() >= 4,
        b >= 0,
        b + fresh_count(v.len() as int) <= i32::MAX,
        b + fresh_count(v.len() as int) <= a.len(),
        forall|t: int| 0 <= t <= fresh_count(v.len() as int) ==> satisfies(a, #[trigger] chain_clause(v, b, t)),
        !satisfies(a, v),
        1 <= j <= fresh_count(v.len() as int),
    ensures
        a[b + j - 1] == 1,
    decreases j,
{
    let c = chain_clause(v, b, j - 1);
    assert(satisfies(a, c));
    let i = choose|i: int| 0 <= i < c.len() && #[trigger] lit_true(a, c[i]);
    if j == 1 {
        if i < 2 {
            assert(lit_true(a, v[i]));
        }
    } else {
        lemma_chain_forces(v, b, a, j - 1);
        if i == 1 {
            assert(lit_true(a, v[j]));
        }
    }
}

/// A long clause is true under any assignment that makes all clauses of its chain encoding true.
pub proof fn lemma_chain_sound(v: Seq<i32>, b: int, a: Seq<i32>)
    requires
        v.len() >= 4,
        b >= 0,
        b + fresh_count(v.len() as int) <= i32::MAX,
        b + fresh_count(v.len() as int) <= a.len(),
        forall|t: int| 0 <= t <= fresh_count(v.len() as int) ==> satisfies(a, #[trigger] chain_clause(v, b, t)),
    ensures
        satisfies(a, v),
{
    if !satisfies(a, v) {
        let n = v.len() as int;
        let k = fresh_count(n);
        lemma_chain_forces(v, b, a, k);
        let c = chain_clause(v, b, k);
        assert(satisfies(a, c));
        let i = choose|i: int| 0 <= i < c.len() && #[trigger] lit_true(a, c[i]);
        if i == 1 {
            assert(lit_true(a, v[n - 1]));
        }
        if i == 2 && n % 2 != 0 {
            assert(lit_true(a, v[n - 2]));
        }
    }
}

/// `a` gives each of the variables `1..=n` the value true (`1`) or false (`-1`).
pub open spec fn total(a: Seq<i32>, n: nat) -> bool {
    &&& a.len() == n
    &&& forall|x: int| 0 <= x < n ==> #[trigger] a[x] == 1 || a[x] == -1
}

/// Some assignment of true or false to the variables `1..=n` satisfies every clause of `cls`.
pub open spec fn solvable(cls: Seq<Clause3>, n: nat) -> bool {
    exists|a: Seq<i32>| #[trigger] total(a, n) && forall|c: int| 0 <= c < cls.len()
        ==> satisfies(a, #[trigger] cls[c].literals@)
}

/// Every clause of `cls` is true under `a`.
pub open spec fn all_clauses_hold(a: Seq<i32>, cls: Seq<Clause3>) -> bool {
    forall|c: int| 0 <= c < cls.len() ==> satisfies(a, #[trigger] cls[c].literals@)
}

/// Every assignment of the variables `1..=n1` that satisfies the clauses `c1` extends, by
/// values for the variables after them, to an assignment of `1..=n2` that satisfies `c2`.
pub open spec fn models_extend(c1: Seq<Clause3>, n1: nat, c2: Seq<Clause3>, n2: nat) -> bool {
    forall|a: Seq<i32>| #[trigger] total(a, n1) && all_clauses_hold(a, c1)
        ==> exists|e: Seq<i32>| #[trigger] total(a + e, n2) && all_clauses_hold(a + e, c2)
}

proof fn lemma_models_refl(c: Seq<Clause3>, n: nat)
    ensures
        models_extend(c, n, c, n),
{
    assert forall|a: Seq<i32>| #[trigger] total(a, n) && all_clauses_hold(a, c)
        implies exists|e: Seq<i32>| #[trigger] total(a + e, n) && all_clauses_hold(a + e, c) by {
        let e = Seq::<i32>::empty();
        assert(a + e =~= a);
        assert(total(a + e, n));
    }
}

proof fn lemma_models_trans(c1: Seq<Clause3>, n1: nat, c2: Seq<Clause3>, n2: nat, c3: Seq<Clause3>, n3: nat)
    requires
        models_extend(c1, n1, c2, n2),
        models_extend(c2, n2, c3, n3),
    ensures
        models_extend(c1, n1, c3, n3),
{
    assert forall|a: Seq<i32>| #[trigger] total(a, n1) && all_clauses_hold(a, c1)
        implies exists|e: Seq<i32>| #[trigger] total(a + e, n3) && all_clauses_hold(a + e, c3) by {
        let e1 = choose|e: Seq<i32>| #[trigger] total(a + e, n2) && all_clauses_hold(a + e, c2);
        let a1 = a + e1;
        assert(total(a1, n2) && all_clauses_hold(a1, c2));
        let e2 = choose|e: Seq<i32>| #[trigger] total(a1 + e, n3) && all_clauses_hold(a1 + e, c3);
        assert(a1 + e2 =~= a + (e1 + e2));
        assert(total(a + (e1 + e2), n3));
    }
}

/// No literal among `v[0..=j]` is true under `a`.
pub open spec fn none_true_upto(a: Seq<i32>, v: Seq<i32>, j: int) -> bool {
    forall|i: int| 0 <= i <= j ==> !lit_true(a, #[trigger] v[i])
}

/// Values for the new variables of the chain encoding of `v` that, after `a`, satisfy it:
/// the `j`-th new variable is true exactly when none of `v[0..=j]` is true under `a`.
pub open spec fn chain_values(a: Seq<i32>, v: Seq<i32>) -> Seq<i32> {
    Seq::new(fresh_count(v.len() as int) as nat, |j: int| if none_true_upto(a, v, j + 1) { 1i32 } else { -1i32 })
}

/// Values appended to an assignment leave the clauses over its variables as they were.
proof fn lemma_sat_extend(lits: Seq<i32>, a: Seq<i32>, e: Seq<i32>)
    requires
        forall|i: int| 0 <= i < lits.len() ==> lit_ok(#[trigger] lits[i], a.len()),
    ensures
        satisfies(a + e, lits) == satisfies(a, lits),
        forall|i: int| 0 <= i < lits.len() ==> lit_true(a + e, #[trigger] lits[i]) == lit_true(a, lits[i]),
{
    assert forall|i: int| 0 <= i < lits.len() implies lit_true(a + e, #[trigger] lits[i]) == lit_true(a, lits[i]) by {
        assert(lit_ok(lits[i], a.len()));
    }
    if satisfies(a, lits) {
        let i = choose|i: int| 0 <= i < lits.len() && #[trigger] lit_true(a, lits[i]);
        assert(lit_true(a + e, lits[i]));
    }
    if satisfies(a + e, lits) {
        let i = choose|i: int| 0 <= i < lits.len() && #[trigger] lit_true(a + e, lits[i]);
        assert(lit_true(a, lits[i]));
    }
}

/// Any assignment that satisfies a long clause over its variables extends, by
/// `chain_values`, to one that satisfies every clause of the clause's chain encoding.
pub proof fn lemma_chain_complete(v: Seq<i32>, a: Seq<i32>)
    requires
        v.len() >= 4,
        a.len() + fresh_count(v.len() as int) <= i32::MAX,
        forall|i: int| 0 <= i < v.len() ==> lit_ok(#[trigger] v[i], a.len()),
        satisfies(a, v),
    ensures
        forall|t: int| 0 <= t <= fresh_count(v.len() as int)
            ==> satisfies(a + chain_values(a, v), #[trigger] chain_clause(v, a.len() as int, t)),
{
    let n = v.len() as int;
    let k = fresh_count(n);
    let b = a.len() as int;
    let e = chain_values(a, v);
    let aa = a + e;
    lemma_sat_extend(v, a, e);
    assert forall|j: int| 1 <= j <= k implies #[trigger] aa[b + j - 1] == e[j - 1] by {}
    assert forall|t: int| 0 <= t <= k implies satisfies(aa, #[trigger] chain_clause(v, b, t)) by {
        let c = chain_clause(v, b, t);
        if t == 0 {
            if lit_true(a, v[0]) {
                assert(lit_true(aa, c[0]));
            } else if lit_true(a, v[1]) {
                assert(lit_true(aa, c[1]));
            } else {
                assert(none_true_upto(a, v, 1));
                assert(aa[b] == e[0]);
                assert(lit_true(aa, c[2]));
            }
        } else if t < k {
            assert(aa[b + t - 1] == e[t - 1]);
            if e[t - 1] == -1 {
                assert(lit_true(aa, c[0]));
            } else if lit_true(a, v[t + 1]) {
                assert(lit_true(aa, c[1]));
            } else {
                assert(none_true_upto(a, v, t));
                assert(none_true_upto(a, v, t + 1));
                assert(aa[b + t] == e[t]);
                assert(lit_true(aa, c[2]));
            }
        } else {
            assert(aa[b + k - 1] == e[k - 1]);
            if e[k - 1] == -1 {
                assert(lit_true(aa, c[0]));
            } else {
                assert(none_true_upto(a, v, k));
                let i = choose|i: int| 0 <= i < v.len() && #[trigger] lit_true(a, v[i]);
                if n % 2 == 0 {
                    assert(false);
                } else {
                    assert(i == n - 1);
                    assert(lit_true(aa, c[1]));
                }
            }
        }
    }
}

/// Any assignment that satisfies a nonempty clause over its variables extends to one that
/// satisfies every clause that storing it adds.
proof fn lemma_stored_complete(v: Seq<i32>, a: Seq<i32>) -> (e: Seq<i32>)
    requires
        v.len() >= 1,
        v.len() >= 4 ==> a.len() + fresh_count(v.len() as int) <= i32::MAX,
        forall|i: int| 0 <= i < v.len() ==> lit_ok(#[trigger] v[i], a.len()),
        satisfies(a, v),
        total(a, a.len()),
    ensures
        e == new_values(a, v),
        e.len() == added_vars(v),
        total(a + e, (a.len() + added_vars(v)) as nat),
        forall|j: int| 0 <= j < stored_clauses(v, a.len() as int).len()
            ==> satisfies(a + e, #[trigger] stored_clauses(v, a.len() as int)[j]),
{
    if v.len() <= 3 {
        let e = Seq::<i32>::empty();
        assert(a + e =~= a);
        let i = choose|i: int| 0 <= i < v.len() && #[trigger] lit_true(a, v[i]);
        assert(pad3(v)[i] == v[i]);
        assert(lit_true(a, pad3(v)[i]));
        assert(stored_clauses(v, a.len() as int)[0] == pad3(v));
        e
    } else {
        let e = chain_values(a, v);
        lemma_chain_complete(v, a);
        assert forall|j: int| 0 <= j < stored_clauses(v, a.len() as int).len()
            implies satisfies(a + e, #[trigger] stored_clauses(v, a.len() as int)[j]) by {
            assert(stored_clauses(v, a.len() as int)[j] == chain_clause(v, a.len() as int, j));
        }
        assert forall|x: int| 0 <= x < a.len() + added_vars(v) implies #[trigger] (a + e)[x] == 1 || (a + e)[x] == -1 by {
            if x < a.len() {
                assert(a[x] == 1 || a[x] == -1);
            }
        }
        e
    }
}

/// Values for the new variables that storing `v` after the assignment `a` introduces.
pub open spec fn new_values(a: Seq<i32>, v: Seq<i32>) -> Seq<i32> {
    if v.len() <= 3 { Seq::empty() } else { chain_values(a, v) }
}

/// How many variables storing the clauses `ins`, in order, adds.
pub open spec fn added_total(ins: Seq<Seq<i32>>) -> int
    decreases ins.len(),
{
    if ins.len() == 0 { 0 } else { added_total(ins.drop_last()) + added_vars(ins.last()) }
}

/// The stored clauses that storing the clauses `ins`, in order, produces, starting with `o`
/// variables.
pub open spec fn encoding(ins: Seq<Seq<i32>>, o: int) -> Seq<Seq<i32>>
    decreases ins.len(),
{
    if ins.len() == 0 {
        Seq::empty()
    } else {
        encoding(ins.drop_last(), o) + stored_clauses(ins.last(), o + added_total(ins.drop_last()))
    }
}

/// The assignment `a` followed by the values `new_values` gives the new variables of each
/// clause of `ins`, in order.
pub open spec fn extend_all(a: Seq<i32>, ins: Seq<Seq<i32>>) -> Seq<i32>
    decreases ins.len(),
{
    if ins.len() == 0 {
        a
    } else {
        let p = extend_all(a, ins.drop_last());
        p + new_values(p, ins.last())
    }
}

/// Storing the clauses `ins` in order, starting from `o` variables, keeps the numbers of the
/// new variables of every long clause within `i32`.
pub open spec fn chains_fit(ins: Seq<Seq<i32>>, o: int) -> bool {
    forall|i: int| 0 <= i < ins.len() && (#[trigger] ins[i]).len() >= 4 ==> o + added_total(ins.take(i + 1)) <= i32::MAX
}

/// Every literal of every clause of `ins` is `0` or names one of the variables `1..=n`.
pub open spec fn over_vars(ins: Seq<Seq<i32>>, n: nat) -> bool {
    forall|i: int, k: int| 0 <= i < ins.len() && 0 <= k < ins[i].len() ==> lit_ok(#[trigger] ins[i][k], n)
}

/// Every clause of `ins` is true under `a`.
pub open spec fn all_satisfied(a: Seq<i32>, ins: Seq<Seq<i32>>) -> bool {
    forall|i: int| 0 <= i < ins.len() ==> satisfies(a, #[trigger] ins[i])
}

proof fn lemma_added_nonneg(ins: Seq<Seq<i32>>)
    ensures
        added_total(ins) >= 0,
        ins.len() > 0 ==> added_total(ins.drop_last()) <= added_total(ins),
    decreases ins.len(),
{
    if ins.len() > 0 {
        lemma_added_nonneg(ins.drop_last());
    }
}

/// An assignment of the first variables that satisfies clauses over those variables extends,
/// by `extend_all`, to one that satisfies every clause their storing produces.
proof fn lemma_extend_all(a: Seq<i32>, ins: Seq<Seq<i32>>)
    requires
        total(a, a.len()),
        over_vars(ins, a.len()),
        all_satisfied(a, ins),
        chains_fit(ins, a.len() as int),
    ensures
        extend_all(a, ins).len() == a.len() + added_total(ins),
        total(extend_all(a, ins), extend_all(a, ins).len()),
        forall|x: int| 0 <= x < a.len() ==> #[trigger] extend_all(a, ins)[x] == a[x],
        forall|j: int, t: int| 0 <= j < encoding(ins, a.len() as int).len() && 0 <= t < 3
            ==> lit_ok(#[trigger] encoding(ins, a.len() as int)[j][t], extend_all(a, ins).len()),
        forall|j: int| 0 <= j < encoding(ins, a.len() as int).len()
            ==> encoding(ins, a.len() as int)[j].len() == 3
            && satisfies(extend_all(a, ins), #[trigger] encoding(ins, a.len() as int)[j]),
    decreases ins.len(),
{
    let o = a.len() as int;
    if ins.len() == 0 {
        assert(encoding(ins, o) =~= Seq::<Seq<i32>>::empty());
    } else {
        let pre = ins.drop_last();
        let v = ins.last();
        lemma_added_nonneg(ins);
        lemma_added_nonneg(pre);
        assert(over_vars(pre, a.len())) by {
            assert forall|i: int, k: int| 0 <= i < pre.len() && 0 <= k < pre[i].len()
                implies lit_ok(#[trigger] pre[i][k], a.len()) by {
                assert(pre[i] == ins[i]);
                assert(lit_ok(ins[i][k], a.len()));
            }
        }
        assert(all_satisfied(a, pre)) by {
            assert forall|i: int| 0 <= i < pre.len() implies satisfies(a, #[trigger] pre[i]) by {
                assert(pre[i] == ins[i]);
            }
        }
        assert(chains_fit(pre, o)) by {
            assert forall|i: int| 0 <= i < pre.len() && (#[trigger] pre[i]).len() >= 4
                implies o + added_total(pre.take(i + 1)) <= i32::MAX by {
                assert(pre[i] == ins[i]);
                assert(pre.take(i + 1) =~= ins.take(i + 1));
            }
        }
        assert(ins.last().len() >= 4 ==> o + added_total(ins) <= i32::MAX) by {
            if ins.last().len() >= 4 {
                assert(ins.take(ins.len() as int) =~= ins);
                assert(ins[ins.len() - 1] == ins.last());
            }
        }
        lemma_extend_all(a, pre);
        let p = extend_all(a, pre);
        let e = new_values(p, v);
        let b = o + added_total(pre);
        assert(p.len() == b);
        assert(v == ins[ins.len() - 1]);
        assert forall|k: int| 0 <= k < v.len() implies lit_ok(#[trigger] v[k], a.len()) by {
            assert(lit_ok(ins[ins.len() - 1][k], a.len()));
        }
        assert forall|k: int| 0 <= k < v.len() implies lit_ok(#[trigger] v[k], p.len()) by {
            assert(lit_ok(v[k], a.len()));
        }
        let rest = p.subrange(o, p.len() as int);
        assert(p =~= a + rest);
        lemma_sat_extend(v, a, rest);
        assert(satisfies(a, v));
        assert(satisfies(p, v));
        let e2 = lemma_stored_complete(v, p);
        let q = p + e;
        assert(extend_all(a, ins) == q);
        let old_enc = encoding(pre, o);
        let new_enc = stored_clauses(v, b);
        assert(encoding(ins, o) == old_enc + new_enc);
        assert forall|x: int| 0 <= x < a.len() implies #[trigger] q[x] == a[x] by {
            assert(p[x] == a[x]);
        }
        assert forall|j: int, t: int| 0 <= j < encoding(ins, o).len() && 0 <= t < 3
            implies lit_ok(#[trigger] encoding(ins, o)[j][t], q.len()) by {
            if j < old_enc.len() {
                assert(encoding(ins, o)[j] == old_enc[j]);
                assert(lit_ok(old_enc[j][t], p.len()));
            } else {
                let jj = j - old_enc.len();
                assert(encoding(ins, o)[j] == new_enc[jj]);
                lemma_stored_slot(v, b, jj, t);
                let l = new_enc[jj][t];
                if l != 0 && exists|k: int| 0 <= k < v.len() && v[k] == l {
                    let k = choose|k: int| 0 <= k < v.len() && v[k] == l;
                    assert(lit_ok(v[k], a.len()));
                }
            }
        }
        assert forall|j: int| 0 <= j < encoding(ins, o).len()
            implies encoding(ins, o)[j].len() == 3 && satisfies(q, #[trigger] encoding(ins, o)[j]) by {
            if j < old_enc.len() {
                assert(encoding(ins, o)[j] == old_enc[j]);
                let c = old_enc[j];
                assert(satisfies(p, c));
                assert forall|t: int| 0 <= t < c.len() implies lit_ok(#[trigger] c[t], p.len()) by {
                    assert(lit_ok(old_enc[j][t], p.len()));
                }
                lemma_sat_extend(c, p, e);
            } else {
                let jj = j - old_enc.len();
                assert(encoding(ins, o)[j] == new_enc[jj]);
                if v.len() <= 3 {
                    assert(new_enc[jj] == pad3(v));
                } else {
                    assert(new_enc[jj] == chain_clause(v, b, jj));
                }
            }
        }
    }
}

/// The variable number of the first true literal of a three-slot clause under `a`, or `0`.
pub open spec fn witness(a: Seq<i32>, lits: Seq<i32>) -> i32 {
    if lit_true(a, lits[0]) {
        var_of(lits[0]) as i32
    } else if lit_true(a, lits[1]) {
        var_of(lits[1]) as i32
    } else if lit_true(a, lits[2]) {
        var_of(lits[2]) as i32
    } else {
        0
    }
}

/// The variable of the first true literal of a clause: it is `0` exactly where no literal of
/// the clause is true, and otherwise the variable of a true literal with no true literal
/// before it.
pub open spec fn names_first_true(a: Seq<i32>, lits: Seq<i32>, w: i32) -> bool {
    &&& (w == 0 <==> !satisfies(a, lits))
    &&& w != 0 ==> exists|s: int| 0 <= s < 3 && lits[s] != 0 && var_of(lits[s]) == w
        && #[trigger] lit_true(a, lits[s]) && forall|t: int| 0 <= t < s ==> !lit_true(a, #[trigger] lits[t])
}

/// The witness of a clause is the variable of its first true literal, and `0` where none is
/// true.
pub proof fn lemma_witness_first_true(a: Seq<i32>, lits: Seq<i32>)
    requires
        lits.len() == 3,
        forall|s: int| 0 <= s < 3 ==> #[trigger] lits[s] != i32::MIN,
    ensures
        names_first_true(a, lits, witness(a, lits)),
{
    assert(lits[0] != i32::MIN && lits[1] != i32::MIN && lits[2] != i32::MIN);
    let w = witness(a, lits);
    if satisfies(a, lits) {
        let i = choose|i: int| 0 <= i < lits.len() && #[trigger] lit_true(a, lits[i]);
        if lit_true(a, lits[0]) {
            assert(var_of(lits[0]) as i32 == var_of(lits[0]));
            assert(lit_true(a, lits[0]) && forall|t: int| 0 <= t < 0 ==> !lit_true(a, #[trigger] lits[t]));
        } else if lit_true(a, lits[1]) {
            assert(var_of(lits[1]) as i32 == var_of(lits[1]));
            assert(forall|t: int| 0 <= t < 1 ==> !lit_true(a, #[trigger] lits[t]));
        } else {
            assert(lit_true(a, lits[2]));
            assert(var_of(lits[2]) as i32 == var_of(lits[2]));
            assert(forall|t: int| 0 <= t < 2 ==> !lit_true(a, #[trigger] lits[t]));
        }
    } else {
        assert(!lit_true(a, lits[0]));
        assert(!lit_true(a, lits[1]));
        assert(!lit_true(a, lits[2]));
    }
}

/// Clause slots that do not name variable `v` do not notice a change of `v`.
/// Some slot of `lits` names one of the variable indices `xs`.
pub open spec fn touches(lits: Seq<i32>, xs: Set<int>) -> bool {
    ||| lits[0] != 0 && xs.contains(var_of(lits[0]) - 1)
    ||| lits[1] != 0 && xs.contains(var_of(lits[1]) - 1)
    ||| lits[2] != 0 && xs.contains(var_of(lits[2]) - 1)
}

/// The refreshed working clause depends only on the values of the clause's variables.
proof fn lemma_refresh_agree(lits: Seq<i32>, a: Seq<i32>, b: Seq<i32>)
    requires
        lits.len() == 3,
        forall|t: int| 0 <= t < 3 ==> #[trigger] lits[t] == 0 || a[var_of(lits[t]) - 1] == b[var_of(lits[t]) - 1],
    ensures
        refresh(lits, a) == refresh(lits, b),
{
    assert(lits[0] == 0 || a[var_of(lits[0]) - 1] == b[var_of(lits[0]) - 1]);
    assert(lits[1] == 0 || a[var_of(lits[1]) - 1] == b[var_of(lits[1]) - 1]);
    assert(lits[2] == 0 || a[var_of(lits[2]) - 1] == b[var_of(lits[2]) - 1]);
    assert(refresh(lits, a).0 =~= refresh(lits, b).0);
    assert forall|i: int| 0 <= i < 3 implies #[trigger] lit_true(a, lits[i]) == lit_true(b, lits[i]) by {}
    if satisfies(a, lits) {
        let i = choose|i: int| 0 <= i < lits.len() && #[trigger] lit_true(a, lits[i]);
        assert(lit_true(b, lits[i]));
    }
    if satisfies(b, lits) {
        let i = choose|i: int| 0 <= i < lits.len() && #[trigger] lit_true(b, lits[i]);
        assert(lit_true(a, lits[i]));
    }
}

proof fn lemma_unrelated(lits: Seq<i32>, a: Seq<i32>, v: int, x: i32)
    requires
        lits.len() == 3,
        npos(lits, v) == 0,
        0 <= v < a.len(),
        forall|i: int| 0 <= i < 3 ==> lits[i] == 0 || (lits[i] != i32::MIN && var_of(#[trigger] lits[i]) <= a.len()),
    ensures
        refresh(lits, a) == refresh(lits, a.update(v, x)),
        satisfies(a, lits) == satisfies(a.update(v, x), lits),
{
    let a2 = a.update(v, x);
    assert forall|i: int| 0 <= i < 3 && lits[i] != 0 implies a[var_of(#[trigger] lits[i]) - 1] == a2[var_of(lits[i]) - 1] by {
        assert(!hits(lits[i], v));
    }
    assert(refresh(lits, a).0 =~= refresh(lits, a2).0);
    assert forall|i: int| 0 <= i < 3 implies #[trigger] lit_true(a, lits[i]) == lit_true(a2, lits[i]) by {}
    if satisfies(a, lits) {
        let i = choose|i: int| 0 <= i < lits.len() && #[trigger] lit_true(a, lits[i]);
        assert(lit_true(a2, lits[i]));
    }
    if satisfies(a2, lits) {
        let i = choose|i: int| 0 <= i < lits.len() && #[trigger] lit_true(a2, lits[i]);
        assert(lit_true(a, lits[i]));
    }
}

/// Setting an unassigned variable through `lit`: striking each working clause once per slot
/// naming the variable leaves it right under the new assignment, satisfied exactly when it was
/// or a slot holds `lit`.
proof fn lemma_strikes(lits: Seq<i32>, a: Seq<i32>, w: Clause3, lit: i32)
    requires
        lits.len() == 3,
        lit != 0,
        lit != i32::MIN,
        var_of(lit) <= a.len(),
        a[var_of(lit) - 1] == 0,
        forall|i: int| 0 <= i < 3 ==> lits[i] == 0 || (lits[i] != i32::MIN && var_of(#[trigger] lits[i]) <= a.len()),
        forall|u: int| 0 <= u < a.len() ==> -1 <= #[trigger] a[u] <= 1,
        ws_ok(w, lits, a),
    ensures
        ({
            let r = strikes(cview(w), lit, npos(lits, var_of(lit) - 1));
            let a2 = a.update(var_of(lit) - 1, sign_of(lit));
            &&& r.0.len() == 3
            &&& (r.1 ==> satisfies(a2, lits))
            &&& (!r.1 ==> r == refresh(lits, a2))
            &&& (r.1 <==> (w.sat || lits[0] == lit || lits[1] == lit || lits[2] == lit))
        }),
{
    let v = var_of(lit) - 1;
    let a2 = a.update(v, sign_of(lit));
    let n = npos(lits, v);
    reveal_with_fuel(strikes, 4);
    assert(lit_true(a2, lit));
    if w.sat {
        let i = choose|i: int| 0 <= i < lits.len() && #[trigger] lit_true(a, lits[i]);
        assert(lit_true(a2, lits[i]));
        assert forall|m: nat| #[trigger] strikes(cview(w), lit, m) == cview(w) by {
            lemma_strikes_sat(cview(w), lit, m);
        }
    } else {
        assert(!satisfies(a, lits));
        assert forall|i: int| 0 <= i < 3 && hits(lits[i], v) implies lits[i] == lit || lits[i] == -lit by {}
        assert forall|i: int| 0 <= i < 3 && !hits(lits[i], v) implies #[trigger] cview(w).0[i] != lit && cview(w).0[i] != -lit by {}
        assert forall|i: int| 0 <= i < 3 && hits(lits[i], v) implies #[trigger] cview(w).0[i] == lits[i] by {}
        assert forall|i: int| 0 <= i < 3 implies #[trigger] lit_true(a2, lits[i]) == (lit_true(a, lits[i]) || lits[i] == lit) by {}
        assert(satisfies(a2, lits) == (lits[0] == lit || lits[1] == lit || lits[2] == lit)) by {
            if satisfies(a2, lits) {
                let i = choose|i: int| 0 <= i < lits.len() && #[trigger] lit_true(a2, lits[i]);
                assert(!lit_true(a, lits[i]));
            }
            if lits[0] == lit { assert(lit_true(a2, lits[0])); }
            if lits[1] == lit { assert(lit_true(a2, lits[1])); }
            if lits[2] == lit { assert(lit_true(a2, lits[2])); }
        }
        let r = strikes(cview(w), lit, n);
        assert(r.0.len() == 3);
        if !r.1 {
            assert(r.0 =~= refresh(lits, a2).0);
        }
    }
}

proof fn lemma_strikes_sat(w: (Seq<i32>, bool), lit: i32, m: nat)
    requires
        w.1,
    ensures
        strikes(w, lit, m) == w,
    decreases m,
{
    if m > 0 {
        lemma_strikes_sat(w, lit, (m - 1) as nat);
    }
}

/// Setting a literal of an unassigned variable and unassigning that variable again, with
/// the effects `set_literal` and `unset_var` have on the working clauses, gives back the
/// assignment, and every working clause that was in its refreshed form.
pub proof fn lemma_set_then_unset(clauses: Seq<Clause3>, ws: Seq<Clause3>, a: Seq<i32>, lit: i32,
    ws1: Seq<Clause3>, ws2: Seq<Clause3>)
    requires
        lit != 0,
        0 <= var_of(lit) - 1 < a.len(),
        a[var_of(lit) - 1] == 0,
        ws.len() == clauses.len(),
        ws1.len() == ws.len(),
        ws2.len() == ws.len(),
        forall|c: int| 0 <= c < ws.len() ==> cview(#[trigger] ws1[c])
            == strikes(cview(ws[c]), lit, npos(clauses[c].literals@, var_of(lit) - 1)),
        forall|c: int| 0 <= c < ws.len() ==> if npos(clauses[c].literals@, var_of(lit) - 1) > 0 {
            cview(#[trigger] ws2[c]) == refresh(clauses[c].literals@,
                a.update(var_of(lit) - 1, sign_of(lit)).update(var_of(lit) - 1, 0))
        } else {
            ws2[c] == ws1[c]
        },
    ensures
        a.update(var_of(lit) - 1, sign_of(lit)).update(var_of(lit) - 1, 0) == a,
        forall|c: int| 0 <= c < ws.len() && cview(ws[c]) == refresh(clauses[c].literals@, a)
            ==> cview(#[trigger] ws2[c]) == cview(ws[c]),
{
    let v = var_of(lit) - 1;
    assert(a.update(v, sign_of(lit)).update(v, 0) =~= a);
    assert forall|c: int| 0 <= c < ws.len() && cview(ws[c]) == refresh(clauses[c].literals@, a)
        implies cview(#[trigger] ws2[c]) == cview(ws[c]) by {
        if npos(clauses[c].literals@, v) == 0 {
            assert(strikes(cview(ws[c]), lit, 0) == cview(ws[c]));
        }
    }
}

/// Slot `s` of the three-slot clause `lits` made variable index `x` true under `a`, with
/// recorded parents `p`: the slot's literal names `x` and is true, `p` lists the variables of
/// the other slots, and no other slot is true.
spec fn implied_at(lits: Seq<i32>, s: int, a: Seq<i32>, x: int, p: (i32, i32)) -> bool {
    &&& 0 <= s < 3
    &&& lits[s] != 0
    &&& var_of(lits[s]) - 1 == x
    &&& lit_true(a, lits[s])
    &&& p == reason_parents(lits, lits[s])
    &&& forall|t: int| 0 <= t < 3 && lits[t] != lits[s] ==> !lit_true(a, #[trigger] lits[t])
}

/// An implication stays valid when its own variable keeps its value and the variables of the
/// other slots keep theirs or lose them.
proof fn lemma_implied_keep(lits: Seq<i32>, s: int, a: Seq<i32>, b: Seq<i32>, x: int, p: (i32, i32))
    requires
        implied_at(lits, s, a, x, p),
        b[x] == a[x],
        forall|t: int| 0 <= t < 3 && lits[t] != lits[s] && lits[t] != 0
            ==> #[trigger] b[var_of(lits[t]) - 1] == a[var_of(lits[t]) - 1] || b[var_of(lits[t]) - 1] == 0,
    ensures
        implied_at(lits, s, b, x, p),
{
    assert forall|t: int| 0 <= t < 3 && lits[t] != lits[s] implies !lit_true(b, #[trigger] lits[t]) by {
        assert(!lit_true(a, lits[t]));
        if lits[t] != 0 {
            assert(b[var_of(lits[t]) - 1] == a[var_of(lits[t]) - 1] || b[var_of(lits[t]) - 1] == 0);
        }
    }
}

/// The variable of a slot other than the implying one is one of the recorded parents.
proof fn lemma_other_is_parent(lits: Seq<i32>, s: int, t: int)
    requires
        lits.len() == 3,
        0 <= s < 3,
        0 <= t < 3,
        lits[t] != lits[s],
    ensures
        var_of(lits[t]) as i32 == reason_parents(lits, lits[s]).0
            || var_of(lits[t]) as i32 == reason_parents(lits, lits[s]).1,
{
    let l = lits[s];
    let o = others(lits, l);
    let e = Seq::<i32>::empty();
    let s0 = if lits[0] != l { seq![var_of(lits[0]) as i32] } else { e };
    let s1 = if lits[1] != l { seq![var_of(lits[1]) as i32] } else { e };
    let s2 = if lits[2] != l { seq![var_of(lits[2]) as i32] } else { e };
    assert(o == s0 + s1 + s2);
    if s == 0 {
        assert(o =~= s1 + s2);
    } else if s == 1 {
        assert(o =~= s0 + s2);
    } else {
        assert(o =~= s0 + s1);
    }
}

/// A clause of at most three literals; `0` marks an unused slot.
/// In a working copy, `sat` records that the clause is satisfied and a
/// literal is zeroed once its variable has a value.
#[derive(Clone, Copy)]
pub struct Clause3 {
    pub literals: [i32; 3],
    pub sat: bool,
}

impl Default for Clause3 {
    fn default() -> (c: Clause3)
        ensures
            c.literals@ == seq![0i32, 0i32, 0i32],
            !c.sat,
    {
        Clause3 { literals: [0, 0, 0], sat: false }
    }
}

/// What a solver holds, seen from outside.
pub struct SolverView {
    /// Number of variables; they are numbered `1..=num_vars`.
    pub num_vars: nat,
    /// The stored clauses.
    pub clauses: Seq<Clause3>,
    /// The value of each variable index: `1` true, `-1` false, `0` unassigned.
    pub assigns: Seq<i32>,
    /// `0` undecided, `1` satisfiable, `-1` unsatisfiable.
    pub status: i32,
    /// Every clause given to `add_clause`, in order, as given.
    pub inputs: Seq<Seq<i32>>,
    /// The working copies of the clauses that `solve` searches with.
    pub working: Seq<Clause3>,
    /// The implication graph: a node for each assigned variable, with the variables that
    /// implied it.
    pub graph: ImplicationGraph,
    /// The number of variables the solver was created with; the variables after them are
    /// those that long clauses brought.
    pub base_vars: nat,
}

/// A clause-learning SAT solver over clauses of at most three literals; longer clauses
/// are split into a chain of such clauses with new variables.
pub struct SatSolver {
    vars: usize,
    clauses: Vec<Clause3>,
    workspace: Vec<Clause3>,
    assigns: Vec<i32>,
    var_to_clause: Vec<Vec<usize>>,
    graph: ImplicationGraph,
    sat: i32,
    inputs: Ghost<Seq<Seq<i32>>>,
}

/// The first nonzero slot of a working clause, or `0`.
pub open spec fn first_open(w: Seq<i32>) -> i32 {
    if w[0] != 0 { w[0] } else if w[1] != 0 { w[1] } else { w[2] }
}

/// How many slots of a working clause are nonzero.
pub open spec fn open_count(w: Seq<i32>) -> int {
    (if w[0] != 0 { 1int } else { 0int }) + (if w[1] != 0 { 1int } else { 0int }) + (if w[2] != 0 { 1int } else { 0int })
}

/// The search state of `v` is consistent: the graph is well formed, the sizes agree, and
/// each working clause is right for its stored clause under the assignment.
pub open spec fn coherent(v: SolverView) -> bool {
    &&& v.graph.wf()
    &&& v.assigns.len() == v.num_vars
    &&& v.working.len() == v.clauses.len()
    &&& forall|c: int| 0 <= c < v.clauses.len() ==> ws_ok(#[trigger] v.working[c], v.clauses[c].literals@, v.assigns)
}

/// `w` is `v` with `lit` set true and recorded in the graph with parents `p`; each working
/// clause not yet satisfied has the first slot holding `lit` or its negation zeroed, once per
/// slot of its stored clause that names `lit`'s variable, and a slot holding `lit` satisfies it.
pub open spec fn assigned_state(v: SolverView, w: SolverView, lit: i32, p: (i32, i32)) -> bool {
    &&& w.num_vars == v.num_vars
    &&& w.clauses == v.clauses
    &&& w.inputs == v.inputs
    &&& w.base_vars == v.base_vars
    &&& w.assigns == v.assigns.update(var_of(lit) - 1, sign_of(lit))
    &&& w.graph@ == v.graph@.insert(var_of(lit) - 1, p)
    &&& w.working.len() == v.working.len()
    &&& forall|c: int| 0 <= c < v.working.len() ==> cview(#[trigger] w.working[c])
        == strikes(cview(v.working[c]), lit, npos(v.clauses[c].literals@, var_of(lit) - 1))
}

/// The variable indices that lose their values when clause `c` of `v` is in conflict: the
/// decisions behind it and what fell with them.
pub open spec fn fallen(v: SolverView, c: int) -> Set<int> {
    let lits = v.clauses[c].literals@;
    removed_indices(v.graph.conflict_roots(lits) + v.graph.conflict_implied(lits))
}

/// The conflict at clause `c` of `v` can be resolved within `i32`: the new variables that
/// storing the learned clause (one literal per decision behind the conflict) brings keep
/// their numbers within `i32`, and so does the index of the last clause after it.
pub open spec fn conflict_fits(v: SolverView, c: int) -> bool {
    let n = v.graph.conflict_roots(v.clauses[c].literals@).len() as int;
    let k = if n >= 4 { fresh_count(n) } else { 0 };
    let m = if n == 0 { 0 } else if n <= 3 { 1 } else { k + 1 };
    &&& v.num_vars + k <= i32::MAX
    &&& v.clauses.len() + m <= 0x8000_0000
}

/// `l` negates the decisions behind the conflict at clause `c` of `v`: one literal per
/// decision, false in `v`, and nothing else.
pub open spec fn learned_from(v: SolverView, c: int, l: Seq<i32>) -> bool {
    let r = v.graph.conflict_roots(v.clauses[c].literals@);
    &&& forall|i: int| 0 <= i < l.len() ==> #[trigger] l[i] != 0 && r.contains(var_of(l[i]) as i32)
        && v.assigns[var_of(l[i]) - 1] == -sign_of(l[i])
    &&& forall|x: i32| #[trigger] r.contains(x) ==> exists|i: int| 0 <= i < l.len() && var_of(#[trigger] l[i]) == x
    &&& forall|i: int, j: int| 0 <= i < j < l.len() ==> var_of(#[trigger] l[i]) != var_of(#[trigger] l[j])
}

/// `w` is `v` after the conflict at clause `c`: the fallen variables are unassigned and
/// leave the graph, and the learned clause `l` is stored as `add_clause` stores it.
pub open spec fn relearned_state(v: SolverView, c: int, l: Seq<i32>, w: SolverView) -> bool {
    let fl = fallen(v, c);
    let b = v.num_vars;
    let st = stored_clauses(l, b as int);
    &&& w.inputs == v.inputs.push(l)
    &&& w.base_vars == v.base_vars
    &&& w.num_vars == b + added_vars(l)
    &&& w.assigns == Seq::new(b, |x: int| if fl.contains(x) { 0i32 } else { v.assigns[x] })
        + Seq::new(added_vars(l) as nat, |i: int| 0i32)
    &&& w.graph@ == v.graph@.remove_keys(fl)
    &&& w.clauses.len() == v.clauses.len() + st.len()
    &&& forall|k: int| 0 <= k < v.clauses.len() ==> #[trigger] w.clauses[k] == v.clauses[k]
    &&& forall|j: int| 0 <= j < st.len() ==> (#[trigger] w.clauses[v.clauses.len() + j]).literals@ == st[j]
        && !w.clauses[v.clauses.len() + j].sat
    &&& w.status == (if l.len() == 0 { -1i32 } else { v.status })
}

/// The working clauses after the conflict at clause `c` of `v`: those that name a fallen
/// variable are recomputed from their stored clauses, the others kept, and each newly stored
/// clause is copied as it is.
pub open spec fn relearned_working(v: SolverView, c: int, w: SolverView) -> bool {
    &&& w.working.len() == w.clauses.len()
    &&& forall|k: int| 0 <= k < v.clauses.len() ==>
        if touches(v.clauses[k].literals@, fallen(v, c)) {
            cview(#[trigger] w.working[k]) == refresh(v.clauses[k].literals@, w.assigns)
        } else {
            w.working[k] == v.working[k]
        }
    &&& forall|k: int| v.clauses.len() <= k < w.clauses.len() ==> #[trigger] w.working[k] == w.clauses[k]
}

/// One step of `solve`'s search from clause `c` of `v` to clause `d` of `w`: a satisfied
/// working clause is passed; a clause with one open literal sets it, as implied by the
/// clause; a clause with more decides its first open literal; a clause with none is a
/// conflict, resolved by learning a clause and starting over from the last clause. Passing
/// the first clause makes the status satisfiable.
pub open spec fn search_step(v: SolverView, c: int, w: SolverView, d: int) -> bool {
    let wc = v.working[c];
    let lits = wc.literals@;
    let l = first_open(lits);
    &&& v.status == 0
    &&& 0 <= c < v.clauses.len()
    &&& coherent(w)
    &&& if wc.sat {
        &&& w.num_vars == v.num_vars
        &&& w.clauses == v.clauses
        &&& w.inputs == v.inputs
        &&& w.base_vars == v.base_vars
        &&& w.assigns == v.assigns
        &&& w.graph@ == v.graph@
        &&& w.working == v.working
        &&& d == c - 1
        &&& w.status == (if d == -1 { 1i32 } else { 0i32 })
    } else if l != 0 {
        &&& assigned_state(v, w, l,
            if open_count(lits) == 1 { reason_parents(v.clauses[c].literals@, l) } else { (-1i32, -1i32) })
        &&& d == c - 1
        &&& w.status == (if d == -1 { 1i32 } else { 0i32 })
    } else {
        &&& exists|ls: Seq<i32>| learned_from(v, c, ls) && #[trigger] relearned_state(v, c, ls, w)
        &&& relearned_working(v, c, w)
        &&& d == w.clauses.len() - 1
    }
}

/// `v` with every working clause freshly copied from its stored clause, as `solve` starts.
pub open spec fn search_start(v: SolverView) -> SolverView {
    SolverView { working: v.clauses, ..v }
}

/// The search stops undecided at clause `c` of `v`: the clause is in conflict, and
/// resolving it would take variable numbers or clause indices past `i32`.
pub open spec fn stops_at(v: SolverView, c: int) -> bool {
    &&& 0 <= c < v.clauses.len()
    &&& !v.working[c].sat
    &&& first_open(v.working[c].literals@) == 0
    &&& !conflict_fits(v, c)
}

/// Where the search stops undecided at a conflict, storing a clause learned from it (one
/// literal per decision behind the conflict, however many) would take variable numbers past
/// `i32` or the index of the last clause past the `i32` range.
pub proof fn lemma_stop_needs_overflow(v: SolverView, c: int, l: Seq<i32>)
    requires
        stops_at(v, c),
        learned_from(v, c, l),
        forall|i: int| 0 <= i < l.len() ==> #[trigger] l[i] != i32::MIN,
        v.graph.conflict_roots(v.clauses[c].literals@).finite(),
    ensures
        v.num_vars + added_vars(l) > i32::MAX
            || v.clauses.len() + stored_clauses(l, v.num_vars as int).len() > 0x8000_0000,
{
    let r = v.graph.conflict_roots(v.clauses[c].literals@);
    let t = l.map_values(|x: i32| var_of(x) as i32);
    assert(t.no_duplicates()) by {
        assert forall|i: int, j: int| 0 <= i < t.len() && 0 <= j < t.len() && i != j implies t[i] != t[j] by {
            assert(l[i] != i32::MIN && l[j] != i32::MIN);
            if i < j {
                assert(var_of(l[i]) != var_of(l[j]));
            } else {
                assert(var_of(l[j]) != var_of(l[i]));
            }
        }
    }
    assert(t.to_set() =~= r) by {
        assert forall|x: i32| #[trigger] t.to_set().contains(x) == r.contains(x) by {
            if t.to_set().contains(x) {
                let i = choose|i: int| 0 <= i < t.len() && t[i] == x;
                assert(r.contains(var_of(l[i]) as i32));
            }
            if r.contains(x) {
                let i = choose|i: int| 0 <= i < l.len() && var_of(#[trigger] l[i]) == x;
                assert(l[i] != i32::MIN);
                assert(t[i] == x);
            }
        }
    }
    t.unique_seq_to_set();
    assert(l.len() == r.len());
}

/// `tr` is a run of `solve`'s search on `v`, from its last clause, that ends in `f`; it ends
/// undecided only after `u64::MAX` steps, where there are too many clauses to index within
/// `i32`, or where the next step would go past `i32`.
pub open spec fn search_run(tr: Seq<(SolverView, int)>, v: SolverView, f: SolverView) -> bool {
    &&& tr.len() >= 1
    &&& tr[0] == (search_start(v), v.clauses.len() - 1)
    &&& tr.last().0 == f
    &&& forall|i: int| 0 <= i < tr.len() - 1 ==> #[trigger] search_step(tr[i].0, tr[i].1, tr[i + 1].0, tr[i + 1].1)
    &&& f.status == 0 ==> tr.len() - 1 == u64::MAX || f.clauses.len() > 0x8000_0000 || stops_at(tr.last().0, tr.last().1)
}

impl View for SatSolver {
    type V = SolverView;

    closed spec fn view(&self) -> SolverView {
        SolverView {
            num_vars: self.vars as nat,
            clauses: self.clauses@,
            assigns: self.assigns@,
            status: self.sat,
            inputs: self.inputs@,
            working: self.workspace@,
            graph: self.graph,
            base_vars: (self.vars - added_total(self.inputs@)) as nat,
        }
    }
}

impl SatSolver {
    /// The solver's invariant: sizes agree, clauses name known variables, each variable's
    /// occurrence list names each clause once per slot holding it, in ascending order, the
    /// implication graph holds a node for exactly the assigned variables, and each implied
    /// variable was implied by a stored clause.
    pub closed spec fn wf(&self) -> bool {
        &&& self.wf_parts()
        &&& self.encoded()
    }

    closed spec fn wf_parts(&self) -> bool {
        &&& self.wf_core()
        &&& self.graph_matches()
        &&& self.reasons_ok()
    }

    /// The stored clauses are exactly those that storing the clauses given to `add_clause`,
    /// in order, produces, starting from the variables the solver was created with.
    closed spec fn encoded(&self) -> bool {
        &&& added_total(self.inputs@) <= self.vars
        &&& chains_fit(self.inputs@, self.vars - added_total(self.inputs@))
        &&& self.clauses@.map_values(|c: Clause3| c.literals@)
            == encoding(self.inputs@, self.vars - added_total(self.inputs@))
    }

    /// Every implied variable was made true by a stored clause whose other literals are
    /// false, and its recorded parents are the variables of those literals.
    closed spec fn reasons_ok(&self) -> bool {
        forall|x: int| #[trigger] self.graph@.dom().contains(x) && !self.graph.is_root(x)
            ==> exists|c: int, s: int| 0 <= c < self.clauses@.len()
                && #[trigger] implied_at(self.clauses@[c].literals@, s, self.assigns@, x, self.graph@[x])
    }

    /// Appending clauses and unassigned variables keeps every recorded implication valid.
    proof fn lemma_reasons_kept(&self, old_s: SatSolver)
        requires
            old_s.wf_core(),
            old_s.reasons_ok(),
            self.graph@ == old_s.graph@,
            self.clauses@.len() >= old_s.clauses@.len(),
            forall|c: int| 0 <= c < old_s.clauses@.len() ==> #[trigger] self.clauses@[c] == old_s.clauses@[c],
            self.assigns@.len() >= old_s.assigns@.len(),
            forall|i: int| 0 <= i < old_s.assigns@.len() ==> #[trigger] self.assigns@[i] == old_s.assigns@[i],
        ensures
            self.reasons_ok(),
    {
        assert forall|x: int| #[trigger] self.graph@.dom().contains(x) && !self.graph.is_root(x)
            implies exists|c: int, s: int| 0 <= c < self.clauses@.len()
                && #[trigger] implied_at(self.clauses@[c].literals@, s, self.assigns@, x, self.graph@[x]) by {
            assert(old_s.graph@.dom().contains(x) && !old_s.graph.is_root(x));
            let (c, s) = choose|c: int, s: int| 0 <= c < old_s.clauses@.len()
                && #[trigger] implied_at(old_s.clauses@[c].literals@, s, old_s.assigns@, x, old_s.graph@[x]);
            let lits = old_s.clauses@[c].literals@;
            assert(lit_ok(old_s.clauses@[c].literals[s], old_s.vars as nat));
            assert forall|t: int| 0 <= t < 3 && lits[t] != lits[s] && lits[t] != 0
                implies #[trigger] self.assigns@[var_of(lits[t]) - 1] == old_s.assigns@[var_of(lits[t]) - 1]
                    || self.assigns@[var_of(lits[t]) - 1] == 0 by {
                assert(lit_ok(old_s.clauses@[c].literals[t], old_s.vars as nat));
            }
            lemma_implied_keep(lits, s, old_s.assigns@, self.assigns@, x, old_s.graph@[x]);
            assert(self.clauses@[c] == old_s.clauses@[c]);
        }
    }

    /// Assigning an unassigned variable `y` and recording it in the graph keeps every older
    /// implication valid, since the parents of an implied variable are assigned.
    proof fn lemma_reasons_assign(&self, old_s: SatSolver, y: int, v: i32, p: (i32, i32))
        requires
            old_s.wf(),
            0 <= y < old_s.vars,
            old_s.assigns@[y] == 0,
            self.clauses == old_s.clauses,
            self.assigns@ == old_s.assigns@.update(y, v),
            self.graph@ == old_s.graph@.insert(y, p),
            p.0 == -1 || exists|c: int, s: int| 0 <= c < self.clauses@.len()
                && #[trigger] implied_at(self.clauses@[c].literals@, s, self.assigns@, y, p),
        ensures
            self.reasons_ok(),
    {
        assert forall|x: int| #[trigger] self.graph@.dom().contains(x) && !self.graph.is_root(x)
            implies exists|c: int, s: int| 0 <= c < self.clauses@.len()
                && #[trigger] implied_at(self.clauses@[c].literals@, s, self.assigns@, x, self.graph@[x]) by {
            if x != y {
                assert(old_s.graph@.dom().contains(x) && !old_s.graph.is_root(x));
                let q = old_s.graph@[x];
                let (c, s) = choose|c: int, s: int| 0 <= c < old_s.clauses@.len()
                    && #[trigger] implied_at(old_s.clauses@[c].literals@, s, old_s.assigns@, x, q);
                let lits = old_s.clauses@[c].literals@;
                old_s.graph.lemma_parents(x);
                assert forall|t: int| 0 <= t < 3 && lits[t] != lits[s] && lits[t] != 0
                    implies #[trigger] self.assigns@[var_of(lits[t]) - 1] == old_s.assigns@[var_of(lits[t]) - 1]
                        || self.assigns@[var_of(lits[t]) - 1] == 0 by {
                    assert(lit_ok(old_s.clauses@[c].literals[t], old_s.vars as nat));
                    lemma_other_is_parent(lits, s, t);
                    let w = var_of(lits[t]);
                    assert(var_of(w as i32) == w);
                    if w as i32 == q.0 {
                        assert(old_s.graph@.dom().contains(pvar(q.0)));
                    } else {
                        assert(old_s.graph@.dom().contains(pvar(q.1)));
                    }
                    assert(old_s.graph@.dom().contains(w - 1));
                    assert(w - 1 != y);
                }
                lemma_implied_keep(lits, s, old_s.assigns@, self.assigns@, x, q);
                assert(self.clauses@[c] == old_s.clauses@[c]);
            }
        }
    }

    /// Dropping nodes from the graph and values from the assignment keeps every implication
    /// whose variable keeps its node and value.
    proof fn lemma_reasons_dropped(&self, old_s: SatSolver)
        requires
            old_s.wf_core(),
            old_s.reasons_ok(),
            self.clauses == old_s.clauses,
            forall|x: int| #[trigger] self.graph@.dom().contains(x) ==> old_s.graph@.dom().contains(x)
                && self.graph@[x] == old_s.graph@[x] && self.assigns@[x] == old_s.assigns@[x],
            self.assigns@.len() == old_s.assigns@.len(),
            forall|i: int| 0 <= i < old_s.assigns@.len() ==> #[trigger] self.assigns@[i] == old_s.assigns@[i]
                || self.assigns@[i] == 0,
        ensures
            self.reasons_ok(),
    {
        assert forall|x: int| #[trigger] self.graph@.dom().contains(x) && !self.graph.is_root(x)
            implies exists|c: int, s: int| 0 <= c < self.clauses@.len()
                && #[trigger] implied_at(self.clauses@[c].literals@, s, self.assigns@, x, self.graph@[x]) by {
            assert(old_s.graph@.dom().contains(x) && !old_s.graph.is_root(x));
            let (c, s) = choose|c: int, s: int| 0 <= c < old_s.clauses@.len()
                && #[trigger] implied_at(old_s.clauses@[c].literals@, s, old_s.assigns@, x, old_s.graph@[x]);
            let lits = old_s.clauses@[c].literals@;
            assert forall|t: int| 0 <= t < 3 && lits[t] != lits[s] && lits[t] != 0
                implies #[trigger] self.assigns@[var_of(lits[t]) - 1] == old_s.assigns@[var_of(lits[t]) - 1]
                    || self.assigns@[var_of(lits[t]) - 1] == 0 by {
                assert(lit_ok(old_s.clauses@[c].literals[t], old_s.vars as nat));
            }
            lemma_implied_keep(lits, s, old_s.assigns@, self.assigns@, x, old_s.graph@[x]);
        }
    }

    /// Every decision among `ys` has under `a` the value it has in the solver.
    spec fn roots_agree(&self, a: Seq<i32>, ys: Set<int>) -> bool {
        forall|y: int| #[trigger] ys.contains(y) && self.graph.is_root(y) ==> a[y] == self.assigns@[y]
    }

    /// An assignment that satisfies every stored clause and agrees with the solver on the
    /// decisions behind an assigned variable agrees with it on that variable too.
    proof fn lemma_agree(&self, a: Seq<i32>, x: int)
        requires
            self.wf(),
            total(a, self.vars as nat),
            forall|c: int| 0 <= c < self.clauses@.len() ==> satisfies(a, #[trigger] self.clauses@[c].literals@),
            self.graph@.dom().contains(x),
            self.roots_agree(a, self.graph.ancestors(x).insert(x)),
        ensures
            a[x] == self.assigns@[x],
        decreases self.graph.rank_of(x),
    {
        let anc = self.graph.ancestors(x).insert(x);
        if self.graph.is_root(x) {
            assert(anc.contains(x));
        } else {
            let q = self.graph@[x];
            let (c, s) = choose|c: int, s: int| 0 <= c < self.clauses@.len()
                && #[trigger] implied_at(self.clauses@[c].literals@, s, self.assigns@, x, q);
            let lits = self.clauses@[c].literals@;
            self.graph.lemma_parents(x);
            if q.0 != 0 {
                let p = pvar(q.0);
                assert(self.roots_agree(a, self.graph.ancestors(p).insert(p))) by {
                    assert forall|y: int| #[trigger] self.graph.ancestors(p).insert(p).contains(y)
                        implies anc.contains(y) by {}
                }
                self.lemma_agree(a, p);
            }
            if q.1 != 0 {
                let p = pvar(q.1);
                assert(self.roots_agree(a, self.graph.ancestors(p).insert(p))) by {
                    assert forall|y: int| #[trigger] self.graph.ancestors(p).insert(p).contains(y)
                        implies anc.contains(y) by {}
                }
                self.lemma_agree(a, p);
            }
            assert(satisfies(a, lits));
            let i = choose|i: int| 0 <= i < lits.len() && #[trigger] lit_true(a, lits[i]);
            if lits[i] != lits[s] {
                lemma_other_is_parent(lits, s, i);
                assert(lit_ok(self.clauses@[c].literals[i], self.vars as nat));
                let w = var_of(lits[i]);
                assert(var_of(w as i32) == w);
                assert(a[w - 1] == self.assigns@[w - 1]);
                assert(!lit_true(self.assigns@, lits[i]));
                assert(false);
            }
        }
    }

    /// A clause whose literals are all false in the solver, yet true under an assignment that
    /// satisfies every stored clause, makes that assignment differ from the solver on one of
    /// the decisions behind the clause.
    proof fn lemma_conflict_entails(&self, a: Seq<i32>, lits: Seq<i32>)
        requires
            self.wf(),
            total(a, self.vars as nat),
            forall|c: int| 0 <= c < self.clauses@.len() ==> satisfies(a, #[trigger] self.clauses@[c].literals@),
            lits.len() == 3,
            forall|t: int| 0 <= t < 3 ==> #[trigger] lits[t] == 0 || (lit_ok(lits[t], self.vars as nat)
                && self.assigns@[var_of(lits[t]) - 1] != 0),
            !satisfies(self.assigns@, lits),
            satisfies(a, lits),
        ensures
            exists|r: i32| #[trigger] self.graph.conflict_roots(lits).contains(r) && a[r - 1] != self.assigns@[r - 1],
    {
        let roots = self.graph.conflict_roots(lits);
        if !exists|r: i32| #[trigger] roots.contains(r) && a[r - 1] != self.assigns@[r - 1] {
            let i = choose|i: int| 0 <= i < lits.len() && #[trigger] lit_true(a, lits[i]);
            let l = lits[i];
            let x = var_of(l) - 1;
            assert(lit_ok(lits[i], self.vars as nat));
            assert(self.graph@.dom().contains(x));
            let cone = self.graph.cone(lits);
            assert(self.graph.reach(l) == self.graph.ancestors(x).insert(x));
            assert(self.roots_agree(a, self.graph.ancestors(x).insert(x))) by {
                assert forall|y: int| #[trigger] self.graph.ancestors(x).insert(x).contains(y) && self.graph.is_root(y)
                    implies a[y] == self.assigns@[y] by {
                    assert(cone.contains(y));
                    if y != x {
                        assert(self.graph@.dom().contains(y)) by {
                            self.graph.lemma_ancestors_in_dom(x);
                        }
                    }
                    self.graph.lemma_dom_bounded();
                    assert(self.graph@.dom().contains(y));
                    assert(0 <= y < i32::MAX);
                    let r = (y + 1) as i32;
                    assert(r - 1 == y);
                    assert(roots.contains(r));
                }
            }
            self.lemma_agree(a, x);
            assert(!lit_true(self.assigns@, l));
        }
    }

    /// Storing clause `v` as `add_clause` does keeps the stored clauses the encoding of the
    /// clauses given.
    proof fn lemma_encoded_push(&self, old_s: SatSolver, v: Seq<i32>)
        requires
            old_s.encoded(),
            v.len() >= 4 ==> old_s.vars + added_vars(v) <= i32::MAX,
            self.inputs@ == old_s.inputs@.push(v),
            self.vars == old_s.vars + added_vars(v),
            self.clauses@.len() == old_s.clauses@.len() + stored_clauses(v, old_s.vars as int).len(),
            forall|c: int| 0 <= c < old_s.clauses@.len() ==> #[trigger] self.clauses@[c] == old_s.clauses@[c],
            forall|j: int| 0 <= j < stored_clauses(v, old_s.vars as int).len()
                ==> (#[trigger] self.clauses@[old_s.clauses@.len() + j]).literals@ == stored_clauses(v, old_s.vars as int)[j],
        ensures
            self.encoded(),
            self.vars - added_total(self.inputs@) == old_s.vars - added_total(old_s.inputs@),
    {
        let ins = self.inputs@;
        assert(ins.drop_last() =~= old_s.inputs@);
        assert(ins.last() == v);
        lemma_added_nonneg(old_s.inputs@);
        let o = old_s.vars - added_total(old_s.inputs@);
        assert(self.vars - added_total(ins) == o);
        let n0 = old_s.clauses@.len() as int;
        let m = self.clauses@.map_values(|c: Clause3| c.literals@);
        let m0 = old_s.clauses@.map_values(|c: Clause3| c.literals@);
        assert(encoding(ins, o) == encoding(old_s.inputs@, o) + stored_clauses(v, old_s.vars as int));
        assert forall|c: int| 0 <= c < m.len() implies #[trigger] m[c]
            == (m0 + stored_clauses(v, old_s.vars as int))[c] by {
            if c < n0 {
                assert(self.clauses@[c] == old_s.clauses@[c]);
            } else {
                assert(self.clauses@[n0 + (c - n0)].literals@ == stored_clauses(v, old_s.vars as int)[c - n0]);
            }
        }
        assert(m =~= m0 + stored_clauses(v, old_s.vars as int));
        assert forall|i: int| 0 <= i < ins.len() && (#[trigger] ins[i]).len() >= 4
            implies o + added_total(ins.take(i + 1)) <= i32::MAX by {
            if i < old_s.inputs@.len() {
                assert(ins.take(i + 1) =~= old_s.inputs@.take(i + 1));
                assert(ins[i] == old_s.inputs@[i]);
            } else {
                assert(ins.take(i + 1) =~= ins);
            }
        }
    }

    /// Growing the clause list and the variables keeps every stored clause stored.
    proof fn lemma_inputs_kept(&self, old_s: SatSolver)
        requires
            forall|i: int| 0 <= i < old_s.inputs@.len() ==> input_stored(old_s.clauses@, old_s.vars as int, #[trigger] old_s.inputs@[i]),
            self.inputs == old_s.inputs,
            self.clauses@.len() >= old_s.clauses@.len(),
            forall|c: int| 0 <= c < old_s.clauses@.len() ==> #[trigger] self.clauses@[c] == old_s.clauses@[c],
            self.vars >= old_s.vars,
        ensures
            forall|i: int| 0 <= i < self.inputs@.len() ==> input_stored(self.clauses@, self.vars as int, #[trigger] self.inputs@[i]),
    {
        assert forall|i: int| 0 <= i < self.inputs@.len() implies input_stored(self.clauses@, self.vars as int, #[trigger] self.inputs@[i]) by {
            let v = self.inputs@[i];
            assert(input_stored(old_s.clauses@, old_s.vars as int, old_s.inputs@[i]));
            let (st, b) = choose|st: int, b: int| stored_at(old_s.clauses@, old_s.vars as int, v, st, b);
            assert forall|j: int| 0 <= j < stored_clauses(v, b).len()
                implies (#[trigger] self.clauses@[st + j]).literals@ == stored_clauses(v, b)[j] by {
                assert(old_s.clauses@[st + j].literals@ == stored_clauses(v, b)[j]);
            }
            assert(stored_at(self.clauses@, self.vars as int, v, st, b));
        }
    }


    /// The implication graph has a node for exactly the assigned variables.
    closed spec fn graph_matches(&self) -> bool {
        forall|x: int| #[trigger] self.graph@.dom().contains(x) <==> (0 <= x < self.vars && self.assigns@[x] != 0)
    }

    /// Every working clause is its stored clause under the current assignment.
    closed spec fn ws_inv(&self) -> bool {
        &&& self.workspace@.len() == self.clauses@.len()
        &&& forall|c: int| 0 <= c < self.clauses@.len()
            ==> ws_ok(#[trigger] self.workspace@[c], self.clauses@[c].literals@, self.assigns@)
    }

    closed spec fn wf_core(&self) -> bool {
        &&& self.assigns@.len() == self.vars
        &&& self.var_to_clause@.len() == self.vars
        &&& forall|v: int| 0 <= v < self.vars ==> -1 <= #[trigger] self.assigns@[v] <= 1
        &&& forall|c: int| 0 <= c < self.clauses@.len() ==> !(#[trigger] self.clauses@[c]).sat
        &&& forall|c: int, i: int| 0 <= c < self.clauses@.len() && 0 <= i < 3
            ==> lit_ok(#[trigger] self.clauses@[c].literals[i], self.vars as nat)
        &&& forall|v: int, j: int| 0 <= v < self.vars && 0 <= j < self.var_to_clause@[v]@.len()
            ==> #[trigger] self.var_to_clause@[v]@[j] < self.clauses@.len()
        &&& forall|v: int, c: int| 0 <= v < self.vars && 0 <= c < self.clauses@.len()
            ==> #[trigger] self.var_to_clause@[v]@.to_multiset().count(c as usize)
                == npos(#[trigger] self.clauses@[c].literals@, v)
        &&& forall|v: int, i: int, j: int| #![trigger self.var_to_clause@[v]@[i], self.var_to_clause@[v]@[j]]
            0 <= v < self.vars && 0 <= i < j < self.var_to_clause@[v]@.len()
            ==> self.var_to_clause@[v]@[i] <= self.var_to_clause@[v]@[j]
        &&& self.graph.wf()
        &&& -1 <= self.sat <= 1
        &&& forall|i: int| 0 <= i < self.inputs@.len() ==> input_stored(self.clauses@, self.vars as int, #[trigger] self.inputs@[i])
        &&& forall|i: int| 0 <= i < self.inputs@.len() && (#[trigger] self.inputs@[i]).len() == 0 ==> self.sat == -1
    }

    /// Creates a solver for variables `1..=vn`, with no clauses, nothing assigned and the
    /// status undecided.
    pub fn new(vn: usize) -> (s: SatSolver)
        ensures
            s.wf(),
            s@.num_vars == vn,
            s@.clauses == Seq::<Clause3>::empty(),
            s@.assigns == Seq::new(vn as nat, |i: int| 0i32),
            s@.status == 0,
            s@.inputs == Seq::<Seq<i32>>::empty(),
            s@.base_vars == vn,
            s@.working == Seq::<Clause3>::empty(),
            s@.graph@ == Map::<int, (i32, i32)>::empty(),
            s@.graph.wf(),
            s@.graph.room() == vn,
            s@.graph.node_count() == 0,
            s@.graph.free_slots() == Seq::<usize>::empty(),
    {
        let mut var_to_clause: Vec<Vec<usize>> = Vec::new();
        let mut k: usize = 0;
        while k < vn
            invariant
                k <= vn,
                var_to_clause@.len() == k,
                forall|v: int| 0 <= v < k ==> (#[trigger] var_to_clause@[v])@.len() == 0,
            decreases vn - k,
        {
            var_to_clause.push(Vec::new());
            k = k + 1;
        }
        let s = SatSolver {
            vars: vn,
            clauses: Vec::new(),
            workspace: Vec::new(),
            assigns: vec![0; vn],
            var_to_clause: var_to_clause,
            graph: ImplicationGraph::new(vn),
            sat: 0,
            inputs: Ghost(Seq::empty()),
        };
        assert(s.assigns@ =~= Seq::new(vn as nat, |i: int| 0i32));
        assert(s.clauses@.map_values(|c: Clause3| c.literals@) =~= encoding(s.inputs@, vn as int));
        s
    }

    /// Stores a clause of three slots and records it in the occurrence list of each
    /// variable it names, once per slot.
    #[verifier::rlimit(40)]
    fn add_clause_3(&mut self, clause: [i32; 3])
        requires
            old(self).wf_parts(),
            forall|i: int| 0 <= i < 3 ==> lit_ok(#[trigger] clause[i], old(self).vars as nat),
            old(self).clauses@.len() < usize::MAX,
        ensures
            final(self).wf_parts(),
            final(self).vars == old(self).vars,
            final(self).assigns == old(self).assigns,
            final(self).sat == old(self).sat,
            final(self).inputs == old(self).inputs,
            final(self).graph == old(self).graph,
            final(self).workspace == old(self).workspace,
            final(self).clauses@.len() == old(self).clauses@.len() + 1,
            forall|c: int| 0 <= c < old(self).clauses@.len() ==> #[trigger] final(self).clauses@[c] == old(self).clauses@[c],
            final(self).clauses@.last().literals@ == clause@,
            !final(self).clauses@.last().sat,
    {
        let ghost old_s = *self;
        self.clauses.push(Clause3 { literals: clause, sat: false });
        let cid = self.clauses.len() - 1;
        let l0 = clause[0];
        if l0 != 0 {
            self.var_to_clause[lit2idx(l0)].push(cid);
        }
        let ghost s1 = *self;
        let l1 = clause[1];
        if l1 != 0 {
            self.var_to_clause[lit2idx(l1)].push(cid);
        }
        let ghost s2 = *self;
        let l2 = clause[2];
        if l2 != 0 {
            self.var_to_clause[lit2idx(l2)].push(cid);
        }
        proof {
            let n = old_s.clauses@.len();
            assert(self.clauses@[n as int].literals@ == clause@);
            assert forall|v: int| 0 <= v < self.vars implies #[trigger] self.var_to_clause@[v]@ == old_s.var_to_clause@[v]@
                + (if hits(clause[0], v) { seq![cid] } else { Seq::empty() })
                + (if hits(clause[1], v) { seq![cid] } else { Seq::empty() })
                + (if hits(clause[2], v) { seq![cid] } else { Seq::empty() }) by {
                assert(s1.var_to_clause@[v]@ =~= old_s.var_to_clause@[v]@
                    + (if hits(clause[0], v) { seq![cid] } else { Seq::empty() }));
                assert(s2.var_to_clause@[v]@ =~= s1.var_to_clause@[v]@
                    + (if hits(clause[1], v) { seq![cid] } else { Seq::empty() }));
                assert(self.var_to_clause@[v]@ =~= s2.var_to_clause@[v]@
                    + (if hits(clause[2], v) { seq![cid] } else { Seq::empty() }));
            }
            assert forall|v: int, j: int| 0 <= v < self.vars && 0 <= j < self.var_to_clause@[v]@.len()
                implies #[trigger] self.var_to_clause@[v]@[j] < self.clauses@.len() by {
                if j < old_s.var_to_clause@[v]@.len() {
                    assert(self.var_to_clause@[v]@[j] == old_s.var_to_clause@[v]@[j]);
                }
            }
            assert forall|v: int, i: int, j: int| #![trigger self.var_to_clause@[v]@[i], self.var_to_clause@[v]@[j]]
                0 <= v < self.vars && 0 <= i < j < self.var_to_clause@[v]@.len()
                implies self.var_to_clause@[v]@[i] <= self.var_to_clause@[v]@[j] by {
                let ol = old_s.var_to_clause@[v]@.len();
                if j < ol {
                    assert(self.var_to_clause@[v]@[i] == old_s.var_to_clause@[v]@[i]);
                    assert(self.var_to_clause@[v]@[j] == old_s.var_to_clause@[v]@[j]);
                } else if i < ol {
                    assert(self.var_to_clause@[v]@[i] == old_s.var_to_clause@[v]@[i]);
                    assert(old_s.var_to_clause@[v]@[i] < n);
                }
            }
            assert forall|v: int, c: int| 0 <= v < self.vars && 0 <= c < self.clauses@.len()
                implies #[trigger] self.var_to_clause@[v]@.to_multiset().count(c as usize)
                    == npos(#[trigger] self.clauses@[c].literals@, v) by {
                let o = old_s.var_to_clause@[v]@;
                let e0 = if hits(clause[0], v) { seq![cid] } else { Seq::<usize>::empty() };
                let e1 = if hits(clause[1], v) { seq![cid] } else { Seq::<usize>::empty() };
                let e2 = if hits(clause[2], v) { seq![cid] } else { Seq::<usize>::empty() };
                vstd::seq_lib::lemma_multiset_commutative(o, e0);
                vstd::seq_lib::lemma_multiset_commutative(o + e0, e1);
                vstd::seq_lib::lemma_multiset_commutative(o + e0 + e1, e2);
                assert(e0.to_multiset().count(c as usize) == (if hits(clause[0], v) && c == n { 1nat } else { 0nat })) by {
                    if hits(clause[0], v) { assert(e0 == Seq::<usize>::empty().push(cid)); }
                }
                assert(e1.to_multiset().count(c as usize) == (if hits(clause[1], v) && c == n { 1nat } else { 0nat })) by {
                    if hits(clause[1], v) { assert(e1 == Seq::<usize>::empty().push(cid)); }
                }
                assert(e2.to_multiset().count(c as usize) == (if hits(clause[2], v) && c == n { 1nat } else { 0nat })) by {
                    if hits(clause[2], v) { assert(e2 == Seq::<usize>::empty().push(cid)); }
                }
                if c < n {
                    assert(o.to_multiset().count(c as usize) == npos(old_s.clauses@[c].literals@, v));
                    assert(self.clauses@[c] == old_s.clauses@[c]);
                } else {
                    assert(!o.contains(c as usize)) by {
                        if o.contains(c as usize) {
                            let j = choose|j: int| 0 <= j < o.len() && o[j] == c as usize;
                            assert(old_s.var_to_clause@[v]@[j] < n);
                        }
                    }
                }
            }
            assert forall|c: int, i: int| 0 <= c < self.clauses@.len() && 0 <= i < 3
                implies lit_ok(#[trigger] self.clauses@[c].literals[i], self.vars as nat) by {
                if c < n {
                    assert(self.clauses@[c] == old_s.clauses@[c]);
                }
            }
            self.lemma_inputs_kept(old_s);
            self.lemma_reasons_kept(old_s);
        }
    }

    /// Adds a new variable, unassigned and in no clause.
    fn increase_vars(&mut self)
        requires
            old(self).wf_parts(),
            old(self).vars < i32::MAX,
        ensures
            final(self).wf_parts(),
            final(self).vars == old(self).vars + 1,
            final(self).assigns@ == old(self).assigns@.push(0),
            final(self).clauses == old(self).clauses,
            final(self).sat == old(self).sat,
            final(self).inputs == old(self).inputs,
            final(self).graph == old(self).graph,
            final(self).workspace == old(self).workspace,
    {
        let ghost old_s = *self;
        self.vars = self.vars + 1;
        self.assigns.push(0);
        self.var_to_clause.push(Vec::new());
        proof {
            let n = old_s.vars as int;
            assert forall|v: int, c: int| 0 <= v < self.vars && 0 <= c < self.clauses@.len()
                implies #[trigger] self.var_to_clause@[v]@.to_multiset().count(c as usize)
                    == npos(#[trigger] self.clauses@[c].literals@, v) by {
                if v == n {
                    assert(self.var_to_clause@[v]@ =~= Seq::<usize>::empty());
                    assert(lit_ok(self.clauses@[c].literals[0], old_s.vars as nat));
                    assert(lit_ok(self.clauses@[c].literals[1], old_s.vars as nat));
                    assert(lit_ok(self.clauses@[c].literals[2], old_s.vars as nat));
                } else {
                    assert(self.var_to_clause@[v] == old_s.var_to_clause@[v]);
                }
            }
            assert forall|v: int, j: int| 0 <= v < self.vars && 0 <= j < self.var_to_clause@[v]@.len()
                implies #[trigger] self.var_to_clause@[v]@[j] < self.clauses@.len() by {
                assert(v < n);
                assert(self.var_to_clause@[v] == old_s.var_to_clause@[v]);
            }
            assert forall|v: int, i: int, j: int| #![trigger self.var_to_clause@[v]@[i], self.var_to_clause@[v]@[j]]
                0 <= v < self.vars && 0 <= i < j < self.var_to_clause@[v]@.len()
                implies self.var_to_clause@[v]@[i] <= self.var_to_clause@[v]@[j] by {
                assert(v < n);
                assert(self.var_to_clause@[v] == old_s.var_to_clause@[v]);
            }
            assert forall|c: int, i: int| 0 <= c < self.clauses@.len() && 0 <= i < 3
                implies lit_ok(#[trigger] self.clauses@[c].literals[i], self.vars as nat) by {
                assert(lit_ok(self.clauses@[c].literals[i], old_s.vars as nat));
            }
            assert forall|x: int| #[trigger] self.graph@.dom().contains(x)
                <==> (0 <= x < self.vars && self.assigns@[x] != 0) by {
                if x == n {
                    assert(!old_s.graph@.dom().contains(x));
                }
            }
            self.lemma_inputs_kept(old_s);
            self.lemma_reasons_kept(old_s);
        }
    }

    /// Stores a clause of four or more literals as its chain encoding, with new variables.
    fn add_general_clause(&mut self, v: Vec<i32>)
        requires
            old(self).wf_parts(),
            v@.len() >= 4,
            forall|i: int| 0 <= i < v@.len() ==> lit_ok(#[trigger] v@[i], (old(self).vars + allowance(v@.len() as int, i)) as nat),
            old(self).vars + fresh_count(v@.len() as int) <= i32::MAX,
            old(self).clauses@.len() + v@.len() < usize::MAX,
        ensures
            final(self).wf_parts(),
            final(self).vars == old(self).vars + fresh_count(v@.len() as int),
            final(self).assigns@ == old(self).assigns@ + Seq::new(fresh_count(v@.len() as int) as nat, |i: int| 0i32),
            final(self).clauses@.len() == old(self).clauses@.len() + fresh_count(v@.len() as int) + 1,
            forall|c: int| 0 <= c < old(self).clauses@.len() ==> #[trigger] final(self).clauses@[c] == old(self).clauses@[c],
            forall|j: int| 0 <= j <= fresh_count(v@.len() as int) ==>
                (#[trigger] final(self).clauses@[old(self).clauses@.len() + j]).literals@
                    == chain_clause(v@, old(self).vars as int, j),
            final(self).sat == old(self).sat,
            final(self).inputs == old(self).inputs,
            final(self).graph == old(self).graph,
            final(self).workspace == old(self).workspace,
    {
        let ghost old_s = *self;
        let ghost base = old_s.vars as int;
        let ghost n0 = old_s.clauses@.len() as int;
        let ghost n = v@.len() as int;
        let ghost k = fresh_count(n);
        self.increase_vars();
        self.add_clause_3([v[0], v[1], self.vars as i32]);
        assert([v[0], v[1], (base + 1) as i32]@ == chain_clause(v@, base, 0));
        let end: usize = if v.len() % 2 == 0 { v.len() } else { v.len() - 1 };
        for i in 2..end
            invariant
                n == v@.len(),
                n0 == old_s.clauses@.len(),
                n >= 4,
                k == fresh_count(n),
                end == (if n % 2 == 0 { n } else { n - 1 }),
                base + k <= i32::MAX,
                n0 + n < usize::MAX,
                forall|t: int| 0 <= t < v@.len() ==> lit_ok(#[trigger] v@[t], (base + allowance(n, t)) as nat),
                self.wf_parts(),
                self.vars == base + i - 1,
                self.assigns@ == old_s.assigns@ + Seq::new((i - 1) as nat, |t: int| 0i32),
                self.clauses@.len() == n0 + i - 1,
                forall|c: int| 0 <= c < n0 ==> #[trigger] self.clauses@[c] == old_s.clauses@[c],
                forall|j: int| 0 <= j < i - 1 ==> (#[trigger] self.clauses@[n0 + j]).literals@ == chain_clause(v@, base, j),
                self.sat == old_s.sat,
                self.inputs == old_s.inputs,
                self.graph == old_s.graph,
                self.workspace == old_s.workspace,
        {
            let ghost before = *self;
            self.increase_vars();
            let ghost mid = *self;
            assert(mid.clauses@ == before.clauses@);
            assert(lit_ok(v@[i as int], (base + allowance(n, i as int)) as nat));
            let c: [i32; 3] = [-((self.vars - 1) as i32), v[i], self.vars as i32];
            assert(c@ == chain_clause(v@, base, i - 1));
            self.add_clause_3(c);
            assert(self.assigns@ =~= old_s.assigns@ + Seq::new(i as nat, |t: int| 0i32));
            assert forall|j: int| 0 <= j < i implies (#[trigger] self.clauses@[n0 + j]).literals@ == chain_clause(v@, base, j) by {
                if j < i - 1 {
                    assert(self.clauses@[n0 + j] == mid.clauses@[n0 + j]);
                }
            }
        }
        let ghost before = *self;
        assert(self.vars == base + k);
        if v.len() % 2 == 0 {
            let c: [i32; 3] = [-(self.vars as i32), v[v.len() - 1], 0];
            assert(c@ == chain_clause(v@, base, k));
            self.add_clause_3(c);
        } else {
            let c: [i32; 3] = [-(self.vars as i32), v[v.len() - 1], v[v.len() - 2]];
            assert(c@ == chain_clause(v@, base, k));
            self.add_clause_3(c);
        }
        assert forall|j: int| 0 <= j <= k implies (#[trigger] self.clauses@[n0 + j]).literals@ == chain_clause(v@, base, j) by {
            if j < k {
                assert(self.clauses@[n0 + j] == before.clauses@[n0 + j]);
            }
        }
    }

    /// Stores a clause, given as a list of literals: an empty clause makes the problem
    /// unsatisfiable, up to three literals are stored as one clause, and more are stored
    /// as their chain encoding.
    pub fn add_clause(&mut self, v: Vec<i32>)
        requires
            old(self).wf(),
            can_add(v@, old(self)@.num_vars as int, old(self)@.clauses.len() as int),
        ensures
            final(self).wf(),
            final(self)@.inputs == old(self)@.inputs.push(v@),
            final(self)@.base_vars == old(self)@.base_vars,
            final(self)@.working == old(self)@.working,
            final(self)@.graph == old(self)@.graph,
            final(self)@.status == (if v@.len() == 0 { -1i32 } else { old(self)@.status }),
            final(self)@.num_vars == old(self)@.num_vars + added_vars(v@),
            final(self)@.assigns == old(self)@.assigns + Seq::new(added_vars(v@) as nat, |i: int| 0i32),
            final(self)@.clauses.len() == old(self)@.clauses.len()
                + stored_clauses(v@, old(self)@.num_vars as int).len(),
            forall|c: int| 0 <= c < old(self)@.clauses.len() ==> #[trigger] final(self)@.clauses[c] == old(self)@.clauses[c],
            forall|j: int| 0 <= j < stored_clauses(v@, old(self)@.num_vars as int).len() ==>
                (#[trigger] final(self)@.clauses[old(self)@.clauses.len() + j]).literals@
                    == stored_clauses(v@, old(self)@.num_vars as int)[j]
                && !final(self)@.clauses[old(self)@.clauses.len() + j].sat,
    {
        let ghost old_s = *self;
        let ghost vv = v@;
        if v.len() < 1 {
            self.sat = -1;
            self.inputs = Ghost(self.inputs@.push(v@));
            assert(self.assigns@ =~= old_s.assigns@ + Seq::new(0nat, |i: int| 0i32));
            proof {
                assert(self.clauses@.len() == old_s.clauses@.len() + stored_clauses(vv, old_s.vars as int).len());
                self.lemma_encoded_push(old_s, vv);
                assert(stored_at(self.clauses@, self.vars as int, vv, 0, 0));
                assert forall|i: int| 0 <= i < self.inputs@.len() implies input_stored(self.clauses@, self.vars as int, #[trigger] self.inputs@[i]) by {
                    if i < old_s.inputs@.len() {
                        assert(input_stored(old_s.clauses@, old_s.vars as int, old_s.inputs@[i]));
                    }
                }
            }
            return;
        }
        match v.len() {
            1 => self.add_clause_3([v[0], 0, 0]),
            2 => self.add_clause_3([v[0], v[1], 0]),
            3 => self.add_clause_3([v[0], v[1], v[2]]),
            _ => self.add_general_clause(v),
        }
        let ghost mid = *self;
        self.inputs = Ghost(self.inputs@.push(vv));
        proof {
            let st = old_s.clauses@.len() as int;
            let b = old_s.vars as int;
            if vv.len() <= 3 {
                assert(self.assigns@ =~= old_s.assigns@ + Seq::new(0nat, |i: int| 0i32));
                assert(self.clauses@[old_s.clauses@.len() as int].literals@ =~= pad3(vv));
            }
            assert(stored_at(self.clauses@, self.vars as int, vv, st, b));
            self.lemma_encoded_push(old_s, vv);
            assert forall|i: int| 0 <= i < self.inputs@.len() implies input_stored(self.clauses@, self.vars as int, #[trigger] self.inputs@[i]) by {
                if i < old_s.inputs@.len() {
                    assert(input_stored(mid.clauses@, mid.vars as int, mid.inputs@[i]));
                    let (s1, b1) = choose|s1: int, b1: int| stored_at(mid.clauses@, mid.vars as int, mid.inputs@[i], s1, b1);
                    assert(stored_at(self.clauses@, self.vars as int, self.inputs@[i], s1, b1));
                } else {
                    assert(stored_at(self.clauses@, self.vars as int, self.inputs@[i], st, b));
                }
            }
        }
    }

    /// Gives `literal`'s variable the value that makes `literal` true, and updates every
    /// working clause in which the variable occurs.
    fn set_literal(&mut self, literal: i32)
        requires
            old(self).wf_core(),
            forall|j: int| 0 <= j < old(self).var_to_clause@[var_of(literal) - 1]@.len()
                ==> #[trigger] old(self).var_to_clause@[var_of(literal) - 1]@[j] < old(self).workspace@.len(),
            literal != 0,
            lit_ok(literal, old(self).vars as nat),
            old(self).assigns@[var_of(literal) - 1] == 0,
        ensures
            final(self).wf_core(),
            old(self).ws_inv() ==> final(self).ws_inv(),
            final(self).assigns@ == old(self).assigns@.update(var_of(literal) - 1, sign_of(literal)),
            final(self).vars == old(self).vars,
            final(self).clauses == old(self).clauses,
            final(self).var_to_clause == old(self).var_to_clause,
            final(self).graph == old(self).graph,
            final(self).sat == old(self).sat,
            final(self).inputs == old(self).inputs,
            forall|c: int| 0 <= c < old(self).workspace@.len() && old(self).workspace@[c].sat
                ==> #[trigger] final(self).workspace@[c].sat,
            old(self).ws_inv() ==> forall|c: int, i: int| 0 <= c < old(self).workspace@.len() && 0 <= i < 3
                && #[trigger] old(self).clauses@[c].literals[i] == literal ==> final(self).workspace@[c].sat,
            final(self).workspace@.len() == old(self).workspace@.len(),
            forall|c: int| 0 <= c < old(self).workspace@.len() ==> cview(#[trigger] final(self).workspace@[c])
                == strikes(cview(old(self).workspace@[c]), literal,
                    old(self).var_to_clause@[var_of(literal) - 1]@.to_multiset().count(c as usize)),
            forall|c: int| 0 <= c < old(self).workspace@.len() && c < old(self).clauses@.len() ==> cview(#[trigger] final(self).workspace@[c])
                == strikes(cview(old(self).workspace@[c]), literal, npos(old(self).clauses@[c].literals@, var_of(literal) - 1)),
    {
        let ghost old_s = *self;
        let ghost v = var_of(literal) - 1;
        let idx = lit2idx(literal);
        self.assigns.set(idx, signum(literal));
        let ghost occ = self.var_to_clause@[v]@;
        let n = self.var_to_clause[idx].len();
        let mut j: usize = 0;
        assert forall|c: int| 0 <= c < self.workspace@.len() implies cview(#[trigger] self.workspace@[c])
            == strikes(cview(old_s.workspace@[c]), literal, occ.take(0).to_multiset().count(c as usize)) by {
            assert(occ.take(0) =~= Seq::<usize>::empty());
        }
        while j < n
            invariant
                self.wf_core(),
                old_s.wf_core(),
                forall|jj: int| 0 <= jj < occ.len() ==> #[trigger] occ[jj] < old_s.workspace@.len(),
                idx == v,
                literal != 0,
                lit_ok(literal, self.vars as nat),
                v == var_of(literal) - 1,
                0 <= v < self.vars,
                j <= n,
                n == occ.len(),
                occ == self.var_to_clause@[v]@,
                self.assigns@ == old_s.assigns@.update(v, sign_of(literal)),
                self.vars == old_s.vars,
                self.clauses == old_s.clauses,
                self.var_to_clause == old_s.var_to_clause,
                self.graph == old_s.graph,
                self.sat == old_s.sat,
                self.inputs == old_s.inputs,
                self.workspace@.len() == old_s.workspace@.len(),
                forall|c: int| 0 <= c < self.workspace@.len() ==> cview(#[trigger] self.workspace@[c])
                    == strikes(cview(old_s.workspace@[c]), literal, occ.take(j as int).to_multiset().count(c as usize)),
            decreases n - j,
        {
            let c_id = self.var_to_clause[idx][j];
            assert(c_id < self.workspace@.len());
            let mut c = self.workspace[c_id];
            let ghost before = cview(c);
            if !c.sat {
                if c.literals[0] == literal {
                    c.literals[0] = 0;
                    c.sat = true;
                } else if c.literals[0] == -literal {
                    c.literals[0] = 0;
                } else if c.literals[1] == literal {
                    c.literals[1] = 0;
                    c.sat = true;
                } else if c.literals[1] == -literal {
                    c.literals[1] = 0;
                } else if c.literals[2] == literal {
                    c.literals[2] = 0;
                    c.sat = true;
                } else if c.literals[2] == -literal {
                    c.literals[2] = 0;
                }
            }
            assert(cview(c).0 =~= strike(before, literal).0);
            self.workspace.set(c_id, c);
            proof {
                assert(occ.take(j + 1) == occ.take(j as int).push(c_id));
                assert(occ.take(j as int).push(c_id).to_multiset() == occ.take(j as int).to_multiset().insert(c_id));
                assert forall|cc: int| 0 <= cc < self.workspace@.len() implies cview(#[trigger] self.workspace@[cc])
                    == strikes(cview(old_s.workspace@[cc]), literal, occ.take(j + 1).to_multiset().count(cc as usize)) by {
                    let m = occ.take(j as int).to_multiset();
                    assert(cc < self.workspace.len());
                    if cc != c_id {
                        assert((cc as usize) != c_id);
                        assert(m.insert(c_id).count(cc as usize) == m.count(cc as usize));
                    } else {
                        assert(m.insert(c_id).count(cc as usize) == m.count(cc as usize) + 1);
                    }
                }
            }
            j = j + 1;
        }
        proof {
            assert(occ.take(n as int) == occ);
            assert forall|c: int| 0 <= c < old_s.workspace@.len() && c < old_s.clauses@.len() implies cview(#[trigger] self.workspace@[c])
                == strikes(cview(old_s.workspace@[c]), literal, npos(old_s.clauses@[c].literals@, v)) by {
                assert(occ.to_multiset().count(c as usize) == npos(old_s.clauses@[c].literals@, v));
            }
            assert forall|c: int| 0 <= c < old_s.workspace@.len() && old_s.workspace@[c].sat
                implies #[trigger] self.workspace@[c].sat by {
                lemma_strikes_sat(cview(old_s.workspace@[c]), literal, occ.to_multiset().count(c as usize));
            }
          if old_s.ws_inv() {
            assert forall|c: int| 0 <= c < self.clauses@.len() implies ws_ok(#[trigger] self.workspace@[c], self.clauses@[c].literals@, self.assigns@)
                && (old_s.workspace@[c].sat ==> self.workspace@[c].sat)
                && (old_s.clauses@[c].literals[0] == literal || old_s.clauses@[c].literals[1] == literal
                    || old_s.clauses@[c].literals[2] == literal ==> self.workspace@[c].sat) by {
                let lits = self.clauses@[c].literals@;
                assert(lit_ok(self.clauses@[c].literals[0], self.vars as nat));
                assert(lit_ok(self.clauses@[c].literals[1], self.vars as nat));
                assert(lit_ok(self.clauses@[c].literals[2], self.vars as nat));
                assert(occ.to_multiset().count(c as usize) == npos(lits, v));
                assert(ws_ok(old_s.workspace@[c], lits, old_s.assigns@));
                lemma_strikes(lits, old_s.assigns@, old_s.workspace@[c], literal);
            }
            assert forall|c: int, i: int| 0 <= c < old_s.workspace@.len() && 0 <= i < 3
                && #[trigger] old_s.clauses@[c].literals[i] == literal implies self.workspace@[c].sat by {
                assert(old_s.clauses@[c].literals[0] == literal || old_s.clauses@[c].literals[1] == literal
                    || old_s.clauses@[c].literals[2] == literal);
            }
          }
        }
    }

    /// Unassigns variable index `idx` and recomputes, from its stored clause, every working
    /// clause in which the variable occurs.
    #[verifier::rlimit(30)]
    fn unset_var(&mut self, idx: usize)
        requires
            old(self).wf_core(),
            idx < old(self).vars,
            forall|j: int| 0 <= j < old(self).var_to_clause@[idx as int]@.len()
                ==> #[trigger] old(self).var_to_clause@[idx as int]@[j] < old(self).workspace@.len(),
        ensures
            final(self).wf_core(),
            old(self).ws_inv() ==> final(self).ws_inv(),
            final(self).assigns@ == old(self).assigns@.update(idx as int, 0),
            final(self).vars == old(self).vars,
            final(self).clauses == old(self).clauses,
            final(self).var_to_clause == old(self).var_to_clause,
            final(self).graph == old(self).graph,
            final(self).sat == old(self).sat,
            final(self).inputs == old(self).inputs,
            final(self).workspace@.len() == old(self).workspace@.len(),
            forall|c: int| 0 <= c < old(self).workspace@.len() ==> if c < old(self).clauses@.len()
                && npos(old(self).clauses@[c].literals@, idx as int) > 0 {
                cview(#[trigger] final(self).workspace@[c]) == refresh(old(self).clauses@[c].literals@, final(self).assigns@)
            } else {
                final(self).workspace@[c] == old(self).workspace@[c]
            },
    {
        let ghost old_s = *self;
        self.assigns.set(idx, 0);
        let ghost occ = self.var_to_clause@[idx as int]@;
        let n = self.var_to_clause[idx].len();
        let mut j: usize = 0;
        while j < n
            invariant
                self.wf_core(),
                old_s.wf_core(),
                forall|jj: int| 0 <= jj < occ.len() ==> #[trigger] occ[jj] < old_s.workspace@.len(),
                idx < self.vars,
                j <= n,
                n == occ.len(),
                occ == self.var_to_clause@[idx as int]@,
                self.assigns@ == old_s.assigns@.update(idx as int, 0),
                self.vars == old_s.vars,
                self.clauses == old_s.clauses,
                self.var_to_clause == old_s.var_to_clause,
                self.graph == old_s.graph,
                self.sat == old_s.sat,
                self.inputs == old_s.inputs,
                self.workspace@.len() == old_s.workspace@.len(),
                forall|c: int| 0 <= c < self.workspace@.len() ==> #[trigger] self.workspace@[c] == old_s.workspace@[c]
                    || (occ.take(j as int).contains(c as usize)
                        && cview(self.workspace@[c]) == refresh(self.clauses@[c].literals@, self.assigns@)),
                forall|c: int| 0 <= c < self.workspace@.len() && #[trigger] occ.take(j as int).contains(c as usize)
                    ==> cview(self.workspace@[c]) == refresh(self.clauses@[c].literals@, self.assigns@),
            decreases n - j,
        {
            let c_id = self.var_to_clause[idx][j];
            assert(c_id < self.clauses@.len());
            assert(c_id < self.workspace@.len());
            let mut w = self.clauses[c_id];
            let ghost lits = w.literals@;
            proof {
                assert(lit_ok(w.literals[0], self.vars as nat));
                assert(lit_ok(w.literals[1], self.vars as nat));
                assert(lit_ok(w.literals[2], self.vars as nat));
            }
            let l0 = w.literals[0];
            if l0 != 0 {
                if signum(l0) == self.assigns[lit2idx(l0)] {
                    w.sat = true;
                    w.literals[0] = 0;
                } else if signum(l0) == -self.assigns[lit2idx(l0)] {
                    w.literals[0] = 0;
                }
            }
            let l1 = w.literals[1];
            if l1 != 0 {
                if signum(l1) == self.assigns[lit2idx(l1)] {
                    w.sat = true;
                    w.literals[1] = 0;
                } else if signum(l1) == -self.assigns[lit2idx(l1)] {
                    w.literals[1] = 0;
                }
            }
            let l2 = w.literals[2];
            if l2 != 0 {
                if signum(l2) == self.assigns[lit2idx(l2)] {
                    w.sat = true;
                    w.literals[2] = 0;
                } else if signum(l2) == -self.assigns[lit2idx(l2)] {
                    w.literals[2] = 0;
                }
            }
            proof {
                let a = self.assigns@;
                assert(-1 <= a[var_of(lits[0]) - 1] <= 1 || lits[0] == 0);
                assert(-1 <= a[var_of(lits[1]) - 1] <= 1 || lits[1] == 0);
                assert(-1 <= a[var_of(lits[2]) - 1] <= 1 || lits[2] == 0);
                assert(w.literals@ =~= refresh(lits, a).0);
                assert(w.sat == satisfies(a, lits)) by {
                    if satisfies(a, lits) {
                        let i = choose|i: int| 0 <= i < lits.len() && #[trigger] lit_true(a, lits[i]);
                    }
                    if w.sat {
                        if lit_true(a, lits[0]) {} else if lit_true(a, lits[1]) {} else {
                            assert(lit_true(a, lits[2]));
                        }
                    }
                }
            }
            self.workspace.set(c_id, w);
            proof {
                assert(occ.take(j + 1) == occ.take(j as int).push(c_id));
                assert forall|c: int| 0 <= c < self.workspace@.len() && #[trigger] occ.take(j + 1).contains(c as usize)
                    implies cview(self.workspace@[c]) == refresh(self.clauses@[c].literals@, self.assigns@) by {
                    assert(c < self.workspace.len());
                    if c as usize != c_id {
                        let k = choose|k: int| 0 <= k < j + 1 && #[trigger] occ.take(j + 1)[k] == c as usize;
                        assert(k < j);
                        assert(occ.take(j as int)[k] == c as usize);
                        assert(occ.take(j as int).contains(c as usize));
                    }
                }
                assert forall|c: int| 0 <= c < self.workspace@.len() implies #[trigger] self.workspace@[c] == old_s.workspace@[c]
                    || (occ.take(j + 1).contains(c as usize)
                        && cview(self.workspace@[c]) == refresh(self.clauses@[c].literals@, self.assigns@)) by {
                    assert(c < self.workspace.len());
                    if c as usize == c_id {
                        assert(occ.take(j + 1)[j as int] == c_id);
                        assert(occ.take(j + 1).contains(c as usize));
                    } else if occ.take(j as int).contains(c as usize) {
                        let k = choose|k: int| 0 <= k < j && #[trigger] occ.take(j as int)[k] == c as usize;
                        assert(occ.take(j + 1)[k] == c as usize);
                        assert(occ.take(j + 1).contains(c as usize));
                    }
                }
            }
            j = j + 1;
        }
        proof {
            assert(occ.take(n as int) == occ);
          if old_s.ws_inv() {
            assert forall|c: int| 0 <= c < self.clauses@.len() implies ws_ok(#[trigger] self.workspace@[c], self.clauses@[c].literals@, self.assigns@) by {
                let lits = self.clauses@[c].literals@;
                assert(c < self.workspace.len());
                if occ.contains(c as usize) {
                    assert(cview(self.workspace@[c]) == refresh(lits, self.assigns@));
                } else {
                    assert(occ.to_multiset().count(c as usize) == npos(lits, idx as int));
                    assert(lit_ok(self.clauses@[c].literals[0], self.vars as nat));
                    assert(lit_ok(self.clauses@[c].literals[1], self.vars as nat));
                    assert(lit_ok(self.clauses@[c].literals[2], self.vars as nat));
                    lemma_unrelated(lits, old_s.assigns@, idx as int, 0);
                    assert(ws_ok(old_s.workspace@[c], lits, old_s.assigns@));
                }
            }
          }
            assert forall|c: int| 0 <= c < old_s.workspace@.len() implies if c < old_s.clauses@.len()
                && npos(old_s.clauses@[c].literals@, idx as int) > 0 {
                cview(#[trigger] self.workspace@[c]) == refresh(old_s.clauses@[c].literals@, self.assigns@)
            } else {
                self.workspace@[c] == old_s.workspace@[c]
            } by {
                if c < old_s.clauses@.len() {
                    assert(occ.to_multiset().count(c as usize) == npos(old_s.clauses@[c].literals@, idx as int));
                } else if occ.contains(c as usize) {
                    let jj = choose|jj: int| 0 <= jj < occ.len() && occ[jj] == c as usize;
                    assert(old_s.var_to_clause@[idx as int]@[jj] < old_s.clauses@.len());
                    assert(occ[jj] == old_s.var_to_clause@[idx as int]@[jj]);
                    assert(c < old_s.workspace.len());
                    assert((c as usize) as int == c);
                }
                if !occ.contains(c as usize) {
                    assert(self.workspace@[c] == old_s.workspace@[c]);
                }
                if occ.contains(c as usize) {
                    assert(cview(self.workspace@[c]) == refresh(old_s.clauses@[c].literals@, self.assigns@));
                }
            }
        }
    }

    /// Unassigns the variables numbered in `vars`.
    fn unset_vars(&mut self, vars: Vec<i32>)
        requires
            old(self).wf_core(),
            old(self).ws_inv(),
            forall|i: int| 0 <= i < vars@.len() ==> 0 < #[trigger] vars@[i] <= old(self).vars,
        ensures
            final(self).wf_core(),
            final(self).ws_inv(),
            forall|x: int| 0 <= x < old(self).vars ==> #[trigger] final(self).assigns@[x]
                == (if names(vars@, x) { 0i32 } else { old(self).assigns@[x] }),
            final(self).assigns@.len() == old(self).assigns@.len(),
            final(self).vars == old(self).vars,
            final(self).clauses == old(self).clauses,
            final(self).var_to_clause == old(self).var_to_clause,
            final(self).graph == old(self).graph,
            final(self).sat == old(self).sat,
            final(self).inputs == old(self).inputs,
            final(self).workspace@.len() == old(self).workspace@.len(),
            forall|c: int| 0 <= c < old(self).workspace@.len() ==>
                if touches(old(self).clauses@[c].literals@, Set::new(|x: int| names(vars@, x))) {
                    cview(#[trigger] final(self).workspace@[c]) == refresh(old(self).clauses@[c].literals@, final(self).assigns@)
                } else {
                    final(self).workspace@[c] == old(self).workspace@[c]
                },
    {
        let ghost old_s = *self;
        let mut i: usize = 0;
        while i < vars.len()
            invariant
                self.wf_core(),
                self.ws_inv(),
                i <= vars@.len(),
                forall|k: int| 0 <= k < vars@.len() ==> 0 < #[trigger] vars@[k] <= old_s.vars,
                forall|x: int| 0 <= x < old_s.vars ==> #[trigger] self.assigns@[x]
                    == (if names(vars@.take(i as int), x) { 0i32 } else { old_s.assigns@[x] }),
                self.assigns@.len() == old_s.assigns@.len(),
                self.vars == old_s.vars,
                self.clauses == old_s.clauses,
                self.var_to_clause == old_s.var_to_clause,
                self.graph == old_s.graph,
                self.sat == old_s.sat,
                self.inputs == old_s.inputs,
                self.workspace@.len() == old_s.workspace@.len(),
                forall|c: int| 0 <= c < old_s.workspace@.len() ==>
                    if touches(old_s.clauses@[c].literals@, Set::new(|x: int| names(vars@.take(i as int), x))) {
                        cview(#[trigger] self.workspace@[c]) == refresh(old_s.clauses@[c].literals@, self.assigns@)
                    } else {
                        self.workspace@[c] == old_s.workspace@[c]
                    },
            decreases vars@.len() - i,
        {
            let l = vars[i];
            let ghost before = self.assigns@;
            let ghost bws = self.workspace@;
            self.unset_var(lit2idx(l) as usize);
            proof {
                assert(vars@.take(i + 1) == vars@.take(i as int).push(l));
                assert forall|x: int| 0 <= x < old_s.vars implies #[trigger] self.assigns@[x]
                    == (if names(vars@.take(i + 1), x) { 0i32 } else { old_s.assigns@[x] }) by {
                    if x == l - 1 {
                        assert(vars@.take(i + 1)[i as int] == l);
                    } else {
                        assert(self.assigns@[x] == before[x]);
                        if names(vars@.take(i + 1), x) {
                            let k = choose|k: int| 0 <= k < i + 1 && #[trigger] vars@.take(i + 1)[k] == x + 1;
                            assert(vars@.take(i as int)[k] == x + 1);
                        }
                        if names(vars@.take(i as int), x) {
                            let k = choose|k: int| 0 <= k < i && #[trigger] vars@.take(i as int)[k] == x + 1;
                            assert(vars@.take(i + 1)[k] == x + 1);
                        }
                    }
                }
                let s0 = Set::new(|x: int| names(vars@.take(i as int), x));
                let s1 = Set::new(|x: int| names(vars@.take(i + 1), x));
                assert forall|x: int| #[trigger] s1.contains(x) == (s0.contains(x) || x == l - 1) by {
                    if names(vars@.take(i + 1), x) {
                        let k = choose|k: int| 0 <= k < i + 1 && #[trigger] vars@.take(i + 1)[k] == x + 1;
                        if k < i {
                            assert(vars@.take(i as int)[k] == x + 1);
                        }
                    }
                    if names(vars@.take(i as int), x) {
                        let k = choose|k: int| 0 <= k < i && #[trigger] vars@.take(i as int)[k] == x + 1;
                        assert(vars@.take(i + 1)[k] == x + 1);
                    }
                    if x == l - 1 {
                        assert(vars@.take(i + 1)[i as int] == x + 1);
                    }
                }
                assert forall|c: int| 0 <= c < old_s.workspace@.len() implies
                    if touches(old_s.clauses@[c].literals@, s1) {
                        cview(#[trigger] self.workspace@[c]) == refresh(old_s.clauses@[c].literals@, self.assigns@)
                    } else {
                        self.workspace@[c] == old_s.workspace@[c]
                    } by {
                    let lits = old_s.clauses@[c].literals@;
                    assert(lit_ok(old_s.clauses@[c].literals[0], old_s.vars as nat));
                    assert(lit_ok(old_s.clauses@[c].literals[1], old_s.vars as nat));
                    assert(lit_ok(old_s.clauses@[c].literals[2], old_s.vars as nat));
                    if npos(lits, l - 1) > 0 {
                        assert(touches(lits, s1));
                    } else {
                        assert(bws[c] == self.workspace@[c]);
                        if touches(lits, s0) {
                            assert forall|t: int| 0 <= t < 3 implies #[trigger] lits[t] == 0
                                || before[var_of(lits[t]) - 1] == self.assigns@[var_of(lits[t]) - 1] by {
                                assert(!hits(lits[t], l - 1));
                            }
                            lemma_refresh_agree(lits, before, self.assigns@);
                        }
                    }
                }
            }
            i = i + 1;
        }
        assert(vars@.take(vars@.len() as int) == vars@);
    }

    /// Records in the graph that `literal` was implied by clause `clause`.
    fn add_propagation_to_graph(&mut self, literal: i32, clause: usize)
        requires
            old(self).graph.wf(),
            clause < old(self).clauses@.len(),
            literal != 0,
            literal != i32::MIN,
            forall|i: int| 0 <= i < 3 ==> #[trigger] old(self).clauses@[clause as int].literals[i] != i32::MIN,
            exists|i: int| 0 <= i < 3 && #[trigger] old(self).clauses@[clause as int].literals[i] == literal,
            forall|i: int| 0 <= i < 3 && #[trigger] old(self).clauses@[clause as int].literals[i] != literal
                ==> old(self).clauses@[clause as int].literals[i] == 0
                || old(self).graph@.dom().contains(var_of(old(self).clauses@[clause as int].literals[i]) - 1),
        ensures
            !old(self).graph@.dom().contains(var_of(literal) - 1) ==> final(self).graph.wf(),
            final(self).graph@ == old(self).graph@.insert(var_of(literal) - 1,
                reason_parents(old(self).clauses@[clause as int].literals@, literal)),
            child_added(old(self).graph, final(self).graph, literal,
                reason_parents(old(self).clauses@[clause as int].literals@, literal).0,
                reason_parents(old(self).clauses@[clause as int].literals@, literal).1),
            final(self).assigns == old(self).assigns,
            final(self).vars == old(self).vars,
            final(self).clauses == old(self).clauses,
            final(self).var_to_clause == old(self).var_to_clause,
            final(self).workspace == old(self).workspace,
            final(self).sat == old(self).sat,
            final(self).inputs == old(self).inputs,
    {
        let c = self.clauses[clause];
        let ghost lits = c.literals@;
        proof {
            assert(c.literals[0] != i32::MIN);
            assert(c.literals[1] != i32::MIN);
            assert(c.literals[2] != i32::MIN);
        }
        let mut c2: [i32; 2] = [0, 0];
        let mut j: usize = 0;
        if c.literals[0] != literal {
            c2[j] = lit_abs(c.literals[0]);
            j += 1;
        }
        if c.literals[1] != literal {
            c2[j] = lit_abs(c.literals[1]);
            j += 1;
        }
        if c.literals[2] != literal {
            c2[j] = lit_abs(c.literals[2]);
            j += 1;
        }
        proof {
            let o = others(lits, literal);
            assert(c2[0] == reason_parents(lits, literal).0);
            assert(c2[1] == reason_parents(lits, literal).1);
            assert forall|k: int| 0 <= k < 2 implies #[trigger] c2[k] == 0 || (c2[k] != i32::MIN
                && self.graph@.dom().contains(pvar(c2[k]))) by {
                if c2[k] != 0 {
                    assert(o.contains(c2[k]));
                    let t = choose|t: int| 0 <= t < 3 && lits[t] != literal && var_of(lits[t]) as i32 == c2[k];
                    assert(self.clauses@[clause as int].literals[t] != literal);
                }
            }
        }
        self.graph.add_child(literal, c2);
    }

    /// Records in the graph that `literal` was decided.
    fn add_decision_to_graph(&mut self, literal: i32)
        requires
            old(self).graph.wf(),
            literal != 0,
            literal != i32::MIN,
        ensures
            !old(self).graph@.dom().contains(var_of(literal) - 1) ==> final(self).graph.wf(),
            final(self).graph@ == old(self).graph@.insert(var_of(literal) - 1, (-1i32, -1i32)),
            root_added(old(self).graph, final(self).graph, literal),
            final(self).assigns == old(self).assigns,
            final(self).vars == old(self).vars,
            final(self).clauses == old(self).clauses,
            final(self).var_to_clause == old(self).var_to_clause,
            final(self).workspace == old(self).workspace,
            final(self).sat == old(self).sat,
            final(self).inputs == old(self).inputs,
    {
        self.graph.add_root(literal);
    }

    /// Sets `literal`, implied by clause `clause`, and records why.
    fn unit_propagate(&mut self, literal: i32, clause: usize)
        requires
            old(self).wf(),
            old(self).ws_inv(),
            clause < old(self).clauses@.len(),
            literal != 0,
            lit_ok(literal, old(self).vars as nat),
            old(self).assigns@[var_of(literal) - 1] == 0,
            exists|i: int| 0 <= i < 3 && #[trigger] old(self).clauses@[clause as int].literals[i] == literal,
            forall|i: int| 0 <= i < 3 && #[trigger] old(self).clauses@[clause as int].literals[i] != literal
                ==> old(self).clauses@[clause as int].literals[i] == 0
                || old(self).assigns@[var_of(old(self).clauses@[clause as int].literals[i]) - 1] != 0,
            !satisfies(old(self).assigns@, old(self).clauses@[clause as int].literals@),
        ensures
            final(self).wf(),
            final(self).ws_inv(),
            final(self).assigns@ == old(self).assigns@.update(var_of(literal) - 1, sign_of(literal)),
            final(self).graph@ == old(self).graph@.insert(var_of(literal) - 1,
                reason_parents(old(self).clauses@[clause as int].literals@, literal)),
            final(self).vars == old(self).vars,
            final(self).clauses == old(self).clauses,
            final(self).sat == old(self).sat,
            final(self).inputs == old(self).inputs,
            forall|c: int| 0 <= c < old(self).workspace@.len() && old(self).workspace@[c].sat
                ==> #[trigger] final(self).workspace@[c].sat,
            final(self).workspace@[clause as int].sat,
            final(self).workspace@.len() == old(self).workspace@.len(),
            forall|c: int| 0 <= c < old(self).workspace@.len() ==> cview(#[trigger] final(self).workspace@[c])
                == strikes(cview(old(self).workspace@[c]), literal, npos(old(self).clauses@[c].literals@, var_of(literal) - 1)),
    {
        let ghost old_s = *self;
        self.add_propagation_to_graph(literal, clause);
        self.set_literal(literal);
        proof {
            let i = choose|i: int| 0 <= i < 3 && #[trigger] self.clauses@[clause as int].literals[i] == literal;
            assert(self.workspace@[clause as int].sat);
            let lits = self.clauses@[clause as int].literals@;
            let y = var_of(literal) - 1;
            let p = reason_parents(lits, literal);
            assert forall|t: int| 0 <= t < 3 && lits[t] != lits[i] implies !lit_true(self.assigns@, #[trigger] lits[t]) by {
                if !lit_true(old_s.assigns@, lits[t]) && lits[t] != 0 {
                    assert(old_s.assigns@[var_of(lits[t]) - 1] != 0);
                }
                if lit_true(old_s.assigns@, lits[t]) {
                    assert(satisfies(old_s.assigns@, lits));
                }
            }
            assert(implied_at(lits, i, self.assigns@, y, p));
            self.lemma_reasons_assign(old_s, y, sign_of(literal), p);
        }
    }

    /// Decides `literal`: sets it and records it as a decision.
    fn decide_literal(&mut self, literal: i32)
        requires
            old(self).wf(),
            old(self).ws_inv(),
            literal != 0,
            lit_ok(literal, old(self).vars as nat),
            old(self).assigns@[var_of(literal) - 1] == 0,
        ensures
            final(self).wf(),
            final(self).ws_inv(),
            final(self).assigns@ == old(self).assigns@.update(var_of(literal) - 1, sign_of(literal)),
            final(self).graph@ == old(self).graph@.insert(var_of(literal) - 1, (-1i32, -1i32)),
            final(self).vars == old(self).vars,
            final(self).clauses == old(self).clauses,
            final(self).sat == old(self).sat,
            final(self).inputs == old(self).inputs,
            forall|c: int| 0 <= c < old(self).workspace@.len() && old(self).workspace@[c].sat
                ==> #[trigger] final(self).workspace@[c].sat,
            forall|c: int, i: int| 0 <= c < old(self).workspace@.len() && 0 <= i < 3
                && #[trigger] old(self).clauses@[c].literals[i] == literal ==> final(self).workspace@[c].sat,
            final(self).workspace@.len() == old(self).workspace@.len(),
            forall|c: int| 0 <= c < old(self).workspace@.len() ==> cview(#[trigger] final(self).workspace@[c])
                == strikes(cview(old(self).workspace@[c]), literal, npos(old(self).clauses@[c].literals@, var_of(literal) - 1)),
    {
        let ghost old_s = *self;
        self.add_decision_to_graph(literal);
        self.set_literal(literal);
        proof {
            self.lemma_reasons_assign(old_s, var_of(literal) - 1, sign_of(literal), (-1i32, -1i32));
        }
    }

    /// Analyses the conflict at clause `clause`, all of whose literals are false: undoes the
    /// decisions behind it and every value that fell with them, and returns the clause that
    /// negates those decisions.
    fn learn_clause(&mut self, clause: usize) -> (learned: Vec<i32>)
        requires
            old(self).wf(),
            old(self).ws_inv(),
            clause < old(self).clauses@.len(),
            forall|i: int| 0 <= i < 3 ==> #[trigger] old(self).clauses@[clause as int].literals[i] == 0
                || old(self).assigns@[var_of(old(self).clauses@[clause as int].literals[i]) - 1] != 0,
        ensures
            final(self).wf(),
            final(self).ws_inv(),
            ({
                let lits = old(self).clauses@[clause as int].literals@;
                let r = old(self).graph.conflict_roots(lits);
                let im = old(self).graph.conflict_implied(lits);
                &&& forall|i: int| 0 <= i < learned@.len() ==> #[trigger] learned@[i] != 0
                    && lit_ok(learned@[i], old(self).vars as nat)
                    && r.contains(var_of(learned@[i]) as i32)
                    && old(self).assigns@[var_of(learned@[i]) - 1] == -sign_of(learned@[i])
                &&& forall|x: i32| #[trigger] r.contains(x) ==> exists|i: int| 0 <= i < learned@.len()
                    && var_of(#[trigger] learned@[i]) == x
                &&& forall|i: int, j: int| 0 <= i < j < learned@.len()
                    ==> var_of(#[trigger] learned@[i]) != var_of(#[trigger] learned@[j])
                &&& forall|x: int| 0 <= x < old(self).vars ==> #[trigger] final(self).assigns@[x]
                    == (if removed_indices(r + im).contains(x) { 0i32 } else { old(self).assigns@[x] })
                &&& final(self).graph@ == old(self).graph@.remove_keys(removed_indices(r + im))
            }),
            final(self).assigns@.len() == old(self).assigns@.len(),
            final(self).vars == old(self).vars,
            final(self).clauses == old(self).clauses,
            final(self).sat == old(self).sat,
            final(self).inputs == old(self).inputs,
            final(self).workspace@.len() == old(self).workspace@.len(),
            forall|c: int| 0 <= c < old(self).workspace@.len() ==>
                if touches(old(self).clauses@[c].literals@, removed_indices(
                    old(self).graph.conflict_roots(old(self).clauses@[clause as int].literals@)
                    + old(self).graph.conflict_implied(old(self).clauses@[clause as int].literals@))) {
                    cview(#[trigger] final(self).workspace@[c]) == refresh(old(self).clauses@[c].literals@, final(self).assigns@)
                } else {
                    final(self).workspace@[c] == old(self).workspace@[c]
                },
    {
        let ghost old_s = *self;
        let c = self.clauses[clause];
        let ghost lits = c.literals@;
        proof {
            assert forall|k: int| 0 <= k < 3 implies #[trigger] c.literals[k] != i32::MIN
                && (c.literals[k] == 0 || self.graph@.dom().contains(pvar(c.literals[k]))) by {
                assert(lit_ok(self.clauses@[clause as int].literals[k], self.vars as nat));
            }
        }
        let (roots, childs) = self.graph.get_conflict(&c);
        let ghost r = old_s.graph.conflict_roots(lits);
        let ghost im = old_s.graph.conflict_implied(lits);
        proof {
            assert forall|k: int| 0 <= k < roots@.len() implies 0 < #[trigger] roots@[k] <= self.vars
                && old_s.assigns@[roots@[k] - 1] != 0 by {
                assert(old_s.graph@.dom().contains(roots@[k] - 1));
            }
            assert forall|k: int| 0 <= k < childs@.len() implies 0 < #[trigger] childs@[k] <= self.vars by {
                assert(old_s.graph@.dom().contains(childs@[k] - 1));
            }
        }
        let mut learned: Vec<i32> = Vec::new();
        let mut i: usize = 0;
        while i < roots.len()
            invariant
                i <= roots@.len(),
                learned@.len() == i,
                self.assigns == old_s.assigns,
                self.vars == old_s.vars,
                forall|k: int| 0 <= k < roots@.len() ==> 0 < #[trigger] roots@[k] <= self.vars
                    && old_s.assigns@[roots@[k] - 1] != 0,
                forall|k: int| 0 <= k < i ==> #[trigger] learned@[k] == (if old_s.assigns@[roots@[k] - 1] == 1 {
                    -roots@[k] } else { roots@[k] as int }),
                old_s.wf(),
            decreases roots@.len() - i,
        {
            let l = roots[i];
            if self.assigns[(l - 1) as usize] == 1 {
                learned.push(-l);
            } else {
                learned.push(l);
            }
            i = i + 1;
        }
        proof {
            assert forall|k: int| 0 <= k < learned@.len() implies var_of(#[trigger] learned@[k]) == roots@[k] by {}
            assert forall|k: int| 0 <= k < learned@.len() implies #[trigger] learned@[k] != 0
                && lit_ok(learned@[k], old_s.vars as nat)
                && r.contains(var_of(learned@[k]) as i32)
                && old_s.assigns@[var_of(learned@[k]) - 1] == -sign_of(learned@[k]) by {
                assert(var_of(learned@[k]) == roots@[k]);
                assert(roots@.to_set().contains(roots@[k]));
                assert(-1 <= old_s.assigns@[roots@[k] - 1] <= 1);
            }
            assert forall|x: i32| #[trigger] r.contains(x) implies exists|k: int| 0 <= k < learned@.len()
                && var_of(#[trigger] learned@[k]) == x by {
                assert(roots@.to_set().contains(x));
                let k = choose|k: int| 0 <= k < roots@.len() && roots@[k] == x;
                assert(var_of(learned@[k]) == x);
            }
            assert forall|a: int, b: int| 0 <= a < b < learned@.len()
                implies var_of(#[trigger] learned@[a]) != var_of(#[trigger] learned@[b]) by {
                assert(roots@[a] != roots@[b]);
            }
        }
        let ghost mid = *self;
        let ghost rs = roots@;
        let ghost cs = childs@;
        self.unset_vars(roots);
        let ghost s1 = *self;
        self.unset_vars(childs);
        proof {
            assert forall|x: int| 0 <= x < old_s.vars implies #[trigger] self.assigns@[x]
                == (if removed_indices(r + im).contains(x) { 0i32 } else { old_s.assigns@[x] })
                && (removed_indices(r + im).contains(x) == (names(rs, x) || names(cs, x))) by {
                if names(rs, x) {
                    let k = choose|k: int| 0 <= k < rs.len() && #[trigger] rs[k] == x + 1;
                    assert(rs.to_set().contains(rs[k]));
                    assert((x + 1) as i32 == rs[k]);
                }
                if names(cs, x) {
                    let k = choose|k: int| 0 <= k < cs.len() && #[trigger] cs[k] == x + 1;
                    assert(cs.to_set().contains(cs[k]));
                    assert((x + 1) as i32 == cs[k]);
                }
                if removed_indices(r + im).contains(x) {
                    if r.contains((x + 1) as i32) {
                        assert(rs.to_set().contains((x + 1) as i32));
                        let k = choose|k: int| 0 <= k < rs.len() && rs[k] == (x + 1) as i32;
                        assert(names(rs, x));
                    } else {
                        assert(cs.to_set().contains((x + 1) as i32));
                        let k = choose|k: int| 0 <= k < cs.len() && cs[k] == (x + 1) as i32;
                        assert(names(cs, x));
                    }
                }
            }
            assert forall|x: int| #[trigger] self.graph@.dom().contains(x)
                <==> (0 <= x < self.vars && self.assigns@[x] != 0) by {
                if 0 <= x < self.vars {
                    assert(self.assigns@[x] == (if removed_indices(r + im).contains(x) { 0i32 } else { old_s.assigns@[x] }));
                }
                if self.graph@.dom().contains(x) {
                    assert(old_s.graph@.dom().contains(x));
                }
            }
            assert forall|x: int| #[trigger] self.graph@.dom().contains(x) implies old_s.graph@.dom().contains(x)
                && self.graph@[x] == old_s.graph@[x] && self.assigns@[x] == old_s.assigns@[x] by {
                assert(0 <= x < self.vars);
            }
            assert forall|i: int| 0 <= i < old_s.assigns@.len() implies #[trigger] self.assigns@[i] == old_s.assigns@[i]
                || self.assigns@[i] == 0 by {
                assert(self.assigns@[i] == (if removed_indices(r + im).contains(i) { 0i32 } else { old_s.assigns@[i] }));
            }
            self.lemma_reasons_dropped(old_s);
            let fl = removed_indices(r + im);
            let nr = Set::new(|x: int| names(rs, x));
            let nc = Set::new(|x: int| names(cs, x));
            assert forall|c: int| 0 <= c < old_s.workspace@.len() implies
                if touches(old_s.clauses@[c].literals@, fl) {
                    cview(#[trigger] self.workspace@[c]) == refresh(old_s.clauses@[c].literals@, self.assigns@)
                } else {
                    self.workspace@[c] == old_s.workspace@[c]
                } by {
                let lits = old_s.clauses@[c].literals@;
                assert(lit_ok(old_s.clauses@[c].literals[0], old_s.vars as nat));
                assert(lit_ok(old_s.clauses@[c].literals[1], old_s.vars as nat));
                assert(lit_ok(old_s.clauses@[c].literals[2], old_s.vars as nat));
                assert forall|t: int| 0 <= t < 3 && #[trigger] lits[t] != 0 implies
                    fl.contains(var_of(lits[t]) - 1) == (nr.contains(var_of(lits[t]) - 1) || nc.contains(var_of(lits[t]) - 1)) by {
                    assert(0 <= var_of(lits[t]) - 1 < old_s.vars);
                }
                assert(touches(lits, fl) == (touches(lits, nr) || touches(lits, nc))) by {
                    if lits[0] != 0 { assert(lits[0] != 0); }
                    if lits[1] != 0 { assert(lits[1] != 0); }
                    if lits[2] != 0 { assert(lits[2] != 0); }
                }
                if !touches(lits, nc) && touches(lits, nr) {
                    assert forall|t: int| 0 <= t < 3 implies #[trigger] lits[t] == 0
                        || s1.assigns@[var_of(lits[t]) - 1] == self.assigns@[var_of(lits[t]) - 1] by {
                        if lits[t] != 0 {
                            assert(!nc.contains(var_of(lits[t]) - 1));
                        }
                    }
                    lemma_refresh_agree(lits, s1.assigns@, self.assigns@);
                }
            }
        }
        learned
    }

    /// When every stored clause holds, every clause given to `add_clause` holds.
    proof fn lemma_inputs_satisfied(&self)
        requires
            self.wf_core(),
            self.sat != -1,
            forall|c: int| 0 <= c < self.clauses@.len() ==> satisfies(self.assigns@, #[trigger] self.clauses@[c].literals@),
        ensures
            forall|i: int| 0 <= i < self.inputs@.len() ==> satisfies(self.assigns@, #[trigger] self.inputs@[i]),
    {
        assert forall|i: int| 0 <= i < self.inputs@.len() implies satisfies(self.assigns@, #[trigger] self.inputs@[i]) by {
            let v = self.inputs@[i];
            assert(input_stored(self.clauses@, self.vars as int, v));
            let (st, b) = choose|st: int, b: int| stored_at(self.clauses@, self.vars as int, v, st, b);
            let a = self.assigns@;
            if v.len() == 0 {
                assert(self.sat == -1);
            } else if v.len() <= 3 {
                assert(self.clauses@[st + 0].literals@ == stored_clauses(v, b)[0]);
                assert(satisfies(a, pad3(v)));
                let t = choose|t: int| 0 <= t < pad3(v).len() && #[trigger] lit_true(a, pad3(v)[t]);
                assert(lit_true(a, v[t]));
            } else {
                assert forall|t: int| 0 <= t <= fresh_count(v.len() as int) implies satisfies(a, #[trigger] chain_clause(v, b, t)) by {
                    assert(self.clauses@[st + t].literals@ == stored_clauses(v, b)[t]);
                }
                lemma_chain_sound(v, b, a);
            }
        }
    }

    /// Resolves the conflict at clause `clause`: learns the clause that negates the decisions
    /// behind it, undoing them and what fell with them, and stores the learned clause.
    #[verifier::rlimit(60)]
    fn solve_conflict(&mut self, clause: usize)
        requires
            old(self).wf(),
            old(self).ws_inv(),
            clause < old(self).clauses@.len(),
            forall|i: int| 0 <= i < 3 ==> #[trigger] old(self).clauses@[clause as int].literals[i] == 0
                || old(self).assigns@[var_of(old(self).clauses@[clause as int].literals[i]) - 1] != 0,
            !satisfies(old(self).assigns@, old(self).clauses@[clause as int].literals@),
            old(self).graph.conflict_roots(old(self).clauses@[clause as int].literals@).finite(),
            conflict_fits(old(self)@, clause as int),
        ensures
            final(self).wf(),
            models_extend(old(self).clauses@, old(self).vars as nat, final(self).clauses@, final(self).vars as nat),
            exists|ls: Seq<i32>| learned_from(old(self)@, clause as int, ls)
                && #[trigger] relearned_state(old(self)@, clause as int, ls, final(self)@),
            forall|c: int| 0 <= c < old(self).clauses@.len() ==>
                if touches(old(self).clauses@[c].literals@, fallen(old(self)@, clause as int)) {
                    cview(#[trigger] final(self).workspace@[c]) == refresh(old(self).clauses@[c].literals@, final(self).assigns@)
                } else {
                    final(self).workspace@[c] == old(self).workspace@[c]
                },
            solvable(old(self).clauses@, old(self).vars as nat) ==> solvable(final(self).clauses@, final(self).vars as nat),
            final(self).sat == -1 && old(self).sat != -1 ==> !solvable(old(self).clauses@, old(self).vars as nat),
            final(self)@.base_vars == old(self)@.base_vars,
            final(self).workspace@.len() == old(self).clauses@.len(),
            forall|c: int| 0 <= c < old(self).clauses@.len() ==> ws_ok(#[trigger] final(self).workspace@[c],
                final(self).clauses@[c].literals@, final(self).assigns@),
            forall|c: int| old(self).clauses@.len() <= c < final(self).clauses@.len()
                ==> fresh_ok((#[trigger] final(self).clauses@[c]).literals@, final(self).assigns@),
            final(self).clauses@.len() <= 0x8000_0000,
            final(self).clauses@.len() >= old(self).clauses@.len(),
            forall|c: int| 0 <= c < old(self).clauses@.len() ==> #[trigger] final(self).clauses@[c] == old(self).clauses@[c],
            old(self).vars <= final(self).vars,
            final(self).sat == -1 || final(self).sat == old(self).sat,
            final(self).inputs@.len() == old(self).inputs@.len() + 1,
            forall|i: int| 0 <= i < old(self).inputs@.len() ==> #[trigger] final(self).inputs@[i] == old(self).inputs@[i],
    {
        let ghost old_s = *self;
        let c = self.learn_clause(clause);
        let ghost mid = *self;
        proof {
            let r = old_s.graph.conflict_roots(old_s.clauses@[clause as int].literals@);
            let t = c@.map_values(|l: i32| var_of(l) as i32);
            assert(t.no_duplicates()) by {
                assert forall|i: int, j: int| 0 <= i < t.len() && 0 <= j < t.len() && i != j implies t[i] != t[j] by {
                    assert(lit_ok(c@[i], old_s.vars as nat));
                    assert(lit_ok(c@[j], old_s.vars as nat));
                    if i < j {
                        assert(var_of(c@[i]) != var_of(c@[j]));
                    } else {
                        assert(var_of(c@[j]) != var_of(c@[i]));
                    }
                }
            }
            assert(t.to_set() =~= r) by {
                assert forall|x: i32| #[trigger] t.to_set().contains(x) == r.contains(x) by {
                    if t.to_set().contains(x) {
                        let i = choose|i: int| 0 <= i < t.len() && t[i] == x;
                        assert(lit_ok(c@[i], old_s.vars as nat));
                        assert(r.contains(var_of(c@[i]) as i32));
                    }
                    if r.contains(x) {
                        let i = choose|i: int| 0 <= i < c@.len() && var_of(#[trigger] c@[i]) == x;
                        assert(t[i] == x);
                    }
                }
            }
            t.unique_seq_to_set();
            assert(c@.len() == r.len());
        }
        self.add_clause(c);
        proof {
            let lits = old_s.clauses@[clause as int].literals@;
            let n0 = old_s.clauses@.len() as int;
            assert forall|a: Seq<i32>| #[trigger] total(a, old_s.vars as nat) && all_clauses_hold(a, old_s.clauses@)
                implies c@.len() > 0 && exists|e: Seq<i32>| #[trigger] total(a + e, self.vars as nat)
                    && all_clauses_hold(a + e, self.clauses@) by {
                    assert(satisfies(a, lits));
                    assert forall|t: int| 0 <= t < 3 implies #[trigger] lits[t] == 0 || (lit_ok(lits[t], old_s.vars as nat)
                        && old_s.assigns@[var_of(lits[t]) - 1] != 0) by {
                        assert(lit_ok(old_s.clauses@[clause as int].literals[t], old_s.vars as nat));
                    }
                    old_s.lemma_conflict_entails(a, lits);
                    let r = choose|r: i32| #[trigger] old_s.graph.conflict_roots(lits).contains(r) && a[r - 1] != old_s.assigns@[r - 1];
                    let i = choose|i: int| 0 <= i < c@.len() && var_of(#[trigger] c@[i]) == r;
                    assert(var_of(c@[i]) - 1 == r - 1);
                    assert(a[r - 1] == 1 || a[r - 1] == -1);
                    assert(lit_true(a, c@[i]));
                    assert(satisfies(a, c@));
                    let e = lemma_stored_complete(c@, a);
                    let a2 = a + e;
                    assert forall|k: int| 0 <= k < self.clauses@.len() implies satisfies(a2, #[trigger] self.clauses@[k].literals@) by {
                        if k < n0 {
                            assert(self.clauses@[k] == old_s.clauses@[k]);
                            let kl = old_s.clauses@[k].literals@;
                            assert forall|t: int| 0 <= t < kl.len() implies lit_ok(#[trigger] kl[t], a.len()) by {
                                assert(lit_ok(old_s.clauses@[k].literals[t], old_s.vars as nat));
                            }
                            lemma_sat_extend(kl, a, e);
                        } else {
                            assert(self.clauses@[n0 + (k - n0)].literals@ == stored_clauses(c@, mid.vars as int)[k - n0]);
                        }
                    }
                    assert(total(a2, self.vars as nat));
                    assert(all_clauses_hold(a2, self.clauses@));
            }
            assert(learned_from(old_s@, clause as int, c@));
            let fl = fallen(old_s@, clause as int);
            assert(self.assigns@ =~= Seq::new(old_s.vars as nat, |x: int| if fl.contains(x) { 0i32 } else { old_s.assigns@[x] })
                + Seq::new(added_vars(c@) as nat, |i: int| 0i32)) by {
                assert(mid.assigns@ =~= Seq::new(old_s.vars as nat, |x: int| if fl.contains(x) { 0i32 } else { old_s.assigns@[x] }));
            }
            assert(relearned_state(old_s@, clause as int, c@, self@));
            assert forall|k: int| 0 <= k < old_s.clauses@.len() implies
                if touches(old_s.clauses@[k].literals@, fallen(old_s@, clause as int)) {
                    cview(#[trigger] self.workspace@[k]) == refresh(old_s.clauses@[k].literals@, self.assigns@)
                } else {
                    self.workspace@[k] == old_s.workspace@[k]
                } by {
                let kl = old_s.clauses@[k].literals@;
                if touches(kl, fallen(old_s@, clause as int)) {
                    assert(cview(mid.workspace@[k]) == refresh(kl, mid.assigns@));
                    assert(lit_ok(old_s.clauses@[k].literals[0], old_s.vars as nat));
                    assert(lit_ok(old_s.clauses@[k].literals[1], old_s.vars as nat));
                    assert(lit_ok(old_s.clauses@[k].literals[2], old_s.vars as nat));
                    assert forall|t: int| 0 <= t < 3 implies #[trigger] kl[t] == 0
                        || mid.assigns@[var_of(kl[t]) - 1] == self.assigns@[var_of(kl[t]) - 1] by {}
                    lemma_refresh_agree(kl, mid.assigns@, self.assigns@);
                }
            }
            if solvable(old_s.clauses@, old_s.vars as nat) {
                let a = choose|a: Seq<i32>| #[trigger] total(a, old_s.vars as nat) && forall|k: int| 0 <= k < old_s.clauses@.len()
                    ==> satisfies(a, #[trigger] old_s.clauses@[k].literals@);
                assert(all_clauses_hold(a, old_s.clauses@));
                let e = choose|e: Seq<i32>| #[trigger] total(a + e, self.vars as nat) && all_clauses_hold(a + e, self.clauses@);
                assert(total(a + e, self.vars as nat));
            }
            let n0 = old_s.clauses@.len() as int;
            let b = mid.vars as int;
            let st = stored_clauses(c@, b);
            assert forall|cc: int| 0 <= cc < n0 implies ws_ok(#[trigger] self.workspace@[cc],
                self.clauses@[cc].literals@, self.assigns@) by {
                let lits = self.clauses@[cc].literals@;
                assert(lit_ok(mid.clauses@[cc].literals[0], mid.vars as nat));
                assert(lit_ok(mid.clauses@[cc].literals[1], mid.vars as nat));
                assert(lit_ok(mid.clauses@[cc].literals[2], mid.vars as nat));
                assert(ws_ok(mid.workspace@[cc], lits, mid.assigns@));
                lemma_extend_assigns(lits, mid.assigns@, added_vars(c@) as nat);
            }
            assert forall|cc: int| n0 <= cc < self.clauses@.len()
                implies fresh_ok((#[trigger] self.clauses@[cc]).literals@, self.assigns@) by {
                let j = cc - n0;
                assert(self.clauses@[n0 + j].literals@ == st[j]);
                assert forall|i: int| 0 <= i < 3 implies #[trigger] st[j][i] == 0 || self.assigns@[var_of(st[j][i]) - 1] == 0 by {
                    lemma_stored_slot(c@, b, j, i);
                    let l = st[j][i];
                    if l != 0 {
                        if exists|k: int| 0 <= k < c@.len() && c@[k] == l {
                            let k = choose|k: int| 0 <= k < c@.len() && c@[k] == l;
                            let x = var_of(l) - 1;
                            assert(c@[k] == l);
                            assert(x < i32::MAX);
                            assert(((x + 1) as i32) == var_of(l) as i32);
                            assert(removed_indices(old_s.graph.conflict_roots(old_s.clauses@[clause as int].literals@)
                                + old_s.graph.conflict_implied(old_s.clauses@[clause as int].literals@)).contains(x));
                            assert(mid.assigns@[x] == 0);
                        }
                    }
                }
            }
        }
    }

    /// Searches for an assignment that satisfies every stored clause, walking the working
    /// clauses from the last to the first: a satisfied clause is passed, a clause with one
    /// open literal sets it, a clause with more decides its first open literal, and a falsified
    /// clause is resolved by learning a clause and starting over from the last clause. Reaching
    /// past the first clause reports the problem satisfiable; learning the empty clause reports
    /// it unsatisfiable. With no clauses, or a status already decided, nothing is searched. The
    /// search also stops, undecided, where the clauses are too many to index within `i32`, at
    /// a conflict whose resolution would take variable numbers or clause indices past `i32`
    /// (see `stops_at`), or after `u64::MAX` steps.
    ///
    /// Both answers are sound: a satisfiable answer leaves an assignment under which every
    /// stored clause and every clause given holds, and an unsatisfiable answer means that no
    /// assignment of the variables satisfies the stored clauses, nor, when the clauses given
    /// name only the variables the solver was created with, the clauses given.
    pub fn solve(&mut self)
        requires
            old(self).wf(),
            old(self)@.status != 0 || forall|x: int| 0 <= x < old(self)@.assigns.len() ==> #[trigger] old(self)@.assigns[x] == 0,
        ensures
            final(self).wf(),
            old(self)@.clauses.len() == 0 ==> final(self)@ == old(self)@,
            old(self)@.status != 0 && old(self)@.clauses.len() > 0 ==> final(self)@ == search_start(old(self)@),
            final(self)@.assigns.len() == final(self)@.num_vars,
            old(self)@.clauses.len() > 0 ==> final(self)@.working.len() == final(self)@.clauses.len(),
            final(self)@.base_vars == old(self)@.base_vars,
            models_extend(old(self)@.clauses, old(self)@.num_vars, final(self)@.clauses, final(self)@.num_vars),
            old(self)@.status == 0 && old(self)@.clauses.len() > 0
                ==> exists|tr: Seq<(SolverView, int)>| #[trigger] search_run(tr, old(self)@, final(self)@),
            final(self)@.clauses.len() >= old(self)@.clauses.len(),
            forall|c: int| 0 <= c < old(self)@.clauses.len() ==> #[trigger] final(self)@.clauses[c] == old(self)@.clauses[c],
            final(self)@.inputs.len() >= old(self)@.inputs.len(),
            forall|i: int| 0 <= i < old(self)@.inputs.len() ==> #[trigger] final(self)@.inputs[i] == old(self)@.inputs[i],
            final(self)@.num_vars >= old(self)@.num_vars,
            old(self)@.status == 0 && final(self)@.status == 1 ==> forall|c: int| 0 <= c < final(self)@.clauses.len()
                ==> satisfies(final(self)@.assigns, #[trigger] final(self)@.clauses[c].literals@),
            old(self)@.status == 0 && final(self)@.status == 1 ==> forall|i: int| 0 <= i < final(self)@.inputs.len()
                ==> satisfies(final(self)@.assigns, #[trigger] final(self)@.inputs[i]),
            old(self)@.status == 0 && final(self)@.status == -1 ==> !solvable(old(self)@.clauses, old(self)@.num_vars),
            old(self)@.status == 0 && final(self)@.status == -1 && over_vars(old(self)@.inputs, old(self)@.base_vars)
                ==> forall|a: Seq<i32>| #[trigger] total(a, old(self)@.base_vars) ==> !all_satisfied(a, old(self)@.inputs),
    {
        proof {
            lemma_models_refl(self.clauses@, self.vars as nat);
        }
        if self.clauses.len() == 0 {
            return;
        }
        let ghost old_s = *self;
        let mut ws: Vec<Clause3> = Vec::new();
        let mut k: usize = 0;
        while k < self.clauses.len()
            invariant
                k <= self.clauses@.len(),
                ws@ == self.clauses@.take(k as int),
            decreases self.clauses@.len() - k,
        {
            ws.push(self.clauses[k]);
            assert(self.clauses@.take(k + 1) == self.clauses@.take(k as int).push(self.clauses@[k as int]));
            k = k + 1;
        }
        assert(self.clauses@.take(k as int) == self.clauses@);
        self.workspace = ws;
        proof {
            self.lemma_reasons_kept(old_s);
        }
        let ghost mut tr: Seq<(SolverView, int)> = seq![(self@, self.clauses@.len() - 1)];
        assert(self@ == search_start(old_s@));
        if self.sat != 0 || self.clauses.len() > 0x8000_0000 {
            assert(self.sat == 0 ==> search_run(tr, old_s@, self@));
            return;
        }
        let mut current_clause: i32 = (self.clauses.len() - 1) as i32;
        proof {
            assert forall|c: int| 0 <= c < self.clauses@.len() implies ws_ok(#[trigger] self.workspace@[c],
                self.clauses@[c].literals@, self.assigns@) by {
                let lits = self.clauses@[c].literals@;
                assert(fresh_ok(lits, self.assigns@)) by {
                    assert forall|i: int| 0 <= i < 3 implies #[trigger] lits[i] == 0 || self.assigns@[var_of(lits[i]) - 1] == 0 by {
                        assert(lit_ok(self.clauses@[c].literals[i], self.vars as nat));
                        if lits[i] != 0 {
                            assert(old_s@.assigns[var_of(lits[i]) - 1] == 0);
                        }
                    }
                }
                lemma_fresh(lits, self.assigns@);
            }
        }
        let mut steps: u64 = 0;
        let mut stuck = false;
        while self.sat == 0 && steps < u64::MAX && !stuck
            invariant
                self.wf(),
                self.ws_inv(),
                -1 <= current_clause < self.clauses@.len(),
                self.sat == 0 ==> current_clause >= 0,
                forall|c: int| current_clause < c < self.clauses@.len() ==> (#[trigger] self.workspace@[c]).sat,
                self.sat == 1 ==> forall|c: int| 0 <= c < self.clauses@.len() ==> (#[trigger] self.workspace@[c]).sat,
                self.sat != -1 ==> old_s.sat != -1,
                self.clauses@.len() <= 0x8000_0000,
                stuck ==> self.sat == 0 && stops_at(self@, current_clause as int),
                self.clauses@.len() >= old_s.clauses@.len(),
                forall|c: int| 0 <= c < old_s.clauses@.len() ==> #[trigger] self.clauses@[c] == old_s.clauses@[c],
                self.inputs@.len() >= old_s.inputs@.len(),
                forall|i: int| 0 <= i < old_s.inputs@.len() ==> #[trigger] self.inputs@[i] == old_s.inputs@[i],
                self.vars >= old_s.vars,
                solvable(old_s.clauses@, old_s.vars as nat) ==> solvable(self.clauses@, self.vars as nat),
                self.sat == -1 ==> !solvable(old_s.clauses@, old_s.vars as nat),
                self@.base_vars == old_s@.base_vars,
                models_extend(old_s.clauses@, old_s.vars as nat, self.clauses@, self.vars as nat),
                tr.len() == steps + 1,
                tr[0] == (search_start(old_s@), old_s.clauses@.len() - 1),
                tr.last() == (self@, current_clause as int),
                forall|i: int| 0 <= i < tr.len() - 1 ==> #[trigger] search_step(tr[i].0, tr[i].1, tr[i + 1].0, tr[i + 1].1),
            decreases u64::MAX - steps, (if stuck { 0int } else { 1int }),
        {
            let ghost pre = self@;
            let ghost pc = current_clause as int;
            let cc = current_clause as usize;
            let c = self.workspace[cc];
            let ghost lits = self.clauses@[cc as int].literals@;
            if c.sat {
                current_clause -= 1;
            } else {
                proof {
                    assert(ws_ok(self.workspace@[cc as int], lits, self.assigns@));
                    assert(cview(c) == refresh(lits, self.assigns@));
                    assert(lit_ok(self.clauses@[cc as int].literals[0], self.vars as nat));
                    assert(lit_ok(self.clauses@[cc as int].literals[1], self.vars as nat));
                    assert(lit_ok(self.clauses@[cc as int].literals[2], self.vars as nat));
                }
                let mut literal: i32 = 0;
                let mut attr: i32 = 3;
                if c.literals[0] != 0 && literal == 0 {
                    literal = c.literals[0];
                } else if c.literals[0] == 0 {
                    attr -= 1;
                }
                if c.literals[1] != 0 && literal == 0 {
                    literal = c.literals[1];
                } else if c.literals[1] == 0 {
                    attr -= 1;
                }
                if c.literals[2] != 0 && literal == 0 {
                    literal = c.literals[2];
                } else if c.literals[2] == 0 {
                    attr -= 1;
                }
                assert(pre.working[pc] == c);
                assert(literal == first_open(c.literals@));
                assert((attr == 1) == (open_count(c.literals@) == 1));
                if literal != 0 {
                    proof {
                        let p = if c.literals[0] == literal { 0int } else if c.literals[1] == literal { 1int } else { 2int };
                        assert(c.literals[p] == literal);
                        assert(lits[p] == literal);
                        assert(self.clauses@[cc as int].literals[p] == literal);
                    }
                    if attr == 1 {
                        proof {
                            assert forall|i: int| 0 <= i < 3 && #[trigger] self.clauses@[cc as int].literals[i] != literal
                                implies self.clauses@[cc as int].literals[i] == 0
                                || self.assigns@[var_of(self.clauses@[cc as int].literals[i]) - 1] != 0 by {
                                assert(c.literals[i] == 0);
                            }
                        }
                        self.unit_propagate(literal, cc);
                    } else {
                        self.decide_literal(literal);
                    }
                    current_clause -= 1;
                } else {
                    proof {
                        assert forall|i: int| 0 <= i < 3 implies #[trigger] self.clauses@[cc as int].literals[i] == 0
                            || self.assigns@[var_of(self.clauses@[cc as int].literals[i]) - 1] != 0 by {
                            assert(c.literals[i] == 0);
                        }
                    }
                    let conflict = self.clauses[cc];
                    proof {
                        assert forall|k: int| 0 <= k < 3 implies #[trigger] conflict.literals[k] != i32::MIN
                            && (conflict.literals[k] == 0 || self.graph@.dom().contains(pvar(conflict.literals[k]))) by {
                            assert(lit_ok(self.clauses@[cc as int].literals[k], self.vars as nat));
                            if conflict.literals[k] != 0 {
                                assert(self.assigns@[var_of(conflict.literals[k]) - 1] != 0);
                            }
                        }
                    }
                    let n = self.graph.conflict_size(&conflict);
                    let k_new: usize = if n >= 4 { if n % 2 == 0 { n - 1 } else { n - 2 } } else { 0 };
                    let m_new: usize = if n == 0 { 0 } else if n <= 3 { 1 } else { k_new + 1 };
                    if (self.vars as u128) + (k_new as u128) > 0x7fff_ffff
                        || (self.clauses.len() as u128) + (m_new as u128) > 0x8000_0000 {
                        stuck = true;
                        proof {
                            assert(!conflict_fits(pre, pc));
                        }
                    } else {
                        proof {
                            assert(conflict_fits(pre, pc));
                        }
                        let ghost before = *self;
                        self.solve_conflict(cc);
                        proof {
                            lemma_models_trans(old_s.clauses@, old_s.vars as nat, before.clauses@, before.vars as nat,
                                self.clauses@, self.vars as nat);
                        }
                        current_clause = (self.clauses.len() - 1) as i32;
                        let mut k: usize = self.workspace.len();
                        let ghost after = *self;
                        while k < self.clauses.len()
                            invariant
                                self.wf(),
                                after.wf(),
                                self.clauses == after.clauses,
                                self.vars == after.vars,
                                self.assigns == after.assigns,
                                self.sat == after.sat,
                                self.inputs == after.inputs,
                                self.graph == after.graph,
                                self.var_to_clause == after.var_to_clause,
                                before.clauses@.len() <= k <= self.clauses@.len(),
                                self.workspace@.len() == k,
                                forall|c: int| 0 <= c < k ==> ws_ok(#[trigger] self.workspace@[c],
                                    self.clauses@[c].literals@, self.assigns@),
                                forall|c: int| before.clauses@.len() <= c < self.clauses@.len()
                                    ==> fresh_ok((#[trigger] self.clauses@[c]).literals@, self.assigns@),
                                forall|c: int| 0 <= c < self.clauses@.len() ==> !(#[trigger] self.clauses@[c]).sat,
                                forall|c: int| 0 <= c < before.clauses@.len() ==> #[trigger] self.workspace@[c] == after.workspace@[c],
                                forall|c: int| before.clauses@.len() <= c < k ==> #[trigger] self.workspace@[c] == self.clauses@[c],
                            decreases self.clauses@.len() - k,
                        {
                            let ghost lk = self.clauses@[k as int].literals@;
                            proof {
                                lemma_fresh(lk, self.assigns@);
                            }
                            self.workspace.push(self.clauses[k]);
                            proof {
                                self.lemma_reasons_kept(after);
                            }
                            k = k + 1;
                        }
                        proof {
                            assert(before@ == pre);
                            let ls = choose|ls: Seq<i32>| learned_from(before@, cc as int, ls)
                                && #[trigger] relearned_state(before@, cc as int, ls, after@);
                            assert(relearned_state(pre, pc, ls, self@));
                            assert(relearned_working(pre, pc, self@));
                        }
                    }
                }
            }
            if current_clause == -1 {
                let ghost pre = *self;
                self.sat = 1;
                proof {
                    self.lemma_reasons_kept(pre);
                }
            }
            if !stuck {
                proof {
                    assert(coherent(self@));
                    assert(search_step(pre, pc, self@, current_clause as int));
                    tr = tr.push((self@, current_clause as int));
                }
                steps = steps + 1;
            }
        }
        assert(search_run(tr, old_s@, self@));

        proof {
            let base = (old_s.vars - added_total(old_s.inputs@)) as nat;
            if self.sat == -1 && over_vars(old_s.inputs@, base) {
                assert forall|a: Seq<i32>| #[trigger] total(a, base) implies !all_satisfied(a, old_s.inputs@) by {
                    if all_satisfied(a, old_s.inputs@) {
                        lemma_added_nonneg(old_s.inputs@);
                        lemma_extend_all(a, old_s.inputs@);
                        let e = extend_all(a, old_s.inputs@);
                        let enc = encoding(old_s.inputs@, base as int);
                        assert(old_s.clauses@.map_values(|c: Clause3| c.literals@) == enc);
                        assert forall|c: int| 0 <= c < old_s.clauses@.len()
                            implies satisfies(e, #[trigger] old_s.clauses@[c].literals@) by {
                            assert(enc[c] == old_s.clauses@[c].literals@);
                        }
                        assert(total(e, old_s.vars as nat));
                        assert(solvable(old_s.clauses@, old_s.vars as nat));
                    }
                }
            }
        }
        proof {
            if self.sat == 1 {
                assert forall|c: int| 0 <= c < self.clauses@.len()
                    implies satisfies(self.assigns@, #[trigger] self.clauses@[c].literals@) by {
                    assert(self.workspace@[c].sat);
                    assert(ws_ok(self.workspace@[c], self.clauses@[c].literals@, self.assigns@));
                }
                self.lemma_inputs_satisfied();
            }
        }
    }

    /// Checks the assignment against the stored clauses, in order, stopping at the first
    /// clause it does not satisfy: returns, for each clause checked and satisfied, the variable
    /// number of its first true literal. Fewer entries than clauses means that the clause at
    /// the position after the last entry has no true literal.
    pub fn check_solution(&self) -> (witnesses: Vec<i32>)
        requires
            self.wf(),
        ensures
            witnesses@.len() <= self@.clauses.len(),
            forall|i: int| 0 <= i < witnesses@.len() ==> #[trigger] witnesses@[i]
                == witness(self@.assigns, self@.clauses[i].literals@) && witnesses@[i] != 0,
            witnesses@.len() < self@.clauses.len()
                ==> witness(self@.assigns, self@.clauses[witnesses@.len() as int].literals@) == 0,
            forall|i: int| 0 <= i < witnesses@.len() ==> satisfies(self@.assigns, #[trigger] self@.clauses[i].literals@),
            witnesses@.len() < self@.clauses.len()
                ==> !satisfies(self@.assigns, self@.clauses[witnesses@.len() as int].literals@),
            forall|i: int| 0 <= i < witnesses@.len()
                ==> names_first_true(self@.assigns, self@.clauses[i].literals@, #[trigger] witnesses@[i]),
    {
        let mut witnesses: Vec<i32> = Vec::new();
        let n = self.clauses.len();
        let mut i: usize = 0;
        while i < n
            invariant
                self.wf(),
                n == self.clauses@.len(),
                i <= n,
                witnesses@.len() == i,
                forall|k: int| 0 <= k < i ==> #[trigger] witnesses@[k]
                    == witness(self.assigns@, self.clauses@[k].literals@) && witnesses@[k] != 0,
            decreases n - i,
        {
            let c = self.clauses[i];
            proof {
                assert(lit_ok(self.clauses@[i as int].literals[0], self.vars as nat));
                assert(lit_ok(self.clauses@[i as int].literals[1], self.vars as nat));
                assert(lit_ok(self.clauses@[i as int].literals[2], self.vars as nat));
            }
            let mut found: i32 = 0;
            let mut j: usize = 0;
            while j < 3
                invariant_except_break
                    found == 0,
                    forall|t: int| 0 <= t < j ==> !lit_true(self.assigns@, #[trigger] c.literals[t]),
                invariant
                    self.wf(),
                    j <= 3,
                    i < n,
                    n == self.clauses@.len(),
                    c == self.clauses@[i as int],
                    forall|t: int| 0 <= t < 3 ==> lit_ok(#[trigger] c.literals[t], self.vars as nat),
                ensures
                    found == 0 ==> forall|t: int| 0 <= t < 3 ==> !lit_true(self.assigns@, #[trigger] c.literals[t]),
                    found != 0 ==> found == witness(self.assigns@, c.literals@),
                decreases 3 - j,
            {
                let l = c.literals[j];
                if l != 0 {
                    if signum(l) == self.assigns[lit2idx(l)] {
                        found = lit_abs(l);
                        assert(lit_true(self.assigns@, c.literals[j as int]));
                        break;
                    }
                }
                j = j + 1;
            }
            if found == 0 {
                proof {
                    assert(!lit_true(self.assigns@, c.literals[0]));
                    assert(!lit_true(self.assigns@, c.literals[1]));
                    assert(!lit_true(self.assigns@, c.literals[2]));
                    assert(witness(self.assigns@, c.literals@) == 0);
                    assert(!satisfies(self.assigns@, c.literals@)) by {
                        if satisfies(self.assigns@, c.literals@) {
                            let t = choose|t: int| 0 <= t < c.literals@.len() && #[trigger] lit_true(self.assigns@, c.literals@[t]);
                            assert(!lit_true(self.assigns@, c.literals[t]));
                        }
                    }
                    self.lemma_witness_sat(witnesses@);
                }
                return witnesses;
            }
            witnesses.push(found);
            i = i + 1;
        }
        proof {
            self.lemma_witness_sat(witnesses@);
        }
        witnesses
    }

    proof fn lemma_witness_sat(&self, w: Seq<i32>)
        requires
            self.wf_core(),
            w.len() <= self.clauses@.len(),
            forall|i: int| 0 <= i < w.len() ==> #[trigger] w[i]
                == witness(self.assigns@, self.clauses@[i].literals@) && w[i] != 0,
        ensures
            forall|i: int| 0 <= i < w.len() ==> satisfies(self.assigns@, #[trigger] self.clauses@[i].literals@),
            forall|i: int| 0 <= i < w.len() ==> names_first_true(self.assigns@, self.clauses@[i].literals@, #[trigger] w[i]),
    {
        assert forall|i: int| 0 <= i < w.len() implies names_first_true(self.assigns@, self.clauses@[i].literals@, #[trigger] w[i]) by {
            let lits = self.clauses@[i].literals@;
            assert forall|t: int| 0 <= t < 3 implies #[trigger] lits[t] != i32::MIN by {
                assert(lit_ok(self.clauses@[i].literals[t], self.vars as nat));
            }
            lemma_witness_first_true(self.assigns@, lits);
        }
        assert forall|i: int| 0 <= i < w.len() implies satisfies(self.assigns@, #[trigger] self.clauses@[i].literals@) by {
            let lits = self.clauses@[i].literals@;
            assert(w[i] != 0);
            if lit_true(self.assigns@, lits[0]) {
            } else if lit_true(self.assigns@, lits[1]) {
            } else {
                assert(lit_true(self.assigns@, lits[2]));
            }
        }
    }

    /// The number of variables.
    pub fn num_vars(&self) -> (n: usize)
        ensures
            n == self@.num_vars,
    {
        self.vars
    }

    /// The status: `0` undecided, `1` satisfiable, `-1` unsatisfiable.
    pub fn status(&self) -> (st: i32)
        ensures
            st == self@.status,
    {
        self.sat
    }

    /// The value of each variable index: `1` true, `-1` false, `0` unassigned.
    pub fn assignment(&self) -> (a: &Vec<i32>)
        ensures
            a@ == self@.assigns,
    {
        &self.assigns
    }

    /// The stored clauses.
    pub fn clauses(&self) -> (c: &Vec<Clause3>)
        ensures
            c@ == self@.clauses,
    {
        &self.clauses
    }

    /// For each variable index, the indices of the clauses naming it, once per slot, in
    /// ascending order.
    pub fn occurrences(&self) -> (o: &Vec<Vec<usize>>)
        requires
            self.wf(),
        ensures
            o@.len() == self@.num_vars,
            forall|v: int, j: int| 0 <= v < o@.len() && 0 <= j < o@[v]@.len() ==> #[trigger] o@[v]@[j] < self@.clauses.len(),
            forall|v: int, c: int| 0 <= v < o@.len() && 0 <= c < self@.clauses.len()
                ==> #[trigger] o@[v]@.to_multiset().count(c as usize) == npos(#[trigger] self@.clauses[c].literals@, v),
            forall|v: int, i: int, j: int| #![trigger o@[v]@[i], o@[v]@[j]]
                0 <= v < o@.len() && 0 <= i < j < o@[v]@.len() ==> o@[v]@[i] <= o@[v]@[j],
    {
        &self.var_to_clause
    }

    /// The number of working clauses.
    pub fn working_len(&self) -> (n: usize)
        ensures
            n == self@.working.len(),
    {
        self.workspace.len()
    }

    /// Whether `v` can be stored by `add_clause` (see `can_add`).
    pub fn can_add_clause(&self, v: &Vec<i32>) -> (ok: bool)
        ensures
            ok == can_add(v@, self@.num_vars as int, self@.clauses.len() as int),
    {
        let n = v.len();
        let k: usize = if n < 4 { 0 } else if n % 2 == 0 { n - 1 } else { n - 2 };
        let mut i: usize = 0;
        while i < n
            invariant
                n == v@.len(),
                i <= n,
                k == (if n < 4 { 0 } else { fresh_count(n as int) }),
                forall|t: int| 0 <= t < i ==> lit_ok(#[trigger] v@[t], (self.vars + allowance(n as int, t)) as nat),
            decreases n - i,
        {
            let l = v[i];
            let allow: usize = if n <= 3 { 0 } else if i < 2 { 1 } else if i <= k { i } else { k };
            assert(allow as int == allowance(n as int, i as int));
            if l != 0 && (l == i32::MIN || (lit_abs(l) as u128) > (self.vars as u128) + (allow as u128)) {
                assert(!lit_ok(v@[i as int], (self.vars + allowance(n as int, i as int)) as nat));
                return false;
            }
            i = i + 1;
        }
        if n >= 4 && (self.vars as u128) + (k as u128) > 0x7fff_ffff {
            return false;
        }
        (self.clauses.len() as u128) + (n as u128) < (usize::MAX as u128)
    }
}

} // verus!
