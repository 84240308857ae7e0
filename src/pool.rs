//! The target pool: which backend targets are live, and where the
//! round-robin rotation stands.
use vstd::prelude::*;
use vstd::arithmetic::div_mod::{
    lemma_div_is_ordered, lemma_fundamental_div_mod, lemma_fundamental_div_mod_converse,
};

verus! {

/// Why the pool could not produce a target.
#[derive(Debug, Clone, Copy, PartialEq, Eq, Structural)]
pub enum PoolError {
    /// The pool was given no targets at all.
    NoTargets,
    /// No target is live, and reconnecting did not bring any back.
    PoolUnavailable,
}

/// Abstract state of a pool: the health of each configured target, in
/// configuration order, and the index the next scan starts from.
pub ghost struct PoolState {
    pub live: Seq<bool>,
    pub cursor: int,
}

/// First live index met when scanning `k` entries cyclically from `c`.
pub open spec fn scan(live: Seq<bool>, c: int, k: nat) -> Option<int>
    decreases k,
{
    if k == 0 {
        None
    } else if live[c] {
        Some(c)
    } else {
        scan(live, if c + 1 == live.len() { 0 } else { c + 1 }, (k - 1) as nat)
    }
}

/// The target a selection picks from state `s`: one full cycle from the cursor.
pub open spec fn pick(s: PoolState) -> Option<int> {
    scan(s.live, s.cursor, s.live.len())
}

/// Index following `j` in cyclic order over `n` entries.
pub open spec fn next_index(j: int, n: int) -> int {
    if j + 1 == n { 0 } else { j + 1 }
}

/// State after one selection from `s`.
pub open spec fn after_pick(s: PoolState) -> PoolState {
    match pick(s) {
        Some(j) => PoolState { live: s.live, cursor: next_index(j, s.live.len() as int) },
        None => s,
    }
}

/// State after a reconnect sweep in which `reconnected[i]` tells whether
/// target `i` came back.
pub open spec fn swept(s: PoolState, reconnected: Seq<bool>) -> PoolState {
    PoolState { live: Seq::new(s.live.len(), |i: int| s.live[i] || reconnected[i]), cursor: s.cursor }
}

pub open spec fn has_live(live: Seq<bool>) -> bool {
    exists|i: int| 0 <= i < live.len() && #[trigger] live[i]
}

pub open spec fn state_wf(s: PoolState) -> bool {
    s.live.len() > 0 && 0 <= s.cursor < s.live.len()
}

/// The selection of targets, the round-robin cursor and the health table of
/// one application's targets. Slot `i` stands for the `i`-th configured target.
pub struct TcpConnCollection {
    live: Vec<bool>,
    cursor: usize,
}

impl View for TcpConnCollection {
    type V = PoolState;

    closed spec fn view(&self) -> PoolState {
        PoolState { live: self.live@, cursor: self.cursor as int }
    }
}

/// A scan that starts on a live entry picks it; one that picks, picks a live
/// entry no further than `k` steps away.
pub proof fn lemma_scan_live(live: Seq<bool>, c: int, k: nat)
    requires
        0 <= c < live.len(),
    ensures
        k > 0 && live[c] ==> scan(live, c, k) == Some(c),
        scan(live, c, k) matches Some(j) ==> 0 <= j < live.len() && live[j],
    decreases k,
{
    if k > 0 && !live[c] {
        lemma_scan_live(live, next_index(c, live.len() as int), (k - 1) as nat);
    }
}

/// Scanning a full cycle finds a live entry exactly when one exists.
pub proof fn lemma_scan_finds(live: Seq<bool>, c: int)
    requires
        0 <= c < live.len(),
    ensures
        scan(live, c, live.len()) is Some <==> has_live(live),
{
    lemma_scan_live(live, c, live.len());
    if has_live(live) {
        let i = choose|i: int| 0 <= i < live.len() && #[trigger] live[i];
        lemma_scan_reaches(live, c, live.len(), i);
    }
}

/// A scan of `k` entries from `c` finds something if a live entry lies within
/// those `k` entries.
proof fn lemma_scan_reaches(live: Seq<bool>, c: int, k: nat, i: int)
    requires
        0 <= c < live.len(),
        0 <= i < live.len(),
        live[i],
        (if i >= c { i - c } else { i - c + live.len() }) < k,
    ensures
        scan(live, c, k) is Some,
    decreases k,
{
    if !live[c] {
        lemma_scan_reaches(live, next_index(c, live.len() as int), (k - 1) as nat, i);
    }
}

/// The targets returned by `m` consecutive selections from `s`, in order,
/// stopping early at the first selection that finds no live target.
pub open spec fn picks(s: PoolState, m: nat) -> Seq<int>
    decreases m,
{
    if m == 0 {
        Seq::empty()
    } else {
        match pick(s) {
            Some(j) => seq![j] + picks(after_pick(s), (m - 1) as nat),
            None => Seq::empty(),
        }
    }
}

/// How many times `t` occurs in `x`.
pub open spec fn occurrences(x: Seq<int>, t: int) -> nat
    decreases x.len(),
{
    if x.len() == 0 {
        0
    } else {
        (if x[0] == t { 1nat } else { 0nat }) + occurrences(x.drop_first(), t)
    }
}

/// Steps needed to go cyclically from index `c` to index `t` over `n` entries.
pub open spec fn distance(c: int, t: int, n: int) -> int {
    if t >= c { t - c } else { t - c + n }
}

pub open spec fn all_live(live: Seq<bool>) -> bool {
    forall|i: int| 0 <= i < live.len() ==> #[trigger] live[i]
}

/// A selection keeps the pool well formed, and what it returns is live.
pub proof fn lemma_pick_step(s: PoolState)
    requires
        state_wf(s),
    ensures
        state_wf(after_pick(s)),
        after_pick(s).live == s.live,
        pick(s) matches Some(j) ==> 0 <= j < s.live.len() && s.live[j],
        all_live(s.live) ==> pick(s) == Some(s.cursor),
{
    lemma_scan_live(s.live, s.cursor, s.live.len());
    if all_live(s.live) {
        assert(s.live[s.cursor]);
    }
}

/// With every one of the `n` targets live, consecutive selections go round
/// robin: the `k`-th one returns the target `k` places after the cursor, and
/// over `m` selections each target is returned `m / n` times or once more,
/// exactly `m / n` times when `n` divides `m`.
pub proof fn lemma_round_robin(s: PoolState, m: nat)
    requires
        state_wf(s),
        all_live(s.live),
    ensures
        picks(s, m).len() == m,
        forall|k: int| 0 <= k < m ==> #[trigger] picks(s, m)[k] == (s.cursor + k) % (s.live.len() as int),
        forall|t: int| 0 <= t < s.live.len() ==> m / s.live.len() <= #[trigger] occurrences(picks(s, m), t) <= m / s.live.len() + 1,
        m % s.live.len() == 0 ==> forall|t: int| 0 <= t < s.live.len() ==> #[trigger] occurrences(picks(s, m), t) == m / s.live.len(),
{
    let n = s.live.len() as int;
    let mi = m as int;
    lemma_round_robin_order(s, m);
    assert forall|t: int| 0 <= t < n implies mi / n <= #[trigger] occurrences(picks(s, m), t) <= mi / n + 1
        && (mi % n == 0 ==> occurrences(picks(s, m), t) == mi / n) by {
        lemma_round_robin_count(s, m, t);
        let d = distance(s.cursor, t, n);
        lemma_div_is_ordered(mi, mi + n - 1 - d, n);
        lemma_div_is_ordered(mi + n - 1 - d, mi + n, n);
        lemma_div_shift(mi, n);
        if mi % n == 0 {
            lemma_fundamental_div_mod(mi, n);
            assert(mi + n - 1 - d == (mi / n) * n + (n - 1 - d)) by (nonlinear_arith)
                requires
                    mi == n * (mi / n) + mi % n,
                    mi % n == 0,
            ;
            lemma_fundamental_div_mod_converse(mi + n - 1 - d, n, mi / n, n - 1 - d);
        }
    }
}

proof fn lemma_div_shift(x: int, n: int)
    requires
        n > 0,
    ensures
        (x + n) / n == x / n + 1,
        (x + n) % n == x % n,
{
    lemma_fundamental_div_mod(x, n);
    assert(x + n == (x / n + 1) * n + x % n) by (nonlinear_arith)
        requires
            x == n * (x / n) + x % n,
    ;
    lemma_fundamental_div_mod_converse(x + n, n, x / n + 1, x % n);
}

proof fn lemma_round_robin_order(s: PoolState, m: nat)
    requires
        state_wf(s),
        all_live(s.live),
    ensures
        picks(s, m).len() == m,
        forall|k: int| 0 <= k < m ==> #[trigger] picks(s, m)[k] == (s.cursor + k) % (s.live.len() as int),
    decreases m,
{
    let n = s.live.len() as int;
    if m > 0 {
        lemma_pick_step(s);
        let s2 = after_pick(s);
        lemma_round_robin_order(s2, (m - 1) as nat);
        assert forall|k: int| 0 <= k < m implies #[trigger] picks(s, m)[k] == (s.cursor + k) % n by {
            if k == 0 {
                vstd::arithmetic::div_mod::lemma_small_mod(s.cursor as nat, n as nat);
            } else {
                assert(picks(s, m)[k] == picks(s2, (m - 1) as nat)[k - 1]);
                if s.cursor + 1 == n {
                    lemma_div_shift(k - 1, n);
                }
            }
        }
    }
}

/// Exact count: with every target live, `t` occurs `(m + n - 1 - d) / n` times
/// in `m` selections, `d` being its distance from the cursor.
proof fn lemma_round_robin_count(s: PoolState, m: nat, t: int)
    requires
        state_wf(s),
        all_live(s.live),
        0 <= t < s.live.len(),
    ensures
        occurrences(picks(s, m), t) == (m + s.live.len() - 1 - distance(s.cursor, t, s.live.len() as int)) / (s.live.len() as int),
    decreases m,
{
    let n = s.live.len() as int;
    let d = distance(s.cursor, t, n);
    if m == 0 {
        vstd::arithmetic::div_mod::lemma_small_mod((n - 1 - d) as nat, n as nat);
        lemma_fundamental_div_mod_converse(n - 1 - d, n, 0, n - 1 - d);
    } else {
        lemma_pick_step(s);
        let s2 = after_pick(s);
        lemma_round_robin_count(s2, (m - 1) as nat, t);
        let x = picks(s, m);
        assert(x.drop_first() =~= picks(s2, (m - 1) as nat));
        if d == 0 {
            lemma_div_shift(m - 1, n);
        }
    }
}

/// Number of live entries among indices `0 .. j`: the rank of a live entry
/// among the live ones.
pub open spec fn live_before(live: Seq<bool>, j: int) -> nat
    decreases j,
{
    if j <= 0 {
        0
    } else {
        live_before(live, j - 1) + (if live[j - 1] { 1nat } else { 0nat })
    }
}

/// Number of live entries.
pub open spec fn live_count(live: Seq<bool>) -> nat {
    live_before(live, live.len() as int)
}

proof fn lemma_rank_mono(live: Seq<bool>, a: int, b: int)
    requires
        0 <= a <= b <= live.len(),
    ensures
        live_before(live, a) <= live_before(live, b),
        a < b && live[a] ==> live_before(live, a) + 1 <= live_before(live, b),
    decreases b,
{
    if a < b {
        lemma_rank_mono(live, a, b - 1);
    }
}

proof fn lemma_rank_flat(live: Seq<bool>, a: int, b: int)
    requires
        0 <= a <= b <= live.len(),
        forall|i: int| a <= i < b ==> !#[trigger] live[i],
    ensures
        live_before(live, a) == live_before(live, b),
    decreases b,
{
    if a < b {
        lemma_rank_flat(live, a, b - 1);
    }
}

/// A live entry's rank is below the number of live entries, and two live
/// entries of equal rank are the same.
proof fn lemma_rank_of_live(live: Seq<bool>, a: int, b: int)
    requires
        0 <= a < live.len(),
        0 <= b < live.len(),
        live[a],
        live[b],
    ensures
        live_before(live, a) < live_count(live),
        live_before(live, a) == live_before(live, b) ==> a == b,
{
    lemma_rank_mono(live, a, live.len() as int);
    if a < b {
        lemma_rank_mono(live, a, b);
    } else if b < a {
        lemma_rank_mono(live, b, a);
    }
}

/// What a scan skips before the entry it picks is dead.
proof fn lemma_scan_skips_dead(live: Seq<bool>, c: int, k: nat)
    requires
        0 <= c < live.len(),
        k <= live.len(),
    ensures
        scan(live, c, k) matches Some(j) ==> forall|i: int| 0 <= i < live.len()
            && distance(c, i, live.len() as int) < distance(c, j, live.len() as int) ==> !#[trigger] live[i],
    decreases k,
{
    if k > 0 && !live[c] {
        let c2 = next_index(c, live.len() as int);
        lemma_scan_skips_dead(live, c2, (k - 1) as nat);
        lemma_scan_live(live, c2, (k - 1) as nat);
    }
}

/// Rank of the target the next selection from `s` returns.
pub open spec fn next_rank(s: PoolState) -> int {
    live_before(s.live, pick(s).unwrap()) as int
}

/// Consecutive selections take the live targets in order of rank, wrapping
/// after the last.
proof fn lemma_rank_advances(s: PoolState)
    requires
        state_wf(s),
        has_live(s.live),
    ensures
        state_wf(after_pick(s)),
        has_live(after_pick(s).live),
        pick(s) is Some,
        pick(after_pick(s)) is Some,
        next_rank(after_pick(s)) == next_index(next_rank(s), live_count(s.live) as int),
{
    let n = s.live.len() as int;
    lemma_pick_step(s);
    lemma_scan_finds(s.live, s.cursor);
    let j = pick(s).unwrap();
    let s2 = after_pick(s);
    let c2 = s2.cursor;
    lemma_scan_finds(s.live, c2);
    lemma_pick_step(s2);
    lemma_scan_skips_dead(s.live, c2, s.live.len());
    let j2 = pick(s2).unwrap();
    lemma_rank_of_live(s.live, j, j2);
    lemma_rank_of_live(s.live, j2, j);
    if j2 > j {
        assert forall|i: int| j + 1 <= i < j2 implies !#[trigger] s.live[i] by {
            assert(distance(c2, i, n) < distance(c2, j2, n));
        }
        lemma_rank_flat(s.live, j + 1, j2);
    } else {
        assert forall|i: int| 0 <= i < j2 implies !#[trigger] s.live[i] by {
            assert(distance(c2, i, n) < distance(c2, j2, n));
        }
        assert forall|i: int| j + 1 <= i < n implies !#[trigger] s.live[i] by {
            assert(distance(c2, i, n) < distance(c2, j2, n));
        }
        lemma_rank_flat(s.live, 0, j2);
        lemma_rank_flat(s.live, j + 1, n);
    }
}

proof fn lemma_balanced_count(s: PoolState, m: nat, t: int)
    requires
        state_wf(s),
        has_live(s.live),
        0 <= t < s.live.len(),
        s.live[t],
    ensures
        picks(s, m).len() == m,
        occurrences(picks(s, m), t) == (m + live_count(s.live) - 1 - distance(
            next_rank(s),
            live_before(s.live, t) as int,
            live_count(s.live) as int,
        )) / (live_count(s.live) as int),
    decreases m,
{
    let nl = live_count(s.live) as int;
    lemma_rank_advances(s);
    lemma_pick_step(s);
    let j = pick(s).unwrap();
    lemma_rank_of_live(s.live, j, t);
    lemma_rank_of_live(s.live, t, j);
    let d = distance(next_rank(s), live_before(s.live, t) as int, nl);
    if m == 0 {
        lemma_fundamental_div_mod_converse(nl - 1 - d, nl, 0, nl - 1 - d);
    } else {
        let s2 = after_pick(s);
        lemma_balanced_count(s2, (m - 1) as nat, t);
        let x = picks(s, m);
        assert(x.drop_first() =~= picks(s2, (m - 1) as nat));
        if d == 0 {
            lemma_div_shift(m - 1, nl);
        }
    }
}

proof fn lemma_rank_order(s: PoolState, m: nat)
    requires
        state_wf(s),
        has_live(s.live),
    ensures
        picks(s, m).len() == m,
        forall|k: int| 0 <= k < m ==> live_before(s.live, #[trigger] picks(s, m)[k])
            == (next_rank(s) + k) % (live_count(s.live) as int),
    decreases m,
{
    let nl = live_count(s.live) as int;
    if m > 0 {
        lemma_rank_advances(s);
        lemma_pick_step(s);
        let j = pick(s).unwrap();
        lemma_rank_of_live(s.live, j, j);
        let s2 = after_pick(s);
        lemma_rank_order(s2, (m - 1) as nat);
        assert forall|k: int| 0 <= k < m implies live_before(s.live, #[trigger] picks(s, m)[k])
            == (next_rank(s) + k) % nl by {
            if k == 0 {
                vstd::arithmetic::div_mod::lemma_small_mod(next_rank(s) as nat, nl as nat);
            } else {
                assert(picks(s, m)[k] == picks(s2, (m - 1) as nat)[k - 1]);
                if next_rank(s) + 1 == nl {
                    lemma_div_shift(k - 1, nl);
                }
            }
        }
    }
}

/// Round robin over the live targets, whatever the dead ones: with `N` live
/// targets and no failure in between, `m` consecutive selections take the
/// live targets in cyclic order of position, each one `m / N` times or once
/// more (exactly `m / N` times when `N` divides `m`), and no dead one.
pub proof fn lemma_round_robin_live(s: PoolState, m: nat)
    requires
        state_wf(s),
        has_live(s.live),
    ensures
        picks(s, m).len() == m,
        forall|k: int| 0 <= k < m ==> s.live[#[trigger] picks(s, m)[k]],
        forall|k: int| 0 <= k < m ==> live_before(s.live, #[trigger] picks(s, m)[k])
            == (next_rank(s) + k) % (live_count(s.live) as int),
        forall|t: int| 0 <= t < s.live.len() && s.live[t] ==> live_count(s.live) > 0
            && m / live_count(s.live) <= #[trigger] occurrences(picks(s, m), t) <= m / live_count(s.live) + 1,
        forall|t: int| 0 <= t < s.live.len() && s.live[t] && m % live_count(s.live) == 0
            ==> #[trigger] occurrences(picks(s, m), t) == m / live_count(s.live),
{
    let nl = live_count(s.live) as int;
    let mi = m as int;
    lemma_rank_order(s, m);
    lemma_rank_advances(s);
    lemma_pick_step(s);
    let j = pick(s).unwrap();
    lemma_rank_of_live(s.live, j, j);
    assert forall|k: int| 0 <= k < m implies s.live[#[trigger] picks(s, m)[k]] by {
        lemma_all_picks_live(s, m);
    }
    assert forall|t: int| 0 <= t < s.live.len() && s.live[t] implies nl > 0
        && mi / nl <= #[trigger] occurrences(picks(s, m), t) <= mi / nl + 1
        && (mi % nl == 0 ==> occurrences(picks(s, m), t) == mi / nl) by {
        lemma_rank_of_live(s.live, t, t);
        lemma_balanced_count(s, m, t);
        let d = distance(next_rank(s), live_before(s.live, t) as int, nl);
        lemma_div_is_ordered(mi, mi + nl - 1 - d, nl);
        lemma_div_is_ordered(mi + nl - 1 - d, mi + nl, nl);
        lemma_div_shift(mi, nl);
        if mi % nl == 0 {
            lemma_fundamental_div_mod(mi, nl);
            assert(mi + nl - 1 - d == (mi / nl) * nl + (nl - 1 - d)) by (nonlinear_arith)
                requires
                    mi == nl * (mi / nl) + mi % nl,
                    mi % nl == 0,
            ;
            lemma_fundamental_div_mod_converse(mi + nl - 1 - d, nl, mi / nl, nl - 1 - d);
        }
    }
}

/// Every target a run of selections returns is live.
proof fn lemma_all_picks_live(s: PoolState, m: nat)
    requires
        state_wf(s),
    ensures
        forall|k: int| 0 <= k < picks(s, m).len() ==> #[trigger] s.live[picks(s, m)[k]],
    decreases m,
{
    if m > 0 {
        lemma_pick_step(s);
        if pick(s) is Some {
            let s2 = after_pick(s);
            lemma_all_picks_live(s2, (m - 1) as nat);
            let x = picks(s, m);
            assert forall|k: int| 0 <= k < x.len() implies #[trigger] s.live[x[k]] by {
                if k > 0 {
                    assert(x[k] == picks(s2, (m - 1) as nat)[k - 1]);
                }
            }
        }
    }
}

/// A target that is dead is never returned by any run of consecutive
/// selections, and every target returned is live.
pub proof fn lemma_dead_never_picked(s: PoolState, m: nat, t: int)
    requires
        state_wf(s),
        0 <= t < s.live.len(),
        !s.live[t],
    ensures
        !picks(s, m).contains(t),
        forall|k: int| 0 <= k < picks(s, m).len() ==> #[trigger] s.live[picks(s, m)[k]],
{
    lemma_all_picks_live(s, m);
}

/// Once a failure of target `t` is reported and its one reconnect fails, no
/// later selection returns `t` until a reconnect brings it back.
pub proof fn lemma_failed_target_avoided(s: PoolState, t: int, m: nat)
    requires
        state_wf(s),
        0 <= t < s.live.len(),
    ensures
        !picks(PoolState { live: s.live.update(t, false), cursor: s.cursor }, m).contains(t),
{
    lemma_dead_never_picked(PoolState { live: s.live.update(t, false), cursor: s.cursor }, m, t);
}

impl TcpConnCollection {
    pub closed spec fn wf(&self) -> bool {
        state_wf(self@)
    }

    /// Builds a pool from the outcome of the first connection attempt to each
    /// target, in configuration order; the rotation starts at the first target.
    pub fn from_outcomes(connected: Vec<bool>) -> (r: Result<TcpConnCollection, PoolError>)
        ensures
            connected@.len() == 0 <==> r == Err::<TcpConnCollection, PoolError>(PoolError::NoTargets),
            connected@.len() > 0 && !has_live(connected@) <==> r == Err::<TcpConnCollection, PoolError>(PoolError::PoolUnavailable),
            r is Ok <==> connected@.len() > 0 && has_live(connected@),
            r matches Ok(p) ==> p.wf() && p@ == (PoolState { live: connected@, cursor: 0 }),
    {
        if connected.len() == 0 {
            return Err(PoolError::NoTargets);
        }
        let pool = TcpConnCollection { live: connected, cursor: 0 };
        proof {
            lemma_scan_finds(pool.live@, 0);
        }
        if pool.has_live_target() {
            Ok(pool)
        } else {
            Err(PoolError::PoolUnavailable)
        }
    }

    /// Number of configured targets.
    pub fn len(&self) -> (r: usize)
        ensures
            r == self@.live.len(),
    {
        self.live.len()
    }

    /// Index the next selection starts its scan from.
    pub fn cursor(&self) -> (r: usize)
        ensures
            r == self@.cursor,
    {
        self.cursor
    }

    /// Whether target `i` is currently marked live.
    pub fn is_live(&self, i: usize) -> (r: bool)
        requires
            i < self@.live.len(),
        ensures
            r == self@.live[i as int],
    {
        self.live[i]
    }

    /// Whether any target is currently marked live.
    pub fn has_live_target(&self) -> (r: bool)
        ensures
            r == has_live(self@.live),
    {
        let mut i: usize = 0;
        while i < self.live.len()
            invariant
                i <= self.live@.len(),
                forall|k: int| 0 <= k < i ==> !#[trigger] self.live@[k],
            decreases self.live@.len() - i,
        {
            if self.live[i] {
                return true;
            }
            i = i + 1;
        }
        false
    }

    /// Selects the next target: the first live one met scanning cyclically
    /// from the cursor, which then moves just past it. `None` when no target
    /// is live; the pool is then unchanged.
    pub fn acquire(&mut self) -> (r: Option<usize>)
        requires
            old(self).wf(),
        ensures
            final(self).wf(),
            final(self)@ == after_pick(old(self)@),
            r matches Some(j) ==> pick(old(self)@) == Some(j as int),
            r is None ==> pick(old(self)@) is None,
            r matches Some(j) ==> j < old(self)@.live.len() && old(self)@.live[j as int],
            r is None <==> !has_live(old(self)@.live),
    {
        let n = self.live.len();
        let ghost start = self@;
        proof {
            lemma_scan_finds(start.live, start.cursor);
            lemma_scan_live(start.live, start.cursor, start.live.len());
        }
        let mut idx: usize = self.cursor;
        let mut i: usize = 0;
        while i < n
            invariant
                self@ == start,
                start == old(self)@,
                n == start.live.len(),
                state_wf(start),
                i <= n,
                idx < n,
                pick(start) == scan(start.live, idx as int, (n - i) as nat),
            decreases n - i,
        {
            assert(self.live@[idx as int] ==> scan(start.live, idx as int, (n - i) as nat) == Some(idx as int));
            if self.live[idx] {
                self.cursor = if idx + 1 == n { 0 } else { idx + 1 };
                return Some(idx);
            }
            idx = if idx + 1 == n { 0 } else { idx + 1 };
            i = i + 1;
        }
        None
    }

    /// Records that target `i` failed, together with the outcome of the one
    /// reconnect attempted right after: the target ends live exactly when that
    /// reconnect succeeded. The cursor and the other targets are untouched.
    pub fn report_failure(&mut self, i: usize, reconnected: bool)
        requires
            old(self).wf(),
            i < old(self)@.live.len(),
        ensures
            final(self).wf(),
            final(self)@ == (PoolState {
                live: old(self)@.live.update(i as int, reconnected),
                cursor: old(self)@.cursor,
            }),
    {
        self.live.set(i, false);
        if reconnected {
            self.live.set(i, true);
        }
        assert(self.live@ =~= old(self)@.live.update(i as int, reconnected));
    }

    /// The dead targets, in configuration order: those a reconnect sweep
    /// tries, once each.
    pub fn dead_targets(&self) -> (r: Vec<usize>)
        ensures
            forall|k: int| 0 <= k < r@.len() ==> r@[k] < self@.live.len() && !self@.live[r@[k] as int],
            forall|k: int, l: int| 0 <= k < l < r@.len() ==> r@[k] < r@[l],
            forall|i: int| 0 <= i < self@.live.len() && !self@.live[i] ==> r@.contains(i as usize),
    {
        let mut r: Vec<usize> = Vec::new();
        let mut i: usize = 0;
        while i < self.live.len()
            invariant
                i <= self.live@.len(),
                forall|k: int| 0 <= k < r@.len() ==> r@[k] < i && !self.live@[r@[k] as int],
                forall|k: int, l: int| 0 <= k < l < r@.len() ==> r@[k] < r@[l],
                forall|j: int| 0 <= j < i && !self.live@[j] ==> r@.contains(j as usize),
            decreases self.live@.len() - i,
        {
            let ghost prev = r@;
            if !self.live[i] {
                r.push(i);
                assert(r@[r@.len() - 1] == i);
            }
            assert forall|j: int| 0 <= j < i + 1 && !self.live@[j] implies r@.contains(j as usize) by {
                if j < i {
                    let w = choose|w: int| 0 <= w < prev.len() && prev[w] == j as usize;
                    assert(r@[w] == j as usize);
                }
            }
            i = i + 1;
        }
        r
    }

    /// Ends a reconnect sweep: applies its outcomes as `record_sweep` does,
    /// then selects as `acquire` does, failing with `PoolUnavailable` when
    /// still no target is live.
    pub fn finish_sweep(&mut self, reconnected: &Vec<bool>) -> (r: Result<usize, PoolError>)
        requires
            old(self).wf(),
            reconnected@.len() == old(self)@.live.len(),
        ensures
            final(self).wf(),
            final(self)@ == after_pick(swept(old(self)@, reconnected@)),
            r matches Ok(j) ==> pick(swept(old(self)@, reconnected@)) == Some(j as int),
            r is Err ==> pick(swept(old(self)@, reconnected@)) is None
                && r == Err::<usize, PoolError>(PoolError::PoolUnavailable),
    {
        self.record_sweep(reconnected);
        proof {
            assert(self@.live =~= swept(old(self)@, reconnected@).live);
        }
        match self.acquire() {
            Some(j) => Ok(j),
            None => Err(PoolError::PoolUnavailable),
        }
    }

    /// Applies the outcomes of a reconnect sweep: `reconnected[i]` tells
    /// whether a reconnect to target `i` succeeded. Those targets become live;
    /// nothing else changes.
    pub fn record_sweep(&mut self, reconnected: &Vec<bool>)
        requires
            old(self).wf(),
            reconnected@.len() == old(self)@.live.len(),
        ensures
            final(self).wf(),
            final(self)@.cursor == old(self)@.cursor,
            final(self)@.live.len() == old(self)@.live.len(),
            forall|i: int| 0 <= i < old(self)@.live.len() ==>
                #[trigger] final(self)@.live[i] == (old(self)@.live[i] || reconnected@[i]),
    {
        let ghost before = self@.live;
        let mut i: usize = 0;
        while i < reconnected.len()
            invariant
                state_wf(self@),
                self@.cursor == old(self)@.cursor,
                before == old(self)@.live,
                self@.live.len() == before.len(),
                reconnected@.len() == before.len(),
                i <= before.len(),
                forall|j: int| 0 <= j < i ==> #[trigger] self@.live[j] == (before[j] || reconnected@[j]),
                forall|j: int| i <= j < before.len() ==> #[trigger] self@.live[j] == before[j],
            decreases before.len() - i,
        {
            if reconnected[i] {
                self.live.set(i, true);
            }
            i = i + 1;
        }
    }
}

} // verus!
