use quantom_value::QuantPerm;

use vstd::prelude::*;

use crate::graph::slotmap::sat_add;

verus! {

/// Mass retained from one realized object, with the dimension it was
/// retained from.
#[derive(Debug, Clone, Copy, PartialEq, Eq, Structural)]
pub struct Retain {
    pub mass: u128,
    pub from: u64,
}

/// The work values of one manifold transition.
#[derive(Debug, Clone, Copy, PartialEq, Eq, Structural)]
pub struct TransitionReceipt {
    /// Resistance magnitude τ.
    pub tau: u128,
    /// Total manifold resistance Δ (clockwise plus counter-clockwise arc).
    pub delta: u128,
    /// τ × Δ, saturating.
    pub gross_work: u128,
    /// Gross work less the structural value held before, floored at 0.
    pub net_work: u128,
}

/// The state of a manifold right after a transition.
#[derive(Debug, Clone, Copy, PartialEq, Eq, Structural)]
pub struct ManifoldState {
    pub dimension: u64,
    pub structural_value: u128,
    pub retained_mass: u128,
    pub activations: u64,
}

impl ManifoldState {
    /// Angular coordinate after the transition.
    pub fn dimension(&self) -> (r: u64)
        ensures
            r == self.dimension,
    {
        self.dimension
    }

    /// Accumulated structural value Σ.
    pub fn structural_value(&self) -> (r: u128)
        ensures
            r == self.structural_value,
    {
        self.structural_value
    }

    /// Retained mass E.
    pub fn retained_mass(&self) -> (r: u128)
        ensures
            r == self.retained_mass,
    {
        self.retained_mass
    }

    /// Number of transitions taken.
    pub fn activations(&self) -> (r: u64)
        ensures
            r == self.activations,
    {
        self.activations
    }
}

/// The receipt of one transition: its work values and the state it left.
#[derive(Debug, Clone, Copy, PartialEq, Eq, Structural)]
pub struct Heritage {
    pub transition: TransitionReceipt,
    pub state: ManifoldState,
}

/// `quantom_value::QuantPerm`, the value manifold, held opaque: what the
/// library knows of one comes from the names below.
#[verifier::external_type_specification]
#[verifier::external_body]
pub struct ExQuantPerm(QuantPerm);

/// Retained mass E of a manifold, as `QuantPerm::retained_mass` reports it.
pub uninterp spec fn manifold_retained_mass(q: QuantPerm) -> u128;

/// Structural value Σ of a manifold, as `QuantPerm::structural_value` reports it.
pub uninterp spec fn manifold_structural_value(q: QuantPerm) -> u128;

/// Transition count of a manifold, as `QuantPerm::activations` reports it.
pub uninterp spec fn manifold_activations(q: QuantPerm) -> u64;

/// Angular coordinate of a manifold, as `QuantPerm::dimension` reports it.
pub uninterp spec fn manifold_dimension(q: QuantPerm) -> u64;

/// What `QuantPerm::transition` derives from the seed and the state it starts
/// in: the destination dimension (a hash of the seed's mirror of the current
/// dimension and of the activation count) and the τ of the gravity receipt
/// (from the retained mass and that mirror).
pub uninterp spec fn transition_outcome(
    seed: Option<Seq<u8>>,
    dimension: u64,
    activations: u64,
    retained_mass: u128,
) -> (u64, u128);

/// The bytes of an optional seed.
pub open spec fn seed_view(seed: Option<&[u8]>) -> Option<Seq<u8>> {
    match seed {
        Some(s) => Some(s@),
        None => None,
    }
}

/// `a - b`, floored at 0.
pub open spec fn sat_sub(a: u128, b: u128) -> u128 {
    if a < b {
        0
    } else {
        (a - b) as u128
    }
}

/// `a * b`, held at `u128::MAX` where it would overflow.
pub open spec fn sat_mul(a: u128, b: u128) -> u128 {
    if a * b > u128::MAX {
        u128::MAX
    } else {
        (a * b) as u128
    }
}

/// One arc of the manifold mapped to `[0, 180]`.
pub open spec fn arc_180(d: u64) -> u128 {
    ((d as nat * 180) / (u64::MAX as nat)) as u128
}

/// Total manifold resistance Δ between two dimensions: the clockwise arc plus
/// the counter-clockwise arc, each mapped to `[0, 180]`.
pub open spec fn arc_delta(from: u64, to: u64) -> u128 {
    let diff: u64 = if to >= from {
        (to - from) as u64
    } else {
        (from - to) as u64
    };
    (arc_180(diff) + arc_180((u64::MAX - diff) as u64)) as u128
}

/// The saturating operations agree with std's `saturating_add` and
/// `saturating_sub` on `u128`.
pub proof fn lemma_saturating_ops_match_std(a: u128, b: u128)
    ensures
        sat_add(a, b) == a.saturating_add(b),
        sat_sub(a, b) == a.saturating_sub(b),
{
}

/// The saturating product is the true product where that fits, and the
/// ceiling where it does not; it is symmetric, has 1 as identity and 0 as
/// zero, and never falls below either non-zero factor.
pub proof fn lemma_sat_mul_laws(a: u128, b: u128)
    ensures
        a * b <= u128::MAX ==> sat_mul(a, b) == a * b,
        a * b > u128::MAX ==> sat_mul(a, b) == u128::MAX,
        sat_mul(a, b) == sat_mul(b, a),
        sat_mul(a, 1) == a,
        sat_mul(a, 0) == 0,
        b >= 1 ==> sat_mul(a, b) >= a,
{
    assert(a * b == b * a) by (nonlinear_arith);
    assert(b >= 1 ==> a * b >= a) by (nonlinear_arith);
}

/// The structural value after a transition is the greater of the value
/// before and the gross work: the net work raises Σ exactly to the gross work
/// when that is larger, and leaves it otherwise.
pub proof fn lemma_sigma_after_net_work(sigma: u128, gross: u128)
    ensures
        sat_add(sigma, sat_sub(gross, sigma)) == (if gross > sigma {
            gross
        } else {
            sigma
        }),
{
}

/// Δ is the same in both directions, is 180 between a dimension and itself,
/// and is always 179 or 180 (the two arcs cover the whole manifold, each
/// rounded down).
pub proof fn lemma_arc_delta_laws(from: u64, to: u64)
    ensures
        arc_delta(from, to) == arc_delta(to, from),
        arc_delta(from, from) == 180,
        179 <= arc_delta(from, to) <= 180,
{
    let m: int = u64::MAX as int;
    let diff: int = if to >= from {
        to - from
    } else {
        from - to
    };
    let x: int = diff * 180;
    let y: int = (m - diff) * 180;
    assert(0 <= diff <= m);
    assert(x + y == m * 180) by (nonlinear_arith)
        requires
            x == diff * 180,
            y == (m - diff) * 180,
    ;
    assert(x >= 0 && y >= 0) by (nonlinear_arith)
        requires
            x == diff * 180,
            y == (m - diff) * 180,
            0 <= diff <= m,
    ;
    let qa = x / m;
    let qb = y / m;
    assert(179 <= qa + qb <= 180) by (nonlinear_arith)
        requires
            m > 0,
            x >= 0,
            y >= 0,
            x + y == m * 180,
            qa == x / m,
            qb == y / m,
    {
        assert(x == m * qa + x % m);
        assert(y == m * qb + y % m);
        assert(0 <= x % m < m);
        assert(0 <= y % m < m);
        assert(m * (qa + qb) == m * 180 - x % m - y % m);
        assert(m * (qa + qb) > m * 178);
        assert(m * (qa + qb) <= m * 180);
    }
    assert(arc_180(0) == 0);
    assert(arc_180(u64::MAX) == 180) by {
        assert((u64::MAX as nat * 180) / (u64::MAX as nat) == 180) by (nonlinear_arith);
    }
}

/// Reads `QuantPerm::retained_mass`.
#[verifier::external_body]
pub(crate) fn read_retained_mass(q: &QuantPerm) -> (r: u128)
    ensures
        r == manifold_retained_mass(*q),
{
    q.retained_mass()
}

/// Reads `QuantPerm::structural_value`.
#[verifier::external_body]
pub(crate) fn read_structural_value(q: &QuantPerm) -> (r: u128)
    ensures
        r == manifold_structural_value(*q),
{
    q.structural_value()
}

/// Reads `QuantPerm::activations`.
#[verifier::external_body]
pub(crate) fn read_activations(q: &QuantPerm) -> (r: u64)
    ensures
        r == manifold_activations(*q),
{
    q.activations()
}

/// Reads `QuantPerm::dimension`.
#[verifier::external_body]
pub(crate) fn read_dimension(q: &QuantPerm) -> (r: u64)
    ensures
        r == manifold_dimension(*q),
{
    q.dimension()
}

/// Calls `QuantPerm::retain`: the retained mass grows by `mass`, saturating,
/// and nothing else of the manifold changes.
#[verifier::external_body]
pub(crate) fn retain_mass(q: &mut QuantPerm, mass: u128)
    ensures
        manifold_retained_mass(*final(q)) == sat_add(manifold_retained_mass(*old(q)), mass),
        manifold_structural_value(*final(q)) == manifold_structural_value(*old(q)),
        manifold_activations(*final(q)) == manifold_activations(*old(q)),
        manifold_dimension(*final(q)) == manifold_dimension(*old(q)),
{
    q.retain(mass)
}

/// Calls `QuantPerm::transition` and hands back the τ of its gravity receipt.
///
/// The call moves the dimension to the derived destination, the
/// activation count grows by one (it overflows, and panics, at `u64::MAX`),
/// the retained mass is kept, and Σ grows by the net work
/// `max(τ·Δ − Σ, 0)` (saturating), where τ is the returned value and Δ the
/// arc between the old and the new dimension. The destination and τ
/// themselves come from a hash and are only named.
#[verifier::external_body]
pub(crate) fn run_transition(q: &mut QuantPerm, seed: Option<&[u8]>) -> (tau: u128)
    requires
        manifold_activations(*old(q)) < u64::MAX,
    ensures
        ({
            let outcome = transition_outcome(
                seed_view(seed),
                manifold_dimension(*old(q)),
                manifold_activations(*old(q)),
                manifold_retained_mass(*old(q)),
            );
            let sigma = manifold_structural_value(*old(q));
            &&& tau == outcome.1
            &&& manifold_dimension(*final(q)) == outcome.0
            &&& manifold_activations(*final(q)) == manifold_activations(*old(q)) + 1
            &&& manifold_retained_mass(*final(q)) == manifold_retained_mass(*old(q))
            &&& manifold_structural_value(*final(q)) == sat_add(
                sigma,
                sat_sub(sat_mul(tau, arc_delta(manifold_dimension(*old(q)), outcome.0)), sigma),
            )
        }),
{
    q.transition(seed).tau
}

/// One arc of the manifold mapped to `[0, 180]`.
fn arc_to_180(d: u64) -> (r: u128)
    ensures
        r == arc_180(d),
        r <= 180,
{
    let wide: u128 = d as u128;
    assert(wide * 180 <= 0xffff_ffff_ffff_ffff * 180) by (nonlinear_arith)
        requires
            wide <= 0xffff_ffff_ffff_ffff,
    ;
    let scaled: u128 = wide * 180;
    let r = scaled / 0xffff_ffff_ffff_ffffu128;
    assert(r <= 180) by (nonlinear_arith)
        requires
            scaled <= 0xffff_ffff_ffff_ffff * 180,
            r == scaled / 0xffff_ffff_ffff_ffffu128,
    ;
    r
}

/// Total manifold resistance Δ between two dimensions.
pub fn manifold_arc_delta(from: u64, to: u64) -> (r: u128)
    ensures
        r == arc_delta(from, to),
{
    let diff = if to >= from {
        to - from
    } else {
        from - to
    };
    arc_to_180(diff) + arc_to_180(u64::MAX - diff)
}

/// `a * b`, held at `u128::MAX` where it would overflow.
pub fn saturating_mul_u128(a: u128, b: u128) -> (r: u128)
    ensures
        r == sat_mul(a, b),
{
    match a.checked_mul(b) {
        Some(p) => p,
        None => u128::MAX,
    }
}

} // verus!
