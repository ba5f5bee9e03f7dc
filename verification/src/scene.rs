//! Choosing what the small spheres of the demonstration scene are made of.
//!
//! Four in five are diffuse, three in twenty are metal and one in twenty is
//! glass. The draw itself is left to the `rand` crate, from a generator that
//! the caller seeds and hands in; what is proved here is that every index it
//! can hand back names a material.

use crate::material::MaterialKind;
use vstd::prelude::*;

verus! {

/// Sum of a list of weights.
pub open spec fn total_weight(weights: Seq<u32>) -> nat
    decreases weights.len(),
{
    if weights.len() == 0 {
        0
    } else {
        total_weight(weights.drop_last()) + weights.last() as nat
    }
}

/// Relative frequencies of the three kinds, in the order of [`kind_at`].
pub open spec fn kind_weights() -> Seq<u32> {
    seq![80u32, 15u32, 5u32]
}

/// The kind that a drawn index stands for.
pub open spec fn kind_at(index: int) -> Option<MaterialKind> {
    if index == 0 {
        Some(MaterialKind::Lambertian)
    } else if index == 1 {
        Some(MaterialKind::Metal)
    } else if index == 2 {
        Some(MaterialKind::Dielectric)
    } else {
        None
    }
}

/// The seedable generator of the `rand` crate. Nothing is known of its state.
#[verifier::external_type_specification]
#[verifier::external_body]
pub struct ExStdRng(rand::rngs::StdRng);

/// Draws an index with the weights given: builds the table with
/// `rand::distributions::WeightedIndex::new` and takes one sample of it from
/// the given generator with `Distribution::sample`.
///
/// Believed of `rand`, not proved: the table is built unless the list is empty
/// or sums to zero (for unsigned weights no other refusal exists), and a
/// sample is a position in the list. The sum has to fit in a `u32` because
/// `WeightedIndex::new` accumulates it in the weights' own type. Nothing is
/// said of the generator afterwards.
#[verifier::external_body]
fn weighted_index(weights: &Vec<u32>, rng: &mut rand::rngs::StdRng) -> (drawn: Option<usize>)
    requires
        total_weight(weights@) <= u32::MAX,
    ensures
        drawn is Some <==> total_weight(weights@) > 0,
        drawn matches Some(i) ==> i < weights@.len(),
{
    match rand::distributions::WeightedIndex::new(weights) {
        Ok(table) => Some(rand::distributions::Distribution::sample(&table, rng)),
        Err(_) => None,
    }
}

/// The kind for a drawn index: 0 is diffuse, 1 metal, 2 glass; nothing else
/// names a kind.
pub fn kind_for_index(index: usize) -> (kind: Option<MaterialKind>)
    ensures
        kind == kind_at(index as int),
{
    if index == 0 {
        Some(MaterialKind::Lambertian)
    } else if index == 1 {
        Some(MaterialKind::Metal)
    } else if index == 2 {
        Some(MaterialKind::Dielectric)
    } else {
        None
    }
}

proof fn lemma_kind_weights_total()
    ensures
        total_weight(kind_weights()) == 100,
        kind_weights().len() == 3,
{
    let w = kind_weights();
    assert(w.drop_last() =~= seq![80u32, 15u32]);
    assert(w.drop_last().drop_last() =~= seq![80u32]);
    assert(w.drop_last().drop_last().drop_last() =~= Seq::<u32>::empty());
    reveal_with_fuel(total_weight, 4);
}

/// Draws the material of one small sphere with the frequencies of
/// [`kind_weights`]. Which kind comes back is up to the generator; that one
/// always does is proved.
pub fn draw_kind(rng: &mut rand::rngs::StdRng) -> (kind: MaterialKind)
{
    let mut weights: Vec<u32> = Vec::new();
    weights.push(80);
    weights.push(15);
    weights.push(5);
    proof {
        assert(weights@ =~= kind_weights());
        lemma_kind_weights_total();
    }
    match weighted_index(&weights, rng) {
        Some(index) => match kind_for_index(index) {
            Some(kind) => kind,
            None => unreached(),
        },
        None => unreached(),
    }
}

} // verus!
