//! The outside code the library relies on: the genome model of `set_genome`
//! and the weighted sampling of `rand`.
use vstd::prelude::*;
use set_genome::{Genome, GenomeContext, GenomeRng, Mutations, Parameters};
use rand::distributions::{Distribution, WeightedIndex};
use crate::binary64::{is_nan, magnitude, real_ge, real_gt};

verus! {

#[verifier::external_type_specification]
#[verifier::external_body]
pub struct ExGenome(Genome);

#[verifier::external_type_specification]
#[verifier::external_body]
pub struct ExGenomeContext(GenomeContext);

#[verifier::external_type_specification]
#[verifier::external_body]
pub struct ExGenomeRng(GenomeRng);

#[verifier::external_type_specification]
#[verifier::external_body]
pub struct ExGenomeParameters(Parameters);

/// Relies on the derived `Clone` of `set_genome::Genome`: a clone holds the
/// same genes.
pub assume_specification[ <Genome as Clone>::clone ](g: &Genome) -> (r: Genome)
    ensures
        r == *g,
;

/// What `Genome::len` returns: the number of connection genes.
pub uninterp spec fn genome_len(g: Genome) -> nat;

/// Relies on `Genome::len`: the feed-forward plus the recurrent connection
/// genes.
pub assume_specification[ Genome::len ](g: &Genome) -> (r: usize)
    ensures
        r == genome_len(*g),
;

/// The bit pattern of `parameters.structure.weight_cap`.
pub uninterp spec fn weight_cap_of(p: Parameters) -> u64;

/// The bit pattern of `parameters.structure.weight_std_dev`.
pub uninterp spec fn weight_std_dev_of(p: Parameters) -> u64;

/// The bit pattern of `parameters.structure.inputs_connected_percent`.
pub uninterp spec fn connected_percent_of(p: Parameters) -> u64;

/// `parameters.structure.inputs`.
pub uninterp spec fn inputs_of(p: Parameters) -> usize;

/// `parameters.structure.outputs`.
pub uninterp spec fn outputs_of(p: Parameters) -> usize;

/// `parameters.mutations.len()`.
pub uninterp spec fn mutation_count_of(p: Parameters) -> usize;

/// For the `i`-th configured mutation: the length of its activation pool if
/// it is `AddNode`, else `None`.
pub uninterp spec fn add_node_pool_of(p: Parameters, i: usize) -> Option<usize>;

/// Reads `parameters.structure.weight_cap` as bits.
#[verifier::external_body]
pub(crate) fn weight_cap_bits(p: &Parameters) -> (r: u64)
    ensures
        r == weight_cap_of(*p),
{
    p.structure.weight_cap.to_bits()
}

/// Reads `parameters.structure.weight_std_dev` as bits.
#[verifier::external_body]
pub(crate) fn weight_std_dev_bits(p: &Parameters) -> (r: u64)
    ensures
        r == weight_std_dev_of(*p),
{
    p.structure.weight_std_dev.to_bits()
}

/// Reads `parameters.structure.inputs_connected_percent` as bits.
#[verifier::external_body]
pub(crate) fn connected_percent_bits(p: &Parameters) -> (r: u64)
    ensures
        r == connected_percent_of(*p),
{
    p.structure.inputs_connected_percent.to_bits()
}

/// Reads `parameters.structure.inputs`.
#[verifier::external_body]
pub(crate) fn input_count(p: &Parameters) -> (r: usize)
    ensures
        r == inputs_of(*p),
{
    p.structure.inputs
}

/// Reads `parameters.structure.outputs`.
#[verifier::external_body]
pub(crate) fn output_count(p: &Parameters) -> (r: usize)
    ensures
        r == outputs_of(*p),
{
    p.structure.outputs
}

/// Relies on `Vec::len` of `parameters.mutations`.
#[verifier::external_body]
pub(crate) fn mutation_count(p: &Parameters) -> (r: usize)
    ensures
        r == mutation_count_of(*p),
{
    p.mutations.len()
}

/// Tells the `AddNode` variant of the `i`-th mutation apart, with the length
/// of its activation pool.
#[verifier::external_body]
pub(crate) fn add_node_pool(p: &Parameters, i: usize) -> (r: Option<usize>)
    requires
        i < mutation_count_of(*p),
    ensures
        r == add_node_pool_of(*p, i),
{
    match &p.mutations[i] {
        Mutations::AddNode { activation_pool, .. } => Some(activation_pool.len()),
        _ => None,
    }
}

/// The binary64 pattern of `1.0`.
pub const ONE_BITS: u64 = 0x3ff0_0000_0000_0000;

/// The magnitude of the binary64 pattern of `1e300`: a standard deviation up
/// to this size keeps every normal draw (a few tens of deviations at most)
/// finite.
pub const STD_DEV_BOUND: u64 = 0x7e37_e43c_8800_759c;

/// Some configured mutation is `AddNode`.
pub open spec fn adds_nodes(p: Parameters) -> bool {
    exists|i: usize| i < mutation_count_of(p) && (#[trigger] add_node_pool_of(p, i)) is Some
}

/// Parameters under which building a context, initialising its template and
/// mutating its genomes all return: a finite standard deviation of at most
/// `1e300` (so perturbations are finite and the normal distribution can be
/// built), a weight cap of at least `1` (so every weight within it, `1` among
/// them, can be perturbed back inside it), non-empty `AddNode` activation
/// pools and, where `AddNode` is configured, initialisation that connects an
/// input to an output.
pub open spec fn parameters_allow_mutation(p: Parameters) -> bool {
    &&& !is_nan(weight_std_dev_of(p))
    &&& magnitude(weight_std_dev_of(p)) <= STD_DEV_BOUND
    &&& real_ge(weight_cap_of(p), ONE_BITS)
    &&& forall|i: usize| i < mutation_count_of(p) && (#[trigger] add_node_pool_of(p, i)) is Some
        ==> add_node_pool_of(p, i).unwrap() > 0
    &&& adds_nodes(p) ==> real_gt(connected_percent_of(p), 0) && inputs_of(p) > 0 && outputs_of(p) > 0
}

/// The context was built from parameters that satisfy
/// `parameters_allow_mutation`: its generator has that cap and deviation, and
/// its mutations and structure are those parameters'. Drawing from the
/// generator and handing out ids does not change this.
pub uninterp spec fn mutation_safe(ctx: GenomeContext) -> bool;

/// What `GenomeContext::uninitialized_genome` returns: a clone of the template
/// the context built, with its input and output nodes and no connections.
pub uninterp spec fn template_of(ctx: GenomeContext) -> Genome;

/// `g` belongs to `ctx`: it has the template's input and output nodes, every
/// other node id in it was handed out by the context's id generator, and its
/// connections join its own nodes (so a split, whose new id is neither an
/// input, an output nor one of its hidden nodes, never meets a connection that
/// is already there), every connection
/// weight lies within the generator's cap and, where the context configures
/// `AddNode`, `g` has a feed-forward connection from an input to an output.
/// Handing out more ids or drawing from the generator keeps this.
pub uninterp spec fn fits_context(g: Genome, ctx: GenomeContext) -> bool;

/// Relies on `GenomeContext::new`: builds the generator with
/// `Normal::new(0, weight_std_dev)`, which fails only for a deviation that is
/// not finite, and the template and an initialised copy of it, which returns
/// for a cap that is not negative.
pub assume_specification[ GenomeContext::new ](parameters: Parameters) -> (r: GenomeContext)
    requires
        parameters_allow_mutation(parameters),
    ensures
        mutation_safe(r),
;

/// Relies on `GenomeContext::uninitialized_genome`: a clone of the template,
/// with no connection genes.
pub assume_specification[ GenomeContext::uninitialized_genome ](ctx: &GenomeContext) -> (r: Genome)
    ensures
        r == template_of(*ctx),
        genome_len(r) == 0,
;

/// Relies on `Genome::init_with_context`: connects a share of the template's
/// inputs to every output with weights from `weight_perturbation(0.0)`, which
/// lie within the cap. It asserts that each connection it adds is new, which
/// holds on the template, which has none. Only the generator's state changes
/// in the context.
pub assume_specification[ Genome::init_with_context ](g: &mut Genome, context: &mut GenomeContext)
    requires
        mutation_safe(*old(context)),
        *old(g) == template_of(*old(context)),
    ensures
        fits_context(*final(g), *final(context)),
        mutation_safe(*final(context)),
        template_of(*final(context)) == template_of(*old(context)),
        forall|x: Genome| fits_context(x, *old(context)) ==> #[trigger] fits_context(x, *final(context)),
;

/// Relies on `Genome::mutate_with_context`: applies each configured mutation
/// with its chance. `add_node` unwraps a random feed-forward connection and a
/// random activation of its pool, takes the new node's id from the context's
/// id cache and asserts that the connections it adds are new; `change_weights`
/// perturbs weights until they lie within the cap, which returns for a weight
/// that starts within it. `fits_context` and `mutation_safe` cover all of
/// these. New weights come from the perturbation, are `0` or `1`, or are
/// copied; the only connections removed are those of a removed hidden node, so
/// an input-to-output connection stays. The context changes only in the
/// generator's state and the ids it has handed out.
pub assume_specification[ Genome::mutate_with_context ](g: &mut Genome, context: &mut GenomeContext)
    requires
        mutation_safe(*old(context)),
        fits_context(*old(g), *old(context)),
    ensures
        fits_context(*final(g), *final(context)),
        mutation_safe(*final(context)),
        template_of(*final(context)) == template_of(*old(context)),
        forall|x: Genome| fits_context(x, *old(context)) ==> #[trigger] fits_context(x, *final(context)),
;

/// Relies on `Genome::cross_in`: the child holds every connection gene of
/// `fitter` (genes present in both take either parent's weight at random,
/// the rest come from `fitter`), so it has as many as `fitter`.
#[verifier::external_body]
pub(crate) fn cross_in(fitter: &Genome, weaker: &Genome, rng: &mut GenomeRng) -> (r: Genome)
    ensures
        genome_len(r) == genome_len(*fitter),
{
    fitter.cross_in(weaker, rng)
}

/// Relies on rand's `WeightedIndex`: built from a non-empty list of positive
/// weights whose sum fits (each below `2^64`, fewer than `2^64` of them), it
/// samples, with the context's generator, an index into the list, each with
/// probability proportional to its weight. Only the generator's state changes
/// in the context.
#[verifier::external_body]
pub(crate) fn pick_weighted(weights: &Vec<u128>, context: &mut GenomeContext) -> (r: usize)
    requires
        weights.len() > 0,
        forall|i: int| 0 <= i < weights.len() ==> 0 < #[trigger] weights[i] <= u64::MAX,
    ensures
        r < weights.len(),
        mutation_safe(*final(context)) == mutation_safe(*old(context)),
        template_of(*final(context)) == template_of(*old(context)),
        forall|x: Genome| fits_context(x, *old(context)) ==> #[trigger] fits_context(x, *final(context)),
{
    let distribution = WeightedIndex::new(weights.iter()).unwrap();
    distribution.sample(&mut context.rng)
}

/// Whether `parameters` let a context built from them initialise and mutate
/// its genomes.
pub fn allows_mutation(parameters: &Parameters) -> (r: bool)
    ensures
        r == parameters_allow_mutation(*parameters),
{
    let deviation = weight_std_dev_bits(parameters);
    if crate::binary64::nan(deviation) {
        return false;
    }
    let deviation_magnitude: u64 = if deviation >= crate::binary64::SIGN_BIT {
        deviation - crate::binary64::SIGN_BIT
    } else {
        deviation
    };
    if deviation_magnitude > STD_DEV_BOUND {
        return false;
    }
    if !crate::binary64::greater_or_equal(weight_cap_bits(parameters), ONE_BITS) {
        return false;
    }
    let n = mutation_count(parameters);
    let mut adds = false;
    let mut i: usize = 0;
    while i < n
        invariant
            n == mutation_count_of(*parameters),
            i <= n,
            forall|k: usize| k < i && (#[trigger] add_node_pool_of(*parameters, k)) is Some
                ==> add_node_pool_of(*parameters, k).unwrap() > 0,
            adds == exists|k: usize| k < i && (#[trigger] add_node_pool_of(*parameters, k)) is Some,
        decreases n - i,
    {
        match add_node_pool(parameters, i) {
            Some(pool) => {
                if pool == 0 {
                    return false;
                }
                adds = true;
            },
            None => {},
        }
        proof {
            assert(adds == exists|k: usize| k < i + 1 && (#[trigger] add_node_pool_of(*parameters, k)) is Some) by {
                if add_node_pool_of(*parameters, i) is Some {
                    assert(add_node_pool_of(*parameters, i) is Some);
                }
            }
        }
        i += 1;
    }
    if adds {
        crate::binary64::greater(connected_percent_bits(parameters), 0) && input_count(parameters) > 0
            && output_count(parameters) > 0
    } else {
        true
    }
}

} // verus!
