//! Generation of a whole dungeon, from its specification to its voxels.

use vstd::prelude::*;
use crate::connectivity::fully_connected;
use crate::generator::Generator;
use crate::generator::GeneratorView;
use crate::generator::SeparationBias;
use crate::generator::fresh_generator_stays_within_bounds;
use crate::grid::DungeonSpecification;
use crate::grid::well_formed;
use crate::voxel::Voxel;
use crate::voxel::voxelize;
use crate::voxel::voxels_fit;
use crate::voxel::voxels_of;
use rand::rngs::StdRng;

verus! {

/// Starts with a grid of closed rooms, opens walls drawn from `rng` until
/// every room can be reached from every other, and returns the voxels of
/// the walls that are left.
pub fn generate_dungeon(spec: DungeonSpecification, rng: &mut StdRng, bias: &SeparationBias) -> (voxels:
    Vec<Voxel>)
    requires
        spec.indexable(),
        voxels_fit(&spec),
        bias.valid(),
    ensures
        exists|outcome: GeneratorView| #[trigger]
            outcome.is_outcome(spec) && voxels@ == voxels_of(&spec, outcome.rooms),
{
    let mut generator = Generator::new(spec);
    let ghost fresh = generator@;
    let steps = generator.run(rng, bias);
    let voxels = voxelize(generator.spec(), generator.rooms());
    proof {
        assert(fresh.reaches(generator@, steps as nat));
        assert(generator@.is_outcome(spec));
    }
    voxels
}

/// Whatever the generator ends with is a well-formed grid in which every
/// room can be reached from every other.
pub proof fn outcome_is_connected(spec: DungeonSpecification, outcome: GeneratorView)
    requires
        spec.indexable(),
        outcome.is_outcome(spec),
    ensures
        outcome.spec == spec,
        well_formed(&spec, outcome.rooms),
        fully_connected(&spec, outcome.rooms),
{
    let (fresh, steps) = choose|fresh: GeneratorView, steps: nat|
        fresh.is_fresh(spec) && #[trigger] fresh.reaches(outcome, steps);
    fresh_generator_stays_within_bounds(spec, fresh, outcome, steps);
}

} // verus!
