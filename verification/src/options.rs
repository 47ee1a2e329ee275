//! The options of a reaction analysis.
use crate::reaction::Error;
use vstd::prelude::*;

verus! {

/// What the user chooses for a reaction analysis.
#[derive(Debug, Clone, Copy)]
pub struct ReactionOptions {
    /// The step by which the frames of the trajectory are read: 1 for every
    /// frame, 2 for every second one.
    pub read_trajectory_step_by: usize,
    /// The longest life, in frames, of a bonding event that counts as noise.
    /// Two neighbouring chunks share as many frames.
    pub noise_event_life: usize,
    /// Whether the species of each reaction and the frames around it are
    /// written to files.
    pub write_reaction_species: bool,
    /// Number of frames in a chunk.
    pub chunk_size: usize,
    /// Whether the lattice is read from the title of a frame, where the
    /// title gives one.
    pub read_lattice_extxyz: bool,
}

impl ReactionOptions {
    /// Whether the options can be worked with: the chunk holds more than
    /// twice the noise event life plus one frames, and the reading step is
    /// not zero.
    pub open spec fn valid(self) -> bool {
        self.chunk_size > 2 * self.noise_event_life + 1 && self.read_trajectory_step_by != 0
    }

    /// Checks the options, see `valid`.
    pub fn validate(&self) -> (checked: Result<(), Error>)
        ensures
            checked is Ok <==> self.valid(),
            checked matches Err(e) ==> e == Error::InvalidConfig,
    {
        if self.read_trajectory_step_by == 0 {
            return Err(Error::InvalidConfig);
        }
        if self.noise_event_life > (usize::MAX - 1) / 2 {
            return Err(Error::InvalidConfig);
        }
        if self.chunk_size > 2 * self.noise_event_life + 1 {
            Ok(())
        } else {
            Err(Error::InvalidConfig)
        }
    }
}

impl Default for ReactionOptions {
    /// Every frame is read, in chunks of 200 frames, with a noise event life
    /// of 20 frames; no species are written, and the lattice is read.
    fn default() -> (options: Self)
        ensures
            options.read_trajectory_step_by == 1,
            options.noise_event_life == 20,
            !options.write_reaction_species,
            options.chunk_size == 200,
            options.read_lattice_extxyz,
            options.valid(),
    {
        Self {
            read_trajectory_step_by: 1,
            noise_event_life: 20,
            write_reaction_species: false,
            chunk_size: 200,
            read_lattice_extxyz: true,
        }
    }
}

} // verus!
