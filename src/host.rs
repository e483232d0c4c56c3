use vstd::prelude::*;

use crate::game_helpers::{Creep, Part};

verus! {

/// A spawn structure as the host reported it this tick.
#[derive(Clone, Copy, Debug, PartialEq, Eq, Structural)]
pub struct SpawnInfo {
    pub handle: u64,
    /// Whether it is ours; `None` where the host could not say.
    pub my: Option<bool>,
}

/// A mobile unit as the host reported it this tick.
#[derive(Clone, Copy, Debug, PartialEq, Eq, Structural)]
pub struct CreepInfo {
    pub creep: Creep,
    pub my: bool,
    /// The energy it carries; `None` where the host could not say.
    pub energy: Option<u32>,
}

/// A container as the host reported it this tick.
#[derive(Clone, Copy, Debug, PartialEq, Eq, Structural)]
pub struct ContainerInfo {
    pub handle: u64,
    /// The energy it holds; `None` where the host could not say.
    pub energy: Option<u32>,
}

/// What the host reported at the start of a tick.
pub struct World {
    pub spawns: Vec<SpawnInfo>,
    pub creeps: Vec<CreepInfo>,
    pub containers: Vec<ContainerInfo>,
    /// The handles of the game objects that exist.
    pub live: Vec<u64>,
}

/// An action for the host to carry out after the tick's traversal.
#[derive(Debug, PartialEq, Eq)]
pub enum Command {
    /// Spawn a creep with `parts` at `spawn`; a creep that comes of it is
    /// handed to the child plan named `route` as spawning.
    Spawn { spawn: u64, parts: Vec<Part>, route: String },
    /// Withdraw energy from the closest of `containers`.
    Withdraw { creep: Creep, containers: Vec<u64> },
    /// Transfer the carried energy to `target`.
    Transfer { creep: Creep, target: u64 },
    /// Attack `target`.
    Attack { creep: Creep, target: u64 },
}

/// The energy reported for the creep with handle `h`: that of the first
/// report on it, `None` where there is none or it gave no amount.
pub open spec fn energy_of(reports: Seq<CreepInfo>, h: u64) -> Option<u32>
    decreases reports.len(),
{
    if reports.len() == 0 {
        None
    } else if reports[0].creep.handle == h {
        reports[0].energy
    } else {
        energy_of(reports.drop_first(), h)
    }
}

/// Looks up the energy reported for the creep with handle `h`.
pub fn find_energy(reports: &Vec<CreepInfo>, h: u64) -> (r: Option<u32>)
    ensures
        r == energy_of(reports@, h),
{
    let mut i: usize = 0;
    assert(reports@.subrange(0, reports@.len() as int) =~= reports@);
    while i < reports.len()
        invariant
            i <= reports@.len(),
            energy_of(reports@, h) == energy_of(reports@.subrange(i as int, reports@.len() as int), h),
        decreases reports@.len() - i,
    {
        let ghost rest = reports@.subrange(i as int, reports@.len() as int);
        assert(rest[0] == reports@[i as int]);
        if reports[i].creep.handle == h {
            return reports[i].energy;
        }
        assert(rest.drop_first() =~= reports@.subrange(i + 1, reports@.len() as int));
        i = i + 1;
    }
    assert(reports@.subrange(i as int, reports@.len() as int).len() == 0);
    None
}

/// What a command says, over plain values.
pub enum CommandView {
    Spawn { spawn: u64, parts: Seq<Part>, route: Seq<char> },
    Withdraw { creep: Creep, containers: Seq<u64> },
    Transfer { creep: Creep, target: u64 },
    Attack { creep: Creep, target: u64 },
}

impl View for Command {
    type V = CommandView;

    open spec fn view(&self) -> CommandView {
        match self {
            Command::Spawn { spawn, parts, route } => CommandView::Spawn {
                spawn: *spawn,
                parts: parts@,
                route: route@,
            },
            Command::Withdraw { creep, containers } => CommandView::Withdraw {
                creep: *creep,
                containers: containers@,
            },
            Command::Transfer { creep, target } => CommandView::Transfer { creep: *creep, target: *target },
            Command::Attack { creep, target } => CommandView::Attack { creep: *creep, target: *target },
        }
    }
}

/// What each of `cs` says, in order.
pub open spec fn commands_view(cs: Seq<Command>) -> Seq<CommandView> {
    Seq::new(cs.len(), |i: int| cs[i]@)
}

} // verus!
