use vstd::prelude::*;

verus! {

/// The damage type behind a damage-colored feedback entry.
#[derive(Clone, Copy, Debug, PartialEq, Eq, Structural)]
pub enum DamageKind {
    Slashing,
    Piercing,
    Crushing,
    Acid,
    Cold,
    Electrical,
    Fire,
    Sonic,
    Raw,
}

/// How one feedback entry is colored.
#[derive(Clone, Copy, Debug, PartialEq, Eq, Structural)]
pub enum ColorKind {
    Info,
    Miss,
    Hit,
    Heal,
    Damage { kind: DamageKind },
}

/// The icon drawn beside a feedback entry.
#[derive(Clone, Copy, Debug, PartialEq, Eq, Structural)]
pub enum IconKind {
    Concealment,
    Backstab,
    Flanking,
    Crit,
    Hit,
    Graze,
}

} // verus!
