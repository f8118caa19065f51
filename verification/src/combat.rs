//! Health and weapons.

use vstd::prelude::*;

verus! {

/// The health of a creature.
#[derive(Debug, Clone, Copy, PartialEq, Eq, Structural)]
pub struct Health {
    current: u32,
    max: u32,
}

impl Health {
    /// The health left.
    pub closed spec fn current_points(&self) -> u32 {
        self.current
    }

    /// The health of a sound creature.
    pub closed spec fn max_points(&self) -> u32 {
        self.max
    }

    /// Full health of `max` points.
    pub fn new(max: u32) -> (h: Self)
        ensures
            h.current_points() == max,
            h.max_points() == max,
    {
        Health { current: max, max }
    }

    /// The health left.
    pub fn current(&self) -> (points: u32)
        ensures
            points == self.current_points(),
    {
        self.current
    }

    /// The health of a sound creature.
    pub fn max(&self) -> (points: u32)
        ensures
            points == self.max_points(),
    {
        self.max
    }

    /// Whether no health is left.
    pub fn is_dead(&self) -> (dead: bool)
        ensures
            dead <==> self.current_points() == 0,
    {
        self.current == 0
    }

    /// Takes `amount` points away, down to 0.
    pub fn take_damage(&mut self, amount: u32)
        ensures
            final(self).max_points() == old(self).max_points(),
            final(self).current_points() == if old(self).current_points() >= amount {
                old(self).current_points() - amount
            } else {
                0
            },
    {
        self.current = self.current.saturating_sub(amount);
    }

    /// Gives `amount` points back, up to full health.
    pub fn heal(&mut self, amount: u32)
        requires
            old(self).current_points() + amount <= u32::MAX,
        ensures
            final(self).max_points() == old(self).max_points(),
            final(self).current_points() == if old(self).current_points() + amount <= old(
                self,
            ).max_points() {
                old(self).current_points() + amount
            } else {
                old(self).max_points() as int
            },
    {
        let healed = self.current + amount;
        self.current = if healed <= self.max {
            healed
        } else {
            self.max
        };
    }

    /// Back to full health.
    pub fn respawn(&mut self)
        ensures
            final(self).max_points() == old(self).max_points(),
            final(self).current_points() == old(self).max_points(),
    {
        self.current = self.max;
    }
}

/// What a creature can strike with.
#[derive(Debug, Clone, Copy, PartialEq, Eq, Structural)]
pub enum Weapon {
    Fist,
    WoodenSword,
    StoneSword,
    IronSword,
    DiamondSword,
    WoodenAxe,
    StoneAxe,
    IronAxe,
    DiamondAxe,
}

impl Weapon {
    /// The points that one strike takes.
    pub open spec fn spec_damage(&self) -> u32 {
        match self {
            Weapon::Fist => 1,
            Weapon::WoodenSword => 4,
            Weapon::StoneSword => 5,
            Weapon::IronSword => 6,
            Weapon::DiamondSword => 7,
            Weapon::WoodenAxe => 7,
            Weapon::StoneAxe => 9,
            Weapon::IronAxe => 9,
            Weapon::DiamondAxe => 9,
        }
    }

    /// The points that one strike takes.
    #[verifier::when_used_as_spec(spec_damage)]
    pub fn damage(&self) -> (points: u32)
        ensures
            points == self.spec_damage(),
    {
        match self {
            Weapon::Fist => 1,
            Weapon::WoodenSword => 4,
            Weapon::StoneSword => 5,
            Weapon::IronSword => 6,
            Weapon::DiamondSword => 7,
            Weapon::WoodenAxe => 7,
            Weapon::StoneAxe => 9,
            Weapon::IronAxe => 9,
            Weapon::DiamondAxe => 9,
        }
    }
}

/// One strike with `weapon` at `target`; the dead are not struck.
pub fn attack(weapon: &Weapon, target: &mut Health)
    ensures
        final(target).max_points() == old(target).max_points(),
        final(target).current_points() == if old(target).current_points() >= weapon.spec_damage() {
            old(target).current_points() - weapon.spec_damage()
        } else {
            0
        },
{
    if !target.is_dead() {
        target.take_damage(weapon.damage());
    }
}

} // verus!
