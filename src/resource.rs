use vstd::prelude::*;

verus! {

/// The controls a player can give.
#[derive(Clone, Copy, Debug, PartialEq, Eq, Structural)]
pub enum Control {
    Up,
    Down,
    Left,
    Right,
    Boost,
    Menu,
}

/// How many players share the screen.
#[derive(Clone, Copy, Debug, PartialEq, Eq, Structural)]
pub enum Mode {
    Mode1Player,
    Mode2Player,
    Mode3Player,
}

impl Mode {
    pub open spec fn players(&self) -> int {
        match *self {
            Mode::Mode1Player => 1,
            Mode::Mode2Player => 2,
            Mode::Mode3Player => 3,
        }
    }

    pub fn number_of_player(&self) -> (r: usize)
        ensures
            r == self.players(),
    {
        match *self {
            Mode::Mode1Player => 1,
            Mode::Mode2Player => 2,
            Mode::Mode3Player => 3,
        }
    }

    /// One more player, up to three.
    pub fn increase(&mut self)
        ensures
            final(self).players() == if old(self).players() < 3 { old(self).players() + 1 } else { 3 },
    {
        match *self {
            Mode::Mode1Player => *self = Mode::Mode2Player,
            Mode::Mode2Player => *self = Mode::Mode3Player,
            Mode::Mode3Player => *self = Mode::Mode3Player,
        }
    }

    /// One player less, down to one.
    pub fn reduce(&mut self)
        ensures
            final(self).players() == if old(self).players() > 1 { old(self).players() - 1 } else { 1 },
    {
        match *self {
            Mode::Mode1Player => *self = Mode::Mode1Player,
            Mode::Mode2Player => *self = Mode::Mode1Player,
            Mode::Mode3Player => *self = Mode::Mode2Player,
        }
    }
}

/// The settings kept from one run to the next.
pub struct Save {
    vulkan_device_uuid: Option<[u8; 16]>,
    fullscreen: bool,
}

impl Save {
    pub closed spec fn spec_uuid(&self) -> Option<[u8; 16]> {
        self.vulkan_device_uuid
    }

    pub closed spec fn spec_fullscreen(&self) -> bool {
        self.fullscreen
    }

    pub fn from_parts(vulkan_device_uuid: Option<[u8; 16]>, fullscreen: bool) -> (r: Save)
        ensures
            r.spec_uuid() == vulkan_device_uuid,
            r.spec_fullscreen() == fullscreen,
    {
        Save { vulkan_device_uuid, fullscreen }
    }

    pub fn fullscreen(&self) -> (r: bool)
        ensures
            r == self.spec_fullscreen(),
    {
        self.fullscreen
    }

    pub fn vulkan_device_uuid(&self) -> (r: &Option<[u8; 16]>)
        ensures
            *r == self.spec_uuid(),
    {
        &self.vulkan_device_uuid
    }

    /// Records `uuid` as the device to use. Returns whether it differs from the one recorded,
    /// that is whether the settings must be written again.
    pub fn set_vulkan_device_uuid_lazy(&mut self, uuid: &[u8; 16]) -> (changed: bool)
        ensures
            final(self).spec_uuid() == Some(*uuid),
            final(self).spec_fullscreen() == old(self).spec_fullscreen(),
            changed == (old(self).spec_uuid() != Some(*uuid)),
    {
        let same = match &self.vulkan_device_uuid {
            Some(saved) => same_uuid(saved, uuid),
            None => false,
        };
        if same {
            false
        } else {
            self.vulkan_device_uuid = Some(*uuid);
            true
        }
    }
}

fn same_uuid(a: &[u8; 16], b: &[u8; 16]) -> (r: bool)
    ensures
        r == (*a == *b),
{
    let mut i: usize = 0;
    while i < 16
        invariant
            i <= 16,
            forall|j: int| 0 <= j < i ==> a@[j] == b@[j],
        decreases 16 - i,
    {
        if a[i] != b[i] {
            return false;
        }
        i = i + 1;
    }
    assert(*a =~= *b);
    true
}

} // verus!
