//! The eight-entry palette: each distinct colour of an image gets the next
//! free index, in the order in which the colours are first seen.

use vstd::prelude::*;

verus! {

/// Number of palette slots, and so of distinct colours an image can keep.
pub const PALETTE_SIZE: usize = 8;

/// Some slot holds `color`.
pub open spec fn holds(slots: Seq<Option<u16>>, color: u16) -> bool {
    exists|j: int| 0 <= j < slots.len() && #[trigger] slots[j] == Some(color)
}

/// Looks `pixel_color` up in the slot array and, where no slot holds it,
/// claims the first free slot for it.
///
/// Where a slot holds the colour, returns the index of the first such slot
/// and leaves the array as it is. Otherwise returns the index of the first
/// free slot, which holds the colour afterwards. Returns `None`, leaving the
/// array as it is, when every slot is taken by another colour.
pub fn get_palette_index(color_palette: &mut [Option<u16>; 8], pixel_color: u16) -> (found: Option<
    usize,
>)
    ensures
        match found {
            Some(idx) => {
                &&& idx < 8
                &&& holds(old(color_palette)@, pixel_color) ==> {
                    &&& old(color_palette)@[idx as int] == Some(pixel_color)
                    &&& forall|j: int|
                        0 <= j < idx ==> #[trigger] old(color_palette)@[j] != Some(pixel_color)
                    &&& final(color_palette)@ == old(color_palette)@
                }
                &&& !holds(old(color_palette)@, pixel_color) ==> {
                    &&& old(color_palette)@[idx as int] is None
                    &&& forall|j: int|
                        0 <= j < idx ==> (#[trigger] old(color_palette)@[j]) is Some
                    &&& final(color_palette)@ == old(color_palette)@.update(
                        idx as int,
                        Some(pixel_color),
                    )
                }
            },
            None => {
                &&& forall|j: int| 0 <= j < 8 ==> (#[trigger] old(color_palette)@[j]) is Some
                &&& !holds(old(color_palette)@, pixel_color)
                &&& final(color_palette)@ == old(color_palette)@
            },
        },
{
    let mut idx: usize = 0;
    while idx < PALETTE_SIZE
        invariant
            idx <= 8,
            color_palette@ == old(color_palette)@,
            forall|j: int| 0 <= j < idx ==> #[trigger] color_palette@[j] != Some(pixel_color),
        decreases 8 - idx,
    {
        match color_palette[idx] {
            Some(palette_color) => {
                if palette_color == pixel_color {
                    assert(holds(color_palette@, pixel_color));
                    return Some(idx);
                }
            },
            None => {},
        }
        idx += 1;
    }
    let mut free: usize = 0;
    while free < PALETTE_SIZE
        invariant
            free <= 8,
            color_palette@ == old(color_palette)@,
            !holds(color_palette@, pixel_color),
            forall|j: int| 0 <= j < free ==> (#[trigger] color_palette@[j]) is Some,
        decreases 8 - free,
    {
        match color_palette[free] {
            Some(_) => {},
            None => {
                color_palette[free] = Some(pixel_color);
                return Some(free);
            },
        }
        free += 1;
    }
    None
}

/// The palette after `color` was interned: unchanged where the colour has a
/// slot already or no slot is left, else with the colour in the next slot.
pub open spec fn intern_spec(palette: Seq<u16>, color: u16) -> Seq<u16> {
    if palette.contains(color) || palette.len() >= 8 {
        palette
    } else {
        palette.push(color)
    }
}

/// The index that interning `color` gives: its slot where it has one, the
/// next free slot where one is left, and 0 where the palette is full.
pub open spec fn index_spec(palette: Seq<u16>, color: u16) -> int {
    if palette.contains(color) {
        palette.index_of(color)
    } else if palette.len() < 8 {
        palette.len() as int
    } else {
        0
    }
}

/// Interning `color` overflows: it has no slot and none is left.
pub open spec fn overflows(palette: Seq<u16>, color: u16) -> bool {
    !palette.contains(color) && palette.len() >= 8
}

/// The sixteen bytes of a palette: eight entries, high byte first, and
/// zero for each slot that holds no colour.
pub open spec fn palette_bytes(palette: Seq<u16>) -> Seq<u8> {
    Seq::new(
        16,
        |i: int|
            if i / 2 < palette.len() {
                if i % 2 == 0 {
                    (palette[i / 2] / 256) as u8
                } else {
                    (palette[i / 2] % 256) as u8
                }
            } else {
                0u8
            },
    )
}

/// The palette of one image: up to eight colours, each in the slot it was
/// given when it was first seen.
pub struct Palette {
    slots: [Option<u16>; 8],
    used: usize,
}

impl View for Palette {
    type V = Seq<u16>;

    /// The colours that have a slot, in slot order.
    closed spec fn view(&self) -> Seq<u16> {
        Seq::new(self.used as nat, |i: int| self.slots@[i]->0)
    }
}

impl Palette {
    #[verifier::type_invariant]
    spec fn well_formed(self) -> bool {
        &&& self.used <= 8
        &&& forall|i: int| 0 <= i < 8 ==> ((#[trigger] self.slots@[i]) is Some <==> i < self.used)
        &&& forall|i: int, j: int|
            0 <= i < j < self.used ==> #[trigger] self.slots@[i] != #[trigger] self.slots@[j]
    }

    /// A colour is in the view exactly if a slot holds it.
    proof fn lemma_holds(self, color: u16)
        requires
            self.well_formed(),
        ensures
            self@.contains(color) <==> holds(self.slots@, color),
    {
        if self@.contains(color) {
            let at = self@.index_of(color);
            assert(self.slots@[at] == Some(color));
        }
        if holds(self.slots@, color) {
            let at = choose|j: int| 0 <= j < 8 && #[trigger] self.slots@[j] == Some(color);
            assert(self@[at] == color);
        }
    }

    /// The eight slots behind the view: the colours first, then empty slots.
    pub open spec fn slots_spec(&self) -> Seq<Option<u16>> {
        Seq::new(
            8,
            |i: int|
                if i < self@.len() {
                    Some(self@[i])
                } else {
                    None
                },
        )
    }

    /// A palette with every slot free.
    pub fn new() -> (palette: Self)
        ensures
            palette@ == Seq::<u16>::empty(),
    {
        let palette = Palette { slots: [None; 8], used: 0 };
        assert(palette@ =~= Seq::<u16>::empty());
        palette
    }

    /// Number of colours that have a slot.
    pub fn len(&self) -> (used: usize)
        ensures
            used == self@.len(),
            used <= 8,
    {
        proof {
            use_type_invariant(self);
        }
        self.used
    }

    /// The colour in slot `index`, if the slot holds one.
    pub fn get(&self, index: usize) -> (slot: Option<u16>)
        requires
            index < 8,
        ensures
            slot == self.slots_spec()[index as int],
    {
        proof {
            use_type_invariant(self);
        }
        self.slots[index]
    }

    /// All eight slots.
    pub fn slots(&self) -> (slots: [Option<u16>; 8])
        ensures
            slots@ == self.slots_spec(),
    {
        proof {
            use_type_invariant(self);
            assert(self.slots@ =~= self.slots_spec());
        }
        self.slots
    }

    /// Gives `color` its palette index. A colour that has a slot keeps it; a
    /// new colour takes the next free slot; where none is left the palette
    /// stays as it is, the index is 0 and the overflow flag is set.
    pub fn intern(&mut self, color: u16) -> (slot: (u8, bool))
        ensures
            final(self)@ == intern_spec(old(self)@, color),
            slot.0 == index_spec(old(self)@, color),
            slot.1 == overflows(old(self)@, color),
            !slot.1 ==> slot.0 < final(self)@.len() && final(self)@[slot.0 as int] == color,
            slot.1 ==> slot.0 == 0,
            final(self)@.len() <= 8,
            final(self)@.no_duplicates(),
    {
        proof {
            use_type_invariant(&*self);
        }
        let ghost before = self@;
        let mut slots = self.slots;
        proof {
            self.lemma_holds(color);
        }
        let found = get_palette_index(&mut slots, color);
        match found {
            Some(idx) => {
                if idx < self.used {
                    assert(self.slots@[idx as int] is Some);
                    assert(before[idx as int] == color);
                    assert(before.index_of(color) == idx) by {
                        let other = before.index_of(color);
                        assert(self.slots@[other] == Some(color));
                    }
                } else {
                    assert(self.slots@[idx as int] is None);
                    assert(idx == self.used) by {
                        if idx > self.used {
                            assert(self.slots@[self.used as int] is None);
                        }
                    }
                    let used = idx + 1;
                    let ghost old_slots = self.slots@;
                    *self = Palette { slots, used };
                    assert(self@ =~= before.push(color)) by {
                        assert forall|i: int| 0 <= i < before.len() implies self@[i] == before[i] by {
                            assert(slots@[i] == old_slots[i]);
                        }
                    }
                }
                (idx as u8, false)
            },
            None => {
                assert(self.used == 8) by {
                    if self.used < 8 {
                        assert(self.slots@[self.used as int] is None);
                    }
                }
                (0, true)
            },
        }
    }

    /// The palette as it is stored: sixteen bytes, eight entries of two
    /// bytes each, high byte first, a free slot as zero.
    pub fn to_bytes(&self) -> (bytes: Vec<u8>)
        ensures
            bytes@ == palette_bytes(self@),
    {
        proof {
            use_type_invariant(self);
        }
        let mut bytes: Vec<u8> = Vec::new();
        let mut i: usize = 0;
        while i < PALETTE_SIZE
            invariant
                i <= 8,
                bytes@.len() == 2 * i,
                forall|k: int| 0 <= k < 2 * i ==> bytes@[k] == palette_bytes(self@)[k],
            decreases 8 - i,
        {
            proof {
                use_type_invariant(self);
            }
            match self.slots[i] {
                Some(color) => {
                    bytes.push((color / 256) as u8);
                    bytes.push((color % 256) as u8);
                },
                None => {
                    bytes.push(0);
                    bytes.push(0);
                },
            }
            i += 1;
        }
        assert(bytes@ =~= palette_bytes(self@));
        bytes
    }
}

} // verus!
