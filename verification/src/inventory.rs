//! The player's inventory: a row of slots, each holding a collectible item,
//! with stacking of stackable items and swapping of slots.
use vstd::prelude::*;

verus! {

/// A collectible item. `id` stands for the item's object identity: two
/// slots hold "the same item" when their ids are equal.
pub struct Collectibles {
    pub id: u64,
    pub name: String,
    pub amount: i32,
    pub stackable: bool,
}

/// What a collectible is, as a value.
pub struct CollectibleView {
    pub id: u64,
    pub name: Seq<char>,
    pub amount: i32,
    pub stackable: bool,
}

impl View for Collectibles {
    type V = CollectibleView;

    open spec fn view(&self) -> CollectibleView {
        CollectibleView { id: self.id, name: self.name@, amount: self.amount, stackable: self.stackable }
    }
}

impl Collectibles {
    /// A fresh item with object identity `id`: no name, no amount, not
    /// stackable (`init`).
    pub fn new(id: u64) -> (c: Collectibles)
        ensures
            c@ == (CollectibleView { id, name: Seq::empty(), amount: 0, stackable: false }),
    {
        Collectibles { id, name: String::new(), amount: 0, stackable: false }
    }
}

/// A slot of the inventory and the item in it; a slot whose item has no
/// name counts as empty.
pub struct InvSlot {
    pub item: Collectibles,
}

impl InvSlot {
    /// A slot holding a fresh item with object identity `id`.
    pub fn new(id: u64) -> (s: InvSlot)
        ensures
            s.item@ == (CollectibleView { id, name: Seq::empty(), amount: 0, stackable: false }),
    {
        InvSlot { item: Collectibles::new(id) }
    }

    pub fn get_item(&self) -> (r: &Collectibles)
        ensures
            r@ == self.item@,
    {
        &self.item
    }

    pub fn set_item(&mut self, item: Collectibles)
        ensures
            final(self).item@ == item@,
    {
        self.item = item;
    }

    /// Puts a fresh item (object identity `fresh_id`) in the slot.
    pub fn clear_item(&mut self, fresh_id: u64)
        ensures
            final(self).item@ == (CollectibleView { id: fresh_id, name: Seq::empty(), amount: 0, stackable: false }),
    {
        self.item = Collectibles::new(fresh_id);
    }
}

/// What `Inventory::insert` did; every outcome but `NoRoom` announces an
/// update of the inventory.
#[derive(Clone, Copy, Debug, PartialEq, Eq, Structural)]
pub enum InsertOutcome {
    /// The item was already in this slot and stackable: one more of it.
    Stacked(usize),
    /// The item went into this empty slot, one of it.
    Placed(usize),
    /// Two slots were swapped.
    Swapped,
    /// No slot could take the item.
    NoRoom,
}

/// The inventory's slots.
pub struct Inventory {
    pub slots: Vec<InvSlot>,
}

/// The items in a row of slots.
pub open spec fn items(slots: Seq<InvSlot>) -> Seq<CollectibleView> {
    slots.map_values(|s: InvSlot| s.item@)
}

/// The item in slot `s` takes one more of `item`: it is that same item and
/// stackable.
pub open spec fn stacks_with(s: CollectibleView, item: CollectibleView) -> bool {
    s.stackable && s.id == item.id
}

/// A slot is empty when its item has no name.
pub open spec fn is_empty_slot(s: CollectibleView) -> bool {
    s.name.len() == 0
}

/// `j` is the first slot whose item stacks with `item`.
pub open spec fn first_stack(s: Seq<CollectibleView>, j: int, item: CollectibleView) -> bool {
    0 <= j < s.len() && stacks_with(s[j], item) && forall|k: int| 0 <= k < j ==> !stacks_with(#[trigger] s[k], item)
}

/// `j` is the first empty slot.
pub open spec fn first_empty(s: Seq<CollectibleView>, j: int) -> bool {
    0 <= j < s.len() && is_empty_slot(s[j]) && forall|k: int| 0 <= k < j ==> !is_empty_slot(#[trigger] s[k])
}

/// The row of items after the item with object identity `id` gets amount
/// `amount`: every slot holding that item shows the new amount.
pub open spec fn with_amount(s: Seq<CollectibleView>, id: u64, amount: i32) -> Seq<CollectibleView> {
    s.map_values(|v: CollectibleView| if v.id == id { CollectibleView { amount, ..v } } else { v })
}

/// The row of items after slots `i` and `j` trade places.
pub open spec fn swapped(s: Seq<CollectibleView>, i: int, j: int) -> Seq<CollectibleView> {
    s.update(i, s[j]).update(j, s[i])
}

/// Swapping the same two slots twice gives the row back.
pub proof fn law_swap_twice(s: Seq<CollectibleView>, i: int, j: int)
    requires
        0 <= i < s.len(),
        0 <= j < s.len(),
    ensures
        swapped(swapped(s, i, j), i, j) == s,
{
    assert(swapped(swapped(s, i, j), i, j) =~= s);
}

/// A swap moves items around and loses none: the row holds the same items
/// as before.
pub proof fn law_swap_keeps_items(s: Seq<CollectibleView>, i: int, j: int)
    requires
        0 <= i < s.len(),
        0 <= j < s.len(),
    ensures
        swapped(s, i, j).to_multiset() == s.to_multiset(),
        swapped(s, i, j).len() == s.len(),
{
    broadcast use vstd::seq_lib::group_to_multiset_ensures;
    let a = s.update(i, s[j]);
    let b = a.update(j, s[i]);
    assert(a.to_multiset() == s.to_multiset().remove(s[i]).insert(s[j]));
    assert(b.to_multiset() == a.to_multiset().remove(a[j]).insert(s[i]));
    if i == j {
        assert(b =~= s);
    } else {
        assert(a[j] == s[j]);
        assert(b.to_multiset() =~= s.to_multiset());
    }
}

impl Inventory {
    /// The items in the slots, in order.
    pub open spec fn view_items(&self) -> Seq<CollectibleView> {
        items(self.slots@)
    }

    /// An inventory with no slots.
    pub fn new() -> (inv: Inventory)
        ensures
            inv.view_items() == Seq::<CollectibleView>::empty(),
    {
        Inventory { slots: Vec::new() }
    }

    /// Gives every slot that holds the item with object identity `id` the
    /// amount `amount` (they all hold that one item).
    fn set_amount_of(&mut self, id: u64, amount: i32)
        ensures
            final(self).view_items() == with_amount(old(self).view_items(), id, amount),
    {
        let ghost s = old(self).view_items();
        let mut k: usize = 0;
        while k < self.slots.len()
            invariant
                k <= self.slots@.len(),
                self.slots@.len() == s.len(),
                s == old(self).view_items(),
                forall|i: int| 0 <= i < k ==> #[trigger] self.view_items()[i] == with_amount(s, id, amount)[i],
                forall|i: int| k <= i < s.len() ==> #[trigger] self.view_items()[i] == s[i],
            decreases self.slots@.len() - k,
        {
            if self.slots[k].item.id == id {
                let ghost before = self.view_items();
                let mut slot = self.slots.remove(k);
                slot.item.amount = amount;
                self.slots.insert(k, slot);
                assert(self.view_items() =~= before.update(k as int, CollectibleView { amount, ..before[k as int] }));
            }
            k = k + 1;
        }
        assert(self.view_items() =~= with_amount(s, id, amount));
    }

    /// Takes an item in, or swaps two slots.
    ///
    /// With `index1 < 0`: where a slot holds this same item and it is
    /// stackable, the first such slot gets one more of it; otherwise the item
    /// goes, one of it, into the first empty slot; otherwise nothing
    /// changes. A slot holds an item object, which other slots may hold
    /// too: a new amount shows in every slot that holds the item. With `index1 >= 0`: slots `index1` and `index2` trade places.
    pub fn insert(&mut self, item: Collectibles, index1: i32, index2: i32) -> (r: InsertOutcome)
        requires
            index1 >= 0 ==> index1 < old(self).slots@.len() && 0 <= index2 < old(self).slots@.len(),
            index1 < 0 ==> forall|j: int| #[trigger] first_stack(old(self).view_items(), j, item@)
                ==> old(self).view_items()[j].amount < i32::MAX,
        ensures
            ({
                let s = old(self).view_items();
                match r {
                    InsertOutcome::Stacked(j) => {
                        &&& index1 < 0
                        &&& first_stack(s, j as int, item@)
                        &&& final(self).view_items() == with_amount(s, item.id, (s[j as int].amount + 1) as i32)
                    },
                    InsertOutcome::Placed(j) => {
                        &&& index1 < 0
                        &&& forall|k: int| 0 <= k < s.len() ==> !stacks_with(#[trigger] s[k], item@)
                        &&& first_empty(s, j as int)
                        &&& final(self).view_items() == with_amount(
                            s.update(j as int, CollectibleView { amount: 1, ..item@ }),
                            item.id,
                            1,
                        )
                    },
                    InsertOutcome::NoRoom => {
                        &&& index1 < 0
                        &&& forall|k: int| 0 <= k < s.len() ==> !stacks_with(#[trigger] s[k], item@) && !is_empty_slot(s[k])
                        &&& final(self).view_items() == s
                    },
                    InsertOutcome::Swapped => {
                        &&& index1 >= 0
                        &&& final(self).view_items() == swapped(s, index1 as int, index2 as int)
                    },
                }
            }),
    {
        let ghost s = old(self).view_items();
        if index1 < 0 {
            let mut j: usize = 0;
            while j < self.slots.len()
                invariant
                    j <= self.slots@.len(),
                    self.view_items() == s,
                    s == old(self).view_items(),
                    index1 < 0,
                    forall|j: int| #[trigger] first_stack(s, j, item@) ==> s[j].amount < i32::MAX,
                    forall|k: int| 0 <= k < j ==> !stacks_with(#[trigger] s[k], item@),
                decreases self.slots@.len() - j,
            {
                if self.slots[j].item.stackable && self.slots[j].item.id == item.id {
                    assert(first_stack(s, j as int, item@));
                    let amount = self.slots[j].item.amount + 1;
                    self.set_amount_of(item.id, amount);
                    return InsertOutcome::Stacked(j);
                }
                j = j + 1;
            }
            let mut j: usize = 0;
            while j < self.slots.len()
                invariant
                    j <= self.slots@.len(),
                    self.view_items() == s,
                    s == old(self).view_items(),
                    index1 < 0,
                    forall|k: int| 0 <= k < s.len() ==> !stacks_with(#[trigger] s[k], item@),
                    forall|k: int| 0 <= k < j ==> !is_empty_slot(#[trigger] s[k]),
                decreases self.slots@.len() - j,
            {
                if self.slots[j].item.name.as_str().is_empty() {
                    assert(first_empty(s, j as int));
                    let id = item.id;
                    let mut slot = self.slots.remove(j);
                    let mut placed = item;
                    placed.amount = 1;
                    slot.set_item(placed);
                    self.slots.insert(j, slot);
                    assert(self.view_items() =~= s.update(j as int, CollectibleView { amount: 1, ..item@ }));
                    self.set_amount_of(id, 1);
                    return InsertOutcome::Placed(j);
                }
                j = j + 1;
            }
            InsertOutcome::NoRoom
        } else {
            let i1 = index1 as usize;
            let i2 = index2 as usize;
            if i1 != i2 {
                let lo = if i1 < i2 { i1 } else { i2 };
                let hi = if i1 < i2 { i2 } else { i1 };
                let b = self.slots.remove(hi);
                let a = self.slots.remove(lo);
                self.slots.insert(lo, b);
                self.slots.insert(hi, a);
            }
            assert(self.view_items() =~= s.update(index1 as int, s[index2 as int]).update(index2 as int, s[index1 as int]));
            InsertOutcome::Swapped
        }
    }
}

} // verus!
