//! Grouped orientation ("nap up and down").
//!
//! A [`GroupedOrientationSpec`] says that the items of an instance form garment groups: all
//! pieces of one physical garment share an orientation (0 or 180 degrees), while different
//! garments may be oriented independently.
use crate::scalar::F32;
use crate::text::append_number;
use crate::text::decimal;
use vstd::prelude::*;
use vstd::string::StringExecFns;

verus! {

/// Side-channel description of the garment groups of an instance.
#[derive(Debug, Clone)]
pub struct GroupedOrientationSpec {
    /// One entry per garment type. Item ids must be disjoint across groups.
    pub groups: Vec<OrientationGroup>,
    /// Configuration of the group-flip disruption move.
    pub flip: GroupFlipConfig,
}

/// One garment type: its piece-type items and how many garments of it exist.
#[derive(Debug, Clone)]
pub struct OrientationGroup {
    /// `(item_id, per_garment)`, one entry per piece type of this garment type.
    pub members: Vec<(usize, usize)>,
    /// Number of garments of this type in the marker.
    pub quantity: usize,
}

/// Tuning knobs for the group-flip disruption.
#[derive(Debug, Clone, Copy)]
pub struct GroupFlipConfig {
    /// Probability that a disruption event is a group flip instead of the
    /// swap-two-large-items move. Zero disables these drawn flips entirely (strict `<`); the
    /// re-solve and the fork are moves of their own, with switches of their own.
    pub p_flip: F32,
    /// Number of garments flipped per flip event.
    pub n_garments_per_flip: usize,
    /// Share of the phase's time limit in which orientation moves are made; from one on, all of it.
    pub window: F32,
    /// Re-solve the orientations exactly instead of flipping random garments.
    pub resolve: bool,
    /// Follow a swap by the flip of a swapped piece's garment, and keep the swapped-only
    /// layout for an attempt of its own.
    pub fork_at_swap: bool,
}

/// What the orientation logic reads of one item type.
#[derive(Debug, Clone)]
pub struct ItemType {
    /// Number of copies to be placed.
    pub demand: usize,
    /// Area of the item's shape.
    pub area: F32,
    /// Area of the convex hull of the item's shape.
    pub hull_area: F32,
    /// For a discrete set of allowed rotations, the direction class of each (true = 180);
    /// `None` where the rotations are not a discrete set.
    pub rotations: Option<Vec<bool>>,
}

/// One placed copy of an item.
#[derive(Debug, Clone, Copy)]
pub struct PlacedCopy {
    /// The slot-map key of the placement, as one integer.
    pub key: u64,
    /// Which item this is a copy of.
    pub item_id: usize,
    /// Direction class of the placed rotation (true = 180).
    pub dir180: bool,
    /// Horizontal position of the placed shape's centroid.
    pub x: F32,
    /// Area of the convex hull of the placed shape.
    pub hull_area: F32,
}

/// A rotation of one copy: its position in the list of placed copies, and the index of the
/// rotation it is turned to in its item's list of allowed rotations.
/// A copy is turned in place, about its centroid; the translation that this takes is arithmetic
/// on coordinates and left to the caller.
#[derive(Debug, Clone, Copy, PartialEq, Eq, Structural)]
pub struct Turn {
    pub copy: usize,
    pub rotation: usize,
}

/// Why a spec does not fit an instance.
#[derive(Debug, Clone, Copy, PartialEq, Eq, Structural)]
pub enum SpecError {
    FlipProbability,
    NoGarmentsPerFlip,
    NoGroups,
    NoMembers { group: usize },
    NoQuantity { group: usize },
    ItemOutOfRange { group: usize, item: usize, n_items: usize },
    ItemRepeated { item: usize },
    NoPerGarment { group: usize, item: usize },
    Demand { group: usize, item: usize, demand: usize, quantity: usize, per_garment: usize },
}

/// Whether item `id` is a member at a place before member `m` of group `g`.
pub open spec fn named_before(groups: Seq<OrientationGroup>, g: int, m: int, id: usize) -> bool {
    exists|g2: int, m2: int|
        #![trigger groups[g2].members@[m2]]
        0 <= g2 <= g && 0 <= m2 < groups[g2].members@.len() && (g2 < g || m2 < m)
            && groups[g2].members@[m2].0 == id
}

/// What is wrong with member `m` of group `g`, taken by itself.
pub open spec fn member_problem(
    groups: Seq<OrientationGroup>,
    items: Seq<ItemType>,
    g: int,
    m: int,
) -> Option<SpecError> {
    let (item, per_garment) = groups[g].members@[m];
    let group = g as usize;
    let quantity = groups[g].quantity;
    if item >= items.len() {
        Some(SpecError::ItemOutOfRange { group, item, n_items: items.len() as usize })
    } else if named_before(groups, g, m, item) {
        Some(SpecError::ItemRepeated { item })
    } else if per_garment == 0 {
        Some(SpecError::NoPerGarment { group, item })
    } else if items[item as int].demand != quantity * per_garment {
        Some(
            SpecError::Demand {
                group,
                item,
                demand: items[item as int].demand,
                quantity,
                per_garment,
            },
        )
    } else {
        None
    }
}

/// Whether `e` is what is wrong with group `g`, taken by itself: its first problem.
pub open spec fn group_problem(
    groups: Seq<OrientationGroup>,
    items: Seq<ItemType>,
    g: int,
    e: SpecError,
) -> bool {
    if groups[g].members@.len() == 0 {
        e == SpecError::NoMembers { group: g as usize }
    } else if groups[g].quantity == 0 {
        e == SpecError::NoQuantity { group: g as usize }
    } else {
        exists|m: int|
            #![trigger member_problem(groups, items, g, m)]
            0 <= m < groups[g].members@.len() && member_problem(groups, items, g, m) == Some(e)
                && forall|k: int|
                0 <= k < m ==> (#[trigger] member_problem(groups, items, g, k)) is None
    }
}

/// Nothing is wrong with group `g`, taken by itself.
pub open spec fn group_fits(groups: Seq<OrientationGroup>, items: Seq<ItemType>, g: int) -> bool {
    &&& groups[g].members@.len() > 0
    &&& groups[g].quantity > 0
    &&& forall|m: int|
        0 <= m < groups[g].members@.len() ==> (#[trigger] member_problem(groups, items, g, m)) is None
}

impl SpecError {
    /// The message for a reader. `p_flip` is the flip probability as text.
    pub open spec fn text(self, p_flip: Seq<char>) -> Seq<char> {
        match self {
            SpecError::FlipProbability => "p_flip must be in [0, 1], got "@ + p_flip,
            SpecError::NoGarmentsPerFlip => "n_garments_per_flip must be >= 1"@,
            SpecError::NoGroups => "spec contains no groups"@,
            SpecError::NoMembers { group } => "group "@ + decimal(group as nat)
                + " has no members"@,
            SpecError::NoQuantity { group } => "group "@ + decimal(group as nat)
                + " has quantity 0"@,
            SpecError::ItemOutOfRange { group, item, n_items } => "group "@ + decimal(group as nat)
                + ": item id "@ + decimal(item as nat) + " out of range (instance has "@ + decimal(
                n_items as nat,
            ) + " items)"@,
            SpecError::ItemRepeated { item } => "item id "@ + decimal(item as nat)
                + " appears in more than one group (groups must be disjoint)"@,
            SpecError::NoPerGarment { group, item } => "group "@ + decimal(group as nat)
                + ": item "@ + decimal(item as nat) + " has per_garment 0"@,
            SpecError::Demand { group, item, demand, quantity, per_garment } => "group "@
                + decimal(group as nat) + ": item "@ + decimal(item as nat) + " demand "@ + decimal(
                demand as nat,
            ) + " != quantity "@ + decimal(quantity as nat) + " x per_garment "@ + decimal(
                per_garment as nat,
            ),
        }
    }

    /// The message for a reader. `p_flip` is the flip probability as text.
    pub fn message(&self, p_flip: &str) -> (r: String)
        ensures
            r@ == self.text(p_flip@),
    {
        let mut r: String = String::new();
        match *self {
            SpecError::FlipProbability => {
                r.append("p_flip must be in [0, 1], got ");
                r.append(p_flip);
            },
            SpecError::NoGarmentsPerFlip => {
                r.append("n_garments_per_flip must be >= 1");
            },
            SpecError::NoGroups => {
                r.append("spec contains no groups");
            },
            SpecError::NoMembers { group } => {
                r.append("group ");
                append_number(&mut r, group);
                r.append(" has no members");
            },
            SpecError::NoQuantity { group } => {
                r.append("group ");
                append_number(&mut r, group);
                r.append(" has quantity 0");
            },
            SpecError::ItemOutOfRange { group, item, n_items } => {
                r.append("group ");
                append_number(&mut r, group);
                r.append(": item id ");
                append_number(&mut r, item);
                r.append(" out of range (instance has ");
                append_number(&mut r, n_items);
                r.append(" items)");
            },
            SpecError::ItemRepeated { item } => {
                r.append("item id ");
                append_number(&mut r, item);
                r.append(" appears in more than one group (groups must be disjoint)");
            },
            SpecError::NoPerGarment { group, item } => {
                r.append("group ");
                append_number(&mut r, group);
                r.append(": item ");
                append_number(&mut r, item);
                r.append(" has per_garment 0");
            },
            SpecError::Demand { group, item, demand, quantity, per_garment } => {
                r.append("group ");
                append_number(&mut r, group);
                r.append(": item ");
                append_number(&mut r, item);
                r.append(" demand ");
                append_number(&mut r, demand);
                r.append(" != quantity ");
                append_number(&mut r, quantity);
                r.append(" x per_garment ");
                append_number(&mut r, per_garment);
            },
        }
        assert(r@ =~= self.text(p_flip@));
        r
    }
}

impl GroupFlipConfig {
    /// `p_flip` lies in the closed interval from zero to one.
    pub open spec fn probability_in_range(self) -> bool {
        !self.p_flip.nan() && 0 <= self.p_flip.rank() <= 0x3f80_0000
    }
}

impl GroupedOrientationSpec {
    /// The spec describes the instance: every group has members and garments, every member
    /// names an item of its own, and each item's demand is the group's quantity times the
    /// copies per garment.
    pub open spec fn fits(self, items: Seq<ItemType>) -> bool {
        &&& self.flip.probability_in_range()
        &&& self.flip.n_garments_per_flip > 0
        &&& self.groups@.len() > 0
        &&& forall|g: int| 0 <= g < self.groups@.len() ==> #[trigger] group_fits(self.groups@, items, g)
    }

    /// The first problem of the spec, in the order in which a reader meets them.
    pub open spec fn first_problem(self, items: Seq<ItemType>, e: SpecError) -> bool {
        if !self.flip.probability_in_range() {
            e == SpecError::FlipProbability
        } else if self.flip.n_garments_per_flip == 0 {
            e == SpecError::NoGarmentsPerFlip
        } else if self.groups@.len() == 0 {
            e == SpecError::NoGroups
        } else {
            exists|g: int|
                #![trigger group_problem(self.groups@, items, g, e)]
                0 <= g < self.groups@.len() && group_problem(self.groups@, items, g, e)
                    && forall|k: int| 0 <= k < g ==> #[trigger] group_fits(self.groups@, items, k)
        }
    }

    /// Validates the spec against an instance.
    pub fn validate(&self, items: &Vec<ItemType>) -> (r: Result<(), SpecError>)
        ensures
            r is Ok <==> self.fits(items@),
            r matches Err(e) ==> self.first_problem(items@, e),
    {
        if !(F32::zero().le(self.flip.p_flip) && self.flip.p_flip.le(F32::one())) {
            return Err(SpecError::FlipProbability);
        }
        if self.flip.n_garments_per_flip == 0 {
            return Err(SpecError::NoGarmentsPerFlip);
        }
        if self.groups.len() == 0 {
            return Err(SpecError::NoGroups);
        }
        let n_items: usize = items.len();
        let mut seen: Vec<bool> = Vec::new();
        while seen.len() < n_items
            invariant
                seen.len() <= n_items,
                forall|i: int| 0 <= i < seen.len() ==> !seen[i],
            decreases n_items - seen.len(),
        {
            seen.push(false);
        }
        let ghost groups = self.groups@;
        let mut g: usize = 0;
        while g < self.groups.len()
            invariant
                g <= groups.len(),
                groups == self.groups@,
                groups.len() > 0,
                self.flip.probability_in_range(),
                self.flip.n_garments_per_flip > 0,
                n_items == items.len(),
                seen.len() == n_items,
                forall|i: int|
                    0 <= i < n_items ==> seen[i] == named_before(groups, g as int, 0, i as usize),
                forall|k: int| 0 <= k < g ==> #[trigger] group_fits(groups, items@, k),
            decreases groups.len() - g,
        {
            let group = &self.groups[g];
            if group.members.len() == 0 {
                let e = SpecError::NoMembers { group: g };
                assert(group_problem(groups, items@, g as int, e));
                assert(!group_fits(groups, items@, g as int));
                return Err(e);
            }
            if group.quantity == 0 {
                let e = SpecError::NoQuantity { group: g };
                assert(group_problem(groups, items@, g as int, e));
                assert(!group_fits(groups, items@, g as int));
                return Err(e);
            }
            let mut m: usize = 0;
            while m < group.members.len()
                invariant
                    m <= group.members.len(),
                    g < groups.len(),
                    groups == self.groups@,
                    *group == groups[g as int],
                    group.members.len() > 0,
                    group.quantity > 0,
                    self.flip.probability_in_range(),
                    self.flip.n_garments_per_flip > 0,
                    n_items == items.len(),
                    seen.len() == n_items,
                    forall|i: int|
                        0 <= i < n_items ==> seen[i] == named_before(
                            groups,
                            g as int,
                            m as int,
                            i as usize,
                        ),
                    forall|k: int| 0 <= k < g ==> #[trigger] group_fits(groups, items@, k),
                    forall|k: int|
                        0 <= k < m ==> (#[trigger] member_problem(groups, items@, g as int, k)) is None,
                decreases group.members.len() - m,
            {
                let (item, per_garment) = group.members[m];
                let found: Option<SpecError> = if item >= n_items {
                    Some(SpecError::ItemOutOfRange { group: g, item, n_items })
                } else if seen[item] {
                    Some(SpecError::ItemRepeated { item })
                } else if per_garment == 0 {
                    Some(SpecError::NoPerGarment { group: g, item })
                } else {
                    let demand: usize = items[item].demand;
                    let quantity: usize = group.quantity;
                    let wanted: Option<usize> = quantity.checked_mul(per_garment);
                    if wanted.is_none() || wanted.unwrap() != demand {
                        Some(SpecError::Demand { group: g, item, demand, quantity, per_garment })
                    } else {
                        None
                    }
                };
                assert(found == member_problem(groups, items@, g as int, m as int));
                if found.is_some() {
                    let e: SpecError = found.unwrap();
                    assert(group_problem(groups, items@, g as int, e));
                    assert(!group_fits(groups, items@, g as int));
                    return Err(e);
                }
                seen[item] = true;
                proof {
                    assert forall|i: int| 0 <= i < n_items implies seen[i] == named_before(
                        groups,
                        g as int,
                        m + 1,
                        i as usize,
                    ) by {
                        if i == item {
                            assert(groups[g as int].members@[m as int].0 == item);
                        } else if named_before(groups, g as int, m + 1, i as usize) {
                            let (g2, m2) = choose|g2: int, m2: int|
                                #![trigger groups[g2].members@[m2]]
                                0 <= g2 <= g && 0 <= m2 < groups[g2].members@.len() && (g2 < g || m2
                                    < m + 1) && groups[g2].members@[m2].0 == i as usize;
                            assert(groups[g2].members@[m2].0 == i as usize);
                            assert(named_before(groups, g as int, m as int, i as usize));
                        }
                    }
                }
                m = m + 1;
            }
            proof {
                assert(group_fits(groups, items@, g as int));
                assert forall|i: int| 0 <= i < n_items implies seen[i] == named_before(
                    groups,
                    g + 1,
                    0,
                    i as usize,
                ) by {
                    if named_before(groups, g as int, m as int, i as usize) {
                        let (g2, m2) = choose|g2: int, m2: int|
                            #![trigger groups[g2].members@[m2]]
                            0 <= g2 <= g && 0 <= m2 < groups[g2].members@.len() && (g2 < g || m2
                                < m) && groups[g2].members@[m2].0 == i as usize;
                        assert(groups[g2].members@[m2].0 == i as usize);
                    }
                    if named_before(groups, g + 1, 0, i as usize) {
                        let (g2, m2) = choose|g2: int, m2: int|
                            #![trigger groups[g2].members@[m2]]
                            0 <= g2 <= g + 1 && 0 <= m2 < groups[g2].members@.len() && (g2 < g + 1
                                || m2 < 0) && groups[g2].members@[m2].0 == i as usize;
                        assert(groups[g2].members@[m2].0 == i as usize);
                        assert(g2 < g || (g2 == g && m2 < m));
                    }
                }
            }
            g = g + 1;
        }
        Ok(())
    }
}

/// What it takes for a spec to fit an instance: the flip probability is a number from zero to one,
/// flip events flip garments, there are groups, each with members and garments, every member
/// names an item of the instance and at least one copy of it per garment, the demand of the item
/// is the quantity of the group times the copies per garment, and no item is named twice.
pub proof fn lemma_fits(spec: GroupedOrientationSpec, items: Seq<ItemType>)
    ensures
        spec.fits(items) <==> {
            &&& !spec.flip.p_flip.nan()
            &&& 0 <= spec.flip.p_flip.rank() <= 0x3f80_0000
            &&& spec.flip.n_garments_per_flip >= 1
            &&& spec.groups@.len() >= 1
            &&& forall|g: int|
                0 <= g < spec.groups@.len() ==> (#[trigger] spec.groups@[g]).members@.len() >= 1
                    && spec.groups@[g].quantity >= 1
            &&& forall|g: int, m: int|
                0 <= g < spec.groups@.len() && 0 <= m < spec.groups@[g].members@.len() ==> {
                    let (item, per_garment) = #[trigger] spec.groups@[g].members@[m];
                    &&& item < items.len()
                    &&& per_garment >= 1
                    &&& items[item as int].demand == spec.groups@[g].quantity * per_garment
                }
            &&& forall|g: int, m: int, h: int, k: int|
                0 <= g < spec.groups@.len() && 0 <= m < spec.groups@[g].members@.len() && 0 <= h
                    < spec.groups@.len() && 0 <= k < spec.groups@[h].members@.len() && (g != h || m
                    != k) ==> (#[trigger] spec.groups@[g].members@[m]).0 != (
                #[trigger] spec.groups@[h].members@[k]).0
        },
{
    let groups = spec.groups@;
    if spec.fits(items) {
        assert forall|g: int, m: int|
            0 <= g < groups.len() && 0 <= m < groups[g].members@.len() implies {
            let (item, per_garment) = #[trigger] groups[g].members@[m];
            &&& item < items.len()
            &&& per_garment >= 1
            &&& items[item as int].demand == groups[g].quantity * per_garment
            &&& !named_before(groups, g, m, item)
        } by {
            assert(group_fits(groups, items, g));
            assert(member_problem(groups, items, g, m) is None);
        }
        assert forall|g: int| 0 <= g < groups.len() implies (#[trigger] groups[g]).members@.len() >= 1
            && groups[g].quantity >= 1 by {
            assert(group_fits(groups, items, g));
        }
        assert forall|g: int, m: int, h: int, k: int|
            0 <= g < groups.len() && 0 <= m < groups[g].members@.len() && 0 <= h < groups.len() && 0
                <= k < groups[h].members@.len() && (g != h || m != k) implies (
        #[trigger] groups[g].members@[m]).0 != (#[trigger] groups[h].members@[k]).0 by {
            if g < h || (g == h && m < k) {
                assert(!named_before(groups, h, k, groups[h].members@[k].0));
            } else {
                assert(!named_before(groups, g, m, groups[g].members@[m].0));
            }
        }
    }
    if {
        &&& forall|g: int|
            0 <= g < groups.len() ==> (#[trigger] groups[g]).members@.len() >= 1
                && groups[g].quantity >= 1
        &&& forall|g: int, m: int|
            0 <= g < groups.len() && 0 <= m < groups[g].members@.len() ==> {
                let (item, per_garment) = #[trigger] groups[g].members@[m];
                &&& item < items.len()
                &&& per_garment >= 1
                &&& items[item as int].demand == groups[g].quantity * per_garment
            }
        &&& forall|g: int, m: int, h: int, k: int|
            0 <= g < groups.len() && 0 <= m < groups[g].members@.len() && 0 <= h < groups.len() && 0
                <= k < groups[h].members@.len() && (g != h || m != k) ==> (
            #[trigger] groups[g].members@[m]).0 != (#[trigger] groups[h].members@[k]).0
    } {
        assert forall|g: int| 0 <= g < groups.len() implies #[trigger] group_fits(
            groups,
            items,
            g,
        ) by {
            assert forall|m: int| 0 <= m < groups[g].members@.len() implies (
            #[trigger] member_problem(groups, items, g, m)) is None by {
                let (item, per_garment) = groups[g].members@[m];
                if named_before(groups, g, m, item) {
                    let (h, k) = choose|h: int, k: int|
                        #![trigger groups[h].members@[k]]
                        0 <= h <= g && 0 <= k < groups[h].members@.len() && (h < g || k < m)
                            && groups[h].members@[k].0 == item;
                    assert(groups[h].members@[k].0 != groups[g].members@[m].0);
                }
            }
        }
    }
}

/// What each problem says is true of the spec. Problems of the flip configuration come before
/// those of groups; of a group, missing members come before a missing quantity, and of a member,
/// an unknown item before missing copies, and those before a wrong demand.
pub proof fn lemma_problem_is_true(
    spec: GroupedOrientationSpec,
    items: Seq<ItemType>,
    e: SpecError,
)
    requires
        spec.first_problem(items, e),
        spec.groups@.len() <= usize::MAX,
        items.len() <= usize::MAX,
    ensures
        !spec.fits(items),
        !(e is FlipProbability) ==> !spec.flip.p_flip.nan() && 0 <= spec.flip.p_flip.rank()
            <= 0x3f80_0000,
        !(e is FlipProbability || e is NoGarmentsPerFlip) ==> spec.flip.n_garments_per_flip > 0,
        match e {
            SpecError::FlipProbability => spec.flip.p_flip.nan() || spec.flip.p_flip.rank() < 0
                || spec.flip.p_flip.rank() > 0x3f80_0000,
            SpecError::NoGarmentsPerFlip => spec.flip.n_garments_per_flip == 0,
            SpecError::NoGroups => spec.flip.n_garments_per_flip > 0 && spec.groups@.len() == 0,
            SpecError::NoMembers { group } => group < spec.groups@.len()
                && spec.groups@[group as int].members@.len() == 0,
            SpecError::NoQuantity { group } => group < spec.groups@.len()
                && spec.groups@[group as int].members@.len() > 0
                && spec.groups@[group as int].quantity == 0,
            SpecError::ItemOutOfRange { group, item, n_items } => group < spec.groups@.len()
                && n_items == items.len() && item >= n_items && exists|m: int|
                0 <= m < spec.groups@[group as int].members@.len() && (
                #[trigger] spec.groups@[group as int].members@[m]).0 == item,
            SpecError::ItemRepeated { item } => exists|g: int, m: int, h: int, k: int|
                0 <= h <= g < spec.groups@.len() && 0 <= m < spec.groups@[g].members@.len() && 0 <= k
                    < spec.groups@[h].members@.len() && (h < g || k < m) && (
                #[trigger] spec.groups@[g].members@[m]).0 == item && (
                #[trigger] spec.groups@[h].members@[k]).0 == item,
            SpecError::NoPerGarment { group, item } => group < spec.groups@.len() && item
                < items.len() && exists|m: int|
                0 <= m < spec.groups@[group as int].members@.len()
                    && #[trigger] spec.groups@[group as int].members@[m] == (item, 0usize),
            SpecError::Demand { group, item, demand, quantity, per_garment } => {
                &&& group < spec.groups@.len()
                &&& quantity == spec.groups@[group as int].quantity
                &&& item < items.len()
                &&& demand == items[item as int].demand
                &&& demand != quantity * per_garment
                &&& per_garment > 0 && quantity > 0
                &&& exists|m: int|
                    0 <= m < spec.groups@[group as int].members@.len()
                        && #[trigger] spec.groups@[group as int].members@[m] == (item, per_garment)
            },
        },
{
    let groups = spec.groups@;
    if spec.flip.probability_in_range() && spec.flip.n_garments_per_flip > 0 && groups.len() > 0 {
        let g = choose|g: int|
            #![trigger group_problem(groups, items, g, e)]
            0 <= g < groups.len() && group_problem(groups, items, g, e) && forall|k: int|
                0 <= k < g ==> #[trigger] group_fits(groups, items, k);
        assert(group_problem(groups, items, g, e));
        assert(!group_fits(groups, items, g)) by {
            if groups[g].members@.len() > 0 && groups[g].quantity > 0 {
                let m = choose|m: int|
                    #![trigger member_problem(groups, items, g, m)]
                    0 <= m < groups[g].members@.len() && member_problem(groups, items, g, m)
                        == Some(e);
                assert(member_problem(groups, items, g, m) is Some);
            }
        }
        if groups[g].members@.len() > 0 && groups[g].quantity > 0 {
            let m = choose|m: int|
                #![trigger member_problem(groups, items, g, m)]
                0 <= m < groups[g].members@.len() && member_problem(groups, items, g, m) == Some(e);
            assert(member_problem(groups, items, g, m) == Some(e));
            let item = groups[g].members@[m].0;
            assert(groups[g as usize as int].members@[m] == groups[g].members@[m]);
            match e {
                SpecError::ItemOutOfRange { group, item, .. } => {
                    assert(groups[group as int].members@[m].0 == item);
                },
                SpecError::ItemRepeated { .. } => {},
                SpecError::NoPerGarment { group, item } => {
                    assert(groups[group as int].members@[m] == (item, 0usize));
                },
                SpecError::Demand { group, item, per_garment, .. } => {
                    assert(groups[group as int].members@[m] == (item, per_garment));
                },
                _ => {},
            }
            if item < items.len() && named_before(groups, g, m, item) {
                let (h, k) = choose|h: int, k: int|
                    #![trigger groups[h].members@[k]]
                    0 <= h <= g && 0 <= k < groups[h].members@.len() && (h < g || k < m)
                        && groups[h].members@[k].0 == item;
                assert(groups[h].members@[k].0 == item);
                assert(groups[g].members@[m].0 == item);
            }
        }
    }
}

/// The problem reported is the first: with only the groups before the one that it names, and with
/// the same flip configuration, a spec has no problem but that of having no groups.
pub proof fn lemma_problem_comes_first(
    spec: GroupedOrientationSpec,
    earlier: GroupedOrientationSpec,
    items: Seq<ItemType>,
    e: SpecError,
)
    requires
        spec.first_problem(items, e),
        spec.groups@.len() <= usize::MAX,
        earlier.flip == spec.flip,
        match e {
            SpecError::NoMembers { group } => earlier.groups@ == spec.groups@.take(group as int),
            SpecError::NoQuantity { group } => earlier.groups@ == spec.groups@.take(group as int),
            SpecError::ItemOutOfRange { group, .. } => earlier.groups@ == spec.groups@.take(
                group as int,
            ),
            SpecError::NoPerGarment { group, .. } => earlier.groups@ == spec.groups@.take(
                group as int,
            ),
            SpecError::Demand { group, .. } => earlier.groups@ == spec.groups@.take(group as int),
            _ => false,
        },
    ensures
        earlier.groups@.len() > 0 ==> earlier.fits(items),
{
    let groups = spec.groups@;
    let first = earlier.groups@;
    let g = choose|g: int|
        #![trigger group_problem(groups, items, g, e)]
        0 <= g < groups.len() && group_problem(groups, items, g, e) && forall|k: int|
            0 <= k < g ==> #[trigger] group_fits(groups, items, k);
    assert(group_problem(groups, items, g, e));
    if groups[g].members@.len() > 0 && groups[g].quantity > 0 {
        let m = choose|m: int|
            #![trigger member_problem(groups, items, g, m)]
            0 <= m < groups[g].members@.len() && member_problem(groups, items, g, m) == Some(e);
        assert(member_problem(groups, items, g, m) == Some(e));
    }
    assert(first == groups.take(g));
    assert forall|k: int| 0 <= k < first.len() implies #[trigger] group_fits(first, items, k) by {
        assert(group_fits(groups, items, k));
        assert(first[k] == groups[k]);
        assert forall|m: int| 0 <= m < first[k].members@.len() implies (
        #[trigger] member_problem(first, items, k, m)) is None by {
            assert(member_problem(groups, items, k, m) is None);
            let id = first[k].members@[m].0;
            if named_before(first, k, m, id) {
                let (h, l) = choose|h: int, l: int|
                    #![trigger first[h].members@[l]]
                    0 <= h <= k && 0 <= l < first[h].members@.len() && (h < k || l < m)
                        && first[h].members@[l].0 == id;
                assert(first[h] == groups[h]);
                assert(groups[h].members@[l].0 == id);
            }
        }
    }
}

/// The numbers in a message are those of the problem, each behind its own label.
pub proof fn lemma_message_numbers(
    group: usize,
    item: usize,
    n_items: usize,
    demand: usize,
    quantity: usize,
    per_garment: usize,
    p_flip: Seq<char>,
)
    ensures
        ({
            let text = SpecError::NoMembers { group }.text(p_flip);
            text == "group "@ + decimal(group as nat) + " has no members"@
        }),
        ({
            let text = SpecError::NoQuantity { group }.text(p_flip);
            text == "group "@ + decimal(group as nat) + " has quantity 0"@
        }),
        ({
            let text = SpecError::ItemOutOfRange { group, item, n_items }.text(p_flip);
            text == ("group "@ + decimal(group as nat)) + (": item id "@ + decimal(item as nat)) + (
            " out of range (instance has "@ + decimal(n_items as nat) + " items)"@)
        }),
        ({
            let text = SpecError::ItemRepeated { item }.text(p_flip);
            text == "item id "@ + decimal(item as nat)
                + " appears in more than one group (groups must be disjoint)"@
        }),
        ({
            let text = SpecError::NoPerGarment { group, item }.text(p_flip);
            text == ("group "@ + decimal(group as nat)) + (": item "@ + decimal(item as nat)) + (
            " has per_garment 0"@)
        }),
        ({
            let e = SpecError::Demand { group, item, demand, quantity, per_garment };
            e.text(p_flip) == ("group "@ + decimal(group as nat)) + (": item "@ + decimal(
                item as nat,
            )) + (" demand "@ + decimal(demand as nat)) + (" != quantity "@ + decimal(
                quantity as nat,
            )) + (" x per_garment "@ + decimal(per_garment as nat))
        }),
{
    assert(SpecError::ItemOutOfRange { group, item, n_items }.text(p_flip) =~= ("group "@ + decimal(
        group as nat,
    )) + (": item id "@ + decimal(item as nat)) + (" out of range (instance has "@ + decimal(
        n_items as nat,
    ) + " items)"@));
    assert(SpecError::NoPerGarment { group, item }.text(p_flip) =~= ("group "@ + decimal(
        group as nat,
    )) + (": item "@ + decimal(item as nat)) + (" has per_garment 0"@));
    let e = SpecError::Demand { group, item, demand, quantity, per_garment };
    assert(e.text(p_flip) =~= ("group "@ + decimal(group as nat)) + (": item "@ + decimal(
        item as nat,
    )) + (" demand "@ + decimal(demand as nat)) + (" != quantity "@ + decimal(quantity as nat)) + (
    " x per_garment "@ + decimal(per_garment as nat)));
}

} // verus!
