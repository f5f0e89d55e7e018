//! Records of the containment hierarchy and a read-only snapshot of them.

use crate::ids::Oid;
use vstd::prelude::*;

verus! {

/// Who may see a Property or a Zone.
#[derive(Clone, Copy, Debug, PartialEq, Eq)]
pub enum Visibility {
    Public,
    PrivateTo(Oid),
}

#[derive(Clone, Copy, Debug, PartialEq, Eq)]
pub enum Role {
    Admin,
    Member,
}

/// The authenticated subject of a request and its role.
#[derive(Clone, Copy, Debug, PartialEq, Eq)]
pub struct Requester {
    pub subject: Oid,
    pub role: Role,
}

#[derive(Clone, Debug)]
pub struct CreateGroup {
    pub name: String,
    pub user_max: Option<i32>,
}

#[derive(Clone, Debug)]
pub struct Group {
    pub id: Oid,
    pub name: String,
    pub user_max: Option<i32>,
    pub user_count: i32,
    pub group_code: String,
    pub tags: Option<Vec<String>>,
}

#[derive(Clone, Debug)]
pub struct Property {
    pub id: Oid,
    pub name: String,
    pub direction: Option<String>,
    pub group_id: Oid,
    pub visibility: Visibility,
}

/// A Zone. `parent_zone_id` is the direct parent: another Zone, or the
/// owning Property itself (or absent) for a Zone directly under it.
#[derive(Clone, Debug)]
pub struct Zone {
    pub id: Oid,
    pub name: String,
    pub property_id: Oid,
    pub visibility: Visibility,
    pub parent_zone_id: Option<Oid>,
}

#[derive(Clone, Debug)]
pub struct Item {
    pub id: Oid,
    pub name: String,
    pub description: Option<String>,
    pub picture_url: Option<String>,
    pub zone_id: Oid,
    pub tags: Option<Vec<String>>,
}

/// Membership of a user in a group.
#[derive(Clone, Debug)]
pub struct UserGroup {
    pub id: Oid,
    pub group_id: Oid,
    pub user_id: Oid,
}

/// A read-only snapshot of the five collections.
#[derive(Clone, Debug)]
pub struct Store {
    pub groups: Vec<Group>,
    pub properties: Vec<Property>,
    pub zones: Vec<Zone>,
    pub items: Vec<Item>,
    pub memberships: Vec<UserGroup>,
}

/// Position of the first occurrence of `id` in `ids`, or -1.
pub open spec fn first_index<T>(ids: Seq<T>, id: T) -> int
    decreases ids.len(),
{
    if ids.len() == 0 {
        -1
    } else if ids[0] == id {
        0
    } else {
        let r = first_index(ids.drop_first(), id);
        if r < 0 {
            -1
        } else {
            r + 1
        }
    }
}

/// `first_index` is the first position holding `id`, or -1 when there is none.
pub proof fn lemma_first_index<T>(ids: Seq<T>, id: T)
    ensures
        -1 <= first_index(ids, id) < ids.len(),
        first_index(ids, id) == -1 <==> forall|j: int| 0 <= j < ids.len() ==> ids[j] != id,
        first_index(ids, id) >= 0 ==> ids[first_index(ids, id)] == id && forall|j: int|
            0 <= j < first_index(ids, id) ==> ids[j] != id,
    decreases ids.len(),
{
    if ids.len() > 0 && ids[0] != id {
        lemma_first_index(ids.drop_first(), id);
        if first_index(ids, id) == -1 {
            assert forall|j: int| 0 <= j < ids.len() implies ids[j] != id by {
                if j > 0 {
                    assert(ids[j] == ids.drop_first()[j - 1]);
                }
            }
        }
        if first_index(ids, id) >= 0 {
            assert forall|j: int| 0 <= j < first_index(ids, id) implies ids[j] != id by {
                if j > 0 {
                    assert(ids[j] == ids.drop_first()[j - 1]);
                }
            }
        } else {
            assert(forall|j: int|
                0 <= j < ids.drop_first().len() ==> ids.drop_first()[j] == ids[j + 1]);
        }
    }
}

/// With no repeated identifier, the first position of an identifier is its only one.
pub proof fn lemma_first_index_unique<T>(ids: Seq<T>, i: int)
    requires
        0 <= i < ids.len(),
        ids.no_duplicates(),
    ensures
        first_index(ids, ids[i]) == i,
{
    lemma_first_index(ids, ids[i]);
}

pub open spec fn group_ids(s: Seq<Group>) -> Seq<Oid> {
    s.map_values(|g: Group| g.id)
}

pub open spec fn property_ids(s: Seq<Property>) -> Seq<Oid> {
    s.map_values(|p: Property| p.id)
}

pub open spec fn zone_ids(s: Seq<Zone>) -> Seq<Oid> {
    s.map_values(|z: Zone| z.id)
}

pub open spec fn item_ids(s: Seq<Item>) -> Seq<Oid> {
    s.map_values(|i: Item| i.id)
}

impl Store {
    /// Identifiers are unique within each collection, and no Zone shares its
    /// identifier with a Property or an Item.
    pub open spec fn wf(&self) -> bool {
        &&& group_ids(self.groups@).no_duplicates()
        &&& property_ids(self.properties@).no_duplicates()
        &&& zone_ids(self.zones@).no_duplicates()
        &&& item_ids(self.items@).no_duplicates()
        &&& forall|z: int, p: int|
            0 <= z < self.zones@.len() && 0 <= p < self.properties@.len() ==> #[trigger] self.zones@[z].id
                != #[trigger] self.properties@[p].id
        &&& forall|i: int, z: int|
            0 <= i < self.items@.len() && 0 <= z < self.zones@.len() ==> #[trigger] self.items@[i].id
                != #[trigger] self.zones@[z].id
    }

    pub open spec fn group_index(&self, id: Oid) -> int {
        first_index(group_ids(self.groups@), id)
    }

    pub open spec fn property_index(&self, id: Oid) -> int {
        first_index(property_ids(self.properties@), id)
    }

    pub open spec fn zone_index(&self, id: Oid) -> int {
        first_index(zone_ids(self.zones@), id)
    }

    pub open spec fn item_index(&self, id: Oid) -> int {
        first_index(item_ids(self.items@), id)
    }

    /// The first Group with identifier `id`.
    pub fn find_group(&self, id: &Oid) -> (r: Option<usize>)
        ensures
            r is None <==> self.group_index(*id) == -1,
            r is Some ==> r->0 as int == self.group_index(*id),
            r is Some ==> r->0 < self.groups@.len() && self.groups@[r->0 as int].id == *id,
    {
        let ghost ids = group_ids(self.groups@);
        proof {
            lemma_first_index(ids, *id);
        }
        let mut i: usize = 0;
        while i < self.groups.len()
            invariant
                0 <= i <= self.groups@.len(),
                ids == group_ids(self.groups@),
                ids.len() == self.groups@.len(),
                forall|j: int| 0 <= j < i ==> ids[j] != *id,
                -1 <= first_index(ids, *id) < ids.len(),
                first_index(ids, *id) == -1 <==> forall|j: int| 0 <= j < ids.len() ==> ids[j] != *id,
                first_index(ids, *id) >= 0 ==> ids[first_index(ids, *id)] == *id && forall|j: int|
                    0 <= j < first_index(ids, *id) ==> ids[j] != *id,
            decreases self.groups@.len() - i,
        {
            assert(ids[i as int] == self.groups@[i as int].id);
            if self.groups[i].id.same(id) {
                return Some(i);
            }
            i = i + 1;
        }
        None
    }

    /// The first Property with identifier `id`.
    pub fn find_property(&self, id: &Oid) -> (r: Option<usize>)
        ensures
            r is None <==> self.property_index(*id) == -1,
            r is Some ==> r->0 as int == self.property_index(*id),
            r is Some ==> r->0 < self.properties@.len() && self.properties@[r->0 as int].id == *id,
    {
        let ghost ids = property_ids(self.properties@);
        proof {
            lemma_first_index(ids, *id);
        }
        let mut i: usize = 0;
        while i < self.properties.len()
            invariant
                0 <= i <= self.properties@.len(),
                ids == property_ids(self.properties@),
                ids.len() == self.properties@.len(),
                forall|j: int| 0 <= j < i ==> ids[j] != *id,
                -1 <= first_index(ids, *id) < ids.len(),
                first_index(ids, *id) == -1 <==> forall|j: int| 0 <= j < ids.len() ==> ids[j] != *id,
                first_index(ids, *id) >= 0 ==> ids[first_index(ids, *id)] == *id && forall|j: int|
                    0 <= j < first_index(ids, *id) ==> ids[j] != *id,
            decreases self.properties@.len() - i,
        {
            assert(ids[i as int] == self.properties@[i as int].id);
            if self.properties[i].id.same(id) {
                return Some(i);
            }
            i = i + 1;
        }
        None
    }

    /// The first Zone with identifier `id`.
    pub fn find_zone(&self, id: &Oid) -> (r: Option<usize>)
        ensures
            r is None <==> self.zone_index(*id) == -1,
            r is Some ==> r->0 as int == self.zone_index(*id),
            r is Some ==> r->0 < self.zones@.len() && self.zones@[r->0 as int].id == *id,
    {
        let ghost ids = zone_ids(self.zones@);
        proof {
            lemma_first_index(ids, *id);
        }
        let mut i: usize = 0;
        while i < self.zones.len()
            invariant
                0 <= i <= self.zones@.len(),
                ids == zone_ids(self.zones@),
                ids.len() == self.zones@.len(),
                forall|j: int| 0 <= j < i ==> ids[j] != *id,
                -1 <= first_index(ids, *id) < ids.len(),
                first_index(ids, *id) == -1 <==> forall|j: int| 0 <= j < ids.len() ==> ids[j] != *id,
                first_index(ids, *id) >= 0 ==> ids[first_index(ids, *id)] == *id && forall|j: int|
                    0 <= j < first_index(ids, *id) ==> ids[j] != *id,
            decreases self.zones@.len() - i,
        {
            assert(ids[i as int] == self.zones@[i as int].id);
            if self.zones[i].id.same(id) {
                return Some(i);
            }
            i = i + 1;
        }
        None
    }

    /// The first Item with identifier `id`.
    pub fn find_item(&self, id: &Oid) -> (r: Option<usize>)
        ensures
            r is None <==> self.item_index(*id) == -1,
            r is Some ==> r->0 as int == self.item_index(*id),
            r is Some ==> r->0 < self.items@.len() && self.items@[r->0 as int].id == *id,
    {
        let ghost ids = item_ids(self.items@);
        proof {
            lemma_first_index(ids, *id);
        }
        let mut i: usize = 0;
        while i < self.items.len()
            invariant
                0 <= i <= self.items@.len(),
                ids == item_ids(self.items@),
                ids.len() == self.items@.len(),
                forall|j: int| 0 <= j < i ==> ids[j] != *id,
                -1 <= first_index(ids, *id) < ids.len(),
                first_index(ids, *id) == -1 <==> forall|j: int| 0 <= j < ids.len() ==> ids[j] != *id,
                first_index(ids, *id) >= 0 ==> ids[first_index(ids, *id)] == *id && forall|j: int|
                    0 <= j < first_index(ids, *id) ==> ids[j] != *id,
            decreases self.items@.len() - i,
        {
            assert(ids[i as int] == self.items@[i as int].id);
            if self.items[i].id.same(id) {
                return Some(i);
            }
            i = i + 1;
        }
        None
    }
}

impl Store {
    /// The Property a new Zone belongs to, given its direct parent: the parent
    /// itself when it is a Property, else the parent Zone's Property; `None`
    /// when the parent is neither.
    pub fn zone_property_for_parent(&self, parent: &Oid) -> (r: Option<Oid>)
        ensures
            self.property_index(*parent) >= 0 ==> r == Some(*parent),
            self.property_index(*parent) < 0 && self.zone_index(*parent) >= 0 ==> r == Some(
                self.zones@[self.zone_index(*parent)].property_id,
            ),
            self.property_index(*parent) < 0 && self.zone_index(*parent) < 0 ==> r is None,
    {
        if self.find_property(parent).is_some() {
            return Some(*parent);
        }
        match self.find_zone(parent) {
            Some(zi) => Some(self.zones[zi].property_id),
            None => None,
        }
    }
}

} // verus!
