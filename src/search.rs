//! Name search across Groups, Properties, Zones and Items, under the same
//! membership and visibility rules as the tree.

use crate::model::{Requester, Store};
use crate::select::{lemma_select, select};
use crate::tree::{group_selected, prop_shown, zone_shown};
use crate::visibility::visible_to;
use vstd::prelude::*;

verus! {

/// What `str::to_lowercase` makes of a string.
pub uninterp spec fn lower_of(s: Seq<char>) -> Seq<char>;

/// Relies on `str::to_lowercase`: the result depends on the characters alone.
#[verifier::external_body]
fn lowercase(s: &str) -> (r: String)
    ensures
        r@ == lower_of(s@),
{
    s.to_lowercase()
}

/// `needle` occurs in `hay` as a run of consecutive characters.
pub open spec fn occurs_in(hay: Seq<char>, needle: Seq<char>) -> bool {
    exists|i: int|
        0 <= i && i + needle.len() <= hay.len() && #[trigger] hay.subrange(i, i + needle.len())
            == needle
}

/// Relies on `str::contains` with a string pattern: true exactly when the
/// pattern occurs in the string (a match of valid UTF-8 starts and ends on
/// character boundaries).
#[verifier::external_body]
fn contains_str(hay: &str, needle: &str) -> (r: bool)
    ensures
        r == occurs_in(hay@, needle@),
{
    hay.contains(needle)
}

/// A name matches a query already in lower case when the lower-cased name holds it.
pub open spec fn name_hit(name: Seq<char>, folded: Seq<char>) -> bool {
    occurs_in(lower_of(name), folded)
}

fn matches(name: &String, folded: &str) -> (r: bool)
    ensures
        r == name_hit(name@, folded@),
{
    let lower = lowercase(name.as_str());
    contains_str(lower.as_str(), folded)
}

/// Positions in the snapshot of the records whose names matched.
#[derive(Clone, Debug)]
pub struct SearchHits {
    pub groups: Vec<usize>,
    pub properties: Vec<usize>,
    pub zones: Vec<usize>,
    pub items: Vec<usize>,
}

pub open spec fn as_ints(v: Seq<usize>) -> Seq<int> {
    v.map_values(|i: usize| i as int)
}

/// The Item `k` lies in a shown Zone.
pub open spec fn item_shown(s: &Store, q: Requester, k: int) -> bool {
    exists|z: int|
        0 <= z < s.zones@.len() && zone_shown(s, q, z) && #[trigger] s.zones@[z].id
            == s.items@[k].zone_id
}

pub open spec fn group_hits(s: &Store, q: Requester, folded: Seq<char>) -> Seq<int> {
    select(
        s.groups@.len() as int,
        |g: int| group_selected(s, q, s.groups@[g].id) && name_hit(s.groups@[g].name@, folded),
    )
}

pub open spec fn property_hits(s: &Store, q: Requester, folded: Seq<char>) -> Seq<int> {
    select(
        s.properties@.len() as int,
        |p: int| prop_shown(s, q, p) && name_hit(s.properties@[p].name@, folded),
    )
}

pub open spec fn zone_hits(s: &Store, q: Requester, folded: Seq<char>) -> Seq<int> {
    select(
        s.zones@.len() as int,
        |z: int| zone_shown(s, q, z) && name_hit(s.zones@[z].name@, folded),
    )
}

pub open spec fn item_hits(s: &Store, q: Requester, folded: Seq<char>) -> Seq<int> {
    select(
        s.items@.len() as int,
        |k: int| item_shown(s, q, k) && name_hit(s.items@[k].name@, folded),
    )
}

/// The search for a query already in lower case: the records the requester
/// may see whose lower-cased names contain it, each kind in snapshot order.
pub fn search_folded(s: &Store, q: &Requester, folded: &str) -> (r: SearchHits)
    ensures
        as_ints(r.groups@) == group_hits(s, *q, folded@),
        as_ints(r.properties@) == property_hits(s, *q, folded@),
        as_ints(r.zones@) == zone_hits(s, *q, folded@),
        as_ints(r.items@) == item_hits(s, *q, folded@),
{
    let shown = crate::tree::compute_shown(s, q);
    let ghost f = folded@;
    let ghost gp = |g: int| group_selected(s, *q, s.groups@[g].id) && name_hit(s.groups@[g].name@, f);
    let mut groups: Vec<usize> = Vec::new();
    let mut i: usize = 0;
    while i < s.groups.len()
        invariant
            0 <= i <= s.groups@.len(),
            f == folded@,
            gp == (|g: int| group_selected(s, *q, s.groups@[g].id) && name_hit(s.groups@[g].name@, f)),
            as_ints(groups@) == select(i as int, gp),
        decreases s.groups@.len() - i,
    {
        if crate::tree::group_selected_exec(s, q, &s.groups[i].id) && matches(&s.groups[i].name, folded) {
            groups.push(i);
            assert(select(i + 1, gp) == select(i as int, gp).push(i as int));
            assert(as_ints(groups@) =~= select(i + 1, gp));
        } else {
            assert(select(i + 1, gp) == select(i as int, gp));
        }
        i = i + 1;
    }
    let ghost pp = |p: int| prop_shown(s, *q, p) && name_hit(s.properties@[p].name@, f);
    let mut properties: Vec<usize> = Vec::new();
    let mut i: usize = 0;
    while i < s.properties.len()
        invariant
            0 <= i <= s.properties@.len(),
            f == folded@,
            shown.holds(s, *q),
            pp == (|p: int| prop_shown(s, *q, p) && name_hit(s.properties@[p].name@, f)),
            as_ints(properties@) == select(i as int, pp),
        decreases s.properties@.len() - i,
    {
        if shown.props[i] && matches(&s.properties[i].name, folded) {
            properties.push(i);
            assert(select(i + 1, pp) == select(i as int, pp).push(i as int));
            assert(as_ints(properties@) =~= select(i + 1, pp));
        } else {
            assert(select(i + 1, pp) == select(i as int, pp));
        }
        i = i + 1;
    }
    let ghost zp = |z: int| zone_shown(s, *q, z) && name_hit(s.zones@[z].name@, f);
    let mut zones: Vec<usize> = Vec::new();
    let mut i: usize = 0;
    while i < s.zones.len()
        invariant
            0 <= i <= s.zones@.len(),
            f == folded@,
            shown.holds(s, *q),
            zp == (|z: int| zone_shown(s, *q, z) && name_hit(s.zones@[z].name@, f)),
            as_ints(zones@) == select(i as int, zp),
        decreases s.zones@.len() - i,
    {
        if shown.zones[i] && matches(&s.zones[i].name, folded) {
            zones.push(i);
            assert(select(i + 1, zp) == select(i as int, zp).push(i as int));
            assert(as_ints(zones@) =~= select(i + 1, zp));
        } else {
            assert(select(i + 1, zp) == select(i as int, zp));
        }
        i = i + 1;
    }
    let ghost ip = |k: int| item_shown(s, *q, k) && name_hit(s.items@[k].name@, f);
    let mut items: Vec<usize> = Vec::new();
    let mut k: usize = 0;
    while k < s.items.len()
        invariant
            0 <= k <= s.items@.len(),
            f == folded@,
            shown.holds(s, *q),
            ip == (|x: int| item_shown(s, *q, x) && name_hit(s.items@[x].name@, f)),
            as_ints(items@) == select(k as int, ip),
        decreases s.items@.len() - k,
    {
        let mut in_shown = false;
        let mut z: usize = 0;
        while z < s.zones.len()
            invariant
                0 <= z <= s.zones@.len(),
                k < s.items@.len(),
                shown.holds(s, *q),
                in_shown <==> exists|x: int|
                    0 <= x < z && zone_shown(s, *q, x) && #[trigger] s.zones@[x].id
                        == s.items@[k as int].zone_id,
            decreases s.zones@.len() - z,
        {
            if !in_shown && shown.zones[z] && s.zones[z].id.same(&s.items[k].zone_id) {
                in_shown = true;
            }
            z = z + 1;
        }
        if in_shown && matches(&s.items[k].name, folded) {
            items.push(k);
            assert(select(k + 1, ip) == select(k as int, ip).push(k as int));
            assert(as_ints(items@) =~= select(k + 1, ip));
        } else {
            assert(select(k + 1, ip) == select(k as int, ip));
        }
        k = k + 1;
    }
    SearchHits { groups, properties, zones, items }
}

/// The search for `text`, matched without regard to case.
pub fn search(s: &Store, q: &Requester, text: &str) -> (r: SearchHits)
    ensures
        as_ints(r.groups@) == group_hits(s, *q, lower_of(text@)),
        as_ints(r.properties@) == property_hits(s, *q, lower_of(text@)),
        as_ints(r.zones@) == zone_hits(s, *q, lower_of(text@)),
        as_ints(r.items@) == item_hits(s, *q, lower_of(text@)),
{
    let folded = lowercase(text);
    search_folded(s, q, folded.as_str())
}

/// Visibility exclusion in search. Every Property and Zone a search returns
/// is visible to the requester, so one private to another user never shows
/// up for a non-admin.
pub proof fn lemma_search_visible(s: &Store, q: Requester, folded: Seq<char>)
    ensures
        forall|k: int|
            0 <= k < property_hits(s, q, folded).len() ==> visible_to(
                s.properties@[#[trigger] property_hits(s, q, folded)[k]].visibility,
                q,
            ),
        forall|k: int|
            0 <= k < zone_hits(s, q, folded).len() ==> visible_to(
                s.zones@[#[trigger] zone_hits(s, q, folded)[k]].visibility,
                q,
            ),
{
    lemma_select(
        s.properties@.len() as int,
        |p: int| prop_shown(s, q, p) && name_hit(s.properties@[p].name@, folded),
    );
    lemma_select(
        s.zones@.len() as int,
        |z: int| zone_shown(s, q, z) && name_hit(s.zones@[z].name@, folded),
    );
}

} // verus!
