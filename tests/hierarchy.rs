use inventory_api::ancestors::{get_ancestors, ResolveError};
use inventory_api::auth::{normalize_subject, requester_of, AuthError, Claims};
use inventory_api::cascade::{group_deletion_plan, property_deletion_plan, zone_deletion_plan, Deletion};
use inventory_api::ids::Oid;
use inventory_api::listing::{properties_of_group, zone_children};
use inventory_api::membership::{join_group, leave_group, JoinError, LeaveError, LeaveOutcome};
use inventory_api::model::{Group, Item, Property, Requester, Role, Store, UserGroup, Visibility, Zone};
use inventory_api::search::{search, search_folded};
use inventory_api::tree::{build_tree, NodeKind, TreeError, TreeNode};
use inventory_api::visibility::is_visible;

fn oid(n: u8) -> Oid {
    let mut b = [0u8; 12];
    b[11] = n;
    Oid::from_bytes(b)
}

fn hex(n: u8) -> String {
    format!("{:024x}", n)
}

const HOME: u8 = 1;
const OFFICE: u8 = 2;
const HOUSE: u8 = 10;
const ANNEX: u8 = 11;
const KITCHEN: u8 = 20;
const PANTRY: u8 = 21;
const FLOUR: u8 = 40;
const ALICE: u8 = 100;
const BOB: u8 = 101;

fn group(id: u8, name: &str) -> Group {
    Group {
        id: oid(id),
        name: name.to_string(),
        user_max: None,
        user_count: 1,
        group_code: format!("code{}", id),
        tags: None,
    }
}

fn property(id: u8, name: &str, group_id: u8, visibility: Visibility) -> Property {
    Property { id: oid(id), name: name.to_string(), direction: None, group_id: oid(group_id), visibility }
}

fn zone(id: u8, name: &str, property_id: u8, parent: Option<u8>, visibility: Visibility) -> Zone {
    Zone {
        id: oid(id),
        name: name.to_string(),
        property_id: oid(property_id),
        visibility,
        parent_zone_id: parent.map(oid),
    }
}

fn item(id: u8, name: &str, zone_id: u8) -> Item {
    Item {
        id: oid(id),
        name: name.to_string(),
        description: None,
        picture_url: None,
        zone_id: oid(zone_id),
        tags: None,
    }
}

fn member(id: u8, group_id: u8, user_id: u8) -> UserGroup {
    UserGroup { id: oid(id), group_id: oid(group_id), user_id: oid(user_id) }
}

fn admin() -> Requester {
    Requester { subject: oid(200), role: Role::Admin }
}

fn user(n: u8) -> Requester {
    Requester { subject: oid(n), role: Role::Member }
}

/// Home > House > Kitchen > Pantry > Flour.
fn home() -> Store {
    Store {
        groups: vec![group(HOME, "Home")],
        properties: vec![property(HOUSE, "House", HOME, Visibility::Public)],
        zones: vec![
            zone(KITCHEN, "Kitchen", HOUSE, Some(HOUSE), Visibility::Public),
            zone(PANTRY, "Pantry", HOUSE, Some(KITCHEN), Visibility::Public),
        ],
        items: vec![item(FLOUR, "Flour", PANTRY)],
        memberships: vec![member(90, HOME, ALICE), member(91, HOME, BOB)],
    }
}

/// A node as (kind, name, children), for comparing trees.
#[derive(Debug, PartialEq)]
struct Shape(NodeKind, String, Vec<Shape>);

fn shape(n: &TreeNode) -> Shape {
    Shape(n.kind, n.name.clone(), n.children.iter().map(shape).collect())
}

fn leaf(kind: NodeKind, name: &str) -> Shape {
    Shape(kind, name.to_string(), vec![])
}

fn node(kind: NodeKind, name: &str, children: Vec<Shape>) -> Shape {
    Shape(kind, name.to_string(), children)
}

fn tree_shape(s: &Store, q: &Requester) -> Vec<Shape> {
    build_tree(s, q).unwrap().iter().map(shape).collect()
}

fn zone_names(s: &Store, zones: &[usize]) -> Vec<String> {
    zones.iter().map(|&i| s.zones[i].name.clone()).collect()
}

fn has_node(nodes: &[TreeNode], id: &Oid, kind: NodeKind) -> bool {
    nodes.iter().any(|n| (n.id == *id && n.kind == kind) || has_node(&n.children, id, kind))
}

#[test]
fn ancestors_of_item_in_example() {
    let s = home();
    let a = get_ancestors(&s, &hex(FLOUR)).unwrap();
    assert_eq!(s.groups[a.group.unwrap()].name, "Home");
    assert_eq!(s.properties[a.property.unwrap()].name, "House");
    assert_eq!(zone_names(&s, &a.zones), vec!["Kitchen", "Pantry"]);
}

#[test]
fn ancestors_of_zone_exclude_the_zone() {
    let s = home();
    let a = get_ancestors(&s, &hex(PANTRY)).unwrap();
    assert_eq!(zone_names(&s, &a.zones), vec!["Kitchen"]);
    assert_eq!(s.properties[a.property.unwrap()].name, "House");
    let a = get_ancestors(&s, &hex(KITCHEN)).unwrap();
    assert!(a.zones.is_empty());
    assert_eq!(s.groups[a.group.unwrap()].name, "Home");
}

#[test]
fn ancestors_of_property_and_group() {
    let s = home();
    let a = get_ancestors(&s, &hex(HOUSE)).unwrap();
    assert_eq!(a.property, Some(0));
    assert_eq!(a.group, Some(0));
    assert!(a.zones.is_empty());
    let a = get_ancestors(&s, &hex(HOME)).unwrap();
    assert_eq!(a.property, None);
    assert_eq!(a.group, None);
    assert!(a.zones.is_empty());
}

#[test]
fn ancestors_accept_upper_case_hex() {
    let mut s = home();
    s.items.push(item(0xab, "Whisk", KITCHEN));
    let a = get_ancestors(&s, &format!("{:024X}", 0xab)).unwrap();
    assert_eq!(zone_names(&s, &a.zones), vec!["Kitchen"]);
    let a = get_ancestors(&s, &format!("{:024x}", 0xab)).unwrap();
    assert_eq!(zone_names(&s, &a.zones), vec!["Kitchen"]);
}

#[test]
fn ancestors_errors() {
    let s = home();
    assert_eq!(get_ancestors(&s, &hex(77)).err(), Some(ResolveError::NotFound));
    assert_eq!(get_ancestors(&s, "not-an-id").err(), Some(ResolveError::InvalidIdentifier));
    assert_eq!(get_ancestors(&s, "00000000000000000000000").err(), Some(ResolveError::InvalidIdentifier));
    assert_eq!(get_ancestors(&s, "00000000000000000000000g").err(), Some(ResolveError::InvalidIdentifier));
    assert_eq!(get_ancestors(&s, "").err(), Some(ResolveError::InvalidIdentifier));
}

#[test]
fn ancestors_stop_at_dangling_parent() {
    let mut s = home();
    s.zones.push(zone(22, "Attic", HOUSE, Some(99), Visibility::Public));
    s.items.push(item(41, "Box", 22));
    let a = get_ancestors(&s, &hex(41)).unwrap();
    assert_eq!(zone_names(&s, &a.zones), vec!["Attic"]);
    assert_eq!(s.properties[a.property.unwrap()].name, "House");
    assert_eq!(s.groups[a.group.unwrap()].name, "Home");
    let a = get_ancestors(&s, &hex(22)).unwrap();
    assert!(a.zones.is_empty());
    assert_eq!(s.properties[a.property.unwrap()].name, "House");
}

#[test]
fn ancestors_of_item_in_missing_zone() {
    let mut s = home();
    s.items.push(item(42, "Lost", 98));
    let a = get_ancestors(&s, &hex(42)).unwrap();
    assert!(a.zones.is_empty());
    assert_eq!(a.property, None);
    assert_eq!(a.group, None);
}

#[test]
fn ancestors_report_cycles() {
    let mut s = home();
    s.zones.push(zone(23, "Loop A", HOUSE, Some(24), Visibility::Public));
    s.zones.push(zone(24, "Loop B", HOUSE, Some(23), Visibility::Public));
    s.items.push(item(43, "Spinner", 23));
    assert_eq!(get_ancestors(&s, &hex(43)).err(), Some(ResolveError::CorruptHierarchy));
}

#[test]
fn tree_for_admin_in_example() {
    let s = home();
    let expected = vec![node(
        NodeKind::Group,
        "Home",
        vec![node(
            NodeKind::Property,
            "House",
            vec![node(
                NodeKind::Zone,
                "Kitchen",
                vec![node(NodeKind::Zone, "Pantry", vec![leaf(NodeKind::Item, "Flour")])],
            )],
        )],
    )];
    assert_eq!(tree_shape(&s, &admin()), expected);
    assert_eq!(tree_shape(&s, &user(ALICE)), expected);
}

#[test]
fn tree_puts_sub_zones_before_items() {
    let mut s = home();
    s.items.push(item(44, "Spoon", KITCHEN));
    let t = tree_shape(&s, &admin());
    let kitchen = &t[0].2[0].2[0];
    assert_eq!(kitchen.1, "Kitchen");
    assert_eq!(kitchen.2.len(), 2);
    assert_eq!(kitchen.2[0].1, "Pantry");
    assert_eq!(kitchen.2[1], leaf(NodeKind::Item, "Spoon"));
}

#[test]
fn tree_shows_members_their_groups_only() {
    let mut s = home();
    s.groups.push(group(OFFICE, "Office"));
    s.properties.push(property(ANNEX, "Desk", OFFICE, Visibility::Public));
    let t = tree_shape(&s, &user(ALICE));
    assert_eq!(t.len(), 1);
    assert_eq!(t[0].1, "Home");
    let t = tree_shape(&s, &admin());
    assert_eq!(t.len(), 2);
    assert_eq!(t[1], node(NodeKind::Group, "Office", vec![leaf(NodeKind::Property, "Desk")]));
    assert!(tree_shape(&s, &user(150)).is_empty());
}

#[test]
fn private_zone_is_hidden_from_others() {
    let mut s = home();
    s.zones.push(zone(25, "Safe", HOUSE, Some(HOUSE), Visibility::PrivateTo(oid(ALICE))));
    s.items.push(item(45, "Jewels", 25));
    let bob = build_tree(&s, &user(BOB)).unwrap();
    assert!(!has_node(&bob, &oid(25), NodeKind::Zone));
    assert!(!has_node(&bob, &oid(45), NodeKind::Item));
    let alice = build_tree(&s, &user(ALICE)).unwrap();
    assert!(has_node(&alice, &oid(25), NodeKind::Zone));
    assert!(has_node(&alice, &oid(45), NodeKind::Item));
    let adm = build_tree(&s, &admin()).unwrap();
    assert!(has_node(&adm, &oid(25), NodeKind::Zone));
}

#[test]
fn private_property_is_hidden_from_others() {
    let mut s = home();
    s.properties.push(property(ANNEX, "Cabin", HOME, Visibility::PrivateTo(oid(BOB))));
    s.zones.push(zone(26, "Porch", ANNEX, Some(ANNEX), Visibility::Public));
    let alice = build_tree(&s, &user(ALICE)).unwrap();
    assert!(!has_node(&alice, &oid(ANNEX), NodeKind::Property));
    assert!(!has_node(&alice, &oid(26), NodeKind::Zone));
    let bob = build_tree(&s, &user(BOB)).unwrap();
    assert!(has_node(&bob, &oid(ANNEX), NodeKind::Property));
    assert!(has_node(&bob, &oid(26), NodeKind::Zone));
}

#[test]
fn dangling_parent_becomes_root() {
    let mut s = home();
    s.zones.push(zone(27, "Shed", HOUSE, Some(97), Visibility::Public));
    let t = build_tree(&s, &user(ALICE)).unwrap();
    let roots: Vec<&str> = t[0].children[0].children.iter().map(|n| n.name.as_str()).collect();
    assert_eq!(roots, vec!["Kitchen", "Shed"]);
}

#[test]
fn zone_under_hidden_parent_becomes_root() {
    let mut s = home();
    s.zones.push(zone(28, "Study", HOUSE, Some(HOUSE), Visibility::PrivateTo(oid(ALICE))));
    s.zones.push(zone(29, "Drawer", HOUSE, Some(28), Visibility::Public));
    let t = build_tree(&s, &user(BOB)).unwrap();
    let roots: Vec<&str> = t[0].children[0].children.iter().map(|n| n.name.as_str()).collect();
    assert_eq!(roots, vec!["Kitchen", "Drawer"]);
    let t = build_tree(&s, &user(ALICE)).unwrap();
    let roots: Vec<&str> = t[0].children[0].children.iter().map(|n| n.name.as_str()).collect();
    assert_eq!(roots, vec!["Kitchen", "Study"]);
}

#[test]
fn tree_query_is_repeatable() {
    let mut s = home();
    s.zones.push(zone(30, "Garage", HOUSE, None, Visibility::Public));
    s.items.push(item(46, "Bike", 30));
    assert_eq!(tree_shape(&s, &admin()), tree_shape(&s, &admin()));
    assert_eq!(tree_shape(&s, &user(BOB)), tree_shape(&s, &user(BOB)));
}

#[test]
fn tree_reports_cycles() {
    let mut s = home();
    s.zones.push(zone(31, "Echo", HOUSE, Some(PANTRY), Visibility::Public));
    s.zones.push(zone(PANTRY, "Mirror", HOUSE, Some(31), Visibility::Public));
    assert_eq!(build_tree(&s, &admin()).err(), Some(TreeError::CorruptHierarchy));
}

#[test]
fn visibility_rule() {
    let public = Visibility::Public;
    let alices = Visibility::PrivateTo(oid(ALICE));
    assert!(is_visible(&public, &user(BOB)));
    assert!(is_visible(&alices, &user(ALICE)));
    assert!(!is_visible(&alices, &user(BOB)));
    assert!(is_visible(&alices, &admin()));
}

#[test]
fn zone_cascade_deletes_deepest_first() {
    let mut s = home();
    s.items.push(item(47, "Spoon", KITCHEN));
    s.zones.push(zone(32, "Shelf", HOUSE, Some(PANTRY), Visibility::Public));
    s.items.push(item(48, "Jar", 32));
    s.zones.push(zone(33, "Garden", HOUSE, Some(HOUSE), Visibility::Public));
    let plan = zone_deletion_plan(&s, &oid(KITCHEN));
    assert_eq!(
        plan,
        vec![
            Deletion::Item(oid(48)),
            Deletion::Zone(oid(32)),
            Deletion::Item(oid(FLOUR)),
            Deletion::Zone(oid(PANTRY)),
            Deletion::Item(oid(47)),
            Deletion::Zone(oid(KITCHEN)),
        ]
    );
    let zones = plan.iter().filter(|d| matches!(d, Deletion::Zone(_))).count();
    let items = plan.iter().filter(|d| matches!(d, Deletion::Item(_))).count();
    assert_eq!(zones, 2 + 1);
    assert_eq!(items, 3);
}

#[test]
fn zone_cascade_of_leaf() {
    let s = home();
    assert_eq!(zone_deletion_plan(&s, &oid(PANTRY)), vec![Deletion::Item(oid(FLOUR)), Deletion::Zone(oid(PANTRY))]);
    assert_eq!(zone_deletion_plan(&s, &oid(96)), vec![Deletion::Zone(oid(96))]);
}

#[test]
fn zone_cascade_survives_cycles() {
    let mut s = home();
    s.zones.push(zone(34, "Left", HOUSE, Some(35), Visibility::Public));
    s.zones.push(zone(35, "Right", HOUSE, Some(34), Visibility::Public));
    assert_eq!(zone_deletion_plan(&s, &oid(34)), vec![Deletion::Zone(oid(35)), Deletion::Zone(oid(34))]);
}

#[test]
fn property_and_group_cascades() {
    let s = home();
    let p = vec![
        Deletion::Zone(oid(KITCHEN)),
        Deletion::Item(oid(FLOUR)),
        Deletion::Zone(oid(PANTRY)),
        Deletion::Property(oid(HOUSE)),
    ];
    assert_eq!(property_deletion_plan(&s, &oid(HOUSE)), p);
    let mut g = p.clone();
    g.push(Deletion::Membership(oid(90)));
    g.push(Deletion::Membership(oid(91)));
    g.push(Deletion::Group(oid(HOME)));
    assert_eq!(group_deletion_plan(&s, &oid(HOME)), g);
}

#[test]
fn search_ignores_case() {
    let s = home();
    let hits = search(&s, &user(ALICE), "PAN");
    assert!(hits.groups.is_empty());
    assert!(hits.properties.is_empty());
    assert_eq!(hits.zones, vec![1]);
    assert!(hits.items.is_empty());
    let hits = search(&s, &admin(), "o");
    assert_eq!(hits.groups, vec![0]);
    assert_eq!(hits.properties, vec![0]);
    assert!(hits.zones.is_empty());
    assert_eq!(hits.items, vec![0]);
}

#[test]
fn search_folded_takes_lower_case_query() {
    let s = home();
    assert_eq!(search_folded(&s, &user(ALICE), "kit").zones, vec![0]);
    assert!(search_folded(&s, &user(ALICE), "KIT").zones.is_empty());
}

#[test]
fn search_respects_visibility() {
    let mut s = home();
    s.zones.push(zone(36, "Secret pantry", HOUSE, Some(HOUSE), Visibility::PrivateTo(oid(ALICE))));
    s.items.push(item(49, "Secret flour", 36));
    let bob = search(&s, &user(BOB), "secret");
    assert!(bob.zones.is_empty());
    assert!(bob.items.is_empty());
    let alice = search(&s, &user(ALICE), "secret");
    assert_eq!(alice.zones, vec![2]);
    assert_eq!(alice.items, vec![1]);
    assert!(search(&s, &user(150), "o").items.is_empty());
}

#[test]
fn subject_unwrapping() {
    assert_eq!(normalize_subject("ObjectId(abc)"), "abc");
    assert_eq!(normalize_subject("abc"), "abc");
    assert_eq!(normalize_subject("ObjectId()"), "");
    assert_eq!(normalize_subject("ObjectId(abc"), "ObjectId(abc");
    assert_eq!(normalize_subject("Object(abc)"), "Object(abc)");
}

#[test]
fn requester_from_claims() {
    let c = Claims { sub: format!("ObjectId({})", hex(ALICE)), exp: 0, role: "admin".to_string() };
    assert_eq!(requester_of(&c), Ok(Requester { subject: oid(ALICE), role: Role::Admin }));
    let c = Claims { sub: hex(BOB), exp: 0, role: "user".to_string() };
    assert_eq!(requester_of(&c), Ok(Requester { subject: oid(BOB), role: Role::Member }));
    let c = Claims { sub: "ObjectId()".to_string(), exp: 0, role: "user".to_string() };
    assert_eq!(requester_of(&c), Err(AuthError::EmptySubject));
    let c = Claims { sub: "nobody".to_string(), exp: 0, role: "admin".to_string() };
    assert_eq!(requester_of(&c), Err(AuthError::InvalidSubject));
}

#[test]
fn parse_identifiers() {
    let o = Oid::parse("0123456789abcdefABCDEF00").unwrap();
    assert_eq!(o.bytes, [0x01, 0x23, 0x45, 0x67, 0x89, 0xab, 0xcd, 0xef, 0xab, 0xcd, 0xef, 0x00]);
    assert!(Oid::parse("0123456789abcdefABCDEF0").is_none());
    assert!(Oid::parse("0123456789abcdefABCDEF000").is_none());
    assert!(o.same(&o));
    assert!(!o.same(&oid(1)));
}

#[test]
fn new_zone_property_follows_parent() {
    let s = home();
    assert_eq!(s.zone_property_for_parent(&oid(HOUSE)), Some(oid(HOUSE)));
    assert_eq!(s.zone_property_for_parent(&oid(PANTRY)), Some(oid(HOUSE)));
    assert_eq!(s.zone_property_for_parent(&oid(95)), None);
}

#[test]
fn listings_apply_visibility() {
    let mut s = home();
    s.properties.push(property(ANNEX, "Cabin", HOME, Visibility::PrivateTo(oid(BOB))));
    s.zones.push(zone(37, "Cellar", HOUSE, Some(KITCHEN), Visibility::PrivateTo(oid(BOB))));
    s.items.push(item(50, "Wine", KITCHEN));
    assert_eq!(properties_of_group(&s, &user(ALICE), &oid(HOME)), vec![0]);
    assert_eq!(properties_of_group(&s, &user(BOB), &oid(HOME)), vec![0, 1]);
    assert_eq!(properties_of_group(&s, &admin(), &oid(HOME)), vec![0, 1]);
    let c = zone_children(&s, &user(ALICE), &oid(KITCHEN));
    assert_eq!(c.zones, vec![1]);
    assert_eq!(c.items, vec![1]);
    let c = zone_children(&s, &user(BOB), &oid(KITCHEN));
    assert_eq!(c.zones, vec![1, 2]);
}

#[test]
fn joining_groups() {
    let mut s = home();
    s.groups.push(Group { user_max: Some(2), user_count: 2, ..group(OFFICE, "Office") });
    s.groups.push(Group { user_max: Some(5), user_count: 2, ..group(3, "Club") });
    assert_eq!(join_group(&s, &oid(150), &"code1".to_string()), Ok(0));
    assert_eq!(join_group(&s, &oid(ALICE), &"code1".to_string()), Err(JoinError::AlreadyMember));
    assert_eq!(join_group(&s, &oid(150), &"code2".to_string()), Err(JoinError::GroupFull));
    assert_eq!(join_group(&s, &oid(150), &"code3".to_string()), Ok(2));
    assert_eq!(join_group(&s, &oid(150), &"nope".to_string()), Err(JoinError::GroupNotFound));
}

#[test]
fn leaving_groups() {
    let mut s = home();
    assert_eq!(leave_group(&s, &oid(150), &oid(HOME)), Err(LeaveError::NotMember));
    s.groups[0].user_count = 2;
    assert_eq!(leave_group(&s, &oid(ALICE), &oid(HOME)), Ok(LeaveOutcome::Stay));
    s.groups[0].user_count = 1;
    assert_eq!(leave_group(&s, &oid(BOB), &oid(HOME)), Ok(LeaveOutcome::Dissolve));
}
