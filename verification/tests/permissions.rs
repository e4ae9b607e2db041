use axiom_pumpkin::permissions::{
    calculate_restrictions, descendants, has_perm, is_in_order, registrations, Perm, Restrictions,
    INFINITE_REACH_LIMIT,
};

fn perm(node: &'static str, wire: &'static str, parent: Option<usize>) -> Perm {
    Perm { node, wire, parent }
}

const ALL: usize = 0;

fn perms() -> Vec<Perm> {
    vec![
        perm("axiom.all", "all", None),
        perm("axiom.default", "default", None),
        perm("axiom.entity.*", "entity", None),
        perm("axiom.use", "use", Some(1)),
        perm("axiom.build.*", "build", Some(1)),
        perm("axiom.build.place", "build_place", Some(4)),
        perm("axiom.chunk.*", "chunk", Some(1)),
        perm("axiom.chunk.request", "chunk_request", Some(6)),
        perm("axiom.player.*", "player", Some(1)),
        perm("axiom.player.gamemode.*", "player_gamemode", Some(8)),
        perm("axiom.player.gamemode.creative", "player_gamemode_creative", Some(9)),
        perm("axiom.entity.spawn", "entity_spawn", Some(2)),
        perm("axiom.entity.manipulate", "entity_manipulate", Some(2)),
        perm("axiom.entity.delete", "entity_delete", Some(2)),
        perm("axiom.entity.request_data", "entity_requestdata", Some(2)),
    ]
}

fn index_of(node: &str) -> usize {
    perms().iter().position(|perm| perm.node == node).unwrap()
}

fn child_nodes(node: &str) -> Vec<&'static str> {
    assert!(is_in_order(&perms()));
    descendants(&perms(), index_of(node))
        .into_iter()
        .map(|child| perms()[child].node)
        .collect()
}

/// Granting `axiom.default` has to reach the nodes the handlers check, however
/// deep they sit, since the server looks only one level down.
#[test]
fn default_grants_the_whole_public_set() {
    let granted = child_nodes("axiom.default");
    for node in [
        "axiom.use",
        "axiom.build.place",
        "axiom.chunk.request",
        "axiom.player.gamemode.creative",
    ] {
        assert!(granted.contains(&node), "{node}");
    }
    assert!(
        !granted.contains(&"axiom.entity.spawn"),
        "entities are opt-in"
    );
    assert!(!granted.contains(&"axiom.default"));
}

#[test]
fn groups_grant_their_members() {
    assert_eq!(
        child_nodes("axiom.entity.*"),
        [
            "axiom.entity.spawn",
            "axiom.entity.manipulate",
            "axiom.entity.delete",
            "axiom.entity.request_data",
        ]
    );
    assert!(child_nodes("axiom.use").is_empty());
}

/// Whoever is below a node is below everything above it, and nothing is below itself.
#[test]
fn the_tree_is_followed_all_the_way() {
    let default = child_nodes("axiom.default");
    for below in child_nodes("axiom.player.*") {
        assert!(default.contains(&below), "{below}");
    }
    for perm in perms() {
        assert!(!child_nodes(perm.node).contains(&perm.node));
    }
}

#[test]
fn every_node_is_registered_with_what_is_below_it() {
    let all = registrations(&perms());
    assert_eq!(all.len(), perms().len());
    for (registration, perm) in all.iter().zip(perms()) {
        assert_eq!(registration.node, perm.node);
        assert_eq!(registration.for_operators, perm.node == "axiom.all");
        assert_eq!(registration.children, child_nodes(perm.node));
    }
}

#[test]
fn a_table_out_of_order_is_noticed() {
    assert!(!is_in_order(&[perm("a", "a", Some(0))]));
    assert!(!is_in_order(&[perm("a", "a", Some(1)), perm("b", "b", None)]));
    assert!(is_in_order(&[]));
}

#[test]
fn ops_and_holders_of_everything_pass() {
    assert!(has_perm(true, false, false));
    assert!(has_perm(false, true, false));
    assert!(has_perm(false, false, true));
    assert!(!has_perm(false, false, false));
}

#[test]
fn operators_are_told_the_catch_all() {
    for (op, all) in [(true, false), (false, true)] {
        let r = calculate_restrictions(&perms(), ALL, op, all, &[]);
        assert_eq!(r.allowed, ["all"]);
        assert!(r.denied.is_empty());
        assert_eq!(r.infinite_reach_limit, INFINITE_REACH_LIMIT);
    }
}

/// A node is left out where the node above it carries the same verdict.
#[test]
fn what_follows_from_a_parent_is_not_told() {
    let mut verdicts = vec![None; perms().len()];
    verdicts[index_of("axiom.default")] = Some(true);
    verdicts[index_of("axiom.use")] = Some(true);
    verdicts[index_of("axiom.build.*")] = Some(false);
    verdicts[index_of("axiom.build.place")] = Some(true);
    verdicts[index_of("axiom.entity.delete")] = Some(false);
    let r = calculate_restrictions(&perms(), ALL, false, false, &verdicts);
    assert_eq!(r.allowed, ["default", "build_place"]);
    assert_eq!(r.denied, ["build", "entity_delete"]);
}

#[test]
fn restrictions_have_their_exact_bytes() {
    let r = Restrictions { allowed: vec!["ab"], denied: vec!["c"], infinite_reach_limit: 256 };
    assert_eq!(r.encode(), [1, 2, b'a', b'b', 1, 1, b'c', 0, 0, 1, 0, 0]);
    let other = Restrictions { allowed: vec!["ab"], denied: vec![], infinite_reach_limit: 256 };
    assert!(r.same(&r));
    assert!(!r.same(&other));
    assert!(r != other);
}
