use wikipath::Graph;
use wikipath::SearchError;

fn build(vertices: &[(u32, &str)], edges: &[(u32, u32)]) -> Graph {
    let mut g = Graph::new();
    for (id, title) in vertices {
        assert!(g.add_vertex(*id, (*title).to_owned()));
    }
    for (a, b) in edges {
        assert!(g.add_edge(*a, *b));
    }
    g
}

/// Plain breadth-first oracle: the shortest hop distance, or None.
fn oracle_distance(vertices: &[u32], edges: &[(u32, u32)], src: u32, dst: u32) -> Option<usize> {
    let mut dist: Vec<(u32, usize)> = vec![(src, 0)];
    let mut head = 0;
    while head < dist.len() {
        let (n, dn) = dist[head];
        head += 1;
        if n == dst {
            return Some(dn);
        }
        for (a, b) in edges {
            if *a == n && !dist.iter().any(|(x, _)| x == b) && vertices.contains(b) {
                dist.push((*b, dn + 1));
            }
        }
    }
    None
}

#[test]
fn diamond_graph_finds_a_two_hop_path() {
    let g = build(
        &[(1, "A"), (2, "B"), (3, "C"), (4, "D")],
        &[(1, 2), (2, 3), (1, 4), (4, 3)],
    );
    let ts = wikipath::search(&g, "A", "C").expect("path must exist");
    assert_eq!(ts.len(), 3);
    assert_eq!(ts[0], "A");
    assert_eq!(ts[2], "C");
    assert!(ts[1] == "B" || ts[1] == "D");
}

#[test]
fn diamond_graph_by_ids() {
    let g = build(
        &[(1, "A"), (2, "B"), (3, "C"), (4, "D")],
        &[(1, 2), (2, 3), (1, 4), (4, 3)],
    );
    let p = wikipath::search_ids(&g, 1, 3).expect("path must exist");
    assert!(p == vec![1, 2, 3] || p == vec![1, 4, 3]);
}

#[test]
fn no_edges_means_unreachable() {
    let g = build(&[(1, "A"), (2, "B")], &[]);
    assert_eq!(wikipath::search(&g, "A", "B"), Err(SearchError::Unreachable));
}

#[test]
fn edges_point_one_way_only() {
    let g = build(&[(1, "A"), (2, "B")], &[(1, 2)]);
    assert_eq!(wikipath::search(&g, "A", "B"), Ok(vec!["A".to_owned(), "B".to_owned()]));
    assert_eq!(wikipath::search(&g, "B", "A"), Err(SearchError::Unreachable));
}

#[test]
fn self_search_is_a_single_node_path() {
    let g = build(&[(1, "A"), (2, "B")], &[(1, 2), (2, 1)]);
    assert_eq!(wikipath::search(&g, "A", "A"), Ok(vec!["A".to_owned()]));
}

#[test]
fn missing_titles_are_not_found() {
    let g = build(&[(1, "A"), (2, "B")], &[(1, 2)]);
    assert_eq!(wikipath::search(&g, "Q", "B"), Err(SearchError::NotFound));
    assert_eq!(wikipath::search(&g, "A", "Q"), Err(SearchError::NotFound));
    assert_eq!(g.resolve_title("Q"), Err(SearchError::NotFound));
    assert_eq!(g.title_of(9), Err(SearchError::NotFound));
}

#[test]
fn shortcut_beats_the_long_way_round() {
    // 1 -> 2 -> 3 -> 4 is three hops; 1 -> 5 -> 4 is two.
    let g = build(
        &[(1, "a"), (2, "b"), (3, "c"), (4, "d"), (5, "e")],
        &[(1, 2), (2, 3), (3, 4), (1, 5), (5, 4)],
    );
    let p = wikipath::search_ids(&g, 1, 4).expect("path must exist");
    assert_eq!(p, vec![1, 5, 4]);
}

#[test]
fn path_length_matches_breadth_first_oracle() {
    let vertices: Vec<u32> = (1..=8).collect();
    let edges: Vec<(u32, u32)> = vec![
        (1, 2),
        (2, 3),
        (3, 4),
        (4, 5),
        (1, 6),
        (6, 5),
        (5, 7),
        (2, 7),
        (7, 1),
        (8, 1),
    ];
    let named: Vec<(u32, String)> = vertices.iter().map(|i| (*i, format!("v{}", i))).collect();
    let pairs: Vec<(u32, &str)> = named.iter().map(|(i, s)| (*i, s.as_str())).collect();
    let g = build(&pairs, &edges);
    for s in &vertices {
        for t in &vertices {
            let got = wikipath::search_ids(&g, *s, *t);
            match oracle_distance(&vertices, &edges, *s, *t) {
                Some(d) => {
                    let p = got.expect("oracle says reachable");
                    assert_eq!(p.len(), d + 1, "wrong distance from {} to {}", s, t);
                    assert_eq!(p[0], *s);
                    assert_eq!(p[p.len() - 1], *t);
                    for w in p.windows(2) {
                        assert!(edges.contains(&(w[0], w[1])), "not an edge: {:?}", w);
                    }
                }
                None => {
                    assert_eq!(got, Err(SearchError::Unreachable));
                }
            }
        }
    }
}

#[test]
fn first_recorded_parent_wins() {
    let mut f = wikipath::FrontierSet::new();
    assert!(f.add_if_new(7, 3));
    assert!(!f.add_if_new(7, 9));
    assert_eq!(f.parent_of(7), Some(3));
    assert_eq!(f.parent_of(8), None);
    assert!(f.contains(7));
    assert!(!f.contains(8));
    assert_eq!(f.len(), 1);
}

#[test]
fn title_round_trip() {
    let g = build(&[(10, "Alpha"), (20, "Beta"), (30, "Gamma")], &[]);
    for title in ["Alpha", "Beta", "Gamma"] {
        let id = g.resolve_title(title).expect("stored title resolves");
        assert_eq!(g.title_of(id).expect("resolved id has a title"), title);
    }
}

#[test]
fn resolution_is_exact_and_case_sensitive() {
    let g = build(&[(1, "Rust"), (2, "rust")], &[]);
    assert_eq!(g.resolve_title("Rust"), Ok(1));
    assert_eq!(g.resolve_title("rust"), Ok(2));
    assert_eq!(g.resolve_title("RUST"), Err(SearchError::NotFound));
}

#[test]
fn vertex_and_edge_rules_are_enforced() {
    let mut g = Graph::new();
    assert!(g.add_vertex(1, "A".to_owned()));
    assert!(!g.add_vertex(1, "B".to_owned()), "duplicate id refused");
    assert!(!g.add_vertex(2, "A".to_owned()), "duplicate title refused");
    assert!(!g.add_vertex(2, String::new()), "empty title refused");
    assert!(g.add_vertex(2, "B".to_owned()));
    assert!(g.add_edge(1, 2));
    assert!(!g.add_edge(1, 5), "unknown endpoint refused");
    assert!(!g.add_edge(5, 2), "unknown endpoint refused");
}

#[test]
fn neighbors_in_both_directions() {
    let g = build(
        &[(1, "A"), (2, "B"), (3, "C")],
        &[(1, 2), (1, 3), (2, 3)],
    );
    let mut fwd = g.neighbors(1, wikipath::Direction::Forward);
    fwd.sort();
    assert_eq!(fwd, vec![2, 3]);
    let mut rev = g.neighbors(3, wikipath::Direction::Reverse);
    rev.sort();
    assert_eq!(rev, vec![1, 2]);
    assert_eq!(g.neighbors(3, wikipath::Direction::Forward), vec![]);
    assert_eq!(g.neighbors(1, wikipath::Direction::Reverse), vec![]);
}

#[test]
fn reconstruction_walks_parent_pointers() {
    let mut f = wikipath::FrontierSet::new();
    assert!(f.add_if_new(1, 1));
    assert!(f.add_if_new(2, 1));
    assert!(f.add_if_new(3, 2));
    let p = wikipath::reconstruct_path(&f, 1, 3, 3).expect("chain reaches the root");
    assert_eq!(p, vec![1, 2, 3]);
    assert_eq!(
        wikipath::reconstruct_path(&f, 1, 3, 1),
        Err(SearchError::InternalInconsistency),
        "bound too small"
    );
    assert_eq!(
        wikipath::reconstruct_path(&f, 1, 9, 5),
        Err(SearchError::InternalInconsistency),
        "node never visited"
    );
}

#[test]
fn formatting_a_path_of_ids() {
    let g = build(&[(1, "A"), (2, "B"), (3, "C")], &[(1, 2), (2, 3)]);
    let path = vec![1, 2, 3];
    assert_eq!(
        wikipath::path_titles(&g, &path),
        Ok(vec!["A".to_owned(), "B".to_owned(), "C".to_owned()])
    );
    let bad = vec![1, 9];
    assert_eq!(wikipath::path_titles(&g, &bad), Err(SearchError::NotFound));
}

#[test]
fn parallel_edges_are_tolerated() {
    let mut g = build(&[(1, "A"), (2, "B")], &[(1, 2), (1, 2)]);
    assert!(g.add_edge(1, 2));
    let p = wikipath::search_ids(&g, 1, 2).expect("path must exist");
    assert_eq!(p, vec![1, 2]);
}
