use std::collections::HashSet;

use tubings::flip::{are_neighboors, flipgraph, new_tube, Flipgraph};
use tubings::graph::{vertices_of, Graph};
use tubings::parts::subsets;
use tubings::search::{search, Fhp, Outcome};
use tubings::tube::are_compatible;
use tubings::tubing::compatible_with;

fn path_graph(n: usize) -> Graph {
    let vertices: Vec<usize> = (1..=n).collect();
    let edges: Vec<[usize; 2]> = (1..n).map(|i| [i, i + 1]).collect();
    Graph::new(vertices, edges)
}

fn as_set(tubes: &Option<Vec<Vec<usize>>>) -> HashSet<Vec<usize>> {
    tubes.clone().unwrap().into_iter().collect()
}

fn check_walk(fg: &Flipgraph, g: &Graph, p: &Fhp, cycle: bool) {
    assert!(!p.path.is_empty());
    assert_eq!(p.path[0], p.start);
    assert_eq!(*p.path.last().unwrap(), p.end);
    assert_eq!(p.alr_seen.len(), fg.tube_count);
    assert_eq!(p.path.len(), p.alr_seen.len() + 1);
    let distinct: HashSet<Vec<usize>> = p.alr_seen.iter().cloned().collect();
    assert_eq!(distinct.len(), p.alr_seen.len());
    for k in 0..p.path.len() - 1 {
        assert!(fg.neighboorlist[p.path[k]].contains(&p.path[k + 1]));
        let mark = new_tube(&fg.vertices[p.path[k + 1]], &fg.vertices[p.path[k]]).unwrap();
        assert_eq!(&p.alr_seen[k], mark);
    }
    assert_eq!(distinct, as_set(&g.tubes));
    if cycle {
        assert_eq!(p.start, p.end);
    }
}

#[test]
fn connectivity() {
    let g = Graph {
        vertices: vec![1, 2, 3, 4, 5, 6],
        edges: vec![[1, 2], [2, 3], [4, 5], [5, 6], [2, 6]],
        tubes: None,
        tubings: None,
    };

    assert!(g.is_connected(&g.vertices));

    let h = Graph {
        vertices: vec![1, 2, 3, 4, 5, 6],
        edges: vec![[1, 2], [2, 3], [5, 6], [2, 6]],
        tubes: None,
        tubings: None,
    };

    assert!(!h.is_connected(&h.vertices));
}

#[test]
fn tubes() {
    let mut g = Graph {
        vertices: vec![1, 2, 3, 4, 5],
        edges: vec![[1, 2], [2, 3], [3, 4], [4, 5]],
        tubes: None,
        tubings: None,
    };
    g.find_tubes();

    assert_eq!(
        as_set(&g.tubes),
        HashSet::from([
            vec![1],
            vec![2],
            vec![3],
            vec![4],
            vec![5],
            vec![1, 2],
            vec![2, 3],
            vec![3, 4],
            vec![4, 5],
            vec![1, 2, 3],
            vec![2, 3, 4],
            vec![3, 4, 5],
            vec![1, 2, 3, 4],
            vec![2, 3, 4, 5]
        ])
    );
    assert_eq!(g.tubes.as_ref().unwrap().len(), 14);

    let mut h = Graph {
        vertices: vec![1, 2, 3, 5, 6],
        edges: vec![[1, 2], [2, 3], [5, 6], [2, 6]],
        tubes: None,
        tubings: None,
    };
    h.find_tubes();
    assert_eq!(
        as_set(&h.tubes),
        HashSet::from([
            vec![1],
            vec![2],
            vec![3],
            vec![5],
            vec![6],
            vec![1, 2],
            vec![2, 3],
            vec![2, 6],
            vec![5, 6],
            vec![1, 2, 3],
            vec![1, 2, 6],
            vec![2, 3, 6],
            vec![2, 5, 6],
            vec![1, 2, 3, 6],
            vec![1, 2, 5, 6],
            vec![2, 3, 5, 6]
        ])
    );
    assert_eq!(h.tubes.as_ref().unwrap().len(), 16);
}

#[test]
fn tubings() {
    let mut g = Graph {
        vertices: vec![1, 2, 3, 4, 5],
        edges: vec![[1, 2], [2, 3], [3, 4], [4, 5]],
        tubes: None,
        tubings: None,
    };
    g.find_tubings();

    let mut h = Graph {
        vertices: vec![1, 2, 3, 4, 5, 6],
        edges: vec![[1, 2], [2, 3], [3, 4], [4, 5], [5, 6]],
        tubes: None,
        tubings: None,
    };
    h.find_tubings();

    let mut l = Graph {
        vertices: vec![1, 2, 3, 4, 5, 6, 7],
        edges: vec![[1, 2], [2, 3], [3, 4], [4, 5], [5, 6], [6, 7]],
        tubes: None,
        tubings: None,
    };
    l.find_tubings();

    let mut k = Graph {
        vertices: vec![1, 2, 3, 4, 5, 6],
        edges: vec![
            [1, 2],
            [1, 3],
            [1, 4],
            [1, 5],
            [1, 6],
            [2, 3],
            [2, 4],
            [2, 5],
            [2, 6],
            [3, 4],
            [3, 5],
            [3, 6],
            [4, 5],
            [4, 6],
            [5, 6],
        ],
        tubes: None,
        tubings: None,
    };
    k.find_tubings();

    assert_eq!(
        [42, 132, 429, 720],
        [
            g.tubings.unwrap().len(),
            h.tubings.unwrap().len(),
            l.tubings.unwrap().len(),
            k.tubings.unwrap().len()
        ]
    );
}

#[test]
fn neighboorcheck() {
    let a = vec![vec![1], vec![1, 2], vec![1, 2, 3], vec![1, 2, 3, 4]];
    let b = vec![vec![1], vec![1, 2], vec![4], vec![1, 2, 3, 4]];
    let c = vec![vec![2], vec![1, 2], vec![4], vec![1, 2, 3, 4]];

    assert!(are_neighboors(&a, &b));
    assert!(are_neighboors(&b, &c));
    assert!(!are_neighboors(&a, &c));
}

#[test]
fn fhp_finder() {
    let mut g = Graph {
        vertices: vec![1, 2, 3, 4, 5],
        edges: vec![[1, 2], [2, 3], [3, 4], [4, 5]],
        tubes: None,
        tubings: None,
    };
    g.find_tubings();
    let fg = flipgraph(&mut g);
    fg.find_fhp_rand(1);
}

#[test]
fn connectivity_of_small_lists() {
    let g = path_graph(4);
    assert!(!g.is_connected(&vec![]));
    assert!(g.is_connected(&vec![3]));
    assert!(g.is_connected(&vec![9]));
    assert!(g.is_connected(&vec![2, 2]));
    assert!(!g.is_connected(&vec![1, 3]));
    assert!(!g.is_connected(&vec![1, 2, 4]));
}

#[test]
fn connectivity_ignores_order() {
    let g = path_graph(5);
    assert!(g.is_connected(&vec![2, 3, 4]));
    assert!(g.is_connected(&vec![4, 2, 3]));
    assert!(g.is_connected(&vec![3, 4, 2]));
    assert!(!g.is_connected(&vec![1, 2, 4, 5]));
    assert!(!g.is_connected(&vec![5, 1, 4, 2]));
}

#[test]
fn subsets_leave_out_the_whole_list() {
    let parts = subsets(&vec![7, 8, 9]);
    assert_eq!(parts.len(), 7);
    let set: HashSet<Vec<usize>> = parts.into_iter().collect();
    assert_eq!(
        set,
        HashSet::from([
            vec![],
            vec![7],
            vec![8],
            vec![9],
            vec![7, 8],
            vec![7, 9],
            vec![8, 9]
        ])
    );
    assert_eq!(subsets(&vec![]).len(), 0);
    assert_eq!(subsets(&vec![4]), vec![Vec::<usize>::new()]);
}

#[test]
fn tubes_are_sorted_and_connected() {
    let mut g = Graph::new(vec![3, 1, 2], vec![[3, 1], [1, 2]]);
    g.find_tubes();
    assert_eq!(
        as_set(&g.tubes),
        HashSet::from([vec![1], vec![2], vec![3], vec![1, 3], vec![1, 2]])
    );
    assert_eq!(g.tubes.as_ref().unwrap().len(), 5);
    for tube in g.tubes.as_ref().unwrap() {
        assert!(!tube.is_empty());
        assert!(g.is_connected(tube));
    }
}

#[test]
fn tubes_match_a_count_over_all_subsets() {
    let mut g = Graph::new(vec![1, 2, 3, 4], vec![[1, 2], [2, 3], [3, 4], [4, 1]]);
    g.find_tubes();
    let mut expected: HashSet<Vec<usize>> = HashSet::new();
    for mask in 1u32..15 {
        let part: Vec<usize> = (1..=4usize).filter(|v| mask & (1 << (v - 1)) != 0).collect();
        if g.is_connected(&part) {
            expected.insert(part);
        }
    }
    assert_eq!(expected.len(), 12);
    assert_eq!(as_set(&g.tubes), expected);
}

#[test]
fn enumeration_is_cached() {
    let mut g = path_graph(4);
    g.find_tubes();
    let first = g.tubes.clone();
    g.find_tubes();
    assert_eq!(g.tubes, first);
    g.find_tubings();
    let tubings = g.tubings.clone();
    g.find_tubings();
    assert_eq!(g.tubings, tubings);
    assert_eq!(g.tubes, first);

    let mut marked = path_graph(4);
    marked.tubes = Some(vec![vec![1]]);
    marked.find_tubes();
    assert_eq!(marked.tubes, Some(vec![vec![1]]));
}

#[test]
fn compatibility_rules() {
    let g = path_graph(5);
    assert!(!are_compatible(&vec![1, 2], &vec![1, 2], &g));
    assert!(!are_compatible(&vec![1, 2], &vec![2, 1], &g));
    assert!(are_compatible(&vec![1], &vec![1, 2], &g));
    assert!(are_compatible(&vec![1, 2, 3], &vec![2], &g));
    assert!(are_compatible(&vec![1], &vec![3], &g));
    assert!(are_compatible(&vec![1, 2], &vec![4, 5], &g));
    assert!(!are_compatible(&vec![1], &vec![2], &g));
    assert!(!are_compatible(&vec![1, 2], &vec![3, 4], &g));
    assert!(!are_compatible(&vec![1, 2], &vec![2, 3], &g));
}

#[test]
fn compatibility_is_symmetric() {
    let mut g = path_graph(5);
    g.find_tubes();
    let tubes = g.tubes.clone().unwrap();
    for a in tubes.iter() {
        for b in tubes.iter() {
            assert_eq!(are_compatible(a, b, &g), are_compatible(b, a, &g));
        }
    }
}

#[test]
fn compatible_with_appends_each_fitting_tube() {
    let mut g = path_graph(3);
    let found = compatible_with(&vec![vec![1]], &mut g);
    assert!(g.tubes.is_some());
    let set: HashSet<Vec<Vec<usize>>> = found.iter().cloned().collect();
    assert_eq!(found.len(), 2);
    assert_eq!(
        set,
        HashSet::from([vec![vec![1], vec![3]], vec![vec![1], vec![1, 2]]])
    );
}

#[test]
fn tubings_of_the_three_vertex_path() {
    let mut g = path_graph(3);
    g.find_tubings();
    let set: HashSet<Vec<Vec<usize>>> = g.tubings.clone().unwrap().into_iter().collect();
    assert_eq!(g.tubings.as_ref().unwrap().len(), 5);
    assert_eq!(
        set,
        HashSet::from([
            vec![vec![1], vec![1, 2]],
            vec![vec![1], vec![3]],
            vec![vec![1, 2], vec![2]],
            vec![vec![2], vec![2, 3]],
            vec![vec![2, 3], vec![3]]
        ])
    );
}

#[test]
fn tubings_of_tiny_graphs() {
    let mut none = Graph::new(vec![], vec![]);
    none.find_tubings();
    assert_eq!(none.tubings, Some(vec![]));

    let mut one = Graph::new(vec![5], vec![]);
    one.find_tubings();
    assert_eq!(one.tubings, Some(vec![vec![vec![5]]]));
    assert_eq!(one.tubes, Some(vec![]));

    let mut two = Graph::new(vec![1, 2], vec![[1, 2]]);
    two.find_tubings();
    assert_eq!(two.tubings, Some(vec![vec![vec![1]], vec![vec![2]]]));
}

#[test]
fn tubings_are_in_dictionary_order_and_compatible() {
    let mut g = path_graph(5);
    g.find_tubings();
    for tubing in g.tubings.clone().unwrap().iter() {
        assert_eq!(tubing.len(), 4);
        let mut sorted = tubing.clone();
        sorted.sort();
        assert_eq!(&sorted, tubing);
        for a in 0..tubing.len() {
            for b in 0..tubing.len() {
                if a != b {
                    assert!(are_compatible(&tubing[a], &tubing[b], &g));
                }
            }
        }
    }
}

#[test]
fn neighbors_differ_in_one_tube_each() {
    let mut g = path_graph(4);
    g.find_tubings();
    let tubings = g.tubings.clone().unwrap();
    for a in tubings.iter() {
        for b in tubings.iter() {
            let sa: HashSet<&Vec<usize>> = a.iter().collect();
            let sb: HashSet<&Vec<usize>> = b.iter().collect();
            let differ = sa.symmetric_difference(&sb).count();
            assert_eq!(are_neighboors(a, b), differ == 2);
        }
    }
}

#[test]
fn new_tube_is_the_first_missing_one() {
    let a = vec![vec![1], vec![1, 2], vec![1, 2, 3]];
    let b = vec![vec![1], vec![3], vec![1, 2, 3]];
    assert_eq!(new_tube(&a, &b), Some(&vec![1, 2]));
    assert_eq!(new_tube(&b, &a), Some(&vec![3]));
    assert_eq!(new_tube(&a, &a), None);
    assert_eq!(new_tube(&vec![], &a), None);
    assert_eq!(new_tube(&a, &vec![]), Some(&vec![1]));
}

#[test]
fn flip_graph_of_the_three_vertex_path_is_a_pentagon() {
    let mut g = path_graph(3);
    let fg = flipgraph(&mut g);
    assert_eq!(fg.vertex_count, 3);
    assert_eq!(fg.tube_count, 5);
    assert_eq!(fg.vertices.len(), 5);
    assert_eq!(Some(fg.vertices.clone()), g.tubings);
    assert_eq!(fg.neighboorlist.len(), 5);
    for (i, row) in fg.neighboorlist.iter().enumerate() {
        assert_eq!(row.len(), 2);
        assert!(row[0] < row[1]);
        for &j in row.iter() {
            assert!(are_neighboors(&fg.vertices[i], &fg.vertices[j]));
            assert!(fg.neighboorlist[j].contains(&i));
        }
    }
}

#[test]
fn step_takes_the_first_open_direction() {
    let mut g = path_graph(3);
    let fg = flipgraph(&mut g);
    let mut walk = fg.begin(0);
    assert_eq!(walk.path, vec![0]);
    assert_eq!(walk.start, 0);
    assert_eq!(walk.end, 0);
    assert!(walk.alr_seen.is_empty());
    let first = fg.neighboorlist[0][0];
    assert!(fg.step(&mut walk, &vec![7, 0, 1]));
    assert_eq!(walk.end, first);
    assert_eq!(walk.start, 0);
    assert_eq!(walk.path, vec![0, first]);
    assert_eq!(walk.alr_seen.len(), 1);
    assert_eq!(
        Some(&walk.alr_seen[0]),
        new_tube(&fg.vertices[first], &fg.vertices[0])
    );
    let copy_of_path = walk.path.clone();
    assert!(!fg.step(&mut walk, &vec![]));
    assert_eq!(walk.path, copy_of_path);
    assert_eq!(walk.alr_seen.len(), 1);
}

#[test]
fn a_walk_may_flip_back_to_where_it_began() {
    let mut g = path_graph(3);
    let fg = flipgraph(&mut g);
    let mut walk = fg.begin(0);
    assert!(fg.step(&mut walk, &vec![0, 1]));
    let there = walk.end;
    let back = fg.neighboorlist[there].iter().position(|&j| j == 0).unwrap();
    assert!(fg.step(&mut walk, &vec![back]));
    assert_eq!(walk.end, 0);
    assert_eq!(walk.path, vec![0, there, 0]);
    assert_eq!(walk.alr_seen.len(), 2);
    assert!(!fg.step(&mut walk, &vec![0]));
    assert_eq!(walk.path, vec![0, there, 0]);
}

#[test]
fn search_on_the_pentagon_sees_every_tube() {
    let mut g = path_graph(3);
    let fg = flipgraph(&mut g);
    let found = fg.find_fhp_rand(1000).unwrap();
    check_walk(&fg, &g, &found, false);
    assert_eq!(found.path.len(), 6);
    let round = fg.find_fhc_rand(1000).unwrap();
    check_walk(&fg, &g, &round, true);
    assert_eq!(round.path.len(), 6);
    match fg.try_for_one_fhp() {
        Err(walk) => check_walk(&fg, &g, &walk, false),
        Ok(v) => assert_eq!(v, 0),
    }
}

#[test]
fn no_trial_no_witness() {
    let mut g = path_graph(4);
    let fg = flipgraph(&mut g);
    assert!(fg.find_fhp_rand(0).is_none());
    assert!(fg.find_fhc_rand(0).is_none());
}

#[test]
fn witnesses_of_the_five_vertex_path_are_valid() {
    let mut g = path_graph(5);
    let fg = flipgraph(&mut g);
    assert_eq!(fg.vertices.len(), 42);
    assert_eq!(fg.tube_count, 14);
    for row in fg.neighboorlist.iter() {
        assert_eq!(row.len(), 4);
    }
    if let Some(walk) = fg.find_fhp_rand(200) {
        check_walk(&fg, &g, &walk, false);
        assert_eq!(walk.path.len(), 15);
    }
    if let Some(walk) = fg.find_fhc_rand(200) {
        check_walk(&fg, &g, &walk, true);
    }
    match fg.try_for_one_fhc() {
        Err(walk) => check_walk(&fg, &g, &walk, true),
        Ok(v) => assert_eq!(v, 0),
    }
}

#[test]
fn vertices_come_in_the_order_of_the_edges() {
    assert_eq!(vertices_of(&vec![[3, 1], [1, 2], [5, 3], [2, 2]]), vec![3, 1, 2, 5]);
    assert_eq!(vertices_of(&vec![]), Vec::<usize>::new());
    assert_eq!(vertices_of(&vec![[4, 4]]), vec![4]);
}

#[test]
fn search_leaves_out_a_graph_that_is_not_connected() {
    let mut g = Graph::new(vec![1, 2, 3, 4], vec![[1, 2], [3, 4]]);
    let (outcome, fg) = search(&mut g, false, 5);
    assert!(matches!(outcome, Outcome::Excluded));
    assert!(fg.vertices.is_empty());
    assert!(g.tubes.is_none());
    assert!(g.tubings.is_none());
}

#[test]
fn search_of_a_connected_graph() {
    let mut g = path_graph(3);
    let (outcome, fg) = search(&mut g, false, 1000);
    match outcome {
        Outcome::Found(walk) => check_walk(&fg, &g, &walk, false),
        _ => panic!("no walk found on the pentagon"),
    }
    let (none, _) = search(&mut g, true, 0);
    assert!(matches!(none, Outcome::NotFound));
    let mut h = path_graph(4);
    let (either, fh) = search(&mut h, true, 20);
    match either {
        Outcome::Found(walk) => check_walk(&fh, &h, &walk, true),
        Outcome::NotFound => assert_eq!(fh.vertices.len(), 14),
        Outcome::Excluded => panic!("a path is connected"),
    }
}
