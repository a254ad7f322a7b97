use camelot::camelot::search::{harmonic_transitions_from, make_scale_transition_graph};
use camelot::camelot::transition::{harmonic_transitions, make_transition, KeyTransition};
use camelot::camelot::{make_standard_scale, mod_cyclic, scale, Key, Mode, ScaleError};

fn all_keys() -> Vec<Key> {
    make_standard_scale()
}

fn adjacent(a: Key, b: Key) -> bool {
    harmonic_transitions()
        .iter()
        .any(|t| make_transition(a, *t) == b || make_transition(b, *t) == a)
}

#[test]
fn test_cliques() {
    let graph = make_scale_transition_graph();
    println!("{:?}", graph.cliques());
}

#[test]
fn encode_decode_round_trip_all_keys() {
    for k in all_keys() {
        let text = k.encode();
        let back = Key::decode(&text).expect("round trip must decode");
        assert_eq!(back, k);
    }
}

#[test]
fn decode_rejects_malformed_strings() {
    for bad in ["13A", "0B", "5C", ""] {
        match Key::decode(bad) {
            Err(e) => assert_eq!(e, ScaleError::InvalidScaleString),
            Ok(k) => panic!("{:?} decoded from {:?}", k, bad),
        }
    }
    assert!(Key::decode("1AB").is_err());
    assert!(Key::decode("A1").is_err());
    assert!(Key::decode("10").is_err());
    assert!(Key::decode("12b").is_err());
}

#[test]
fn decode_accepts_every_wheel_position() {
    assert_eq!(Key::decode("1A").unwrap(), scale(0, Mode::Minor));
    assert_eq!(Key::decode("12B").unwrap(), scale(11, Mode::Major));
    assert_eq!(Key::decode("10A").unwrap(), scale(9, Mode::Minor));
    assert_eq!(Key::decode("8B").unwrap(), scale(7, Mode::Major));
}

#[test]
fn change_index_cancels_with_negated_amount() {
    for k in all_keys() {
        for amount in [0isize, 1, 2, 7, 11, 12, 13, 100, -1, -7, -100, -1000003, 1000003] {
            let shifted = k.change_index(amount);
            assert!(shifted.tonic < 12);
            assert_eq!(shifted.change_index(-amount), k);
        }
        assert!(k.change_index(isize::MIN).tonic < 12);
        assert!(k.change_index(isize::MAX).tonic < 12);
    }
}

#[test]
fn change_index_wraps_with_mathematical_modulus() {
    let k = scale(2, Mode::Major);
    assert_eq!(k.change_index(-5).tonic, 9);
    assert_eq!(k.change_index(25).tonic, 3);
    assert_eq!(mod_cyclic(-13, 12), 11);
    assert_eq!(mod_cyclic(-12, 12), 0);
    assert_eq!(mod_cyclic(23, 12), 11);
}

#[test]
fn swap_kind_is_an_involution() {
    for k in all_keys() {
        assert_eq!(k.swap_kind().swap_kind(), k);
        assert_ne!(k.swap_kind(), k);
    }
}

#[test]
fn standard_scale_holds_all_twenty_four_keys() {
    let keys = all_keys();
    assert_eq!(keys.len(), 24);
    for t in 0..12 {
        assert!(keys.contains(&scale(t, Mode::Minor)));
        assert!(keys.contains(&scale(t, Mode::Major)));
    }
}

#[test]
fn graph_has_expected_size() {
    let graph = make_scale_transition_graph();
    assert_eq!(graph.node_count(), 24);
    assert_eq!(graph.edge_count(), 240);
}

#[test]
fn path_from_key_to_itself_is_singleton() {
    let graph = make_scale_transition_graph();
    for k in all_keys() {
        assert_eq!(graph.path(k, k), vec![k]);
    }
}

#[test]
fn path_uses_direct_vertical_edge() {
    let graph = make_scale_transition_graph();
    let source = Key::decode("8B").unwrap();
    let target = Key::decode("8A").unwrap();
    assert_eq!(graph.path(source, target), vec![source, target]);
}

#[test]
fn paths_are_short_and_walk_real_edges() {
    let graph = make_scale_transition_graph();
    let from = Key::decode("1A").unwrap();
    let to = Key::decode("5B").unwrap();
    let mut pairs: Vec<(Key, Key)> = Vec::new();
    for k in all_keys() {
        pairs.push((from, k));
        pairs.push((k, to));
    }
    for (source, target) in pairs {
        let path = graph.path(source, target);
        assert!(!path.is_empty());
        assert_eq!(path[0], source);
        assert_eq!(*path.last().unwrap(), target);
        assert!(path.len() <= 5);
        for step in path.windows(2) {
            assert!(adjacent(step[0], step[1]));
        }
    }
}

#[test]
fn neighbors_contain_self_and_every_rule_target() {
    for k in all_keys() {
        let neighbors = harmonic_transitions_from(k);
        assert!(neighbors.contains(&k));
        for t in harmonic_transitions() {
            assert!(neighbors.contains(&make_transition(k, t)));
        }
        for pair in neighbors.windows(2) {
            let strictly_sorted = pair[0].tonic < pair[1].tonic
                || (pair[0].tonic == pair[1].tonic
                    && pair[0].mode == Mode::Minor
                    && pair[1].mode == Mode::Major);
            assert!(strictly_sorted);
        }
        for n in &neighbors {
            assert!(*n == k || adjacent(k, *n));
        }
    }
}

#[test]
fn cliques_are_valid_and_maximal() {
    let graph = make_scale_transition_graph();
    let cliques = graph.cliques();
    let keys = all_keys();
    assert!(!cliques.is_empty());
    for clique in &cliques {
        let members: Vec<Key> = clique.iter().map(|id| keys[*id as usize]).collect();
        assert!(!members.is_empty());
        for a in &members {
            for b in &members {
                if a != b {
                    assert!(adjacent(*a, *b));
                }
            }
        }
        for (id, outside) in keys.iter().enumerate() {
            if !clique.contains(&(id as u32)) {
                assert!(members.iter().any(|m| !adjacent(*outside, *m)));
            }
        }
    }
}

#[test]
fn scenario_one_a_vertical() {
    let k = Key::decode("1A").unwrap();
    assert_eq!(k.tonic, 0);
    assert_eq!(k.mode, Mode::Minor);
    assert_eq!(k.encode(), "1A");
    let moved = make_transition(k, KeyTransition::Vertical);
    assert_eq!(moved, Key::decode("1B").unwrap());
}

#[test]
fn every_transition_keeps_keys_on_the_wheel() {
    for k in all_keys() {
        for t in harmonic_transitions() {
            let moved = make_transition(k, t);
            assert!(moved.tonic < 12);
            let expected = match t {
                KeyTransition::Vertical => k.swap_kind(),
                KeyTransition::ChangeIndex(n) => k.change_index(n),
                KeyTransition::Diagonal => match k.mode {
                    Mode::Major => k.swap_kind().change_index(1),
                    Mode::Minor => k.swap_kind().change_index(-1),
                },
                KeyTransition::FlatToMinor => match k.mode {
                    Mode::Minor => k.swap_kind().change_index(-4),
                    Mode::Major => k.swap_kind().change_index(4),
                },
                KeyTransition::MajorToMinor => match k.mode {
                    Mode::Minor => k.swap_kind().change_index(3),
                    Mode::Major => k.swap_kind().change_index(-3),
                },
            };
            assert_eq!(moved, expected);
        }
    }
}
