use scrabble::bag::Bag;
use scrabble::board::Board;
use scrabble::dictionary::Dictionary;
use scrabble::dictionary::Trie;
use scrabble::rack::gen_parts;
use scrabble::utils::Direction;
use scrabble::utils::Move;
use scrabble::utils::Position;

fn word(s: &str) -> Vec<char> {
    s.chars().collect()
}

fn build_trie(words: &[&str]) -> Trie {
    let list: Vec<Vec<char>> = words.iter().map(|w| word(w)).collect();
    Trie::build(&list)
}

fn empty_dict() -> Dictionary {
    Dictionary::with_leaves(&Vec::new())
}

#[test]
fn lexicon_accepts_every_source_word() {
    let words = ["CAT", "AT", "NO", "ZYMURGY", "AB"];
    let trie = build_trie(&words);
    for w in words.iter() {
        assert!(trie.check_word(&word(w)), "missing word {}", w);
    }
    assert!(!trie.check_word(&word("CA")));
    assert!(!trie.check_word(&word("DOG")));
    assert!(!trie.check_word(&word("")));
}

#[test]
fn lexicon_round_trip_preserves_words() {
    let words = ["CAT", "AT", "NO"];
    let trie = build_trie(&words);
    let (labels, edges) = trie.to_parts();
    let rebuilt = Trie::from_parts(&labels, &edges).expect("exported parts must round-trip");
    assert!(rebuilt.has_separator());
    for w in words.iter() {
        assert!(rebuilt.check_word(&word(w)), "lost word {}", w);
    }
    assert!(!rebuilt.check_word(&word("DOG")));
}

#[test]
fn corrupt_parts_are_rejected() {
    let trie = build_trie(&["AT"]);
    let (labels, mut edges) = trie.to_parts();
    // an edge pointing past the node table is invalid data
    edges.push((0, labels.len() + 7, 'Z'));
    assert!(Trie::from_parts(&labels, &edges).is_none());
}

#[test]
fn trie_seed_and_nexts_walk_the_graph() {
    let trie = build_trie(&["CAT"]);
    let root = trie.root();
    assert_eq!(root, 0);
    let hash = trie.can_next(root, '#').expect("separator");
    let c = trie.can_next(hash, 'C').expect("C after separator");
    let a = trie.can_next(c, 'A').expect("A");
    let t = trie.can_next(a, 'T').expect("T");
    assert!(trie.can_next(t, '@').is_some());
    assert!(trie.can_next(c, 'X').is_none());
    let seeded = trie.seed(&word("CA"));
    assert_eq!(seeded, a);
    let nexts = trie.nexts(c);
    assert!(nexts.contains(&('A', a)));
}

#[test]
fn nexts_lists_each_label_once() {
    let trie = build_trie(&["CAT", "COT"]);
    let hash = trie.can_next(trie.root(), '#').expect("separator");
    let c = trie.can_next(hash, 'C').expect("C");
    let nexts = trie.nexts(c);
    // two continuations, pairwise distinct labels
    assert_eq!(nexts.len(), 2);
    let a = trie.can_next(c, 'A').expect("A");
    let o = trie.can_next(c, 'O').expect("O");
    assert!(nexts.contains(&('A', a)));
    assert!(nexts.contains(&('O', o)));
    for (i, x) in nexts.iter().enumerate() {
        for y in nexts.iter().skip(i + 1) {
            assert_ne!(x.0, y.0);
        }
    }
}

#[test]
fn default_board_premiums() {
    let b = Board::default();
    assert_eq!(b.at_position(Position { row: 0, col: 0 }), '#');
    assert_eq!(b.at_position(Position { row: 7, col: 7 }), '*');
    assert_eq!(b.at_position(Position { row: 1, col: 1 }), '^');
    assert_eq!(b.at_position(Position { row: 1, col: 5 }), '+');
    assert_eq!(b.at_position(Position { row: 0, col: 3 }), '-');
    assert_eq!(b.at_position(Position { row: 0, col: 1 }), '.');
    assert_eq!(b.at_position(Position { row: 14, col: 14 }), '#');
}

#[test]
fn play_word_and_get_words() {
    let mut b = Board::default();
    assert!(b.play_word(Position { row: 7, col: 6 }, &word("CAT"), Direction::Across, false));
    let words = b.get_words();
    assert_eq!(words.len(), 1);
    assert_eq!(words[0], word("CAT"));
    let trie = build_trie(&["CAT"]);
    assert!(b.valid(&trie));
    let trie2 = build_trie(&["DOG"]);
    assert!(!b.valid(&trie2));
}

#[test]
fn play_word_refuses_overwrite_without_force() {
    let mut b = Board::default();
    assert!(b.play_word(Position { row: 7, col: 7 }, &word("AT"), Direction::Across, false));
    // a violated placement is rejected before commit: the grid is untouched
    assert!(!b.play_word(Position { row: 7, col: 6 }, &word("NO"), Direction::Across, false));
    assert_eq!(b.at_position(Position { row: 7, col: 6 }), '.');
    assert_eq!(b.at_position(Position { row: 7, col: 7 }), 'A');
    assert!(b.play_word(Position { row: 7, col: 7 }, &word("NO"), Direction::Across, true));
    assert_eq!(b.at_position(Position { row: 7, col: 7 }), 'N');
}

#[test]
fn play_word_edge_cases() {
    let mut b = Board::default();
    // a word whose last tile sits flush on the edge is a complete placement
    assert!(b.play_word(Position { row: 0, col: 13 }, &word("AT"), Direction::Across, false));
    assert_eq!(b.at_position(Position { row: 0, col: 14 }), 'T');
    // one that would leave the board is refused with the grid unchanged
    assert!(!b.play_word(Position { row: 1, col: 13 }, &word("CAT"), Direction::Across, true));
    assert_eq!(b.at_position(Position { row: 1, col: 13 }), '^');
}

#[test]
fn cross_checks_match_the_perpendicular_word() {
    // "N" above and "O" below an empty square: only letters l with "N l O"
    // in the lexicon survive the cross-check.
    let trie = build_trie(&["NO", "NAO"]);
    let mut b = Board::default();
    assert!(b.play_word(Position { row: 6, col: 7 }, &word("N"), Direction::Down, true));
    assert!(b.play_word(Position { row: 8, col: 7 }, &word("O"), Direction::Down, true));
    // for an across move the perpendicular run is the N _ O column
    let mask = b.valid_at(Position { row: 7, col: 7 }, Direction::Across, &trie);
    let letters = scrabble::utils::chars(&mask);
    assert_eq!(letters, vec!['A']);
    // for a down move the same square has no perpendicular neighbour at all
    let mask_down = b.valid_at(Position { row: 7, col: 7 }, Direction::Down, &trie);
    assert!(mask_down.iter().all(|&x| x));
}

#[test]
fn cross_checks_idempotent_on_unchanged_grid() {
    let trie = build_trie(&["NO", "NAO"]);
    let mut b = Board::default();
    assert!(b.play_word(Position { row: 6, col: 7 }, &word("N"), Direction::Down, true));
    assert!(b.play_word(Position { row: 8, col: 7 }, &word("O"), Direction::Down, true));
    let p = Position { row: 7, col: 7 };
    assert_eq!(b.valid_at(p, Direction::Across, &trie), b.valid_at(p, Direction::Across, &trie));
    let q = Position { row: 0, col: 0 };
    assert_eq!(b.valid_at(q, Direction::Down, &trie), b.valid_at(q, Direction::Down, &trie));
}

#[test]
fn occupied_square_has_empty_cross_check() {
    let trie = build_trie(&["NO"]);
    let mut b = Board::default();
    assert!(b.play_word(Position { row: 7, col: 7 }, &word("NO"), Direction::Across, true));
    let mask = b.valid_at(Position { row: 7, col: 7 }, Direction::Across, &trie);
    assert!(mask.iter().all(|&x| !x));
}

#[test]
fn unconstrained_square_allows_all_letters() {
    let trie = build_trie(&["NO"]);
    let b = Board::default();
    let mask = b.valid_at(Position { row: 3, col: 3 }, Direction::Across, &trie);
    assert_eq!(mask.len(), 26);
    assert!(mask.iter().all(|&x| x));
}

#[test]
fn anchors_empty_board_is_center() {
    let b = Board::default();
    assert_eq!(b.anchors(), vec![Position { row: 7, col: 7 }]);
}

#[test]
fn anchors_are_empty_neighbors_of_tiles() {
    let mut b = Board::default();
    assert!(b.play_word(Position { row: 7, col: 7 }, &word("A"), Direction::Across, true));
    let anchors = b.anchors();
    assert_eq!(anchors.len(), 4);
    assert!(anchors.contains(&Position { row: 7, col: 8 }));
    assert!(anchors.contains(&Position { row: 8, col: 7 }));
    assert!(anchors.contains(&Position { row: 7, col: 6 }));
    assert!(anchors.contains(&Position { row: 6, col: 7 }));
}

#[test]
fn partition_count_for_three_distinct_letters() {
    // sum over i in 1..=3 of 3!/(3-i)! = 3 + 6 + 6 = 15
    let parts = gen_parts(&word("ABC"));
    assert_eq!(parts.len(), 15);
    let parts2 = gen_parts(&word("AB"));
    assert_eq!(parts2.len(), 4);
    let parts1 = gen_parts(&word("A"));
    assert_eq!(parts1.len(), 1);
}

#[test]
fn partition_respects_duplicate_availability() {
    let parts = gen_parts(&word("AA"));
    // A and AA: a doubled tile is one letter value, not two positions
    assert_eq!(parts.len(), 2);
    assert!(parts.contains(&word("A")));
    assert!(parts.contains(&word("AA")));
}

#[test]
fn partition_expands_blanks_lowercase() {
    let parts = gen_parts(&vec!['?']);
    assert_eq!(parts.len(), 26);
    assert!(parts.contains(&vec!['a']));
    assert!(parts.contains(&vec!['z']));
    assert!(!parts.contains(&vec!['A']));
}

#[test]
fn empty_board_cat_through_center() {
    let trie = build_trie(&["CAT"]);
    let dict = empty_dict();
    let b = Board::default();
    let moves = b.generate_all_moves(&word("CAT"), &trie, &dict);
    assert!(!moves.is_empty());
    // every surviving candidate reads CAT and scores (3+1+1) * 2 for the
    // center's double-word premium
    for m in moves.iter() {
        assert_eq!(m.word, word("CAT"));
        assert_eq!(m.score, 10);
    }
    let across = Move::with(&word("CAT"), Position { row: 7, col: 5 }, Direction::Across);
    let down = Move::with(&word("CAT"), Position { row: 5, col: 7 }, Direction::Down);
    assert!(moves.contains(&across));
    assert!(moves.contains(&down));
}

#[test]
fn generation_is_deterministic() {
    let trie = build_trie(&["CAT", "AT", "TA"]);
    let dict = empty_dict();
    let b = Board::default();
    let m1 = b.generate_all_moves(&word("CAT"), &trie, &dict);
    let m2 = b.generate_all_moves(&word("CAT"), &trie, &dict);
    assert_eq!(m1.len(), m2.len());
    for (a, b) in m1.iter().zip(m2.iter()) {
        assert!(a == b);
        assert_eq!(a.score, b.score);
        assert_eq!(a.evaluation, b.evaluation);
    }
}

#[test]
fn blank_tile_scores_zero_but_word_validates() {
    let trie = build_trie(&["CA"]);
    let dict = empty_dict();
    let b = Board::default();
    let moves = b.generate_all_moves(&vec!['C', '?'], &trie, &dict);
    let ca: Vec<&Move> = moves.iter().filter(|m| m.word == word("CA")).collect();
    assert!(!ca.is_empty());
    // a real A would add 1 before doubling; the blank adds 0
    for m in ca.iter() {
        assert_eq!(m.score, 6);
    }
}

#[test]
fn generated_commit_keeps_board_legal() {
    let trie = build_trie(&["CAT", "AT"]);
    let dict = empty_dict();
    let mut b = Board::default();
    let moves = b.generate_all_moves(&word("CAT"), &trie, &dict);
    assert!(!moves.is_empty());
    b.place_move(&moves[0]);
    assert!(b.valid(&trie));
    // a second round next to the first word
    let moves2 = b.generate_all_moves(&word("AT"), &trie, &dict);
    for m in moves2.iter() {
        let mut scratch = b.clone();
        scratch.place_move(m);
        assert!(scratch.valid(&trie), "move {:?} broke the board", m.word);
    }
}

#[test]
fn extends_existing_word_with_prefix_tile() {
    let trie = build_trie(&["CAT", "AT"]);
    let dict = empty_dict();
    let mut b = Board::default();
    assert!(b.play_word(Position { row: 7, col: 7 }, &word("AT"), Direction::Across, true));
    let moves = b.generate_all_moves(&word("C"), &trie, &dict);
    let cat = Move::with(&word("CAT"), Position { row: 7, col: 6 }, Direction::Across);
    assert!(moves.contains(&cat));
    for m in moves.iter() {
        assert_eq!(m.word, word("CAT"));
    }
}

#[test]
fn trailing_tiles_extend_the_word() {
    // board holds "AT" down at rows 7..8 of column 7; an A placed at row 9
    // reads the existing prefix and forms "ATA"
    let trie = build_trie(&["AT", "ATA"]);
    let dict = empty_dict();
    let mut b = Board::default();
    assert!(b.play_word(Position { row: 7, col: 7 }, &word("AT"), Direction::Down, true));
    let moves = b.generate_all_moves(&word("A"), &trie, &dict);
    let ata: Vec<&Move> = moves.iter().filter(|m| m.word == word("ATA")).collect();
    assert!(!ata.is_empty());
    // three plain tiles, no premium under the new one
    for m in ata.iter() {
        assert_eq!(m.score, 3);
    }
}

#[test]
fn no_moves_on_dead_rack() {
    let trie = build_trie(&["CAT"]);
    let dict = empty_dict();
    let b = Board::default();
    let moves = b.generate_all_moves(&word("ZZ"), &trie, &dict);
    assert!(moves.is_empty());
}

#[test]
fn leave_table_lookup() {
    let key1 = scrabble::utils::to_word(&word("AB"));
    let entries = vec![(key1.clone(), 1500i64)];
    let d = Dictionary::with_leaves(&entries);
    assert_eq!(d.evaluate(&key1), Some(1500));
    let zeros = vec![0usize; 27];
    assert_eq!(d.evaluate(&zeros), Some(0));
    let other = scrabble::utils::to_word(&word("QZ"));
    assert_eq!(d.evaluate(&other), None);
}

#[test]
fn evaluation_uses_leave_of_remaining_rack() {
    let trie = build_trie(&["CA"]);
    // after playing C and A from rack CAT the leave is T
    let leave_key = scrabble::utils::to_word(&word("T"));
    let entries = vec![(leave_key, 2500i64)];
    let dict = Dictionary::with_leaves(&entries);
    let b = Board::default();
    let moves = b.generate_all_moves(&word("CAT"), &trie, &dict);
    let ca: Vec<&Move> = moves.iter().filter(|m| m.word == word("CA")).collect();
    assert!(!ca.is_empty());
    for m in ca.iter() {
        assert_eq!(m.evaluation, 2500);
    }
}

#[test]
fn bag_default_holds_hundred_tiles() {
    let b = Bag::default();
    assert_eq!(b.distribution.len(), 100);
    assert_eq!(b.distribution.iter().filter(|&&c| c == 'E').count(), 12);
    assert_eq!(b.distribution.iter().filter(|&&c| c == '?').count(), 2);
}

#[test]
fn bag_scores() {
    let b = Bag::default();
    assert_eq!(b.score('A'), 1);
    assert_eq!(b.score('Q'), 10);
    assert_eq!(b.score('Z'), 10);
    assert_eq!(b.score('?'), 0);
    assert_eq!(b.score('x'), 0);
}

#[test]
fn fixed_bag_draws_in_order() {
    let order = word("QWERTY");
    let mut b = Bag::with(&order);
    let drawn = b.draw_tiles(4);
    assert_eq!(drawn, word("QWER"));
    assert_eq!(b.distribution, word("TY"));
    let rest = b.draw_tiles(10);
    assert_eq!(rest, word("TY"));
    assert!(b.distribution.is_empty());
}

#[test]
fn random_draw_is_an_accounted_subset() {
    let mut b = Bag::default();
    let drawn = b.draw_tiles(7);
    assert_eq!(drawn.len(), 7);
    assert_eq!(b.distribution.len(), 93);
    let full = Bag::default();
    for c in drawn.iter() {
        // every drawn tile is a tile the standard bag holds
        assert!(full.distribution.contains(c));
    }
}

#[test]
fn position_ticks_and_bounds() {
    let mut p = Position { row: 0, col: 14 };
    assert!(!p.tick(Direction::Across));
    assert!(p.tick(Direction::Down));
    assert_eq!(p, Position { row: 1, col: 14 });
    let mut q = Position { row: 0, col: 0 };
    assert!(!q.tick_opp(Direction::Across));
    assert!(!q.tick_opp(Direction::Down));
    assert_eq!(q.to_int(), 0);
    assert_eq!(Position { row: 7, col: 7 }.to_int(), 112);
    assert_eq!(Position { row: 2, col: 3 }.tick_n(Direction::Across, 2), Some(Position { row: 2, col: 5 }));
    assert_eq!(Position { row: 2, col: 13 }.tick_n(Direction::Across, 2), None);
}

#[test]
fn positions_row_major() {
    let all = scrabble::utils::positions();
    assert_eq!(all.len(), 225);
    assert_eq!(all[0], Position { row: 0, col: 0 });
    assert_eq!(all[16], Position { row: 1, col: 1 });
    assert_eq!(all[224], Position { row: 14, col: 14 });
}

#[test]
fn move_identity_ignores_score() {
    let mut a = Move::with(&word("CAT"), Position { row: 7, col: 7 }, Direction::Across);
    let b = Move::with(&word("CAT"), Position { row: 7, col: 7 }, Direction::Across);
    a.score = 99;
    assert!(a == b);
    let c = Move::with(&word("CAT"), Position { row: 7, col: 8 }, Direction::Across);
    assert!(a != c);
    assert!(!a.exch());
}

#[test]
fn move_complement_pays_blanks_for_missing_letters() {
    let m = Move::with(&word("CAB"), Position { row: 7, col: 7 }, Direction::Across);
    let rack = vec!['C', 'A', '?', 'X'];
    let left = m.complement(&rack);
    assert_eq!(left, vec!['X']);
}

#[test]
fn move_iter_walks_word_tiles() {
    let m = Move::with(&word("AT"), Position { row: 7, col: 7 }, Direction::Across);
    let mut it = m.iter();
    assert_eq!(it.next(), Some((Position { row: 7, col: 7 }, 'A')));
    assert_eq!(it.next(), Some((Position { row: 7, col: 8 }, 'T')));
    assert_eq!(it.next(), None);
}

#[test]
fn rack_helpers_count_and_remove() {
    let mut v = word("ABRACADABRA");
    assert_eq!(scrabble::utils::count_item(&v, 'A'), 5);
    assert_eq!(scrabble::utils::remove_item(&mut v, 'B'), 'B');
    assert_eq!(v, word("ARACADABRA"));
    assert_eq!(scrabble::utils::to_word(&word("AAB"))[0], 2);
    assert_eq!(scrabble::utils::to_word(&word("AAB"))[1], 1);
    assert_eq!(scrabble::utils::to_word(&word("?"))[26], 1);
}

#[test]
fn direction_helpers() {
    assert_eq!(Direction::Across.flip(), Direction::Down);
    assert_eq!(Direction::Down.flip(), Direction::Across);
    assert_eq!(Direction::Across.to_int(), 1);
    assert_eq!(Direction::Down.to_int(), 0);
    assert_eq!(Direction::iter(), vec![Direction::Across, Direction::Down]);
    assert_eq!(Direction::Down.to_str(), "↓");
}

#[test]
fn direct_placement_attempts() {
    let trie = build_trie(&["CAT"]);
    let b = Board::default();
    let all = scrabble::utils::positions();
    let mut cc: Vec<Vec<char>> = Vec::new();
    for p in all.iter() {
        cc.push(scrabble::utils::chars(&b.valid_at(*p, Direction::Across, &trie)));
    }
    let hit = b.place(Position { row: 7, col: 5 }, Direction::Across, &word("CAT"), &trie, &cc);
    let m = hit.expect("a legal placement");
    assert_eq!(m.word, word("CAT"));
    assert_eq!(m.position, Position { row: 7, col: 5 });
    assert_eq!(m.score, 10);
    // a word the lexicon rejects is a silent miss
    let miss = b.place(Position { row: 7, col: 5 }, Direction::Across, &word("TAC"), &trie, &cc);
    assert!(miss.is_none());
    // a one-letter candidate is no move
    let short = b.place(Position { row: 7, col: 7 }, Direction::Across, &word("C"), &trie, &cc);
    assert!(short.is_none());
}

#[test]
fn flanking_tile_constrains_only_the_perpendicular_run() {
    // an X already on the board, dictionary {CAX}: laying C A before the X
    // must succeed; the square next to X along the move direction carries no
    // cross-check of its own, only the main word is read through it
    let trie = build_trie(&["CAX"]);
    let dict = empty_dict();
    let mut b = Board::default();
    assert!(b.play_word(Position { row: 7, col: 7 }, &word("X"), Direction::Across, true));
    let moves = b.generate_all_moves(&word("CA"), &trie, &dict);
    let cax = Move::with(&word("CAX"), Position { row: 7, col: 5 }, Direction::Across);
    assert!(moves.contains(&cax));
    for m in moves.iter() {
        assert_eq!(m.word, word("CAX"));
    }
}

#[test]
fn lexicon_accepts_only_listed_words() {
    // soundness: sharing structure with a listed word is not membership
    let trie = build_trie(&["CAT"]);
    assert!(trie.check_word(&word("CAT")));
    assert!(!trie.check_word(&word("AT")));
    assert!(!trie.check_word(&word("T")));
    assert!(!trie.check_word(&word("CATS")));
    assert!(!trie.check_word(&word("TAC")));
    assert!(!trie.check_word(&vec!['#']));
    assert!(!trie.check_word(&vec!['@']));
}

#[test]
fn rebuilds_accept_the_same_language() {
    let words = ["CAT", "AT", "NO"];
    let t1 = build_trie(&words);
    let t2 = build_trie(&words);
    for probe in ["CAT", "AT", "NO", "CA", "ATNO", "X", ""].iter() {
        assert_eq!(t1.check_word(&word(probe)), t2.check_word(&word(probe)));
    }
}
