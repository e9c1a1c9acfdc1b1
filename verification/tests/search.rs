use morpion::game::{candidates_at, starting_points, Game};
use morpion::hashed::{Candidates, LineSet, MoveInfo};
use morpion::line::{Direction, Line};
use morpion::methods::{
    cmp_hpm, cmp_mnx_hpm, cmp_quad_hpm, spm_intoiter, spm_intoiter_rev, store_hs, store_npm_s_p,
    store_sorted, store_v, v_eq, v_hs_eq, v_sorted_eq, Method,
};
use morpion::search::{
    base, base_highest_set, base_highest_set_vec, order_of_trial, rank_candidates,
};
use morpion::point::Point;
use morpion::solvers::{
    empty_table, judge, search_from, singlethreaded, singlethreaded_method, Cursor, Received,
    Verdict, MAX_TARGET,
};
use std::cell::Cell;

fn assert_is_a_legal_game(result: &Game) {
    let mut replay = Game::new();
    for line in result.sets().iter() {
        let new_point = replay.valid_add_set(*line);
        assert!(new_point.is_some());
        replay.add_set(*line, new_point.unwrap());
    }
    assert_eq!(replay.score(), result.score());
    let mut expected: Vec<(i16, i16, u8)> =
        replay.points().iter().map(|(p, f)| (p.x, p.y, *f)).collect();
    let mut actual: Vec<(i16, i16, u8)> =
        result.points().iter().map(|(p, f)| (p.x, p.y, *f)).collect();
    expected.sort();
    actual.sort();
    assert_eq!(actual, expected);
}

#[test]
fn empty_table_has_one_empty_row_for_each_score() {
    let table: Vec<Vec<LineSet>> = empty_table(7);
    assert_eq!(table.len(), 7);
    assert!(table.iter().all(|row| row.is_empty()));
    let table: Vec<Vec<Vec<Line>>> = empty_table(0);
    assert!(table.is_empty());
}

#[test]
fn search_reaches_a_small_target() {
    let target = 3;
    let mut table: Vec<Vec<LineSet>> = empty_table(target);
    let method = Method::new(v_hs_eq, store_hs, store_npm_s_p, cmp_hpm, spm_intoiter_rev);
    let start = starting_points()[0];
    let result = base(&mut table, Game::new(), start, method, target);
    assert_eq!(result.score(), target);
    assert_eq!(table.len(), target);
    assert!(!table[0].is_empty());
    assert_is_a_legal_game(&result);
}

#[test]
fn every_strategy_reaches_a_modest_target() {
    let target = 12;
    for start in [starting_points()[0], starting_points()[20]] {
        let mut table: Vec<Vec<LineSet>> = empty_table(target);
        let method = Method::new(v_hs_eq, store_hs, store_npm_s_p, cmp_hpm, spm_intoiter_rev);
        let result = base(&mut table, Game::new(), start, method, target);
        assert_eq!(result.score(), target);
        assert_is_a_legal_game(&result);

        let mut table: Vec<Vec<LineSet>> = empty_table(target);
        let method = Method::new(v_hs_eq, store_hs, store_npm_s_p, cmp_mnx_hpm, spm_intoiter_rev);
        let result = base(&mut table, Game::new(), start, method, target);
        assert_eq!(result.score(), target);
        assert_is_a_legal_game(&result);

        let mut table: Vec<Vec<LineSet>> = empty_table(target);
        let method = Method::new(v_hs_eq, store_hs, store_npm_s_p, cmp_quad_hpm, spm_intoiter);
        let result = base(&mut table, Game::new(), start, method, target);
        assert_eq!(result.score(), target);
        assert_is_a_legal_game(&result);

        let mut table: Vec<Vec<Vec<Line>>> = empty_table(target);
        let method = Method::new(v_eq, store_v, store_npm_s_p, cmp_hpm, spm_intoiter_rev);
        let result = base(&mut table, Game::new(), start, method, target);
        assert_eq!(result.score(), target);
        assert_is_a_legal_game(&result);

        let mut table: Vec<Vec<Vec<Line>>> = empty_table(target);
        let method =
            Method::new(v_sorted_eq, store_sorted, store_npm_s_p, cmp_mnx_hpm, spm_intoiter);
        let result = base(&mut table, Game::new(), start, method, target);
        assert_eq!(result.score(), target);
        assert_is_a_legal_game(&result);
    }
}

#[test]
fn the_first_line_of_a_search_passes_through_its_starting_point() {
    for start in starting_points() {
        let mut table: Vec<Vec<LineSet>> = empty_table(4);
        let method = Method::new(v_hs_eq, store_hs, store_npm_s_p, cmp_hpm, spm_intoiter_rev);
        let result = base(&mut table, Game::new(), start, method, 4);
        assert_eq!(result.score(), 4);
        let first = result.sets()[0];
        let mut it = first.iter();
        let mut through = false;
        while let Some(p) = it.next() {
            through = through || p == start;
        }
        assert!(through);
        assert_is_a_legal_game(&result);
    }
}

#[test]
fn a_search_that_fails_hands_the_board_back_unchanged() {
    let mut game = Game::new();
    let line = Line { start_x: -1, start_y: 4, direction: Direction::H };
    let corner = Point::new(3, 4);
    assert_eq!(game.valid_add_set(line), Some(corner));
    game.add_set(line, corner);
    let flags = game.flags(corner).unwrap();
    let legal = candidates_at(corner, flags)
        .into_iter()
        .filter(|line| game.valid_add_set(*line).is_some())
        .count();
    assert_eq!(legal, 0);
    let before: Vec<(Point, u8)> = game.points();
    let target = 3;
    let mut table: Vec<Vec<LineSet>> = empty_table(target);
    let method = Method::new(v_hs_eq, store_hs, store_npm_s_p, cmp_hpm, spm_intoiter_rev);
    let result = base(&mut table, game, corner, method, target);
    assert_eq!(result.score(), 1);
    assert_eq!(result.sets().clone(), vec![line]);
    assert_eq!(result.points().len(), before.len());
    for (point, flags) in before {
        assert_eq!(result.flags(point), Some(flags));
    }
    assert!(table.iter().all(|row| row.is_empty()));
}

#[test]
fn a_board_at_its_target_still_gets_one_more_line() {
    let mut table: Vec<Vec<LineSet>> = empty_table(1);
    let method = Method::new(v_hs_eq, store_hs, store_npm_s_p, cmp_hpm, spm_intoiter_rev);
    let result = base(&mut table, Game::new(), starting_points()[0], method, 0);
    assert_eq!(result.score(), 1);
    assert_is_a_legal_game(&result);
}

#[test]
fn candidates_are_ranked_before_they_are_ordered() {
    let lists = Cell::new(0usize);
    let longest = Cell::new(0usize);
    let spread = Cell::new(false);
    let checked_order = |ranked: Vec<MoveInfo>| {
        for pair in ranked.windows(2) {
            assert!(pair[0].0 <= pair[1].0);
        }
        lists.set(lists.get() + 1);
        longest.set(longest.get().max(ranked.len()));
        if let (Some(first), Some(last)) = (ranked.first(), ranked.last()) {
            spread.set(spread.get() || first.0 != last.0);
        }
        spm_intoiter_rev(ranked)
    };
    let target = 12;
    let mut table: Vec<Vec<LineSet>> = empty_table(target);
    let method = Method::new(v_hs_eq, store_hs, store_npm_s_p, cmp_hpm, checked_order);
    let result = base(&mut table, Game::new(), starting_points()[3], method, target);
    assert_eq!(result.score(), target);
    assert!(lists.get() >= target);
    assert!(longest.get() > 10);
    assert!(spread.get());
}

#[test]
fn the_estimate_of_a_candidate_is_the_number_of_moves_it_leaves() {
    let recorded = Cell::new(0usize);
    let checked_record = |moves: &mut Candidates, n: usize, line: Line, point: Point| {
        let mut game = Game::new();
        assert_eq!(game.valid_add_set(line), Some(point));
        game.add_set(line, point);
        assert_eq!(game.possible_moves(), n);
        recorded.set(recorded.get() + 1);
        store_npm_s_p(moves, n, line, point)
    };
    let start = starting_points()[0];
    let fresh = Game::new();
    let legal = candidates_at(start, 0)
        .into_iter()
        .filter(|line| fresh.valid_add_set(*line).is_some())
        .count();
    assert!(legal > 0);
    let mut table: Vec<Vec<LineSet>> = empty_table(1);
    let method = Method::new(v_hs_eq, store_hs, checked_record, cmp_hpm, spm_intoiter_rev);
    let result = base(&mut table, fresh, start, method, 1);
    assert_eq!(result.score(), 1);
    assert_eq!(recorded.get(), legal);
    assert_eq!(table[0].len(), legal);
}

#[test]
fn a_configuration_is_stored_and_tried_once() {
    let target = 3;
    let mut table: Vec<Vec<LineSet>> = empty_table(target);
    let method = Method::new(v_hs_eq, store_hs, store_npm_s_p, cmp_hpm, spm_intoiter_rev);
    let start = starting_points()[0];
    let result = base(&mut table, Game::new(), start, method, target);
    assert_eq!(result.score(), target);
    for row in table.iter() {
        for i in 0..row.len() {
            for j in 0..i {
                let same = row[i].len() == row[j].len()
                    && result.sets().iter().all(|l| row[i].contains(l) == row[j].contains(l));
                assert!(!same || row[i].len() == 0 || differ_somewhere(&row[i], &row[j]));
            }
        }
    }
    let again = base(&mut table, Game::new(), start, method, target);
    assert_eq!(again.score(), 0);
}

fn differ_somewhere(a: &LineSet, b: &LineSet) -> bool {
    for x in -12i16..=12 {
        for y in -12i16..=12 {
            for d in [Direction::V, Direction::SP, Direction::H, Direction::SN] {
                let line = Line { start_x: x, start_y: y, direction: d };
                if a.contains(&line) != b.contains(&line) {
                    return true;
                }
            }
        }
    }
    false
}

#[test]
fn base_highest_set_reaches_a_modest_target() {
    let target = 10;
    let mut table: Vec<Vec<LineSet>> = empty_table(target);
    let result = base_highest_set(&mut table, Game::new(), starting_points()[5], target);
    assert_eq!(result.score(), target);
    assert_eq!(table.len(), target);
    assert_is_a_legal_game(&result);
}

#[test]
fn base_highest_set_vec_reaches_a_modest_target_and_stores_sorted_lists() {
    let target = 10;
    let mut table: Vec<Vec<Vec<Line>>> = empty_table(target);
    let result = base_highest_set_vec(&mut table, Game::new(), starting_points()[5], target);
    assert_eq!(result.score(), target);
    assert_is_a_legal_game(&result);
    let mut stored = 0;
    let mut out_of_placement_order = false;
    for (depth, row) in table.iter().enumerate() {
        for config in row.iter() {
            assert_eq!(config.len(), depth + 1);
            for pair in config.windows(2) {
                assert!(pair[0].packed() < pair[1].packed());
            }
            stored += 1;
        }
    }
    assert!(stored >= target);
    let placed = result.sets().clone();
    for pair in placed.windows(2) {
        out_of_placement_order = out_of_placement_order || pair[0].packed() > pair[1].packed();
    }
    let mut sorted = placed.clone();
    sorted.sort_by_key(|l| l.packed());
    assert!(table[target - 1].contains(&sorted));
    assert!(out_of_placement_order || placed == sorted);
}

#[test]
fn singlethreaded_method_finds_a_board() {
    let method = Method::new(v_hs_eq, store_hs, store_npm_s_p, cmp_hpm, spm_intoiter_rev);
    let best = singlethreaded_method(method, 1).unwrap();
    assert_eq!(best.score(), 1);
    assert_is_a_legal_game(&best);
    let best = singlethreaded_method(method, 15).unwrap();
    assert_eq!(best.score(), 15);
    assert_is_a_legal_game(&best);
    let method = Method::new(v_eq, store_v, store_npm_s_p, cmp_quad_hpm, spm_intoiter);
    let best = singlethreaded_method(method, 9).unwrap();
    assert_eq!(best.score(), 9);
    assert_is_a_legal_game(&best);
}

#[test]
fn singlethreaded_runs_a_given_search() {
    let best = singlethreaded(base_highest_set, 8).unwrap();
    assert_eq!(best.score(), 8);
    assert_is_a_legal_game(&best);
    let best = singlethreaded(base_highest_set_vec, 8).unwrap();
    assert_eq!(best.score(), 8);
    assert_is_a_legal_game(&best);
    let gives_up = |_: &mut Vec<Vec<LineSet>>, game: Game, _: Point, _: usize| game;
    assert!(singlethreaded(gives_up, 1).is_none());
}

#[test]
fn search_from_starts_afresh() {
    let method = Method::new(v_hs_eq, store_hs, store_npm_s_p, cmp_hpm, spm_intoiter_rev);
    for start in starting_points() {
        let result = search_from(start, &method, 1);
        assert_eq!(result.score(), 1);
        let result = search_from(start, &method, 6);
        assert_eq!(result.score(), 6);
        assert_is_a_legal_game(&result);
    }
    assert_eq!(MAX_TARGET, 8189);
}

#[test]
fn the_cursor_hands_out_each_starting_point_once() {
    let mut cursor = Cursor::new();
    for expected in starting_points() {
        assert_eq!(cursor.claim(), Some(expected));
    }
    assert_eq!(cursor.claim(), None);
    assert_eq!(cursor.claim(), None);
}

#[test]
fn the_first_board_at_the_target_wins_the_race() {
    let method = Method::new(v_hs_eq, store_hs, store_npm_s_p, cmp_hpm, spm_intoiter_rev);
    let three = search_from(starting_points()[0], &method, 3);
    assert!(matches!(judge(Received::Finished(three), 4), Verdict::Wait));
    let three = search_from(starting_points()[0], &method, 3);
    match judge(Received::Finished(three), 3) {
        Verdict::Winner(game) => assert_eq!(game.score(), 3),
        _ => panic!("a board at the target must win"),
    }
    let three = search_from(starting_points()[0], &method, 3);
    assert!(matches!(judge(Received::Finished(three), 2), Verdict::Winner(_)));
    assert!(matches!(judge(Received::Nothing, 3), Verdict::Wait));
    assert!(matches!(judge(Received::Closed, 3), Verdict::GiveUp));
    assert!(matches!(judge(Received::Finished(Game::new()), 0), Verdict::Winner(_)));
}

fn some_candidates() -> (Candidates, Vec<MoveInfo>) {
    let line = |x: i16| Line { start_x: x, start_y: 0, direction: Direction::H };
    let all = vec![
        (7, line(0), Point::new(4, 0)),
        (2, line(1), Point::new(5, 0)),
        (9, line(2), Point::new(6, 0)),
        (4, line(3), Point::new(7, 0)),
        (1, line(4), Point::new(8, 0)),
    ];
    let mut candidates = Candidates::new();
    for info in all.iter() {
        store_npm_s_p(&mut candidates, info.0, info.1, info.2);
    }
    (candidates, all)
}

#[test]
fn rank_candidates_puts_the_lowest_rank_first() {
    let (candidates, all) = some_candidates();
    let ranked = rank_candidates(candidates, &cmp_hpm);
    assert_eq!(ranked, vec![all[4], all[1], all[3], all[0], all[2]]);
    let (candidates, all) = some_candidates();
    let ranked = rank_candidates(candidates, &cmp_mnx_hpm);
    assert_eq!(ranked, all);
    assert!(rank_candidates(Candidates::new(), &cmp_hpm).is_empty());
}

#[test]
fn order_of_trial_follows_the_ranking_and_the_strategy() {
    let (candidates, all) = some_candidates();
    let order = order_of_trial(candidates, &cmp_hpm, &spm_intoiter);
    let moves: Vec<(Line, Point)> = all.iter().map(|info| (info.1, info.2)).collect();
    assert_eq!(order, vec![moves[4], moves[1], moves[3], moves[0], moves[2]]);
    let (candidates, _) = some_candidates();
    let order = order_of_trial(candidates, &cmp_hpm, &spm_intoiter_rev);
    assert_eq!(order, vec![moves[2], moves[0], moves[3], moves[1], moves[4]]);
}

#[test]
fn the_search_stops_at_the_target() {
    for target in 1..=9usize {
        let mut table: Vec<Vec<LineSet>> = empty_table(target);
        let result = base_highest_set(&mut table, Game::new(), starting_points()[7], target);
        assert_eq!(result.score(), target);
        for (depth, row) in table.iter().enumerate() {
            for entry in row.iter() {
                assert_eq!(entry.len(), depth + 1);
            }
        }
    }
}

#[test]
fn a_failed_search_has_stored_every_move_it_passed() {
    let mut game = Game::new();
    play_through(&mut game, 3);
    let target = 4;
    let mut table: Vec<Vec<LineSet>> = empty_table(target);
    let method = Method::new(v_hs_eq, store_hs, store_npm_s_p, cmp_hpm, spm_intoiter_rev);
    let first = base(&mut table, game, starting_points()[0], method, target);
    if first.score() == 3 {
        for (point, flags) in first.points() {
            for line in candidates_at(point, flags) {
                let through = {
                    let mut it = line.iter();
                    let mut found = false;
                    while let Some(p) = it.next() {
                        found = found || p == starting_points()[0];
                    }
                    found
                };
                if through && first.valid_add_set(line).is_some() {
                    let mut lines = first.sets().clone();
                    lines.push(line);
                    assert!(table[3].iter().any(|entry| v_hs_eq(entry, &lines)));
                }
            }
        }
    } else {
        assert_eq!(first.score(), target);
    }
}

fn play_through(game: &mut Game, moves: usize) {
    for _ in 0..moves {
        let mut made = false;
        for (point, flags) in game.points() {
            if made {
                break;
            }
            for line in candidates_at(point, flags) {
                if let Some(new_point) = game.valid_add_set(line) {
                    game.add_set(line, new_point);
                    made = true;
                    break;
                }
            }
        }
        assert!(made);
    }
}
