use morpion::game::{candidates_at, starting_points, Game};
use morpion::line::{Direction, Line};
use morpion::point::Point;

const ALL: [Direction; 4] = [Direction::V, Direction::SP, Direction::H, Direction::SN];

fn snapshot(game: &Game) -> (Vec<(i16, i16, u8)>, Vec<Line>) {
    let mut points: Vec<(i16, i16, u8)> =
        game.points().iter().map(|(p, flags)| (p.x, p.y, *flags)).collect();
    points.sort();
    (points, game.sets().clone())
}

fn five_points(line: &Line) -> Vec<Point> {
    let mut it = line.iter();
    let mut points = Vec::new();
    while let Some(p) = it.next() {
        points.push(p);
    }
    points
}

fn count_legal_lines(game: &Game) -> usize {
    let mut count = 0;
    for x in -30i16..=30 {
        for y in -30i16..=30 {
            for d in ALL {
                let line = Line { start_x: x, start_y: y, direction: d };
                if game.valid_add_set(line).is_some() {
                    count += 1;
                }
            }
        }
    }
    count
}

fn play_some_moves(game: &mut Game, moves: usize) {
    for _ in 0..moves {
        let mut made = false;
        for (point, flags) in game.points() {
            for line in candidates_at(point, flags) {
                if let Some(new_point) = game.valid_add_set(line) {
                    game.add_set(line, new_point);
                    made = true;
                    break;
                }
            }
            if made {
                break;
            }
        }
        assert!(made);
    }
}

#[test]
fn the_starting_cross_has_36_distinct_points() {
    let points = starting_points();
    assert_eq!(points.len(), 36);
    assert_eq!(points[0], Point::new(0, 4));
    assert_eq!(points[1], Point::new(-1, 4));
    assert_eq!(points[17], Point::new(0, -5));
    assert_eq!(points[35], Point::new(1, 4));
    for i in 0..36 {
        for j in 0..i {
            assert_ne!(points[i], points[j]);
        }
    }
}

#[test]
fn fresh_board_has_the_starting_cross() {
    let game = Game::new();
    assert_eq!(game.score(), 0);
    assert!(game.sets().is_empty());
    let points = game.points();
    assert_eq!(points.len(), 36);
    for (_, flags) in points.iter() {
        assert_eq!(*flags, 0);
    }
    for p in starting_points() {
        assert_eq!(game.flags(p), Some(0));
    }
    assert_eq!(game.flags(Point::new(0, 0)), None);
    assert_eq!(game.flags(Point::new(3, 4)), None);
}

#[test]
fn placing_a_line_once_succeeds_and_twice_fails() {
    for start in starting_points() {
        let mut game = Game::new();
        let line = Line::new(start, Direction::H, 0);
        if let Some(new_point) = game.valid_add_set(line) {
            game.add_set(line, new_point);
            assert_eq!(game.score(), 1);
            assert_eq!(game.valid_add_set(line), None);
        }
    }
    let mut game = Game::new();
    let start = Point::new(-1, 4);
    let line = Line::new(start, Direction::H, 0);
    let new_point = game.valid_add_set(line);
    assert_eq!(new_point, Some(Point::new(3, 4)));
    game.add_set(line, new_point.unwrap());
    assert_eq!(game.score(), 1);
    assert_eq!(game.sets().clone(), vec![line]);
    assert_eq!(game.valid_add_set(line), None);
}

#[test]
fn add_set_marks_each_point_with_its_role() {
    let mut game = Game::new();
    let line = Line::new(Point::new(-1, 4), Direction::H, 0);
    game.add_set(line, Point::new(3, 4));
    assert_eq!(game.flags(Point::new(-1, 4)), Some(0b0100_0000));
    assert_eq!(game.flags(Point::new(0, 4)), Some(0b0100_0100));
    assert_eq!(game.flags(Point::new(1, 4)), Some(0b0100_0100));
    assert_eq!(game.flags(Point::new(2, 4)), Some(0b0100_0100));
    assert_eq!(game.flags(Point::new(3, 4)), Some(0b0000_0100));
    assert_eq!(game.flags(Point::new(-1, 3)), Some(0));
    assert_eq!(game.points().len(), 37);
}

#[test]
fn add_set_keeps_the_flags_of_a_point_that_is_on_the_board() {
    let mut game = Game::new();
    let first = Line::new(Point::new(-1, 4), Direction::H, 0);
    game.add_set(first, Point::new(3, 4));
    let second = Line::new(Point::new(-1, 4), Direction::V, 4);
    assert_eq!(second, Line { start_x: -1, start_y: 0, direction: Direction::V });
    assert_eq!(game.valid_add_set(second), Some(Point::new(-1, 0)));
    game.add_set(second, Point::new(-1, 0));
    assert_eq!(game.flags(Point::new(-1, 4)), Some(0b0100_0001));
    game.add_set(first, Point::new(-1, 4));
    assert_eq!(game.flags(Point::new(-1, 4)), Some(0b0100_0001));
    assert_eq!(game.score(), 3);
    assert_eq!(game.points().len(), 38);
}

#[test]
fn a_line_needs_exactly_one_new_point() {
    let game = Game::new();
    let two_missing = Line { start_x: 0, start_y: 4, direction: Direction::H };
    assert_eq!(game.valid_add_set(two_missing), None);
    let far_away = Line { start_x: 20, start_y: 20, direction: Direction::V };
    assert_eq!(game.valid_add_set(far_away), None);
    let mut game = Game::new();
    let line = Line { start_x: -1, start_y: 4, direction: Direction::H };
    game.add_set(line, Point::new(3, 4));
    game.remove_set_nomod_flags();
    let all_present = Line { start_x: -1, start_y: 4, direction: Direction::SN };
    assert_eq!(game.valid_add_set(all_present), None);
    let none_missing = Line { start_x: -1, start_y: 4, direction: Direction::H };
    assert_eq!(game.valid_add_set(none_missing), None);
}

#[test]
fn the_new_point_is_the_one_position_off_the_board() {
    let mut game = Game::new();
    play_some_moves(&mut game, 6);
    let mut checked = 0;
    for x in -12i16..=12 {
        for y in -12i16..=12 {
            for d in ALL {
                let line = Line { start_x: x, start_y: y, direction: d };
                let absent: Vec<Point> = five_points(&line)
                    .into_iter()
                    .filter(|p| game.flags(*p).is_none())
                    .collect();
                if let Some(new_point) = game.valid_add_set(line) {
                    assert_eq!(absent, vec![new_point]);
                    checked += 1;
                } else {
                    let free = five_points(&line).iter().enumerate().all(|(i, p)| {
                        let mask = if i == 0 {
                            d.get_out_mask()
                        } else if i == 4 {
                            d.get_in_mask()
                        } else {
                            d.get_inout_mask()
                        };
                        match game.flags(*p) {
                            Some(flags) => flags & mask == 0,
                            None => true,
                        }
                    });
                    assert!(absent.len() != 1 || !free);
                }
            }
        }
    }
    assert!(checked > 0);
}

#[test]
fn a_taken_role_is_never_taken_again() {
    let mut game = Game::new();
    let line = Line { start_x: -1, start_y: 4, direction: Direction::H };
    game.add_set(line, Point::new(3, 4));
    let overlapping = Line { start_x: 0, start_y: 4, direction: Direction::H };
    assert_eq!(game.valid_add_set(overlapping), None);
    let touching = Line { start_x: 3, start_y: 4, direction: Direction::H };
    assert_eq!(game.valid_add_set(touching), None);
    let mut game = Game::new();
    play_some_moves(&mut game, 8);
    for x in -12i16..=12 {
        for y in -12i16..=12 {
            for d in ALL {
                let line = Line { start_x: x, start_y: y, direction: d };
                if game.valid_add_set(line).is_some() {
                    for (i, p) in five_points(&line).iter().enumerate() {
                        let mask = if i == 0 {
                            d.get_out_mask()
                        } else if i == 4 {
                            d.get_in_mask()
                        } else {
                            d.get_inout_mask()
                        };
                        if let Some(flags) = game.flags(*p) {
                            assert_eq!(flags & mask, 0);
                        }
                    }
                }
            }
        }
    }
}

#[test]
fn lines_may_meet_end_to_end() {
    let mut game = Game::new();
    let first = Line { start_x: -1, start_y: 4, direction: Direction::H };
    game.add_set(first, Point::new(3, 4));
    game.add_set_nomod_flags(first);
    assert_eq!(game.score(), 2);
    assert_eq!(game.flags(Point::new(3, 4)), Some(0b0000_0100));
    assert_eq!(Direction::H.offset_range(0b0000_0100), (0, 1));
}

#[test]
fn add_then_remove_restores_the_board() {
    let mut game = Game::new();
    play_some_moves(&mut game, 5);
    let before = snapshot(&game);
    let mut tried = 0;
    for (point, flags) in game.points() {
        for line in candidates_at(point, flags) {
            if let Some(new_point) = game.valid_add_set(line) {
                game.add_set(line, new_point);
                assert_ne!(snapshot(&game), before);
                game.remove_set(line, new_point);
                assert_eq!(snapshot(&game), before);
                tried += 1;
            }
        }
    }
    assert!(tried > 0);
}

#[test]
fn remove_set_takes_the_new_point_off_the_board() {
    let mut game = Game::new();
    let line = Line { start_x: -1, start_y: 4, direction: Direction::H };
    game.add_set(line, Point::new(3, 4));
    game.remove_set(line, Point::new(3, 4));
    assert_eq!(game.flags(Point::new(3, 4)), None);
    assert_eq!(game.flags(Point::new(-1, 4)), Some(0));
    assert_eq!(game.flags(Point::new(1, 4)), Some(0));
    assert_eq!(game.score(), 0);
    assert_eq!(game.points().len(), 36);
}

#[test]
fn score_goes_up_and_down_by_one() {
    let mut game = Game::new();
    let mut history = Vec::new();
    for expected in 1..=6usize {
        let before = game.score();
        let mut placed = None;
        for (point, flags) in game.points() {
            for line in candidates_at(point, flags) {
                if let Some(new_point) = game.valid_add_set(line) {
                    placed = Some((line, new_point));
                }
            }
        }
        let (line, new_point) = placed.unwrap();
        game.add_set(line, new_point);
        assert_eq!(game.score(), before + 1);
        assert_eq!(game.score(), expected);
        history.push((line, new_point));
    }
    while let Some((line, new_point)) = history.pop() {
        let before = game.score();
        game.remove_set(line, new_point);
        assert_eq!(game.score(), before - 1);
    }
    assert_eq!(game.score(), 0);
}

#[test]
fn the_plain_push_and_pop_leave_the_flags_alone() {
    let mut game = Game::new();
    let before = snapshot(&game).0;
    let line = Line { start_x: -1, start_y: 4, direction: Direction::H };
    game.add_set_nomod_flags(line);
    assert_eq!(game.score(), 1);
    assert_eq!(game.sets().clone(), vec![line]);
    assert_eq!(snapshot(&game).0, before);
    game.remove_set_nomod_flags();
    assert_eq!(game.score(), 0);
    assert_eq!(snapshot(&game).0, before);
    game.remove_set_nomod_flags();
    assert_eq!(game.score(), 0);
}

#[test]
fn fresh_board_has_twenty_eight_moves() {
    let game = Game::new();
    assert_eq!(game.possible_moves(), 28);
    assert_eq!(count_legal_lines(&game), 28);
}

#[test]
fn possible_moves_counts_the_legal_lines() {
    let mut game = Game::new();
    for _ in 0..12 {
        assert_eq!(game.possible_moves(), count_legal_lines(&game));
        play_some_moves(&mut game, 1);
    }
    assert_eq!(game.possible_moves(), count_legal_lines(&game));
}

#[test]
fn candidates_cover_every_legal_line_through_a_point() {
    let mut game = Game::new();
    play_some_moves(&mut game, 7);
    for (point, flags) in game.points() {
        let candidates = candidates_at(point, flags);
        for line in candidates.iter() {
            assert!(five_points(line).contains(&point));
        }
        for x in (point.x - 4)..=(point.x + 4) {
            for y in (point.y - 4)..=(point.y + 4) {
                for d in ALL {
                    let line = Line { start_x: x, start_y: y, direction: d };
                    if five_points(&line).contains(&point) && game.valid_add_set(line).is_some() {
                        assert!(candidates.contains(&line));
                    }
                }
            }
        }
    }
}

#[test]
fn candidates_follow_the_axes_and_the_offsets_in_order() {
    let point = Point::new(0, 0);
    let lines = candidates_at(point, 0);
    assert_eq!(lines.len(), 20);
    assert_eq!(lines[0], Line { start_x: 0, start_y: 0, direction: Direction::V });
    assert_eq!(lines[4], Line { start_x: 0, start_y: -4, direction: Direction::V });
    assert_eq!(lines[5], Line { start_x: 0, start_y: 0, direction: Direction::SP });
    assert_eq!(lines[10], Line { start_x: 0, start_y: 0, direction: Direction::H });
    assert_eq!(lines[19], Line { start_x: -4, start_y: 4, direction: Direction::SN });
    assert_eq!(candidates_at(point, 255).len(), 0);
    let lines = candidates_at(point, 0b0100_0000 | 0b0000_0001 | 0b0010_0010);
    assert_eq!(
        lines,
        vec![
            Line { start_x: 0, start_y: 0, direction: Direction::V },
            Line { start_x: -4, start_y: 0, direction: Direction::H },
            Line { start_x: 0, start_y: 0, direction: Direction::SN },
            Line { start_x: -1, start_y: 1, direction: Direction::SN },
            Line { start_x: -2, start_y: 2, direction: Direction::SN },
            Line { start_x: -3, start_y: 3, direction: Direction::SN },
            Line { start_x: -4, start_y: 4, direction: Direction::SN },
        ]
    );
}

#[test]
fn a_clone_is_a_second_board() {
    let mut game = Game::new();
    play_some_moves(&mut game, 4);
    let copy = game.clone();
    assert_eq!(snapshot(&copy), snapshot(&game));
    let before = snapshot(&copy);
    play_some_moves(&mut game, 2);
    assert_eq!(game.score(), 6);
    assert_eq!(copy.score(), 4);
    assert_eq!(snapshot(&copy), before);
    assert_ne!(snapshot(&game), before);
}
