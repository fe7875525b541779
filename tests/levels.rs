use game::actions::Action::{Backward, Forward, Left, Right};
use game::actions::{Action, CWRotation};
use game::level::{Level, LevelBuilder, Tile};
use game::pictogram::{from_pictogram, transform};
use game::solver::{
    depth_first_search, fastest_solutions, slowest_solutions, smallest_solutions, Solution,
};

const ANTI_CLOCKWISE: ((i32, i32), (i32, i32)) = ((0, 1), (1, 0));
const CLOCKWISE: ((i32, i32), (i32, i32)) = ((0, -1), (1, 0));
const IDENTITY: ((i32, i32), (i32, i32)) = ((1, 0), (0, 1));

fn rows(lines: &[&str]) -> Vec<Vec<char>> {
    lines.iter().map(|line| line.chars().collect()).collect()
}

fn scenes() -> Vec<Level> {
    vec![
        LevelBuilder::new()
            .name("Lost")
            .action_limit(1)
            .actions(vec![Action::Forward])
            .block((-2, 0), (2, 0), Tile::Basic)
            .insert(vec![((-2, 0), Tile::Start(CWRotation::Zero)), ((2, 0), Tile::Finish)])
            .insert(from_pictogram(&rows(&["🧑🟦🟦🟦🟩"])))
            .build()
            .unwrap(),
        LevelBuilder::new()
            .name("Arbitrary")
            .action_limit(2)
            .actions(vec![Action::Forward, Action::Right])
            .insert(from_pictogram(&rows(&[
                "🧑🟦🟦🟦",
                "🟦🟦🟦🟦",
                "🟦🟦🟦🟦",
                "🟦🟦🟦🟩",
            ])))
            .build()
            .unwrap(),
        LevelBuilder::new()
            .name("Pothole")
            .action_limit(2)
            .insert(from_pictogram(&rows(&[
                "🟦🟦🟦🟩",
                "🟦🟦🟦⬛",
                "🟦🟦🟦🟦",
                "🧑🟦🟦🟦",
            ])))
            .build()
            .unwrap(),
        LevelBuilder::new()
            .name("Noise")
            .action_limit(3)
            .insert(transform(
                ANTI_CLOCKWISE,
                from_pictogram(&rows(&[
                    "🟦🟦🟦🟦🟦",
                    "🟦⬛⬛🟦🟩",
                    "🟦⬛🟦🟦🟦",
                    "👩🟦🟦🟦🟦",
                ])),
            ))
            .build()
            .unwrap(),
        LevelBuilder::new()
            .name("Obstructions")
            .action_limit(3)
            .command_challenge(2)
            .insert(transform(
                IDENTITY,
                from_pictogram(&rows(&[
                    "⬛⬛⬜⬛⬛",
                    "⬛🧑🟦🟦⬛",
                    "⬜🟦⬜🟦⬜",
                    "⬛🟦🟦🟩⬛",
                    "⬛⬛⬜⬛⬛",
                ])),
            ))
            .build()
            .unwrap(),
        LevelBuilder::new()
            .name("Choices")
            .action_limit(6)
            .command_challenge(3)
            .step_challenge(8)
            .waste_challenge(22)
            .insert(transform(
                IDENTITY,
                from_pictogram(&rows(&[
                    "🧑⬜⬛⬛⬜⬛⬛",
                    "🟦🟦🟦🟦🟦🟦🟩",
                    "⬛⬛🟦⬜🟦⬛⬛",
                    "🟦🟦🟦🟦🟦🟦🟩",
                    "🟦⬜⬛⬛⬜⬛⬛",
                ])),
            ))
            .build()
            .unwrap(),
        LevelBuilder::new()
            .name("Precarious")
            .action_limit(6)
            .command_challenge(4)
            .step_challenge(8)
            .waste_challenge(13)
            .waste_challenge(22)
            .insert(transform(
                IDENTITY,
                from_pictogram(&rows(&[
                    "🟦🟦⬜⬛⬛⬛⬛",
                    "🟦🟦🟦🟦⬛⬛⬛",
                    "⬛⬛⬜🟦🟦🟦🟩",
                    "🟦🟦🟦🟦⬛⬛⬛",
                    "🧑🟦⬜⬛⬛⬛⬛",
                ])),
            ))
            .build()
            .unwrap(),
        LevelBuilder::new()
            .name("Hook")
            .action_limit(5)
            .command_challenge(4)
            .step_challenge(7)
            .waste_challenge(14)
            .insert(transform(
                IDENTITY,
                from_pictogram(&rows(&[
                    "⬛⬛⬛⬛⬜⬛",
                    "⬜⬜🟦🟦🟦⬜",
                    "🧑🟦🟦⬜🟩🟦",
                    "⬛⬛⬜⬛⬛⬛",
                ])),
            ))
            .build()
            .unwrap(),
        LevelBuilder::new()
            .name("Crucible")
            .action_limit(8)
            .command_challenge(7)
            .step_challenge(14)
            .waste_challenge(23)
            .insert(from_pictogram(&rows(&[
                "⬛⬛🟦🟦🟦",
                "⬜🟦🟦⬜🟦",
                "🧑🟦⬜🟩🟦",
                "⬛⬜⬛⬛⬛",
            ])))
            .build()
            .unwrap(),
        LevelBuilder::new()
            .name("Rift")
            .action_limit(7)
            .command_challenge(6)
            .step_challenge(14)
            .waste_challenge(24)
            .insert(from_pictogram(&rows(&[
                "🟦⬜🟦⬜🟦⬜🟦",
                "🟦🟦🟦🟦🟦🟦🟦",
                "⬜🟦🧑⬛⬜🟦⬜",
                "🟦🟦🟦⬛🟦🟦🟦",
                "⬜🟦⬜⬛🟩🟦⬜",
                "🟦🟦🟦🟦🟦🟦🟦",
                "⬜🟦⬜🟦⬜🟦⬜",
            ])))
            .build()
            .unwrap(),
        LevelBuilder::new()
            .name("Overshoot")
            .action_limit(4)
            .insert(from_pictogram(&rows(&[
                "⬛⬛🟦🟦",
                "🧑🏂🏂🟦",
                "⬛⬛🏂⬛",
                "⬛⬛🟩⬛",
            ])))
            .build()
            .unwrap(),
        LevelBuilder::new()
            .name("Glide")
            .action_limit(4)
            .insert(from_pictogram(&rows(&[
                "⬛⬜⬛⬛⬛",
                "⬛🏂🏂⬜⬛",
                "⬜🏂🏂🏂🧑",
                "⬛⬛🏂⬛⬛",
                "⬛⬛🟩⬛⬛",
            ])))
            .build()
            .unwrap(),
        LevelBuilder::new()
            .name("Loops")
            .action_limit(5)
            .command_challenge(4)
            .step_challenge(9)
            .waste_challenge(13)
            .insert(from_pictogram(&rows(&[
                "⬛⬛⬛🟦🏂🟦",
                "⬜🟦⬜🟦🟩🏂",
                "🟦🟦🏂🏂🏂🟦",
                "⬜🧑⬜⬛⬛⬛",
            ])))
            .build()
            .unwrap(),
        LevelBuilder::new()
            .name("Gauntlet")
            .action_limit(5)
            .command_challenge(5)
            .step_challenge(7)
            .waste_challenge(9)
            .insert(transform(
                ANTI_CLOCKWISE,
                from_pictogram(&rows(&[
                    "⬛⬜⬛⬛⬛⬛",
                    "⬛🏂🏂🏂⬜⬛",
                    "⬛🏂🏂🏂🏂⬛",
                    "⬜🏂🧑🏂🏂⬜",
                    "⬜🏂🏂🏂🏂⬛",
                    "⬛⬜🏂🏂⬜⬛",
                    "⬛🏂🏂🏂🏂⬛",
                    "⬜🏂🏂🏂🏂⬛",
                    "⬛🟩🏂⬜🏂⬛",
                ])),
            ))
            .build()
            .unwrap(),
        LevelBuilder::new()
            .name("Esky")
            .action_limit(5)
            .command_challenge(4)
            .step_challenge(8)
            .waste_challenge(15)
            .insert(from_pictogram(&rows(&[
                "⬜⬜⬜⬜⬜⬜⬜⬜",
                "⬜🧑🏂🏂🏂🏂🏂⬜",
                "⬜⬛🟦🟦🏂🏂🏂⬜",
                "⬜🟦🏂🏂🏂🟦🏂⬜",
                "⬜🏂🏂🟦🟩🏂🏂⬜",
                "⬜🟦🏂🟦🏂🟦🏂⬜",
                "⬜🏂🟦🏂🏂🏂🏂⬜",
                "⬜⬜⬜⬜⬜⬜⬜⬜",
            ])))
            .build()
            .unwrap(),
        LevelBuilder::new()
            .name("Divert")
            .action_limit(1)
            .insert(from_pictogram(&rows(&[
                "🧑🟦🔃",
                "⬛⬛🟦",
                "⬛⬛🟩",
            ])))
            .build()
            .unwrap(),
        LevelBuilder::new()
            .name("Twirl")
            .action_limit(4)
            .insert(from_pictogram(&rows(&[
                "🧑🔃🔃🔃🔃🔃🟩",
            ])))
            .build()
            .unwrap(),
        LevelBuilder::new()
            .name("Dizzy")
            .action_limit(4)
            .insert(transform(
                CLOCKWISE,
                from_pictogram(&rows(&[
                    "⬛⬛⬛⬛🟩",
                    "⬛⬛⬛⬛🔃",
                    "⬛⬛⬛⬛🔃",
                    "⬛⬛⬛⬛🔃",
                    "🧑🔃🔃🔃🟦",
                ])),
            ))
            .build()
            .unwrap(),
        LevelBuilder::new()
            .name("Chess")
            .action_limit(5)
            .insert(transform(
                IDENTITY,
                from_pictogram(&rows(&[
                    "🔄🔃🔄🔃🔄🔃🟩",
                    "🔃🔄🔃🔄🔃🔄🔃",
                    "🔄🔃🔄🔃🔄🔃🔄",
                    "🧑🔄🔃🔄🔃🔄🔃",
                ])),
            ))
            .build()
            .unwrap(),
        LevelBuilder::new()
            .name("Mirror")
            .action_limit(1)
            .insert(from_pictogram(&rows(&[
                "🧑🟦🟦🟩",
                "⬛⬛⬛⬛",
                "🟩🟦🟦👩",
            ])))
            .build()
            .unwrap(),
        LevelBuilder::new()
            .name("Convergence")
            .action_limit(6)
            .command_challenge(4)
            .step_challenge(11)
            .waste_challenge(31)
            .insert(from_pictogram(&rows(&[
                "⬜⬜⬛⬛⬛⬛",
                "🧑⬜⬜⬜⬛⬛",
                "🟦🟦🟦🟦⬜⬛",
                "🟦🟦🟦🟦🟦🟩",
                "🟦🟦🟦🟦⬜⬛",
                "🧑⬜⬜⬜⬛⬛",
                "⬜⬛⬛⬛⬛⬛",
            ])))
            .build()
            .unwrap(),
        LevelBuilder::new()
            .name("Perpendicular")
            .action_limit(6)
            .command_challenge(4)
            .step_challenge(7)
            .waste_challenge(15)
            .insert(from_pictogram(&rows(&[
                "⬜⬜⬜⬜⬜⬜⬜⬜⬜",
                "⬜🟩🏂🏂⬜🏂🏂🟩⬜",
                "⬜🏂🏂🏂🏂🏂⬜🏂⬜",
                "⬜🏂⬜🏂🏂🏂🏂🏂⬜",
                "⬜🧑🏂🏂⬜🏂🏂🏂⬜",
                "⬜🏂⬜🏂🏂🏂⬜🏂⬜",
                "⬜🏂🏂⬜🏂🏂🏂🏂⬜",
                "⬜⬜🏂🏂🧓🏂🏂⬜⬜",
                "⬜⬜⬜⬜⬜⬜⬜⬜⬜",
            ])))
            .build()
            .unwrap(),
        LevelBuilder::new()
            .name("Transcendence")
            .action_limit(6)
            .command_challenge(6)
            .step_challenge(18)
            .waste_challenge(31)
            .insert(from_pictogram(&rows(&[
                "⬛⬛⬛⬛⬛⬛⬛🧒⬛⬛⬛⬛⬛⬛⬛",
                "⬛⬛⬛⬛⬛⬛🧒🟦🧒⬛⬛⬛⬛⬛⬛",
                "⬛⬛⬛⬛⬛🧒🟦🟦🟦🧒⬛⬛⬛⬛⬛",
                "⬛⬛⬛⬜🧒🟦🟦🟦🟦🟦🧒⬜⬛⬛⬛",
                "⬛⬛⬛🧑⬜🟦🟦🟦🟦🟦⬜👩⬛⬛⬛",
                "⬛⬛🧑🟦🟦⬜🟦🟦🟦⬜🟦🟦👩⬛⬛",
                "⬛🧑🟦🟦🟦🟦⬜🟦⬜🟦🟦🟦🟦👩⬛",
                "🧑🟦🟦🟦🟦🟦🟦🟩🟦🟦🟦🟦🟦🟦👩",
                "⬛🧑🟦🟦🟦🟦⬜🟦⬜🟦🟦🟦🟦👩⬛",
                "⬛⬛🧑🟦🟦⬜🟦🟦🟦⬜🟦🟦👩⬛⬛",
                "⬛⬛⬛🧑⬜🟦🟦🟦🟦🟦⬜👩⬛⬛⬛",
                "⬛⬛⬛⬜🧓🟦🟦🟦🟦🟦🧓⬜⬛⬛⬛",
                "⬛⬛⬛⬛⬛🧓🟦🟦🟦🧓⬛⬛⬛⬛⬛",
                "⬛⬛⬛⬛⬛⬛🧓🟦🧓⬛⬛⬛⬛⬛⬛",
                "⬛⬛⬛⬛⬛⬛⬛🧓⬛⬛⬛⬛⬛⬛⬛",
            ])))
            .build()
            .unwrap(),
        LevelBuilder::new()
            .name("Pivot")
            .action_limit(2)
            .insert(from_pictogram(&rows(&[
                "🧑🔃🟩",
            ])))
            .build()
            .unwrap(),
        LevelBuilder::new()
            .name("Zigzag")
            .action_limit(4)
            .insert(transform(
                IDENTITY,
                from_pictogram(&rows(&[
                    "🧑🔄🔄⬛⬛⬛",
                    "⬛⬛🔄⬛⬛⬛",
                    "⬛⬛🔄🔄🟩⬛",
                ])),
            ))
            .build()
            .unwrap(),
        LevelBuilder::new()
            .name("Progress")
            .actions(vec![Action::Forward])
            .action_limit(1)
            .insert(transform(
                IDENTITY,
                from_pictogram(&rows(&[
                    "⬛⬛⬜",
                    "🟩🧑🔄",
                ])),
            ))
            .build()
            .unwrap(),
        LevelBuilder::new()
            .name("Support")
            .action_limit(3)
            .insert(transform(
                IDENTITY,
                from_pictogram(&rows(&[
                    "⬛⬜",
                    "🧑🔄",
                    "⬛🟦",
                    "🟩🟦",
                ])),
            ))
            .build()
            .unwrap(),
        LevelBuilder::new()
            .name("Trapped")
            .action_limit(4)
            .insert(transform(
                CLOCKWISE,
                from_pictogram(&rows(&[
                    "⬛⬜⬛⬛⬛",
                    "🧑🔄🟦⬛⬛",
                    "⬛⬜🟦🟦🟩",
                ])),
            ))
            .build()
            .unwrap(),
        LevelBuilder::new()
            .name("Snail")
            .action_limit(3)
            .insert(transform(
                ANTI_CLOCKWISE,
                from_pictogram(&rows(&[
                    "⬛⬜",
                    "🧑🔄",
                    "🟦🟦",
                    "⬛🔃",
                    "⬛🟩",
                ])),
            ))
            .build()
            .unwrap(),
        LevelBuilder::new()
            .name("Squeeze")
            .action_limit(6)
            .command_challenge(5)
            .step_challenge(11)
            .waste_challenge(23)
            .insert(transform(
                CLOCKWISE,
                from_pictogram(&rows(&[
                    "⬛🟩🟦🔄⬛",
                    "⬛⬜🟦⬜⬛",
                    "⬛🟦🔃🟦⬛",
                    "⬛🟦🔃🟦⬛",
                    "⬛🔄⬜🔄⬛",
                    "⬛🟦🟦🧑⬛",
                ])),
            ))
            .build()
            .unwrap(),
        LevelBuilder::new()
            .name("Popsicle")
            .action_limit(7)
            .command_challenge(5)
            .step_challenge(17)
            .waste_challenge(58)
            .insert(transform(
                IDENTITY,
                from_pictogram(&rows(&[
                    "⬛⬜⬜⬜⬛",
                    "⬜🔄🟦🔃⬜",
                    "⬜🟦🟦🔃⬜",
                    "⬜🔄🟦🔃⬜",
                    "⬜🟦⬛🟦⬜",
                    "⬜🔄⬛🔃⬜",
                    "⬛🧑⬛🟩⬛",
                ])),
            ))
            .build()
            .unwrap(),
        LevelBuilder::new()
            .name("Spinors")
            .action_limit(5)
            .command_challenge(2)
            .step_challenge(10)
            .waste_challenge(36)
            .insert(from_pictogram(&rows(&[
                "🔃🔃🔄🟩",
                "🔃🔃🔄🟦",
                "🔄🔄🔃🔄",
                "🔃🔄🔃🔄",
                "🟦🔄🔃🔃",
                "🧑🔃🔄🔃",
                ])))
            .build()
            .unwrap(),
        LevelBuilder::new()
            .name("Swirl")
            .action_limit(4)
            .insert(transform(
                IDENTITY,
                from_pictogram(&rows(&[
                    "⬛⬛⬛⬛⬛⬜⬛",
                    "⬛🧑🏂🔄🏂🔄⬛",
                    "⬛⬛🏂🏂🏂🏂⬛",
                    "⬛🟩🏂⬛🏂🔄⬛",
                    "⬛🏂🏂🏂🏂🏂⬛",
                    "⬛🔄🏂🔄🏂🔄⬜",
                    "⬛⬜⬛⬛⬛⬛⬛",
                ])),
            ))
            .build()
            .unwrap(),
        LevelBuilder::new()
            .name("Blizzard")
            .action_limit(8)
            .command_challenge(3)
            .step_challenge(8)
            .waste_challenge(70)
            .insert(transform(
                IDENTITY,
                from_pictogram(&rows(&[
                    "⬜⬜⬜⬜⬜⬜⬜⬜⬜⬜⬜",
                    "⬜🔄🏂🏂🏂🏂🏂🏂🏂🔄⬜",
                    "⬜🏂🔄🏂🏂🏂🏂🏂🟦🏂⬜",
                    "⬜🏂🏂🔃🏂🟦🔃🏂🏂🏂⬜",
                    "⬜🏂🏂🏂🧑⬜🟩🟦🏂🏂⬜",
                    "⬜🏂🏂🔃🏂🟦🔃🏂🏂🏂⬜",
                    "⬜🏂🟦🏂🏂🏂🏂🏂🏂🟦⬜",
                    "⬜🔄🏂🏂🔄⬜🏂🏂🔄🔄⬜",
                    "⬜⬜⬜⬜⬜⬜⬜⬜⬜⬜⬜",
                ])),
            ))
            .build()
            .unwrap(),
        LevelBuilder::new()
            .name("Samsara")
            .action_limit(6)
            .command_challenge(3)
            .step_challenge(11)
            .waste_challenge(55)
            .insert(from_pictogram(&rows(&[
                "⬛⬜⬛⬛⬜⬛⬜⬛⬛⬜⬛",
                "⬜🟩🏂🏂🔃🏂🔃🏂🏂🔄⬜",
                "⬛🏂🏂🏂🏂🏂🏂🏂🏂🏂⬛",
                "⬛🏂🏂🏂🔄🏂🏂🏂🏂🏂⬛",
                "⬜🔃🏂🏂🧓🏂🧑🔄🏂🔄⬜",
                "⬛🏂🏂🏂🏂⬛🏂🏂🏂🏂⬛",
                "⬜🔃🏂🔄👩🏂🧒🏂🏂🔄⬜",
                "⬛🏂🏂🏂🏂🏂🔄🏂🏂🏂⬛",
                "⬛🏂🏂🏂🏂🏂🏂🏂🏂🏂⬛",
                "⬜🏂🏂🏂🔄🏂🔄🏂🏂🟩⬜",
                "⬛⬜⬛⬛⬜⬛⬜⬛⬛⬜⬛",
            ])))
            .build()
            .unwrap(),
    ]
}

fn level_from_name(name: &str) -> Level {
    scenes()
        .into_iter()
        .find(|level| level.name == name)
        .unwrap()
}

#[test]
fn level_lost() {
    assert_eq!(
        depth_first_search(&level_from_name("Lost")),
        vec![Solution {
            path: vec![Action::Forward],
            solution_size: 1,
            steps: 4
        }]
    );
}

#[test]
fn level_arbitrary() {
    assert_eq!(
        depth_first_search(&level_from_name("Arbitrary")),
        vec![
            Solution {
                path: vec![Action::Forward, Action::Right],
                solution_size: 2,
                steps: 6
            },
            Solution {
                path: vec![Action::Right, Action::Forward],
                solution_size: 2,
                steps: 6
            }
        ]
    );
}

#[test]
fn level_pothole() {
    assert_eq!(
        depth_first_search(&level_from_name("Pothole")),
        vec![Solution {
            path: vec![Action::Left, Action::Forward],
            solution_size: 2,
            steps: 6
        }]
    );
}

#[test]
fn level_noise() {
    assert_eq!(
        depth_first_search(&level_from_name("Noise")),
        vec![Solution {
            path: vec![Left, Left, Forward],
            solution_size: 3,
            steps: 6
        }]
    );
}

#[test]
fn level_obstructions() {
    assert_eq!(
        depth_first_search(&level_from_name("Obstructions")),
        vec![
            Solution {
                path: vec![Action::Forward, Action::Right],
                solution_size: 2,
                steps: 6
            },
            Solution {
                path: vec![Action::Right, Action::Forward],
                solution_size: 2,
                steps: 6
            },
            Solution {
                path: vec![Action::Forward, Action::Forward, Action::Right],
                solution_size: 3,
                steps: 6
            },
            Solution {
                path: vec![Action::Forward, Action::Right, Action::Right],
                solution_size: 3,
                steps: 6
            },
            Solution {
                path: vec![Action::Right, Action::Forward, Action::Forward],
                solution_size: 3,
                steps: 6
            },
            Solution {
                path: vec![Action::Right, Action::Right, Action::Forward],
                solution_size: 3,
                steps: 6
            }
        ]
    );
}

#[test]
fn level_choices() {
    let solutions = depth_first_search(&level_from_name("Choices"));

    assert_eq!(
        smallest_solutions(&solutions),
        vec![
            Solution {
                path: vec![Action::Forward, Action::Forward, Action::Right],
                solution_size: 3,
                steps: 14
            },
            Solution {
                path: vec![Action::Forward, Action::Right, Action::Forward],
                solution_size: 3,
                steps: 13
            },
            Solution {
                path: vec![Action::Right, Action::Forward, Action::Forward],
                solution_size: 3,
                steps: 12
            }
        ]
    );

    // assert_eq!(largest_solutions(&solutions), vec![]);

    assert_eq!(
        fastest_solutions(&solutions),
        vec![Solution {
            path: vec![Right, Forward, Forward, Forward],
            solution_size: 4,
            steps: 8
        }]
    );

    assert_eq!(
        slowest_solutions(&solutions),
        [Solution {
            path: vec![Forward, Forward, Right, Left, Right],
            solution_size: 5,
            steps: 22
        }]
    );
}

#[test]
fn level_precarious() {
    let solutions = depth_first_search(&level_from_name("Precarious"));

    assert_eq!(
        smallest_solutions(&solutions),
        vec![Solution {
            path: vec![Left, Forward, Forward, Forward],
            solution_size: 4,
            steps: 8
        }]
    );

    // assert_eq!(largest_solutions(&solutions), vec![]);

    assert_eq!(
        fastest_solutions(&solutions),
        vec![Solution {
            path: vec![Left, Forward, Forward, Forward],
            solution_size: 4,
            steps: 8
        }]
    );

    assert_eq!(
        slowest_solutions(&solutions),
        [Solution {
            path: vec![Forward, Forward, Forward, Left, Backward],
            solution_size: 5,
            steps: 13
        }]
    );
}

#[test]
fn level_hook() {
    let solutions = depth_first_search(&level_from_name("Hook"));

    assert_eq!(
        smallest_solutions(&solutions),
        vec![
            Solution {
                path: vec![Forward, Forward, Right, Left],
                solution_size: 4,
                steps: 7
            },
            Solution {
                path: vec![Forward, Left, Forward, Right],
                solution_size: 4,
                steps: 12
            },
            Solution {
                path: vec![Left, Forward, Forward, Right],
                solution_size: 4,
                steps: 8
            }
        ]
    );

    // assert_eq!(largest_solutions(&solutions), vec![]);

    assert_eq!(
        fastest_solutions(&solutions),
        vec![Solution {
            path: vec![Forward, Forward, Right, Left],
            solution_size: 4,
            steps: 7
        }]
    );

    assert_eq!(
        slowest_solutions(&solutions),
        vec![
            Solution {
                path: vec![Forward, Left, Forward, Right, Forward],
                solution_size: 5,
                steps: 14
            },
            Solution {
                path: vec![Forward, Left, Forward, Right, Right],
                solution_size: 5,
                steps: 14
            }
        ]
    );
}

#[test]
fn level_crucible() {
    let solutions = depth_first_search(&level_from_name("Crucible"));

    assert_eq!(
        smallest_solutions(&solutions),
        vec![
            Solution {
                path: vec![Forward, Forward, Right, Right, Backward, Forward, Left,],
                solution_size: 7,
                steps: 19,
            },
            Solution {
                path: vec![Forward, Right, Right, Backward, Forward, Left, Forward,],
                solution_size: 7,
                steps: 18,
            },
            Solution {
                path: vec![Forward, Left, Forward, Forward, Right, Right, Backward,],
                solution_size: 7,
                steps: 14,
            },
            Solution {
                path: vec![Left, Forward, Forward, Right, Right, Backward, Forward,],
                solution_size: 7,
                steps: 20,
            },
        ]
    );

    // assert_eq!(largest_solutions(&solutions), vec![]);

    assert_eq!(
        fastest_solutions(&solutions),
        vec![Solution {
            path: vec![Forward, Left, Forward, Forward, Right, Right, Backward,],
            solution_size: 7,
            steps: 14,
        },]
    );

    assert_eq!(
        slowest_solutions(&solutions),
        vec![Solution {
            path: vec![Left, Forward, Right, Forward, Right, Right, Backward, Forward,],
            solution_size: 8,
            steps: 23,
        },]
    );
}

#[test]
fn level_rift() {
    let solutions = depth_first_search(&level_from_name("Rift"));

    assert_eq!(
        smallest_solutions(&solutions),
        vec![Solution {
            path: vec![Left, Forward, Forward, Right, Right, Backward],
            solution_size: 6,
            steps: 24
        }],
        "smallest"
    );
    assert_eq!(
        fastest_solutions(&solutions),
        vec![
            Solution {
                path: vec![Right, Backward, Right, Forward, Forward, Forward, Left],
                solution_size: 7,
                steps: 14
            },
            Solution {
                path: vec![Left, Forward, Forward, Forward, Right, Backward, Right],
                solution_size: 7,
                steps: 14
            },
            Solution {
                path: vec![Left, Forward, Forward, Right, Right, Right, Backward],
                solution_size: 7,
                steps: 14
            }
        ],
        "fastest"
    );
    assert_eq!(
        slowest_solutions(&solutions),
        vec![Solution {
            path: vec![Left, Forward, Forward, Right, Right, Backward],
            solution_size: 6,
            steps: 24
        }],
        "slowest"
    );
}

#[test]
fn level_overshoot() {
    let solutions = depth_first_search(&level_from_name("Overshoot"));

    assert_eq!(
        smallest_solutions(&solutions),
        vec![Solution {
            path: vec![Forward, Left, Backward, Right,],
            solution_size: 4,
            steps: 4,
        }],
    );

    // assert_eq!(largest_solutions(&solutions), vec![]);

    // assert_eq!(fastest_solutions(&solutions), vec![]);

    // assert_eq!(slowest_solutions(&solutions), vec![]);
}

#[test]
fn level_glide() {
    let solutions = depth_first_search(&level_from_name("Glide"));

    assert_eq!(
        smallest_solutions(&solutions),
        vec![Solution {
            path: vec![Backward, Left, Forward, Right],
            solution_size: 4,
            steps: 4,
        }],
    );

    // assert_eq!(largest_solutions(&solutions), vec![]);

    // assert_eq!(fastest_solutions(&solutions), vec![]);

    // assert_eq!(slowest_solutions(&solutions), vec![]);
}

#[test]
fn level_loops() {
    let solutions = depth_first_search(&level_from_name("Loops"));

    assert_eq!(
        smallest_solutions(&solutions),
        vec![
            Solution {
                path: vec![Forward, Left, Backward, Right],
                solution_size: 4,
                steps: 13
            },
            Solution {
                path: vec![Left, Backward, Right, Forward],
                solution_size: 4,
                steps: 12
            }
        ],
    );

    // assert_eq!(largest_solutions(&solutions), vec![]);

    assert_eq!(
        fastest_solutions(&solutions),
        [Solution {
            path: vec![Left, Backward, Right, Forward, Forward],
            solution_size: 5,
            steps: 9,
        }]
    );

    assert_eq!(
        slowest_solutions(&solutions),
        vec![Solution {
            path: vec![Forward, Left, Backward, Right],
            solution_size: 4,
            steps: 13,
        },]
    );
}

#[test]
fn level_gauntlet() {
    let solutions = depth_first_search(&level_from_name("Gauntlet"));

    assert_eq!(
        smallest_solutions(&solutions),
        vec![
            Solution {
                path: vec![Right, Forward, Left, Forward, Backward,],
                solution_size: 5,
                steps: 9,
            },
            Solution {
                path: vec![Left, Forward, Backward, Right, Forward,],
                solution_size: 5,
                steps: 7,
            },
        ]
    );

    // assert_eq!(largest_solutions(&solutions), vec![]);

    assert_eq!(
        fastest_solutions(&solutions),
        vec![Solution {
            path: vec![Left, Forward, Backward, Right, Forward,],
            solution_size: 5,
            steps: 7,
        },]
    );

    assert_eq!(
        slowest_solutions(&solutions),
        vec![Solution {
            path: vec![Right, Forward, Left, Forward, Backward,],
            solution_size: 5,
            steps: 9,
        }]
    );
}

#[test]
fn level_esky() {
    let solutions = depth_first_search(&level_from_name("Esky"));

    assert_eq!(
        smallest_solutions(&solutions),
        vec![
            Solution {
                path: vec![Forward, Right, Backward, Left],
                solution_size: 4,
                steps: 13
            },
            Solution {
                path: vec![Backward, Left, Forward, Right],
                solution_size: 4,
                steps: 15
            },
            Solution {
                path: vec![Left, Forward, Right, Backward],
                solution_size: 4,
                steps: 14
            }
        ],
        "smallest"
    );

    assert_eq!(
        fastest_solutions(&solutions),
        vec![Solution {
            path: vec![Forward, Right, Forward, Backward, Left],
            solution_size: 5,
            steps: 8
        }],
        "fastest"
    );

    assert_eq!(
        slowest_solutions(&solutions),
        vec![Solution {
            path: vec![Backward, Left, Forward, Right],
            solution_size: 4,
            steps: 15
        }],
        "slowest"
    );
}

#[test]
fn level_divert() {
    let solutions = depth_first_search(&level_from_name("Divert"));

    assert_eq!(
        smallest_solutions(&solutions),
        vec![Solution {
            path: vec![Forward],
            solution_size: 1,
            steps: 4
        }]
    );

    assert_eq!(
        fastest_solutions(&solutions),
        vec![Solution {
            path: vec![Forward],
            solution_size: 1,
            steps: 4
        }]
    );

    assert_eq!(
        slowest_solutions(&solutions),
        vec![Solution {
            path: vec![Forward],
            solution_size: 1,
            steps: 4
        }]
    );
}

#[test]
fn level_twirl() {
    let solutions = depth_first_search(&level_from_name("Twirl"));

    assert_eq!(
        smallest_solutions(&solutions),
        vec![
            Solution {
                path: vec![Forward, Left, Forward, Right,],
                solution_size: 4,
                steps: 10,
            },
            Solution {
                path: vec![Forward, Left, Backward, Right,],
                solution_size: 4,
                steps: 6,
            },
            Solution {
                path: vec![Forward, Left, Backward, Left,],
                solution_size: 4,
                steps: 10,
            },
        ],
        "smallest solutions"
    );

    assert_eq!(
        fastest_solutions(&solutions),
        vec![Solution {
            path: vec![Forward, Left, Backward, Right,],
            solution_size: 4,
            steps: 6,
        }],
        "fastest solutions",
    );

    assert_eq!(
        slowest_solutions(&solutions),
        vec![
            Solution {
                path: vec![Forward, Left, Forward, Right,],
                solution_size: 4,
                steps: 10,
            },
            Solution {
                path: vec![Forward, Left, Backward, Left,],
                solution_size: 4,
                steps: 10,
            }
        ],
        "slowest solutions",
    );
}

#[test]
fn level_dizzy() {
    let solutions = depth_first_search(&level_from_name("Dizzy"));

    assert_eq!(
        smallest_solutions(&solutions),
        vec![Solution {
            path: vec![Right, Forward, Left, Backward],
            solution_size: 4,
            steps: 8,
        }],
        "smallest solutions"
    );

    assert_eq!(
        fastest_solutions(&solutions),
        vec![Solution {
            path: vec![Right, Forward, Left, Backward],
            solution_size: 4,
            steps: 8,
        }],
        "fastest solutions",
    );

    assert_eq!(
        slowest_solutions(&solutions),
        vec![Solution {
            path: vec![Right, Forward, Left, Backward],
            solution_size: 4,
            steps: 8,
        }],
        "slowest solutions",
    );
}

#[test]
fn level_chess() {
    let solutions = depth_first_search(&level_from_name("Chess"));

    assert_eq!(
        smallest_solutions(&solutions),
        vec![Solution {
            path: vec![Left, Right, Forward, Right,],
            solution_size: 4,
            steps: 9,
        },],
        "smallest solutions"
    );

    // assert_eq!(
    //     fastest_solutions(&solutions),
    //     vec![Solution {
    //         path: vec![Left, Right, Forward, Right,],
    //         solution_size: 4,
    //         steps: 9,
    //     }],
    //     "fastest solutions",
    // );

    assert_eq!(
        slowest_solutions(&solutions),
        vec![Solution {
            path: vec![Left, Right, Backward, Right, Right],
            solution_size: 5,
            steps: 25,
        }],
        "slowest solutions",
    );
}

#[test]
fn mirror() {
    let solutions = depth_first_search(&level_from_name("Mirror"));

    assert_eq!(
        solutions,
        vec![Solution {
            path: vec![Forward],
            solution_size: 1,
            steps: 3
        }]
    );
}

#[test]
fn convergence() {
    let solutions = depth_first_search(&level_from_name("Convergence"));

    // tracing::info!(smallest = ?smallest_solutions(&solutions));
    // tracing::info!(fastest = ?fastest_solutions(&solutions));
    // tracing::info!(slowest = ?slowest_solutions(&solutions));
    // panic!();

    assert_eq!(
        smallest_solutions(&solutions),
        vec![
            Solution {
                path: vec![Forward, Right, Right, Left],
                solution_size: 4,
                steps: 21
            },
            Solution {
                path: vec![Forward, Left, Left, Right],
                solution_size: 4,
                steps: 21
            },
            Solution {
                path: vec![Right, Right, Left, Forward],
                solution_size: 4,
                steps: 20
            },
            Solution {
                path: vec![Left, Left, Right, Forward],
                solution_size: 4,
                steps: 20
            }
        ]
    );
    assert_eq!(
        fastest_solutions(&solutions),
        vec![
            Solution {
                path: vec![Right, Forward, Left, Forward, Forward, Right],
                solution_size: 6,
                steps: 11
            },
            Solution {
                path: vec![Right, Right, Left, Forward, Forward, Forward],
                solution_size: 6,
                steps: 11
            },
            Solution {
                path: vec![Left, Forward, Right, Forward, Forward, Left],
                solution_size: 6,
                steps: 11
            },
            Solution {
                path: vec![Left, Left, Right, Forward, Forward, Forward],
                solution_size: 6,
                steps: 11
            }
        ]
    );
    assert_eq!(
        slowest_solutions(&solutions),
        vec![
            Solution {
                path: vec![Forward, Right, Right, Right, Right, Left],
                solution_size: 6,
                steps: 31
            },
            Solution {
                path: vec![Forward, Right, Right, Left, Right, Left],
                solution_size: 6,
                steps: 31
            },
            Solution {
                path: vec![Forward, Right, Right, Left, Left, Right],
                solution_size: 6,
                steps: 31
            },
            Solution {
                path: vec![Forward, Right, Left, Right, Right, Left],
                solution_size: 6,
                steps: 31
            },
            Solution {
                path: vec![Forward, Right, Left, Left, Left, Right],
                solution_size: 6,
                steps: 31
            },
            Solution {
                path: vec![Forward, Left, Right, Right, Right, Left],
                solution_size: 6,
                steps: 31
            },
            Solution {
                path: vec![Forward, Left, Right, Left, Left, Right],
                solution_size: 6,
                steps: 31
            },
            Solution {
                path: vec![Forward, Left, Left, Right, Right, Left],
                solution_size: 6,
                steps: 31
            },
            Solution {
                path: vec![Forward, Left, Left, Right, Left, Right],
                solution_size: 6,
                steps: 31
            },
            Solution {
                path: vec![Forward, Left, Left, Left, Left, Right],
                solution_size: 6,
                steps: 31
            }
        ]
    );
}

#[test]
fn perpendicular() {
    let solutions = depth_first_search(&level_from_name("Perpendicular"));

    // tracing::info!(smallest = ?smallest_solutions(&solutions));
    // tracing::info!(fastest = ?fastest_solutions(&solutions));
    // tracing::info!(slowest = ?slowest_solutions(&solutions));
    // panic!();

    assert_eq!(
        smallest_solutions(&solutions),
        vec![
            Solution {
                path: vec![Forward, Left, Forward, Right],
                solution_size: 4,
                steps: 7
            },
            Solution {
                path: vec![Left, Forward, Right, Forward],
                solution_size: 4,
                steps: 9
            }
        ]
    );

    assert_eq!(
        fastest_solutions(&solutions),
        vec![
            Solution {
                path: vec![Forward, Left, Forward, Right],
                solution_size: 4,
                steps: 7
            },
            Solution {
                path: vec![Forward, Left, Forward, Right, Forward, Left],
                solution_size: 6,
                steps: 7
            }
        ]
    );

    assert_eq!(
        slowest_solutions(&solutions),
        vec![Solution {
            path: vec![Right, Forward, Left, Backward, Left, Forward],
            solution_size: 6,
            steps: 15
        }]
    );
}

#[test]
fn transcendence() {
    let solutions = depth_first_search(&level_from_name("Transcendence"));

    // tracing::info!(smallest = ?smallest_solutions(&solutions));
    // tracing::info!(fastest = ?fastest_solutions(&solutions));
    // tracing::info!(slowest = ?slowest_solutions(&solutions));
    // panic!();

    assert_eq!(
        smallest_solutions(&solutions),
        vec![
            Solution {
                path: vec![Forward, Right, Forward, Left, Left, Forward],
                solution_size: 6,
                steps: 18
            },
            Solution {
                path: vec![Forward, Right, Left, Left, Forward, Right],
                solution_size: 6,
                steps: 23
            },
            Solution {
                path: vec![Forward, Right, Left, Left, Right, Forward],
                solution_size: 6,
                steps: 19
            },
            Solution {
                path: vec![Forward, Left, Forward, Right, Right, Forward],
                solution_size: 6,
                steps: 18
            },
            Solution {
                path: vec![Forward, Left, Right, Right, Forward, Left],
                solution_size: 6,
                steps: 23
            },
            Solution {
                path: vec![Forward, Left, Right, Right, Left, Forward],
                solution_size: 6,
                steps: 19
            }
        ]
    );
    assert_eq!(
        fastest_solutions(&solutions),
        vec![
            Solution {
                path: vec![Forward, Right, Forward, Left, Left, Forward],
                solution_size: 6,
                steps: 18
            },
            Solution {
                path: vec![Forward, Left, Forward, Right, Right, Forward],
                solution_size: 6,
                steps: 18
            }
        ]
    );
    println!("{:?}", slowest_solutions(&solutions));
    assert_eq!(
        slowest_solutions(&solutions),
        [
            Solution {
                path: vec![Forward, Right, Left, Left, Forward, Right],
                solution_size: 6,
                steps: 23
            },
            Solution {
                path: vec![Forward, Left, Right, Right, Forward, Left],
                solution_size: 6,
                steps: 23
            }
        ]
    );
}

#[test]
fn level_pivot() {
    let solutions = depth_first_search(&level_from_name("Pivot"));

    assert_eq!(
        smallest_solutions(&solutions),
        vec![
            Solution {
                path: vec![Forward, Left],
                solution_size: 2,
                steps: 2,
            },
        ],
        "smallest solutions"
    );

    assert_eq!(
        slowest_solutions(&solutions),
        vec![
            Solution {
                path: vec![Forward, Left],
                solution_size: 2,
                steps: 2,
            },
        ],
        "slowest solutions"
    );
}

#[test]
fn level_zigzag() {
    let solutions = depth_first_search(&level_from_name("Zigzag"));

    assert_eq!(
        smallest_solutions(&solutions),
        vec![
            Solution {
                path: vec![Forward, Right, Left, Forward],
                solution_size: 4,
                steps: 6,
            },
        ],
        "smallest solutions"
    );

    assert_eq!(
        slowest_solutions(&solutions),
        vec![
            Solution {
                path: vec![Forward, Right, Left, Forward],
                solution_size: 4,
                steps: 6,
            },
        ],
        "slowest solutions"
    );
}

#[test]
fn level_progress() {
    let solutions = depth_first_search(&level_from_name("Progress"));

    assert_eq!(
        smallest_solutions(&solutions),
        vec![],
        "smallest solutions"
    );
}

#[test]
fn level_support() {
    let solutions = depth_first_search(&level_from_name("Support"));

    assert_eq!(
        smallest_solutions(&solutions),
        vec![],
        "smallest solutions"
    );
}

#[test]
fn level_snail() {
    let solutions = depth_first_search(&level_from_name("Snail"));

    assert_eq!(
        smallest_solutions(&solutions),
        vec![],
        "smallest solutions"
    );

    assert_eq!(
        fastest_solutions(&solutions),
        vec![],
        "fastest solutions"
    );

    assert_eq!(
        slowest_solutions(&solutions),
        vec![],
        "slowest solutions"
    );
}

#[test]
fn level_trapped() {
    let solutions = depth_first_search(&level_from_name("Trapped"));

    assert_eq!(
        smallest_solutions(&solutions),
        vec![],
        "smallest solutions"
    );

    assert_eq!(
        fastest_solutions(&solutions),
        vec![],
        "fastest solutions"
    );

    assert_eq!(
        slowest_solutions(&solutions),
        vec![],
        "slowest solutions"
    );
}

#[test]
fn level_squeeze() {
    let solutions = depth_first_search(&level_from_name("Squeeze"));

    assert_eq!(
        smallest_solutions(&solutions),
        vec![
            Solution {
                path: vec![Forward, Right, Forward, Forward, Left, Right],
                solution_size: 6,
                steps: 11,
            },
            Solution {
                path: vec![Forward, Right, Forward, Left, Right, Left],
                solution_size: 6,
                steps: 21,
            },
            Solution {
                path: vec![Left, Right, Forward, Right, Forward, Forward],
                solution_size: 6,
                steps: 13,
            },
        ],
        "smallest solutions"
    );

    assert_eq!(
        fastest_solutions(&solutions),
        vec![
            Solution {
                path: vec![Forward, Right, Forward, Forward, Left, Right],
                solution_size: 6,
                steps: 11,
            },
        ],
        "fastest solutions"
    );

    assert_eq!(
        slowest_solutions(&solutions),
        vec![
            Solution {
                path: vec![Forward, Right, Forward, Left, Right, Left],
                solution_size: 6,
                steps: 21,
            },
        ],
        "slowest solutions"
    );
}

#[test]
fn level_spinors() {
    let solutions = depth_first_search(&level_from_name("Spinors"));

    assert_eq!(
        smallest_solutions(&solutions),
        vec![
            Solution {
                path: vec![Forward, Backward],
                solution_size: 2,
                steps: 12,
            },
        ],
        "smallest solutions"
    );

    assert_eq!(
        fastest_solutions(&solutions),
        vec![
            Solution {
                path: vec![Forward, Backward, Forward, Right, Left],
                solution_size: 5,
                steps: 10,
            },
            Solution {
                path: vec![Left, Forward, Forward, Right, Forward],
                solution_size: 5,
                steps: 10,
            },
        ],
        "fastest solutions"
    );

    assert_eq!(
        slowest_solutions(&solutions),
        vec![
            Solution {
                path: vec![Forward, Left, Left, Backward, Right],
                solution_size: 5,
                steps: 36,
            },
        ],
        "slowest solutions"
    );
}

#[test]
fn level_popsicle() {
    let solutions = depth_first_search(&level_from_name("Popsicle"));

    assert_eq!(
        smallest_solutions(&solutions),
        vec![],
        "smallest solutions"
    );

    assert_eq!(
        fastest_solutions(&solutions),
        vec![],
        "fastest solutions"
    );

    assert_eq!(
        slowest_solutions(&solutions),
        vec![],
        "slowest solutions"
    );
}

#[test]
fn level_swirl() {
    let solutions = depth_first_search(&level_from_name("Swirl"));

    assert_eq!(
        smallest_solutions(&solutions),
        vec![],
        "smallest solutions"
    );

    assert_eq!(
        fastest_solutions(&solutions),
        vec![],
        "fastest solutions"
    );

    assert_eq!(
        slowest_solutions(&solutions),
        vec![],
        "slowest solutions"
    );
}

#[test]
fn level_blizzard() {
    let solutions = depth_first_search(&level_from_name("Blizzard"));

    assert_eq!(
        smallest_solutions(&solutions),
        vec![
            Solution {
                path: vec![Forward, Forward, Right, Backward, Backward],
                solution_size: 5,
                steps: 37,
            },
            Solution {
                path: vec![Forward, Forward, Backward, Backward, Left],
                solution_size: 5,
                steps: 44,
            },
            Solution {
                path: vec![Forward, Right, Right, Left, Left],
                solution_size: 5,
                steps: 20,
            },
            Solution {
                path: vec![Forward, Right, Backward, Backward, Forward],
                solution_size: 5,
                steps: 36,
            },
            Solution {
                path: vec![Forward, Right, Left, Forward, Right],
                solution_size: 5,
                steps: 21,
            },
            Solution {
                path: vec![Forward, Backward, Backward, Left, Forward],
                solution_size: 5,
                steps: 43,
            },
            Solution {
                path: vec![Forward, Left, Forward, Backward, Left],
                solution_size: 5,
                steps: 32,
            },
            Solution {
                path: vec![Right, Right, Backward, Left, Left],
                solution_size: 5,
                steps: 47,
            },
            Solution {
                path: vec![Right, Right, Left, Left, Forward],
                solution_size: 5,
                steps: 19,
            },
            Solution {
                path: vec![Right, Backward, Backward, Forward, Forward],
                solution_size: 5,
                steps: 35,
            },
            Solution {
                path: vec![Right, Backward, Left, Backward, Left],
                solution_size: 5,
                steps: 24,
            },
            Solution {
                path: vec![Right, Backward, Left, Left, Right],
                solution_size: 5,
                steps: 46,
            },
            Solution {
                path: vec![Right, Left, Forward, Right, Forward],
                solution_size: 5,
                steps: 20,
            },
            Solution {
                path: vec![Right, Left, Right, Backward, Left],
                solution_size: 5,
                steps: 23,
            },
            Solution {
                path: vec![Right, Left, Left, Forward, Right],
                solution_size: 5,
                steps: 18,
            },
            Solution {
                path: vec![Backward, Forward, Forward, Right, Backward],
                solution_size: 5,
                steps: 38,
            },
            Solution {
                path: vec![Backward, Right, Backward, Forward, Right],
                solution_size: 5,
                steps: 17,
            },
            Solution {
                path: vec![Backward, Backward, Forward, Forward, Right],
                solution_size: 5,
                steps: 39,
            },
            Solution {
                path: vec![Backward, Backward, Left, Forward, Forward],
                solution_size: 5,
                steps: 42,
            },
            Solution {
                path: vec![Backward, Left, Forward, Forward, Backward],
                solution_size: 5,
                steps: 41,
            },
            Solution {
                path: vec![Backward, Left, Right, Backward, Left],
                solution_size: 5,
                steps: 11,
            },
            Solution {
                path: vec![Backward, Left, Backward, Left, Right],
                solution_size: 5,
                steps: 18,
            },
            Solution {
                path: vec![Backward, Left, Left, Right, Right],
                solution_size: 5,
                steps: 15,
            },
            Solution {
                path: vec![Left, Forward, Forward, Backward, Backward],
                solution_size: 5,
                steps: 40,
            },
            Solution {
                path: vec![Left, Forward, Right, Right, Left],
                solution_size: 5,
                steps: 31,
            },
            Solution {
                path: vec![Left, Forward, Backward, Forward, Backward],
                solution_size: 5,
                steps: 20,
            },
            Solution {
                path: vec![Left, Forward, Backward, Left, Forward],
                solution_size: 5,
                steps: 31,
            },
            Solution {
                path: vec![Left, Forward, Left, Forward, Backward],
                solution_size: 5,
                steps: 13,
            },
            Solution {
                path: vec![Left, Right, Right, Backward, Left],
                solution_size: 5,
                steps: 48,
            },
            Solution {
                path: vec![Left, Right, Backward, Left, Backward],
                solution_size: 5,
                steps: 20,
            },
            Solution {
                path: vec![Left, Backward, Left, Right, Backward],
                solution_size: 5,
                steps: 12,
            },
            Solution {
                path: vec![Left, Left, Forward, Right, Right],
                solution_size: 5,
                steps: 32,
            },
            Solution {
                path: vec![Left, Left, Right, Right, Backward],
                solution_size: 5,
                steps: 49,
            },
        ],
        "smallest solutions"
    );

    assert_eq!(
        fastest_solutions(&solutions),
        vec![
            Solution {
                path: vec![Left, Forward, Backward, Backward, Forward, Right, Backward, Right],
                solution_size: 8,
                steps: 8,
            },
        ],
        "fastest solutions"
    );

    assert_eq!(
        slowest_solutions(&solutions),
        vec![
            Solution {
                path: vec![Right, Backward, Forward, Forward, Backward, Left, Left, Left],
                solution_size: 8,
                steps: 100,
            },
        ],
        "slowest solutions"
    );
}

#[test]
fn samsara() {
    let solutions = depth_first_search(&level_from_name("Samsara"));

    assert_eq!(
        smallest_solutions(&solutions),
        vec![
            Solution {
                path: vec![Forward, Right, Backward, Right, Backward, Right],
                solution_size: 6,
                steps: 30,
            },
            Solution {
                path: vec![Forward, Left, Forward, Left, Backward, Left],
                solution_size: 6,
                steps: 34,
            },
            Solution {
                path: vec![Right, Forward, Forward, Left, Backward, Left],
                solution_size: 6,
                steps: 27,
            },
            Solution {
                path: vec![Right, Forward, Left, Forward, Backward, Right],
                solution_size: 6,
                steps: 31,
            },
            Solution {
                path: vec![Backward, Forward, Left, Left, Backward, Right],
                solution_size: 6,
                steps: 28,
            },
            Solution {
                path: vec![Backward, Backward, Left, Forward, Left, Right],
                solution_size: 6,
                steps: 16,
            },
            Solution {
                path: vec![Backward, Left, Backward, Left, Backward, Right],
                solution_size: 6,
                steps: 35,
            },
            Solution {
                path: vec![Left, Forward, Right, Forward, Backward, Left],
                solution_size: 6,
                steps: 15,
            },
            Solution {
                path: vec![Left, Backward, Right, Backward, Left, Backward],
                solution_size: 6,
                steps: 32,
            },
            Solution {
                path: vec![Left, Backward, Backward, Right, Forward, Right],
                solution_size: 6,
                steps: 14,
            },
            Solution {
                path: vec![Left, Backward, Left, Right, Forward, Forward],
                solution_size: 6,
                steps: 30,
            },
            Solution {
                path: vec![Left, Left, Backward, Right, Backward, Forward],
                solution_size: 6,
                steps: 26,
            },
        ],
        "smallest solutions"
    );

    assert_eq!(
        fastest_solutions(&solutions),
        vec![
            Solution {
                path: vec![Left, Backward, Backward, Right, Forward, Right],
                solution_size: 6,
                steps: 14,
            },
        ],
        "fastest solutions"
    );

    assert_eq!(
        slowest_solutions(&solutions),
        vec![
            Solution {
                path: vec![Backward, Left, Backward, Left, Backward, Right],
                solution_size: 6,
                steps: 35,
            },
        ],
        "slowest solutions"
    );
}
