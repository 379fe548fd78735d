use range_remap::network::{self, count_turns, Game, Node};

fn name(s: &str) -> Vec<char> {
    s.chars().collect()
}

fn game(turns: &str, nodes: &[(&str, &str, &str)]) -> Game {
    Game {
        map: nodes
            .iter()
            .map(|(n, l, r)| Node { name: name(n), left: name(l), right: name(r) })
            .collect(),
        directions: turns.chars().collect(),
    }
}

fn short_network() -> Game {
    game(
        "RL",
        &[
            ("AAA", "BBB", "CCC"),
            ("BBB", "DDD", "EEE"),
            ("CCC", "ZZZ", "GGG"),
            ("DDD", "DDD", "DDD"),
            ("EEE", "EEE", "EEE"),
            ("GGG", "GGG", "GGG"),
            ("ZZZ", "ZZZ", "ZZZ"),
        ],
    )
}

fn ghost_network() -> Game {
    game(
        "LR",
        &[
            ("11A", "11B", "XXX"),
            ("11B", "XXX", "11Z"),
            ("11Z", "11B", "XXX"),
            ("22A", "22B", "XXX"),
            ("22B", "22C", "22C"),
            ("22C", "22Z", "22Z"),
            ("22Z", "22B", "22B"),
            ("XXX", "XXX", "XXX"),
        ],
    )
}

#[test]
fn day8_test_example() {
    let input =
        game("LLR", &[("AAA", "BBB", "BBB"), ("BBB", "AAA", "ZZZ"), ("ZZZ", "ZZZ", "ZZZ")]);
    assert_eq!(6, network::part1(&input));
}

#[test]
fn day8_test_example2() {
    assert_eq!(6, network::part2(&ghost_network()));
}

#[test]
fn turns_repeat_until_the_goal() {
    let looped = game("LLR", &[("AAA", "BBB", "BBB"), ("BBB", "AAA", "ZZZ"), ("ZZZ", "ZZZ", "ZZZ")]);
    assert_eq!(network::part1(&looped), 6);
    assert_eq!(network::part1(&short_network()), 2);
    assert_eq!(count_turns(&looped, &name("BBB"), false), 3);
    assert_eq!(count_turns(&looped, &name("BBB"), true), 3);
    assert_eq!(count_turns(&looped, &name("ZZZ"), false), 1);
    let direct = game("x", &[("AAA", "QQQ", "ZZZ")]);
    assert_eq!(network::part1(&direct), 1);
}

#[test]
fn walks_of_all_start_nodes_meet_at_their_common_multiple() {
    let g = ghost_network();
    assert_eq!(count_turns(&g, &name("11A"), true), 2);
    assert_eq!(count_turns(&g, &name("22A"), true), 3);
    assert_eq!(network::part2(&g), 6);
    assert_eq!(network::part2(&game("L", &[("QQQ", "QQQ", "QQQ")])), 1);
    assert_eq!(network::part2(&short_network()), 2);
}
