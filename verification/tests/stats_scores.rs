use search_rl::env::{Action, ActionMap};
use search_rl::mcts::{random_draw, NodeRef, Stats, Temperature, EXPLORE_FACTOR};
use search_rl::value::Value;

fn v(micros: i64) -> Value {
    Value::from_micros(micros)
}

fn stats(count: usize, total_value: i64, prior: i64) -> Stats {
    Stats { count, total_value: v(total_value), prior: v(prior) }
}

#[test]
fn node_ref_index_is_its_position() {
    assert_eq!(NodeRef(0).index(), 0);
    assert_eq!(NodeRef(9).index(), 9);
    assert_eq!(NodeRef(4), NodeRef(4));
}

#[test]
fn explore_factor_is_three() {
    assert_eq!(EXPLORE_FACTOR, 3_000_000);
}

#[test]
fn quality_is_the_mean_value() {
    assert_eq!(stats(4, 3_000_000, 0).quality(), v(750_000));
    assert_eq!(stats(3, -1_000_000, 0).quality(), v(-333_333));
    assert_eq!(stats(1, 100_000, 0).quality(), v(100_000));
}

#[test]
fn puct_of_an_action_never_taken_is_its_bonus() {
    let explore = v(3_000_000);
    assert_eq!(stats(0, 0, 500_000).puct(4, explore), v(3_000_000));
    assert_eq!(stats(0, 0, 500_000).puct(0, explore), v(0));
    assert_eq!(stats(0, 0, 333_333).puct(1, explore), v(999_999));
}

#[test]
fn puct_adds_quality_and_bonus() {
    let explore = v(3_000_000);
    assert_eq!(stats(3, 1_500_000, 250_000).puct(9, explore), v(1_062_500));
    assert_eq!(stats(3, 1_500_000, 250_000).puct(2, explore), v(765_164));
    assert_eq!(stats(1, -1_000_000, 500_000).puct(1, explore), v(-250_000));
}

#[test]
fn select_takes_the_first_of_tied_actions() {
    let tied = ActionMap::new(vec![stats(0, 0, 250_000); 4]);
    assert_eq!(tied.select(0, v(3_000_000)), Action(0));
    assert_eq!(tied.select(7, v(3_000_000)), Action(0));
    let one = ActionMap::new(vec![stats(0, 0, 1_000_000)]);
    assert_eq!(one.select(3, v(3_000_000)), Action(0));
}

#[test]
fn select_takes_the_largest_score() {
    let map = ActionMap::new(vec![
        stats(0, 0, 200_000),
        stats(0, 0, 500_000),
        stats(0, 0, 300_000),
    ]);
    assert_eq!(map.select(1, v(3_000_000)), Action(1));
    let later_tie = ActionMap::new(vec![
        stats(0, 0, 200_000),
        stats(0, 0, 500_000),
        stats(0, 0, 500_000),
    ]);
    assert_eq!(later_tie.select(1, v(3_000_000)), Action(1));
    let by_quality = ActionMap::new(vec![
        stats(2, -2_000_000, 500_000),
        stats(2, 2_000_000, 500_000),
    ]);
    assert_eq!(by_quality.select(4, v(3_000_000)), Action(1));
    let last = ActionMap::new(vec![
        stats(5, 0, 100_000),
        stats(5, 0, 100_000),
        stats(0, 0, 100_000),
    ]);
    assert_eq!(last.select(10, v(3_000_000)), Action(2));
}

#[test]
fn probabilities_are_weights_divided_by_their_sum() {
    let map = ActionMap::new(vec![stats(1, 0, 0), stats(3, 0, 0)]);
    assert_eq!(
        map.probability_iter(4, Temperature::from_inverse(1)),
        vec![v(250_000), v(750_000)]
    );
    let squared = ActionMap::new(vec![stats(3, 0, 0), stats(1, 0, 0)]);
    assert_eq!(
        squared.probability_iter(4, Temperature::from_inverse(2)),
        vec![v(900_000), v(100_000)]
    );
    let even = ActionMap::new(vec![stats(2, 0, 0), stats(2, 0, 0)]);
    assert_eq!(
        even.probability_iter(4, Temperature::from_inverse(1)),
        vec![v(500_000), v(500_000)]
    );
    let alone = ActionMap::new(vec![stats(7, 0, 0)]);
    assert_eq!(alone.probability_iter(7, Temperature::from_inverse(3)), vec![v(1_000_000)]);
    assert_eq!(map.largest_count(), 3);
    assert_eq!(ActionMap::new(Vec::<Stats>::new()).largest_count(), 0);
}

#[test]
fn probabilities_at_temperature_one_are_counts_divided_by_their_sum() {
    let one = Temperature::from_inverse(1);
    let thirds = ActionMap::new(vec![stats(1, 0, 0), stats(1, 0, 0), stats(1, 0, 0)]);
    assert_eq!(thirds.probability_iter(3, one), vec![v(333_333); 3]);
    let sixths = ActionMap::new(vec![stats(1, 0, 0), stats(5, 0, 0)]);
    assert_eq!(sixths.probability_iter(6, one), vec![v(166_667), v(833_333)]);
    let eighths = ActionMap::new(vec![stats(3, 0, 0), stats(4, 0, 0), stats(1, 0, 0)]);
    assert_eq!(eighths.probability_iter(8, one), vec![v(375_000), v(500_000), v(125_000)]);
    let large = ActionMap::new(vec![stats(usize::MAX, 0, 0), stats(usize::MAX, 0, 0)]);
    assert_eq!(large.probability_iter(0, one), vec![v(500_000), v(500_000)]);
    let none = ActionMap::new(vec![stats(0, 0, 0), stats(0, 0, 0)]);
    assert_eq!(none.probability_iter(0, one), vec![v(0), v(0)]);
}

#[test]
fn representable_probabilities_come_out_exact() {
    let map = ActionMap::new(vec![stats(3, 0, 0), stats(1, 0, 0)]);
    assert_eq!(
        map.probability_iter(4, Temperature::from_inverse(2)),
        vec![v(900_000), v(100_000)]
    );
    let halves = ActionMap::new(vec![stats(6, 0, 0), stats(2, 0, 0), stats(6, 0, 0)]);
    assert_eq!(
        halves.probability_iter(14, Temperature::from_inverse(3)),
        vec![v(490_909), v(18_182), v(490_909)]
    );
    let roots = ActionMap::new(vec![stats(9, 0, 0), stats(1, 0, 0)]);
    assert_eq!(
        roots.probability_iter(10, Temperature::from_ratio(2, 1)),
        vec![v(750_000), v(250_000)]
    );
    let fifths = ActionMap::new(vec![stats(2, 0, 0), stats(1, 0, 0)]);
    assert_eq!(
        fifths.probability_iter(3, Temperature::from_inverse(2)),
        vec![v(800_000), v(200_000)]
    );
}

#[test]
fn probabilities_are_within_a_millionth_of_the_exact_ones() {
    let counts = [5usize, 0, 17, 3, 17, 1, 9, 12];
    let map = ActionMap::new(counts.iter().map(|count| stats(*count, 0, 0)).collect());
    for inverse in [1u32, 2, 3, 5, 8] {
        let pi = map.probability_iter(64, Temperature::from_inverse(inverse));
        let powers: Vec<i128> = counts.iter().map(|count| (*count as i128).pow(inverse)).collect();
        let sum: i128 = powers.iter().sum();
        for a in 0..counts.len() {
            let distance = (pi[a].micros() as i128) * sum - 1_000_000 * powers[a];
            assert!(-sum < distance && distance < sum);
            if (1_000_000 * powers[a]) % sum == 0 {
                assert_eq!(pi[a].micros() as i128, 1_000_000 * powers[a] / sum);
            }
        }
    }
}

#[test]
fn probabilities_follow_the_formula_at_any_temperature() {
    let counts = [1usize, 50_000, 7, 300, 0, 12_345];
    let map = ActionMap::new(counts.iter().map(|count| stats(*count, 0, 0)).collect());
    let temperatures = [(1u32, 1u32), (5, 4), (2, 1), (3, 2), (1, 3), (7, 10), (4, 1)];
    for (numerator, denominator) in temperatures {
        let pi = map.probability_iter(0, Temperature::from_ratio(numerator, denominator));
        let exponent = denominator as f64 / numerator as f64;
        let weights: Vec<f64> =
            counts.iter().map(|count| (*count as f64).powf(exponent)).collect();
        let sum: f64 = weights.iter().sum();
        for a in 0..counts.len() {
            let expected = 1_000_000.0 * weights[a] / sum;
            assert!((pi[a].micros() as f64 - expected).abs() <= 1.0);
        }
    }
}

#[test]
fn probabilities_do_not_depend_on_the_visits() {
    let map = ActionMap::new(vec![stats(1, 0, 0), stats(3, 0, 0), stats(0, 0, 0)]);
    let unit = Temperature::from_inverse(1);
    assert_eq!(map.probability_iter(4, unit), map.probability_iter(0, unit));
    assert_eq!(map.probability_iter(4, unit), map.probability_iter(1_000, unit));
    assert_eq!(map.probability_iter(4, unit), vec![v(250_000), v(750_000), v(0)]);
}

#[test]
fn probabilities_add_up_to_one_and_follow_the_counts() {
    let counts = [5usize, 0, 17, 3, 17, 1, 9];
    let map = ActionMap::new(counts.iter().map(|count| stats(*count, 0, 0)).collect());
    for inverse in [1u32, 2, 3, 10, 100] {
        let pi = map.probability_iter(52, Temperature::from_inverse(inverse));
        assert_eq!(pi.len(), counts.len());
        let sum: i64 = pi.iter().map(|p| p.micros()).sum();
        assert!((2 * sum - 2_000_000).abs() <= counts.len() as i64);
        for a in 0..counts.len() {
            assert!(0 <= pi[a].micros() && pi[a].micros() <= 1_000_000);
            for b in 0..counts.len() {
                if counts[a] >= counts[b] {
                    assert!(pi[a].micros() >= pi[b].micros());
                }
            }
        }
        assert_eq!(pi[1], v(0));
        assert_eq!(pi[2], pi[4]);
    }
}

#[test]
fn probabilities_at_the_temperature_without_end_are_alike() {
    let map = ActionMap::new(vec![stats(1, 0, 0), stats(3, 0, 0)]);
    assert_eq!(
        map.probability_iter(4, Temperature::from_inverse(0)),
        vec![v(500_000), v(500_000)]
    );
}

#[test]
fn temperatures_above_one_even_the_probabilities_out() {
    let map = ActionMap::new(vec![stats(1, 0, 0), stats(4, 0, 0)]);
    assert_eq!(
        map.probability_iter(5, Temperature::from_ratio(2, 1)),
        vec![v(333_333), v(666_667)]
    );
    assert_eq!(
        map.probability_iter(5, Temperature::from_ratio(1, 1)),
        vec![v(200_000), v(800_000)]
    );
    let cubes = ActionMap::new(vec![stats(1, 0, 0), stats(8, 0, 0), stats(0, 0, 0)]);
    assert_eq!(
        cubes.probability_iter(9, Temperature::from_ratio(3, 2)),
        vec![v(200_000), v(800_000), v(0)]
    );
    assert_eq!(
        cubes.probability_iter(9, Temperature::from_ratio(3, 1)),
        vec![v(333_333), v(666_667), v(0)]
    );
    assert_eq!(Temperature::from_ratio(1, 100), Temperature::from_inverse(100));
    assert_eq!(Temperature::from_ratio(10, 1000), Temperature::from_inverse(100));
    assert_eq!(Temperature::from_ratio(1500, 1000), Temperature { inverse: 2, root: 3 });
    assert_eq!(Temperature::from_ratio(4, 0), Temperature { inverse: 0, root: 1 });
    assert_eq!(Temperature::from_ratio(3, 2), Temperature { inverse: 2, root: 3 });
    let plain = Temperature { inverse: 1, root: 0 };
    assert_eq!(
        map.probability_iter(5, plain),
        map.probability_iter(5, Temperature::from_inverse(1))
    );
}

#[test]
fn probabilities_of_actions_never_counted() {
    let map = ActionMap::new(vec![stats(0, 0, 500_000), stats(0, 0, 500_000)]);
    assert_eq!(map.probability_iter(0, Temperature::from_inverse(1)), vec![v(0), v(0)]);
    assert_eq!(
        map.probability_iter(0, Temperature::from_inverse(0)),
        vec![v(500_000), v(500_000)]
    );
}

#[test]
fn mean_quality_of_the_actions() {
    let map = ActionMap::new(vec![stats(2, 1_000_000, 0), stats(4, 1_000_000, 0)]);
    assert_eq!(map.quality(), v(375_000));
    let one = ActionMap::new(vec![stats(3, -1_000_000, 0)]);
    assert_eq!(one.quality(), v(-333_333));
}

#[test]
fn sample_takes_the_first_action_that_reaches_the_draw() {
    let pi = ActionMap::new(vec![v(250_000), v(750_000)]);
    assert_eq!(pi.sample(v(0)), Action(0));
    assert_eq!(pi.sample(v(250_000)), Action(0));
    assert_eq!(pi.sample(v(250_001)), Action(1));
    assert_eq!(pi.sample(v(999_999)), Action(1));
    let three = ActionMap::new(vec![v(100_000), v(0), v(400_000), v(500_000)]);
    assert_eq!(three.sample(v(100_000)), Action(0));
    assert_eq!(three.sample(v(100_001)), Action(2));
    assert_eq!(three.sample(v(500_001)), Action(3));
}

#[test]
fn sample_takes_the_last_action_when_none_reaches_the_draw() {
    let pi = ActionMap::new(vec![v(0), v(0), v(0)]);
    assert_eq!(pi.sample(v(1)), Action(2));
    assert_eq!(pi.sample(v(999_999)), Action(2));
    assert_eq!(pi.sample(v(0)), Action(0));
    let short = ActionMap::new(vec![v(100_000), v(200_000)]);
    assert_eq!(short.sample(v(900_000)), Action(1));
    let single = ActionMap::new(vec![v(0)]);
    assert_eq!(single.sample(v(999_999)), Action(0));
}

#[test]
fn random_draws_lie_below_one() {
    let mut smallest = i64::MAX;
    let mut largest = i64::MIN;
    for _ in 0..10_000 {
        let draw = random_draw().micros();
        assert!(0 <= draw && draw < 1_000_000);
        smallest = smallest.min(draw);
        largest = largest.max(draw);
    }
    assert!(smallest < 100_000);
    assert!(largest > 900_000);
}

#[test]
fn low_temperature_samples_the_action_with_all_the_visits() {
    let map = ActionMap::new(vec![stats(0, 0, 0), stats(10, 0, 0), stats(0, 0, 0)]);
    let pi = ActionMap::new(map.probability_iter(10, Temperature::from_inverse(100)));
    assert_eq!(pi.as_slice(), &[v(0), v(1_000_000), v(0)]);
    let mut hits = 0;
    for _ in 0..2_000 {
        if pi.sample(random_draw()) == Action(1) {
            hits += 1;
        }
    }
    assert!(hits >= 1_990);
}

#[test]
fn low_temperature_samples_the_most_counted_action() {
    let map = ActionMap::new(vec![stats(1, 0, 0), stats(9, 0, 0), stats(2, 0, 0)]);
    let sharp = ActionMap::new(map.probability_iter(12, Temperature::from_inverse(100)));
    assert_eq!(sharp.as_slice(), &[v(0), v(1_000_000), v(0)]);
    assert_eq!(sharp.sample(v(500_000)), Action(1));
    assert_eq!(sharp.sample(v(1)), Action(1));
    assert_eq!(sharp.sample(v(999_999)), Action(1));
    let mut hits = 0;
    for _ in 0..2_000 {
        if sharp.sample(random_draw()) == Action(1) {
            hits += 1;
        }
    }
    assert!(hits >= 1_990);
    let two = ActionMap::new(vec![stats(2, 0, 0), stats(1, 0, 0)]);
    let pi = ActionMap::new(two.probability_iter(3, Temperature::from_inverse(100)));
    assert_eq!(pi.sample(v(500_000)), Action(0));
}

#[test]
fn mild_temperature_samples_by_the_counts() {
    let map = ActionMap::new(vec![stats(1, 0, 0), stats(8, 0, 0), stats(1, 0, 0)]);
    let unit = map.probability_iter(10, Temperature::from_inverse(1));
    assert_eq!(unit, vec![v(100_000), v(800_000), v(100_000)]);
    let squared = map.probability_iter(10, Temperature::from_inverse(2));
    assert_eq!(squared, vec![v(15_152), v(969_697), v(15_152)]);
    let pi = ActionMap::new(unit);
    assert_eq!(pi.sample(v(100_000)), Action(0));
    assert_eq!(pi.sample(v(100_001)), Action(1));
    assert_eq!(pi.sample(v(900_000)), Action(1));
    assert_eq!(pi.sample(v(900_001)), Action(2));
    let mut hits = [0usize; 3];
    for _ in 0..4_000 {
        hits[pi.sample(random_draw()).index()] += 1;
    }
    assert!(hits[1] > 2_800 && hits[1] < 3_600);
    assert!(hits[0] > 200 && hits[2] > 200);
}
