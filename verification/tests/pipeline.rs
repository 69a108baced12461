use allergens::candidates::potential_allergen_ingredients;
use allergens::parse::read_foods;
use allergens::reduce::reduce_allergens;
use allergens::render::part_2;
use allergens::safe::get_safe;
use allergens::safe::part_1;

const TEST_INPUT: &str = "mxmxvkd kfcds sqjhc nhms (contains dairy, fish)\n
trh fvjkl sbzzf mxmxvkd (contains dairy)\n
sqjhc fvjkl (contains soy)\n
sqjhc mxmxvkd sbzzf (contains fish)";

fn to_lines(s: &str) -> Vec<Vec<u8>> {
    s.lines().map(|l| l.as_bytes().to_vec()).collect()
}

fn name(s: &str) -> Vec<u8> {
    s.as_bytes().to_vec()
}

fn has(list: &[Vec<u8>], s: &str) -> bool {
    list.iter().any(|n| n == &name(s))
}

#[test]
fn it_correctly_finds_potential_allergen_ingredients() {
    let all_foods = read_foods(&to_lines(TEST_INPUT));
    let potential_allergens = potential_allergen_ingredients(&all_foods, &name("fish"));
    assert_eq!(2, potential_allergens.len());
    assert!(potential_allergens.contains(&name("mxmxvkd")));
    assert!(potential_allergens.contains(&name("sqjhc")));
}

#[test]
fn it_counts_the_number_of_safe_ingredients() {
    let all_foods = read_foods(&to_lines(TEST_INPUT));
    let safe_count = part_1(&all_foods);
    assert_eq!(5, safe_count);
}

#[test]
fn it_correctly_lists_allergens() {
    let all_foods = read_foods(&to_lines(TEST_INPUT));
    let allergens = part_2(&all_foods).unwrap();
    assert_eq!(name("mxmxvkd,sqjhc,fvjkl"), allergens);
}

#[test]
fn safe_ingredients_are_the_universe_minus_every_candidate() {
    let all_foods = read_foods(&to_lines(TEST_INPUT));
    let safe = get_safe(&all_foods);
    assert_eq!(4, safe.len());
    assert!(has(&safe, "kfcds"));
    assert!(has(&safe, "nhms"));
    assert!(has(&safe, "trh"));
    assert!(has(&safe, "sbzzf"));
    assert!(!has(&safe, "mxmxvkd"));
    assert!(!has(&safe, "sqjhc"));
    assert!(!has(&safe, "fvjkl"));
}

#[test]
fn resolved_pairs_are_pairwise_distinct() {
    let all_foods = read_foods(&to_lines(TEST_INPUT));
    let mut potentials =
        allergens::candidates::all_potential_allergen_ingredients(&all_foods);
    let pairs = reduce_allergens(&mut potentials).unwrap();
    assert_eq!(3, pairs.len());
    for a in 0..pairs.len() {
        for b in (a + 1)..pairs.len() {
            assert_ne!(pairs[a].0, pairs[b].0);
            assert_ne!(pairs[a].1, pairs[b].1);
        }
    }
}

#[test]
fn reducing_a_resolved_map_again_changes_nothing() {
    let all_foods = read_foods(&to_lines(TEST_INPUT));
    let mut potentials =
        allergens::candidates::all_potential_allergen_ingredients(&all_foods);
    let first = reduce_allergens(&mut potentials).unwrap();
    for entry in potentials.iter() {
        assert_eq!(1, entry.1.len());
    }
    let snapshot: Vec<(Vec<u8>, Vec<Vec<u8>>)> = potentials
        .iter()
        .map(|e| (e.0.clone(), e.1.clone()))
        .collect();
    let second = reduce_allergens(&mut potentials).unwrap();
    let mut first_sorted = first.clone();
    first_sorted.sort();
    let mut second_sorted = second.clone();
    second_sorted.sort();
    assert_eq!(first_sorted, second_sorted);
    assert_eq!(snapshot, potentials);
}

#[test]
fn output_order_ignores_record_order() {
    let forward = read_foods(&to_lines(TEST_INPUT));
    let reversed_lines: Vec<Vec<u8>> =
        to_lines(TEST_INPUT).into_iter().rev().collect();
    let backward = read_foods(&reversed_lines);
    assert_eq!(part_2(&forward).unwrap(), part_2(&backward).unwrap());
}

#[test]
fn a_single_record_resolves_in_one_pass() {
    let foods = read_foods(&to_lines("sausage (contains gluten)"));
    assert_eq!(1, foods.len());
    let mut potentials = allergens::candidates::all_potential_allergen_ingredients(&foods);
    let pairs = reduce_allergens(&mut potentials).unwrap();
    assert_eq!(1, pairs.len());
    assert_eq!(name("gluten"), pairs[0].0);
    assert_eq!(name("sausage"), pairs[0].1);
    assert_eq!(name("sausage"), part_2(&foods).unwrap());
    assert_eq!(0, part_1(&foods));
}

#[test]
fn an_ambiguous_input_reports_an_error() {
    let foods = read_foods(&to_lines("aa bb (contains d1, d2)"));
    let mut potentials = allergens::candidates::all_potential_allergen_ingredients(&foods);
    assert!(reduce_allergens(&mut potentials).is_err());
    assert!(part_2(&foods).is_err());
}

#[test]
fn lines_without_the_record_shape_are_skipped() {
    let input = "not a record\n\nmxmxvkd kfcds (contains dairy)\n(contains )\nweird(stuff)";
    let foods = read_foods(&to_lines(input));
    assert_eq!(1, foods.len());
    assert_eq!(2, foods[0].ingredients.len());
    assert_eq!(1, foods[0].allergens.len());
    assert_eq!(name("dairy"), foods[0].allergens[0]);
}

#[test]
fn an_empty_store_renders_an_empty_string() {
    let foods = read_foods(&Vec::new());
    assert_eq!(0, part_1(&foods));
    assert_eq!(name(""), part_2(&foods).unwrap());
}

#[test]
fn repeated_and_blank_tokens_collapse() {
    let foods = read_foods(&to_lines("aa  aa bb (contains dairy, dairy)"));
    assert_eq!(1, foods.len());
    assert_eq!(2, foods[0].ingredients.len());
    assert_eq!(1, foods[0].allergens.len());
    assert_eq!(name("dairy"), foods[0].allergens[0]);
}
