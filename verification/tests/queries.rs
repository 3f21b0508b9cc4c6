use car_queries::all_electric;
use car_queries::any_electric;
use car_queries::last_non_electric;
use car_queries::most_expensive;
use car_queries::only_electric;
use car_queries::total_cost;
use car_queries::unique_brands;
use car_queries::unique_brands2;
use car_queries::unique_brands3;
use car_queries::Car;

fn sample_answer(cars: &Vec<Car>, indices: Vec<usize>) -> Vec<&Car> {
    let mut answer = vec![];
    for i in indices {
        answer.push(&cars[i]);
    }
    answer
}

fn car(name: &str, brand: &str, cost: u32, is_electric: bool) -> Car {
    Car { name: name.to_string(), brand: brand.to_string(), cost, is_electric }
}

#[test]
fn test_only_electric() {
    let cars = Car::sample();
    let answer = sample_answer(&cars, vec![0, 4]);

    assert_eq!(only_electric(&cars), answer);
}

#[test]
fn test_total_cost() {
    let cars = Car::sample();
    let answer = 165_000;

    assert_eq!(total_cost(&cars), answer);
}

#[test]
fn test_unique_brands() {
    let cars = Car::sample();
    let answer = vec!["Tesla", "Nissan", "Toyota", "Hyundai"];

    assert_eq!(unique_brands(&cars), answer);
}

#[test]
fn test_unique_brands2() {
    let cars = Car::sample();
    let answer = vec!["Tesla", "Nissan", "Toyota", "Hyundai"];

    assert_eq!(unique_brands2(&cars), answer);
}

#[test]
fn test_unique_brands3() {
    let cars = Car::sample();
    let mut answer = vec!["Tesla", "Nissan", "Toyota", "Hyundai"];
    answer.sort();

    assert_eq!(unique_brands3(&cars), answer);
}

#[test]
fn test_all_electric() {
    let cars = Car::sample();
    let answer = false;

    assert_eq!(all_electric(&cars), answer);
}

#[test]
fn test_any_electric() {
    let cars = Car::sample();
    let answer = true;

    assert_eq!(any_electric(&cars), answer);
}

#[test]
fn test_last_non_electric() {
    let cars = Car::sample();
    let answer = cars.get(3);

    assert_eq!(last_non_electric(&cars), answer);
}

#[test]
fn test_most_expensive() {
    let cars = Car::sample();
    let answer = cars.get(0);

    assert_eq!(most_expensive(&cars), answer);
}

#[test]
fn only_electric_keeps_order_and_membership() {
    let cars = vec![
        car("a", "A", 1, false),
        car("b", "B", 2, true),
        car("c", "C", 3, false),
        car("d", "D", 4, true),
        car("e", "E", 5, true),
    ];
    let picked = only_electric(&cars);
    assert_eq!(picked, vec![&cars[1], &cars[3], &cars[4]]);
    assert!(picked.iter().all(|c| c.is_electric));
}

#[test]
fn only_electric_empty_input_empty_output() {
    let cars: Vec<Car> = vec![];
    assert!(only_electric(&cars).is_empty());
}

#[test]
fn total_cost_splits_between_electric_and_the_rest() {
    let cars = Car::sample();
    let electric: Vec<Car> = cars.iter().filter(|c| c.is_electric).cloned().collect();
    let rest: Vec<Car> = cars.iter().filter(|c| !c.is_electric).cloned().collect();

    assert_eq!(total_cost(&cars), total_cost(&electric) + total_cost(&rest));
}

#[test]
fn total_cost_empty_is_zero() {
    let cars: Vec<Car> = vec![];
    assert_eq!(total_cost(&cars), 0);
}

#[test]
fn unique_brands_no_repeats_and_first_occurrence_order() {
    let cars = vec![
        car("1", "Kia", 1, false),
        car("2", "Fiat", 2, false),
        car("3", "Kia", 3, true),
        car("4", "Seat", 4, false),
        car("5", "Fiat", 5, true),
        car("6", "Kia", 6, false),
    ];
    let brands = unique_brands(&cars);
    assert_eq!(brands, vec!["Kia", "Fiat", "Seat"]);
    assert_eq!(brands, unique_brands2(&cars));
    assert!(brands.len() <= cars.len());
    for (i, b) in brands.iter().enumerate() {
        assert!(!brands[..i].contains(b));
    }
}

#[test]
fn unique_brands3_sorts_shared_prefixes() {
    let cars = vec![
        car("1", "BMW", 1, false),
        car("2", "BM", 2, false),
        car("3", "Audi", 3, false),
        car("4", "BMW", 4, true),
    ];
    assert_eq!(unique_brands3(&cars), vec!["Audi", "BM", "BMW"]);
}

#[test]
fn all_electric_empty_is_true() {
    let cars: Vec<Car> = vec![];
    assert!(all_electric(&cars));
}

#[test]
fn any_electric_empty_is_false() {
    let cars: Vec<Car> = vec![];
    assert!(!any_electric(&cars));
}

#[test]
fn all_electric_true_on_fully_electric_fleet() {
    let cars = vec![car("a", "A", 1, true), car("b", "B", 2, true)];
    assert!(all_electric(&cars));
    assert!(any_electric(&cars));
}

#[test]
fn last_non_electric_leaves_input_unchanged() {
    let cars = Car::sample();
    let snapshot = cars.clone();
    let _ = last_non_electric(&cars);
    assert_eq!(cars, snapshot);
}

#[test]
fn last_non_electric_none_when_all_electric() {
    let cars = vec![car("a", "A", 1, true), car("b", "B", 2, true)];
    assert_eq!(last_non_electric(&cars), None);
    let empty: Vec<Car> = vec![];
    assert_eq!(last_non_electric(&empty), None);
}

#[test]
fn most_expensive_breaks_ties_towards_the_first() {
    let cars = vec![
        car("cheap", "A", 10, false),
        car("first-max", "B", 99, true),
        car("second-max", "C", 99, false),
        car("mid", "D", 50, false),
    ];
    assert_eq!(most_expensive(&cars), Some(&cars[1]));
}

#[test]
fn most_expensive_none_on_empty_fleet() {
    let cars: Vec<Car> = vec![];
    assert_eq!(most_expensive(&cars), None);
}
