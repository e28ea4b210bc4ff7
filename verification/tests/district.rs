use redistricting::district::{DistrictResult, DistrictValidity, DistrictWinner};
use redistricting::level::Level;

fn level(min: usize, max: usize) -> Level {
    Level {
        districts: 3,
        good_ppm: 500_000,
        populated_ppm: 700_000,
        map_size: 8,
        min_district_size: min,
        max_district_size: max,
    }
}

#[test]
fn a_district_below_the_least_size_is_too_small() {
    let result = DistrictResult { size: 13, winner: Some(DistrictWinner::Good) };
    assert_eq!(result.validity(&level(14, 16)), DistrictValidity::TooSmall);
    let result = DistrictResult { size: 0, winner: None };
    assert_eq!(result.validity(&level(14, 16)), DistrictValidity::TooSmall);
}

#[test]
fn a_district_above_the_greatest_size_is_too_big() {
    let result = DistrictResult { size: 17, winner: Some(DistrictWinner::Bad) };
    assert_eq!(result.validity(&level(14, 16)), DistrictValidity::TooBig);
    let result = DistrictResult { size: 17, winner: None };
    assert_eq!(result.validity(&level(14, 16)), DistrictValidity::TooBig);
}

#[test]
fn a_district_of_the_right_size_without_a_winner_is_non_contiguous() {
    let result = DistrictResult { size: 14, winner: None };
    assert_eq!(result.validity(&level(14, 16)), DistrictValidity::NonContiguous);
    let result = DistrictResult { size: 16, winner: None };
    assert_eq!(result.validity(&level(14, 16)), DistrictValidity::NonContiguous);
}

#[test]
fn a_district_of_the_right_size_with_a_winner_is_valid() {
    for winner in [DistrictWinner::Good, DistrictWinner::Bad, DistrictWinner::Tie] {
        for size in 14..=16 {
            let result = DistrictResult { size, winner: Some(winner) };
            assert_eq!(result.validity(&level(14, 16)), DistrictValidity::Valid);
        }
    }
}

#[test]
fn size_is_tested_before_contiguity() {
    let result = DistrictResult { size: 3, winner: None };
    assert_eq!(result.validity(&level(4, 4)), DistrictValidity::TooSmall);
    let result = DistrictResult { size: 5, winner: None };
    assert_eq!(result.validity(&level(4, 4)), DistrictValidity::TooBig);
}

#[test]
fn with_the_least_size_above_the_greatest_every_district_is_out_of_size() {
    let result = DistrictResult { size: 5, winner: Some(DistrictWinner::Tie) };
    assert_eq!(result.validity(&level(6, 4)), DistrictValidity::TooSmall);
    let result = DistrictResult { size: 6, winner: Some(DistrictWinner::Tie) };
    assert_eq!(result.validity(&level(6, 4)), DistrictValidity::TooBig);
}
