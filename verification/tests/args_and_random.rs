use bounded_voronoi::args::{get_num_sites, parse_number, ArgError};
use bounded_voronoi::geometry::BoundingBox;
use bounded_voronoi::random::{gen_rand_point, gen_rand_sites};

fn words(list: &[&str]) -> Vec<String> {
    list.iter().map(|s| s.to_string()).collect()
}

#[test]
fn number_of_sites_from_the_command_line() {
    assert_eq!(get_num_sites(&words(&["prog", "-s", "25"])), Ok(Some(25)));
    assert_eq!(get_num_sites(&words(&["prog", "x", "-s", "7", "-s", "9"])), Ok(Some(7)));
    assert_eq!(get_num_sites(&words(&["prog", "-s", "-3"])), Ok(Some(-3)));
    assert_eq!(get_num_sites(&words(&["prog", "-s", "+12"])), Ok(Some(12)));
    assert_eq!(get_num_sites(&words(&["-s", "0"])), Ok(Some(0)));
}

#[test]
fn no_number_of_sites() {
    assert_eq!(get_num_sites(&words(&[])), Ok(None));
    assert_eq!(get_num_sites(&words(&["prog"])), Ok(None));
    assert_eq!(get_num_sites(&words(&["prog", "-x", "5"])), Ok(None));
    assert_eq!(get_num_sites(&words(&["prog", "5", "-s"])), Ok(None));
    assert_eq!(get_num_sites(&words(&["prog", "-sx", "5", "s", "-S", "9"])), Ok(None));
}

#[test]
fn malformed_number_of_sites() {
    let bad = Err(ArgError::InvalidNumber);
    assert_eq!(get_num_sites(&words(&["prog", "-s", "ten"])), bad);
    assert_eq!(get_num_sites(&words(&["prog", "-s", "-s", "5"])), bad);
    assert_eq!(get_num_sites(&words(&["prog", "-s", ""])), bad);
    assert_eq!(get_num_sites(&words(&["prog", "-s", "1.5"])), bad);
    assert_eq!(get_num_sites(&words(&["prog", "-s", "2147483648"])), bad);
}

#[test]
fn numbers() {
    assert_eq!(parse_number("0"), Some(0));
    assert_eq!(parse_number("007"), Some(7));
    assert_eq!(parse_number("-0"), Some(0));
    assert_eq!(parse_number("2147483647"), Some(i32::MAX));
    assert_eq!(parse_number("+2147483647"), Some(i32::MAX));
    assert_eq!(parse_number("-2147483648"), Some(i32::MIN));
    assert_eq!(parse_number("00000000000000000000012"), Some(12));
    assert_eq!(parse_number("2147483648"), None);
    assert_eq!(parse_number("-2147483649"), None);
    assert_eq!(parse_number("99999999999999999999999999"), None);
    assert_eq!(parse_number(""), None);
    assert_eq!(parse_number("+"), None);
    assert_eq!(parse_number("-"), None);
    assert_eq!(parse_number("+-1"), None);
    assert_eq!(parse_number(" 1"), None);
    assert_eq!(parse_number("1 "), None);
    assert_eq!(parse_number("1_000"), None);
    assert_eq!(parse_number("٣"), None);
    for s in ["12", "-45", "+6", "x", "", "2147483648", "-2147483648", "0x10"] {
        assert_eq!(parse_number(s), s.parse::<i32>().ok());
    }
}

#[test]
fn random_points_lie_in_the_box() {
    let bbox = BoundingBox::new_centered_square(1000);
    let mut seen = Vec::new();
    for _ in 0..200 {
        let p = gen_rand_point(&bbox);
        assert!(bbox.is_inside(&p));
        assert!(p.x < 1000 && p.y < 1000);
        seen.push(p);
    }
    assert!(seen.iter().any(|p| p.x != -1000));
    assert!(seen.iter().any(|p| p.y != -1000));
    assert!(seen.iter().any(|p| *p != seen[0]));
}

#[test]
fn random_sites_come_in_the_number_asked_for() {
    let bbox = BoundingBox::new_centered_square(1000);
    assert_eq!(gen_rand_sites(&bbox, 10).len(), 10);
    assert_eq!(gen_rand_sites(&bbox, 0).len(), 0);
    assert_eq!(gen_rand_sites(&bbox, -4).len(), 0);
    assert!(gen_rand_sites(&bbox, 50).iter().all(|p| bbox.is_inside(p)));
}
