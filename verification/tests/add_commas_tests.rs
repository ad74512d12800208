use commas::add_commas::add_commas;
use commas::add_commas::add_commas_mut;
use commas::add_commas::AddCommas;

#[test]
fn add_commas_test() {
    assert_eq!(add_commas("30000000"), "30,000,000");
    assert_eq!(add_commas("30000000"), "30,000,000");
    assert_eq!(add_commas("30,000,000"), "30,000,000");
    assert_eq!(add_commas("۳۰۰۰۰۰۰۰"), "۳۰,۰۰۰,۰۰۰");

    assert_eq!(add_commas("30,000,000.02"), "30,000,000.02");
    assert_eq!(add_commas("12500.9"), "12,500.9");
    assert_eq!(add_commas("12500.9"), "12,500.9");
    assert_eq!(add_commas("51000.123456789"), "51,000.123456789");

    assert_eq!(add_commas("300"), "300");
    assert_eq!(add_commas("0"), "0");
}

#[test]
fn add_commas_mut_test() {
    let mut input = "30000000".to_string();
    add_commas_mut(&mut input);
    assert_eq!(input, "30,000,000");

    let mut input = "30,000,000".to_string();
    add_commas_mut(&mut input);
    assert_eq!(input, "30,000,000");

    let mut input = "30000000.02".to_string();
    add_commas_mut(&mut input);
    assert_eq!(input, "30,000,000.02");
}

#[test]
fn add_commas_group_boundaries() {
    assert_eq!(add_commas(""), "");
    assert_eq!(add_commas("1"), "1");
    assert_eq!(add_commas("123"), "123");
    assert_eq!(add_commas("1234"), "1,234");
    assert_eq!(add_commas("123456"), "123,456");
    assert_eq!(add_commas("1234567"), "1,234,567");
}

#[test]
fn add_commas_fraction_only_and_multiple_dots() {
    assert_eq!(add_commas(".5"), ".5");
    assert_eq!(add_commas("1.2.3"), "1.2.3");
    assert_eq!(add_commas("1234.5.6"), "1,234.5.6");
}

#[test]
fn add_commas_strips_misplaced_separators() {
    assert_eq!(add_commas(",,"), "");
    assert_eq!(add_commas("1,2,3,4"), "1,234");
}

#[test]
fn add_commas_idempotent_scenarios() {
    let once = add_commas("9876543210");
    let twice = add_commas(&once);
    assert_eq!(once, twice);
    assert_eq!(add_commas(&add_commas("12500.9")), "12,500.9");
}

#[test]
fn add_commas_mut_matches_allocating() {
    for input in ["", "7", "1234", "987654321", "12500.9", "۳۰۰۰۰۰۰۰", ".25"] {
        let mut mutated = input.to_string();
        add_commas_mut(&mut mutated);
        assert_eq!(mutated, add_commas(input));
    }
}

#[test]
fn add_commas_mut_group_boundaries() {
    let mut input = "1234".to_string();
    add_commas_mut(&mut input);
    assert_eq!(input, "1,234");

    let mut input = "123".to_string();
    add_commas_mut(&mut input);
    assert_eq!(input, "123");

    let mut input = "".to_string();
    add_commas_mut(&mut input);
    assert_eq!(input, "");
}

#[test]
fn add_commas_method() {
    assert_eq!("30000000".add_commas(), "30,000,000");
    assert_eq!("30000000".to_string().add_commas(), "30,000,000");
}
