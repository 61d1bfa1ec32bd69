use anagramsolver::CipherSolver;
use anagramsolver::RotSolver;

fn dict(words: &[&str]) -> Vec<String> {
    words.iter().map(|w| w.to_string()).collect()
}

#[test]
fn rot13_decodes_a_known_word() {
    let solver = RotSolver::new(dict(&["hello", "world"]));
    assert_eq!(solver.solve("uryyb"), dict(&["hello +13"]));
}

#[test]
fn single_digit_shift() {
    let solver = RotSolver::new(dict(&["hello"]));
    assert_eq!(solver.solve("gdkkn"), dict(&["hello +1"]));
}

#[test]
fn several_shifts_reported_in_order() {
    let solver = RotSolver::new(dict(&["ab", "bc"]));
    assert_eq!(solver.solve("za"), dict(&["ab +1", "bc +2"]));
}

#[test]
fn nonletters_pass_through_unchanged() {
    let solver = RotSolver::new(dict(&["a b!"]));
    assert_eq!(solver.solve("z a!"), dict(&["a b! +1"]));
}

#[test]
fn identity_shift_is_not_tried() {
    let solver = RotSolver::new(dict(&["same"]));
    assert_eq!(solver.solve("same"), Vec::<String>::new());
}

#[test]
fn case_is_preserved() {
    let solver = RotSolver::new(dict(&["Hello"]));
    assert_eq!(solver.solve("Gdkkn"), dict(&["Hello +1"]));
}

#[test]
fn solve_through_the_trait() {
    let solver = RotSolver::new(dict(&["hello"]));
    let via_trait = CipherSolver::solve(&solver, "uryyb");
    assert_eq!(via_trait, dict(&["hello +13"]));
}
