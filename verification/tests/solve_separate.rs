use lib::separate::SymmetryMode;

#[test]
fn a_symmetry_mode_is_its_two_halves() {
    for mode in SymmetryMode::all() {
        assert_eq!(SymmetryMode::from_halves(mode.roots(), mode.moves()), mode);
    }
    let names: Vec<&str> = SymmetryMode::all().iter().map(|m| m.name()).collect();
    assert_eq!(names, ["off", "roots", "moves", "on"]);
    assert_eq!(SymmetryMode::default(), SymmetryMode::Off);
    assert!(!SymmetryMode::Roots.moves() && SymmetryMode::Roots.roots());
    assert!(SymmetryMode::Moves.moves() && !SymmetryMode::Moves.roots());
}
