use wordle_solver::get_hint;
use wordle_solver::Hint;

#[test]
fn test_get_hint() {
    assert_eq!(&get_hint("hello", "pogos").unwrap(), &[Hint::Absent, Hint::Absent, Hint::Absent, Hint::Absent, Hint::Present]);
    assert_eq!(&get_hint("holop", "pogas").unwrap(), &[Hint::Absent, Hint::Correct, Hint::Absent, Hint::Absent, Hint::Present]);
    assert_eq!(&get_hint("holop", "pooas").unwrap(), &[Hint::Absent, Hint::Correct, Hint::Absent, Hint::Present, Hint::Present]);
    assert_eq!(&get_hint("holop", "pogos").unwrap(), &[Hint::Absent, Hint::Correct, Hint::Absent, Hint::Correct, Hint::Present]);
    assert_eq!(&get_hint("holop", "pogao").unwrap(), &[Hint::Absent, Hint::Correct, Hint::Absent, Hint::Present, Hint::Present]);
    assert_eq!(&get_hint("holop", "oogaa").unwrap(), &[Hint::Absent, Hint::Correct, Hint::Absent, Hint::Present, Hint::Absent]);

    assert_eq!(&get_hint("pogos", "hello").unwrap(), &[Hint::Absent, Hint::Present, Hint::Absent, Hint::Absent, Hint::Absent]);
    assert_eq!(&get_hint("pogas", "holop").unwrap(), &[Hint::Present, Hint::Correct, Hint::Absent, Hint::Absent, Hint::Absent]);
    assert_eq!(&get_hint("pooas", "holop").unwrap(), &[Hint::Present, Hint::Correct, Hint::Present, Hint::Absent, Hint::Absent]);
    assert_eq!(&get_hint("pogos", "holop").unwrap(), &[Hint::Present, Hint::Correct, Hint::Absent, Hint::Correct, Hint::Absent]);
    assert_eq!(&get_hint("pogao", "holop").unwrap(), &[Hint::Present, Hint::Correct, Hint::Absent, Hint::Absent, Hint::Present]);
    assert_eq!(&get_hint("oogaa", "holop").unwrap(), &[Hint::Present, Hint::Correct, Hint::Absent, Hint::Absent, Hint::Absent]);

    assert_eq!(&get_hint("oogaa", "hloop").unwrap(), &[Hint::Present, Hint::Present, Hint::Absent, Hint::Absent, Hint::Absent]);
    assert_eq!(&get_hint("oogaa", "hollp").unwrap(), &[Hint::Absent, Hint::Correct, Hint::Absent, Hint::Absent, Hint::Absent]);
}
