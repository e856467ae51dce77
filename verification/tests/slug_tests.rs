use labs::slug::{slug_of_lowered, slugify};

//stringa con più di una parola
#[test]
fn t1() {
    let stringa = "Stringa con più di una parola";
    assert_eq!(slugify(stringa), "stringa-con-piu-di-una-parola");
}

//stringa con caratteri accentati
#[test]
fn t2() {
    let stringa = "ùùù";
    assert_eq!(slugify(stringa), "uuu");
}

//string vuota
#[test]
fn t3() {
    let stringa = "";
    assert_eq!(slugify(stringa), "");
}

//stringa con più spazi
#[test]
fn t4() {
    let stringa = "    ";
    assert_eq!(slugify(stringa), "");
}

#[test]
fn slug_collapses_runs_and_drops_trailing_dash() {
    assert_eq!(slugify("  Hello,   World!  "), "-hello-world");
    assert_eq!(slugify("a--b"), "a-b");
}

#[test]
fn slug_upper_case_and_accents() {
    assert_eq!(slugify("ÀÉÎÕÜ Çà"), "aeiou-ca");
    assert_eq!(slugify("Straße 42"), "strase-42");
}

#[test]
fn slug_of_a_slug_is_itself() {
    let s = slugify("Perché sì, già fatto!");
    assert_eq!(s, "perche-si-gia-fatto");
    assert_eq!(slug_of_lowered(&s), s);
}

#[test]
fn slug_of_lowered_keeps_digits_and_leading_dash() {
    assert_eq!(slug_of_lowered("-x1-"), "-x1");
    assert_eq!(slug_of_lowered("?"), "");
}

#[test]
fn slugs_hold_no_upper_case() {
    assert_eq!(slugify("ÀBC \u{212A}"), "abc-k");
    assert_eq!(slugify("Hello  WORLD!"), "hello-world");
}
