use algorithms::autocomplete::Autocomplete;
use algorithms::term::Term;

#[test]
fn autocomplete_new() {
    let terms = vec![Term::new("the", 1), Term::new("of", 3)];

    let auto = Autocomplete::new(&terms);

    assert_eq!(&terms, auto.terms);
}

#[test]
fn all_matches() {
    let terms = vec![
        Term::new("automobile", 1),
        Term::new("automatic", 3),
        Term::new("company", 1),
    ];
    let auto = Autocomplete::new(&terms);

    let result = auto.all_matches("auto");

    assert_eq!(result[0], terms[1]);
    assert_eq!(result[1], terms[0]);
}

#[test]
fn number_of_matches() {
    let terms = vec![
        Term::new("automobile", 1),
        Term::new("automatic", 3),
        Term::new("company", 1),
    ];
    let auto = Autocomplete::new(&terms);

    let result = auto.number_of_matches("auto");

    assert_eq!(result, 2);
}

#[test]
fn all_matches_empty_prefix_returns_everything_by_weight() {
    let terms = vec![
        Term::new("low", 1),
        Term::new("high", 9),
        Term::new("mid", 5),
    ];
    let auto = Autocomplete::new(&terms);

    let result = auto.all_matches("");

    assert_eq!(result.len(), 3);
    assert_eq!(result[0], Term::new("high", 9));
    assert_eq!(result[1], Term::new("mid", 5));
    assert_eq!(result[2], Term::new("low", 1));
}

#[test]
fn number_of_matches_none() {
    let terms = vec![Term::new("automobile", 1), Term::new("company", 1)];
    let auto = Autocomplete::new(&terms);

    assert_eq!(auto.number_of_matches("zebra"), 0);
    assert_eq!(auto.number_of_matches("automobiles"), 0);
}

#[test]
fn number_of_matches_prefix_equal_to_query() {
    let terms = vec![Term::new("car", 2), Term::new("cart", 3)];
    let auto = Autocomplete::new(&terms);

    assert_eq!(auto.number_of_matches("car"), 2);
    assert_eq!(auto.number_of_matches("cart"), 1);
}
