use fyp_core::cli::{parse_pages, parse_ranges, parse_selection, Selection};

#[test]
fn merge_selections_are_parsed_and_refused_clearly() {
    let path = "rapport.pdf";
    let parse = |spec: &str| parse_selection(path, 12, spec);
    assert_eq!(parse("all").unwrap(), Selection::All);
    assert_eq!(parse(" ALL ").unwrap(), Selection::All);
    assert_eq!(parse("1,3,5-8").unwrap(), Selection::Pages(vec![0, 2, 4, 5, 6, 7]));
    assert_eq!(parse("8-5").unwrap(), Selection::Pages(vec![7, 6, 5, 4]));
    assert_eq!(parse("3,3").unwrap(), Selection::Pages(vec![2, 2]));
    for (spec, expected) in [
        ("13", "hors limites"),
        ("0", "hors limites"),
        ("2-x", "numéro de page invalide"),
        ("", "aucune page indiquée"),
        ("  ", "aucune page indiquée"),
    ] {
        let message = parse(spec).unwrap_err().message;
        assert!(message.contains(expected), "{spec:?}: {message}");
        assert!(message.contains("rapport.pdf"), "{spec:?}: {message}");
    }
}

#[test]
fn page_arguments_in_detail() {
    assert_eq!(parse_pages(" 1 , 2-3 ,, ", 3), Ok(vec![0, 1, 2]));
    assert_eq!(parse_pages("+2", 3), Ok(vec![1]));
    assert_eq!(parse_pages("\u{a0}2\u{3000}", 3), Ok(vec![1]));
    assert_eq!(
        parse_pages("4", 3).unwrap_err().message,
        "page 4 hors limites : le document a 3 pages, numérotées de 1 à 3"
    );
    assert_eq!(
        parse_pages("2", 1).unwrap_err().message,
        "page 2 hors limites : le document a 1 page, numérotées de 1 à 1"
    );
    assert_eq!(
        parse_pages("1,é", 3).unwrap_err().message,
        "numéro de page invalide : « é »"
    );
    assert_eq!(parse_pages("-", 3).unwrap_err().message, "numéro de page invalide : «  »");
    assert_eq!(parse_pages(",", 3).unwrap_err().message, "aucune page indiquée (exemple : 1,3,5-8)");
    assert_eq!(
        parse_pages("99999999999999999999999", 3).unwrap_err().message,
        "numéro de page invalide : « 99999999999999999999999 »"
    );
}

#[test]
fn split_parts() {
    assert_eq!(parse_ranges("1-3,4-6,7", 7), Ok(vec![0..3, 3..6, 6..7]));
    assert_eq!(parse_ranges("2-4, 3-5", 7), Ok(vec![1..4, 2..5]));
    assert_eq!(parse_ranges("5-2", 7).unwrap_err().message, "plage à l'envers : « 5-2 »");
    assert_eq!(parse_ranges(" , ", 7).unwrap_err().message, "aucune plage indiquée (exemple : 1-3,4-6)");
    assert!(parse_ranges("8", 7).unwrap_err().message.contains("hors limites"));
}

#[test]
fn page_lists_allow_any_unicode_whitespace() {
    assert_eq!(parse_pages(" 1 ,\u{2003}2\t,\u{3000}3\u{a0}", 3), Ok(vec![0, 1, 2]));
    assert!(parse_pages("1\u{200b}", 3).is_err());
}
