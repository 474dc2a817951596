use dancelist::dancestyle::{distinct_styles, every_style, has_style, DanceStyle, STYLE_COUNT};

#[test]
fn every_style_stands_at_its_position() {
    let styles = every_style();
    assert_eq!(styles.len(), STYLE_COUNT);
    assert_eq!(
        styles,
        vec![
            DanceStyle::Balfolk,
            DanceStyle::Contra,
            DanceStyle::EnglishCeilidh,
            DanceStyle::Playford,
            DanceStyle::Reeling,
            DanceStyle::ScottishCeilidh,
            DanceStyle::ScottishCountryDance,
        ]
    );
    for (position, style) in styles.iter().enumerate() {
        assert_eq!(style.index(), position);
    }
}

#[test]
fn the_declared_order_is_the_order_of_the_styles() {
    let styles = every_style();
    for a in &styles {
        for b in &styles {
            assert_eq!(a < b, a.index() < b.index());
        }
    }
}

#[test]
fn a_style_is_found_among_styles() {
    let styles = vec![DanceStyle::Reeling, DanceStyle::Contra];
    assert!(has_style(&styles, DanceStyle::Contra));
    assert!(has_style(&styles, DanceStyle::Reeling));
    assert!(!has_style(&styles, DanceStyle::Balfolk));
    assert!(!has_style(&vec![], DanceStyle::Balfolk));
}

#[test]
fn styles_are_put_in_the_declared_order() {
    assert_eq!(
        distinct_styles(&vec![
            DanceStyle::ScottishCountryDance,
            DanceStyle::Contra,
            DanceStyle::Playford,
            DanceStyle::Contra,
            DanceStyle::Balfolk,
            DanceStyle::ScottishCountryDance,
        ]),
        vec![
            DanceStyle::Balfolk,
            DanceStyle::Contra,
            DanceStyle::Playford,
            DanceStyle::ScottishCountryDance,
        ]
    );
    assert_eq!(distinct_styles(&vec![]), vec![]);
}

#[test]
fn every_style_has_its_name() {
    let names: Vec<&str> = every_style().into_iter().map(|style| style.name()).collect();
    assert_eq!(
        names,
        vec![
            "Balfolk",
            "Contra",
            "English Ceilidh",
            "Playford",
            "Reeling",
            "Scottish Ceilidh",
            "Scottish Country Dance",
        ]
    );
}
