use sese::colors::{GenPale, GEN_PALE_DIVISION};

#[test]
fn alignment() {
    assert!(GenPale::colors().len() == GEN_PALE_DIVISION + 2);
    assert!(GenPale::Black.index() == GEN_PALE_DIVISION);
}

#[test]
fn colors_are_in_palette_order() {
    let colors = GenPale::colors();
    for (i, c) in colors.iter().enumerate() {
        assert_eq!(c.index(), i);
    }
    assert_eq!(colors[0], GenPale::Color0);
    assert_eq!(colors[11], GenPale::White);
}
