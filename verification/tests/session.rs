use recipe_scaler::session::OutOfRange;
use recipe_scaler::session::Ratio;
use recipe_scaler::session::RecipeSession;

fn session_with(rows: &[(&str, &str, &str)]) -> RecipeSession {
    let mut s = RecipeSession::new();
    for (i, (name, amount, unit)) in rows.iter().enumerate() {
        s.add();
        s.set_name(i, String::from(*name)).unwrap();
        s.set_amount_text(i, String::from(*amount)).unwrap();
        s.set_unit(i, String::from(*unit)).unwrap();
    }
    s
}

#[test]
fn add_appends_blank_row() {
    let mut s = RecipeSession::new();
    assert_eq!(s.len(), 0);
    s.add();
    assert_eq!(s.len(), 1);
    let row = s.get(0).unwrap();
    assert_eq!(row.name, "");
    assert_eq!(row.amount_text, "");
    assert_eq!(row.unit, "");
    assert_eq!(row.reference_target_text, "");
    assert_eq!(row.scaled_amount_text, "");
    assert_eq!(row.amount, None);
}

#[test]
fn get_and_edits_out_of_range() {
    let mut s = session_with(&[("Flour", "200", "g"), ("Sugar", "100", "g")]);
    assert!(s.get(2).is_err());
    assert_eq!(s.set_name(9, String::from("x")), Err(OutOfRange));
    assert_eq!(s.set_amount_text(9, String::from("x")), Err(OutOfRange));
    assert_eq!(s.set_unit(9, String::from("x")), Err(OutOfRange));
    assert_eq!(s.set_target_text(9, String::from("x")), Err(OutOfRange));
    assert_eq!(s.set_selected(2), Err(OutOfRange));
}

#[test]
fn remove_out_of_range_leaves_list_unchanged() {
    let mut s = session_with(&[("Flour", "200", "g"), ("Sugar", "100", "g")]);
    assert_eq!(s.remove(5), Err(OutOfRange));
    assert_eq!(s.len(), 2);
    assert_eq!(s.get(0).unwrap().name, "Flour");
    assert_eq!(s.get(1).unwrap().name, "Sugar");
}

#[test]
fn remove_adjusts_selection() {
    let mut s = session_with(&[("A", "1", "g"), ("B", "2", "g"), ("C", "3", "g")]);
    s.set_selected(1).unwrap();

    // removing after the selection leaves it unchanged
    s.remove(2).unwrap();
    assert_eq!(s.selected(), Some(1));

    // removing before the selection shifts it down by one
    s.remove(0).unwrap();
    assert_eq!(s.selected(), Some(0));
    assert_eq!(s.get(0).unwrap().name, "B");

    // removing the selected row clears the selection
    s.remove(0).unwrap();
    assert_eq!(s.selected(), None);
    assert_eq!(s.len(), 0);
}

#[test]
fn entering_on_mode_seeds_unit_ratio() {
    let mut s = session_with(&[("Flour", "200", "g"), ("Sugar", "100", "g")]);
    s.set_selected(0).unwrap();
    s.set_editing(true);
    s.recompute();
    // the target is seeded from the reference's own amount text
    assert_eq!(s.get(0).unwrap().reference_target_text, "200");
    let r = s.ratio();
    assert_eq!(r.num, r.den);
    // every other row's scaled amount equals its own original amount
    assert_eq!(s.get(1).unwrap().scaled_amount_text, "100");
}

#[test]
fn scale_scenario_and_freeze_on_invalid_reference() {
    let mut s = session_with(&[("Flour", "200", "g"), ("Sugar", "100", "g")]);
    s.set_selected(0).unwrap();
    s.set_editing(true);
    s.set_target_text(0, String::from("400")).unwrap();
    s.recompute();
    assert_eq!(s.get(1).unwrap().scaled_amount_text, "200");
    let r = s.ratio();
    assert_eq!((r.num, r.den), (4_000_000, 2_000_000));

    // an unparseable reference amount freezes the ratio and the derived text
    s.set_amount_text(0, String::from("abc")).unwrap();
    s.recompute();
    assert_eq!(s.get(1).unwrap().scaled_amount_text, "200");
    let r2 = s.ratio();
    assert_eq!((r2.num, r2.den), (4_000_000, 2_000_000));
}

#[test]
fn freeze_on_invalid_row_amount() {
    let mut s = session_with(&[("Flour", "200", "g"), ("Sugar", "100", "g")]);
    s.set_selected(0).unwrap();
    s.set_editing(true);
    s.set_target_text(0, String::from("400")).unwrap();
    s.recompute();
    assert_eq!(s.get(1).unwrap().scaled_amount_text, "200");
    assert_eq!(s.get(1).unwrap().amount, Some(1_000_000));

    // the row's own text becomes invalid: its derived text stays as it was
    s.set_amount_text(1, String::from("oops")).unwrap();
    s.recompute();
    assert_eq!(s.get(1).unwrap().scaled_amount_text, "200");
    assert_eq!(s.get(1).unwrap().amount, Some(1_000_000));
}

#[test]
fn zero_reference_amount_holds_ratio() {
    let mut s = session_with(&[("Flour", "0", "g"), ("Sugar", "100", "g")]);
    s.set_selected(0).unwrap();
    s.set_editing(true);
    s.set_target_text(0, String::from("5")).unwrap();
    s.recompute();
    // the default ratio is still held: no division by zero happened
    assert_eq!(s.ratio(), Ratio { num: 0, den: 1 });

    // a previously established ratio is held too
    let mut s2 = session_with(&[("Flour", "200", "g"), ("Sugar", "100", "g")]);
    s2.set_selected(0).unwrap();
    s2.set_editing(true);
    s2.set_target_text(0, String::from("400")).unwrap();
    s2.recompute();
    s2.set_amount_text(0, String::from("0")).unwrap();
    s2.recompute();
    assert_eq!((s2.ratio().num, s2.ratio().den), (4_000_000, 2_000_000));
    assert_eq!(s2.get(1).unwrap().scaled_amount_text, "200");
}

#[test]
fn off_mode_changes_nothing() {
    let mut s = session_with(&[("Flour", "200", "g"), ("Sugar", "100", "g")]);
    s.set_selected(0).unwrap();
    s.recompute();
    assert_eq!(s.get(0).unwrap().reference_target_text, "");
    assert_eq!(s.get(1).unwrap().scaled_amount_text, "");
    assert_eq!(s.ratio(), Ratio { num: 0, den: 1 });
}

#[test]
fn fractional_scaling_is_exact() {
    let mut s = session_with(&[("Milk", "2.5", "dl"), ("Butter", "1.25", "dl")]);
    s.set_selected(0).unwrap();
    s.set_editing(true);
    s.set_target_text(0, String::from("5")).unwrap();
    s.recompute();
    assert_eq!((s.ratio().num, s.ratio().den), (50_000, 25_000));
    assert_eq!(s.get(1).unwrap().scaled_amount_text, "2.5000");
}
