use imperium::ui::ir::{Row, Text, UiData, UiModule};
use imperium::ui::run::{lookup, resolve, visible};

fn pieces(module: &UiModule, text: Text) -> Vec<(String, String)> {
    module
        .segs(text)
        .iter()
        .map(|seg| (module.str(seg.literal).to_string(), module.str(seg.var).to_string()))
        .collect()
}

fn piece(literal: &str, var: &str) -> (String, String) {
    (literal.to_string(), var.to_string())
}

#[test]
fn texts_tokenize_into_literals_and_names() {
    let mut module = UiModule::new();
    let id = module.text("element_$ID");
    let action = module.text("hire $ID");
    let caption = module.text("$NAME!");
    assert_eq!(pieces(&module, id), vec![piece("element_", ""), piece("$ID", "ID")]);
    assert_eq!(pieces(&module, action), vec![piece("hire ", ""), piece("$ID", "ID")]);
    assert_eq!(pieces(&module, caption), vec![piece("$NAME", "NAME"), piece("!", "")]);
    // Texts land one after another in the segment table.
    assert_eq!((id.segs.0.start, action.segs.0.start, caption.segs.0.start), (0, 2, 4));
}

#[test]
fn a_dollar_without_a_name_is_literal_text() {
    let mut module = UiModule::new();
    let text = module.text("cost: 5$ or $$X, café $É");
    assert_eq!(
        pieces(&module, text),
        vec![piece("cost: 5$ or $", ""), piece("$X", "X"), piece(", café $É", "")]
    );
    let empty = module.text("");
    assert!(empty.is_empty());
    assert!(pieces(&module, empty).is_empty());
}

#[test]
fn resolve_interpolates_rows_then_globals_and_keeps_missing_vars_literal() {
    let mut data = UiData::default();
    data.bind_global("ID", "99"); // shadowed by the row's ID
    data.bind_global("YEAR", "700");
    data.begin_list("l");
    data.begin_row();
    data.bind("ID", "42");
    let row = data.rows(data.lists[0])[0];
    let mut module = UiModule::new();
    let label = module.text("hire $ID in $YEAR $MISSING");
    assert_eq!(resolve(&module, &data, row, label), "hire 42 in 700 $MISSING");
    assert_eq!(resolve(&module, &data, row, Text::default()), "");
    // Outside any row (the zero row), globals still resolve.
    assert_eq!(resolve(&module, &data, Row::default(), label), "hire 99 in 700 $MISSING");
}

#[test]
fn lookup_prefers_the_row_and_falls_back_to_globals() {
    let mut data = UiData::default();
    data.bind_global("ID", "99");
    data.begin_list("l");
    data.begin_row();
    data.bind("ID", "42");
    data.bind("ID", "43");
    let row = data.rows(data.lists[0])[0];
    assert_eq!(lookup(&data, row, "ID"), Some("42"));
    assert_eq!(lookup(&data, Row::default(), "ID"), Some("99"));
    assert_eq!(lookup(&data, row, "NAME"), None);
}

#[test]
fn nothing_bound_reads_the_source_back() {
    let data = UiData::default();
    let mut module = UiModule::new();
    let source = "$A and $B_2 cost 5$";
    let text = module.text(source);
    assert_eq!(resolve(&module, &data, Row::default(), text), source);
}

#[test]
fn visible_conditions_read_yes_or_unset() {
    let mut data = UiData::default();
    data.bind_global("OPEN", "yes");
    data.bind_global("SHUT", "no");
    let mut module = UiModule::new();
    let open = module.text("$OPEN");
    let shut = module.text("$SHUT");
    let missing = module.text("$MISSING");
    let literal = module.text("yes");
    assert!(visible(&module, &data, Row::default(), Text::default()));
    assert!(visible(&module, &data, Row::default(), open));
    assert!(visible(&module, &data, Row::default(), literal));
    assert!(!visible(&module, &data, Row::default(), shut));
    assert!(!visible(&module, &data, Row::default(), missing));
}
