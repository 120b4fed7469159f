use woolabels::{Gui, Msg, RowParseError};

const GOOD: &str = "a,b,c,d,e,f,g,h,i,j,k,l,m,n,o,p\n7,,,Anna,\"57,10\",5,,,,,,,,mela,1,\"1,5\"\n";

const BAD: &str = "a,b,c,d,e,f,g,h,i,j,k,l,m,n,o,p\n7,,,Anna,\"57,10\",5,,,,,,,,mela,one,\"1,5\"\n";

#[test]
fn screen_starts_empty_with_the_switch_on() {
    let gui = Gui::create();
    assert!(gui.input_data.is_none());
    assert!(gui.error.is_none());
    assert!(gui.multipack);
}

#[test]
fn good_text_replaces_the_rows() {
    let mut gui = Gui::create();
    assert!(gui.update(Msg::UpdateCsv(GOOD.to_string())));
    assert!(gui.error.is_none());
    assert_eq!(gui.input_data.as_ref().unwrap().data.len(), 1);
    assert_eq!(gui.input_data.as_ref().unwrap().data[0].order_id, 7);
    assert!(gui.multipack);
}

#[test]
fn bad_text_leaves_no_rows_of_the_text_before() {
    let mut gui = Gui::create();
    gui.update(Msg::UpdateCsv(GOOD.to_string()));
    assert!(gui.update(Msg::UpdateCsv(BAD.to_string())));
    assert!(gui.input_data.is_none());
    match &gui.error {
        Some(RowParseError::InvalidField { error, .. }) => assert_eq!(error.column, 14),
        other => panic!("unexpected: {:?}", other),
    }
}

#[test]
fn good_text_clears_the_error_of_the_text_before() {
    let mut gui = Gui::create();
    gui.update(Msg::UpdateCsv(BAD.to_string()));
    assert!(gui.error.is_some());
    gui.update(Msg::UpdateCsv(GOOD.to_string()));
    assert!(gui.error.is_none());
    assert!(gui.input_data.is_some());
}

#[test]
fn empty_text_is_read_as_no_rows() {
    let mut gui = Gui::create();
    gui.update(Msg::UpdateCsv(String::new()));
    assert!(gui.error.is_none());
    assert_eq!(gui.input_data.unwrap().data.len(), 0);
}

#[test]
fn switch_flips_and_leaves_the_rows() {
    let mut gui = Gui::create();
    gui.update(Msg::UpdateCsv(GOOD.to_string()));
    assert!(gui.update(Msg::ToggleMultipack));
    assert!(!gui.multipack);
    assert_eq!(gui.input_data.as_ref().unwrap().data.len(), 1);
    assert!(gui.error.is_none());
    assert!(gui.update(Msg::ToggleMultipack));
    assert!(gui.multipack);
}
