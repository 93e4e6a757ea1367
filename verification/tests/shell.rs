use text_tools::router::{
    is_active, menu_routes, route_of_fragment, Route, Session, ToolOutput,
};

#[test]
fn fragments_select_their_tool() {
    assert_eq!(route_of_fragment("#/base64"), Route::Base64);
    assert_eq!(route_of_fragment("#/digest"), Route::Digest);
    assert_eq!(route_of_fragment("#/base-conv"), Route::BaseConverter);
    assert_eq!(route_of_fragment("#/wc"), Route::CharCounter);
    assert_eq!(route_of_fragment("#/regex"), Route::Regex);
    assert_eq!(route_of_fragment("#/sudden-death"), Route::SuddenDeath);
    assert_eq!(route_of_fragment(""), Route::Index);
    assert_eq!(route_of_fragment("#/no-such-tool"), Route::Index);
}

#[test]
fn navigation_mounts_one_tool_and_discards_state() {
    let mut session = Session::new();
    assert_eq!(session.route, Route::Index);
    assert!(matches!(session.current_output(), ToolOutput::Idle));

    session.navigate("#/digest");
    assert_eq!(session.route, Route::Digest);
    for entry in menu_routes() {
        assert_eq!(is_active(session.route, entry), entry == Route::Digest);
    }
    session.set_input("abc");
    assert_eq!(session.input, "abc");
    assert!(matches!(session.current_output(), ToolOutput::Text(_)));

    session.navigate("#/wc");
    assert_eq!(session.route, Route::CharCounter);
    assert_eq!(session.input, "");
}

#[test]
fn digest_view_shows_the_digest() {
    let mut session = Session::new();
    session.navigate("#/digest");
    session.set_input("abc");
    match session.current_output() {
        ToolOutput::Text(s) => {
            assert_eq!(s, "ba7816bf8f01cfea414140de5dae2223b00361a396177a9cb410ff61f20015ad");
        },
        _ => panic!("the digest tool must show a digest"),
    }
}

#[test]
fn counter_view_shows_counts() {
    let mut session = Session::new();
    session.navigate("#/wc");
    session.set_input("a b\nc");
    match session.current_output() {
        ToolOutput::Counts(c) => {
            assert_eq!(c.characters, 5);
            assert_eq!(c.words, 2);
            assert_eq!(c.lines, 2);
            assert_eq!(c.bytes, 5);
        },
        _ => panic!("the character counter must show counts"),
    }
}

#[test]
fn converter_view_reports_errors() {
    let mut session = Session::new();
    session.navigate("#/base-conv");
    session.set_input("12a");
    match session.current_output() {
        ToolOutput::Failed(m) => assert_eq!(m, "invalid digits for the chosen base"),
        _ => panic!("bad digits must fail"),
    }
}
