use prog4::{error_reply, fetch_reply, hello, names_fallback, unload_reply, viewer_reply, App, Command, Msg, Request, Viewer, ViewerMsg, CORS};

fn fetch_of(cmd: Command) -> (Request, String) {
    match cmd {
        Command::Fetch(r, url) => (r, url),
        _ => panic!("expected a request"),
    }
}

#[test]
fn fixed_replies() {
    assert_eq!(hello(), "Tony API for Prog4 CSS436");
    assert_eq!(unload_reply(), "Successfully Unloaded");
    assert_eq!(error_reply("table missing"), "Error: table missing");
}

#[test]
fn names_source_status() {
    assert!(names_fallback(200).is_none());
    assert!(names_fallback(299).is_none());
    assert_eq!(names_fallback(404), Some("Error".to_string()));
    assert_eq!(names_fallback(302), Some("Error".to_string()));
    assert_eq!(names_fallback(199), Some("Error".to_string()));
}

#[test]
fn cors_headers() {
    assert_eq!(CORS::info_name(), "Add CORS headers to responses");
    let h = CORS::response_headers();
    let expected = vec![
        ("Access-Control-Allow-Origin".to_string(), "*".to_string()),
        ("Access-Control-Allow-Methods".to_string(), "POST, GET, PATCH, OPTIONS".to_string()),
        ("Access-Control-Allow-Headers".to_string(), "*".to_string()),
        ("Access-Control-Allow-Credentials".to_string(), "true".to_string()),
    ];
    assert_eq!(h, expected);
}

#[test]
fn load_and_unload_send_requests() {
    let mut app = App::create();
    let (r, url) = fetch_of(app.update(Msg::Load));
    assert_eq!(r, Request::Load);
    assert_eq!(url, "http://35.87.106.62:8000/load");
    let (r, url) = fetch_of(app.update(Msg::Unload));
    assert_eq!(r, Request::Unload);
    assert_eq!(url, "http://35.87.106.62:8000/unload");
}

#[test]
fn query_with_no_names_complains() {
    let mut app = App::create();
    match app.update(Msg::Query) {
        Command::Show(t) => assert_eq!(t, "Empty first and last name"),
        _ => panic!("expected a complaint"),
    }
}

#[test]
fn query_routes_follow_the_names_given() {
    let mut app = App::create();
    assert!(matches!(app.update(Msg::LastNameChange("Doe".to_string())), Command::Nothing));
    let (r, url) = fetch_of(app.update(Msg::Query));
    assert_eq!(r, Request::Query);
    assert_eq!(url, "http://35.87.106.62:8000/query/last/Doe");
    app.update(Msg::FirstNameChange("John".to_string()));
    let (_, url) = fetch_of(app.update(Msg::Query));
    assert_eq!(url, "http://35.87.106.62:8000/query/full/Doe%20John");
    app.update(Msg::LastNameChange(String::new()));
    let (_, url) = fetch_of(app.update(Msg::Query));
    assert_eq!(url, "http://35.87.106.62:8000/query/first/John");
    assert_eq!(app.first_name, "John");
    assert_eq!(app.last_name, "");
}

#[test]
fn site_data_replaces_text() {
    let mut app = App::create();
    assert!(matches!(app.update(Msg::SiteData("hi".to_string())), Command::Nothing));
    assert_eq!(app.site_data, "hi");
}

#[test]
fn replies_to_finished_requests() {
    assert_eq!(fetch_reply(Request::Load, Some("{}".to_string())), "Loaded: \n{}");
    assert_eq!(fetch_reply(Request::Load, None), "Error Loading");
    assert_eq!(fetch_reply(Request::Unload, Some("Successfully Unloaded".to_string())), "Successfully Unloaded");
    assert_eq!(fetch_reply(Request::Unload, None), "Error Unloading");
    assert_eq!(fetch_reply(Request::Query, Some("[]".to_string())), "Queried: \n[]");
    assert_eq!(fetch_reply(Request::Query, None), "Error querying");
}

#[test]
fn viewer_reads_its_source() {
    let mut v = Viewer::create();
    assert_eq!(v.update(ViewerMsg::Load), Some("https://s3-us-west-2.amazonaws.com/css490/input.txt".to_string()));
    assert_eq!(v.update(ViewerMsg::Query), None);
    assert_eq!(v.update(ViewerMsg::Unload), None);
    assert_eq!(v.update(ViewerMsg::SiteData("text".to_string())), None);
    assert_eq!(v.site_data, "text");
    assert_eq!(viewer_reply(None), "");
    assert_eq!(viewer_reply(Some("abc".to_string())), "abc");
}
