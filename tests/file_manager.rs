use flight_data::file_manager::{
    contains_comma, explorer_show_plan, file_uri_of, finder_show_plan, freedesktop_show_plan,
    ShowAction, BUS_CALL_TIMEOUT_SECS,
};

fn launched(a: ShowAction) -> (String, Vec<String>) {
    match a {
        ShowAction::Launch { program, args } => (program, args),
        ShowAction::ShowItems { .. } => panic!("expected a launch"),
    }
}

fn strings(v: &[&str]) -> Vec<String> {
    v.iter().map(|s| s.to_string()).collect()
}

#[test]
fn comma_path_opens_parent_folder_even_with_bus() {
    let plan = freedesktop_show_plan(&"/home/pilot/a,b.csv".to_string(), true, false);
    assert_eq!(launched(plan), ("xdg-open".to_string(), strings(&["/home/pilot"])));
}

#[test]
fn comma_directory_is_opened_itself() {
    let plan = freedesktop_show_plan(&"/home/pilot/x,y".to_string(), true, true);
    assert_eq!(launched(plan), ("xdg-open".to_string(), strings(&["/home/pilot/x,y"])));
}

#[test]
fn missing_bus_always_falls_back() {
    let plan = freedesktop_show_plan(&"/data/flights/log.csv".to_string(), false, false);
    assert_eq!(launched(plan), ("xdg-open".to_string(), strings(&["/data/flights"])));
    let plan = freedesktop_show_plan(&"/data/flights".to_string(), false, true);
    assert_eq!(launched(plan), ("xdg-open".to_string(), strings(&["/data/flights"])));
}

#[test]
fn fallback_folder_of_root_and_bare_names() {
    let plan = freedesktop_show_plan(&"/".to_string(), false, false);
    assert_eq!(launched(plan), ("xdg-open".to_string(), strings(&["/"])));
    let plan = freedesktop_show_plan(&"log.csv".to_string(), false, false);
    assert_eq!(launched(plan), ("xdg-open".to_string(), strings(&[""])));
}

#[test]
fn directory_with_bus_asks_file_manager_once() {
    let plan = freedesktop_show_plan(&"/home/pilot/flights".to_string(), true, true);
    match plan {
        ShowAction::ShowItems { uris, startup_id, timeout_secs } => {
            assert_eq!(uris, strings(&["file:///home/pilot/flights"]));
            assert_eq!(startup_id, "");
            assert_eq!(timeout_secs, 5);
        }
        ShowAction::Launch { .. } => panic!("expected a bus request"),
    }
}

#[test]
fn bus_request_is_bounded_to_five_seconds() {
    assert_eq!(BUS_CALL_TIMEOUT_SECS, 5);
    match freedesktop_show_plan(&"/tmp/a.csv".to_string(), true, false) {
        ShowAction::ShowItems { timeout_secs, uris, .. } => {
            assert_eq!(timeout_secs, 5);
            assert_eq!(uris, strings(&["file:///tmp/a.csv"]));
        }
        ShowAction::Launch { .. } => panic!("expected a bus request"),
    }
}

#[test]
fn explorer_selects_the_item() {
    let plan = explorer_show_plan(&"C:\\flights\\a.csv".to_string());
    assert_eq!(launched(plan), ("explorer".to_string(), strings(&["/select,", "C:\\flights\\a.csv"])));
}

#[test]
fn finder_opens_directories_and_reveals_files() {
    let plan = finder_show_plan(&"/Users/p/flights".to_string(), true);
    assert_eq!(launched(plan), ("open".to_string(), strings(&["/Users/p/flights"])));
    let plan = finder_show_plan(&"/Users/p/flights/a.csv".to_string(), false);
    assert_eq!(launched(plan), ("open".to_string(), strings(&["-R", "/Users/p/flights/a.csv"])));
}

#[test]
fn comma_detection_and_uri() {
    assert!(contains_comma("a,b"));
    assert!(!contains_comma("ab"));
    assert!(!contains_comma(""));
    assert_eq!(file_uri_of(&"/x y".to_string()), "file:///x y");
}
