use session_store::session::Session;

fn call(name: &str) -> String {
    format!("c{}:{}2:{{}}", name.chars().count(), name)
}

#[test]
fn labels_are_deduplicated_and_sorted() {
    let mut s = Session::new(10);
    // A, B, A, C with A = flights_between, B = trains_between, C = get_about_place
    let payload = format!(
        "{}{}{}{}E",
        call("flights_between"),
        call("trains_between"),
        call("flights_between"),
        call("get_about_place"),
    );
    s.ask_structured(&payload);
    assert_eq!(
        s.pending_labels().unwrap(),
        vec![
            "Finding best scenery".to_string(),
            "Searching flights".to_string(),
            "Searching trains".to_string(),
        ]
    );
}

#[test]
fn labels_are_order_independent() {
    let mut a = Session::new(10);
    let mut b = Session::new(10);
    a.ask_structured(&format!("{}{}E", call("flights_between"), call("trains_between")));
    b.ask_structured(&format!("{}{}E", call("trains_between"), call("flights_between")));
    assert_eq!(a.pending_labels().unwrap(), b.pending_labels().unwrap());
}

#[test]
fn unknown_function_yields_generic_label_once() {
    let mut s = Session::new(10);
    let payload = format!("{}{}{}E", call("frobnicate"), call("levitate"), call("flights_between"));
    s.ask_structured(&payload);
    assert_eq!(
        s.pending_labels().unwrap(),
        vec!["Magic!".to_string(), "Searching flights".to_string()]
    );
}

#[test]
fn every_known_function_maps_to_its_label() {
    let cases = [
        ("flights_between", "Searching flights"),
        ("flight_booking_link", "Getting flight booking link"),
        ("flight_booking_details", "Reading flight details"),
        ("trains_between", "Searching trains"),
        ("train_seats_available", "Checking seats available"),
        ("get_about_place", "Finding best scenery"),
        ("get_hotel_by_coordinates", "Searching hotels"),
        ("get_hotel_details", "Getting hotel booking link"),
        ("get_room_availability", "Checking available rooms"),
        ("get_hotel_description", "Reading about a hotel"),
    ];
    for (name, label) in cases.iter() {
        let mut s = Session::new(10);
        s.ask_structured(&format!("{}E", call(name)));
        assert_eq!(s.pending_labels().unwrap(), vec![label.to_string()]);
    }
}

#[test]
fn joined_labels_apply_the_same_rule() {
    let mut s = Session::new(10);
    let payload = format!(
        "{}{}{}E",
        call("trains_between"),
        call("get_about_place"),
        call("trains_between"),
    );
    s.ask_structured(&payload);
    assert_eq!(
        s.pending_labels_joined().unwrap(),
        "Finding best scenery, Searching trains"
    );
}

#[test]
fn no_pending_calls_yield_no_labels() {
    let mut s = Session::new(10);
    s.ask("just text");
    assert!(s.pending_labels().unwrap().is_empty());
    assert_eq!(s.pending_labels_joined().unwrap(), "");
}

#[test]
fn function_responses_are_not_pending_calls() {
    let mut s = Session::new(10);
    s.ask_structured("r15:flights_between2:[]E");
    assert!(s.pending_labels().unwrap().is_empty());
}

#[test]
fn labels_come_from_the_latest_turn_only() {
    let mut s = Session::new(10);
    s.ask_structured(&format!("{}E", call("flights_between")));
    s.reply("here are your flights");
    assert!(s.pending_labels().unwrap().is_empty());
}
