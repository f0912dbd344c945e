use protohackers::chat::{greeting, name_is_valid, refusal, trim_end, Delivery, Room};

fn pairs(out: &[Delivery]) -> Vec<(String, String)> {
    out.iter().map(|d| (d.to.clone(), d.text.clone())).collect()
}

fn pair(to: &str, text: &str) -> (String, String) {
    (to.to_string(), text.to_string())
}

#[test]
fn fixed_lines() {
    assert_eq!(greeting(), "Welcome. What's your name?\n");
    assert_eq!(refusal(), "Invalid name\n");
}

#[test]
fn trailing_white_space_is_cut() {
    assert_eq!(trim_end("alice\n"), "alice");
    assert_eq!(trim_end("alice\r\n"), "alice");
    assert_eq!(trim_end("  hello  world \t \n"), "  hello  world");
    assert_eq!(trim_end("\n"), "");
    assert_eq!(trim_end(""), "");
    assert_eq!(trim_end("a\u{2003}\u{a0}"), "a");
    for text in ["x \n", " \u{3000}", "tab\t", "no"] {
        assert_eq!(trim_end(text), text.trim_end());
    }
}

#[test]
fn names_hold_letters_and_numbers_only() {
    assert!(name_is_valid("alice"));
    assert!(name_is_valid("Bob42"));
    assert!(name_is_valid("7"));
    assert!(name_is_valid("émile"));
    assert!(!name_is_valid(""));
    assert!(!name_is_valid("al ice"));
    assert!(!name_is_valid("alice!"));
    assert!(!name_is_valid("al_ice"));
    assert!(!name_is_valid("alice\n"));
}

#[test]
fn first_member_sees_an_empty_room() {
    let mut room = Room::new();
    let (name, text) = room.welcome("alice\n").unwrap();
    assert_eq!(name, "alice");
    assert_eq!(text, "* Connected users:\n");
    assert_eq!(room.len(), 0);
    let out = room.enter(&name).unwrap();
    assert!(out.is_empty());
    assert_eq!(room.len(), 1);
    assert!(room.has_member("alice"));
}

#[test]
fn later_members_see_who_is_there_and_are_announced() {
    let mut room = Room::new();
    room.enter("alice").unwrap();
    room.enter("bob").unwrap();
    let (name, text) = room.welcome("carol\r\n").unwrap();
    assert_eq!(name, "carol");
    assert_eq!(text, "* Connected users: alice bob\n");
    let out = room.enter("carol").unwrap();
    assert_eq!(
        pairs(&out),
        vec![
            pair("alice", "* New chat member: carol\n"),
            pair("bob", "* New chat member: carol\n"),
        ]
    );
    assert_eq!(room.len(), 3);
}

#[test]
fn bad_and_taken_names_are_refused() {
    let mut room = Room::new();
    room.enter("alice").unwrap();
    for line in ["\n", "", "al ice\n", "alice\n", "alice", "a-b\n", "   \n"] {
        assert_eq!(room.welcome(line), Err("Invalid name\n".to_string()), "{:?}", line);
    }
    assert!(room.enter("alice").is_none());
    assert!(room.enter("").is_none());
    assert!(room.enter("a b").is_none());
    assert_eq!(room.len(), 1);
    assert!(room.welcome("Alice\n").is_ok());
}

#[test]
fn what_is_said_goes_to_the_others() {
    let mut room = Room::new();
    room.enter("alice").unwrap();
    room.enter("bob").unwrap();
    room.enter("carol").unwrap();
    assert_eq!(
        pairs(&room.say("bob", "hello there  \r\n")),
        vec![pair("alice", "[bob] hello there\n"), pair("carol", "[bob] hello there\n")]
    );
    assert_eq!(
        pairs(&room.say("alice", "\n")),
        vec![pair("bob", "[alice] \n"), pair("carol", "[alice] \n")]
    );
}

#[test]
fn leaving_is_announced_to_those_who_stay() {
    let mut room = Room::new();
    room.enter("alice").unwrap();
    room.enter("bob").unwrap();
    room.enter("carol").unwrap();
    assert_eq!(
        pairs(&room.leave("alice")),
        vec![
            pair("bob", "* alice is no longer among us\n"),
            pair("carol", "* alice is no longer among us\n"),
        ]
    );
    assert_eq!(room.len(), 2);
    assert!(!room.has_member("alice"));
    assert!(room.has_member("bob"));
    let (_, text) = room.welcome("alice").unwrap();
    assert_eq!(text, "* Connected users: bob carol\n");
    assert_eq!(pairs(&room.leave("carol")), vec![pair("bob", "* carol is no longer among us\n")]);
    assert!(room.leave("bob").is_empty());
    assert_eq!(room.len(), 0);
}
