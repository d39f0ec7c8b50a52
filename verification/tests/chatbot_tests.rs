use cs_projects::chatbot::{
    cached_reply_text, error_reply, prompt_angry_customer, prompt_angsty_teenager,
    prompt_friendly_alien, prompt_pirate, reply_text, session_filename, visible_history,
    HistoryEntry, Role, SessionRegistry, SessionTable,
};

fn entry(role: Role, text: &str) -> HistoryEntry {
    HistoryEntry { role, content: text.to_string() }
}

#[test]
fn history_drops_system_prompts() {
    let history = vec![
        entry(Role::SystemPrompt, "be a pirate"),
        entry(Role::UserMessage, "hello"),
        entry(Role::ModelAnswer, "arr"),
        entry(Role::UserMessage, "bye"),
    ];
    assert_eq!(visible_history(&history), vec!["hello", "arr", "bye"]);
}

#[test]
fn empty_history_shows_nothing() {
    assert!(visible_history(&Vec::new()).is_empty());
    let only_prompt = vec![entry(Role::SystemPrompt, "x")];
    assert!(visible_history(&only_prompt).is_empty());
}

#[test]
fn filename_appends_txt() {
    assert_eq!(session_filename("alice"), "alice.txt");
    assert_eq!(session_filename(""), ".txt");
}

#[test]
fn replies_pass_answers_and_apologize_for_errors() {
    assert_eq!(reply_text(Ok("hi there".to_string())), "hi there");
    assert_eq!(
        reply_text(Err("model offline".to_string())),
        "Sorry, I encountered an error: model offline"
    );
    assert_eq!(error_reply("boom"), "Sorry, I encountered an error: boom");
    assert_eq!(cached_reply_text(Ok("ok".to_string())), "ok");
    assert_eq!(cached_reply_text(Err("boom".to_string())), "I encountered an error: boom");
}

#[test]
fn prompts_match_personas() {
    assert_eq!(prompt_friendly_alien(), "The assistant will act like a friendly alien");
    assert_eq!(prompt_angry_customer(), "The assistant will act like a angry customer");
    assert_eq!(prompt_angsty_teenager(), "The assistant will act like an angsty teenager");
    assert_eq!(prompt_pirate(), "The assistant will act like a pirate");
}

#[test]
fn registry_gives_each_user_one_session() {
    let mut reg = SessionRegistry::new();
    assert_eq!(reg.find("bob"), None);
    assert_eq!(reg.register("bob"), (0, true));
    assert_eq!(reg.register("amy"), (1, true));
    assert_eq!(reg.register("bob"), (0, false));
    assert_eq!(reg.find("amy"), Some(1));
    assert_eq!(reg.find("carl"), None);
    assert_eq!(reg.len(), 2);
}

#[test]
fn table_keeps_one_session_per_user() {
    let mut t: SessionTable<Vec<String>> = SessionTable::new();
    assert_eq!(t.len(), 0);
    assert_eq!(t.find("ann"), None);
    assert_eq!(t.insert("ann", vec!["hi".to_string()]), (0, true));
    assert_eq!(t.insert("bob", Vec::new()), (1, true));
    // a second session for ann is dropped; ann keeps the first
    assert_eq!(t.insert("ann", vec!["other".to_string()]), (0, false));
    assert_eq!(t.len(), 2);
    assert_eq!(t.find("bob"), Some(1));
    assert_eq!(t.session(0), &vec!["hi".to_string()]);
    t.session_mut(1).push("hello".to_string());
    assert_eq!(t.session(1), &vec!["hello".to_string()]);
    assert_eq!(t.session(0), &vec!["hi".to_string()]);
}
