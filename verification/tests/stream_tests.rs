use vid_tool::registry::StringMap;
use vid_tool::stream::{
    begin_dealing, begin_non_dealing, dealing_card_assets, dealing_transition, end_non_dealing,
    finish_dealing, get_dealing_video, get_non_dealing_video, handle_connection,
    interleave_card_assets, non_dealing_check, non_dealing_video_candidate,
    placeholder_frame_index, request_acknowledgement, Cards, ConnectionAction, DealingTracker, GameState, GameStream,
    GameStreams, NonDealingCheck, ProcessRequest, ProcessResponse, StreamingStage,
    VideoPathError, WebSocketBroadcaster,
};
use vid_tool::vid::{FramePlaceholders, PlaceholderData, PlaceholderPosition, VideoProcessor};

fn strings(v: &[&str]) -> Vec<String> {
    v.iter().map(|s| s.to_string()).collect()
}

fn game_state() -> GameState {
    GameState {
        gameType: "TEEN_PATTI".to_string(),
        roundId: "TP1_1740827233326".to_string(),
        cards: Cards {
            jokerCard: None,
            blindCard: Some("CQ".to_string()),
            playerA: strings(&["C8", "C9", "C10"]),
            playerB: strings(&["S4", "H4", "SK"]),
            playerC: Some(vec![]),
        },
        winner: Some("playerA".to_string()),
    }
}

fn request(phase: &str, with_state: bool) -> ProcessRequest {
    ProcessRequest {
        phase: phase.to_string(),
        game: "TEEN_PATTI".to_string(),
        host: "HostA".to_string(),
        roundId: "TP1".to_string(),
        game_state: if with_state { Some(game_state()) } else { None },
    }
}

fn message(r: &ProcessResponse) -> (&'static str, String) {
    match r {
        ProcessResponse::Completed { message } => ("completed", message.clone()),
        ProcessResponse::Error { message } => ("error", message.clone()),
        ProcessResponse::Received { message } => ("received", message.clone()),
        ProcessResponse::CardPlaced { card, frame_number } => ("card_placed", format!("{}@{}", card, frame_number)),
        ProcessResponse::Transition { transition_type, duration } => ("transition", format!("{}/{}", transition_type, duration)),
        _ => ("other", String::new()),
    }
}

fn position(id: usize) -> PlaceholderPosition {
    PlaceholderPosition { contour_points: vec![], rect: (0, 0, 1, 1), placeholder_id: id, first_seen_frame: 0 }
}

#[test]
fn interleave_alternates_players() {
    let r = interleave_card_assets(&strings(&["a1", "a2", "a3"]), &strings(&["b1"]));
    assert_eq!(r, strings(&["a1", "b1", "a2", "a3"]));
    let r = interleave_card_assets(&strings(&["a1"]), &strings(&["b1", "b2", "b3"]));
    assert_eq!(r, strings(&["a1", "b1", "b2", "b3"]));
    let r = interleave_card_assets(&strings(&["a1", "a2"]), &strings(&["b1", "b2"]));
    assert_eq!(r, strings(&["a1", "b1", "a2", "b2"]));
    assert!(interleave_card_assets(&vec![], &vec![]).is_empty());
}

#[test]
fn dealing_assets_of_the_sample_round() {
    let p = VideoProcessor::new();
    let assets = dealing_card_assets(&p, &game_state().cards);
    assert_eq!(
        assets,
        strings(&[
            "assets/cards/clubs_8.jpg",
            "assets/cards/spades_4.jpg",
            "assets/cards/clubs_9.jpg",
            "assets/cards/hearts_4.jpg",
            "assets/cards/clubs_10.jpg",
            "assets/cards/spades_k.jpg",
        ])
    );
}

#[test]
fn cards_are_announced_once() {
    let mut t = DealingTracker::new();
    let mapping = strings(&["c0", "c1", "c0"]);
    let said = t.announce_cards(4, &[position(1), position(0), position(1)], &mapping);
    let said: Vec<_> = said.iter().map(message).collect();
    assert_eq!(said, vec![("card_placed", "c1@4".to_string()), ("card_placed", "c0@4".to_string())]);
    // Placeholder 2 maps to a card already announced; placeholder 5 to none.
    let said = t.announce_cards(5, &[position(2), position(5), position(0)], &mapping);
    assert!(said.is_empty());
}

#[test]
fn frame_index_finds_first_match() {
    let data = PlaceholderData {
        video_path: String::new(),
        frame_count: 0,
        placeholders: vec![
            FramePlaceholders { frame_number: 3, positions: vec![position(0)] },
            FramePlaceholders { frame_number: 7, positions: vec![position(1)] },
            FramePlaceholders { frame_number: 7, positions: vec![position(2)] },
        ],
        placeholder_appearances: vec![],
    };
    assert_eq!(placeholder_frame_index(&data, 7), Some(1));
    assert_eq!(placeholder_frame_index(&data, 3), Some(0));
    assert_eq!(placeholder_frame_index(&data, 4), None);
}

#[test]
fn requests_are_acknowledged_then_handled() {
    let mut streams: GameStreams = StringMap::new();
    let mut b = WebSocketBroadcaster::new();
    b.join("TP1", 1);
    begin_non_dealing(&mut streams, "TEEN_PATTI");

    assert_eq!(message(&request_acknowledgement()), ("received", "Stream processing started".to_string()));
    let out = handle_connection(&request("non_dealing", false), &mut streams, &mut b);
    assert_eq!(out.action, ConnectionAction::StartNonDealing);
    assert!(out.responses.is_empty());

    let out = handle_connection(&request("dealing", true), &mut streams, &mut b);
    assert_eq!(out.action, ConnectionAction::StartDealing);
    let out = handle_connection(&request("dealing", false), &mut streams, &mut b);
    assert_eq!(out.action, ConnectionAction::MissingGameState);
    assert!(out.responses.is_empty());

    let out = handle_connection(&request("bogus", false), &mut streams, &mut b);
    assert_eq!(out.action, ConnectionAction::InvalidRequest);
    assert_eq!(
        out.responses.iter().map(message).collect::<Vec<_>>(),
        vec![("error", "Invalid request type".to_string())]
    );
    assert!(streams.contains_key("TEEN_PATTI"));
    assert_eq!(b.recipients("TP1"), vec![1]);
    assert!(b.holds_connection(1));

    let out = handle_connection(&request("stop", false), &mut streams, &mut b);
    assert_eq!(out.action, ConnectionAction::Finished);
    assert_eq!(
        out.responses.iter().map(message).collect::<Vec<_>>(),
        vec![("completed", "Streaming stopped".to_string())]
    );
    assert!(!streams.contains_key("TEEN_PATTI"));
    assert!(b.recipients("TP1").is_empty());
    assert!(!b.holds_connection(1));
}

#[test]
fn broadcaster_joins_and_retains() {
    let mut b = WebSocketBroadcaster::new();
    b.join("r1", 10);
    b.join("r1", 11);
    b.join("r2", 20);
    b.join("r1", 12);
    assert_eq!(b.recipients("r1"), vec![10, 11, 12]);
    assert_eq!(b.recipients("r2"), vec![20]);
    assert!(b.recipients("r3").is_empty());
    b.retain_delivered("r1", &vec![true, false, true]);
    assert_eq!(b.recipients("r1"), vec![10, 12]);
    assert!(!b.holds_connection(11));
    assert!(b.holds_connection(20));
    b.retain_delivered("r3", &vec![]);
    assert!(b.recipients("r3").is_empty());
    assert_eq!(b.handle_viewer_message(Some(Some("r2".to_string())), 21), Some("r2".to_string()));
    assert_eq!(b.recipients("r2"), vec![20, 21]);
    assert_eq!(b.handle_viewer_message(Some(None), 30), Some(String::new()));
    assert_eq!(b.recipients(""), vec![30]);
    assert_eq!(b.handle_viewer_message(None, 40), None);
    b.clear();
    assert!(b.recipients("r1").is_empty());
    assert!(b.recipients("r2").is_empty());
}

#[test]
fn non_dealing_stream_lifecycle() {
    let mut streams: GameStreams = StringMap::new();
    assert_eq!(non_dealing_check(&streams, "LUCKY7A"), NonDealingCheck::Stopped);
    begin_non_dealing(&mut streams, "LUCKY7A");
    assert_eq!(non_dealing_check(&streams, "LUCKY7A"), NonDealingCheck::Continue);
    begin_dealing(&mut streams, "LUCKY7A", &game_state());
    assert_eq!(non_dealing_check(&streams, "LUCKY7A"), NonDealingCheck::SwitchToDealing);
    assert_eq!(message(&dealing_transition()), ("transition", "fade/1000".to_string()));
    let done = finish_dealing(&mut streams, "LUCKY7A").unwrap();
    assert_eq!(message(&done), ("completed", "DEALING_COMPLETE".to_string()));
    match streams.get("LUCKY7A") {
        Some(GameStream { stage, game_state }) => {
            assert_eq!(*stage, StreamingStage::DealingCompleted);
            assert_eq!(game_state.as_ref().unwrap().roundId, "TP1_1740827233326");
        }
        None => panic!("stream missing"),
    }
    let end = end_non_dealing(&mut streams, "LUCKY7A");
    assert_eq!(message(&end), ("completed", "Video playback completed".to_string()));
    assert_eq!(non_dealing_check(&streams, "LUCKY7A"), NonDealingCheck::Stopped);
    // Dealing for a game without a stream changes nothing.
    begin_dealing(&mut streams, "LUCKY7B", &game_state());
    assert!(!streams.contains_key("LUCKY7B"));
    assert!(finish_dealing(&mut streams, "LUCKY7B").is_none());
}

#[test]
fn dealing_video_paths() {
    let host = "HostA".to_string();
    assert_eq!(
        get_dealing_video("TEEN_PATTI", &host, Some("playerA")),
        Ok("assets/videos/TEEN_PATTI/HostA/playerA_1.mp4".to_string())
    );
    assert_eq!(
        get_dealing_video("DRAGON_TIGER", &host, None),
        Ok("assets/videos/DRAGON_TIGER/HostA/high_1.mp4".to_string())
    );
    let err = get_dealing_video("POKER", &host, None).unwrap_err();
    assert_eq!(err, VideoPathError::UnsupportedGameType);
    assert_eq!(err.message(), "Unsupported game type");
}

#[test]
fn non_dealing_video_paths() {
    let host = "HostA".to_string();
    assert_eq!(
        non_dealing_video_candidate("LUCKY7B", &host),
        Some("assets/videos/LUCKY7B/HostA/non_dealing_1.mp4".to_string())
    );
    assert_eq!(non_dealing_video_candidate("POKER", &host), None);
    assert_eq!(get_non_dealing_video("LUCKY7B", &host, true), "assets/videos/LUCKY7B/HostA/non_dealing_1.mp4");
    assert_eq!(get_non_dealing_video("LUCKY7B", &host, false), "assets/videos/re4.mp4");
    assert_eq!(get_non_dealing_video("POKER", &host, true), "assets/videos/re4.mp4");
}

#[test]
fn viewer_text_joins_rounds() {
    let mut b = WebSocketBroadcaster::new();
    assert_eq!(b.handle_viewer_text("{\"joinVideoStream\":\"TP1\"}", 1), Some("TP1".to_string()));
    assert_eq!(b.recipients("TP1"), vec![1]);
    assert_eq!(b.handle_viewer_text("{\"joinVideoStream\":5}", 2), Some(String::new()));
    assert_eq!(b.recipients(""), vec![2]);
    assert_eq!(b.handle_viewer_text("{\"other\":\"TP1\"}", 3), None);
    assert_eq!(b.handle_viewer_text("not json", 4), None);
    assert_eq!(b.handle_viewer_text("[\"joinVideoStream\"]", 5), None);
    assert_eq!(b.recipients("TP1"), vec![1]);
    assert!(!b.holds_connection(3));
}
