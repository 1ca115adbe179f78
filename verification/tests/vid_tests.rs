use vid_tool::geometry::{expand_rect, middle_band, Rect, Size};
use vid_tool::ordering::stable_sort_order;
use vid_tool::preprocess::should_scan_video;
use vid_tool::scan::PlaceholderTracker;
use vid_tool::text::placeholder_path_for;
use vid_tool::vid::{
    create_placements_from_stored, plan_overlays, DetectedRegion, GameData, PlaceholderAppearance,
    PlaceholderPosition, VideoProcessor,
};

fn position(id: usize, x: i32) -> PlaceholderPosition {
    PlaceholderPosition {
        contour_points: vec![(x, 0), (x + 5, 0), (x + 5, 5)],
        rect: (x, 0, 5, 5),
        placeholder_id: id,
        first_seen_frame: 0,
    }
}

fn region(x: i32, y: i32, w: i32, h: i32) -> DetectedRegion {
    DetectedRegion {
        contour: vec![(x, y), (x + w, y), (x + w, y + h), (x, y + h)],
        rect: Rect::new(x, y, w, h),
    }
}

fn cards(names: &[&str]) -> GameData {
    GameData { card_assets: names.iter().map(|s| s.to_string()).collect() }
}

#[test]
fn expand_rect_pads_and_clips() {
    let size = Size { width: 100, height: 50 };
    let r = expand_rect(&Rect::new(5, 20, 10, 10), 10, size);
    assert_eq!(r, Rect::new(0, 10, 30, 30));
    let r = expand_rect(&Rect::new(90, 45, 10, 5), 10, size);
    assert_eq!(r, Rect::new(80, 35, 20, 15));
    let r = expand_rect(&Rect::new(40, 20, 10, 10), 10, size);
    assert_eq!(r, Rect::new(30, 10, 30, 30));
}

#[test]
fn middle_band_is_middle_third() {
    assert_eq!(middle_band(640, 480), Rect::new(0, 160, 640, 160));
    assert_eq!(middle_band(10, 7), Rect::new(0, 2, 10, 2));
    assert_eq!(middle_band(10, -7), Rect::new(0, -2, 10, -2));
}

#[test]
fn stable_sort_order_keeps_ties_in_place() {
    assert_eq!(stable_sort_order(&vec![3, 1, 2, 1]), vec![1, 3, 2, 0]);
    assert_eq!(stable_sort_order(&vec![]), Vec::<usize>::new());
    assert_eq!(stable_sort_order(&vec![5, 5, 5]), vec![0, 1, 2]);
    assert_eq!(stable_sort_order(&vec![-1, 7, -3]), vec![2, 0, 1]);
}

#[test]
fn card_asset_paths_follow_suit_and_rank() {
    let p = VideoProcessor::new();
    assert_eq!(p.get_card_asset_path("H10"), "assets/cards/hearts_10.jpg");
    assert_eq!(p.get_card_asset_path("SK"), "assets/cards/spades_k.jpg");
    assert_eq!(p.get_card_asset_path("DQ"), "assets/cards/diamond_q.jpg");
    assert_eq!(p.get_card_asset_path("C8"), "assets/cards/clubs_8.jpg");
    assert_eq!(p.get_card_asset_path("X5"), "assets/cards/unknown_5.jpg");
    assert_eq!(p.get_card_asset_path("H"), "assets/cards/hearts_.jpg");
}

#[test]
fn stored_positions_get_cards_by_id() {
    let positions = vec![position(2, 20), position(0, 0), position(1, 10), position(0, 30)];
    let placements = create_placements_from_stored(&positions, &cards(&["a", "b", "c"]));
    assert_eq!(placements.len(), 3);
    assert_eq!(placements[0].position, Rect::new(0, 0, 5, 5));
    assert_eq!(placements[0].card_asset_path, "a");
    assert_eq!(placements[1].position, Rect::new(30, 0, 5, 5));
    assert_eq!(placements[1].card_asset_path, "b");
    assert_eq!(placements[1].contour, vec![(30, 0), (35, 0), (35, 5)]);
    assert_eq!(placements[2].position, Rect::new(10, 0, 5, 5));
    assert_eq!(placements[2].card_asset_path, "c");
    let few = create_placements_from_stored(&positions, &cards(&["a"]));
    assert_eq!(few.len(), 1);
    let none = create_placements_from_stored(&positions, &cards(&[]));
    assert!(none.is_empty());
}

#[test]
fn detected_regions_are_taken_left_to_right() {
    let p = VideoProcessor::new();
    let regions = vec![region(30, 0, 5, 5), region(10, 0, 5, 5), region(20, 0, 5, 5)];
    // Three cards: the first two are skipped, one player card is left.
    let placements = p.detect_placeholders(&regions, &cards(&["j", "b", "x"]));
    assert_eq!(placements.len(), 1);
    assert_eq!(placements[0].position.x, 10);
    assert_eq!(placements[0].card_asset_path, "x");
    // Two cards: none are skipped.
    let placements = p.detect_placeholders(&regions, &cards(&["a", "b"]));
    assert_eq!(placements.len(), 2);
    assert_eq!(placements[0].position.x, 10);
    assert_eq!(placements[0].card_asset_path, "a");
    assert_eq!(placements[1].position.x, 20);
    assert_eq!(placements[1].card_asset_path, "b");
    // Equal left edges keep their order.
    let tied = vec![region(10, 1, 5, 5), region(10, 2, 5, 5)];
    let placements = p.detect_placeholders(&tied, &cards(&["a", "b"]));
    assert_eq!(placements[0].position.y, 1);
    assert_eq!(placements[1].position.y, 2);
}

#[test]
fn frames_are_paced_33_ms_apart() {
    let mut p = VideoProcessor::new();
    assert!(p.claim_frame_slot(1_000_000_000));
    assert!(!p.claim_frame_slot(1_020_000_000));
    assert!(!p.claim_frame_slot(1_032_999_999));
    assert!(p.claim_frame_slot(1_033_000_000));
    // A clock that went backwards counts as no time passed.
    assert!(!p.claim_frame_slot(5));
    assert!(p.claim_frame_slot(2_000_000_000));
}

#[test]
fn tracker_follows_placeholders_across_frames() {
    let mut t = PlaceholderTracker::new("video.mp4".to_string(), 3);
    // Frame 0: two regions far apart start placeholders 0 and 1.
    t.observe_frame(&[region(0, 0, 10, 10), region(200, 0, 10, 10)]);
    // Frame 1: nothing green.
    t.observe_frame(&[]);
    // Frame 2: a region new on the left, and one 30 px from placeholder 1.
    t.observe_frame(&[region(400, 0, 10, 10), region(230, 0, 10, 10)]);
    assert_eq!(t.next_frame(), 3);
    let data = t.into_data();
    assert_eq!(data.video_path, "video.mp4");
    assert_eq!(data.frame_count, 3);
    assert_eq!(data.placeholders.len(), 2);
    assert_eq!(data.placeholders[0].frame_number, 0);
    let ids: Vec<usize> = data.placeholders[0].positions.iter().map(|p| p.placeholder_id).collect();
    assert_eq!(ids, vec![0, 1]);
    assert_eq!(data.placeholders[1].frame_number, 2);
    let ids: Vec<usize> = data.placeholders[1].positions.iter().map(|p| p.placeholder_id).collect();
    assert_eq!(ids, vec![1, 2]);
    assert_eq!(data.placeholders[1].positions[0].rect, (230, 0, 10, 10));
    // Placeholder 1 first appeared in frame 0; placeholder 2 in frame 2.
    assert_eq!(data.placeholders[1].positions[0].first_seen_frame, 0);
    assert_eq!(data.placeholders[1].positions[1].first_seen_frame, 2);
    assert_eq!(data.placeholders[0].positions[1].first_seen_frame, 0);
    assert_eq!(
        data.placeholder_appearances,
        vec![
            PlaceholderAppearance { frame_number: 0, placeholder_count: 1, new_placeholder_index: Some(0) },
            PlaceholderAppearance { frame_number: 0, placeholder_count: 2, new_placeholder_index: Some(1) },
            PlaceholderAppearance { frame_number: 2, placeholder_count: 3, new_placeholder_index: Some(2) },
        ]
    );
}

#[test]
fn tracker_distance_threshold_is_fifty_pixels() {
    let mut t = PlaceholderTracker::new(String::new(), 0);
    t.observe_frame(&[region(0, 0, 10, 10)]);
    // Centre moves by (30, 40): exactly 50 px, a new placeholder.
    t.observe_frame(&[region(30, 40, 10, 10)]);
    // Centre moves by (29, 40) from placeholder 1: under 50 px, the same one.
    t.observe_frame(&[region(59, 80, 10, 10)]);
    let data = t.into_data();
    assert_eq!(data.placeholder_appearances.len(), 2);
    assert_eq!(data.placeholders[2].positions[0].placeholder_id, 1);
}

#[test]
fn tracker_prefers_lowest_matching_id() {
    let mut t = PlaceholderTracker::new(String::new(), 0);
    t.observe_frame(&[region(0, 0, 10, 10), region(60, 0, 10, 10)]);
    // Centre at (35, 5): 30 px from placeholder 0 and 30 px from placeholder 1.
    t.observe_frame(&[region(30, 0, 10, 10)]);
    let data = t.into_data();
    assert_eq!(data.placeholders[1].positions[0].placeholder_id, 0);
}

#[test]
fn placeholder_path_replaces_mp4() {
    assert_eq!(placeholder_path_for("assets/videos/TEEN_PATTI/HostA/playerA_1.mp4"), "assets/videos/TEEN_PATTI/HostA/playerA_1.json");
    assert_eq!(placeholder_path_for("a.mp4.mp4"), "a.json.json");
    assert_eq!(placeholder_path_for("none.avi"), "none.avi");
    assert_eq!(placeholder_path_for(".mp"), ".mp");
    assert_eq!(placeholder_path_for("é.mp4"), "é.json");
}

#[test]
fn preprocess_picks_mp4_without_nd_prefix() {
    assert!(should_scan_video(Some("mp4"), Some("high_1.mp4")));
    assert!(!should_scan_video(Some("mp4"), Some("nd-high_1.mp4")));
    assert!(!should_scan_video(Some("json"), Some("high_1.json")));
    assert!(!should_scan_video(None, Some("README")));
    assert!(should_scan_video(Some("mp4"), None));
    assert!(should_scan_video(Some("mp4"), Some("nd.mp4")));
}

#[test]
fn overlay_plan_rebuilds_first_frame_and_changes() {
    let plan = plan_overlays(false, &vec![false, true, false], &vec![false, false, true]);
    assert_eq!(plan.rebuild, vec![0, 1, 2]);
    assert_eq!(plan.draw, vec![0, 1, 2]);
    assert!(plan.keep_frame);
    let plan = plan_overlays(true, &vec![false, true, false, false], &vec![true, false, false, true]);
    assert_eq!(plan.rebuild, vec![1]);
    assert_eq!(plan.draw, vec![0, 1, 3]);
    assert!(plan.keep_frame);
    let plan = plan_overlays(true, &vec![], &vec![]);
    assert!(plan.rebuild.is_empty());
    assert!(plan.draw.is_empty());
    assert!(!plan.keep_frame);
}

#[test]
fn stored_placements_ignore_storage_order_when_ids_differ() {
    let a = vec![position(2, 20), position(0, 0), position(1, 10)];
    let b = vec![position(1, 10), position(2, 20), position(0, 0)];
    let game = cards(&["a", "b", "c"]);
    let pa = create_placements_from_stored(&a, &game);
    let pb = create_placements_from_stored(&b, &game);
    assert_eq!(pa.len(), pb.len());
    for (x, y) in pa.iter().zip(pb.iter()) {
        assert_eq!(x.position, y.position);
        assert_eq!(x.card_asset_path, y.card_asset_path);
        assert_eq!(x.contour, y.contour);
    }
}
