//! Placeholder records, card placement and the video processor's own state.
use vstd::prelude::*;
use vstd::string::*;
use crate::geometry::Rect;
use crate::ordering::{
    int_keys, is_index_permutation, is_stable_sort_order, lemma_is_the_stable_order,
    lemma_stable_order_exists, stable_order, stable_sort_order,
};
use crate::text::{all_ascii, ascii_lowercase, lowercase, owned, string_views, to_lowercase};

verus! {

/// The card assets of a round, in the order in which they are dealt.
pub struct GameData {
    pub card_assets: Vec<String>,
}

impl View for GameData {
    type V = Seq<Seq<char>>;

    open spec fn view(&self) -> Seq<Seq<char>> {
        string_views(self.card_assets@)
    }
}

/// The moment a new placeholder was first tracked.
#[derive(Clone, Copy, Debug, PartialEq, Eq, Structural)]
pub struct PlaceholderAppearance {
    pub frame_number: i32,
    pub placeholder_count: usize,
    /// The index of the new placeholder that appeared.
    pub new_placeholder_index: Option<usize>,
}

/// A placeholder seen in one frame.
pub struct PlaceholderPosition {
    pub contour_points: Vec<(i32, i32)>,
    /// x, y, width, height
    pub rect: (i32, i32, i32, i32),
    /// Consistent id for tracking across frames.
    pub placeholder_id: usize,
    pub first_seen_frame: i32,
}

pub ghost struct PlaceholderPositionView {
    pub contour_points: Seq<(i32, i32)>,
    pub rect: (i32, i32, i32, i32),
    pub placeholder_id: usize,
    pub first_seen_frame: i32,
}

impl View for PlaceholderPosition {
    type V = PlaceholderPositionView;

    open spec fn view(&self) -> PlaceholderPositionView {
        PlaceholderPositionView {
            contour_points: self.contour_points@,
            rect: self.rect,
            placeholder_id: self.placeholder_id,
            first_seen_frame: self.first_seen_frame,
        }
    }
}

pub open spec fn position_views(ps: Seq<PlaceholderPosition>) -> Seq<PlaceholderPositionView> {
    ps.map_values(|p: PlaceholderPosition| p@)
}

/// The placeholders seen in one frame, ordered by placeholder id.
pub struct FramePlaceholders {
    pub frame_number: i32,
    pub positions: Vec<PlaceholderPosition>,
}

pub ghost struct FramePlaceholdersView {
    pub frame_number: i32,
    pub positions: Seq<PlaceholderPositionView>,
}

impl View for FramePlaceholders {
    type V = FramePlaceholdersView;

    open spec fn view(&self) -> FramePlaceholdersView {
        FramePlaceholdersView {
            frame_number: self.frame_number,
            positions: position_views(self.positions@),
        }
    }
}

pub open spec fn frame_views(fs: Seq<FramePlaceholders>) -> Seq<FramePlaceholdersView> {
    fs.map_values(|f: FramePlaceholders| f@)
}

/// Everything a placeholder scan of one video records.
pub struct PlaceholderData {
    pub video_path: String,
    pub frame_count: i32,
    pub placeholders: Vec<FramePlaceholders>,
    pub placeholder_appearances: Vec<PlaceholderAppearance>,
}

pub ghost struct PlaceholderDataView {
    pub video_path: Seq<char>,
    pub frame_count: i32,
    pub placeholders: Seq<FramePlaceholdersView>,
    pub placeholder_appearances: Seq<PlaceholderAppearance>,
}

impl View for PlaceholderData {
    type V = PlaceholderDataView;

    open spec fn view(&self) -> PlaceholderDataView {
        PlaceholderDataView {
            video_path: self.video_path@,
            frame_count: self.frame_count,
            placeholders: frame_views(self.placeholders@),
            placeholder_appearances: self.placeholder_appearances@,
        }
    }
}

/// A card asset to be drawn into a placeholder of a frame.
pub struct CardPlacement {
    pub position: Rect,
    pub card_asset_path: String,
    pub contour: Vec<(i32, i32)>,
}

pub ghost struct CardPlacementView {
    pub position: Rect,
    pub card_asset_path: Seq<char>,
    pub contour: Seq<(i32, i32)>,
}

impl View for CardPlacement {
    type V = CardPlacementView;

    open spec fn view(&self) -> CardPlacementView {
        CardPlacementView {
            position: self.position,
            card_asset_path: self.card_asset_path@,
            contour: self.contour@,
        }
    }
}

pub open spec fn placement_views(ps: Seq<CardPlacement>) -> Seq<CardPlacementView> {
    ps.map_values(|p: CardPlacement| p@)
}

/// A green region found in a frame: its outline and bounding rectangle.
pub struct DetectedRegion {
    pub contour: Vec<(i32, i32)>,
    pub rect: Rect,
}

pub ghost struct DetectedRegionView {
    pub contour: Seq<(i32, i32)>,
    pub rect: Rect,
}

impl View for DetectedRegion {
    type V = DetectedRegionView;

    open spec fn view(&self) -> DetectedRegionView {
        DetectedRegionView { contour: self.contour@, rect: self.rect }
    }
}

pub open spec fn region_views(rs: Seq<DetectedRegion>) -> Seq<DetectedRegionView> {
    rs.map_values(|r: DetectedRegion| r@)
}

/// A copy of a list of points.
pub fn copy_points(v: &Vec<(i32, i32)>) -> (r: Vec<(i32, i32)>)
    ensures
        r@ == v@,
{
    let mut r: Vec<(i32, i32)> = Vec::new();
    let mut i: usize = 0;
    while i < v.len()
        invariant
            0 <= i <= v.len(),
            r@ == v@.subrange(0, i as int),
        decreases v.len() - i,
    {
        r.push(v[i]);
        i = i + 1;
    }
    assert(r@ =~= v@);
    r
}

pub open spec fn min_nat(a: nat, b: nat) -> nat {
    if a <= b {
        a
    } else {
        b
    }
}

pub open spec fn rect_of(t: (i32, i32, i32, i32)) -> Rect {
    Rect { x: t.0, y: t.1, width: t.2, height: t.3 }
}

/// The placeholder ids of stored positions, as sort keys.
pub open spec fn id_keys(ps: Seq<PlaceholderPositionView>) -> Seq<int> {
    ps.map_values(|p: PlaceholderPositionView| p.placeholder_id as int)
}

/// Stored positions ordered by placeholder id (stably), paired with the
/// cards in dealing order, as many as there are of the fewer.
pub open spec fn spec_create_placements(
    ps: Seq<PlaceholderPositionView>,
    cards: Seq<Seq<char>>,
) -> Seq<CardPlacementView> {
    let order = stable_order(id_keys(ps));
    Seq::new(
        min_nat(ps.len(), cards.len()),
        |k: int|
            CardPlacementView {
                position: rect_of(ps[order[k] as int].rect),
                card_asset_path: cards[k],
                contour: ps[order[k] as int].contour_points,
            },
    )
}

/// Turns the stored placeholders of a frame into card placements: the
/// placeholder with the lowest id receives the first card, the next one the
/// second card, and so on.
pub fn create_placements_from_stored(positions: &[PlaceholderPosition], game_data: &GameData) -> (r:
    Vec<CardPlacement>)
    ensures
        placement_views(r@) == spec_create_placements(position_views(positions@), game_data@),
{
    let ghost ps = position_views(positions@);
    let n = positions.len();
    let mut keys: Vec<i128> = Vec::new();
    let mut j: usize = 0;
    while j < n
        invariant
            n == positions@.len(),
            0 <= j <= n,
            keys@.len() == j,
            forall|k: int| 0 <= k < j ==> #[trigger] keys@[k] == positions@[k].placeholder_id as i128,
        decreases n - j,
    {
        keys.push(positions[j].placeholder_id as i128);
        j = j + 1;
    }
    assert(int_keys(keys@) =~= id_keys(ps));
    let order = stable_sort_order(&keys);
    let cards = &game_data.card_assets;
    let count = if n <= cards.len() {
        n
    } else {
        cards.len()
    };
    let ghost spec_r = spec_create_placements(ps, game_data@);
    let mut placements: Vec<CardPlacement> = Vec::new();
    let mut k: usize = 0;
    while k < count
        invariant
            n == positions@.len(),
            ps == position_views(positions@),
            order@ == stable_order(id_keys(ps)),
            is_stable_sort_order(id_keys(ps), order@),
            count == min_nat(n as nat, cards@.len()),
            spec_r == spec_create_placements(ps, game_data@),
            cards == &game_data.card_assets,
            0 <= k <= count,
            placement_views(placements@) == spec_r.subrange(0, k as int),
        decreases count - k,
    {
        let idx = order[k];
        assert(idx < n);
        assert(ps[idx as int] == positions@[idx as int]@);
        assert(game_data@[k as int] == cards@[k as int]@);
        let p = &positions[idx];
        let placement = CardPlacement {
            position: Rect::new(p.rect.0, p.rect.1, p.rect.2, p.rect.3),
            card_asset_path: cards[k].clone(),
            contour: copy_points(&p.contour_points),
        };
        assert(placement@ == spec_r[k as int]);
        let ghost old_views = placement_views(placements@);
        placements.push(placement);
        assert(placement_views(placements@) =~= old_views.push(placement@));
        assert(placement_views(placements@) =~= spec_r.subrange(0, k + 1));
        k = k + 1;
    }
    assert(spec_r.subrange(0, count as int) =~= spec_r);
    placements
}

/// Every placement comes from its own stored position: the k-th placement has
/// the k-th card, and the rectangle (x, y, width, height) and contour of the
/// stored position `src[k]`; no stored position is used twice, the positions
/// are taken by increasing placeholder id (and in storage order among equal
/// ids), and there are as many placements as the fewer of positions and cards.
pub proof fn lemma_placements_come_from_stored_positions(
    ps: Seq<PlaceholderPositionView>,
    cards: Seq<Seq<char>>,
) -> (src: Seq<usize>)
    requires
        ps.len() <= usize::MAX,
    ensures
        spec_create_placements(ps, cards).len() == (if ps.len() <= cards.len() {
            ps.len()
        } else {
            cards.len()
        }),
        src.len() == spec_create_placements(ps, cards).len(),
        forall|k: int|
            0 <= k < src.len() ==> {
                &&& #[trigger] src[k] < ps.len()
                &&& spec_create_placements(ps, cards)[k].position.x == ps[src[k] as int].rect.0
                &&& spec_create_placements(ps, cards)[k].position.y == ps[src[k] as int].rect.1
                &&& spec_create_placements(ps, cards)[k].position.width == ps[src[k] as int].rect.2
                &&& spec_create_placements(ps, cards)[k].position.height == ps[src[k] as int].rect.3
                &&& spec_create_placements(ps, cards)[k].contour == ps[src[k] as int].contour_points
                &&& spec_create_placements(ps, cards)[k].card_asset_path == cards[k]
            },
        forall|k: int, l: int|
            0 <= k < l < src.len() ==> {
                &&& #[trigger] src[k] != #[trigger] src[l]
                &&& ps[src[k] as int].placeholder_id <= ps[src[l] as int].placeholder_id
                &&& (ps[src[k] as int].placeholder_id == ps[src[l] as int].placeholder_id ==> src[k] < src[l])
            },
{
    let keys = id_keys(ps);
    lemma_stable_order_exists(keys);
    let order = stable_order(keys);
    let r = spec_create_placements(ps, cards);
    let src = order.take(r.len() as int);
    assert forall|k: int| 0 <= k < src.len() implies {
        &&& #[trigger] src[k] < ps.len()
        &&& r[k].position.x == ps[src[k] as int].rect.0
        &&& r[k].position.y == ps[src[k] as int].rect.1
        &&& r[k].position.width == ps[src[k] as int].rect.2
        &&& r[k].position.height == ps[src[k] as int].rect.3
        &&& r[k].contour == ps[src[k] as int].contour_points
        &&& r[k].card_asset_path == cards[k]
    } by {
        assert(src[k] == order[k]);
        assert(order[k] < keys.len());
    }
    assert forall|k: int, l: int| 0 <= k < l < src.len() implies {
        &&& #[trigger] src[k] != #[trigger] src[l]
        &&& ps[src[k] as int].placeholder_id <= ps[src[l] as int].placeholder_id
        &&& (ps[src[k] as int].placeholder_id == ps[src[l] as int].placeholder_id ==> src[k] < src[l])
    } by {
        assert(src[k] == order[k] && src[l] == order[l]);
        assert(keys[order[k] as int] <= keys[order[l] as int]);
        assert(order[k] < keys.len() && order[l] < keys.len());
        assert(keys[order[k] as int] == ps[order[k] as int].placeholder_id as int);
        assert(keys[order[l] as int] == ps[order[l] as int].placeholder_id as int);
    }
    src
}

/// No two stored positions name the same placeholder.
pub open spec fn ids_distinct(ps: Seq<PlaceholderPositionView>) -> bool {
    forall|i: int, j: int|
        0 <= i < j < ps.len() ==> (#[trigger] ps[i]).placeholder_id != (#[trigger] ps[j]).placeholder_id
}

/// The positions `ps` rearranged: the k-th is `ps[perm[k]]`.
pub open spec fn permuted(ps: Seq<PlaceholderPositionView>, perm: Seq<usize>) -> Seq<PlaceholderPositionView> {
    Seq::new(ps.len(), |k: int| ps[perm[k] as int])
}

/// When no two stored positions share a placeholder id, the placements do not
/// depend on the order in which the positions are stored: the cards go by id
/// alone.
pub proof fn lemma_placements_ignore_storage_order(
    ps: Seq<PlaceholderPositionView>,
    perm: Seq<usize>,
    cards: Seq<Seq<char>>,
)
    requires
        ids_distinct(ps),
        is_index_permutation(perm, ps.len()),
        ps.len() <= usize::MAX,
    ensures
        spec_create_placements(permuted(ps, perm), cards) == spec_create_placements(ps, cards),
{
    let n = ps.len() as int;
    let q = permuted(ps, perm);
    let kp = id_keys(ps);
    let kq = id_keys(q);
    lemma_stable_order_exists(kp);
    let op = stable_order(kp);
    let inv = |j: usize| choose|m: int| 0 <= m < n && perm[m] == j;
    assert forall|j: usize| j < n implies 0 <= #[trigger] inv(j) < n && perm[inv(j)] == j by {
        assert(perm.contains(j));
    }
    assert forall|k: int| 0 <= k < n implies #[trigger] q[k] == ps[perm[k] as int] && perm[k] < n by {}
    let oq = Seq::new(n as nat, |k: int| inv(op[k]) as usize);
    assert forall|k: int| 0 <= k < n implies #[trigger] oq[k] < n && q[oq[k] as int] == ps[op[k] as int] by {
        assert(op[k] < n);
    }
    assert forall|a: int, b: int| 0 <= a < b < n implies #[trigger] oq[a] != #[trigger] oq[b] by {
        assert(op[a] != op[b]);
        assert(op[a] < n && op[b] < n);
    }
    assert forall|m: usize| m < n implies #[trigger] oq.contains(m) by {
        let j = perm[m as int];
        assert(op.contains(j));
        let k = choose|k: int| 0 <= k < op.len() && op[k] == j;
        let m2 = inv(j);
        if m2 != m as int {
            if m2 < m {
                assert(perm[m2] != perm[m as int]);
            } else {
                assert(perm[m as int] != perm[m2]);
            }
        }
        assert(oq[k] == m);
    }
    assert forall|a: int, b: int| 0 <= a < b < n implies kq[#[trigger] oq[a] as int] <= kq[#[trigger] oq[b] as int]
        && (kq[oq[a] as int] == kq[oq[b] as int] ==> oq[a] < oq[b]) by {
        assert(kq[oq[a] as int] == kp[op[a] as int]);
        assert(kq[oq[b] as int] == kp[op[b] as int]);
        assert(kp[op[a] as int] <= kp[op[b] as int]);
        assert(op[a] != op[b]);
        if op[a] < op[b] {
            assert(ps[op[a] as int].placeholder_id != ps[op[b] as int].placeholder_id);
        } else {
            assert(ps[op[b] as int].placeholder_id != ps[op[a] as int].placeholder_id);
        }
    }
    assert(is_stable_sort_order(kq, oq));
    lemma_is_the_stable_order(kq, oq);
    assert(spec_create_placements(q, cards) =~= spec_create_placements(ps, cards));
}

/// The cards that go to the players' placeholders: the first two cards are
/// left out when there are more than two.
pub open spec fn player_cards(cards: Seq<Seq<char>>) -> Seq<Seq<char>> {
    if cards.len() > 2 {
        cards.skip(2)
    } else {
        cards
    }
}

/// The left edges of detected regions, as sort keys.
pub open spec fn left_edge_keys(rs: Seq<DetectedRegionView>) -> Seq<int> {
    rs.map_values(|r: DetectedRegionView| r.rect.x as int)
}

/// Detected regions ordered from left to right (stably), paired with the
/// players' cards in dealing order, as many as there are of the fewer.
pub open spec fn spec_detect_placements(
    rs: Seq<DetectedRegionView>,
    cards: Seq<Seq<char>>,
) -> Seq<CardPlacementView> {
    let order = stable_order(left_edge_keys(rs));
    let pc = player_cards(cards);
    Seq::new(
        min_nat(rs.len(), pc.len()),
        |k: int|
            CardPlacementView {
                position: rs[order[k] as int].rect,
                card_asset_path: pc[k],
                contour: rs[order[k] as int].contour,
            },
    )
}

/// The suit word of a card code's first character.
pub open spec fn suit_name(suit: char) -> Seq<char> {
    if suit == 'H' {
        "hearts"@
    } else if suit == 'D' {
        "diamond"@
    } else if suit == 'C' {
        "clubs"@
    } else if suit == 'S' {
        "spades"@
    } else {
        "unknown"@
    }
}

/// A card code splits at its first byte: the suit must be a one-byte character.
pub open spec fn is_card_code(card: Seq<char>) -> bool {
    card.len() >= 1 && (card[0] as u32) < 128
}

/// `assets/cards/<suit>_<rank in lowercase>.jpg`
pub open spec fn spec_card_asset_path(card: Seq<char>) -> Seq<char> {
    "assets/cards/"@ + suit_name(card[0]) + "_"@ + lowercase(card.skip(1)) + ".jpg"@
}

/// A frame produced at time `now` is due when no frame was sent yet, or at
/// least the frame interval has passed since the last one was sent.
pub open spec fn spec_frame_due(last_sent: Option<u64>, now: u64) -> bool {
    match last_sent {
        None => true,
        Some(last) => now >= last && now - last >= FRAME_INTERVAL_NANOS,
    }
}

/// The frames sent, out of frames produced at the times `times`, starting
/// from a processor whose last frame went out at `last_sent`.
pub open spec fn sent_frames(last_sent: Option<u64>, times: Seq<u64>) -> Seq<u64>
    decreases times.len(),
{
    if times.len() == 0 {
        Seq::empty()
    } else if spec_frame_due(last_sent, times[0]) {
        seq![times[0]] + sent_frames(Some(times[0]), times.skip(1))
    } else {
        sent_frames(last_sent, times.skip(1))
    }
}

/// Frames go out at least the frame interval apart: of the frames produced at
/// any times, each one sent comes at least 33 ms after the one sent before it
/// (and after the one sent before the run, if any).
pub proof fn lemma_sent_frames_are_spaced(last_sent: Option<u64>, times: Seq<u64>)
    ensures
        forall|i: int|
            0 <= i < sent_frames(last_sent, times).len() - 1 ==> #[trigger] sent_frames(
                last_sent,
                times,
            )[i] + FRAME_INTERVAL_NANOS <= sent_frames(last_sent, times)[i + 1],
        sent_frames(last_sent, times).len() > 0 ==> (last_sent matches Some(l) ==> l
            + FRAME_INTERVAL_NANOS <= sent_frames(last_sent, times)[0]),
    decreases times.len(),
{
    if times.len() > 0 {
        let rest = times.skip(1);
        if spec_frame_due(last_sent, times[0]) {
            lemma_sent_frames_are_spaced(Some(times[0]), rest);
            let tail = sent_frames(Some(times[0]), rest);
            let all = sent_frames(last_sent, times);
            assert(all == seq![times[0]] + tail);
            assert forall|i: int| 0 <= i < all.len() - 1 implies #[trigger] all[i] + FRAME_INTERVAL_NANOS
                <= all[i + 1] by {
                if i == 0 {
                    assert(all[1] == tail[0]);
                } else {
                    assert(all[i] == tail[i - 1]);
                    assert(all[i + 1] == tail[i]);
                }
            }
        } else {
            lemma_sent_frames_are_spaced(last_sent, rest);
        }
    }
}

/// The state that the video processor keeps between frames it streams.
pub struct VideoProcessor {
    /// When the last frame was sent, in nanoseconds on the caller's clock.
    last_sent: Option<u64>,
}

/// The shortest time between two streamed frames: 33 milliseconds, in nanoseconds.
pub const FRAME_INTERVAL_NANOS: u64 = 33_000_000;

impl VideoProcessor {
    pub closed spec fn last_sent_at(&self) -> Option<u64> {
        self.last_sent
    }

    /// A processor that has not streamed any frame yet.
    pub fn new() -> (r: VideoProcessor)
        ensures
            r.last_sent_at() is None,
    {
        VideoProcessor { last_sent: None }
    }

    /// Decides whether a frame produced at time `now` (nanoseconds) is sent:
    /// it is skipped when less than 33 ms have passed since the last frame
    /// sent (a clock that went backwards counts as no time passed). A frame
    /// that is sent becomes the last one sent.
    pub fn claim_frame_slot(&mut self, now: u64) -> (r: bool)
        ensures
            r == spec_frame_due(old(self).last_sent_at(), now),
            r ==> final(self).last_sent_at() == Some(now),
            !r ==> final(self).last_sent_at() == old(self).last_sent_at(),
    {
        match self.last_sent {
            Some(last) => {
                let elapsed = if now >= last {
                    now - last
                } else {
                    0
                };
                if elapsed < FRAME_INTERVAL_NANOS {
                    return false;
                }
            },
            None => {},
        }
        self.last_sent = Some(now);
        true
    }

    /// The file of the picture of a card, from its code such as `H10` or `SK`.
    pub fn get_card_asset_path(&self, card: &str) -> (r: String)
        requires
            is_card_code(card@),
        ensures
            r@ == spec_card_asset_path(card@),
            all_ascii(card@) ==> r@ == "assets/cards/"@ + suit_name(card@[0]) + "_"@ + ascii_lowercase(
                card@.skip(1),
            ) + ".jpg"@,
    {
        let len = card.unicode_len();
        let suit = card.get_char(0);
        let rank = card.substring_char(1, len);
        let suit_word = if suit == 'H' {
            "hearts"
        } else if suit == 'D' {
            "diamond"
        } else if suit == 'C' {
            "clubs"
        } else if suit == 'S' {
            "spades"
        } else {
            "unknown"
        };
        let mut path = owned("assets/cards/");
        path.append(suit_word);
        path.append("_");
        let lower = to_lowercase(rank);
        path.append(lower.as_str());
        path.append(".jpg");
        assert(rank@ == card@.skip(1));
        assert(all_ascii(card@) ==> all_ascii(rank@));
        path
    }

    /// Pairs the green regions found in a frame with the players' cards: the
    /// regions are taken from left to right, and the first two cards of the
    /// round are skipped when it has more than two.
    pub fn detect_placeholders(&self, regions: &[DetectedRegion], game_data: &GameData) -> (r: Vec<
        CardPlacement,
    >)
        ensures
            placement_views(r@) == spec_detect_placements(region_views(regions@), game_data@),
    {
        let ghost rs = region_views(regions@);
        let n = regions.len();
        let mut keys: Vec<i128> = Vec::new();
        let mut j: usize = 0;
        while j < n
            invariant
                n == regions@.len(),
                0 <= j <= n,
                keys@.len() == j,
                forall|k: int| 0 <= k < j ==> #[trigger] keys@[k] == regions@[k].rect.x as i128,
            decreases n - j,
        {
            keys.push(regions[j].rect.x as i128);
            j = j + 1;
        }
        assert(int_keys(keys@) =~= left_edge_keys(rs));
        let order = stable_sort_order(&keys);
        let cards = &game_data.card_assets;
        let start: usize = if cards.len() > 2 {
            2
        } else {
            0
        };
        let ghost pc = player_cards(game_data@);
        assert(pc.len() == cards.len() - start);
        assert(forall|k: int| 0 <= k < pc.len() ==> #[trigger] pc[k] == cards@[k + start]@);
        let available = cards.len() - start;
        let count = if n <= available {
            n
        } else {
            available
        };
        let ghost spec_r = spec_detect_placements(rs, game_data@);
        let mut placements: Vec<CardPlacement> = Vec::new();
        let mut k: usize = 0;
        while k < count
            invariant
                n == regions@.len(),
                rs == region_views(regions@),
                order@ == stable_order(left_edge_keys(rs)),
                is_stable_sort_order(left_edge_keys(rs), order@),
                pc == player_cards(game_data@),
                cards == &game_data.card_assets,
                start <= cards.len(),
                pc.len() == cards.len() - start,
                forall|k: int| 0 <= k < pc.len() ==> #[trigger] pc[k] == cards@[k + start]@,
                count == min_nat(n as nat, pc.len()),
                spec_r == spec_detect_placements(rs, game_data@),
                0 <= k <= count,
                placement_views(placements@) == spec_r.subrange(0, k as int),
            decreases count - k,
        {
            let idx = order[k];
            assert(idx < n);
            assert(rs[idx as int] == regions@[idx as int]@);
            let region = &regions[idx];
            let placement = CardPlacement {
                position: region.rect,
                card_asset_path: cards[k + start].clone(),
                contour: copy_points(&region.contour),
            };
            assert(placement@ == spec_r[k as int]);
            let ghost old_views = placement_views(placements@);
            placements.push(placement);
            assert(placement_views(placements@) =~= old_views.push(placement@));
            assert(placement_views(placements@) =~= spec_r.subrange(0, k + 1));
            k = k + 1;
        }
        assert(spec_r.subrange(0, count as int) =~= spec_r);
        placements
    }
}

/// What to do with the card overlays of a frame with `n` placements.
pub struct OverlayPlan {
    /// The placements whose overlay is built anew, in increasing order.
    pub rebuild: Vec<usize>,
    /// The placements whose overlay is drawn onto the frame, in increasing order.
    pub draw: Vec<usize>,
    /// Whether the frame is kept as the previous frame for the next one.
    pub keep_frame: bool,
}

/// A placement's overlay is rebuilt on the first frame, or when its region changed.
pub open spec fn needs_rebuild(has_previous: bool, changed: Seq<bool>, i: int) -> bool {
    !has_previous || changed[i]
}

/// The placements below `n` whose overlay is rebuilt, in increasing order.
pub open spec fn rebuild_indices(has_previous: bool, changed: Seq<bool>, n: int) -> Seq<usize>
    decreases n,
{
    if n <= 0 {
        Seq::empty()
    } else {
        let rest = rebuild_indices(has_previous, changed, n - 1);
        if needs_rebuild(has_previous, changed, n - 1) {
            rest.push((n - 1) as usize)
        } else {
            rest
        }
    }
}

/// The placements below `n` that have an overlay once the rebuilt ones are
/// stored: those that had one and those rebuilt, in increasing order.
pub open spec fn draw_indices(has_previous: bool, changed: Seq<bool>, stored: Seq<bool>, n: int) -> Seq<usize>
    decreases n,
{
    if n <= 0 {
        Seq::empty()
    } else {
        let rest = draw_indices(has_previous, changed, stored, n - 1);
        if stored[n - 1] || needs_rebuild(has_previous, changed, n - 1) {
            rest.push((n - 1) as usize)
        } else {
            rest
        }
    }
}

/// Plans the overlays of a frame. `changed[i]` says whether the region of
/// placement `i` changed since the previous frame (it matters only when there
/// is a previous frame) and `stored[i]` whether placement `i` has an overlay
/// from earlier frames. Overlays persist from frame to frame by placement
/// index; a frame without placements changes nothing.
pub fn plan_overlays(has_previous: bool, changed: &Vec<bool>, stored: &Vec<bool>) -> (r: OverlayPlan)
    requires
        changed@.len() == stored@.len(),
    ensures
        r.rebuild@ == rebuild_indices(has_previous, changed@, changed@.len() as int),
        r.draw@ == draw_indices(has_previous, changed@, stored@, changed@.len() as int),
        r.keep_frame == (changed@.len() > 0),
{
    let n = changed.len();
    let mut rebuild: Vec<usize> = Vec::new();
    let mut draw: Vec<usize> = Vec::new();
    let mut i: usize = 0;
    while i < n
        invariant
            n == changed@.len(),
            n == stored@.len(),
            0 <= i <= n,
            rebuild@ == rebuild_indices(has_previous, changed@, i as int),
            draw@ == draw_indices(has_previous, changed@, stored@, i as int),
        decreases n - i,
    {
        let again = !has_previous || changed[i];
        if again {
            rebuild.push(i);
        }
        if stored[i] || again {
            draw.push(i);
        }
        i = i + 1;
    }
    OverlayPlan { rebuild, draw, keep_frame: n > 0 }
}

} // verus!
