//! The streaming service's decisions: requests, game stream stages, viewer
//! connections, dealt cards and video paths.
use vstd::prelude::*;
use vstd::string::*;
use rand::Rng;
use crate::registry::StringMap;
use crate::text::{copy_strings, owned, str_equal, string_views};
use crate::vid::{
    is_card_code, position_views, spec_card_asset_path, PlaceholderData,
    PlaceholderPosition, PlaceholderPositionView, VideoProcessor,
};

verus! {

pub open spec fn opt_string_view(o: Option<String>) -> Option<Seq<char>> {
    match o {
        Some(s) => Some(s@),
        None => None,
    }
}

/// A copy of an optional string.
pub fn copy_opt_string(o: &Option<String>) -> (r: Option<String>)
    ensures
        opt_string_view(r) == opt_string_view(*o),
{
    match o {
        Some(s) => Some(s.clone()),
        None => None,
    }
}

/// The cards of a round.
#[allow(non_snake_case)]
#[derive(Debug)]
pub struct Cards {
    pub jokerCard: Option<String>,
    pub blindCard: Option<String>,
    pub playerA: Vec<String>,
    pub playerB: Vec<String>,
    pub playerC: Option<Vec<String>>,
}

pub ghost struct CardsView {
    pub joker_card: Option<Seq<char>>,
    pub blind_card: Option<Seq<char>>,
    pub player_a: Seq<Seq<char>>,
    pub player_b: Seq<Seq<char>>,
    pub player_c: Option<Seq<Seq<char>>>,
}

impl View for Cards {
    type V = CardsView;

    open spec fn view(&self) -> CardsView {
        CardsView {
            joker_card: opt_string_view(self.jokerCard),
            blind_card: opt_string_view(self.blindCard),
            player_a: string_views(self.playerA@),
            player_b: string_views(self.playerB@),
            player_c: match self.playerC {
                Some(v) => Some(string_views(v@)),
                None => None,
            },
        }
    }
}

impl Cards {
    /// A copy of these cards.
    pub fn copy(&self) -> (r: Cards)
        ensures
            r@ == self@,
    {
        Cards {
            jokerCard: copy_opt_string(&self.jokerCard),
            blindCard: copy_opt_string(&self.blindCard),
            playerA: copy_strings(&self.playerA),
            playerB: copy_strings(&self.playerB),
            playerC: match &self.playerC {
                Some(v) => Some(copy_strings(v)),
                None => None,
            },
        }
    }
}

/// The state of a round as sent by the game server.
#[allow(non_snake_case)]
#[derive(Debug)]
pub struct GameState {
    pub gameType: String,
    pub roundId: String,
    pub cards: Cards,
    pub winner: Option<String>,
}

pub ghost struct GameStateView {
    pub game_type: Seq<char>,
    pub round_id: Seq<char>,
    pub cards: CardsView,
    pub winner: Option<Seq<char>>,
}

impl View for GameState {
    type V = GameStateView;

    open spec fn view(&self) -> GameStateView {
        GameStateView {
            game_type: self.gameType@,
            round_id: self.roundId@,
            cards: self.cards@,
            winner: opt_string_view(self.winner),
        }
    }
}

impl GameState {
    /// A copy of this game state.
    pub fn copy(&self) -> (r: GameState)
        ensures
            r@ == self@,
    {
        GameState {
            gameType: self.gameType.clone(),
            roundId: self.roundId.clone(),
            cards: self.cards.copy(),
            winner: copy_opt_string(&self.winner),
        }
    }
}

/// Where a game's stream stands.
#[derive(Clone, Copy, Debug, PartialEq, Eq, Structural)]
pub enum StreamingStage {
    NonDealing,
    Dealing,
    DealingCompleted,
}

/// A game's stream: its stage and, once dealing has started, the round's state.
#[derive(Debug)]
pub struct GameStream {
    pub stage: StreamingStage,
    pub game_state: Option<GameState>,
}

pub ghost struct GameStreamView {
    pub stage: StreamingStage,
    pub game_state: Option<GameStateView>,
}

impl View for GameStream {
    type V = GameStreamView;

    open spec fn view(&self) -> GameStreamView {
        GameStreamView {
            stage: self.stage,
            game_state: match self.game_state {
                Some(g) => Some(g@),
                None => None,
            },
        }
    }
}

/// The active game streams, by game type.
pub type GameStreams = StringMap<GameStream>;

/// A message of the service to the game server or to viewers.
#[derive(Debug)]
pub enum ProcessResponse {
    Completed { message: String },
    Error { message: String },
    Received { message: String },
    CardPlaced { card: String, frame_number: i32 },
    Frame { frame_number: i32, frame_data: String, total_frames: i32 },
    FrameMetadata { frame_number: i32, total_frames: i32, stream_type: String },
    Transition { transition_type: String, duration: u32 },
}

pub ghost enum ResponseView {
    Completed { message: Seq<char> },
    Error { message: Seq<char> },
    Received { message: Seq<char> },
    CardPlaced { card: Seq<char>, frame_number: i32 },
    Frame { frame_number: i32, frame_data: Seq<char>, total_frames: i32 },
    FrameMetadata { frame_number: i32, total_frames: i32, stream_type: Seq<char> },
    Transition { transition_type: Seq<char>, duration: u32 },
}

impl View for ProcessResponse {
    type V = ResponseView;

    open spec fn view(&self) -> ResponseView {
        match self {
            ProcessResponse::Completed { message } => ResponseView::Completed { message: message@ },
            ProcessResponse::Error { message } => ResponseView::Error { message: message@ },
            ProcessResponse::Received { message } => ResponseView::Received { message: message@ },
            ProcessResponse::CardPlaced { card, frame_number } => ResponseView::CardPlaced {
                card: card@,
                frame_number: *frame_number,
            },
            ProcessResponse::Frame { frame_number, frame_data, total_frames } => ResponseView::Frame {
                frame_number: *frame_number,
                frame_data: frame_data@,
                total_frames: *total_frames,
            },
            ProcessResponse::FrameMetadata {
                frame_number,
                total_frames,
                stream_type,
            } => ResponseView::FrameMetadata {
                frame_number: *frame_number,
                total_frames: *total_frames,
                stream_type: stream_type@,
            },
            ProcessResponse::Transition { transition_type, duration } => ResponseView::Transition {
                transition_type: transition_type@,
                duration: *duration,
            },
        }
    }
}

pub open spec fn response_views(rs: Seq<ProcessResponse>) -> Seq<ResponseView> {
    rs.map_values(|r: ProcessResponse| r@)
}

/// The interleaving of two lists: `a[0], b[0], a[1], b[1], ...`, with the rest
/// of the longer list at the end.
pub open spec fn interleave<T>(a: Seq<T>, b: Seq<T>) -> Seq<T> {
    let m = if a.len() <= b.len() {
        a.len()
    } else {
        b.len()
    };
    Seq::new(
        a.len() + b.len(),
        |k: int|
            if k < 2 * m {
                if k % 2 == 0 {
                    a[k / 2]
                } else {
                    b[k / 2]
                }
            } else if a.len() > b.len() {
                a[k - m]
            } else {
                b[k - m]
            },
    )
}

/// Interleaving loses and invents nothing: it is as long as both lists
/// together, and the i-th card of each list stands at position 2i (for A) or
/// 2i + 1 (for B) while both have cards, and after that right behind the
/// shorter list's last card, in order.
pub proof fn lemma_interleave_keeps_every_card<T>(a: Seq<T>, b: Seq<T>)
    ensures
        ({
            let m = if a.len() <= b.len() {
                a.len() as int
            } else {
                b.len() as int
            };
            let r = interleave(a, b);
            &&& r.len() == a.len() + b.len()
            &&& forall|i: int|
                0 <= i < a.len() ==> #[trigger] a[i] == r[if i < m {
                    2 * i
                } else {
                    m + i
                }]
            &&& forall|i: int|
                0 <= i < b.len() ==> #[trigger] b[i] == r[if i < m {
                    2 * i + 1
                } else {
                    m + i
                }]
        }),
{
    let m = if a.len() <= b.len() {
        a.len() as int
    } else {
        b.len() as int
    };
    let r = interleave(a, b);
    assert forall|i: int| 0 <= i < a.len() implies #[trigger] a[i] == r[if i < m {
        2 * i
    } else {
        m + i
    }] by {
        if i < m {
            assert((2 * i) % 2 == 0);
            assert((2 * i) / 2 == i);
        }
    }
    assert forall|i: int| 0 <= i < b.len() implies #[trigger] b[i] == r[if i < m {
        2 * i + 1
    } else {
        m + i
    }] by {
        if i < m {
            assert((2 * i + 1) % 2 == 1);
            assert((2 * i + 1) / 2 == i);
        }
    }
}

/// Interleaves the cards of two players: A, B, A, B, ..., then the rest of
/// the player with more cards.
pub fn interleave_card_assets(a: &Vec<String>, b: &Vec<String>) -> (r: Vec<String>)
    requires
        a.len() + b.len() <= usize::MAX,
    ensures
        string_views(r@) == interleave(string_views(a@), string_views(b@)),
{
    let ghost av = string_views(a@);
    let ghost bv = string_views(b@);
    let ghost target = interleave(av, bv);
    let max_cards = if a.len() >= b.len() {
        a.len()
    } else {
        b.len()
    };
    let ghost m = if a.len() <= b.len() {
        a.len() as int
    } else {
        b.len() as int
    };
    let mut r: Vec<String> = Vec::new();
    let mut i: usize = 0;
    while i < max_cards
        invariant
            av == string_views(a@),
            bv == string_views(b@),
            target == interleave(av, bv),
            a.len() + b.len() <= usize::MAX,
            max_cards == if a.len() >= b.len() {
                a.len()
            } else {
                b.len()
            },
            m == if a.len() <= b.len() {
                a.len() as int
            } else {
                b.len() as int
            },
            0 <= i <= max_cards,
            r@.len() == (if i <= m {
                2 * i
            } else {
                m + i
            }),
            string_views(r@) == target.subrange(0, r@.len() as int),
        decreases max_cards - i,
    {
        let ghost before = string_views(r@);
        if i < a.len() {
            let ghost k = r@.len() as int;
            assert(target[k] == av[i as int]) by {
                if i < m {
                    assert(k == 2 * i);
                    assert(k % 2 == 0);
                    assert(k / 2 == i);
                } else {
                    assert(k == m + i);
                }
            }
            r.push(a[i].clone());
            assert(string_views(r@) =~= before.push(av[i as int]));
        }
        let ghost middle = string_views(r@);
        if i < b.len() {
            let ghost k = r@.len() as int;
            assert(target[k] == bv[i as int]) by {
                if i < m {
                    assert(k == 2 * i + 1);
                    assert(k % 2 == 1);
                    assert(k / 2 == i);
                } else {
                    assert(k == m + i);
                }
            }
            r.push(b[i].clone());
            assert(string_views(r@) =~= middle.push(bv[i as int]));
        }
        assert(string_views(r@) =~= target.subrange(0, r@.len() as int));
        i = i + 1;
    }
    assert(target.subrange(0, r@.len() as int) =~= target);
    r
}


/// The pictures of a player's cards, in the order the cards were dealt.
pub open spec fn card_paths(cards: Seq<Seq<char>>) -> Seq<Seq<char>> {
    cards.map_values(|c: Seq<char>| spec_card_asset_path(c))
}

pub open spec fn all_card_codes(cards: Seq<Seq<char>>) -> bool {
    forall|i: int| 0 <= i < cards.len() ==> is_card_code(#[trigger] cards[i])
}

/// The pictures of the given cards.
pub fn card_asset_paths(processor: &VideoProcessor, cards: &Vec<String>) -> (r: Vec<String>)
    requires
        all_card_codes(string_views(cards@)),
    ensures
        string_views(r@) == card_paths(string_views(cards@)),
{
    let ghost cv = string_views(cards@);
    let mut r: Vec<String> = Vec::new();
    let mut i: usize = 0;
    while i < cards.len()
        invariant
            cv == string_views(cards@),
            all_card_codes(cv),
            0 <= i <= cards.len(),
            string_views(r@) == card_paths(cv).subrange(0, i as int),
        decreases cards.len() - i,
    {
        assert(is_card_code(cv[i as int]));
        let path = processor.get_card_asset_path(cards[i].as_str());
        let ghost before = string_views(r@);
        r.push(path);
        assert(string_views(r@) =~= before.push(spec_card_asset_path(cv[i as int])));
        assert(string_views(r@) =~= card_paths(cv).subrange(0, i + 1));
        i = i + 1;
    }
    assert(card_paths(cv).subrange(0, cards.len() as int) =~= card_paths(cv));
    r
}

/// The pictures of the dealt cards in dealing order: player A's and player
/// B's cards alternately, starting with player A.
pub open spec fn spec_dealing_card_assets(cards: CardsView) -> Seq<Seq<char>> {
    interleave(card_paths(cards.player_a), card_paths(cards.player_b))
}

/// The card assets of the dealing stage, in dealing order.
pub fn dealing_card_assets(processor: &VideoProcessor, cards: &Cards) -> (r: Vec<String>)
    requires
        all_card_codes(cards@.player_a),
        all_card_codes(cards@.player_b),
        cards.playerA.len() + cards.playerB.len() <= usize::MAX,
    ensures
        string_views(r@) == spec_dealing_card_assets(cards@),
{
    let a = card_asset_paths(processor, &cards.playerA);
    let b = card_asset_paths(processor, &cards.playerB);
    assert(string_views(a@).len() == a@.len());
    assert(string_views(b@).len() == b@.len());
    interleave_card_assets(&a, &b)
}

/// The dealing order loses no card and invents none: it is as long as both
/// hands together, player A's i-th card picture stands at 2i while both
/// players still have cards and at m + i after that (m the shorter hand's
/// length), and player B's at 2i + 1, then m + i.
pub proof fn lemma_dealing_order_keeps_every_card(cards: CardsView)
    ensures
        ({
            let a = cards.player_a;
            let b = cards.player_b;
            let r = spec_dealing_card_assets(cards);
            let m = if a.len() <= b.len() {
                a.len() as int
            } else {
                b.len() as int
            };
            &&& r.len() == a.len() + b.len()
            &&& forall|i: int|
                0 <= i < a.len() ==> r[if i < m {
                    2 * i
                } else {
                    m + i
                }] == spec_card_asset_path(#[trigger] a[i])
            &&& forall|i: int|
                0 <= i < b.len() ==> r[if i < m {
                    2 * i + 1
                } else {
                    m + i
                }] == spec_card_asset_path(#[trigger] b[i])
        }),
{
    let pa = card_paths(cards.player_a);
    let pb = card_paths(cards.player_b);
    lemma_interleave_keeps_every_card(pa, pb);
    assert(forall|i: int| 0 <= i < cards.player_a.len() ==> pa[i] == spec_card_asset_path(cards.player_a[i]));
    assert(forall|i: int| 0 <= i < cards.player_b.len() ==> pb[i] == spec_card_asset_path(cards.player_b[i]));
}

/// The cards and placeholders already announced during a dealing stage.
pub struct DealingTracker {
    processed_ids: Vec<usize>,
    processed_cards: Vec<String>,
}

pub ghost struct DealingView {
    pub ids: Set<usize>,
    pub cards: Set<Seq<char>>,
}

impl View for DealingTracker {
    type V = DealingView;

    closed spec fn view(&self) -> DealingView {
        DealingView {
            ids: self.processed_ids@.to_set(),
            cards: string_views(self.processed_cards@).to_set(),
        }
    }
}

/// One position of a frame: the first time a placeholder id shows up, the
/// card that the mapping gives it (if any) is announced, unless that card was
/// announced before.
pub open spec fn announce_position(
    s: DealingView,
    frame: i32,
    p: PlaceholderPositionView,
    mapping: Seq<Seq<char>>,
) -> (DealingView, Seq<ResponseView>) {
    let id = p.placeholder_id;
    if s.ids.contains(id) {
        (s, Seq::empty())
    } else if id < mapping.len() && !s.cards.contains(mapping[id as int]) {
        (
            DealingView { ids: s.ids.insert(id), cards: s.cards.insert(mapping[id as int]) },
            seq![ResponseView::CardPlaced { card: mapping[id as int], frame_number: frame }],
        )
    } else {
        (DealingView { ids: s.ids.insert(id), cards: s.cards }, Seq::empty())
    }
}

/// The positions of a frame, taken in order.
pub open spec fn announce_positions(
    s: DealingView,
    frame: i32,
    ps: Seq<PlaceholderPositionView>,
    mapping: Seq<Seq<char>>,
) -> (DealingView, Seq<ResponseView>)
    decreases ps.len(),
{
    if ps.len() == 0 {
        (s, Seq::empty())
    } else {
        let (mid, said) = announce_positions(s, frame, ps.drop_last(), mapping);
        let (last, more) = announce_position(mid, frame, ps.last(), mapping);
        (last, said + more)
    }
}

/// The card a card-placed message names.
pub open spec fn placed_card(r: ResponseView) -> Seq<char> {
    match r {
        ResponseView::CardPlaced { card, .. } => card,
        _ => Seq::empty(),
    }
}

/// Each announcement of a frame is a card-placed message for that frame, of a
/// card not announced before and not announced twice; afterwards the
/// announced cards are exactly the earlier ones and these.
pub proof fn lemma_announcements_are_new_cards(
    s: DealingView,
    frame: i32,
    ps: Seq<PlaceholderPositionView>,
    mapping: Seq<Seq<char>>,
)
    ensures
        ({
            let (t, said) = announce_positions(s, frame, ps, mapping);
            &&& forall|k: int| 0 <= k < said.len() ==> (#[trigger] said[k]) is CardPlaced
                && said[k]->CardPlaced_frame_number == frame
            &&& forall|k: int| 0 <= k < said.len() ==> !s.cards.contains(placed_card(#[trigger] said[k]))
            &&& forall|i: int, j: int|
                0 <= i < j < said.len() ==> placed_card(#[trigger] said[i]) != placed_card(
                    #[trigger] said[j],
                )
            &&& forall|c: Seq<char>| #[trigger] t.cards.contains(c) <==> (s.cards.contains(c) || exists|k: int|
                0 <= k < said.len() && placed_card(said[k]) == c)
            &&& s.ids.subset_of(t.ids)
        }),
    decreases ps.len(),
{
    if ps.len() > 0 {
        lemma_announcements_are_new_cards(s, frame, ps.drop_last(), mapping);
        let (mid, said) = announce_positions(s, frame, ps.drop_last(), mapping);
        let (t, more) = announce_position(mid, frame, ps.last(), mapping);
        let all = said + more;
        let id = ps.last().placeholder_id;
        assert forall|c: Seq<char>| #[trigger] t.cards.contains(c) <==> (s.cards.contains(c) || exists|k: int|
            0 <= k < all.len() && placed_card(all[k]) == c) by {
            if exists|k: int| 0 <= k < said.len() && placed_card(said[k]) == c {
                let k = choose|k: int| 0 <= k < said.len() && placed_card(said[k]) == c;
                assert(all[k] == said[k]);
            }
            if exists|k: int| 0 <= k < all.len() && placed_card(all[k]) == c {
                let k = choose|k: int| 0 <= k < all.len() && placed_card(all[k]) == c;
                if k < said.len() {
                    assert(all[k] == said[k]);
                } else {
                    assert(all[k] == more[k - said.len()]);
                }
            }
            if !mid.ids.contains(id) && id < mapping.len() && !mid.cards.contains(mapping[id as int]) {
                assert(all[said.len() as int] == more[0]);
                assert(placed_card(all[said.len() as int]) == mapping[id as int]);
            }
        }
        assert forall|k: int| 0 <= k < all.len() implies !s.cards.contains(placed_card(#[trigger] all[k]))
            && all[k] is CardPlaced && all[k]->CardPlaced_frame_number == frame by {
            if k < said.len() {
                assert(all[k] == said[k]);
            } else {
                assert(all[k] == more[k - said.len()]);
            }
        }
        assert forall|i: int, j: int| 0 <= i < j < all.len() implies placed_card(#[trigger] all[i])
            != placed_card(#[trigger] all[j]) by {
            if j < said.len() {
                assert(all[i] == said[i]);
                assert(all[j] == said[j]);
            } else if i < said.len() {
                assert(all[i] == said[i]);
                assert(all[j] == more[j - said.len()]);
                assert(mid.cards.contains(placed_card(said[i])));
            } else {
                assert(more.len() <= 1);
            }
        }
    }
}

/// `said` holds a card-placed message of `card` for frame `frame`.
pub open spec fn announces(said: Seq<ResponseView>, card: Seq<char>, frame: i32) -> bool {
    exists|k: int|
        0 <= k < said.len() && said[k] == (ResponseView::CardPlaced { card: card, frame_number: frame })
}

/// Every card that a frame's positions bring is announced: for each position
/// whose placeholder was not seen before, whose id the mapping covers and
/// whose card was not announced before, the frame's announcements hold a
/// card-placed message of that card for that frame. Every placeholder of the
/// frame is seen afterwards, and no other.
pub proof fn lemma_announcements_complete(
    s: DealingView,
    frame: i32,
    ps: Seq<PlaceholderPositionView>,
    mapping: Seq<Seq<char>>,
)
    ensures
        forall|i: int|
            0 <= i < ps.len() ==> announce_positions(s, frame, ps, mapping).0.ids.contains(
                (#[trigger] ps[i]).placeholder_id,
            ),
        forall|x: usize|
            #[trigger] announce_positions(s, frame, ps, mapping).0.ids.contains(x) ==> s.ids.contains(x)
                || exists|i: int| 0 <= i < ps.len() && ps[i].placeholder_id == x,
        forall|i: int|
            0 <= i < ps.len() && !s.ids.contains((#[trigger] ps[i]).placeholder_id)
                && ps[i].placeholder_id < mapping.len() && !s.cards.contains(
                mapping[ps[i].placeholder_id as int],
            ) ==> announces(
                announce_positions(s, frame, ps, mapping).1,
                mapping[ps[i].placeholder_id as int],
                frame,
            ),
    decreases ps.len(),
{
    if ps.len() > 0 {
        let n = ps.len() - 1;
        let pre = ps.drop_last();
        lemma_announcements_complete(s, frame, pre, mapping);
        lemma_announcements_are_new_cards(s, frame, pre, mapping);
        let (mid, said) = announce_positions(s, frame, pre, mapping);
        let (t, more) = announce_position(mid, frame, ps.last(), mapping);
        let all = said + more;
        assert(announce_positions(s, frame, ps, mapping).0 == t);
        assert(announce_positions(s, frame, ps, mapping).1 == all);
        assert(forall|i: int| 0 <= i < n ==> pre[i] == ps[i]);
        assert(mid.ids.subset_of(t.ids));
        let id = ps[n].placeholder_id;
        assert(t.ids.contains(id));
        assert forall|i: int| 0 <= i < ps.len() implies t.ids.contains((#[trigger] ps[i]).placeholder_id) by {
            if i < n {
                assert(mid.ids.contains(pre[i].placeholder_id));
            }
        }
        assert forall|x: usize| #[trigger] t.ids.contains(x) implies s.ids.contains(x) || exists|i: int|
            0 <= i < ps.len() && ps[i].placeholder_id == x by {
            if x != id {
                assert(mid.ids.contains(x));
                if !s.ids.contains(x) {
                    let i = choose|i: int| 0 <= i < pre.len() && pre[i].placeholder_id == x;
                    assert(ps[i].placeholder_id == x);
                }
            }
        }
        assert forall|i: int|
            0 <= i < ps.len() && !s.ids.contains((#[trigger] ps[i]).placeholder_id)
                && ps[i].placeholder_id < mapping.len() && !s.cards.contains(
                mapping[ps[i].placeholder_id as int],
            ) implies announces(all, mapping[ps[i].placeholder_id as int], frame) by {
            let c = mapping[ps[i].placeholder_id as int];
            let want = (ResponseView::CardPlaced { card: c, frame_number: frame });
            if i < n {
                assert(pre[i] == ps[i]);
                let k = choose|k: int| 0 <= k < said.len() && said[k] == want;
                assert(all[k] == said[k]);
            } else if mid.ids.contains(id) {
                let i2 = choose|i2: int| 0 <= i2 < pre.len() && pre[i2].placeholder_id == id;
                assert(pre[i2] == ps[i2]);
                assert(!s.ids.contains(pre[i2].placeholder_id));
                let k = choose|k: int| 0 <= k < said.len() && said[k] == want;
                assert(all[k] == said[k]);
            } else if mid.cards.contains(c) {
                let k = choose|k: int| 0 <= k < said.len() && placed_card(said[k]) == c;
                assert(said[k] is CardPlaced && said[k]->CardPlaced_frame_number == frame);
                assert(said[k] == want);
                assert(all[k] == said[k]);
            } else {
                assert(more == seq![want]);
                assert(all[said.len() as int] == want);
            }
        }
    }
}

/// Whether `v` holds a string equal to `s`.
fn contains_string(v: &Vec<String>, s: &String) -> (r: bool)
    ensures
        r == string_views(v@).contains(s@),
{
    let mut i: usize = 0;
    while i < v.len()
        invariant
            0 <= i <= v.len(),
            forall|j: int| 0 <= j < i ==> (#[trigger] v@[j])@ != s@,
        decreases v.len() - i,
    {
        if v[i] == *s {
            assert(string_views(v@)[i as int] == s@);
            return true;
        }
        i = i + 1;
    }
    assert forall|j: int| 0 <= j < v@.len() implies string_views(v@)[j] != s@ by {
        assert(string_views(v@)[j] == v@[j]@);
    }
    false
}

/// Whether `v` holds `x`.
fn contains_id(v: &Vec<usize>, x: usize) -> (r: bool)
    ensures
        r == v@.contains(x),
{
    let mut i: usize = 0;
    while i < v.len()
        invariant
            0 <= i <= v.len(),
            forall|j: int| 0 <= j < i ==> v@[j] != x,
        decreases v.len() - i,
    {
        if v[i] == x {
            return true;
        }
        i = i + 1;
    }
    false
}

impl DealingTracker {
    /// Nothing announced yet.
    pub fn new() -> (r: DealingTracker)
        ensures
            r@.ids == Set::<usize>::empty(),
            r@.cards == Set::<Seq<char>>::empty(),
    {
        let r = DealingTracker { processed_ids: Vec::new(), processed_cards: Vec::new() };
        assert(r@.ids =~= Set::<usize>::empty());
        assert(string_views(r.processed_cards@) =~= Seq::<Seq<char>>::empty());
        assert(r@.cards =~= Set::<Seq<char>>::empty());
        r
    }

    /// The card-placed messages for the stored positions of frame `frame_number`,
    /// where `card_mapping[id]` is the card dealt into placeholder `id`.
    pub fn announce_cards(
        &mut self,
        frame_number: i32,
        positions: &[PlaceholderPosition],
        card_mapping: &Vec<String>,
    ) -> (r: Vec<ProcessResponse>)
        ensures
            (final(self)@, response_views(r@)) == announce_positions(
                old(self)@,
                frame_number,
                position_views(positions@),
                string_views(card_mapping@),
            ),
    {
        let ghost s0 = self@;
        let ghost ps = position_views(positions@);
        let ghost mapping = string_views(card_mapping@);
        let mut said: Vec<ProcessResponse> = Vec::new();
        let mut i: usize = 0;
        assert(ps.subrange(0, 0) =~= Seq::<PlaceholderPositionView>::empty());
        assert(response_views(said@) =~= Seq::<ResponseView>::empty());
        while i < positions.len()
            invariant
                0 <= i <= positions@.len(),
                ps == position_views(positions@),
                mapping == string_views(card_mapping@),
                announce_positions(s0, frame_number, ps.subrange(0, i as int), mapping) == (
                self@,
                response_views(said@),
                ),
            decreases positions@.len() - i,
        {
            let ghost before = self@;
            let ghost said_before = response_views(said@);
            proof {
                assert(ps.subrange(0, i + 1).drop_last() =~= ps.subrange(0, i as int));
                assert(ps[i as int] == positions@[i as int]@);
            }
            let id = positions[i].placeholder_id;
            if !contains_id(&self.processed_ids, id) {
                let ghost old_ids = self.processed_ids@;
                self.processed_ids.push(id);
                proof {
                    old_ids.lemma_push_to_set_commute(id);
                    assert(self.processed_ids@.to_set() =~= before.ids.insert(id));
                }
                if id < card_mapping.len() {
                    let card = &card_mapping[id];
                    assert(mapping[id as int] == card@);
                    if !contains_string(&self.processed_cards, card) {
                        said.push(ProcessResponse::CardPlaced { card: card.clone(), frame_number });
                        let ghost old_cards = string_views(self.processed_cards@);
                        self.processed_cards.push(card.clone());
                        proof {
                            assert(string_views(self.processed_cards@) =~= old_cards.push(card@));
                            old_cards.lemma_push_to_set_commute(card@);
                            assert(string_views(self.processed_cards@).to_set() =~= before.cards.insert(
                                card@,
                            ));
                            assert(response_views(said@) =~= said_before + seq![
                                ResponseView::CardPlaced { card: card@, frame_number },
                            ]);
                        }
                    } else {
                        assert(response_views(said@) =~= said_before + Seq::<ResponseView>::empty());
                    }
                } else {
                    assert(response_views(said@) =~= said_before + Seq::<ResponseView>::empty());
                }
            } else {
                assert(response_views(said@) =~= said_before + Seq::<ResponseView>::empty());
            }
            i = i + 1;
        }
        assert(ps.subrange(0, positions@.len() as int) =~= ps);
        said
    }
}

/// Where the stored placeholders of frame `frame_number` are, if any were recorded.
pub fn placeholder_frame_index(data: &PlaceholderData, frame_number: i32) -> (r: Option<usize>)
    ensures
        r matches Some(f) ==> f < data@.placeholders.len() && data@.placeholders[f as int].frame_number
            == frame_number && forall|g: int|
            0 <= g < f ==> (#[trigger] data@.placeholders[g]).frame_number != frame_number,
        r is None ==> forall|g: int|
            0 <= g < data@.placeholders.len() ==> (#[trigger] data@.placeholders[g]).frame_number
                != frame_number,
{
    let mut i: usize = 0;
    while i < data.placeholders.len()
        invariant
            0 <= i <= data.placeholders@.len(),
            data@.placeholders.len() == data.placeholders@.len(),
            forall|g: int| 0 <= g < i ==> (#[trigger] data@.placeholders[g]).frame_number != frame_number,
        decreases data.placeholders@.len() - i,
    {
        assert(data@.placeholders[i as int] == data.placeholders@[i as int]@);
        if data.placeholders[i].frame_number == frame_number {
            return Some(i);
        }
        i = i + 1;
    }
    None
}


/// The viewers of a round: `map[round]`, or none.
pub open spec fn members_of(map: Map<Seq<char>, Seq<u64>>, round: Seq<char>) -> Seq<u64> {
    if map.contains_key(round) {
        map[round]
    } else {
        Seq::empty()
    }
}

/// The viewers whose delivery succeeded, in their order.
pub open spec fn keep_delivered(members: Seq<u64>, delivered: Seq<bool>) -> Seq<u64>
    decreases members.len(),
{
    if members.len() == 0 {
        Seq::empty()
    } else {
        let rest = keep_delivered(members.drop_last(), delivered);
        if delivered[members.len() - 1] {
            rest.push(members.last())
        } else {
            rest
        }
    }
}

/// What serde_json makes of field `key` of the JSON text `text`: `None` when
/// the text is not JSON or its value has no field `key`; `Some(Some(s))` when
/// that field is the string `s`; `Some(None)` when it holds any other value.
/// It depends on the text and the key alone.
pub uninterp spec fn json_string_field(text: Seq<char>, key: Seq<char>) -> Option<Option<Seq<char>>>;

pub open spec fn opt_opt_string_view(o: Option<Option<String>>) -> Option<Option<Seq<char>>> {
    match o {
        Some(Some(s)) => Some(Some(s@)),
        Some(None) => Some(None),
        None => None,
    }
}

/// Parses `text` with `serde_json::from_str` into a `serde_json::Value`,
/// looks up its field `key` with `Value::get` and reads that field with
/// `Value::as_str`. The result is named `json_string_field`; nothing more is
/// claimed of it here.
#[verifier::external_body]
pub(crate) fn parse_json_string_field(text: &str, key: &str) -> (r: Option<Option<String>>)
    ensures
        opt_opt_string_view(r) == json_string_field(text@, key@),
{
    match serde_json::from_str::<serde_json::Value>(text) {
        Ok(value) => match value.get(key) {
            Some(field) => match field.as_str() {
                Some(s) => Some(Some(s.to_string())),
                None => Some(None),
            },
            None => None,
        },
        Err(_) => None,
    }
}

/// The viewer connections of each round, by round id. A connection is known
/// here by a number; the caller keeps what the number stands for.
pub struct WebSocketBroadcaster {
    connections: StringMap<Vec<u64>>,
}

impl View for WebSocketBroadcaster {
    type V = Map<Seq<char>, Seq<u64>>;

    closed spec fn view(&self) -> Map<Seq<char>, Seq<u64>> {
        self.connections.map()
    }
}

impl WebSocketBroadcaster {
    /// No viewers.
    pub fn new() -> (r: WebSocketBroadcaster)
        ensures
            r@ == Map::<Seq<char>, Seq<u64>>::empty(),
    {
        WebSocketBroadcaster { connections: StringMap::new() }
    }

    /// Adds viewer `connection` to the end of the viewers of `round_id`.
    pub fn join(&mut self, round_id: &str, connection: u64)
        ensures
            final(self)@ == old(self)@.insert(round_id@, members_of(old(self)@, round_id@).push(connection)),
    {
        let mut members = match self.connections.remove(round_id) {
            Some(v) => v,
            None => Vec::new(),
        };
        members.push(connection);
        self.connections.insert(owned(round_id), members);
        assert(self@ =~= old(self)@.insert(round_id@, members_of(old(self)@, round_id@).push(connection)));
    }

    /// Handles a viewer's message: one that carries a `joinVideoStream` field
    /// joins the viewer to that round (to the round named by the empty string
    /// when the field is not a string). Returns the round joined, if any.
    pub fn handle_viewer_message(&mut self, join_field: Option<Option<String>>, connection: u64) -> (r:
        Option<String>)
        ensures
            match join_field {
                None => r is None && final(self)@ == old(self)@,
                Some(f) => {
                    let round = match f {
                        Some(s) => s@,
                        None => Seq::<char>::empty(),
                    };
                    &&& r matches Some(s) && s@ == round
                    &&& final(self)@ == old(self)@.insert(round, members_of(old(self)@, round).push(connection))
                },
            },
    {
        match join_field {
            None => None,
            Some(field) => {
                let round = match field {
                    Some(s) => s,
                    None => String::new(),
                };
                self.join(round.as_str(), connection);
                Some(round)
            },
        }
    }

    /// Handles the raw text of a viewer's message: it joins the viewer to a
    /// round when the text is JSON with a `joinVideoStream` field, as
    /// `handle_viewer_message` says.
    pub fn handle_viewer_text(&mut self, text: &str, connection: u64) -> (r: Option<String>)
        ensures
            match json_string_field(text@, "joinVideoStream"@) {
                None => r is None && final(self)@ == old(self)@,
                Some(f) => {
                    let round = match f {
                        Some(s) => s,
                        None => Seq::<char>::empty(),
                    };
                    &&& r matches Some(s) && s@ == round
                    &&& final(self)@ == old(self)@.insert(round, members_of(old(self)@, round).push(connection))
                },
            },
    {
        let field = parse_json_string_field(text, "joinVideoStream");
        self.handle_viewer_message(field, connection)
    }

    /// The viewers of `round_id`, in the order in which they joined.
    pub fn recipients(&self, round_id: &str) -> (r: Vec<u64>)
        ensures
            r@ == members_of(self@, round_id@),
    {
        match self.connections.get(round_id) {
            Some(v) => {
                let mut r: Vec<u64> = Vec::new();
                let mut i: usize = 0;
                while i < v.len()
                    invariant
                        0 <= i <= v.len(),
                        r@ == v@.subrange(0, i as int),
                    decreases v.len() - i,
                {
                    r.push(v[i]);
                    i = i + 1;
                }
                assert(r@ =~= v@);
                r
            },
            None => Vec::new(),
        }
    }

    /// After a message went to the viewers of `round_id` (`delivered[i]` for
    /// the i-th of them), keeps only those it reached.
    pub fn retain_delivered(&mut self, round_id: &str, delivered: &Vec<bool>)
        requires
            delivered@.len() == members_of(old(self)@, round_id@).len(),
        ensures
            old(self)@.contains_key(round_id@) ==> final(self)@ == old(self)@.insert(
                round_id@,
                keep_delivered(old(self)@[round_id@], delivered@),
            ),
            !old(self)@.contains_key(round_id@) ==> final(self)@ == old(self)@,
    {
        match self.connections.remove(round_id) {
            Some(members) => {
                let ghost ms = members@;
                let mut kept: Vec<u64> = Vec::new();
                let mut i: usize = 0;
                while i < members.len()
                    invariant
                        ms == members@,
                        delivered@.len() == ms.len(),
                        0 <= i <= ms.len(),
                        kept@ == keep_delivered(ms.subrange(0, i as int), delivered@),
                    decreases ms.len() - i,
                {
                    proof {
                        assert(ms.subrange(0, i + 1).drop_last() =~= ms.subrange(0, i as int));
                    }
                    if delivered[i] {
                        kept.push(members[i]);
                    }
                    i = i + 1;
                }
                assert(ms.subrange(0, ms.len() as int) =~= ms);
                self.connections.insert(owned(round_id), kept);
                assert(self@ =~= old(self)@.insert(round_id@, keep_delivered(ms, delivered@)));
            },
            None => {
                assert(self@ =~= old(self)@);
            },
        }
    }

    /// Whether `connection` is a viewer of some round.
    pub fn holds_connection(&self, connection: u64) -> (r: bool)
        ensures
            r == exists|round: Seq<char>| #[trigger] self@.contains_key(round) && self@[round].contains(
                connection,
            ),
    {
        let r = self.connections.holds_member(connection);
        assert(self@ == self.connections.map());
        r
    }

    /// Drops every viewer of every round.
    pub fn clear(&mut self)
        ensures
            final(self)@ == Map::<Seq<char>, Seq<u64>>::empty(),
    {
        self.connections.clear();
    }
}

/// A request of the game server.
#[allow(non_snake_case)]
#[derive(Debug)]
pub struct ProcessRequest {
    /// "non_dealing", "dealing" or "stop"
    pub phase: String,
    pub game: String,
    pub host: String,
    pub roundId: String,
    pub game_state: Option<GameState>,
}

/// What is to follow a request, once its responses have been sent.
#[derive(Debug, PartialEq, Eq, Structural, Clone, Copy)]
pub enum ConnectionAction {
    /// Stream the game's non-dealing video to the round's viewers.
    StartNonDealing,
    /// Stream the dealing video of the request's game state.
    StartDealing,
    /// Nothing more.
    Finished,
    /// The request is refused: dealing needs a game state.
    MissingGameState,
    /// The request is refused: its phase is unknown.
    InvalidRequest,
}

/// The responses to a request, in order, and what follows it.
pub struct ConnectionOutcome {
    pub responses: Vec<ProcessResponse>,
    pub action: ConnectionAction,
}

pub open spec fn received_view() -> ResponseView {
    ResponseView::Received { message: "Stream processing started"@ }
}

/// The acknowledgement that every request of the game server receives first.
pub fn request_acknowledgement() -> (r: ProcessResponse)
    ensures
        r@ == received_view(),
{
    ProcessResponse::Received { message: owned("Stream processing started") }
}

/// What a request with phase `phase` is answered after its acknowledgement,
/// and what follows it.
pub open spec fn spec_request_outcome(phase: Seq<char>, has_game_state: bool) -> (
    Seq<ResponseView>,
    ConnectionAction,
) {
    if phase == "non_dealing"@ {
        (Seq::empty(), ConnectionAction::StartNonDealing)
    } else if phase == "dealing"@ {
        if has_game_state {
            (Seq::empty(), ConnectionAction::StartDealing)
        } else {
            (Seq::empty(), ConnectionAction::MissingGameState)
        }
    } else if phase == "stop"@ {
        (seq![ResponseView::Completed { message: "Streaming stopped"@ }], ConnectionAction::Finished)
    } else {
        (seq![ResponseView::Error { message: "Invalid request type"@ }], ConnectionAction::InvalidRequest)
    }
}

/// Handles an acknowledged request of the game server: a non-dealing or
/// dealing request starts its stream (dealing needs a game state), a stop
/// request ends the game's stream and drops every viewer, and any other
/// phase is refused.
pub fn handle_connection(
    request: &ProcessRequest,
    streams: &mut GameStreams,
    broadcaster: &mut WebSocketBroadcaster,
) -> (r: ConnectionOutcome)
    ensures
        (response_views(r.responses@), r.action) == spec_request_outcome(
            request.phase@,
            request.game_state is Some,
        ),
        request.phase@ == "stop"@ ==> final(streams).map() == old(streams).map().remove(request.game@)
            && final(broadcaster)@ == Map::<Seq<char>, Seq<u64>>::empty(),
        request.phase@ != "stop"@ ==> final(streams).map() == old(streams).map() && final(broadcaster)@
            == old(broadcaster)@,
{
    proof {
        reveal_strlit("stop");
        reveal_strlit("dealing");
        reveal_strlit("non_dealing");
        assert("stop"@.len() == 4);
        assert("dealing"@.len() == 7);
        assert("non_dealing"@.len() == 11);
    }
    let mut responses: Vec<ProcessResponse> = Vec::new();
    let phase = request.phase.as_str();
    let action = if str_equal(phase, "non_dealing") {
        ConnectionAction::StartNonDealing
    } else if str_equal(phase, "dealing") {
        if request.game_state.is_some() {
            ConnectionAction::StartDealing
        } else {
            ConnectionAction::MissingGameState
        }
    } else if str_equal(phase, "stop") {
        broadcaster.clear();
        streams.remove(request.game.as_str());
        responses.push(ProcessResponse::Completed { message: owned("Streaming stopped") });
        ConnectionAction::Finished
    } else {
        responses.push(ProcessResponse::Error { message: owned("Invalid request type") });
        ConnectionAction::InvalidRequest
    };
    let ghost expected = spec_request_outcome(request.phase@, request.game_state is Some);
    assert(response_views(responses@) =~= expected.0);
    ConnectionOutcome { responses, action }
}

/// A non-dealing stream starts: the game's stream is (re)set to the
/// non-dealing stage, with no game state.
pub fn begin_non_dealing(streams: &mut GameStreams, game_type: &str)
    ensures
        final(streams).map() == old(streams).map().insert(
            game_type@,
            GameStreamView { stage: StreamingStage::NonDealing, game_state: None },
        ),
{
    streams.insert(owned(game_type), GameStream { stage: StreamingStage::NonDealing, game_state: None });
}

/// What a non-dealing stream does before reading its next frame.
#[derive(Debug, PartialEq, Eq, Structural, Clone, Copy)]
pub enum NonDealingCheck {
    /// The game's stream was stopped: end quietly.
    Stopped,
    /// Dealing has begun: send the round's viewers a fade transition of one
    /// second, then end.
    SwitchToDealing,
    /// Read and send the next frame.
    Continue,
}

pub open spec fn spec_non_dealing_check(streams: Map<Seq<char>, GameStreamView>, game_type: Seq<char>) -> NonDealingCheck {
    if !streams.contains_key(game_type) {
        NonDealingCheck::Stopped
    } else if streams[game_type].stage == StreamingStage::Dealing {
        NonDealingCheck::SwitchToDealing
    } else {
        NonDealingCheck::Continue
    }
}

/// Decides whether a non-dealing stream goes on.
pub fn non_dealing_check(streams: &GameStreams, game_type: &str) -> (r: NonDealingCheck)
    ensures
        r == spec_non_dealing_check(streams.map(), game_type@),
{
    match streams.get(game_type) {
        None => NonDealingCheck::Stopped,
        Some(stream) => {
            if stream.stage == StreamingStage::Dealing {
                NonDealingCheck::SwitchToDealing
            } else {
                NonDealingCheck::Continue
            }
        },
    }
}

/// The transition the viewers see when dealing begins.
pub fn dealing_transition() -> (r: ProcessResponse)
    ensures
        r@ == (ResponseView::Transition { transition_type: "fade"@, duration: 1000 }),
{
    ProcessResponse::Transition { transition_type: owned("fade"), duration: 1000 }
}

/// The non-dealing video ended: the game's stream is removed and the viewers
/// are told that playback completed.
pub fn end_non_dealing(streams: &mut GameStreams, game_type: &str) -> (r: ProcessResponse)
    ensures
        final(streams).map() == old(streams).map().remove(game_type@),
        r@ == (ResponseView::Completed { message: "Video playback completed"@ }),
{
    streams.remove(game_type);
    ProcessResponse::Completed { message: owned("Video playback completed") }
}

/// Dealing begins: a game stream that exists moves to the dealing stage with
/// the round's state; a game without a stream is left alone.
pub fn begin_dealing(streams: &mut GameStreams, game_type: &str, game_state: &GameState)
    ensures
        old(streams).map().contains_key(game_type@) ==> final(streams).map() == old(streams).map().insert(
            game_type@,
            GameStreamView { stage: StreamingStage::Dealing, game_state: Some(game_state@) },
        ),
        !old(streams).map().contains_key(game_type@) ==> final(streams).map() == old(streams).map(),
{
    if streams.contains_key(game_type) {
        streams.insert(
            owned(game_type),
            GameStream { stage: StreamingStage::Dealing, game_state: Some(game_state.copy()) },
        );
    }
}

/// Dealing ended: a game stream that exists moves to the completed stage,
/// keeping its game state, and the game server is told `DEALING_COMPLETE`;
/// a game without a stream is left alone and nothing is said.
pub fn finish_dealing(streams: &mut GameStreams, game_type: &str) -> (r: Option<ProcessResponse>)
    ensures
        old(streams).map().contains_key(game_type@) ==> {
            &&& final(streams).map() == old(streams).map().insert(
                game_type@,
                GameStreamView {
                    stage: StreamingStage::DealingCompleted,
                    game_state: old(streams).map()[game_type@].game_state,
                },
            )
            &&& r matches Some(resp) && resp@ == (ResponseView::Completed { message: "DEALING_COMPLETE"@ })
        },
        !old(streams).map().contains_key(game_type@) ==> final(streams).map() == old(streams).map()
            && r is None,
{
    match streams.remove(game_type) {
        Some(stream) => {
            let updated = GameStream { stage: StreamingStage::DealingCompleted, game_state: stream.game_state };
            streams.insert(owned(game_type), updated);
            assert(old(streams).map().remove(game_type@).insert(game_type@, updated@) =~= old(
                streams,
            ).map().insert(game_type@, updated@));
            Some(ProcessResponse::Completed { message: owned("DEALING_COMPLETE") })
        },
        None => None,
    }
}


/// The game types that have videos of their own.
pub open spec fn is_supported_game(g: Seq<char>) -> bool {
    ||| g == "ANDAR_BAHAR_TWO"@
    ||| g == "TEEN_PATTI"@
    ||| g == "LUCKY7A"@
    ||| g == "LUCKY7B"@
    ||| g == "ANDAR_BAHAR"@
    ||| g == "DRAGON_TIGER_LION"@
    ||| g == "DRAGON_TIGER"@
    ||| g == "DRAGON_TIGER_TWO"@
}

/// Exactly eight games have videos of their own: each of ANDAR_BAHAR_TWO,
/// TEEN_PATTI, LUCKY7A, LUCKY7B, ANDAR_BAHAR, DRAGON_TIGER_LION, DRAGON_TIGER
/// and DRAGON_TIGER_TWO gets its dealing video
/// `assets/videos/<game>/<host>/<winner, or high>_1.mp4`, and every other
/// name is refused as unsupported.
pub proof fn lemma_supported_games(g: Seq<char>)
    ensures
        is_supported_game("ANDAR_BAHAR_TWO"@),
        is_supported_game("TEEN_PATTI"@),
        is_supported_game("LUCKY7A"@),
        is_supported_game("LUCKY7B"@),
        is_supported_game("ANDAR_BAHAR"@),
        is_supported_game("DRAGON_TIGER_LION"@),
        is_supported_game("DRAGON_TIGER"@),
        is_supported_game("DRAGON_TIGER_TWO"@),
        !(g == "ANDAR_BAHAR_TWO"@ || g == "TEEN_PATTI"@ || g == "LUCKY7A"@ || g == "LUCKY7B"@ || g
            == "ANDAR_BAHAR"@ || g == "DRAGON_TIGER_LION"@ || g == "DRAGON_TIGER"@ || g
            == "DRAGON_TIGER_TWO"@) ==> !is_supported_game(g),
{
}

/// Whether `game_type` has videos of its own.
pub fn is_supported_game_type(game_type: &str) -> (r: bool)
    ensures
        r == is_supported_game(game_type@),
{
    str_equal(game_type, "ANDAR_BAHAR_TWO") || str_equal(game_type, "TEEN_PATTI") || str_equal(
        game_type,
        "LUCKY7A",
    ) || str_equal(game_type, "LUCKY7B") || str_equal(game_type, "ANDAR_BAHAR") || str_equal(
        game_type,
        "DRAGON_TIGER_LION",
    ) || str_equal(game_type, "DRAGON_TIGER") || str_equal(game_type, "DRAGON_TIGER_TWO")
}

/// Why no video could be chosen.
#[derive(Debug, PartialEq, Eq, Structural, Clone, Copy)]
pub enum VideoPathError {
    UnsupportedGameType,
}

impl VideoPathError {
    /// The error's message.
    pub fn message(&self) -> (r: String)
        ensures
            r@ == "Unsupported game type"@,
    {
        owned("Unsupported game type")
    }
}

#[verifier::external_type_specification]
#[verifier::external_body]
pub struct ExThreadRng(rand::rngs::ThreadRng);

/// Calls `rand::thread_rng`: a handle to the thread's random number generator.
#[verifier::external_body]
pub(crate) fn thread_rng() -> rand::rngs::ThreadRng {
    rand::thread_rng()
}

/// Calls `Rng::gen_range` with the range `low..=high`, which panics on an
/// empty range; the number returned lies in the range and is otherwise left
/// open (it is random).
#[verifier::external_body]
pub(crate) fn gen_range_inclusive(rng: &mut rand::rngs::ThreadRng, low: i32, high: i32) -> (r: i32)
    requires
        low <= high,
    ensures
        low <= r <= high,
{
    rng.gen_range(low..=high)
}

pub open spec fn opt_str_view(o: Option<&str>) -> Option<Seq<char>> {
    match o {
        Some(s) => Some(s@),
        None => None,
    }
}

/// `assets/videos/<game>/<host>/<winner, or "high">_1.mp4`
pub open spec fn spec_dealing_video(game_type: Seq<char>, host: Seq<char>, winner: Option<Seq<char>>) -> Seq<char> {
    let w = match winner {
        Some(w) => w,
        None => "high"@,
    };
    "assets/videos/"@ + game_type + "/"@ + host + "/"@ + w + "_1.mp4"@
}

/// The dealing video of a round, for the games that have one. (A random
/// number from 1 to 9 is drawn and not used.)
pub fn get_dealing_video(game_type: &str, host: &String, winner: Option<&str>) -> (r: Result<
    String,
    VideoPathError,
>)
    ensures
        is_supported_game(game_type@) ==> (r matches Ok(p) && p@ == spec_dealing_video(
            game_type@,
            host@,
            opt_str_view(winner),
        )),
        !is_supported_game(game_type@) ==> r == Err::<String, VideoPathError>(
            VideoPathError::UnsupportedGameType,
        ),
{
    let mut rng = thread_rng();
    let _random_num = gen_range_inclusive(&mut rng, 1, 9);
    if is_supported_game_type(game_type) {
        let mut path = owned("assets/videos/");
        path.append(game_type);
        path.append("/");
        path.append(host.as_str());
        path.append("/");
        match winner {
            Some(w) => path.append(w),
            None => path.append("high"),
        }
        path.append("_1.mp4");
        Ok(path)
    } else {
        Err(VideoPathError::UnsupportedGameType)
    }
}

/// `assets/videos/<game>/<host>/non_dealing_1.mp4`
pub open spec fn spec_non_dealing_candidate(game_type: Seq<char>, host: Seq<char>) -> Seq<char> {
    "assets/videos/"@ + game_type + "/"@ + host + "/non_dealing_1.mp4"@
}

/// The video played when no video of the game can be used.
pub open spec fn fallback_video() -> Seq<char> {
    "assets/videos/re4.mp4"@
}

/// The game's own non-dealing video, for the games that have one.
pub fn non_dealing_video_candidate(game_type: &str, host: &String) -> (r: Option<String>)
    ensures
        is_supported_game(game_type@) ==> (r matches Some(p) && p@ == spec_non_dealing_candidate(
            game_type@,
            host@,
        )),
        !is_supported_game(game_type@) ==> r is None,
{
    if is_supported_game_type(game_type) {
        let mut path = owned("assets/videos/");
        path.append(game_type);
        path.append("/");
        path.append(host.as_str());
        path.append("/non_dealing_1.mp4");
        Some(path)
    } else {
        None
    }
}

/// The non-dealing video to play: the game's own when it has one and
/// `candidate_exists` says that its file exists, else the fallback video.
pub fn get_non_dealing_video(game_type: &str, host: &String, candidate_exists: bool) -> (r: String)
    ensures
        r@ == if is_supported_game(game_type@) && candidate_exists {
            spec_non_dealing_candidate(game_type@, host@)
        } else {
            fallback_video()
        },
{
    match non_dealing_video_candidate(game_type, host) {
        Some(path) => {
            if candidate_exists {
                path
            } else {
                owned("assets/videos/re4.mp4")
            }
        },
        None => owned("assets/videos/re4.mp4"),
    }
}


/// A non-dealing stream ends quietly once its game's stream is removed (as a
/// stop request or the end of its video does), and hands over to dealing once
/// dealing has begun for its game.
pub proof fn lemma_non_dealing_stream_yields(
    streams: Map<Seq<char>, GameStreamView>,
    game_type: Seq<char>,
    game_state: GameStateView,
)
    ensures
        spec_non_dealing_check(streams.remove(game_type), game_type) == NonDealingCheck::Stopped,
        streams.contains_key(game_type) ==> spec_non_dealing_check(
            streams.insert(
                game_type,
                GameStreamView { stage: StreamingStage::Dealing, game_state: Some(game_state) },
            ),
            game_type,
        ) == NonDealingCheck::SwitchToDealing,
        spec_non_dealing_check(
            streams.insert(game_type, GameStreamView { stage: StreamingStage::NonDealing, game_state: None }),
            game_type,
        ) == NonDealingCheck::Continue,
{
}

/// The announcements of a run of frames, each given by its number and its
/// stored positions, taken in order.
pub open spec fn announce_frames(
    s: DealingView,
    frames: Seq<(i32, Seq<PlaceholderPositionView>)>,
    mapping: Seq<Seq<char>>,
) -> (DealingView, Seq<ResponseView>)
    decreases frames.len(),
{
    if frames.len() == 0 {
        (s, Seq::empty())
    } else {
        let (mid, said) = announce_frames(s, frames.drop_last(), mapping);
        let (last, more) = announce_positions(mid, frames.last().0, frames.last().1, mapping);
        (last, said + more)
    }
}

/// Over a whole dealing stage no card is announced twice, nor one announced
/// before the stage began.
pub proof fn lemma_cards_announced_once(
    s: DealingView,
    frames: Seq<(i32, Seq<PlaceholderPositionView>)>,
    mapping: Seq<Seq<char>>,
)
    ensures
        forall|k: int|
            0 <= k < announce_frames(s, frames, mapping).1.len() ==> !s.cards.contains(
                placed_card(#[trigger] announce_frames(s, frames, mapping).1[k]),
            ),
        forall|i: int, j: int|
            0 <= i < j < announce_frames(s, frames, mapping).1.len() ==> placed_card(
                #[trigger] announce_frames(s, frames, mapping).1[i],
            ) != placed_card(#[trigger] announce_frames(s, frames, mapping).1[j]),
        forall|c: Seq<char>| #[trigger]
            announce_frames(s, frames, mapping).0.cards.contains(c) <==> (s.cards.contains(c)
                || exists|k: int|
                0 <= k < announce_frames(s, frames, mapping).1.len() && placed_card(
                    announce_frames(s, frames, mapping).1[k],
                ) == c),
    decreases frames.len(),
{
    if frames.len() == 0 {
        let (t, said) = announce_frames(s, frames, mapping);
        assert(said =~= Seq::<ResponseView>::empty());
        assert(t == s);
    }
    if frames.len() > 0 {
        lemma_cards_announced_once(s, frames.drop_last(), mapping);
        let (mid, said) = announce_frames(s, frames.drop_last(), mapping);
        let (t, more) = announce_positions(mid, frames.last().0, frames.last().1, mapping);
        lemma_announcements_are_new_cards(mid, frames.last().0, frames.last().1, mapping);
        let all = said + more;
        assert(announce_frames(s, frames, mapping) == (t, all));
        assert(announce_frames(s, frames, mapping).0 == t);
        assert(announce_frames(s, frames, mapping).1 == all);
        assert forall|c: Seq<char>| #[trigger] t.cards.contains(c) <==> (s.cards.contains(c) || exists|k: int|
            0 <= k < all.len() && placed_card(all[k]) == c) by {
            if exists|k: int| 0 <= k < said.len() && placed_card(said[k]) == c {
                let k = choose|k: int| 0 <= k < said.len() && placed_card(said[k]) == c;
                assert(all[k] == said[k]);
            }
            if exists|k: int| 0 <= k < more.len() && placed_card(more[k]) == c {
                let k = choose|k: int| 0 <= k < more.len() && placed_card(more[k]) == c;
                assert(all[k + said.len()] == more[k]);
            }
            if exists|k: int| 0 <= k < all.len() && placed_card(all[k]) == c {
                let k = choose|k: int| 0 <= k < all.len() && placed_card(all[k]) == c;
                if k < said.len() {
                    assert(all[k] == said[k]);
                } else {
                    assert(all[k] == more[k - said.len()]);
                }
            }
        }
        assert forall|k: int| 0 <= k < all.len() implies !s.cards.contains(placed_card(#[trigger] all[k])) by {
            if k < said.len() {
                assert(all[k] == said[k]);
            } else {
                assert(all[k] == more[k - said.len()]);
                assert(!mid.cards.contains(placed_card(more[k - said.len()])));
            }
        }
        assert forall|i: int, j: int| 0 <= i < j < all.len() implies placed_card(#[trigger] all[i])
            != placed_card(#[trigger] all[j]) by {
            if j < said.len() {
                assert(all[i] == said[i]);
                assert(all[j] == said[j]);
            } else if i < said.len() {
                assert(all[i] == said[i]);
                assert(all[j] == more[j - said.len()]);
                assert(mid.cards.contains(placed_card(said[i])));
                assert(!mid.cards.contains(placed_card(more[j - said.len()])));
            } else {
                assert(all[i] == more[i - said.len()]);
                assert(all[j] == more[j - said.len()]);
            }
        }
    }
}


/// The card-placed frame number of a response.
pub open spec fn placed_frame(r: ResponseView) -> i32 {
    match r {
        ResponseView::CardPlaced { frame_number, .. } => frame_number,
        _ => 0,
    }
}

/// What the announcements of one frame come from: `ids[k]` is the placeholder
/// whose first showing brought the k-th announcement, the card announced is the
/// one the mapping gives that placeholder, and no placeholder brings two.
pub proof fn lemma_announcement_sources(
    s: DealingView,
    frame: i32,
    ps: Seq<PlaceholderPositionView>,
    mapping: Seq<Seq<char>>,
) -> (ids: Seq<usize>)
    ensures
        ids.len() == announce_positions(s, frame, ps, mapping).1.len(),
        forall|k: int|
            0 <= k < ids.len() ==> {
                &&& !s.ids.contains(#[trigger] ids[k])
                &&& announce_positions(s, frame, ps, mapping).0.ids.contains(ids[k])
                &&& ids[k] < mapping.len()
                &&& placed_card(announce_positions(s, frame, ps, mapping).1[k]) == mapping[ids[k] as int]
                &&& placed_frame(announce_positions(s, frame, ps, mapping).1[k]) == frame
            },
        forall|i: int, j: int| 0 <= i < j < ids.len() ==> #[trigger] ids[i] != #[trigger] ids[j],
        s.ids.subset_of(announce_positions(s, frame, ps, mapping).0.ids),
    decreases ps.len(),
{
    if ps.len() == 0 {
        Seq::empty()
    } else {
        let before = lemma_announcement_sources(s, frame, ps.drop_last(), mapping);
        let (mid, said) = announce_positions(s, frame, ps.drop_last(), mapping);
        let (t, more) = announce_position(mid, frame, ps.last(), mapping);
        let all = said + more;
        assert(announce_positions(s, frame, ps, mapping).0 == t);
        assert(announce_positions(s, frame, ps, mapping).1 == all);
        let id = ps.last().placeholder_id;
        if more.len() == 0 {
            assert(all =~= said);
            assert forall|k: int| 0 <= k < before.len() implies t.ids.contains(#[trigger] before[k]) by {
                assert(mid.ids.contains(before[k]));
            }
            before
        } else {
            let ids = before.push(id);
            assert(!mid.ids.contains(id));
            assert forall|k: int| 0 <= k < ids.len() implies {
                &&& !s.ids.contains(#[trigger] ids[k])
                &&& t.ids.contains(ids[k])
                &&& ids[k] < mapping.len()
                &&& placed_card(all[k]) == mapping[ids[k] as int]
                &&& placed_frame(all[k]) == frame
            } by {
                if k < before.len() {
                    assert(ids[k] == before[k]);
                    assert(all[k] == said[k]);
                    assert(mid.ids.contains(before[k]));
                } else {
                    assert(ids[k] == id);
                    assert(all[k] == more[0]);
                }
            }
            assert forall|i: int, j: int| 0 <= i < j < ids.len() implies #[trigger] ids[i]
                != #[trigger] ids[j] by {
                if j == before.len() {
                    assert(mid.ids.contains(before[i]));
                } else {
                    assert(ids[i] == before[i]);
                    assert(ids[j] == before[j]);
                }
            }
            ids
        }
    }
}

/// Over a whole dealing stage, each announcement comes from the first showing
/// of a placeholder not seen before the stage, no placeholder brings two, and
/// the card announced is the one the mapping gives that placeholder. The
/// announcements follow the frames: `fs[k]` is the frame of the k-th, those
/// indices never go down, so when the frames come in increasing frame order so
/// do the announcements' frame numbers.
pub proof fn lemma_one_announcement_per_placeholder(
    s: DealingView,
    frames: Seq<(i32, Seq<PlaceholderPositionView>)>,
    mapping: Seq<Seq<char>>,
) -> (sources: (Seq<usize>, Seq<int>))
    ensures
        ({
            let (ids, fs) = sources;
            let (t, said) = announce_frames(s, frames, mapping);
            &&& ids.len() == said.len()
            &&& fs.len() == said.len()
            &&& forall|k: int|
                0 <= k < said.len() ==> {
                    &&& !s.ids.contains(#[trigger] ids[k])
                    &&& t.ids.contains(ids[k])
                    &&& ids[k] < mapping.len()
                    &&& placed_card(said[k]) == mapping[ids[k] as int]
                    &&& 0 <= fs[k] < frames.len()
                    &&& placed_frame(said[k]) == frames[fs[k]].0
                }
            &&& forall|i: int, j: int| 0 <= i < j < said.len() ==> #[trigger] ids[i] != #[trigger] ids[j]
            &&& forall|i: int, j: int| 0 <= i < j < said.len() ==> #[trigger] fs[i] <= #[trigger] fs[j]
            &&& (forall|a: int, b: int| 0 <= a < b < frames.len() ==> (#[trigger] frames[a]).0
                <= (#[trigger] frames[b]).0) ==> forall|i: int, j: int|
                0 <= i < j < said.len() ==> placed_frame(#[trigger] said[i]) <= placed_frame(
                    #[trigger] said[j],
                )
            &&& s.ids.subset_of(t.ids)
        }),
    decreases frames.len(),
{
    if frames.len() == 0 {
        let (t, said) = announce_frames(s, frames, mapping);
        assert(said =~= Seq::<ResponseView>::empty());
        assert(t == s);
        (Seq::empty(), Seq::empty())
    } else {
        let last = frames.len() - 1;
        let (ids1, fs1) = lemma_one_announcement_per_placeholder(s, frames.drop_last(), mapping);
        let (mid, said) = announce_frames(s, frames.drop_last(), mapping);
        let (t, more) = announce_positions(mid, frames.last().0, frames.last().1, mapping);
        let ids2 = lemma_announcement_sources(mid, frames.last().0, frames.last().1, mapping);
        let all = said + more;
        assert(announce_frames(s, frames, mapping).0 == t);
        assert(announce_frames(s, frames, mapping).1 == all);
        let ids = ids1 + ids2;
        let fs = fs1 + Seq::new(more.len(), |k: int| last);
        assert forall|k: int| 0 <= k < all.len() implies {
            &&& !s.ids.contains(#[trigger] ids[k])
            &&& t.ids.contains(ids[k])
            &&& ids[k] < mapping.len()
            &&& placed_card(all[k]) == mapping[ids[k] as int]
            &&& 0 <= fs[k] < frames.len()
            &&& placed_frame(all[k]) == frames[fs[k]].0
        } by {
            if k < said.len() {
                assert(ids[k] == ids1[k]);
                assert(fs[k] == fs1[k]);
                assert(all[k] == said[k]);
                assert(frames.drop_last()[fs1[k]] == frames[fs1[k]]);
                assert(mid.ids.contains(ids1[k]));
            } else {
                let j = k - said.len();
                assert(ids[k] == ids2[j]);
                assert(fs[k] == last);
                assert(all[k] == more[j]);
                assert(!mid.ids.contains(ids2[j]));
            }
        }
        assert forall|i: int, j: int| 0 <= i < j < all.len() implies #[trigger] ids[i] != #[trigger] ids[j] by {
            if j < said.len() {
                assert(ids[i] == ids1[i]);
                assert(ids[j] == ids1[j]);
            } else if i < said.len() {
                assert(ids[i] == ids1[i]);
                assert(ids[j] == ids2[j - said.len()]);
                assert(mid.ids.contains(ids1[i]));
                assert(!mid.ids.contains(ids2[j - said.len()]));
            } else {
                assert(ids[i] == ids2[i - said.len()]);
                assert(ids[j] == ids2[j - said.len()]);
            }
        }
        assert forall|i: int, j: int| 0 <= i < j < all.len() implies #[trigger] fs[i] <= #[trigger] fs[j] by {
            if j < said.len() {
                assert(fs[i] == fs1[i]);
                assert(fs[j] == fs1[j]);
            } else if i < said.len() {
                assert(fs[i] == fs1[i]);
                assert(fs[j] == last);
                assert(!s.ids.contains(ids1[i]));
                assert(fs1[i] < last);
            } else {
                assert(fs[i] == last);
                assert(fs[j] == last);
            }
        }
        if forall|a: int, b: int| 0 <= a < b < frames.len() ==> (#[trigger] frames[a]).0 <= (
        #[trigger] frames[b]).0 {
            assert forall|i: int, j: int| 0 <= i < j < all.len() implies placed_frame(#[trigger] all[i])
                <= placed_frame(#[trigger] all[j]) by {
                assert(fs[i] <= fs[j]);
                assert(t.ids.contains(ids[i]));
                assert(t.ids.contains(ids[j]));
                if fs[i] < fs[j] {
                    assert(frames[fs[i]].0 <= frames[fs[j]].0);
                }
            }
        }
        (ids, fs)
    }
}

} // verus!
