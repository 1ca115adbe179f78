//! Tracking green placeholders across the frames of a video.
//!
//! A scan looks at each frame's green regions in turn. A region whose centre
//! lies within 50 pixels of a placeholder already followed continues that
//! placeholder (the lowest such id); any other region starts a new placeholder,
//! whose appearance is recorded. Every frame with at least one region is
//! recorded with its regions ordered by placeholder id.
use vstd::prelude::*;
use crate::geometry::{div_toward_zero, Rect};
use crate::ordering::{
    int_keys, is_stable_sort_order, lemma_stable_order_exists, stable_order, stable_sort_order,
};
use crate::vid::{
    copy_points, frame_views, id_keys, position_views, region_views, DetectedRegion,
    DetectedRegionView, FramePlaceholders, FramePlaceholdersView, PlaceholderAppearance,
    PlaceholderData, PlaceholderDataView, PlaceholderPosition, PlaceholderPositionView,
};

verus! {

/// The centre of a rectangle, rounding half-sizes toward zero.
pub open spec fn centroid(r: Rect) -> (int, int) {
    (r.x + div_toward_zero(r.width as int, 2), r.y + div_toward_zero(r.height as int, 2))
}

/// A centre of an `i32` rectangle lies within these bounds.
pub open spec fn centre_in_range(c: (int, int)) -> bool {
    -0x1_0000_0000 <= c.0 <= 0x1_0000_0000 && -0x1_0000_0000 <= c.1 <= 0x1_0000_0000
}

/// Two points are less than 50 pixels apart.
pub open spec fn is_near(a: (int, int), b: (int, int)) -> bool {
    (a.0 - b.0) * (a.0 - b.0) + (a.1 - b.1) * (a.1 - b.1) < 2500
}

/// The lowest id from `from` on whose last centre is near `c`.
pub open spec fn first_near_from(centres: Seq<(int, int)>, c: (int, int), from: int) -> Option<int>
    decreases centres.len() - from,
{
    if from < 0 || from >= centres.len() {
        None
    } else if is_near(centres[from], c) {
        Some(from)
    } else {
        first_near_from(centres, c, from + 1)
    }
}

/// The state of a scan inside one frame.
pub ghost struct ScanState {
    /// The last centre of each placeholder, by id.
    pub centres: Seq<(int, int)>,
    pub appearances: Seq<PlaceholderAppearance>,
    /// The regions of the current frame seen so far.
    pub positions: Seq<PlaceholderPositionView>,
}

/// A region stored as placeholder `id`, which first appeared in frame `first_seen`.
pub open spec fn stored_position(r: DetectedRegionView, id: int, first_seen: i32) -> PlaceholderPositionView {
    PlaceholderPositionView {
        contour_points: r.contour,
        rect: (r.rect.x, r.rect.y, r.rect.width, r.rect.height),
        placeholder_id: id as usize,
        first_seen_frame: first_seen,
    }
}

/// One region of frame `frame` continues the nearest-by-id placeholder (and
/// carries the frame in which that placeholder first appeared), or starts a
/// new one, which first appears in this frame.
pub open spec fn track_region(s: ScanState, frame: i32, r: DetectedRegionView) -> ScanState {
    let c = centroid(r.rect);
    match first_near_from(s.centres, c, 0) {
        Some(id) => ScanState {
            centres: s.centres.update(id, c),
            appearances: s.appearances,
            positions: s.positions.push(stored_position(r, id, s.appearances[id].frame_number)),
        },
        None => {
            let id = s.centres.len() as int;
            ScanState {
                centres: s.centres.push(c),
                appearances: s.appearances.push(
                    PlaceholderAppearance {
                        frame_number: frame,
                        placeholder_count: (id + 1) as usize,
                        new_placeholder_index: Some(id as usize),
                    },
                ),
                positions: s.positions.push(stored_position(r, id, frame)),
            }
        },
    }
}

/// The regions of one frame, taken in order.
pub open spec fn track_regions(s: ScanState, frame: i32, rs: Seq<DetectedRegionView>) -> ScanState
    decreases rs.len(),
{
    if rs.len() == 0 {
        s
    } else {
        track_region(track_regions(s, frame, rs.drop_last()), frame, rs.last())
    }
}

/// Positions ordered by placeholder id, stably.
pub open spec fn sorted_by_id(ps: Seq<PlaceholderPositionView>) -> Seq<PlaceholderPositionView> {
    let order = stable_order(id_keys(ps));
    Seq::new(ps.len(), |k: int| ps[order[k] as int])
}

pub ghost struct TrackerView {
    pub data: PlaceholderDataView,
    /// The last centre of each placeholder, by id.
    pub centres: Seq<(int, int)>,
    /// The number of the next frame to be scanned.
    pub next_frame: int,
}

/// The scan after the regions `rs` of its next frame.
pub open spec fn scan_frame(v: TrackerView, rs: Seq<DetectedRegionView>) -> TrackerView {
    let frame = v.next_frame as i32;
    let s0 = ScanState {
        centres: v.centres,
        appearances: v.data.placeholder_appearances,
        positions: Seq::empty(),
    };
    let s = track_regions(s0, frame, rs);
    let sorted = sorted_by_id(s.positions);
    TrackerView {
        data: PlaceholderDataView {
            video_path: v.data.video_path,
            frame_count: v.data.frame_count,
            placeholders: if sorted.len() > 0 {
                v.data.placeholders.push(
                    FramePlaceholdersView { frame_number: frame, positions: sorted },
                )
            } else {
                v.data.placeholders
            },
            placeholder_appearances: s.appearances,
        },
        centres: s.centres,
        next_frame: v.next_frame + 1,
    }
}

/// A recorded frame holds a position of placeholder `id`.
pub open spec fn frame_has_id(fp: FramePlaceholdersView, id: int) -> bool {
    exists|i: int| 0 <= i < fp.positions.len() && fp.positions[i].placeholder_id == id
}

/// Some position in `ps` names placeholder `id`.
pub open spec fn positions_have_id(ps: Seq<PlaceholderPositionView>, id: int) -> bool {
    exists|i: int| 0 <= i < ps.len() && ps[i].placeholder_id == id
}

/// Some recorded frame numbered `frame_number` holds placeholder `id`.
pub open spec fn appearance_recorded(frames: Seq<FramePlaceholdersView>, id: int, frame_number: i32) -> bool {
    exists|f: int|
        0 <= f < frames.len() && frames[f].frame_number == frame_number && frame_has_id(frames[f], id)
}

/// What a scan keeps true from frame to frame:
/// - the k-th appearance introduced placeholder k, when k + 1 placeholders
///   were followed, and appearances come in frame order, before the next frame;
/// - recorded frames come in increasing frame order, before the next frame;
/// - each recorded frame holds at least one position, ordered by id; every
///   position names a followed placeholder that had appeared by that frame and
///   carries the number of the frame in which that placeholder first appeared;
/// - the frame of each appearance is recorded and holds that placeholder.
pub open spec fn tracker_wf(v: TrackerView) -> bool {
    let apps = v.data.placeholder_appearances;
    let frames = v.data.placeholders;
    &&& 0 <= v.next_frame <= i32::MAX
    &&& v.centres.len() == apps.len()
    &&& forall|k: int| 0 <= k < v.centres.len() ==> centre_in_range(#[trigger] v.centres[k])
    &&& apps.len() <= usize::MAX
    &&& forall|k: int|
        0 <= k < apps.len() ==> {
            &&& (#[trigger] apps[k]).new_placeholder_index == Some(k as usize)
            &&& apps[k].placeholder_count == k + 1
            &&& 0 <= apps[k].frame_number < v.next_frame
        }
    &&& forall|a: int, b: int|
        0 <= a < b < apps.len() ==> (#[trigger] apps[a]).frame_number
            <= (#[trigger] apps[b]).frame_number
    &&& forall|a: int, b: int|
        0 <= a < b < frames.len() ==> (#[trigger] frames[a]).frame_number
            < (#[trigger] frames[b]).frame_number
    &&& forall|f: int| 0 <= f < frames.len() ==> frame_wf(#[trigger] frames[f], apps, v.next_frame)
    &&& forall|k: int|
        0 <= k < apps.len() ==> #[trigger] appearance_recorded(frames, k, apps[k].frame_number)
}

pub open spec fn frame_wf(fp: FramePlaceholdersView, apps: Seq<PlaceholderAppearance>, next_frame: int) -> bool {
    &&& 0 <= fp.frame_number < next_frame
    &&& fp.positions.len() > 0
    &&& forall|i: int, j: int|
        0 <= i < j < fp.positions.len() ==> (#[trigger] fp.positions[i]).placeholder_id
            <= (#[trigger] fp.positions[j]).placeholder_id
    &&& forall|i: int|
        0 <= i < fp.positions.len() ==> {
            &&& (#[trigger] fp.positions[i]).placeholder_id < apps.len()
            &&& fp.positions[i].first_seen_frame == apps[fp.positions[i].placeholder_id as int].frame_number
            &&& apps[fp.positions[i].placeholder_id as int].frame_number <= fp.frame_number
        }
}

/// What holds of the scan state within frame `frame`.
pub open spec fn scan_state_wf(s: ScanState, frame: i32) -> bool {
    &&& s.centres.len() == s.appearances.len()
    &&& forall|k: int| 0 <= k < s.centres.len() ==> centre_in_range(#[trigger] s.centres[k])
    &&& forall|k: int|
        0 <= k < s.appearances.len() ==> {
            &&& (#[trigger] s.appearances[k]).new_placeholder_index == Some(k as usize)
            &&& s.appearances[k].placeholder_count == k + 1
            &&& 0 <= s.appearances[k].frame_number <= frame
        }
    &&& forall|a: int, b: int|
        0 <= a < b < s.appearances.len() ==> (#[trigger] s.appearances[a]).frame_number
            <= (#[trigger] s.appearances[b]).frame_number
    &&& forall|i: int|
        0 <= i < s.positions.len() ==> {
            &&& (#[trigger] s.positions[i]).placeholder_id < s.appearances.len()
            &&& s.positions[i].first_seen_frame == s.appearances[s.positions[i].placeholder_id as int].frame_number
        }
    &&& forall|k: int|
        0 <= k < s.appearances.len() && s.appearances[k].frame_number == frame ==> #[trigger] positions_have_id(
            s.positions,
            k,
        )
}

proof fn lemma_first_near_from(centres: Seq<(int, int)>, c: (int, int), from: int)
    requires
        0 <= from,
    ensures
        first_near_from(centres, c, from) matches Some(id) ==> from <= id < centres.len() && is_near(
            centres[id],
            c,
        ) && forall|j: int| from <= j < id ==> !is_near(#[trigger] centres[j], c),
        first_near_from(centres, c, from) is None ==> forall|j: int|
            from <= j < centres.len() ==> !is_near(#[trigger] centres[j], c),
    decreases centres.len() - from,
{
    if from < centres.len() && !is_near(centres[from], c) {
        lemma_first_near_from(centres, c, from + 1);
    }
}

proof fn lemma_track_region_wf(s: ScanState, frame: i32, r: DetectedRegionView)
    requires
        scan_state_wf(s, frame),
        0 <= frame,
        s.appearances.len() < usize::MAX,
    ensures
        scan_state_wf(track_region(s, frame, r), frame),
        track_region(s, frame, r).appearances.subrange(0, s.appearances.len() as int)
            == s.appearances,
        track_region(s, frame, r).positions.len() == s.positions.len() + 1,
        s.appearances.len() <= track_region(s, frame, r).appearances.len() <= s.appearances.len() + 1,
        forall|k: int|
            s.appearances.len() <= k < track_region(s, frame, r).appearances.len() ==> (
            #[trigger] track_region(s, frame, r).appearances[k]).frame_number == frame,
{
    lemma_first_near_from(s.centres, centroid(r.rect), 0);
    let t = track_region(s, frame, r);
    assert(centre_in_range(centroid(r.rect)));
    assert forall|k: int| 0 <= k < t.centres.len() implies centre_in_range(#[trigger] t.centres[k]) by {
        if k < s.centres.len() && t.centres[k] != centroid(r.rect) {
            assert(t.centres[k] == s.centres[k]);
        }
    }
    assert(t.appearances.subrange(0, s.appearances.len() as int) =~= s.appearances);
    assert forall|i: int| 0 <= i < t.positions.len() implies (#[trigger] t.positions[i]).placeholder_id
        < t.appearances.len() && t.positions[i].first_seen_frame
        == t.appearances[t.positions[i].placeholder_id as int].frame_number by {
        if i < s.positions.len() {
            assert(t.positions[i] == s.positions[i]);
            assert(t.appearances[s.positions[i].placeholder_id as int] == s.appearances[s.positions[i].placeholder_id as int]);
        }
    }
    let last = s.positions.len() as int;
    assert forall|k: int|
        0 <= k < t.appearances.len() && t.appearances[k].frame_number == frame implies #[trigger] positions_have_id(
        t.positions,
        k,
    ) by {
        if k < s.appearances.len() {
            assert(t.appearances[k] == s.appearances[k]);
            assert(positions_have_id(s.positions, k));
            let i = choose|i: int| 0 <= i < s.positions.len() && s.positions[i].placeholder_id == k;
            assert(t.positions[i] == s.positions[i]);
        } else {
            assert(t.positions[last].placeholder_id == k);
        }
    }
}

proof fn lemma_track_regions_wf(s: ScanState, frame: i32, rs: Seq<DetectedRegionView>)
    requires
        scan_state_wf(s, frame),
        0 <= frame,
        s.appearances.len() + rs.len() <= usize::MAX,
    ensures
        scan_state_wf(track_regions(s, frame, rs), frame),
        track_regions(s, frame, rs).appearances.subrange(0, s.appearances.len() as int)
            == s.appearances,
        track_regions(s, frame, rs).positions.len() == s.positions.len() + rs.len(),
        s.appearances.len() <= track_regions(s, frame, rs).appearances.len() <= s.appearances.len()
            + rs.len(),
        forall|k: int|
            s.appearances.len() <= k < track_regions(s, frame, rs).appearances.len() ==> (
            #[trigger] track_regions(s, frame, rs).appearances[k]).frame_number == frame,
    decreases rs.len(),
{
    if rs.len() > 0 {
        let mid = track_regions(s, frame, rs.drop_last());
        lemma_track_regions_wf(s, frame, rs.drop_last());
        lemma_track_region_wf(mid, frame, rs.last());
        let t = track_region(mid, frame, rs.last());
        assert(t.appearances.subrange(0, s.appearances.len() as int) =~= mid.appearances.subrange(
            0,
            s.appearances.len() as int,
        ));
        assert forall|k: int| s.appearances.len() <= k < t.appearances.len() implies (
        #[trigger] t.appearances[k]).frame_number == frame by {
            if k < mid.appearances.len() {
                assert(t.appearances[k] == mid.appearances[k]);
            }
        }
    }
}

/// Scanning a frame keeps the scan well formed.
pub proof fn lemma_scan_frame_wf(v: TrackerView, rs: Seq<DetectedRegionView>)
    requires
        tracker_wf(v),
        v.next_frame < i32::MAX,
        v.data.placeholder_appearances.len() + rs.len() <= usize::MAX,
    ensures
        tracker_wf(scan_frame(v, rs)),
{
    let frame = v.next_frame as i32;
    let s0 = ScanState {
        centres: v.centres,
        appearances: v.data.placeholder_appearances,
        positions: Seq::empty(),
    };
    assert(scan_state_wf(s0, frame));
    lemma_track_regions_wf(s0, frame, rs);
    let s = track_regions(s0, frame, rs);
    let w = scan_frame(v, rs);
    let apps = s.appearances;
    let old_apps = v.data.placeholder_appearances;
    assert forall|k: int| 0 <= k < old_apps.len() implies #[trigger] apps[k] == old_apps[k] by {
        assert(apps.subrange(0, old_apps.len() as int)[k] == apps[k]);
    }
    let ps = s.positions;
    let sorted = sorted_by_id(ps);
    let order = stable_order(id_keys(ps));
    lemma_stable_order_exists(id_keys(ps));
    assert forall|k: int| 0 <= k < sorted.len() implies #[trigger] sorted[k] == ps[order[k] as int]
        && 0 <= order[k] < ps.len() by {}
    let new_fp = FramePlaceholdersView { frame_number: frame, positions: sorted };
    if sorted.len() > 0 {
        assert forall|i: int, j: int| 0 <= i < j < sorted.len() implies (#[trigger] sorted[i]).placeholder_id
            <= (#[trigger] sorted[j]).placeholder_id by {
            assert(id_keys(ps)[order[i] as int] <= id_keys(ps)[order[j] as int]);
        }
        assert forall|i: int| 0 <= i < sorted.len() implies {
            &&& (#[trigger] sorted[i]).placeholder_id < apps.len()
            &&& sorted[i].first_seen_frame == apps[sorted[i].placeholder_id as int].frame_number
            &&& apps[sorted[i].placeholder_id as int].frame_number <= frame
        } by {
            assert(ps[order[i] as int].placeholder_id < apps.len());
        }
        assert(frame_wf(new_fp, apps, w.next_frame));
    }
    let frames = w.data.placeholders;
    assert forall|f: int| 0 <= f < frames.len() implies frame_wf(#[trigger] frames[f], apps, w.next_frame) by {
        if f < v.data.placeholders.len() {
            let fp = v.data.placeholders[f];
            assert(frames[f] == fp);
            assert(frame_wf(fp, old_apps, v.next_frame));
            assert forall|i: int| 0 <= i < fp.positions.len() implies {
                &&& (#[trigger] fp.positions[i]).placeholder_id < apps.len()
                &&& fp.positions[i].first_seen_frame == apps[fp.positions[i].placeholder_id as int].frame_number
                &&& apps[fp.positions[i].placeholder_id as int].frame_number <= fp.frame_number
            } by {
                assert(apps[fp.positions[i].placeholder_id as int] == old_apps[fp.positions[i].placeholder_id as int]);
            }
        }
    }
    let old_frames = v.data.placeholders;
    assert forall|k: int| 0 <= k < apps.len() implies #[trigger] appearance_recorded(
        frames,
        k,
        apps[k].frame_number,
    ) by {
        if k < old_apps.len() {
            assert(appearance_recorded(old_frames, k, old_apps[k].frame_number));
            let f = choose|f: int|
                0 <= f < old_frames.len() && old_frames[f].frame_number == old_apps[k].frame_number
                    && frame_has_id(old_frames[f], k);
            assert(frames[f] == old_frames[f]);
        } else {
            assert(apps[k].frame_number == frame);
            assert(positions_have_id(ps, k));
            let i = choose|i: int| 0 <= i < ps.len() && ps[i].placeholder_id == k;
            assert(order.contains(i as usize));
            let kk = choose|kk: int| 0 <= kk < order.len() && order[kk] == i as usize;
            assert(sorted[kk] == ps[i]);
            let nf = old_frames.len() as int;
            assert(frames[nf] == new_fp);
            assert(frame_has_id(frames[nf], k));
        }
    }
}

/// The frame of a placeholder's appearance is the first recorded frame that
/// holds the placeholder: it is recorded and holds it, and every recorded
/// frame that holds it comes no earlier.
pub proof fn lemma_appearance_is_first_recorded_frame(v: TrackerView, id: int)
    requires
        tracker_wf(v),
        0 <= id < v.data.placeholder_appearances.len(),
    ensures
        appearance_recorded(
            v.data.placeholders,
            id,
            v.data.placeholder_appearances[id].frame_number,
        ),
        forall|f: int|
            0 <= f < v.data.placeholders.len() && frame_has_id(#[trigger] v.data.placeholders[f], id)
                ==> v.data.placeholder_appearances[id].frame_number
                <= v.data.placeholders[f].frame_number,
{
    let apps = v.data.placeholder_appearances;
    assert(appearance_recorded(v.data.placeholders, id, apps[id].frame_number));
    assert forall|f: int|
        0 <= f < v.data.placeholders.len() && frame_has_id(#[trigger] v.data.placeholders[f], id)
            implies apps[id].frame_number <= v.data.placeholders[f].frame_number by {
        let fp = v.data.placeholders[f];
        assert(frame_wf(fp, apps, v.next_frame));
        let i = choose|i: int| 0 <= i < fp.positions.len() && fp.positions[i].placeholder_id == id;
        assert(fp.positions[i].placeholder_id < apps.len());
    }
}

/// The centre of a stored rectangle `(x, y, width, height)`, rounding
/// half-sizes toward zero.
pub open spec fn rect_centre(t: (i32, i32, i32, i32)) -> (int, int) {
    (t.0 + div_toward_zero(t.2 as int, 2), t.1 + div_toward_zero(t.3 as int, 2))
}

/// Within one frame: the region stored last under a placeholder id gives that
/// placeholder's followed centre, and a placeholder no region continued keeps
/// its centre.
proof fn lemma_track_regions_centres(s: ScanState, frame: i32, rs: Seq<DetectedRegionView>)
    requires
        scan_state_wf(s, frame),
        s.positions.len() == 0,
        0 <= frame,
        s.appearances.len() + rs.len() <= usize::MAX,
    ensures
        ({
            let t = track_regions(s, frame, rs);
            &&& t.positions.len() == rs.len()
            &&& s.centres.len() <= t.centres.len()
            &&& forall|i: int| 0 <= i < rs.len() ==> (#[trigger] t.positions[i]).rect == (
                rs[i].rect.x,
                rs[i].rect.y,
                rs[i].rect.width,
                rs[i].rect.height,
            )
            &&& forall|j: int|
                0 <= j < rs.len() && (forall|j2: int|
                    j < j2 < rs.len() ==> (#[trigger] t.positions[j2]).placeholder_id
                        != t.positions[j].placeholder_id) ==> {
                    &&& (#[trigger] t.positions[j]).placeholder_id < t.centres.len()
                    &&& t.centres[t.positions[j].placeholder_id as int] == centroid(rs[j].rect)
                }
            &&& forall|k: int|
                0 <= k < s.centres.len() && (forall|j: int|
                    0 <= j < rs.len() ==> (#[trigger] t.positions[j]).placeholder_id != k) ==> #[trigger] t.centres[k]
                    == s.centres[k]
        }),
    decreases rs.len(),
{
    lemma_track_regions_wf(s, frame, rs);
    if rs.len() > 0 {
        let n = rs.len() - 1;
        let pre = rs.drop_last();
        lemma_track_regions_centres(s, frame, pre);
        lemma_track_regions_wf(s, frame, pre);
        let mid = track_regions(s, frame, pre);
        let r = rs.last();
        let t = track_region(mid, frame, r);
        assert(track_regions(s, frame, rs) == t);
        lemma_first_near_from(mid.centres, centroid(r.rect), 0);
        let id = t.positions[n].placeholder_id as int;
        assert(t.positions[n] == stored_position(r, id, t.positions[n].first_seen_frame));
        assert(t.centres[id] == centroid(r.rect));
        assert(forall|i: int| 0 <= i < n ==> t.positions[i] == mid.positions[i]);
        assert(forall|i: int| 0 <= i < n ==> pre[i] == rs[i]);
        assert forall|k: int| 0 <= k < mid.centres.len() && k != id implies #[trigger] t.centres[k]
            == mid.centres[k] by {}
        assert forall|j: int|
            0 <= j < rs.len() && (forall|j2: int|
                j < j2 < rs.len() ==> (#[trigger] t.positions[j2]).placeholder_id
                    != t.positions[j].placeholder_id) implies {
                &&& (#[trigger] t.positions[j]).placeholder_id < t.centres.len()
                &&& t.centres[t.positions[j].placeholder_id as int] == centroid(rs[j].rect)
            } by {
            if j < n {
                let k = t.positions[j].placeholder_id as int;
                assert(t.positions[n].placeholder_id != k);
                assert(mid.positions[j].placeholder_id < mid.appearances.len());
                assert forall|j2: int| j < j2 < pre.len() implies (#[trigger] mid.positions[j2]).placeholder_id
                    != mid.positions[j].placeholder_id by {
                    assert(t.positions[j2] == mid.positions[j2]);
                }
            }
        }
        assert forall|k: int|
            0 <= k < s.centres.len() && (forall|j: int|
                0 <= j < rs.len() ==> (#[trigger] t.positions[j]).placeholder_id != k) implies #[trigger] t.centres[k]
            == s.centres[k] by {
            assert(t.positions[n].placeholder_id != k);
            assert forall|j: int| 0 <= j < pre.len() implies (#[trigger] mid.positions[j]).placeholder_id != k by {
                assert(t.positions[j] == mid.positions[j]);
            }
        }
    }
}

/// After a frame is scanned, each placeholder that a region of the frame
/// continued or started follows the centre of the last such region, as stored
/// in the recorded frame; every other placeholder keeps its centre. (Regions
/// with the same id keep their order in the recorded frame.)
pub proof fn lemma_scan_follows_latest_centre(v: TrackerView, rs: Seq<DetectedRegionView>)
    requires
        tracker_wf(v),
        v.next_frame < i32::MAX,
        v.data.placeholder_appearances.len() + rs.len() <= usize::MAX,
    ensures
        ({
            let w = scan_frame(v, rs);
            let fp = w.data.placeholders.last();
            &&& rs.len() == 0 ==> w.centres == v.centres && w.data.placeholders == v.data.placeholders
            &&& rs.len() > 0 ==> {
                &&& w.data.placeholders.len() == v.data.placeholders.len() + 1
                &&& fp.frame_number == v.next_frame
                &&& fp.positions.len() == rs.len()
                &&& forall|j: int|
                    0 <= j < fp.positions.len() && (forall|j2: int|
                        j < j2 < fp.positions.len() ==> (#[trigger] fp.positions[j2]).placeholder_id
                            != fp.positions[j].placeholder_id) ==> {
                        &&& (#[trigger] fp.positions[j]).placeholder_id < w.centres.len()
                        &&& w.centres[fp.positions[j].placeholder_id as int] == rect_centre(
                            fp.positions[j].rect,
                        )
                    }
                &&& forall|k: int|
                    0 <= k < v.centres.len() && (forall|j: int|
                        0 <= j < fp.positions.len() ==> (#[trigger] fp.positions[j]).placeholder_id != k)
                        ==> #[trigger] w.centres[k] == v.centres[k]
            }
        }),
{
    let frame = v.next_frame as i32;
    let s0 = ScanState {
        centres: v.centres,
        appearances: v.data.placeholder_appearances,
        positions: Seq::empty(),
    };
    assert(scan_state_wf(s0, frame));
    lemma_track_regions_centres(s0, frame, rs);
    let s = track_regions(s0, frame, rs);
    let w = scan_frame(v, rs);
    if rs.len() == 0 {
        assert(s == s0);
        assert(sorted_by_id(s.positions) =~= Seq::<PlaceholderPositionView>::empty());
    } else {
        let ps = s.positions;
        let keys = id_keys(ps);
        lemma_stable_order_exists(keys);
        let order = stable_order(keys);
        let sorted = sorted_by_id(ps);
        let fp = w.data.placeholders.last();
        assert(fp.positions == sorted);
        assert forall|m: int| 0 <= m < sorted.len() implies #[trigger] sorted[m] == ps[order[m] as int]
            && order[m] < ps.len() by {}
        assert forall|j: int|
            0 <= j < sorted.len() && (forall|j2: int|
                j < j2 < sorted.len() ==> (#[trigger] sorted[j2]).placeholder_id
                    != sorted[j].placeholder_id) implies {
                &&& (#[trigger] sorted[j]).placeholder_id < w.centres.len()
                &&& w.centres[sorted[j].placeholder_id as int] == rect_centre(sorted[j].rect)
            } by {
            let k = sorted[j].placeholder_id;
            let i = order[j] as int;
            assert forall|i2: int| i < i2 < rs.len() implies (#[trigger] ps[i2]).placeholder_id
                != ps[i].placeholder_id by {
                if ps[i2].placeholder_id == k {
                    assert(order.contains(i2 as usize));
                    let m = choose|m: int| 0 <= m < order.len() && order[m] == i2 as usize;
                    assert(sorted[m].placeholder_id == k);
                    if m > j {
                    } else if m == j {
                    } else {
                        assert(keys[order[m] as int] == keys[order[j] as int]);
                        assert(order[m] < order[j]);
                    }
                }
            }
        }
        assert forall|k: int|
            0 <= k < v.centres.len() && (forall|j: int|
                0 <= j < sorted.len() ==> (#[trigger] sorted[j]).placeholder_id != k) implies #[trigger] w.centres[k]
            == v.centres[k] by {
            assert forall|i: int| 0 <= i < rs.len() implies (#[trigger] ps[i]).placeholder_id != k by {
                assert(order.contains(i as usize));
                let m = choose|m: int| 0 <= m < order.len() && order[m] == i as usize;
                assert(sorted[m] == ps[i]);
            }
        }
    }
}

/// A placeholder scan in progress.
pub struct PlaceholderTracker {
    data: PlaceholderData,
    centres: Vec<(i64, i64)>,
    next_frame: i32,
}

pub open spec fn centre_views(t: Seq<(i64, i64)>) -> Seq<(int, int)> {
    t.map_values(|p: (i64, i64)| (p.0 as int, p.1 as int))
}

impl View for PlaceholderTracker {
    type V = TrackerView;

    closed spec fn view(&self) -> TrackerView {
        TrackerView {
            data: self.data@,
            centres: centre_views(self.centres@),
            next_frame: self.next_frame as int,
        }
    }
}

/// The centre of a rectangle.
fn centre_of(r: &Rect) -> (c: (i64, i64))
    ensures
        (c.0 as int, c.1 as int) == centroid(*r),
{
    let w = r.width as i64;
    let h = r.height as i64;
    let half_w = if w >= 0 {
        w / 2
    } else {
        -((-w) / 2)
    };
    let half_h = if h >= 0 {
        h / 2
    } else {
        -((-h) / 2)
    };
    (r.x as i64 + half_w, r.y as i64 + half_h)
}

/// The lowest id whose last centre is near `c`.
fn find_near(centres: &Vec<(i64, i64)>, c: (i64, i64)) -> (r: Option<usize>)
    requires
        forall|k: int| 0 <= k < centres@.len() ==> centre_in_range(#[trigger] centre_views(centres@)[k]),
        centre_in_range((c.0 as int, c.1 as int)),
    ensures
        r matches Some(id) ==> first_near_from(centre_views(centres@), (c.0 as int, c.1 as int), 0)
            == Some(id as int),
        r is None ==> first_near_from(centre_views(centres@), (c.0 as int, c.1 as int), 0) is None,
{
    let ghost ts = centre_views(centres@);
    let ghost cc = (c.0 as int, c.1 as int);
    let mut i: usize = 0;
    while i < centres.len()
        invariant
            0 <= i <= centres.len(),
            ts == centre_views(centres@),
            cc == (c.0 as int, c.1 as int),
            forall|k: int| 0 <= k < centres@.len() ==> centre_in_range(#[trigger] ts[k]),
            centre_in_range(cc),
            first_near_from(ts, cc, 0) == first_near_from(ts, cc, i as int),
        decreases centres.len() - i,
    {
        let p = centres[i];
        let dx = p.0 as i128 - c.0 as i128;
        let dy = p.1 as i128 - c.1 as i128;
        assert(centre_in_range(ts[i as int]));
        assert(ts[i as int] == (p.0 as int, p.1 as int));
        assert(dx * dx <= 0x10_0000_0000_0000_0000) by (nonlinear_arith)
            requires
                -0x2_0000_0000 <= dx <= 0x2_0000_0000,
        ;
        assert(dy * dy <= 0x10_0000_0000_0000_0000) by (nonlinear_arith)
            requires
                -0x2_0000_0000 <= dy <= 0x2_0000_0000,
        ;
        assert(0 <= dx * dx && 0 <= dy * dy) by (nonlinear_arith);
        let d = dx * dx + dy * dy;
        assert(ts[i as int] == (p.0 as int, p.1 as int));
        if d < 2500 {
            return Some(i);
        }
        i = i + 1;
    }
    None
}

impl PlaceholderTracker {
    /// The scan keeps its invariant (see `tracker_wf`).
    pub open spec fn wf(&self) -> bool {
        tracker_wf(self@)
    }

    /// A scan of the video at `video_path`, of `frame_count` frames, before its first frame.
    pub fn new(video_path: String, frame_count: i32) -> (r: PlaceholderTracker)
        ensures
            r.wf(),
            r@.data.video_path == video_path@,
            r@.data.frame_count == frame_count,
            r@.data.placeholders == Seq::<FramePlaceholdersView>::empty(),
            r@.data.placeholder_appearances == Seq::<PlaceholderAppearance>::empty(),
            r@.centres == Seq::<(int, int)>::empty(),
            r@.next_frame == 0,
    {
        let r = PlaceholderTracker {
            data: PlaceholderData {
                video_path,
                frame_count,
                placeholders: Vec::new(),
                placeholder_appearances: Vec::new(),
            },
            centres: Vec::new(),
            next_frame: 0,
        };
        assert(frame_views(r.data.placeholders@) =~= Seq::<FramePlaceholdersView>::empty());
        assert(centre_views(r.centres@) =~= Seq::<(int, int)>::empty());
        r
    }

    /// The number of the next frame to be scanned.
    pub fn next_frame(&self) -> (r: i32)
        ensures
            r == self@.next_frame,
    {
        self.next_frame
    }

    /// Scans the green regions found in the next frame, in the order in which
    /// they were found.
    pub fn observe_frame(&mut self, regions: &[DetectedRegion])
        requires
            old(self).wf(),
            old(self)@.next_frame < i32::MAX,
            old(self)@.data.placeholder_appearances.len() + regions@.len() <= usize::MAX,
        ensures
            final(self)@ == scan_frame(old(self)@, region_views(regions@)),
            final(self).wf(),
    {
        let ghost v0 = self@;
        let ghost rs = region_views(regions@);
        let frame = self.next_frame;
        let ghost s0 = ScanState {
            centres: v0.centres,
            appearances: v0.data.placeholder_appearances,
            positions: Seq::empty(),
        };
        proof {
            lemma_track_regions_wf(s0, frame, rs);
        }
        let mut positions: Vec<PlaceholderPosition> = Vec::new();
        assert(rs.subrange(0, 0) =~= Seq::<DetectedRegionView>::empty());
        assert(position_views(positions@) =~= Seq::<PlaceholderPositionView>::empty());
        let n = regions.len();
        let mut i: usize = 0;
        while i < n
            invariant
                n == regions@.len(),
                rs == region_views(regions@),
                0 <= i <= n,
                frame == v0.next_frame,
                0 <= frame < i32::MAX,
                self.next_frame == frame,
                self.data.video_path@ == v0.data.video_path,
                self.data.frame_count == v0.data.frame_count,
                frame_views(self.data.placeholders@) == v0.data.placeholders,
                s0.appearances.len() + rs.len() <= usize::MAX,
                s0 == (ScanState {
                    centres: v0.centres,
                    appearances: v0.data.placeholder_appearances,
                    positions: Seq::empty(),
                }),
                scan_state_wf(s0, frame),
                track_regions(s0, frame, rs.subrange(0, i as int)) == (ScanState {
                    centres: centre_views(self.centres@),
                    appearances: self.data.placeholder_appearances@,
                    positions: position_views(positions@),
                }),
            decreases n - i,
        {
            let ghost before = track_regions(s0, frame, rs.subrange(0, i as int));
            proof {
                lemma_track_regions_wf(s0, frame, rs.subrange(0, i as int));
                assert(rs.subrange(0, i + 1).drop_last() =~= rs.subrange(0, i as int));
                assert(rs.subrange(0, i + 1).last() == rs[i as int]);
            }
            let region = &regions[i];
            assert(rs[i as int] == region@);
            let c = centre_of(&region.rect);
            let found = find_near(&self.centres, c);
            let (id, first_seen) = match found {
                Some(id) => {
                    proof {
                        lemma_first_near_from(before.centres, (c.0 as int, c.1 as int), 0);
                    }
                    let first_seen = self.data.placeholder_appearances[id].frame_number;
                    self.centres.set(id, c);
                    (id, first_seen)
                },
                None => {
                    let id = self.centres.len();
                    self.centres.push(c);
                    self.data.placeholder_appearances.push(
                        PlaceholderAppearance {
                            frame_number: frame,
                            placeholder_count: self.centres.len(),
                            new_placeholder_index: Some(id),
                        },
                    );
                    (id, frame)
                },
            };
            let ghost old_positions = position_views(positions@);
            let position = PlaceholderPosition {
                contour_points: copy_points(&region.contour),
                rect: (region.rect.x, region.rect.y, region.rect.width, region.rect.height),
                placeholder_id: id,
                first_seen_frame: first_seen,
            };
            positions.push(position);
            proof {
                let after = track_region(before, frame, rs[i as int]);
                assert(position_views(positions@) =~= old_positions.push(position@));
                assert(centre_views(self.centres@) =~= after.centres);
                assert(position_views(positions@) =~= after.positions);
                assert(self.data.placeholder_appearances@ =~= after.appearances);
            }
            i = i + 1;
        }
        proof {
            assert(rs.subrange(0, n as int) =~= rs);
            lemma_track_regions_wf(s0, frame, rs);
        }
        let ghost s = track_regions(s0, frame, rs);
        let ghost ps = s.positions;
        let m = positions.len();
        let mut keys: Vec<i128> = Vec::new();
        let mut j: usize = 0;
        while j < m
            invariant
                m == positions@.len(),
                ps == position_views(positions@),
                0 <= j <= m,
                keys@.len() == j,
                forall|k: int| 0 <= k < j ==> #[trigger] keys@[k] == positions@[k].placeholder_id as i128,
            decreases m - j,
        {
            keys.push(positions[j].placeholder_id as i128);
            j = j + 1;
        }
        assert(int_keys(keys@) =~= id_keys(ps));
        let order = stable_sort_order(&keys);
        let ghost sorted = sorted_by_id(ps);
        let mut ordered: Vec<PlaceholderPosition> = Vec::new();
        let mut k: usize = 0;
        while k < m
            invariant
                m == positions@.len(),
                ps == position_views(positions@),
                order@ == stable_order(id_keys(ps)),
                is_stable_sort_order(id_keys(ps), order@),
                sorted == sorted_by_id(ps),
                0 <= k <= m,
                position_views(ordered@) == sorted.subrange(0, k as int),
            decreases m - k,
        {
            let idx = order[k];
            assert(idx < m);
            let p = &positions[idx];
            let copy = PlaceholderPosition {
                contour_points: copy_points(&p.contour_points),
                rect: p.rect,
                placeholder_id: p.placeholder_id,
                first_seen_frame: p.first_seen_frame,
            };
            assert(copy@ == sorted[k as int]);
            let ghost old_views = position_views(ordered@);
            ordered.push(copy);
            assert(position_views(ordered@) =~= old_views.push(copy@));
            assert(position_views(ordered@) =~= sorted.subrange(0, k + 1));
            k = k + 1;
        }
        assert(sorted.subrange(0, m as int) =~= sorted);
        if m > 0 {
            let ghost old_frames = frame_views(self.data.placeholders@);
            let fp = FramePlaceholders { frame_number: frame, positions: ordered };
            self.data.placeholders.push(fp);
            assert(frame_views(self.data.placeholders@) =~= old_frames.push(fp@));
        }
        self.next_frame = frame + 1;
        proof {
            lemma_scan_frame_wf(v0, rs);
        }
    }

    /// The record of the scan.
    pub fn into_data(self) -> (r: PlaceholderData)
        ensures
            r@ == self@.data,
    {
        self.data
    }
}

} // verus!
