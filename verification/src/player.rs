//! Play-order state: the explicit play queue, the loop mode, the shuffle bag and
//! the back history, and the decisions that pick the next track to play.
//! Tracks are absolute paths held as `String`s; specifications speak of their
//! character sequences (`deep_view`).
use vstd::prelude::*;
use crate::text::chars_of;
use crate::text::vec_eq;

verus! {

/// Auto-advance / repeat behavior when a track finishes, cycled with `r`.
#[derive(Clone, Copy, PartialEq, Eq, Structural, Debug)]
pub enum LoopMode {
    /// Stop at the end of the list.
    Off,
    /// Advance, wrapping from last back to first.
    All,
    /// Repeat the current track.
    One,
}

/// The mode that follows `m` in the `r` cycle.
pub open spec fn next_mode(m: LoopMode) -> LoopMode {
    match m {
        LoopMode::Off => LoopMode::All,
        LoopMode::All => LoopMode::One,
        LoopMode::One => LoopMode::Off,
    }
}

/// The status-bar label of a mode.
pub open spec fn mode_label(m: LoopMode) -> Seq<char> {
    match m {
        LoopMode::Off => "loop off"@,
        LoopMode::All => "loop all"@,
        LoopMode::One => "loop one"@,
    }
}

/// The name a mode is persisted under.
pub open spec fn mode_name(m: LoopMode) -> Seq<char> {
    match m {
        LoopMode::Off => "off"@,
        LoopMode::All => "all"@,
        LoopMode::One => "one"@,
    }
}

/// The mode persisted under `s`, if any.
pub open spec fn mode_from_name(s: Seq<char>) -> Option<LoopMode> {
    if s == "off"@ {
        Some(LoopMode::Off)
    } else if s == "all"@ {
        Some(LoopMode::All)
    } else if s == "one"@ {
        Some(LoopMode::One)
    } else {
        None
    }
}

impl LoopMode {
    pub fn next(self) -> (r: Self)
        ensures
            r == next_mode(self),
    {
        match self {
            LoopMode::Off => LoopMode::All,
            LoopMode::All => LoopMode::One,
            LoopMode::One => LoopMode::Off,
        }
    }

    pub fn label(self) -> (r: &'static str)
        ensures
            r@ == mode_label(self),
    {
        match self {
            LoopMode::Off => "loop off",
            LoopMode::All => "loop all",
            LoopMode::One => "loop one",
        }
    }

    pub fn as_str(self) -> (r: &'static str)
        ensures
            r@ == mode_name(self),
    {
        match self {
            LoopMode::Off => "off",
            LoopMode::All => "all",
            LoopMode::One => "one",
        }
    }

    pub fn from_str(s: &str) -> (r: Option<Self>)
        ensures
            r == mode_from_name(s@),
    {
        let c = chars_of(s);
        if vec_eq(&c, &chars_of("off")) {
            Some(LoopMode::Off)
        } else if vec_eq(&c, &chars_of("all")) {
            Some(LoopMode::All)
        } else if vec_eq(&c, &chars_of("one")) {
            Some(LoopMode::One)
        } else {
            None
        }
    }
}

/// Pressing `r` three times returns to the starting mode, and every press
/// changes the mode.
pub proof fn law_loop_cycle(m: LoopMode)
    ensures
        next_mode(next_mode(next_mode(m))) == m,
        next_mode(m) != m,
        next_mode(next_mode(m)) != m,
{
}

/// A persisted loop mode is read back as the same mode.
pub proof fn law_mode_name_round_trip(m: LoopMode)
    ensures
        mode_from_name(mode_name(m)) == Some(m),
{
    reveal_strlit("off");
    reveal_strlit("all");
    reveal_strlit("one");
    assert("off"@[0] == 'o' && "all"@[0] == 'a' && "one"@[0] == 'o');
    assert("off"@[1] == 'f' && "one"@[1] == 'n');
}

// ---------------------------------------------------------------- positions

/// Index of the first occurrence of `p` in `q`.
pub open spec fn pos_of(q: Seq<Seq<char>>, p: Seq<char>) -> Option<int>
    decreases q.len(),
{
    if q.len() == 0 {
        None
    } else if q[0] == p {
        Some(0)
    } else {
        match pos_of(q.drop_first(), p) {
            Some(i) => Some(i + 1),
            None => None,
        }
    }
}

/// `pos_of` finds the first occurrence, and finds nothing only when `p` is absent.
pub proof fn lemma_pos_of(q: Seq<Seq<char>>, p: Seq<char>)
    ensures
        match pos_of(q, p) {
            Some(i) => 0 <= i < q.len() && q[i] == p && forall|j: int| 0 <= j < i ==> q[j] != p,
            None => forall|j: int| 0 <= j < q.len() ==> q[j] != p,
        },
    decreases q.len(),
{
    if q.len() > 0 && q[0] != p {
        lemma_pos_of(q.drop_first(), p);
        match pos_of(q.drop_first(), p) {
            Some(i) => {
                assert forall|j: int| 0 <= j < i + 1 implies q[j] != p by {
                    if j > 0 {
                        assert(q[j] == q.drop_first()[j - 1]);
                    }
                }
            },
            None => {
                assert forall|j: int| 0 <= j < q.len() implies q[j] != p by {
                    if j > 0 {
                        assert(q[j] == q.drop_first()[j - 1]);
                    }
                }
            },
        }
    }
}

/// The first occurrence of `p` among `v`, with `pos_of` as its contract.
pub fn position(v: &Vec<String>, p: &String) -> (r: Option<usize>)
    ensures
        match r {
            Some(i) => i < v.len() && pos_of(v.deep_view(), p@) == Some(i as int),
            None => pos_of(v.deep_view(), p@) is None,
        },
{
    let ghost q = v.deep_view();
    proof {
        lemma_pos_of(q, p@);
    }
    let mut i: usize = 0;
    while i < v.len()
        invariant
            i <= v.len(),
            q == v.deep_view(),
            forall|j: int| 0 <= j < i ==> q[j] != p@,
            match pos_of(q, p@) {
                Some(k) => 0 <= k < q.len() && q[k] == p@ && forall|j: int| 0 <= j < k ==> q[j] != p@,
                None => forall|j: int| 0 <= j < q.len() ==> q[j] != p@,
            },
        decreases v.len() - i,
    {
        assert(q[i as int] == v[i as int]@);
        if v[i] == *p {
            return Some(i);
        }
        i += 1;
    }
    None
}

/// Where `np` (if any) sits in `q`.
pub open spec fn opt_pos(q: Seq<Seq<char>>, np: Option<Seq<char>>) -> Option<int> {
    match np {
        Some(p) => pos_of(q, p),
        None => None,
    }
}

fn opt_position(v: &Vec<String>, np: &Option<String>) -> (r: Option<usize>)
    ensures
        match r {
            Some(i) => i < v.len() && opt_pos(v.deep_view(), np.deep_view()) == Some(i as int),
            None => opt_pos(v.deep_view(), np.deep_view()) is None,
        },
{
    match np {
        Some(p) => position(v, p),
        None => None,
    }
}

/// The entry `delta` steps from now-playing in `list`, wrapping around both
/// ends; the first entry when now-playing is not in `list`.
pub open spec fn relative_of(list: Seq<Seq<char>>, np: Option<Seq<char>>, delta: int) -> Option<Seq<char>> {
    if list.len() == 0 {
        None
    } else {
        match opt_pos(list, np) {
            Some(i) => Some(list[(i + delta) % (list.len() as int)]),
            None => Some(list[0]),
        }
    }
}

/// `(i + delta)` wrapped into `0..len`.
pub fn wrap_index(i: usize, delta: i32, len: usize) -> (r: usize)
    requires
        len > 0,
    ensures
        r == (i + delta) % (len as int),
        r < len,
{
    // Shift by a multiple of `len` large enough to make the sum non-negative.
    let shift: u128 = (len as u128) * 0x8000_0000;
    let b: u128 = if delta >= 0 {
        shift + i as u128 + delta as u128
    } else {
        shift + i as u128 - ((-(delta as i64)) as u128)
    };
    let r = b % (len as u128);
    proof {
        assert(b == (len as int) * 0x8000_0000 + (i + delta));
        vstd::arithmetic::div_mod::lemma_mod_multiples_vanish(0x8000_0000, i + delta, len as int);
    }
    r as usize
}

/// Stepping `delta` rows and then `-delta` rows around a wrapping list comes
/// back to the start (`v` then `V`, `j` then `k` in the theme picker).
pub proof fn law_wrap_undo(i: int, delta: int, len: int)
    requires
        len > 0,
    ensures
        (((i + delta) % len) - delta) % len == i % len,
{
    vstd::arithmetic::div_mod::lemma_add_mod_noop(i + delta, -delta, len);
    vstd::arithmetic::div_mod::lemma_mod_twice(i + delta, len);
    assert(((i + delta) % len + (-delta) % len) % len == i % len);
    vstd::arithmetic::div_mod::lemma_add_mod_noop((i + delta) % len, -delta, len);
    assert(((i + delta) % len - delta) % len == (((i + delta) % len) % len + (-delta) % len) % len);
}

// ---------------------------------------------------------------- play state

/// Cap on the back history kept for shuffle's `previous`.
pub const HISTORY_CAP: usize = 256;

/// The play-order part of the application state.
pub struct PlayState {
    /// The track the engine plays (or is about to play).
    pub now_playing: Option<String>,
    /// Explicit play queue. When now-playing is in it, next/prev and
    /// auto-advance walk the queue instead of the current view list.
    pub queue: Vec<String>,
    /// Queue-manager modal: open flag and its cursor row.
    pub show_queue: bool,
    pub queue_sel: usize,
    pub loop_mode: LoopMode,
    /// Shuffle mode: pick the next track from a no-repeat bag.
    pub shuffle: bool,
    /// Upcoming shuffled tracks (never the now-playing one).
    pub shuffle_bag: Vec<String>,
    /// What played before, most recent last (for shuffle's `previous`).
    pub play_history: Vec<String>,
    /// xorshift64 state.
    pub rng: u64,
}

/// The track after now-playing when auto-advancing: the next queue entry when
/// now-playing is in the queue (wrapping only under `All`), otherwise the next
/// entry of `list`, wrapping under `All`, stopping at the end under `Off`, and
/// now-playing itself under `One`.
pub open spec fn predict_of(
    queue: Seq<Seq<char>>,
    np: Option<Seq<char>>,
    mode: LoopMode,
    list: Seq<Seq<char>>,
) -> Option<Seq<char>> {
    match opt_pos(queue, np) {
        Some(i) => if i + 1 < queue.len() {
            Some(queue[i + 1])
        } else if mode == LoopMode::All {
            Some(queue[0])
        } else {
            None
        },
        None => if list.len() == 0 {
            None
        } else {
            match mode {
                LoopMode::All => match opt_pos(list, np) {
                    Some(i) => Some(list[(i + 1) % (list.len() as int)]),
                    None => None,
                },
                LoopMode::Off => match opt_pos(list, np) {
                    Some(i) => if i + 1 < list.len() {
                        Some(list[i + 1])
                    } else {
                        None
                    },
                    None => None,
                },
                LoopMode::One => np,
            }
        },
    }
}

/// The `n` target: the queue entry after now-playing (wrapping), or the queue's
/// first entry when now-playing is not in it; with an empty queue, the next
/// entry of `list`.
pub open spec fn next_of(queue: Seq<Seq<char>>, np: Option<Seq<char>>, list: Seq<Seq<char>>) -> Option<Seq<char>> {
    if queue.len() > 0 {
        match opt_pos(queue, np) {
            Some(i) => if i + 1 < queue.len() {
                Some(queue[i + 1])
            } else {
                Some(queue[0])
            },
            None => Some(queue[0]),
        }
    } else {
        relative_of(list, np, 1)
    }
}

/// The `p` target: the queue entry before now-playing (wrapping) when
/// now-playing is in the queue, otherwise the previous entry of `list`.
pub open spec fn prev_of(queue: Seq<Seq<char>>, np: Option<Seq<char>>, list: Seq<Seq<char>>) -> Option<Seq<char>> {
    match opt_pos(queue, np) {
        Some(i) => if i > 0 {
            Some(queue[i - 1])
        } else {
            Some(queue.last())
        },
        None => relative_of(list, np, -1),
    }
}

/// Where "play next" inserts: right after now-playing in the queue, else the front.
pub open spec fn insert_at(queue: Seq<Seq<char>>, np: Option<Seq<char>>) -> int {
    match opt_pos(queue, np) {
        Some(i) => i + 1,
        None => 0,
    }
}

fn clone_at(v: &Vec<String>, i: usize) -> (r: Option<String>)
    requires
        i < v.len(),
    ensures
        r.deep_view() == Some(v.deep_view()[i as int]),
{
    Some(v[i].clone())
}

impl PlayState {
    /// Nothing playing, empty queue, loop off; `seed` seeds the shuffle RNG
    /// (any value: the state is forced odd, hence non-zero).
    pub fn new(shuffle: bool, seed: u64) -> (r: Self)
        ensures
            r.wf(),
            r.now_playing is None,
            r.queue@.len() == 0,
            !r.show_queue,
            r.queue_sel == 0,
            r.loop_mode == LoopMode::Off,
            r.shuffle == shuffle,
            r.shuffle_bag@.len() == 0,
            r.play_history@.len() == 0,
            r.rng == seed | 1,
    {
        PlayState {
            now_playing: None,
            queue: Vec::new(),
            show_queue: false,
            queue_sel: 0,
            loop_mode: LoopMode::Off,
            shuffle,
            shuffle_bag: Vec::new(),
            play_history: Vec::new(),
            rng: seed | 1,
        }
    }

    /// The state's invariant: the queue cursor is on an entry (or 0 on an empty
    /// queue) and the history is within its cap.
    pub open spec fn wf(&self) -> bool {
        &&& (self.queue_sel == 0 || self.queue_sel < self.queue@.len())
        &&& self.play_history@.len() <= HISTORY_CAP
    }

    /// `b` plays as `a` does: same track, loop mode, shuffle state and history.
    pub open spec fn keeps_playback(a: &PlayState, b: &PlayState) -> bool {
        &&& a.now_playing == b.now_playing
        &&& a.loop_mode == b.loop_mode
        &&& a.shuffle == b.shuffle
        &&& a.shuffle_bag == b.shuffle_bag
        &&& a.play_history == b.play_history
        &&& a.rng == b.rng
    }

    /// `b` has `a`'s queue, queue cursor and modal, track, loop mode and shuffle flag.
    pub open spec fn keeps_queue(a: &PlayState, b: &PlayState) -> bool {
        &&& a.queue == b.queue
        &&& a.queue_sel == b.queue_sel
        &&& a.show_queue == b.show_queue
        &&& a.now_playing == b.now_playing
        &&& a.loop_mode == b.loop_mode
        &&& a.shuffle == b.shuffle
    }

    /// The auto-advance target (end of track and gapless prefetch); see `predict_of`.
    pub fn predict_auto_next(&self, list: &Vec<String>) -> (r: Option<String>)
        ensures
            r.deep_view() == predict_of(
                self.queue.deep_view(),
                self.now_playing.deep_view(),
                self.loop_mode,
                list.deep_view(),
            ),
    {
        match opt_position(&self.queue, &self.now_playing) {
            Some(i) => {
                if i + 1 < self.queue.len() {
                    return clone_at(&self.queue, i + 1);
                }
                return match self.loop_mode {
                    LoopMode::All => clone_at(&self.queue, 0),
                    _ => None,
                };
            },
            None => {},
        }
        if list.len() == 0 {
            return None;
        }
        let cur = opt_position(list, &self.now_playing);
        match self.loop_mode {
            LoopMode::All => match cur {
                Some(i) => clone_at(list, wrap_index(i, 1, list.len())),
                None => None,
            },
            LoopMode::Off => match cur {
                Some(i) => if i + 1 < list.len() {
                    clone_at(list, i + 1)
                } else {
                    None
                },
                None => None,
            },
            LoopMode::One => self.now_playing.clone(),
        }
    }

    /// The track `delta` steps from now-playing in `list`, wrapping around the
    /// ends (`relative_of`). Used by `n` / `p` outside the queue.
    pub fn relative(&self, list: &Vec<String>, delta: i32) -> (r: Option<String>)
        ensures
            r.deep_view() == relative_of(list.deep_view(), self.now_playing.deep_view(), delta as int),
    {
        if list.len() == 0 {
            return None;
        }
        match opt_position(list, &self.now_playing) {
            Some(i) => clone_at(list, wrap_index(i, delta, list.len())),
            None => clone_at(list, 0),
        }
    }

    /// `n`: the next track (`next_of`).
    pub fn next_target(&self, list: &Vec<String>) -> (r: Option<String>)
        ensures
            r.deep_view() == next_of(self.queue.deep_view(), self.now_playing.deep_view(), list.deep_view()),
    {
        if self.queue.len() > 0 {
            return match opt_position(&self.queue, &self.now_playing) {
                Some(i) => if i + 1 < self.queue.len() {
                    clone_at(&self.queue, i + 1)
                } else {
                    clone_at(&self.queue, 0)
                },
                None => clone_at(&self.queue, 0),
            };
        }
        self.relative(list, 1)
    }

    /// `p`: the previous track (`prev_of`).
    pub fn prev_target(&self, list: &Vec<String>) -> (r: Option<String>)
        ensures
            r.deep_view() == prev_of(self.queue.deep_view(), self.now_playing.deep_view(), list.deep_view()),
    {
        match opt_position(&self.queue, &self.now_playing) {
            Some(i) => if i > 0 {
                clone_at(&self.queue, i - 1)
            } else {
                clone_at(&self.queue, self.queue.len() - 1)
            },
            None => self.relative(list, -1),
        }
    }
}

/// `q` with entries `i` and `j` exchanged.
pub open spec fn swapped(q: Seq<Seq<char>>, i: int, j: int) -> Seq<Seq<char>> {
    q.update(i, q[j]).update(j, q[i])
}

/// Exchanging two entries keeps the same entries.
pub proof fn lemma_swap_multiset(q: Seq<Seq<char>>, i: int, j: int)
    requires
        0 <= i < q.len(),
        0 <= j < q.len(),
    ensures
        swapped(q, i, j).to_multiset() == q.to_multiset(),
        swapped(q, i, j).len() == q.len(),
{
    broadcast use vstd::seq_lib::to_multiset_update;
    broadcast use vstd::seq_lib::group_to_multiset_ensures;
    broadcast use vstd::multiset::group_multiset_properties;
    broadcast use vstd::multiset::group_multiset_axioms;
    let q1 = q.update(i, q[j]);
    assert(q1.to_multiset() == q.to_multiset().insert(q[j]).remove(q[i]));
    assert(q1.update(j, q[i]).to_multiset() == q1.to_multiset().insert(q[i]).remove(q1[j]));
    if i == j {
        assert(q1 =~= q);
        assert(q1.update(j, q[i]) =~= q);
    } else {
        assert(q1[j] == q[j]);
        assert(q.contains(q[i]));
        assert(q.to_multiset().count(q[i]) > 0);
        assert(q.to_multiset().insert(q[j]).remove(q[i]).insert(q[i]).remove(q[j]) =~= q.to_multiset());
    }
}

impl PlayState {
    /// `a`: append `items` (the cursor selection's playable media) to the queue end.
    pub fn queue_append(&mut self, items: Vec<String>)
        requires
            old(self).wf(),
        ensures
            final(self).wf(),
            PlayState::keeps_playback(old(self), final(self)),
            final(self).show_queue == old(self).show_queue,
            final(self).queue.deep_view() == old(self).queue.deep_view() + items.deep_view(),
            final(self).queue_sel == old(self).queue_sel,
            final(self).now_playing == old(self).now_playing,
    {
        let ghost q0 = self.queue.deep_view();
        let mut i: usize = 0;
        while i < items.len()
            invariant
                i <= items.len(),
                self.queue.deep_view() == q0 + items.deep_view().take(i as int),
                self.queue_sel == old(self).queue_sel,
                self.queue@.len() >= old(self).queue@.len(),
                self.play_history == old(self).play_history,
                self.now_playing == old(self).now_playing,
                self.show_queue == old(self).show_queue,
                PlayState::keeps_playback(old(self), self),
            decreases items.len() - i,
        {
            let ghost before = self.queue.deep_view();
            self.queue.push(items[i].clone());
            assert(self.queue.deep_view() =~= before.push(items.deep_view()[i as int]));
            i += 1;
            assert(self.queue.deep_view() =~= q0 + items.deep_view().take(i as int));
        }
        assert(items.deep_view().take(i as int) =~= items.deep_view());
    }

    /// `A`: insert `items` right after the now-playing track (or at the front
    /// when nothing in the queue is playing), keeping their order: "play next".
    pub fn queue_play_next(&mut self, items: Vec<String>)
        requires
            old(self).wf(),
        ensures
            final(self).wf(),
            PlayState::keeps_playback(old(self), final(self)),
            final(self).show_queue == old(self).show_queue,
            ({
                let q = old(self).queue.deep_view();
                let at = insert_at(q, old(self).now_playing.deep_view());
                final(self).queue.deep_view() == q.take(at) + items.deep_view() + q.skip(at)
            }),
            final(self).queue_sel == old(self).queue_sel,
            final(self).now_playing == old(self).now_playing,
    {
        let ghost q0 = self.queue.deep_view();
        let at = match opt_position(&self.queue, &self.now_playing) {
            Some(i) => i + 1,
            None => 0,
        };
        let mut k: usize = 0;
        while k < items.len()
            invariant
                k <= items.len(),
                at <= q0.len(),
                self.queue.deep_view() == q0.take(at as int) + items.deep_view().take(k as int) + q0.skip(at as int),
                self.queue@.len() == q0.len() + k,
                self.queue_sel == old(self).queue_sel,
                q0.len() == old(self).queue@.len(),
                self.play_history == old(self).play_history,
                self.now_playing == old(self).now_playing,
                self.show_queue == old(self).show_queue,
                PlayState::keeps_playback(old(self), self),
            decreases items.len() - k,
        {
            let n = self.queue.len();
            let idx = at + k;
            let ghost before = self.queue.deep_view();
            self.queue.insert(idx, items[k].clone());
            assert(self.queue.deep_view() =~= before.insert(idx as int, items.deep_view()[k as int]));
            k += 1;
            assert(self.queue.deep_view() =~= q0.take(at as int) + items.deep_view().take(k as int) + q0.skip(at as int));
        }
        assert(items.deep_view().take(k as int) =~= items.deep_view());
    }

    /// Open or close the queue manager; opening pulls the cursor onto the queue.
    pub fn toggle_queue(&mut self)
        requires
            old(self).wf(),
        ensures
            final(self).wf(),
            PlayState::keeps_playback(old(self), final(self)),
            final(self).show_queue == !old(self).show_queue,
            final(self).queue == old(self).queue,
            final(self).queue_sel == if final(self).show_queue && old(self).queue@.len() > 0
                && old(self).queue_sel > old(self).queue@.len() - 1 {
                (old(self).queue@.len() - 1) as usize
            } else if final(self).show_queue && old(self).queue@.len() == 0 {
                0
            } else {
                old(self).queue_sel
            },
    {
        self.show_queue = !self.show_queue;
        if self.show_queue {
            let max = if self.queue.len() > 0 { self.queue.len() - 1 } else { 0 };
            if self.queue_sel > max {
                self.queue_sel = max;
            }
        }
    }

    /// Move the queue cursor by `delta`, clamped to the queue.
    pub fn queue_move_cursor(&mut self, delta: i32)
        requires
            old(self).wf(),
        ensures
            final(self).wf(),
            PlayState::keeps_playback(old(self), final(self)),
            final(self).show_queue == old(self).show_queue,
            final(self).queue == old(self).queue,
            old(self).queue@.len() == 0 ==> final(self).queue_sel == old(self).queue_sel,
            old(self).queue@.len() > 0 ==> final(self).queue_sel == clamp_int(
                old(self).queue_sel + delta,
                0,
                old(self).queue@.len() - 1,
            ),
    {
        if self.queue.len() == 0 {
            return;
        }
        let max = (self.queue.len() - 1) as i128;
        let t = self.queue_sel as i128 + delta as i128;
        let c = if t < 0 { 0 } else if t > max { max } else { t };
        self.queue_sel = c as usize;
    }

    /// Remove the highlighted queue entry, keeping the cursor on the queue.
    pub fn queue_remove_sel(&mut self)
        requires
            old(self).wf(),
        ensures
            final(self).wf(),
            PlayState::keeps_playback(old(self), final(self)),
            final(self).show_queue == old(self).show_queue,
            old(self).queue_sel < old(self).queue@.len() ==> {
                &&& final(self).queue.deep_view() == old(self).queue.deep_view().remove(old(self).queue_sel as int)
                &&& final(self).queue_sel == if old(self).queue_sel < final(self).queue@.len() {
                    old(self).queue_sel
                } else if final(self).queue@.len() > 0 {
                    (final(self).queue@.len() - 1) as usize
                } else {
                    0
                }
            },
            old(self).queue_sel >= old(self).queue@.len() ==> final(self).queue == old(self).queue
                && final(self).queue_sel == old(self).queue_sel,
    {
        if self.queue_sel < self.queue.len() {
            let ghost q0 = self.queue.deep_view();
            self.queue.remove(self.queue_sel);
            assert(self.queue.deep_view() =~= q0.remove(old(self).queue_sel as int));
            let max = if self.queue.len() > 0 { self.queue.len() - 1 } else { 0 };
            if self.queue_sel > max {
                self.queue_sel = max;
            }
        }
    }

    /// Empty the queue.
    pub fn queue_clear(&mut self)
        requires
            old(self).wf(),
        ensures
            final(self).wf(),
            PlayState::keeps_playback(old(self), final(self)),
            final(self).show_queue == old(self).show_queue,
            final(self).queue@.len() == 0,
            final(self).queue_sel == 0,
    {
        self.queue.clear();
        self.queue_sel = 0;
    }

    /// Reorder: swap the highlighted entry with the one `delta` rows away and
    /// follow it; nothing happens when that row is off the queue.
    pub fn queue_reorder(&mut self, delta: i32)
        requires
            old(self).wf(),
        ensures
            final(self).wf(),
            PlayState::keeps_playback(old(self), final(self)),
            final(self).show_queue == old(self).show_queue,
            ({
                let t = old(self).queue_sel + delta;
                let q = old(self).queue.deep_view();
                if 0 <= t < q.len() {
                    &&& final(self).queue.deep_view() == swapped(q, old(self).queue_sel as int, t)
                    &&& final(self).queue_sel == t
                } else {
                    &&& final(self).queue == old(self).queue
                    &&& final(self).queue_sel == old(self).queue_sel
                }
            }),
    {
        let t = self.queue_sel as i128 + delta as i128;
        if t < 0 || t >= self.queue.len() as i128 {
            return;
        }
        let t = t as usize;
        let i = self.queue_sel;
        let ghost q0 = self.queue.deep_view();
        let a = self.queue[i].clone();
        let b = self.queue[t].clone();
        self.queue.set(i, b);
        self.queue.set(t, a);
        assert(self.queue.deep_view() =~= swapped(q0, i as int, t as int));
        self.queue_sel = t;
    }

    /// The highlighted queue entry, to play now.
    pub fn queue_play_sel(&self) -> (r: Option<String>)
        ensures
            r.deep_view() == if self.queue_sel < self.queue@.len() {
                Some(self.queue.deep_view()[self.queue_sel as int])
            } else {
                None
            },
    {
        if self.queue_sel < self.queue.len() {
            clone_at(&self.queue, self.queue_sel)
        } else {
            None
        }
    }

    /// Replace the queue by a loaded playlist and hand back its first track to
    /// play; an empty playlist changes nothing.
    pub fn load_playlist(&mut self, items: Vec<String>) -> (r: Option<String>)
        requires
            old(self).wf(),
        ensures
            final(self).wf(),
            PlayState::keeps_playback(old(self), final(self)),
            final(self).show_queue == old(self).show_queue,
            items@.len() == 0 ==> r is None && final(self).queue == old(self).queue
                && final(self).queue_sel == old(self).queue_sel,
            items@.len() > 0 ==> {
                &&& final(self).queue.deep_view() == items.deep_view()
                &&& final(self).queue_sel == 0
                &&& r.deep_view() == Some(items.deep_view()[0])
            },
    {
        if items.len() == 0 {
            return None;
        }
        let first = clone_at(&items, 0);
        self.queue = items;
        self.queue_sel = 0;
        first
    }
}

/// `v` clamped into `lo..=hi`.
pub open spec fn clamp_int(v: int, lo: int, hi: int) -> int {
    if v < lo {
        lo
    } else if v > hi {
        hi
    } else {
        v
    }
}

/// The queue takes priority over the view list whenever now-playing is in
/// it: auto-advance and `p` then ignore the list, and so does `n` whenever the
/// queue is not empty.
pub proof fn law_queue_takes_priority(
    queue: Seq<Seq<char>>,
    np: Option<Seq<char>>,
    mode: LoopMode,
    list1: Seq<Seq<char>>,
    list2: Seq<Seq<char>>,
)
    ensures
        opt_pos(queue, np) is Some ==> predict_of(queue, np, mode, list1) == predict_of(queue, np, mode, list2),
        opt_pos(queue, np) is Some ==> prev_of(queue, np, list1) == prev_of(queue, np, list2),
        queue.len() > 0 ==> next_of(queue, np, list1) == next_of(queue, np, list2),
        queue.len() > 0 ==> next_of(queue, np, list1) is Some,
{
}

/// Reordering moves the highlighted track with the cursor and keeps every
/// track of the queue: the same entries, each as often as before.
pub proof fn law_reorder_keeps_tracks(q: Seq<Seq<char>>, sel: int, t: int)
    requires
        0 <= sel < q.len(),
        0 <= t < q.len(),
    ensures
        swapped(q, sel, t)[t] == q[sel],
        swapped(q, sel, t).to_multiset() == q.to_multiset(),
{
    lemma_swap_multiset(q, sel, t);
}

// ---------------------------------------------------------------- shuffle

/// One xorshift64 step.
pub open spec fn xorshift(x: u64) -> u64 {
    let a = x ^ (x << 13u64);
    let b = a ^ (a >> 7u64);
    b ^ (b << 17u64)
}

/// `s` without any occurrence of `p`, order kept.
pub open spec fn without(s: Seq<Seq<char>>, p: Seq<char>) -> Seq<Seq<char>>
    decreases s.len(),
{
    if s.len() == 0 {
        s
    } else {
        let w = without(s.drop_last(), p);
        if s.last() == p {
            w
        } else {
            w.push(s.last())
        }
    }
}

/// `s` without now-playing (unchanged when nothing plays).
pub open spec fn without_opt(s: Seq<Seq<char>>, np: Option<Seq<char>>) -> Seq<Seq<char>> {
    match np {
        Some(p) => without(s, p),
        None => s,
    }
}

/// The pool shuffle draws from: the queue when now-playing is in it, else `list`.
pub open spec fn pool_of(queue: Seq<Seq<char>>, np: Option<Seq<char>>, list: Seq<Seq<char>>) -> Seq<Seq<char>> {
    if queue.len() > 0 && opt_pos(queue, np) is Some {
        queue
    } else {
        list
    }
}

/// Fisher-Yates from index `i` down to 1: swap `i` with `xorshift(rng) % (i + 1)`,
/// advancing the generator once per step. Returns the order and the final state.
pub open spec fn fy_shuffle(s: Seq<Seq<char>>, i: int, rng: u64) -> (Seq<Seq<char>>, u64)
    decreases i,
{
    if i <= 0 || i >= s.len() {
        (s, rng)
    } else {
        let r = xorshift(rng);
        let j = (r as int) % (i + 1);
        fy_shuffle(swapped(s, i, j), i - 1, r)
    }
}

/// The refilled bag and generator state: the pool minus now-playing, shuffled.
pub open spec fn refill_of(
    queue: Seq<Seq<char>>,
    np: Option<Seq<char>>,
    list: Seq<Seq<char>>,
    rng: u64,
) -> (Seq<Seq<char>>, u64) {
    let pool = without_opt(pool_of(queue, np, list), np);
    fy_shuffle(pool, pool.len() - 1, rng)
}

/// The history after recording `p`: appended, oldest entries dropped beyond the cap.
pub open spec fn history_push(h: Seq<Seq<char>>, p: Seq<char>) -> Seq<Seq<char>> {
    let h2 = h.push(p);
    if h2.len() > HISTORY_CAP {
        h2.skip(h2.len() - HISTORY_CAP)
    } else {
        h2
    }
}

/// The bag and generator state after a track starts playing: with shuffle on,
/// now-playing leaves the bag, and a drained bag is refilled.
pub open spec fn after_play_of(
    shuffle: bool,
    bag: Seq<Seq<char>>,
    queue: Seq<Seq<char>>,
    np: Option<Seq<char>>,
    list: Seq<Seq<char>>,
    rng: u64,
) -> (Seq<Seq<char>>, u64) {
    if !shuffle {
        (bag, rng)
    } else {
        let kept = without_opt(bag, np);
        if kept.len() > 0 {
            (kept, rng)
        } else {
            refill_of(queue, np, list, rng)
        }
    }
}

proof fn lemma_without_step(s: Seq<Seq<char>>, p: Seq<char>, i: int)
    requires
        0 <= i < s.len(),
    ensures
        without(s.take(i + 1), p) == if s[i] == p {
            without(s.take(i), p)
        } else {
            without(s.take(i), p).push(s[i])
        },
{
    assert(s.take(i + 1).drop_last() =~= s.take(i));
}

/// `without` keeps exactly the entries other than `p`.
pub proof fn lemma_without(s: Seq<Seq<char>>, p: Seq<char>)
    ensures
        !without(s, p).contains(p),
        without(s, p).len() <= s.len(),
        forall|x: Seq<char>| x != p ==> without(s, p).to_multiset().count(x) == s.to_multiset().count(x),
    decreases s.len(),
{
    broadcast use vstd::seq_lib::group_to_multiset_ensures;
    broadcast use vstd::multiset::group_multiset_axioms;
    if s.len() > 0 {
        lemma_without(s.drop_last(), p);
        assert(s =~= s.drop_last().push(s.last()));
        let w = without(s.drop_last(), p);
        if s.last() != p {
            assert forall|y: Seq<char>| w.push(s.last()).contains(y) implies y != p by {
                if y == p {
                    let k = choose|k: int| 0 <= k < w.push(s.last()).len() && w.push(s.last())[k] == y;
                    if k < w.len() {
                        assert(w.contains(y));
                    }
                }
            }
        }
    }
}

/// Fisher-Yates only exchanges entries: the shuffled order holds the same entries.
pub proof fn lemma_fy_multiset(s: Seq<Seq<char>>, i: int, rng: u64)
    ensures
        fy_shuffle(s, i, rng).0.to_multiset() == s.to_multiset(),
        fy_shuffle(s, i, rng).0.len() == s.len(),
    decreases i,
{
    if !(i <= 0 || i >= s.len()) {
        let r = xorshift(rng);
        let j = (r as int) % (i + 1);
        lemma_swap_multiset(s, i, j);
        lemma_fy_multiset(swapped(s, i, j), i - 1, r);
    }
}

/// A refilled shuffle bag holds every track of the pool except now-playing,
/// each exactly as often as the pool does: a cycle plays each track once.
pub proof fn law_refill_is_pool_without_now_playing(
    queue: Seq<Seq<char>>,
    np: Option<Seq<char>>,
    list: Seq<Seq<char>>,
    rng: u64,
)
    ensures
        np matches Some(p) ==> !refill_of(queue, np, list, rng).0.contains(p),
        forall|x: Seq<char>| np != Some(x) ==> refill_of(queue, np, list, rng).0.to_multiset().count(x)
            == pool_of(queue, np, list).to_multiset().count(x),
{
    broadcast use vstd::seq_lib::group_to_multiset_ensures;
    let pool = without_opt(pool_of(queue, np, list), np);
    lemma_fy_multiset(pool, pool.len() - 1, rng);
    let bag = fy_shuffle(pool, pool.len() - 1, rng).0;
    match np {
        Some(p) => {
            lemma_without(pool_of(queue, np, list), p);
            if bag.contains(p) {
                assert(bag.to_multiset().count(p) > 0);
                assert(pool.to_multiset().count(p) > 0);
                assert(pool.contains(p));
            }
        },
        None => {},
    }
}

fn without_vec(v: &Vec<String>, p: &String) -> (out: Vec<String>)
    ensures
        out.deep_view() == without(v.deep_view(), p@),
{
    let mut out: Vec<String> = Vec::new();
    let mut i: usize = 0;
    while i < v.len()
        invariant
            i <= v.len(),
            out.deep_view() == without(v.deep_view().take(i as int), p@),
        decreases v.len() - i,
    {
        proof {
            lemma_without_step(v.deep_view(), p@, i as int);
        }
        if v[i] != *p {
            let ghost before = out.deep_view();
            out.push(v[i].clone());
            assert(out.deep_view() =~= before.push(v.deep_view()[i as int]));
        }
        i += 1;
    }
    assert(v.deep_view().take(i as int) =~= v.deep_view());
    out
}

fn clone_vec(v: &Vec<String>) -> (out: Vec<String>)
    ensures
        out.deep_view() == v.deep_view(),
{
    let mut out: Vec<String> = Vec::new();
    let mut i: usize = 0;
    while i < v.len()
        invariant
            i <= v.len(),
            out.deep_view() == v.deep_view().take(i as int),
        decreases v.len() - i,
    {
        let ghost before = out.deep_view();
        out.push(v[i].clone());
        assert(out.deep_view() =~= before.push(v.deep_view()[i as int]));
        i += 1;
        assert(out.deep_view() =~= v.deep_view().take(i as int));
    }
    assert(v.deep_view().take(i as int) =~= v.deep_view());
    out
}

impl PlayState {
    /// xorshift64 step of the shuffle generator.
    pub fn next_rng(&mut self) -> (r: u64)
        requires
            old(self).wf(),
        ensures
            final(self).wf(),
            PlayState::keeps_queue(old(self), final(self)),
            final(self).play_history == old(self).play_history,
            r == xorshift(old(self).rng),
            final(self).rng == r,
            final(self).queue == old(self).queue,
            final(self).queue_sel == old(self).queue_sel,
            final(self).now_playing == old(self).now_playing,
            final(self).shuffle_bag == old(self).shuffle_bag,
            final(self).play_history == old(self).play_history,
            final(self).loop_mode == old(self).loop_mode,
            final(self).shuffle == old(self).shuffle,
    {
        let mut x = self.rng;
        x ^= x << 13u64;
        x ^= x >> 7u64;
        x ^= x << 17u64;
        self.rng = x;
        x
    }

    /// The shuffle pool (`pool_of`).
    pub fn shuffle_pool(&self, list: &Vec<String>) -> (r: Vec<String>)
        ensures
            r.deep_view() == pool_of(self.queue.deep_view(), self.now_playing.deep_view(), list.deep_view()),
    {
        if self.queue.len() > 0 && opt_position(&self.queue, &self.now_playing).is_some() {
            clone_vec(&self.queue)
        } else {
            clone_vec(list)
        }
    }

    /// Rebuild the upcoming bag: the pool minus now-playing, shuffled
    /// (Fisher-Yates, see `refill_of`).
    pub fn refill_bag(&mut self, list: &Vec<String>)
        requires
            old(self).wf(),
        ensures
            final(self).wf(),
            PlayState::keeps_queue(old(self), final(self)),
            final(self).play_history == old(self).play_history,
            (final(self).shuffle_bag.deep_view(), final(self).rng) == refill_of(
                old(self).queue.deep_view(),
                old(self).now_playing.deep_view(),
                list.deep_view(),
                old(self).rng,
            ),
            final(self).queue == old(self).queue,
            final(self).queue_sel == old(self).queue_sel,
            final(self).now_playing == old(self).now_playing,
            final(self).play_history == old(self).play_history,
            final(self).loop_mode == old(self).loop_mode,
            final(self).shuffle == old(self).shuffle,
    {
        let all = self.shuffle_pool(list);
        let mut pool = match &self.now_playing {
            Some(p) => without_vec(&all, p),
            None => all,
        };
        let ghost p0 = pool.deep_view();
        let ghost target = fy_shuffle(p0, p0.len() - 1, self.rng);
        let n = pool.len();
        let mut i = n;
        if i > 0 {
            i -= 1;
        }
        // `i` is the next index to settle; Fisher-Yates stops at index 1.
        while i >= 1
            invariant
                self.wf(),
                i < n || i == 0,
                pool@.len() == n,
                n == p0.len(),
                fy_shuffle(pool.deep_view(), i as int, self.rng) == target,
                self.queue == old(self).queue,
                self.queue_sel == old(self).queue_sel,
                self.now_playing == old(self).now_playing,
                self.play_history == old(self).play_history,
                self.loop_mode == old(self).loop_mode,
                self.shuffle == old(self).shuffle,
                self.show_queue == old(self).show_queue,
            decreases i,
        {
            let ghost before = pool.deep_view();
            let r = self.next_rng();
            let j = (r % (i as u64 + 1)) as usize;
            let a = pool[i].clone();
            let b = pool[j].clone();
            pool.set(i, b);
            pool.set(j, a);
            assert(pool.deep_view() =~= swapped(before, i as int, j as int));
            i -= 1;
        }
        self.shuffle_bag = pool;
    }

    /// After a track starts playing: drop it from the bag, refill a drained bag.
    /// Nothing happens with shuffle off.
    pub fn shuffle_after_play(&mut self, list: &Vec<String>)
        requires
            old(self).wf(),
        ensures
            final(self).wf(),
            PlayState::keeps_queue(old(self), final(self)),
            final(self).play_history == old(self).play_history,
            (final(self).shuffle_bag.deep_view(), final(self).rng) == after_play_of(
                old(self).shuffle,
                old(self).shuffle_bag.deep_view(),
                old(self).queue.deep_view(),
                old(self).now_playing.deep_view(),
                list.deep_view(),
                old(self).rng,
            ),
            final(self).queue == old(self).queue,
            final(self).queue_sel == old(self).queue_sel,
            final(self).now_playing == old(self).now_playing,
            final(self).play_history == old(self).play_history,
            final(self).loop_mode == old(self).loop_mode,
            final(self).shuffle == old(self).shuffle,
    {
        if !self.shuffle {
            return;
        }
        match &self.now_playing {
            Some(np) => {
                self.shuffle_bag = without_vec(&self.shuffle_bag, np);
            },
            None => {},
        }
        if self.shuffle_bag.len() == 0 {
            self.refill_bag(list);
        }
    }

    /// Record `path` as the most recent history entry, dropping the oldest
    /// beyond `HISTORY_CAP`.
    pub fn push_history(&mut self, path: String)
        requires
            old(self).wf(),
        ensures
            final(self).wf(),
            PlayState::keeps_queue(old(self), final(self)),
            final(self).shuffle_bag == old(self).shuffle_bag,
            final(self).rng == old(self).rng,
            final(self).play_history.deep_view() == history_push(old(self).play_history.deep_view(), path@),
            final(self).queue == old(self).queue,
            final(self).queue_sel == old(self).queue_sel,
            final(self).now_playing == old(self).now_playing,
            final(self).shuffle_bag == old(self).shuffle_bag,
            final(self).rng == old(self).rng,
            final(self).loop_mode == old(self).loop_mode,
            final(self).shuffle == old(self).shuffle,
    {
        let ghost h0 = self.play_history.deep_view();
        self.play_history.push(path);
        assert(self.play_history.deep_view() =~= h0.push(path@));
        if self.play_history.len() > HISTORY_CAP {
            let overflow = self.play_history.len() - HISTORY_CAP;
            let ghost h1 = self.play_history.deep_view();
            let mut kept: Vec<String> = Vec::new();
            let mut i = overflow;
            while i < self.play_history.len()
                invariant
                    overflow <= i <= self.play_history@.len(),
                    h1 == self.play_history.deep_view(),
                    kept.deep_view() == h1.subrange(overflow as int, i as int),
                decreases self.play_history@.len() - i,
            {
                let ghost before = kept.deep_view();
                kept.push(self.play_history[i].clone());
                assert(kept.deep_view() =~= before.push(h1[i as int]));
                i += 1;
                assert(kept.deep_view() =~= h1.subrange(overflow as int, i as int));
            }
            assert(h1.subrange(overflow as int, h1.len() as int) =~= h1.skip(overflow as int));
            self.play_history = kept;
        }
    }

    /// End-of-track / `n` while shuffling: the next bag entry; with the bag
    /// drained, `All` reshuffles (a cycle finished) and `Off` stops.
    pub fn advance_shuffle(&mut self, list: &Vec<String>) -> (r: Option<String>)
        requires
            old(self).wf(),
        ensures
            final(self).wf(),
            PlayState::keeps_queue(old(self), final(self)),
            final(self).play_history == old(self).play_history,
            old(self).shuffle_bag@.len() > 0 ==> final(self).shuffle_bag == old(self).shuffle_bag
                && final(self).rng == old(self).rng
                && r.deep_view() == Some(old(self).shuffle_bag.deep_view()[0]),
            old(self).shuffle_bag@.len() == 0 && old(self).loop_mode != LoopMode::All ==> r is None
                && final(self).shuffle_bag == old(self).shuffle_bag && final(self).rng == old(self).rng,
            old(self).shuffle_bag@.len() == 0 && old(self).loop_mode == LoopMode::All ==> {
                let re = refill_of(
                    old(self).queue.deep_view(),
                    old(self).now_playing.deep_view(),
                    list.deep_view(),
                    old(self).rng,
                );
                &&& (final(self).shuffle_bag.deep_view(), final(self).rng) == re
                &&& r.deep_view() == if re.0.len() > 0 { Some(re.0[0]) } else { None }
            },
            final(self).queue == old(self).queue,
            final(self).queue_sel == old(self).queue_sel,
            final(self).now_playing == old(self).now_playing,
            final(self).play_history == old(self).play_history,
            final(self).loop_mode == old(self).loop_mode,
            final(self).shuffle == old(self).shuffle,
    {
        if self.shuffle_bag.len() > 0 {
            return clone_at(&self.shuffle_bag, 0);
        }
        if self.loop_mode == LoopMode::All {
            self.refill_bag(list);
            if self.shuffle_bag.len() > 0 {
                return clone_at(&self.shuffle_bag, 0);
            }
        }
        None
    }

    /// `p` while shuffling: step back through what actually played.
    pub fn shuffle_prev(&mut self) -> (r: Option<String>)
        requires
            old(self).wf(),
        ensures
            final(self).wf(),
            PlayState::keeps_queue(old(self), final(self)),
            final(self).shuffle_bag == old(self).shuffle_bag,
            final(self).rng == old(self).rng,
            old(self).play_history@.len() == 0 ==> r is None
                && final(self).play_history.deep_view() == old(self).play_history.deep_view(),
            old(self).play_history@.len() > 0 ==> r.deep_view() == Some(old(self).play_history.deep_view().last())
                && final(self).play_history.deep_view() == old(self).play_history.deep_view().drop_last(),
            final(self).queue == old(self).queue,
            final(self).queue_sel == old(self).queue_sel,
            final(self).now_playing == old(self).now_playing,
    {
        let ghost h0 = self.play_history.deep_view();
        let r = self.play_history.pop();
        proof {
            if h0.len() > 0 {
                assert(self.play_history.deep_view() =~= h0.drop_last());
            } else {
                assert(self.play_history.deep_view() =~= h0);
            }
        }
        r
    }
}

/// What the end of a track plays next: now-playing again under `One`, else the
/// shuffle bag's next entry while shuffling, else the auto-advance prediction.
pub open spec fn end_of_track_of(
    mode: LoopMode,
    shuffle: bool,
    bag: Seq<Seq<char>>,
    queue: Seq<Seq<char>>,
    np: Option<Seq<char>>,
    list: Seq<Seq<char>>,
    rng: u64,
) -> Option<Seq<char>> {
    if mode == LoopMode::One {
        np
    } else if shuffle {
        if bag.len() > 0 {
            Some(bag[0])
        } else if mode == LoopMode::All {
            let re = refill_of(queue, np, list, rng);
            if re.0.len() > 0 {
                Some(re.0[0])
            } else {
                None
            }
        } else {
            None
        }
    } else {
        predict_of(queue, np, mode, list)
    }
}

impl PlayState {
    /// Bookkeeping when `path` starts playing: the outgoing track (if it is a
    /// different one) goes on the back history when `record_history`, `path`
    /// becomes now-playing, and the shuffle bag is maintained. Returns the
    /// outgoing track, which the caller pairs with its playhead for `u`.
    pub fn note_play(&mut self, path: String, record_history: bool, list: &Vec<String>) -> (out: Option<String>)
        requires
            old(self).wf(),
        ensures
            final(self).wf(),
            final(self).show_queue == old(self).show_queue,
            out.deep_view() == match old(self).now_playing.deep_view() {
                Some(cur) => if cur != path@ {
                    Some(cur)
                } else {
                    None
                },
                None => None,
            },
            final(self).play_history.deep_view() == if record_history && out is Some {
                history_push(old(self).play_history.deep_view(), out.deep_view()->0)
            } else {
                old(self).play_history.deep_view()
            },
            final(self).now_playing.deep_view() == Some(path@),
            (final(self).shuffle_bag.deep_view(), final(self).rng) == after_play_of(
                old(self).shuffle,
                old(self).shuffle_bag.deep_view(),
                old(self).queue.deep_view(),
                Some(path@),
                list.deep_view(),
                old(self).rng,
            ),
            final(self).queue == old(self).queue,
            final(self).queue_sel == old(self).queue_sel,
            final(self).loop_mode == old(self).loop_mode,
            final(self).shuffle == old(self).shuffle,
    {
        let outgoing = match &self.now_playing {
            Some(cur) => if *cur != path {
                Some(cur.clone())
            } else {
                None
            },
            None => None,
        };
        match &outgoing {
            Some(cur) => if record_history {
                self.push_history(cur.clone());
            },
            None => {},
        }
        self.now_playing = Some(path);
        self.shuffle_after_play(list);
        outgoing
    }

    /// At the end of a track, the track to play next (`end_of_track_of`); a
    /// drained shuffle bag under `All` is refilled on the way.
    pub fn end_of_track(&mut self, list: &Vec<String>) -> (r: Option<String>)
        requires
            old(self).wf(),
        ensures
            final(self).wf(),
            PlayState::keeps_queue(old(self), final(self)),
            (final(self).shuffle_bag.deep_view(), final(self).rng) == if old(self).loop_mode != LoopMode::One
                && old(self).shuffle && old(self).shuffle_bag@.len() == 0 && old(self).loop_mode == LoopMode::All {
                refill_of(
                    old(self).queue.deep_view(),
                    old(self).now_playing.deep_view(),
                    list.deep_view(),
                    old(self).rng,
                )
            } else {
                (old(self).shuffle_bag.deep_view(), old(self).rng)
            },
            r.deep_view() == end_of_track_of(
                old(self).loop_mode,
                old(self).shuffle,
                old(self).shuffle_bag.deep_view(),
                old(self).queue.deep_view(),
                old(self).now_playing.deep_view(),
                list.deep_view(),
                old(self).rng,
            ),
            final(self).queue == old(self).queue,
            final(self).now_playing == old(self).now_playing,
            final(self).play_history == old(self).play_history,
    {
        if self.loop_mode == LoopMode::One {
            self.now_playing.clone()
        } else if self.shuffle {
            self.advance_shuffle(list)
        } else {
            self.predict_auto_next(list)
        }
    }

    /// The track to decode ahead for a gapless boundary: none with gapless off,
    /// now-playing under `One`, else the auto-advance prediction.
    pub fn preload_target(&self, gapless: bool, list: &Vec<String>) -> (r: Option<String>)
        ensures
            r.deep_view() == if !gapless {
                None
            } else if self.loop_mode == LoopMode::One {
                self.now_playing.deep_view()
            } else {
                predict_of(self.queue.deep_view(), self.now_playing.deep_view(), self.loop_mode, list.deep_view())
            },
    {
        if !gapless {
            return None;
        }
        if self.loop_mode == LoopMode::One {
            self.now_playing.clone()
        } else {
            self.predict_auto_next(list)
        }
    }
}

/// After a track starts playing with shuffle on, the bag never holds it.
pub proof fn law_bag_excludes_now_playing(
    bag: Seq<Seq<char>>,
    queue: Seq<Seq<char>>,
    p: Seq<char>,
    list: Seq<Seq<char>>,
    rng: u64,
)
    ensures
        !after_play_of(true, bag, queue, Some(p), list, rng).0.contains(p),
{
    lemma_without(bag, p);
    law_refill_is_pool_without_now_playing(queue, Some(p), list, rng);
}

/// The history keeps the latest track last and never grows past its cap;
/// below the cap nothing is dropped.
pub proof fn law_history_keeps_latest(h: Seq<Seq<char>>, p: Seq<char>)
    requires
        h.len() <= HISTORY_CAP,
    ensures
        history_push(h, p).last() == p,
        history_push(h, p).len() <= HISTORY_CAP,
        h.len() < HISTORY_CAP ==> history_push(h, p) == h.push(p),
        h.len() == HISTORY_CAP ==> history_push(h, p) == h.skip(1).push(p),
{
    if h.len() == HISTORY_CAP {
        assert(h.push(p).skip(1) =~= h.skip(1).push(p));
    }
}

/// While now-playing is one of the queue's tracks, shuffle draws from the
/// queue: a refilled bag holds every other queue track, as often as the queue
/// does, and nothing else, whatever the view list. Otherwise it draws from
/// the view list in the same way.
pub proof fn law_refill_draws_from_queue(
    queue: Seq<Seq<char>>,
    p: Seq<char>,
    list: Seq<Seq<char>>,
    rng: u64,
)
    ensures
        ({
            let bag = refill_of(queue, Some(p), list, rng).0;
            let src = if queue.contains(p) { queue } else { list };
            &&& bag.to_multiset().count(p) == 0
            &&& forall|x: Seq<char>| x != p ==> #[trigger] bag.to_multiset().count(x) == src.to_multiset().count(x)
        }),
{
    broadcast use vstd::seq_lib::group_to_multiset_ensures;
    lemma_pos_of(queue, p);
    if queue.contains(p) {
        let k = choose|k: int| 0 <= k < queue.len() && queue[k] == p;
        assert(queue[k] == p);
    }
    law_refill_is_pool_without_now_playing(queue, Some(p), list, rng);
    let bag = refill_of(queue, Some(p), list, rng).0;
    if bag.to_multiset().count(p) > 0 {
        assert(bag.contains(p));
    }
}

/// The shuffle pool is the queue while now-playing is one of its tracks, and
/// the view list otherwise.
pub proof fn law_pool_is_queue_while_playing_from_it(queue: Seq<Seq<char>>, p: Seq<char>, list: Seq<Seq<char>>)
    ensures
        pool_of(queue, Some(p), list) == if queue.contains(p) { queue } else { list },
        pool_of(queue, None, list) == list,
{
    lemma_pos_of(queue, p);
    if queue.contains(p) {
        let k = choose|k: int| 0 <= k < queue.len() && queue[k] == p;
        assert(queue[k] == p);
    }
}

/// Loop-one repeats the track in place at its end, whatever the shuffle flag,
/// the bag, the queue or the list.
pub proof fn law_loop_one_repeats(
    shuffle: bool,
    bag: Seq<Seq<char>>,
    queue: Seq<Seq<char>>,
    np: Option<Seq<char>>,
    list: Seq<Seq<char>>,
    rng: u64,
)
    ensures
        end_of_track_of(LoopMode::One, shuffle, bag, queue, np, list, rng) == np,
{
}

/// Outside loop-one, a non-empty shuffle bag supplies the next track at the
/// end of a track; without shuffle the queue comes first while now-playing
/// is in it and has a next entry.
pub proof fn law_end_of_track_order(
    mode: LoopMode,
    bag: Seq<Seq<char>>,
    queue: Seq<Seq<char>>,
    np: Option<Seq<char>>,
    list: Seq<Seq<char>>,
    rng: u64,
)
    requires
        mode != LoopMode::One,
    ensures
        bag.len() > 0 ==> end_of_track_of(mode, true, bag, queue, np, list, rng) == Some(bag[0]),
        end_of_track_of(mode, false, bag, queue, np, list, rng) == predict_of(queue, np, mode, list),
{
}

} // verus!
