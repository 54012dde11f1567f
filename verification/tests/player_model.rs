use muse::player::{LoopMode, PlayState};

struct Gen(u64);

impl Gen {
    fn next(&mut self) -> u64 {
        self.0 ^= self.0 << 13;
        self.0 ^= self.0 >> 7;
        self.0 ^= self.0 << 17;
        self.0
    }
}

struct Model {
    queue: Vec<String>,
    now: Option<String>,
    mode: LoopMode,
}

impl Model {
    fn predict(&self, list: &[String]) -> Option<String> {
        if let Some(np) = self.now.as_ref() {
            if let Some(i) = self.queue.iter().position(|x| x == np) {
                if let Some(n) = self.queue.get(i + 1) {
                    return Some(n.clone());
                }
                return match self.mode {
                    LoopMode::All => self.queue.first().cloned(),
                    _ => None,
                };
            }
        }
        if list.is_empty() {
            return None;
        }
        let cur = self.now.as_ref().and_then(|p| list.iter().position(|x| x == p));
        match self.mode {
            LoopMode::All => cur.map(|i| list[(i + 1) % list.len()].clone()),
            LoopMode::Off => cur.and_then(|i| list.get(i + 1).cloned()),
            LoopMode::One => self.now.clone(),
        }
    }

    fn relative(&self, list: &[String], delta: i32) -> Option<String> {
        if list.is_empty() {
            return None;
        }
        let cur = self.now.as_ref().and_then(|p| list.iter().position(|x| x == p));
        let len = list.len() as i32;
        let idx = match cur {
            Some(i) => (i as i32 + delta).rem_euclid(len),
            None => 0,
        };
        Some(list[idx as usize].clone())
    }

    fn next(&self, list: &[String]) -> Option<String> {
        if !self.queue.is_empty() {
            let pos = self.now.as_ref().and_then(|p| self.queue.iter().position(|x| x == p));
            let next = match pos {
                Some(i) => self.queue.get(i + 1).cloned().or_else(|| self.queue.first().cloned()),
                None => self.queue.first().cloned(),
            };
            if next.is_some() {
                return next;
            }
        }
        self.relative(list, 1)
    }

    fn prev(&self, list: &[String]) -> Option<String> {
        if !self.queue.is_empty() {
            if let Some(i) = self.now.as_ref().and_then(|p| self.queue.iter().position(|x| x == p)) {
                return if i > 0 { self.queue.get(i - 1).cloned() } else { self.queue.last().cloned() };
            }
        }
        self.relative(list, -1)
    }
}

fn pick_list(g: &mut Gen, n: u64) -> Vec<String> {
    let names = ["a", "b", "c", "d", "e"];
    (0..(g.next() % n)).map(|_| names[(g.next() % 5) as usize].to_string()).collect()
}

#[test]
fn targets_match_model() {
    let mut g = Gen(0xdead_beef);
    let modes = [LoopMode::Off, LoopMode::All, LoopMode::One];
    for _ in 0..3000 {
        let queue = pick_list(&mut g, 4);
        let list = pick_list(&mut g, 6);
        let now = if g.next() % 4 == 0 { None } else { Some(["a", "b", "c", "d", "e"][(g.next() % 5) as usize].to_string()) };
        let mode = modes[(g.next() % 3) as usize];
        let r = Model { queue: queue.clone(), now: now.clone(), mode };
        let mut p = PlayState::new(false, 1);
        p.queue_append(queue);
        p.now_playing = now;
        p.loop_mode = mode;
        assert_eq!(p.predict_auto_next(&list), r.predict(&list));
        assert_eq!(p.next_target(&list), r.next(&list));
        assert_eq!(p.prev_target(&list), r.prev(&list));
        for d in [-7, -1, 0, 1, 3] {
            assert_eq!(p.relative(&list, d), r.relative(&list, d));
        }
    }
}

#[test]
fn play_next_insertion_matches_model() {
    let mut g = Gen(99);
    for _ in 0..1000 {
        let queue = pick_list(&mut g, 5);
        let items = pick_list(&mut g, 4);
        let now = if g.next() % 3 == 0 { None } else { Some(["a", "b", "c"][(g.next() % 3) as usize].to_string()) };
        let mut expect = queue.clone();
        if !items.is_empty() {
            let at = now.as_ref().and_then(|np| expect.iter().position(|x| x == np)).map(|i| i + 1).unwrap_or(0);
            for (k, it) in items.iter().enumerate() {
                let idx = (at + k).min(expect.len());
                expect.insert(idx, it.clone());
            }
        }
        let mut p = PlayState::new(false, 1);
        p.queue_append(queue);
        p.now_playing = now;
        p.queue_play_next(items);
        assert_eq!(p.queue, expect);
    }
}
