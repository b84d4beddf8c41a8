//! The opponent profiler: compares each opponent's recent moves with what each known
//! heuristic would have played, and reports the heuristic that matches.

use vstd::prelude::*;

use crate::board::{head, state_wf, State};
use crate::point::{dir_to_spec, Dir};
use crate::profile::{profile_named, string_to_profile, Controller, Profile};

verus! {

/// Agreements out of the window needed for a match.
pub const MATCH_THRESH: usize = 9;

/// The number of recent moves kept per agent.
pub const MOVE_BUFFER_SIZE: usize = 10;

/// The number of positions below `n` at which the two move lists agree.
pub open spec fn agreement(obs: Seq<Dir>, expected: Seq<Dir>, n: int) -> nat
    decreases n,
{
    if n <= 0 {
        0
    } else {
        agreement(obs, expected, n - 1) + if obs[n - 1] == expected[n - 1] {
            1nat
        } else {
            0nat
        }
    }
}

/// The first heuristic (by index) whose predicted moves agree with `real` at least
/// `MATCH_THRESH` times within the window.
pub open spec fn first_match(obs: Seq<Dir>, expected: Seq<Seq<Dir>>) -> Option<int> {
    if exists|a: int|
        0 <= a < expected.len() && agreement(obs, expected[a], MOVE_BUFFER_SIZE as int)
            >= MATCH_THRESH {
        Some(
            choose|a: int|
                0 <= a < expected.len() && agreement(obs, expected[a], MOVE_BUFFER_SIZE as int)
                    >= MATCH_THRESH && forall|b: int|
                    0 <= b < a ==> agreement(obs, expected[b], MOVE_BUFFER_SIZE as int)
                        < MATCH_THRESH,
        )
    } else {
        None
    }
}

/// The move buffer after `d` is shifted in: `d` first, the oldest move dropped.
pub open spec fn shifted(buf: Seq<Dir>, d: Dir) -> Seq<Dir> {
    seq![d] + buf.drop_last()
}

/// How many positions within the window the observed and predicted moves agree on.
pub fn match_score(observed: &Vec<Dir>, expected: &Vec<Dir>) -> (r: usize)
    requires
        observed@.len() >= MOVE_BUFFER_SIZE,
        expected@.len() >= MOVE_BUFFER_SIZE,
    ensures
        r == agreement(observed@, expected@, MOVE_BUFFER_SIZE as int),
{
    let mut score: usize = 0;
    let mut i: usize = 0;
    while i < MOVE_BUFFER_SIZE
        invariant
            i <= MOVE_BUFFER_SIZE,
            observed@.len() >= MOVE_BUFFER_SIZE,
            expected@.len() >= MOVE_BUFFER_SIZE,
            score == agreement(observed@, expected@, i as int),
            score <= i,
        decreases MOVE_BUFFER_SIZE - i,
    {
        if observed[i] == expected[i] {
            score += 1;
        }
        i += 1;
    }
    score
}

/// The index of the first heuristic whose predictions agree with the observed moves at
/// least `MATCH_THRESH` times out of `MOVE_BUFFER_SIZE`, if any.
pub fn best_match(observed: &Vec<Dir>, expected: &Vec<Vec<Dir>>) -> (r: Option<usize>)
    requires
        observed@.len() >= MOVE_BUFFER_SIZE,
        forall|a: int| 0 <= a < expected@.len() ==> (#[trigger] expected@[a])@.len() >= MOVE_BUFFER_SIZE,
    ensures
        r matches Some(a) ==> a < expected@.len() && first_match(observed@, expected@.map_values(|e: Vec<Dir>| e@)) == Some(a as int),
        r is None ==> first_match(observed@, expected@.map_values(|e: Vec<Dir>| e@)) is None,
{
    let ghost ev = expected@.map_values(|e: Vec<Dir>| e@);
    let mut a: usize = 0;
    while a < expected.len()
        invariant
            a <= expected@.len(),
            ev == expected@.map_values(|e: Vec<Dir>| e@),
            observed@.len() >= MOVE_BUFFER_SIZE,
            forall|k: int| 0 <= k < expected@.len() ==> (#[trigger] expected@[k])@.len() >= MOVE_BUFFER_SIZE,
            forall|b: int| 0 <= b < a ==> agreement(observed@, ev[b], MOVE_BUFFER_SIZE as int) < MATCH_THRESH,
        decreases expected@.len() - a,
    {
        assert(ev[a as int] == expected@[a as int]@);
        if match_score(observed, &expected[a]) >= MATCH_THRESH {
            assert forall|a2: int|
                0 <= a2 < ev.len() && agreement(observed@, ev[a2], MOVE_BUFFER_SIZE as int) >= MATCH_THRESH
                    && (forall|b: int|
                    0 <= b < a2 ==> agreement(observed@, ev[b], MOVE_BUFFER_SIZE as int) < MATCH_THRESH)
                implies a2 == a by {
            }
            return Some(a);
        }
        a += 1;
    }
    None
}

/// Copies a move buffer.
fn copy_dirs(v: &Vec<Dir>) -> (r: Vec<Dir>)
    ensures
        r@ == v@,
{
    let mut r: Vec<Dir> = Vec::new();
    let mut i: usize = 0;
    while i < v.len()
        invariant
            i <= v.len(),
            r@ == v@.subrange(0, i as int),
        decreases v.len() - i,
    {
        r.push(v[i]);
        i += 1;
        assert(r@ =~= v@.subrange(0, i as int));
    }
    assert(r@ =~= v@);
    r
}

/// Shifts `d` into the front of a move buffer, dropping the oldest move.
fn shift_in(buf: &mut Vec<Dir>, d: Dir)
    requires
        old(buf)@.len() >= 1,
    ensures
        final(buf)@ == shifted(old(buf)@, d),
{
    buf.insert(0, d);
    buf.pop();
    assert(buf@ =~= shifted(old(buf)@, d));
}

/// The profiler of one game: for each agent known at the start, its observed moves and,
/// per known heuristic, the moves that heuristic predicted, newest first; and the
/// heuristic matched to each opponent.
pub struct Analytics {
    ids: Vec<String>,
    real_moves: Vec<Vec<Dir>>,
    alg_names: Vec<String>,
    algs: Vec<Controller>,
    expected_moves: Vec<Vec<Vec<Dir>>>,
    matches: Vec<(String, String)>,
}

impl Analytics {
    /// Buffers are in place: one observed buffer and one predicted buffer per heuristic for
    /// each agent, all of the window's length.
    pub closed spec fn wf(&self) -> bool {
        &&& self.real_moves@.len() == self.ids@.len()
        &&& self.expected_moves@.len() == self.ids@.len()
        &&& self.algs@.len() == self.alg_names@.len()
        &&& forall|i: int|
            0 <= i < self.ids@.len() ==> (#[trigger] self.real_moves@[i])@.len() == MOVE_BUFFER_SIZE
        &&& forall|i: int|
            0 <= i < self.ids@.len() ==> (#[trigger] self.expected_moves@[i])@.len() == self.algs@.len()
        &&& forall|i: int, a: int|
            0 <= i < self.ids@.len() && 0 <= a < self.algs@.len() ==> (
            #[trigger] self.expected_moves@[i]@[a])@.len() == MOVE_BUFFER_SIZE
    }

    /// The observed moves of agent `i`, newest first.
    pub closed spec fn observed(&self, i: int) -> Seq<Dir> {
        self.real_moves@[i]@
    }

    /// The moves the heuristics predicted for agent `i`, newest first.
    pub closed spec fn predicted(&self, i: int) -> Seq<Seq<Dir>> {
        self.expected_moves@[i]@.map_values(|e: Vec<Dir>| e@)
    }

    /// The ids of the agents followed.
    pub closed spec fn agents(&self) -> Seq<Seq<char>> {
        self.ids@.map_values(|s: String| s@)
    }

    /// The (agent id, heuristic name) pairs currently matched.
    pub closed spec fn match_table(&self) -> Seq<(Seq<char>, Seq<char>)> {
        self.matches@.map_values(|p: (String, String)| (p.0@, p.1@))
    }

    /// A profiler for the game that starts in `st`, following every agent of `st` with the
    /// heuristics named in `algs` (each a name that `string_to_profile` knows); observed
    /// buffers start as all up, predicted ones as all down.
    pub fn new(st: &State, algs: &[&str]) -> (r: Self)
        requires
            forall|k: int| 0 <= k < algs@.len() ==> profile_named((#[trigger] algs@[k])@) is Some,
        ensures
            r.wf(),
            r.agents() == st@.snakes.map_values(|sn: crate::board::SnakeModel| sn.id),
            r.match_table().len() == 0,
            r.names() == algs@.map_values(|a: &str| a@),
            forall|k: int| 0 <= k < algs@.len() ==> Some(#[trigger] r.heuristics()[k]) == profile_named(algs@[k]@),
            forall|i: int|
                0 <= i < st@.snakes.len() ==> #[trigger] r.observed(i) == Seq::new(MOVE_BUFFER_SIZE as nat, |k: int| Dir::Up)
                    && r.predicted(i) == Seq::new(algs@.len(), |a: int| Seq::new(MOVE_BUFFER_SIZE as nat, |k: int| Dir::Down)),
    {
        let mut alg_names: Vec<String> = Vec::new();
        let mut controllers: Vec<Controller> = Vec::new();
        let mut k: usize = 0;
        while k < algs.len()
            invariant
                k <= algs@.len(),
                alg_names@.len() == k,
                controllers@.len() == k,
                forall|m: int| 0 <= m < algs@.len() ==> profile_named((#[trigger] algs@[m])@) is Some,
                forall|m: int| 0 <= m < k ==> #[trigger] alg_names@[m]@ == algs@[m]@,
                forall|m: int| 0 <= m < k ==> Some(#[trigger] controllers@[m]) == profile_named(algs@[m]@),
            decreases algs@.len() - k,
        {
            let c = string_to_profile(algs[k]);
            match c {
                Some(c) => {
                    controllers.push(c);
                },
                None => {
                    assert(profile_named(algs@[k as int]@) is Some);
                    controllers.push(Controller::Cautious(crate::profile::Cautious));
                },
            }
            alg_names.push(algs[k].to_owned());
            proof {
                if c is Some {
                    assert(controllers@[k as int] == c->0);
                }
            }
            k += 1;
        }
        let mut ids: Vec<String> = Vec::new();
        let mut real_moves: Vec<Vec<Dir>> = Vec::new();
        let mut expected_moves: Vec<Vec<Vec<Dir>>> = Vec::new();
        let mut i: usize = 0;
        while i < st.board.snakes.len()
            invariant
                i <= st.board.snakes.len(),
                ids@.len() == i,
                real_moves@.len() == i,
                expected_moves@.len() == i,
                forall|m: int| 0 <= m < i ==> (#[trigger] real_moves@[m])@.len() == MOVE_BUFFER_SIZE,
                forall|m: int| 0 <= m < i ==> (#[trigger] expected_moves@[m])@.len() == controllers@.len(),
                forall|m: int, a: int|
                    0 <= m < i && 0 <= a < controllers@.len() ==> (
                    #[trigger] expected_moves@[m]@[a])@.len() == MOVE_BUFFER_SIZE,
                controllers@.len() == algs@.len(),
                forall|m: int| 0 <= m < i ==> #[trigger] ids@[m]@ == st@.snakes[m].id,
                forall|m: int|
                    0 <= m < i ==> (#[trigger] real_moves@[m])@ == Seq::new(MOVE_BUFFER_SIZE as nat, |k: int| Dir::Up),
                forall|m: int|
                    0 <= m < i ==> (#[trigger] expected_moves@[m])@.map_values(|e: Vec<Dir>| e@) == Seq::new(
                        algs@.len(),
                        |a: int| Seq::new(MOVE_BUFFER_SIZE as nat, |k: int| Dir::Down),
                    ),
            decreases st.board.snakes.len() - i,
        {
            assert(st.board.snakes@[i as int]@ == st@.snakes[i as int]);
            ids.push(st.board.snakes[i].id.clone());
            let ups = vec![Dir::Up, Dir::Up, Dir::Up, Dir::Up, Dir::Up, Dir::Up, Dir::Up, Dir::Up, Dir::Up, Dir::Up];
            assert(ups@ =~= Seq::new(MOVE_BUFFER_SIZE as nat, |k: int| Dir::Up));
            real_moves.push(ups);
            let mut per_alg: Vec<Vec<Dir>> = Vec::new();
            let mut a: usize = 0;
            while a < controllers.len()
                invariant
                    a <= controllers@.len(),
                    per_alg@.len() == a,
                    forall|b: int| 0 <= b < a ==> (#[trigger] per_alg@[b])@ == Seq::new(MOVE_BUFFER_SIZE as nat, |k: int| Dir::Down),
                decreases controllers@.len() - a,
            {
                let downs = vec![Dir::Down, Dir::Down, Dir::Down, Dir::Down, Dir::Down, Dir::Down, Dir::Down, Dir::Down, Dir::Down, Dir::Down];
                assert(downs@ =~= Seq::new(MOVE_BUFFER_SIZE as nat, |k: int| Dir::Down));
                per_alg.push(downs);
                a += 1;
            }
            assert(per_alg@.map_values(|e: Vec<Dir>| e@) =~= Seq::new(
                algs@.len(),
                |a: int| Seq::new(MOVE_BUFFER_SIZE as nat, |k: int| Dir::Down),
            ));
            expected_moves.push(per_alg);
            i += 1;
        }
        let r = Analytics {
            ids,
            real_moves,
            alg_names,
            algs: controllers,
            expected_moves,
            matches: Vec::new(),
        };
        assert(r.match_table() =~= Seq::empty());
        assert(r.agents() =~= st@.snakes.map_values(|sn: crate::board::SnakeModel| sn.id));
        assert(r.names() =~= algs@.map_values(|a: &str| a@));
        r
    }

    /// The heuristic matched to each opponent, as (agent id, heuristic name) pairs.
    pub fn matches(&self) -> (r: Vec<(String, String)>)
        ensures
            r@.map_values(|p: (String, String)| (p.0@, p.1@)) == self.match_table(),
    {
        let mut r: Vec<(String, String)> = Vec::new();
        let mut i: usize = 0;
        while i < self.matches.len()
            invariant
                i <= self.matches@.len(),
                r@.len() == i,
                forall|k: int|
                    0 <= k < i ==> (#[trigger] r@[k]).0@ == self.matches@[k].0@ && r@[k].1@
                        == self.matches@[k].1@,
            decreases self.matches@.len() - i,
        {
            let id = self.matches[i].0.clone();
            let name = self.matches[i].1.clone();
            r.push((id, name));
            i += 1;
        }
        assert(r@.map_values(|p: (String, String)| (p.0@, p.1@)) =~= self.match_table());
        r
    }

}

/// The move agent `id` made into `st`, read from its first two segments, when it is on the
/// board and they differ.
pub open spec fn observed_move(st: crate::board::StateModel, id: Seq<char>) -> Option<Dir> {
    if exists|k: int| crate::game_tree::first_with_id(st, id, k) {
        let sn = st.snakes[choose|k: int| crate::game_tree::first_with_id(st, id, k)];
        if sn.body.len() >= 2 {
            dir_to_spec(sn.body[1], sn.body[0])
        } else {
            None
        }
    } else {
        None
    }
}

/// The match rows for the first `n` agents: each agent other than `me` whose observed
/// moves match a heuristic, with that heuristic's name.
pub open spec fn match_rows(
    ids: Seq<Seq<char>>,
    observed: Seq<Seq<Dir>>,
    predicted: Seq<Seq<Seq<Dir>>>,
    names: Seq<Seq<char>>,
    me: Seq<char>,
    n: int,
) -> Seq<(Seq<char>, Seq<char>)>
    decreases n,
{
    if n <= 0 {
        Seq::empty()
    } else {
        let rest = match_rows(ids, observed, predicted, names, me, n - 1);
        if ids[n - 1] != me && first_match(observed[n - 1], predicted[n - 1]) is Some {
            rest.push((ids[n - 1], names[first_match(observed[n - 1], predicted[n - 1])->0]))
        } else {
            rest
        }
    }
}

/// The predicted buffers of agent `id` after the heuristics' moves for it in `st` are
/// shifted in; unchanged when it is not on the board.
pub open spec fn predicted_after(
    pred: Seq<Seq<Dir>>,
    algs: Seq<Controller>,
    st: crate::board::StateModel,
    id: Seq<char>,
) -> Seq<Seq<Dir>> {
    if exists|k: int| crate::game_tree::first_with_id(st, id, k) {
        let sn = st.snakes[choose|k: int| crate::game_tree::first_with_id(st, id, k)];
        Seq::new(pred.len(), |a: int| shifted(pred[a], crate::profile::controller_spec(algs[a], sn, st)))
    } else {
        pred
    }
}

/// The rows among the first `n` of `table` that belong to `me`, in order.
pub open spec fn rows_of(table: Seq<(Seq<char>, Seq<char>)>, me: Seq<char>, n: int) -> Seq<(Seq<char>, Seq<char>)>
    decreases n,
{
    if n <= 0 {
        Seq::empty()
    } else {
        let rest = rows_of(table, me, n - 1);
        if table[n - 1].0 == me {
            rest.push(table[n - 1])
        } else {
            rest
        }
    }
}

impl Analytics {
    /// The heuristics, in the order of their names.
    pub closed spec fn heuristics(&self) -> Seq<Controller> {
        self.algs@
    }

    /// The heuristic names.
    pub closed spec fn names(&self) -> Seq<Seq<char>> {
        self.alg_names@.map_values(|s: String| s@)
    }

    /// Updates the profiler with the state `st` of a new turn, for protagonist `s_id`:
    /// shifts each followed agent's latest move into its observed buffer; matches every
    /// opponent against the heuristics' earlier predictions (a match needs `MATCH_THRESH`
    /// agreements out of `MOVE_BUFFER_SIZE`; no match clears the opponent's entry, and rows of
    /// the protagonist itself are kept); then
    /// shifts in what each heuristic predicts for each agent from `st`.
    pub fn fire(&mut self, s_id: &String, st: &State)
        requires
            old(self).wf(),
            state_wf(st@),
        ensures
            final(self).wf(),
            final(self).agents() == old(self).agents(),
            final(self).names() == old(self).names(),
            forall|i: int|
                0 <= i < final(self).agents().len() ==> #[trigger] final(self).observed(i) == match observed_move(
                    st@,
                    old(self).agents()[i],
                ) {
                    Some(d) => shifted(old(self).observed(i), d),
                    None => old(self).observed(i),
                },
            final(self).heuristics() == old(self).heuristics(),
            forall|i: int|
                0 <= i < final(self).agents().len() ==> #[trigger] final(self).predicted(i) == predicted_after(
                    old(self).predicted(i),
                    old(self).heuristics(),
                    st@,
                    old(self).agents()[i],
                ),
            final(self).match_table() == match_rows(
                old(self).agents(),
                Seq::new(old(self).agents().len(), |i: int| final(self).observed(i)),
                Seq::new(old(self).agents().len(), |i: int| old(self).predicted(i)),
                old(self).names(),
                s_id@,
                old(self).agents().len() as int,
            ) + rows_of(old(self).match_table(), s_id@, old(self).match_table().len() as int),
    {
        let n = self.ids.len();
        let ghost old_self = *self;
        let mut i: usize = 0;
        while i < n
            invariant
                n == self.ids@.len(),
                self.wf(),
                state_wf(st@),
                self.ids == old_self.ids,
                self.alg_names == old_self.alg_names,
                self.algs == old_self.algs,
                self.expected_moves == old_self.expected_moves,
                self.matches == old_self.matches,
                i <= n,
                forall|k: int|
                    0 <= k < n ==> #[trigger] self.real_moves@[k]@ == if k < i {
                        match observed_move(st@, old_self.agents()[k]) {
                            Some(d) => shifted(old_self.real_moves@[k]@, d),
                            None => old_self.real_moves@[k]@,
                        }
                    } else {
                        old_self.real_moves@[k]@
                    },
            decreases n - i,
        {
            let ghost before = self.real_moves@;
            match st.find_snake(&self.ids[i]) {
                Some(k) => {
                    let sn = &st.board.snakes[k];
                    assert(sn@ == st@.snakes[k as int]);
                    assert(st@.snakes[k as int].body.len() >= 2);
                    assert(old_self.agents()[i as int] == self.ids@[i as int]@);
                    assert(crate::game_tree::first_with_id(st@, self.ids@[i as int]@, k as int)) by {
                        assert forall|m: int| 0 <= m < k implies st@.snakes[m].id != self.ids@[i as int]@ by {
                            assert(st.board.snakes@[m]@ == st@.snakes[m]);
                        }
                    }
                    assert forall|k2: int| crate::game_tree::first_with_id(st@, self.ids@[i as int]@, k2) implies k2 == k by {
                        if k2 < k {
                        } else if k2 > k {
                        }
                    }
                    if let Some(d) = sn.body[1].dir_to(sn.body[0]) {
                        let mut buf = copy_dirs(&self.real_moves[i]);
                        shift_in(&mut buf, d);
                        self.real_moves.set(i, buf);
                    }
                },
                None => {
                    assert(observed_move(st@, old_self.agents()[i as int]) is None) by {
                        assert(old_self.agents()[i as int] == self.ids@[i as int]@);
                        assert forall|k2: int| !crate::game_tree::first_with_id(st@, self.ids@[i as int]@, k2) by {
                            if 0 <= k2 < st@.snakes.len() {
                                assert(st.board.snakes@[k2]@ == st@.snakes[k2]);
                            }
                        }
                    }
                },
            }
            i += 1;
        }
        let ghost mid = *self;
        let mut rows = self.match_all(s_id);
        let mut own = self.own_rows(s_id);
        let ghost rv = rows@;
        let ghost ov = own@;
        rows.append(&mut own);
        assert(rows@.map_values(|p: (String, String)| (p.0@, p.1@)) =~= rv.map_values(
            |p: (String, String)| (p.0@, p.1@),
        ) + ov.map_values(|p: (String, String)| (p.0@, p.1@)));
        self.matches = rows;
        self.predict(st);
        assert(Seq::new(old_self.agents().len(), |i: int| self.observed(i)) =~= Seq::new(
            mid.agents().len(),
            |i: int| mid.observed(i),
        ));
        assert(Seq::new(old_self.agents().len(), |i: int| old_self.predicted(i)) =~= Seq::new(
            mid.agents().len(),
            |i: int| mid.predicted(i),
        ));
        assert(self.agents() == mid.agents());
        assert(self.names() == mid.names());
        assert(old_self.agents() == mid.agents());
    }

    /// The current rows that belong to `s_id`, in order.
    fn own_rows(&self, s_id: &String) -> (r: Vec<(String, String)>)
        ensures
            r@.map_values(|p: (String, String)| (p.0@, p.1@)) == rows_of(
                self.match_table(),
                s_id@,
                self.match_table().len() as int,
            ),
    {
        let mut r: Vec<(String, String)> = Vec::new();
        let mut i: usize = 0;
        while i < self.matches.len()
            invariant
                i <= self.matches@.len(),
                r@.map_values(|p: (String, String)| (p.0@, p.1@)) == rows_of(self.match_table(), s_id@, i as int),
            decreases self.matches@.len() - i,
        {
            let ghost before = r@;
            assert(self.match_table()[i as int] == (self.matches@[i as int].0@, self.matches@[i as int].1@));
            if self.matches[i].0 == *s_id {
                r.push((self.matches[i].0.clone(), self.matches[i].1.clone()));
                assert(r@.map_values(|p: (String, String)| (p.0@, p.1@)) =~= before.map_values(
                    |p: (String, String)| (p.0@, p.1@),
                ).push(self.match_table()[i as int]));
            }
            i += 1;
        }
        r
    }

    /// The match rows for the current buffers: each followed agent other than `s_id` whose
    /// observed moves match a heuristic, with that heuristic's name.
    fn match_all(&self, s_id: &String) -> (r: Vec<(String, String)>)
        requires
            self.wf(),
        ensures
            r@.map_values(|p: (String, String)| (p.0@, p.1@)) == match_rows(
                self.agents(),
                Seq::new(self.agents().len(), |i: int| self.observed(i)),
                Seq::new(self.agents().len(), |i: int| self.predicted(i)),
                self.names(),
                s_id@,
                self.agents().len() as int,
            ),
    {
        let ghost obs = Seq::new(self.agents().len(), |i: int| self.observed(i));
        let ghost pred = Seq::new(self.agents().len(), |i: int| self.predicted(i));
        let mut rows: Vec<(String, String)> = Vec::new();
        let mut i: usize = 0;
        while i < self.ids.len()
            invariant
                self.wf(),
                obs == Seq::new(self.agents().len(), |i: int| self.observed(i)),
                pred == Seq::new(self.agents().len(), |i: int| self.predicted(i)),
                i <= self.ids@.len(),
                rows@.map_values(|p: (String, String)| (p.0@, p.1@)) == match_rows(
                    self.agents(),
                    obs,
                    pred,
                    self.names(),
                    s_id@,
                    i as int,
                ),
            decreases self.ids@.len() - i,
        {
            let ghost before = rows@;
            assert(self.agents()[i as int] == self.ids@[i as int]@);
            if self.ids[i] != *s_id {
                let exps = &self.expected_moves[i];
                assert(exps@.map_values(|e: Vec<Dir>| e@) == pred[i as int]);
                assert(obs[i as int] == self.real_moves@[i as int]@);
                match best_match(&self.real_moves[i], exps) {
                    Some(a) => {
                        assert(self.names()[a as int] == self.alg_names@[a as int]@);
                        rows.push((self.ids[i].clone(), self.alg_names[a].clone()));
                        assert(rows@.map_values(|p: (String, String)| (p.0@, p.1@)) =~= before.map_values(
                            |p: (String, String)| (p.0@, p.1@),
                        ).push((self.ids@[i as int]@, self.alg_names@[a as int]@)));
                    },
                    None => {},
                }
            }
            i += 1;
        }
        rows
    }

    /// Shifts into each followed agent's predicted buffers what each heuristic would play
    /// for it in `st`.
    fn predict(&mut self, st: &State)
        requires
            old(self).wf(),
            state_wf(st@),
        ensures
            final(self).wf(),
            final(self).ids == old(self).ids,
            final(self).alg_names == old(self).alg_names,
            final(self).algs == old(self).algs,
            final(self).real_moves == old(self).real_moves,
            final(self).matches == old(self).matches,
            forall|i: int|
                0 <= i < final(self).agents().len() ==> #[trigger] final(self).predicted(i) == predicted_after(
                    old(self).predicted(i),
                    old(self).heuristics(),
                    st@,
                    old(self).agents()[i],
                ),
    {
        let n = self.ids.len();
        let ghost old_self = *self;
        let mut i: usize = 0;
        while i < n
            invariant
                n == self.ids@.len(),
                self.wf(),
                self.ids == old(self).ids,
                self.alg_names == old(self).alg_names,
                self.algs == old(self).algs,
                self.real_moves == old(self).real_moves,
                self.matches == old(self).matches,
                old_self == *old(self),
                state_wf(st@),
                i <= n,
                forall|m: int|
                    0 <= m < n ==> #[trigger] self.predicted(m) == if m < i {
                        predicted_after(old_self.predicted(m), old_self.heuristics(), st@, old_self.agents()[m])
                    } else {
                        old_self.predicted(m)
                    },
            decreases n - i,
        {
            assert(old_self.agents()[i as int] == self.ids@[i as int]@);
            let ghost before = self.expected_moves@;
            let ghost self_before = *self;
            if let Some(k) = st.find_snake(&self.ids[i]) {
                assert(crate::game_tree::first_with_id(st@, self.ids@[i as int]@, k as int)) by {
                    assert forall|m: int| 0 <= m < k implies st@.snakes[m].id != self.ids@[i as int]@ by {
                        assert(st.board.snakes@[m]@ == st@.snakes[m]);
                    }
                }
                assert forall|k2: int| crate::game_tree::first_with_id(st@, self.ids@[i as int]@, k2) implies k2 == k by {
                }
                let sn = &st.board.snakes[k];
                assert(sn@ == st@.snakes[k as int]);
                proof {
                    crate::board::lemma_head_movable(st@, k as int);
                }
                assert(st@.snakes[k as int].body.len() >= 2);
                let mut per_alg: Vec<Vec<Dir>> = Vec::new();
                let mut a: usize = 0;
                while a < self.algs.len()
                    invariant
                        self.wf(),
                        state_wf(st@),
                        i < n,
                        n == self.ids@.len(),
                        sn@ == st@.snakes[k as int],
                        sn.body.len() >= 2,
                        crate::point::movable(head(sn@)),
                        a <= self.algs@.len(),
                        per_alg@.len() == a,
                        forall|b: int| 0 <= b < per_alg@.len() ==> (#[trigger] per_alg@[b])@.len() == MOVE_BUFFER_SIZE,
                        forall|b: int|
                            0 <= b < a ==> (#[trigger] per_alg@[b])@ == shifted(
                                self.expected_moves@[i as int]@[b]@,
                                crate::profile::controller_spec(self.algs@[b], sn@, st@),
                            ),
                    decreases self.algs@.len() - a,
                {
                    let mut c = self.algs[a];
                    let d = c.get_move(sn, st);
                    let mut buf = copy_dirs(&self.expected_moves[i][a]);
                    shift_in(&mut buf, d);
                    per_alg.push(buf);
                    a += 1;
                }
                let ghost target = predicted_after(old_self.predicted(i as int), old_self.heuristics(), st@, old_self.agents()[i as int]);
                let ghost kc = choose|k2: int| crate::game_tree::first_with_id(st@, self.ids@[i as int]@, k2);
                assert(kc == k);
                assert(old_self.predicted(i as int) == self.predicted(i as int));
                assert(old_self.heuristics() == self.algs@);
                assert(per_alg@.map_values(|e: Vec<Dir>| e@) =~= target);
                self.expected_moves.set(i, per_alg);
            } else {
                assert forall|k2: int| !crate::game_tree::first_with_id(st@, self.ids@[i as int]@, k2) by {
                    if 0 <= k2 < st@.snakes.len() {
                        assert(st.board.snakes@[k2]@ == st@.snakes[k2]);
                    }
                }
            }
            assert forall|m: int| 0 <= m < n implies #[trigger] self.predicted(m) == if m < i + 1 {
                predicted_after(old_self.predicted(m), old_self.heuristics(), st@, old_self.agents()[m])
            } else {
                old_self.predicted(m)
            } by {
                if m != i {
                    assert(self.expected_moves@[m] == before[m]);
                    assert(self_before.predicted(m) == self.predicted(m));
                } else {
                    assert(self_before.predicted(m) == old_self.predicted(m));
                }
            }
            i += 1;
        }
    }
}

} // verus!

verus! {

/// The matching rule: the first heuristic that agrees with the observed moves on at least
/// `MATCH_THRESH` of the `MOVE_BUFFER_SIZE` slots is the match; with none, there is no match.
pub proof fn lemma_match_threshold(obs: Seq<Dir>, pred: Seq<Seq<Dir>>, a: int)
    requires
        0 <= a < pred.len(),
    ensures
        agreement(obs, pred[a], MOVE_BUFFER_SIZE as int) >= MATCH_THRESH && (forall|b: int|
            0 <= b < a ==> agreement(obs, pred[b], MOVE_BUFFER_SIZE as int) < MATCH_THRESH) ==> first_match(
            obs,
            pred,
        ) == Some(a),
        (forall|b: int| 0 <= b < pred.len() ==> agreement(obs, pred[b], MOVE_BUFFER_SIZE as int) < MATCH_THRESH)
            ==> first_match(obs, pred) is None,
{
    if agreement(obs, pred[a], MOVE_BUFFER_SIZE as int) >= MATCH_THRESH && (forall|b: int|
        0 <= b < a ==> agreement(obs, pred[b], MOVE_BUFFER_SIZE as int) < MATCH_THRESH) {
        let c = choose|c: int|
            0 <= c < pred.len() && agreement(obs, pred[c], MOVE_BUFFER_SIZE as int) >= MATCH_THRESH && forall|b: int|
                0 <= b < c ==> agreement(obs, pred[b], MOVE_BUFFER_SIZE as int) < MATCH_THRESH;
        if c < a {
        } else if c > a {
        }
    }
}

/// A followed opponent gets a row in the match table exactly when some heuristic matches
/// it, with the name of the first one that does; the protagonist gets none.
pub proof fn lemma_match_rows(
    ids: Seq<Seq<char>>,
    observed: Seq<Seq<Dir>>,
    predicted: Seq<Seq<Seq<Dir>>>,
    names: Seq<Seq<char>>,
    me: Seq<char>,
    n: int,
    i: int,
)
    requires
        0 <= i < n <= ids.len(),
        forall|a: int, b: int| 0 <= a < ids.len() && 0 <= b < ids.len() && a != b ==> ids[a] != ids[b],
    ensures
        ids[i] != me && first_match(observed[i], predicted[i]) is Some ==> match_rows(
            ids,
            observed,
            predicted,
            names,
            me,
            n,
        ).contains((ids[i], names[first_match(observed[i], predicted[i])->0])),
        (ids[i] == me || first_match(observed[i], predicted[i]) is None) ==> forall|k: int|
            0 <= k < match_rows(ids, observed, predicted, names, me, n).len() ==> (#[trigger] match_rows(
                ids,
                observed,
                predicted,
                names,
                me,
                n,
            )[k]).0 != ids[i],
    decreases n,
{
    let rest = match_rows(ids, observed, predicted, names, me, n - 1);
    let cur = match_rows(ids, observed, predicted, names, me, n);
    lemma_rows_ids(ids, observed, predicted, names, me, n - 1);
    if i < n - 1 {
        lemma_match_rows(ids, observed, predicted, names, me, n - 1, i);
        if ids[i] != me && first_match(observed[i], predicted[i]) is Some {
            let w = choose|w: int| 0 <= w < rest.len() && rest[w] == (ids[i], names[first_match(observed[i], predicted[i])->0]);
            assert(cur[w] == rest[w]);
        }
        if ids[i] == me || first_match(observed[i], predicted[i]) is None {
            assert forall|k: int| 0 <= k < cur.len() implies (#[trigger] cur[k]).0 != ids[i] by {
                if k < rest.len() {
                    assert(cur[k] == rest[k]);
                } else {
                    assert(cur[k].0 == ids[n - 1]);
                }
            }
        }
    } else {
        if ids[i] != me && first_match(observed[i], predicted[i]) is Some {
            assert(cur[rest.len() as int] == (ids[i], names[first_match(observed[i], predicted[i])->0]));
        } else {
            assert(cur == rest);
            assert forall|k: int| 0 <= k < cur.len() implies (#[trigger] cur[k]).0 != ids[i] by {
                let w = choose|w: int| 0 <= w < n - 1 && rest[k].0 == ids[w];
            }
        }
    }
}

/// Every row of the first `n` rows names one of the first `n` agents.
proof fn lemma_rows_ids(
    ids: Seq<Seq<char>>,
    observed: Seq<Seq<Dir>>,
    predicted: Seq<Seq<Seq<Dir>>>,
    names: Seq<Seq<char>>,
    me: Seq<char>,
    n: int,
)
    requires
        0 <= n <= ids.len(),
    ensures
        forall|k: int|
            0 <= k < match_rows(ids, observed, predicted, names, me, n).len() ==> exists|w: int|
                0 <= w < n && (#[trigger] match_rows(ids, observed, predicted, names, me, n)[k]).0 == ids[w],
    decreases n,
{
    if n > 0 {
        lemma_rows_ids(ids, observed, predicted, names, me, n - 1);
        let rest = match_rows(ids, observed, predicted, names, me, n - 1);
        let cur = match_rows(ids, observed, predicted, names, me, n);
        assert forall|k: int| 0 <= k < cur.len() implies exists|w: int|
            0 <= w < n && (#[trigger] cur[k]).0 == ids[w] by {
            if k < rest.len() {
                assert(cur[k] == rest[k]);
                let w = choose|w: int| 0 <= w < n - 1 && rest[k].0 == ids[w];
            } else {
                assert(cur[k].0 == ids[n - 1]);
            }
        }
    }
}

} // verus!
