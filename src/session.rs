//! The session phases and the per-tick controller that runs the flock.

use vstd::prelude::*;

use crate::boid::{
    advanced, flock_wf, lemma_spawned_ok, random_draws, spawn_ok, spawn_seq, steered, Boid, Point,
    SpawnDraw, WorldBounds, AGENT_COUNT,
};

verus! {

/// The coarse mode of a session.
#[derive(Clone, Copy, Debug, PartialEq, Eq)]
pub enum PlayState {
    /// Waiting to start; the flock is empty.
    Setup,
    /// The flock moves every tick.
    Play,
    /// The flock is kept but does not move.
    Pause,
}

/// The keys held down during one tick.
#[derive(Clone, Copy, Debug, PartialEq, Eq)]
pub struct Keys {
    /// Back to `Setup`, dropping the flock.
    pub reset: bool,
    /// Start from `Setup`, or resume from `Pause`.
    pub start: bool,
    /// Pause while playing.
    pub pause: bool,
}

/// The phase after the keys of one tick; reset wins over every other key.
pub open spec fn next_phase(p: PlayState, k: Keys) -> PlayState {
    if k.reset {
        PlayState::Setup
    } else {
        match p {
            PlayState::Setup => if k.start {
                PlayState::Play
            } else {
                PlayState::Setup
            },
            PlayState::Pause => if k.start {
                PlayState::Play
            } else {
                PlayState::Pause
            },
            PlayState::Play => if k.pause {
                PlayState::Pause
            } else {
                PlayState::Play
            },
        }
    }
}

/// The keys of one tick start a new flock.
pub open spec fn starts(p: PlayState, k: Keys) -> bool {
    !k.reset && p == PlayState::Setup && k.start
}

/// The agents that the draws place in the world.
pub open spec fn spawn_flock(bounds: WorldBounds, draws: Seq<SpawnDraw>) -> Seq<Boid> {
    spawn_seq(bounds.width as int, bounds.height as int, draws)
}

/// The flock after the keys of one tick, before it moves.
pub open spec fn flock_after_input(
    p: PlayState,
    boids: Seq<Boid>,
    k: Keys,
    bounds: WorldBounds,
    draws: Seq<SpawnDraw>,
) -> Seq<Boid> {
    if k.reset {
        Seq::empty()
    } else if starts(p, k) {
        spawn_flock(bounds, draws)
    } else {
        boids
    }
}

/// Agent `i` after one tick: steered against every other agent as they
/// stood before the tick, then moved.
pub open spec fn tick_agent(
    s: Seq<Boid>,
    i: int,
    bounds: WorldBounds,
    cursor: Point,
    dt_ms: int,
) -> Boid {
    advanced(steered(s[i], s.remove(i), bounds, cursor), dt_ms)
}

/// The whole flock after one tick of movement.
pub open spec fn flock_step(s: Seq<Boid>, bounds: WorldBounds, cursor: Point, dt_ms: int) -> Seq<
    Boid,
> {
    Seq::new(s.len(), |i: int| tick_agent(s, i, bounds, cursor, dt_ms))
}

/// The flock after one whole tick: keys first, then movement while playing.
pub open spec fn session_flock(
    p: PlayState,
    boids: Seq<Boid>,
    k: Keys,
    bounds: WorldBounds,
    draws: Seq<SpawnDraw>,
    cursor: Point,
    dt_ms: int,
) -> Seq<Boid> {
    let b = flock_after_input(p, boids, k, bounds, draws);
    if next_phase(p, k) == PlayState::Play {
        flock_step(b, bounds, cursor, dt_ms)
    } else {
        b
    }
}

/// A session: its phase, its flock, and the world size.
pub struct GameState {
    pub state: PlayState,
    pub boids: Vec<Boid>,
    pub bounds: WorldBounds,
}

impl GameState {
    /// The flock is well formed, and empty in `Setup`.
    pub open spec fn wf(&self) -> bool {
        &&& self.bounds.wf()
        &&& flock_wf(self.boids@)
        &&& (self.state == PlayState::Setup ==> self.boids@.len() == 0)
    }

    /// A session in `Setup` with no agents.
    pub fn new(bounds: WorldBounds) -> (g: GameState)
        requires
            bounds.wf(),
        ensures
            g.state == PlayState::Setup,
            g.boids@.len() == 0,
            g.bounds == bounds,
            g.wf(),
    {
        GameState { state: PlayState::Setup, boids: Vec::new(), bounds }
    }

    /// The input stage of a tick: applies the keys to the phase, drops the
    /// flock on reset and places the drawn agents on start. Returns whether
    /// the session now plays.
    pub fn input_key(&mut self, keys: Keys, draws: &Vec<SpawnDraw>) -> (playing: bool)
        requires
            old(self).wf(),
            draws.len() <= crate::boid::MAX_FLOCK,
        ensures
            final(self).state == next_phase(old(self).state, keys),
            final(self).boids@ == flock_after_input(
                old(self).state,
                old(self).boids@,
                keys,
                old(self).bounds,
                draws@,
            ),
            final(self).bounds == old(self).bounds,
            playing == (final(self).state == PlayState::Play),
            final(self).wf(),
    {
        if keys.reset {
            self.state = PlayState::Setup;
            self.boids = Vec::new();
            assert(self.boids@ =~= Seq::<Boid>::empty());
        } else {
            match self.state {
                PlayState::Setup => {
                    if keys.start {
                        self.boids = spawn_all(&self.bounds, draws);
                        self.state = PlayState::Play;
                    }
                },
                PlayState::Pause => {
                    if keys.start {
                        self.state = PlayState::Play;
                    }
                },
                PlayState::Play => {
                    if keys.pause {
                        self.state = PlayState::Pause;
                    }
                },
            }
        }
        match self.state {
            PlayState::Play => true,
            _ => false,
        }
    }

    /// The movement stage of a tick: every agent is steered against a
    /// snapshot of the others taken before the tick, then moved by its new
    /// velocity over `dt_ms` milliseconds.
    pub fn update_flock(&mut self, dt_ms: u32, cursor: Point)
        requires
            old(self).wf(),
            cursor.wf(),
        ensures
            final(self).boids@ == flock_step(
                old(self).boids@,
                old(self).bounds,
                cursor,
                dt_ms as int,
            ),
            final(self).state == old(self).state,
            final(self).bounds == old(self).bounds,
            final(self).wf(),
    {
        let n = self.boids.len();
        let mut next: Vec<Boid> = Vec::new();
        let mut i: usize = 0;
        while i < n
            invariant
                n == self.boids.len(),
                *self == *old(self),
                old(self).wf(),
                cursor.wf(),
                i <= n,
                next.len() == i,
                forall|k: int|
                    0 <= k < i ==> #[trigger] next@[k] == tick_agent(
                        self.boids@,
                        k,
                        self.bounds,
                        cursor,
                        dt_ms as int,
                    ),
                forall|k: int| 0 <= k < i ==> (#[trigger] next@[k]).wf(),
            decreases n - i,
        {
            let others = others_of(&self.boids, i);
            let mut b = self.boids[i];
            assert(self.boids@[i as int].wf());
            proof {
                assert forall|k: int| 0 <= k < others@.len() implies #[trigger] others@[k].wf() by {
                    if k < i {
                        assert(others@[k] == self.boids@[k]);
                    } else {
                        assert(others@[k] == self.boids@[k + 1]);
                    }
                }
            }
            Boid::game_tick(cursor, &self.bounds, &mut b, &others);
            b.advance(dt_ms);
            next.push(b);
            i = i + 1;
        }
        self.boids = next;
        assert(self.boids@ =~= flock_step(old(self).boids@, old(self).bounds, cursor, dt_ms as int));
    }

    /// One tick with the spawn draws given: the input stage, then the
    /// movement stage if the session plays.
    pub fn game_op_tick_with(
        &mut self,
        dt_ms: u32,
        keys: Keys,
        cursor: Point,
        draws: &Vec<SpawnDraw>,
    )
        requires
            old(self).wf(),
            cursor.wf(),
            draws.len() <= crate::boid::MAX_FLOCK,
        ensures
            final(self).state == next_phase(old(self).state, keys),
            final(self).boids@ == session_flock(
                old(self).state,
                old(self).boids@,
                keys,
                old(self).bounds,
                draws@,
                cursor,
                dt_ms as int,
            ),
            final(self).bounds == old(self).bounds,
            final(self).wf(),
    {
        if self.input_key(keys, draws) {
            self.update_flock(dt_ms, cursor);
        }
    }

    /// One tick: the input stage, drawing `AGENT_COUNT` new agents at random
    /// when the session starts, then the movement stage if the session plays.
    pub fn game_op_tick(&mut self, dt_ms: u32, keys: Keys, cursor: Point)
        requires
            old(self).wf(),
            cursor.wf(),
        ensures
            final(self).state == next_phase(old(self).state, keys),
            final(self).bounds == old(self).bounds,
            final(self).wf(),
            starts(old(self).state, keys) ==> exists|draws: Seq<SpawnDraw>|
                #![trigger spawn_flock(old(self).bounds, draws)]
                draws.len() == AGENT_COUNT && final(self).boids@ == session_flock(
                    old(self).state,
                    old(self).boids@,
                    keys,
                    old(self).bounds,
                    draws,
                    cursor,
                    dt_ms as int,
                ),
            !starts(old(self).state, keys) ==> final(self).boids@ == session_flock(
                old(self).state,
                old(self).boids@,
                keys,
                old(self).bounds,
                Seq::empty(),
                cursor,
                dt_ms as int,
            ),
    {
        let starting = !keys.reset && keys.start && match self.state {
            PlayState::Setup => true,
            _ => false,
        };
        let mut draws: Vec<SpawnDraw> = Vec::new();
        if starting {
            draws = random_draws(AGENT_COUNT);
        }
        let ghost d = draws@;
        self.game_op_tick_with(dt_ms, keys, cursor, &draws);
        proof {
            if starting {
                let _ = spawn_flock(old(self).bounds, d);
            } else {
                assert(d =~= Seq::<SpawnDraw>::empty());
            }
        }
    }
}

/// Places one agent for each draw.
pub fn spawn_all(bounds: &WorldBounds, draws: &Vec<SpawnDraw>) -> (r: Vec<Boid>)
    requires
        bounds.wf(),
        draws.len() <= crate::boid::MAX_FLOCK,
    ensures
        r@ == spawn_flock(*bounds, draws@),
        flock_wf(r@),
        forall|i: int|
            0 <= i < r@.len() ==> spawn_ok(#[trigger] r@[i], bounds.width as int, bounds.height as int),
{
    Boid::create_boids_from(draws, bounds.width, bounds.height)
}

/// Every agent but the one at `i`, in order.
fn others_of(s: &Vec<Boid>, i: usize) -> (r: Vec<Boid>)
    requires
        i < s.len(),
    ensures
        r@ == s@.remove(i as int),
{
    let mut r: Vec<Boid> = Vec::new();
    let mut j: usize = 0;
    while j < s.len()
        invariant
            i < s.len(),
            j <= s.len(),
            j <= i ==> r@ == s@.subrange(0, j as int),
            j > i ==> r@ == s@.subrange(0, i as int) + s@.subrange(i + 1, j as int),
        decreases s.len() - j,
    {
        if j != i {
            r.push(s[j]);
        }
        proof {
            if j < i {
                assert(s@.subrange(0, j + 1) =~= s@.subrange(0, j as int).push(s@[j as int]));
            } else if j == i {
                assert(s@.subrange(i + 1, j + 1) =~= Seq::<Boid>::empty());
                assert(r@ =~= s@.subrange(0, i as int) + s@.subrange(i + 1, j + 1));
            } else {
                assert(s@.subrange(i + 1, j + 1) =~= s@.subrange(i + 1, j as int).push(
                    s@[j as int],
                ));
                assert(r@ =~= s@.subrange(0, i as int) + s@.subrange(i + 1, j + 1));
            }
        }
        j = j + 1;
    }
    r
}

/// The phase and flock after each tick of a sequence of inputs, each input
/// being the elapsed milliseconds, the keys, the cursor and the spawn draws.
pub open spec fn replay(
    p: PlayState,
    boids: Seq<Boid>,
    bounds: WorldBounds,
    inputs: Seq<(u32, Keys, Point, Seq<SpawnDraw>)>,
) -> (PlayState, Seq<Boid>)
    decreases inputs.len(),
{
    if inputs.len() == 0 {
        (p, boids)
    } else {
        let (q, b) = replay(p, boids, bounds, inputs.drop_last());
        let (dt, k, c, d) = inputs.last();
        (next_phase(q, k), session_flock(q, b, k, bounds, d, c, dt as int))
    }
}

/// Within one tick every agent sees the others as they stood before the
/// tick: in a flock of two, each agent is steered against the other's
/// pre-tick state, never its updated one.
pub proof fn lemma_snapshot_isolation(
    a: Boid,
    b: Boid,
    bounds: WorldBounds,
    cursor: Point,
    dt_ms: int,
)
    ensures
        flock_step(seq![a, b], bounds, cursor, dt_ms).len() == 2,
        flock_step(seq![a, b], bounds, cursor, dt_ms)[0] == advanced(
            steered(a, seq![b], bounds, cursor),
            dt_ms,
        ),
        flock_step(seq![a, b], bounds, cursor, dt_ms)[1] == advanced(
            steered(b, seq![a], bounds, cursor),
            dt_ms,
        ),
{
    assert(seq![a, b].remove(0) =~= seq![b]);
    assert(seq![a, b].remove(1) =~= seq![a]);
}

/// From `Setup`, a start without reset moves to `Play` with exactly one
/// fresh agent per draw, each in the central half of the world; a reset
/// moves any phase to `Setup` with an empty flock, whatever else is held.
pub proof fn lemma_session_transitions(
    p: PlayState,
    boids: Seq<Boid>,
    k: Keys,
    bounds: WorldBounds,
    draws: Seq<SpawnDraw>,
    cursor: Point,
    dt_ms: int,
)
    requires
        bounds.wf(),
    ensures
        (p == PlayState::Setup && k.start && !k.reset) ==> {
            &&& next_phase(p, k) == PlayState::Play
            &&& flock_after_input(p, boids, k, bounds, draws) == spawn_flock(bounds, draws)
            &&& spawn_flock(bounds, draws).len() == draws.len()
            &&& session_flock(p, boids, k, bounds, draws, cursor, dt_ms).len() == draws.len()
            &&& forall|i: int|
                0 <= i < draws.len() ==> spawn_ok(
                    #[trigger] spawn_flock(bounds, draws)[i],
                    bounds.width as int,
                    bounds.height as int,
                )
        },
        k.reset ==> next_phase(p, k) == PlayState::Setup && session_flock(
            p,
            boids,
            k,
            bounds,
            draws,
            cursor,
            dt_ms,
        ).len() == 0,
{
    assert forall|i: int| 0 <= i < draws.len() implies spawn_ok(
        #[trigger] spawn_flock(bounds, draws)[i],
        bounds.width as int,
        bounds.height as int,
    ) by {
        lemma_spawned_ok(bounds.width as int, bounds.height as int, draws[i]);
    }
}

/// Two sessions that start alike and get the same inputs, spawn draws
/// included, go through the same phases and flocks, tick by tick.
pub proof fn lemma_determinism(
    phase_a: PlayState,
    flock_a: Seq<Boid>,
    phase_b: PlayState,
    flock_b: Seq<Boid>,
    bounds: WorldBounds,
    inputs: Seq<(u32, Keys, Point, Seq<SpawnDraw>)>,
)
    requires
        phase_a == phase_b,
        flock_a == flock_b,
    ensures
        forall|n: int|
            0 <= n <= inputs.len() ==> #[trigger] replay(phase_a, flock_a, bounds, inputs.take(n)) == replay(
                phase_b,
                flock_b,
                bounds,
                inputs.take(n),
            ),
{
}

} // verus!
