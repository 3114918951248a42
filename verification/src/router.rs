//! A client-side page router: route patterns such as `/post/{id}` are
//! registered against handler identifiers, navigation resolves a path to the
//! matching handler and pushes a history entry, and forward and backward
//! navigations run animated transitions that a per-frame tick advances.
//!
//! Pattern matching itself is done by the `matchit` crate, held behind
//! trusted declarations; everything the router decides from a match result is
//! verified.

use crate::transition::{
    ActiveTransition, ActiveTransitionResult, TransitionConfig, tick_finishes, spec_progress_milli,
};
use vstd::prelude::*;

verus! {

#[verifier::external_type_specification]
#[verifier::external_body]
#[verifier::reject_recursive_types(T)]
pub struct ExMatchitRouter<T>(matchit::Router<T>);

#[verifier::external_type_specification]
#[verifier::external_body]
pub struct ExInsertError(matchit::InsertError);

/// The routes a matching table holds: each registered pattern, with the
/// handler value stored under it.
pub uninterp spec fn table_routes(t: matchit::Router<u64>) -> Map<Seq<char>, u64>;

/// What looking a path up in a matching table returns: the value of the
/// matching pattern, most specific first, or nothing. The result is a
/// function of the table value and the path alone — of the value, not merely
/// of the registered-routes map: a failed registration can leave valueless
/// residue in the table that registers nothing yet still steers later
/// lookups, so two tables with equal route maps need not match alike.
pub uninterp spec fn match_of(t: matchit::Router<u64>, path: Seq<char>) -> Option<u64>;

/// The parameters a successful lookup extracts from the path, as name/value
/// pairs in pattern order. A function of the table value and the path, for
/// the same reason as `match_of`.
pub uninterp spec fn params_of(t: matchit::Router<u64>, path: Seq<char>) -> Seq<
    (Seq<char>, Seq<char>),
>;

/// Name/value pairs of strings, viewed as character sequences.
pub open spec fn params_view(ps: Seq<(String, String)>) -> Seq<(Seq<char>, Seq<char>)> {
    ps.map_values(|p: (String, String)| (p.0@, p.1@))
}

/// A route map with nothing in it.
pub open spec fn empty_routes() -> Map<Seq<char>, u64> {
    Map::empty()
}

/// Whether an insertion of this pattern into this table succeeds: the
/// pattern is sound and conflicts with nothing in the table. The outcome is
/// a function of the table value and the pattern alone — of the value, since
/// residue of failed registrations can also conflict.
pub uninterp spec fn insert_ok_of(t: matchit::Router<u64>, pattern: Seq<char>) -> bool;

/// How many named parameters a pattern spells: each unescaped opening brace
/// that does not begin a catch-all (`{*name}`) opens one. Doubled braces,
/// `{{` or `}}`, are escapes for one literal brace and open nothing.
pub open spec fn param_count(s: Seq<char>) -> int
    decreases s.len(),
{
    if s.len() == 0 {
        0
    } else if s.len() >= 2 && ((s[0] == '{' && s[1] == '{') || (s[0] == '}' && s[1] == '}')) {
        param_count(s.skip(2))
    } else if s[0] == '{' {
        (if s.len() >= 2 && s[1] == '*' {
            0int
        } else {
            1int
        }) + param_count(s.skip(1))
    } else {
        param_count(s.skip(1))
    }
}

proof fn lemma_param_count_nonneg(s: Seq<char>)
    ensures
        param_count(s) >= 0,
    decreases s.len(),
{
    if s.len() >= 2 && ((s[0] == '{' && s[1] == '{') || (s[0] == '}' && s[1] == '}')) {
        lemma_param_count_nonneg(s.skip(2));
    } else if s.len() > 0 {
        lemma_param_count_nonneg(s.skip(1));
    }
}

/// A pattern without brace characters spells no parameter.
pub proof fn lemma_no_braces_no_params(s: Seq<char>)
    requires
        no_braces(s),
    ensures
        param_count(s) == 0,
    decreases s.len(),
{
    if s.len() > 0 {
        assert(s[0] != '{' && s[0] != '}');
        assert forall|i: int| 0 <= i < s.skip(1).len() implies #[trigger] s.skip(1)[i] != '{'
            && s.skip(1)[i] != '}' by {
            assert(s.skip(1)[i] == s[i + 1]);
        }
        lemma_no_braces_no_params(s.skip(1));
    }
}

/// A string without brace characters: as a pattern it is fully literal, and
/// as a path it spells no parameter syntax.
pub open spec fn no_braces(s: Seq<char>) -> bool {
    forall|i: int| 0 <= i < s.len() ==> #[trigger] s[i] != '{' && s[i] != '}'
}

/// Count a pattern's named parameters, as `param_count` reads them.
fn count_params(s: &str) -> (c: usize)
    ensures
        c == param_count(s@),
{
    let n = s.unicode_len();
    let mut c: usize = 0;
    let mut i: usize = 0;
    proof {
        assert(s@.skip(0) =~= s@);
    }
    while i < n
        invariant
            n == s@.len(),
            i <= n,
            c <= i,
            c + param_count(s@.skip(i as int)) == param_count(s@),
        decreases n - i,
    {
        let ch = s.get_char(i);
        let pair = i + 1 < n && ((ch == '{' && s.get_char(i + 1) == '{') || (ch == '}'
            && s.get_char(i + 1) == '}'));
        proof {
            let rest = s@.skip(i as int);
            assert(rest[0] == s@[i as int]);
            if i + 1 < n {
                assert(rest[1] == s@[i as int + 1]);
            }
            assert(rest.skip(1) =~= s@.skip(i as int + 1));
            if i + 2 <= n {
                assert(rest.skip(2) =~= s@.skip(i as int + 2));
            }
            lemma_param_count_nonneg(s@.skip(i as int + 1));
            if i + 2 <= n {
                lemma_param_count_nonneg(s@.skip(i as int + 2));
            }
        }
        if pair {
            i = i + 2;
        } else {
            if ch == '{' && !(i + 1 < n && s.get_char(i + 1) == '*') {
                c = c + 1;
            }
            i = i + 1;
        }
    }
    proof {
        assert(s@.skip(n as int) =~= Seq::<char>::empty());
    }
    c
}

/// Relies on matchit::Router::new (via Default): a fresh router holds no
/// routes.
#[verifier::external_body]
fn table_new() -> (r: matchit::Router<u64>)
    ensures
        table_routes(r) == empty_routes(),
{
    matchit::Router::new()
}

/// Relies on matchit::Router::insert: on success the pattern is registered
/// with the given value; a malformed or conflicting pattern is reported and
/// registers nothing, and which of the two happens is a function of the
/// pattern and the table it goes into. The call panics on a pattern with
/// more than 25 named parameters (it names them a through z and stops once
/// the alphabet runs out); the parameter-count bound keeps that input out.
/// A brace-free pattern that is not yet registered always registers: a static
/// insert walks and extends only static nodes and fails only on an exact
/// registered duplicate.
#[verifier::external_body]
fn table_insert(t: &mut matchit::Router<u64>, route: &str, value: u64) -> (r: Result<
    (),
    matchit::InsertError,
>)
    requires
        param_count(route@) <= 25,
    ensures
        r is Ok <==> insert_ok_of(*old(t), route@),
        r is Ok ==> table_routes(*final(t)) == table_routes(*old(t)).insert(route@, value),
        r is Err ==> table_routes(*final(t)) == table_routes(*old(t)),
        (no_braces(route@) && !table_routes(*old(t)).contains_key(route@)) ==> r is Ok,
{
    t.insert(route, value)
}

/// Relies on matchit::Router::at: finds the route matching the path, handing
/// back the value stored at it and the parameters extracted from the path.
/// An exact, fully literal route always wins: looking up a registered
/// brace-free pattern as a path yields that pattern's own value, never a
/// parameter route's.
#[verifier::external_body]
fn table_at(t: &matchit::Router<u64>, path: &str) -> (r: Option<(u64, Vec<(String, String)>)>)
    ensures
        r matches Some(found) ==> {
            &&& match_of(*t, path@) == Some(found.0)
            &&& params_view(found.1@) == params_of(*t, path@)
            &&& exists|p: Seq<char>|
                #[trigger] table_routes(*t).contains_key(p) && table_routes(*t)[p] == found.0
            &&& (no_braces(path@) && table_routes(*t).contains_key(path@)) ==> found.0
                == table_routes(*t)[path@]
        },
        r is None ==> match_of(*t, path@) is None,
        r is Some <== (no_braces(path@) && table_routes(*t).contains_key(path@)),
{
    match t.at(path) {
        Ok(m) => {
            let mut ps: Vec<(String, String)> = Vec::new();
            for p in m.params.iter() {
                ps.push((p.0.to_string(), p.1.to_string()));
            }
            Some((*m.value, ps))
        },
        Err(_) => None,
    }
}

/// Why a router call failed.
#[derive(Clone, Copy, Debug, PartialEq, Eq, Structural)]
pub enum RouterError {
    /// The pattern handed to `route` was malformed or conflicts with an
    /// already registered route.
    InvalidRoute,
    /// The path handed to a navigation matched no registered route.
    NotFound,
}

/// One activated route on the history stack: which handler produced its page,
/// and the parameters extracted from the path it was navigated to.
#[derive(Debug)]
pub struct RouteEntry {
    pub handler: u64,
    pub params: Vec<(String, String)>,
}

/// A fresh forward transition for the given configuration, with the router's
/// default duration filled in where the configuration names none.
pub open spec fn fresh_forward(cfg: TransitionConfig, default_ms: Option<u32>) -> ActiveTransition {
    ActiveTransition {
        forward: true,
        elapsed_ms: 0,
        duration_ms: if cfg.duration_ms is Some {
            cfg.duration_ms
        } else {
            default_ms
        },
        easing: cfg.easing,
        tr_in: cfg.tr_in,
        tr_out: cfg.tr_out,
    }
}

/// A fresh backward transition, as `fresh_forward`.
pub open spec fn fresh_backward(cfg: TransitionConfig, default_ms: Option<u32>) -> ActiveTransition {
    ActiveTransition { forward: false, ..fresh_forward(cfg, default_ms) }
}

/// What a per-frame tick asks the host to draw, with indices into the
/// history stack.
#[derive(Clone, Debug, PartialEq, Eq, Structural)]
pub enum UiOutcome {
    /// No page has been activated yet: draw nothing.
    Nothing,
    /// No transition runs: draw the top entry directly.
    Idle { top: usize },
    /// A transition advanced and keeps running: draw the top entry and, where
    /// one exists, the entry under it, at the given normalised progress in
    /// thousandths.
    Transitioning { top: usize, prev: Option<usize>, forward: bool, progress_milli: u32 },
    /// A forward transition finished on this tick: draw the top directly from
    /// now on.
    Done { top: usize },
    /// A backward transition finished on this tick: the entry navigated away
    /// from has been popped; draw the new top, where one remains.
    DonePop { top: Option<usize> },
}

/// The router: a matching table of route patterns, the history stack of
/// activated routes, the transition configurations, and the transition in
/// flight, if any. At most one transition runs at a time; a new navigation
/// replaces it.
pub struct EguiRouter {
    pub table: matchit::Router<u64>,
    pub history: Vec<RouteEntry>,
    pub forward_transition: TransitionConfig,
    pub backward_transition: TransitionConfig,
    pub current_transition: Option<ActiveTransition>,
    pub default_duration_ms: Option<u32>,
}

impl EguiRouter {
    /// An empty router: no routes, no history, default transitions.
    pub fn new() -> (r: Self)
        ensures
            table_routes(r.table) == empty_routes(),
            r.history@.len() == 0,
            r.current_transition is None,
            r.default_duration_ms is None,
            r.forward_transition == TransitionConfig::spec_default(),
            r.backward_transition == TransitionConfig::spec_default(),
    {
        EguiRouter {
            table: table_new(),
            history: Vec::new(),
            forward_transition: TransitionConfig::default(),
            backward_transition: TransitionConfig::default(),
            current_transition: None,
            default_duration_ms: None,
        }
    }

    /// Use this animation for both directions.
    pub fn with_transition(self, transition: TransitionConfig) -> (r: Self)
        ensures
            r == (EguiRouter {
                forward_transition: transition,
                backward_transition: transition,
                ..self
            }),
    {
        EguiRouter { forward_transition: transition, backward_transition: transition, ..self }
    }

    /// Use this animation for forward navigation.
    pub fn with_forward_transition(self, transition: TransitionConfig) -> (r: Self)
        ensures
            r == (EguiRouter { forward_transition: transition, ..self }),
    {
        EguiRouter { forward_transition: transition, ..self }
    }

    /// Use this animation for backward navigation.
    pub fn with_backward_transition(self, transition: TransitionConfig) -> (r: Self)
        ensures
            r == (EguiRouter { backward_transition: transition, ..self }),
    {
        EguiRouter { backward_transition: transition, ..self }
    }

    /// Use this duration, in milliseconds, wherever a transition names none.
    pub fn with_default_duration(self, duration_ms: u32) -> (r: Self)
        ensures
            r == (EguiRouter { default_duration_ms: Some(duration_ms), ..self }),
    {
        EguiRouter { default_duration_ms: Some(duration_ms), ..self }
    }

    /// Register a route pattern under a handler identifier. A malformed or
    /// conflicting pattern is rejected at once and registers nothing, and so
    /// is one with more than 25 named parameters, the most the matcher
    /// supports; registration succeeds on every other pattern that is sound
    /// and conflict-free against the table — in particular, always on a
    /// fully literal pattern that is not yet registered.
    pub fn route(&mut self, route: &str, handler: u64) -> (r: Result<(), RouterError>)
        ensures
            r is Ok <==> (param_count(route@) <= 25 && insert_ok_of(old(self).table, route@)),
            (no_braces(route@) && !table_routes(old(self).table).contains_key(route@)) ==> r
                is Ok,
            r is Ok ==> table_routes(final(self).table) == table_routes(old(self).table).insert(
                route@,
                handler,
            ),
            r is Err ==> r == Err::<(), RouterError>(RouterError::InvalidRoute) && table_routes(
                final(self).table,
            ) == table_routes(old(self).table),
            final(self).history == old(self).history,
            final(self).forward_transition == old(self).forward_transition,
            final(self).backward_transition == old(self).backward_transition,
            final(self).current_transition == old(self).current_transition,
            final(self).default_duration_ms == old(self).default_duration_ms,
    {
        if count_params(route) > 25 {
            proof {
                if no_braces(route@) {
                    lemma_no_braces_no_params(route@);
                }
            }
            return Err(RouterError::InvalidRoute);
        }
        match table_insert(&mut self.table, route, handler) {
            Ok(()) => Ok(()),
            Err(_) => Err(RouterError::InvalidRoute),
        }
    }

    /// Navigate to a path with the given animation. When the path matches a
    /// registered route, the matched handler and the extracted parameters are
    /// pushed onto the history and a fresh forward transition starts,
    /// replacing any transition in flight. When nothing matches, the failure
    /// is reported and the router is left exactly as it was.
    pub fn navigate_transition(&mut self, route: &str, transition_config: TransitionConfig) -> (r:
        Result<(), RouterError>)
        ensures
            ({
                let m = match_of(old(self).table, route@);
                &&& m is Some ==> {
                    &&& r is Ok
                    &&& final(self).history@.len() == old(self).history@.len() + 1
                    &&& final(self).history@.drop_last() == old(self).history@
                    &&& m == Some(final(self).history@.last().handler)
                    &&& params_view(final(self).history@.last().params@) == params_of(
                        old(self).table,
                        route@,
                    )
                    &&& final(self).current_transition == Some(
                        fresh_forward(transition_config, old(self).default_duration_ms),
                    )
                }
                &&& m is None ==> r == Err::<(), RouterError>(RouterError::NotFound) && *final(self)
                    == *old(self)
                &&& (no_braces(route@) && table_routes(old(self).table).contains_key(route@)) ==> (
                r is Ok && final(self).history@.last().handler == table_routes(
                    old(self).table,
                )[route@])
            }),
            final(self).table == old(self).table,
            final(self).forward_transition == old(self).forward_transition,
            final(self).backward_transition == old(self).backward_transition,
            final(self).default_duration_ms == old(self).default_duration_ms,
    {
        match table_at(&self.table, route) {
            Some((handler, params)) => {
                self.history.push(RouteEntry { handler, params });
                self.current_transition = Some(
                    ActiveTransition::forward(&transition_config).with_default_duration(
                        self.default_duration_ms,
                    ),
                );
                proof {
                    assert(self.history@.drop_last() =~= old(self).history@);
                }
                Ok(())
            },
            None => Err(RouterError::NotFound),
        }
    }

    /// Navigate to a path with the configured forward animation.
    pub fn navigate(&mut self, route: &str) -> (r: Result<(), RouterError>)
        ensures
            ({
                let m = match_of(old(self).table, route@);
                &&& m is Some ==> {
                    &&& r is Ok
                    &&& final(self).history@.len() == old(self).history@.len() + 1
                    &&& final(self).history@.drop_last() == old(self).history@
                    &&& m == Some(final(self).history@.last().handler)
                    &&& params_view(final(self).history@.last().params@) == params_of(
                        old(self).table,
                        route@,
                    )
                    &&& final(self).current_transition == Some(
                        fresh_forward(old(self).forward_transition, old(self).default_duration_ms),
                    )
                }
                &&& m is None ==> r == Err::<(), RouterError>(RouterError::NotFound) && *final(self)
                    == *old(self)
                &&& (no_braces(route@) && table_routes(old(self).table).contains_key(route@)) ==> (
                r is Ok && final(self).history@.last().handler == table_routes(
                    old(self).table,
                )[route@])
            }),
            final(self).table == old(self).table,
            final(self).forward_transition == old(self).forward_transition,
            final(self).backward_transition == old(self).backward_transition,
            final(self).default_duration_ms == old(self).default_duration_ms,
    {
        let cfg = self.forward_transition;
        self.navigate_transition(route, cfg)
    }

    /// Start going back with the given animation. With one entry or none the
    /// call is a no-op: no transition starts and nothing changes. Otherwise a
    /// fresh backward transition starts; the entry navigated away from stays
    /// on the history until that transition completes, so that both pages can
    /// be drawn while it runs.
    pub fn back_transition(&mut self, transition_config: TransitionConfig)
        ensures
            old(self).history@.len() <= 1 ==> *final(self) == *old(self),
            old(self).history@.len() > 1 ==> *final(self) == (EguiRouter {
                current_transition: Some(
                    fresh_backward(transition_config, old(self).default_duration_ms),
                ),
                ..*old(self)
            }),
    {
        if self.history.len() > 1 {
            self.current_transition = Some(
                ActiveTransition::backward(&transition_config).with_default_duration(
                    self.default_duration_ms,
                ),
            );
        }
    }

    /// Start going back with the configured backward animation; a no-op when
    /// the history holds at most one entry.
    pub fn back(&mut self)
        ensures
            old(self).history@.len() <= 1 ==> *final(self) == *old(self),
            old(self).history@.len() > 1 ==> *final(self) == (EguiRouter {
                current_transition: Some(
                    fresh_backward(old(self).backward_transition, old(self).default_duration_ms),
                ),
                ..*old(self)
            }),
    {
        let cfg = self.backward_transition;
        self.back_transition(cfg)
    }

    /// One per-frame tick: advance the transition in flight by the frame's
    /// wall-clock delta and say what to draw. While a transition runs, both
    /// the top entry and the one under it stay drawable; the tick on which
    /// progress reaches one reports completion, and a completed backward
    /// transition pops the entry that was navigated away from. With no
    /// transition the top entry is drawn directly; an empty history draws
    /// nothing.
    pub fn ui(&mut self, dt_ms: u32) -> (r: UiOutcome)
        ensures
            old(self).history@.len() == 0 ==> *final(self) == *old(self) && r == UiOutcome::Nothing,
            old(self).history@.len() > 0 && old(self).current_transition is None ==> *final(self)
                == *old(self) && r == (UiOutcome::Idle {
                top: (old(self).history@.len() - 1) as usize,
            }),
            old(self).history@.len() > 0 ==> (old(self).current_transition matches Some(t)
                ==> {
                    let n = old(self).history@.len();
                    &&& !tick_finishes(t, dt_ms) ==> {
                        let stepped = ActiveTransition {
                            elapsed_ms: (t.elapsed_ms + dt_ms) as u32,
                            ..t
                        };
                        &&& *final(self) == (EguiRouter {
                            current_transition: Some(stepped),
                            ..*old(self)
                        })
                        &&& r == (UiOutcome::Transitioning {
                            top: (n - 1) as usize,
                            prev: if n >= 2 {
                                Some((n - 2) as usize)
                            } else {
                                None
                            },
                            forward: t.forward,
                            progress_milli: spec_progress_milli(stepped) as u32,
                        })
                    }
                    &&& tick_finishes(t, dt_ms) && t.forward ==> *final(self) == (EguiRouter {
                        current_transition: None,
                        ..*old(self)
                    }) && r == (UiOutcome::Done { top: (n - 1) as usize })
                    &&& tick_finishes(t, dt_ms) && !t.forward ==> {
                        &&& final(self).history@ == old(self).history@.drop_last()
                        &&& final(self).current_transition is None
                        &&& final(self).table == old(self).table
                        &&& final(self).forward_transition == old(self).forward_transition
                        &&& final(self).backward_transition == old(self).backward_transition
                        &&& final(self).default_duration_ms == old(self).default_duration_ms
                        &&& r == (UiOutcome::DonePop {
                            top: if n >= 2 {
                                Some((n - 2) as usize)
                            } else {
                                None
                            },
                        })
                    }
                }),
    {
        let n = self.history.len();
        if n == 0 {
            return UiOutcome::Nothing;
        }
        match self.current_transition {
            None => UiOutcome::Idle { top: n - 1 },
            Some(mut t) => {
                let result = t.advance(dt_ms);
                match result {
                    ActiveTransitionResult::Continue => {
                        let progress = t.progress_milli();
                        let forward = t.forward;
                        self.current_transition = Some(t);
                        UiOutcome::Transitioning {
                            top: n - 1,
                            prev: if n >= 2 {
                                Some(n - 2)
                            } else {
                                None
                            },
                            forward,
                            progress_milli: progress,
                        }
                    },
                    ActiveTransitionResult::Done => {
                        self.current_transition = None;
                        UiOutcome::Done { top: n - 1 }
                    },
                    ActiveTransitionResult::DonePop => {
                        self.current_transition = None;
                        self.history.pop();
                        UiOutcome::DonePop {
                            top: if n >= 2 {
                                Some(n - 2)
                            } else {
                                None
                            },
                        }
                    },
                }
            },
        }
    }
}

} // verus!
