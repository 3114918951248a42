//! The router's animated transition state machine: a navigation starts a
//! transition that a per-frame tick advances by wall-clock time until its
//! progress reaches one, when it reports how the history should be cleaned
//! up. Progress is time-based, so it is correct under any frame rate.

use vstd::prelude::*;

verus! {

/// Denominator for normalised progress and slide offsets: a progress of
/// `PROGRESS_SCALE` is completion; a slide offset of `PROGRESS_SCALE` is one
/// full container width.
pub const PROGRESS_SCALE: u32 = 1000;

/// Duration used when neither the transition nor the router names one, in
/// milliseconds.
pub const DEFAULT_DURATION_MS: u32 = 200;

/// How a page moves while a transition runs.
#[derive(Clone, Copy, Debug, PartialEq, Eq, Structural)]
pub enum Transition {
    /// Slide from (or to) the given offset, in thousandths of the container's
    /// width; the offset eases to zero as progress reaches one.
    Slide(i32),
    /// Cross-fade: opacity follows eased progress.
    Fade,
    /// No animation: an instant swap, as a zero duration would give.
    Instant,
}

/// The easing the host applies to normalised progress before drawing.
/// Every easing maps zero to zero and one to one monotonically, so it never
/// changes when a transition completes, only how it looks on the way.
#[derive(Clone, Copy, Debug, PartialEq, Eq, Structural)]
pub enum Easing {
    Linear,
    EaseInEaseOut,
    QuadInOut,
}

/// Configuration of one navigation's animation: an optional duration, an
/// easing, and the motions of the entering and the leaving page.
#[derive(Clone, Copy, Debug, PartialEq, Eq)]
pub struct TransitionConfig {
    pub duration_ms: Option<u32>,
    pub easing: Easing,
    pub tr_in: Transition,
    pub tr_out: Transition,
}

impl Default for TransitionConfig {
    /// The default animation: the entering page slides in from a full width
    /// away while the leaving page drifts a tenth of a width back.
    fn default() -> (c: Self)
        ensures
            c == TransitionConfig::spec_default(),
    {
        TransitionConfig {
            duration_ms: None,
            easing: Easing::EaseInEaseOut,
            tr_in: Transition::Slide(1000),
            tr_out: Transition::Slide(-100),
        }
    }
}

impl TransitionConfig {
    /// The default animation, as a specification value.
    pub open spec fn spec_default() -> TransitionConfig {
        TransitionConfig {
            duration_ms: None,
            easing: Easing::EaseInEaseOut,
            tr_in: Transition::Slide(1000),
            tr_out: Transition::Slide(-100i32),
        }
    }

    /// A configuration with the given motions and the default duration and
    /// easing.
    pub fn new(tr_in: Transition, tr_out: Transition) -> (c: Self)
        ensures
            c.duration_ms is None,
            c.easing == Easing::EaseInEaseOut,
            c.tr_in == tr_in,
            c.tr_out == tr_out,
    {
        TransitionConfig { duration_ms: None, easing: Easing::EaseInEaseOut, tr_in, tr_out }
    }

    /// The default sliding animation.
    pub fn slide() -> (c: Self)
        ensures
            c.duration_ms is None,
            c.easing == Easing::EaseInEaseOut,
            c.tr_in == Transition::Slide(1000),
            c.tr_out == (Transition::Slide(-100i32)),
    {
        TransitionConfig::default()
    }

    /// A cross-fade for both pages.
    pub fn fade() -> (c: Self)
        ensures
            c.duration_ms is None,
            c.easing == Easing::EaseInEaseOut,
            c.tr_in == Transition::Fade,
            c.tr_out == Transition::Fade,
    {
        TransitionConfig::new(Transition::Fade, Transition::Fade)
    }

    /// No animation at all: the swap is instant, so the duration is zero and
    /// the first tick completes the transition.
    pub fn none() -> (c: Self)
        ensures
            c.duration_ms == Some(0u32),
            c.easing == Easing::EaseInEaseOut,
            c.tr_in == Transition::Instant,
            c.tr_out == Transition::Instant,
    {
        TransitionConfig::new(Transition::Instant, Transition::Instant).with_duration(0)
    }

    /// The same configuration with another easing.
    pub fn with_easing(self, easing: Easing) -> (c: Self)
        ensures
            c == (TransitionConfig { easing, ..self }),
    {
        TransitionConfig { easing, ..self }
    }

    /// The same configuration with the given duration, in milliseconds.
    pub fn with_duration(self, duration_ms: u32) -> (c: Self)
        ensures
            c == (TransitionConfig { duration_ms: Some(duration_ms), ..self }),
    {
        TransitionConfig { duration_ms: Some(duration_ms), ..self }
    }
}

/// What one tick of an active transition reports: keep animating, or finish —
/// forward navigations end in `Done`, backward ones in `DonePop`, which tells
/// the router to pop the history entry that was navigated away from.
#[derive(Clone, Copy, Debug, PartialEq, Eq, Structural)]
pub enum ActiveTransitionResult {
    Continue,
    Done,
    DonePop,
}

/// An in-flight transition: its direction, the animation it runs, and how far
/// along it is.
#[derive(Clone, Copy, Debug, PartialEq, Eq)]
pub struct ActiveTransition {
    /// `true` for a forward navigation, `false` for going back.
    pub forward: bool,
    /// Wall-clock time this transition has run, in milliseconds.
    pub elapsed_ms: u32,
    /// Duration, in milliseconds; `None` falls back to the router's default.
    pub duration_ms: Option<u32>,
    pub easing: Easing,
    pub tr_in: Transition,
    pub tr_out: Transition,
}

/// The duration a transition runs for, with the final fallback applied.
pub open spec fn resolved_duration(t: ActiveTransition) -> u32 {
    match t.duration_ms {
        Some(d) => d,
        None => DEFAULT_DURATION_MS,
    }
}

/// Whether a tick of `dt_ms` finishes the transition: elapsed time reaches
/// the duration, so normalised progress reaches one.
pub open spec fn tick_finishes(t: ActiveTransition, dt_ms: u32) -> bool {
    t.elapsed_ms + dt_ms >= resolved_duration(t)
}

impl ActiveTransition {
    /// A fresh transition for a forward navigation.
    pub fn forward(config: &TransitionConfig) -> (t: Self)
        ensures
            t.forward,
            t.elapsed_ms == 0,
            t.duration_ms == config.duration_ms,
            t.easing == config.easing,
            t.tr_in == config.tr_in,
            t.tr_out == config.tr_out,
    {
        ActiveTransition {
            forward: true,
            elapsed_ms: 0,
            duration_ms: config.duration_ms,
            easing: config.easing,
            tr_in: config.tr_in,
            tr_out: config.tr_out,
        }
    }

    /// A fresh transition for a backward navigation.
    pub fn backward(config: &TransitionConfig) -> (t: Self)
        ensures
            !t.forward,
            t.elapsed_ms == 0,
            t.duration_ms == config.duration_ms,
            t.easing == config.easing,
            t.tr_in == config.tr_in,
            t.tr_out == config.tr_out,
    {
        ActiveTransition {
            forward: false,
            elapsed_ms: 0,
            duration_ms: config.duration_ms,
            easing: config.easing,
            tr_in: config.tr_in,
            tr_out: config.tr_out,
        }
    }

    /// Fill in the router's default duration where the configuration named
    /// none.
    pub fn with_default_duration(self, default_ms: Option<u32>) -> (t: Self)
        ensures
            self.duration_ms is Some ==> t == self,
            self.duration_ms is None ==> t == (ActiveTransition {
                duration_ms: default_ms,
                ..self
            }),
    {
        match self.duration_ms {
            Some(_) => self,
            None => ActiveTransition { duration_ms: default_ms, ..self },
        }
    }

    /// Advance the transition by one frame's wall-clock delta.
    ///
    /// Elapsed time grows by `dt_ms`, saturating at the duration. Until
    /// progress reaches one the tick reports `Continue`; the tick on which it
    /// does reports `Done` for a forward transition and `DonePop` for a
    /// backward one.
    pub fn advance(&mut self, dt_ms: u32) -> (r: ActiveTransitionResult)
        ensures
            final(self).forward == old(self).forward,
            final(self).duration_ms == old(self).duration_ms,
            final(self).easing == old(self).easing,
            final(self).tr_in == old(self).tr_in,
            final(self).tr_out == old(self).tr_out,
            final(self).elapsed_ms as int == (if tick_finishes(*old(self), dt_ms) {
                resolved_duration(*old(self)) as int
            } else {
                old(self).elapsed_ms + dt_ms
            }),
            r == (if !tick_finishes(*old(self), dt_ms) {
                ActiveTransitionResult::Continue
            } else if old(self).forward {
                ActiveTransitionResult::Done
            } else {
                ActiveTransitionResult::DonePop
            }),
    {
        let duration = match self.duration_ms {
            Some(d) => d,
            None => DEFAULT_DURATION_MS,
        };
        let grown: u64 = (self.elapsed_ms as u64) + (dt_ms as u64);
        if grown >= duration as u64 {
            self.elapsed_ms = duration;
            if self.forward {
                ActiveTransitionResult::Done
            } else {
                ActiveTransitionResult::DonePop
            }
        } else {
            self.elapsed_ms = grown as u32;
            ActiveTransitionResult::Continue
        }
    }

    /// Normalised progress in thousandths: elapsed over duration, clamped to
    /// one; a zero duration is already complete.
    pub fn progress_milli(&self) -> (p: u32)
        ensures
            p == spec_progress_milli(*self),
    {
        let duration = match self.duration_ms {
            Some(d) => d,
            None => DEFAULT_DURATION_MS,
        };
        if duration == 0 || self.elapsed_ms >= duration {
            PROGRESS_SCALE
        } else {
            let wide: u64 = (self.elapsed_ms as u64) * (PROGRESS_SCALE as u64) / (duration as u64);
            proof {
                assert((self.elapsed_ms as int) * (PROGRESS_SCALE as int) / (duration as int)
                    < PROGRESS_SCALE) by (nonlinear_arith)
                    requires
                        0 < duration,
                        0 <= self.elapsed_ms < duration,
                ;
                assert((self.elapsed_ms as int) * (PROGRESS_SCALE as int) >= 0) by (nonlinear_arith);
            }
            wide as u32
        }
    }
}

/// Normalised progress of a transition, in thousandths, clamped to one.
pub open spec fn spec_progress_milli(t: ActiveTransition) -> int {
    let d = resolved_duration(t);
    if d == 0 || t.elapsed_ms >= d {
        PROGRESS_SCALE as int
    } else {
        (t.elapsed_ms as int) * (PROGRESS_SCALE as int) / (d as int)
    }
}

} // verus!
