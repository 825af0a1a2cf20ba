//! Pointer timing for hover documentation: the dwell that shows a card and
//! the grace period that hides one. What the pointer is over, and whether
//! two positions are the same hover target, the caller works out; the
//! timers and the decisions live here. Times are milliseconds.

use vstd::prelude::*;

verus! {

/// How long a shown card stays after the pointer leaves its symbol, so the
/// pointer can move into it.
pub const HOVER_HIDE_DELAY_MS: u64 = 300;

/// The pointer resting on a symbol: where, since when, and the caller's
/// record of what it rests on.
#[derive(Clone, Copy, Debug)]
pub struct Dwell<A> {
    pub anchor: A,
    pub line: usize,
    pub column: usize,
    pub started: u64,
}

/// The open hover request, as far as the timers care.
#[derive(Clone, Copy, Debug)]
pub struct HoverRequestInfo {
    /// Asked for from the keyboard, not by the pointer.
    pub keyboard: bool,
    /// The pointer is still over the request's symbol and position.
    pub pointer_on_it: bool,
}

/// What the pointer is doing, for `HoverTimers::pointer_moved`.
pub struct PointerState<A> {
    pub request: Option<HoverRequestInfo>,
    pub pointer_in_card: bool,
    pub card_shown: bool,
    /// Hover by pointer is allowed now (setting on, nothing in the way).
    pub mouse_allowed: bool,
    /// The symbol and position under the pointer, when it is over text.
    pub pointer: Option<(A, usize, usize)>,
    /// The current dwell rests on that same symbol and position.
    pub dwell_on_pointer: bool,
    pub now: u64,
}

/// What the timers ask the caller to do.
#[derive(Clone, Copy, PartialEq, Eq, Structural, Debug)]
pub enum HoverAction {
    Nothing,
    /// Dismiss the documentation shown or requested.
    Dismiss,
    /// Dismiss it, then report the pointer again: it may have settled on
    /// another symbol meanwhile.
    DismissAndRecheck,
    /// Ask for documentation at this position.
    Show { line: usize, column: usize },
}

/// The hover timers.
pub struct HoverTimers<A> {
    pub dwell: Option<Dwell<A>>,
    pub hide_at: Option<u64>,
}

pub open spec fn pointer_moved_spec<A>(t: HoverTimers<A>, p: PointerState<A>) -> (HoverTimers<A>, HoverAction) {
    if p.request matches Some(r) && r.keyboard {
        (HoverTimers { dwell: None, hide_at: None }, HoverAction::Nothing)
    } else if p.pointer_in_card {
        (HoverTimers { dwell: None, hide_at: None }, HoverAction::Nothing)
    } else if p.request matches Some(r) && r.pointer_on_it {
        (HoverTimers { hide_at: None, ..t }, HoverAction::Nothing)
    } else if p.request is Some && p.card_shown {
        (
            HoverTimers {
                hide_at: match t.hide_at {
                    Some(h) => Some(h),
                    None => Some((p.now + HOVER_HIDE_DELAY_MS) as u64),
                },
                ..t
            },
            HoverAction::Nothing,
        )
    } else {
        let dismissed = p.request is Some;
        let t1 = if dismissed {
            HoverTimers { dwell: None, hide_at: None }
        } else {
            t
        };
        let dwell = if p.mouse_allowed && p.pointer is Some {
            if !dismissed && t.dwell is Some && p.dwell_on_pointer {
                t.dwell
            } else {
                Some(
                    Dwell {
                        anchor: (p.pointer->0).0,
                        line: (p.pointer->0).1,
                        column: (p.pointer->0).2,
                        started: p.now,
                    },
                )
            }
        } else {
            None
        };
        (
            HoverTimers { dwell, ..t1 },
            if dismissed {
                HoverAction::Dismiss
            } else {
                HoverAction::Nothing
            },
        )
    }
}

/// What the timers read on a tick, for `HoverTimers::tick`.
pub struct TickState {
    /// Documentation is requested by the pointer.
    pub mouse_documentation: bool,
    /// A request is open and the symbol it was made for is gone.
    pub request_anchor_gone: bool,
    /// The dwell still rests on the symbol and position under the pointer.
    pub dwell_still_on_target: bool,
    pub mouse_allowed: bool,
    pub hover_delay_ms: u64,
    pub now: u64,
}

pub open spec fn tick_spec<A>(t: HoverTimers<A>, s: TickState) -> (HoverTimers<A>, HoverAction) {
    let t0 = if !s.mouse_documentation {
        HoverTimers { hide_at: None, ..t }
    } else {
        t
    };
    if s.request_anchor_gone {
        (HoverTimers { dwell: None, hide_at: None }, HoverAction::Dismiss)
    } else if t0.hide_at matches Some(h) && s.now >= h {
        (HoverTimers { dwell: None, hide_at: None }, HoverAction::DismissAndRecheck)
    } else {
        match t0.dwell {
            None => (t0, HoverAction::Nothing),
            Some(d) => if !s.dwell_still_on_target || !s.mouse_allowed {
                (HoverTimers { dwell: None, ..t0 }, HoverAction::Nothing)
            } else if s.now < d.started + s.hover_delay_ms {
                (t0, HoverAction::Nothing)
            } else {
                (HoverTimers { dwell: None, ..t0 }, HoverAction::Show { line: d.line, column: d.column })
            },
        }
    }
}

impl<A: Copy> HoverTimers<A> {
    pub fn new() -> (r: Self)
        ensures
            r.dwell is None,
            r.hide_at is None,
    {
        HoverTimers { dwell: None, hide_at: None }
    }

    /// The pointer moved (after hit testing). Moving within a symbol keeps
    /// its dwell; leaving a shown card's symbol starts a short grace period
    /// for entering the card; a keyboard request or a pointer inside the
    /// card stops both timers.
    pub fn pointer_moved(&mut self, p: PointerState<A>) -> (r: HoverAction)
        requires
            p.now + HOVER_HIDE_DELAY_MS <= u64::MAX,
        ensures
            (*final(self), r) == pointer_moved_spec(*old(self), p),
    {
        if let Some(r) = p.request {
            if r.keyboard {
                self.dwell = None;
                self.hide_at = None;
                return HoverAction::Nothing;
            }
        }
        if p.pointer_in_card {
            self.hide_at = None;
            self.dwell = None;
            return HoverAction::Nothing;
        }
        if let Some(r) = p.request {
            if r.pointer_on_it {
                self.hide_at = None;
                return HoverAction::Nothing;
            }
            if p.card_shown {
                if self.hide_at.is_none() {
                    self.hide_at = Some(p.now + HOVER_HIDE_DELAY_MS);
                }
                return HoverAction::Nothing;
            }
        }
        let dismissed = p.request.is_some();
        let keep = !dismissed && self.dwell.is_some() && p.dwell_on_pointer;
        if dismissed {
            self.dwell = None;
            self.hide_at = None;
        }
        if p.mouse_allowed {
            match p.pointer {
                Some((anchor, line, column)) => {
                    if !keep {
                        self.dwell = Some(Dwell { anchor, line, column, started: p.now });
                    }
                },
                None => {
                    self.dwell = None;
                },
            }
        } else {
            self.dwell = None;
        }
        if dismissed {
            HoverAction::Dismiss
        } else {
            HoverAction::Nothing
        }
    }

    /// A tick of the event loop: a request whose symbol is gone is
    /// dismissed; a grace period that ran out dismisses the card; a dwell
    /// that lasted the hover delay on the same target asks for
    /// documentation, once.
    pub fn tick(&mut self, s: TickState) -> (r: HoverAction)
        requires
            forall|d: Dwell<A>| old(self).dwell == Some(d) ==> d.started + s.hover_delay_ms <= u64::MAX,
        ensures
            (*final(self), r) == tick_spec(*old(self), s),
    {
        if !s.mouse_documentation {
            self.hide_at = None;
        }
        if s.request_anchor_gone {
            self.dwell = None;
            self.hide_at = None;
            return HoverAction::Dismiss;
        }
        if let Some(h) = self.hide_at {
            if s.now >= h {
                self.dwell = None;
                self.hide_at = None;
                return HoverAction::DismissAndRecheck;
            }
        }
        let d = match self.dwell {
            Some(d) => d,
            None => {
                return HoverAction::Nothing;
            },
        };
        if !s.dwell_still_on_target || !s.mouse_allowed {
            self.dwell = None;
            return HoverAction::Nothing;
        }
        if s.now < d.started + s.hover_delay_ms {
            return HoverAction::Nothing;
        }
        self.dwell = None;
        HoverAction::Show { line: d.line, column: d.column }
    }
}

/// A dwell asks for documentation at most once: after it fires, the next
/// tick has nothing to show until the pointer dwells again.
pub proof fn law_a_dwell_shows_documentation_once<A>(t: HoverTimers<A>, s: TickState, s2: TickState)
    requires
        tick_spec(t, s).1 is Show,
        !s2.request_anchor_gone,
        tick_spec(t, s).0.hide_at matches Some(h) ==> s2.now < h,
    ensures
        tick_spec(tick_spec(t, s).0, s2).1 == HoverAction::Nothing,
{
}

/// A keyboard request, or the pointer inside the card, stops both timers.
pub proof fn law_keyboard_and_card_stop_the_timers<A>(t: HoverTimers<A>, p: PointerState<A>)
    requires
        (p.request matches Some(r) && r.keyboard) || p.pointer_in_card,
    ensures
        pointer_moved_spec(t, p).0.dwell is None,
        pointer_moved_spec(t, p).0.hide_at is None,
        pointer_moved_spec(t, p).1 == HoverAction::Nothing,
{
}


/// What the window-level dwell reads of the editor's surfaces.
#[derive(Clone, Copy, Debug)]
pub struct DwellUi {
    pub has_modal: bool,
    /// A cursor-anchored popup is open.
    pub overlay_open: bool,
    /// That popup is the hover card.
    pub overlay_is_hover_card: bool,
    /// The pointer is over that popup's own panel.
    pub over_overlay: bool,
    /// The pointer is over editor text.
    pub over_editor_text: bool,
}

/// The pointer resting in the window: where (in whatever coordinates the
/// caller measures) and since when.
pub struct PointerDwell<A> {
    pub armed: Option<(A, u64)>,
}

/// Whether a significant pointer move dismisses the hover card: it is the
/// popup shown and the pointer left its panel.
pub open spec fn move_dismisses(ui: DwellUi) -> bool {
    ui.overlay_open && ui.overlay_is_hover_card && !ui.over_overlay
}

/// The dwell after a significant move to `at`: armed afresh, unless a modal
/// or a popup (one the move did not dismiss) is up.
pub open spec fn moved_spec<A>(ui: DwellUi, at: A, now: u64) -> Option<(A, u64)> {
    if !ui.has_modal && !(ui.overlay_open && !move_dismisses(ui)) {
        Some((at, now))
    } else {
        None
    }
}

/// Whether an armed dwell fires now: hover by pointer is on, nothing is in
/// the way, the pointer is over editor text, the delay has passed since the
/// dwell started, and the editor can map the position to text.
pub open spec fn dwell_fires(
    started: u64,
    enabled: bool,
    ui: DwellUi,
    delay_ms: u64,
    now: u64,
    can_locate: bool,
) -> bool {
    &&& enabled
    &&& !ui.has_modal && !ui.overlay_open
    &&& ui.over_editor_text
    &&& (if now >= started { now - started } else { 0 }) >= delay_ms
    &&& can_locate
}

impl<A> PointerDwell<A> {
    pub fn new() -> (r: Self)
        ensures
            r.armed is None,
    {
        PointerDwell { armed: None }
    }

    /// The pointer moved to `at`; `significant` says whether it moved far
    /// enough to count (the caller measures). Returns whether the hover card
    /// is to be dismissed. A small move changes nothing.
    pub fn moved(&mut self, significant: bool, at: A, ui: DwellUi, now: u64) -> (dismiss: bool)
        ensures
            !significant ==> !dismiss && final(self).armed == old(self).armed,
            significant ==> dismiss == move_dismisses(ui) && final(self).armed == moved_spec(ui, at, now),
    {
        if !significant {
            return false;
        }
        let dismiss = ui.overlay_open && ui.overlay_is_hover_card && !ui.over_overlay;
        let overlay_after = ui.overlay_open && !dismiss;
        self.armed = if !ui.has_modal && !overlay_after {
            Some((at, now))
        } else {
            None
        };
        dismiss
    }

    /// One tick: the position to show documentation at, when the dwell
    /// fires. A dwell fires once; one that does not fire stays armed.
    pub fn check(&mut self, enabled: bool, ui: DwellUi, delay_ms: u64, now: u64, can_locate: bool) -> (r: Option<A>)
        ensures
            match old(self).armed {
                None => r is None && final(self).armed is None,
                Some((at, started)) => if dwell_fires(started, enabled, ui, delay_ms, now, can_locate) {
                    r == Some(at) && final(self).armed is None
                } else {
                    r is None && final(self).armed == old(self).armed
                },
            },
    {
        let fires = match &self.armed {
            None => false,
            Some((_, started)) => {
                let elapsed = now.saturating_sub(*started);
                enabled && !ui.has_modal && !ui.overlay_open && ui.over_editor_text && elapsed >= delay_ms
                    && can_locate
            },
        };
        if fires {
            match self.armed.take() {
                Some((at, _)) => Some(at),
                None => None,
            }
        } else {
            None
        }
    }
}

/// No dwell arms while a modal is open, whatever the pointer does.
pub proof fn law_no_dwell_under_a_modal<A>(ui: DwellUi, at: A, now: u64)
    requires
        ui.has_modal,
    ensures
        moved_spec(ui, at, now) is None,
{
}

/// Moving within the hover card's own panel neither dismisses it nor arms
/// a new dwell; moving out of it dismisses it and, with no modal up, arms a
/// dwell where the pointer landed.
pub proof fn law_the_card_stays_while_the_pointer_is_in_it<A>(ui: DwellUi, at: A, now: u64)
    requires
        ui.overlay_open,
        ui.overlay_is_hover_card,
    ensures
        ui.over_overlay ==> !move_dismisses(ui) && moved_spec(ui, at, now) is None,
        !ui.over_overlay && !ui.has_modal ==> move_dismisses(ui) && moved_spec(ui, at, now) == Some((at, now)),
{
}

} // verus!
