//! The alert coordinator: a debounced presentation plan over the singleton
//! notification surface — always shake, show only what is hidden.

use vstd::prelude::*;

verus! {

/// The directives of one alert presentation, carried out in order by the
/// host shell: create the singleton surface if asked, emit the shake
/// signal, then show the surface if asked.
#[derive(Clone, Copy, PartialEq, Eq, Structural, Debug)]
pub struct AlertPlan {
    pub create_surface: bool,
    pub shake: bool,
    pub show: bool,
}

pub open spec fn spec_plan_alert(surface_exists: bool, surface_visible: bool) -> AlertPlan {
    AlertPlan {
        create_surface: !surface_exists,
        shake: true,
        show: !surface_exists || !surface_visible,
    }
}

/// Decide one alert presentation. The surface is created lazily, once; the
/// shake signal goes out on every presentation so rapid repeated triggers
/// still draw attention; the show request goes out only when the surface is
/// absent (a fresh surface starts hidden) or hidden, never when it is
/// already visible.
pub fn plan_alert(surface_exists: bool, surface_visible: bool) -> (p: AlertPlan)
    ensures
        p == spec_plan_alert(surface_exists, surface_visible),
        p.shake,
        p.create_surface == !surface_exists,
        p.show == (!surface_exists || !surface_visible),
{
    AlertPlan {
        create_surface: !surface_exists,
        shake: true,
        show: !surface_exists || !surface_visible,
    }
}

/// Debounce law: when a presentation leaves the surface visible and a
/// second presentation follows while it is still visible, the pair issues
/// exactly one show request — the second issues none — while both issue
/// their shake signal.
pub proof fn lemma_present_twice_while_visible(first_exists: bool)
    ensures
        spec_plan_alert(first_exists, false).shake,
        spec_plan_alert(first_exists, false).show,
        spec_plan_alert(true, true).shake,
        !spec_plan_alert(true, true).show,
{
}

} // verus!
