//! Which application windows to open and close. The window system itself is
//! driven by the caller; this module decides, from which windows are open,
//! what has to be done.
use vstd::prelude::*;

verus! {

/// Which of the application's three windows are open.
#[derive(Clone, Copy, Debug, PartialEq, Eq, Structural)]
pub struct WindowState {
    pub start_window: bool,
    pub main_window: bool,
    pub password_window: bool,
}

/// The steps that signing out takes.
#[derive(Clone, Copy, Debug, PartialEq, Eq, Structural)]
pub struct SignOutPlan {
    pub reopen_start_window: bool,
    pub close_main_window: bool,
}

/// The steps that closing the start-up windows takes.
#[derive(Clone, Copy, Debug, PartialEq, Eq, Structural)]
pub struct ClosePlan {
    pub close_password_window: bool,
    pub close_start_window: bool,
}

/// Signing out reopens the start window if it is closed and closes the
/// main window if it is open.
pub fn sign_out_plan(state: WindowState) -> (plan: SignOutPlan)
    ensures
        plan.reopen_start_window == !state.start_window,
        plan.close_main_window == state.main_window,
{
    SignOutPlan { reopen_start_window: !state.start_window, close_main_window: state.main_window }
}

/// Leaving the start-up screens closes the password window and the start
/// window, each if it is open.
pub fn close_windows_plan(state: WindowState) -> (plan: ClosePlan)
    ensures
        plan.close_password_window == state.password_window,
        plan.close_start_window == state.start_window,
{
    ClosePlan { close_password_window: state.password_window, close_start_window: state.start_window }
}

/// Whether the password window is open.
pub fn is_password_open(state: WindowState) -> (open: bool)
    ensures
        open == state.password_window,
{
    state.password_window
}

/// The windows open after signing out, when every step succeeds.
pub open spec fn after_sign_out(state: WindowState, plan: SignOutPlan) -> WindowState {
    WindowState {
        start_window: state.start_window || plan.reopen_start_window,
        main_window: state.main_window && !plan.close_main_window,
        password_window: state.password_window,
    }
}

/// The windows open after opening the main window and closing the
/// start-up windows, when every step succeeds.
pub open spec fn after_open_main(state: WindowState, plan: ClosePlan) -> WindowState {
    WindowState {
        start_window: state.start_window && !plan.close_start_window,
        main_window: true,
        password_window: state.password_window && !plan.close_password_window,
    }
}

/// After signing out, the start window is open and the main window closed.
pub proof fn lemma_sign_out_shows_start(state: WindowState, plan: SignOutPlan)
    requires
        plan.reopen_start_window == !state.start_window,
        plan.close_main_window == state.main_window,
    ensures
        after_sign_out(state, plan).start_window,
        !after_sign_out(state, plan).main_window,
{
}

/// After opening the main window, it is the only one of the three open.
pub proof fn lemma_open_main_closes_start(state: WindowState, plan: ClosePlan)
    requires
        plan.close_password_window == state.password_window,
        plan.close_start_window == state.start_window,
    ensures
        after_open_main(state, plan) == (WindowState { start_window: false, main_window: true, password_window: false }),
{
}

} // verus!
