use vstd::prelude::*;

verus! {

// ── Timing ──────────────────────────────────────────────────
pub const FILE_POLL_INTERVAL_MS: u64 = 1000;
pub const TOOL_DONE_DELAY_MS: u64 = 300;
pub const PERMISSION_TIMER_DELAY_MS: u64 = 7000;
pub const TEXT_IDLE_DELAY_MS: u64 = 5000;
pub const STALE_ACTIVE_TIMEOUT_SECS: u64 = 30;
/// Agents with no activity for 5 minutes are removed.
pub const STALE_AGENT_REMOVE_SECS: u64 = 300;

// ── Display Truncation ──────────────────────────────────────
pub const BASH_COMMAND_DISPLAY_MAX_LENGTH: usize = 30;
pub const TASK_DESCRIPTION_DISPLAY_MAX_LENGTH: usize = 40;

// ── Grid & Layout ───────────────────────────────────────────
/// Terminal cells per tile.
pub const TILE_SIZE: u16 = 2;
pub const DEFAULT_COLS: u16 = 30;
pub const DEFAULT_ROWS: u16 = 15;

// ── Character Animation ─────────────────────────────────────
pub const WANDER_MOVES_BEFORE_REST_MIN: u32 = 3;
pub const WANDER_MOVES_BEFORE_REST_MAX: u32 = 6;

// ── Rendering ───────────────────────────────────────────────
/// 10 FPS render loop.
pub const TICK_RATE_MS: u64 = 100;

} // verus!
