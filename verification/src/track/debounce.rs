use vstd::prelude::*;

verus! {

/// A raw change notification from the filesystem-watch primitive, with
/// the kind and the path it reports. "Notice" pre-events, rescans and
/// watcher errors carry no actionable path of their own.
pub enum WatchEvent {
    Create(String),
    Write(String),
    Chmod(String),
    Remove(String),
    Rename(String, String),
    NoticeWrite(String),
    NoticeRemove(String),
    Rescan,
    Error,
}

/// The path a significant event is about: the destination for a rename,
/// nothing for notice, rescan and error events, which are superseded by
/// the definitive kind that follows or carry no actionable path.
pub open spec fn path_of_interest(e: WatchEvent) -> Option<Seq<char>> {
    match e {
        WatchEvent::Create(p) => Some(p@),
        WatchEvent::Write(p) => Some(p@),
        WatchEvent::Chmod(p) => Some(p@),
        WatchEvent::Remove(p) => Some(p@),
        WatchEvent::Rename(_, p) => Some(p@),
        WatchEvent::NoticeWrite(_) => None,
        WatchEvent::NoticeRemove(_) => None,
        WatchEvent::Rescan => None,
        WatchEvent::Error => None,
    }
}

/// Extracts the path an event is about, if it has one.
pub fn get_path_from_event(event: &WatchEvent) -> (r: Option<String>)
    ensures
        match r {
            Some(p) => path_of_interest(*event) == Some(p@),
            None => path_of_interest(*event) is None,
        },
{
    match event {
        WatchEvent::Create(p) => Some(p.clone()),
        WatchEvent::Write(p) => Some(p.clone()),
        WatchEvent::Chmod(p) => Some(p.clone()),
        WatchEvent::Remove(p) => Some(p.clone()),
        WatchEvent::Rename(_, p) => Some(p.clone()),
        WatchEvent::NoticeWrite(_) => None,
        WatchEvent::NoticeRemove(_) => None,
        WatchEvent::Rescan => None,
        WatchEvent::Error => None,
    }
}

/// The default quiet window: a batch closes two seconds after its first
/// event.
pub const DEFAULT_QUIET_WINDOW_MILLIS: u64 = 2000;

/// The debouncer waits idle for a first event, then collects a burst
/// until the quiet window measured from that first event has elapsed.
pub enum DebouncePhase {
    Idle,
    Collecting { started_at_millis: u64 },
}

/// What the caller should do next: keep blocking for a first event, poll
/// briefly for stragglers, or hand the closed batch downstream.
pub enum DebounceAction {
    Wait,
    Poll,
    Flush(Vec<WatchEvent>),
}

/// The two-phase debounce state machine. The caller owns the clock and
/// the channel; the machine owns the policy, so the quiet-window timing
/// is testable without real waits.
pub struct Debouncer {
    pub window_millis: u64,
    pub phase: DebouncePhase,
    pub pending: Vec<WatchEvent>,
}

/// Nothing is pending while idle.
pub open spec fn debouncer_wf(d: Debouncer) -> bool {
    d.phase is Idle ==> d.pending@.len() == 0
}

impl Debouncer {
    /// A fresh, idle debouncer with the given quiet window.
    pub fn new(window_millis: u64) -> (r: Self)
        ensures
            debouncer_wf(r),
            r.window_millis == window_millis,
            r.phase is Idle,
            r.pending@.len() == 0,
    {
        Debouncer { window_millis, phase: DebouncePhase::Idle, pending: Vec::new() }
    }

    /// Feeds one observation: the current time and perhaps an event just
    /// received. While idle, a first event opens a batch at the current
    /// time. While collecting, any event joins the batch; once the time
    /// since the batch opened reaches the window, the whole batch is
    /// flushed and the machine goes idle.
    pub fn step(&mut self, now_millis: u64, event: Option<WatchEvent>) -> (r: DebounceAction)
        requires
            debouncer_wf(*old(self)),
        ensures
            debouncer_wf(*final(self)),
            final(self).window_millis == old(self).window_millis,
            match old(self).phase {
                DebouncePhase::Idle => match event {
                    Option::None => *final(self) == *old(self) && r is Wait,
                    Option::Some(e) => final(self).phase == (DebouncePhase::Collecting {
                        started_at_millis: now_millis,
                    }) && final(self).pending@ =~= seq![e] && r is Poll,
                },
                DebouncePhase::Collecting { started_at_millis: t0 } => {
                    let collected = match event {
                        Option::None => old(self).pending@,
                        Option::Some(e) => old(self).pending@.push(e),
                    };
                    if now_millis >= t0 && now_millis - t0 >= old(self).window_millis {
                        &&& final(self).phase is Idle
                        &&& final(self).pending@.len() == 0
                        &&& (match r {
                            DebounceAction::Flush(batch) => batch@ == collected,
                            _ => false,
                        })
                    } else {
                        &&& final(self).phase == old(self).phase
                        &&& final(self).pending@ == collected
                        &&& r is Poll
                    }
                },
            },
    {
        match self.phase {
            DebouncePhase::Idle => {
                match event {
                    Option::None => DebounceAction::Wait,
                    Option::Some(e) => {
                        self.pending.push(e);
                        self.phase = DebouncePhase::Collecting { started_at_millis: now_millis };
                        DebounceAction::Poll
                    },
                }
            },
            DebouncePhase::Collecting { started_at_millis: t0 } => {
                match event {
                    Option::None => {},
                    Option::Some(e) => {
                        self.pending.push(e);
                    },
                }
                if now_millis >= t0 && now_millis - t0 >= self.window_millis {
                    let mut batch: Vec<WatchEvent> = Vec::new();
                    core::mem::swap(&mut batch, &mut self.pending);
                    self.phase = DebouncePhase::Idle;
                    DebounceAction::Flush(batch)
                } else {
                    DebounceAction::Poll
                }
            },
        }
    }
}

} // verus!
