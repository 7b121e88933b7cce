use scoreboard_rs::clock::{system_millis, ScoreBoardClock, ScoreBoardClockClient};

/// Hands every announcement to every client's channel, as the ticking task does.
fn deliver(clock: &mut ScoreBoardClock) {
    let times = clock.take_announcements();
    for t in times {
        for (tx, t) in clock.time_sends(t) {
            let _ = tx.send(t);
        }
    }
}

#[test]
fn new_clock_runs_from_the_wall_time() {
    let clock = ScoreBoardClock::new(1_000);
    assert!(clock.is_running());
    assert_eq!(clock.get_current_time(), 1_000);
    assert_eq!(clock.get_last_rewind(), 0);
}

#[test]
fn tick_shows_wall_time_minus_offset() {
    let mut clock = ScoreBoardClock::new(1_000);
    assert_eq!(clock.update_time(1_250), Some(250));
    assert_eq!(clock.get_current_time(), 250);
}

#[test]
fn stopped_clock_ignores_ticks() {
    let mut clock = ScoreBoardClock::new(1_000);
    assert_eq!(clock.stop(1_100), Some(100));
    assert!(!clock.is_running());
    assert_eq!(clock.update_time(5_000), None);
    assert_eq!(clock.get_current_time(), 100);
    assert_eq!(clock.stop(6_000), None);
    assert_eq!(clock.get_current_time(), 100);
}

#[test]
fn start_with_catch_up_continues_from_the_shown_time() {
    let mut clock = ScoreBoardClock::new(1_000);
    clock.stop(1_100);
    clock.start(5_000, true);
    assert!(clock.is_running());
    assert_eq!(clock.update_time(5_030), Some(130));
}

#[test]
fn start_without_catch_up_counts_the_stopped_time() {
    let mut clock = ScoreBoardClock::new(1_000);
    clock.stop(1_100);
    clock.start(5_000, false);
    assert_eq!(clock.update_time(5_030), Some(4_030));
}

#[test]
fn advance_moves_the_time_forward() {
    let mut clock = ScoreBoardClock::new(1_000);
    clock.stop(1_100);
    assert_eq!(clock.advance(400), 500);
    assert_eq!(clock.get_current_time(), 500);
}

#[test]
fn rewind_records_the_amount_and_shifts_the_offset() {
    let mut clock = ScoreBoardClock::new(1_000);
    clock.update_time(1_500);
    clock.rewind_to(200);
    assert_eq!(clock.get_last_rewind(), 300);
    assert_eq!(clock.get_current_time(), 500);
    // the offset went from 1000 to 700
    assert_eq!(clock.update_time(1_500), Some(800));
}

#[test]
fn registered_client_receives_the_ticks() {
    let mut clock = ScoreBoardClock::new(1_000);
    let mut rx = clock.register_client(ScoreBoardClockClient::Test);
    clock.update_time(1_200);
    clock.advance(50);
    deliver(&mut clock);
    assert_eq!(rx.try_recv().ok(), Some(200));
    assert_eq!(rx.try_recv().ok(), Some(250));
    assert!(rx.try_recv().is_err());
}

#[test]
fn second_registration_keeps_the_first_channel() {
    let mut clock = ScoreBoardClock::new(1_000);
    let mut first = clock.register_client(ScoreBoardClockClient::Test);
    let mut second = clock.register_client(ScoreBoardClockClient::Test);
    clock.update_time(1_010);
    deliver(&mut clock);
    assert_eq!(first.try_recv().ok(), Some(10));
    assert!(second.try_recv().is_err());
}

#[test]
fn wall_clock_is_after_2020() {
    assert!(system_millis() > 1_577_836_800_000);
    assert!(ScoreBoardClock::get_current_walltime() > 1_577_836_800_000);
}

#[test]
fn test_timer_works() {
    let mut clock = ScoreBoardClock::new(system_millis());
    let mut rx = clock.register_client(ScoreBoardClockClient::Test);
    loop {
        clock.update_time(system_millis());
        deliver(&mut clock);
        if let Ok(s) = rx.try_recv() {
            if s >= 1000 {
                break;
            }
        }
    }
}

#[test]
fn every_registered_client_gets_the_tick_and_the_advance() {
    let mut clock = ScoreBoardClock::new(1_000);
    let mut rx = clock.register_client(ScoreBoardClockClient::Test);
    clock.stop(1_040);
    clock.advance(60);
    assert_eq!(clock.update_time(9_999), None);
    assert_eq!(clock.take_announcements(), vec![40, 100]);
    assert!(clock.take_announcements().is_empty());
    clock.update_clients(5);
    deliver(&mut clock);
    assert_eq!(rx.try_recv().ok(), Some(5));
    assert!(rx.try_recv().is_err());
    assert_eq!(clock.get_current_time(), 100);
    assert_eq!(clock.time_sends(7).len(), 1);
}
