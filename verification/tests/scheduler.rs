use raytracer::scheduler::{Admission, TileScheduler};

#[test]
fn new_scheduler_has_launched_nothing() {
    let s = TileScheduler::new(247, 12);
    assert_eq!(s, TileScheduler { total: 247, launched: 0, in_flight: 0, max_jobs: 12 });
    assert_eq!(s.running(), 0);
}

#[test]
fn launches_up_to_the_ceiling_then_waits() {
    let mut s = TileScheduler::new(5, 2);
    assert_eq!(s.next_action(), Admission::Launch(0));
    assert_eq!(s.next_action(), Admission::Launch(1));
    assert_eq!(s.running(), 2);
    assert_eq!(s.next_action(), Admission::Wait);
    assert_eq!(s.next_action(), Admission::Wait);
    assert_eq!(s, TileScheduler { total: 5, launched: 2, in_flight: 2, max_jobs: 2 });
}

#[test]
fn a_finished_task_makes_room() {
    let mut s = TileScheduler::new(5, 2);
    s.next_action();
    s.next_action();
    s.task_finished();
    assert_eq!(s.running(), 1);
    assert_eq!(s.next_action(), Admission::Launch(2));
    assert_eq!(s.next_action(), Admission::Wait);
}

#[test]
fn whole_run_hands_out_each_tile_once_in_order() {
    let mut s = TileScheduler::new(7, 3);
    let mut launched = Vec::new();
    let mut most_running = 0;
    let mut steps = 0;
    loop {
        steps += 1;
        assert!(steps < 100);
        match s.next_action() {
            Admission::Launch(i) => launched.push(i),
            Admission::Wait => {
                assert!(s.running() > 0);
                s.task_finished();
            }
            Admission::Finished => break,
        }
        assert!(s.running() <= 3);
        most_running = most_running.max(s.running());
    }
    assert_eq!(launched, vec![0, 1, 2, 3, 4, 5, 6]);
    assert_eq!(most_running, 3);
    assert_eq!(s, TileScheduler { total: 7, launched: 7, in_flight: 0, max_jobs: 3 });
    assert_eq!(s.next_action(), Admission::Finished);
}

#[test]
fn waits_for_the_last_tasks_before_finishing() {
    let mut s = TileScheduler::new(2, 12);
    assert_eq!(s.next_action(), Admission::Launch(0));
    assert_eq!(s.next_action(), Admission::Launch(1));
    assert_eq!(s.next_action(), Admission::Wait);
    s.task_finished();
    assert_eq!(s.next_action(), Admission::Wait);
    s.task_finished();
    assert_eq!(s.next_action(), Admission::Finished);
}

#[test]
fn nothing_to_render_is_finished_at_once() {
    let mut s = TileScheduler::new(0, 12);
    assert_eq!(s.next_action(), Admission::Finished);
    assert_eq!(s.running(), 0);
}

#[test]
fn a_ceiling_of_zero_admits_nothing() {
    let mut s = TileScheduler::new(3, 0);
    assert_eq!(s.next_action(), Admission::Wait);
    assert_eq!(s.next_action(), Admission::Wait);
    assert_eq!(s.running(), 0);
    assert_eq!(s, TileScheduler { total: 3, launched: 0, in_flight: 0, max_jobs: 0 });
}

#[test]
fn a_ceiling_of_one_runs_tiles_one_after_another() {
    let mut s = TileScheduler::new(3, 1);
    assert_eq!(s.next_action(), Admission::Launch(0));
    assert_eq!(s.next_action(), Admission::Wait);
    s.task_finished();
    assert_eq!(s.next_action(), Admission::Launch(1));
    s.task_finished();
    assert_eq!(s.next_action(), Admission::Launch(2));
    s.task_finished();
    assert_eq!(s.next_action(), Admission::Finished);
}
