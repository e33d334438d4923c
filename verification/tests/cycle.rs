use personal_site::cycle::{cycle_step, next_index, CycleEvent, CyclePhase, CycleStep};

#[test]
fn intro_holds_the_cycle() {
    for p in [CyclePhase::Hold, CyclePhase::Exit, CyclePhase::Enter] {
        assert_eq!(
            cycle_step(p, CycleEvent::Intro),
            CycleStep { phase: CyclePhase::Hold, restart_clock: true, swap: false }
        );
    }
}

#[test]
fn running_phase_stays_until_it_expires() {
    let s = cycle_step(CyclePhase::Exit, CycleEvent::Running { expired: false });
    assert_eq!(s, CycleStep { phase: CyclePhase::Exit, restart_clock: false, swap: false });
}

#[test]
fn expired_phases_go_round_and_swap_once() {
    let mut p = CyclePhase::Hold;
    let mut swaps = 0;
    let mut seen = Vec::new();
    for _ in 0..3 {
        let s = cycle_step(p, CycleEvent::Running { expired: true });
        assert!(s.restart_clock);
        if s.swap {
            swaps += 1;
            assert_eq!(p, CyclePhase::Exit);
        }
        p = s.phase;
        seen.push(p);
    }
    assert_eq!(seen, vec![CyclePhase::Exit, CyclePhase::Enter, CyclePhase::Hold]);
    assert_eq!(swaps, 1);
}

#[test]
fn next_index_wraps_round() {
    assert_eq!(next_index(0, 3), 1);
    assert_eq!(next_index(2, 3), 0);
    assert_eq!(next_index(0, 1), 0);
    assert_eq!(next_index(7, 3), 2);
}
