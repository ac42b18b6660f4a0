use open_tab::release::{set_break_release, RoundReleaseTimes};

#[test]
fn release_sets_only_times_not_yet_set() {
    let mut rounds = vec![
        RoundReleaseTimes { feedback_release_time: None, silent_round_results_release_time: Some(5) },
        RoundReleaseTimes { feedback_release_time: Some(7), silent_round_results_release_time: None },
    ];
    let mut breaks = vec![None, Some(3)];
    set_break_release(&mut rounds, &mut breaks, 100);
    assert_eq!(rounds[0], RoundReleaseTimes { feedback_release_time: Some(100), silent_round_results_release_time: Some(5) });
    assert_eq!(rounds[1], RoundReleaseTimes { feedback_release_time: Some(7), silent_round_results_release_time: Some(100) });
    assert_eq!(breaks, vec![Some(100), Some(3)]);
}
