use nail_agent::timer::Timer;

#[test]
fn a_timer_keeps_its_label_and_measures_forward() {
    let t = Timer::start("load");
    assert_eq!(t.label(), "load");
    let a = t.lap();
    let b = t.stop();
    assert!(b >= a);
}
