use rover_core::history::History;
use rover_core::parameters::ParameterValue;
use rover_core::parameters::boolean;
use rover_core::parameters::find_equals;
use rover_core::parameters::interpret;
use rover_core::parameters::parameter_value;
use rover_core::parameters::same_text;
use rover_core::parameters::split_parameter;
use rover_core::application::FunctionApplication;
use rover_core::behavior::AlwaysFail;
use rover_core::behavior::AlwaysRunning;
use rover_core::behavior::AlwaysSucceed;
use rover_core::behavior::Behavior;
use rover_core::behavior::CancelSafe;
use rover_core::behavior::EternalBehavior;
use rover_core::behavior::EternalStatus;
use rover_core::behavior::FallibleBehavior;
use rover_core::behavior::FallibleStatus;
use rover_core::behavior::InfallibleBehavior;
use rover_core::behavior::InfallibleStatus;
use rover_core::behavior::IntoRon;
use rover_core::behavior::RunOnce;
use rover_core::behavior::Status;
use rover_core::localizer::ancestor;
use rover_core::localizer::ancestor_pair;
use rover_core::localizer::lightest;
use rover_core::localizer::observed;
use rover_core::localizer::plan_update;
use rover_core::localizer::react;
use rover_core::localizer::Dimension;
use rover_core::localizer::Phase;
use rover_core::localizer::Reaction;
use rover_core::localizer::Update;
use rover_core::localizer::Wake;
use rover_core::signal::Signal;
use rover_core::supervisor::RunOptions;
use rover_core::supervisor::Supervisor;
use rover_core::supervisor::SupervisorAction;
use rover_core::supervisor::SupervisorEvent;
use rover_core::tuple::StaticIndexable;
use std::sync::atomic::AtomicU64;
use std::sync::atomic::Ordering;
use std::sync::Arc;
use std::sync::Mutex;

#[test]
fn always_succeed_succeeds() {
    let mut board = 5u8;
    assert!(matches!(Behavior::<u8, ()>::run(&mut AlwaysSucceed, &mut board), Status::Success));
    assert!(matches!(
        InfallibleBehavior::<u8, ()>::run_infallible(&mut AlwaysSucceed, &mut board),
        InfallibleStatus::Success
    ));
    assert_eq!(board, 5);
    AlwaysSucceed.reset();
}

#[test]
fn always_fail_fails() {
    let mut board = 5u8;
    assert!(matches!(Behavior::<u8, ()>::run(&mut AlwaysFail, &mut board), Status::Failure));
    assert!(matches!(
        FallibleBehavior::<u8, ()>::run_fallible(&mut AlwaysFail, &mut board),
        FallibleStatus::Failure
    ));
    assert_eq!(board, 5);
    AlwaysFail.reset();
}

#[test]
fn always_running_reports_the_default() {
    let mut board = 5u8;
    assert!(matches!(Behavior::<u8, u32>::run(&mut AlwaysRunning, &mut board), Status::Running(0)));
    assert!(matches!(
        InfallibleBehavior::<u8, u32>::run_infallible(&mut AlwaysRunning, &mut board),
        InfallibleStatus::Running(0)
    ));
    assert!(matches!(
        FallibleBehavior::<u8, u32>::run_fallible(&mut AlwaysRunning, &mut board),
        FallibleStatus::Running(0)
    ));
    assert!(matches!(
        EternalBehavior::<u8, String>::run_eternal(&mut AlwaysRunning, &mut board),
        EternalStatus(s) if s.is_empty()
    ));
    assert_eq!(board, 5);
    AlwaysRunning.reset();
}

#[test]
fn eternal_status_defaults_to_the_default_value() {
    assert!(matches!(EternalStatus::<u16>::default(), EternalStatus(0)));
}

#[test]
fn leaves_describe_themselves_in_ron() {
    assert_eq!(AlwaysSucceed.into_ron(), ron::Value::String("AlwaysSucceed".to_string()));
    assert_eq!(AlwaysFail.into_ron(), ron::Value::String("AlwaysFail".to_string()));
    assert_eq!(AlwaysRunning.into_ron(), ron::Value::String("AlwaysRunning".to_string()));
}

#[test]
fn run_once_alternates() {
    let calls = AtomicU64::new(0);
    let mut once = RunOnce::from(|| calls.fetch_add(1, Ordering::SeqCst) + 40);
    let mut board = ();
    assert!(matches!(Behavior::<(), u64>::run(&mut once, &mut board), Status::Running(40)));
    assert!(matches!(Behavior::<(), u64>::run(&mut once, &mut board), Status::Success));
    assert!(matches!(Behavior::<(), u64>::run(&mut once, &mut board), Status::Running(41)));
    assert!(matches!(
        InfallibleBehavior::<(), u64>::run_infallible(&mut once, &mut board),
        InfallibleStatus::Success
    ));
    assert!(matches!(
        InfallibleBehavior::<(), u64>::run_infallible(&mut once, &mut board),
        InfallibleStatus::Running(42)
    ));
    assert_eq!(calls.load(Ordering::SeqCst), 3);
}

#[test]
fn run_once_reset_runs_the_function_again() {
    let calls = AtomicU64::new(0);
    let mut once = RunOnce::from(|| calls.fetch_add(1, Ordering::SeqCst));
    let mut board = ();
    assert!(matches!(Behavior::<(), u64>::run(&mut once, &mut board), Status::Running(0)));
    once.reset();
    assert!(matches!(Behavior::<(), u64>::run(&mut once, &mut board), Status::Running(1)));
}

#[test]
fn tuples_are_indexed_by_type() {
    let one = (7u8,);
    let two = (7u8, "b");
    let three = (7u8, "b", 3.5f64);
    let four = (7u8, "b", 3.5f64, 'd');
    assert_eq!(*StaticIndexable::<0>::get(&one), 7);
    assert_eq!(*StaticIndexable::<0>::get(&two), 7);
    assert_eq!(*StaticIndexable::<1>::get(&two), "b");
    assert_eq!(*StaticIndexable::<0>::get(&three), 7);
    assert_eq!(*StaticIndexable::<1>::get(&three), "b");
    assert_eq!(*StaticIndexable::<2>::get(&three), 3.5);
    assert_eq!(*StaticIndexable::<0>::get(&four), 7);
    assert_eq!(*StaticIndexable::<1>::get(&four), "b");
    assert_eq!(*StaticIndexable::<2>::get(&four), 3.5);
    assert_eq!(*StaticIndexable::<3>::get(&four), 'd');
}

type Receiver = Box<dyn Fn(u32) + Send + Sync>;

#[test]
fn signal_calls_receivers_in_order_of_connection() {
    let log = Arc::new(Mutex::new(Vec::new()));
    let mut signal: Signal<u32, Receiver, Receiver> = Signal::default();
    signal.emit_blocking(1);
    for tag in ["a", "b", "c"] {
        let log = log.clone();
        signal.connect_to(Box::new(move |msg| log.lock().unwrap().push((tag, msg))));
    }
    signal.emit_blocking(7);
    signal.emit_blocking(8);
    assert_eq!(
        *log.lock().unwrap(),
        vec![("a", 7), ("b", 7), ("c", 7), ("a", 8), ("b", 8), ("c", 8)]
    );
}

#[test]
fn signal_keeps_waited_for_receivers_apart() {
    let log = Arc::new(Mutex::new(Vec::new()));
    let mut signal: Signal<u32, Receiver, Receiver> = Signal::default();
    assert!(signal.async_fns().is_empty());
    for tag in ["x", "y"] {
        let log = log.clone();
        signal.connect_to_async(Box::new(move |msg| log.lock().unwrap().push((tag, msg))));
    }
    signal.emit_blocking(1);
    assert!(log.lock().unwrap().is_empty());
    assert_eq!(signal.async_fns().len(), 2);
    for receiver in signal.async_fns() {
        receiver(3);
    }
    assert_eq!(*log.lock().unwrap(), vec![("x", 3), ("y", 3)]);
}

#[test]
fn run_options_default_to_logs_txt() {
    let options = RunOptions::default();
    assert_eq!(options.log_file, None);
    assert_eq!(options.log_path(), "logs.txt");
    let options = RunOptions { log_file: Some("rover.log".to_string()) };
    assert_eq!(options.log_path(), "rover.log");
}

#[test]
fn supervisor_reports_and_goes_on() {
    let mut supervisor = Supervisor::new();
    assert!(supervisor.listens_for_interrupt());
    assert_eq!(supervisor.step(SupervisorEvent::TaskSucceeded), SupervisorAction::Continue);
    assert_eq!(supervisor.step(SupervisorEvent::TaskFailed), SupervisorAction::ReportFailure);
    assert_eq!(supervisor.step(SupervisorEvent::TaskPanicked), SupervisorAction::ReportPanic);
    assert_eq!(supervisor, Supervisor::new());
}

#[test]
fn supervisor_stops_when_all_tasks_are_done() {
    let mut supervisor = Supervisor::new();
    assert_eq!(supervisor.step(SupervisorEvent::AllTasksDone), SupervisorAction::Shutdown);
    assert!(supervisor.stopped);
    assert!(!supervisor.listens_for_interrupt());
    assert_eq!(supervisor.step(SupervisorEvent::TaskFailed), SupervisorAction::Shutdown);
}

#[test]
fn supervisor_stops_on_interrupt() {
    let mut supervisor = Supervisor::new();
    assert_eq!(supervisor.step(SupervisorEvent::Interrupted), SupervisorAction::Shutdown);
    assert!(supervisor.stopped);
}

#[test]
fn supervisor_stops_listening_after_a_failed_interrupt() {
    let mut supervisor = Supervisor::new();
    assert_eq!(supervisor.step(SupervisorEvent::InterruptFailed), SupervisorAction::ReportInterruptFailure);
    assert!(supervisor.ctrl_c_failed);
    assert!(!supervisor.listens_for_interrupt());
    assert_eq!(supervisor.step(SupervisorEvent::InterruptFailed), SupervisorAction::Continue);
    assert_eq!(supervisor.step(SupervisorEvent::Interrupted), SupervisorAction::Continue);
    assert_eq!(supervisor.step(SupervisorEvent::TaskFailed), SupervisorAction::ReportFailure);
    assert_eq!(supervisor.step(SupervisorEvent::AllTasksDone), SupervisorAction::Shutdown);
}

#[test]
fn localizer_phases() {
    assert_eq!(react(Phase::Initializing, Wake::Start), (Phase::Running, Reaction::Seed));
    assert_eq!(react(Phase::Initializing, Wake::Imu), (Phase::Initializing, Reaction::Ignore));
    assert_eq!(react(Phase::Running, Wake::Recalibrate), (Phase::Recalibrating, Reaction::DropWeights));
    assert_eq!(react(Phase::Running, Wake::Timeout), (Phase::Running, Reaction::Propagate));
    for wake in [Wake::Imu, Wake::Position, Wake::Velocity, Wake::Orientation] {
        assert_eq!(react(Phase::Running, wake), (Phase::Running, Reaction::ObserveAndPropagate));
        assert_eq!(react(Phase::Recalibrating, wake), (Phase::Recalibrating, Reaction::Ignore));
    }
    assert_eq!(react(Phase::Running, Wake::Start), (Phase::Running, Reaction::Ignore));
    assert_eq!(react(Phase::Running, Wake::Recalibrated), (Phase::Running, Reaction::Ignore));
    assert_eq!(react(Phase::Recalibrating, Wake::Recalibrated), (Phase::Running, Reaction::Seed));
    assert_eq!(react(Phase::Recalibrating, Wake::Recalibrate), (Phase::Recalibrating, Reaction::Ignore));
}

#[test]
fn streams_update_their_dimensions() {
    assert_eq!(observed(Wake::Imu), vec![Dimension::LinearAcceleration, Dimension::AngularVelocity]);
    assert_eq!(observed(Wake::Position), vec![Dimension::Position]);
    assert_eq!(observed(Wake::Velocity), vec![Dimension::LinearVelocity]);
    assert_eq!(observed(Wake::Orientation), vec![Dimension::Orientation]);
    assert!(observed(Wake::Timeout).is_empty());
    assert!(observed(Wake::Recalibrate).is_empty());
    assert!(observed(Wake::Start).is_empty());
}

#[test]
fn update_plans() {
    assert_eq!(plan_update(true, false), Update::Overwrite);
    assert_eq!(plan_update(true, true), Update::Overwrite);
    assert_eq!(plan_update(false, true), Update::Undeprive);
    assert_eq!(plan_update(false, false), Update::Reweigh);
}

#[test]
fn ancestor_is_the_last_running_weight_at_or_below_the_sample() {
    let table = vec![0u64, 10, 10, 25, 90];
    assert_eq!(ancestor(&table, 0), Some(0));
    assert_eq!(ancestor(&table, 9), Some(0));
    assert_eq!(ancestor(&table, 10), Some(2));
    assert_eq!(ancestor(&table, 24), Some(2));
    assert_eq!(ancestor(&table, 25), Some(3));
    assert_eq!(ancestor(&table, 1000), Some(4));
    assert_eq!(ancestor(&vec![5, 6], 4), None);
    assert_eq!(ancestor(&vec![], 4), None);
}

#[test]
fn ancestor_orders_weights_as_their_bits() {
    let weights = [0.25f32, 0.5, 0.125, 0.125];
    let mut running = 0.0f32;
    let table: Vec<u64> = weights
        .iter()
        .map(|w| {
            let before = running;
            running += w;
            before.to_bits() as u64
        })
        .collect();
    let pick = |u: f32| ancestor(&table, u.to_bits() as u64);
    assert_eq!(pick(0.0), Some(0));
    assert_eq!(pick(0.2), Some(0));
    assert_eq!(pick(0.25), Some(1));
    assert_eq!(pick(0.8), Some(2));
    assert_eq!(pick(0.9), Some(3));
}

#[test]
fn lightest_picks_the_lowest_weights() {
    assert_eq!(lightest(&vec![5, 1, 4, 1, 9], 3), vec![1, 3, 2]);
    assert_eq!(lightest(&vec![5, 1, 4, 1, 9], 0), Vec::<usize>::new());
    assert_eq!(lightest(&vec![5, 1, 4, 1, 9], 5), vec![1, 3, 2, 0, 4]);
    assert_eq!(lightest(&vec![5, 1, 4, 1, 9], 50), vec![1, 3, 2, 0, 4]);
    assert_eq!(lightest(&vec![], 3), Vec::<usize>::new());
    assert_eq!(lightest(&vec![3, 2, 1], 1), vec![2]);
}

#[test]
fn undeprivation_moves_twenty_of_sixty_four() {
    let weights: Vec<u64> = (0..64u64).map(|i| (i * 37) % 64).collect();
    let count = (64.0f32 * 0.3).ceil() as usize;
    assert_eq!(count, 20);
    let chosen = lightest(&weights, count);
    assert_eq!(chosen.len(), 20);
    let mut seen = chosen.clone();
    seen.sort();
    seen.dedup();
    assert_eq!(seen.len(), 20);
    assert!(chosen.iter().all(|i| weights[*i] < 20));
    assert!(chosen.windows(2).all(|p| weights[p[0]] < weights[p[1]]));
}

struct Blink {
    times: u32,
}

impl FunctionApplication for Blink {
    const APP_NAME: &'static str = "blink";
    const DESCRIPTION: &'static str = "Blinks a light";
    type Context = Arc<Mutex<Vec<u32>>>;

    fn spawn(self, context: Self::Context) {
        context.lock().unwrap().push(self.times);
    }
}

#[test]
fn applications_carry_name_and_description() {
    assert_eq!(Blink::APP_NAME, "blink");
    assert_eq!(Blink::DESCRIPTION, "Blinks a light");
    let context = Arc::new(Mutex::new(Vec::new()));
    Blink { times: 3 }.spawn(context.clone());
    assert_eq!(*context.lock().unwrap(), vec![3]);
}

#[test]
fn history_keeps_the_latest() {
    let mut history = History::new(3);
    assert_eq!(history.capacity(), 3);
    assert_eq!(history.values(), Vec::<f32>::new());
    for (i, v) in [1.0f32, 2.0, 3.0, 4.0, 5.0].into_iter().enumerate() {
        history.push(v);
        assert_eq!(history.len(), (i + 1).min(3));
    }
    assert_eq!(history.values(), vec![3.0, 4.0, 5.0]);
}

#[test]
fn history_of_no_capacity_keeps_nothing() {
    let mut history = History::new(0);
    history.push(1u8);
    history.push(2u8);
    assert_eq!(history.len(), 0);
    assert!(history.values().is_empty());
}

#[test]
fn parameters_split_at_the_first_equals() {
    assert_eq!(split_parameter("speed=3"), Some(("speed".to_string(), "3".to_string())));
    assert_eq!(split_parameter("a=b=c"), Some(("a".to_string(), "b=c".to_string())));
    assert_eq!(split_parameter("=x"), Some((String::new(), "x".to_string())));
    assert_eq!(split_parameter("x="), Some(("x".to_string(), String::new())));
    assert_eq!(split_parameter("größe=12"), Some(("größe".to_string(), "12".to_string())));
    assert_eq!(split_parameter("no value"), None);
    assert_eq!(split_parameter(""), None);
    assert_eq!(find_equals("größe=12"), Some(5));
    assert_eq!(find_equals("none"), None);
}

#[test]
fn parameter_values_are_booleans_then_integers_then_text() {
    assert!(matches!(parameter_value("true"), ParameterValue::Boolean(true)));
    assert!(matches!(parameter_value("false"), ParameterValue::Boolean(false)));
    assert!(matches!(parameter_value("42"), ParameterValue::Integer(42)));
    assert!(matches!(parameter_value("-7"), ParameterValue::Integer(-7)));
    assert!(matches!(parameter_value("+7"), ParameterValue::Integer(7)));
    assert!(matches!(parameter_value("9223372036854775807"), ParameterValue::Integer(i64::MAX)));
    assert!(matches!(parameter_value("9223372036854775808"), ParameterValue::Text(t) if t == "9223372036854775808"));
    assert!(matches!(parameter_value("1.5"), ParameterValue::Text(t) if t == "1.5"));
    assert!(matches!(parameter_value("True"), ParameterValue::Text(t) if t == "True"));
    assert!(matches!(parameter_value(""), ParameterValue::Text(t) if t.is_empty()));
    assert_eq!(boolean("true"), Some(true));
    assert_eq!(boolean("false"), Some(false));
    assert_eq!(boolean("truer"), None);
    assert_eq!(boolean("tru"), None);
    assert!(same_text("abc", "abc"));
    assert!(!same_text("abc", "abd"));
    assert!(!same_text("abc", "ab"));
    assert!(matches!(interpret(Some(true), Some(1), "x".to_string()), ParameterValue::Boolean(true)));
    assert!(matches!(interpret(None, Some(1), "x".to_string()), ParameterValue::Integer(1)));
    assert!(matches!(interpret(None, None, "x".to_string()), ParameterValue::Text(t) if t == "x"));
}

#[test]
fn ancestor_pairs_need_both_samples_to_select() {
    let first = vec![0u64, 10, 20];
    let second = vec![5u64, 6];
    assert_eq!(ancestor_pair(&first, 15, &second, 5), Some((1, 0)));
    assert_eq!(ancestor_pair(&first, 25, &second, 100), Some((2, 1)));
    assert_eq!(ancestor_pair(&first, 15, &second, 4), None);
    assert_eq!(ancestor_pair(&second, 4, &first, 15), None);
    assert_eq!(ancestor_pair(&vec![], 4, &first, 15), None);
}
