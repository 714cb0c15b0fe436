use cgolrs::console::{ConsoleCommand, ConsoleRender, Key};
use cgolrs::options::{fill_cell, Args, FillMode, Given};
use cgolrs::stats::{due, CsvRecord, Recorder, SimpleRecord, SwitchRecorder};
use cgolrs::{GameOfLife, Pos2};
use std::time::{Duration, Instant};

fn cells(points: &[(i32, i32)]) -> Vec<Pos2> {
    points.iter().map(|&(x, y)| Pos2 { x, y }).collect()
}

/// Lets the given milliseconds pass.
fn wait(millis: u64) {
    let start = Instant::now();
    while start.elapsed() < Duration::from_millis(millis) {
        std::hint::spin_loop();
    }
}

fn args() -> Args {
    Args {
        console: false,
        output: None,
        input: None,
        width: None,
        height: None,
        fill: None,
        threads: None,
        sleep: None,
        gens: None,
    }
}

#[test]
fn options_have_their_defaults() {
    let plain = args();
    assert!(!plain.console());
    assert_eq!(plain.generations(), usize::MAX);
    assert_eq!(plain.sleep(), None);
    assert_eq!(plain.threads(8), 1);
    assert_eq!(plain.grid_size((80, 24)), (500, 500));
    assert_eq!(plain.fill_mode(), Some(FillMode::Random));
    assert_eq!(plain.output_file(), None);
    assert_eq!(plain.input_file(), None);
}

#[test]
fn options_follow_what_was_given() {
    let given = Args {
        console: true,
        output: Some("out.rle".to_string()),
        input: Some("in.rle".to_string()),
        width: Some("7".to_string()),
        threads: Some("0".to_string()),
        gens: Some("12".to_string()),
        ..args()
    };
    assert!(given.console());
    assert_eq!(given.generations(), 12);
    assert_eq!(given.sleep(), Some(100));
    assert_eq!(given.threads(8), 8);
    assert_eq!(given.grid_size((80, 24)), (7, 24));
    assert_eq!(given.output_file(), Some("out.rle".to_string()));
    assert_eq!(given.input_file(), Some("in.rle".to_string()));
    let more = Args {
        threads: Some("3".to_string()),
        sleep: Some("+5".to_string()),
        height: Some("-2".to_string()),
        ..args()
    };
    assert_eq!(more.threads(8), 3);
    assert_eq!(more.sleep(), Some(5));
    assert_eq!(more.grid_size((80, 24)), (500, -2));
}

#[test]
fn options_read_their_numbers() {
    let given = Args {
        width: Some("12x".to_string()),
        height: Some("2147483648".to_string()),
        threads: Some("-1".to_string()),
        sleep: Some("18446744073709551615".to_string()),
        gens: Some("".to_string()),
        ..args()
    };
    assert_eq!(given.width(), Given::Invalid);
    assert_eq!(given.height(), Given::Invalid);
    assert_eq!(given.threads_given(), Given::Invalid);
    assert_eq!(given.sleep_given(), Given::Number(u64::MAX));
    assert_eq!(given.gens_given(), Given::Invalid);
    assert_eq!(given.sleep(), Some(u64::MAX));
    let plain = args();
    assert_eq!(plain.width(), Given::Missing);
    assert_eq!(plain.gens_given(), Given::Missing);
    let more = Args {
        width: Some("-2147483648".to_string()),
        sleep: Some("18446744073709551616".to_string()),
        gens: Some("007".to_string()),
        ..args()
    };
    assert_eq!(more.width(), Given::Number(i32::MIN));
    assert_eq!(more.sleep_given(), Given::Invalid);
    assert_eq!(more.generations(), 7);
    for text in ["0", "+0", "-0", "12", "+12", " 12", "1e3", "٣", "99999999999999999999"] {
        let read = Args { sleep: Some(text.to_string()), ..args() }.sleep_given();
        let expected = match text.parse::<u64>() {
            Ok(number) => Given::Number(number),
            Err(_) => Given::Invalid,
        };
        assert_eq!(read, expected);
    }
}

#[test]
fn fill_modes_have_their_names() {
    let named = |name: &str| Args { fill: Some(name.to_string()), ..args() }.fill_mode();
    assert_eq!(named("random"), Some(FillMode::Random));
    assert_eq!(named("alternating"), Some(FillMode::Alternating));
    assert_eq!(named("all"), Some(FillMode::All));
    assert_eq!(named("empty"), Some(FillMode::Empty));
    assert_eq!(named("All"), None);
    assert_eq!(named(""), None);
    assert_eq!(named("alls"), None);
}

#[test]
fn fill_decides_each_cell() {
    assert!(fill_cell(FillMode::Alternating, 0, 0, false));
    assert!(!fill_cell(FillMode::Alternating, 1, 0, true));
    assert!(fill_cell(FillMode::Alternating, 1, 1, false));
    assert!(fill_cell(FillMode::Alternating, -3, 1, false));
    assert!(!fill_cell(FillMode::Alternating, -3, 2, false));
    assert!(fill_cell(FillMode::Alternating, i32::MAX, i32::MAX, false));
    assert!(fill_cell(FillMode::All, 5, 5, false));
    assert!(!fill_cell(FillMode::Empty, 5, 5, true));
    assert!(fill_cell(FillMode::Random, 5, 5, true));
    assert!(!fill_cell(FillMode::Random, 5, 5, false));
    let all = Args { fill: Some("all".to_string()), ..args() };
    assert!(all.fill_is_alive(2, 3));
    let alternating = Args { fill: Some("alternating".to_string()), ..args() };
    assert!(!alternating.fill_is_alive(2, 3));
}

#[test]
fn grid_is_filled_in_order() {
    let filled = |name: &str, w: i32, h: i32| {
        Args { fill: Some(name.to_string()), ..args() }.fill_grid(w, h)
    };
    assert_eq!(filled("alternating", 3, 2), cells(&[(0, 0), (2, 0), (1, 1)]));
    assert_eq!(filled("all", 2, 2), cells(&[(0, 0), (1, 0), (0, 1), (1, 1)]));
    assert_eq!(filled("empty", 9, 9), vec![]);
    assert_eq!(filled("all", 0, 5), vec![]);
    assert_eq!(filled("all", 5, -1), vec![]);
}

#[test]
fn random_fill_tosses_a_coin_for_each_cell() {
    let random = args();
    let alive = random.fill_grid(20, 20);
    // with 400 tosses both sides come up
    assert!(!alive.is_empty());
    assert!(alive.len() < 400);
    assert!(alive.iter().all(|p| 0 <= p.x && p.x < 20 && 0 <= p.y && p.y < 20));
    assert!(alive.windows(2).all(|w| w[0] < w[1]));
    let mut heads = 0;
    for _ in 0..200 {
        if random.fill_is_alive(0, 0) {
            heads += 1;
        }
    }
    assert!(0 < heads && heads < 200);
}

#[test]
fn report_is_due_after_half_a_second() {
    assert!(!due(0));
    assert!(!due(499));
    assert!(due(500));
    assert!(due(u128::MAX));
    let record = SimpleRecord::new(3);
    assert!(!record.has_report());
    wait(520);
    assert!(record.has_report());
}

#[test]
fn simple_record_counts_generations() {
    let mut record = SimpleRecord::new(3);
    record.record(5);
    record.record(8);
    assert_eq!(record.recorded(), 2);
    let report = record.report_after(Duration::from_millis(250));
    assert_eq!(report.gens_in_report, 2);
    assert_eq!(report.elapsed, Duration::from_millis(250));
    assert_eq!(report.gens, 2);
    assert_eq!(report.alive, 8);
    record.record(13);
    wait(30);
    let next = record.report();
    assert_eq!(next.gens_in_report, 1);
    assert_eq!(next.gens, 3);
    assert_eq!(next.alive, 13);
    assert!(next.elapsed >= Duration::from_millis(30));
    assert!(next.elapsed < Duration::from_secs(10));
    // the report started the clock anew
    assert!(!record.has_report());
    let empty = record.report();
    assert_eq!(empty.gens_in_report, 0);
    assert_eq!(empty.gens, 3);
}

#[test]
fn csv_record_keeps_a_line_for_each_generation() {
    let mut record = CsvRecord::new(4);
    assert_eq!(record.csv(), "gen,delta_t,alive\n");
    record.record_after(1500, 6);
    record.record_after(0, 0);
    record.record_after(u128::MAX, usize::MAX);
    assert_eq!(
        record.csv(),
        format!("gen,delta_t,alive\n0,1500,6\n1,0,0\n2,{},{}\n", u128::MAX, usize::MAX)
    );
    let report = record.report();
    assert_eq!(report.gens, 3);
    assert_eq!(report.gens_in_report, 3);
    assert_eq!(report.alive, usize::MAX);
}

#[test]
fn csv_record_measures_the_time_between_generations() {
    let mut record = CsvRecord::new(1);
    wait(20);
    record.record(2);
    record.record(3);
    let text = record.csv();
    let lines: Vec<&str> = text.lines().collect();
    assert_eq!(lines.len(), 3);
    let first: Vec<&str> = lines[1].split(',').collect();
    assert_eq!(first[0], "0");
    assert!(first[1].parse::<u128>().unwrap() >= 20_000);
    assert_eq!(first[2], "2");
    let second: Vec<&str> = lines[2].split(',').collect();
    assert_eq!(second[0], "1");
    assert!(second[1].parse::<u128>().unwrap() < 5_000_000);
    assert_eq!(second[2], "3");
}

#[test]
fn switch_recorder_is_of_either_kind() {
    let mut csv = SwitchRecorder::new(2, true);
    assert!(matches!(csv, SwitchRecorder::Csv(_)));
    csv.record(7);
    assert!(!csv.has_report());
    assert!(csv.csv().starts_with("gen,delta_t,alive\n0,"));
    assert!(csv.csv().ends_with(",7\n"));
    assert_eq!(csv.report().alive, 7);
    let mut simple = SwitchRecorder::new(2, false);
    assert!(matches!(simple, SwitchRecorder::Simple(_)));
    simple.record(9);
    simple.record(10);
    let report = simple.report();
    assert_eq!((report.gens, report.gens_in_report, report.alive), (2, 2, 10));
}

#[test]
fn console_moves_with_the_arrows() {
    let mut console = ConsoleRender::new();
    assert_eq!(console.corner(), Pos2 { x: 0, y: 0 });
    assert_eq!(console.handle_key(Key::Up), ConsoleCommand::Handled);
    assert_eq!(console.corner(), Pos2 { x: 0, y: -1 });
    assert_eq!(console.handle_key(Key::Left), ConsoleCommand::Handled);
    assert_eq!(console.handle_key(Key::Left), ConsoleCommand::Handled);
    assert_eq!(console.corner(), Pos2 { x: -2, y: -1 });
    assert_eq!(console.handle_key(Key::Down), ConsoleCommand::Handled);
    assert_eq!(console.handle_key(Key::Right), ConsoleCommand::Handled);
    assert_eq!(console.corner(), Pos2 { x: -1, y: 0 });
    assert_eq!(console.handle_key(Key::Other), ConsoleCommand::Handled);
    assert_eq!(console.handle_key(Key::Interrupt), ConsoleCommand::Exit);
    assert_eq!(console.corner(), Pos2 { x: -1, y: 0 });
    assert!(console.can_handle(Key::Up));
}

#[test]
fn console_shows_the_cells_of_its_window() {
    let game = GameOfLife::from_alive(cells(&[(-1, 0), (0, 0), (3, 1), (4, 1), (2, 2)]));
    let mut console = ConsoleRender::new();
    assert_eq!(console.screen_cells(&game, 4, 2), vec![(0, 0), (3, 1)]);
    assert_eq!(console.screen_cells(&game, 80, 24), vec![(0, 0), (3, 1), (4, 1), (2, 2)]);
    console.handle_key(Key::Left);
    console.handle_key(Key::Down);
    assert_eq!(console.screen_cells(&game, 80, 24), vec![(4, 0), (5, 0), (3, 1)]);
    assert_eq!(console.screen_cells(&game, 0, 0), vec![]);
    console.set_report("12.00gen/s".to_string());
    assert_eq!(console.report(), "12.00gen/s");
}
