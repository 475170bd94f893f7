use seraphim::game::GameStatus;
use seraphim::generate::{
    batch_path, data_filename, default_output_dir, finished_path, model_dir, model_lock_path,
    next_file_id, stale_line, Tally,
};

#[test]
fn batches_are_numbered_seven_wide() {
    assert_eq!(batch_path("out", 0), "out/batch-0000000");
    assert_eq!(batch_path("out", 42), "out/batch-0000042");
    assert_eq!(batch_path("/data/g", 12345678), "/data/g/batch-12345678");
    assert_eq!(batch_path("out", -3), "out/batch--000003");
    assert_eq!(batch_path("out", i64::MIN), format!("out/batch-{:07}", i64::MIN));
    assert_eq!(batch_path("out", 7), format!("out/batch-{:07}", 7));
}

#[test]
fn finished_batches_take_the_record_suffix() {
    assert_eq!(finished_path("out/batch-0000042"), "out/batch-0000042.tfrecord");
}

#[test]
fn the_batch_max_files_back_goes_stale() {
    assert_eq!(stale_line("out", 49, 50), None);
    assert_eq!(
        stale_line("out", 50, 50),
        Some("out/batch-0000000.tfrecord\n".to_string())
    );
    assert_eq!(
        stale_line("out", 75, 50),
        Some("out/batch-0000025.tfrecord\n".to_string())
    );
}

#[test]
fn the_control_file_counts_batches() {
    assert_eq!(next_file_id(""), Some((0, "1".to_string())));
    assert_eq!(next_file_id("41"), Some((41, "42".to_string())));
    assert_eq!(next_file_id("-5"), Some((-5, "-4".to_string())));
    assert_eq!(next_file_id("-1"), Some((-1, "0".to_string())));
    assert_eq!(next_file_id("41\n"), None);
    assert_eq!(next_file_id("abc"), None);
    assert_eq!(next_file_id("9223372036854775807"), None);
    assert_eq!(
        next_file_id("9223372036854775806"),
        Some((9223372036854775806, "9223372036854775807".to_string()))
    );
}

#[test]
fn model_paths() {
    assert_eq!(model_dir("/d", "ttt"), "/d/models/ttt/champion/saved_model");
    assert_eq!(model_lock_path("/d", "ttt"), "/d/models/ttt/champion/lock");
    assert_eq!(default_output_dir("/d", "ttt"), "/d/gamedata/ttt");
}

#[test]
fn data_file_names() {
    assert_eq!(
        data_filename("", 100),
        (100, "src/tictactoe/gamedata/0.tfrecord".to_string())
    );
    assert_eq!(
        data_filename("train", 7),
        (7, "src/tictactoe/gamedata/train_0.tfrecord".to_string())
    );
}

#[test]
fn tally_counts_games_and_draws() {
    let mut t = Tally::new();
    assert!(t.wants_more(2));
    assert!(!t.record(GameStatus::Draw));
    assert!(!t.record(GameStatus::LastPlayerWon));
    assert_eq!((t.count, t.draws), (2, 1));
    assert!(!t.wants_more(2));
    assert_eq!(t.summary(), "Drew 1 / 2");
    let mut total = Tally::new();
    total.add(t);
    total.add(t);
    assert_eq!((total.count, total.draws), (4, 2));
}

#[test]
fn tally_flushes_every_thousand_games() {
    let mut t = Tally::new();
    let mut flushes = 0;
    for _ in 0..2500 {
        if t.record(GameStatus::LastPlayerLost) {
            flushes += 1;
        }
    }
    assert_eq!(flushes, 2);
    assert_eq!(t.draws, 0);
}

#[test]
fn the_stored_counter_is_read_back_as_the_next_batch() {
    let mut contents = String::new();
    for expected in 0..25i64 {
        let (id, next) = next_file_id(&contents).unwrap();
        assert_eq!(id, expected);
        contents = next;
    }
    let (id, next) = next_file_id("-3").unwrap();
    assert_eq!((id, next_file_id(&next).unwrap().0), (-3, -2));
}
