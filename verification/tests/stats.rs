use pisweep::board::Difficulty;
use pisweep::stats::{Bests, Settings, Store};

#[test]
fn records_and_keeps_faster() {
    let mut b = Bests::default();
    assert!(b.record(Difficulty::Beginner, 12));
    assert_eq!(b.beginner, 12);
    assert!(!b.record(Difficulty::Beginner, 20));
    assert!(b.record(Difficulty::Beginner, 7));
    assert_eq!(b.beginner, 7);
    let mut z = Bests::default();
    assert!(z.record(Difficulty::Beginner, 0));
    assert_eq!(z.beginner, 1);
}

#[test]
fn bests_are_per_difficulty() {
    let mut b = Bests::default();
    assert!(b.record(Difficulty::Expert, 300));
    assert_eq!(b.get(Difficulty::Expert), 300);
    assert_eq!(b.get(Difficulty::Beginner), 0);
    assert!(!b.record(Difficulty::Expert, 300));
    assert!(b.record(Difficulty::Intermediate, 90));
    assert_eq!(b.intermediate, 90);
    assert_eq!(b.expert, 300);
}

#[test]
fn default_settings_are_empty() {
    let s = Settings::default();
    assert_eq!(s.difficulty, "");
    assert_eq!(s.bests, Bests::default());
}

#[test]
fn store_keeps_its_path() {
    let p = std::path::PathBuf::from("/tmp/x/stats.json");
    let st = Store::new(p.clone());
    assert_eq!(st.path(), &p);
}
