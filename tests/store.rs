use todos::command::{parse_id, Command};
use todos::store::{LoadError, NotFound, Store};
use todos::table::get_size_for_columns;
use todos::task::Task;
use todos::timestamp::Timestamp;

const STAMP: &str = "2024-01-15T10:30:45.123456789+01:00";

fn stamp() -> Timestamp {
    Timestamp::from_text(STAMP).unwrap()
}

fn ids(tasks: &[Task]) -> Vec<u32> {
    tasks.iter().map(|t| t.id).collect()
}

#[test]
fn example_session() {
    let mut store = Store::load("seq_id:0\n").unwrap();
    assert_eq!(store.seq_id, 0);
    assert!(store.tasks.is_empty());

    let first = store.create("buy milk".to_string(), stamp());
    assert_eq!(first.id, 1);
    assert_eq!(first.text, "buy milk");
    assert!(!first.is_completed);

    let second = store.create("walk dog".to_string(), stamp());
    assert_eq!(second.id, 2);

    assert_eq!(store.complete(1), Ok(()));
    let open = store.list(true);
    assert_eq!(ids(&open), vec![2]);

    assert_eq!(store.delete(2), Ok(()));
    let open = store.list(true);
    assert!(open.is_empty());
    assert_eq!(ids(&store.list(false)), vec![1]);
    assert_eq!(store.delete(1), Ok(()));
    assert!(store.list(false).is_empty());

    let text = store.save();
    assert_eq!(text, "seq_id:2\n");
    let back = Store::load(&text).unwrap();
    assert_eq!(back.seq_id, 2);
    assert!(back.tasks.is_empty());
}

#[test]
fn save_writes_lines() {
    let mut store = Store::new();
    store.create("buy milk".to_string(), stamp());
    store.create("walk dog".to_string(), stamp());
    store.complete(2).unwrap();
    let text = store.save();
    assert_eq!(
        text,
        format!("seq_id:2\n1,{STAMP},buy milk,false\n2,{STAMP},walk dog,true")
    );
}

#[test]
fn save_then_load_round_trips() {
    let mut store = Store::load("seq_id:41\n").unwrap();
    store.create("one".to_string(), stamp());
    store.create("two words".to_string(), Timestamp::from_text("2023-12-31T23:59:59-05:00").unwrap());
    store.create("".to_string(), stamp());
    store.complete(43).unwrap();
    let text = store.save();
    let back = Store::load(&text).unwrap();
    assert_eq!(back.seq_id, 44);
    assert_eq!(back.tasks.len(), 3);
    for (a, b) in store.tasks.iter().zip(back.tasks.iter()) {
        assert_eq!(a.id, b.id);
        assert_eq!(a.text, b.text);
        assert_eq!(a.is_completed, b.is_completed);
        assert_eq!(a.created_at.as_str(), b.created_at.as_str());
    }
    assert_eq!(back.save(), text);
}

#[test]
fn ids_increase_by_one_and_resume_after_reload() {
    let mut store = Store::new();
    let a = store.create("a".to_string(), stamp());
    let b = store.create("b".to_string(), stamp());
    let c = store.create("c".to_string(), stamp());
    assert_eq!((a.id, b.id, c.id), (1, 2, 3));
    store.delete(3).unwrap();
    let mut back = Store::load(&store.save()).unwrap();
    let d = back.create("d".to_string(), stamp());
    assert_eq!(d.id, 4);
}

#[test]
fn complete_twice_succeeds() {
    let mut store = Store::new();
    store.create("a".to_string(), stamp());
    assert_eq!(store.complete(1), Ok(()));
    assert!(store.tasks[0].is_completed);
    assert_eq!(store.complete(1), Ok(()));
    assert!(store.tasks[0].is_completed);
    assert_eq!(store.complete(7), Err(NotFound));
    assert_eq!(store.tasks.len(), 1);
}

#[test]
fn open_list_keeps_order() {
    let mut store = Store::new();
    for t in ["a", "b", "c", "d", "e"] {
        store.create(t.to_string(), stamp());
    }
    store.complete(2).unwrap();
    store.complete(4).unwrap();
    assert_eq!(ids(&store.list(false)), vec![1, 2, 3, 4, 5]);
    assert_eq!(ids(&store.list(true)), vec![1, 3, 5]);
}

#[test]
fn delete_removes_one() {
    let mut store = Store::new();
    for t in ["a", "b", "c"] {
        store.create(t.to_string(), stamp());
    }
    assert_eq!(store.delete(2), Ok(()));
    assert_eq!(ids(&store.list(false)), vec![1, 3]);
    assert_eq!(store.delete(2), Err(NotFound));
    assert_eq!(ids(&store.list(false)), vec![1, 3]);
}

#[test]
fn load_without_trailing_newline_and_leading_zeros() {
    let text = format!("seq_id:007\n5,{STAMP},x,true");
    let store = Store::load(&text).unwrap();
    assert_eq!(store.seq_id, 7);
    assert_eq!(store.tasks.len(), 1);
    assert_eq!(store.tasks[0].id, 5);
    assert!(store.tasks[0].is_completed);
}

#[test]
fn load_rejects_bad_metadata() {
    assert_eq!(Store::load("").err(), Some(LoadError::BadMetadata));
    assert_eq!(Store::load("seq:1\n").err(), Some(LoadError::BadMetadata));
    assert_eq!(Store::load("seq_id:\n").err(), Some(LoadError::BadMetadata));
    assert_eq!(Store::load("seq_id:1:2\n").err(), Some(LoadError::BadMetadata));
    assert_eq!(Store::load("seq_id:4294967296\n").err(), Some(LoadError::BadMetadata));
    assert!(Store::load("seq_id:4294967295\n").is_ok());
}

#[test]
fn load_rejects_bad_task_lines() {
    let good = format!("1,{STAMP},a,false");
    let cases = [
        format!("seq_id:3\n{good}\n2,{STAMP},a,b,false"),
        format!("seq_id:3\n{good}\nx,{STAMP},a,false"),
        format!("seq_id:3\n{good}\n2,yesterday,a,false"),
        format!("seq_id:3\n{good}\n2,{STAMP},a,yes"),
        format!("seq_id:3\n{good}\n\n2,{STAMP},a,false"),
    ];
    for text in cases.iter() {
        assert_eq!(Store::load(text).err(), Some(LoadError::BadTask(1)));
    }
    let first_bad = format!("seq_id:3\n1,{STAMP},a,False\n{good}");
    assert_eq!(Store::load(&first_bad).err(), Some(LoadError::BadTask(0)));
}

#[test]
fn load_rejects_inconsistent_ids() {
    let dup = format!("seq_id:3\n1,{STAMP},a,false\n1,{STAMP},b,false");
    assert_eq!(Store::load(&dup).err(), Some(LoadError::Inconsistent));
    let above = format!("seq_id:3\n4,{STAMP},a,false");
    assert_eq!(Store::load(&above).err(), Some(LoadError::Inconsistent));
}

#[test]
fn timestamps_are_checked() {
    assert_eq!(stamp().as_str(), STAMP);
    assert!(Timestamp::from_text("2024-01-15T10:30:45Z").is_some());
    assert!(Timestamp::from_text("not a time").is_none());
    assert!(Timestamp::from_text("2024-13-15T10:30:45+01:00").is_none());
    assert!(Timestamp::from_text("").is_none());
    let now = Timestamp::now().unwrap();
    assert!(Timestamp::from_text(now.as_str()).is_some());
}

#[test]
fn menu_choices() {
    assert_eq!(Command::from_choice("1"), Command::ShowAll);
    assert_eq!(Command::from_choice("2"), Command::ShowOpen);
    assert_eq!(Command::from_choice("3"), Command::Create);
    assert_eq!(Command::from_choice("4"), Command::Complete);
    assert_eq!(Command::from_choice("5"), Command::Delete);
    assert_eq!(Command::from_choice("6"), Command::SaveAndExit);
    assert_eq!(Command::from_choice("0"), Command::SaveAndExit);
    assert_eq!(Command::from_choice("11"), Command::SaveAndExit);
    assert_eq!(Command::from_choice(""), Command::SaveAndExit);
    assert_eq!(Command::from_choice("quit"), Command::SaveAndExit);
}

#[test]
fn typed_ids() {
    assert_eq!(parse_id("42"), Some(42));
    assert_eq!(parse_id("0"), Some(0));
    assert_eq!(parse_id("4294967295"), Some(4294967295));
    assert_eq!(parse_id("4294967296"), None);
    assert_eq!(parse_id(""), None);
    assert_eq!(parse_id("4x"), None);
    assert_eq!(parse_id("-1"), None);
    assert_eq!(parse_id("+5"), Some(5));
    assert_eq!(parse_id("+"), None);
    assert_eq!(parse_id("++5"), None);
}

#[test]
fn column_widths() {
    let mut store = Store::new();
    assert_eq!(get_size_for_columns(&store.tasks), vec![0, 10, 0, 4]);
    store.create("short".to_string(), stamp());
    store.seq_id = 99;
    store.create("a longer text".to_string(), stamp());
    assert_eq!(get_size_for_columns(&store.tasks), vec![3, 10, 13, 4]);
}

#[test]
fn column_width_counts_bytes() {
    let mut store = Store::new();
    store.create("\u{e9}".to_string(), stamp());
    assert_eq!(get_size_for_columns(&store.tasks), vec![1, 10, 2, 4]);
    store.create("ab".to_string(), stamp());
    store.create("\u{65e5}\u{672c}".to_string(), stamp());
    assert_eq!(get_size_for_columns(&store.tasks), vec![1, 10, 6, 4]);
}

#[test]
fn load_accepts_crlf_lines() {
    let text = format!("seq_id:2\r\n1,{STAMP},a,false\r\n2,{STAMP},b\r,true\r\n");
    let store = Store::load(&text).unwrap();
    assert_eq!(store.seq_id, 2);
    assert_eq!(ids(&store.tasks), vec![1, 2]);
    assert!(!store.tasks[0].is_completed);
    assert_eq!(store.tasks[1].text, "b\r");
    assert!(store.tasks[1].is_completed);
}

#[test]
fn load_keeps_carriage_return_on_unterminated_last_line() {
    let text = format!("seq_id:1\n1,{STAMP},a,false\r");
    assert_eq!(Store::load(&text).err(), Some(LoadError::BadTask(0)));
}

#[test]
fn load_trims_the_counter_line() {
    let store = Store::load("  seq_id:3 \t\r\n").unwrap();
    assert_eq!(store.seq_id, 3);
    assert!(store.tasks.is_empty());
    let store = Store::load("seq_id:+4").unwrap();
    assert_eq!(store.seq_id, 4);
    assert_eq!(Store::load("seq_id: 3\n").err(), Some(LoadError::BadMetadata));
}
