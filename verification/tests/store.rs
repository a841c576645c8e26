use kvs::command::Commend;
use kvs::index::{CommandPos, Index};
use kvs::segments::{
    decimal_text, log_name, segment_gen, sorted_gen_list, sorted_unique, stale_gens,
};
use kvs::store::{saturating_sum, KvStore, Segment, COMPACTION_THRESHOLD};
use kvs::KvError;

fn s(text: &str) -> String {
    text.to_string()
}

fn fresh() -> KvStore {
    KvStore::open(Vec::new()).unwrap()
}

fn reopen(store: &KvStore) -> KvStore {
    KvStore::open(store.segments().clone()).unwrap()
}

#[test]
fn set_then_get_round_trips() {
    let mut store = fresh();
    store.set(s("key"), s("value")).unwrap();
    assert_eq!(store.get(s("key")).unwrap(), Some(s("value")));
}

#[test]
fn round_trip_of_awkward_strings() {
    let mut store = fresh();
    let key = s("k\"e\\y\n{\"Set\":1}");
    let value = s("v\u{0}\u{1f}a\u{e9}\u{4e2d}\u{1F600}}}");
    store.set(key.clone(), value.clone()).unwrap();
    store.set(s(""), s("")).unwrap();
    assert_eq!(store.get(key.clone()).unwrap(), Some(value.clone()));
    assert_eq!(store.get(s("")).unwrap(), Some(s("")));
    let mut again = reopen(&store);
    assert_eq!(again.get(key).unwrap(), Some(value));
    assert_eq!(again.get(s("")).unwrap(), Some(s("")));
}

#[test]
fn second_set_overwrites_first() {
    let mut store = fresh();
    store.set(s("k"), s("v1")).unwrap();
    store.set(s("k"), s("v2")).unwrap();
    assert_eq!(store.get(s("k")).unwrap(), Some(s("v2")));
}

#[test]
fn get_of_absent_key_is_none() {
    let mut store = fresh();
    assert_eq!(store.get(s("nothing")).unwrap(), None);
}

#[test]
fn remove_then_get_is_none() {
    let mut store = fresh();
    store.set(s("k"), s("v")).unwrap();
    store.remove(s("k")).unwrap();
    assert_eq!(store.get(s("k")).unwrap(), None);
}

#[test]
fn remove_of_absent_key_fails_and_writes_nothing() {
    let mut store = fresh();
    store.set(s("a"), s("1")).unwrap();
    let before = store.segments().clone();
    let garbage = store.uncompaction();
    assert!(matches!(store.remove(s("b")), Err(KvError::KeyNotFound)));
    assert_eq!(store.segments().len(), before.len());
    for (now, then) in store.segments().iter().zip(before.iter()) {
        assert_eq!(now.gen, then.gen);
        assert_eq!(now.data, then.data);
    }
    assert_eq!(store.uncompaction(), garbage);
    store.remove(s("a")).unwrap();
    assert!(matches!(store.remove(s("a")), Err(KvError::KeyNotFound)));
}

#[test]
fn scenario_survives_reopening() {
    let mut store = fresh();
    store.set(s("a"), s("1")).unwrap();
    store.set(s("b"), s("2")).unwrap();
    store.set(s("a"), s("3")).unwrap();
    store.remove(s("b")).unwrap();
    let mut again = reopen(&store);
    assert_eq!(again.get(s("a")).unwrap(), Some(s("3")));
    assert_eq!(again.get(s("b")).unwrap(), None);
}

#[test]
fn records_are_written_back_to_back() {
    let mut store = fresh();
    store.set(s("a"), s("1")).unwrap();
    store.set(s("b"), s("2")).unwrap();
    store.remove(s("a")).unwrap();
    assert_eq!(store.segments().len(), 1);
    assert_eq!(store.segments()[0].gen, 1);
    assert_eq!(
        String::from_utf8(store.segments()[0].data.clone()).unwrap(),
        "{\"Set\":{\"key\":\"a\",\"value\":\"1\"}}{\"Set\":{\"key\":\"b\",\"value\":\"2\"}}{\"Remove\":{\"key\":\"a\"}}"
    );
}

#[test]
fn garbage_counts_superseded_and_remove_records() {
    let mut store = fresh();
    let set_len = "{\"Set\":{\"key\":\"a\",\"value\":\"1\"}}".len() as u64;
    let remove_len = "{\"Remove\":{\"key\":\"a\"}}".len() as u64;
    store.set(s("a"), s("1")).unwrap();
    assert_eq!(store.uncompaction(), 0);
    store.set(s("a"), s("2")).unwrap();
    assert_eq!(store.uncompaction(), set_len);
    store.remove(s("a")).unwrap();
    assert_eq!(store.uncompaction(), 2 * set_len + remove_len);
    assert_eq!(store.uncompaction(), store.segments()[0].data.len() as u64);
    let again = reopen(&store);
    assert_eq!(again.uncompaction(), 2 * set_len + remove_len);
}

#[test]
fn open_starts_one_generation_above_the_last() {
    let store = fresh();
    assert_eq!(store.current_gen(), 1);
    assert_eq!(store.segments().len(), 1);
    let logs = vec![
        Segment { gen: 3, data: Vec::new() },
        Segment { gen: 7, data: b"{\"Set\":{\"key\":\"k\",\"value\":\"v\"}}".to_vec() },
    ];
    let mut store = KvStore::open(logs).unwrap();
    assert_eq!(store.current_gen(), 8);
    let gens: Vec<u64> = store.segments().iter().map(|seg| seg.gen).collect();
    assert_eq!(gens, vec![3, 7, 8]);
    assert_eq!(store.get(s("k")).unwrap(), Some(s("v")));
}

#[test]
fn later_generation_wins_on_replay() {
    let logs = vec![
        Segment { gen: 1, data: b"{\"Set\":{\"key\":\"k\",\"value\":\"old\"}}{\"Set\":{\"key\":\"gone\",\"value\":\"x\"}}".to_vec() },
        Segment { gen: 2, data: b"{\"Set\":{\"key\":\"k\",\"value\":\"new\"}}{\"Remove\":{\"key\":\"gone\"}}".to_vec() },
    ];
    let mut store = KvStore::open(logs).unwrap();
    assert_eq!(store.get(s("k")).unwrap(), Some(s("new")));
    assert_eq!(store.get(s("gone")).unwrap(), None);
}

#[test]
fn replay_of_broken_log_fails() {
    let broken = vec![Segment { gen: 1, data: b"{\"Set\":{\"key\":\"k\",\"val".to_vec() }];
    assert!(matches!(KvStore::open(broken), Err(KvError::SerdeErr(_))));
    let not_json = vec![Segment { gen: 1, data: b"hello".to_vec() }];
    assert!(matches!(KvStore::open(not_json), Err(KvError::SerdeErr(_))));
    let stranger = vec![Segment { gen: 1, data: b"{\"Swap\":{\"key\":\"k\"}}".to_vec() }];
    assert!(matches!(KvStore::open(stranger), Err(KvError::SerdeErr(_))));
}

#[test]
fn load_reports_positions_and_garbage() {
    let data = b"{\"Set\":{\"key\":\"a\",\"value\":\"1\"}}{\"Set\":{\"key\":\"a\",\"value\":\"22\"}}".to_vec();
    let mut index = Index::new();
    let garbage = KvStore::load(5, &data, &mut index).unwrap();
    assert_eq!(garbage, 31);
    assert_eq!(index.len(), 1);
    assert_eq!(index.get(&s("a")), Some(CommandPos { gen: 5, pos: 31, len: 32 }));
}

#[test]
fn compaction_keeps_every_value() {
    let mut store = fresh();
    store.set(s("a"), s("1")).unwrap();
    store.set(s("b"), s("2")).unwrap();
    store.set(s("a"), s("3")).unwrap();
    store.set(s("c"), s("4")).unwrap();
    store.remove(s("b")).unwrap();
    assert!(store.uncompaction() > 0);
    store.compaction().unwrap();
    assert_eq!(store.uncompaction(), 0);
    assert_eq!(store.current_gen(), 3);
    assert_eq!(store.segments().len(), 2);
    assert_eq!(store.segments()[0].gen, 2);
    assert_eq!(store.segments()[1].gen, 3);
    assert!(store.segments()[1].data.is_empty());
    assert_eq!(
        String::from_utf8(store.segments()[0].data.clone()).unwrap(),
        "{\"Set\":{\"key\":\"a\",\"value\":\"3\"}}{\"Set\":{\"key\":\"c\",\"value\":\"4\"}}"
    );
    assert_eq!(store.get(s("a")).unwrap(), Some(s("3")));
    assert_eq!(store.get(s("b")).unwrap(), None);
    assert_eq!(store.get(s("c")).unwrap(), Some(s("4")));
    store.set(s("d"), s("5")).unwrap();
    assert_eq!(store.segments()[1].data.len(), 31);
    let mut again = reopen(&store);
    assert_eq!(again.get(s("a")).unwrap(), Some(s("3")));
    assert_eq!(again.get(s("d")).unwrap(), Some(s("5")));
    assert_eq!(again.current_gen(), 4);
}

#[test]
fn compaction_copies_in_key_order() {
    let mut store = fresh();
    store.set(s("zeta"), s("1")).unwrap();
    store.set(s("alpha"), s("2")).unwrap();
    store.set(s("mid"), s("3")).unwrap();
    store.compaction().unwrap();
    assert_eq!(
        String::from_utf8(store.segments()[0].data.clone()).unwrap(),
        "{\"Set\":{\"key\":\"alpha\",\"value\":\"2\"}}{\"Set\":{\"key\":\"mid\",\"value\":\"3\"}}{\"Set\":{\"key\":\"zeta\",\"value\":\"1\"}}"
    );
}

#[test]
fn garbage_over_threshold_triggers_compaction() {
    let mut store = KvStore::open(vec![
        Segment { gen: 1, data: Vec::new() },
        Segment { gen: 2, data: Vec::new() },
    ])
    .unwrap();
    let big = "x".repeat(300_000);
    store.set(s("keep"), s("kept")).unwrap();
    for round in 0..4 {
        store.set(s("k"), big.clone()).unwrap();
        assert_eq!(store.current_gen(), 3);
        assert_eq!(store.segments().len(), 3);
        assert!(store.uncompaction() <= COMPACTION_THRESHOLD);
        assert_eq!(store.uncompaction(), round * (big.len() as u64 + 30));
    }
    store.set(s("k"), s("last")).unwrap();
    assert_eq!(store.uncompaction(), 0);
    assert_eq!(store.current_gen(), 5);
    let gens: Vec<u64> = store.segments().iter().map(|seg| seg.gen).collect();
    assert_eq!(gens, vec![4, 5]);
    assert_eq!(store.get(s("k")).unwrap(), Some(s("last")));
    assert_eq!(store.get(s("keep")).unwrap(), Some(s("kept")));
    let mut again = reopen(&store);
    assert_eq!(again.get(s("k")).unwrap(), Some(s("last")));
    assert_eq!(again.get(s("keep")).unwrap(), Some(s("kept")));
}

#[test]
fn reopening_reproduces_the_mapping() {
    let mut store = fresh();
    for i in 0..40u32 {
        store.set(format!("key{}", i % 7), format!("value{}", i)).unwrap();
        if i % 5 == 0 {
            store.remove(format!("key{}", i % 7)).unwrap();
        }
    }
    let mut again = reopen(&store);
    for i in 0..8u32 {
        let key = format!("key{}", i);
        assert_eq!(again.get(key.clone()).unwrap(), store.get(key).unwrap());
    }
    assert_eq!(again.uncompaction(), store.uncompaction());
}

#[test]
fn encode_writes_the_record_format() {
    let set = Commend::set(s("a\"b"), s("c\\d\n"));
    assert_eq!(
        String::from_utf8(set.encode().unwrap()).unwrap(),
        "{\"Set\":{\"key\":\"a\\\"b\",\"value\":\"c\\\\d\\n\"}}"
    );
    let remove = Commend::remove(s("k"));
    assert_eq!(String::from_utf8(remove.encode().unwrap()).unwrap(), "{\"Remove\":{\"key\":\"k\"}}");
}

#[test]
fn decode_reads_one_record() {
    let set = Commend::decode(b"{\"Set\":{\"key\":\"k\",\"value\":\"v\"}}").unwrap();
    assert!(matches!(set, Commend::Put { ref key, ref value } if key == "k" && value == "v"));
    let remove = Commend::decode(b" {\"Remove\" : {\"key\":\"k\\u0041\"}} ").unwrap();
    assert!(matches!(remove, Commend::Remove { ref key } if key == "kA"));
    assert!(matches!(Commend::decode(b"{\"Set\":{\"key\":\"k\"}}"), Err(KvError::SerdeErr(_))));
    assert!(matches!(Commend::decode(b"{}"), Err(KvError::SerdeErr(_))));
    assert!(matches!(Commend::decode(b"{\"Set\":"), Err(KvError::SerdeErr(_))));
    assert!(matches!(
        Commend::decode(b"{\"Remove\":{\"key\":\"k\"}}{\"Remove\":{\"key\":\"k\"}}"),
        Err(KvError::SerdeErr(_))
    ));
}

#[test]
fn decode_next_reports_bytes_read() {
    let two = b"{\"Remove\":{\"key\":\"k\"}}{\"Set\":{\"key\":\"k\",\"value\":\"v\"}}";
    let (first, read) = Commend::decode_next(two).unwrap().unwrap();
    assert!(matches!(first, Commend::Remove { ref key } if key == "k"));
    assert_eq!(read, 22);
    let (second, read) = Commend::decode_next(&two[22..]).unwrap().unwrap();
    assert!(matches!(second, Commend::Put { ref key, ref value } if key == "k" && value == "v"));
    assert_eq!(read, 31);
    assert!(Commend::decode_next(b"").is_none());
    assert!(Commend::decode_next(b"  \n").is_none());
    assert!(matches!(Commend::decode_next(b"{\"Set\""), Some(Err(KvError::SerdeErr(_)))));
    assert!(matches!(Commend::decode_next(b"{\"Other\":{}}"), Some(Err(KvError::SerdeErr(_)))));
}

#[test]
fn value_of_reads_only_a_set() {
    let set = Commend::set(s("k"), s("v"));
    assert_eq!(KvStore::value_of(Ok(set)).unwrap(), Some(s("v")));
    assert!(matches!(
        KvStore::value_of(Ok(Commend::remove(s("k")))),
        Err(KvError::UnexpectedCommandType)
    ));
    assert!(matches!(KvStore::value_of(Err(KvError::KeyNotFound)), Err(KvError::KeyNotFound)));
}

#[test]
fn error_messages() {
    assert_eq!(KvError::KeyNotFound.message(), "Key Not Found");
    assert_eq!(KvError::UnexpectedCommandType.message(), "Unexpect Command Type");
    let serde = Commend::decode(b"?").unwrap_err();
    assert_eq!(serde.message(), "serde error occurred.");
    let io = KvError::from(std::io::Error::new(std::io::ErrorKind::Other, "x"));
    assert!(matches!(io, KvError::IoError(_)));
    assert_eq!(io.message(), "io error occurred.");
}

#[test]
fn index_maps_keys_to_positions() {
    let mut index = Index::new();
    let first = CommandPos::new(1, 0, 10);
    let second = CommandPos::new(1, 10, 25);
    assert_eq!(first, CommandPos { gen: 1, pos: 0, len: 10 });
    assert_eq!(second, CommandPos { gen: 1, pos: 10, len: 15 });
    assert_eq!(index.insert(s("b"), first), None);
    assert_eq!(index.insert(s("a"), second), None);
    assert_eq!(index.insert(s("b"), second), Some(first));
    assert_eq!(index.len(), 2);
    assert_eq!(index.key_at(0), "a");
    assert_eq!(index.key_at(1), "b");
    assert_eq!(index.pos_at(1), second);
    assert_eq!(index.get(&s("b")), Some(second));
    assert_eq!(index.get(&s("c")), None);
    assert_eq!(index.remove(&s("c")), None);
    assert_eq!(index.remove(&s("a")), Some(second));
    assert_eq!(index.len(), 1);
    assert_eq!(index.get(&s("a")), None);
}

#[test]
fn numbers_are_sorted_once_each() {
    assert_eq!(sorted_unique(&vec![10, 2, 33, 1, 2, 10]), vec![1, 2, 10, 33]);
    assert_eq!(sorted_unique(&Vec::new()), Vec::<u64>::new());
    assert_eq!(sorted_unique(&vec![u64::MAX, 0]), vec![0, u64::MAX]);
}

#[test]
fn generations_are_sorted_by_number() {
    let names: Vec<String> = [
        "10.log", "9.log", "notes.txt", "x.log", "2.log", "100.log", "7", "1.log.log", "03.log",
        "+4.log", "2.log",
    ]
        .iter()
        .map(|name| name.to_string())
        .collect();
    assert_eq!(sorted_gen_list(&names), vec![2, 9, 10, 100]);
    assert_eq!(sorted_gen_list(&Vec::new()), Vec::<u64>::new());
}

#[test]
fn segment_names_give_their_generation() {
    assert_eq!(segment_gen("1.log"), Some(1));
    assert_eq!(segment_gen("0.log"), Some(0));
    assert_eq!(segment_gen("007.log"), None);
    assert_eq!(segment_gen("00.log"), None);
    assert_eq!(segment_gen("+1.log"), None);
    assert_eq!(segment_gen(" 1.log"), None);
    assert_eq!(segment_gen("1.LOG"), None);
    assert_eq!(segment_gen("1.logs"), None);
    assert_eq!(segment_gen("\u{661}.log"), None);
    assert_eq!(segment_gen(""), None);
    assert_eq!(segment_gen("10.log"), Some(10));
    assert_eq!(segment_gen("18446744073709551609.log"), Some(u64::MAX - 6));
    assert_eq!(segment_gen("99999999999999999999.log"), None);
    assert_eq!(segment_gen("18446744073709551615.log"), Some(u64::MAX));
    assert_eq!(segment_gen("18446744073709551616.log"), None);
    assert_eq!(segment_gen("3.log.log"), None);
    assert_eq!(segment_gen("3.txt"), None);
    assert_eq!(segment_gen("3"), None);
    assert_eq!(segment_gen("log"), None);
    assert_eq!(segment_gen(".log"), None);
    assert_eq!(segment_gen("a.log"), None);
    assert_eq!(segment_gen("-1.log"), None);
    assert_eq!(segment_gen("1.5.log"), None);
    for gen in [0u64, 5, 42, 1000, u64::MAX] {
        assert_eq!(segment_gen(&log_name(gen)), Some(gen));
    }
}

#[test]
fn log_names_are_decimal() {
    assert_eq!(log_name(0), "0.log");
    assert_eq!(log_name(7), "7.log");
    assert_eq!(log_name(120), "120.log");
    assert_eq!(log_name(u64::MAX), "18446744073709551615.log");
}

#[test]
fn saturating_sum_stops_at_the_top() {
    assert_eq!(saturating_sum(2, 3), 5);
    assert_eq!(saturating_sum(u64::MAX - 1, 1), u64::MAX);
    assert_eq!(saturating_sum(u64::MAX, 1), u64::MAX);
    assert_eq!(saturating_sum(u64::MAX - 1, 5), u64::MAX);
}

#[test]
fn garbage_and_live_records_add_up_to_the_log() {
    let mut store = fresh();
    store.set(s("a"), s("1")).unwrap();
    store.set(s("b"), s("22")).unwrap();
    store.set(s("a"), s("333")).unwrap();
    store.remove(s("b")).unwrap();
    let live = "{\"Set\":{\"key\":\"a\",\"value\":\"333\"}}".len() as u64;
    let total: u64 = store.segments().iter().map(|seg| seg.data.len() as u64).sum();
    assert_eq!(store.uncompaction() + live, total);
    let mut again = reopen(&store);
    assert_eq!(again.uncompaction() + live, total);
    again.compaction().unwrap();
    let total: u64 = again.segments().iter().map(|seg| seg.data.len() as u64).sum();
    assert_eq!(again.uncompaction(), 0);
    assert_eq!(total, live);
}

#[test]
fn compaction_of_two_segments_leaves_two() {
    let mut store = KvStore::open(vec![Segment { gen: 1, data: Vec::new() }]).unwrap();
    assert_eq!(store.segments().len(), 2);
    store.compaction().unwrap();
    assert_eq!(store.segments().len(), 2);
    let mut single = fresh();
    single.compaction().unwrap();
    assert_eq!(single.segments().len(), 2);
}

#[test]
fn remove_over_threshold_triggers_compaction() {
    let mut store = KvStore::open(vec![
        Segment { gen: 1, data: Vec::new() },
        Segment { gen: 2, data: Vec::new() },
    ])
    .unwrap();
    let big = "x".repeat(600_000);
    store.set(s("keep"), s("kept")).unwrap();
    store.set(s("k"), big.clone()).unwrap();
    store.set(s("j"), big.clone()).unwrap();
    assert_eq!(store.uncompaction(), 0);
    store.remove(s("k")).unwrap();
    assert_eq!(store.uncompaction(), 600_030 + 22);
    assert_eq!(store.current_gen(), 3);
    assert_eq!(store.segments().len(), 3);
    store.remove(s("j")).unwrap();
    assert_eq!(store.uncompaction(), 0);
    assert_eq!(store.current_gen(), 5);
    let gens: Vec<u64> = store.segments().iter().map(|seg| seg.gen).collect();
    assert_eq!(gens, vec![4, 5]);
    assert_eq!(
        String::from_utf8(store.segments()[0].data.clone()).unwrap(),
        "{\"Set\":{\"key\":\"keep\",\"value\":\"kept\"}}"
    );
    assert!(store.segments()[1].data.is_empty());
    assert_eq!(store.get(s("k")).unwrap(), None);
    assert_eq!(store.get(s("j")).unwrap(), None);
    assert_eq!(store.get(s("keep")).unwrap(), Some(s("kept")));
    let mut again = reopen(&store);
    assert_eq!(again.get(s("keep")).unwrap(), Some(s("kept")));
    assert_eq!(again.get(s("j")).unwrap(), None);
}

#[test]
fn set_compacts_tells_when_the_threshold_falls() {
    let mut store = fresh();
    let big = "x".repeat(600_000);
    assert!(!store.set_compacts(&s("k")));
    assert!(!store.contains_key(&s("k")));
    store.set(s("k"), big.clone()).unwrap();
    assert!(store.contains_key(&s("k")));
    assert!(!store.set_compacts(&s("k")));
    assert!(!store.set_compacts(&s("other")));
    store.set(s("k"), big.clone()).unwrap();
    assert_eq!(store.uncompaction(), 600_030);
    assert!(store.set_compacts(&s("k")));
    assert!(!store.set_compacts(&s("other")));
    store.set(s("k"), s("small")).unwrap();
    assert_eq!(store.current_gen(), 3);
}

#[test]
fn active_tail_is_what_was_appended() {
    let mut store = fresh();
    store.set(s("a"), s("1")).unwrap();
    let written = store.segments()[0].data.len();
    store.set(s("b"), s("2")).unwrap();
    assert_eq!(store.active_tail(written), b"{\"Set\":{\"key\":\"b\",\"value\":\"2\"}}");
    assert_eq!(store.active_tail(0), &store.segments()[0].data[..]);
    assert!(store.active_tail(store.segments()[0].data.len()).is_empty());
}

#[test]
fn stale_generations_lie_below_the_oldest_kept() {
    assert_eq!(stale_gens(&vec![1, 2, 5, 6, 7], 6), vec![1, 2, 5]);
    assert_eq!(stale_gens(&vec![9, 3, 4], 4), vec![3]);
    assert_eq!(stale_gens(&vec![4, 5], 4), Vec::<u64>::new());
    assert_eq!(stale_gens(&Vec::new(), 4), Vec::<u64>::new());
    assert_eq!(stale_gens(&vec![0, 1], 0), Vec::<u64>::new());
}

#[test]
fn numbers_are_written_in_decimal() {
    assert_eq!(decimal_text(0), "0");
    assert_eq!(decimal_text(9), "9");
    assert_eq!(decimal_text(10), "10");
    assert_eq!(decimal_text(1_000_203), "1000203");
    assert_eq!(decimal_text(u64::MAX), "18446744073709551615");
    for n in [0u64, 1, 19, 100, 987_654_321, u64::MAX - 1] {
        assert_eq!(decimal_text(n), n.to_string());
    }
}
