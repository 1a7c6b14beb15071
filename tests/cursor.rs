use mvcc_scan::engine::{CfStatistics, Cursor, Entry, Statistics, SEEK_BOUND};

fn e(k: &str, ts: u64) -> Entry<u64> {
    Entry { user_key: k.as_bytes().to_vec(), ts, value: ts }
}

fn family() -> Vec<Entry<u64>> {
    vec![e("a", 9), e("a", 3), e("b", 7), e("c", 5), e("c", 4), e("d", 1)]
}

#[test]
fn cursor_window_follows_range() {
    let es = family();
    let c = Cursor::build(&es, &Some(b"b".to_vec()), &Some(b"d".to_vec()));
    assert_eq!((c.lo, c.hi, c.pos), (2, 5, 2));
    let all = Cursor::build(&es, &None, &None);
    assert_eq!((all.lo, all.hi), (0, 6));
    let empty = Cursor::build(&es, &Some(b"x".to_vec()), &None);
    assert!(!empty.valid());
}

#[test]
fn seek_lands_on_first_not_below_target() {
    let es = family();
    let mut c = Cursor::build(&es, &None, &None);
    let mut st = CfStatistics::new();
    c.seek(&es, &b"a".to_vec(), 5, &mut st);
    assert_eq!(c.pos, 1);
    c.seek(&es, &b"c".to_vec(), u64::MAX, &mut st);
    assert_eq!(c.pos, 3);
    c.seek(&es, &b"c".to_vec(), 0, &mut st);
    assert_eq!(c.pos, 5);
    c.seek(&es, &b"z".to_vec(), 0, &mut st);
    assert!(!c.valid());
    assert_eq!((st.seek, st.next), (4, 0));
}

#[test]
fn internal_seek_is_not_counted() {
    let es = family();
    let mut c = Cursor::build(&es, &None, &None);
    let mut st = CfStatistics::new();
    c.internal_seek(&es, &b"b".to_vec(), 0, &mut st);
    assert_eq!(c.pos, 3);
    assert_eq!(st, CfStatistics::new());
}

#[test]
fn next_and_seek_to_first_count() {
    let es = family();
    let mut c = Cursor::build(&es, &None, &None);
    let mut st = CfStatistics::new();
    c.next(&mut st);
    c.next(&mut st);
    assert_eq!(c.pos, 2);
    c.seek_to_first(&mut st);
    assert_eq!(c.pos, 0);
    assert_eq!((st.seek, st.next), (1, 2));
}

#[test]
fn near_seek_steps_then_seeks() {
    let mut es = Vec::new();
    for i in 0..(3 * SEEK_BOUND as u64) {
        es.push(e("k", 100 - i));
    }
    let mut c = Cursor::build(&es, &None, &None);
    let mut st = CfStatistics::new();
    c.near_seek(&es, &b"k".to_vec(), 98, &mut st);
    assert_eq!(c.pos, 2);
    assert_eq!((st.seek, st.next), (0, 2));
    c.near_seek(&es, &b"k".to_vec(), 80, &mut st);
    assert_eq!(c.pos, 20);
    assert_eq!(st.seek, 1);
    c.near_seek(&es, &b"k".to_vec(), 95, &mut st);
    assert_eq!(c.pos, 5);
    assert_eq!(st.seek, 2);
}

#[test]
fn statistics_start_at_zero() {
    let s = Statistics::default();
    assert_eq!(s, Statistics::new());
    assert_eq!(s.write.seek + s.lock.next + s.data.processed, 0);
}
