use file_proxy::proxy::cache::entry::{clock_now, Entry, STALE_AFTER_NANOS};
use file_proxy::proxy::cache::{Cache, CacheRead};

#[test]
fn an_entry_answers_reads_of_what_was_written() {
    let mut e = Entry::new("/f".to_string());
    assert_eq!(e.file_name, "/f");
    assert!(!e.is_dirty());
    assert_eq!(e.read_data(0), Some(Vec::new()));
    assert_eq!(e.read_data(1), None);
    e.write_data(b"hello".to_vec(), false);
    assert!(e.is_dirty());
    assert_eq!(e.read_count(), 5);
    assert_eq!(e.read_data(3), Some(b"hel".to_vec()));
    assert_eq!(e.read_data(5), Some(b"hello".to_vec()));
    assert_eq!(e.read_data(6), None);
    e.write_data(b" you".to_vec(), true);
    assert_eq!(e.read_count(), 9);
    assert_eq!(e.read_data(9), Some(b"hello you".to_vec()));
    e.write_data(b"x".to_vec(), false);
    assert_eq!(e.data(), &b"x".to_vec());
    e.mark_clean();
    assert!(!e.is_dirty());
}

#[test]
fn an_entry_keeps_a_fetched_reply_without_its_line_end() {
    let mut e = Entry::new("/f".to_string());
    let kept = e.store_read_reply(b"abc\n".to_vec(), 77);
    assert_eq!(kept, b"abc".to_vec());
    assert_eq!(e.read_count(), 4);
    assert_eq!(e.data(), &b"abc".to_vec());
    assert_eq!(e.last_requested(), 77);
    assert_eq!(e.read_data(2), Some(b"ab".to_vec()));
}

#[test]
fn an_entry_goes_stale_after_an_hour() {
    let e = Entry::new("/f".to_string());
    let t = e.last_requested();
    assert!(!e.is_stale_at(t));
    assert!(!e.is_stale_at(t + STALE_AFTER_NANOS - 1));
    assert!(e.is_stale_at(t + STALE_AFTER_NANOS));
    assert!(t == 0 || e.is_stale_at(t - 1));
    assert!(!e.is_stale());
    assert!(clock_now() >= t);
}

#[test]
fn a_new_cache_is_empty() {
    let c = Cache::new(3);
    assert_eq!(c.capacity(), 3);
    assert_eq!(c.next_fd(), 1);
    assert_eq!(c.get_node(1), None);
    assert_eq!(c.entry(2).file_name, "DOESN'T EXIST");
}

#[test]
fn descriptors_count_up_from_one() {
    let mut c = Cache::new(1);
    assert_eq!(c.generate_fd(), 1);
    assert_eq!(c.generate_fd(), 2);
    assert_eq!(c.next_fd(), 3);
}

#[test]
fn a_read_after_a_write_is_answered_from_the_cache() {
    let mut c = Cache::new(2);
    c.write_file(7, b"data".to_vec(), false, "/x".to_string());
    assert_eq!(c.get_node(7), Some(0));
    assert!(c.read_fits(7, 4));
    assert_eq!(c.read_file(7, 4), CacheRead::Hit(b"data".to_vec()));
    assert_eq!(c.read_file(7, 2), CacheRead::Hit(b"da".to_vec()));
    assert_eq!(c.read_file(7, 5), CacheRead::Refresh(0));
    assert_eq!(c.read_file(8, 1), CacheRead::Miss);
    c.write_file(7, b"++".to_vec(), true, "/ignored".to_string());
    assert_eq!(c.read_file(7, 6), CacheRead::Hit(b"data++".to_vec()));
    assert_eq!(c.entry(0).file_name, "/x");
}

#[test]
fn new_entries_take_free_slots_in_order_then_the_tail() {
    let mut c = Cache::new(2);
    assert!(c.write_file(1, b"a".to_vec(), false, "/a".to_string()).is_none());
    assert!(c.write_file(2, b"b".to_vec(), false, "/b".to_string()).is_none());
    assert_eq!(c.get_node(1), Some(0));
    assert_eq!(c.get_node(2), Some(1));
    // Slot 0 (descriptor 1) is the least recent: a third descriptor takes it,
    // and the entry it held comes back with its unsent write.
    let evicted = c.write_file(3, b"c".to_vec(), false, "/c".to_string()).expect("an eviction");
    assert_eq!(evicted.file_name, "/a");
    assert!(evicted.is_dirty());
    assert_eq!(evicted.data(), &b"a".to_vec());
    assert_eq!(c.get_node(3), Some(0));
    assert_eq!(c.read_file(3, 1), CacheRead::Hit(b"c".to_vec()));
    // The evicted descriptor is no longer cached.
    assert_eq!(c.get_node(1), None);
    assert_eq!(c.read_file(1, 1), CacheRead::Miss);
    assert_eq!(c.get_node(2), Some(1));
}

#[test]
fn a_read_moves_its_slot_to_the_front() {
    let mut c = Cache::new(2);
    c.write_file(1, b"a".to_vec(), false, "/a".to_string());
    c.write_file(2, b"b".to_vec(), false, "/b".to_string());
    assert_eq!(c.read_file(1, 1), CacheRead::Hit(b"a".to_vec()));
    // Now slot 1 (descriptor 2) is the least recent.
    c.write_file(3, b"c".to_vec(), false, "/c".to_string());
    assert_eq!(c.get_node(3), Some(1));
}

#[test]
fn an_inserted_entry_is_kept_whole() {
    let mut c = Cache::new(1);
    let mut e = Entry::new("/z".to_string());
    e.write_data(b"zz".to_vec(), false);
    c.insert(e, 9);
    assert_eq!(c.get_node(9), Some(0));
    assert_eq!(c.read_file(9, 2), CacheRead::Hit(b"zz".to_vec()));
}

#[test]
fn a_fetched_reply_is_kept_in_its_slot() {
    let mut c = Cache::new(1);
    c.write_file(4, b"ab".to_vec(), false, "/f".to_string());
    assert_eq!(c.read_file(4, 3), CacheRead::Refresh(0));
    c.mark_clean(0);
    assert!(!c.entry(0).is_dirty());
    let kept = c.store_read_reply(0, b"abc\n".to_vec(), 5);
    assert_eq!(kept, b"abc".to_vec());
    assert_eq!(c.read_file(4, 3), CacheRead::Hit(b"abc".to_vec()));
    // The entry counts the line end too; a read of that many cannot slice.
    assert!(!c.read_fits(4, 4));
}

#[test]
fn a_sweep_gives_up_stale_slots() {
    let mut c = Cache::new(2);
    c.write_file(5, b"x".to_vec(), false, "/x".to_string());
    let now = c.entry(0).last_requested();
    let quiet = c.sweep_cache_at(now);
    assert!(quiet.fds.is_empty() || quiet.fds == vec![0]);
    assert_eq!(quiet.dropped, Vec::<usize>::new());
    let later = c.entry(1).last_requested().max(now) + STALE_AFTER_NANOS;
    let s = c.sweep_cache_at(later);
    assert_eq!(s.fds, vec![5, 0]);
    assert_eq!(s.dropped, vec![0]);
    assert_eq!(c.get_node(5), None);
    // The freed slot is the next to be taken, after the one still free.
    c.write_file(6, b"y".to_vec(), false, "/y".to_string());
    assert_eq!(c.get_node(6), Some(1));
    c.write_file(7, b"z".to_vec(), false, "/z".to_string());
    assert_eq!(c.get_node(7), Some(0));
    let fresh = c.sweep_cache();
    assert!(fresh.dropped.is_empty());
}

#[test]
fn an_eviction_keeps_the_recency_order() {
    let mut c = Cache::new(2);
    c.write_file(1, b"a".to_vec(), false, "/a".to_string());
    c.write_file(2, b"b".to_vec(), false, "/b".to_string());
    c.write_file(3, b"c".to_vec(), false, "/c".to_string());
    assert_eq!(c.get_node(3), Some(0));
    assert_eq!(c.read_file(3, 1), CacheRead::Hit(b"c".to_vec()));
    // Slot 1 (descriptor 2) is now the least recent, and goes next.
    let evicted = c.write_file(4, b"d".to_vec(), false, "/d".to_string()).expect("an eviction");
    assert_eq!(evicted.file_name, "/b");
    assert_eq!(c.get_node(4), Some(1));
    assert_eq!(c.get_node(2), None);
    assert_eq!(c.read_file(3, 1), CacheRead::Hit(b"c".to_vec()));
    // Descriptor 3 was just read: descriptor 4's slot goes next.
    let evicted = c.insert(Entry::new("/e".to_string()), 5).expect("an eviction");
    assert_eq!(evicted.file_name, "/d");
    assert_eq!(c.get_node(5), Some(1));
    assert_eq!(c.get_node(3), Some(0));
}

#[test]
fn an_eviction_hands_back_a_clean_entry_too() {
    let mut c = Cache::new(1);
    let mut e = Entry::new("/r".to_string());
    assert_eq!(e.store_read_reply(b"rr\n".to_vec(), 1), b"rr".to_vec());
    assert!(c.insert(e, 1).is_none());
    let evicted = c.insert(Entry::new("/s".to_string()), 2).expect("an eviction");
    assert_eq!(evicted.file_name, "/r");
    assert!(!evicted.is_dirty());
    assert_eq!(c.get_node(1), None);
    assert_eq!(c.get_node(2), Some(0));
}

#[test]
fn a_sweep_drops_a_descriptor_that_moved_to_another_slot() {
    let mut c = Cache::new(2);
    c.write_file(5, b"x".to_vec(), false, "/x".to_string());
    c.store_read_reply(0, b"x\n".to_vec(), 100);
    let s = c.sweep_cache_at(100 + STALE_AFTER_NANOS);
    assert_eq!(s.dropped, vec![0]);
    assert_eq!(c.get_node(5), None);
    // Descriptor 5 comes back and takes slot 1; slot 0 still holds its old entry.
    c.write_file(5, b"y".to_vec(), false, "/x".to_string());
    assert_eq!(c.get_node(5), Some(1));
    let later = 100 + 2 * STALE_AFTER_NANOS;
    c.store_read_reply(1, b"y\n".to_vec(), later);
    // The stale slot 0 still names descriptor 5: the map forgets it, though
    // slot 1 stays in the list and slot 0 stays free.
    let s = c.sweep_cache_at(later);
    assert_eq!(s.fds, vec![5]);
    assert_eq!(s.dropped, vec![0]);
    assert_eq!(c.get_node(5), None);
    assert_eq!(c.read_file(5, 1), CacheRead::Miss);
    // Both slots are in use again after two more entries: slot 0 was free,
    // slot 1 is the least recent.
    assert!(c.write_file(6, b"z".to_vec(), false, "/z".to_string()).is_none());
    assert_eq!(c.get_node(6), Some(0));
    let evicted = c.write_file(7, b"w".to_vec(), false, "/w".to_string()).expect("an eviction");
    assert_eq!(evicted.data(), &b"y".to_vec());
    assert_eq!(c.get_node(7), Some(1));
}

#[test]
fn a_sweep_step_on_a_single_slot() {
    let mut c = Cache::new(2);
    c.write_file(3, b"q".to_vec(), false, "/q".to_string());
    // Slot 1 is free and names no cached descriptor: nothing to drop.
    assert!(!c.remove_node(1));
    assert_eq!(c.get_node(3), Some(0));
    assert!(c.remove_node(0));
    assert_eq!(c.get_node(3), None);
    // Slot 0 went to the back of the free queue.
    c.write_file(4, b"r".to_vec(), false, "/r".to_string());
    assert_eq!(c.get_node(4), Some(1));
    c.write_file(8, b"s".to_vec(), false, "/s".to_string());
    assert_eq!(c.get_node(8), Some(0));
}

#[test]
fn an_entry_made_at_a_time_is_fresh_for_an_hour() {
    let e = Entry::new_at("/n".to_string(), -5);
    assert_eq!(e.last_requested(), -5);
    assert!(!e.is_dirty());
    assert_eq!(e.read_data(0), Some(Vec::new()));
    assert_eq!(e.read_data(1), None);
    assert!(!e.is_stale_at(-5));
    assert!(!e.is_stale_at(-5 + STALE_AFTER_NANOS - 1));
    assert!(e.is_stale_at(-5 + STALE_AFTER_NANOS));
    assert!(e.is_stale_at(-6));
    let old = Entry::new_at("/o".to_string(), i128::MIN);
    assert!(!old.is_stale_at(i128::MIN + 1));
    assert!(old.is_stale_at(i128::MAX));
    let fresh = Entry::new("/f".to_string());
    assert!(!fresh.is_stale());
}
