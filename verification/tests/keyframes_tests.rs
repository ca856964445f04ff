use animator::keyframes::Keyframes;
use animator::layout::locate_state;

#[test]
fn keyframes_empty_has_nothing() {
    let k: Keyframes<&str> = Keyframes::new();
    assert_eq!(k.len(), 0);
    assert_eq!(k.latest(5), None);
    assert_eq!(k.first(), None);
}

#[test]
fn keyframes_latest_at_or_before() {
    let mut k: Keyframes<&str> = Keyframes::new();
    k.insert(10, "b");
    k.insert(0, "a");
    k.insert(10, "c");
    k.insert(20, "d");
    assert_eq!(k.len(), 4);
    assert_eq!(k.first(), Some(&"a"));
    assert_eq!(k.latest(5), Some(&"a"));
    // of two keyframes with the same key, the one added later counts
    assert_eq!(k.latest(10), Some(&"c"));
    assert_eq!(k.latest(15), Some(&"c"));
    assert_eq!(k.latest(20), Some(&"d"));
    assert_eq!(k.latest(u64::MAX), Some(&"d"));
}

#[test]
fn keyframes_lookup_before_first_key() {
    let mut k = Keyframes::new();
    k.insert(3, 1);
    assert_eq!(k.latest(2), None);
    assert_eq!(k.latest(3), Some(&1));
    assert_eq!(k.first(), Some(&1));
}

#[test]
fn keyframes_insert_then_read_back() {
    let mut k = Keyframes::new();
    k.insert(5, 'x');
    k.insert(9, 'y');
    assert_eq!(k.latest(4), None);
    k.insert(7, 'z');
    assert_eq!(k.latest(7), Some(&'z'));
    assert_eq!(k.latest(6), Some(&'x'));
    assert_eq!(k.latest(8), Some(&'z'));
    assert_eq!(k.latest(9), Some(&'y'));
}

#[test]
fn locate_state_finds_the_interval() {
    let bounds = vec![0, 10, 15, 30];
    assert_eq!(locate_state(&bounds, 0), 0);
    assert_eq!(locate_state(&bounds, 9), 0);
    assert_eq!(locate_state(&bounds, 10), 1);
    assert_eq!(locate_state(&bounds, 14), 1);
    assert_eq!(locate_state(&bounds, 15), 2);
    assert_eq!(locate_state(&bounds, 29), 2);
}

#[test]
fn locate_state_two_bounds() {
    let bounds = vec![3, 4];
    assert_eq!(locate_state(&bounds, 3), 0);
}
