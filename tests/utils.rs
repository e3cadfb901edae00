use crawdad::utils::longest_common_prefix;
use std::cmp::Ordering;

#[test]
fn test_longest_common_prefix() {
    assert_eq!(
        longest_common_prefix(&['a', 'b'], &['a', 'b', 'c']),
        (2, Ordering::Less)
    );
    assert_eq!(
        longest_common_prefix(&['a', 'b'], &['a', 'b']),
        (2, Ordering::Equal)
    );
    assert_eq!(
        longest_common_prefix(&['a', 'b', 'c'], &['a', 'b']),
        (2, Ordering::Greater)
    );
}

#[test]
fn longest_common_prefix_first_difference() {
    assert_eq!(longest_common_prefix(&['a', 'x'], &['a', 'b']), (1, Ordering::Greater));
    assert_eq!(longest_common_prefix(&[], &['a']), (0, Ordering::Less));
}
