use carbonyl::gfx::Color;
use carbonyl::hints::{color_distance, make_hint_labels};

#[test]
fn no_targets_no_labels() {
    assert!(make_hint_labels(0).is_empty());
}

#[test]
fn one_letter_labels_up_to_26() {
    assert_eq!(make_hint_labels(3), vec!["a", "b", "c"]);
    let l = make_hint_labels(26);
    assert_eq!(l[25], "z");
}

#[test]
fn two_letter_labels_up_to_676() {
    let l = make_hint_labels(27);
    assert_eq!(l.len(), 27);
    assert_eq!(l[0], "aa");
    assert_eq!(l[25], "az");
    assert_eq!(l[26], "ba");
    assert_eq!(make_hint_labels(676)[675], "zz");
}

#[test]
fn three_letter_labels_beyond() {
    let l = make_hint_labels(677);
    assert_eq!(l[0], "aaa");
    assert_eq!(l[27], "abb");
    assert_eq!(l[676], "baa");
}

#[test]
fn labels_are_prefix_free() {
    for n in [5usize, 40, 700] {
        let l = make_hint_labels(n);
        for i in 0..n {
            for j in 0..n {
                if i != j {
                    assert!(!l[j].starts_with(l[i].as_str()));
                }
            }
        }
    }
}

#[test]
fn color_distance_sums_channel_differences() {
    let a = Color::new(10, 20, 30);
    let b = Color::new(20, 0, 35);
    assert_eq!(color_distance(a, b), 35);
    assert_eq!(color_distance(b, a), 35);
    assert_eq!(color_distance(a, a), 0);
    assert_eq!(color_distance(Color::splat(0), Color::splat(255)), 765);
}
