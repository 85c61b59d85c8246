use yahtzee::types::{is_full_house, is_large_straight, is_small_straight, is_yahtzee};

fn full_houses() -> Vec<Vec<u8>> {
    let mut full_houses = Vec::new();
    for x in 1..=6u8 {
        for y in x + 1..=6u8 {
            full_houses.push(vec![x, x, x, y, y]);
            full_houses.push(vec![x, x, y, y, y]);
        }
    }
    full_houses
}

fn small_straights() -> Vec<Vec<u8>> {
    let straights: Vec<Vec<u8>> = vec![vec![1, 2, 3, 4], vec![2, 3, 4, 5], vec![3, 4, 5, 6]];
    let mut small_straights = Vec::new();
    for i in 1..=6u8 {
        for mut s in straights.iter().cloned() {
            // do not make large straights
            if s.contains(&i) {
                s.push(i);
                small_straights.push(s);
            }
        }
    }
    small_straights.push(vec![1, 2, 3, 4, 6]);
    small_straights.push(vec![1, 3, 4, 5, 6]);
    small_straights
}

fn large_straights() -> Vec<Vec<u8>> {
    vec![vec![1, 2, 3, 4, 5], vec![2, 3, 4, 5, 6]]
}

fn yahtzees() -> Vec<Vec<u8>> {
    let mut yahtzees = Vec::new();
    for i in 1..=6u8 {
        yahtzees.push(vec![i; 5]);
    }
    yahtzees
}

#[test]
fn test_is_full_house() {
    for i in full_houses() {
        assert!(is_full_house(&i));
    }
    for i in small_straights() {
        assert!(!is_full_house(&i));
    }
    for i in large_straights() {
        assert!(!is_full_house(&i));
    }
    for i in yahtzees() {
        assert!(!is_full_house(&i));
    }
    assert!(!is_full_house(&vec![2, 2, 3, 4, 5]));
    assert!(!is_full_house(&vec![2, 3, 4, 4, 5]));
    assert!(!is_full_house(&vec![2, 3, 4, 5, 5]));
    assert!(!is_full_house(&vec![1, 2, 3, 4, 5]));
    assert!(!is_full_house(&vec![2, 3, 4, 5, 6]));
    assert!(!is_full_house(&vec![2, 6, 4, 5, 3]));
}

#[test]
fn test_is_small_straight() {
    for i in large_straights() {
        assert!(is_small_straight(&i));
    }
    for i in small_straights() {
        assert!(is_small_straight(&i));
    }
    for i in full_houses() {
        assert!(!is_small_straight(&i));
    }
    for i in yahtzees() {
        assert!(!is_small_straight(&i));
    }
    assert!(!is_small_straight(&vec![1, 1, 1, 1, 5]));
    assert!(!is_small_straight(&vec![5, 1, 1, 1, 1]));
}

#[test]
fn test_is_large_straight() {
    for i in large_straights() {
        assert!(is_large_straight(&i));
    }
    for i in full_houses() {
        assert!(!is_large_straight(&i));
    }
    for i in small_straights() {
        assert!(!is_large_straight(&i));
    }
    for i in yahtzees() {
        assert!(!is_large_straight(&i));
    }
    assert!(is_large_straight(&vec![2, 6, 4, 5, 3]));
    assert!(!is_large_straight(&vec![2, 3, 4, 4, 5]));
    assert!(!is_large_straight(&vec![2, 3, 4, 5, 5]));
    assert!(!is_large_straight(&vec![1, 1, 1, 1, 5]));
    assert!(!is_large_straight(&vec![5, 1, 1, 1, 1]));
}

#[test]
fn test_is_yahtzee() {
    for i in yahtzees() {
        assert!(is_yahtzee(&i));
    }
    for i in full_houses() {
        assert!(!is_yahtzee(&i));
    }
    for i in small_straights() {
        assert!(!is_yahtzee(&i));
    }
    for i in large_straights() {
        assert!(!is_yahtzee(&i));
    }
    assert!(!is_yahtzee(&vec![1, 1, 1, 1, 5]));
    assert!(!is_yahtzee(&vec![5, 1, 1, 1, 1]));
}
