use topojson_client::bisect::bisect;
use topojson_client::reverse::reverse;
use topojson_client::translate;

#[test]
fn test_double_zero() {
    let input = [-2, -1, 0, 1, 2];
    let mut output = [usize::MIN; 5];
    for (i, arc) in input.iter().enumerate() {
        output[i] = translate(*arc);
    }
    assert_eq!(output, [1, 0, 0, 1, 2]);
}

#[test]
fn simple() {
    assert_eq!(bisect(&[0, 2, 3, 4], 4), 3);
    assert_eq!(bisect(&[1, 2, 3, 4], 3), 2);
}

#[test]
fn test_partial_reverse() {
    let mut a = vec![1, 2, 3, 4, 5, 6, 7, 8, 9, 10];
    reverse(&mut a, 5);
    assert_eq!(a, vec![1, 2, 3, 4, 5, 10, 9, 8, 7, 6]);

    let mut b = vec![1, 2, 3, 4, 5, 6, 7, 8, 9, 10];
    reverse(&mut b, 2);
    assert_eq!(b, vec![1, 2, 3, 4, 5, 6, 7, 8, 10, 9]);
}

#[test]
fn a_reference_names_the_arc_at_its_ones_complement() {
    assert_eq!(translate(0), 0);
    assert_eq!(translate(!0), 0);
    assert_eq!(translate(7), 7);
    assert_eq!(translate(!7), 7);
    assert_eq!(translate(-8), 7);
    assert_eq!(translate(i32::MAX), 2147483647);
    assert_eq!(translate(i32::MIN), 2147483647);
}

#[test]
fn the_search_ends_at_the_leftmost_place_that_keeps_the_order() {
    assert_eq!(bisect(&[], 5), 0);
    assert_eq!(bisect(&[5], 5), 0);
    assert_eq!(bisect(&[5], 6), 1);
    assert_eq!(bisect(&[5], 4), 0);
    assert_eq!(bisect(&[1, 3, 3, 3, 7], 3), 1);
    assert_eq!(bisect(&[1, 3, 3, 3, 7], 4), 4);
    assert_eq!(bisect(&[1, 3, 3, 3, 7], 8), 5);
    assert_eq!(bisect(&[1, 3, 3, 3, 7], i32::MIN), 0);
    assert_eq!(bisect(&[-4, -2, 0], -2), 1);
}

#[test]
fn the_search_halves_whatever_it_is_given() {
    // Out of order: the midpoint 9 is not below 5, so the lower half is kept.
    assert_eq!(bisect(&[7, 9, 1], 5), 0);
    // The midpoint 1 is below 5, so the upper half is kept.
    assert_eq!(bisect(&[7, 1, 9], 5), 2);
}

#[test]
fn the_tail_is_reversed_and_the_head_stays() {
    let mut a = vec![1, 2, 3];
    reverse(&mut a, 0);
    assert_eq!(a, vec![1, 2, 3]);
    reverse(&mut a, 1);
    assert_eq!(a, vec![1, 2, 3]);
    reverse(&mut a, 3);
    assert_eq!(a, vec![3, 2, 1]);
    reverse(&mut a, 2);
    assert_eq!(a, vec![3, 1, 2]);
    let mut none: Vec<u8> = vec![];
    reverse(&mut none, 0);
    assert_eq!(none, Vec::<u8>::new());
    let mut pairs = vec![(0.5, 1.5), (2.5, 3.5), (4.5, 5.5), (6.5, 7.5)];
    reverse(&mut pairs, 3);
    assert_eq!(pairs, vec![(0.5, 1.5), (6.5, 7.5), (4.5, 5.5), (2.5, 3.5)]);
}
