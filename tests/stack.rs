use linked_stack::List;

#[test]
fn test() {
    let mut list = List::new();

    // Check empty list behaves right
    assert_eq!(list.pop(), None);

    // Populate list
    list.push(1);
    list.push(2);
    list.push(3);

    // Check normal removal
    assert_eq!(list.pop(), Some(3));
    assert_eq!(list.pop(), Some(2));

    // Push some more just to make sure nothing's corrupted
    list.push(4);
    list.push(5);

    // Check normal removal
    assert_eq!(list.pop(), Some(5));
    assert_eq!(list.pop(), Some(4));

    // Check exhaustion
    assert_eq!(list.pop(), Some(1));
    assert_eq!(list.pop(), None);
}

#[test]
fn pops_return_pushes_in_reverse() {
    let vals = [7, -3, 0, i32::MAX, i32::MIN, 42, 42];
    let mut list = List::new();
    for v in vals {
        list.push(v);
    }
    for v in vals.iter().rev() {
        assert_eq!(list.pop(), Some(*v));
    }
    assert_eq!(list.pop(), None);
}

#[test]
fn pop_on_empty_changes_nothing() {
    let mut list = List::new();
    assert_eq!(list.pop(), None);
    assert_eq!(list.pop(), None);
    list.push(9);
    assert_eq!(list.pop(), Some(9));
    assert_eq!(list.pop(), None);
    list.push(10);
    assert_eq!(list.pop(), Some(10));
    assert_eq!(list.pop(), None);
}

#[test]
fn length_is_pushes_less_successful_pops() {
    let mut list = List::new();
    let mut pushes: usize = 0;
    let mut good_pops: usize = 0;
    for round in 0..30 {
        if round < 2 || round % 3 == 2 {
            if list.pop().is_some() {
                good_pops += 1;
            }
        } else {
            list.push(round);
            pushes += 1;
        }
    }
    let mut left: usize = 0;
    while list.pop().is_some() {
        left += 1;
    }
    assert_eq!(left, pushes - good_pops);
    assert_eq!(pushes, 18);
    assert_eq!(good_pops, 9);
    assert_eq!(left, 9);
}

#[test]
fn top_is_latest_unpopped_push() {
    let mut list = List::new();
    let mut model: Vec<i32> = Vec::new();
    for step in 0..200 {
        if step % 5 == 1 || step % 7 == 3 {
            assert_eq!(list.pop(), model.pop());
        } else {
            list.push(step);
            model.push(step);
        }
    }
    while let Some(v) = model.pop() {
        assert_eq!(list.pop(), Some(v));
    }
    assert_eq!(list.pop(), None);
}

#[test]
fn dropping_a_long_chain_does_not_overflow() {
    let mut list = List::new();
    for i in 0..1_000_000 {
        list.push(i);
    }
    assert_eq!(list.pop(), Some(999_999));
    drop(list);
}

#[test]
fn dropping_empty_and_single_stacks() {
    let list = List::new();
    drop(list);
    let mut one = List::new();
    one.push(-1);
    drop(one);
}
