use sentinel_list::{Handle, HandleError, List, ListHandle};

fn collect(l: &List<i32>) -> Vec<i32> {
    let mut out = Vec::new();
    let mut it = l.iter();
    while let Some(v) = it.next() {
        out.push(*v);
    }
    out
}

#[test]
fn link_unlink() {
    let s = &mut List::new();
    let h1 = s.push_head(1);
    let h2 = s.push_after(&h1, 2).unwrap();
    let h3 = s.push_after(&h2, 3).unwrap();

    assert_eq!(collect(s), vec![1, 2, 3]);
    assert_eq!(s.peek_head(), Some(&1));
    assert_eq!(s.peek_tail(), Some(&3));

    h2.unlink(s).unwrap();

    assert_eq!(collect(s), vec![1, 3]);
    assert_eq!(s.peek_head(), Some(&1));
    assert_eq!(s.peek_tail(), Some(&3));

    let h2 = s.push_after(&h1, 2).unwrap();
    assert_eq!(collect(s), vec![1, 2, 3]);

    h1.unlink(s).unwrap();
    assert_eq!(s.peek_head(), Some(&2));
    h2.unlink(s).unwrap();
    assert_eq!(s.peek_head(), Some(&3));
    assert_eq!(s.peek_tail(), Some(&3));
    assert_eq!(collect(s), vec![3]);
    h3.unlink(s).unwrap();
    assert_eq!(s.peek_head(), None);
    assert_eq!(s.peek_tail(), None);
    assert_eq!(collect(s), Vec::<i32>::new());
}

#[test]
fn iter_test() {
    let l = &mut List::new();
    let h1 = l.push_head(1);
    {
        let h2 = l.push_tail(2);
        h2.release(l).unwrap();
    }
    let h3 = l.push_tail(3);

    let mut i = l.iter();
    assert_eq!(Some(&1), i.next());
    assert_eq!(Some(&3), i.next());
    assert_eq!(None, i.next());

    h1.unlink(l).unwrap();
    h3.unlink(l).unwrap();
}

#[test]
fn iter_mut_test() {
    let l = &mut List::new();
    let h1 = l.push_head(1);
    let h2 = l.push_tail(2);
    let h3 = l.push_tail(3);

    {
        let mut i = l.iter_mut();
        assert_eq!(Some(&mut 1), i.next());
        assert_eq!(Some(&mut 2), i.next());
        assert_eq!(Some(&mut 3), i.next());
        assert_eq!(None, i.next());
    }

    {
        let mut i = l.iter_mut();
        let mut k = 3;
        while let Some(v) = i.next() {
            *v = k;
            k -= 1;
        }
    }

    {
        let mut i = l.iter_mut();
        assert_eq!(Some(&mut 3), i.next());
        assert_eq!(Some(&mut 2), i.next());
        assert_eq!(Some(&mut 1), i.next());
        assert_eq!(None, i.next());
    }

    assert_eq!(&3, h1.as_ref(l).unwrap());
    assert_eq!(&2, h2.as_ref(l).unwrap());
    assert_eq!(&1, h3.as_ref(l).unwrap());
}

#[test]
fn head_and_tail_after_pushes() {
    let l = &mut List::new();
    let h1 = l.push_head(1);
    let h2 = l.push_tail(2);
    let h3 = l.push_tail(3);
    assert_eq!(l.peek_head(), Some(&1));
    assert_eq!(l.peek_tail(), Some(&3));
    assert_eq!(collect(l), vec![1, 2, 3]);
    assert_eq!(h1.as_ref(l), Ok(&1));
    assert_eq!(h2.as_ref(l), Ok(&2));
    assert_eq!(h3.as_ref(l), Ok(&3));
}

#[test]
fn unlink_head_then_tail_then_last() {
    let l = &mut List::new();
    let h1 = l.push_head(1);
    let h2 = l.push_tail(2);
    let h3 = l.push_tail(3);

    assert_eq!(h1.unlink(l), Ok(1));
    assert_eq!(l.peek_head(), Some(&2));
    assert_eq!(l.peek_tail(), Some(&3));
    assert_eq!(collect(l), vec![2, 3]);

    assert_eq!(h3.unlink(l), Ok(3));
    assert_eq!(l.peek_head(), Some(&2));
    assert_eq!(l.peek_tail(), Some(&2));

    assert_eq!(h2.unlink(l), Ok(2));
    assert_eq!(l.peek_head(), None);
    assert_eq!(l.peek_tail(), None);
}

#[test]
fn unlink_gives_back_the_inserted_value() {
    let l = &mut List::new();
    let a = l.push_tail(String::from("alpha"));
    let b = l.push_head(String::from("beta"));
    let c = l.push_tail(vec![0u8; 0].len().to_string());
    assert_eq!(b.unlink(l), Ok(String::from("beta")));
    assert_eq!(c.unlink(l), Ok(String::from("0")));
    assert_eq!(a.unlink(l), Ok(String::from("alpha")));
    assert_eq!(l.peek_head(), None);
}

#[test]
fn release_removes_like_unlink() {
    let l = &mut List::new();
    let h1 = l.push_tail(1);
    let h2 = l.push_tail(2);
    let h3 = l.push_tail(3);
    assert_eq!(h2.release(l), Ok(()));
    assert_eq!(collect(l), vec![1, 3]);
    assert_eq!(h1.release(l), Ok(()));
    assert_eq!(l.peek_head(), Some(&3));
    assert_eq!(l.peek_tail(), Some(&3));
    assert_eq!(h3.release(l), Ok(()));
    assert_eq!(l.peek_head(), None);
}

#[test]
fn iterating_an_empty_list_ends_at_once() {
    let l: &mut List<i32> = &mut List::new();
    let mut it = l.iter();
    assert_eq!(it.next(), None);
    assert_eq!(it.next(), None);
    let mut m = l.iter_mut();
    assert_eq!(m.next(), None);
}

#[test]
fn relinking_after_removals_keeps_neighbours() {
    let l = &mut List::new();
    let a = l.push_tail(10);
    let b = l.push_tail(20);
    assert_eq!(a.unlink(l), Ok(10));
    assert_eq!(b.unlink(l), Ok(20));
    let c = l.push_tail(30);
    let d = l.push_head(40);
    let e = l.push_after(&c, 50).unwrap();
    assert_eq!(collect(l), vec![40, 30, 50]);
    assert_eq!(l.peek_head(), Some(&40));
    assert_eq!(l.peek_tail(), Some(&50));
    assert_eq!(c.unlink(l), Ok(30));
    assert_eq!(collect(l), vec![40, 50]);
    assert_eq!(d.unlink(l), Ok(40));
    assert_eq!(e.unlink(l), Ok(50));
    assert_eq!(collect(l), Vec::<i32>::new());
}

#[test]
fn reused_slot_holds_the_new_element() {
    let l = &mut List::new();
    let a = l.push_tail(1);
    let b = l.push_tail(2);
    let a_again = l.push_after(&b, 9).unwrap();
    assert_eq!(a.unlink(l), Ok(1));
    // the slot of `a` is reused by the next insertion
    let c = l.push_tail(3);
    assert_eq!(collect(l), vec![2, 9, 3]);
    assert_eq!(c.as_ref(l), Ok(&3));
    assert_eq!(a_again.unlink(l), Ok(9));
    assert_eq!(b.unlink(l), Ok(2));
    assert_eq!(c.unlink(l), Ok(3));
}

#[test]
fn handle_from_another_list_is_refused() {
    let l1 = &mut List::new();
    let l2: &mut List<i32> = &mut List::new();
    let h = l1.push_tail(1);
    assert_eq!(h.as_ref(l2), Err(HandleError::StaleHandle));
    assert_eq!(l2.push_after(&h, 5).map(|_: Handle| ()), Err(HandleError::StaleHandle));
    assert_eq!(h.unlink(l2), Err(HandleError::StaleHandle));
    assert_eq!(l1.peek_head(), Some(&1));
}

#[test]
fn peek_mut_changes_head_and_tail() {
    let l = &mut List::new();
    let h1 = l.push_tail(1);
    let h2 = l.push_tail(2);
    *l.peek_head_mut().unwrap() = 10;
    *l.peek_tail_mut().unwrap() = 20;
    assert_eq!(collect(l), vec![10, 20]);
    assert_eq!(h1.unlink(l), Ok(10));
    *l.peek_head_mut().unwrap() += 1;
    assert_eq!(l.peek_tail(), Some(&21));
    assert_eq!(h2.unlink(l), Ok(21));
    assert_eq!(l.peek_head_mut(), None);
    assert_eq!(l.peek_tail_mut(), None);
}
