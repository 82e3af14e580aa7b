use complex_table::error::Error;
use complex_table::hashing::bucket_index;
use complex_table::surd::QuadraticSurd;
use complex_table::table::{ComplexTable, Handle, Operation, INITIAL_BUCKETS};
use complex_table::value::ComplexValue;

fn count(table: &ComplexTable, h: Handle) -> usize {
    table.entry(h).unwrap().ref_count()
}

#[test]
fn new_table_holds_the_three_pinned_values() {
    let t = ComplexTable::new();
    assert_eq!(t.len(), 3);
    assert_eq!(t.bucket_count(), INITIAL_BUCKETS);
    assert_eq!(t.resolve(t.zero_handle()), Ok(ComplexValue::zero()));
    assert_eq!(t.resolve(t.one_handle()), Ok(ComplexValue::one()));
    assert_eq!(t.resolve(t.inv_sqrt2_handle()), Ok(ComplexValue::inv_sqrt2()));
    for h in [t.zero_handle(), t.one_handle(), t.inv_sqrt2_handle()] {
        let e = t.entry(h).unwrap();
        assert!(e.is_pinned());
        assert_eq!(e.ref_count(), 0);
        assert_eq!(e.next_slot(), None);
        assert!(t.is_live(h));
    }
    assert_ne!(t.zero_handle(), t.one_handle());
    assert_ne!(t.one_handle(), t.inv_sqrt2_handle());
}

#[test]
fn two_tables_are_independent() {
    let mut a = ComplexTable::new();
    let b = ComplexTable::new();
    let h = a.lookup_or_insert(ComplexValue::from_integer(5));
    assert_eq!(a.len(), 4);
    assert_eq!(b.len(), 3);
    assert!(a.is_live(h));
    assert!(!b.is_live(h));
    assert_eq!(b.resolve(h), Err(Error::DanglingHandle));
}

#[test]
fn lookup_of_a_pinned_value_gives_its_handle() {
    let mut t = ComplexTable::new();
    assert_eq!(t.lookup_or_insert(ComplexValue::zero()), t.zero_handle());
    assert_eq!(t.lookup_or_insert(ComplexValue::one()), t.one_handle());
    assert_eq!(t.lookup_or_insert(ComplexValue::inv_sqrt2()), t.inv_sqrt2_handle());
    assert_eq!(t.lookup_or_insert(ComplexValue::one()), t.one_handle());
    assert_eq!(t.len(), 3);
    assert_eq!(count(&t, t.zero_handle()), 1);
    assert_eq!(count(&t, t.one_handle()), 2);
}

#[test]
fn equal_values_share_one_entry() {
    let mut t = ComplexTable::new();
    let v1 = ComplexValue::from_pair((3, 4));
    let v2 = ComplexValue::new(QuadraticSurd::from_integer(3), QuadraticSurd::new(4, 0, 1, 0).unwrap());
    assert!(v1.equals(&v2));
    let h1 = t.lookup_or_insert(v1);
    assert_eq!(t.len(), 4);
    assert_eq!(count(&t, h1), 1);
    let h2 = t.lookup_or_insert(v2);
    assert_eq!(h1, h2);
    assert_eq!(t.len(), 4);
    assert_eq!(count(&t, h1), 2);
    assert_eq!(t.resolve(h1), Ok(v1));
    assert!(!t.entry(h1).unwrap().is_pinned());
    assert_eq!(t.entry(h1).unwrap().value(), v1);
}

#[test]
fn values_reached_by_different_arithmetic_share_one_entry() {
    let mut t = ComplexTable::new();
    let h = t.inv_sqrt2_handle();
    let half = t.combine(Operation::Multiply, h, h).unwrap();
    let one_by_sum = t.combine(Operation::Add, half, half).unwrap();
    assert_eq!(one_by_sum, t.one_handle());
    let quarter = t.combine(Operation::Multiply, half, half).unwrap();
    let half_by_sum = t.combine(Operation::Add, quarter, quarter).unwrap();
    assert_eq!(half_by_sum, half);
    assert_eq!(t.len(), 5);
}

#[test]
fn combine_multiplies_inv_sqrt2_four_times_to_one_quarter() {
    let mut t = ComplexTable::new();
    let h = t.inv_sqrt2_handle();
    let mut acc = t.one_handle();
    for _ in 0..4 {
        acc = t.combine(Operation::Multiply, acc, h).unwrap();
    }
    let v = t.resolve(acc).unwrap();
    assert_eq!(v.real_part(), QuadraticSurd::new(1, 0, 4, 0).unwrap());
    assert_eq!(v.real_part().coeff(), 0);
    assert_eq!(v.real_part().radicand(), 0);
    assert_eq!(v.imaginary_part(), QuadraticSurd::zero());
}

#[test]
fn combine_adds_and_multiplies() {
    let mut t = ComplexTable::new();
    let a = t.lookup_or_insert(ComplexValue::from_pair((1, 2)));
    let b = t.lookup_or_insert(ComplexValue::from_pair((3, 4)));
    let sum = t.combine(Operation::Add, a, b).unwrap();
    let product = t.combine(Operation::Multiply, a, b).unwrap();
    assert_eq!(t.resolve(sum), Ok(ComplexValue::from_pair((4, 6))));
    assert_eq!(t.resolve(product), Ok(ComplexValue::from_pair((-5, 10))));
    assert_eq!(count(&t, sum), 1);
    assert_eq!(count(&t, a), 1);
    let again = t.combine(Operation::Add, b, a).unwrap();
    assert_eq!(again, sum);
    assert_eq!(count(&t, sum), 2);
}

#[test]
fn combine_refuses_a_dangling_handle() {
    let mut t = ComplexTable::new();
    let a = t.lookup_or_insert(ComplexValue::from_integer(9));
    t.release(a).unwrap();
    let one = t.one_handle();
    assert_eq!(t.combine(Operation::Add, a, one), Err(Error::DanglingHandle));
    assert_eq!(t.combine(Operation::Multiply, one, a), Err(Error::DanglingHandle));
    assert_eq!(t.len(), 3);
    assert_eq!(count(&t, one), 0);
}

#[test]
fn combine_refuses_an_unrepresentable_radicand() {
    let mut t = ComplexTable::new();
    let a = t.lookup_or_insert(
        ComplexValue::new(QuadraticSurd::new(1, 1, 1, 2).unwrap(), QuadraticSurd::zero()),
    );
    let b = t.lookup_or_insert(
        ComplexValue::new(QuadraticSurd::new(1, 1, 1, 3).unwrap(), QuadraticSurd::zero()),
    );
    assert_eq!(t.combine(Operation::Multiply, a, b), Err(Error::UnrepresentableRadicand));
    assert_eq!(t.combine(Operation::Add, a, b), Err(Error::UnrepresentableRadicand));
    assert_eq!(t.len(), 5);
    assert_eq!(count(&t, a), 1);
    assert_eq!(count(&t, b), 1);
}

#[test]
fn retain_and_release_move_the_count() {
    let mut t = ComplexTable::new();
    let h = t.lookup_or_insert(ComplexValue::from_integer(42));
    assert_eq!(count(&t, h), 1);
    assert_eq!(t.retain(h), Ok(()));
    assert_eq!(t.retain(h), Ok(()));
    assert_eq!(count(&t, h), 3);
    assert_eq!(t.release(h), Ok(()));
    assert_eq!(count(&t, h), 2);
    assert_eq!(t.release(h), Ok(()));
    assert_eq!(count(&t, h), 1);
    assert_eq!(t.resolve(h), Ok(ComplexValue::from_integer(42)));
    assert_eq!(t.release(h), Ok(()));
    assert!(!t.is_live(h));
    assert!(t.entry(h).is_none());
}

#[test]
fn release_below_zero_is_a_double_release() {
    let mut t = ComplexTable::new();
    let h = t.lookup_or_insert(ComplexValue::from_integer(42));
    let other = t.lookup_or_insert(ComplexValue::from_integer(43));
    assert_eq!(t.release(h), Ok(()));
    assert_eq!(t.release(h), Err(Error::DoubleRelease));
    assert_eq!(t.release(h), Err(Error::DoubleRelease));
    assert_eq!(t.len(), 4);
    assert_eq!(count(&t, other), 1);
    assert_eq!(t.resolve(other), Ok(ComplexValue::from_integer(43)));
}

#[test]
fn retain_of_a_dangling_handle_is_refused() {
    let mut t = ComplexTable::new();
    let h = t.lookup_or_insert(ComplexValue::from_integer(42));
    t.release(h).unwrap();
    assert_eq!(t.retain(h), Err(Error::DanglingHandle));
    assert_eq!(t.len(), 3);
}

#[test]
fn reclaimed_handle_dangles_and_the_value_gets_a_new_entry() {
    let mut t = ComplexTable::new();
    let v = ComplexValue::from_pair((5, -5));
    let old = t.lookup_or_insert(v);
    assert_eq!(t.len(), 4);
    assert_eq!(t.release(old), Ok(()));
    assert_eq!(t.len(), 3);
    assert_eq!(t.resolve(old), Err(Error::DanglingHandle));
    let fresh = t.lookup_or_insert(v);
    assert_eq!(t.len(), 4);
    assert_eq!(t.resolve(fresh), Ok(v));
    assert_eq!(count(&t, fresh), 1);
    assert_ne!(fresh, old);
    assert_eq!(t.resolve(old), Err(Error::DanglingHandle));
    assert_eq!(t.release(old), Err(Error::DoubleRelease));
    assert_eq!(count(&t, fresh), 1);
}

#[test]
fn a_reclaimed_slot_is_used_again_under_another_handle() {
    let mut t = ComplexTable::new();
    let a = t.lookup_or_insert(ComplexValue::from_integer(100));
    t.release(a).unwrap();
    let b = t.lookup_or_insert(ComplexValue::from_integer(200));
    assert_ne!(a, b);
    assert!(!t.is_live(a));
    assert_eq!(t.resolve(a), Err(Error::DanglingHandle));
    assert_eq!(t.resolve(b), Ok(ComplexValue::from_integer(200)));
    assert_eq!(t.retain(a), Err(Error::DanglingHandle));
    assert_eq!(count(&t, b), 1);
}

#[test]
fn pinned_values_survive_any_number_of_releases() {
    let mut t = ComplexTable::new();
    let pinned = [t.zero_handle(), t.one_handle(), t.inv_sqrt2_handle()];
    for h in pinned {
        assert_eq!(t.release(h), Err(Error::DoubleRelease));
        assert_eq!(t.retain(h), Ok(()));
        assert_eq!(t.retain(h), Ok(()));
        for _ in 0..2 {
            assert_eq!(t.release(h), Ok(()));
        }
        for _ in 0..50 {
            assert_eq!(t.release(h), Err(Error::DoubleRelease));
        }
        assert_eq!(count(&t, h), 0);
        assert!(t.is_live(h));
    }
    assert_eq!(t.len(), 3);
    assert_eq!(t.resolve(t.zero_handle()), Ok(ComplexValue::zero()));
    assert_eq!(t.resolve(t.one_handle()), Ok(ComplexValue::one()));
    assert_eq!(t.resolve(t.inv_sqrt2_handle()), Ok(ComplexValue::inv_sqrt2()));
    assert_eq!(t.lookup_or_insert(ComplexValue::one()), t.one_handle());
}

#[test]
fn values_that_collide_in_a_bucket_are_kept_apart() {
    let mut t = ComplexTable::new();
    let buckets = t.bucket_count();
    let mut pair = None;
    'search: for a in 10..60 {
        for b in (a + 1)..60 {
            let va = ComplexValue::from_integer(a);
            let vb = ComplexValue::from_integer(b);
            if bucket_index(&va, buckets) == bucket_index(&vb, buckets) {
                pair = Some((va, vb));
                break 'search;
            }
        }
    }
    let (va, vb) = pair.unwrap();
    assert_eq!(bucket_index(&va, buckets), bucket_index(&vb, buckets));
    assert!(!va.equals(&vb));
    let ha = t.lookup_or_insert(va);
    let hb = t.lookup_or_insert(vb);
    assert_eq!(t.bucket_count(), buckets);
    assert_ne!(ha, hb);
    assert_eq!(t.resolve(ha), Ok(va));
    assert_eq!(t.resolve(hb), Ok(vb));
    assert_eq!(t.lookup_or_insert(va), ha);
    assert_eq!(t.lookup_or_insert(vb), hb);
    assert_eq!(count(&t, ha), 2);
    assert_eq!(count(&t, hb), 2);
    assert_eq!(t.len(), 5);
}

#[test]
fn an_entry_is_taken_out_of_the_middle_of_a_chain() {
    let mut t = ComplexTable::new();
    let buckets = t.bucket_count();
    let target = bucket_index(&ComplexValue::from_integer(1000), buckets);
    let mut same_bucket = Vec::new();
    let mut n = 1000;
    while same_bucket.len() < 3 {
        let v = ComplexValue::from_integer(n);
        if bucket_index(&v, buckets) == target {
            same_bucket.push(v);
        }
        n += 1;
    }
    let handles: Vec<Handle> = same_bucket.iter().map(|v| t.lookup_or_insert(*v)).collect();
    assert_eq!(t.bucket_count(), buckets);
    assert_eq!(t.release(handles[1]), Ok(()));
    assert_eq!(t.resolve(handles[0]), Ok(same_bucket[0]));
    assert_eq!(t.resolve(handles[1]), Err(Error::DanglingHandle));
    assert_eq!(t.resolve(handles[2]), Ok(same_bucket[2]));
    assert_eq!(t.lookup_or_insert(same_bucket[0]), handles[0]);
    assert_eq!(t.lookup_or_insert(same_bucket[2]), handles[2]);
    assert_eq!(t.release(handles[2]), Ok(()));
    assert_eq!(t.release(handles[2]), Ok(()));
    assert_eq!(t.release(handles[0]), Ok(()));
    assert_eq!(t.release(handles[0]), Ok(()));
    assert_eq!(t.len(), 3);
    let back = t.lookup_or_insert(same_bucket[1]);
    assert_eq!(t.resolve(back), Ok(same_bucket[1]));
    assert_eq!(t.len(), 4);
}

#[test]
fn growth_doubles_the_buckets_and_keeps_every_handle() {
    let mut t = ComplexTable::new();
    let mut handles = Vec::new();
    let mut seen = Vec::new();
    for n in 0..200 {
        let v = ComplexValue::from_pair((n + 2, -n));
        let before = t.bucket_count();
        let h = t.lookup_or_insert(v);
        let expected = if t.len() * 4 > before * 3 { before * 2 } else { before };
        assert_eq!(t.bucket_count(), expected);
        assert!(t.len() * 4 <= t.bucket_count() * 3);
        handles.push((h, v));
        seen.push(t.bucket_count());
    }
    assert_eq!(seen[2], 8);
    assert_eq!(seen[3], 16);
    assert_eq!(seen[8], 16);
    assert_eq!(seen[9], 32);
    assert_eq!(t.len(), 203);
    assert_eq!(t.bucket_count(), 512);
    for (h, v) in &handles {
        assert_eq!(t.resolve(*h), Ok(*v));
        assert_eq!(count(&t, *h), 1);
        assert_eq!(t.lookup_or_insert(*v), *h);
    }
    assert_eq!(t.len(), 203);
    assert_eq!(t.resolve(t.inv_sqrt2_handle()), Ok(ComplexValue::inv_sqrt2()));
    for (h, _) in &handles {
        assert_eq!(t.release(*h), Ok(()));
        assert_eq!(t.release(*h), Ok(()));
        assert_eq!(t.release(*h), Err(Error::DoubleRelease));
    }
    assert_eq!(t.len(), 3);
    assert_eq!(t.bucket_count(), 512);
}

#[test]
fn handles_are_distinct_for_distinct_values() {
    let mut t = ComplexTable::new();
    let mut handles: Vec<Handle> = Vec::new();
    for n in 0..64 {
        let h = t.lookup_or_insert(ComplexValue::from_pair((n % 8, n / 8)));
        assert!(!handles.contains(&h) || n == 0 || n == 1);
        handles.push(h);
    }
    assert_eq!(handles[0], t.zero_handle());
    assert_eq!(handles[1], t.one_handle());
    for (n, h) in handles.iter().enumerate() {
        let n = n as i64;
        assert_eq!(t.resolve(*h), Ok(ComplexValue::from_pair((n % 8, n / 8))));
    }
    assert_eq!(t.len(), 65);
}

#[test]
fn entries_of_one_bucket_are_linked() {
    let mut t = ComplexTable::new();
    let buckets = t.bucket_count();
    let zero_bucket = bucket_index(&ComplexValue::zero(), buckets);
    assert_eq!(zero_bucket, 0);
    assert_eq!(bucket_index(&ComplexValue::one(), buckets), 3);
    assert_eq!(bucket_index(&ComplexValue::inv_sqrt2(), buckets), 5);
    let mut n = 2;
    while bucket_index(&ComplexValue::from_integer(n), buckets) != zero_bucket {
        n += 1;
    }
    let h = t.lookup_or_insert(ComplexValue::from_integer(n));
    assert_eq!(t.bucket_count(), buckets);
    let e = t.entry(h).unwrap();
    let next = e.next_slot().unwrap();
    assert_eq!(t.entry(t.zero_handle()).unwrap().next_slot(), None);
    assert_eq!(t.entry(t.one_handle()).unwrap().next_slot(), None);
    t.release(h).unwrap();
    let again = t.lookup_or_insert(ComplexValue::from_integer(n));
    assert_eq!(t.entry(again).unwrap().next_slot(), Some(next));
}

#[test]
fn combine_grows_the_table_like_lookup_or_insert() {
    let mut t = ComplexTable::new();
    let one = t.one_handle();
    let mut acc = one;
    let mut seen = Vec::new();
    for _ in 0..20 {
        let before = t.bucket_count();
        let entries = t.len();
        acc = t.combine(Operation::Add, acc, one).unwrap();
        let expected = if t.len() > entries && t.len() * 4 > before * 3 { before * 2 } else { before };
        assert_eq!(t.bucket_count(), expected);
        seen.push(t.bucket_count());
    }
    assert_eq!(t.resolve(acc), Ok(ComplexValue::from_integer(21)));
    assert_eq!(seen[2], 8);
    assert_eq!(seen[3], 16);
    assert_eq!(t.bucket_count(), 32);
    let failed = t.combine(Operation::Add, acc, Handle::clone(&acc));
    assert!(failed.is_ok());
}
