use treest::fisovec::{FilterSorter, FisoVec, Order};

struct EvenFirstDescending;

impl FilterSorter<u32> for EvenFirstDescending {
    fn le(&self, a: u32, b: u32) -> bool {
        a >= b
    }

    fn keeps(&self, a: u32) -> bool {
        a % 2 == 0
    }

    fn le_total(&self, _a: u32, _b: u32) {}

    fn le_transitive(&self, _a: u32, _b: u32, _c: u32) {}

    fn compare(&self, a: &u32, b: &u32) -> Order {
        if a > b {
            Order::Less
        } else if a < b {
            Order::Greater
        } else {
            Order::Equal
        }
    }

    fn keep(&self, a: &u32) -> bool {
        a % 2 == 0
    }
}

#[test]
fn filter_sort_keeps_and_orders() {
    let mut v = FisoVec::from_vec(vec![3, 8, 2, 7, 10, 4]);
    assert_eq!(v.len(), 6);
    v.filter_sort(&EvenFirstDescending);
    assert_eq!(v.len(), 4);
    let shown: Vec<u32> = v.iter().into_iter().copied().collect();
    assert_eq!(shown, vec![10, 8, 4, 2]);
    assert_eq!(*v.index(0), 10);
    assert_eq!(v.as_slice(), &[3, 8, 2, 7, 10, 4]);
    assert_eq!(v.into_inner(), vec![3, 8, 2, 7, 10, 4]);
}

#[test]
fn as_many_shown_as_kept_and_default_is_empty() {
    let mut f = FisoVec::from_vec(vec![5u32, 2, 8, 3, 4, 2]);
    f.filter_sort(&EvenFirstDescending);
    // 2, 8, 4, 2 are kept
    assert_eq!(f.len(), 4);
    let d: FisoVec<u32> = FisoVec::default();
    assert_eq!(d.len(), 0);
}
