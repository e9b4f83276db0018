use core::marker::PhantomData;
use regular::accept::{Accept, IterExt};

#[test]
fn even_acceptor() {
    #[derive(Debug, Default)]
    struct AcceptEven<T>(PhantomData<T>);

    impl<T> Accept for AcceptEven<T> {
        type Symbol = T;

        fn accept(self, string: Vec<T>) -> bool {
            string.len() % 2 == 0
        }
    }

    assert!((0..=9).collect::<Vec<i32>>().is_accepted(AcceptEven::default()));
    assert!(!(0..9).collect::<Vec<i32>>().is_accepted(AcceptEven::default()));
}

#[test]
fn accept_contains_element() {
    #[derive(Debug, Default)]
    struct Contains<T>(T);

    impl<T> Accept for Contains<T>
    where
        T: PartialEq,
    {
        type Symbol = T;

        fn accept(self, string: Vec<T>) -> bool {
            for sym in string {
                if sym == self.0 {
                    return true;
                }
            }

            false
        }
    }

    assert!((0..=9).collect::<Vec<i32>>().is_accepted(Contains(5)));
    assert!(!(0..=9).collect::<Vec<i32>>().is_accepted(Contains(20)));
}
