use cardinal::sync::Mutex;
use std::sync::atomic::{AtomicUsize, Ordering};
use std::sync::Arc;

#[derive(Eq, PartialEq, Debug)]
struct NonCopy(i32);

#[test]
fn it_works() {
    assert_eq!(2 + 2, 4);
}

#[test]
fn basic() {
    let _m = Mutex::new(());
}

#[test]
fn acquire_release() {
    let m = Mutex::new(0);
    {
        let mut guard = m.lock();
        *guard.get_mut() = 10;
        assert!(m.try_lock().is_err());
    }
    let guard2 = m.lock();
    assert_eq!(*guard2.get(), 10);
}

#[test]
fn smoke() {
    let m = Mutex::new(());
    drop(m.lock());
    drop(m.lock());
}

#[test]
fn try_lock() {
    let m = Mutex::new(());
    *m.try_lock().unwrap().get_mut() = ();
}

#[test]
fn test_into_inner() {
    let m = Mutex::new(NonCopy(10));
    assert_eq!(m.into_inner(), NonCopy(10));
}

#[test]
fn test_into_inner_drop() {
    struct Foo(Arc<AtomicUsize>);
    impl Drop for Foo {
        fn drop(&mut self) {
            self.0.fetch_add(1, Ordering::SeqCst);
        }
    }
    let num_drops = Arc::new(AtomicUsize::new(0));
    let m = Mutex::new(Foo(num_drops.clone()));
    assert_eq!(num_drops.load(Ordering::SeqCst), 0);
    {
        let _inner = m.into_inner();
        assert_eq!(num_drops.load(Ordering::SeqCst), 0);
    }
    assert_eq!(num_drops.load(Ordering::SeqCst), 1);
}

#[test]
fn lock_released_after_guard_drops() {
    let m = Mutex::new(5u32);
    {
        let _g = m.lock();
        assert!(m.try_lock().is_err());
    }
    assert!(m.try_lock().is_ok());
}
