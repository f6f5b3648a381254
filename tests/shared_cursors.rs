use reiterate::{CopyReiterate, CopyReiterator, Reiterate, Reiterator};
use std::cell::Cell;
use std::rc::Rc;

/// Wraps an iterator and counts every call of `next`, including the ones
/// that answer `None`.
struct Counted<I> {
    inner: I,
    calls: Rc<Cell<usize>>,
}

impl<I: Iterator> Iterator for Counted<I> {
    type Item = I::Item;

    fn next(&mut self) -> Option<I::Item> {
        self.calls.set(self.calls.get() + 1);
        self.inner.next()
    }
}

fn counted<I: Iterator>(inner: I) -> (Counted<I>, Rc<Cell<usize>>) {
    let calls = Rc::new(Cell::new(0));
    (Counted { inner, calls: calls.clone() }, calls)
}

fn strings(items: &[&str]) -> Vec<String> {
    items.iter().map(|s| s.to_string()).collect()
}

fn drain_copy<I: Iterator>(a: &mut CopyReiterate<I>, c: &mut CopyReiterator) -> Vec<I::Item>
where
    I::Item: Copy,
{
    let mut out = Vec::new();
    while let Some(x) = c.next(a) {
        out.push(x);
    }
    out
}

fn drain_strings<I: Iterator<Item = String>>(a: &mut Reiterate<I>, c: &mut Reiterator) -> Vec<String> {
    let mut out = Vec::new();
    while let Some(x) = c.next(a) {
        out.push(x.to_string());
    }
    out
}

#[test]
fn scenario_abc_copy() {
    let (src, calls) = counted(vec!["a", "b", "c"].into_iter());
    let mut a = CopyReiterate::new(src);
    let mut c1 = a.into_iter();
    assert_eq!(c1.next(&mut a), Some("a"));
    assert_eq!(c1.next(&mut a), Some("b"));
    assert_eq!(a.frontier(), 2);
    assert_eq!(calls.get(), 2);
    let mut c2 = a.into_iter();
    assert_eq!(c2.next(&mut a), Some("a"));
    assert_eq!(calls.get(), 2);
    assert_eq!(c2.next(&mut a), Some("b"));
    assert_eq!(calls.get(), 2);
    assert_eq!(c2.next(&mut a), Some("c"));
    assert_eq!(a.frontier(), 3);
    assert_eq!(calls.get(), 3);
    assert_eq!(c2.next(&mut a), None);
    assert_eq!(c1.next(&mut a), Some("c"));
    assert_eq!(c1.next(&mut a), None);
    assert_eq!(a.frontier(), 3);
    assert!(a.is_exhausted());
}

#[test]
fn scenario_abc_strings() {
    let pulled = Cell::new(0usize);
    let src = strings(&["a", "b", "c"]).into_iter().inspect(|_| pulled.set(pulled.get() + 1));
    let mut a = Reiterate::new(src);
    let mut c1 = a.into_iter();
    assert_eq!(c1.next(&mut a), Some("a"));
    assert_eq!(c1.next(&mut a), Some("b"));
    assert_eq!(a.frontier(), 2);
    assert_eq!(pulled.get(), 2);
    let mut c2 = a.into_iter();
    assert_eq!(c2.next(&mut a), Some("a"));
    assert_eq!(c2.next(&mut a), Some("b"));
    assert_eq!(pulled.get(), 2);
    assert_eq!(c2.next(&mut a), Some("c"));
    assert_eq!(pulled.get(), 3);
    assert_eq!(c2.next(&mut a), None);
    assert_eq!(c1.next(&mut a), Some("c"));
    assert_eq!(c1.next(&mut a), None);
    assert_eq!(pulled.get(), 3);
    assert!(a.is_exhausted());
}

#[test]
fn every_cursor_sees_the_whole_source_once_pulled() {
    let raw: Vec<u32> = (1..=10).collect();
    let (src, calls) = counted(raw.clone().into_iter());
    let mut a = CopyReiterate::new(src);
    let mut cursors: Vec<CopyReiterator> = (0..4).map(|_| a.into_iter()).collect();
    for c in cursors.iter_mut() {
        assert_eq!(drain_copy(&mut a, c), raw);
    }
    // ten items, and one call that reported the end
    assert_eq!(calls.get(), 11);
    assert_eq!(a.frontier(), 10);
}

#[test]
fn every_string_cursor_sees_the_whole_source_once_pulled() {
    let raw = strings(&["x", "yy", "zzz", "w"]);
    let (src, calls) = counted(raw.clone().into_iter());
    let mut a = Reiterate::new(src);
    let mut c1 = a.into_iter();
    let mut c2 = a.into_iter();
    let mut c3 = a.into_iter();
    assert_eq!(drain_strings(&mut a, &mut c1), raw);
    assert_eq!(drain_strings(&mut a, &mut c2), raw);
    assert_eq!(drain_strings(&mut a, &mut c3), raw);
    assert_eq!(calls.get(), 5);
}

#[test]
fn terminal_answer_is_sticky() {
    let (src, calls) = counted(vec![5u8].into_iter());
    let mut a = CopyReiterate::new(src);
    let mut c = a.into_iter();
    assert_eq!(c.next(&mut a), Some(5));
    for _ in 0..5 {
        assert_eq!(c.next(&mut a), None);
    }
    assert_eq!(calls.get(), 2);
}

#[test]
fn exhausted_source_is_never_pulled_again() {
    // a source that would resume after reporting its end
    let mut step = 0u32;
    let flaky = std::iter::from_fn(move || {
        step += 1;
        if step == 2 {
            None
        } else {
            Some(step)
        }
    });
    let mut a = CopyReiterate::new(flaky);
    let mut c1 = a.into_iter();
    assert_eq!(c1.next(&mut a), Some(1));
    assert_eq!(c1.next(&mut a), None);
    assert_eq!(c1.next(&mut a), None);
    let mut c2 = a.into_iter();
    assert_eq!(c2.next(&mut a), Some(1));
    assert_eq!(c2.next(&mut a), None);
    assert_eq!(a.frontier(), 1);
}

#[test]
fn late_cursor_replays_without_pulling() {
    let (src, calls) = counted(vec![10i64, 20, 30, 40].into_iter());
    let mut a = CopyReiterate::new(src);
    let mut c1 = a.into_iter();
    c1.next(&mut a);
    c1.next(&mut a);
    assert_eq!(calls.get(), 2);
    let mut late = a.into_iter();
    assert_eq!(late.next(&mut a), Some(10));
    assert_eq!(late.next(&mut a), Some(20));
    assert_eq!(calls.get(), 2);
    assert_eq!(late.next(&mut a), Some(30));
    assert_eq!(calls.get(), 3);
    assert_eq!(a.frontier(), 3);
}

#[test]
fn handed_out_strings_stay_the_same() {
    let mut a = Reiterate::new(strings(&["first", "second", "third"]).into_iter());
    let mut c1 = a.into_iter();
    let first = c1.next(&mut a).map(|s| s.to_string());
    let mut c2 = a.into_iter();
    assert_eq!(drain_strings(&mut a, &mut c2).len(), 3);
    let mut c3 = a.into_iter();
    assert_eq!(c3.next(&mut a).map(|s| s.to_string()), first);
    assert_eq!(first.as_deref(), Some("first"));
}

#[test]
fn interleaving_matches_isolation() {
    let raw: Vec<u16> = vec![3, 1, 4, 1, 5, 9, 2, 6];
    let (src, calls) = counted(raw.clone().into_iter());
    let mut a = CopyReiterate::new(src);
    let mut fast = a.into_iter();
    let mut slow = a.into_iter();
    let mut seen_fast = Vec::new();
    let mut seen_slow = Vec::new();
    for round in 0..20 {
        for _ in 0..2 {
            if let Some(x) = fast.next(&mut a) {
                seen_fast.push(x);
            }
        }
        if round % 2 == 0 {
            if let Some(x) = slow.next(&mut a) {
                seen_slow.push(x);
            }
        }
    }
    assert_eq!(seen_fast, raw);
    assert_eq!(seen_slow, raw);
    assert_eq!(calls.get(), raw.len() + 1);
}

#[test]
fn empty_source() {
    let (src, calls) = counted(Vec::<u8>::new().into_iter());
    let mut a = CopyReiterate::new(src);
    let mut c1 = a.into_iter();
    let mut c2 = a.into_iter();
    assert_eq!(c1.next(&mut a), None);
    assert_eq!(c2.next(&mut a), None);
    assert_eq!(calls.get(), 1);
    assert_eq!(a.frontier(), 0);
    assert!(a.is_exhausted());

    let mut b = Reiterate::new(Vec::<String>::new().into_iter());
    let mut c = b.into_iter();
    assert_eq!(c.next(&mut b), None);
    assert!(b.is_exhausted());
}

#[test]
fn infinite_source_is_pulled_lazily() {
    let (src, calls) = counted(0u64..);
    let mut a = CopyReiterate::new(src);
    let mut c1 = a.into_iter();
    for expected in 0..5u64 {
        assert_eq!(c1.next(&mut a), Some(expected));
    }
    let mut c2 = a.into_iter();
    for expected in 0..3u64 {
        assert_eq!(c2.next(&mut a), Some(expected));
    }
    assert_eq!(calls.get(), 5);
    assert!(!a.is_exhausted());
}

#[test]
fn fresh_adaptor_has_pulled_nothing() {
    let (src, calls) = counted(vec![1u8, 2].into_iter());
    let a = CopyReiterate::new(src);
    let _c = a.into_iter();
    assert_eq!(a.frontier(), 0);
    assert!(!a.is_exhausted());
    assert_eq!(calls.get(), 0);

    let b = Reiterate::new(strings(&["p"]).into_iter());
    assert_eq!(b.frontier(), 0);
    assert!(!b.is_exhausted());
}
