use try_drain::_try_drain::_TryDrain;
use try_drain::drain_element_flag::Element;
use try_drain::drain_element_move_flag::MoveElement;
use try_drain::exhausting::IteratorExt;
use try_drain::flag::{Flag, MoveFlag};
use try_drain::VecExtend;

const MAX: usize = 100_000;

struct DropBomb;

impl Drop for DropBomb {
    fn drop(&mut self) {
        panic!("an element was dropped while it was moved out")
    }
}

fn bombs() -> Vec<DropBomb> {
    (0..MAX).map(|_| DropBomb).collect()
}

fn strings() -> Vec<String> {
    (0..MAX).map(|n| n.to_string()).collect()
}

fn forget_all(v: Vec<DropBomb>) {
    for bomb in v {
        std::mem::forget(bomb);
    }
}

#[test]
fn try_drain_yields_until_return() {
    let mut a: Vec<u32> = (0..10).collect();
    let mut yielded = Vec::new();
    {
        let mut d = a
            .drain_builder()
            .try_drain(|el: &mut u32| if *el >= 4 { Flag::Return } else { Flag::Yield })
            .into_iter();
        while let Some(x) = d.next() {
            yielded.push(x);
        }
        assert_eq!(d.next(), None);
    }
    assert_eq!(yielded, vec![0, 1, 2, 3, 4]);
    assert_eq!(a, vec![5, 6, 7, 8, 9]);
}

#[test]
fn try_drain_break_keeps_the_rest() {
    let mut a: Vec<u32> = (5..10).collect();
    let mut yielded = Vec::new();
    {
        let mut d = a
            .drain_builder()
            .try_drain(|el: &mut u32| if *el < 7 { Flag::Yield } else { Flag::Break })
            .into_iter();
        while yielded.len() < 3 {
            match d.next() {
                Some(x) => yielded.push(x),
                None => break,
            }
        }
        assert_eq!(d.next(), None);
    }
    assert_eq!(yielded, vec![5, 6]);
    assert_eq!(a, vec![7, 8, 9]);
}

#[test]
fn try_drain_continue_keeps_and_may_change() {
    let mut a: Vec<u32> = (0..8).collect();
    let mut yielded = Vec::new();
    {
        let mut d = a
            .drain_builder()
            .try_drain(|el: &mut u32| {
                if *el % 2 == 0 {
                    Flag::Yield
                } else {
                    *el += 100;
                    Flag::Continue
                }
            })
            .into_iter();
        while let Some(x) = d.next() {
            yielded.push(x);
        }
    }
    assert_eq!(yielded, vec![0, 2, 4, 6]);
    assert_eq!(a, vec![101, 103, 105, 107]);
}

#[test]
fn try_drain_stops_lazily() {
    let mut a: Vec<u32> = (0..6).collect();
    let mut seen = 0;
    {
        let mut d = a
            .drain_builder()
            .try_drain(|_el: &mut u32| {
                seen += 1;
                Flag::Yield
            })
            .into_iter();
        assert_eq!(d.size_hint(), (0, Some(6)));
        assert_eq!(d.next(), Some(0));
        assert_eq!(d.next(), Some(1));
        assert_eq!(d.size_hint(), (0, Some(4)));
    }
    assert_eq!(seen, 2);
    assert_eq!(a, vec![2, 3, 4, 5]);
}

#[test]
fn _0d_bomb_try_drain() {
    let mut v1 = bombs();
    let mut v2 = Vec::with_capacity(v1.len());
    {
        let mut d = v1.drain_builder().try_drain(|_: &mut DropBomb| Flag::Yield).into_iter();
        while let Some(x) = d.next() {
            v2.push(x);
        }
    }
    assert!(v1.is_empty());
    assert_eq!(v2.len(), MAX);
    forget_all(v2);
}

#[test]
fn _0c_bomb_drain_filter() {
    let mut v1 = bombs();
    let mut v2 = Vec::with_capacity(v1.len());
    {
        let mut d = v1.drain_builder().filter(|_: &mut DropBomb| true).into_iter();
        while let Some(x) = d.next() {
            v2.push(x);
        }
    }
    assert!(v1.is_empty());
    assert_eq!(v2.len(), MAX);
    forget_all(v2);
}

#[test]
fn _0d_bomb_elem_try_drain() {
    let mut v1 = bombs();
    let mut v2 = Vec::with_capacity(v1.len());
    {
        let mut d = v1.drain_builder().elem_try_drain(|_| Flag::Yield);
        while let Some(x) = d.next() {
            v2.push(x);
        }
    }
    assert!(v1.is_empty());
    assert_eq!(v2.len(), MAX);
    forget_all(v2);
}

#[test]
fn _0d_bomb_elem_move_drain() {
    let mut v1 = bombs();
    let mut v2 = Vec::with_capacity(v1.len());
    {
        let mut d = v1.drain_builder().elem_move_drain(|el| el.take());
        while let Some(x) = d.next() {
            v2.push(x);
        }
    }
    assert!(v1.is_empty());
    assert_eq!(v2.len(), MAX);
    forget_all(v2);
}

#[test]
fn _0e_bomb_stream_drain() {
    let mut v1 = bombs();
    let mut v2 = Vec::with_capacity(v1.len());
    {
        let mut dr = v1.drain_builder().stream_drain();
        while let Some(el) = dr.streaming_next() {
            v2.push(el.take());
        }
    }
    assert!(v1.is_empty());
    assert_eq!(v2.len(), MAX);
    forget_all(v2);
}

#[test]
fn _0f_bomb_cursor_iter() {
    let mut v1 = bombs();
    let mut v2 = Vec::with_capacity(v1.len());
    {
        let mut it = v1.cursor().iter(|c| c.take());
        while let Some(x) = it.next() {
            v2.push(x);
        }
    }
    assert!(v1.is_empty());
    assert_eq!(v2.len(), MAX);
    forget_all(v2);
}

#[test]
fn _0f_bomb_cursor() {
    let mut v1 = bombs();
    let mut v2 = Vec::with_capacity(v1.len());
    {
        let mut cursor = v1.cursor();
        while let Some(el) = cursor.take() {
            v2.push(el);
        }
    }
    assert!(v1.is_empty());
    assert_eq!(v2.len(), MAX);
    forget_all(v2);
}

#[test]
fn _0b_bomb_drain() {
    let mut v1 = bombs();
    let v2 = v1.drain_builder().into_iter();
    assert!(v1.is_empty());
    assert_eq!(v2.len(), MAX);
    forget_all(v2);
}

#[test]
fn _1d_exhaust_string_try_drain() {
    let mut v = strings();
    {
        let mut d = v.drain_builder().try_drain(|_: &mut String| Flag::Yield).into_iter();
        while d.next().is_some() {}
    }
    assert!(v.is_empty());
}

#[test]
fn _1c_exhaust_string_drain_filter() {
    let mut v = strings();
    {
        let mut d = v.drain_builder().filter(|_: &mut String| true).into_iter();
        while d.next().is_some() {}
    }
    assert!(v.is_empty());
}

#[test]
fn _1d_exhaust_string_elem_try_drain() {
    let mut v = strings();
    {
        let mut d = v.drain_builder().elem_try_drain(|_| Flag::Yield);
        while d.next().is_some() {}
    }
    assert!(v.is_empty());
}

#[test]
fn _1d_exhaust_string_elem_move_drain() {
    let mut v = strings();
    {
        let mut d = v.drain_builder().elem_move_drain(|el| el.take());
        while d.next().is_some() {}
    }
    assert!(v.is_empty());
}

#[test]
fn _1e_exhaust_string_stream_drain() {
    let mut v = strings();
    {
        let mut dr = v.drain_builder().stream_drain();
        while let Some(el) = dr.streaming_next() {
            el.take();
        }
    }
    assert!(v.is_empty());
}

#[test]
fn _1f_exhaust_string_cursor() {
    let mut v = strings();
    {
        let mut cursor = v.cursor();
        while cursor.delete() {}
    }
    assert!(v.is_empty());
}

#[test]
fn _1f_exhaust_string_cursor_iter() {
    let mut v = strings();
    {
        let mut it = v.cursor().iter(|c| c.take());
        while it.next().is_some() {}
    }
    assert!(v.is_empty());
}

#[test]
fn _1f_exhaust_string_cursor_clear() {
    let mut v = strings();
    v.cursor().clear();
    assert!(v.is_empty());
}

#[test]
fn _1b_exhaust_string_drain() {
    let mut v = strings();
    v.drain_builder().into_iter();
    assert!(v.is_empty());
}

#[test]
fn plain_drain_of_a_range() {
    let mut v: Vec<u32> = (0..10).collect();
    let drained = v.drain_builder().range(2..5).into_iter();
    assert_eq!(drained, vec![2, 3, 4]);
    assert_eq!(v, vec![0, 1, 5, 6, 7, 8, 9]);
}

#[test]
fn plain_drain_of_an_empty_range() {
    let mut v: Vec<u32> = (0..4).collect();
    let drained = v.drain_builder().range(3..3).into_iter();
    assert!(drained.is_empty());
    assert_eq!(v, vec![0, 1, 2, 3]);
}

#[test]
fn filter_splits_in_order() {
    let mut v: Vec<u32> = (0..10).collect();
    let mut evens = Vec::new();
    {
        let mut d = v.drain_builder().filter(|x: &mut u32| *x % 2 == 0).into_iter();
        assert_eq!(d.size_hint(), (0, Some(10)));
        while let Some(x) = d.next() {
            evens.push(x);
        }
        assert_eq!(d.next(), None);
    }
    assert_eq!(evens, vec![0, 2, 4, 6, 8]);
    assert_eq!(v, vec![1, 3, 5, 7, 9]);
}

#[test]
fn filter_on_empty_vector() {
    let mut v: Vec<u32> = Vec::new();
    let mut d = v.drain_builder().filter(|_: &mut u32| true).into_iter();
    assert_eq!(d.next(), None);
}

#[test]
fn elem_try_drain_reads_and_changes_through_handle() {
    let mut v: Vec<u32> = (0..6).collect();
    let mut out = Vec::new();
    {
        let mut d = v.drain_builder().elem_try_drain(|mut el: Element<u32>| {
            if *el.get() == 4 {
                Flag::Break
            } else if *el.get() % 2 == 1 {
                *el.get_mut() *= 10;
                Flag::Continue
            } else {
                Flag::Yield
            }
        });
        assert_eq!(d.size_hint(), (0, Some(6)));
        while let Some(x) = d.next() {
            out.push(x);
        }
        assert_eq!(d.next(), None);
    }
    assert_eq!(out, vec![0, 2]);
    assert_eq!(v, vec![10, 30, 4, 5]);
}

#[test]
fn elem_try_drain_return_stops_after_yield() {
    let mut v: Vec<u32> = (0..5).collect();
    let mut out = Vec::new();
    {
        let mut d = v
            .drain_builder()
            .elem_try_drain(|el: Element<u32>| if *el.get() == 1 { Flag::Return } else { Flag::Continue });
        while let Some(x) = d.next() {
            out.push(x);
        }
    }
    assert_eq!(out, vec![1]);
    assert_eq!(v, vec![0, 2, 3, 4]);
}

#[test]
fn elem_move_drain_decisions() {
    let mut v: Vec<u32> = (0..10).collect();
    let mut out = Vec::new();
    {
        let mut d = v.drain_builder().elem_move_drain(|mut el: MoveElement<u32>| {
            let x = *el.get();
            if x == 7 {
                el.stop()
            } else if x % 3 == 0 {
                el.take()
            } else {
                *el.get_mut() += 100;
                el.keep()
            }
        });
        assert_eq!(d.size_hint(), (0, Some(10)));
        while let Some(x) = d.next() {
            out.push(x);
        }
        assert_eq!(d.next(), None);
    }
    assert_eq!(out, vec![0, 3, 6]);
    assert_eq!(v, vec![101, 102, 104, 105, 7, 8, 9]);
}

#[test]
fn elem_move_drain_take_and_stop() {
    let mut v: Vec<u32> = (0..5).collect();
    let mut out = Vec::new();
    {
        let mut d = v
            .drain_builder()
            .elem_move_drain(|el: MoveElement<u32>| if *el.get() == 2 { el.take_and_stop() } else { el.keep() });
        while let Some(x) = d.next() {
            out.push(x);
        }
    }
    assert_eq!(out, vec![2]);
    assert_eq!(v, vec![0, 1, 3, 4]);
}

#[test]
fn elem_move_drain_answer_without_taking_keeps_element() {
    let mut v: Vec<u32> = vec![1, 2, 3];
    let mut out = Vec::new();
    {
        let mut d = v.drain_builder().elem_move_drain(|el: MoveElement<u32>| {
            let x = *el.get();
            if x == 2 {
                drop(el.keep());
                MoveFlag::Yield(20)
            } else {
                el.keep()
            }
        });
        while let Some(x) = d.next() {
            out.push(x);
        }
    }
    assert_eq!(out, vec![20]);
    assert_eq!(v, vec![1, 2, 3]);
}

#[test]
fn elem_move_drain_taken_but_kept_answer_drops_element() {
    let mut v: Vec<u32> = vec![1, 2, 3];
    let mut out = Vec::new();
    {
        let mut d = v.drain_builder().elem_move_drain(|el: MoveElement<u32>| {
            if *el.get() == 2 {
                drop(el.take());
                MoveFlag::Continue
            } else {
                el.keep()
            }
        });
        while let Some(x) = d.next() {
            out.push(x);
        }
    }
    assert!(out.is_empty());
    assert_eq!(v, vec![1, 3]);
}

#[test]
fn stream_drain_takes_some_keeps_others() {
    let mut v: Vec<u32> = (0..8).collect();
    let mut taken = Vec::new();
    {
        let mut dr = v.drain_builder().stream_drain();
        while let Some(mut el) = dr.streaming_next() {
            if *el.get() % 3 == 0 {
                taken.push(el.take());
            } else {
                *el.get_mut() += 1;
            }
        }
        assert!(dr.streaming_next().is_none());
    }
    assert_eq!(taken, vec![0, 3, 6]);
    assert_eq!(v, vec![2, 3, 5, 6, 8]);
}

#[test]
fn cursor_operations() {
    let mut v: Vec<u32> = (0..8).collect();
    {
        let mut c = v.cursor();
        c.advance();
        assert_eq!(c.take(), Some(1));
        assert!(c.delete());
        {
            let p = c.peek().unwrap();
            assert_eq!(*p, 4);
            *p = 40;
        }
        {
            let mut el = c.get().unwrap();
            assert_eq!(*el.get(), 3);
            *el.get_mut() = 30;
        }
        c.advance();
        {
            let (head, tail) = c.peek_slices();
            assert_eq!(head, &[0, 30]);
            assert_eq!(tail, &[40, 5, 6, 7]);
            tail[1] = 50;
        }
        {
            let el = c.get().unwrap();
            assert_eq!(el.take(), 40);
        }
        c.advance();
        c.clear();
        assert_eq!(c.take(), None);
        assert!(!c.delete());
        assert!(c.get().is_none());
        assert!(c.peek().is_none());
        c.advance();
    }
    assert_eq!(v, vec![0, 30, 50]);
}

#[test]
fn cursor_peek_at_last_element() {
    let mut v: Vec<u32> = vec![1, 2];
    let mut c = v.cursor();
    c.advance();
    assert!(c.peek().is_none());
    let (head, tail) = c.peek_slices();
    assert_eq!(head, &[1]);
    assert_eq!(tail, &[2]);
}

#[test]
fn cursor_iter_with_custom_steps() {
    let mut v: Vec<u32> = (0..10).collect();
    let mut out = Vec::new();
    {
        let mut it = v.cursor().iter(|c| {
            c.advance();
            c.take()
        });
        while let Some(x) = it.next() {
            out.push(x);
        }
    }
    assert_eq!(out, vec![1, 3, 5, 7, 9]);
    assert_eq!(v, vec![0, 2, 4, 6, 8]);
}

#[test]
fn core_tail_len_counts_unvisited() {
    let mut v: Vec<u32> = vec![1, 2, 3];
    let d = _TryDrain::new(&mut v);
    assert_eq!(d.tail_len(), 3);
}

#[test]
fn core_settle_each_flag() {
    let mut v: Vec<u32> = vec![1, 2, 3, 4, 5];
    {
        let mut d = _TryDrain::new(&mut v);
        assert_eq!(d.settle(Flag::Continue), None);
        assert_eq!(d.settle(Flag::Yield), Some(2));
        assert_eq!(d.tail_len(), 3);
        assert_eq!(d.settle(Flag::Return), Some(3));
        assert!(!d.is_active());
    }
    assert_eq!(v, vec![1, 4, 5]);
    {
        let mut d = _TryDrain::new(&mut v);
        assert_eq!(d.settle(Flag::Break), None);
        assert!(!d.is_active());
        assert_eq!(d.tail_len(), 3);
    }
    assert_eq!(v, vec![1, 4, 5]);
}

#[test]
fn core_settle_moved_each_decision() {
    let mut v: Vec<u32> = vec![1, 2, 3];
    {
        let mut d = _TryDrain::new(&mut v);
        let x = d.hand_over();
        assert_eq!(x, 1);
        assert_eq!(d.settle_moved(Some(10), MoveFlag::Continue), None);
        let y = d.hand_over();
        assert_eq!(y, 2);
        assert_eq!(d.settle_moved(None, MoveFlag::Yield(y)), Some(2));
        let z = d.hand_over();
        assert_eq!(d.settle_moved(Some(z), MoveFlag::Break), None);
        assert!(!d.is_active());
    }
    assert_eq!(v, vec![10, 3]);
}

#[test]
fn finish_leaves_kept_then_unvisited() {
    let mut v: Vec<u32> = (0..6).collect();
    {
        let mut d = v
            .drain_builder()
            .try_drain(|x: &mut u32| if *x == 1 { Flag::Yield } else { Flag::Continue })
            .into_iter();
        assert_eq!(d.next(), Some(1));
        d.finish();
    }
    assert_eq!(v, vec![0, 2, 3, 4, 5]);
    {
        let mut c = v.cursor();
        c.advance();
        assert_eq!(c.take(), Some(2));
        c.finish();
    }
    assert_eq!(v, vec![0, 3, 4, 5]);
    {
        let mut dr = v.drain_builder().stream_drain();
        let el = dr.streaming_next().unwrap();
        assert_eq!(*el.get(), 0);
        dr.finish();
    }
    assert_eq!(v, vec![0, 3, 4, 5]);
}

#[test]
fn exhausting_consumes_the_rest() {
    let v: Vec<u32> = vec![1, 2, 3];
    let mut e = v.into_iter().exhausting();
    assert_eq!(e.next(), Some(1));
    e.finish();
    let empty: Vec<u32> = Vec::new();
    let mut e = empty.into_iter().exhausting();
    assert_eq!(e.next(), None);
}

fn decide(x: u32) -> Flag {
    if x == 11 {
        Flag::Break
    } else if x == 9 {
        Flag::Return
    } else if x % 2 == 0 {
        Flag::Yield
    } else {
        Flag::Continue
    }
}

#[test]
fn move_decisions_match_flags() {
    for stop_at in [9u32, 11, 100] {
        let input: Vec<u32> = (0..14).map(|x| if x == 9 { stop_at } else { x }).collect();
        let mut a = input.clone();
        let mut b = input.clone();
        let mut from_flags = Vec::new();
        let mut from_moves = Vec::new();
        {
            let mut d = a.drain_builder().try_drain(|x: &mut u32| decide(*x)).into_iter();
            while let Some(x) = d.next() {
                from_flags.push(x);
            }
        }
        {
            let mut d = b.drain_builder().elem_move_drain(|el: MoveElement<u32>| match decide(*el.get()) {
                Flag::Yield => el.take(),
                Flag::Return => el.take_and_stop(),
                Flag::Continue => el.keep(),
                Flag::Break => el.stop(),
            });
            while let Some(x) = d.next() {
                from_moves.push(x);
            }
        }
        assert_eq!(from_flags, from_moves);
        assert_eq!(a, b);
    }
}

#[test]
fn drain_conserves_elements() {
    let input: Vec<u32> = vec![5, 1, 4, 1, 5, 9, 2, 6];
    let mut v = input.clone();
    let mut out = Vec::new();
    {
        let mut d = v.drain_builder().try_drain(|x: &mut u32| decide(*x)).into_iter();
        while let Some(x) = d.next() {
            out.push(x);
        }
    }
    assert_eq!(out, vec![4, 9]);
    assert_eq!(v, vec![5, 1, 1, 5, 2, 6]);
    let mut all = out.clone();
    all.extend(v.iter().cloned());
    all.sort();
    let mut sorted = input.clone();
    sorted.sort();
    assert_eq!(all, sorted);
}

#[test]
fn elem_move_drain_plain_answers_keep_element() {
    let mut v: Vec<u32> = vec![1, 2, 3, 4];
    let mut out = Vec::new();
    {
        let mut d = v.drain_builder().elem_move_drain(|el: MoveElement<u32>| {
            let x = *el.get();
            if x == 1 {
                el.take()
            } else if x == 3 {
                MoveFlag::Break
            } else {
                MoveFlag::Continue
            }
        });
        while let Some(x) = d.next() {
            out.push(x);
        }
        assert_eq!(d.next(), None);
    }
    assert_eq!(out, vec![1]);
    assert_eq!(v, vec![2, 3, 4]);
}

#[test]
fn filter_finish_removes_remaining_matches() {
    let mut v: Vec<u32> = (0..10).collect();
    {
        let mut d = v.drain_builder().filter(|x: &mut u32| *x % 3 == 0).into_iter();
        assert_eq!(d.next(), Some(0));
        d.finish();
    }
    assert_eq!(v, vec![1, 2, 4, 5, 7, 8]);
}

#[test]
fn released_stream_element_stays_kept() {
    let mut v: Vec<u32> = vec![7, 8, 9];
    {
        let mut dr = v.drain_builder().stream_drain();
        let mut el = dr.streaming_next().unwrap();
        *el.get_mut() = 70;
        el.release();
        let el = dr.streaming_next().unwrap();
        assert_eq!(el.take(), 8);
        dr.finish();
    }
    assert_eq!(v, vec![70, 9]);
}

#[test]
fn released_cursor_element_stays_current() {
    let mut v: Vec<u32> = vec![7, 8, 9];
    {
        let mut c = v.cursor();
        let el = c.get().unwrap();
        el.release();
        assert_eq!(c.take(), Some(7));
        c.finish();
    }
    assert_eq!(v, vec![8, 9]);
}

#[test]
fn leaked_drain_leaves_vector_whole() {
    let mut v: Vec<u32> = vec![1, 2, 3, 4, 5];
    {
        let mut d = v.drain_builder().try_drain(|x: &mut u32| if *x == 2 { Flag::Yield } else { Flag::Continue }).into_iter();
        assert_eq!(d.next(), Some(2));
        std::mem::forget(d);
    }
    assert_eq!(v, vec![1, 3, 4, 5]);
    {
        let mut c = v.cursor();
        assert_eq!(c.take(), Some(1));
        std::mem::forget(c);
    }
    assert_eq!(v, vec![3, 4, 5]);
}

#[test]
fn dropped_filter_drain_does_no_further_filtering() {
    let mut v: Vec<u32> = vec![1, 2, 3, 4, 5, 6];
    {
        let mut d = v.drain_builder().filter(|x: &mut u32| *x % 2 == 0).into_iter();
        assert_eq!(d.next(), Some(2));
    }
    assert_eq!(v, vec![1, 3, 4, 5, 6]);
}
