use rikiki::cell::{Cell, Node};
use rikiki::slab::{DEFAULT_SLOTS, MAX_SLOTS};
use rikiki::{Error, Lisp, Slab};

fn cell(n: i64) -> Cell {
    Cell { node: Node::Number(n), stamp: 0, held: 1, links: 0 }
}

fn number_in(c: Option<Cell>) -> Option<i64> {
    match c {
        Some(Cell { node: Node::Number(n), .. }) => Some(n),
        _ => None,
    }
}

#[test]
fn new_arena_is_empty() {
    let slab = Slab::new(8).unwrap();
    assert_eq!(slab.slots(), 8);
    assert_eq!(slab.in_use(), 0);
    for i in 0..8 {
        assert!(slab.get(i).is_none());
    }
}

#[test]
fn default_arena_has_the_default_number_of_slots() {
    let slab = Slab::default();
    assert_eq!(slab.slots(), DEFAULT_SLOTS);
    assert_eq!(slab.in_use(), 0);
}

#[test]
fn arena_with_too_many_slots_is_not_made() {
    assert!(Slab::new(MAX_SLOTS + 1).is_none());
}

#[test]
fn allocate_fills_a_free_slot() {
    let mut slab = Slab::new(4).unwrap();
    let a = slab.allocate(cell(1)).unwrap();
    let b = slab.allocate(cell(2)).unwrap();
    assert_ne!(a, b);
    assert!(a < 4 && b < 4);
    assert_eq!(slab.in_use(), 2);
    assert_eq!(number_in(slab.get(a)), Some(1));
    assert_eq!(number_in(slab.get(b)), Some(2));
}

#[test]
fn allocate_fails_when_every_slot_is_in_use() {
    let mut slab = Slab::new(2).unwrap();
    slab.allocate(cell(1)).unwrap();
    slab.allocate(cell(2)).unwrap();
    assert_eq!(slab.allocate(cell(3)).unwrap_err(), Error::OutOfSpace);
    assert_eq!(slab.in_use(), 2);
}

#[test]
fn arena_without_slots_is_always_full() {
    let mut slab = Slab::new(0).unwrap();
    assert_eq!(slab.allocate(cell(1)).unwrap_err(), Error::OutOfSpace);
}

#[test]
fn free_gives_the_slot_back() {
    let mut slab = Slab::new(2).unwrap();
    let a = slab.allocate(cell(1)).unwrap();
    let b = slab.allocate(cell(2)).unwrap();
    assert_eq!(slab.free(a), Ok(()));
    assert_eq!(slab.in_use(), 1);
    assert!(slab.get(a).is_none());
    let c = slab.allocate(cell(3)).unwrap();
    assert_eq!(c, a);
    assert_eq!(number_in(slab.get(b)), Some(2));
    assert_eq!(number_in(slab.get(c)), Some(3));
}

#[test]
fn free_of_an_empty_slot_fails() {
    let mut slab = Slab::new(2).unwrap();
    assert_eq!(slab.free(0).unwrap_err(), Error::StaleHandle);
    assert_eq!(slab.free(7).unwrap_err(), Error::StaleHandle);
    let a = slab.allocate(cell(1)).unwrap();
    slab.free(a).unwrap();
    assert_eq!(slab.free(a).unwrap_err(), Error::StaleHandle);
}

#[test]
fn put_replaces_the_cell_of_a_slot_in_use() {
    let mut slab = Slab::new(2).unwrap();
    let a = slab.allocate(cell(1)).unwrap();
    assert_eq!(slab.put(a, cell(9)), Ok(()));
    assert_eq!(number_in(slab.get(a)), Some(9));
    assert_eq!(slab.in_use(), 1);
    let other = 1 - a;
    assert_eq!(slab.put(other, cell(5)).unwrap_err(), Error::StaleHandle);
}

#[test]
fn get_outside_the_arena_finds_nothing() {
    let slab = Slab::new(2).unwrap();
    assert!(slab.get(2).is_none());
    assert!(slab.get(usize::MAX).is_none());
}

#[test]
fn interpreter_needs_room_for_its_table() {
    assert!(Lisp::new(Slab::new(9).unwrap()).is_none());
    let lisp = Lisp::new(Slab::new(10).unwrap()).unwrap();
    assert_eq!(lisp.occupancy(), 10);
    assert_eq!(lisp.capacity(), 10);
}

#[test]
fn interpreter_is_not_made_on_an_arena_in_use() {
    let mut slab = Slab::new(64).unwrap();
    slab.allocate(cell(1)).unwrap();
    assert!(Lisp::new(slab).is_none());
}

#[test]
fn new_interpreter_has_one_context() {
    let mut lisp = Lisp::new(Slab::new(64).unwrap()).unwrap();
    assert_eq!(lisp.io_depth(), 1);
    lisp.io_push();
    lisp.io_push();
    assert_eq!(lisp.io_depth(), 3);
    assert!(lisp.io_pop());
    assert!(lisp.io_pop());
    assert!(lisp.io_pop());
    assert_eq!(lisp.io_depth(), 0);
    assert!(!lisp.io_pop());
    assert_eq!(lisp.io_depth(), 0);
}

#[test]
fn deleting_a_balanced_interpreter_gives_back_an_empty_arena() {
    let mut lisp = Lisp::new(Slab::new(64).unwrap()).unwrap();
    let a = lisp.number(1).unwrap();
    let b = lisp.string("xyz").unwrap();
    let p = lisp.cons(a, b).unwrap();
    lisp.release(p).unwrap();
    let slab = lisp.delete();
    assert_eq!(slab.slots(), 64);
    assert_eq!(slab.in_use(), 0);
    let again = Lisp::new(slab).unwrap();
    assert_eq!(again.occupancy(), 10);
}

#[test]
fn deleting_an_interpreter_with_a_leaked_handle_leaves_the_atom() {
    let mut lisp = Lisp::new(Slab::new(64).unwrap()).unwrap();
    let _leaked = lisp.number(1).unwrap();
    let slab = lisp.delete();
    assert_eq!(slab.in_use(), 1);
}
