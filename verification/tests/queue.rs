use quadtree_image::{Chunk, Color, SubdivisionQueue};

const GREY: Color = Color { r: 128, g: 128, b: 128, a: 255 };

/// A chunk two pixels wide at column `2 * slot`, with the given error.
fn wide_chunk(slot: u32, error: u64) -> Chunk {
    Chunk { x: 2 * slot, y: 0, width: 2, height: 1, color: GREY, error }
}

/// A single pixel at row `slot + 1`, with the given error.
fn pixel_chunk(slot: u32, error: u64) -> Chunk {
    Chunk { x: 0, y: slot + 1, width: 1, height: 1, color: GREY, error }
}

fn sorted(mut chunks: Vec<Chunk>) -> Vec<Chunk> {
    chunks.sort_by_key(|c| (c.y, c.x, c.width, c.height, c.error));
    chunks
}

#[test]
fn new_queue_holds_nothing() {
    let mut queue = SubdivisionQueue::new();
    assert_eq!(queue.frontier_len(), 0);
    assert_eq!(queue.snapshot(), vec![]);
    assert_eq!(queue.pop_max(), None);
}

#[test]
fn pop_max_on_empty_queue_changes_nothing() {
    let mut queue = SubdivisionQueue::new();
    queue.insert(pixel_chunk(0, 4));
    assert_eq!(queue.pop_max(), Some(pixel_chunk(0, 4)));
    assert_eq!(queue.pop_max(), None);
    assert_eq!(queue.pop_max(), None);
    assert_eq!(queue.frontier_len(), 0);
    assert_eq!(queue.snapshot(), vec![pixel_chunk(0, 4)]);
}

#[test]
fn pop_max_returns_largest_error_first() {
    let mut queue = SubdivisionQueue::new();
    for (slot, error) in [3u64, 10, 7, 0, 12, 5].into_iter().enumerate() {
        queue.insert(wide_chunk(slot as u32, error));
    }
    let mut errors = Vec::new();
    while let Some(chunk) = queue.pop_max() {
        errors.push(chunk.error);
    }
    assert_eq!(errors, vec![12, 10, 7, 5, 3, 0]);
}

#[test]
fn pop_max_returns_the_chunk_that_was_inserted() {
    let mut queue = SubdivisionQueue::new();
    queue.insert(wide_chunk(0, 1));
    queue.insert(wide_chunk(1, 9));
    queue.insert(wide_chunk(2, 4));
    assert_eq!(queue.pop_max(), Some(wide_chunk(1, 9)));
    assert_eq!(queue.pop_max(), Some(wide_chunk(2, 4)));
    assert_eq!(queue.pop_max(), Some(wide_chunk(0, 1)));
    assert_eq!(queue.pop_max(), None);
}

#[test]
fn pop_max_sees_chunks_inserted_later() {
    let mut queue = SubdivisionQueue::new();
    queue.insert_all(vec![wide_chunk(0, 5), wide_chunk(1, 8)]);
    assert_eq!(queue.pop_max(), Some(wide_chunk(1, 8)));
    queue.insert_all(vec![wide_chunk(2, 6), wide_chunk(3, 2), wide_chunk(4, 7)]);
    assert_eq!(queue.pop_max(), Some(wide_chunk(4, 7)));
    assert_eq!(queue.pop_max(), Some(wide_chunk(2, 6)));
    assert_eq!(queue.pop_max(), Some(wide_chunk(0, 5)));
    assert_eq!(queue.pop_max(), Some(wide_chunk(3, 2)));
    assert_eq!(queue.pop_max(), None);
}

#[test]
fn pop_max_orders_many_chunks() {
    let mut queue = SubdivisionQueue::new();
    let mut state: u64 = 12345;
    let mut errors = Vec::new();
    for slot in 0..500u32 {
        state = state.wrapping_mul(6364136223846793005).wrapping_add(1442695040888963407);
        let error = (state >> 33) % 1000;
        errors.push(error);
        queue.insert(wide_chunk(slot, error));
    }
    errors.sort_unstable_by(|a, b| b.cmp(a));
    let mut popped = Vec::new();
    while let Some(chunk) = queue.pop_max() {
        popped.push(chunk.error);
    }
    assert_eq!(popped, errors);
}

#[test]
fn pop_max_among_equal_errors_returns_each_once() {
    let mut queue = SubdivisionQueue::new();
    let chunks: Vec<Chunk> = (0..6).map(|slot| wide_chunk(slot, 3)).collect();
    queue.insert_all(chunks.clone());
    let mut popped = Vec::new();
    while let Some(chunk) = queue.pop_max() {
        popped.push(chunk);
    }
    assert_eq!(sorted(popped), sorted(chunks));
}

#[test]
fn insert_all_adds_every_chunk() {
    let mut queue = SubdivisionQueue::new();
    queue.insert_all(vec![]);
    assert_eq!(queue.frontier_len(), 0);
    queue.insert_all(vec![wide_chunk(0, 1), wide_chunk(1, 2)]);
    assert_eq!(queue.frontier_len(), 2);
    queue.insert_all(vec![wide_chunk(2, 3), wide_chunk(3, 4), wide_chunk(4, 0), wide_chunk(5, 9)]);
    assert_eq!(queue.frontier_len(), 6);
    assert_eq!(
        sorted(queue.snapshot()),
        sorted((0..6).map(|slot| wide_chunk(slot, [1, 2, 3, 4, 0, 9][slot as usize])).collect())
    );
}

#[test]
fn popped_pixel_stays_in_snapshot() {
    let mut queue = SubdivisionQueue::new();
    queue.insert_all(vec![pixel_chunk(0, 0), pixel_chunk(1, 0)]);
    let first = queue.pop_max().unwrap();
    assert_eq!(queue.frontier_len(), 1);
    assert_eq!(sorted(queue.snapshot()), vec![pixel_chunk(0, 0), pixel_chunk(1, 0)]);
    let second = queue.pop_max().unwrap();
    assert_ne!(first, second);
    assert_eq!(queue.frontier_len(), 0);
    assert_eq!(sorted(queue.snapshot()), vec![pixel_chunk(0, 0), pixel_chunk(1, 0)]);
    assert_eq!(queue.pop_max(), None);
}

#[test]
fn popped_splittable_chunk_leaves_snapshot() {
    let mut queue = SubdivisionQueue::new();
    queue.insert_all(vec![wide_chunk(0, 5), pixel_chunk(0, 1)]);
    assert_eq!(queue.pop_max(), Some(wide_chunk(0, 5)));
    assert_eq!(queue.snapshot(), vec![pixel_chunk(0, 1)]);
    assert_eq!(queue.frontier_len(), 1);
}

fn chunk_at(x: u32, y: u32, width: u32, height: u32, error: u64) -> Chunk {
    Chunk { x, y, width, height, color: GREY, error }
}

fn pop_all(queue: &mut SubdivisionQueue) -> Vec<Chunk> {
    let mut popped = Vec::new();
    while let Some(chunk) = queue.pop_max() {
        popped.push(chunk);
    }
    popped
}

#[test]
fn pop_max_among_equal_errors_takes_upper_then_left_chunk_first() {
    let in_order = vec![
        chunk_at(4, 0, 2, 2, 7),
        chunk_at(6, 0, 2, 2, 7),
        chunk_at(0, 2, 2, 2, 7),
        chunk_at(2, 2, 2, 2, 7),
        chunk_at(0, 9, 2, 2, 7),
    ];
    let mut queue = SubdivisionQueue::new();
    queue.insert_all(vec![in_order[3], in_order[0], in_order[4], in_order[2], in_order[1]]);
    assert_eq!(pop_all(&mut queue), in_order);
}

#[test]
fn pop_max_puts_error_before_position() {
    let mut queue = SubdivisionQueue::new();
    queue.insert_all(vec![chunk_at(0, 0, 2, 2, 3), chunk_at(8, 8, 2, 2, 4), chunk_at(2, 0, 2, 2, 3)]);
    assert_eq!(
        pop_all(&mut queue),
        vec![chunk_at(8, 8, 2, 2, 4), chunk_at(0, 0, 2, 2, 3), chunk_at(2, 0, 2, 2, 3)]
    );
}

#[test]
fn pop_max_does_not_depend_on_the_order_of_insertion() {
    let chunks: Vec<Chunk> =
        (0..40u32).map(|i| chunk_at(2 * (i % 5), i / 5, 2, 1, (i as u64 * 7) % 4)).collect();
    let mut forwards = SubdivisionQueue::new();
    forwards.insert_all(chunks.clone());
    let mut backwards = SubdivisionQueue::new();
    for chunk in chunks.iter().rev() {
        backwards.insert(*chunk);
    }
    let mut shuffled = SubdivisionQueue::new();
    for k in 0..40usize {
        shuffled.insert(chunks[(k * 17) % 40]);
    }
    assert_eq!(forwards.snapshot(), backwards.snapshot());
    assert_eq!(forwards.snapshot(), shuffled.snapshot());
    let expected = pop_all(&mut forwards);
    assert_eq!(expected.len(), 40);
    assert_eq!(pop_all(&mut backwards), expected);
    assert_eq!(pop_all(&mut shuffled), expected);
}

#[test]
fn outranks_compares_error_then_position_then_the_rest() {
    let base = chunk_at(4, 4, 2, 2, 5);
    assert!(chunk_at(9, 9, 1, 1, 6).outranks(&base));
    assert!(!chunk_at(0, 0, 9, 9, 4).outranks(&base));
    assert!(chunk_at(9, 3, 2, 2, 5).outranks(&base));
    assert!(!chunk_at(0, 5, 2, 2, 5).outranks(&base));
    assert!(chunk_at(3, 4, 2, 2, 5).outranks(&base));
    assert!(!chunk_at(5, 4, 2, 2, 5).outranks(&base));
    assert!(chunk_at(4, 4, 3, 1, 5).outranks(&base));
    assert!(!chunk_at(4, 4, 1, 9, 5).outranks(&base));
    assert!(chunk_at(4, 4, 2, 3, 5).outranks(&base));
    assert!(!chunk_at(4, 4, 2, 1, 5).outranks(&base));
    let tinted = |r, g, b, a| Chunk { color: Color { r, g, b, a }, ..base };
    assert!(tinted(129, 0, 0, 0).outranks(&base));
    assert!(!tinted(127, 255, 255, 255).outranks(&base));
    assert!(tinted(128, 129, 0, 0).outranks(&base));
    assert!(tinted(128, 128, 129, 0).outranks(&base));
    assert!(!tinted(128, 128, 128, 254).outranks(&base));
    assert!(!base.outranks(&base));
}

#[test]
fn snapshot_lists_chunks_by_rank() {
    let mut queue = SubdivisionQueue::new();
    queue.insert_all(vec![
        pixel_chunk(3, 0),
        wide_chunk(1, 2),
        pixel_chunk(0, 9),
        wide_chunk(0, 2),
        wide_chunk(2, 5),
    ]);
    let listed = vec![pixel_chunk(0, 9), wide_chunk(2, 5), wide_chunk(0, 2), wide_chunk(1, 2), pixel_chunk(3, 0)];
    assert_eq!(queue.snapshot(), listed);
    // a pixel that was taken keeps its place in the listing
    assert_eq!(queue.pop_max(), Some(pixel_chunk(0, 9)));
    assert_eq!(queue.snapshot(), listed);
    assert_eq!(queue.pop_max(), Some(wide_chunk(2, 5)));
    assert_eq!(
        queue.snapshot(),
        vec![pixel_chunk(0, 9), wide_chunk(0, 2), wide_chunk(1, 2), pixel_chunk(3, 0)]
    );
}
