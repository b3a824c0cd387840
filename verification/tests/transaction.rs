use yrs::apply::{Round, Unsupported};
use yrs::block::{Block, BlockRange, Item, ItemContent, ItemPosition, TypePtr, ID};
use yrs::id_set::{DeleteSet, IdSet};
use yrs::store::Store;
use yrs::transaction::Transaction;
use yrs::update::{Update, UpdateBlocks};

const A: u64 = 1;
const B: u64 = 2;

fn chars(s: &str) -> Vec<char> {
    s.chars().collect()
}

fn text_item(client: u64, clock: u32, origin: Option<ID>, right_origin: Option<ID>, s: &str) -> Block {
    Block::Item(Item {
        id: ID::new(client, clock),
        left: None,
        right: None,
        origin,
        right_origin,
        content: ItemContent::Text(chars(s)),
        parent: TypePtr::Named(0),
        parent_sub: None,
        deleted: false,
    })
}

fn update_of(client: u64, blocks: Vec<Block>) -> Update {
    Update { clients: vec![UpdateBlocks { client, blocks }] }
}

fn set_of(client: u64, start: u32, end: u32) -> DeleteSet {
    let mut ds = IdSet::new();
    ds.insert(ID::new(client, start), end - start);
    ds
}

/// The live text of root type 0, read by following the right links.
fn text_of(txn: &Transaction) -> String {
    let mut out = String::new();
    let mut cur = txn.store.get_head(&TypePtr::Named(0), &None);
    let mut steps = 0;
    while let Some(id) = cur {
        let item = txn.store.blocks.get_item(&id).expect("a link names an item");
        if !item.deleted {
            if let ItemContent::Text(cs) = &item.content {
                out.extend(cs.iter());
            }
        }
        cur = item.right;
        steps += 1;
        assert!(steps < 10_000, "the links loop");
    }
    out
}

/// The same text, read from the last item by following the left links.
fn text_backwards(txn: &Transaction) -> String {
    let mut last = None;
    let mut cur = txn.store.get_head(&TypePtr::Named(0), &None);
    while let Some(id) = cur {
        last = Some(id);
        cur = txn.store.blocks.get_item(&id).unwrap().right;
    }
    let mut parts: Vec<String> = Vec::new();
    let mut cur = last;
    while let Some(id) = cur {
        let item = txn.store.blocks.get_item(&id).unwrap();
        if !item.deleted {
            if let ItemContent::Text(cs) = &item.content {
                parts.push(cs.iter().collect());
            }
        }
        cur = item.left;
    }
    parts.reverse();
    parts.concat()
}

fn starts(txn: &Transaction, client: u64) -> Vec<u32> {
    match txn.store.blocks.get(&client) {
        Some(list) => list.list.iter().map(|b| b.id().clock).collect(),
        None => Vec::new(),
    }
}

/// A transaction on the store of client `A` that holds the ten units
/// "0123456789" of `A` in root type 0.
fn ten_units() -> Transaction {
    let mut txn = Transaction::new(Store::new(A));
    let text = txn.get_text("text");
    txn.create_item(
        &ItemPosition { parent: text.ptr, after: None },
        ItemContent::Text(chars("0123456789")),
    );
    Transaction::new(txn.store)
}

#[test]
fn new_takes_the_state_of_every_client() {
    let txn = ten_units();
    assert_eq!(txn.timestamp.get(&A), 10);
    assert_eq!(txn.timestamp.get(&B), 0);
    assert!(txn.merge_blocks.is_empty());
    assert!(txn.delete_set.is_empty());
    assert!(txn.changed.is_empty());
}

#[test]
fn get_text_registers_a_name_once() {
    let mut txn = Transaction::new(Store::new(A));
    let a = txn.get_text("a");
    let b = txn.get_text("b");
    let again = txn.get_text("a");
    assert_eq!(a.ptr, TypePtr::Named(0));
    assert_eq!(b.ptr, TypePtr::Named(1));
    assert_eq!(again.ptr, TypePtr::Named(0));
    assert_eq!(txn.store.names, vec!["a".to_string(), "b".to_string()]);
}

#[test]
fn clean_start_cuts_a_block_in_its_middle() {
    let mut txn = ten_units();
    let index = txn.find_index_clean_start(&A, 4);
    assert_eq!(index, Some(1));
    assert_eq!(starts(&txn, A), vec![0, 4]);
    assert_eq!(txn.merge_blocks, vec![ID::new(A, 4)]);
    let left = txn.store.blocks.get_item(&ID::new(A, 0)).unwrap();
    let right = txn.store.blocks.get_item(&ID::new(A, 4)).unwrap();
    assert_eq!(left.content, ItemContent::Text(chars("0123")));
    assert_eq!(right.content, ItemContent::Text(chars("456789")));
    assert_eq!(left.right, Some(ID::new(A, 4)));
    assert_eq!(right.left, Some(ID::new(A, 0)));
    assert_eq!(right.origin, Some(ID::new(A, 3)));
    assert_eq!(text_of(&txn), "0123456789");
    assert_eq!(text_backwards(&txn), "0123456789");
}

#[test]
fn clean_start_at_a_block_start_changes_nothing() {
    let mut txn = ten_units();
    let before = txn.clone();
    assert_eq!(txn.find_index_clean_start(&A, 0), Some(0));
    assert_eq!(txn, before);
}

#[test]
fn clean_start_beyond_the_state_is_none() {
    let mut txn = ten_units();
    let before = txn.clone();
    assert_eq!(txn.find_index_clean_start(&A, 10), None);
    assert_eq!(txn.find_index_clean_start(&A, 11), None);
    assert_eq!(txn.find_index_clean_start(&B, 0), None);
    assert_eq!(txn, before);
}

#[test]
fn a_cut_tells_the_right_neighbour() {
    let mut txn = Transaction::new(Store::new(A));
    let text = txn.get_text("text");
    txn.create_item(&ItemPosition { parent: text.ptr, after: None }, ItemContent::Text(chars("abcd")));
    txn.create_item(
        &ItemPosition { parent: text.ptr, after: Some(ID::new(A, 0)) },
        ItemContent::Text(chars("xy")),
    );
    assert_eq!(text_of(&txn), "abcdxy");
    assert_eq!(txn.find_index_clean_start(&A, 2), Some(1));
    let second = txn.store.blocks.get_item(&ID::new(A, 4)).unwrap();
    assert_eq!(second.left, Some(ID::new(A, 2)));
    let cut = txn.store.blocks.get_item(&ID::new(A, 2)).unwrap();
    assert_eq!(cut.right, Some(ID::new(A, 4)));
    assert_eq!(text_of(&txn), "abcdxy");
    assert_eq!(text_backwards(&txn), "abcdxy");
}

#[test]
fn rewire_names_the_new_left_neighbour() {
    let mut txn = ten_units();
    txn.find_index_clean_start(&A, 5);
    txn.rewire(&ID::new(A, 5), ID::new(A, 0));
    assert_eq!(txn.store.blocks.get_item(&ID::new(A, 5)).unwrap().left, Some(ID::new(A, 0)));
}

#[test]
fn split_keeps_the_content() {
    let mut item = match text_item(A, 0, None, None, "abcdef") {
        Block::Item(item) => item,
        Block::GC(_) => unreachable!(),
    };
    let right = item.split(2);
    assert_eq!(item.content, ItemContent::Text(chars("ab")));
    assert_eq!(right.content, ItemContent::Text(chars("cdef")));
    assert_eq!(item.id, ID::new(A, 0));
    assert_eq!(right.id, ID::new(A, 2));
    assert_eq!(item.right, Some(ID::new(A, 2)));
    assert_eq!(right.left, Some(ID::new(A, 0)));
    assert_eq!(right.origin, Some(ID::new(A, 1)));
    let mut gc = Block::GC(BlockRange { id: ID::new(A, 4), len: 6 });
    let rest = gc.split(1);
    assert_eq!(gc, Block::GC(BlockRange { id: ID::new(A, 4), len: 1 }));
    assert_eq!(rest, Block::GC(BlockRange { id: ID::new(A, 5), len: 5 }));
}

#[test]
fn delete_set_reaching_beyond_the_state_leaves_the_rest() {
    let mut txn = ten_units();
    let rest = txn.apply_delete(&set_of(A, 3, 15)).expect("five units are not known");
    assert_eq!(rest.clients.len(), 1);
    assert_eq!(rest.clients[0].client, A);
    assert_eq!(rest.clients[0].ranges, vec![10..15]);
    assert_eq!(starts(&txn, A), vec![0, 3]);
    assert!(!txn.store.blocks.get_item(&ID::new(A, 0)).unwrap().deleted);
    let gone = txn.store.blocks.get_item(&ID::new(A, 3)).unwrap();
    assert!(gone.deleted);
    assert_eq!(gone.content, ItemContent::Text(chars("3456789")));
    assert_eq!(text_of(&txn), "012");
    assert_eq!(txn.delete_set.clients[0].ranges, vec![3..10]);
    assert_eq!(txn.merge_blocks, vec![ID::new(A, 3)]);
}

#[test]
fn delete_set_within_the_state_leaves_nothing() {
    let mut txn = ten_units();
    assert_eq!(txn.apply_delete(&set_of(A, 2, 5)), None);
    assert_eq!(starts(&txn, A), vec![0, 2, 5]);
    assert_eq!(text_of(&txn), "0156789");
    assert_eq!(text_backwards(&txn), "0156789");
    assert_eq!(txn.delete_set.clients[0].ranges, vec![2..5]);
}

#[test]
fn delete_set_of_an_unknown_client_is_left_whole() {
    let mut txn = ten_units();
    let before = txn.clone();
    let rest = txn.apply_delete(&set_of(B, 0, 4)).unwrap();
    assert_eq!(rest.clients[0].client, B);
    assert_eq!(rest.clients[0].ranges, vec![0..4]);
    assert_eq!(txn, before);
}

#[test]
fn deleting_twice_is_deleting_once() {
    let mut once = ten_units();
    once.apply_delete(&set_of(A, 3, 7));
    let mut twice = ten_units();
    twice.apply_delete(&set_of(A, 3, 7));
    twice.apply_delete(&set_of(A, 3, 7));
    assert_eq!(once, twice);
    let mut later = Transaction::new(once.store.clone());
    later.apply_delete(&set_of(A, 3, 7));
    assert_eq!(later.store, once.store);
    assert!(later.delete_set.is_empty());
    assert!(later.changed.is_empty());
}

#[test]
fn deleting_overlapping_ranges_in_either_order_gives_the_same_text() {
    let mut one = ten_units();
    one.apply_delete(&set_of(A, 1, 5));
    one.apply_delete(&set_of(A, 3, 8));
    let mut other = ten_units();
    other.apply_delete(&set_of(A, 3, 8));
    other.apply_delete(&set_of(A, 1, 5));
    assert_eq!(text_of(&one), "089");
    assert_eq!(text_of(&other), "089");
    assert_eq!(one.delete_set.clients[0].ranges, vec![1..8]);
    assert_eq!(other.delete_set.clients[0].ranges, vec![1..8]);
}

#[test]
fn half_known_delete_set_is_resolved_when_the_rest_arrives() {
    let mut txn = ten_units();
    let rest = txn.apply_delete(&set_of(A, 5, 15)).unwrap();
    assert_eq!(rest.clients[0].ranges, vec![10..15]);
    let mut store = txn.store;
    store.client_id = A;
    let mut txn = Transaction::new(store);
    txn.create_item(
        &ItemPosition { parent: TypePtr::Named(0), after: Some(ID::new(A, 5)) },
        ItemContent::Text(chars("abcde")),
    );
    assert_eq!(text_of(&txn), "01234abcde");
    assert_eq!(txn.apply_delete(&rest), None);
    assert_eq!(text_of(&txn), "01234");
    assert_eq!(txn.delete_set.clients[0].ranges, vec![10..15]);
}

#[test]
fn delete_is_recorded_once_and_as_a_change_only_of_older_items() {
    let mut txn = ten_units();
    txn.create_item(
        &ItemPosition { parent: TypePtr::Named(0), after: Some(ID::new(A, 0)) },
        ItemContent::Text(chars("new")),
    );
    txn.delete(&ID::new(A, 10));
    assert_eq!(txn.delete_set.clients[0].ranges, vec![10..13]);
    assert!(txn.changed.is_empty());
    txn.delete(&ID::new(A, 0));
    assert_eq!(txn.delete_set.clients[0].ranges, vec![0..13]);
    assert_eq!(txn.changed.len(), 1);
    assert_eq!(txn.changed[0].parent, TypePtr::Named(0));
    assert_eq!(txn.changed[0].key, None);
    let before = txn.clone();
    txn.delete(&ID::new(A, 0));
    assert_eq!(txn, before);
    assert_eq!(text_of(&txn), "");
}

#[test]
fn iterate_structs_visits_the_blocks_of_the_range_once_each() {
    let mut txn = ten_units();
    txn.find_index_clean_start(&A, 4);
    txn.find_index_clean_start(&A, 6);
    let seen = txn.iterate_structs(&A, &(2..8), &|b: &Block| (b.id().clock, b.clock_end()));
    assert_eq!(seen, vec![(2, 4), (4, 6), (6, 8)]);
    assert_eq!(starts(&txn, A), vec![0, 2, 4, 6, 8]);
    assert_eq!(
        txn.merge_blocks,
        vec![ID::new(A, 4), ID::new(A, 6), ID::new(A, 2), ID::new(A, 8)]
    );
    assert_eq!(text_of(&txn), "0123456789");
}

#[test]
fn iterate_structs_on_an_empty_range_does_nothing() {
    let mut txn = ten_units();
    let before = txn.clone();
    let seen = txn.iterate_structs(&A, &(3..3), &|b: &Block| b.id().clock);
    assert!(seen.is_empty());
    let seen = txn.iterate_structs(&A, &(12..14), &|b: &Block| b.id().clock);
    assert!(seen.is_empty());
    let seen = txn.iterate_structs(&B, &(0..4), &|b: &Block| b.id().clock);
    assert!(seen.is_empty());
    assert_eq!(txn, before);
}

#[test]
fn iterate_structs_stops_at_the_state() {
    let mut txn = ten_units();
    let seen = txn.iterate_structs(&A, &(7..20), &|b: &Block| (b.id().clock, b.clock_end()));
    assert_eq!(seen, vec![(7, 10)]);
}

#[test]
fn apply_ranges_visits_known_clients_only() {
    let mut txn = ten_units();
    let mut set = IdSet::new();
    set.insert(ID::new(A, 1), 2);
    set.insert(ID::new(A, 6), 2);
    set.insert(ID::new(B, 0), 5);
    let seen = txn.apply_ranges(&set, &|b: &Block| (b.id().client, b.id().clock, b.clock_end()));
    assert_eq!(seen, vec![(A, 1, 3), (A, 6, 8)]);
    assert_eq!(starts(&txn, A), vec![0, 1, 3, 6, 8]);
}

#[test]
fn create_item_puts_items_where_they_are_asked() {
    let mut txn = Transaction::new(Store::new(A));
    let text = txn.get_text("text");
    txn.create_item(&ItemPosition { parent: text.ptr, after: None }, ItemContent::Text(chars("world")));
    txn.create_item(&ItemPosition { parent: text.ptr, after: None }, ItemContent::Text(chars("hello ")));
    txn.create_item(
        &ItemPosition { parent: text.ptr, after: Some(ID::new(A, 0)) },
        ItemContent::Text(chars("!")),
    );
    assert_eq!(text_of(&txn), "hello world!");
    assert_eq!(text_backwards(&txn), "hello world!");
    assert_eq!(txn.store.blocks.get_state(&A), 12);
    let last = txn.store.blocks.get_item(&ID::new(A, 11)).unwrap();
    assert_eq!(last.origin, Some(ID::new(A, 0)));
    assert_eq!(last.right_origin, None);
    assert_eq!(last.left, Some(ID::new(A, 0)));
    let first = txn.store.blocks.get_item(&ID::new(A, 5)).unwrap();
    assert_eq!(first.left, None);
    assert_eq!(first.right, Some(ID::new(A, 0)));
    assert_eq!(first.right_origin, Some(ID::new(A, 0)));
    assert_eq!(txn.store.get_head(&text.ptr, &None), Some(ID::new(A, 5)));
}

#[test]
fn update_in_order_is_placed_whole() {
    let mut txn = Transaction::new(Store::new(A));
    txn.get_text("text");
    let update = update_of(
        B,
        vec![
            text_item(B, 0, None, None, "abc"),
            text_item(B, 3, Some(ID::new(B, 2)), None, "def"),
        ],
    );
    txn.apply_update(update, IdSet::new()).unwrap();
    assert_eq!(text_of(&txn), "abcdef");
    assert_eq!(txn.store.blocks.get_state(&B), 6);
    assert_eq!(txn.store.pending, None);
    assert_eq!(txn.store.pending_ds, None);
}

#[test]
fn update_known_already_changes_nothing() {
    let mut txn = Transaction::new(Store::new(A));
    txn.get_text("text");
    txn.apply_update(update_of(B, vec![text_item(B, 0, None, None, "abc")]), IdSet::new()).unwrap();
    let before = txn.clone();
    txn.apply_update(update_of(B, vec![text_item(B, 0, None, None, "abc")]), IdSet::new()).unwrap();
    assert_eq!(txn, before);
}

#[test]
fn update_known_in_part_adds_the_rest() {
    let mut txn = Transaction::new(Store::new(A));
    txn.get_text("text");
    txn.apply_update(update_of(B, vec![text_item(B, 0, None, None, "abc")]), IdSet::new()).unwrap();
    txn.apply_update(update_of(B, vec![text_item(B, 0, None, None, "abcdef")]), IdSet::new()).unwrap();
    assert_eq!(text_of(&txn), "abcdef");
    assert_eq!(txn.store.blocks.get_state(&B), 6);
    assert_eq!(starts(&txn, B), vec![0, 3]);
    assert_eq!(
        txn.store.blocks.get_item(&ID::new(B, 3)).unwrap().origin,
        Some(ID::new(B, 2))
    );
}

#[test]
fn pending_updates_merge_and_are_placed_when_their_units_arrive() {
    let mut txn = Transaction::new(Store::new(A));
    txn.get_text("text");
    txn.apply_update(update_of(B, vec![text_item(B, 0, None, None, "abcde")]), IdSet::new()).unwrap();
    txn.apply_update(
        update_of(B, vec![text_item(B, 6, Some(ID::new(B, 5)), None, "g")]),
        IdSet::new(),
    ).unwrap();
    {
        let pending = txn.store.pending.as_ref().expect("unit 5 is wanting");
        assert_eq!(pending.missing.get(&B), 5);
    }
    txn.apply_update(
        update_of(B, vec![text_item(B, 9, Some(ID::new(B, 8)), None, "j")]),
        IdSet::new(),
    ).unwrap();
    {
        let pending = txn.store.pending.as_ref().unwrap();
        assert_eq!(pending.missing.get(&B), 5);
        assert_eq!(pending.missing.entries.len(), 1);
        assert_eq!(pending.update.clients.len(), 1);
        let clocks: Vec<u32> = pending.update.clients[0].blocks.iter().map(|b| b.id().clock).collect();
        assert_eq!(clocks, vec![6, 9]);
    }
    assert_eq!(txn.store.blocks.get_state(&B), 5);
    txn.apply_update(
        update_of(B, vec![text_item(B, 5, Some(ID::new(B, 4)), None, "f")]),
        IdSet::new(),
    ).unwrap();
    assert_eq!(txn.store.blocks.get_state(&B), 7);
    assert_eq!(text_of(&txn), "abcdefg");
    {
        let pending = txn.store.pending.as_ref().expect("unit 8 is wanting");
        assert_eq!(pending.missing.get(&B), 8);
        let clocks: Vec<u32> = pending.update.clients[0].blocks.iter().map(|b| b.id().clock).collect();
        assert_eq!(clocks, vec![9]);
    }
    txn.apply_update(
        update_of(B, vec![text_item(B, 7, Some(ID::new(B, 6)), None, "hi")]),
        IdSet::new(),
    ).unwrap();
    assert_eq!(txn.store.blocks.get_state(&B), 10);
    assert_eq!(text_of(&txn), "abcdefghij");
    assert_eq!(txn.store.pending, None);
}

#[test]
fn pending_updates_merge_in_clock_order_whatever_the_order_of_arrival() {
    let mut txn = Transaction::new(Store::new(A));
    txn.get_text("text");
    txn.apply_update(
        update_of(B, vec![text_item(B, 3, Some(ID::new(B, 2)), None, "d")]),
        IdSet::new(),
    ).unwrap();
    txn.apply_update(
        update_of(B, vec![text_item(B, 1, Some(ID::new(B, 0)), None, "bc")]),
        IdSet::new(),
    ).unwrap();
    {
        let pending = txn.store.pending.as_ref().unwrap();
        assert_eq!(pending.missing.get(&B), 0);
        let clocks: Vec<u32> = pending.update.clients[0].blocks.iter().map(|b| b.id().clock).collect();
        assert_eq!(clocks, vec![1, 3]);
    }
    txn.apply_update(update_of(B, vec![text_item(B, 0, None, None, "a")]), IdSet::new()).unwrap();
    assert_eq!(text_of(&txn), "abcd");
    assert_eq!(txn.store.pending, None);
}

#[test]
fn deletions_wait_for_their_units() {
    let mut txn = Transaction::new(Store::new(A));
    txn.get_text("text");
    txn.apply_update(update_of(B, vec![text_item(B, 0, None, None, "abc")]), set_of(B, 1, 5)).unwrap();
    assert_eq!(text_of(&txn), "a");
    assert_eq!(txn.store.pending_ds.as_ref().unwrap().clients[0].ranges, vec![3..5]);
    txn.apply_update(
        update_of(B, vec![text_item(B, 3, Some(ID::new(B, 2)), None, "def")]),
        IdSet::new(),
    ).unwrap();
    assert_eq!(text_of(&txn), "af");
    assert_eq!(txn.store.pending_ds, None);
    assert_eq!(txn.delete_set.clients[0].ranges, vec![1..5]);
}

#[test]
fn item_that_depends_on_another_client_waits_for_it() {
    let mut txn = Transaction::new(Store::new(9));
    txn.get_text("text");
    txn.apply_update(
        update_of(B, vec![text_item(B, 0, Some(ID::new(A, 1)), None, "x")]),
        IdSet::new(),
    ).unwrap();
    assert_eq!(txn.store.pending.as_ref().unwrap().missing.get(&A), 0);
    assert_eq!(txn.store.blocks.get_state(&B), 0);
    txn.apply_update(update_of(A, vec![text_item(A, 0, None, None, "ab")]), IdSet::new()).unwrap();
    assert_eq!(text_of(&txn), "abx");
    assert_eq!(txn.store.pending, None);
}

#[test]
fn update_with_blocks_of_two_clients_that_depend_on_each_other() {
    let mut txn = Transaction::new(Store::new(9));
    txn.get_text("text");
    let update = Update {
        clients: vec![
            UpdateBlocks { client: B, blocks: vec![text_item(B, 0, Some(ID::new(A, 0)), None, "b")] },
            UpdateBlocks { client: A, blocks: vec![text_item(A, 0, None, None, "a")] },
        ],
    };
    txn.apply_update(update, IdSet::new()).unwrap();
    assert_eq!(text_of(&txn), "ab");
    assert_eq!(txn.store.pending, None);
}

#[test]
fn replicas_converge_whatever_the_order_of_updates() {
    let base = || update_of(A, vec![text_item(A, 0, None, None, "ab")]);
    // two clients write between `a` and `b` at the same time
    let from_b = || update_of(B, vec![text_item(B, 0, Some(ID::new(A, 0)), Some(ID::new(A, 1)), "X")]);
    let from_c = || update_of(3, vec![text_item(3, 0, Some(ID::new(A, 0)), Some(ID::new(A, 1)), "Y")]);
    let orders: Vec<Vec<usize>> = vec![
        vec![0, 1, 2],
        vec![0, 2, 1],
        vec![1, 0, 2],
        vec![1, 2, 0],
        vec![2, 0, 1],
        vec![2, 1, 0],
        vec![2, 1, 0, 1, 2, 0],
    ];
    for order in orders {
        let mut txn = Transaction::new(Store::new(9));
        txn.get_text("text");
        for which in order {
            let (update, ds) = match which {
                0 => (base(), IdSet::new()),
                1 => (from_b(), set_of(A, 1, 2)),
                _ => (from_c(), IdSet::new()),
            };
            txn.apply_update(update, ds).unwrap();
        }
        assert_eq!(text_of(&txn), "aXY");
        assert_eq!(text_backwards(&txn), "aXY");
        assert_eq!(txn.store.pending, None);
        assert_eq!(txn.store.pending_ds, None);
    }
}

#[test]
fn placeholders_are_placed_and_skipped_by_deletions() {
    let mut txn = Transaction::new(Store::new(A));
    txn.get_text("text");
    let update = update_of(
        B,
        vec![
            Block::GC(BlockRange { id: ID::new(B, 0), len: 4 }),
            text_item(B, 4, None, None, "abc"),
        ],
    );
    txn.apply_update(update, set_of(B, 2, 6)).unwrap();
    assert_eq!(txn.store.blocks.get_state(&B), 7);
    assert_eq!(text_of(&txn), "c");
    assert_eq!(txn.delete_set.clients[0].ranges, vec![4..6]);
    assert_eq!(starts(&txn, B), vec![0, 2, 4, 6]);
}

#[test]
fn item_whose_origin_is_gone_becomes_a_placeholder() {
    let mut txn = Transaction::new(Store::new(A));
    txn.get_text("text");
    let update = update_of(
        B,
        vec![
            Block::GC(BlockRange { id: ID::new(B, 0), len: 2 }),
            text_item(B, 2, Some(ID::new(B, 1)), None, "ab"),
        ],
    );
    txn.apply_update(update, IdSet::new()).unwrap();
    assert_eq!(txn.store.blocks.get_state(&B), 4);
    assert_eq!(text_of(&txn), "");
    assert_eq!(
        txn.store.blocks.get_block(&ID::new(B, 2)),
        Some(&Block::GC(BlockRange { id: ID::new(B, 2), len: 2 }))
    );
}

#[test]
fn encode_update_writes_new_blocks_and_deleted_units() {
    let mut txn = Transaction::new(Store::new(A));
    let text = txn.get_text("text");
    // nothing new, nothing deleted: no client, no entry
    assert_eq!(txn.encode_update(), vec![0, 0]);
    txn.create_item(&ItemPosition { parent: text.ptr, after: None }, ItemContent::Text(chars("ab")));
    assert_eq!(
        txn.encode_update(),
        vec![
            1, // one client
            1, 0, 1, // client 1 from clock 0 on, one block
            2, // text, without origin, right origin or key
            0, 0, // root type 0
            2, 97, 98, // two characters
            0, // no deletions
        ]
    );
    let mut txn = Transaction::new(txn.store);
    assert_eq!(txn.encode_update(), vec![0, 0]);
    txn.create_item(
        &ItemPosition { parent: text.ptr, after: Some(ID::new(A, 0)) },
        ItemContent::Text(chars("\u{e9}")),
    );
    txn.delete(&ID::new(A, 0));
    assert_eq!(
        txn.encode_update(),
        vec![
            1, // one client
            1, 2, 1, // client 1 from clock 2 on, one block
            130, 1, 0, // text with an origin: unit 0 of client 1
            0, 0, // root type 0
            1, 233, 1, // one character, number 233
            1, 1, 1, 0, 2, // deleted in the store: one client, client 1, one range, from 0, two units
        ]
    );
    // the bytes are those of the store and of the state at the beginning: a
    // transaction that has deleted nothing itself writes the same deleted units
    let later = Transaction::new(txn.store.clone());
    assert!(later.delete_set.is_empty());
    assert_eq!(later.encode_update(), vec![0, 1, 1, 1, 0, 2]);
    let mut same = Transaction::new(txn.store.clone());
    same.timestamp = txn.timestamp.clone();
    assert!(same.delete_set.is_empty() && !txn.delete_set.is_empty());
    assert_eq!(same.encode_update(), txn.encode_update());
}

#[test]
fn the_deleted_units_of_a_store_are_its_placeholders_and_deleted_items() {
    let mut txn = Transaction::new(Store::new(9));
    txn.get_text("text");
    assert_eq!(txn.store.blocks.deleted_set(), IdSet::new());
    txn.apply_update(update_of(B, vec![text_item(B, 0, None, None, "abcdef")]), set_of(B, 1, 3)).unwrap();
    txn.apply_update(update_of(A, vec![text_item(A, 0, None, None, "xy")]), IdSet::new()).unwrap();
    // units that adjoin deleted ones, in a block of their own
    txn.apply_update(Update::new(), set_of(B, 3, 4)).unwrap();
    txn.apply_update(Update::new(), set_of(B, 5, 6)).unwrap();
    let mut expected = IdSet::new();
    expected.insert(ID::new(B, 1), 3);
    expected.insert(ID::new(B, 5), 1);
    let deleted = txn.store.blocks.deleted_set();
    assert_eq!(deleted, expected);
    assert!(deleted.is_valid());
    assert!(!deleted.contains(&ID::new(A, 0)));
    // a placeholder counts, and the entries come in the order of the store
    txn.apply_update(
        update_of(A, vec![Block::GC(BlockRange { id: ID::new(A, 2), len: 2 })]),
        IdSet::new(),
    )
    .unwrap();
    let mut expected = IdSet::new();
    expected.insert(ID::new(B, 1), 3);
    expected.insert(ID::new(B, 5), 1);
    expected.insert(ID::new(A, 2), 2);
    assert_eq!(txn.store.blocks.deleted_set(), expected);
}

#[test]
fn encode_update_starts_in_the_middle_of_a_block() {
    let mut txn = Transaction::new(Store::new(A));
    txn.get_text("text");
    txn.apply_update(update_of(B, vec![text_item(B, 0, None, None, "abc")]), IdSet::new()).unwrap();
    let mut store = txn.store;
    // as if the transaction had begun when only `a` was known
    let mut txn = Transaction::new(Store::new(A));
    txn.get_text("text");
    txn.apply_update(update_of(B, vec![text_item(B, 0, None, None, "a")]), IdSet::new()).unwrap();
    let mut txn = Transaction::new(txn.store);
    txn.apply_update(update_of(B, vec![text_item(B, 0, None, None, "abc")]), IdSet::new()).unwrap();
    store.client_id = A;
    assert_eq!(
        txn.encode_update(),
        vec![1, 2, 1, 1, 130, 2, 0, 0, 0, 2, 98, 99, 0]
    );
}

#[test]
fn numbers_are_written_in_groups_of_seven_bits() {
    let mut encoder = yrs::encoder::EncoderV1::new();
    encoder.write_uvar(0);
    encoder.write_uvar(127);
    encoder.write_uvar(128);
    encoder.write_uvar(300);
    encoder.write_uvar(u64::MAX);
    assert_eq!(
        encoder.to_vec(),
        vec![0, 127, 128, 1, 172, 2, 255, 255, 255, 255, 255, 255, 255, 255, 255, 1]
    );
}

#[test]
fn validity_is_told_of_what_callers_hand_in() {
    assert!(text_item(A, 0, None, None, "a").is_valid());
    assert!(!text_item(A, 0, None, None, "").is_valid());
    assert!(!text_item(A, u32::MAX, None, None, "a").is_valid());
    assert!(!Block::GC(BlockRange { id: ID::new(A, 0), len: 0 }).is_valid());
    assert!(update_of(A, vec![text_item(A, 0, None, None, "a")]).is_valid());
    assert!(!update_of(B, vec![text_item(A, 0, None, None, "a")]).is_valid());
    let doc = Block::Item(Item {
        id: ID::new(A, 0),
        left: None,
        right: None,
        origin: None,
        right_origin: None,
        content: ItemContent::Doc("d".to_string()),
        parent: TypePtr::Named(0),
        parent_sub: None,
        deleted: false,
    });
    assert!(!doc.is_plain());
    assert!(!update_of(A, vec![doc]).is_plain());
    assert!(update_of(A, vec![text_item(A, 0, None, None, "a")]).is_plain());
    let mut ds = IdSet::new();
    ds.insert(ID::new(A, 0), 2);
    assert!(ds.is_valid());
    ds.clients[0].ranges.push(2..3);
    assert!(!ds.is_valid());
    ds.clients[0].ranges[1] = 4..4;
    assert!(!ds.is_valid());
    ds.clients[0].ranges[1] = 4..5;
    assert!(ds.is_valid());
    let entry = ds.clients[0].clone();
    ds.clients.push(entry);
    assert!(!ds.is_valid());
    let txn = ten_units();
    assert!(txn.store.blocks.is_plain());
}

#[test]
fn a_deletion_cuts_at_its_start_and_at_its_end_only_through_a_live_item() {
    let mut txn = ten_units();
    txn.apply_delete(&set_of(A, 2, 8));
    assert_eq!(starts(&txn, A), vec![0, 2, 8]);
    assert_eq!(txn.merge_blocks, vec![ID::new(A, 2), ID::new(A, 8)]);
    // within what is deleted already: a cut at the start, none at the end
    txn.apply_delete(&set_of(A, 4, 6));
    assert_eq!(starts(&txn, A), vec![0, 2, 4, 8]);
    assert_eq!(txn.merge_blocks, vec![ID::new(A, 2), ID::new(A, 8), ID::new(A, 4)]);
    // up to the state: no cut at the end
    txn.apply_delete(&set_of(A, 9, 10));
    assert_eq!(starts(&txn, A), vec![0, 2, 4, 8, 9]);
    assert_eq!(text_of(&txn), "018");
    assert_eq!(txn.delete_set.clients[0].ranges, vec![2..8, 9..10]);
}

fn doc_item(client: u64, clock: u32, origin: Option<ID>) -> Block {
    Block::Item(Item {
        id: ID::new(client, clock),
        left: None,
        right: None,
        origin,
        right_origin: None,
        content: ItemContent::Doc("inner".to_string()),
        parent: TypePtr::Named(0),
        parent_sub: None,
        deleted: false,
    })
}

#[test]
fn documents_can_be_placed_and_left_alone_but_not_deleted() {
    let mut txn = Transaction::new(Store::new(A));
    txn.get_text("text");
    let update = update_of(B, vec![text_item(B, 0, None, None, "ab"), doc_item(B, 2, Some(ID::new(B, 1)))]);
    let beside = set_of(B, 0, 2);
    assert!(txn.can_apply(&update, &beside));
    assert!(!txn.can_apply(&update, &set_of(B, 2, 3)));
    assert!(!txn.can_apply(&update, &set_of(B, 1, 9)));
    assert_eq!(txn.apply_update(update, beside), Ok(()));
    assert_eq!(txn.store.blocks.get_state(&B), 3);
    assert_eq!(text_of(&txn), "");
    assert!(!txn.store.blocks.is_plain());
    assert!(txn.store.blocks.clear_of(&set_of(B, 0, 2)));
    assert!(!txn.store.blocks.clear_of(&set_of(B, 2, 3)));
    // more text may follow, and other deletions
    let more = update_of(B, vec![text_item(B, 3, Some(ID::new(B, 2)), None, "cd")]);
    assert!(txn.can_apply(&more, &set_of(B, 3, 4)));
    assert!(!txn.can_apply(&more, &set_of(B, 2, 4)));
    assert_eq!(txn.apply_update(more, set_of(B, 3, 4)), Ok(()));
    assert_eq!(text_of(&txn), "d");
    // a deletion that waits in the store counts too
    let mut waits = Transaction::new(Store::new(A));
    waits.get_text("text");
    waits.apply_update(Update::new(), set_of(B, 2, 3)).unwrap();
    assert!(waits.store.pending_ds.is_some());
    let update = update_of(B, vec![text_item(B, 0, None, None, "ab"), doc_item(B, 2, Some(ID::new(B, 1)))]);
    assert!(!waits.can_apply(&update, &IdSet::new()));
    assert!(waits.can_apply(&update_of(B, vec![text_item(B, 0, None, None, "abc")]), &IdSet::new()));
}

#[test]
fn deleting_a_placed_document_is_reported_and_deletes_nothing() {
    let mut txn = Transaction::new(Store::new(A));
    txn.get_text("text");
    let update = update_of(B, vec![text_item(B, 0, None, None, "ab"), doc_item(B, 2, Some(ID::new(B, 1)))]);
    assert_eq!(txn.apply_update(update, set_of(B, 1, 3)), Err(Unsupported));
    // the blocks were placed, nothing was deleted, and the deletions wait
    assert_eq!(txn.store.blocks.get_state(&B), 3);
    assert_eq!(text_of(&txn), "ab");
    assert!(txn.merge_blocks.is_empty());
    assert_eq!(txn.store.pending_ds, Some(set_of(B, 1, 3)));
    assert!(txn.store.pending.is_none());
    // one round says as much
    let mut once = Transaction::new(Store::new(A));
    once.get_text("text");
    let update = update_of(B, vec![doc_item(B, 0, None)]);
    assert_eq!(once.apply_once(update, set_of(B, 0, 1)), Round::Unsupported);
    assert_eq!(once.store.blocks.get_state(&B), 1);
}

#[test]
fn a_document_that_cannot_be_placed_yet_may_be_named_by_the_deletions() {
    let mut txn = Transaction::new(Store::new(A));
    txn.get_text("text");
    // the document follows a unit that the store does not know yet
    let update = update_of(B, vec![doc_item(B, 2, Some(ID::new(B, 1)))]);
    assert!(!txn.can_apply(&update, &set_of(B, 2, 3)));
    assert_eq!(txn.apply_update(update, set_of(B, 2, 3)), Ok(()));
    assert_eq!(txn.store.blocks.get_state(&B), 0);
    assert!(txn.store.pending.is_some());
    assert_eq!(txn.store.pending_ds, Some(set_of(B, 2, 3)));
    // once it is placed, the deletion that waits cannot be done
    let fill = update_of(B, vec![text_item(B, 0, None, None, "ab")]);
    assert_eq!(txn.apply_update(fill, IdSet::new()), Err(Unsupported));
    assert_eq!(txn.store.blocks.get_state(&B), 3);
    assert_eq!(text_of(&txn), "ab");
    assert_eq!(txn.store.pending_ds, Some(set_of(B, 2, 3)));
}

#[test]
fn a_round_says_whether_to_apply_what_was_pending() {
    let mut txn = Transaction::new(Store::new(A));
    txn.get_text("text");
    let late = update_of(B, vec![text_item(B, 2, Some(ID::new(B, 1)), None, "c")]);
    assert_eq!(txn.apply_once(late, IdSet::new()), Round::Done { retry: false });
    assert!(txn.store.pending.is_some());
    let first = update_of(B, vec![text_item(B, 0, None, None, "ab")]);
    assert_eq!(txn.apply_once(first, IdSet::new()), Round::Done { retry: true });
    assert_eq!(text_of(&txn), "ab");
    assert!(txn.store.pending.is_some());
}

#[test]
fn deleting_under_a_map_key_records_the_key() {
    let mut txn = Transaction::new(Store::new(A));
    txn.get_text("map");
    let entry = |clock: u32, value: &str| {
        Block::Item(Item {
            id: ID::new(B, clock),
            left: None,
            right: None,
            origin: None,
            right_origin: None,
            content: ItemContent::Text(chars(value)),
            parent: TypePtr::Named(0),
            parent_sub: Some("key".to_string()),
            deleted: false,
        })
    };
    txn.apply_update(update_of(B, vec![entry(0, "v")]), IdSet::new()).unwrap();
    assert_eq!(txn.store.get_head(&TypePtr::Named(0), &Some("key".to_string())), Some(ID::new(B, 0)));
    assert_eq!(txn.store.get_head(&TypePtr::Named(0), &None), None);
    let mut txn = Transaction::new(txn.store);
    txn.apply_delete(&set_of(B, 0, 1));
    assert_eq!(txn.changed.len(), 1);
    assert_eq!(txn.changed[0].parent, TypePtr::Named(0));
    assert_eq!(txn.changed[0].key, Some("key".to_string()));
}

#[test]
fn items_written_at_one_place_at_one_time_are_ordered_by_client() {
    let from = |client: u64, s: &str| update_of(client, vec![text_item(client, 0, None, None, s)]);
    for order in [[5u64, 3, 8], [8, 5, 3], [3, 8, 5], [8, 3, 5]] {
        let mut txn = Transaction::new(Store::new(9));
        txn.get_text("text");
        for client in order {
            let s = match client {
                3 => "c",
                5 => "e",
                _ => "h",
            };
            txn.apply_update(from(client, s), IdSet::new()).unwrap();
        }
        assert_eq!(text_of(&txn), "ceh");
        assert_eq!(text_backwards(&txn), "ceh");
    }
}

#[test]
fn iterate_structs_records_the_cut_at_the_start_and_then_the_cut_at_the_end() {
    let mut txn = ten_units();
    let seen = txn.iterate_structs(&A, &(3..7), &|b: &Block| (b.id(), b.len()));
    assert_eq!(seen, vec![(ID::new(A, 3), 4)]);
    assert_eq!(starts(&txn, A), vec![0, 3, 7]);
    assert_eq!(txn.merge_blocks, vec![ID::new(A, 3), ID::new(A, 7)]);
    // a second visit cuts nothing and records nothing
    let seen = txn.iterate_structs(&A, &(3..7), &|b: &Block| (b.id(), b.len()));
    assert_eq!(seen, vec![(ID::new(A, 3), 4)]);
    assert_eq!(txn.merge_blocks, vec![ID::new(A, 3), ID::new(A, 7)]);
}

#[test]
fn deleting_the_first_units_records_one_cut() {
    let mut txn = ten_units();
    assert_eq!(txn.apply_delete(&set_of(A, 0, 4)), None);
    assert_eq!(starts(&txn, A), vec![0, 4]);
    assert!(txn.store.blocks.get_item(&ID::new(A, 0)).unwrap().deleted);
    assert!(!txn.store.blocks.get_item(&ID::new(A, 4)).unwrap().deleted);
    assert_eq!(txn.merge_blocks, vec![ID::new(A, 4)]);
    assert_eq!(txn.delete_set.clients[0].ranges, vec![0..4]);
}

#[test]
fn apply_ranges_records_the_cuts_range_after_range() {
    let mut txn = ten_units();
    let mut set = IdSet::new();
    set.insert(ID::new(A, 6), 2);
    set.insert(ID::new(A, 1), 2);
    set.insert(ID::new(A, 8), 2);
    txn.apply_ranges(&set, &|b: &Block| b.id().clock);
    assert_eq!(set.clients[0].ranges, vec![1..3, 6..10]);
    assert_eq!(txn.merge_blocks, vec![ID::new(A, 1), ID::new(A, 3), ID::new(A, 6)]);
}

#[test]
fn a_new_item_takes_the_block_it_follows_for_its_origin() {
    let mut txn = ten_units();
    txn.create_item(
        &ItemPosition { parent: TypePtr::Named(0), after: Some(ID::new(A, 0)) },
        ItemContent::Text(chars("x")),
    );
    txn.create_item(
        &ItemPosition { parent: TypePtr::Named(0), after: Some(ID::new(A, 0)) },
        ItemContent::Text(chars("y")),
    );
    let y = txn.store.blocks.get_item(&ID::new(A, 11)).unwrap();
    assert_eq!(y.origin, Some(ID::new(A, 0)));
    assert_eq!(y.right_origin, Some(ID::new(A, 10)));
    assert_eq!(y.left, Some(ID::new(A, 0)));
    assert_eq!(y.right, Some(ID::new(A, 10)));
    assert_eq!(txn.store.blocks.get_item(&ID::new(A, 0)).unwrap().right, Some(ID::new(A, 11)));
    assert_eq!(txn.store.blocks.get_item(&ID::new(A, 10)).unwrap().left, Some(ID::new(A, 11)));
    assert_eq!(text_of(&txn), "0123456789yx");
}

#[test]
fn the_same_name_gives_the_same_handle() {
    let mut txn = Transaction::new(Store::new(A));
    let a = txn.get_text("a");
    let b = txn.get_text("b");
    let state = txn.store.blocks.get_state_vector();
    assert_eq!(txn.get_text("a"), a);
    assert_eq!(txn.get_text("b"), b);
    assert_ne!(a, b);
    assert_eq!(txn.store.names.len(), 2);
    assert_eq!(txn.store.blocks.get_state_vector(), state);
}

#[test]
fn applying_an_update_again_changes_nothing() {
    let mut txn = Transaction::new(Store::new(9));
    txn.get_text("text");
    let update = || update_of(B, vec![text_item(B, 0, None, None, "abc")]);
    txn.apply_update(update(), set_of(B, 1, 2)).unwrap();
    let mut again = Transaction::new(txn.store.clone());
    again.apply_update(update(), set_of(B, 1, 2)).unwrap();
    assert_eq!(again.store, txn.store);
    assert!(again.merge_blocks.is_empty());
    assert!(again.delete_set.is_empty());
    assert!(again.changed.is_empty());
}

#[test]
fn a_pending_update_that_nothing_unblocks_stays_as_it_was() {
    let mut txn = Transaction::new(Store::new(9));
    txn.get_text("text");
    txn.apply_update(update_of(B, vec![text_item(B, 6, Some(ID::new(B, 5)), None, "g")]), IdSet::new()).unwrap();
    let before = txn.store.pending.clone();
    txn.apply_update(update_of(A, vec![text_item(A, 0, None, None, "a")]), IdSet::new()).unwrap();
    assert_eq!(txn.store.pending, before);
    assert_eq!(text_of(&txn), "a");
}

#[test]
fn applying_again_leaves_what_waits_as_it_was() {
    let mut txn = Transaction::new(Store::new(9));
    txn.get_text("text");
    // a block that waits for a unit, and a deletion of a unit that is not known
    txn.apply_update(update_of(A, vec![text_item(A, 3, Some(ID::new(A, 2)), None, "x")]), set_of(A, 3, 4))
        .unwrap();
    let update = || update_of(B, vec![text_item(B, 0, None, None, "abc")]);
    txn.apply_update(update(), set_of(B, 1, 2)).unwrap();
    assert!(txn.store.pending.is_some());
    assert_eq!(txn.store.pending_ds, Some(set_of(A, 3, 4)));
    let mut again = Transaction::new(txn.store.clone());
    assert_eq!(again.apply_update(update(), set_of(B, 1, 2)), Ok(()));
    assert_eq!(again.store, txn.store);
    assert!(again.merge_blocks.is_empty());
    assert!(again.delete_set.is_empty());
    assert!(again.changed.is_empty());
}

#[test]
fn a_block_that_came_twice_while_it_waited_is_placed_once() {
    let late = || update_of(B, vec![text_item(B, 2, Some(ID::new(B, 1)), None, "c")]);
    let first = || update_of(B, vec![text_item(B, 0, None, None, "ab")]);
    let mut twice = Transaction::new(Store::new(9));
    twice.get_text("text");
    twice.apply_update(late(), IdSet::new()).unwrap();
    twice.apply_update(late(), IdSet::new()).unwrap();
    assert_eq!(twice.store.pending.as_ref().unwrap().missing.get(&B), 1);
    twice.apply_update(first(), IdSet::new()).unwrap();
    let mut once = Transaction::new(Store::new(9));
    once.get_text("text");
    once.apply_update(late(), IdSet::new()).unwrap();
    once.apply_update(first(), IdSet::new()).unwrap();
    assert_eq!(text_of(&twice), "abc");
    assert_eq!(twice.store.blocks, once.store.blocks);
    assert!(twice.store.pending.is_none());
    assert!(once.store.pending.is_none());
}

#[test]
fn applying_again_what_still_waits_leaves_the_document_as_it_was() {
    let update = || {
        update_of(
            B,
            vec![text_item(B, 0, None, None, "ab"), text_item(B, 5, Some(ID::new(B, 4)), None, "z")],
        )
    };
    let mut txn = Transaction::new(Store::new(9));
    txn.get_text("text");
    txn.apply_update(update(), set_of(B, 1, 7)).unwrap();
    assert_eq!(text_of(&txn), "a");
    assert_eq!(txn.store.blocks.get_state(&B), 2);
    assert!(txn.store.pending.is_some());
    assert_eq!(txn.store.pending_ds, Some(set_of(B, 2, 7)));
    let mut again = Transaction::new(txn.store.clone());
    assert_eq!(again.apply_update(update(), set_of(B, 1, 7)), Ok(()));
    assert_eq!(again.store.blocks, txn.store.blocks);
    assert_eq!(again.store.types, txn.store.types);
    assert_eq!(again.store.pending_ds, Some(set_of(B, 2, 7)));
    assert_eq!(text_of(&again), "a");
    assert!(again.merge_blocks.is_empty());
    assert!(again.delete_set.is_empty());
    assert!(again.changed.is_empty());
    assert_eq!(again.store.blocks.deleted_set(), txn.store.blocks.deleted_set());
}
