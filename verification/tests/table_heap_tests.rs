use basalt::directory_page::DirectoryPageGuard;
use basalt::error::BasaltError;
use basalt::page::{Page, PAGE_HEADER_SIZE, PAGE_SIZE, SLOT_SIZE};
use basalt::rid::RID;
use basalt::table_heap::{
    decode_fragment, encode_fragment, store_fragment, PageSearch, SearchStep, TupleReader,
    TupleWriter, DIR_END_MARKER, FLAG_NORMAL, FLAG_OVERFLOW, MAX_TUPLE_SIZE,
};
use basalt::tuple::Tuple;

#[test]
fn tuple_constructors() {
    let t = Tuple::new(vec![1, 2, 3]);
    assert_eq!(t.rid, None);
    assert_eq!(t.get_data_length(), 3);
    let t = Tuple::with_rid(RID::new(4, 5), vec![9; 10]);
    assert_eq!(t.rid, Some(RID::new(4, 5)));
    assert_eq!(t.data, vec![9; 10]);
    assert_eq!(t.get_data_length(), 10);
}

#[test]
fn fragments_encode_flag_link_and_bytes() {
    assert_eq!(encode_fragment(b"abc", None), vec![FLAG_NORMAL, b'a', b'b', b'c']);
    assert_eq!(
        encode_fragment(b"abc", Some(RID::new(0x0102_0304, 2))),
        vec![FLAG_OVERFLOW, 4, 3, 2, 1, 2, 0, 0, 0, b'a', b'b', b'c']
    );
    let last = encode_fragment(b"tail", None);
    let (next, bytes) = decode_fragment(&last).unwrap();
    assert_eq!(next, None);
    assert_eq!(bytes, b"tail");
    let linked = encode_fragment(b"head", Some(RID::new(77, 3)));
    let (next, bytes) = decode_fragment(&linked).unwrap();
    assert_eq!(next, Some(RID::new(77, 3)));
    assert_eq!(bytes, b"head");
}

#[test]
fn unknown_fragment_flag_is_corruption() {
    assert!(matches!(decode_fragment(&[2, 0, 0]), Err(BasaltError::CorruptedPage)));
}

/// Stores each fragment a writer hands out at the next position of `store`.
fn write_all(data: Vec<u8>, store: &mut Vec<Vec<u8>>) -> RID {
    let mut w = TupleWriter::new(data);
    while let Some(fragment) = w.next_fragment() {
        store.push(fragment);
        w.fragment_written(RID::new(store.len() as u32 - 1, 0));
    }
    w.finish().unwrap()
}

fn read_all(rid: RID, store: &[Vec<u8>]) -> Tuple {
    let mut r = TupleReader::new(rid);
    while let Some(next) = r.next_rid() {
        r.accept(&store[next.page_id as usize]).unwrap();
    }
    r.into_tuple()
}

#[test]
fn large_tuple_is_chained_and_reassembled() {
    let large_data: Vec<u8> = (0..5000).map(|i| (i % 255) as u8).collect();
    let mut store = Vec::new();
    let rid = write_all(large_data.clone(), &mut store);
    // three fragments, the last piece stored first
    assert_eq!(store.len(), 3);
    assert_eq!(store[0].len(), 1 + 1000);
    assert_eq!(store[0][0], FLAG_NORMAL);
    assert_eq!(store[1].len(), 1 + 8 + MAX_TUPLE_SIZE);
    assert_eq!(store[1][0], FLAG_OVERFLOW);
    assert_eq!(store[2].len(), 1 + 8 + MAX_TUPLE_SIZE);
    assert_eq!(rid, RID::new(2, 0));
    let tuple = read_all(rid, &store);
    assert_eq!(tuple.rid, Some(rid));
    assert_eq!(tuple.data.len(), 5000);
    assert_eq!(tuple.data, large_data);
}

#[test]
fn fragment_counts_at_the_boundaries() {
    for (len, fragments) in [(0usize, 1usize), (1, 1), (2000, 1), (2001, 2), (4000, 2), (4001, 3)] {
        let data = vec![3u8; len];
        let mut store = Vec::new();
        let rid = write_all(data.clone(), &mut store);
        assert_eq!(store.len(), fragments, "length {len}");
        assert_eq!(read_all(rid, &store).data, data);
    }
}

#[test]
fn reader_stops_on_corrupted_fragment() {
    let mut r = TupleReader::new(RID::new(1, 1));
    assert!(matches!(r.accept(&[9, 1, 2]), Err(BasaltError::CorruptedPage)));
    assert_eq!(r.next_rid(), Some(RID::new(1, 1)));
}

#[test]
fn search_on_an_empty_directory_allocates_a_data_page() {
    let mut data = [0u8; PAGE_SIZE];
    let mut dir = DirectoryPageGuard::new(&mut data);
    dir.init(DIR_END_MARKER);
    let mut search = PageSearch::new(10);
    assert_eq!(search.visit(0, &dir), SearchStep::NewDataPage { directory_page_id: 0 });
}

#[test]
fn search_picks_the_best_fit() {
    let mut data = [0u8; PAGE_SIZE];
    let mut dir = DirectoryPageGuard::new(&mut data);
    dir.init(DIR_END_MARKER);
    dir.update_page_freespace(1, 300).unwrap();
    dir.update_page_freespace(2, 150).unwrap();
    dir.update_page_freespace(3, 50).unwrap();
    // a 100-byte record: page 2 fits best
    let mut search = PageSearch::new(100);
    assert_eq!(search.visit(0, &dir), SearchStep::UsePage { page_id: 2, directory_page_id: 0 });
}

#[test]
fn search_compares_the_record_length() {
    let mut data = [0u8; PAGE_SIZE];
    let mut dir = DirectoryPageGuard::new(&mut data);
    dir.init(DIR_END_MARKER);
    dir.update_page_freespace(3, 100).unwrap();
    let mut search = PageSearch::new(100);
    assert_eq!(search.visit(0, &dir), SearchStep::UsePage { page_id: 3, directory_page_id: 0 });
    let mut search = PageSearch::new(101);
    assert_eq!(search.visit(0, &dir), SearchStep::NewDataPage { directory_page_id: 0 });
}

#[test]
fn search_walks_the_whole_chain() {
    let mut first = [0u8; PAGE_SIZE];
    let mut second = [0u8; PAGE_SIZE];
    let mut dir1 = DirectoryPageGuard::new(&mut first);
    dir1.init(9);
    dir1.update_page_freespace(1, 400).unwrap();
    let mut dir2 = DirectoryPageGuard::new(&mut second);
    dir2.init(DIR_END_MARKER);
    dir2.update_page_freespace(2, 200).unwrap();
    dir2.update_page_freespace(5, 3000).unwrap();
    let mut search = PageSearch::new(100);
    assert_eq!(search.visit(0, &dir1), SearchStep::FollowNext(9));
    assert_eq!(search.visit(9, &dir2), SearchStep::UsePage { page_id: 2, directory_page_id: 9 });
    // a tie keeps the page seen first
    let mut search = PageSearch::new(100);
    dir1.update_page_freespace(1, 200).unwrap();
    assert_eq!(search.visit(0, &dir1), SearchStep::FollowNext(9));
    assert_eq!(search.visit(9, &dir2), SearchStep::UsePage { page_id: 1, directory_page_id: 0 });
}

#[test]
fn search_chains_a_directory_page_when_the_last_is_full() {
    let mut data = [0u8; PAGE_SIZE];
    let mut dir = DirectoryPageGuard::new(&mut data);
    dir.init(DIR_END_MARKER);
    dir.set_no_of_entries(511);
    let mut search = PageSearch::new(3000);
    assert_eq!(search.visit(0, &dir), SearchStep::NewDirectoryPage);
    let mut fresh = [0u8; PAGE_SIZE];
    let mut new_dir = DirectoryPageGuard::new(&mut fresh);
    new_dir.init(DIR_END_MARKER);
    assert_eq!(search.visit(7, &new_dir), SearchStep::NewDataPage { directory_page_id: 7 });
}

#[test]
fn store_fragment_initialises_a_fresh_page() {
    let mut data = [0u8; PAGE_SIZE];
    let (slot, free) = store_fragment(&mut data, 12, true, b"hello").unwrap();
    assert_eq!(slot, 0);
    assert_eq!(free as usize, PAGE_SIZE - PAGE_HEADER_SIZE - SLOT_SIZE - 5);
    let page = Page::from_bytes(data);
    assert_eq!(page.get_page_id(), 12);
    assert_eq!(page.get_record(0).unwrap(), b"hello");
    assert_eq!(page.get_freespace() as u32, free);
}

#[test]
fn store_fragment_appends_to_a_used_page() {
    let mut data = *Page::new(4).as_bytes();
    store_fragment(&mut data, 4, false, b"one").unwrap();
    let (slot, free) = store_fragment(&mut data, 4, false, b"two!").unwrap();
    assert_eq!(slot, 1);
    assert_eq!(free as usize, PAGE_SIZE - PAGE_HEADER_SIZE - 2 * SLOT_SIZE - 7);
    let page = Page::from_bytes(data);
    assert_eq!(page.get_record(0).unwrap(), b"one");
    assert_eq!(page.get_record(1).unwrap(), b"two!");
}

#[test]
fn store_fragment_refuses_what_does_not_fit() {
    let mut data = *Page::new(4).as_bytes();
    let big = vec![7u8; PAGE_SIZE - PAGE_HEADER_SIZE - SLOT_SIZE];
    let (_, free) = store_fragment(&mut data, 4, false, &big).unwrap();
    assert_eq!(free, 0);
    let before = data;
    assert_eq!(store_fragment(&mut data, 4, false, b"x"), None);
    assert_eq!(data, before);
    // an inconsistent page is left alone
    let mut broken = [0u8; PAGE_SIZE];
    assert_eq!(store_fragment(&mut broken, 4, false, b"x"), None);
    assert_eq!(broken, [0u8; PAGE_SIZE]);
}

#[test]
fn tuple_stored_in_pages_reads_back() {
    let data: Vec<u8> = (0..4500).map(|i| (i % 251) as u8).collect();
    // each fragment goes into a fresh page whose id is its position
    let mut pages: Vec<[u8; PAGE_SIZE]> = Vec::new();
    let mut w = TupleWriter::new(data.clone());
    while let Some(fragment) = w.next_fragment() {
        let mut page = [0u8; PAGE_SIZE];
        let page_id = pages.len() as u32;
        let (slot, _) = store_fragment(&mut page, page_id, true, &fragment).unwrap();
        pages.push(page);
        w.fragment_written(RID::new(page_id, slot as u32));
    }
    let rid = w.finish().unwrap();
    let mut r = TupleReader::new(rid);
    while let Some(next) = r.next_rid() {
        let page = Page::from_bytes(pages[next.page_id as usize]);
        let record = page.get_record(next.slot_id as u16).unwrap().to_vec();
        r.accept(&record).unwrap();
    }
    let t = r.into_tuple();
    assert_eq!(t.rid, Some(rid));
    assert_eq!(t.data, data);
}
