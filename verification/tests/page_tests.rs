use basalt::error::BasaltError;
use basalt::page::{Page, PAGE_HEADER_SIZE, PAGE_SIZE, SLOT_SIZE};

#[test]
fn test_page_initilization() {
    let page_id = 42;
    let page = Page::new(page_id);

    assert_eq!(page.get_page_id(), 42);
    assert_eq!(page.get_lsn(), 0);
    assert_eq!(page.get_no_of_slots(), 0);
    assert_eq!(page.get_freespace_upper_bound_offset(), PAGE_SIZE as u16);
    assert_eq!(page.get_freespace_lower_bound_offset(), PAGE_HEADER_SIZE as u16);

    // freespace -> 4096 - 24 = 4072 free space left
    assert_eq!(page.get_freespace(), (PAGE_SIZE - PAGE_HEADER_SIZE) as u16)
}

#[test]
fn test_insert_and_get() {
    let mut page = Page::new(1);
    let record = b"Hello! Basalt!"; // 14 bytes

    let slot_idx = page.insert(record).expect("Failed to insert record");

    assert_eq!(slot_idx, 0);
    assert_eq!(page.get_no_of_slots(), 1);

    // checking upper bound moved by 14 bytes
    assert_eq!(page.get_freespace_upper_bound_offset(), (PAGE_SIZE - record.len()) as u16);

    // checking lower bound moved by 4 bytes (Slot Size)
    assert_eq!(page.get_freespace_lower_bound_offset(), (PAGE_HEADER_SIZE + SLOT_SIZE) as u16);

    let fetched_record = page.get_record(slot_idx).expect("Failed to get record");
    assert_eq!(fetched_record, record);
}

#[test]
fn test_insert_out_of_space() {
    let mut page = Page::new(1);
    let large_record = &[0u8; PAGE_SIZE + 1];

    let result = page.insert(large_record);

    assert!(result.is_none(), "Should reject records that are bigger than {PAGE_SIZE} bytes");

    // testing data that fits in the raw page but not in the available space of 4076 bytes
    let huge_record = &[0u8; 4077];
    let insert_result = page.insert(huge_record);

    assert!(insert_result.is_none(), "Should reject records that do not fit in the available space.");
}

#[test]
fn test_delete_and_tombstone_reuse() {
    let mut page = Page::new(1);

    let record1 = b"record_1";
    let record2 = b"record_2";
    let record3 = b"record_3";

    let slot0 = page.insert(record1).expect("Failed to insert record 1");
    let _ = page.insert(record2).expect("Failed to insert record 2");
    let slot_count = page.get_no_of_slots();
    let no_of_test_slot = 2;

    assert_eq!(slot_count, no_of_test_slot);

    page.delete(slot0).expect("Failed to delete slot 0");

    // fetching deleted slot should return expected error.
    let get_result = page.get_record(slot0);

    assert!(matches!(get_result, Err(BasaltError::TombstoneSlot(_))));

    let is_slot0_tombstone =
        page.is_tombstone_slot(slot0).expect("Failed to check if slot0 is a tombstone or not");

    assert!(is_slot0_tombstone, "Slot0 must be a tombstone");

    let slot3 = page.insert(record3).expect("Failed to insert record 3");

    assert_eq!(slot3, 0, "Slot3 must be inserted at idx 0");

    let is_slot3_tombstone =
        page.is_tombstone_slot(slot3).expect("Failed to check if slot3 is a tombstone or not");

    assert!(!is_slot3_tombstone, "Slot3 must not be a tombstone");

    // The no of slots still must remain 2 as no new slot should not be assigned
    assert_eq!(page.get_no_of_slots(), 2);
}

#[test]
fn test_vacuum() {
    let mut page = Page::new(1);

    let record1 = b"HELLO";
    let record2 = b"WORLD";
    let record3 = b"BASALT";

    let _ = page.insert(record1).expect("Failed to insert record 1 ");
    let slot1 = page.insert(record2).expect("Failed to insert record 2 ");
    let _ = page.insert(record3).expect("Failed to insert record 3 ");

    let free_space_before_delete = page.get_freespace();

    // Deleting the middle record
    page.delete(slot1).expect("Failed to delete slot 1");

    // the space must remain same as before because it's only fragmented.
    let free_space_after_delete = page.get_freespace();

    assert_eq!(free_space_before_delete, free_space_after_delete);

    page.vacuum().expect("Failed to vacuum page");

    let free_space_after_vacuuming = page.get_freespace();

    // free_space_after_vacuuming must exactly be more record2.len then free_space_after_delete
    // as record2 is now defragmented
    assert_eq!(free_space_after_vacuuming, free_space_after_delete + record2.len() as u16);
}

#[test]
fn page_header_setters_and_getters() {
    let mut page = Page::new(7);
    page.set_page_id(0x0102_0304_0506_0708);
    page.set_lsn(99);
    assert_eq!(page.get_page_id(), 0x0102_0304_0506_0708);
    assert_eq!(page.get_lsn(), 99);
    // little-endian on the page
    assert_eq!(page.as_bytes()[0], 0x08);
    assert_eq!(page.as_bytes()[7], 0x01);
    page.set_no_of_slots(3);
    assert_eq!(page.get_no_of_slots(), 3);
    page.set_freespace_upper_bound_offset(4000);
    page.set_freespace_lower_bound_offset(36);
    assert_eq!(page.get_freespace(), 4000 - 36);
}

#[test]
fn inserted_records_read_back_and_survive_other_operations() {
    let mut page = Page::new(3);
    let records: Vec<Vec<u8>> = (0..10u8).map(|i| vec![i; 10 + i as usize]).collect();
    let mut slots = Vec::new();
    for r in &records {
        slots.push(page.insert(r).expect("insert"));
        assert!(page.is_consistent());
    }
    for (i, s) in slots.iter().enumerate() {
        assert_eq!(*s as usize, i);
        assert_eq!(page.get_record(*s).unwrap(), &records[i][..]);
    }
    page.delete(slots[4]).unwrap();
    page.delete(slots[7]).unwrap();
    assert!(page.is_consistent());
    for (i, s) in slots.iter().enumerate() {
        if i == 4 || i == 7 {
            assert!(matches!(page.get_record(*s), Err(BasaltError::TombstoneSlot(x)) if x == *s as u32));
        } else {
            assert_eq!(page.get_record(*s).unwrap(), &records[i][..]);
        }
    }
    let before = page.get_freespace();
    page.vacuum().unwrap();
    assert!(page.is_consistent());
    assert_eq!(page.get_freespace(), before + 14 + 17);
    assert_eq!(page.get_no_of_slots(), 10);
    for (i, s) in slots.iter().enumerate() {
        if i == 4 || i == 7 {
            assert!(page.is_tombstone_slot(*s).unwrap());
        } else {
            assert_eq!(page.get_record(*s).unwrap(), &records[i][..]);
        }
    }
    // vacuum packs the live records against the end of the page
    let live: usize = records.iter().enumerate().filter(|(i, _)| *i != 4 && *i != 7).map(|(_, r)| r.len()).sum();
    assert_eq!(page.get_freespace_upper_bound_offset() as usize, PAGE_SIZE - live);
    // the first reusable slot is handed out again
    assert_eq!(page.insert(b"again").unwrap(), 4);
    assert_eq!(page.insert(b"and again").unwrap(), 7);
    assert_eq!(page.insert(b"new slot").unwrap(), 10);
    assert_eq!(page.get_record(4).unwrap(), b"again");
    assert_eq!(page.get_record(7).unwrap(), b"and again");
}

#[test]
fn lookups_report_out_of_bounds_slots() {
    let mut page = Page::new(1);
    page.insert(b"x").unwrap();
    assert!(matches!(page.get_record(1), Err(BasaltError::SlotOutOfBounds(1))));
    assert!(matches!(page.get_slot(5), Err(BasaltError::SlotOutOfBounds(5))));
    assert!(matches!(page.is_tombstone_slot(2), Err(BasaltError::SlotOutOfBounds(2))));
    assert!(matches!(page.get_record_offset_len_tuple(3), Err(BasaltError::SlotOutOfBounds(3))));
    assert!(matches!(page.delete(1), Err(BasaltError::SlotOutOfBounds(1))));
    assert!(matches!(page.get_slot_mut(9), Err(BasaltError::SlotOutOfBounds(9))));
    assert!(matches!(page.get_record_mut(9), Err(BasaltError::SlotOutOfBounds(9))));
}

#[test]
fn deleted_slots_are_reported_as_tombstones() {
    let mut page = Page::new(1);
    let s = page.insert(b"abc").unwrap();
    page.delete(s).unwrap();
    assert!(matches!(page.get_slot(s), Err(BasaltError::TombstoneSlot(0))));
    assert!(matches!(page.get_slot_mut(s), Err(BasaltError::TombstoneSlot(0))));
    assert!(matches!(page.get_record_mut(s), Err(BasaltError::TombstoneSlot(0))));
    assert!(matches!(page.delete(s), Err(BasaltError::TombstoneSlot(0))));
    assert_eq!(page.get_record_offset_len_tuple(s).unwrap(), (0, 0));
}

#[test]
fn slots_hold_offset_and_length() {
    let mut page = Page::new(1);
    let s = page.insert(b"0123456789").unwrap();
    let slot = page.get_slot(s).unwrap();
    let offset = (PAGE_SIZE - 10) as u16;
    assert_eq!(slot, &[(offset % 256) as u8, (offset / 256) as u8, 10, 0]);
    assert_eq!(page.get_record_offset_len_tuple(s).unwrap(), (PAGE_SIZE - 10, 10));
}

#[test]
fn records_can_be_changed_in_place() {
    let mut page = Page::new(1);
    let s = page.insert(b"hello").unwrap();
    page.get_record_mut(s).unwrap().copy_from_slice(b"HELLO");
    assert_eq!(page.get_record(s).unwrap(), b"HELLO");
}

#[test]
fn a_slot_pointing_past_the_page_is_corruption() {
    let mut page = Page::new(1);
    let s = page.insert(b"abc").unwrap();
    {
        let slot = page.get_slot_mut(s).unwrap();
        // offset 4094, length 10: past the end of the page
        slot.copy_from_slice(&[0xFE, 0x0F, 10, 0]);
    }
    assert!(matches!(page.get_record(s), Err(BasaltError::CorruptedPage)));
    assert!(matches!(page.get_record_mut(s), Err(BasaltError::CorruptedPage)));
    assert!(!page.is_consistent());
    let before = page.as_bytes().to_vec();
    assert!(matches!(page.vacuum(), Err(BasaltError::CorruptedPage)));
    assert_eq!(page.as_bytes().to_vec(), before);
}

#[test]
fn empty_records_are_stored_and_their_slot_reused() {
    let mut page = Page::new(1);
    let s = page.insert(b"").unwrap();
    assert_eq!(s, 0);
    assert_eq!(page.get_record(s).unwrap(), b"");
    assert!(!page.is_tombstone_slot(s).unwrap());
    // a slot with an empty record is handed out again
    assert_eq!(page.insert(b"data").unwrap(), 0);
    assert_eq!(page.get_no_of_slots(), 1);
}

#[test]
fn page_fills_up_exactly() {
    let mut page = Page::new(1);
    // 4072 free bytes: a record of 4068 bytes plus its slot fill the page
    let record = vec![7u8; 4068];
    assert_eq!(page.insert(&record), Some(0));
    assert_eq!(page.get_freespace(), 0);
    assert_eq!(page.insert(b""), None);
    assert_eq!(page.get_record(0).unwrap(), &record[..]);
}

#[test]
fn page_images_round_trip() {
    let mut page = Page::new(5);
    page.insert(b"persist me").unwrap();
    let copy = Page::from_bytes(*page.as_bytes());
    assert_eq!(copy.get_page_id(), 5);
    assert_eq!(copy.get_record(0).unwrap(), b"persist me");
    assert!(copy.is_consistent());
    assert!(Page::new(0).is_consistent());
    let mut broken = Page::new(0);
    broken.set_freespace_lower_bound_offset(100);
    assert!(!broken.is_consistent());
}

#[test]
fn records_longer_than_a_page_are_refused_whatever_their_length() {
    let mut page = Page::new(3);
    page.insert(b"kept").unwrap();
    let before = *page.as_bytes();
    for len in [PAGE_SIZE, 65536, 65536 + 5, 70000] {
        let record = vec![1u8; len];
        assert_eq!(page.insert(&record), None);
        assert_eq!(page.as_bytes(), &before);
    }
    assert_eq!(page.get_record(0).unwrap(), b"kept");
}

#[test]
fn empty_record_reads_back_when_no_insert_lands_on_it() {
    let mut page = Page::new(1);
    let a = page.insert(b"first").unwrap();
    let b = page.insert(b"second").unwrap();
    let e = page.insert(b"").unwrap();
    assert_eq!(e, 2);
    page.delete(a).unwrap();
    page.vacuum().unwrap();
    page.delete(b).unwrap();
    assert_eq!(page.get_record(e).unwrap(), b"");
    assert!(!page.is_tombstone_slot(e).unwrap());
}
