use treedb::pager::codec::{copy_range, read_le, write_le};
use treedb::pager::header::{is_addressable, Header, HEADER_SIZE};
use treedb::pager::page::{
    PageBufMut, PageHeader, PageType, QueuePageHeader, PAGE_HEADER_SIZE, PAGE_SIZE,
    QUEUE_HEADER_SIZE,
};
use treedb::pager::{LogicalPageId, PhysicalPageId, Version, VERSION};
use treedb::Error;

#[test]
fn little_endian_writes_low_byte_first() {
    let mut buf = [0xEEu8; 12];
    write_le(&mut buf, 2, 0x0102030405060708, 8);
    assert_eq!(buf, [0xEE, 0xEE, 8, 7, 6, 5, 4, 3, 2, 1, 0xEE, 0xEE]);
    write_le(&mut buf, 0, 0xABCD, 2);
    assert_eq!(&buf[0..3], &[0xCD, 0xAB, 8]);
    // A width too small for the number keeps the low bytes.
    write_le(&mut buf, 10, 0x123456, 2);
    assert_eq!(&buf[10..12], &[0x56, 0x34]);
    write_le(&mut buf, 5, 77, 0);
    assert_eq!(buf[5], 5);
}

#[test]
fn little_endian_reads_what_was_written() {
    let buf = [0x78, 0x56, 0x34, 0x12, 0xFF, 0xFF, 0xFF, 0xFF, 0xFF, 0xFF, 0xFF, 0xFF];
    assert_eq!(read_le(&buf, 0, 4), 0x12345678);
    assert_eq!(read_le(&buf, 0, 2), 0x5678);
    assert_eq!(read_le(&buf, 4, 8), u64::MAX);
    assert_eq!(read_le(&buf, 3, 2), 0xFF12);
    assert_eq!(read_le(&buf, 3, 0), 0);
    assert_eq!(copy_range(&buf, 1, 3), vec![0x56, 0x34, 0x12]);
    assert_eq!(copy_range(&buf, 12, 0), Vec::<u8>::new());
}

#[test]
fn header_has_the_documented_layout() {
    let header = Header {
        version: 0x0102,
        page_size: 0x03040506,
        page_count: 0x0708090A0B0C0D0E,
        commited_version: 0x1112131415161718,
        oldest_version: 0x2122232425262728,
    };
    let mut buf = vec![0u8; HEADER_SIZE + 2];
    header.encode_into(&mut buf);
    assert_eq!(HEADER_SIZE, 30);
    assert_eq!(&buf[0..2], &[0x02, 0x01]);
    assert_eq!(&buf[2..6], &[0x06, 0x05, 0x04, 0x03]);
    assert_eq!(&buf[6..14], &[0x0E, 0x0D, 0x0C, 0x0B, 0x0A, 0x09, 0x08, 0x07]);
    assert_eq!(&buf[14..22], &[0x18, 0x17, 0x16, 0x15, 0x14, 0x13, 0x12, 0x11]);
    assert_eq!(&buf[22..30], &[0x28, 0x27, 0x26, 0x25, 0x24, 0x23, 0x22, 0x21]);
    assert_eq!(&buf[30..], &[0, 0]);
}

#[test]
fn fresh_header_is_valid_and_round_trips() {
    let header = Header::fresh();
    assert_eq!(
        header,
        Header { version: 1, page_size: 4096, page_count: 1, commited_version: 1, oldest_version: 1 }
    );
    assert!(header.is_valid());
    let mut buf = vec![0u8; 64];
    header.encode_into(&mut buf);
    assert_eq!(Header::decode(&buf).unwrap(), header);

    let later = Header { page_count: 900, commited_version: 17, oldest_version: 4, ..header };
    later.encode_into(&mut buf);
    assert_eq!(Header::decode(&buf).unwrap(), later);
}

#[test]
fn header_decode_rejects_what_it_cannot_work_with() {
    let good = Header::fresh();
    let mut buf = vec![0u8; 30];
    good.encode_into(&mut buf);
    assert!(matches!(Header::decode(&buf[..29]), Err(Error::Serialization)));
    assert!(matches!(Header::decode(&[]), Err(Error::Serialization)));

    let cases = [
        Header { version: 2, ..good },
        Header { version: 0, ..good },
        Header { page_size: 8192, ..good },
        Header { page_count: 0, ..good },
        Header { page_count: u64::MAX, ..good },
        Header { oldest_version: 2, ..good },
        Header { commited_version: u64::MAX, ..good },
    ];
    for bad in cases.iter() {
        assert!(!bad.is_valid());
        bad.encode_into(&mut buf);
        assert!(matches!(Header::decode(&buf), Err(Error::Serialization)));
    }
}

#[test]
fn page_counts_up_to_the_last_offset_are_addressable() {
    assert!(is_addressable(0));
    assert!(is_addressable(1));
    assert!(is_addressable((1u64 << 52) - 1));
    assert!(!is_addressable(1u64 << 52));
    assert!(!is_addressable(u64::MAX));
}

#[test]
fn page_header_has_the_documented_layout() {
    let header = PageHeader { checksum: 0xA1B2C3D4, version: 1, page_type: PageType::Btree };
    let mut buf = [0x55u8; 10];
    header.encode_into(&mut buf);
    assert_eq!(buf, [0xD4, 0xC3, 0xB2, 0xA1, 1, 1, 0, 0, 0x55, 0x55]);
    assert_eq!(PageHeader::decode(&buf), Some(header));
    assert_eq!(PAGE_HEADER_SIZE, 8);

    buf[5] = 0;
    assert_eq!(PageHeader::decode(&buf).unwrap().page_type, PageType::Queue);
    buf[5] = 2;
    assert_eq!(PageHeader::decode(&buf), None);
    assert_eq!(PageHeader::decode(&buf[..7]), None);
    assert_eq!(PageType::Queue.code(), 0);
    assert_eq!(PageType::Btree.code(), 1);
    assert_eq!(PageType::from_code(1), Some(PageType::Btree));
    assert_eq!(PageType::from_code(9), None);
}

#[test]
fn queue_header_has_the_documented_layout() {
    let header = QueuePageHeader {
        next_page_id: PhysicalPageId(0x0102),
        next_offset: 0x0304,
        end_offset: 0x0506,
        item_capacity: 0x0708,
    };
    let mut buf = [0x55u8; 34];
    header.encode_into(&mut buf);
    assert_eq!(QUEUE_HEADER_SIZE, 32);
    assert_eq!(&buf[0..8], &[0x02, 0x01, 0, 0, 0, 0, 0, 0]);
    assert_eq!(&buf[8..10], &[0x04, 0x03]);
    assert_eq!(&buf[10..12], &[0x06, 0x05]);
    assert_eq!(&buf[12..14], &[0x08, 0x07]);
    assert!(buf[14..32].iter().all(|b| *b == 0));
    assert_eq!(&buf[32..], &[0x55, 0x55]);
    assert_eq!(QueuePageHeader::decode(&buf), Some(header));
    assert_eq!(QueuePageHeader::decode(&buf[..31]), None);
}

#[test]
fn the_reserved_page_id_is_all_ones_on_disk() {
    let header = QueuePageHeader {
        next_page_id: PhysicalPageId::invalid(),
        next_offset: 0,
        end_offset: 0,
        item_capacity: 4056,
    };
    assert!(header.next_page_id.is_invalid());
    assert!(!PhysicalPageId(7).is_invalid());
    assert_eq!(PhysicalPageId::invalid(), PhysicalPageId(usize::MAX));
    let mut buf = [0u8; 32];
    header.encode_into(&mut buf);
    assert_eq!(&buf[0..8], &[0xFF; 8]);
    assert_eq!(QueuePageHeader::decode(&buf), Some(header));
}

#[test]
fn new_page_buffer_is_a_page_of_zeros() {
    let page = PageBufMut::new();
    assert_eq!(page.as_bytes().len(), PAGE_SIZE);
    assert!(page.as_bytes().iter().all(|b| *b == 0));
    assert_eq!(page.buf().len(), PAGE_SIZE - PAGE_HEADER_SIZE);
}

#[test]
fn init_stamps_the_page_header_and_leaves_the_payload() {
    let mut page = PageBufMut::new();
    page.as_bytes_mut().fill(0x77);
    page.init();
    assert_eq!(&page.as_bytes()[..8], &[0, 0, 0, 0, 1, 0, 0, 0]);
    assert!(page.buf().iter().all(|b| *b == 0x77));
    assert_eq!(VERSION, 1);
}

#[test]
fn payload_starts_behind_the_page_header() {
    let mut page = PageBufMut::new();
    page.buf_mut()[0] = 0xAA;
    page.buf_mut()[4087] = 0xBB;
    assert_eq!(page.as_bytes()[8], 0xAA);
    assert_eq!(page.as_bytes()[4095], 0xBB);
    assert_eq!(page.as_bytes()[7], 0);
    page.put(4, &[1, 2, 3, 4, 5]);
    assert_eq!(&page.as_bytes()[3..10], &[0, 1, 2, 3, 4, 5, 0]);
    let frozen = page.freeze();
    assert_eq!(frozen.buf()[0], 5);
    assert_eq!(frozen.as_bytes()[4], 1);
}

#[test]
fn try_take_succeeds_only_for_the_last_holder() {
    let mut page = PageBufMut::new();
    page.buf_mut().fill(3);
    let shared = page.freeze();
    let other = shared.clone();
    let shared = match shared.try_take() {
        Ok(_) => panic!("the buffer is still shared"),
        Err(shared) => shared,
    };
    assert!(shared.buf().iter().all(|b| *b == 3));
    drop(other);
    let mut owned = shared.try_take().expect("the last holder takes the buffer");
    assert!(owned.buf().iter().all(|b| *b == 3));
    owned.buf_mut()[0] = 4;
    assert_eq!(owned.buf()[0], 4);
}

#[test]
fn queue_view_takes_a_page_apart() {
    let mut page = PageBufMut::new();
    page.init();
    let header = QueuePageHeader {
        next_page_id: PhysicalPageId(9),
        next_offset: 0,
        end_offset: 24,
        item_capacity: 4056,
    };
    page.set_queue_header(&header);
    assert_eq!(page.queue_header(), Some(header));
    {
        let view = page.queue_view_mut().unwrap();
        assert_eq!(view.sub_header, header);
        assert_eq!(view.payload.len(), 4056);
        view.payload[0] = 0xC1;
    }
    assert_eq!(page.as_bytes()[40], 0xC1);
    let frozen = page.freeze();
    let view = frozen.queue_view().unwrap();
    assert_eq!(view.header, PageHeader { checksum: 0, version: 1, page_type: PageType::Queue });
    assert_eq!(view.sub_header, header);
    assert_eq!(view.payload[0], 0xC1);
    assert_eq!(frozen.queue_header(), Some(header));
}

#[test]
fn page_ids_convert_to_and_from_numbers() {
    let id = LogicalPageId::from(17usize);
    assert_eq!(id, LogicalPageId(17));
    assert_eq!(usize::from(id), 17);
    assert_eq!(LogicalPageId::from(&id), id);
    assert!(Version(1) < Version(2));
}

#[test]
fn io_errors_convert_into_the_library_error() {
    let e: Error = std::io::Error::from(std::io::ErrorKind::NotFound).into();
    match e {
        Error::Io(inner) => assert_eq!(inner.kind(), std::io::ErrorKind::NotFound),
        other => panic!("expected an io error, got {:?}", other),
    }
}
