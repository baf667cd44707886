use brtt::scan::{
    attach_is_retried, find_magic, ignored_region_notice, plan_scan, resolve_scan_region,
    scan_goes_on, AttachFailure, RamRegion, ScanPlan, ScanRegion, Scanner, Search, SearchEnd,
    SearchStep, MIN_SCAN_CHUNK_SIZE, RTT_MAGIC_OVERLAP, SCAN_CHUNK_SIZE,
};
use probe_rs::rtt::Rtt;

#[test]
fn magic_is_found_when_split_at_each_chunk_boundary() {
    for split in 1..Rtt::RTT_ID.len() {
        let mut first = vec![0u8; SCAN_CHUNK_SIZE - (Rtt::RTT_ID.len() - split)];
        first.extend_from_slice(&Rtt::RTT_ID[..split]);
        let mut second = Rtt::RTT_ID[split..].to_vec();
        second.extend_from_slice(&[0u8; 4]);

        let mut combined = first[first.len() - RTT_MAGIC_OVERLAP..].to_vec();
        combined.extend_from_slice(&second);
        assert_eq!(find_magic(&combined), Some(RTT_MAGIC_OVERLAP - split));
    }
}

#[test]
fn magic_is_not_found_without_a_complete_identifier() {
    assert_eq!(find_magic(&Rtt::RTT_ID[..Rtt::RTT_ID.len() - 1]), None);
}

/// Runs a scan over memory that starts at `base`, and lists what comes up.
fn scan(base: u64, memory: &[u8]) -> Vec<u64> {
    let mut scanner = Scanner::new(&[(base, base + memory.len() as u64)]).unwrap();
    let mut found = Vec::new();
    while let Some((address, length)) = scanner.next_read() {
        let start = (address - base) as usize;
        found.extend(scanner.read_done(&memory[start..start + length]));
    }
    found
}

#[test]
fn scans_find_every_identifier_once() {
    for cut in 0..=Rtt::RTT_ID.len() {
        let mut memory = vec![0u8; 2 * SCAN_CHUNK_SIZE + 100];
        let places = [0, SCAN_CHUNK_SIZE - cut, 2 * SCAN_CHUNK_SIZE + 40];
        for place in places {
            memory[place..place + Rtt::RTT_ID.len()].copy_from_slice(&Rtt::RTT_ID);
        }
        let expected: Vec<u64> = places.iter().map(|place| 0x2000_0000 + *place as u64).collect();
        assert_eq!(scan(0x2000_0000, &memory), expected);
    }
}

#[test]
fn scans_find_identifiers_behind_short_reads() {
    let mut memory = vec![0u8; SCAN_CHUNK_SIZE];
    let place = MIN_SCAN_CHUNK_SIZE - 3;
    memory[place..place + Rtt::RTT_ID.len()].copy_from_slice(&Rtt::RTT_ID);
    let mut scanner = Scanner::new(&[(0, memory.len() as u64)]).unwrap();
    assert_eq!(scanner.next_read(), Some((0, SCAN_CHUNK_SIZE)));
    scanner.read_failed();
    assert_eq!(scanner.next_read(), Some((0, SCAN_CHUNK_SIZE / 2)));
    scanner.read_failed();
    scanner.read_failed();
    assert_eq!(scanner.next_read(), Some((0, MIN_SCAN_CHUNK_SIZE)));
    assert!(scanner.read_done(&memory[..MIN_SCAN_CHUNK_SIZE]).is_empty());
    let (address, length) = scanner.next_read().unwrap();
    assert_eq!(address, MIN_SCAN_CHUNK_SIZE as u64);
    let start = address as usize;
    assert_eq!(scanner.read_done(&memory[start..start + length]), vec![place as u64]);
    assert_eq!(scanner.next_read(), None);
}

#[test]
fn unreadable_and_empty_ranges_are_passed_over() {
    assert!(Scanner::new(&[]).is_none());
    let mut scanner = Scanner::new(&[(8, 8), (9, 3), (100, 110), (200, 201)]).unwrap();
    assert_eq!(scanner.next_read(), Some((100, 10)));
    scanner.read_failed();
    assert_eq!(scanner.next_read(), Some((200, 1)));
    assert!(scanner.read_done(&[0]).is_empty());
    assert_eq!(scanner.next_read(), None);
}

#[test]
fn scan_region_prefers_elf_symbol_over_explicit_region() {
    let elf = ScanRegion::Exact(0x1000);
    let requested = ScanRegion::Exact(0x2000);
    let target_default = ScanRegion::Exact(0x3000);

    let (region, automatic) = resolve_scan_region(Some(&elf), Some(&requested), &target_default);

    assert!(matches!(region, ScanRegion::Exact(0x1000)));
    assert!(!automatic);
    assert_eq!(
        ignored_region_notice(Some(&elf), Some(&requested)),
        Some("Ignoring --scan-region because --elf provides _SEGGER_RTT.")
    );
    assert_eq!(ignored_region_notice(Some(&elf), None), None);
}

#[test]
fn scan_region_uses_explicit_region_when_elf_absent() {
    let requested = ScanRegion::Ranges(vec![(0x1000, 0x2000)]);
    let target_default = ScanRegion::Exact(0x3000);

    let (region, automatic) = resolve_scan_region(None, Some(&requested), &target_default);

    assert!(matches!(region, ScanRegion::Ranges(_)));
    assert!(!automatic);
}

#[test]
fn scan_region_falls_back_to_target_default_with_automatic_scan() {
    let target_default = ScanRegion::Exact(0x3000);

    let (region, automatic) = resolve_scan_region(None, None, &target_default);

    assert!(matches!(region, ScanRegion::Exact(0x3000)));
    assert!(automatic);
}

#[test]
fn plans_leave_aliases_of_ram_out() {
    let ram = [
        RamRegion { start: 0, end: 10, is_alias: false },
        RamRegion { start: 20, end: 30, is_alias: true },
        RamRegion { start: 40, end: 50, is_alias: false },
    ];
    match plan_scan(&ScanRegion::Ram, &ram) {
        ScanPlan::Ranges(ranges) => assert_eq!(ranges, vec![(0, 10), (40, 50)]),
        other => panic!("unexpected plan {other:?}"),
    }
    match plan_scan(&ScanRegion::Ranges(vec![(1, 2)]), &ram) {
        ScanPlan::Ranges(ranges) => assert_eq!(ranges, vec![(1, 2)]),
        other => panic!("unexpected plan {other:?}"),
    }
    assert!(matches!(plan_scan(&ScanRegion::Exact(7), &ram), ScanPlan::Exact(7)));
}

#[test]
fn attach_failures_decide_what_comes_next() {
    assert!(scan_goes_on(AttachFailure::ControlBlockNotFound));
    assert!(scan_goes_on(AttachFailure::ControlBlockCorrupted));
    assert!(!scan_goes_on(AttachFailure::NoControlBlockLocation));
    assert!(!scan_goes_on(AttachFailure::Other));
    assert!(attach_is_retried(AttachFailure::Other, 1, 2));
    assert!(!attach_is_retried(AttachFailure::Other, 2, 2));
    assert!(!attach_is_retried(AttachFailure::NoControlBlockLocation, 0, 2));
}

#[test]
fn searches_try_what_comes_up_until_one_attaches() {
    let mut memory = vec![0xffu8; 100];
    memory[10..26].copy_from_slice(&Rtt::RTT_ID);
    memory[50..66].copy_from_slice(&Rtt::RTT_ID);
    let region = ScanRegion::Ranges(vec![(0x1000, 0x1000), (0x2000, 0x2064)]);

    let mut search = Search::new(&region, &[]);
    assert_eq!(search.next(), SearchStep::Read { address: 0x2000, length: 100 });
    search.read_done(&memory);
    assert_eq!(search.next(), SearchStep::Attach(0x200a));
    search.attach_done(Err(AttachFailure::ControlBlockCorrupted));
    assert_eq!(search.next(), SearchStep::Attach(0x2032));
    search.attach_done(Ok(()));
    assert_eq!(search.next(), SearchStep::End(SearchEnd::Attached));

    let mut search = Search::new(&region, &[]);
    search.read_done(&memory);
    search.attach_done(Err(AttachFailure::Other));
    assert_eq!(search.next(), SearchStep::End(SearchEnd::Failed));

    let mut search = Search::new(&region, &[]);
    search.read_done(&memory);
    search.attach_done(Err(AttachFailure::ControlBlockNotFound));
    search.attach_done(Err(AttachFailure::ControlBlockNotFound));
    assert_eq!(search.next(), SearchStep::End(SearchEnd::NotFound));

    let mut search = Search::new(&region, &[]);
    search.read_failed();
    assert_eq!(search.next(), SearchStep::End(SearchEnd::NotFound));
}

#[test]
fn searches_know_where_there_is_nothing_to_look_at() {
    let alias = RamRegion { start: 0, end: 64, is_alias: true };
    let search = Search::new(&ScanRegion::Ram, &[alias]);
    assert_eq!(search.next(), SearchStep::End(SearchEnd::NoLocation));

    let mut search = Search::new(&ScanRegion::Exact(0x20), &[alias]);
    assert_eq!(search.next(), SearchStep::AttachExact(0x20));
    search.attach_done(Err(AttachFailure::ControlBlockNotFound));
    assert_eq!(search.next(), SearchStep::End(SearchEnd::Failed));
}

#[test]
fn reads_stay_in_their_range() {
    let end = u64::MAX;
    let start = end - SCAN_CHUNK_SIZE as u64 - 5;
    let mut scanner = Scanner::new(&[(start, end)]).unwrap();
    assert_eq!(scanner.next_read(), Some((start, SCAN_CHUNK_SIZE)));
    scanner.read_done(&vec![0u8; SCAN_CHUNK_SIZE]);
    assert_eq!(scanner.next_read(), Some((end - 5, 5)));
    scanner.read_done(&[0u8; 5]);
    assert_eq!(scanner.next_read(), None);
}
