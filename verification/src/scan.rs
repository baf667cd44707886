//! The search for the RTT control block in a target's memory.
use vstd::prelude::*;
use vstd::slice::slice_subrange;

verus! {

/// The most bytes that are read at once.
pub const SCAN_CHUNK_SIZE: usize = 32768;

/// The length below which a failed read is not tried again.
pub const MIN_SCAN_CHUNK_SIZE: usize = 4096;

/// How much of one chunk is looked at again with the next: one byte less than the
/// identifier has.
pub const RTT_MAGIC_OVERLAP: usize = 15;

/// The identifier that a control block begins with.
pub open spec fn rtt_magic() -> Seq<u8> {
    seq![83u8, 69, 71, 71, 69, 82, 32, 82, 84, 84, 0, 0, 0, 0, 0, 0]
}

/// The bytes at a place are those of the needle.
pub open spec fn occurs_at(data: Seq<u8>, needle: Seq<u8>, place: int) -> bool {
    0 <= place && place + needle.len() <= data.len() && data.subrange(
        place,
        place + needle.len(),
    ) == needle
}

/// Describes `memchr::memmem::find` of memchr: it finds the first place where the
/// needle occurs, or none where it occurs nowhere.
pub assume_specification[ memchr::memmem::find ](haystack: &[u8], needle: &[u8]) -> (found: Option<
    usize,
>)
    ensures
        match found {
            Some(index) => occurs_at(haystack@, needle@, index as int) && (forall|i: int|
                0 <= i < index ==> !#[trigger] occurs_at(haystack@, needle@, i)),
            None => forall|i: int| !#[trigger] occurs_at(haystack@, needle@, i),
        },
;

/// Reads `Rtt::RTT_ID` of probe-rs, the text `SEGGER RTT` filled up with zeros.
#[verifier::external_body]
fn rtt_id() -> (id: Vec<u8>)
    ensures
        id@ == rtt_magic(),
{
    probe_rs::rtt::Rtt::RTT_ID.to_vec()
}

/// Finds the first place where the identifier of a control block stands.
pub fn find_magic(data: &[u8]) -> (found: Option<usize>)
    ensures
        match found {
            Some(index) => occurs_at(data@, rtt_magic(), index as int) && (forall|i: int|
                0 <= i < index ==> !#[trigger] occurs_at(data@, rtt_magic(), i)),
            None => forall|i: int| !#[trigger] occurs_at(data@, rtt_magic(), i),
        },
{
    let id = rtt_id();
    memchr::memmem::find(data, &id)
}

/// The places from `from` up to, but not including, `to` where the identifier
/// stands, in ascending order.
pub open spec fn hits(data: Seq<u8>, from: int, to: int) -> Seq<int>
    decreases to - from,
{
    if from >= to {
        Seq::empty()
    } else {
        let before = hits(data, from, to - 1);
        if occurs_at(data, rtt_magic(), to - 1) {
            before.push(to - 1)
        } else {
            before
        }
    }
}

proof fn lemma_no_hits(data: Seq<u8>, from: int, middle: int, to: int)
    requires
        from <= middle <= to,
        forall|i: int| middle <= i < to ==> !#[trigger] occurs_at(data, rtt_magic(), i),
    ensures
        hits(data, from, to) == hits(data, from, middle),
    decreases to - middle,
{
    if middle < to {
        lemma_no_hits(data, from, middle, to - 1);
    }
}

proof fn lemma_hits_split(data: Seq<u8>, from: int, middle: int, to: int)
    requires
        from <= middle <= to,
    ensures
        hits(data, from, to) == hits(data, from, middle) + hits(data, middle, to),
    decreases to - middle,
{
    if middle < to {
        lemma_hits_split(data, from, middle, to - 1);
    }
    assert(hits(data, from, to) =~= hits(data, from, middle) + hits(data, middle, to));
}

/// Where two texts agree on the identifier, they have the same places.
proof fn lemma_same_hits(first: Seq<u8>, second: Seq<u8>, from: int, to: int)
    requires
        forall|i: int|
            from <= i < to ==> #[trigger] occurs_at(first, rtt_magic(), i) == occurs_at(
                second,
                rtt_magic(),
                i,
            ),
    ensures
        hits(first, from, to) == hits(second, from, to),
    decreases to - from,
{
    if from < to {
        lemma_same_hits(first, second, from, to - 1);
        assert(occurs_at(first, rtt_magic(), to - 1) == occurs_at(second, rtt_magic(), to - 1));
    }
}

/// Every listed place is in range and holds the identifier.
pub proof fn lemma_hits_hold(data: Seq<u8>, from: int, to: int)
    ensures
        forall|i: int|
            0 <= i < hits(data, from, to).len() ==> from <= #[trigger] hits(data, from, to)[i] < to
                && occurs_at(data, rtt_magic(), hits(data, from, to)[i]),
    decreases to - from,
{
    if from < to {
        lemma_hits_hold(data, from, to - 1);
        let before = hits(data, from, to - 1);
        assert forall|i: int| 0 <= i < hits(data, from, to).len() implies from
            <= #[trigger] hits(data, from, to)[i] < to && occurs_at(
            data,
            rtt_magic(),
            hits(data, from, to)[i],
        ) by {
            if i < before.len() {
                assert(hits(data, from, to)[i] == before[i]);
            }
        }
    }
}

/// Cutting off the front moves the places.
proof fn lemma_shifted_hits(data: Seq<u8>, offset: int, to: int)
    requires
        0 <= offset <= data.len(),
    ensures
        hits(data.skip(offset), 0, to).map_values(|i: int| i + offset) == hits(
            data,
            offset,
            to + offset,
        ),
    decreases to,
{
    let rest = data.skip(offset);
    if to > 0 {
        lemma_shifted_hits(data, offset, to - 1);
        lemma_moved(data, offset, to - 1);
    }
    assert(hits(rest, 0, to).map_values(|i: int| i + offset) =~= hits(data, offset, to + offset));
}

/// How far a text must be looked at again when more is read behind it.
pub open spec fn looked_again_from(seen: int) -> int {
    if seen > RTT_MAGIC_OVERLAP {
        seen - RTT_MAGIC_OVERLAP
    } else {
        0
    }
}

/// Where memory is read in parts, each place where the identifier stands comes up
/// once: with the part that completes it, also where the identifier is cut by the
/// border of two parts.
pub proof fn law_no_identifier_is_missed(seen: Seq<u8>, more: Seq<u8>)
    ensures
        hits(seen + more, 0, (seen + more).len() as int) == hits(seen, 0, seen.len() as int) + hits(
            seen + more,
            looked_again_from(seen.len() as int),
            (seen + more).len() as int,
        ),
{
    let all = seen + more;
    let middle = looked_again_from(seen.len() as int);
    lemma_hits_split(all, 0, middle, all.len() as int);
    assert forall|i: int| 0 <= i < middle implies #[trigger] occurs_at(all, rtt_magic(), i)
        == occurs_at(seen, rtt_magic(), i) by {
        assert(all.subrange(i, i + rtt_magic().len()) =~= seen.subrange(i, i + rtt_magic().len()));
    }
    lemma_same_hits(all, seen, 0, middle);
    lemma_no_hits(seen, 0, middle, seen.len() as int);
}

/// Lists the places where the identifier stands.
fn all_hits(data: &[u8]) -> (places: Vec<usize>)
    ensures
        places@.map_values(|i: usize| i as int) == hits(data@, 0, data@.len() as int),
{
    let mut places: Vec<usize> = Vec::new();
    let mut search_from: usize = 0;
    let ghost end = data@.len() as int;
    assert(places@.map_values(|i: usize| i as int) =~= Seq::<int>::empty());
    loop
        invariant
            search_from <= data@.len(),
            end == data@.len(),
            places@.map_values(|i: usize| i as int) == hits(data@, 0, search_from as int),
        ensures
            places@.map_values(|i: usize| i as int) == hits(data@, 0, end),
        decreases data@.len() - search_from,
    {
        let rest = slice_subrange(data, search_from, data.len());
        assert(rest@ =~= data@.skip(search_from as int));
        match find_magic(rest) {
            Some(relative) => {
                let offset = search_from + relative;
                proof {
                    lemma_hits_moved(data@, search_from as int, relative as int);
                    lemma_no_hits(data@, 0, search_from as int, offset as int);
                    assert(places@.push(offset).map_values(|i: usize| i as int)
                        =~= places@.map_values(|i: usize| i as int).push(offset as int));
                }
                places.push(offset);
                search_from = offset + 1;
            },
            None => {
                proof {
                    lemma_none_moved(data@, search_from as int);
                    lemma_no_hits(data@, 0, search_from as int, end);
                }
                break ;
            },
        }
    }
    places
}

proof fn lemma_moved(data: Seq<u8>, offset: int, place: int)
    requires
        0 <= offset <= data.len(),
        0 <= place,
    ensures
        occurs_at(data.skip(offset), rtt_magic(), place) == occurs_at(
            data,
            rtt_magic(),
            place + offset,
        ),
{
    if place + rtt_magic().len() <= data.skip(offset).len() {
        assert(data.skip(offset).subrange(place, place + rtt_magic().len()) =~= data.subrange(
            place + offset,
            place + offset + rtt_magic().len(),
        ));
    }
}

proof fn lemma_hits_moved(data: Seq<u8>, offset: int, place: int)
    requires
        0 <= offset <= data.len(),
        occurs_at(data.skip(offset), rtt_magic(), place),
        forall|i: int| 0 <= i < place ==> !#[trigger] occurs_at(data.skip(offset), rtt_magic(), i),
    ensures
        occurs_at(data, rtt_magic(), place + offset),
        forall|i: int| offset <= i < place + offset ==> !#[trigger] occurs_at(data, rtt_magic(), i),
{
    lemma_moved(data, offset, place);
    assert forall|i: int| offset <= i < place + offset implies !#[trigger] occurs_at(
        data,
        rtt_magic(),
        i,
    ) by {
        lemma_moved(data, offset, i - offset);
    }
}

proof fn lemma_none_moved(data: Seq<u8>, offset: int)
    requires
        0 <= offset <= data.len(),
        forall|i: int| !#[trigger] occurs_at(data.skip(offset), rtt_magic(), i),
    ensures
        forall|i: int| offset <= i ==> !#[trigger] occurs_at(data, rtt_magic(), i),
{
    assert forall|i: int| offset <= i implies !#[trigger] occurs_at(data, rtt_magic(), i) by {
        lemma_moved(data, offset, i - offset);
    }
}

/// Where the scan stands.
pub struct ScanView {
    /// The ranges that are not done; the first is being read.
    pub left: Seq<(u64, u64)>,
    /// What has been read of the first range.
    pub seen: Seq<u8>,
    /// How much is to be read next.
    pub length: int,
}

/// How much of a stretch of memory is read at once.
pub open spec fn chunk_length(stretch: int) -> int {
    if stretch < SCAN_CHUNK_SIZE {
        stretch
    } else {
        SCAN_CHUNK_SIZE as int
    }
}

impl ScanView {
    /// The scan of ranges that hold something, from the start of the first.
    pub open spec fn start(left: Seq<(u64, u64)>) -> ScanView {
        ScanView {
            left,
            seen: Seq::empty(),
            length: if left.len() > 0 {
                chunk_length(left[0].1 - left[0].0)
            } else {
                0
            },
        }
    }

    /// The address that is to be read next.
    pub open spec fn address(self) -> int {
        self.left[0].0 + self.seen.len()
    }

    /// The read that is due: an address and a length.
    pub open spec fn due(self) -> Option<(u64, usize)> {
        if self.left.len() > 0 {
            Some((self.address() as u64, self.length as usize))
        } else {
            None
        }
    }

    /// The ranges hold something, and the read that is due lies in the first.
    pub open spec fn stays_in_range(self) -> bool {
        &&& forall|i: int|
            0 <= i < self.left.len() ==> (#[trigger] self.left[i]).0 < self.left[i].1
        &&& self.left.len() > 0 ==> 0 < self.length <= SCAN_CHUNK_SIZE && self.address()
            + self.length <= self.left[0].1
    }

    /// The due read failed: less is tried, and in the end the range is given up.
    pub open spec fn failed(self) -> ScanView {
        if self.length > MIN_SCAN_CHUNK_SIZE {
            ScanView {
                length: if self.length / 2 > MIN_SCAN_CHUNK_SIZE {
                    self.length / 2
                } else {
                    MIN_SCAN_CHUNK_SIZE as int
                },
                ..self
            }
        } else {
            ScanView::start(self.left.skip(1))
        }
    }

    /// The due read gave bytes.
    pub open spec fn read(self, bytes: Seq<u8>) -> ScanView {
        let after = ScanView { seen: self.seen + bytes, ..self };
        if after.address() < self.left[0].1 {
            ScanView { length: chunk_length(self.left[0].1 - after.address()), ..after }
        } else {
            ScanView::start(self.left.skip(1))
        }
    }

    /// The addresses that come up with bytes that were read: those where an
    /// identifier ends within them.
    pub open spec fn candidates(self, bytes: Seq<u8>) -> Seq<u64> {
        let all = self.seen + bytes;
        let base = self.left[0].0;
        hits(all, looked_again_from(self.seen.len() as int), all.len() as int).map_values(
            |place: int| (base + place) as u64,
        )
    }
}

/// The ranges that hold something.
pub open spec fn filled_ranges(ranges: Seq<(u64, u64)>) -> Seq<(u64, u64)>
    decreases ranges.len(),
{
    if ranges.len() == 0 {
        Seq::empty()
    } else {
        let before = filled_ranges(ranges.drop_last());
        if ranges.last().0 < ranges.last().1 {
            before.push(ranges.last())
        } else {
            before
        }
    }
}

/// A scan through ranges of memory, chunk by chunk.
pub struct Scanner {
    ranges: Vec<(u64, u64)>,
    current: usize,
    address: u64,
    length: usize,
    overlap: Vec<u8>,
    seen: Ghost<Seq<u8>>,
}

impl View for Scanner {
    type V = ScanView;

    closed spec fn view(&self) -> ScanView {
        ScanView {
            left: self.ranges@.skip(self.current as int),
            seen: self.seen@,
            length: self.length as int,
        }
    }
}

impl Scanner {
    /// The ranges hold something, the next read lies in the current one, and the
    /// overlap is the end of what has been read of it.
    pub closed spec fn wf(self) -> bool {
        &&& self.current <= self.ranges@.len()
        &&& forall|i: int|
            0 <= i < self.ranges@.len() ==> (#[trigger] self.ranges@[i]).0 < self.ranges@[i].1
        &&& self.current < self.ranges@.len() ==> {
            let range = self.ranges@[self.current as int];
            &&& self.address == range.0 + self.seen@.len()
            &&& 0 < self.length <= SCAN_CHUNK_SIZE
            &&& self.address + self.length <= range.1
            &&& self.overlap@ == self.seen@.skip(looked_again_from(self.seen@.len() as int))
        }
        &&& self.current == self.ranges@.len() ==> self.seen@.len() == 0 && self.length == 0
    }

    /// A scan of ranges given by start and end, where there are any.
    pub fn new(ranges: &[(u64, u64)]) -> (scanner: Option<Self>)
        ensures
            match scanner {
                Some(scanner) => ranges@.len() > 0 && scanner.wf() && scanner@ == ScanView::start(
                    filled_ranges(ranges@),
                ),
                None => ranges@.len() == 0,
            },
    {
        if ranges.len() == 0 {
            return None;
        }
        let mut filled: Vec<(u64, u64)> = Vec::new();
        let mut index: usize = 0;
        assert(ranges@.take(0) =~= Seq::<(u64, u64)>::empty());
        while index < ranges.len()
            invariant
                index <= ranges@.len(),
                filled@ == filled_ranges(ranges@.take(index as int)),
                forall|i: int| 0 <= i < filled@.len() ==> (#[trigger] filled@[i]).0 < filled@[i].1,
            decreases ranges@.len() - index,
        {
            assert(ranges@.take(index + 1).drop_last() =~= ranges@.take(index as int));
            let range = ranges[index];
            if range.0 < range.1 {
                filled.push(range);
            }
            index += 1;
        }
        assert(ranges@.take(ranges@.len() as int) =~= ranges@);
        let mut scanner = Scanner {
            ranges: filled,
            current: 0,
            address: 0,
            length: 0,
            overlap: Vec::new(),
            seen: Ghost(Seq::empty()),
        };
        scanner.begin_range();
        assert(filled@.skip(0) =~= filled@);
        Some(scanner)
    }

    /// Begins the current range.
    fn begin_range(&mut self)
        requires
            old(self).current <= old(self).ranges@.len(),
            forall|i: int|
                0 <= i < old(self).ranges@.len() ==> (#[trigger] old(self).ranges@[i]).0 < old(
                    self,
                ).ranges@[i].1,
        ensures
            final(self).wf(),
            final(self)@ == ScanView::start(
                old(self).ranges@.skip(old(self).current as int),
            ),
            final(self).ranges == old(self).ranges,
    {
        self.overlap.clear();
        self.seen = Ghost(Seq::empty());
        if self.current < self.ranges.len() {
            let range = self.ranges[self.current];
            self.address = range.0;
            self.length = length_of(range.1 - range.0);
        } else {
            self.length = 0;
        }
        assert(self.overlap@ =~= self.seen@.skip(0));
    }

    /// The read that is due, by address and length. None is due when the ranges
    /// are done.
    pub fn next_read(&self) -> (read: Option<(u64, usize)>)
        requires
            self.wf(),
        ensures
            read == self@.due(),
            match read {
                Some((address, length)) => 0 < length <= SCAN_CHUNK_SIZE && self@.left[0].0
                    <= address && address + length <= self@.left[0].1,
                None => true,
            },
    {
        if self.current < self.ranges.len() {
            Some((self.address, self.length))
        } else {
            None
        }
    }

    /// The due read failed.
    pub fn read_failed(&mut self)
        requires
            old(self).wf(),
            old(self)@.due() is Some,
        ensures
            final(self).wf(),
            final(self)@ == old(self)@.failed(),
    {
        if self.length > MIN_SCAN_CHUNK_SIZE {
            let half = self.length / 2;
            self.length = if half > MIN_SCAN_CHUNK_SIZE {
                half
            } else {
                MIN_SCAN_CHUNK_SIZE
            };
        } else {
            self.next_range();
        }
    }

    fn next_range(&mut self)
        requires
            old(self).wf(),
            old(self)@.due() is Some,
        ensures
            final(self).wf(),
            final(self)@ == ScanView::start(old(self)@.left.skip(1)),
    {
        assert(self.ranges@.skip(self.current as int).skip(1) =~= self.ranges@.skip(
            self.current + 1,
        ));
        assert(self.current < self.ranges.len());
        self.current += 1;
        self.begin_range();
    }

    /// The due read gave bytes. Hands out the addresses that come up with them.
    pub fn read_done(&mut self, bytes: &[u8]) -> (candidates: Vec<u64>)
        requires
            old(self).wf(),
            old(self)@.due() is Some,
            bytes@.len() == old(self)@.length,
        ensures
            final(self).wf(),
            final(self)@ == old(self)@.read(bytes@),
            candidates@ == old(self)@.candidates(bytes@),
    {
        let ghost before = self@;
        let ghost all = before.seen + bytes@;
        let ghost again = looked_again_from(before.seen.len() as int);
        let ghost base = before.left[0].0;
        let range = self.ranges[self.current];
        let mut combined: Vec<u8> = Vec::new();
        combined.extend_from_slice(&self.overlap);
        combined.extend_from_slice(bytes);
        assert(combined@ =~= all.skip(again));
        let first_address = self.address - self.overlap.len() as u64;
        assert(first_address == base + again);
        let places = all_hits(&combined);
        let mut candidates: Vec<u64> = Vec::new();
        let mut index: usize = 0;
        proof {
            lemma_hits_hold(combined@, 0, combined@.len() as int);
        }
        while index < places.len()
            invariant
                index <= places@.len(),
                candidates@.len() == index,
                first_address + combined@.len() <= u64::MAX,
                places@.map_values(|i: usize| i as int) == hits(
                    combined@,
                    0,
                    combined@.len() as int,
                ),
                forall|i: int|
                    0 <= i < hits(combined@, 0, combined@.len() as int).len() ==> 0 <= #[trigger] hits(
                        combined@,
                        0,
                        combined@.len() as int,
                    )[i] < combined@.len(),
                forall|i: int|
                    0 <= i < index ==> #[trigger] candidates@[i] == first_address + places@[i],
            decreases places@.len() - index,
        {
            assert(hits(combined@, 0, combined@.len() as int)[index as int]
                == places@[index as int] as int);
            candidates.push(first_address + places[index] as u64);
            index += 1;
        }
        proof {
            lemma_shifted_hits(all, again, combined@.len() as int);
            let shifted = hits(all, again, all.len() as int);
            assert(shifted == hits(combined@, 0, combined@.len() as int).map_values(
                |i: int| i + again,
            ));
            assert forall|i: int| 0 <= i < candidates@.len() implies #[trigger] candidates@[i]
                == before.candidates(bytes@)[i] by {
                assert(hits(combined@, 0, combined@.len() as int)[i] == places@[i] as int);
                assert(shifted[i] == places@[i] + again);
            }
            assert(candidates@ =~= before.candidates(bytes@));
        }

        let tail = if combined.len() > RTT_MAGIC_OVERLAP {
            combined.len() - RTT_MAGIC_OVERLAP
        } else {
            0
        };
        self.overlap = combined.split_off(tail);
        self.seen = Ghost(all);
        assert(self.overlap@ =~= all.skip(looked_again_from(all.len() as int)));
        self.address = self.address + bytes.len() as u64;
        if self.address < range.1 {
            self.length = length_of(range.1 - self.address);
        } else {
            assert(self.ranges@.skip(self.current as int).skip(1) =~= self.ranges@.skip(
                self.current + 1,
            ));
            assert(self.current < self.ranges.len());
            self.current += 1;
            self.begin_range();
        }
        candidates
    }
}

fn length_of(stretch: u64) -> (length: usize)
    ensures
        length == chunk_length(stretch as int),
{
    if stretch < SCAN_CHUNK_SIZE as u64 {
        stretch as usize
    } else {
        SCAN_CHUNK_SIZE
    }
}

/// A scan comes to its end: a failed read leads to a shorter one or to the next
/// range, and a read that gave bytes leads on in its range or to the next.
pub proof fn law_scan_makes_progress(scan: ScanView, bytes: Seq<u8>)
    requires
        scan.left.len() > 0,
        bytes.len() > 0,
    ensures
        scan.failed().left.len() < scan.left.len() || (scan.failed().left == scan.left
            && scan.failed().seen == scan.seen && scan.failed().length < scan.length),
        scan.read(bytes).left.len() < scan.left.len() || (scan.read(bytes).left == scan.left
            && scan.read(bytes).address() > scan.address() && scan.read(bytes).address()
            < scan.left[0].1),
{
}

/// A scan never leaves its ranges: the read that is due lies in the range that is
/// being read, also after a read that failed and after one that gave bytes.
pub proof fn law_reads_stay_in_their_range(scan: ScanView, bytes: Seq<u8>)
    requires
        scan.stays_in_range(),
        scan.left.len() > 0,
        bytes.len() == scan.length,
    ensures
        0 < scan.length <= SCAN_CHUNK_SIZE,
        scan.left[0].0 <= scan.address() && scan.address() + scan.length <= scan.left[0].1,
        scan.failed().stays_in_range(),
        scan.read(bytes).stays_in_range(),
{
    let rest = scan.left.skip(1);
    assert forall|i: int| 0 <= i < rest.len() implies (#[trigger] rest[i]).0 < rest[i].1 by {
        assert(rest[i] == scan.left[i + 1]);
    }
}

/// A scanner's due read lies in the range that is being read.
pub proof fn law_scanner_stays_in_range(scanner: Scanner)
    requires
        scanner.wf(),
    ensures
        scanner@.stays_in_range(),
{
    assert forall|i: int| 0 <= i < scanner@.left.len() implies (#[trigger] scanner@.left[i]).0
        < scanner@.left[i].1 by {
        assert(scanner@.left[i] == scanner.ranges@[i + scanner.current]);
    }
}

/// Where a control block is looked for.
#[derive(Debug)]
pub enum ScanRegion {
    /// In all RAM of the target.
    Ram,
    /// In ranges, given by start and end.
    Ranges(Vec<(u64, u64)>),
    /// At one address.
    Exact(u64),
}

/// A region as a value.
pub enum RegionView {
    Ram,
    Ranges(Seq<(u64, u64)>),
    Exact(u64),
}

impl View for ScanRegion {
    type V = RegionView;

    open spec fn view(&self) -> RegionView {
        match self {
            ScanRegion::Ram => RegionView::Ram,
            ScanRegion::Ranges(ranges) => RegionView::Ranges(ranges@),
            ScanRegion::Exact(address) => RegionView::Exact(*address),
        }
    }
}

fn copy_ranges(ranges: &Vec<(u64, u64)>) -> (copy: Vec<(u64, u64)>)
    ensures
        copy@ == ranges@,
{
    let mut copy: Vec<(u64, u64)> = Vec::new();
    let mut index: usize = 0;
    while index < ranges.len()
        invariant
            index <= ranges@.len(),
            copy@ == ranges@.take(index as int),
        decreases ranges@.len() - index,
    {
        assert(ranges@.take(index + 1) =~= ranges@.take(index as int).push(ranges@[index as int]));
        copy.push(ranges[index]);
        index += 1;
    }
    assert(ranges@.take(ranges@.len() as int) =~= ranges@);
    copy
}

impl Clone for ScanRegion {
    fn clone(&self) -> (copy: Self)
        ensures
            copy@ == self@,
    {
        match self {
            ScanRegion::Ram => ScanRegion::Ram,
            ScanRegion::Ranges(ranges) => {
                ScanRegion::Ranges(copy_ranges(ranges))
            },
            ScanRegion::Exact(address) => ScanRegion::Exact(*address),
        }
    }
}

/// A region, where there is one.
pub open spec fn optional_region(region: Option<&ScanRegion>) -> Option<RegionView> {
    match region {
        Some(region) => Some(region@),
        None => None,
    }
}

/// Precedence: ELF-provided `_SEGGER_RTT` > explicit `--scan-region` > target default.
/// Automatic scanning is only used when neither the ELF nor the user pins a region.
pub fn resolve_scan_region(
    elf_region: Option<&ScanRegion>,
    requested: Option<&ScanRegion>,
    target_default: &ScanRegion,
) -> (resolved: (ScanRegion, bool))
    ensures
        resolved.0@ == (match (optional_region(elf_region), optional_region(requested)) {
            (Some(region), _) => region,
            (None, Some(region)) => region,
            (None, None) => target_default@,
        }),
        resolved.1 == (elf_region is None && requested is None),
{
    match (elf_region, requested) {
        (Some(region), _) => (region.clone(), false),
        (None, Some(region)) => (region.clone(), false),
        (None, None) => (target_default.clone(), true),
    }
}

/// What the user is told where a requested region is not used.
pub fn ignored_region_notice(
    elf_region: Option<&ScanRegion>,
    requested: Option<&ScanRegion>,
) -> (notice: Option<&'static str>)
    ensures
        match notice {
            Some(text) => elf_region is Some && requested is Some && text@
                == "Ignoring --scan-region because --elf provides _SEGGER_RTT."@,
            None => elf_region is None || requested is None,
        },
{
    if elf_region.is_some() && requested.is_some() {
        Some("Ignoring --scan-region because --elf provides _SEGGER_RTT.")
    } else {
        None
    }
}

/// A stretch of a target's RAM.
#[derive(Debug, Clone, Copy)]
pub struct RamRegion {
    pub start: u64,
    pub end: u64,
    pub is_alias: bool,
}

/// How a region is searched.
#[derive(Debug)]
pub enum ScanPlan {
    /// One address is tried.
    Exact(u64),
    /// Ranges are scanned.
    Ranges(Vec<(u64, u64)>),
}

/// The stretches of RAM that are not aliases of others.
pub open spec fn own_ram(ram: Seq<RamRegion>) -> Seq<(u64, u64)>
    decreases ram.len(),
{
    if ram.len() == 0 {
        Seq::empty()
    } else {
        let before = own_ram(ram.drop_last());
        if ram.last().is_alias {
            before
        } else {
            before.push((ram.last().start, ram.last().end))
        }
    }
}

/// Decides how a region is searched on a target with the given RAM.
pub fn plan_scan(region: &ScanRegion, ram: &[RamRegion]) -> (plan: ScanPlan)
    ensures
        match region@ {
            RegionView::Ram => plan matches ScanPlan::Ranges(ranges) && ranges@ == own_ram(ram@),
            RegionView::Ranges(wanted) => plan matches ScanPlan::Ranges(ranges) && ranges@ == wanted,
            RegionView::Exact(address) => plan == ScanPlan::Exact(address),
        },
{
    match region {
        ScanRegion::Ram => {
            let mut ranges: Vec<(u64, u64)> = Vec::new();
            let mut index: usize = 0;
            assert(ram@.take(0) =~= Seq::<RamRegion>::empty());
            while index < ram.len()
                invariant
                    index <= ram@.len(),
                    ranges@ == own_ram(ram@.take(index as int)),
                decreases ram@.len() - index,
            {
                assert(ram@.take(index + 1).drop_last() =~= ram@.take(index as int));
                if !ram[index].is_alias {
                    ranges.push((ram[index].start, ram[index].end));
                }
                index += 1;
            }
            assert(ram@.take(ram@.len() as int) =~= ram@);
            ScanPlan::Ranges(ranges)
        },
        ScanRegion::Ranges(wanted) => {
            ScanPlan::Ranges(copy_ranges(wanted))
        },
        ScanRegion::Exact(address) => ScanPlan::Exact(*address),
    }
}

/// Why no control block could be attached to.
#[derive(Debug, Clone, Copy, PartialEq, Eq, Structural)]
pub enum AttachFailure {
    NoControlBlockLocation,
    ControlBlockNotFound,
    ControlBlockCorrupted,
    Other,
}

/// Decides whether a scan goes on after an address that could not be attached to:
/// it does where no sound control block is there.
pub fn scan_goes_on(failure: AttachFailure) -> (goes_on: bool)
    ensures
        goes_on <==> failure == AttachFailure::ControlBlockNotFound || failure
            == AttachFailure::ControlBlockCorrupted,
{
    match failure {
        AttachFailure::ControlBlockNotFound | AttachFailure::ControlBlockCorrupted => true,
        AttachFailure::NoControlBlockLocation | AttachFailure::Other => false,
    }
}

/// How a search ended.
#[derive(Debug, Clone, Copy, PartialEq, Eq, Structural)]
pub enum SearchEnd {
    /// A control block was attached to.
    Attached,
    /// There is no place to look at.
    NoLocation,
    /// No place holds a control block.
    NotFound,
    /// The last attempt to attach failed in a way that ends the search.
    Failed,
}

/// What a search does next.
#[derive(Debug, Clone, Copy, PartialEq, Eq, Structural)]
pub enum SearchStep {
    /// Attach to the one address that is given.
    AttachExact(u64),
    /// Read memory.
    Read { address: u64, length: usize },
    /// Attach to an address where an identifier stands.
    Attach(u64),
    /// Nothing: the search is over.
    End(SearchEnd),
}

/// Where a search stands.
pub struct SearchView {
    /// The one address that is tried.
    pub exact: Option<u64>,
    /// The scan through memory.
    pub scan: Option<ScanView>,
    /// The addresses that are to be tried before more is read.
    pub pending: Seq<u64>,
    /// How the search ended.
    pub end: Option<SearchEnd>,
}

impl SearchView {
    /// A search that begins: at one address, or through ranges where there are any.
    pub open spec fn start(region: RegionView, ram: Seq<RamRegion>) -> SearchView {
        let idle = SearchView { exact: None, scan: None, pending: Seq::empty(), end: None };
        match region {
            RegionView::Exact(address) => SearchView { exact: Some(address), ..idle },
            RegionView::Ranges(ranges) => SearchView::through(ranges),
            RegionView::Ram => SearchView::through(own_ram(ram)),
        }
    }

    /// A search through ranges.
    pub open spec fn through(ranges: Seq<(u64, u64)>) -> SearchView {
        let idle = SearchView { exact: None, scan: None, pending: Seq::empty(), end: None };
        if ranges.len() == 0 {
            SearchView { end: Some(SearchEnd::NoLocation), ..idle }
        } else {
            SearchView { scan: Some(ScanView::start(filled_ranges(ranges))), ..idle }
        }
    }

    /// What is done next: the addresses that came up are tried before more is read,
    /// and a scan that is through has found nothing.
    pub open spec fn next(self) -> SearchStep {
        if let Some(end) = self.end {
            SearchStep::End(end)
        } else if let Some(address) = self.exact {
            SearchStep::AttachExact(address)
        } else if self.pending.len() > 0 {
            SearchStep::Attach(self.pending[0])
        } else {
            match self.scan {
                Some(scan) => match scan.due() {
                    Some((address, length)) => SearchStep::Read { address, length },
                    None => SearchStep::End(SearchEnd::NotFound),
                },
                None => SearchStep::End(SearchEnd::NotFound),
            }
        }
    }

    /// The read failed.
    pub open spec fn read_failed(self) -> SearchView {
        SearchView { scan: Some(self.scan->0.failed()), ..self }
    }

    /// The read gave bytes.
    pub open spec fn read_done(self, bytes: Seq<u8>) -> SearchView {
        SearchView {
            scan: Some(self.scan->0.read(bytes)),
            pending: self.scan->0.candidates(bytes),
            ..self
        }
    }

    /// The attempt to attach came to something. A search through memory goes on
    /// where no sound control block was there.
    pub open spec fn attach_done(self, result: Result<(), AttachFailure>) -> SearchView {
        match result {
            Ok(()) => SearchView { end: Some(SearchEnd::Attached), ..self },
            Err(failure) => if self.exact is None && (failure == AttachFailure::ControlBlockNotFound
                || failure == AttachFailure::ControlBlockCorrupted) {
                SearchView { pending: self.pending.skip(1), ..self }
            } else {
                SearchView { end: Some(SearchEnd::Failed), ..self }
            },
        }
    }
}

/// A search for the control block of a target.
pub struct Search {
    exact: Option<u64>,
    scanner: Option<Scanner>,
    candidates: Vec<u64>,
    tried: usize,
    end: Option<SearchEnd>,
}

impl View for Search {
    type V = SearchView;

    closed spec fn view(&self) -> SearchView {
        SearchView {
            exact: self.exact,
            scan: match self.scanner {
                Some(scanner) => Some(scanner@),
                None => None,
            },
            pending: self.candidates@.skip(self.tried as int),
            end: self.end,
        }
    }
}

impl Search {
    /// The scanner is well-formed, and no more candidates were tried than came up.
    pub closed spec fn wf(self) -> bool {
        &&& self.scanner matches Some(scanner) ==> scanner.wf()
        &&& self.tried <= self.candidates@.len()
    }

    /// Begins the search of a region on a target with the given RAM.
    pub fn new(region: &ScanRegion, ram: &[RamRegion]) -> (search: Self)
        ensures
            search.wf(),
            search@ == SearchView::start(region@, ram@),
    {
        let candidates: Vec<u64> = Vec::new();
        assert(candidates@.skip(0) =~= Seq::<u64>::empty());
        let mut search = Search { exact: None, scanner: None, candidates, tried: 0, end: None };
        match plan_scan(region, ram) {
            ScanPlan::Exact(address) => {
                search.exact = Some(address);
            },
            ScanPlan::Ranges(ranges) => match Scanner::new(&ranges) {
                Some(scanner) => {
                    search.scanner = Some(scanner);
                },
                None => {
                    search.end = Some(SearchEnd::NoLocation);
                },
            },
        }
        search
    }

    /// Decides what is done next.
    pub fn next(&self) -> (step: SearchStep)
        requires
            self.wf(),
        ensures
            step == self@.next(),
            step matches SearchStep::Read { address, length } ==> 0 < length <= SCAN_CHUNK_SIZE
                && address + length <= u64::MAX,
    {
        if let Some(end) = self.end {
            return SearchStep::End(end);
        }
        if let Some(address) = self.exact {
            return SearchStep::AttachExact(address);
        }
        if self.tried < self.candidates.len() {
            return SearchStep::Attach(self.candidates[self.tried]);
        }
        match &self.scanner {
            Some(scanner) => match scanner.next_read() {
                Some((address, length)) => SearchStep::Read { address, length },
                None => SearchStep::End(SearchEnd::NotFound),
            },
            None => SearchStep::End(SearchEnd::NotFound),
        }
    }

    /// The read that was to be done failed.
    pub fn read_failed(&mut self)
        requires
            old(self).wf(),
            old(self)@.next() is Read,
        ensures
            final(self).wf(),
            final(self)@ == old(self)@.read_failed(),
    {
        match &mut self.scanner {
            Some(scanner) => scanner.read_failed(),
            None => {},
        }
    }

    /// The read that was to be done gave bytes.
    pub fn read_done(&mut self, bytes: &[u8])
        requires
            old(self).wf(),
            old(self)@.next() matches SearchStep::Read { length, .. } && bytes@.len() == length,
        ensures
            final(self).wf(),
            final(self)@ == old(self)@.read_done(bytes@),
    {
        let candidates = match &mut self.scanner {
            Some(scanner) => scanner.read_done(bytes),
            None => Vec::new(),
        };
        assert(candidates@.skip(0) =~= candidates@);
        self.candidates = candidates;
        self.tried = 0;
    }

    /// The attempt to attach that was to be made came to something.
    pub fn attach_done(&mut self, result: Result<(), AttachFailure>)
        requires
            old(self).wf(),
            old(self)@.next() is Attach || old(self)@.next() is AttachExact,
        ensures
            final(self).wf(),
            final(self)@ == old(self)@.attach_done(result),
    {
        match result {
            Ok(()) => {
                self.end = Some(SearchEnd::Attached);
            },
            Err(failure) => {
                if self.exact.is_none() && scan_goes_on(failure) {
                    assert(self.candidates@.skip(self.tried as int).skip(1)
                        =~= self.candidates@.skip(self.tried + 1));
                    assert(self.tried < self.candidates.len());
                    self.tried = self.tried + 1;
                } else {
                    self.end = Some(SearchEnd::Failed);
                }
            },
        }
    }
}

/// The first address that attaches ends a search, and so does a failure other than
/// a missing or corrupted control block; after those two the next address that came
/// up is tried, and after the last one more is read.
pub proof fn law_search_goes_through_its_candidates(search: SearchView, failure: AttachFailure)
    requires
        search.next() is Attach,
    ensures
        search.attach_done(Ok(())).next() == SearchStep::End(SearchEnd::Attached),
        ({
            let after = search.attach_done(Err(failure));
            if failure == AttachFailure::ControlBlockNotFound || failure
                == AttachFailure::ControlBlockCorrupted {
                &&& after.scan == search.scan
                &&& search.pending.len() > 1 ==> after.next() == SearchStep::Attach(
                    search.pending[1],
                )
                &&& search.pending.len() == 1 ==> after.next() !is Attach
            } else {
                after.next() == SearchStep::End(SearchEnd::Failed)
            }
        }),
{
}

/// How long an attempt to attach is put off after one that failed.
pub const RETRY_DELAY_MILLIS: u64 = 50;

/// Decides whether a failed attempt to attach is made again: until the time is
/// over, and never where there is no place to look at. Times are in nanoseconds.
pub fn attach_is_retried(failure: AttachFailure, elapsed: u128, timeout: u128) -> (retried: bool)
    ensures
        retried <==> failure != AttachFailure::NoControlBlockLocation && elapsed < timeout,
{
    match failure {
        AttachFailure::NoControlBlockLocation => false,
        AttachFailure::ControlBlockNotFound
        | AttachFailure::ControlBlockCorrupted
        | AttachFailure::Other => elapsed < timeout,
    }
}

/// What memory holds from one address up to, but not including, another.
pub open spec fn memory_between(memory: spec_fn(int) -> u8, from: int, to: int) -> Seq<u8> {
    Seq::new((to - from) as nat, |i: int| memory(from + i))
}

/// The identifier stands at an address, within a range of memory.
pub open spec fn identifier_stands(
    memory: spec_fn(int) -> u8,
    range: (u64, u64),
    address: int,
) -> bool {
    range.0 <= address && address + 16 <= range.1 && memory_between(memory, address, address + 16)
        == seq![83u8, 69, 71, 71, 69, 82, 32, 82, 84, 84, 0, 0, 0, 0, 0, 0]
}

/// Everything is listed that is in range and holds the identifier.
proof fn lemma_hits_are_complete(data: Seq<u8>, from: int, to: int, place: int)
    requires
        from <= place < to,
        occurs_at(data, rtt_magic(), place),
    ensures
        hits(data, from, to).contains(place),
    decreases to - from,
{
    let before = hits(data, from, to - 1);
    if place == to - 1 {
        assert(hits(data, from, to)[before.len() as int] == place);
    } else {
        lemma_hits_are_complete(data, from, to - 1, place);
        let i = choose|i: int| 0 <= i < before.len() && before[i] == place;
        assert(hits(data, from, to)[i] == place);
    }
}

/// A read that gives bytes leads to the next bytes of the range, at most thirty-two
/// kibibytes of them; behind the end of the range, to the start of the next; behind
/// the last range, to the end of the scan.
pub proof fn law_scan_goes_on(scan: ScanView, bytes: Seq<u8>)
    requires
        scan.left.len() > 0,
        bytes.len() > 0,
    ensures
        ({
            let (start, end) = scan.left[0];
            let next = start + scan.seen.len() + bytes.len();
            let after = scan.read(bytes);
            if next < end {
                &&& after.left == scan.left
                &&& after.seen == scan.seen + bytes
                &&& after.due() == Some(
                    (
                        next as u64,
                        (if end - next < 32768 {
                            end - next
                        } else {
                            32768
                        }) as usize,
                    ),
                )
            } else if scan.left.len() > 1 {
                let (start, end) = scan.left[1];
                &&& after.left == scan.left.skip(1)
                &&& after.seen.len() == 0
                &&& after.due() == Some(
                    (
                        start,
                        (if end - start < 32768 {
                            end - start
                        } else {
                            32768
                        }) as usize,
                    ),
                )
            } else {
                after.due() is None
            }
        }),
{
}

/// A read that fails is tried again at the same address with half the length, but
/// with no less than four kibibytes; one of that length or less gives up the rest of
/// the range, and the scan goes on with the next.
pub proof fn law_failed_reads_are_tried_with_less(scan: ScanView)
    requires
        scan.left.len() > 0,
        0 < scan.length <= 32768,
    ensures
        scan.length > 8192 ==> scan.failed() == (ScanView { length: scan.length / 2, ..scan }),
        4096 < scan.length <= 8192 ==> scan.failed() == (ScanView { length: 4096, ..scan }),
        scan.length <= 4096 && scan.left.len() > 1 ==> ({
            let (start, end) = scan.left[1];
            &&& scan.failed().left == scan.left.skip(1)
            &&& scan.failed().seen.len() == 0
            &&& scan.failed().due() == Some(
                (
                    start,
                    (if end - start < 32768 {
                        end - start
                    } else {
                        32768
                    }) as usize,
                ),
            )
        }),
        scan.length <= 4096 && scan.left.len() == 1 ==> scan.failed().due() is None,
{
}

/// The addresses from one up to, but not including, another.
pub open spec fn addresses(from: int, to: int) -> Seq<int> {
    Seq::new((to - from) as nat, |i: int| from + i)
}

/// The addresses of ranges, one range after the other.
pub open spec fn all_addresses(ranges: Seq<(u64, u64)>) -> Seq<int>
    decreases ranges.len(),
{
    if ranges.len() == 0 {
        Seq::empty()
    } else {
        addresses(ranges[0].0 as int, ranges[0].1 as int) + all_addresses(ranges.skip(1))
    }
}

/// The addresses that a scan goes on to read, where every read gives what memory
/// holds.
pub open spec fn addresses_read(scan: ScanView, memory: spec_fn(int) -> u8) -> Seq<int>
    decreases scan.left.len(), scan.left[0].1 - scan.address(),
    when scan.stays_in_range()
{
    match scan.due() {
        Some((from, length)) => addresses(from as int, from + length) + addresses_read(
            scan.read(memory_between(memory, from as int, from + length)),
            memory,
        ),
        None => Seq::empty(),
    }
}

/// The candidates that come up in the rest of a scan, where every read gives what
/// memory holds.
pub open spec fn candidates_found(scan: ScanView, memory: spec_fn(int) -> u8) -> Seq<u64>
    decreases scan.left.len(), scan.left[0].1 - scan.address(),
    when scan.stays_in_range()
{
    match scan.due() {
        Some((from, length)) => {
            let bytes = memory_between(memory, from as int, from + length);
            scan.candidates(bytes) + candidates_found(scan.read(bytes), memory)
        },
        None => Seq::empty(),
    }
}

/// A range holds something.
pub open spec fn all_filled(ranges: Seq<(u64, u64)>) -> bool {
    forall|i: int| 0 <= i < ranges.len() ==> (#[trigger] ranges[i]).0 < ranges[i].1
}

/// A scan whose reads all succeed reads every range from its start to its end, one
/// range after the other, and every address once.
pub proof fn law_scan_reads_every_range(ranges: Seq<(u64, u64)>, memory: spec_fn(int) -> u8)
    requires
        all_filled(ranges),
    ensures
        addresses_read(ScanView::start(ranges), memory) == all_addresses(ranges),
{
    let scan = ScanView::start(ranges);
    assert(scan.stays_in_range());
    lemma_addresses_read(scan, memory);
    if ranges.len() == 0 {
        assert(addresses_read(scan, memory) =~= all_addresses(ranges));
    }
}

proof fn lemma_addresses_read(scan: ScanView, memory: spec_fn(int) -> u8)
    requires
        scan.stays_in_range(),
    ensures
        scan.left.len() > 0 ==> addresses_read(scan, memory) == addresses(
            scan.address(),
            scan.left[0].1 as int,
        ) + all_addresses(scan.left.skip(1)),
        scan.left.len() == 0 ==> addresses_read(scan, memory).len() == 0,
    decreases scan.left.len(), scan.left[0].1 - scan.address(),
{
    if scan.left.len() > 0 {
        let from = scan.address();
        let to = from + scan.length;
        let end = scan.left[0].1 as int;
        let bytes = memory_between(memory, from, to);
        law_reads_stay_in_their_range(scan, bytes);
        let after = scan.read(bytes);
        lemma_addresses_read(after, memory);
        assert(addresses_read(scan, memory) == addresses(from, to) + addresses_read(after, memory));
        if to < end {
            assert(addresses(from, to) + addresses(to, end) =~= addresses(from, end));
            assert(addresses(from, to) + (addresses(to, end) + all_addresses(scan.left.skip(1)))
                =~= addresses(from, end) + all_addresses(scan.left.skip(1)));
        } else {
            assert(addresses_read(after, memory) =~= all_addresses(scan.left.skip(1)));
        }
    }
}

/// A scan whose reads all succeed brings up every place of every range where the
/// identifier stands, and no other.
pub proof fn law_scan_finds_every_identifier(
    ranges: Seq<(u64, u64)>,
    memory: spec_fn(int) -> u8,
    address: u64,
)
    requires
        all_filled(ranges),
    ensures
        candidates_found(ScanView::start(ranges), memory).contains(address) <==> exists|i: int|
            0 <= i < ranges.len() && #[trigger] identifier_stands(
                memory,
                ranges[i],
                address as int,
            ),
{
    let scan = ScanView::start(ranges);
    let found = candidates_found(scan, memory);
    assert(scan.stays_in_range());
    if ranges.len() > 0 {
        assert(scan.seen =~= memory_between(memory, ranges[0].0 as int, scan.address()));
    }
    if exists|i: int|
        0 <= i < ranges.len() && #[trigger] identifier_stands(memory, ranges[i], address as int) {
        let i = choose|i: int|
            0 <= i < ranges.len() && #[trigger] identifier_stands(memory, ranges[i], address as int);
        lemma_candidates_are_complete(scan, memory, i, address as int);
    }
    if found.contains(address) {
        let j = choose|j: int| 0 <= j < found.len() && found[j] == address;
        lemma_candidates_are_sound(scan, memory, j);
    }
}

/// The identifier stands in what was read where it stands in memory.
proof fn lemma_occurs_in_memory(memory: spec_fn(int) -> u8, from: int, to: int, place: int)
    requires
        0 <= place,
        from + place + 16 <= to,
    ensures
        occurs_at(memory_between(memory, from, to), rtt_magic(), place) <==> memory_between(
            memory,
            from + place,
            from + place + 16,
        ) == rtt_magic(),
{
    assert(memory_between(memory, from, to).subrange(place, place + 16) =~= memory_between(
        memory,
        from + place,
        from + place + 16,
    ));
}

proof fn lemma_seen_grows(scan: ScanView, memory: spec_fn(int) -> u8)
    requires
        scan.stays_in_range(),
        scan.left.len() > 0,
        scan.seen == memory_between(memory, scan.left[0].0 as int, scan.address()),
    ensures
        ({
            let bytes = memory_between(memory, scan.address(), scan.address() + scan.length);
            let after = scan.read(bytes);
            &&& bytes.len() == scan.length
            &&& after.stays_in_range()
            &&& scan.seen + bytes == memory_between(
                memory,
                scan.left[0].0 as int,
                scan.address() + scan.length,
            )
            &&& after.left.len() > 0 ==> after.seen == memory_between(
                memory,
                after.left[0].0 as int,
                after.address(),
            )
            &&& candidates_found(scan, memory) == scan.candidates(bytes) + candidates_found(
                after,
                memory,
            )
        }),
{
    let bytes = memory_between(memory, scan.address(), scan.address() + scan.length);
    law_reads_stay_in_their_range(scan, bytes);
    let after = scan.read(bytes);
    assert(scan.seen + bytes =~= memory_between(
        memory,
        scan.left[0].0 as int,
        scan.address() + scan.length,
    ));
    if after.left.len() > 0 {
        assert(after.seen =~= memory_between(memory, after.left[0].0 as int, after.address()));
    }
}

proof fn lemma_candidates_are_complete(
    scan: ScanView,
    memory: spec_fn(int) -> u8,
    i: int,
    address: int,
)
    requires
        scan.stays_in_range(),
        0 <= i < scan.left.len(),
        scan.seen == memory_between(memory, scan.left[0].0 as int, scan.address()),
        identifier_stands(memory, scan.left[i], address),
        i == 0 ==> address + 16 > scan.address(),
    ensures
        candidates_found(scan, memory).contains(address as u64),
    decreases scan.left.len(), scan.left[0].1 - scan.address(),
{
    let bytes = memory_between(memory, scan.address(), scan.address() + scan.length);
    let base = scan.left[0].0;
    let to = scan.address() + scan.length;
    let all = scan.seen + bytes;
    let now = scan.candidates(bytes);
    let after = scan.read(bytes);
    lemma_seen_grows(scan, memory);
    let rest = candidates_found(after, memory);
    if i == 0 && address + 16 <= to {
        let from = looked_again_from(scan.seen.len() as int);
        lemma_occurs_in_memory(memory, base as int, to, address - base);
        lemma_hits_are_complete(all, from, all.len() as int, address - base);
        let places = hits(all, from, all.len() as int);
        let j = choose|j: int| 0 <= j < places.len() && places[j] == address - base;
        assert(now[j] == address as u64);
        assert((now + rest)[j] == address as u64);
    } else {
        if to < scan.left[0].1 {
            assert(after.left == scan.left);
            lemma_candidates_are_complete(after, memory, i, address);
        } else {
            assert(after.left == scan.left.skip(1));
            assert(after.left[i - 1] == scan.left[i]);
            lemma_candidates_are_complete(after, memory, i - 1, address);
        }
        let j = choose|j: int| 0 <= j < rest.len() && rest[j] == address as u64;
        assert((now + rest)[now.len() + j] == address as u64);
    }
}

proof fn lemma_candidates_are_sound(scan: ScanView, memory: spec_fn(int) -> u8, j: int)
    requires
        scan.stays_in_range(),
        scan.left.len() > 0 ==> scan.seen == memory_between(
            memory,
            scan.left[0].0 as int,
            scan.address(),
        ),
        0 <= j < candidates_found(scan, memory).len(),
    ensures
        exists|i: int|
            0 <= i < scan.left.len() && #[trigger] identifier_stands(
                memory,
                scan.left[i],
                candidates_found(scan, memory)[j] as int,
            ),
    decreases scan.left.len(), scan.left[0].1 - scan.address(),
{
    assert(scan.left.len() > 0);
    let bytes = memory_between(memory, scan.address(), scan.address() + scan.length);
    let base = scan.left[0].0;
    let to = scan.address() + scan.length;
    let all = scan.seen + bytes;
    let now = scan.candidates(bytes);
    let after = scan.read(bytes);
    lemma_seen_grows(scan, memory);
    let rest = candidates_found(after, memory);
    let address = candidates_found(scan, memory)[j] as int;
    if j < now.len() {
        let from = looked_again_from(scan.seen.len() as int);
        let places = hits(all, from, all.len() as int);
        lemma_hits_hold(all, from, all.len() as int);
        let place = places[j];
        assert(from <= place && occurs_at(all, rtt_magic(), place));
        assert(address == base + place);
        lemma_occurs_in_memory(memory, base as int, to, place);
        assert(identifier_stands(memory, scan.left[0], address));
    } else {
        assert(address == rest[j - now.len()]);
        lemma_candidates_are_sound(after, memory, j - now.len());
        let k = choose|k: int|
            0 <= k < after.left.len() && #[trigger] identifier_stands(
                memory,
                after.left[k],
                address,
            );
        if to < scan.left[0].1 {
            assert(identifier_stands(memory, scan.left[k], address));
        } else {
            assert(after.left[k] == scan.left[k + 1]);
            assert(identifier_stands(memory, scan.left[k + 1], address));
        }
    }
}

/// Of ranges, those that hold something are scanned, in their order.
pub proof fn law_filled_ranges_keep_their_order(
    first: Seq<(u64, u64)>,
    range: (u64, u64),
    second: Seq<(u64, u64)>,
)
    ensures
        filled_ranges(first + second) == filled_ranges(first) + filled_ranges(second),
        range.0 < range.1 ==> filled_ranges(seq![range]) == seq![range],
        range.0 >= range.1 ==> filled_ranges(seq![range]).len() == 0,
        all_filled(filled_ranges(first)),
    decreases second.len(), first.len(),
{
    reveal_with_fuel(filled_ranges, 2);
    assert(seq![range].drop_last() =~= Seq::<(u64, u64)>::empty());
    if second.len() == 0 {
        assert(first + second =~= first);
        if first.len() > 0 {
            law_filled_ranges_keep_their_order(first.drop_last(), range, second);
        }
    } else {
        law_filled_ranges_keep_their_order(first, range, second.drop_last());
        assert((first + second).drop_last() =~= first + second.drop_last());
        assert(filled_ranges(first + second) =~= filled_ranges(first) + filled_ranges(second));
    }
    assert(range.0 < range.1 ==> filled_ranges(seq![range]) =~= seq![range]);
}

/// Of a target's RAM, the stretches that are no aliases are scanned, from start to
/// end and in their order.
pub proof fn law_own_ram_keeps_its_order(
    first: Seq<RamRegion>,
    region: RamRegion,
    second: Seq<RamRegion>,
)
    ensures
        own_ram(first + second) == own_ram(first) + own_ram(second),
        own_ram(seq![region]) == (if region.is_alias {
            Seq::empty()
        } else {
            seq![(region.start, region.end)]
        }),
    decreases second.len(),
{
    reveal_with_fuel(own_ram, 2);
    assert(seq![region].drop_last() =~= Seq::<RamRegion>::empty());
    assert(own_ram(seq![region]) =~= (if region.is_alias {
        Seq::empty()
    } else {
        seq![(region.start, region.end)]
    }));
    if second.len() == 0 {
        assert(first + second =~= first);
        assert(own_ram(first) + own_ram(second) =~= own_ram(first));
    } else {
        law_own_ram_keeps_its_order(first, region, second.drop_last());
        assert((first + second).drop_last() =~= first + second.drop_last());
        assert(own_ram(first + second) =~= own_ram(first) + own_ram(second));
    }
}

/// A search at one address tries that address, and its outcome ends the search.
pub proof fn law_exact_search_tries_its_address(
    address: u64,
    ram: Seq<RamRegion>,
    failure: AttachFailure,
)
    ensures
        ({
            let search = SearchView::start(RegionView::Exact(address), ram);
            &&& search.next() == SearchStep::AttachExact(address)
            &&& search.attach_done(Ok(())).next() == SearchStep::End(SearchEnd::Attached)
            &&& search.attach_done(Err(failure)).next() == SearchStep::End(SearchEnd::Failed)
        }),
{
}

/// A search through ranges begins with the first bytes of the first range that holds
/// something. Without ranges there is no place to look at; where all are empty,
/// nothing is found.
pub proof fn law_search_begins_with_the_first_range(
    ranges: Seq<(u64, u64)>,
    ram: Seq<RamRegion>,
)
    ensures
        ({
            let search = SearchView::start(RegionView::Ranges(ranges), ram);
            let filled = filled_ranges(ranges);
            if ranges.len() == 0 {
                search.next() == SearchStep::End(SearchEnd::NoLocation)
            } else if filled.len() == 0 {
                search.next() == SearchStep::End(SearchEnd::NotFound)
            } else {
                let (start, end) = filled[0];
                let length: int = if end - start < 32768 {
                    end - start
                } else {
                    32768
                };
                search.next() == (SearchStep::Read { address: start, length: length as usize })
            }
        }),
{
}

/// A search through the RAM of a target is one through the stretches that are no
/// aliases.
pub proof fn law_ram_is_searched_by_its_ranges(ram: Seq<RamRegion>)
    ensures
        SearchView::start(RegionView::Ram, ram) == SearchView::start(
            RegionView::Ranges(own_ram(ram)),
            ram,
        ),
{
}

/// Bytes that were read are searched at once: the addresses where an identifier ends
/// in them are tried, the first of them first, and where there is none the scan goes
/// on. A read that failed leaves nothing to try, and the scan goes on.
pub proof fn law_search_tries_what_it_reads(search: SearchView, scan: ScanView, bytes: Seq<u8>)
    requires
        search.next() is Read,
        search.scan == Some(scan),
    ensures
        ({
            let after = search.read_done(bytes);
            let found = scan.candidates(bytes);
            &&& after.scan == Some(scan.read(bytes))
            &&& found.len() > 0 ==> after.next() == SearchStep::Attach(found[0])
            &&& after.pending == found
            &&& found.len() == 0 ==> after.next() == (match scan.read(bytes).due() {
                Some((address, length)) => SearchStep::Read { address, length },
                None => SearchStep::End(SearchEnd::NotFound),
            })
        }),
        search.next() == (SearchStep::Read {
            address: (scan.left[0].0 + scan.seen.len()) as u64,
            length: scan.length as usize,
        }),
        search.read_failed().scan == Some(scan.failed()),
        search.read_failed().next() == (match scan.failed().due() {
            Some((address, length)) => SearchStep::Read { address, length },
            None => SearchStep::End(SearchEnd::NotFound),
        }),
{
}

/// An attempt to attach is made again as long as the time is not over, whatever
/// failed, but never where there is no place to look at.
pub proof fn law_attaching_is_retried_in_time(
    failure: AttachFailure,
    elapsed: u128,
    timeout: u128,
    retried: bool,
)
    requires
        call_ensures(attach_is_retried, (failure, elapsed, timeout), retried),
    ensures
        failure == AttachFailure::NoControlBlockLocation ==> !retried,
        failure != AttachFailure::NoControlBlockLocation && elapsed < timeout ==> retried,
        elapsed >= timeout ==> !retried,
{
}

/// The region of an ELF file comes before the one that was asked for, and that before
/// the target's own; only the last is found without anyone's asking. Where both of the
/// first two are there, the user is told that theirs is not used.
pub proof fn law_regions_have_an_order(
    elf: Option<&ScanRegion>,
    requested: Option<&ScanRegion>,
    own: &ScanRegion,
    resolved: (ScanRegion, bool),
    notice: Option<&'static str>,
)
    requires
        call_ensures(resolve_scan_region, (elf, requested, own), resolved),
        call_ensures(ignored_region_notice, (elf, requested), notice),
    ensures
        elf matches Some(region) ==> resolved.0@ == region@ && !resolved.1,
        elf is None ==> (requested matches Some(region) ==> resolved.0@ == region@ && !resolved.1),
        elf is None && requested is None ==> resolved.0@ == own@ && resolved.1,
        notice is Some <==> elf is Some && requested is Some,
        notice matches Some(text) ==> text@
            == "Ignoring --scan-region because --elf provides _SEGGER_RTT."@,
{
}

} // verus!
