//! Decoding of binary block-I/O trace records into events, and the
//! time-ordered event stream built from them.
use vstd::prelude::*;

verus! {

/// Size in bytes of one disk sector.
pub const SECTOR_SIZE: u32 = 512;

/// Size in bytes of one fixed-size trace record header.
pub const RECORD_SIZE: usize = 48;

/// What happened to a request, as recorded in the low half of a record's
/// packed action word.
#[derive(Clone, Copy, Debug, PartialEq, Eq, Structural)]
pub enum Action {
    Other,
    Queue,
    Backmerge,
    Frontmerge,
    GetRQ,
    SleepRQ,
    Requeue,
    Issue,
    Complete,
    Plug,
    UnplugIO,
    UnplugTimer,
    Insert,
    Split,
    Bounce,
    Remap,
    Abort,
    DrvData,
}

/// The action that a numeric action code stands for, if any.
pub open spec fn action_of(code: u32) -> Option<Action> {
    if code == 0 {
        Some(Action::Other)
    } else if code == 1 {
        Some(Action::Queue)
    } else if code == 2 {
        Some(Action::Backmerge)
    } else if code == 3 {
        Some(Action::Frontmerge)
    } else if code == 4 {
        Some(Action::GetRQ)
    } else if code == 5 {
        Some(Action::SleepRQ)
    } else if code == 6 {
        Some(Action::Requeue)
    } else if code == 7 {
        Some(Action::Issue)
    } else if code == 8 {
        Some(Action::Complete)
    } else if code == 9 {
        Some(Action::Plug)
    } else if code == 10 {
        Some(Action::UnplugIO)
    } else if code == 11 {
        Some(Action::UnplugTimer)
    } else if code == 12 {
        Some(Action::Insert)
    } else if code == 13 {
        Some(Action::Split)
    } else if code == 14 {
        Some(Action::Bounce)
    } else if code == 15 {
        Some(Action::Remap)
    } else if code == 16 {
        Some(Action::Abort)
    } else if code == 17 {
        Some(Action::DrvData)
    } else {
        None
    }
}

impl Action {
    /// The numeric code of an action on the wire.
    pub open spec fn code_spec(self) -> u32 {
        match self {
            Action::Other => 0,
            Action::Queue => 1,
            Action::Backmerge => 2,
            Action::Frontmerge => 3,
            Action::GetRQ => 4,
            Action::SleepRQ => 5,
            Action::Requeue => 6,
            Action::Issue => 7,
            Action::Complete => 8,
            Action::Plug => 9,
            Action::UnplugIO => 10,
            Action::UnplugTimer => 11,
            Action::Insert => 12,
            Action::Split => 13,
            Action::Bounce => 14,
            Action::Remap => 15,
            Action::Abort => 16,
            Action::DrvData => 17,
        }
    }

    /// Looks up the action for a numeric code; codes above 17 have none.
    pub fn from_code(code: u32) -> (r: Option<Action>)
        ensures
            r == action_of(code),
    {
        match code {
            0 => Some(Action::Other),
            1 => Some(Action::Queue),
            2 => Some(Action::Backmerge),
            3 => Some(Action::Frontmerge),
            4 => Some(Action::GetRQ),
            5 => Some(Action::SleepRQ),
            6 => Some(Action::Requeue),
            7 => Some(Action::Issue),
            8 => Some(Action::Complete),
            9 => Some(Action::Plug),
            10 => Some(Action::UnplugIO),
            11 => Some(Action::UnplugTimer),
            12 => Some(Action::Insert),
            13 => Some(Action::Split),
            14 => Some(Action::Bounce),
            15 => Some(Action::Remap),
            16 => Some(Action::Abort),
            17 => Some(Action::DrvData),
            _ => None,
        }
    }
}

/// Every action is decoded back from its own code, and exactly the codes
/// 0 through 17 decode to an action.
pub proof fn lemma_action_code_round_trip(a: Action, code: u32)
    ensures
        action_of(a.code_spec()) == Some(a),
        action_of(code) is Some <==> code <= 17,
        action_of(code) is Some ==> action_of(code).unwrap().code_spec() == code,
{
}

/// Category bit: reads.
pub const READ: u16 = 1;
/// Category bit: writes.
pub const WRITE: u16 = 2;
/// Category bit: flush.
pub const FLUSH: u16 = 4;
/// Category bit: synchronous I/O.
pub const SYNC: u16 = 8;
/// Category bit: queueing and merging.
pub const QUEUE: u16 = 16;
/// Category bit: requeueing.
pub const REQUEUE: u16 = 32;
/// Category bit: issue.
pub const ISSUE: u16 = 64;
/// Category bit: completions.
pub const COMPLETE: u16 = 128;
/// Category bit: file-system requests.
pub const FS: u16 = 256;
/// Category bit: packet-command requests.
pub const PC: u16 = 512;
/// Category bit: special message.
pub const NOTIFY: u16 = 1024;
/// Category bit: readahead.
pub const AHEAD: u16 = 2048;
/// Category bit: metadata.
pub const META: u16 = 4096;
/// Category bit: discard requests.
pub const DISCARD: u16 = 8192;
/// Category bit: binary per-driver data.
pub const DRV_DATA: u16 = 16384;
/// Category bit: forced unit access.
pub const FUA: u16 = 32768;

/// A set of category bits, held in the high half of a record's packed
/// action word.
#[derive(Clone, Copy, Debug, PartialEq, Eq, Structural)]
pub struct Category {
    pub bits: u16,
}

/// The category that a wider bit pattern decodes to: bits above the
/// sixteen defined ones are dropped.
pub open spec fn category_of(bits: u32) -> Category {
    Category { bits: (bits % 65536) as u16 }
}

impl Category {
    /// Keeps the sixteen defined category bits of `bits` and drops the rest.
    pub fn from_bits_truncate(bits: u32) -> (r: Category)
        ensures
            r == category_of(bits),
    {
        Category { bits: (bits % 65536) as u16 }
    }

    /// Whether every bit of `flags` is set.
    pub fn contains(&self, flags: u16) -> (r: bool)
        ensures
            r == (self.bits & flags == flags),
    {
        self.bits & flags == flags
    }

    /// Whether any bit of `flags` is set.
    pub fn intersects(&self, flags: u16) -> (r: bool)
        ensures
            r == (self.bits & flags != 0),
    {
        self.bits & flags != 0
    }

    /// The set holding the bits of both sets.
    pub fn union(&self, other: Category) -> (r: Category)
        ensures
            r.bits == self.bits | other.bits,
    {
        Category { bits: self.bits | other.bits }
    }
}

/// Decoding a category keeps it unchanged when repeated, and bits above the
/// sixteen defined ones never change the result.
pub proof fn lemma_category_truncating(bits: u32, high: u32)
    requires
        bits as int + high as int * 65536 <= u32::MAX,
    ensures
        category_of(category_of(bits).bits as u32) == category_of(bits),
        category_of((bits + high * 65536) as u32) == category_of(bits),
        category_of(bits) == category_of(bits % 65536),
{
    assert((bits + high * 65536) % 65536 == bits % 65536) by (nonlinear_arith);
}

/// The opaque payload attached to a record.
#[derive(Clone, Debug, PartialEq, Eq)]
pub struct EventPDU {
    pub data: Vec<u8>,
}

/// One decoded trace record.
#[derive(Clone, Debug, PartialEq, Eq)]
pub struct Event {
    pub sequence: u32,
    pub time: u64,
    pub sector: u64,
    pub bytes: u32,
    pub action: Action,
    pub category: Category,
    pub pid: u32,
    pub device: u32,
    pub cpu: u32,
    pub error: u16,
    pub pdu: Option<EventPDU>,
}

/// The mathematical value of an event: its fields, with the payload as a
/// sequence of bytes.
pub struct EventView {
    pub sequence: u32,
    pub time: u64,
    pub sector: u64,
    pub bytes: u32,
    pub action: Action,
    pub category: Category,
    pub pid: u32,
    pub device: u32,
    pub cpu: u32,
    pub error: u16,
    pub pdu: Option<Seq<u8>>,
}

impl View for Event {
    type V = EventView;

    open spec fn view(&self) -> EventView {
        EventView {
            sequence: self.sequence,
            time: self.time,
            sector: self.sector,
            bytes: self.bytes,
            action: self.action,
            category: self.category,
            pid: self.pid,
            device: self.device,
            cpu: self.cpu,
            error: self.error,
            pdu: match self.pdu {
                Some(p) => Some(p.data@),
                None => None,
            },
        }
    }
}

/// The views of a sequence of events.
pub open spec fn events_view(s: Seq<Event>) -> Seq<EventView> {
    s.map_values(|e: Event| e@)
}

/// Number of whole sectors needed to hold `bytes` bytes.
pub open spec fn sectors_for(bytes: u32) -> int {
    (bytes as int + 511) / 512
}

/// The sector just past the data of a transfer starting at `sector`.
pub open spec fn ending_sector_of(sector: u64, bytes: u32) -> int {
    sector + sectors_for(bytes)
}

/// The end of the sectors an event is drawn over: at least one sector, even
/// for a transfer of zero bytes.
pub open spec fn drawn_end_of(sector: u64, bytes: u32) -> int {
    if ending_sector_of(sector, bytes) > sector + 1 {
        ending_sector_of(sector, bytes)
    } else {
        sector + 1
    }
}

/// Whether an event's ending sector fits in 64 bits.
pub open spec fn ending_fits(e: Event) -> bool {
    ending_sector_of(e.sector, e.bytes) <= u64::MAX
}

impl Event {
    /// The sector just past this event's data: its start plus the number of
    /// sectors its bytes occupy, rounded up.
    pub fn ending_sector(&self) -> (r: u64)
        requires
            ending_fits(*self),
        ensures
            r == ending_sector_of(self.sector, self.bytes),
    {
        self.sector + ((self.bytes as u64 + 511) / 512)
    }
}

/// A transfer of at least one byte ends past its first sector, and every
/// event is drawn over at least one sector.
pub proof fn lemma_ending_sector_past_start(sector: u64, bytes: u32)
    ensures
        bytes > 0 ==> ending_sector_of(sector, bytes) >= sector + 1,
        drawn_end_of(sector, bytes) >= sector + 1,
        drawn_end_of(sector, bytes) >= ending_sector_of(sector, bytes),
{
}

/// A little-endian 16-bit value at offset `i`.
pub open spec fn u16_at(b: Seq<u8>, i: int) -> u16 {
    (b[i] as int + b[i + 1] as int * 256) as u16
}

/// A little-endian 32-bit value at offset `i`.
pub open spec fn u32_at(b: Seq<u8>, i: int) -> u32 {
    (b[i] as int + b[i + 1] as int * 256 + b[i + 2] as int * 65536 + b[i + 3] as int
        * 16777216) as u32
}

/// A little-endian 64-bit value at offset `i`.
pub open spec fn u64_at(b: Seq<u8>, i: int) -> u64 {
    (u32_at(b, i) as int + u32_at(b, i + 4) as int * 4294967296) as u64
}

fn read_u16(b: &[u8], i: usize) -> (r: u16)
    requires
        i + 2 <= b@.len(),
    ensures
        r == u16_at(b@, i as int),
{
    b[i] as u16 + b[i + 1] as u16 * 256
}

fn read_u32(b: &[u8], i: usize) -> (r: u32)
    requires
        i + 4 <= b@.len(),
    ensures
        r == u32_at(b@, i as int),
{
    b[i] as u32 + b[i + 1] as u32 * 256 + b[i + 2] as u32 * 65536 + b[i + 3] as u32 * 16777216
}

fn read_u64(b: &[u8], i: usize) -> (r: u64)
    requires
        i + 8 <= b@.len(),
    ensures
        r == u64_at(b@, i as int),
{
    let n = b.len();
    let lo = read_u32(b, i);
    let hi = read_u32(b, i + 4);
    lo as u64 + hi as u64 * 4294967296
}

/// The action code held in the low half of a packed action word.
pub open spec fn action_code_of(packed: u32) -> u32 {
    packed % 65536
}

/// Payload length of the record whose header starts at `pos`.
pub open spec fn pdu_len_at(b: Seq<u8>, pos: int) -> int {
    u16_at(b, pos + 46) as int
}

/// The event that the record at `pos` decodes to, given its action.
pub open spec fn record_view(b: Seq<u8>, pos: int, action: Action) -> EventView {
    EventView {
        sequence: u32_at(b, pos + 4),
        time: u64_at(b, pos + 8),
        sector: u64_at(b, pos + 16),
        bytes: u32_at(b, pos + 24),
        action,
        category: category_of(u32_at(b, pos + 28) / 65536),
        pid: u32_at(b, pos + 32),
        device: u32_at(b, pos + 36),
        cpu: u32_at(b, pos + 40),
        error: u16_at(b, pos + 44),
        pdu: if pdu_len_at(b, pos) == 0 {
            None
        } else {
            Some(b.subrange(pos + 48, pos + 48 + pdu_len_at(b, pos)))
        },
    }
}

/// Why a buffer could not be decoded.
#[derive(Clone, Copy, Debug, PartialEq, Eq, Structural)]
pub enum DecodeError {
    /// A record's action code names no action.
    InvalidAction(u32),
}

/// Decoding of the records from offset `pos` on, after the events `acc`:
/// the events and the offset where decoding stopped, or the first error.
/// Decoding stops silently where a header or its payload runs past the end.
pub open spec fn decode_from(b: Seq<u8>, pos: int, acc: Seq<EventView>) -> Result<
    (Seq<EventView>, int),
    DecodeError,
>
    decreases b.len() - pos,
{
    if pos < 0 || pos + 48 > b.len() {
        Ok((acc, pos))
    } else {
        let code = action_code_of(u32_at(b, pos + 28));
        match action_of(code) {
            None => Err(DecodeError::InvalidAction(code)),
            Some(a) => {
                let next = pos + 48 + pdu_len_at(b, pos);
                if next > b.len() {
                    Ok((acc, pos))
                } else {
                    decode_from(b, next, acc.push(record_view(b, pos, a)))
                }
            },
        }
    }
}

/// Decoding of a whole buffer.
pub open spec fn decode(b: Seq<u8>) -> Result<(Seq<EventView>, int), DecodeError> {
    decode_from(b, 0, Seq::empty())
}

impl Event {
    /// Builds the event of the record whose header starts at `pos`.
    fn from_raw(b: &[u8], pos: usize, action: Action) -> (r: Event)
        requires
            pos + 48 <= b@.len(),
            pos + 48 + pdu_len_at(b@, pos as int) <= b@.len(),
        ensures
            r@ == record_view(b@, pos as int, action),
    {
        let n = b.len();
        let pdu_len = read_u16(b, pos + 46) as usize;
        let pdu = if pdu_len > 0 {
            let mut data: Vec<u8> = Vec::new();
            let start: usize = pos + 48;
            let mut i: usize = start;
            while i < start + pdu_len
                invariant
                    start == pos + 48,
                    pdu_len == pdu_len_at(b@, pos as int),
                    start <= i <= start + pdu_len,
                    start + pdu_len <= b@.len(),
                    n == b@.len(),
                    data@ == b@.subrange(start as int, i as int),
                decreases start + pdu_len - i,
            {
                data.push(b[i]);
                i = i + 1;
                assert(data@ =~= b@.subrange(start as int, i as int));
            }
            Some(EventPDU { data })
        } else {
            None
        };
        let packed = read_u32(b, pos + 28);
        Event {
            sequence: read_u32(b, pos + 4),
            time: read_u64(b, pos + 8),
            sector: read_u64(b, pos + 16),
            bytes: read_u32(b, pos + 24),
            action,
            category: Category::from_bits_truncate(packed / 65536),
            pid: read_u32(b, pos + 32),
            device: read_u32(b, pos + 36),
            cpu: read_u32(b, pos + 40),
            error: read_u16(b, pos + 44),
            pdu,
        }
    }
}

/// Decodes the records packed back to back in `b`, returning the events and
/// the number of bytes they take up. Trailing bytes too few for a whole
/// record are left over; an action code that names no action is an error.
pub fn parse(b: &[u8]) -> (r: Result<(Vec<Event>, usize), DecodeError>)
    ensures
        match (r, decode(b@)) {
            (Ok((events, n)), Ok((s, m))) => events_view(events@) == s && n == m,
            (Err(e), Err(f)) => e == f,
            _ => false,
        },
{
    let mut events: Vec<Event> = Vec::new();
    let mut pos: usize = 0;
    assert(events_view(events@) =~= Seq::<EventView>::empty());
    while b.len() - pos >= RECORD_SIZE
        invariant
            pos <= b@.len(),
            decode(b@) == decode_from(b@, pos as int, events_view(events@)),
        decreases b@.len() - pos,
    {
        let packed = read_u32(b, pos + 28);
        let code = packed % 65536;
        let action = match Action::from_code(code) {
            Some(a) => a,
            None => {
                return Err(DecodeError::InvalidAction(code));
            },
        };
        let pdu_len = read_u16(b, pos + 46) as usize;
        if b.len() - pos - RECORD_SIZE < pdu_len {
            return Ok((events, pos));
        }
        let event = Event::from_raw(b, pos, action);
        let ghost before = events_view(events@);
        events.push(event);
        assert(events_view(events@) =~= before.push(event@));
        pos = pos + RECORD_SIZE + pdu_len;
    }
    Ok((events, pos))
}

/// Whether a sequence of events is in ascending order of time.
pub open spec fn sorted_by_time(s: Seq<EventView>) -> bool {
    forall|i: int, j: int| 0 <= i < j < s.len() ==> s[i].time <= s[j].time
}

proof fn lemma_view_push(s: Seq<Event>, e: Event)
    ensures
        events_view(s.push(e)) == events_view(s).push(e@),
        events_view(s.push(e)).to_multiset() == events_view(s).to_multiset().insert(e@),
{
    assert(events_view(s.push(e)) =~= events_view(s).push(e@));
    vstd::seq_lib::to_multiset_build(events_view(s), e@);
}

proof fn lemma_view_insert(s: Seq<Event>, k: int, e: Event)
    requires
        0 <= k <= s.len(),
    ensures
        events_view(s.insert(k, e)) == events_view(s).insert(k, e@),
        events_view(s.insert(k, e)).to_multiset() == events_view(s).to_multiset().insert(e@),
{
    assert(events_view(s.insert(k, e)) =~= events_view(s).insert(k, e@));
    vstd::seq_lib::to_multiset_insert(events_view(s), k, e@);
}

/// The events of `v` in reverse order.
fn reversed(v: Vec<Event>) -> (r: Vec<Event>)
    ensures
        r@ == v@.reverse(),
{
    let ghost orig = v@;
    let mut rest = v;
    let mut r: Vec<Event> = Vec::new();
    while rest.len() > 0
        invariant
            rest@.len() <= orig.len(),
            rest@ == orig.subrange(0, rest@.len() as int),
            r@ == orig.subrange(rest@.len() as int, orig.len() as int).reverse(),
        decreases rest.len(),
    {
        let ghost n = rest@.len() as int;
        let e = rest.pop().unwrap();
        r.push(e);
        assert(rest@ =~= orig.subrange(0, n - 1));
        assert(r@ =~= orig.subrange(n - 1, orig.len() as int).reverse());
    }
    assert(r@ =~= orig.reverse());
    r
}

/// Whether `r` holds the events of `orig` at the distinct positions `pos`,
/// with events of equal time in their order in `orig`.
pub open spec fn stable_arrangement(orig: Seq<Event>, r: Seq<Event>, pos: Seq<int>) -> bool {
    &&& pos.len() == r.len()
    &&& forall|k: int| 0 <= k < r.len() ==> 0 <= #[trigger] pos[k] < orig.len() && r[k] == orig[pos[k]]
    &&& forall|a: int, b: int| 0 <= a < b < r.len() ==> pos[a] != pos[b]
    &&& forall|a: int, b: int|
        0 <= a < b < r.len() && r[a].time == r[b].time ==> pos[a] < pos[b]
}

/// Sorts events by time alone, into a rearrangement of the same events in
/// which events of equal time keep their relative order.
pub fn sort_by_time(events: Vec<Event>) -> (r: Vec<Event>)
    ensures
        sorted_by_time(events_view(r@)),
        events_view(r@).to_multiset() == events_view(events@).to_multiset(),
        exists|pos: Seq<int>| stable_arrangement(events@, r@, pos),
{
    let ghost orig = events@;
    let n = events.len();
    let mut rest = reversed(events);
    let mut r: Vec<Event> = Vec::new();
    let ghost mut pos: Seq<int> = Seq::empty();
    assert(events_view(r@) =~= Seq::<EventView>::empty());
    assert(orig.take(0) =~= Seq::<Event>::empty());
    while rest.len() > 0
        invariant
            n == orig.len(),
            r@.len() + rest@.len() == n,
            stable_arrangement(orig, r@, pos),
            forall|k: int| 0 <= k < r@.len() ==> #[trigger] pos[k] < r@.len(),
            rest@ == orig.subrange(r@.len() as int, n as int).reverse(),
            sorted_by_time(events_view(r@)),
            events_view(r@).to_multiset() == events_view(orig.take(r@.len() as int)).to_multiset(),
        decreases rest.len(),
    {
        let ghost i = r@.len() as int;
        let e = rest.pop().unwrap();
        assert(e == orig[i]);
        assert(rest@ =~= orig.subrange(i + 1, n as int).reverse());
        let t = e.time;
        let mut k = r.len();
        while k > 0 && r[k - 1].time > t
            invariant
                k <= r@.len(),
                forall|j: int| k <= j < r@.len() ==> r@[j].time > t,
            decreases k,
        {
            k = k - 1;
        }
        let ghost old_r = r@;
        proof {
            lemma_view_insert(old_r, k as int, e);
            assert(orig.take(i + 1) =~= orig.take(i).push(e));
            lemma_view_push(orig.take(i), e);
            assert forall|j: int| 0 <= j < k implies old_r[j].time <= t by {
                if j < k - 1 {
                    assert(events_view(old_r)[j].time <= events_view(old_r)[k - 1].time);
                }
            }
        }
        r.insert(k, e);
        proof {
            let old_pos = pos;
            pos = old_pos.insert(k as int, i);
            assert forall|a: int, b: int|
                0 <= a < b < r@.len() && r@[a].time == r@[b].time implies pos[a] < pos[b] by {
                if b < k {
                } else if b == k {
                } else if a < k {
                } else if a == k {
                    assert(r@[b].time > t);
                } else {
                }
            }
            assert forall|a: int, b: int| 0 <= a < b < r@.len() implies pos[a] != pos[b] by {
                if b < k {
                } else if b == k {
                } else if a < k {
                } else if a == k {
                } else {
                }
            }
            let s = events_view(r@);
            let o = events_view(old_r);
            assert forall|a: int, b: int| 0 <= a < b < s.len() implies s[a].time <= s[b].time by {
                if b < k {
                    assert(o[a].time <= o[b].time);
                } else if b == k {
                } else if a < k {
                    assert(old_r[a].time <= t);
                } else if a == k {
                } else {
                    assert(o[a - 1].time <= o[b - 1].time);
                }
            }
        }
    }
    assert(orig.take(n as int) =~= orig);
    assert(stable_arrangement(orig, r@, pos));
    r
}

/// Re-sorting two sorted runs laid end to end gives one run, in time order,
/// that holds every event of both and nothing else.
pub proof fn lemma_sorted_merge(a: Seq<EventView>, b: Seq<EventView>, r: Seq<EventView>)
    requires
        sorted_by_time(a),
        sorted_by_time(b),
        sorted_by_time(r),
        r.to_multiset() == (a + b).to_multiset(),
    ensures
        r.len() == a.len() + b.len(),
        forall|x: EventView| r.contains(x) <==> (a.contains(x) || b.contains(x)),
        forall|i: int, j: int| 0 <= i < j < r.len() ==> r[i].time <= r[j].time,
{
    vstd::seq_lib::to_multiset_len(r);
    vstd::seq_lib::to_multiset_len(a + b);
    assert forall|x: EventView| r.contains(x) <==> (a.contains(x) || b.contains(x)) by {
        vstd::seq_lib::to_multiset_contains(r, x);
        vstd::seq_lib::to_multiset_contains(a + b, x);
        if a.contains(x) {
            let i = choose|i: int| 0 <= i < a.len() && a[i] == x;
            assert((a + b)[i] == x);
        }
        if b.contains(x) {
            let i = choose|i: int| 0 <= i < b.len() && b[i] == x;
            assert((a + b)[a.len() + i] == x);
        }
        if (a + b).contains(x) {
            let i = choose|i: int| 0 <= i < (a + b).len() && (a + b)[i] == x;
            if i < a.len() {
                assert(a[i] == x);
            } else {
                assert(b[i - a.len()] == x);
            }
        }
    }
}

/// Whether an event is drawn: a completion of a read or a write.
pub open spec fn is_rendered(e: EventView) -> bool {
    e.action == Action::Complete && e.category.bits & (READ | WRITE) != 0
}

/// The drawn-event test as a predicate.
pub open spec fn rendered() -> spec_fn(EventView) -> bool {
    |e: EventView| is_rendered(e)
}

/// The events that are drawn, in their order: completions of reads and
/// writes.
pub fn complete_events(events: Vec<Event>) -> (r: Vec<Event>)
    ensures
        events_view(r@) == events_view(events@).filter(rendered()),
{
    let ghost orig = events@;
    let n = events.len();
    let mut rest = reversed(events);
    let mut r: Vec<Event> = Vec::new();
    let mut i: usize = 0;
    proof {
        assert(events_view(orig.take(0)) =~= Seq::<EventView>::empty());
        assert(events_view(r@) =~= Seq::<EventView>::empty());
        assert(Seq::<EventView>::empty().filter(rendered()) =~= Seq::<EventView>::empty()) by {
            Seq::<EventView>::empty().lemma_filter_len(rendered());
        }
    }
    while rest.len() > 0
        invariant
            n == orig.len(),
            i + rest@.len() == n,
            rest@ == orig.subrange(i as int, n as int).reverse(),
            events_view(r@) == events_view(orig.take(i as int)).filter(rendered()),
        decreases rest.len(),
    {
        let e = rest.pop().unwrap();
        assert(e == orig[i as int]);
        assert(rest@ =~= orig.subrange(i + 1, n as int).reverse());
        proof {
            assert(orig.take(i + 1) =~= orig.take(i as int).push(e));
            lemma_view_push(orig.take(i as int), e);
            events_view(orig.take(i as int)).lemma_filter_push(e@, rendered());
        }
        let keep = e.action == Action::Complete && e.category.intersects(READ | WRITE);
        assert(keep == is_rendered(e@));
        assert(rendered()(e@) == is_rendered(e@));
        if keep {
            proof {
                lemma_view_push(r@, e);
            }
            r.push(e);
        }
        i = i + 1;
    }
    assert(orig.take(n as int) =~= orig);
    r
}

/// The decoding of several buffers, one after the other: all their events
/// in buffer order, or the error of the first buffer that fails.
pub open spec fn decode_all(bufs: Seq<Seq<u8>>) -> Result<Seq<EventView>, DecodeError>
    decreases bufs.len(),
{
    if bufs.len() == 0 {
        Ok(Seq::empty())
    } else {
        match decode_all(bufs.drop_last()) {
            Err(e) => Err(e),
            Ok(s) => match decode(bufs.last()) {
                Err(e) => Err(e),
                Ok((t, _)) => Ok(s + t),
            },
        }
    }
}

/// The byte sequences of a list of buffers.
pub open spec fn buffers_view(data: Seq<Vec<u8>>) -> Seq<Seq<u8>> {
    data.map_values(|v: Vec<u8>| v@)
}

proof fn lemma_decode_all_error(bufs: Seq<Seq<u8>>, i: int)
    requires
        0 <= i <= bufs.len(),
        decode_all(bufs.take(i)) is Err,
    ensures
        decode_all(bufs) == decode_all(bufs.take(i)),
    decreases bufs.len() - i,
{
    if i == bufs.len() {
        assert(bufs.take(i) =~= bufs);
    } else {
        assert(bufs.take(i + 1).drop_last() =~= bufs.take(i));
        lemma_decode_all_error(bufs, i + 1);
    }
}

/// All events of one or more trace buffers, in ascending order of time.
pub struct Trace {
    pub events: Vec<Event>,
}

impl Trace {
    /// Decodes each buffer on its own, then gathers all their events and
    /// sorts them by time. Fails with the error of the first buffer that
    /// holds an action code naming no action.
    pub fn new(data: Vec<Vec<u8>>) -> (r: Result<Trace, DecodeError>)
        ensures
            match (r, decode_all(buffers_view(data@))) {
                (Ok(t), Ok(s)) => sorted_by_time(events_view(t.events@)) && events_view(
                    t.events@,
                ).to_multiset() == s.to_multiset(),
                (Err(e), Err(f)) => e == f,
                _ => false,
            },
    {
        let ghost bufs = buffers_view(data@);
        let mut all: Vec<Event> = Vec::new();
        let mut i: usize = 0;
        assert(bufs.take(0) =~= Seq::<Seq<u8>>::empty());
        assert(events_view(all@) =~= Seq::<EventView>::empty());
        while i < data.len()
            invariant
                bufs == buffers_view(data@),
                i <= data@.len(),
                decode_all(bufs.take(i as int)) == Ok::<Seq<EventView>, DecodeError>(
                    events_view(all@),
                ),
            decreases data@.len() - i,
        {
            assert(bufs.take(i + 1).drop_last() =~= bufs.take(i as int));
            assert(bufs.take(i + 1).last() == data@[i as int]@);
            match parse(data[i].as_slice()) {
                Err(e) => {
                    proof {
                        lemma_decode_all_error(bufs, i + 1);
                    }
                    return Err(e);
                },
                Ok((mut evs, _)) => {
                    let ghost a = all@;
                    let ghost b = evs@;
                    all.append(&mut evs);
                    assert(events_view(all@) =~= events_view(a) + events_view(b));
                },
            }
            i = i + 1;
        }
        assert(bufs.take(data@.len() as int) =~= bufs);
        let events = sort_by_time(all);
        Ok(Trace { events })
    }
}

} // verus!
