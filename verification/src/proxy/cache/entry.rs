//! One cached file: its name, when it was last fetched from the server,
//! whether it holds writes the server has not seen, and its bytes.
//!
//! A read that the entry can answer is answered from `data`; otherwise
//! the file is fetched again, after the entry's own writes have been
//! sent to the server. The fetching is I/O; what the entry keeps of its
//! outcome is decided here.
use vstd::prelude::*;
use vstd::slice::{slice_subrange, slice_to_vec};

verus! {

/// An entry is stale an hour after it was last fetched.
pub const STALE_AFTER_NANOS: i128 = 3_600_000_000_000i128;

/// `SystemTime::now().duration_since(UNIX_EPOCH)`, read as whether the
/// clock stands before the epoch, and its distance from the epoch in whole
/// seconds and the nanoseconds past them (std documents that the latter
/// are fewer than a billion). Nothing else is promised: the clock may
/// stand still or go back.
#[verifier::external_body]
fn system_clock() -> (r: (bool, u64, u32))
    ensures
        r.2 < 1_000_000_000,
{
    match std::time::SystemTime::now().duration_since(std::time::UNIX_EPOCH) {
        Ok(d) => (false, d.as_secs(), d.subsec_nanos()),
        Err(e) => (true, e.duration().as_secs(), e.duration().subsec_nanos()),
    }
}

/// The nanoseconds from the Unix epoch to a time `secs` seconds and
/// `nanos` nanoseconds after it (or before it, where `before`).
pub open spec fn epoch_nanos(before: bool, secs: u64, nanos: u32) -> int {
    if before {
        -(secs * 1_000_000_000 + nanos)
    } else {
        secs * 1_000_000_000 + nanos
    }
}

/// A clock reading as nanoseconds since the Unix epoch (negative before it).
pub fn nanos_since_epoch(before: bool, secs: u64, nanos: u32) -> (t: i128)
    requires
        nanos < 1_000_000_000,
    ensures
        t == epoch_nanos(before, secs, nanos),
{
    let n: i128 = secs as i128 * 1_000_000_000i128 + nanos as i128;
    if before { -n } else { n }
}

/// Clock readings one hour of wall time apart are `STALE_AFTER_NANOS`
/// apart, and readings in the same second are less than a second apart:
/// the reading counts nanoseconds, on either side of the epoch.
pub proof fn lemma_epoch_nanos_units(secs: u64, nanos: u32, later_nanos: u32)
    requires
        nanos < 1_000_000_000,
        later_nanos < 1_000_000_000,
        secs + 3600 <= u64::MAX,
    ensures
        epoch_nanos(false, (secs + 3600) as u64, nanos) - epoch_nanos(false, secs, nanos) == STALE_AFTER_NANOS,
        epoch_nanos(true, secs, nanos) - epoch_nanos(true, (secs + 3600) as u64, nanos) == STALE_AFTER_NANOS,
        epoch_nanos(false, secs, later_nanos) - epoch_nanos(false, secs, nanos) == later_nanos - nanos,
        epoch_nanos(false, 1, 0) == 1_000_000_000,
        epoch_nanos(true, secs, nanos) == -epoch_nanos(false, secs, nanos),
{
}

/// The system clock, in nanoseconds since the Unix epoch (negative before
/// it): the reading of `system_clock`, converted by `nanos_since_epoch`.
/// Nothing is promised of the reading: the clock may stand still or go
/// back.
pub fn clock_now() -> (t: i128) {
    let (before, secs, nanos) = system_clock();
    nanos_since_epoch(before, secs, nanos)
}

/// An entry as a value.
pub struct EntryView {
    pub file_name: Seq<char>,
    pub last_requested: i128,
    pub dirty: bool,
    pub read_count: u32,
    pub data: Seq<u8>,
}

#[derive(Debug, PartialEq, Eq)]
pub struct Entry {
    pub file_name: String,
    last_requested: i128,
    dirty_bit: bool,
    read_count: u32,
    data: Vec<u8>,
}

impl View for Entry {
    type V = EntryView;

    closed spec fn view(&self) -> EntryView {
        EntryView {
            file_name: self.file_name@,
            last_requested: self.last_requested,
            dirty: self.dirty_bit,
            read_count: self.read_count,
            data: self.data@,
        }
    }
}

/// What `write_data` leaves in an entry.
pub open spec fn written(e: EntryView, data: Seq<u8>, append: bool) -> EntryView {
    if append {
        EntryView {
            dirty: true,
            read_count: (e.read_count + (data.len() as u32)) as u32,
            data: e.data + data,
            ..e
        }
    } else {
        EntryView { dirty: true, read_count: data.len() as u32, data, ..e }
    }
}

/// Whether `write_data` can add the count of `data` without overflow.
pub open spec fn write_fits(e: EntryView, len: nat, append: bool) -> bool {
    append ==> e.read_count + (len as u32) <= u32::MAX
}

/// What `read_data` answers: the first `n` bytes, if the entry counts that many.
pub open spec fn read_answer(e: EntryView, n: u32) -> Option<Seq<u8>> {
    if n <= e.read_count {
        Some(e.data.subrange(0, n as int))
    } else {
        None
    }
}

/// Whether `read_data` can slice `n` bytes out of what it counts: the
/// count can exceed the bytes held (a fetch counts the reply's line end).
pub open spec fn read_fits(e: EntryView, n: u32) -> bool {
    n <= e.read_count ==> n <= e.data.len()
}

/// Whether the entry is stale when the clock reads `now`: an hour or more
/// after it was last fetched, or before that (the clock went back).
pub open spec fn stale_at(e: EntryView, now: i128) -> bool {
    now < e.last_requested || now - e.last_requested >= STALE_AFTER_NANOS
}

/// What a fetch keeps of the server's reply to a read: the bytes before
/// the reply's last byte (its line end), counted with that byte.
pub open spec fn fetched(e: EntryView, reply: Seq<u8>, now: i128) -> EntryView {
    EntryView {
        read_count: reply.len() as u32,
        data: reply.subrange(0, reply.len() - 1),
        last_requested: now,
        ..e
    }
}

/// A read after a write answers with the written bytes.
pub proof fn lemma_write_then_read(e: EntryView, data: Seq<u8>, n: u32)
    requires
        n <= data.len() <= u32::MAX,
    ensures
        read_fits(written(e, data, false), n),
        read_answer(written(e, data, false), n) == Some(data.subrange(0, n as int)),
{
}

/// A read of everything after an append answers with the old bytes and
/// then the new, when the entry counted exactly its bytes.
pub proof fn lemma_append_then_read(e: EntryView, data: Seq<u8>)
    requires
        e.read_count == e.data.len(),
        data.len() <= u32::MAX,
        write_fits(e, data.len(), true),
    ensures
        read_fits(written(e, data, true), (e.read_count + data.len()) as u32),
        read_answer(written(e, data, true), (e.read_count + data.len()) as u32) == Some(e.data + data),
{
    let w = written(e, data, true);
    assert(w.data.subrange(0, (e.read_count + data.len()) as int) =~= e.data + data);
}

/// After a fetch, reads of up to the bytes kept are answered from them;
/// a read of the full count (the kept bytes and the line end) cannot be.
pub proof fn lemma_fetch_then_read(e: EntryView, reply: Seq<u8>, now: i128, n: u32)
    requires
        1 <= reply.len() <= u32::MAX,
    ensures
        n < reply.len() ==> read_fits(fetched(e, reply, now), n)
            && read_answer(fetched(e, reply, now), n) == Some(reply.subrange(0, n as int)),
        !read_fits(fetched(e, reply, now), reply.len() as u32),
{
    let f = fetched(e, reply, now);
    if n < reply.len() {
        assert(f.data.subrange(0, n as int) =~= reply.subrange(0, n as int));
    }
}

/// An entry fetched at `now` stays fresh for an hour and is stale from
/// then on, and before `now`.
pub proof fn lemma_staleness(e: EntryView, now: i128, later: i128)
    requires
        e.last_requested == now,
    ensures
        now <= later < now + STALE_AFTER_NANOS ==> !stale_at(e, later),
        later >= now + STALE_AFTER_NANOS ==> stale_at(e, later),
        later < now ==> stale_at(e, later),
{
}

impl Entry {
    /// A clean, empty entry for `file_name`, fetched when the clock reads
    /// `now`.
    pub fn new_at(file_name: String, now: i128) -> (e: Entry)
        ensures
            e@.file_name == file_name@,
            e@.last_requested == now,
            !e@.dirty,
            e@.read_count == 0,
            e@.data.len() == 0,
    {
        Entry { file_name, last_requested: now, dirty_bit: false, read_count: 0, data: Vec::new() }
    }

    /// A clean, empty entry for `file_name`, fetched at the clock's reading
    /// (`new_at` with `clock_now()`).
    pub fn new(file_name: String) -> (e: Entry)
        ensures
            e@.file_name == file_name@,
            !e@.dirty,
            e@.read_count == 0,
            e@.data.len() == 0,
    {
        Entry::new_at(file_name, clock_now())
    }

    /// Replaces the bytes, or appends to them, and marks the entry dirty.
    pub fn write_data(&mut self, data: Vec<u8>, append: bool)
        requires
            write_fits(old(self)@, data@.len(), append),
        ensures
            final(self)@ == written(old(self)@, data@, append),
    {
        self.dirty_bit = true;
        if append {
            let len = data.len() as u32;
            self.read_count = self.read_count + len;
            let mut data = data;
            self.data.append(&mut data);
        } else {
            self.read_count = data.len() as u32;
            self.data = data;
        }
    }

    /// The first `read_count` bytes, if the entry counts that many.
    pub fn read_data(&self, read_count: u32) -> (r: Option<Vec<u8>>)
        requires
            read_fits(self@, read_count),
        ensures
            match r {
                Some(v) => read_answer(self@, read_count) == Some(v@),
                None => read_answer(self@, read_count) is None,
            },
    {
        if read_count <= self.read_count {
            let part = slice_subrange(self.data.as_slice(), 0, read_count as usize);
            Some(slice_to_vec(part))
        } else {
            None
        }
    }

    /// Whether the entry is an hour old (or the clock has gone back): what
    /// `is_stale_at` answers at the clock's reading, which is not known.
    pub fn is_stale(&self) -> (r: bool)
        ensures
            exists|now: i128| r == #[trigger] stale_at(self@, now),
    {
        self.is_stale_at(clock_now())
    }

    /// Whether the entry is stale when the clock reads `now`.
    pub fn is_stale_at(&self, now: i128) -> (r: bool)
        ensures
            r == stale_at(self@, now),
    {
        let last = self.last_requested;
        if now < last {
            true
        } else if last >= 0 {
            now - last >= STALE_AFTER_NANOS
        } else {
            now >= last + STALE_AFTER_NANOS
        }
    }

    /// Whether the entry holds writes that the server has not seen.
    pub fn is_dirty(&self) -> (r: bool)
        ensures
            r == self@.dirty,
    {
        self.dirty_bit
    }

    /// The number of bytes the entry counts.
    pub fn read_count(&self) -> (r: u32)
        ensures
            r == self@.read_count,
    {
        self.read_count
    }

    /// The bytes the entry holds.
    pub fn data(&self) -> (r: &Vec<u8>)
        ensures
            r@ == self@.data,
    {
        &self.data
    }

    /// When the entry was last fetched.
    pub fn last_requested(&self) -> (r: i128)
        ensures
            r == self@.last_requested,
    {
        self.last_requested
    }

    /// Records that the server has taken the entry's writes.
    pub fn mark_clean(&mut self)
        ensures
            final(self)@ == (EntryView { dirty: false, ..old(self)@ }),
    {
        self.dirty_bit = false;
    }

    /// Keeps the server's reply to a read, received when the clock read
    /// `now`, and answers with the bytes kept.
    pub fn store_read_reply(&mut self, reply: Vec<u8>, now: i128) -> (r: Vec<u8>)
        requires
            reply@.len() >= 1,
        ensures
            final(self)@ == fetched(old(self)@, reply@, now),
            r@ == final(self)@.data,
    {
        self.read_count = reply.len() as u32;
        let kept = slice_subrange(reply.as_slice(), 0, reply.len() - 1);
        self.data = slice_to_vec(kept);
        self.last_requested = now;
        slice_to_vec(self.data.as_slice())
    }
}

} // verus!
