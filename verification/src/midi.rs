//! Minimal Standard MIDI File reader: note timings in ticks (with the tempo
//! map that turns ticks into seconds), keys, velocities and channels.
//! Enough to drive visuals from exact notes instead of audio analysis.

use vstd::prelude::*;
use crate::order::{TickOrdered, stable_sort, stable_sorted, sorted_by_key, lemma_stable_sorted_len, lemma_stable_sort_members};

verus! {

/// Why a byte string is not a MIDI file this reader understands.
#[derive(Clone, Copy, Debug, PartialEq, Eq, Structural)]
pub enum MidiError {
    /// Too short, or no `MThd` header.
    NotMidi,
    /// The data stops in the middle of something.
    UnexpectedEnd,
    /// Time division in SMPTE frames.
    Smpte,
    /// A variable-length number longer than four bytes.
    BadVarLength,
    /// An event with an unknown status byte.
    CorruptTrack,
}

impl MidiError {
    /// The message shown to the user.
    pub fn message(self) -> (s: &'static str)
        ensures
            s@ == (match self {
                MidiError::NotMidi => "not a MIDI file"@,
                MidiError::UnexpectedEnd => "unexpected end of the MIDI file"@,
                MidiError::Smpte => "SMPTE-timed MIDI files are not supported"@,
                MidiError::BadVarLength => "bad variable-length number"@,
                MidiError::CorruptTrack => "corrupt MIDI track"@,
            }),
    {
        match self {
            MidiError::NotMidi => "not a MIDI file",
            MidiError::UnexpectedEnd => "unexpected end of the MIDI file",
            MidiError::Smpte => "SMPTE-timed MIDI files are not supported",
            MidiError::BadVarLength => "bad variable-length number",
            MidiError::CorruptTrack => "corrupt MIDI track",
        }
    }
}

// ---------------------------------------------------------------------------
// Reading primitives over the bytes `d` from position `p`; each gives the
// value read and the position after it.

/// One byte.
pub open spec fn spec_byte(d: Seq<u8>, p: int) -> Result<(u8, int), MidiError> {
    if 0 <= p < d.len() {
        Ok((d[p], p + 1))
    } else {
        Err(MidiError::UnexpectedEnd)
    }
}

/// `n` bytes as a big-endian number.
pub open spec fn spec_be(d: Seq<u8>, p: int, n: nat) -> Result<(u32, int), MidiError>
    decreases n,
{
    if n == 0 {
        Ok((0, p))
    } else {
        match spec_be(d, p, (n - 1) as nat) {
            Err(e) => Err(e),
            Ok((v, q)) => match spec_byte(d, q) {
                Err(e) => Err(e),
                Ok((b, q2)) => Ok(((v << 8u32) | (b as u32), q2)),
            },
        }
    }
}

/// The rest of a variable-length number: `v` holds the bits read so far
/// and `count` the bytes read so far.
pub open spec fn spec_var_from(d: Seq<u8>, p: int, v: u32, count: nat) -> Result<(u32, int), MidiError>
    decreases 4 - count,
{
    if count >= 4 {
        Err(MidiError::BadVarLength)
    } else {
        match spec_byte(d, p) {
            Err(e) => Err(e),
            Ok((b, q)) => {
                let v2 = (v << 7u32) | ((b & 0x7f) as u32);
                if b & 0x80 == 0 {
                    Ok((v2, q))
                } else {
                    spec_var_from(d, q, v2, count + 1)
                }
            },
        }
    }
}

/// A variable-length number (7 bits per byte, high bit set on all but the
/// last byte, at most four bytes).
pub open spec fn spec_var(d: Seq<u8>, p: int) -> Result<(u32, int), MidiError> {
    spec_var_from(d, p, 0, 0)
}

/// Skipping `n` bytes, which must all be there.
pub open spec fn spec_skip(d: Seq<u8>, p: int, n: int) -> Result<int, MidiError> {
    if p + n > d.len() {
        Err(MidiError::UnexpectedEnd)
    } else {
        Ok(p + n)
    }
}

/// A bound on a variable-length number after `count` of its bytes.
pub open spec fn var_bound(count: nat) -> u32 {
    if count == 0 {
        1
    } else if count == 1 {
        0x80
    } else if count == 2 {
        0x4000
    } else if count == 3 {
        0x20_0000
    } else {
        0x1000_0000
    }
}

proof fn lemma_var_step(v: u32, b: u8, count: nat)
    requires
        count < 4,
        v < var_bound(count),
    ensures
        (v << 7u32) | ((b & 0x7f) as u32) < var_bound(count + 1),
{
    if count == 0 {
        assert(v < 1 ==> (v << 7u32) | ((b & 0x7f) as u32) < 0x80) by (bit_vector);
    } else if count == 1 {
        assert(v < 0x80 ==> (v << 7u32) | ((b & 0x7f) as u32) < 0x4000) by (bit_vector);
    } else if count == 2 {
        assert(v < 0x4000 ==> (v << 7u32) | ((b & 0x7f) as u32) < 0x20_0000) by (bit_vector);
    } else {
        assert(v < 0x20_0000 ==> (v << 7u32) | ((b & 0x7f) as u32) < 0x1000_0000) by (bit_vector);
    }
}

proof fn lemma_var_from_bounds(d: Seq<u8>, p: int, v: u32, count: nat)
    requires
        count <= 4,
        v < var_bound(count),
    ensures
        spec_var_from(d, p, v, count) matches Ok((x, q)) ==> q > p && x < 0x1000_0000 && q <= d.len()
            && q <= p + 4 - count,
    decreases 4 - count,
{
    if count < 4 {
        if let Ok((b, q)) = spec_byte(d, p) {
            let v2 = (v << 7u32) | ((b & 0x7f) as u32);
            lemma_var_step(v, b, count);
            lemma_var_from_bounds(d, q, v2, count + 1);
        }
    }
}

/// A variable-length number is below 2^28 and takes one to four bytes.
pub proof fn lemma_var_bounds(d: Seq<u8>, p: int)
    ensures
        spec_var(d, p) matches Ok((x, q)) ==> p < q <= p + 4 && x < 0x1000_0000 && q <= d.len(),
{
    lemma_var_from_bounds(d, p, 0, 0);
}

proof fn lemma_be_err_persists(d: Seq<u8>, p: int, i: nat, n: nat)
    requires
        i <= n,
        spec_be(d, p, i) is Err,
    ensures
        spec_be(d, p, n) == spec_be(d, p, i),
    decreases n - i,
{
    if i < n {
        lemma_be_err_persists(d, p, i, (n - 1) as nat);
    }
}

/// A tempo change: from `tick` on, a quarter note lasts `micros_per_quarter`
/// microseconds.
#[derive(Clone, Copy, Debug, PartialEq, Eq, Structural)]
pub struct TempoChange {
    pub tick: u64,
    pub micros_per_quarter: u32,
}

/// A note switching on (`on`) or off at `tick` (a note-on with velocity 0
/// counts as off).
#[derive(Clone, Copy, Debug, PartialEq, Eq, Structural)]
pub struct NoteEvent {
    pub tick: u64,
    pub on: bool,
    pub channel: u8,
    pub key: u8,
    pub velocity: u8,
}

/// Nothing, or the one value.
pub open spec fn opt_seq<T>(o: Option<T>) -> Seq<T> {
    match o {
        Some(x) => seq![x],
        None => Seq::empty(),
    }
}

/// One step of an event: (position after it, tick, running status, tempo
/// change found, note event found).
pub type EventStep = (int, int, u8, Option<TempoChange>, Option<NoteEvent>);

/// The body of an event once its status byte `b` is known.
pub open spec fn spec_event_body(d: Seq<u8>, q: int, t: int, b: u8, st: u8) -> Result<EventStep, MidiError> {
    if b == 0xff {
        match spec_byte(d, q) {
            Err(e) => Err(e),
            Ok((kind, q1)) => match spec_var(d, q1) {
                Err(e) => Err(e),
                Ok((l, q2)) => if kind == 0x51 && l == 3 {
                    match spec_be(d, q2, 3) {
                        Err(e) => Err(e),
                        Ok((v, q3)) => Ok((q3, t, st, Some(TempoChange { tick: t as u64, micros_per_quarter: v }), None)),
                    }
                } else {
                    match spec_skip(d, q2, l as int) {
                        Err(e) => Err(e),
                        Ok(q3) => Ok((q3, t, st, None, None)),
                    }
                },
            },
        }
    } else if b == 0xf0 || b == 0xf7 {
        match spec_var(d, q) {
            Err(e) => Err(e),
            Ok((l, q2)) => match spec_skip(d, q2, l as int) {
                Err(e) => Err(e),
                Ok(q3) => Ok((q3, t, st, None, None)),
            },
        }
    } else {
        let ch = b & 0x0f;
        let hi = b & 0xf0;
        if hi == 0x80 || hi == 0x90 {
            match spec_byte(d, q) {
                Err(e) => Err(e),
                Ok((k, q1)) => match spec_byte(d, q1) {
                    Err(e) => Err(e),
                    Ok((v, q2)) => {
                        let ev = if hi == 0x80 {
                            NoteEvent { tick: t as u64, on: false, channel: ch, key: k, velocity: 0 }
                        } else {
                            NoteEvent { tick: t as u64, on: v > 0, channel: ch, key: k, velocity: v }
                        };
                        Ok((q2, t, st, None, Some(ev)))
                    },
                },
            }
        } else if hi == 0xa0 || hi == 0xb0 || hi == 0xe0 {
            match spec_skip(d, q, 2) {
                Err(e) => Err(e),
                Ok(q2) => Ok((q2, t, st, None, None)),
            }
        } else if hi == 0xc0 || hi == 0xd0 {
            match spec_skip(d, q, 1) {
                Err(e) => Err(e),
                Ok(q2) => Ok((q2, t, st, None, None)),
            }
        } else {
            Err(MidiError::CorruptTrack)
        }
    }
}

/// One event of a track starting at `p`: a delta time, a status byte (or
/// the running `status` when the byte is a data byte) and the event data.
pub open spec fn spec_event(d: Seq<u8>, p: int, tick: int, status: u8) -> Result<EventStep, MidiError> {
    match spec_var(d, p) {
        Err(e) => Err(e),
        Ok((delta, q)) => match spec_byte(d, q) {
            Err(e) => Err(e),
            Ok((b0, q1)) => {
                let t = tick + delta;
                if b0 < 0x80 {
                    spec_event_body(d, q, t, status, status)
                } else if b0 < 0xf0 {
                    spec_event_body(d, q1, t, b0, b0)
                } else {
                    spec_event_body(d, q1, t, b0, status)
                }
            },
        },
    }
}

proof fn lemma_be_bounds(d: Seq<u8>, p: int, n: nat)
    ensures
        spec_be(d, p, n) matches Ok((v, q)) ==> q == p + n && q <= d.len() || (n == 0 && q == p),
    decreases n,
{
    if n > 0 {
        lemma_be_bounds(d, p, (n - 1) as nat);
    }
}

proof fn lemma_event_body_progress(d: Seq<u8>, q: int, t: int, b: u8, st: u8)
    requires
        0 <= q <= d.len(),
    ensures
        spec_event_body(d, q, t, b, st) matches Ok((q2, t2, st2, tm, ev)) ==> q <= q2 <= d.len() && t2 == t && st2 == st,
{
    lemma_var_bounds(d, q);
    if let Ok((kind, q1)) = spec_byte(d, q) {
        lemma_var_bounds(d, q1);
        if let Ok((l, q2)) = spec_var(d, q1) {
            lemma_be_bounds(d, q2, 3);
        }
    }
}

/// Every event moves forward: at least the delta time is read.
pub proof fn lemma_event_progress(d: Seq<u8>, p: int, tick: int, status: u8)
    requires
        0 <= p <= d.len(),
    ensures
        spec_event(d, p, tick, status) matches Ok((q, t, st, tm, ev)) ==> {
            &&& p < q <= d.len()
            &&& tick <= t < tick + 0x1000_0000
            &&& tm matches Some(x) ==> x.tick == t as u64
            &&& ev matches Some(x) ==> x.tick == t as u64
        },
{
    lemma_var_bounds(d, p);
    if let Ok((delta, q)) = spec_var(d, p) {
        if let Ok((b0, q1)) = spec_byte(d, q) {
            let t = tick + delta;
            lemma_event_body_progress(d, q, t, status, status);
            lemma_event_body_progress(d, q1, t, b0, b0);
            lemma_event_body_progress(d, q1, t, b0, status);
        }
    }
}

/// What an event found, before what the rest of its track finds.
pub open spec fn prepend_found(
    ts: Seq<TempoChange>,
    es: Seq<NoteEvent>,
    r: Result<(Seq<TempoChange>, Seq<NoteEvent>), MidiError>,
) -> Result<(Seq<TempoChange>, Seq<NoteEvent>), MidiError> {
    match r {
        Err(e) => Err(e),
        Ok((a, b)) => Ok((ts + a, es + b)),
    }
}

/// The tempo changes and note events of the events from `p` up to `end`.
pub open spec fn spec_track(d: Seq<u8>, p: int, end: int, tick: int, status: u8) -> Result<(Seq<TempoChange>, Seq<NoteEvent>), MidiError>
    decreases d.len() - p,
{
    if p >= end || p < 0 || p > d.len() {
        Ok((Seq::empty(), Seq::empty()))
    } else {
        match spec_event(d, p, tick, status) {
            Err(e) => Err(e),
            Ok((q, t, st, tm, ev)) => {
                proof {
                    lemma_event_progress(d, p, tick, status);
                }
                prepend_found(opt_seq(tm), opt_seq(ev), spec_track(d, q, end, t, st))
            },
        }
    }
}

proof fn lemma_prepend_found_assoc(
    ts: Seq<TempoChange>,
    es: Seq<NoteEvent>,
    x: Seq<TempoChange>,
    y: Seq<NoteEvent>,
    r: Result<(Seq<TempoChange>, Seq<NoteEvent>), MidiError>,
)
    ensures
        prepend_found(ts, es, prepend_found(x, y, r)) == prepend_found(ts + x, es + y, r),
{
    if let Ok((a, b)) = r {
        assert(ts + (x + a) =~= (ts + x) + a);
        assert(es + (y + b) =~= (es + y) + b);
    }
}

/// A cursor over the bytes of a file.
struct Reader<'a> {
    d: &'a [u8],
    p: usize,
}

impl<'a> Reader<'a> {
    spec fn wf(&self) -> bool {
        self.p <= self.d@.len()
    }

    fn u8(&mut self) -> (r: Result<u8, MidiError>)
        requires
            old(self).wf(),
        ensures
            final(self).wf(),
            final(self).d@ == old(self).d@,
            match r {
                Ok(v) => spec_byte(old(self).d@, old(self).p as int) == Ok::<(u8, int), MidiError>((v, final(self).p as int)),
                Err(e) => spec_byte(old(self).d@, old(self).p as int) == Err::<(u8, int), MidiError>(e),
            },
    {
        if self.p >= self.d.len() {
            return Err(MidiError::UnexpectedEnd);
        }
        let v: u8 = self.d[self.p];
        self.p += 1;
        Ok(v)
    }

    fn be(&mut self, n: usize) -> (r: Result<u32, MidiError>)
        requires
            old(self).wf(),
        ensures
            final(self).wf(),
            final(self).d@ == old(self).d@,
            match r {
                Ok(v) => spec_be(old(self).d@, old(self).p as int, n as nat) == Ok::<(u32, int), MidiError>((v, final(self).p as int)),
                Err(e) => spec_be(old(self).d@, old(self).p as int, n as nat) == Err::<(u32, int), MidiError>(e),
            },
    {
        let ghost d = self.d@;
        let ghost p0 = self.p as int;
        let mut v: u32 = 0;
        let mut i: usize = 0;
        while i < n
            invariant
                self.wf(),
                self.d@ == d,
                i <= n,
                d == old(self).d@,
                p0 == old(self).p,
                spec_be(d, p0, i as nat) == Ok::<(u32, int), MidiError>((v, self.p as int)),
            decreases n - i,
        {
            let b: u8 = match self.u8() {
                Ok(b) => b,
                Err(e) => {
                    proof {
                        lemma_be_err_persists(d, p0, (i + 1) as nat, n as nat);
                    }
                    return Err(e);
                },
            };
            v = (v << 8u32) | b as u32;
            i += 1;
        }
        Ok(v)
    }

    fn var(&mut self) -> (r: Result<u32, MidiError>)
        requires
            old(self).wf(),
        ensures
            final(self).wf(),
            final(self).d@ == old(self).d@,
            match r {
                Ok(v) => spec_var(old(self).d@, old(self).p as int) == Ok::<(u32, int), MidiError>((v, final(self).p as int)),
                Err(e) => spec_var(old(self).d@, old(self).p as int) == Err::<(u32, int), MidiError>(e),
            },
    {
        let ghost d = self.d@;
        let ghost p0 = self.p as int;
        let mut v: u32 = 0;
        let mut count: usize = 0;
        while count < 4
            invariant
                self.wf(),
                self.d@ == d,
                count <= 4,
                d == old(self).d@,
                p0 == old(self).p,
                spec_var(d, p0) == spec_var_from(d, self.p as int, v, count as nat),
            decreases 4 - count,
        {
            let b: u8 = self.u8()?;
            v = (v << 7u32) | (b & 0x7f) as u32;
            if b & 0x80 == 0 {
                return Ok(v);
            }
            count += 1;
        }
        Err(MidiError::BadVarLength)
    }

    fn skip(&mut self, n: usize) -> (r: Result<(), MidiError>)
        requires
            old(self).wf(),
        ensures
            final(self).wf(),
            final(self).d@ == old(self).d@,
            match r {
                Ok(_) => spec_skip(old(self).d@, old(self).p as int, n as int) == Ok::<int, MidiError>(final(self).p as int),
                Err(e) => spec_skip(old(self).d@, old(self).p as int, n as int) == Err::<int, MidiError>(e),
            },
    {
        if n > self.d.len() - self.p {
            return Err(MidiError::UnexpectedEnd);
        }
        self.p += n;
        Ok(())
    }
}

impl<'a> Reader<'a> {
    /// One event of a track: its delta time added to `tick`, and the
    /// running status after it.
    fn event(&mut self, tick: u64, status: u8) -> (r: Result<(u64, u8, Option<TempoChange>, Option<NoteEvent>), MidiError>)
        requires
            old(self).wf(),
            spec_var(old(self).d@, old(self).p as int) matches Ok((delta, _)) ==> tick + delta <= u64::MAX,
        ensures
            final(self).wf(),
            final(self).d@ == old(self).d@,
            match r {
                Ok((t, st, tm, ev)) => spec_event(old(self).d@, old(self).p as int, tick as int, status)
                    == Ok::<EventStep, MidiError>((final(self).p as int, t as int, st, tm, ev)),
                Err(e) => spec_event(old(self).d@, old(self).p as int, tick as int, status) == Err::<EventStep, MidiError>(e),
            },
    {
        proof {
            lemma_var_bounds(self.d@, self.p as int);
        }
        let delta: u32 = self.var()?;
        let t: u64 = tick + delta as u64;
        let mut b: u8 = self.u8()?;
        let mut st: u8 = status;
        if b < 0x80 {
            // Running status: reuse the last status byte.
            self.p -= 1;
            b = status;
        } else if b < 0xf0 {
            st = b;
        }
        match b {
            0xff => {
                let kind: u8 = self.u8()?;
                let l: usize = self.var()? as usize;
                if kind == 0x51 && l == 3 {
                    let v: u32 = self.be(3)?;
                    return Ok((t, st, Some(TempoChange { tick: t, micros_per_quarter: v }), None));
                } else {
                    self.skip(l)?;
                }
            },
            0xf0 | 0xf7 => {
                let l: usize = self.var()? as usize;
                self.skip(l)?;
            },
            _ => {
                let ch: u8 = b & 0x0f;
                match b & 0xf0 {
                    0x80 => {
                        let k: u8 = self.u8()?;
                        let _v: u8 = self.u8()?;
                        return Ok((t, st, None, Some(NoteEvent { tick: t, on: false, channel: ch, key: k, velocity: 0 })));
                    },
                    0x90 => {
                        let k: u8 = self.u8()?;
                        let v: u8 = self.u8()?;
                        return Ok((t, st, None, Some(NoteEvent { tick: t, on: v > 0, channel: ch, key: k, velocity: v })));
                    },
                    0xa0 | 0xb0 | 0xe0 => self.skip(2)?,
                    0xc0 | 0xd0 => self.skip(1)?,
                    _ => return Err(MidiError::CorruptTrack),
                }
            },
        }
        Ok((t, st, None, None))
    }

    /// The events of a track up to `end`, appended to `tempos` and `events`.
    fn track(&mut self, end: usize, tempos: &mut Vec<TempoChange>, events: &mut Vec<NoteEvent>) -> (r: Result<(), MidiError>)
        requires
            old(self).wf(),
            end <= old(self).d@.len(),
            track_ticks_fit(old(self).d@, old(self).p as int, end as int, 0, 0),
        ensures
            final(self).wf(),
            final(self).d@ == old(self).d@,
            match r {
                Ok(_) => prepend_found(old(tempos)@, old(events)@, spec_track(old(self).d@, old(self).p as int, end as int, 0, 0))
                    == Ok::<(Seq<TempoChange>, Seq<NoteEvent>), MidiError>((final(tempos)@, final(events)@)),
                Err(e) => spec_track(old(self).d@, old(self).p as int, end as int, 0, 0) == Err::<(Seq<TempoChange>, Seq<NoteEvent>), MidiError>(e),
            },
    {
        let ghost d = self.d@;
        let ghost p0 = self.p as int;
        let mut tick: u64 = 0;
        let mut status: u8 = 0;
        while self.p < end
            invariant
                self.wf(),
                self.d@ == d,
                d == old(self).d@,
                p0 == old(self).p,
                end <= d.len(),
                track_ticks_fit(d, self.p as int, end as int, tick as int, status),
                prepend_found(old(tempos)@, old(events)@, spec_track(d, p0, end as int, 0, 0))
                    == prepend_found(tempos@, events@, spec_track(d, self.p as int, end as int, tick as int, status)),
            decreases d.len() - self.p,
        {
            let ghost p = self.p as int;
            proof {
                lemma_event_progress(d, p, tick as int, status);
            }
            match self.event(tick, status) {
                Err(e) => {
                    return Err(e);
                },
                Ok((t, st, tm, ev)) => {
                    proof {
                        lemma_prepend_found_assoc(tempos@, events@, opt_seq(tm), opt_seq(ev),
                            spec_track(d, self.p as int, end as int, t as int, st));
                    }
                    let ghost ts0 = tempos@;
                    let ghost es0 = events@;
                    if let Some(x) = tm {
                        tempos.push(x);
                    }
                    if let Some(x) = ev {
                        events.push(x);
                    }
                    assert(tempos@ =~= ts0 + opt_seq(tm));
                    assert(events@ =~= es0 + opt_seq(ev));
                    tick = t;
                    status = st;
                },
            }
        }
        Ok(())
    }
}

impl<'a> Reader<'a> {
    /// One chunk (header and body); the cursor ends after the chunk.
    fn chunk(&mut self, tempos: &mut Vec<TempoChange>, events: &mut Vec<NoteEvent>) -> (r: Result<(), MidiError>)
        requires
            old(self).wf(),
            old(self).d@.len() - old(self).p >= 8,
            old(self).d@.subrange(old(self).p as int, old(self).p + 4) == track_tag()
                ==> track_ticks_fit(old(self).d@, old(self).p + 8, chunk_end(old(self).d@, old(self).p as int), 0, 0),
        ensures
            final(self).wf(),
            final(self).d@ == old(self).d@,
            match r {
                Ok(_) => {
                    &&& prepend_found(old(tempos)@, old(events)@, spec_chunk(old(self).d@, old(self).p as int))
                        == Ok::<(Seq<TempoChange>, Seq<NoteEvent>), MidiError>((final(tempos)@, final(events)@))
                    &&& final(self).p == chunk_end(old(self).d@, old(self).p as int)
                },
                Err(e) => spec_chunk(old(self).d@, old(self).p as int) == Err::<(Seq<TempoChange>, Seq<NoteEvent>), MidiError>(e),
            },
    {
        let ghost d = self.d@;
        let p: usize = self.p;
        let is_track: bool = self.d[p] == 0x4d && self.d[p + 1] == 0x54 && self.d[p + 2] == 0x72 && self.d[p + 3] == 0x6b;
        proof {
            assert(d.subrange(p as int, p + 4)[0] == d[p as int]);
            assert(d.subrange(p as int, p + 4)[1] == d[p + 1]);
            assert(d.subrange(p as int, p + 4)[2] == d[p + 2]);
            assert(d.subrange(p as int, p + 4)[3] == d[p + 3]);
            assert(is_track <==> d.subrange(p as int, p + 4) =~= track_tag());
            lemma_be_ok(d, p + 4, 4);
        }
        self.skip(4)?;
        let len: usize = self.be(4)? as usize;
        let end: usize = if len > self.d.len() - self.p { self.d.len() } else { self.p + len };
        assert(end as int == chunk_end(d, p as int));
        if is_track {
            self.track(end, tempos, events)?;
        } else {
            assert(old(tempos)@ + Seq::<TempoChange>::empty() =~= old(tempos)@);
            assert(old(events)@ + Seq::<NoteEvent>::empty() =~= old(events)@);
        }
        self.p = end;
        Ok(())
    }
}

impl TickOrdered for TempoChange {
    open spec fn order_key(&self) -> int {
        self.tick as int
    }

    fn key_le(&self, other: &Self) -> (b: bool) {
        self.tick <= other.tick
    }
}

impl TickOrdered for NoteEvent {
    /// Events are ordered by tick; at the same tick note-offs come first.
    open spec fn order_key(&self) -> int {
        2 * self.tick + if self.on { 1int } else { 0int }
    }

    fn key_le(&self, other: &Self) -> (b: bool) {
        self.tick < other.tick || (self.tick == other.tick && (!self.on || other.on))
    }
}

/// A note: from `start` until the next event of the same channel and key
/// (`None` when nothing follows it: it then lasts a short default time).
#[derive(Clone, Copy, Debug, PartialEq, Eq, Structural)]
pub struct MidiNote {
    /// Start, in ticks.
    pub start: u64,
    /// End, in ticks.
    pub end: Option<u64>,
    pub key: u8,
    pub velocity: u8,
    /// 0-based channel (9 = General MIDI drums).
    pub channel: u8,
}

/// The General MIDI drums the visuals tell apart.
#[derive(Clone, Copy, Debug, PartialEq, Eq, Structural)]
pub enum DrumKind {
    Kick,
    Snare,
    Hat,
    Other,
}

/// The drum a note on `channel` with `key` plays (`None` off the drum channel).
pub open spec fn spec_drum(channel: u8, key: u8) -> Option<DrumKind> {
    if channel != 9 {
        None
    } else if key == 35 || key == 36 {
        Some(DrumKind::Kick)
    } else if 37 <= key <= 40 {
        Some(DrumKind::Snare)
    } else if key == 42 || key == 44 || key == 46 || key == 49 || key == 51 || key == 52 || key == 55
        || key == 57 || key == 59 {
        Some(DrumKind::Hat)
    } else {
        Some(DrumKind::Other)
    }
}

/// The General MIDI drum map as the notes read it: only the drum channel
/// (10, numbered 9) plays drums; both bass drums (keys 35 and 36) are
/// kicks; side stick, the snares and the clap (37 to 40) are snares; the
/// hi-hats (42, 44, 46) and the cymbals (49, 51, 52, 55, 57, 59) are hats;
/// every other key on that channel is some other drum.
pub proof fn law_drum_map(channel: u8, key: u8)
    ensures
        spec_drum(channel, key) is None <==> channel != 9,
        spec_drum(channel, key) == Some(DrumKind::Kick) <==> channel == 9 && (key == 35 || key == 36),
        spec_drum(channel, key) == Some(DrumKind::Snare) <==> channel == 9 && 37 <= key && key <= 40,
        spec_drum(channel, key) == Some(DrumKind::Hat) <==> channel == 9 && (key == 42 || key == 44 || key == 46
            || key == 49 || key == 51 || key == 52 || key == 55 || key == 57 || key == 59),
        spec_drum(channel, key) == Some(DrumKind::Other) <==> channel == 9 && !(35 <= key && key <= 40) && !(key == 42
            || key == 44 || key == 46 || key == 49 || key == 51 || key == 52 || key == 55 || key == 57 || key == 59),
{
}

impl MidiNote {
    /// The General MIDI drum this note plays, if it is on the drum channel.
    pub fn drum(&self) -> (k: Option<DrumKind>)
        ensures
            k == spec_drum(self.channel, self.key),
    {
        if self.channel != 9 {
            return None;
        }
        Some(match self.key {
            35 | 36 => DrumKind::Kick,
            37..=40 => DrumKind::Snare,
            42 | 44 | 46 | 49 | 51 | 52 | 55 | 57 | 59 => DrumKind::Hat,
            _ => DrumKind::Other,
        })
    }
}

/// Tick of the first event at or after `j` on `channel` and `key`.
pub open spec fn next_of(evs: Seq<NoteEvent>, channel: u8, key: u8, j: int) -> Option<u64>
    decreases evs.len() - j,
{
    if j < 0 || j >= evs.len() {
        None
    } else if evs[j].channel == channel && evs[j].key == key {
        Some(evs[j].tick)
    } else {
        next_of(evs, channel, key, j + 1)
    }
}

/// The note started by event `i`: it lasts until the next event of its
/// channel and key.
pub open spec fn note_at(evs: Seq<NoteEvent>, i: int) -> MidiNote {
    MidiNote {
        start: evs[i].tick,
        end: next_of(evs, evs[i].channel, evs[i].key, i + 1),
        key: evs[i].key,
        velocity: evs[i].velocity,
        channel: evs[i].channel,
    }
}

/// The notes started by the note-on events from `i` on, in order.
pub open spec fn notes_from(evs: Seq<NoteEvent>, i: int) -> Seq<MidiNote>
    decreases evs.len() - i,
{
    if i < 0 || i >= evs.len() {
        Seq::empty()
    } else if evs[i].on {
        seq![note_at(evs, i)] + notes_from(evs, i + 1)
    } else {
        notes_from(evs, i + 1)
    }
}

/// Notes start in order, and none ends before it starts.
pub open spec fn notes_well_ordered(ns: Seq<MidiNote>) -> bool {
    &&& forall|a: int, b: int| 0 <= a < b < ns.len() ==> ns[a].start <= ns[b].start
    &&& forall|a: int| 0 <= a < ns.len() ==> (#[trigger] ns[a].end matches Some(t) ==> t >= ns[a].start)
}

proof fn lemma_next_of_later(evs: Seq<NoteEvent>, c: u8, k: u8, j: int)
    ensures
        next_of(evs, c, k, j) matches Some(t) ==> exists|m: int| j <= m < evs.len() && #[trigger] evs[m].tick == t,
    decreases evs.len() - j,
{
    if 0 <= j < evs.len() && !(evs[j].channel == c && evs[j].key == k) {
        lemma_next_of_later(evs, c, k, j + 1);
    }
}

proof fn lemma_notes_from_ordered(evs: Seq<NoteEvent>, i: int)
    requires
        sorted_by_key(evs),
        0 <= i,
    ensures
        notes_well_ordered(notes_from(evs, i)),
        forall|a: int| 0 <= a < notes_from(evs, i).len() ==> #[trigger] notes_from(evs, i)[a].start >= evs[i].tick,
    decreases evs.len() - i,
{
    if i < evs.len() {
        lemma_notes_from_ordered(evs, i + 1);
        let rest = notes_from(evs, i + 1);
        if i + 1 < evs.len() {
            assert(evs[i].order_key() <= evs[i + 1].order_key());
        }
        if evs[i].on {
            let n = note_at(evs, i);
            lemma_next_of_later(evs, evs[i].channel, evs[i].key, i + 1);
            if let Some(t) = n.end {
                let m = choose|m: int| i + 1 <= m < evs.len() && #[trigger] evs[m].tick == t;
                assert(evs[i].order_key() <= evs[m].order_key());
            }
            let ns = seq![n] + rest;
            assert forall|a: int| 0 <= a < ns.len() implies #[trigger] ns[a].start >= evs[i].tick by {
                if a > 0 {
                    assert(ns[a] == rest[a - 1]);
                }
            }
            assert forall|a: int, b: int| 0 <= a < b < ns.len() implies ns[a].start <= ns[b].start by {
                assert(ns[b] == rest[b - 1]);
                if a > 0 {
                    assert(ns[a] == rest[a - 1]);
                }
            }
            assert forall|a: int| 0 <= a < ns.len() implies (#[trigger] ns[a].end matches Some(t) ==> t >= ns[a].start) by {
                if a > 0 {
                    assert(ns[a] == rest[a - 1]);
                }
            }
        }
    }
}

spec fn slot_of(channel: u8, key: u8) -> int {
    channel as int * 256 + key as int
}

/// Notes of the (ordered) events: each note-on starts a note that ends at
/// the next event of the same channel and key.
fn pair_notes(evs: &Vec<NoteEvent>) -> (notes: Vec<MidiNote>)
    ensures
        notes@ == notes_from(evs@, 0),
{
    let mut next: Vec<Option<u64>> = Vec::new();
    let mut k: usize = 0;
    while k < 65536
        invariant
            k <= 65536,
            next@.len() == k,
            forall|m: int| 0 <= m < k ==> next@[m] is None,
        decreases 65536 - k,
    {
        next.push(None);
        k += 1;
    }
    let mut rev: Vec<MidiNote> = Vec::new();
    let mut i: usize = evs.len();
    while i > 0
        invariant
            i <= evs@.len(),
            next@.len() == 65536,
            forall|c: u8, key: u8| #[trigger] next@[slot_of(c, key)] == next_of(evs@, c, key, i as int),
            rev@.reverse() == notes_from(evs@, i as int),
        decreases i,
    {
        i -= 1;
        let e: NoteEvent = evs[i];
        let slot: usize = e.channel as usize * 256 + e.key as usize;
        let ghost rev0 = rev@;
        if e.on {
            rev.push(MidiNote { start: e.tick, end: next[slot], key: e.key, velocity: e.velocity, channel: e.channel });
            proof {
                assert(next@[slot_of(e.channel, e.key)] == next_of(evs@, e.channel, e.key, i + 1));
                assert(rev@.reverse() =~= seq![note_at(evs@, i as int)] + rev0.reverse());
            }
        }
        next.set(slot, Some(e.tick));
        proof {
            assert forall|c: u8, key: u8| #[trigger] next@[slot_of(c, key)] == next_of(evs@, c, key, i as int) by {
                if slot_of(c, key) == slot as int {
                    assert(c == e.channel && key == e.key) by (nonlinear_arith)
                        requires
                            c as int * 256 + key as int == e.channel as int * 256 + e.key as int,
                            key < 256,
                            e.key < 256,
                    ;
                }
            }
        }
    }
    let mut notes: Vec<MidiNote> = Vec::new();
    let mut j: usize = rev.len();
    while j > 0
        invariant
            j <= rev@.len(),
            notes@ == rev@.reverse().take(rev@.len() - j),
        decreases j,
    {
        j -= 1;
        notes.push(rev[j]);
        proof {
            assert(notes@ =~= rev@.reverse().take(rev@.len() - j));
        }
    }
    proof {
        assert(rev@.reverse().take(rev@.len() as int) =~= rev@.reverse());
    }
    notes
}

/// The bytes `MThd`.
pub open spec fn header_tag() -> Seq<u8> {
    seq![0x4du8, 0x54u8, 0x68u8, 0x64u8]
}

/// The bytes `MTrk`.
pub open spec fn track_tag() -> Seq<u8> {
    seq![0x4du8, 0x54u8, 0x72u8, 0x6bu8]
}

/// The big-endian number of `n` bytes at `p` (0 past the end).
pub open spec fn be_at(d: Seq<u8>, p: int, n: nat) -> u32 {
    match spec_be(d, p, n) {
        Ok((v, _)) => v,
        Err(_) => 0,
    }
}

/// Where the chunk at `p` ends (its declared length, cut at the end of
/// the data).
pub open spec fn chunk_end(d: Seq<u8>, p: int) -> int {
    let len = be_at(d, p + 4, 4);
    if p + 8 + len < d.len() {
        p + 8 + len
    } else {
        d.len() as int
    }
}

/// The tempo changes and note events of the chunk at `p`: an `MTrk` chunk
/// is read, any other chunk is skipped.
pub open spec fn spec_chunk(d: Seq<u8>, p: int) -> Result<(Seq<TempoChange>, Seq<NoteEvent>), MidiError> {
    if d.subrange(p, p + 4) != track_tag() {
        Ok((Seq::empty(), Seq::empty()))
    } else {
        spec_track(d, p + 8, chunk_end(d, p), 0, 0)
    }
}

/// The tempo changes and note events of `remaining` chunks from `p`; a
/// chunk header that does not fit ends the file.
pub open spec fn spec_tracks(d: Seq<u8>, p: int, remaining: nat) -> Result<(Seq<TempoChange>, Seq<NoteEvent>), MidiError>
    decreases remaining,
{
    if remaining == 0 || p < 0 || p + 8 > d.len() {
        Ok((Seq::empty(), Seq::empty()))
    } else {
        match spec_chunk(d, p) {
            Err(e) => Err(e),
            Ok((a, b)) => prepend_found(a, b, spec_tracks(d, chunk_end(d, p), (remaining - 1) as nat)),
        }
    }
}

/// Whether reading the events from `p` up to `end`, from `tick`, keeps the
/// 64-bit tick counter in range: each delta time is added as soon as it is
/// read.
pub open spec fn track_ticks_fit(d: Seq<u8>, p: int, end: int, tick: int, status: u8) -> bool
    decreases d.len() - p,
{
    if p >= end || p < 0 || p > d.len() {
        true
    } else {
        match spec_var(d, p) {
            Err(_) => true,
            Ok((delta, _)) => tick + delta <= u64::MAX && match spec_event(d, p, tick, status) {
                Err(_) => true,
                Ok((q, t, st, _, _)) => {
                    proof {
                        lemma_event_progress(d, p, tick, status);
                    }
                    track_ticks_fit(d, q, end, t, st)
                },
            },
        }
    }
}

/// Whether reading `remaining` chunks from `p` keeps the tick counter of
/// every track in range.
pub open spec fn tracks_ticks_fit(d: Seq<u8>, p: int, remaining: nat) -> bool
    decreases remaining,
{
    if remaining == 0 || p < 0 || p + 8 > d.len() {
        true
    } else {
        &&& d.subrange(p, p + 4) == track_tag() ==> track_ticks_fit(d, p + 8, chunk_end(d, p), 0, 0)
        &&& spec_chunk(d, p) is Ok ==> tracks_ticks_fit(d, chunk_end(d, p), (remaining - 1) as nat)
    }
}

/// Whether reading the MIDI file `d` keeps the tick counter in range: the
/// delta times of no track add up past `u64::MAX` while it is read.
pub open spec fn midi_ticks_fit(d: Seq<u8>) -> bool {
    if d.len() < 14 || d.subrange(0, 4) != header_tag() {
        true
    } else {
        let hlen = be_at(d, 4, 4);
        let ntracks = be_at(d, 10, 2);
        let division = be_at(d, 12, 2);
        let extra = if hlen >= 6 { hlen - 6 } else { 0 };
        if 14 + extra > d.len() || division & 0x8000 != 0 {
            true
        } else {
            tracks_ticks_fit(d, 14 + extra, ntracks as nat)
        }
    }
}

/// The body of an event takes at least one byte.
proof fn lemma_event_body_takes_a_byte(d: Seq<u8>, q: int, t: int, b: u8, st: u8)
    requires
        0 <= q <= d.len(),
    ensures
        spec_event_body(d, q, t, b, st) matches Ok((q2, _, _, _, _)) ==> q2 >= q + 1,
{
    lemma_event_body_progress(d, q, t, b, st);
    lemma_var_bounds(d, q);
    if let Ok((kind, q1)) = spec_byte(d, q) {
        lemma_var_bounds(d, q1);
        lemma_event_body_progress(d, q1, t, b, st);
        if let Ok((l, q2)) = spec_var(d, q1) {
            lemma_be_bounds(d, q2, 3);
        }
    }
}

/// An event takes at least two bytes: its delta time and its status or
/// data.
proof fn lemma_event_takes_two_bytes(d: Seq<u8>, p: int, tick: int, status: u8)
    requires
        0 <= p <= d.len(),
    ensures
        spec_event(d, p, tick, status) matches Ok((q, _, _, _, _)) ==> q >= p + 2,
{
    lemma_var_bounds(d, p);
    if let Ok((delta, q)) = spec_var(d, p) {
        if let Ok((b0, q1)) = spec_byte(d, q) {
            let t = tick + delta;
            lemma_event_body_takes_a_byte(d, q, t, status, status);
            lemma_event_body_progress(d, q1, t, b0, b0);
            lemma_event_body_progress(d, q1, t, b0, status);
        }
    }
}

/// In a file shorter than 2^37 bytes the tick counter of a track stays
/// in range: each event adds less than 2^28 and takes at least two bytes.
proof fn lemma_short_track_fits(d: Seq<u8>, p: int, end: int, tick: int, status: u8)
    requires
        d.len() < 0x1F_FFFF_FFF0,
        0 <= tick <= p * 0x800_0000,
    ensures
        track_ticks_fit(d, p, end, tick, status),
    decreases d.len() - p,
{
    if !(p >= end || p < 0 || p > d.len()) {
        lemma_var_bounds(d, p);
        lemma_event_progress(d, p, tick, status);
        lemma_event_takes_two_bytes(d, p, tick, status);
        if let Ok((q, t, st, _, _)) = spec_event(d, p, tick, status) {
            lemma_short_track_fits(d, q, end, t, st);
        }
    }
}

/// In a file shorter than 2^37 bytes every track's tick counter stays in
/// range.
proof fn lemma_short_tracks_fit(d: Seq<u8>, p: int, remaining: nat)
    requires
        d.len() < 0x1F_FFFF_FFF0,
    ensures
        tracks_ticks_fit(d, p, remaining),
    decreases remaining,
{
    if !(remaining == 0 || p < 0 || p + 8 > d.len()) {
        lemma_short_track_fits(d, p + 8, chunk_end(d, p), 0, 0);
        lemma_short_tracks_fit(d, chunk_end(d, p), (remaining - 1) as nat);
    }
}

/// A MIDI file shorter than 2^37 bytes (128 GiB) never takes the tick
/// counter out of range.
pub proof fn lemma_short_files_fit(d: Seq<u8>)
    requires
        d.len() < 0x1F_FFFF_FFF0,
    ensures
        midi_ticks_fit(d),
{
    if !(d.len() < 14 || d.subrange(0, 4) != header_tag()) {
        let hlen = be_at(d, 4, 4);
        let extra = if hlen >= 6 { hlen - 6 } else { 0 };
        lemma_short_tracks_fit(d, 14 + extra, be_at(d, 10, 2) as nat);
    }
}

proof fn lemma_be3_small(d: Seq<u8>, p: int)
    ensures
        spec_be(d, p, 3) matches Ok((v, q)) ==> v < 0x100_0000,
{
    reveal_with_fuel(spec_be, 4);
    if let Ok((v1, q1)) = spec_be(d, p, 1) {
        if let Ok((v2, q2)) = spec_be(d, p, 2) {
            if let Ok((v3, q3)) = spec_be(d, p, 3) {
                assert(v1 < 0x100) by {
                    let b = d[p];
                    assert(((0u32 << 8u32) | (b as u32)) < 0x100) by (bit_vector);
                }
                let b2 = d[q1];
                assert(v1 < 0x100 ==> ((v1 << 8u32) | (b2 as u32)) < 0x1_0000) by (bit_vector);
                let b3 = d[q2];
                assert(v2 < 0x1_0000 ==> ((v2 << 8u32) | (b3 as u32)) < 0x100_0000) by (bit_vector);
            }
        }
    }
}

proof fn lemma_event_tempo_small(d: Seq<u8>, p: int, tick: int, status: u8)
    requires
        0 <= p <= d.len(),
    ensures
        spec_event(d, p, tick, status) matches Ok((q, t, st, tm, ev)) ==> (tm matches Some(x) ==> x.micros_per_quarter < 0x100_0000),
{
    if let Ok((delta, q)) = spec_var(d, p) {
        lemma_var_bounds(d, p);
        if let Ok((b0, q1)) = spec_byte(d, q) {
            let qs = if b0 < 0x80 { q } else { q1 };
            if let Ok((kind, qk)) = spec_byte(d, qs) {
                if let Ok((l, q2)) = spec_var(d, qk) {
                    lemma_be3_small(d, q2);
                }
            }
        }
    }
}

/// A track yields at most one tempo change or note per byte it spans, and
/// every tempo is a 24 bit number.
proof fn lemma_track_small(d: Seq<u8>, p: int, end: int, tick: int, status: u8)
    ensures
        spec_track(d, p, end, tick, status) matches Ok((ts, es)) ==> {
            &&& ts.len() <= (if end > p { end - p } else { 0 })
            &&& forall|k: int| 0 <= k < ts.len() ==> #[trigger] ts[k].micros_per_quarter < 0x100_0000
        },
    decreases d.len() - p,
{
    if !(p >= end || p < 0 || p > d.len()) {
        lemma_event_progress(d, p, tick, status);
        lemma_event_tempo_small(d, p, tick, status);
        if let Ok((q, t, st, tm, ev)) = spec_event(d, p, tick, status) {
            lemma_track_small(d, q, end, t, st);
            if let Ok((a, b)) = spec_track(d, q, end, t, st) {
                let ts = opt_seq(tm) + a;
                assert forall|k: int| 0 <= k < ts.len() implies #[trigger] ts[k].micros_per_quarter < 0x100_0000 by {
                    if k >= opt_seq(tm).len() {
                        assert(ts[k] == a[k - opt_seq(tm).len()]);
                    }
                }
            }
        }
    }
}

proof fn lemma_tracks_small(d: Seq<u8>, p: int, remaining: nat)
    ensures
        spec_tracks(d, p, remaining) matches Ok((ts, es)) ==> {
            &&& ts.len() <= (if d.len() > p { d.len() - p } else { 0 })
            &&& forall|k: int| 0 <= k < ts.len() ==> #[trigger] ts[k].micros_per_quarter < 0x100_0000
        },
    decreases remaining,
{
    if !(remaining == 0 || p < 0 || p + 8 > d.len()) {
        let end = chunk_end(d, p);
        lemma_tracks_small(d, end, (remaining - 1) as nat);
        lemma_track_small(d, p + 8, end, 0, 0);
        if let Ok((a, b)) = spec_chunk(d, p) {
            if let Ok((c, e)) = spec_tracks(d, end, (remaining - 1) as nat) {
                let ts = a + c;
                assert forall|k: int| 0 <= k < ts.len() implies #[trigger] ts[k].micros_per_quarter < 0x100_0000 by {
                    if k >= a.len() {
                        assert(ts[k] == c[k - a.len()]);
                    }
                }
            }
        }
    }
}

/// The notes in start order and the tempo map in tick order, from what
/// the tracks hold.
pub open spec fn sorted_result(
    r: Result<(Seq<TempoChange>, Seq<NoteEvent>), MidiError>,
    ticks_per_quarter: u32,
) -> Result<(Seq<MidiNote>, Seq<TempoChange>, u32), MidiError> {
    match r {
        Err(e) => Err(e),
        Ok((ts, es)) => Ok((notes_from(stable_sorted(es), 0), stable_sorted(ts), ticks_per_quarter)),
    }
}

/// What a MIDI file holds: its notes in start order, its tempo map in
/// tick order, and the ticks per quarter note; or why it cannot be read.
pub open spec fn spec_parse(d: Seq<u8>) -> Result<(Seq<MidiNote>, Seq<TempoChange>, u32), MidiError> {
    if d.len() < 14 || d.subrange(0, 4) != header_tag() {
        Err(MidiError::NotMidi)
    } else {
        let hlen = be_at(d, 4, 4);
        let ntracks = be_at(d, 10, 2);
        let division = be_at(d, 12, 2);
        let extra = if hlen >= 6 { hlen - 6 } else { 0 };
        if 14 + extra > d.len() {
            Err(MidiError::UnexpectedEnd)
        } else if division & 0x8000 != 0 {
            Err(MidiError::Smpte)
        } else {
            sorted_result(spec_tracks(d, 14 + extra, ntracks as nat), if division > 1 { division } else { 1u32 })
        }
    }
}

/// Ticks to time through the tempo map: the time (in microseconds times
/// the ticks per quarter note) from `last` to `tick`, given that the
/// tempo at `last` is `us` and the changes from index `i` on follow.
pub open spec fn elapsed(tempos: Seq<TempoChange>, i: int, tick: int, last: int, us: int) -> int
    decreases tempos.len() - i,
{
    if i < 0 || i >= tempos.len() || tempos[i].tick >= tick {
        (tick - last) * us
    } else {
        (tempos[i].tick - last) * us + elapsed(tempos, i + 1, tick, tempos[i].tick as int, tempos[i].micros_per_quarter as int)
    }
}

/// The tempo in force just after `t`: that of the last change from index
/// `i` on at or before `t`, or `us` when there is none.
pub open spec fn tempo_after(tempos: Seq<TempoChange>, i: int, t: int, us: int) -> int
    decreases tempos.len() - i,
{
    if i < 0 || i >= tempos.len() || tempos[i].tick > t {
        us
    } else {
        tempo_after(tempos, i + 1, t, tempos[i].micros_per_quarter as int)
    }
}

/// The time from `t0` to `t` at tempo `us` is `(t - t0) * us`.
proof fn lemma_span(last: int, t0: int, t: int, us: int)
    ensures
        (t - last) * us - (t0 - last) * us == (t - t0) * us,
{
    assert((t - last) * us - (t0 - last) * us == (t - t0) * us) by (nonlinear_arith);
}

/// Time from `t0` to `tick` through the tempo changes from `i` on, when no
/// change falls strictly between them and every change from `i` on comes at
/// or after `last`.
proof fn lemma_elapsed_span(tempos: Seq<TempoChange>, i: int, t0: int, tick: int, last: int, us: int)
    requires
        sorted_by_key(tempos),
        0 <= i,
        last <= t0 <= tick,
        forall|k: int| i <= k < tempos.len() ==> #[trigger] tempos[k].tick >= last,
        forall|k: int| i <= k < tempos.len() ==> !(t0 < #[trigger] tempos[k].tick && tempos[k].tick < tick),
    ensures
        elapsed(tempos, i, tick, last, us) - elapsed(tempos, i, t0, last, us) == (tick - t0) * tempo_after(tempos, i, t0, us),
    decreases tempos.len() - i,
{
    if i >= tempos.len() {
        lemma_span(last, t0, tick, us);
    } else {
        let c = tempos[i].tick as int;
        let u2 = tempos[i].micros_per_quarter as int;
        assert forall|k: int| i + 1 <= k < tempos.len() implies #[trigger] tempos[k].tick >= c by {
            assert(tempos[i].order_key() <= tempos[k].order_key());
        }
        if c >= tick {
            lemma_span(last, t0, tick, us);
            if c == t0 {
                assert(tick == t0);
            }
        } else if c < t0 {
            lemma_elapsed_span(tempos, i + 1, t0, tick, c, u2);
        } else {
            assert(c == t0);
            lemma_elapsed_span(tempos, i + 1, t0, tick, c, u2);
            lemma_elapsed_span(tempos, i + 1, t0, t0, c, u2);
            assert(elapsed(tempos, i + 1, t0, c, u2) == 0) by {
                if i + 1 < tempos.len() {
                    assert(tempos[i + 1].tick >= c);
                }
                assert((t0 - c) * u2 == 0) by (nonlinear_arith) requires t0 == c;
            }
            assert((t0 - last) * us + 0 == (c - last) * us);
        }
    }
}

/// Time is additive over the tempo map: from a tick `t0` up to a later
/// `tick` with no tempo change strictly between them, the time (in
/// microseconds times the ticks per quarter note, as
/// [`MidiData::micros_at`] divides it) grows by `(tick - t0)` times the
/// tempo in force just after `t0` (120 BPM before the first change). So a
/// change at tick `c` only counts from `c` on.
pub proof fn law_time_is_additive(tempos: Seq<TempoChange>, t0: int, tick: int)
    requires
        sorted_by_key(tempos),
        0 <= t0 <= tick,
        forall|k: int| 0 <= k < tempos.len() ==> !(t0 < #[trigger] tempos[k].tick && tempos[k].tick < tick),
    ensures
        elapsed(tempos, 0, tick, 0, DEFAULT_MICROS_PER_QUARTER as int) - elapsed(tempos, 0, t0, 0, DEFAULT_MICROS_PER_QUARTER as int)
            == (tick - t0) * tempo_after(tempos, 0, t0, DEFAULT_MICROS_PER_QUARTER as int),
{
    lemma_elapsed_span(tempos, 0, t0, tick, 0, DEFAULT_MICROS_PER_QUARTER as int);
}

/// The time up to `last` grows by at most 2^24 microseconds a tick: so
/// does the time up to `last + dt`.
proof fn lemma_segment_step(total: int, last: int, dt: int, us: int)
    requires
        0 <= total <= last * 0x100_0000,
        0 <= last,
        0 <= dt,
        0 <= us < 0x100_0000,
        last + dt <= 0xffff_ffff_ffff_ffff,
    ensures
        total + dt * us <= (last + dt) * 0x100_0000,
        (last + dt) * 0x100_0000 <= 0x1_0000_0000_0000_0000_0000_00,
{
    assert(dt * us <= dt * 0x100_0000) by (nonlinear_arith)
        requires
            0 <= dt,
            0 <= us < 0x100_0000,
    ;
}

proof fn lemma_be_ok(d: Seq<u8>, p: int, n: nat)
    requires
        0 <= p,
        p + n <= d.len(),
    ensures
        spec_be(d, p, n) matches Ok((v, q)) && q == p + n,
    decreases n,
{
    if n > 0 {
        lemma_be_ok(d, p, (n - 1) as nat);
    }
}

/// Default tempo (120 BPM).
pub const DEFAULT_MICROS_PER_QUARTER: u32 = 500_000;

/// The notes, tempo map and time division of a MIDI file.
pub struct MidiData {
    notes: Vec<MidiNote>,
    tempos: Vec<TempoChange>,
    ticks_per_quarter: u32,
}

impl MidiData {
    #[verifier::type_invariant]
    spec fn wf(self) -> bool {
        &&& sorted_by_key(self.tempos@)
        &&& self.ticks_per_quarter >= 1
        &&& forall|i: int| 0 <= i < self.tempos@.len() ==> #[trigger] self.tempos@[i].micros_per_quarter < 0x100_0000
    }

    /// The notes, in start order.
    pub closed spec fn spec_notes(self) -> Seq<MidiNote> {
        self.notes@
    }

    /// The tempo changes, in tick order.
    pub closed spec fn spec_tempos(self) -> Seq<TempoChange> {
        self.tempos@
    }

    /// Ticks per quarter note.
    pub closed spec fn spec_ticks_per_quarter(self) -> u32 {
        self.ticks_per_quarter
    }

    /// Notes in start order.
    pub fn notes(&self) -> (n: &Vec<MidiNote>)
        ensures
            n@ == self.spec_notes(),
    {
        &self.notes
    }

    /// Tempo changes in tick order.
    pub fn tempos(&self) -> (t: &Vec<TempoChange>)
        ensures
            t@ == self.spec_tempos(),
    {
        &self.tempos
    }

    /// Ticks per quarter note (the time division).
    pub fn ticks_per_quarter(&self) -> (t: u32)
        ensures
            t == self.spec_ticks_per_quarter(),
    {
        self.ticks_per_quarter
    }

    /// The first tempo of the file (microseconds per quarter note).
    pub fn first_tempo(&self) -> (t: Option<u32>)
        ensures
            t == (if self.spec_tempos().len() > 0 {
                Some(self.spec_tempos()[0].micros_per_quarter)
            } else {
                None::<u32>
            }),
    {
        if self.tempos.len() > 0 {
            Some(self.tempos[0].micros_per_quarter)
        } else {
            None
        }
    }

    /// Time of `tick` in microseconds (rounded down), following the tempo
    /// changes; 120 BPM before the first one.
    pub fn micros_at(&self, tick: u64) -> (us: u128)
        ensures
            us == elapsed(self.spec_tempos(), 0, tick as int, 0, DEFAULT_MICROS_PER_QUARTER as int)
                / (self.spec_ticks_per_quarter() as int),
    {
        proof {
            use_type_invariant(self);
        }
        let n: usize = self.tempos.len();
        let mut total: u128 = 0;
        let mut last: u64 = 0;
        let mut us: u32 = DEFAULT_MICROS_PER_QUARTER;
        let mut i: usize = 0;
        while i < n && self.tempos[i].tick < tick
            invariant
                n == self.tempos@.len(),
                i <= n,
                sorted_by_key(self.tempos@),
                forall|k: int| 0 <= k < n ==> #[trigger] self.tempos@[k].micros_per_quarter < 0x100_0000,
                us < 0x100_0000,
                last <= tick,
                i > 0 ==> last == self.tempos@[i - 1].tick,
                i == 0 ==> last == 0,
                total <= last * 0x100_0000,
                total + elapsed(self.tempos@, i as int, tick as int, last as int, us as int)
                    == elapsed(self.tempos@, 0, tick as int, 0, DEFAULT_MICROS_PER_QUARTER as int),
            decreases n - i,
        {
            let tt: u64 = self.tempos[i].tick;
            if i > 0 {
                assert(self.tempos@[i - 1].order_key() <= self.tempos@[i as int].order_key());
            }
            let dt: u64 = tt - last;
            proof {
                lemma_segment_step(total as int, last as int, dt as int, us as int);
            }
            let seg: u128 = dt as u128 * us as u128;
            total = total + seg;
            last = tt;
            us = self.tempos[i].micros_per_quarter;
            i += 1;
        }
        let dt: u64 = tick - last;
        proof {
            lemma_segment_step(total as int, last as int, dt as int, us as int);
        }
        let seg: u128 = dt as u128 * us as u128;
        (total + seg) / self.ticks_per_quarter as u128
    }
}

/// A note event is on exactly when its velocity is above zero: a note-on
/// with velocity 0 and every note-off switch a note off.
pub open spec fn on_by_velocity(e: NoteEvent) -> bool {
    e.on == (e.velocity > 0)
}

/// Every note event read from a file is on exactly when its velocity is
/// above zero: a note-on with velocity 0 is read as a note-off, and a
/// note-off has velocity 0.
pub proof fn law_note_events_on_by_velocity(d: Seq<u8>, p: int, tick: int, status: u8)
    ensures
        spec_event(d, p, tick, status) matches Ok((_, _, _, _, ev)) ==> (ev matches Some(e) ==> on_by_velocity(e)),
{
}

/// The note events of a track are all on exactly when their velocity is
/// above zero.
proof fn lemma_track_events_on_by_velocity(d: Seq<u8>, p: int, end: int, tick: int, status: u8)
    ensures
        spec_track(d, p, end, tick, status) matches Ok((_, es)) ==> forall|k: int| 0 <= k < es.len() ==> on_by_velocity(#[trigger] es[k]),
    decreases d.len() - p,
{
    if !(p >= end || p < 0 || p > d.len()) {
        lemma_event_progress(d, p, tick, status);
        law_note_events_on_by_velocity(d, p, tick, status);
        if let Ok((q, t, st, tm, ev)) = spec_event(d, p, tick, status) {
            lemma_track_events_on_by_velocity(d, q, end, t, st);
            if let Ok((a, b)) = spec_track(d, q, end, t, st) {
                let es = opt_seq(ev) + b;
                assert forall|k: int| 0 <= k < es.len() implies on_by_velocity(#[trigger] es[k]) by {
                    if k >= opt_seq(ev).len() {
                        assert(es[k] == b[k - opt_seq(ev).len()]);
                    }
                }
            }
        }
    }
}

/// The note events of all tracks are on exactly when their velocity is
/// above zero.
proof fn lemma_tracks_events_on_by_velocity(d: Seq<u8>, p: int, remaining: nat)
    ensures
        spec_tracks(d, p, remaining) matches Ok((_, es)) ==> forall|k: int| 0 <= k < es.len() ==> on_by_velocity(#[trigger] es[k]),
    decreases remaining,
{
    if !(remaining == 0 || p < 0 || p + 8 > d.len()) {
        let end = chunk_end(d, p);
        lemma_tracks_events_on_by_velocity(d, end, (remaining - 1) as nat);
        lemma_track_events_on_by_velocity(d, p + 8, end, 0, 0);
        if let Ok((a, b)) = spec_chunk(d, p) {
            if let Ok((c, e)) = spec_tracks(d, end, (remaining - 1) as nat) {
                let es = b + e;
                assert forall|k: int| 0 <= k < es.len() implies on_by_velocity(#[trigger] es[k]) by {
                    if k >= b.len() {
                        assert(es[k] == e[k - b.len()]);
                    }
                }
            }
        }
    }
}

/// The notes started by events that are on exactly when their velocity is
/// above zero all have a velocity above zero.
proof fn lemma_notes_from_velocity(evs: Seq<NoteEvent>, i: int)
    requires
        forall|k: int| 0 <= k < evs.len() ==> on_by_velocity(#[trigger] evs[k]),
    ensures
        forall|a: int| 0 <= a < notes_from(evs, i).len() ==> #[trigger] notes_from(evs, i)[a].velocity > 0,
    decreases evs.len() - i,
{
    if 0 <= i < evs.len() {
        lemma_notes_from_velocity(evs, i + 1);
        let rest = notes_from(evs, i + 1);
        if evs[i].on {
            assert(on_by_velocity(evs[i]));
            let ns = seq![note_at(evs, i)] + rest;
            assert forall|a: int| 0 <= a < ns.len() implies #[trigger] ns[a].velocity > 0 by {
                if a > 0 {
                    assert(ns[a] == rest[a - 1]);
                }
            }
        }
    }
}

/// A note-on with velocity 0 starts no note: every note that reading a MIDI
/// file gives has a velocity above zero.
pub proof fn law_notes_have_velocity(d: Seq<u8>)
    ensures
        spec_parse(d) matches Ok((notes, _, _)) ==> forall|a: int| 0 <= a < notes.len() ==> #[trigger] notes[a].velocity > 0,
{
    if !(d.len() < 14 || d.subrange(0, 4) != header_tag()) {
        let hlen = be_at(d, 4, 4);
        let extra = if hlen >= 6 { hlen - 6 } else { 0 };
        let r = spec_tracks(d, 14 + extra, be_at(d, 10, 2) as nat);
        lemma_tracks_events_on_by_velocity(d, 14 + extra, be_at(d, 10, 2) as nat);
        if let Ok((ts, es)) = r {
            let sorted = stable_sorted(es);
            lemma_stable_sorted_len(es);
            lemma_stable_sort_members(sorted, es);
            assert forall|k: int| 0 <= k < sorted.len() implies on_by_velocity(#[trigger] sorted[k]) by {
                assert(es.contains(sorted[k]));
                let m = choose|m: int| 0 <= m < es.len() && es[m] == sorted[k];
                assert(on_by_velocity(es[m]));
            }
            lemma_notes_from_velocity(sorted, 0);
        }
    }
}

/// Parse a .mid file. The delta times of a track are added up in a 64-bit
/// tick counter as they are read; a file whose delta times would pass it
/// is not taken (none under 128 GiB is such a file: see
/// [`lemma_short_files_fit`]).
pub fn parse(data: &[u8]) -> (r: Result<MidiData, MidiError>)
    requires
        midi_ticks_fit(data@),
    ensures
        match r {
            Ok(m) => {
                &&& spec_parse(data@) == Ok::<(Seq<MidiNote>, Seq<TempoChange>, u32), MidiError>((m.spec_notes(), m.spec_tempos(), m.spec_ticks_per_quarter()))
                &&& notes_well_ordered(m.spec_notes())
                &&& sorted_by_key(m.spec_tempos())
            },
            Err(e) => spec_parse(data@) == Err::<(Seq<MidiNote>, Seq<TempoChange>, u32), MidiError>(e),
        },
{
    if data.len() < 14 || !(data[0] == 0x4d && data[1] == 0x54 && data[2] == 0x68 && data[3] == 0x64) {
        proof {
            if data@.len() >= 14 {
                assert(data@.subrange(0, 4)[0] == data@[0]);
                assert(data@.subrange(0, 4)[1] == data@[1]);
                assert(data@.subrange(0, 4)[2] == data@[2]);
                assert(data@.subrange(0, 4)[3] == data@[3]);
            }
        }
        return Err(MidiError::NotMidi);
    }
    assert(data@.subrange(0, 4) =~= header_tag());
    proof {
        lemma_be_ok(data@, 4, 4);
        lemma_be_ok(data@, 8, 2);
        lemma_be_ok(data@, 10, 2);
        lemma_be_ok(data@, 12, 2);
    }
    let mut r = Reader { d: data, p: 0 };
    r.skip(4)?;
    let hlen: usize = r.be(4)? as usize;
    let _format: u32 = r.be(2)?;
    let ntracks: u32 = r.be(2)?;
    let division: u32 = r.be(2)?;
    r.skip(hlen.saturating_sub(6))?;
    if division & 0x8000 != 0 {
        return Err(MidiError::Smpte);
    }
    let tpq: u32 = if division > 1 { division } else { 1 };
    let mut tempos: Vec<TempoChange> = Vec::new();
    let mut events: Vec<NoteEvent> = Vec::new();
    let ghost d = data@;
    let ghost p0 = r.p as int;
    proof {
        assert(be_at(d, 4, 4) == hlen as u32);
        assert(be_at(d, 10, 2) == ntracks);
        assert(be_at(d, 12, 2) == division);
        let extra = if hlen >= 6 { hlen - 6 } else { 0 };
        assert(p0 == 14 + extra);
        assert(spec_parse(d) == sorted_result(spec_tracks(d, p0, ntracks as nat), tpq));
    }
    let mut i: u32 = 0;
    while i < ntracks && data.len() - r.p >= 8
        invariant
            r.wf(),
            r.d@ == d,
            d == data@,
            i <= ntracks,
            tracks_ticks_fit(d, r.p as int, (ntracks - i) as nat),
            spec_parse(d) == sorted_result(spec_tracks(d, p0, ntracks as nat), tpq),
            spec_tracks(d, p0, ntracks as nat)
                == prepend_found(tempos@, events@, spec_tracks(d, r.p as int, (ntracks - i) as nat)),
        decreases ntracks - i,
    {
        let ghost ts0 = tempos@;
        let ghost es0 = events@;
        let ghost p = r.p as int;
        match r.chunk(&mut tempos, &mut events) {
            Ok(_) => {},
            Err(e) => {
                proof {
                    assert(spec_tracks(d, p, (ntracks - i) as nat) == Err::<(Seq<TempoChange>, Seq<NoteEvent>), MidiError>(e));
                    assert(spec_tracks(d, p0, ntracks as nat) == Err::<(Seq<TempoChange>, Seq<NoteEvent>), MidiError>(e));
                }
                return Err(e);
            },
        }
        proof {
            let rest = spec_tracks(d, r.p as int, (ntracks - i - 1) as nat);
            if let Ok((a, b)) = spec_chunk(d, p) {
                assert(tempos@ =~= ts0 + a);
                assert(events@ =~= es0 + b);
                lemma_prepend_found_assoc(ts0, es0, a, b, rest);
            }
        }
        i += 1;
    }
    let sorted_tempos: Vec<TempoChange> = stable_sort(&tempos);
    let sorted_events: Vec<NoteEvent> = stable_sort(&events);
    let notes: Vec<MidiNote> = pair_notes(&sorted_events);
    proof {
        assert(spec_tracks(d, r.p as int, (ntracks - i) as nat) == Ok::<(Seq<TempoChange>, Seq<NoteEvent>), MidiError>((Seq::<TempoChange>::empty(), Seq::<NoteEvent>::empty())));
        assert(tempos@ + Seq::<TempoChange>::empty() =~= tempos@);
        assert(events@ + Seq::<NoteEvent>::empty() =~= events@);
        lemma_tracks_small(d, p0, ntracks as nat);
        assert forall|k: int| 0 <= k < sorted_tempos@.len() implies #[trigger] sorted_tempos@[k].micros_per_quarter < 0x100_0000 by {
            let m = choose|m: int| 0 <= m < tempos@.len() && tempos@[m] == sorted_tempos@[k];
        }
    }
    proof {
        lemma_notes_from_ordered(sorted_events@, 0);
    }
    Ok(MidiData { notes, tempos: sorted_tempos, ticks_per_quarter: tpq })
}

} // verus!
