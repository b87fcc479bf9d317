//! Intel HEX input: records are read line by line into a staging buffer per
//! extended linear address; an end-of-file record, or a switch to another
//! linear address, turns the buffer into a chunk.

use vstd::prelude::*;
use crate::image::{FlashChunk, ImageError, Piece, make_chunk, models, checksums_hold};

verus! {

/// One Intel HEX record.
#[derive(Clone, Debug)]
pub enum HexRecord {
    Data { offset: u16, value: Vec<u8> },
    EndOfFile,
    ExtendedSegmentAddress(u16),
    StartSegmentAddress { cs: u16, ip: u16 },
    ExtendedLinearAddress(u16),
    StartLinearAddress(u32),
}

/// A record with its data as a sequence.
pub enum HexRecordView {
    Data { offset: u16, value: Seq<u8> },
    EndOfFile,
    ExtendedSegmentAddress(u16),
    StartSegmentAddress { cs: u16, ip: u16 },
    ExtendedLinearAddress(u16),
    StartLinearAddress(u32),
}

impl View for HexRecord {
    type V = HexRecordView;

    open spec fn view(&self) -> HexRecordView {
        match self {
            HexRecord::Data { offset, value } => HexRecordView::Data { offset: *offset, value: value@ },
            HexRecord::EndOfFile => HexRecordView::EndOfFile,
            HexRecord::ExtendedSegmentAddress(a) => HexRecordView::ExtendedSegmentAddress(*a),
            HexRecord::StartSegmentAddress { cs, ip } => HexRecordView::StartSegmentAddress {
                cs: *cs,
                ip: *ip,
            },
            HexRecord::ExtendedLinearAddress(a) => HexRecordView::ExtendedLinearAddress(*a),
            HexRecord::StartLinearAddress(a) => HexRecordView::StartLinearAddress(*a),
        }
    }
}

/// The record that one line of Intel HEX text holds, without its line end;
/// `None` for a line that is not a valid record (or not UTF-8).
pub uninterp spec fn hex_record_of(line: Seq<u8>) -> Option<HexRecordView>;

/// Relies on `ihex::Record::from_record_string`: it decodes a line (start
/// code, hexadecimal digits, length and checksum checked) into a record whose
/// data has at most 255 bytes, the size its one-byte length field allows.
#[verifier::external_body]
fn parse_record(line: &[u8]) -> (r: Option<HexRecord>)
    ensures
        match r {
            Some(rec) => hex_record_of(line@) == Some(rec@),
            None => hex_record_of(line@) is None,
        },
        r matches Some(HexRecord::Data { value, .. }) ==> value@.len() <= 255,
{
    let text = std::str::from_utf8(line).ok()?;
    let rec = ihex::Record::from_record_string(text).ok()?;
    Some(match rec {
        ihex::Record::Data { offset, value } => HexRecord::Data { offset, value },
        ihex::Record::EndOfFile => HexRecord::EndOfFile,
        ihex::Record::ExtendedSegmentAddress(a) => HexRecord::ExtendedSegmentAddress(a),
        ihex::Record::StartSegmentAddress { cs, ip } => HexRecord::StartSegmentAddress { cs, ip },
        ihex::Record::ExtendedLinearAddress(a) => HexRecord::ExtendedLinearAddress(a),
        ihex::Record::StartLinearAddress(a) => HexRecord::StartLinearAddress(a),
    })
}

/// `buf` extended with erased bytes (0xFF) up to length `n`.
pub open spec fn pad_to(buf: Seq<u8>, n: int) -> Seq<u8> {
    if buf.len() < n {
        buf + Seq::new((n - buf.len()) as nat, |i: int| 0xffu8)
    } else {
        buf
    }
}

/// `buf` with `v` written at `off`: first padded with 0xFF up to `off`, then
/// overwritten, and extended where `v` reaches past its end.
pub open spec fn write_at(buf: Seq<u8>, off: int, v: Seq<u8>) -> Seq<u8> {
    let p = pad_to(buf, off);
    let n = if p.len() < off + v.len() { off + v.len() } else { p.len() as int };
    Seq::new(n as nat, |j: int| if off <= j < off + v.len() { v[j - off] } else { p[j] })
}

/// A staging buffer after the writes `ws` (offset and bytes), in order,
/// starting from an empty one.
pub open spec fn fill(ws: Seq<(int, Seq<u8>)>) -> Seq<u8>
    decreases ws.len(),
{
    if ws.len() == 0 {
        Seq::empty()
    } else {
        write_at(fill(ws.drop_last()), ws.last().0, ws.last().1)
    }
}

/// Some write of `ws` covers position `j`.
pub open spec fn covered(ws: Seq<(int, Seq<u8>)>, j: int) -> bool {
    exists|k: int| 0 <= k < ws.len() && (#[trigger] ws[k]).0 <= j < ws[k].0 + ws[k].1.len()
}

/// Gap fill: a byte of a staging buffer that no write covered holds the
/// erased value 0xFF.
pub proof fn lemma_gap_fill(ws: Seq<(int, Seq<u8>)>, j: int)
    requires
        forall|k: int| 0 <= k < ws.len() ==> (#[trigger] ws[k]).0 >= 0,
        0 <= j < fill(ws).len(),
        !covered(ws, j),
    ensures
        fill(ws)[j] == 0xffu8,
    decreases ws.len(),
{
    let prev = ws.drop_last();
    let b = fill(prev);
    let (off, v) = ws.last();
    assert(ws[ws.len() - 1] == ws.last());
    assert(!(off <= j < off + v.len()));
    if j < b.len() {
        assert forall|k: int| 0 <= k < prev.len() implies (#[trigger] prev[k]).0 >= 0 by {
            assert(prev[k] == ws[k]);
        }
        assert(!covered(prev, j)) by {
            if covered(prev, j) {
                let k = choose|k: int| 0 <= k < prev.len() && (#[trigger] prev[k]).0 <= j < prev[k].0 + prev[k].1.len();
                assert(ws[k] == prev[k]);
            }
        }
        lemma_gap_fill(prev, j);
    }
}

/// Writing at or past the end pads with 0xFF and appends.
pub proof fn lemma_write_at_append(buf: Seq<u8>, off: int, v: Seq<u8>)
    requires
        buf.len() <= off,
    ensures
        write_at(buf, off, v) == pad_to(buf, off) + v,
{
    assert(write_at(buf, off, v) =~= pad_to(buf, off) + v);
}

/// Progress through a HEX file: the linear base address, the staging buffer,
/// and the chunks finished so far.
pub struct HexState {
    pub base: u32,
    pub buf: Seq<u8>,
    pub pieces: Seq<Piece>,
}

/// The finished chunks with the staging buffer added, unless it is empty.
pub open spec fn flushed(st: HexState) -> Seq<Piece> {
    if st.buf.len() > 0 {
        st.pieces.push((st.base, st.buf))
    } else {
        st.pieces
    }
}

/// The effect of one record.
pub open spec fn hex_apply(st: HexState, rec: HexRecordView) -> HexState {
    match rec {
        HexRecordView::Data { offset, value } => HexState {
            base: st.base,
            buf: write_at(st.buf, offset as int, value),
            pieces: st.pieces,
        },
        HexRecordView::ExtendedLinearAddress(a) => {
            let nb = (a as int * 0x10000) as u32;
            if nb == st.base {
                st
            } else {
                HexState { base: nb, buf: Seq::empty(), pieces: flushed(st) }
            }
        },
        HexRecordView::EndOfFile => HexState { base: st.base, buf: Seq::empty(), pieces: flushed(st) },
        _ => st,
    }
}

/// A line without a trailing carriage return.
pub open spec fn trim_line(l: Seq<u8>) -> Seq<u8> {
    if l.len() > 0 && l.last() == 0x0d {
        l.drop_last()
    } else {
        l
    }
}

/// The effect of one line; blank lines are skipped.
pub open spec fn hex_line(st: Result<HexState, ImageError>, line: Seq<u8>) -> Result<HexState, ImageError> {
    match st {
        Err(e) => Err(e),
        Ok(s) => {
            let t = trim_line(line);
            if t.len() == 0 {
                Ok(s)
            } else {
                match hex_record_of(t) {
                    Some(r) => Ok(hex_apply(s, r)),
                    None => Err(ImageError::MalformedHex),
                }
            }
        },
    }
}

/// The pieces of `text` between line feeds (the last one possibly empty).
pub open spec fn split_lines(text: Seq<u8>) -> Seq<Seq<u8>>
    decreases text.len(),
{
    if text.len() == 0 {
        seq![Seq::empty()]
    } else {
        let ls = split_lines(text.drop_last());
        if text.last() == 0x0a {
            ls.push(Seq::empty())
        } else {
            ls.update(ls.len() - 1, ls.last().push(text.last()))
        }
    }
}

/// The state after the lines `ls`, from linear base 0 and an empty buffer.
pub open spec fn hex_run(ls: Seq<Seq<u8>>) -> Result<HexState, ImageError>
    decreases ls.len(),
{
    if ls.len() == 0 {
        Ok(HexState { base: 0, buf: Seq::empty(), pieces: Seq::empty() })
    } else {
        hex_line(hex_run(ls.drop_last()), ls.last())
    }
}

/// The chunks of an Intel HEX file.
pub open spec fn hex_pieces(text: Seq<u8>) -> Result<Seq<Piece>, ImageError> {
    match hex_run(split_lines(text)) {
        Ok(st) => Ok(st.pieces),
        Err(e) => Err(e),
    }
}

struct HexBuilder {
    base: u32,
    buf: Vec<u8>,
    chunks: Vec<FlashChunk>,
}

impl HexBuilder {
    spec fn state(&self) -> HexState {
        HexState { base: self.base, buf: self.buf@, pieces: models(self.chunks@) }
    }

    fn flush(&mut self)
        requires
            checksums_hold(old(self).chunks@),
        ensures
            final(self).state() == (HexState { base: old(self).base, buf: Seq::empty(), pieces: flushed(old(self).state()) }),
            checksums_hold(final(self).chunks@),
    {
        if self.buf.len() > 0 {
            let mut data: Vec<u8> = Vec::new();
            std::mem::swap(&mut data, &mut self.buf);
            let c = make_chunk(self.base, data);
            let ghost before = self.chunks@;
            self.chunks.push(c);
            assert(models(self.chunks@) =~= models(before).push((old(self).base, old(self).buf@)));
            assert(self.buf@ =~= Seq::<u8>::empty());
        } else {
            assert(self.buf@ =~= Seq::<u8>::empty());
        }
    }

    fn write(&mut self, offset: u16, value: &Vec<u8>)
        requires
            value@.len() <= 255,
        ensures
            final(self).state() == (HexState { buf: write_at(old(self).buf@, offset as int, value@), ..old(self).state() }),
            final(self).chunks == old(self).chunks,
    {
        let off = offset as usize;
        let ghost old_buf = self.buf@;
        while self.buf.len() < off
            invariant
                self.buf@.len() >= old_buf.len(),
                self.buf@.subrange(0, old_buf.len() as int) == old_buf,
                forall|j: int| old_buf.len() <= j < self.buf@.len() ==> self.buf@[j] == 0xffu8,
                old_buf.len() < off ==> self.buf@.len() <= off,
                old_buf.len() >= off ==> self.buf@.len() == old_buf.len(),
                self.chunks == old(self).chunks,
                self.base == old(self).base,
            decreases off - self.buf@.len(),
        {
            self.buf.push(0xff);
            assert(self.buf@.subrange(0, old_buf.len() as int) =~= old_buf);
        }
        let ghost p = self.buf@;
        assert(p =~= pad_to(old_buf, off as int));
        let mut k: usize = 0;
        while k < value.len()
            invariant
                off <= p.len(),
                k <= value@.len() <= 255,
                off <= 0xffff,
                self.buf@ == write_at(p, off as int, value@.take(k as int)),
                self.chunks == old(self).chunks,
                self.base == old(self).base,
            decreases value@.len() - k,
        {
            if off + k < self.buf.len() {
                self.buf[off + k] = value[k];
            } else {
                self.buf.push(value[k]);
            }
            k = k + 1;
            assert(self.buf@ =~= write_at(p, off as int, value@.take(k as int)));
        }
        assert(value@.take(value@.len() as int) =~= value@);
        assert(write_at(p, off as int, value@) =~= write_at(old_buf, off as int, value@));
    }

    fn apply(&mut self, rec: &HexRecord)
        requires
            checksums_hold(old(self).chunks@),
            *rec matches HexRecord::Data { value, .. } ==> value@.len() <= 255,
        ensures
            final(self).state() == hex_apply(old(self).state(), rec@),
            checksums_hold(final(self).chunks@),
    {
        match rec {
            HexRecord::Data { offset, value } => {
                self.write(*offset, value);
            },
            HexRecord::ExtendedLinearAddress(a) => {
                let nb: u32 = (*a as u32) * 0x10000;
                if nb != self.base {
                    self.flush();
                    self.base = nb;
                }
            },
            HexRecord::EndOfFile => {
                self.flush();
            },
            _ => {},
        }
    }

    /// Handles `text[start..end]`; false when the line is not a record.
    fn line(&mut self, text: &[u8], start: usize, end: usize) -> (ok: bool)
        requires
            start <= end <= text@.len(),
            checksums_hold(old(self).chunks@),
        ensures
            ok ==> hex_line(Ok(old(self).state()), text@.subrange(start as int, end as int)) == Ok::<
                HexState,
                ImageError,
            >(final(self).state()),
            !ok ==> hex_line(Ok(old(self).state()), text@.subrange(start as int, end as int)) == Err::<
                HexState,
                ImageError,
            >(ImageError::MalformedHex),
            checksums_hold(final(self).chunks@),
    {
        let ghost l = text@.subrange(start as int, end as int);
        let mut e = end;
        if e > start && text[e - 1] == 0x0d {
            e = e - 1;
        }
        assert(text@.subrange(start as int, e as int) =~= trim_line(l));
        if e == start {
            return true;
        }
        match parse_record(&text[start..e]) {
            Some(rec) => {
                self.apply(&rec);
                true
            },
            None => false,
        }
    }
}

/// The chunks of an Intel HEX file, given its contents.
pub fn hex_to_chunks(text: &[u8]) -> (r: Result<Vec<FlashChunk>, ImageError>)
    ensures
        match r {
            Ok(cs) => hex_pieces(text@) == Ok::<Seq<Piece>, ImageError>(models(cs@)) && checksums_hold(cs@),
            Err(e) => hex_pieces(text@) == Err::<Seq<Piece>, ImageError>(e),
        },
{
    let mut b = HexBuilder { base: 0, buf: Vec::new(), chunks: Vec::new() };
    let mut failed = false;
    let mut start: usize = 0;
    let mut i: usize = 0;
    let ghost mut done: Seq<Seq<u8>> = Seq::empty();
    assert(models(b.chunks@) =~= Seq::<Piece>::empty());
    assert(split_lines(text@.take(0)) =~~= done.push(text@.subrange(0, 0)));
    while i < text.len()
        invariant
            start <= i <= text@.len(),
            split_lines(text@.take(i as int)) == done.push(text@.subrange(start as int, i as int)),
            failed ==> hex_run(done) == Err::<HexState, ImageError>(ImageError::MalformedHex),
            !failed ==> hex_run(done) == Ok::<HexState, ImageError>(b.state()),
            checksums_hold(b.chunks@),
        decreases text@.len() - i,
    {
        assert(text@.take(i + 1).drop_last() =~= text@.take(i as int));
        if text[i] == 0x0a {
            if !failed {
                if !b.line(text, start, i) {
                    failed = true;
                }
            }
            proof {
                assert(done.push(text@.subrange(start as int, i as int)).drop_last() =~= done);
                done = done.push(text@.subrange(start as int, i as int));
            }
            start = i + 1;
            i = i + 1;
            assert(split_lines(text@.take(i as int)) =~~= done.push(text@.subrange(start as int, i as int)));
        } else {
            i = i + 1;
            assert(split_lines(text@.take(i as int)) =~~= done.push(text@.subrange(start as int, i as int)));
        }
    }
    assert(text@.take(text@.len() as int) =~= text@);
    let ghost ls = split_lines(text@);
    assert(ls.drop_last() =~= done);
    if failed {
        return Err(ImageError::MalformedHex);
    }
    if b.line(text, start, text.len()) {
        Ok(b.chunks)
    } else {
        Err(ImageError::MalformedHex)
    }
}

/// A data record holds at most 255 bytes, as its one-byte length field allows.
pub open spec fn record_fits(r: HexRecordView) -> bool {
    r matches HexRecordView::Data { value, .. } ==> value.len() <= 255
}

/// The state after the records `recs`, in order, from linear base 0 and an
/// empty buffer; a data record with more than 255 bytes is malformed.
pub open spec fn hex_records_run(recs: Seq<HexRecordView>) -> Result<HexState, ImageError>
    decreases recs.len(),
{
    if recs.len() == 0 {
        Ok(HexState { base: 0, buf: Seq::empty(), pieces: Seq::empty() })
    } else {
        match hex_records_run(recs.drop_last()) {
            Err(e) => Err(e),
            Ok(st) => if record_fits(recs.last()) {
                Ok(hex_apply(st, recs.last()))
            } else {
                Err(ImageError::MalformedHex)
            },
        }
    }
}

pub open spec fn record_views(recs: Seq<HexRecord>) -> Seq<HexRecordView> {
    recs.map_values(|x: HexRecord| x@)
}

proof fn lemma_hex_records_err(recs: Seq<HexRecordView>, n: int, e: ImageError)
    requires
        0 <= n <= recs.len(),
        hex_records_run(recs.take(n)) == Err::<HexState, ImageError>(e),
    ensures
        hex_records_run(recs) == Err::<HexState, ImageError>(e),
    decreases recs.len() - n,
{
    if n < recs.len() {
        assert(recs.take(n + 1).drop_last() =~= recs.take(n));
        lemma_hex_records_err(recs, n + 1, e);
    } else {
        assert(recs.take(n) =~= recs);
    }
}

/// The chunks that a sequence of records gives: those finished by an
/// end-of-file record or a switch of linear address.
pub fn hex_records_to_chunks(recs: &Vec<HexRecord>) -> (r: Result<Vec<FlashChunk>, ImageError>)
    ensures
        match r {
            Ok(cs) => checksums_hold(cs@) && (hex_records_run(record_views(recs@)) matches Ok(st)
                && st.pieces == models(cs@)),
            Err(e) => hex_records_run(record_views(recs@)) == Err::<HexState, ImageError>(e),
        },
{
    let ghost views = record_views(recs@);
    let mut b = HexBuilder { base: 0, buf: Vec::new(), chunks: Vec::new() };
    let mut i: usize = 0;
    assert(models(b.chunks@) =~= Seq::<Piece>::empty());
    while i < recs.len()
        invariant
            i <= recs@.len(),
            views == record_views(recs@),
            hex_records_run(views.take(i as int)) == Ok::<HexState, ImageError>(b.state()),
            checksums_hold(b.chunks@),
        decreases recs@.len() - i,
    {
        let rec = &recs[i];
        proof {
            assert(views.take(i + 1).drop_last() =~= views.take(i as int));
            assert(views.take(i + 1).last() == recs@[i as int]@);
        }
        let fits = match rec {
            HexRecord::Data { value, .. } => value.len() <= 255,
            _ => true,
        };
        if !fits {
            proof {
                lemma_hex_records_err(views, i + 1, ImageError::MalformedHex);
            }
            return Err(ImageError::MalformedHex);
        }
        b.apply(rec);
        i = i + 1;
    }
    assert(views.take(recs@.len() as int) =~= views);
    Ok(b.chunks)
}

} // verus!
