//! Framing of the telemetry stream.
//!
//! A datagram travels as `[0xAA][id: 2, big endian][length: 1][data: 0 to 8][0xBB]`.

use vstd::prelude::*;

verus! {

/// Start byte of a frame.
pub const SOF: u8 = 0xAA;

/// End byte of a frame.
pub const EOF: u8 = 0xBB;

/// A zero byte ends a frame too.
pub const EOF_ZERO: u8 = 0x00;

/// Most data bytes of a frame.
pub const MAX_DATA: u8 = 8;

/// One bus frame, as the telemetry unit relays it.
#[derive(Debug)]
pub struct Datagram {
    pub id: u16,
    pub dlc: u8,
    pub data: Vec<u8>,
}

/// A bus frame, over mathematical sequences.
#[verifier::ext_equal]
pub struct DatagramView {
    pub id: u16,
    pub dlc: u8,
    pub data: Seq<u8>,
}

impl View for Datagram {
    type V = DatagramView;

    open spec fn view(&self) -> DatagramView {
        DatagramView { id: self.id, dlc: self.dlc, data: self.data@ }
    }
}

/// How far the parser is inside a frame, with what it has seen of it.
pub enum ParserView {
    /// Before a start byte.
    Sof,
    /// Inside the id.
    Id { got: Seq<u8> },
    /// Before the length.
    Dlc { id: u16 },
    /// Inside the data.
    Data { id: u16, dlc: u8, got: Seq<u8> },
    /// Before the end byte.
    Eof { dgram: DatagramView },
}

/// The id that two bytes write, the most significant first.
pub open spec fn id_of(high: u8, low: u8) -> u16 {
    (high * 256 + low) as u16
}

impl ParserView {
    /// What one more byte does: the parser afterwards, and the frame it completes. A frame
    /// without data goes from its length straight to its end byte.
    pub open spec fn push(self, byte: u8) -> (ParserView, Option<DatagramView>) {
        match self {
            ParserView::Sof => if byte == SOF {
                (ParserView::Id { got: Seq::empty() }, None)
            } else {
                (self, None)
            },
            ParserView::Id { got } => if got.len() == 0 {
                (ParserView::Id { got: seq![byte] }, None)
            } else {
                (ParserView::Dlc { id: id_of(got[0], byte) }, None)
            },
            ParserView::Dlc { id } => if byte > MAX_DATA {
                (ParserView::Sof, None)
            } else if byte == 0 {
                (
                    ParserView::Eof { dgram: DatagramView { id, dlc: 0, data: Seq::empty() } },
                    None,
                )
            } else {
                (ParserView::Data { id, dlc: byte, got: Seq::empty() }, None)
            },
            ParserView::Data { id, dlc, got } => if byte == SOF || byte == EOF {
                (ParserView::Sof, None)
            } else if got.len() + 1 == dlc {
                (
                    ParserView::Eof { dgram: DatagramView { id, dlc, data: got.push(byte) } },
                    None,
                )
            } else {
                (ParserView::Data { id, dlc, got: got.push(byte) }, None)
            },
            ParserView::Eof { dgram } => if byte == EOF || byte == EOF_ZERO {
                (ParserView::Sof, Some(dgram))
            } else {
                (ParserView::Sof, None)
            },
        }
    }

    /// The parser after a run of bytes.
    pub open spec fn after(self, stream: Seq<u8>) -> ParserView
        decreases stream.len(),
    {
        if stream.len() == 0 {
            self
        } else {
            self.push(stream[0]).0.after(stream.skip(1))
        }
    }

    /// The frames that a run of bytes completes.
    pub open spec fn frames(self, stream: Seq<u8>) -> Seq<DatagramView>
        decreases stream.len(),
    {
        if stream.len() == 0 {
            Seq::empty()
        } else {
            let (next, out) = self.push(stream[0]);
            let rest = next.frames(stream.skip(1));
            match out {
                Some(dgram) => seq![dgram] + rest,
                None => rest,
            }
        }
    }
}

/// Where the parser is inside a frame.
#[derive(Clone, Copy, Debug, PartialEq, Eq, Structural)]
enum State {
    Sof,
    Id,
    Dlc,
    Data,
    Eof,
}

/// Takes frames off the telemetry stream.
pub struct Parser {
    state: State,
    id: u16,
    dlc: u8,
    buf: Vec<u8>,
}

impl View for Parser {
    type V = ParserView;

    closed spec fn view(&self) -> ParserView {
        match self.state {
            State::Sof => ParserView::Sof,
            State::Id => ParserView::Id { got: self.buf@ },
            State::Dlc => ParserView::Dlc { id: self.id },
            State::Data => ParserView::Data { id: self.id, dlc: self.dlc, got: self.buf@ },
            State::Eof => ParserView::Eof {
                dgram: DatagramView { id: self.id, dlc: self.dlc, data: self.buf@ },
            },
        }
    }
}

/// The frame that a push completed, over mathematical sequences.
pub open spec fn shown(out: Option<Datagram>) -> Option<DatagramView> {
    match out {
        Some(d) => Some(d@),
        None => None,
    }
}

impl Parser {
    /// What every parser keeps: what it has seen of a part is shorter than the part.
    pub closed spec fn wf(self) -> bool {
        match self.state {
            State::Sof => true,
            State::Id => self.buf@.len() < 2,
            State::Dlc => true,
            State::Data => self.buf@.len() < self.dlc <= MAX_DATA,
            State::Eof => self.buf@.len() == self.dlc <= MAX_DATA,
        }
    }

    /// A parser that waits for a start byte.
    pub fn new() -> (parser: Self)
        ensures
            parser.wf(),
            parser@ == ParserView::Sof,
    {
        Self { state: State::Sof, id: 0, dlc: 0, buf: Vec::new() }
    }

    /// Waits for a start byte.
    fn reset(&mut self)
        ensures
            final(self).wf(),
            final(self)@ == ParserView::Sof,
    {
        self.state = State::Sof;
        self.buf.clear();
    }

    /// Takes one byte; returns the frame that it completes.
    pub fn push(&mut self, byte: u8) -> (out: Option<Datagram>)
        requires
            old(self).wf(),
        ensures
            final(self).wf(),
            (final(self)@, shown(out)) == old(self)@.push(byte),
    {
        match self.state {
            State::Sof => {
                if byte == SOF {
                    self.buf.clear();
                    self.state = State::Id;
                }
            },
            State::Id => {
                if self.buf.len() == 0 {
                    self.buf.push(byte);
                    assert(self.buf@ =~= seq![byte]);
                } else {
                    self.id = self.buf[0] as u16 * 256 + byte as u16;
                    self.state = State::Dlc;
                }
            },
            State::Dlc => {
                if byte > MAX_DATA {
                    self.reset();
                } else {
                    self.dlc = byte;
                    self.buf.clear();
                    self.state = if byte == 0 {
                        State::Eof
                    } else {
                        State::Data
                    };
                    assert(self.buf@ =~= Seq::empty());
                }
            },
            State::Data => {
                if byte == SOF || byte == EOF {
                    self.reset();
                } else {
                    self.buf.push(byte);
                    if self.buf.len() == self.dlc as usize {
                        self.state = State::Eof;
                    }
                }
            },
            State::Eof => {
                if byte == EOF || byte == EOF_ZERO {
                    let mut data: Vec<u8> = Vec::new();
                    std::mem::swap(&mut data, &mut self.buf);
                    let dgram = Datagram { id: self.id, dlc: self.dlc, data };
                    self.reset();
                    return Some(dgram);
                }
                self.reset();
            },
        }
        None
    }
}

// == Laws =====================================================================

/// Whether a byte ends a frame.
pub open spec fn ends_frame(byte: u8) -> bool {
    byte == EOF || byte == EOF_ZERO
}

/// The bytes of a frame.
pub open spec fn frame_bytes(id: u16, data: Seq<u8>, end: u8) -> Seq<u8> {
    seq![SOF, (id / 256) as u8, (id % 256) as u8, data.len() as u8] + data + seq![end]
}

/// Bytes may arrive in any portions.
pub proof fn law_portions_do_not_matter(v: ParserView, a: Seq<u8>, b: Seq<u8>)
    ensures
        v.after(a + b) == v.after(a).after(b),
        v.frames(a + b) == v.frames(a) + v.after(a).frames(b),
    decreases a.len(),
{
    if a.len() == 0 {
        assert(a + b =~= b);
        assert(v.frames(a) + v.frames(b) =~= v.frames(b));
    } else {
        assert((a + b).skip(1) =~= a.skip(1) + b);
        law_portions_do_not_matter(v.push(a[0]).0, a.skip(1), b);
        assert(v.frames(a + b) =~= v.frames(a) + v.after(a).frames(b));
    }
}

/// Data bytes short of the length are collected.
proof fn lemma_data_is_collected(id: u16, dlc: u8, got: Seq<u8>, more: Seq<u8>)
    requires
        got.len() + more.len() < dlc <= MAX_DATA,
        forall|i: int| 0 <= i < more.len() ==> more[i] != SOF && more[i] != EOF,
    ensures
        (ParserView::Data { id, dlc, got }).after(more) == (ParserView::Data {
            id,
            dlc,
            got: got + more,
        }),
        (ParserView::Data { id, dlc, got }).frames(more) == Seq::<DatagramView>::empty(),
    decreases more.len(),
{
    if more.len() == 0 {
        assert(got + more =~= got);
    } else {
        assert(more[0] != SOF && more[0] != EOF);
        lemma_data_is_collected(id, dlc, got.push(more[0]), more.skip(1));
        assert(got.push(more[0]) + more.skip(1) =~= got + more);
    }
}

/// A frame whose data holds no start or end byte comes out of a waiting parser whole, and
/// alone, and the parser waits again, whichever byte ends the frame.
pub proof fn law_frame_comes_out_whole(id: u16, data: Seq<u8>, end: u8)
    requires
        data.len() <= MAX_DATA,
        forall|i: int| 0 <= i < data.len() ==> data[i] != SOF && data[i] != EOF,
        ends_frame(end),
    ensures
        ParserView::Sof.after(frame_bytes(id, data, end)) == ParserView::Sof,
        ParserView::Sof.frames(frame_bytes(id, data, end)) == seq![
            DatagramView { id, dlc: data.len() as u8, data },
        ],
{
    let start = ParserView::Sof;
    let dlc = data.len() as u8;
    let head = seq![SOF, (id / 256) as u8, (id % 256) as u8, dlc];
    reveal_with_fuel(ParserView::after, 5);
    reveal_with_fuel(ParserView::frames, 5);
    assert(head.skip(1) =~= seq![(id / 256) as u8, (id % 256) as u8, dlc]);
    assert(head.skip(1).skip(1) =~= seq![(id % 256) as u8, dlc]);
    assert(head.skip(1).skip(1).skip(1) =~= seq![dlc]);
    assert(head.skip(1).skip(1).skip(1).skip(1) =~= Seq::<u8>::empty());
    assert(id_of((id / 256) as u8, (id % 256) as u8) == id);
    let dgram = DatagramView { id, dlc, data };
    let ready = ParserView::Eof { dgram };
    let tail = seq![end];
    assert(tail.skip(1) =~= Seq::<u8>::empty());
    assert(ready.frames(tail) =~= seq![dgram]);
    law_portions_do_not_matter(start, head, data);
    law_portions_do_not_matter(start, head + data, tail);
    if dlc == 0 {
        assert(data =~= Seq::empty());
        assert(start.after(head) == ready);
    } else {
        let open = ParserView::Data { id, dlc, got: Seq::empty() };
        assert(start.after(head) == open);
        let most = data.drop_last();
        let last = data.last();
        lemma_data_is_collected(id, dlc, Seq::empty(), most);
        assert(most + seq![last] =~= data);
        law_portions_do_not_matter(open, most, seq![last]);
        assert(Seq::<u8>::empty() + most =~= most);
        assert(most.push(last) =~= data);
        assert(seq![last].skip(1) =~= Seq::<u8>::empty());
        assert(open.after(data) == ready);
        assert(open.frames(data) =~= Seq::empty());
    }
    assert(start.frames(head) =~= Seq::empty());
    assert(start.frames(frame_bytes(id, data, end)) =~= seq![dgram]);
}

/// A parser with a frame in hand holds as much data as the frame announces, at most eight
/// bytes, so every frame that comes out does.
pub open spec fn sound(v: ParserView) -> bool {
    match v {
        ParserView::Data { id, dlc, got } => got.len() < dlc <= MAX_DATA,
        ParserView::Eof { dgram } => dgram.data.len() == dgram.dlc <= MAX_DATA,
        _ => true,
    }
}

/// Every frame that comes out of the stream holds as many data bytes as it announces, at most
/// eight.
pub proof fn law_frames_are_sound(v: ParserView, stream: Seq<u8>)
    requires
        sound(v),
    ensures
        sound(v.after(stream)),
        forall|i: int|
            0 <= i < v.frames(stream).len() ==> (#[trigger] v.frames(stream)[i]).data.len()
                == v.frames(stream)[i].dlc <= MAX_DATA,
    decreases stream.len(),
{
    if stream.len() > 0 {
        let (next, out) = v.push(stream[0]);
        law_frames_are_sound(next, stream.skip(1));
        let all = v.frames(stream);
        let rest = next.frames(stream.skip(1));
        assert forall|i: int| 0 <= i < all.len() implies (#[trigger] all[i]).data.len()
            == all[i].dlc <= MAX_DATA by {
            if out is Some {
                if i > 0 {
                    assert(all[i] == rest[i - 1]);
                }
            } else {
                assert(all[i] == rest[i]);
            }
        }
    }
}

/// The bytes of the frame that a parser is inside of, as far as it has come.
pub open spec fn seen(v: ParserView) -> Seq<u8> {
    match v {
        ParserView::Sof => Seq::empty(),
        ParserView::Id { got } => seq![SOF] + got,
        ParserView::Dlc { id } => seq![SOF, (id / 256) as u8, (id % 256) as u8],
        ParserView::Data { id, dlc, got } => seq![
            SOF,
            (id / 256) as u8,
            (id % 256) as u8,
            dlc,
        ] + got,
        ParserView::Eof { dgram } => seq![
            SOF,
            (dgram.id / 256) as u8,
            (dgram.id % 256) as u8,
            dgram.dlc,
        ] + dgram.data,
    }
}

/// Bytes that can stand in the data of a frame.
pub open spec fn are_data(bytes: Seq<u8>) -> bool {
    forall|i: int| 0 <= i < bytes.len() ==> bytes[i] != SOF && bytes[i] != EOF
}

/// What a parser holds can be held, and is what came last.
spec fn held(v: ParserView, past: Seq<u8>) -> bool {
    &&& sound(v)
    &&& seen(v).len() <= past.len()
    &&& past.skip(past.len() - seen(v).len()) == seen(v)
    &&& match v {
        ParserView::Id { got } => got.len() < 2,
        ParserView::Data { id, dlc, got } => are_data(got),
        ParserView::Eof { dgram } => are_data(dgram.data),
        _ => true,
    }
}

proof fn lemma_held(past: Seq<u8>)
    ensures
        held(ParserView::Sof.after(past), past),
    decreases past.len(),
{
    let start = ParserView::Sof;
    if past.len() == 0 {
        assert(past.skip(0) =~= Seq::empty());
    } else {
        let most = past.drop_last();
        let byte = past.last();
        lemma_held(most);
        assert(past =~= most + seq![byte]);
        law_portions_do_not_matter(start, most, seq![byte]);
        let v = start.after(most);
        let next = v.push(byte).0;
        assert(seq![byte].skip(1) =~= Seq::<u8>::empty());
        assert(v.after(seq![byte]) == next) by {
            reveal_with_fuel(ParserView::after, 2);
        }
        let before = most.skip(most.len() - seen(v).len());
        assert(past.skip(past.len() - (seen(v).len() + 1)) =~= before.push(byte));
        match next {
            ParserView::Sof => {
                assert(past.skip(past.len() as int) =~= Seq::empty());
            },
            ParserView::Id { got } => {
                assert(seen(next) =~= seen(v).push(byte));
            },
            ParserView::Dlc { id } => {
                let first = v->Id_got[0];
                assert(id / 256 == first && id % 256 == byte);
                assert(seen(next) =~= seen(v).push(byte));
            },
            _ => {
                assert(seen(next) =~= seen(v).push(byte));
            },
        }
    }
}

/// A frame that comes out was sent: the bytes that came last are its own, its end byte last.
pub proof fn law_frames_were_sent(past: Seq<u8>, byte: u8)
    ensures
        match ParserView::Sof.after(past).push(byte).1 {
            Some(d) => {
                let bytes = frame_bytes(d.id, d.data, byte);
                &&& ends_frame(byte)
                &&& d.dlc == d.data.len() <= MAX_DATA
                &&& are_data(d.data)
                &&& bytes.len() <= past.len() + 1
                &&& past.push(byte).skip(past.len() + 1 - bytes.len()) == bytes
            },
            None => true,
        },
{
    lemma_held(past);
    let v = ParserView::Sof.after(past);
    if let Some(d) = v.push(byte).1 {
        let bytes = frame_bytes(d.id, d.data, byte);
        let before = past.skip(past.len() - seen(v).len());
        assert(bytes =~= seen(v).push(byte));
        assert(past.push(byte).skip(past.len() + 1 - bytes.len()) =~= before.push(byte));
    }
}

/// A broken frame is dropped whole and the parser waits for the next start byte: at a length
/// beyond eight, at a start or an end byte among the data, and at anything but an end byte
/// behind the data.
pub proof fn law_broken_frames_are_dropped(v: ParserView, byte: u8)
    ensures
        v is Dlc && byte > 8 ==> v.push(byte) == (ParserView::Sof, None::<DatagramView>),
        v is Data && (byte == 0xAA || byte == 0xBB) ==> v.push(byte) == (
            ParserView::Sof,
            None::<DatagramView>,
        ),
        v is Eof && byte != 0xBB && byte != 0 ==> v.push(byte) == (
            ParserView::Sof,
            None::<DatagramView>,
        ),
        v is Sof && byte != 0xAA ==> v.push(byte) == (ParserView::Sof, None::<DatagramView>),
        v.push(byte).1 is Some <==> v is Eof && (byte == 0xBB || byte == 0),
{
}

/// A frame is its start byte, its id with the high byte first, the number of its data bytes, the
/// data and its end byte.
pub proof fn law_frame_fields_have_their_places(id: u16, data: Seq<u8>, end: u8)
    requires
        data.len() <= 8,
    ensures
        ({
            let f = frame_bytes(id, data, end);
            &&& f.len() == 5 + data.len()
            &&& f[0] == 0xAA
            &&& 256 * f[1] + f[2] == id
            &&& f[3] == data.len()
            &&& f.subrange(4, 4 + data.len() as int) == data
            &&& f[4 + data.len() as int] == end
        }),
        ends_frame(end) <==> end == 0xBB || end == 0,
{
    assert(frame_bytes(id, data, end).subrange(4, 4 + data.len() as int) =~= data);
}

} // verus!
