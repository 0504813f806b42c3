//! Reading a video stream frame by frame.
use crate::error::Error;
use crate::timing::has_lowest_terms;
use crate::video::{details_match, video_details, StreamProperties, VideoDetails};
use vstd::prelude::*;

verus! {

/// How far reading has come. What is done to the stream and its decoder is up to the caller.
#[derive(Debug, Clone, Copy, PartialEq, Eq, Structural)]
pub struct BitstreamReader {
    pub video_details: VideoDetails,
    /// The stream that is read.
    pub stream_index: usize,
    /// The number of frames that were handed out.
    pub frameno: usize,
    /// There are no packets left.
    pub end_of_stream: bool,
    /// The decoder was told so.
    pub eof_sent: bool,
}

/// What happened last on the way to the next frame.
#[derive(Debug, Clone, Copy, PartialEq, Eq, Structural)]
pub enum ReaderEvent {
    /// A frame is wanted.
    Wanted,
    /// A packet of this stream was read.
    Packet { stream_index: usize },
    /// No packet could be read.
    NoPacket,
    /// The decoder gave a picture.
    Received,
    /// The decoder gave none.
    NotReceived,
    /// The picture was turned into a frame.
    Decoded,
}

/// What is to be done next on the way to the next frame.
#[derive(Debug, Clone, Copy, PartialEq, Eq, Structural)]
pub enum ReaderAction {
    /// Read a packet.
    ReadPacket,
    /// Hand the packet to the decoder under this timestamp, and ask for a picture.
    Feed { pts: i64 },
    /// Tell the decoder that there is no more, and ask for a picture.
    Finish,
    /// Ask the decoder for a picture that it still holds.
    Drain,
    /// Turn the picture into a frame.
    Decode,
    /// Hand out the frame.
    Deliver,
    /// There are no more frames.
    End,
}

/// A number as it is taken for a signed one of 64 bits.
pub open spec fn as_timestamp(v: usize) -> int {
    if v <= i64::MAX {
        v as int
    } else {
        v - 0x1_0000_0000_0000_0000
    }
}

impl BitstreamReader {
    /// The decoder is told that there is no more only when there is no more.
    pub open spec fn wf(self) -> bool {
        self.eof_sent ==> self.end_of_stream
    }

    /// The event may come now: no more frames can be counted than there are numbers.
    pub open spec fn accepts(self, event: ReaderEvent) -> bool {
        event is Decoded ==> self.frameno < usize::MAX
    }

    /// How far reading has come after an event.
    pub open spec fn after(self, event: ReaderEvent) -> BitstreamReader {
        match event {
            ReaderEvent::NoPacket => BitstreamReader {
                end_of_stream: true,
                eof_sent: true,
                ..self
            },
            ReaderEvent::Packet { stream_index } => BitstreamReader {
                eof_sent: self.eof_sent || self.end_of_stream,
                ..self
            },
            ReaderEvent::Decoded => BitstreamReader {
                frameno: (self.frameno + 1) as usize,
                ..self
            },
            _ => self,
        }
    }

    /// What is to be done after an event.
    pub open spec fn next_action(self, event: ReaderEvent) -> ReaderAction {
        let ended = self.end_of_stream || event is NoPacket;
        match event {
            ReaderEvent::Wanted => ReaderAction::ReadPacket,
            ReaderEvent::Packet { stream_index } => if ended {
                if self.eof_sent {
                    ReaderAction::Drain
                } else {
                    ReaderAction::Finish
                }
            } else if stream_index == self.stream_index {
                ReaderAction::Feed { pts: as_timestamp(self.frameno) as i64 }
            } else {
                ReaderAction::ReadPacket
            },
            ReaderEvent::NoPacket => if self.eof_sent {
                ReaderAction::Drain
            } else {
                ReaderAction::Finish
            },
            ReaderEvent::Received => ReaderAction::Decode,
            ReaderEvent::NotReceived => if ended {
                ReaderAction::End
            } else {
                ReaderAction::ReadPacket
            },
            ReaderEvent::Decoded => ReaderAction::Deliver,
        }
    }

    /// Begins to read the stream at `stream_index`.
    pub fn open(properties: &StreamProperties, stream_index: usize) -> (r: Result<Self, Error>)
        requires
            properties.format.traits() is Some ==> has_lowest_terms(
                properties.rate().numer,
                properties.rate().denom,
            ),
        ensures
            match r {
                Ok(reader) => {
                    &&& reader.wf()
                    &&& details_match(reader.video_details, *properties)
                    &&& reader.stream_index == stream_index
                    &&& reader.frameno == 0
                    &&& !reader.end_of_stream
                    &&& !reader.eof_sent
                },
                Err(e) => properties.format.traits() is None && e == Error::UnsupportedFormat,
            },
    {
        match video_details(properties) {
            Ok(video_details) => Ok(
                BitstreamReader {
                    video_details,
                    stream_index,
                    frameno: 0,
                    end_of_stream: false,
                    eof_sent: false,
                },
            ),
            Err(e) => Err(e),
        }
    }

    /// What is known of the pictures of the stream.
    pub fn get_video_details(&self) -> (r: &VideoDetails)
        ensures
            *r == self.video_details,
    {
        &self.video_details
    }

    /// Goes one step on the way to the next frame.
    pub fn get_frame(&mut self, event: ReaderEvent) -> (r: ReaderAction)
        requires
            old(self).wf(),
            old(self).accepts(event),
        ensures
            final(self).wf(),
            *final(self) == old(self).after(event),
            r == old(self).next_action(event),
    {
        match event {
            ReaderEvent::Wanted => ReaderAction::ReadPacket,
            ReaderEvent::Packet { stream_index } => {
                if self.end_of_stream {
                    self.ask_for_rest()
                } else if stream_index == self.stream_index {
                    ReaderAction::Feed { pts: self.timestamp() }
                } else {
                    ReaderAction::ReadPacket
                }
            },
            ReaderEvent::NoPacket => {
                self.end_of_stream = true;
                self.ask_for_rest()
            },
            ReaderEvent::Received => ReaderAction::Decode,
            ReaderEvent::NotReceived => {
                if self.end_of_stream {
                    ReaderAction::End
                } else {
                    ReaderAction::ReadPacket
                }
            },
            ReaderEvent::Decoded => {
                self.frameno = self.frameno + 1;
                ReaderAction::Deliver
            },
        }
    }

    /// Goes one step on the way to the next frame with pixels of eight bits: the steps are the
    /// same, whatever the frame is made of.
    pub fn get_frame_u8(&mut self, event: ReaderEvent) -> (r: ReaderAction)
        requires
            old(self).wf(),
            old(self).accepts(event),
        ensures
            final(self).wf(),
            *final(self) == old(self).after(event),
            r == old(self).next_action(event),
    {
        self.get_frame(event)
    }

    /// Asks for what the decoder still holds; at first it is told that there is no more.
    fn ask_for_rest(&mut self) -> (r: ReaderAction)
        requires
            old(self).end_of_stream,
        ensures
            *final(self) == (BitstreamReader { eof_sent: true, ..*old(self) }),
            r == (if old(self).eof_sent {
                ReaderAction::Drain
            } else {
                ReaderAction::Finish
            }),
    {
        if self.eof_sent {
            ReaderAction::Drain
        } else {
            self.eof_sent = true;
            ReaderAction::Finish
        }
    }

    /// The timestamp of the next packet: the number of frames so far.
    fn timestamp(&self) -> (r: i64)
        ensures
            r == as_timestamp(self.frameno),
    {
        let v: i128 = self.frameno as i128;
        if v <= 0x7fff_ffff_ffff_ffff {
            v as i64
        } else {
            (v - 0x1_0000_0000_0000_0000) as i64
        }
    }
}

/// How far reading has come after all events.
pub open spec fn after_all(reader: BitstreamReader, events: Seq<ReaderEvent>) -> BitstreamReader
    decreases events.len(),
{
    if events.len() == 0 {
        reader
    } else {
        after_all(reader, events.drop_last()).after(events.last())
    }
}

/// What was to be done after each of the events.
pub open spec fn actions(reader: BitstreamReader, events: Seq<ReaderEvent>) -> Seq<ReaderAction>
    decreases events.len(),
{
    if events.len() == 0 {
        Seq::empty()
    } else {
        actions(reader, events.drop_last()).push(
            after_all(reader, events.drop_last()).next_action(events.last()),
        )
    }
}

/// Every event may come when it comes.
pub open spec fn acceptable(reader: BitstreamReader, events: Seq<ReaderEvent>) -> bool {
    forall|i: int|
        0 <= i < events.len() ==> after_all(reader, #[trigger] events.take(i)).accepts(events[i])
}

/// How often an action is among others.
pub open spec fn times(list: Seq<ReaderAction>, action: ReaderAction) -> nat
    decreases list.len(),
{
    if list.len() == 0 {
        0
    } else {
        times(list.drop_last(), action) + if list.last() == action {
            1nat
        } else {
            0nat
        }
    }
}

/// Law: as many frames are counted as are handed out.
pub proof fn law_frames_counted(reader: BitstreamReader, events: Seq<ReaderEvent>)
    requires
        acceptable(reader, events),
    ensures
        after_all(reader, events).frameno == reader.frameno + times(
            actions(reader, events),
            ReaderAction::Deliver,
        ),
    decreases events.len(),
{
    if events.len() > 0 {
        let front = events.drop_last();
        assert forall|i: int| 0 <= i < front.len() implies after_all(
            reader,
            #[trigger] front.take(i),
        ).accepts(front[i]) by {
            assert(front.take(i) =~= events.take(i));
            assert(after_all(reader, events.take(i)).accepts(events[i]));
        }
        law_frames_counted(reader, front);
        assert(events.take(events.len() - 1) =~= front);
        assert(after_all(reader, front).accepts(events[events.len() - 1]));
        assert(actions(reader, events).drop_last() =~= actions(reader, front));
    }
}

/// Law: the decoder is told at most once that there is no more, and never after it was told.
pub proof fn law_told_once(reader: BitstreamReader, events: Seq<ReaderEvent>)
    ensures
        times(actions(reader, events), ReaderAction::Finish) <= if reader.eof_sent {
            0nat
        } else {
            1nat
        },
        times(actions(reader, events), ReaderAction::Finish) == 1 ==> after_all(
            reader,
            events,
        ).eof_sent,
        reader.eof_sent ==> after_all(reader, events).eof_sent,
    decreases events.len(),
{
    if events.len() > 0 {
        let front = events.drop_last();
        law_told_once(reader, front);
        assert(actions(reader, events).drop_last() =~= actions(reader, front));
    }
}

/// Law: once there are no packets left, none is handed to the decoder, and reading stays at the
/// end.
pub proof fn law_nothing_fed_after_end(reader: BitstreamReader, events: Seq<ReaderEvent>)
    requires
        reader.end_of_stream,
    ensures
        after_all(reader, events).end_of_stream,
        forall|i: int|
            0 <= i < actions(reader, events).len() ==> !((#[trigger] actions(
                reader,
                events,
            )[i]) is Feed),
    decreases events.len(),
{
    if events.len() > 0 {
        law_nothing_fed_after_end(reader, events.drop_last());
        let list = actions(reader, events);
        let front = actions(reader, events.drop_last());
        assert forall|i: int| 0 <= i < list.len() implies !((#[trigger] list[i]) is Feed) by {
            if i < front.len() {
                assert(list[i] == front[i]);
            }
        }
    }
}

/// One of the first `n` events was that no packet could be read.
pub open spec fn ran_dry(events: Seq<ReaderEvent>, n: int) -> bool {
    exists|j: int| 0 <= j < n && (#[trigger] events[j]) is NoPacket
}

/// The number of pictures among events that were turned into frames.
pub open spec fn frames_made(events: Seq<ReaderEvent>) -> nat {
    events.filter(|event: ReaderEvent| event is Decoded).len()
}

/// The number of pictures among events that the decoder gave.
pub open spec fn pictures_given(events: Seq<ReaderEvent>) -> nat {
    events.filter(|event: ReaderEvent| event is Received).len()
}

/// One more event is counted.
proof fn lemma_counts(events: Seq<ReaderEvent>)
    ensures
        events.len() == 0 ==> frames_made(events) == 0 && pictures_given(events) == 0,
        events.len() > 0 ==> {
            &&& frames_made(events) == frames_made(events.drop_last()) + if events.last()
                is Decoded {
                1nat
            } else {
                0nat
            }
            &&& pictures_given(events) == pictures_given(events.drop_last()) + if events.last()
                is Received {
                1nat
            } else {
                0nat
            }
        },
{
    reveal(Seq::filter);
}

/// Events that may come when they come may do so without the last ones.
proof fn lemma_acceptable_front(reader: BitstreamReader, events: Seq<ReaderEvent>, n: int)
    requires
        acceptable(reader, events),
        0 <= n <= events.len(),
    ensures
        acceptable(reader, events.take(n)),
{
    let front = events.take(n);
    assert forall|i: int| 0 <= i < front.len() implies after_all(
        reader,
        #[trigger] front.take(i),
    ).accepts(front[i]) by {
        assert(front.take(i) =~= events.take(i));
        assert(after_all(reader, events.take(i)).accepts(events[i]));
    }
}

/// How far reading has come is told by the events alone.
proof fn lemma_history(reader: BitstreamReader, events: Seq<ReaderEvent>)
    requires
        !reader.end_of_stream,
        !reader.eof_sent,
        acceptable(reader, events),
    ensures
        ({
            let now = after_all(reader, events);
            &&& now.stream_index == reader.stream_index
            &&& now.end_of_stream == ran_dry(events, events.len() as int)
            &&& now.eof_sent == now.end_of_stream
            &&& now.frameno == reader.frameno + frames_made(events)
        }),
        actions(reader, events).len() == events.len(),
        forall|i: int|
            0 <= i < events.len() ==> #[trigger] actions(reader, events)[i] == after_all(
                reader,
                events.take(i),
            ).next_action(events[i]),
    decreases events.len(),
{
    lemma_counts(events);
    if events.len() > 0 {
        let front = events.drop_last();
        let n = events.len() - 1;
        assert(events.take(n) =~= front);
        lemma_acceptable_front(reader, events, n);
        lemma_history(reader, front);
        assert(events.take(n) =~= front);
        assert(after_all(reader, events.take(n)).accepts(events[n]));
        assert(ran_dry(events, n + 1) == (ran_dry(front, n) || events[n] is NoPacket)) by {
            if ran_dry(front, n) {
                let j = choose|j: int| 0 <= j < n && (#[trigger] front[j]) is NoPacket;
                assert(events[j] is NoPacket);
            }
            if ran_dry(events, n + 1) && !(events[n] is NoPacket) {
                let j = choose|j: int| 0 <= j < n + 1 && (#[trigger] events[j]) is NoPacket;
                assert(front[j] is NoPacket);
            }
        }
        assert forall|i: int| 0 <= i < events.len() implies #[trigger] actions(reader, events)[i]
            == after_all(reader, events.take(i)).next_action(events[i]) by {
            if i < n {
                assert(actions(reader, events)[i] == actions(reader, front)[i]);
                assert(front.take(i) =~= events.take(i));
            }
        }
    }
}

/// Law: what is done after an event of a run is told by what happened so far. A wanted frame
/// always leads to reading a packet. A packet of the stream goes to the decoder under the number
/// of frames so far, as long as there were packets. When for the first time there is none, the
/// decoder is told, and from then on it is asked for what it holds. The end comes if and only if
/// the decoder gives no picture then. Every picture that it gives is turned into a frame, and
/// every frame is handed out.
pub proof fn law_actions_of_history(reader: BitstreamReader, events: Seq<ReaderEvent>, i: int)
    requires
        !reader.end_of_stream,
        !reader.eof_sent,
        acceptable(reader, events),
        0 <= i < events.len(),
    ensures
        ({
            let event = events[i];
            let action = actions(reader, events)[i];
            let dry = ran_dry(events, i);
            let own = event == (ReaderEvent::Packet { stream_index: reader.stream_index });
            let number = reader.frameno + frames_made(events.take(i));
            &&& action is ReadPacket <==> event is Wanted || (!dry && (event is NotReceived || (
            event is Packet && !own)))
            &&& action is Feed <==> !dry && own
            &&& action matches ReaderAction::Feed { pts } ==> (number <= i64::MAX ==> pts == number)
                && (number > i64::MAX ==> pts < 0)
            &&& action is Finish <==> !dry && event is NoPacket
            &&& action is Drain <==> dry && (event is NoPacket || event is Packet)
            &&& action is Decode <==> event is Received
            &&& action is Deliver <==> event is Decoded
            &&& action is End <==> dry && event is NotReceived
        }),
{
    let front = events.take(i);
    lemma_acceptable_front(reader, events, i);
    lemma_history(reader, front);
    lemma_history(reader, events);
    assert(ran_dry(front, i) == ran_dry(events, i)) by {
        if ran_dry(front, i) {
            let j = choose|j: int| 0 <= j < i && (#[trigger] front[j]) is NoPacket;
            assert(events[j] is NoPacket);
        }
        if ran_dry(events, i) {
            let j = choose|j: int| 0 <= j < i && (#[trigger] events[j]) is NoPacket;
            assert(front[j] is NoPacket);
        }
    }
    assert(actions(reader, events)[i] == after_all(reader, front).next_action(events[i]));
}

/// Every action is followed by what comes of it: reading by a packet or none, asking the decoder
/// by a picture or none, turning a picture into a frame by that frame, and handing out a frame or
/// saying that there is none by the wish for the next.
pub open spec fn answered(reader: BitstreamReader, events: Seq<ReaderEvent>) -> bool {
    &&& events.len() > 0 ==> events[0] is Wanted
    &&& forall|i: int|
        0 < i < events.len() ==> match actions(reader, events)[i - 1] {
            ReaderAction::ReadPacket => (#[trigger] events[i]) is Packet || events[i] is NoPacket,
            ReaderAction::Feed { .. } | ReaderAction::Finish | ReaderAction::Drain => events[i]
                is Received || events[i] is NotReceived,
            ReaderAction::Decode => events[i] is Decoded,
            ReaderAction::Deliver | ReaderAction::End => events[i] is Wanted,
        }
}

/// Law: whenever a frame is handed out or there is said to be none, as many frames were handed
/// out as the decoder gave pictures; and there is said to be none only after the decoder was told
/// that there is no more and then gave no picture.
pub proof fn law_every_picture_delivered(reader: BitstreamReader, events: Seq<ReaderEvent>)
    requires
        !reader.end_of_stream,
        !reader.eof_sent,
        acceptable(reader, events),
        answered(reader, events),
        events.len() > 0,
    ensures
        ({
            let list = actions(reader, events);
            let n = events.len() as int;
            &&& list.last() is Deliver || list.last() is End ==> times(
                list,
                ReaderAction::Deliver,
            ) == pictures_given(events)
            &&& list.last() is End ==> events.last() is NotReceived && n > 1 && (
            list[n - 2] is Finish || list[n - 2] is Drain)
        }),
{
    lemma_delivered(reader, events);
    let n = events.len() as int;
    law_actions_of_history(reader, events, n - 1);
    let list = actions(reader, events);
    lemma_actions_len(reader, events);
    assert(list.last() == list[n - 1]);
    if list.last() is End {
        assert(events[0] is Wanted);
        assert(n > 1);
        law_actions_of_history(reader, events, n - 2);
        assert(ran_dry(events, n - 1));
        assert(list[n - 2] is Feed || list[n - 2] is Finish || list[n - 2] is Drain);
        if list[n - 2] is Feed {
            let j = choose|j: int| 0 <= j < n - 1 && (#[trigger] events[j]) is NoPacket;
            assert(events[n - 2] is Packet);
            assert(ran_dry(events, n - 2));
        }
    }
}

/// There is an action for every event.
proof fn lemma_actions_len(reader: BitstreamReader, events: Seq<ReaderEvent>)
    ensures
        actions(reader, events).len() == events.len(),
    decreases events.len(),
{
    if events.len() > 0 {
        lemma_actions_len(reader, events.drop_last());
    }
}

/// Every action but the last is followed by what comes of it without the last event too.
proof fn lemma_answered_front(reader: BitstreamReader, events: Seq<ReaderEvent>)
    requires
        answered(reader, events),
        events.len() > 0,
    ensures
        answered(reader, events.drop_last()),
{
    let front = events.drop_last();
    let list = actions(reader, events);
    let before = actions(reader, front);
    lemma_actions_len(reader, front);
    assert forall|i: int| 0 < i < front.len() implies match before[i - 1] {
        ReaderAction::ReadPacket => (#[trigger] front[i]) is Packet || front[i] is NoPacket,
        ReaderAction::Feed { .. } | ReaderAction::Finish | ReaderAction::Drain => front[i]
            is Received || front[i] is NotReceived,
        ReaderAction::Decode => front[i] is Decoded,
        ReaderAction::Deliver | ReaderAction::End => front[i] is Wanted,
    } by {
        assert(front[i] == events[i]);
        assert(list[i - 1] == before[i - 1]);
    }
}

/// Frames that were handed out, and the one that is on its way, are the pictures that were given.
proof fn lemma_delivered(reader: BitstreamReader, events: Seq<ReaderEvent>)
    requires
        !reader.end_of_stream,
        !reader.eof_sent,
        acceptable(reader, events),
        answered(reader, events),
    ensures
        pictures_given(events) == times(actions(reader, events), ReaderAction::Deliver) + if
            events.len() > 0 && actions(reader, events).last() is Decode {
            1nat
        } else {
            0nat
        },
    decreases events.len(),
{
    lemma_counts(events);
    lemma_actions_len(reader, events);
    if events.len() > 0 {
        let front = events.drop_last();
        let n = events.len() - 1;
        let list = actions(reader, events);
        let before = actions(reader, front);
        assert(list.drop_last() =~= before);
        assert(events.take(n) =~= front);
        lemma_acceptable_front(reader, events, n);
        lemma_answered_front(reader, events);
        lemma_delivered(reader, front);
        law_actions_of_history(reader, events, n);
        assert(list.last() == list[n]);
        lemma_actions_len(reader, front);
        if n > 0 {
            assert(list[n - 1] == before.last());
            law_actions_of_history(reader, events, n - 1);
            assert(events[n] == events.last());
        } else {
            assert(events[0] is Wanted);
            assert(front =~= Seq::empty());
        }
    }
}

/// Law: a number that counts frames is taken for the number of 64 bits with a sign that has the
/// same bits.
pub proof fn law_timestamp_kept(v: usize)
    ensures
        -0x8000_0000_0000_0000 <= as_timestamp(v) < 0x8000_0000_0000_0000,
        (v - as_timestamp(v)) % 0x1_0000_0000_0000_0000 == 0,
{
}

} // verus!
