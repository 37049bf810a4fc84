//! `AVAudioPlayer`: plays an audio file through a queue of buffers, which are
//! filled with packets of the file.
use crate::objc::{Id, NIL};
use vstd::prelude::*;

verus! {

/// How many buffers a player has.
pub const NUMBER_BUFFERS: usize = 3;

pub const MAX_BUFFER_SIZE: u32 = 0x50000;

pub const MIN_BUFFER_SIZE: u32 = 0x4000;

/// The state of a player. Times and the volume are held by the bits of their
/// numbers.
#[derive(Clone, Copy, Debug, PartialEq, Eq, Structural)]
pub struct AVAudioPlayer {
    pub audio_file_url: Id,
    pub output_callback: u32,
    pub audio_file_id: Option<u32>,
    /// The frames in a packet, once they are known.
    pub frames_per_packet: Option<u32>,
    pub audio_queue: Option<u32>,
    pub audio_queue_buffers: Option<u32>,
    pub num_packets_to_read: u32,
    pub current_packet: i64,
    pub set_current_time: u64,
    pub volume: u32,
    pub is_playing: bool,
    pub num_of_loops: i32,
    pub finished: bool,
    pub delegate: Id,
}

/// The bits of the volume that a player starts with, which is one.
pub const FULL_VOLUME: u32 = 0x3f80_0000;

/// The packets of the file that a buffer is to be filled with.
#[derive(Clone, Copy, Debug, PartialEq, Eq, Structural)]
pub struct ReadRequest {
    pub start: i64,
    pub count: u32,
}

/// What is to be done with a buffer after the file has been read: it goes to the
/// queue with some bytes, the queue is stopped, or the file is read again from its
/// start.
#[derive(Clone, Copy, Debug, PartialEq, Eq, Structural)]
pub enum FillAction {
    Enqueue(u32),
    StopQueue,
    ReadAgain,
}

/// A part of starting to play.
#[derive(Clone, Copy, Debug, PartialEq, Eq, Structural)]
pub enum PlayStep {
    Prepare,
    StopQueue,
    Seek,
    Prime,
    Start,
}

/// How far all buffers have been filled before playing.
#[derive(Clone, Copy, Debug, PartialEq, Eq, Structural)]
pub struct Priming {
    pub filled: usize,
    /// Whether the file had nothing for the first buffer.
    pub nothing_enqueued: bool,
}

/// How far buffers have been filled, from the player after each of them.
pub open spec fn primed(after: Seq<AVAudioPlayer>) -> Priming {
    Priming {
        filled: after.len() as usize,
        nothing_enqueued: after.len() > 0 && after[0].finished,
    }
}

impl Priming {
    /// The next buffer to fill.
    pub fn next_buffer(&self) -> (buffer: Option<usize>)
        ensures
            buffer == if self.filled < NUMBER_BUFFERS {
                Some(self.filled)
            } else {
                None
            },
    {
        if self.filled < NUMBER_BUFFERS {
            Some(self.filled)
        } else {
            None
        }
    }

    /// Takes note of a buffer that has been filled: only the first one tells whether the
    /// player has come to the end.
    pub fn buffer_filled(&mut self, player: &AVAudioPlayer)
        requires
            old(self).filled < NUMBER_BUFFERS,
        ensures
            forall|after: Seq<AVAudioPlayer>|
                after.len() == old(self).filled && *old(self) == #[trigger] primed(after)
                    ==> *final(self) == primed(after.push(*player)),
            final(self).filled == old(self).filled + 1,
            final(self).nothing_enqueued == if old(self).filled == 0 {
                player.finished
            } else {
                old(self).nothing_enqueued
            },
    {
        if self.filled == 0 {
            self.nothing_enqueued = player.finished;
        }
        self.filled = self.filled + 1;
    }
}

impl AVAudioPlayer {
    /// A player that has just been made.
    pub fn new(output_callback: u32) -> (player: AVAudioPlayer)
        ensures
            player == (AVAudioPlayer {
                audio_file_url: NIL,
                output_callback,
                audio_file_id: None,
                frames_per_packet: None,
                audio_queue: None,
                audio_queue_buffers: None,
                num_packets_to_read: 0,
                current_packet: 0,
                set_current_time: 0,
                volume: FULL_VOLUME,
                is_playing: false,
                num_of_loops: 0,
                finished: false,
                delegate: NIL,
            }),
    {
        AVAudioPlayer {
            audio_file_url: NIL,
            output_callback,
            audio_file_id: None,
            frames_per_packet: None,
            audio_queue: None,
            audio_queue_buffers: None,
            num_packets_to_read: 0,
            current_packet: 0,
            set_current_time: 0,
            volume: FULL_VOLUME,
            is_playing: false,
            num_of_loops: 0,
            finished: false,
            delegate: NIL,
        }
    }

    /// What is read for a buffer; nothing while the player does not play.
    pub open spec fn wanted(&self) -> Option<ReadRequest> {
        if self.is_playing {
            Some(ReadRequest { start: self.current_packet, count: self.num_packets_to_read })
        } else {
            None
        }
    }

    pub fn begin_fill(&self) -> (request: Option<ReadRequest>)
        ensures
            request == self.wanted(),
    {
        if self.is_playing {
            Some(ReadRequest { start: self.current_packet, count: self.num_packets_to_read })
        } else {
            None
        }
    }

    /// The player after some packets have been read for a buffer, and what is to be
    /// done with the buffer. No packets mean the end of the file: it starts again as
    /// often as is set, without an end for a negative number.
    pub open spec fn filled(self, num_packets: u32, num_bytes: u32) -> (
        AVAudioPlayer,
        FillAction,
    ) {
        if num_packets > 0 {
            (
                AVAudioPlayer {
                    current_packet: (self.current_packet + num_packets) as i64,
                    ..self
                },
                FillAction::Enqueue(num_bytes),
            )
        } else if self.num_of_loops == 0 {
            (
                AVAudioPlayer { is_playing: false, finished: true, set_current_time: 0, ..self },
                FillAction::StopQueue,
            )
        } else {
            (
                AVAudioPlayer {
                    num_of_loops: if self.num_of_loops > 0 {
                        (self.num_of_loops - 1) as i32
                    } else {
                        self.num_of_loops
                    },
                    current_packet: 0,
                    ..self
                },
                FillAction::ReadAgain,
            )
        }
    }

    /// Takes note of what has been read for a buffer.
    pub fn end_fill(&mut self, num_packets: u32, num_bytes: u32) -> (action: FillAction)
        requires
            old(self).current_packet + num_packets <= i64::MAX,
        ensures
            (*final(self), action) == old(self).filled(num_packets, num_bytes),
    {
        if num_packets > 0 {
            self.current_packet = self.current_packet + num_packets as i64;
            FillAction::Enqueue(num_bytes)
        } else if self.num_of_loops == 0 {
            self.is_playing = false;
            self.finished = true;
            self.set_current_time = 0;
            FillAction::StopQueue
        } else {
            if self.num_of_loops > 0 {
                self.num_of_loops = self.num_of_loops - 1;
            }
            self.current_packet = 0;
            FillAction::ReadAgain
        }
    }

    /// Begins to fill all buffers before playing.
    pub fn begin_prime(&mut self) -> (priming: Priming)
        ensures
            *final(self) == (AVAudioPlayer { finished: false, is_playing: true, ..*old(self) }),
            priming == primed(Seq::empty()),
    {
        self.finished = false;
        self.is_playing = true;
        Priming { filled: 0, nothing_enqueued: false }
    }

    /// Ends the filling of all buffers: the player has finished only if the file
    /// had nothing for the first one, and it does not play yet.
    pub fn end_prime(&mut self, priming: Priming)
        ensures
            *final(self) == (AVAudioPlayer {
                finished: priming.nothing_enqueued,
                is_playing: false,
                ..*old(self)
            }),
    {
        self.is_playing = false;
        self.finished = priming.nothing_enqueued;
    }

    /// Whether the player plays and has not come to the end.
    pub fn is_playing_now(&self) -> (playing: bool)
        ensures
            playing == (self.is_playing && !self.finished),
    {
        self.is_playing && !self.finished
    }

    /// What has to be done to play, in order. A player that has finished is filled
    /// anew.
    pub fn play_steps(&self) -> (steps: Vec<PlayStep>)
        ensures
            steps@ == (if self.audio_queue is None {
                seq![PlayStep::Prepare]
            } else {
                Seq::empty()
            }) + (if self.finished {
                seq![PlayStep::StopQueue, PlayStep::Seek, PlayStep::Prime]
            } else {
                Seq::empty()
            }) + seq![PlayStep::Start],
    {
        let mut steps: Vec<PlayStep> = Vec::new();
        if self.audio_queue.is_none() {
            steps.push(PlayStep::Prepare);
        }
        if self.finished {
            steps.push(PlayStep::StopQueue);
            steps.push(PlayStep::Seek);
            steps.push(PlayStep::Prime);
        }
        steps.push(PlayStep::Start);
        assert(steps@ =~= (if self.audio_queue is None {
            seq![PlayStep::Prepare]
        } else {
            Seq::empty()
        }) + (if self.finished {
            seq![PlayStep::StopQueue, PlayStep::Seek, PlayStep::Prime]
        } else {
            Seq::empty()
        }) + seq![PlayStep::Start]);
        steps
    }

    /// The player plays from now on.
    pub fn started(&mut self)
        ensures
            *final(self) == (AVAudioPlayer { is_playing: true, ..*old(self) }),
    {
        self.is_playing = true;
    }

    /// Stops playing for a while; the queue to pause, if there is one.
    pub fn pause(&mut self) -> (queue: Option<u32>)
        ensures
            queue == old(self).audio_queue,
            *final(self) == (AVAudioPlayer { is_playing: false, ..*old(self) }),
    {
        self.is_playing = false;
        self.audio_queue
    }

    /// A player in its first state, but for its file, its delegate and how often it
    /// repeats.
    pub open spec fn stopped(self) -> AVAudioPlayer {
        AVAudioPlayer {
            frames_per_packet: None,
            audio_queue: None,
            audio_queue_buffers: None,
            num_packets_to_read: 0,
            current_packet: 0,
            set_current_time: 0,
            volume: FULL_VOLUME,
            is_playing: false,
            finished: false,
            ..self
        }
    }

    /// Stops playing: the queue to dispose of and the buffers to free. Nothing
    /// happens where there is no queue.
    pub fn stop(&mut self) -> (parts: Option<(u32, Option<u32>)>)
        ensures
            match old(self).audio_queue {
                Some(queue) => parts == Some((queue, old(self).audio_queue_buffers)) && *final(self)
                    == old(self).stopped(),
                None => parts is None && *final(self) == *old(self),
            },
    {
        match self.audio_queue {
            Some(queue) => {
                let buffers: Option<u32> = self.audio_queue_buffers;
                self.frames_per_packet = None;
                self.audio_queue = None;
                self.audio_queue_buffers = None;
                self.num_packets_to_read = 0;
                self.current_packet = 0;
                self.set_current_time = 0;
                self.volume = FULL_VOLUME;
                self.is_playing = false;
                self.finished = false;
                Some((queue, buffers))
            },
            None => None,
        }
    }

    /// The player once the time to play from has been set.
    pub open spec fn sought(self, time: u64, within: bool, packet: i64) -> AVAudioPlayer {
        AVAudioPlayer {
            set_current_time: time,
            current_packet: if self.frames_per_packet is Some && self.audio_file_id is Some {
                if within {
                    packet
                } else {
                    0
                }
            } else {
                self.current_packet
            },
            ..self
        }
    }

    /// Sets the time to play from. Where the file is known, `packet` is the packet
    /// of that time; a time outside of the file stands for its start.
    pub fn seek(&mut self, time: u64, within: bool, packet: i64)
        ensures
            *final(self) == (AVAudioPlayer {
                set_current_time: time,
                current_packet: if old(self).frames_per_packet is Some
                    && old(self).audio_file_id is Some {
                    if within {
                        packet
                    } else {
                        0
                    }
                } else {
                    old(self).current_packet
                },
                ..*old(self)
            }),
            *final(self) == old(self).sought(time, within, packet),
    {
        self.set_current_time = time;
        if self.frames_per_packet.is_some() && self.audio_file_id.is_some() {
            self.current_packet = if within {
                packet
            } else {
                0
            };
        }
    }

    /// Sets the volume; the queue whose volume changes, if there is one.
    pub fn set_volume(&mut self, volume: u32) -> (queue: Option<u32>)
        ensures
            queue == old(self).audio_queue,
            *final(self) == (AVAudioPlayer { volume, ..*old(self) }),
    {
        self.volume = volume;
        self.audio_queue
    }

    /// Takes note of the queue and the buffers that have been made for the file.
    pub fn prepared(
        &mut self,
        frames_per_packet: u32,
        queue: u32,
        buffers: u32,
        num_packets_to_read: u32,
    )
        ensures
            *final(self) == (AVAudioPlayer {
                frames_per_packet: Some(frames_per_packet),
                audio_queue: Some(queue),
                audio_queue_buffers: Some(buffers),
                num_packets_to_read,
                ..*old(self)
            }),
    {
        self.frames_per_packet = Some(frames_per_packet);
        self.audio_queue = Some(queue);
        self.audio_queue_buffers = Some(buffers);
        self.num_packets_to_read = num_packets_to_read;
    }
}

/// The size of a buffer before it is brought into bounds.
pub open spec fn raw_buffer_size(frames_per_packet: u32, packets: u32, max_packet_size: u32) -> int {
    if frames_per_packet != 0 {
        packets * max_packet_size
    } else if MAX_BUFFER_SIZE > max_packet_size {
        MAX_BUFFER_SIZE as int
    } else {
        max_packet_size as int
    }
}

pub open spec fn bounded_size(size: int, max_packet_size: u32) -> int {
    if size > MAX_BUFFER_SIZE && size > max_packet_size {
        MAX_BUFFER_SIZE as int
    } else if size < MIN_BUFFER_SIZE {
        MIN_BUFFER_SIZE as int
    } else {
        size
    }
}

/// The size of a buffer and how many packets are read for it. `packets` is the
/// number of packets that play for the wanted time; it counts where packets have a
/// known number of frames.
pub fn derive_buffer_size(frames_per_packet: u32, packets: u32, max_packet_size: u32) -> (r: (
    u32,
    u32,
))
    requires
        max_packet_size > 0,
        frames_per_packet != 0 ==> packets * max_packet_size <= u32::MAX,
    ensures
        r.0 == bounded_size(
            raw_buffer_size(frames_per_packet, packets, max_packet_size),
            max_packet_size,
        ),
        r.1 == r.0 / max_packet_size,
{
    let mut size: u32 = if frames_per_packet != 0 {
        packets * max_packet_size
    } else if MAX_BUFFER_SIZE > max_packet_size {
        MAX_BUFFER_SIZE
    } else {
        max_packet_size
    };
    if size > MAX_BUFFER_SIZE && size > max_packet_size {
        size = MAX_BUFFER_SIZE;
    } else if size < MIN_BUFFER_SIZE {
        size = MIN_BUFFER_SIZE;
    }
    (size, size / max_packet_size)
}

/// A buffer is never smaller than the least size, and never larger than both the
/// largest size and a packet.
pub proof fn law_buffer_size(frames_per_packet: u32, packets: u32, max_packet_size: u32)
    ensures
        ({
            let size = bounded_size(
                raw_buffer_size(frames_per_packet, packets, max_packet_size),
                max_packet_size,
            );
            &&& MIN_BUFFER_SIZE <= size
            &&& size <= MAX_BUFFER_SIZE || size <= max_packet_size
        }),
{
}

/// The player after the file has ended some times in a row.
pub open spec fn after_ends(player: AVAudioPlayer, times: nat) -> AVAudioPlayer
    decreases times,
{
    if times == 0 {
        player
    } else {
        after_ends(player, (times - 1) as nat).filled(0, 0).0
    }
}

/// A file is repeated as often as is set and then the player stops; with a negative
/// number it is repeated without an end.
pub proof fn law_loops(player: AVAudioPlayer, times: nat)
    ensures
        player.num_of_loops >= times ==> after_ends(player, times).num_of_loops
            == player.num_of_loops - times,
        player.num_of_loops < 0 ==> {
            &&& after_ends(player, times).num_of_loops == player.num_of_loops
            &&& after_ends(player, times).filled(0, 0).1 == FillAction::ReadAgain
        },
        player.num_of_loops == times ==> after_ends(player, times).filled(0, 0).1
            == FillAction::StopQueue,
    decreases times,
{
    if times > 0 {
        law_loops(player, (times - 1) as nat);
    }
}

/// A player that has stopped plays nothing and keeps its file and its delegate.
pub proof fn law_stopped(player: AVAudioPlayer)
    ensures
        player.stopped().wanted() is None,
        player.stopped().audio_file_id == player.audio_file_id,
        player.stopped().delegate == player.delegate,
        player.stopped().num_of_loops == player.num_of_loops,
        player.stopped().stopped() == player.stopped(),
{
}

/// A buffer holds the packets that are wanted, or what fits a whole buffer where packets
/// have no fixed number of frames; it is held between 16 and 320 KiB, but a packet that is
/// larger is not cut.
pub proof fn law_buffer_sizes(frames: u32, packets: u32, packet: u32)
    ensures
        ({
            let size = bounded_size(raw_buffer_size(frames, packets, packet), packet);
            let wanted = packets * packet;
            &&& frames != 0 && 16_384 <= wanted <= 327_680 ==> size == wanted
            &&& frames != 0 && wanted < 16_384 ==> size == 16_384
            &&& frames != 0 && wanted > 327_680 && wanted > packet ==> size == 327_680
            &&& frames != 0 && wanted > 327_680 && wanted <= packet ==> size == wanted
            &&& frames == 0 && packet <= 327_680 ==> size == 327_680
            &&& frames == 0 && packet > 327_680 ==> size == packet
        }),
{
}

/// A player that is playing wants the packets behind those that it has read. What comes is
/// queued and counts as read; at the end of the file it begins again while loops are left,
/// and else it stops.
pub proof fn law_filled(player: AVAudioPlayer, packets: u32, bytes: u32)
    requires
        player.current_packet + packets <= i64::MAX,
    ensures
        player.is_playing ==> (player.wanted() matches Some(r) && r.start == player.current_packet
            && r.count == player.num_packets_to_read),
        !player.is_playing ==> player.wanted() is None,
        packets > 0 ==> {
            let (after, action) = player.filled(packets, bytes);
            &&& action == FillAction::Enqueue(bytes)
            &&& after.current_packet == player.current_packet + packets
            &&& after.is_playing == player.is_playing && after.finished == player.finished
            &&& after.num_of_loops == player.num_of_loops
        },
        ({
            let (after, action) = player.filled(0, bytes);
            &&& player.num_of_loops == 0 ==> action is StopQueue && !after.is_playing
                && after.finished && after.set_current_time == 0
            &&& player.num_of_loops != 0 ==> action is ReadAgain && after.current_packet == 0
                && after.is_playing == player.is_playing && after.finished == player.finished
            &&& player.num_of_loops > 0 ==> after.num_of_loops == player.num_of_loops - 1
            &&& player.num_of_loops < 0 ==> after.num_of_loops == player.num_of_loops
        }),
{
}

/// A player that has been stopped is at the start of its file, with full volume, and has
/// neither a queue nor a time to go to.
pub proof fn law_stopped_player(player: AVAudioPlayer)
    ensures
        ({
            let after = player.stopped();
            &&& !after.is_playing && !after.finished
            &&& after.current_packet == 0 && after.set_current_time == 0
            &&& after.volume == 0x3f80_0000
            &&& after.audio_queue is None && after.audio_queue_buffers is None
            &&& after.frames_per_packet is None && after.num_packets_to_read == 0
            &&& after.audio_file_url == player.audio_file_url && after.output_callback
                == player.output_callback
        }),
{
}

/// A player goes on from the packet of the time that has been set, or from the start for a
/// time outside of the file. Before the file is known it only keeps the time.
pub proof fn law_sought(player: AVAudioPlayer, time: u64, packet: i64, within: bool)
    ensures
        player.sought(time, within, packet).set_current_time == time,
        player.frames_per_packet is Some && player.audio_file_id is Some ==> player.sought(
            time,
            true,
            packet,
        ).current_packet == packet && player.sought(time, false, packet).current_packet == 0,
        player.frames_per_packet is None || player.audio_file_id is None ==> player.sought(
            time,
            within,
            packet,
        ).current_packet == player.current_packet,
        player.sought(time, within, packet).is_playing == player.is_playing,
{
}

} // verus!
