//! Admission of recognition input into the per-session queue: each packet is charged
//! against the limits on packet size, queued packets, queued bytes and audio held in
//! memory; audio beyond the memory threshold is spilled to disk. A limit that is
//! reached is a visible failure, never silently dropped audio.
use vstd::prelude::*;

verus! {

/// Bytes a paced producer may have queued at once.
pub const PACED_QUEUE_BYTES: usize = 65536;

#[derive(Clone, Copy, Debug)]
pub struct QueueLimits {
    /// Audio kept in memory beyond this goes to disk.
    pub memory: usize,
    /// Audio held in memory or waiting to be written.
    pub resident: usize,
    /// Logical backlog.
    pub queued: usize,
    /// Queued packets.
    pub packets: usize,
    /// One packet's audio.
    pub packet: usize,
}

pub fn default_limits() -> (l: QueueLimits)
    ensures
        l.memory == 2097152,
        l.resident == 67108864,
        l.queued == 536870912,
        l.packets == 32768,
        l.packet == 65536,
{
    QueueLimits { memory: 2097152, resident: 67108864, queued: 536870912, packets: 32768, packet: 65536 }
}

/// What becomes of a packet offered to the queue.
#[derive(Clone, Copy, Debug, PartialEq, Eq, Structural)]
pub enum Admission {
    TooLarge,
    TooManyPackets,
    QueueFull,
    ResidentFull,
    /// Queued in memory.
    Memory,
    /// Queued, its audio written to disk.
    Spill,
}

/// The charges after admission, as the counters hold them.
pub open spec fn admission_of(
    limits: QueueLimits,
    packets: usize,
    queued: usize,
    resident: usize,
    audio_bytes: usize,
    cost: usize,
    raw_audio: bool,
) -> Admission {
    if audio_bytes > limits.packet {
        Admission::TooLarge
    } else if packets >= limits.packets {
        Admission::TooManyPackets
    } else if queued + cost > limits.queued {
        Admission::QueueFull
    } else if resident + audio_bytes > limits.resident {
        Admission::ResidentFull
    } else if resident + audio_bytes > limits.memory && raw_audio {
        Admission::Spill
    } else {
        Admission::Memory
    }
}

/// Decides a packet of `cost` bytes, `audio_bytes` of them audio, against the current
/// counters: too large a packet, too many packets, too large a backlog or too much
/// audio in memory is refused; raw audio beyond the memory threshold is spilled.
pub fn admission(
    limits: &QueueLimits,
    packets: usize,
    queued: usize,
    resident: usize,
    audio_bytes: usize,
    cost: usize,
    raw_audio: bool,
) -> (a: Admission)
    ensures
        a == admission_of(*limits, packets, queued, resident, audio_bytes, cost, raw_audio),
{
    if audio_bytes > limits.packet {
        Admission::TooLarge
    } else if packets >= limits.packets {
        Admission::TooManyPackets
    } else if queued > limits.queued || cost > limits.queued - queued {
        Admission::QueueFull
    } else if resident > limits.resident || audio_bytes > limits.resident - resident {
        Admission::ResidentFull
    } else if raw_audio && (resident > limits.memory || audio_bytes > limits.memory - resident) {
        Admission::Spill
    } else {
        Admission::Memory
    }
}

/// The failure reported for a refused packet.
pub fn admission_failure(a: Admission) -> (m: Option<String>)
    ensures
        a == Admission::TooLarge ==> (m matches Some(s) && s@ == "音频输入块超过暂存容量，请重新开始"@),
        a == Admission::TooManyPackets ==> (m matches Some(s) && s@ == "音频处理长期落后，音频排队数量已达上限，本次任务已停止"@),
        a == Admission::QueueFull ==> (m matches Some(s) && s@ == "音频处理长期落后，音频暂存已达上限，本次任务已停止"@),
        a == Admission::ResidentFull ==> (m matches Some(s) && s@ == "音频暂存来不及写入，内存缓冲已达上限，本次任务已停止"@),
        (a == Admission::Memory || a == Admission::Spill) ==> m is None,
{
    match a {
        Admission::TooLarge => Some(String::from_str("音频输入块超过暂存容量，请重新开始")),
        Admission::TooManyPackets => Some(String::from_str("音频处理长期落后，音频排队数量已达上限，本次任务已停止")),
        Admission::QueueFull => Some(String::from_str("音频处理长期落后，音频暂存已达上限，本次任务已停止")),
        Admission::ResidentFull => Some(String::from_str("音频暂存来不及写入，内存缓冲已达上限，本次任务已停止")),
        _ => None,
    }
}

/// What a paced producer does with a packet of `cost` bytes.
#[derive(Clone, Copy, Debug, PartialEq, Eq, Structural)]
pub enum Pacing {
    /// The packet can never fit the paced backlog.
    Refuse,
    /// Queue it now.
    Send,
    /// Wait until queued work is consumed.
    Wait,
}

pub fn pacing(queued: usize, cost: usize) -> (p: Pacing)
    ensures
        cost > PACED_QUEUE_BYTES ==> p == Pacing::Refuse,
        cost <= PACED_QUEUE_BYTES && queued + cost <= PACED_QUEUE_BYTES ==> p == Pacing::Send,
        cost <= PACED_QUEUE_BYTES && queued + cost > PACED_QUEUE_BYTES ==> p == Pacing::Wait,
{
    if cost > PACED_QUEUE_BYTES {
        Pacing::Refuse
    } else if queued <= PACED_QUEUE_BYTES && cost <= PACED_QUEUE_BYTES - queued {
        Pacing::Send
    } else {
        Pacing::Wait
    }
}

/// Law: every admitted packet keeps all counters within their limits.
pub proof fn law_admission_keeps_limits(
    limits: QueueLimits,
    packets: usize,
    queued: usize,
    resident: usize,
    audio_bytes: usize,
    cost: usize,
    raw_audio: bool,
)
    requires
        ({
            let a = admission_of(limits, packets, queued, resident, audio_bytes, cost, raw_audio);
            a == Admission::Memory || a == Admission::Spill
        }),
    ensures
        audio_bytes <= limits.packet,
        packets + 1 <= limits.packets,
        queued + cost <= limits.queued,
        resident + audio_bytes <= limits.resident,
{
}

} // verus!
